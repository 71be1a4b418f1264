use kalah::{Kalah, MoveError, Turn};

const START: [u8; 14] = [6, 6, 6, 6, 6, 6, 0, 6, 6, 6, 6, 6, 6, 0];

fn position(turn: Turn, pits: [u8; 14]) -> Kalah {
    Kalah::from_pits(turn, pits).expect("no more than 255 stones")
}

fn stones(k: &Kalah) -> u32 {
    k.pits().iter().map(|&p| p as u32).sum()
}

#[test]
fn new_game_has_six_stones_in_each_pit() {
    let k = Kalah::new();
    assert_eq!(k.turn(), Turn::Player2);
    assert_eq!(k.pits(), START);
    assert_eq!(stones(&k), 72);
    assert!(!k.game_over());
    assert_eq!(k.heuristic(), 0);
}

#[test]
fn from_pits_keeps_turn_and_cells() {
    let pits = [1, 2, 3, 4, 5, 6, 7, 8, 9, 10, 11, 12, 13, 14];
    let k = position(Turn::Player1, pits);
    assert_eq!(k.turn(), Turn::Player1);
    assert_eq!(k.pits(), pits);
    assert_eq!(k, position(Turn::Player1, pits));
    assert_ne!(k, position(Turn::Player2, pits));
}

#[test]
fn from_pits_refuses_more_than_255_stones() {
    let mut pits = [0u8; 14];
    pits[0] = 255;
    assert!(Kalah::from_pits(Turn::Player1, pits).is_some());
    pits[13] = 1;
    assert!(Kalah::from_pits(Turn::Player1, pits).is_none());
    assert!(Kalah::from_pits(Turn::Player2, [255; 14]).is_none());
    let mut spread = [18u8; 14];
    spread[3] = 21;
    assert!(Kalah::from_pits(Turn::Player2, spread).is_some());
    spread[3] = 22;
    assert!(Kalah::from_pits(Turn::Player2, spread).is_none());
}

#[test]
fn turn_helpers_name_the_cells_of_each_side() {
    assert_eq!(Turn::Player1.other(), Turn::Player2);
    assert_eq!(Turn::Player2.other(), Turn::Player1);
    assert_eq!(Turn::Player1.store_index(), 6);
    assert_eq!(Turn::Player2.store_index(), 13);
    assert_eq!(Turn::Player1.first_index(), 0);
    assert_eq!(Turn::Player2.first_index(), 7);
    for i in 0..20 {
        assert_eq!(Turn::Player1.has_pit(i), i < 6);
        assert_eq!(Turn::Player2.has_pit(i), (7..13).contains(&i));
    }
}

#[test]
fn single_stone_into_empty_own_pit_captures() {
    let mut k = position(Turn::Player1, [1, 0, 0, 0, 0, 0, 0, 6, 6, 6, 6, 6, 6, 0]);
    let last = k.move_stones(0);
    assert_eq!(last, 1);
    let pits = k.pits();
    assert_eq!(pits[1], 0);
    assert_eq!(pits[11], 0);
    assert_eq!(pits[6], 7);
    assert_eq!(pits, [0, 0, 0, 0, 0, 0, 7, 6, 6, 6, 6, 0, 6, 0]);
    assert_eq!(k.turn(), Turn::Player2);
    assert_eq!(stones(&k), 37);
}

#[test]
fn capture_of_an_empty_opposite_pit_takes_the_single_stone() {
    let mut k = position(Turn::Player2, [0, 0, 0, 3, 0, 0, 0, 0, 1, 0, 0, 0, 0, 0]);
    let last = k.move_stones(8);
    assert_eq!(last, 9);
    assert_eq!(k.pits(), [0, 0, 0, 0, 0, 0, 0, 0, 0, 0, 0, 0, 0, 4]);
    assert_eq!(k.turn(), Turn::Player1);
}

#[test]
fn no_capture_in_a_pit_of_the_opponent() {
    let mut k = position(Turn::Player1, [0, 0, 0, 0, 0, 2, 0, 0, 5, 0, 0, 0, 0, 0]);
    let last = k.move_stones(5);
    assert_eq!(last, 7);
    assert_eq!(k.pits(), [0, 0, 0, 0, 0, 0, 1, 1, 5, 0, 0, 0, 0, 0]);
    assert_eq!(k.turn(), Turn::Player2);
}

#[test]
fn no_capture_in_a_pit_that_held_stones() {
    let mut k = position(Turn::Player1, [1, 2, 0, 0, 0, 0, 0, 0, 0, 0, 0, 4, 0, 0]);
    let last = k.move_stones(0);
    assert_eq!(last, 1);
    assert_eq!(k.pits(), [0, 3, 0, 0, 0, 0, 0, 0, 0, 0, 0, 4, 0, 0]);
}

#[test]
fn last_stone_in_own_store_keeps_the_turn() {
    let mut k = position(Turn::Player1, START);
    let last = k.move_stones(0);
    assert_eq!(last, 6);
    assert_eq!(k.turn(), Turn::Player1);
    assert_eq!(k.pits(), [0, 7, 7, 7, 7, 7, 1, 6, 6, 6, 6, 6, 6, 0]);

    let mut k = position(Turn::Player2, START);
    let last = k.move_stones(7);
    assert_eq!(last, 13);
    assert_eq!(k.turn(), Turn::Player2);
    assert_eq!(k.pits(), [6, 6, 6, 6, 6, 6, 0, 0, 7, 7, 7, 7, 7, 1]);
}

#[test]
fn last_stone_elsewhere_passes_the_turn() {
    let mut k = position(Turn::Player1, START);
    let last = k.move_stones(5);
    assert_eq!(last, 11);
    assert_eq!(k.turn(), Turn::Player2);
    assert_eq!(k.pits(), [6, 6, 6, 6, 6, 0, 1, 7, 7, 7, 7, 7, 6, 0]);

    let mut k = position(Turn::Player2, START);
    let last = k.move_stones(12);
    assert_eq!(last, 4);
    assert_eq!(k.turn(), Turn::Player1);
    assert_eq!(k.pits(), [7, 7, 7, 7, 7, 6, 0, 6, 6, 6, 6, 6, 0, 1]);

    let mut k = position(Turn::Player1, START);
    let last = k.move_stones(1);
    assert_eq!(last, 7);
    assert_eq!(k.turn(), Turn::Player2);
}

#[test]
fn sowing_passes_over_the_store_of_the_opponent() {
    let mut k = position(Turn::Player2, [1, 2, 3, 4, 5, 6, 7, 8, 9, 10, 11, 30, 0, 14]);
    let last = k.move_stones(11);
    assert_eq!(last, 1);
    assert_eq!(k.pits(), [4, 5, 5, 6, 7, 8, 7, 10, 11, 12, 13, 2, 3, 17]);
    assert_eq!(k.turn(), Turn::Player1);
    assert_eq!(stones(&k), 110);

    let mut k = position(Turn::Player1, [0, 0, 0, 0, 0, 10, 0, 0, 0, 0, 0, 0, 0, 5]);
    let last = k.move_stones(5);
    // the last stone lies alone in pit 2 and takes the stone opposite, in pit 10
    assert_eq!(last, 2);
    assert_eq!(k.pits(), [1, 1, 0, 0, 0, 0, 3, 1, 1, 1, 0, 1, 1, 5]);
}

#[test]
fn thirteen_stones_end_in_the_emptied_pit_and_capture() {
    let mut k = position(Turn::Player1, [13, 0, 0, 0, 0, 0, 0, 1, 1, 1, 1, 1, 1, 0]);
    let last = k.move_stones(0);
    assert_eq!(last, 0);
    assert_eq!(k.pits(), [0, 1, 1, 1, 1, 1, 4, 2, 2, 2, 2, 2, 0, 0]);
    assert_eq!(k.turn(), Turn::Player2);
}

#[test]
fn a_pit_of_255_stones_can_be_sown() {
    let mut pits = [0u8; 14];
    pits[9] = 255;
    let mut k = position(Turn::Player2, pits);
    let last = k.move_stones(9);
    // 255 = 19 * 13 + 8: every cell but cell 6 takes 19, the first eight one more.
    assert_eq!(last, 3);
    assert_eq!(k.pits(), [20, 20, 20, 20, 19, 19, 0, 19, 19, 19, 20, 20, 20, 20]);
    assert_eq!(stones(&k), 255);
    assert_eq!(k.turn(), Turn::Player1);
}

#[test]
fn apply_move_returns_the_new_position_and_keeps_the_old() {
    let k = position(Turn::Player1, START);
    let (next, last) = k.apply_move(2).expect("legal");
    assert_eq!(last, 8);
    assert_eq!(next.pits(), [6, 6, 0, 7, 7, 7, 1, 7, 7, 6, 6, 6, 6, 0]);
    assert_eq!(next.turn(), Turn::Player2);
    assert_eq!(k.pits(), START);
    assert_eq!(k.turn(), Turn::Player1);

    let mut moved = k;
    assert_eq!(moved.move_stones(2), last);
    assert_eq!(moved, next);
}

#[test]
fn apply_move_refuses_cells_that_are_not_pits_of_the_mover() {
    let k = position(Turn::Player1, START);
    for index in [6usize, 7, 12, 13, 14, 100, usize::MAX] {
        assert_eq!(k.apply_move(index), Err(MoveError::NotOwnPit));
    }
    let k = position(Turn::Player2, START);
    for index in [0usize, 5, 6, 13, 14, 1000] {
        assert_eq!(k.apply_move(index), Err(MoveError::NotOwnPit));
    }
    assert!(k.apply_move(7).is_ok());
    assert!(k.apply_move(12).is_ok());
}

#[test]
fn apply_move_refuses_an_empty_pit() {
    let k = position(Turn::Player1, [0, 3, 0, 0, 0, 0, 0, 0, 0, 0, 0, 0, 2, 0]);
    assert_eq!(k.apply_move(0), Err(MoveError::EmptyPit));
    assert_eq!(k.apply_move(5), Err(MoveError::EmptyPit));
    assert!(k.apply_move(1).is_ok());
    assert_eq!(k.apply_move(12), Err(MoveError::NotOwnPit));
}

#[test]
fn game_is_over_when_one_side_has_no_stone_in_its_pits() {
    let over = [
        [0, 0, 0, 0, 0, 0, 0, 6, 6, 6, 6, 6, 6, 0],
        [0, 0, 0, 0, 0, 0, 40, 1, 0, 0, 0, 0, 0, 9],
        [1, 2, 3, 4, 5, 6, 7, 0, 0, 0, 0, 0, 0, 8],
        [0, 0, 0, 0, 0, 0, 0, 0, 0, 0, 0, 0, 0, 0],
        [0, 0, 0, 0, 0, 0, 30, 0, 0, 0, 0, 0, 0, 42],
    ];
    for pits in over {
        assert!(position(Turn::Player1, pits).game_over());
        assert!(position(Turn::Player2, pits).game_over());
    }
    let on = [
        START,
        [0, 0, 0, 0, 0, 1, 0, 1, 0, 0, 0, 0, 0, 0],
        [1, 0, 0, 0, 0, 0, 0, 0, 0, 0, 0, 0, 1, 0],
        [0, 0, 1, 0, 0, 0, 35, 0, 0, 0, 1, 0, 0, 35],
    ];
    for pits in on {
        assert!(!position(Turn::Player1, pits).game_over());
        assert!(!position(Turn::Player2, pits).game_over());
    }
}

#[test]
fn heuristic_is_twice_the_lead_of_the_first_player() {
    assert_eq!(position(Turn::Player1, START).heuristic(), 0);
    let pits = [2, 0, 5, 1, 0, 3, 9, 4, 1, 0, 6, 2, 0, 8];
    assert_eq!(position(Turn::Player1, pits).heuristic(), -2);
    assert_eq!(position(Turn::Player2, pits).heuristic(), -2);
    assert_eq!(
        position(Turn::Player1, [1, 2, 3, 4, 5, 6, 7, 0, 1, 0, 2, 0, 3, 4]).heuristic(),
        36
    );
    let mut all_first = [0u8; 14];
    all_first[6] = 255;
    assert_eq!(position(Turn::Player1, all_first).heuristic(), 510);
    let mut all_second = [0u8; 14];
    all_second[10] = 255;
    assert_eq!(position(Turn::Player1, all_second).heuristic(), -510);
    // terminal positions are scored alike
    assert_eq!(
        position(Turn::Player2, [0, 0, 0, 0, 0, 0, 20, 3, 0, 0, 1, 0, 0, 10]).heuristic(),
        12
    );
}

#[test]
fn stones_are_conserved_and_stores_never_shrink_in_a_long_game() {
    let mut k = Kalah::new();
    let mut seed: u64 = 12345;
    let mut played = Vec::new();
    while !k.game_over() && played.len() < 200 {
        let first = k.turn().first_index();
        let pits = k.pits();
        let legal: Vec<usize> = (first..first + 6).filter(|&i| pits[i] > 0).collect();
        seed = seed
            .wrapping_mul(6364136223846793005)
            .wrapping_add(1442695040888963407);
        let index = legal[((seed >> 33) % legal.len() as u64) as usize];
        let mover = k.turn();
        let last = k.move_stones(index);
        played.push(index);
        assert_eq!(stones(&k), 72);
        assert!(k.pits()[6] >= pits[6]);
        assert!(k.pits()[13] >= pits[13]);
        assert_ne!(last, mover.other().store_index());
        assert_eq!(k.turn() == mover, last == mover.store_index());
    }
    assert_eq!(played.len(), 52);
    assert_eq!(k.pits(), [3, 4, 0, 0, 11, 0, 27, 0, 0, 0, 0, 0, 0, 27]);
    assert_eq!(k.turn(), Turn::Player1);
    assert_eq!(
        played,
        vec![
            11, 1, 9, 1, 7, 0, 10, 4, 9, 3, 12, 3, 11, 2, 7, 4, 10, 5, 9, 0, 11, 1, 8, 1, 11, 8,
            3, 8, 2, 10, 5, 8, 1, 7, 0, 11, 10, 2, 9, 3, 10, 0, 11, 12, 8, 2, 9, 5, 10, 11, 3, 12
        ]
    );
}
