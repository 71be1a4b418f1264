use kalah::{minimax, Kalah, TranspositionCache, Turn};

const BEGIN: [u8; 14] = [6, 6, 6, 6, 6, 6, 0, 6, 6, 6, 6, 6, 6, 0];

fn at(turn: Turn, pits: [u8; 14]) -> Kalah {
    Kalah::from_pits(turn, pits).expect("no more than 255 stones")
}

#[test]
fn a_cache_needs_room_for_an_entry() {
    assert!(TranspositionCache::new(0).is_none());
    assert!(TranspositionCache::new(1).is_some());
    assert!(TranspositionCache::new(500_000_000).is_some());
    assert!(TranspositionCache::new(usize::MAX).is_some());
}

#[test]
fn a_new_cache_is_empty() {
    let mut cache = TranspositionCache::new(8).unwrap();
    assert_eq!(cache.len(), 0);
    let k = at(Turn::Player1, BEGIN);
    assert_eq!(cache.lookup(&k, 0, true), None);
    assert_eq!(cache.lookup(&k, 3, false), None);
    assert_eq!(cache.len(), 0);
}

#[test]
fn a_search_stores_its_exact_outcome() {
    let mut cache = TranspositionCache::new(1000).unwrap();
    let k = at(Turn::Player1, BEGIN);
    let found = minimax(&k, 1, i32::MIN, i32::MAX, true, &mut cache);
    assert_eq!(found, (-4, 5));
    // the root and its ten children
    assert_eq!(cache.len(), 11);
    assert_eq!(cache.lookup(&k, 1, true), Some((-4, 5)));
    for (child, _) in k.get_children() {
        assert_eq!(cache.lookup(&child, 0, false), Some((child.heuristic(), 0)));
    }
    assert_eq!(cache.len(), 11);
}

#[test]
fn entries_are_kept_apart_by_depth_aim_and_side_to_move() {
    let mut cache = TranspositionCache::new(1000).unwrap();
    let k = at(Turn::Player1, BEGIN);
    minimax(&k, 1, i32::MIN, i32::MAX, true, &mut cache);
    assert_eq!(cache.lookup(&k, 1, false), None);
    assert_eq!(cache.lookup(&k, 0, true), None);
    assert_eq!(cache.lookup(&k, 2, true), None);
    assert_eq!(cache.lookup(&at(Turn::Player2, BEGIN), 1, true), None);
    let mut other = BEGIN;
    other[0] = 5;
    other[6] = 1;
    assert_eq!(cache.lookup(&at(Turn::Player1, other), 1, true), None);
    assert_eq!(cache.lookup(&k, 1, true), Some((-4, 5)));
}

#[test]
fn an_outcome_outside_the_window_is_not_stored() {
    let mut cache = TranspositionCache::new(1000).unwrap();
    let k = at(Turn::Player1, BEGIN);
    // every child scores below 10: the outcome is an upper bound only
    let found = minimax(&k, 1, 10, 20, true, &mut cache);
    assert_eq!(found, (-4, 5));
    assert_eq!(cache.lookup(&k, 1, true), None);
    // the children are leaves, and leaves are always exact
    assert_eq!(cache.len(), 10);
    // a closed window stops after the first child
    let mut cache = TranspositionCache::new(1000).unwrap();
    let found = minimax(&k, 1, 7, 7, true, &mut cache);
    assert_eq!(found, (-8, 0));
    assert_eq!(cache.len(), 1);
    assert_eq!(cache.lookup(&k, 1, true), None);
}

#[test]
fn a_full_cache_forgets_the_entry_used_least_recently() {
    let mut cache = TranspositionCache::new(2).unwrap();
    let a = at(Turn::Player1, [1, 0, 0, 0, 0, 0, 0, 1, 0, 0, 0, 0, 0, 0]);
    let b = at(Turn::Player1, [0, 1, 0, 0, 0, 0, 0, 1, 0, 0, 0, 0, 0, 0]);
    let c = at(Turn::Player1, [0, 0, 1, 0, 0, 0, 3, 1, 0, 0, 0, 0, 0, 0]);
    assert_eq!(minimax(&a, 0, i32::MIN, i32::MAX, true, &mut cache), (0, 0));
    assert_eq!(minimax(&b, 0, i32::MIN, i32::MAX, true, &mut cache), (0, 0));
    assert_eq!(cache.len(), 2);
    // using `a` makes `b` the entry that was used least recently
    assert_eq!(cache.lookup(&a, 0, true), Some((0, 0)));
    assert_eq!(minimax(&c, 0, i32::MIN, i32::MAX, true, &mut cache), (6, 0));
    assert_eq!(cache.len(), 2);
    assert_eq!(cache.lookup(&b, 0, true), None);
    assert_eq!(cache.lookup(&a, 0, true), Some((0, 0)));
    assert_eq!(cache.lookup(&c, 0, true), Some((6, 0)));
}

#[test]
fn storing_again_under_a_key_keeps_one_entry() {
    let mut cache = TranspositionCache::new(4).unwrap();
    let a = at(Turn::Player2, [1, 0, 0, 0, 0, 0, 0, 1, 0, 0, 0, 0, 0, 5]);
    for _ in 0..3 {
        // a window that shuts the cached score out makes the search store it anew
        assert_eq!(minimax(&a, 0, 50, 60, false, &mut cache), (-10, 0));
        assert_eq!(cache.len(), 1);
    }
    assert_eq!(cache.lookup(&a, 0, false), Some((-10, 0)));
}
