//! The executable position: the side to move and fourteen cells of stones.
use crate::board::{
    lemma_move, lemma_receiver, lemma_sow_step, lemma_sown_none, lemma_sown_total, stones, Board,
    Turn,
};
use vstd::prelude::*;

verus! {

/// Why a move was refused.
#[derive(Clone, Copy, PartialEq, Eq, Debug, Structural)]
pub enum MoveError {
    /// The index is not one of the six pits of the side to move.
    NotOwnPit,
    /// The pit holds no stone.
    EmptyPit,
}

/// The stones of fourteen cells as numbers without bound.
pub open spec fn cells(pits: [u8; 14]) -> Seq<int> {
    Seq::new(14, |i: int| pits[i] as int)
}

impl Turn {
    /// The side that does not have this turn.
    pub fn other(self) -> (side: Turn)
        ensures
            side == self.opponent(),
    {
        match self {
            Turn::Player1 => Turn::Player2,
            Turn::Player2 => Turn::Player1,
        }
    }

    /// The index of the store of this side.
    pub fn store_index(self) -> (i: usize)
        ensures
            i == self.store(),
    {
        match self {
            Turn::Player1 => 6,
            Turn::Player2 => 13,
        }
    }

    /// The index of the lowest pit of this side.
    pub fn first_index(self) -> (i: usize)
        ensures
            i == self.first_pit(),
    {
        match self {
            Turn::Player1 => 0,
            Turn::Player2 => 7,
        }
    }

    /// Whether `i` is the index of one of the six pits of this side.
    pub fn has_pit(self, i: usize) -> (yes: bool)
        ensures
            yes == self.owns(i as int),
    {
        let first = self.first_index();
        first <= i && i < first + 6
    }
}

/// A position of the game. Its stones never number more than 255, so that
/// any cell can hold all of them.
#[derive(Clone, Copy, PartialEq, Eq, Hash, Debug)]
pub struct Kalah {
    players_turn: Turn,
    game: [u8; 14],
}

impl View for Kalah {
    type V = Board;

    closed spec fn view(&self) -> Board {
        Board { turn: self.players_turn, pits: cells(self.game) }
    }
}

impl Kalah {
    /// What holds of every position: it has no more than 255 stones.
    #[verifier::type_invariant]
    pub open spec fn inv(self) -> bool {
        self@.wf()
    }

    /// The position at the start of a game: six stones in each pit, the
    /// stores empty, the second player to move.
    pub fn new() -> (k: Kalah)
        ensures
            k@ == Board::opening(),
            k@.wf(),
    {
        let k = Kalah {
            players_turn: Turn::Player2,
            game: [6, 6, 6, 6, 6, 6, 0, 6, 6, 6, 6, 6, 6, 0],
        };
        assert(k@.pits =~= seq![6int, 6, 6, 6, 6, 6, 0, 6, 6, 6, 6, 6, 6, 0]);
        k
    }

    /// The position with `turn` to move and `pits` on the board, unless the
    /// cells hold more than 255 stones in all.
    pub fn from_pits(turn: Turn, pits: [u8; 14]) -> (made: Option<Kalah>)
        ensures
            made is Some <==> stones(cells(pits)) <= 255,
            made matches Some(k) ==> k@.turn == turn && k@.pits == cells(pits) && k@.wf(),
    {
        let total: u32 = pits[0] as u32 + pits[1] as u32 + pits[2] as u32 + pits[3] as u32
            + pits[4] as u32 + pits[5] as u32 + pits[6] as u32 + pits[7] as u32 + pits[8] as u32
            + pits[9] as u32 + pits[10] as u32 + pits[11] as u32 + pits[12] as u32
            + pits[13] as u32;
        if total <= 255 {
            Some(Kalah { players_turn: turn, game: pits })
        } else {
            None
        }
    }

    /// The side to move.
    pub fn turn(&self) -> (turn: Turn)
        ensures
            turn == self@.turn,
    {
        self.players_turn
    }

    /// The stones in the fourteen cells.
    pub fn pits(&self) -> (pits: [u8; 14])
        ensures
            cells(pits) == self@.pits,
            self@.wf(),
    {
        proof {
            use_type_invariant(self);
        }
        self.game
    }

    /// Whether the six pits of either side are all empty.
    pub fn game_over(&self) -> (over: bool)
        ensures
            over == self@.is_terminal(),
    {
        let g = &self.game;
        (g[0] == 0 && g[1] == 0 && g[2] == 0 && g[3] == 0 && g[4] == 0 && g[5] == 0) || (g[7] == 0
            && g[8] == 0 && g[9] == 0 && g[10] == 0 && g[11] == 0 && g[12] == 0)
    }

    /// Twice the lead of the first player in stones, stores and pits counted
    /// alike.
    pub fn heuristic(&self) -> (score: i32)
        ensures
            score == self@.evaluate(),
    {
        let g = &self.game;
        let first: i32 = g[0] as i32 + g[1] as i32 + g[2] as i32 + g[3] as i32 + g[4] as i32
            + g[5] as i32 + g[6] as i32;
        let second: i32 = g[7] as i32 + g[8] as i32 + g[9] as i32 + g[10] as i32 + g[11] as i32
            + g[12] as i32 + g[13] as i32;
        2 * first - 2 * second
    }

    /// Plays the pit `index` for the side to move and returns the cell in
    /// which the last stone fell.
    pub fn move_stones(&mut self, index: usize) -> (last: usize)
        requires
            old(self)@.legal(index as int),
        ensures
            final(self)@ == old(self)@.after_move(index as int),
            last == old(self)@.landing(index as int),
            last < 14,
            final(self)@.wf(),
            final(self)@.total() == old(self)@.total(),
            final(self)@.turn == if last == old(self)@.turn.store() {
                old(self)@.turn
            } else {
                old(self)@.turn.opponent()
            },
    {
        let ghost b = self@;
        proof {
            use_type_invariant(&*self);
            lemma_move(b, index as int);
        }
        let turn = self.players_turn;
        let (sown, last) = sow(turn, self.game, index);
        let pits = capture(turn, sown, last);
        assert(cells(pits) == b.after_move(index as int).pits);
        self.game = pits;
        if last != turn.store_index() {
            self.players_turn = turn.other();
        }
        last
    }

    /// Plays the pit `index` for the side to move, if that is a legal move,
    /// and returns the new position with the cell in which the last stone
    /// fell. The position itself stays as it is.
    pub fn apply_move(&self, index: usize) -> (played: Result<(Kalah, usize), MoveError>)
        ensures
            match played {
                Ok((next, last)) => {
                    &&& self@.legal(index as int)
                    &&& next@ == self@.after_move(index as int)
                    &&& last == self@.landing(index as int)
                    &&& next@.wf()
                },
                Err(MoveError::NotOwnPit) => !self@.turn.owns(index as int),
                Err(MoveError::EmptyPit) => self@.turn.owns(index as int) && self@.pits[index as int]
                    == 0,
            },
    {
        proof {
            use_type_invariant(self);
        }
        if !self.players_turn.has_pit(index) {
            return Err(MoveError::NotOwnPit);
        }
        if self.game[index] == 0 {
            return Err(MoveError::EmptyPit);
        }
        let mut next = *self;
        let last = next.move_stones(index);
        Ok((next, last))
    }
}

/// The position with `turn` to move and `pits` on the board.
pub open spec fn board_of(turn: Turn, pits: [u8; 14]) -> Board {
    Board { turn, pits: cells(pits) }
}

/// Empties the pit `index` and sows its stones for the side `turn`; returns
/// the cells and the one that took the last stone.
fn sow(turn: Turn, pits: [u8; 14], index: usize) -> (out: ([u8; 14], usize))
    requires
        board_of(turn, pits).wf(),
        board_of(turn, pits).legal(index as int),
    ensures
        cells(out.0) == board_of(turn, pits).sown(index as int, pits[index as int] as int),
        out.1 == board_of(turn, pits).landing(index as int),
        out.1 < 14,
{
    let ghost b = board_of(turn, pits);
    let ghost pit = index as int;
    let skipped = turn.other().store_index();
    let mut pits = pits;
    let mut hand: u8 = pits[index];
    let ghost n = hand as int;
    pits[index] = 0;
    let mut current = index;
    proof {
        lemma_receiver(turn, pit, 0);
        lemma_sown_none(b, pit);
        assert(cells(pits) =~= b.pits.update(pit, 0));
    }
    while hand > 0
        invariant
            b.wf(),
            b.legal(pit),
            b.turn == turn,
            skipped == turn.opponent().store(),
            n == b.pits[pit],
            0 <= hand <= n,
            current < 14,
            current == b.turn.receiver(pit, n - hand),
            cells(pits) == b.sown(pit, n - hand),
        decreases hand,
    {
        let ghost k = n - hand;
        proof {
            lemma_receiver(turn, pit, k);
            lemma_sow_step(b, pit, k);
            lemma_sown_total(b, pit, k);
            lemma_sown_total(b, pit, k + 1);
        }
        let next = if current == 13 { 0 } else { current + 1 };
        current = if next != skipped { next } else if next == 13 { 0 } else { next + 1 };
        assert(cells(pits)[current as int] < 255) by {
            let s = b.sown(pit, k + 1);
            assert(forall|q: int| 0 <= q < 14 ==> 0 <= #[trigger] s[q]);
            assert(s[current as int] <= stones(s));
        }
        pits[current] = pits[current] + 1;
        hand = hand - 1;
        assert(cells(pits) =~= b.sown(pit, k + 1));
    }
    (pits, current)
}

/// Takes the stone in `last` and the stones opposite it into the store of
/// the side `turn`, if `last` is a pit of that side with a single stone.
fn capture(turn: Turn, pits: [u8; 14], last: usize) -> (out: [u8; 14])
    requires
        last < 14,
        stones(cells(pits)) <= 255,
    ensures
        cells(out) == if turn.owns(last as int) && pits[last as int] == 1 {
            cells(pits).update(last as int, 0).update(12 - last, 0).update(
                turn.store(),
                cells(pits)[turn.store()] + cells(pits)[12 - last] + 1,
            )
        } else {
            cells(pits)
        },
{
    let mut out = pits;
    if pits[last] == 1 && turn.has_pit(last) {
        let store = turn.store_index();
        let opposite = 12 - last;
        out[last] = 0;
        out[opposite] = 0;
        out[store] = pits[store] + pits[opposite] + 1;
        assert(cells(out) =~= cells(pits).update(last as int, 0).update(12 - last, 0).update(
            turn.store(),
            cells(pits)[turn.store()] + cells(pits)[12 - last] + 1,
        ));
    }
    out
}

} // verus!
