//! The mathematical model of a Kalah position and the rules of a move.
//!
//! Fourteen cells lie on a ring: cells 0 to 5 are the pits of the first
//! player, cell 6 is that player's store, cells 7 to 12 are the pits of the
//! second player and cell 13 is the second player's store.
use vstd::prelude::*;

verus! {

/// The two sides of the board.
#[derive(Clone, Copy, PartialEq, Eq, Hash, Debug, Structural)]
pub enum Turn {
    Player1,
    Player2,
}

impl Turn {
    /// The side that does not have this turn.
    pub open spec fn opponent(self) -> Turn {
        match self {
            Turn::Player1 => Turn::Player2,
            Turn::Player2 => Turn::Player1,
        }
    }

    /// The cell in which this side collects its stones.
    pub open spec fn store(self) -> int {
        match self {
            Turn::Player1 => 6,
            Turn::Player2 => 13,
        }
    }

    /// The lowest of the six pits of this side.
    pub open spec fn first_pit(self) -> int {
        match self {
            Turn::Player1 => 0,
            Turn::Player2 => 7,
        }
    }

    /// Whether cell `i` is one of the six pits of this side.
    pub open spec fn owns(self, i: int) -> bool {
        self.first_pit() <= i < self.first_pit() + 6
    }

    /// How many cells after `pit` the cell `q` lies when this side sows from
    /// `pit`: the cells are counted along the ring from the one after `pit`,
    /// the opponent's store is left out, and `pit` itself comes last, as
    /// number 13.
    #[verifier::opaque]
    pub open spec fn steps(self, pit: int, q: int) -> int {
        let skipped = self.opponent().store();
        let to_q = if q > pit { q - pit } else { q - pit + 14 };
        let to_skipped = if skipped > pit { skipped - pit } else { skipped - pit + 14 };
        if to_skipped < to_q { to_q - 1 } else { to_q }
    }

    /// The cell that takes the `k`-th stone when this side sows from `pit`.
    /// For `k == 0` it is `pit` itself.
    #[verifier::opaque]
    pub open spec fn receiver(self, pit: int, k: int) -> int {
        let skipped = self.opponent().store();
        let rank = (k - 1) % 13 + 1;
        let to_skipped = if skipped > pit { skipped - pit } else { skipped - pit + 14 };
        let ahead = if rank < to_skipped { rank } else { rank + 1 };
        (pit + ahead) % 14
    }

    /// The cell after `q` on the ring, passing over the opponent's store.
    pub open spec fn advance(self, q: int) -> int {
        let next = if q == 13 { 0 } else { q + 1 };
        if next != self.opponent().store() {
            next
        } else if next == 13 {
            0
        } else {
            next + 1
        }
    }
}

/// The number of stones in fourteen cells.
pub open spec fn stones(pits: Seq<int>) -> int {
    pits[0] + pits[1] + pits[2] + pits[3] + pits[4] + pits[5] + pits[6] + pits[7] + pits[8]
        + pits[9] + pits[10] + pits[11] + pits[12] + pits[13]
}

/// A position: the side to move and the number of stones in each cell.
pub struct Board {
    pub turn: Turn,
    pub pits: Seq<int>,
}

impl Board {
    /// The number of stones on the board, stores included.
    pub open spec fn total(self) -> int {
        stones(self.pits)
    }

    /// Fourteen cells, none negative, and no more stones in all than one
    /// cell can hold.
    pub open spec fn wf(self) -> bool {
        &&& self.pits.len() == 14
        &&& forall|i: int| 0 <= i < 14 ==> 0 <= #[trigger] self.pits[i]
        &&& self.total() <= 255
    }

    /// The stones in the six pits of `side`, its store left out.
    pub open spec fn side_stones(self, side: Turn) -> int {
        let f = side.first_pit();
        self.pits[f] + self.pits[f + 1] + self.pits[f + 2] + self.pits[f + 3] + self.pits[f + 4]
            + self.pits[f + 5]
    }

    /// The game is over once the six pits of either side are all empty.
    pub open spec fn is_terminal(self) -> bool {
        self.side_stones(Turn::Player1) == 0 || self.side_stones(Turn::Player2) == 0
    }

    /// Twice the lead of the first player: each side counts its store and
    /// the stones in its pits.
    pub open spec fn evaluate(self) -> int {
        2 * (self.pits[6] + self.side_stones(Turn::Player1)) - 2 * (self.pits[13]
            + self.side_stones(Turn::Player2))
    }

    /// A move is legal if `pit` is a pit of the side to move that holds a
    /// stone.
    pub open spec fn legal(self, pit: int) -> bool {
        self.turn.owns(pit) && self.pits[pit] > 0
    }

    /// The cells after `pit` has been emptied and the first `k` of its stones
    /// have been sown: one to each following cell along the ring, the
    /// opponent's store left out.
    #[verifier::opaque]
    pub open spec fn sown(self, pit: int, k: int) -> Seq<int> {
        Seq::new(
            14,
            |q: int|
                if q == self.turn.opponent().store() {
                    self.pits[q]
                } else {
                    (if q == pit { 0 } else { self.pits[q] }) + (k + 13 - self.turn.steps(pit, q))
                        / 13
                },
        )
    }

    /// The cell that takes the last stone of a move from `pit`.
    pub open spec fn landing(self, pit: int) -> int {
        self.turn.receiver(pit, self.pits[pit])
    }

    /// A move captures when its last stone comes to lie alone in a pit of the
    /// mover.
    pub open spec fn captures(self, pit: int) -> bool {
        let last = self.landing(pit);
        self.turn.owns(last) && self.sown(pit, self.pits[pit])[last] == 1
    }

    /// A move from `pit` grants another move when its last stone falls into
    /// the mover's own store.
    pub open spec fn moves_again(self, pit: int) -> bool {
        self.landing(pit) == self.turn.store()
    }

    /// The position after the side to move has played `pit`: the stones are
    /// sown, a capture takes the last stone and the stones opposite it into
    /// the mover's store, and the turn passes unless the move grants another.
    pub open spec fn after_move(self, pit: int) -> Board {
        let sown = self.sown(pit, self.pits[pit]);
        let last = self.landing(pit);
        let store = self.turn.store();
        Board {
            turn: if self.moves_again(pit) { self.turn } else { self.turn.opponent() },
            pits: if self.captures(pit) {
                sown.update(last, 0).update(12 - last, 0).update(
                    store,
                    sown[store] + sown[12 - last] + 1,
                )
            } else {
                sown
            },
        }
    }

    /// The position at the start of a game: six stones in each pit, the
    /// stores empty, the second player to move.
    pub open spec fn opening() -> Board {
        Board { turn: Turn::Player2, pits: seq![6int, 6, 6, 6, 6, 6, 0, 6, 6, 6, 6, 6, 6, 0] }
    }

    /// The position after the moves of `path` have been played in turn, if
    /// each of them was legal where it was played.
    pub open spec fn play(self, path: Seq<usize>) -> Option<Board>
        decreases path.len(),
    {
        if path.len() == 0 {
            Some(self)
        } else if self.legal(path[0] as int) {
            self.after_move(path[0] as int).play(path.skip(1))
        } else {
            None
        }
    }
}

/// Where the stones of a move fall: the receivers follow one another along
/// the ring, stay on the board and never are the opponent's store.
pub proof fn lemma_receiver(side: Turn, pit: int, k: int)
    requires
        side.owns(pit),
        0 <= k,
    ensures
        side.receiver(pit, 0) == pit,
        side.receiver(pit, k + 1) == side.advance(side.receiver(pit, k)),
        0 <= side.receiver(pit, k + 1) < 14,
        side.receiver(pit, k + 1) != side.opponent().store(),
        side.steps(pit, side.receiver(pit, k + 1)) == k % 13 + 1,
{
    reveal(Turn::steps);
    reveal(Turn::receiver);
    let r = k % 13;
    assert(0 <= r < 13);
    assert((k + 1 - 1) % 13 == r);
    if r == 0 {
        assert(k == 0 || (k - 1) % 13 == 12);
    } else {
        assert((k - 1) % 13 == r - 1);
    }
}

/// Every cell but the opponent's store has its own number among the
/// thirteen receivers of a lap.
pub proof fn lemma_steps(side: Turn, pit: int, c: int, d: int)
    requires
        side.owns(pit),
        0 <= c < 14,
        0 <= d < 14,
        c != side.opponent().store(),
        d != side.opponent().store(),
    ensures
        1 <= side.steps(pit, c) <= 13,
        side.steps(pit, c) == side.steps(pit, d) ==> c == d,
{
    reveal(Turn::steps);
}

/// The `k + 1`-st stone raises the count of the cell numbered `k % 13 + 1`
/// and of no other.
pub proof fn lemma_share_step(k: int, s: int)
    requires
        0 <= k,
        1 <= s <= 13,
    ensures
        (k + 1 + 13 - s) / 13 == (k + 13 - s) / 13 + if s == k % 13 + 1 { 1int } else { 0int },
{
    let a = k / 13;
    let r = k % 13;
    assert(k == 13 * a + r && 0 <= r < 13);
    if s <= r {
        assert((k + 13 - s) / 13 == a + 1);
        assert((k + 1 + 13 - s) / 13 == a + 1);
    } else if s == r + 1 {
        assert((k + 13 - s) / 13 == a);
        assert((k + 1 + 13 - s) / 13 == a + 1);
    } else {
        assert((k + 13 - s) / 13 == a);
        assert((k + 1 + 13 - s) / 13 == a);
    }
}

/// Sowing one more stone adds it to the cell that follows the last receiver
/// on the ring.
pub proof fn lemma_sow_step(b: Board, pit: int, k: int)
    requires
        b.pits.len() == 14,
        b.turn.owns(pit),
        0 <= k,
    ensures
        b.sown(pit, k + 1) == b.sown(pit, k).update(
            b.turn.receiver(pit, k + 1),
            b.sown(pit, k)[b.turn.receiver(pit, k + 1)] + 1,
        ),
{
    reveal(Board::sown);
    let q = b.turn.receiver(pit, k + 1);
    lemma_receiver(b.turn, pit, k);
    let before = b.sown(pit, k);
    let after = b.sown(pit, k + 1);
    assert forall|c: int| 0 <= c < 14 implies #[trigger] after[c] == before.update(
        q,
        before[q] + 1,
    )[c] by {
        if c != b.turn.opponent().store() {
            let s = b.turn.steps(pit, c);
            lemma_steps(b.turn, pit, c, q);
            lemma_share_step(k, s);
        }
    }
    assert(after =~= before.update(q, before[q] + 1));
}

/// Replacing the content of one cell changes the number of stones by the
/// difference.
pub proof fn lemma_stones_update(pits: Seq<int>, q: int, v: int)
    requires
        pits.len() == 14,
        0 <= q < 14,
    ensures
        stones(pits.update(q, v)) == stones(pits) - pits[q] + v,
{
}

/// Before the first stone is sown the board differs from the one before the
/// move in the emptied pit alone.
pub proof fn lemma_sown_none(b: Board, pit: int)
    requires
        b.pits.len() == 14,
        b.turn.owns(pit),
    ensures
        b.sown(pit, 0) == b.pits.update(pit, 0),
{
    reveal(Board::sown);
    assert forall|q: int| 0 <= q < 14 implies #[trigger] b.sown(pit, 0)[q] == b.pits.update(
        pit,
        0,
    )[q] by {
        if q != b.turn.opponent().store() {
            lemma_steps(b.turn, pit, q, q);
        }
    }
    assert(b.sown(pit, 0) =~= b.pits.update(pit, 0));
}

/// Sowing neither adds nor loses a stone: after `k` stones have left the
/// hand, the cells hold what they held before but for the stones still in
/// it, and no cell but the emptied pit holds less than before.
pub proof fn lemma_sown_total(b: Board, pit: int, k: int)
    requires
        b.pits.len() == 14,
        b.turn.owns(pit),
        0 <= k,
    ensures
        b.sown(pit, k).len() == 14,
        stones(b.sown(pit, k)) == b.total() - b.pits[pit] + k,
        forall|q: int| 0 <= q < 14 && q != pit ==> b.pits[q] <= #[trigger] b.sown(pit, k)[q],
        0 <= b.sown(pit, k)[pit],
    decreases k,
{
    if k == 0 {
        lemma_sown_none(b, pit);
        lemma_stones_update(b.pits, pit, 0);
    } else {
        lemma_sown_total(b, pit, k - 1);
        lemma_receiver(b.turn, pit, k - 1);
        lemma_sow_step(b, pit, k - 1);
        let before = b.sown(pit, k - 1);
        let q = b.turn.receiver(pit, k);
        lemma_stones_update(before, q, before[q] + 1);
        assert forall|c: int| 0 <= c < 14 && c != pit implies b.pits[c] <= #[trigger] b.sown(
            pit,
            k,
        )[c] by {
            assert(b.sown(pit, k)[c] >= before[c]);
        }
    }
}

/// A capture moves stones into the mover's store and neither adds nor loses
/// one.
proof fn lemma_capture(s: Seq<int>, side: Turn, last: int)
    requires
        s.len() == 14,
        forall|q: int| 0 <= q < 14 ==> 0 <= #[trigger] s[q],
        side.owns(last),
        s[last] == 1,
    ensures
        ({
            let t = s.update(last, 0).update(12 - last, 0).update(
                side.store(),
                s[side.store()] + s[12 - last] + 1,
            );
            &&& t.len() == 14
            &&& stones(t) == stones(s)
            &&& forall|q: int| 0 <= q < 14 ==> 0 <= #[trigger] t[q]
            &&& t[6] >= s[6]
            &&& t[13] >= s[13]
        }),
{
}

/// A move whose last stone falls into the mover's store has added to it.
proof fn lemma_store_gain(b: Board, pit: int)
    requires
        b.pits.len() == 14,
        b.legal(pit),
        b.landing(pit) == b.turn.store(),
    ensures
        b.sown(pit, b.pits[pit])[b.turn.store()] > b.pits[b.turn.store()],
{
    reveal(Board::sown);
    let n = b.pits[pit];
    let store = b.turn.store();
    lemma_receiver(b.turn, pit, n - 1);
    assert(b.turn.steps(pit, store) == (n - 1) % 13 + 1);
    assert((n + 13 - b.turn.steps(pit, store)) / 13 >= 1);
}

/// What every legal move keeps and what it changes: the position stays well
/// formed, no stone is added or lost, no store shrinks, the last stone lands
/// on the board outside the opponent's store, and the mover keeps the turn
/// exactly when the last stone fell into the mover's own store, which then
/// has grown.
pub proof fn lemma_move(b: Board, pit: int)
    requires
        b.wf(),
        b.legal(pit),
    ensures
        b.after_move(pit).wf(),
        b.after_move(pit).total() == b.total(),
        b.after_move(pit).pits[6] >= b.pits[6],
        b.after_move(pit).pits[13] >= b.pits[13],
        0 <= b.landing(pit) < 14,
        b.landing(pit) != b.turn.opponent().store(),
        b.landing(pit) == b.turn.store() ==> b.after_move(pit).turn == b.turn && b.after_move(
            pit,
        ).pits[b.turn.store()] > b.pits[b.turn.store()],
        b.landing(pit) != b.turn.store() ==> b.after_move(pit).turn == b.turn.opponent(),
{
    let n = b.pits[pit];
    let sown = b.sown(pit, n);
    let last = b.landing(pit);
    lemma_sown_total(b, pit, n);
    lemma_receiver(b.turn, pit, n - 1);
    assert(sown[6] >= b.pits[6]);
    assert(sown[13] >= b.pits[13]);
    assert forall|q: int| 0 <= q < 14 implies 0 <= #[trigger] sown[q] by {
        if q != pit {
            assert(b.pits[q] <= sown[q]);
        }
    }
    if last == b.turn.store() {
        lemma_store_gain(b, pit);
    }
    if b.captures(pit) {
        lemma_capture(sown, b.turn, last);
    }
}

/// However a game is played, its positions stay well formed, hold the
/// stones that the first of them held, and no store ever shrinks.
pub proof fn lemma_play(b: Board, path: Seq<usize>)
    requires
        b.wf(),
        b.play(path) is Some,
    ensures
        b.play(path).unwrap().wf(),
        b.play(path).unwrap().total() == b.total(),
        b.play(path).unwrap().pits[6] >= b.pits[6],
        b.play(path).unwrap().pits[13] >= b.pits[13],
    decreases path.len(),
{
    if path.len() > 0 {
        lemma_move(b, path[0] as int);
        lemma_play(b.after_move(path[0] as int), path.skip(1));
    }
}

/// Every position of a game that starts from the opening holds 72 stones.
pub proof fn lemma_game_from_opening(path: Seq<usize>)
    requires
        Board::opening().play(path) is Some,
    ensures
        Board::opening().play(path).unwrap().total() == 72,
{
    lemma_play(Board::opening(), path);
}

/// A side whose six pits are empty ends the game, whatever the other cells
/// hold.
pub proof fn lemma_empty_side_ends_game(b: Board, side: Turn)
    requires
        forall|i: int| side.owns(i) ==> #[trigger] b.pits[i] == 0,
    ensures
        b.is_terminal(),
{
    let f = side.first_pit();
    assert(side.owns(f) && side.owns(f + 1) && side.owns(f + 2) && side.owns(f + 3) && side.owns(
        f + 4,
    ) && side.owns(f + 5));
}

} // verus!
