//! The moves open to the side to move. A move that grants another move is
//! followed through, so that every entry stands for a position in which the
//! turn has passed or the game has ended.
use crate::board::{lemma_move, Board, Turn};
use crate::game::{cells, Kalah};
use vstd::prelude::*;

verus! {

/// A position that a move leads to, with the pits played to reach it.
pub type Line = (Board, Seq<usize>);

impl Board {
    /// The stones that the side to move has not yet brought home: all but
    /// those in its own store.
    pub open spec fn in_play(self) -> int {
        self.total() - self.pits[self.turn.store()]
    }

    /// The entries that the move from `pit` contributes: none if the move is
    /// not legal; the position it leads to, if the turn passes or the game is
    /// over; else the entries of that position, each with `pit` put in front
    /// of its path.
    pub open spec fn branch(self, pit: int) -> Seq<Line>
        decreases self.in_play(), 0int,
        when self.wf()
    {
        if !self.legal(pit) {
            Seq::empty()
        } else if self.moves_again(pit) && !self.after_move(pit).is_terminal() {
            proof {
                lemma_move(self, pit);
            }
            prefixed(pit as usize, self.after_move(pit).children())
        } else {
            seq![(self.after_move(pit), seq![pit as usize])]
        }
    }

    /// The entries of the first `count` pits of the side to move, in
    /// ascending order of the pits.
    pub open spec fn children_upto(self, count: int) -> Seq<Line>
        decreases self.in_play(), count + 1,
        when self.wf() && 0 <= count
    {
        if count == 0 {
            Seq::empty()
        } else {
            self.children_upto(count - 1) + self.branch(self.turn.first_pit() + count - 1)
        }
    }

    /// Every position that the side to move can hand over, with the pits
    /// played to reach it, in ascending order of the paths.
    pub open spec fn children(self) -> Seq<Line>
        decreases self.in_play(), 8int,
        when self.wf()
    {
        self.children_upto(6)
    }
}

/// The entries of `lines`, each with `pit` put in front of its path.
pub open spec fn prefixed(pit: usize, lines: Seq<Line>) -> Seq<Line> {
    Seq::new(lines.len(), |i: int| (lines[i].0, seq![pit] + lines[i].1))
}

/// What a list of positions with their paths stands for.
pub open spec fn lines_of(entries: Seq<(Kalah, Vec<usize>)>) -> Seq<Line> {
    Seq::new(entries.len(), |i: int| (entries[i].0@, entries[i].1@))
}

impl Kalah {
    /// Every position that the side to move can hand over, each with the
    /// pits played to reach it, in ascending order of the paths.
    pub fn get_children(&self) -> (children: Vec<(Kalah, Vec<usize>)>)
        ensures
            lines_of(children@) == self@.children(),
        decreases self@.in_play(),
    {
        let turn = self.turn();
        let pits = self.pits();
        let first = turn.first_index();
        let store = turn.store_index();
        let mut children: Vec<(Kalah, Vec<usize>)> = Vec::new();
        let mut offset: usize = 0;
        assert(lines_of(children@) =~= self@.children_upto(0));
        while offset < 6
            invariant
                offset <= 6,
                self@.wf(),
                turn == self@.turn,
                first == turn.first_pit(),
                store == turn.store(),
                cells(pits) == self@.pits,
                lines_of(children@) == self@.children_upto(offset as int),
            decreases 6 - offset,
        {
            let pit = first + offset;
            let ghost before = lines_of(children@);
            if pits[pit] != 0 {
                let mut child = *self;
                let last = child.move_stones(pit);
                if last == store && !child.game_over() {
                    proof {
                        lemma_move(self@, pit as int);
                    }
                    let further = child.get_children();
                    add_prefixed(&mut children, pit, &further);
                } else {
                    let mut path: Vec<usize> = Vec::new();
                    path.push(pit);
                    children.push((child, path));
                    assert(lines_of(children@) =~= before + seq![(child@, seq![pit])]);
                }
            } else {
                assert(lines_of(children@) =~= before + Seq::<Line>::empty());
            }
            assert(lines_of(children@) == before + self@.branch(pit as int));
            offset = offset + 1;
        }
        children
    }
}

/// Appends the entries of `further` to `children`, each with `pit` put in
/// front of its path.
fn add_prefixed(
    children: &mut Vec<(Kalah, Vec<usize>)>,
    pit: usize,
    further: &Vec<(Kalah, Vec<usize>)>,
)
    ensures
        lines_of(final(children)@) == lines_of(old(children)@) + prefixed(pit, lines_of(further@)),
{
    let mut done: usize = 0;
    assert(lines_of(children@) =~= lines_of(old(children)@) + prefixed(
        pit,
        lines_of(further@),
    ).take(0));
    while done < further.len()
        invariant
            done <= further.len(),
            lines_of(children@) == lines_of(old(children)@) + prefixed(
                pit,
                lines_of(further@),
            ).take(done as int),
        decreases further.len() - done,
    {
        let ghost before = lines_of(children@);
        let path = with_front(pit, &further[done].1);
        children.push((further[done].0, path));
        assert(lines_of(children@) =~= before.push((further[done as int].0@, path@)));
        assert(prefixed(pit, lines_of(further@)).take(done + 1) =~= prefixed(
            pit,
            lines_of(further@),
        ).take(done as int).push((further[done as int].0@, path@)));
        done = done + 1;
    }
    assert(prefixed(pit, lines_of(further@)).take(further.len() as int) =~= prefixed(
        pit,
        lines_of(further@),
    ));
}

/// The path that plays `pit` and then `rest`.
fn with_front(pit: usize, rest: &Vec<usize>) -> (path: Vec<usize>)
    ensures
        path@ == seq![pit] + rest@,
{
    let mut path: Vec<usize> = Vec::new();
    path.push(pit);
    let mut copied: usize = 0;
    while copied < rest.len()
        invariant
            copied <= rest.len(),
            path@ == seq![pit] + rest@.take(copied as int),
        decreases rest.len() - copied,
    {
        path.push(rest[copied]);
        assert(rest@.take(copied + 1) =~= rest@.take(copied as int).push(rest[copied as int]));
        copied = copied + 1;
    }
    assert(rest@.take(rest.len() as int) =~= rest@);
    path
}

/// What holds of an entry among the children of `b`: its path is not
/// empty, starts with a legal move and names pits of the side to move only;
/// played from `b` it leads to the entry's position; that position is well
/// formed and holds the stones of `b`; and there the turn has passed or the
/// game is over.
pub open spec fn is_line_of(b: Board, line: Line) -> bool {
    &&& line.1.len() >= 1
    &&& b.legal(line.1[0] as int)
    &&& forall|j: int| 0 <= j < line.1.len() ==> b.turn.owns(#[trigger] line.1[j] as int)
    &&& b.play(line.1) == Some(line.0)
    &&& line.0.wf()
    &&& line.0.total() == b.total()
    &&& (line.0.turn == b.turn.opponent() || line.0.is_terminal())
}

/// A legal move contributes at least one entry, any other move none, and
/// every entry is a line of the position.
pub proof fn lemma_branch(b: Board, pit: int)
    requires
        b.wf(),
        b.turn.owns(pit),
    ensures
        b.branch(pit).len() > 0 <==> b.legal(pit),
        forall|i: int| 0 <= i < b.branch(pit).len() ==> is_line_of(b, #[trigger] b.branch(pit)[i]),
    decreases b.in_play(), 0int,
{
    if b.legal(pit) {
        lemma_move(b, pit);
        let next = b.after_move(pit);
        let front = seq![pit as usize];
        if b.moves_again(pit) && !next.is_terminal() {
            lemma_children(next);
            assert forall|i: int| 0 <= i < b.branch(pit).len() implies is_line_of(
                b,
                #[trigger] b.branch(pit)[i],
            ) by {
                let inner = next.children()[i];
                let line = b.branch(pit)[i];
                assert(is_line_of(next, inner));
                assert(line.1 == front + inner.1);
                assert(line.1.skip(1) =~= inner.1);
                assert(line.1[0] == pit as usize);
                assert forall|j: int| 0 <= j < line.1.len() implies b.turn.owns(
                    #[trigger] line.1[j] as int,
                ) by {
                    if j > 0 {
                        assert(line.1[j] == inner.1[j - 1]);
                    }
                }
            }
        } else {
            let line = b.branch(pit)[0];
            assert(line.1.skip(1) =~= Seq::<usize>::empty());
            assert(next.play(line.1.skip(1)) == Some(next));
        }
    }
}

/// The entries of the first `count` pits are lines of the position, and
/// there are none exactly if those pits are empty.
pub proof fn lemma_children_upto(b: Board, count: int)
    requires
        b.wf(),
        0 <= count <= 6,
    ensures
        b.children_upto(count).len() == 0 <==> forall|p: int|
            b.turn.first_pit() <= p < b.turn.first_pit() + count ==> #[trigger] b.pits[p] == 0,
        forall|i: int|
            0 <= i < b.children_upto(count).len() ==> is_line_of(
                b,
                #[trigger] b.children_upto(count)[i],
            ),
    decreases b.in_play(), count + 1,
{
    if count > 0 {
        let pit = b.turn.first_pit() + count - 1;
        lemma_children_upto(b, count - 1);
        lemma_branch(b, pit);
        if b.children_upto(count).len() == 0 {
            assert(b.pits[pit] == 0);
        }
    }
}

/// The children of a position are lines of it, and there are none exactly
/// if the side to move has no stone in its pits; so a position in which the
/// game is not over has a child.
pub proof fn lemma_children(b: Board)
    requires
        b.wf(),
    ensures
        b.children().len() == 0 <==> b.side_stones(b.turn) == 0,
        !b.is_terminal() ==> b.children().len() > 0,
        forall|i: int| 0 <= i < b.children().len() ==> is_line_of(b, #[trigger] b.children()[i]),
    decreases b.in_play(), 8int,
{
    lemma_children_upto(b, 6);
    let f = b.turn.first_pit();
    if b.side_stones(b.turn) == 0 {
        assert(b.pits[f] == 0 && b.pits[f + 1] == 0 && b.pits[f + 2] == 0 && b.pits[f + 3] == 0
            && b.pits[f + 4] == 0 && b.pits[f + 5] == 0);
    }
    if b.children().len() == 0 {
        assert(b.pits[f] == 0 && b.pits[f + 1] == 0 && b.pits[f + 2] == 0 && b.pits[f + 3] == 0
            && b.pits[f + 4] == 0 && b.pits[f + 5] == 0);
    }
}

/// Whether the path `a` comes before the path `b` as words do in a
/// dictionary.
pub open spec fn comes_before(a: Seq<usize>, b: Seq<usize>) -> bool
    decreases a.len(),
{
    if b.len() == 0 {
        false
    } else if a.len() == 0 {
        true
    } else if a[0] != b[0] {
        a[0] < b[0]
    } else {
        comes_before(a.skip(1), b.skip(1))
    }
}

/// The entries of a move all start with its pit and stand in ascending order
/// of their paths.
pub proof fn lemma_branch_ascending(b: Board, pit: int)
    requires
        b.wf(),
        b.turn.owns(pit),
    ensures
        forall|i: int|
            0 <= i < b.branch(pit).len() ==> (#[trigger] b.branch(pit)[i]).1.len() >= 1
                && b.branch(pit)[i].1[0] == pit,
        forall|i: int, j: int|
            0 <= i < j < b.branch(pit).len() ==> comes_before(
                (#[trigger] b.branch(pit)[i]).1,
                (#[trigger] b.branch(pit)[j]).1,
            ),
    decreases b.in_play(), 0int,
{
    if b.legal(pit) && b.moves_again(pit) && !b.after_move(pit).is_terminal() {
        lemma_move(b, pit);
        let next = b.after_move(pit);
        lemma_children_ascending(next);
        assert forall|i: int, j: int| 0 <= i < j < b.branch(pit).len() implies comes_before(
            (#[trigger] b.branch(pit)[i]).1,
            (#[trigger] b.branch(pit)[j]).1,
        ) by {
            let first = b.branch(pit)[i].1;
            let second = b.branch(pit)[j].1;
            assert(first.skip(1) =~= next.children()[i].1);
            assert(second.skip(1) =~= next.children()[j].1);
        }
    }
}

/// The entries of the first `count` pits start with one of those pits and
/// stand in ascending order of their paths.
pub proof fn lemma_upto_ascending(b: Board, count: int)
    requires
        b.wf(),
        0 <= count <= 6,
    ensures
        forall|i: int|
            0 <= i < b.children_upto(count).len() ==> (#[trigger] b.children_upto(
                count,
            )[i]).1.len() >= 1 && b.turn.first_pit() <= b.children_upto(count)[i].1[0]
                < b.turn.first_pit() + count,
        forall|i: int, j: int|
            0 <= i < j < b.children_upto(count).len() ==> comes_before(
                (#[trigger] b.children_upto(count)[i]).1,
                (#[trigger] b.children_upto(count)[j]).1,
            ),
    decreases b.in_play(), count + 1,
{
    if count > 0 {
        let pit = b.turn.first_pit() + count - 1;
        let earlier = b.children_upto(count - 1);
        lemma_upto_ascending(b, count - 1);
        lemma_branch_ascending(b, pit);
        assert forall|i: int, j: int| 0 <= i < j < b.children_upto(count).len() implies comes_before(
            (#[trigger] b.children_upto(count)[i]).1,
            (#[trigger] b.children_upto(count)[j]).1,
        ) by {
            if j < earlier.len() {
                assert(b.children_upto(count)[i] == earlier[i]);
                assert(b.children_upto(count)[j] == earlier[j]);
            } else if i < earlier.len() {
                assert(b.children_upto(count)[i] == earlier[i]);
                assert(b.children_upto(count)[j] == b.branch(pit)[j - earlier.len()]);
            } else {
                assert(b.children_upto(count)[i] == b.branch(pit)[i - earlier.len()]);
                assert(b.children_upto(count)[j] == b.branch(pit)[j - earlier.len()]);
            }
        }
        assert forall|i: int| 0 <= i < b.children_upto(count).len() implies (
        #[trigger] b.children_upto(count)[i]).1.len() >= 1 && b.turn.first_pit()
            <= b.children_upto(count)[i].1[0] < b.turn.first_pit() + count by {
            if i < earlier.len() {
                assert(b.children_upto(count)[i] == earlier[i]);
            } else {
                assert(b.children_upto(count)[i] == b.branch(pit)[i - earlier.len()]);
            }
        }
    }
}

/// The children of a position stand in ascending order of their paths: a
/// lower pit comes first, and so does, after the same pit, the lower
/// continuation.
pub proof fn lemma_children_ascending(b: Board)
    requires
        b.wf(),
    ensures
        forall|i: int, j: int|
            0 <= i < j < b.children().len() ==> comes_before(
                (#[trigger] b.children()[i]).1,
                (#[trigger] b.children()[j]).1,
            ),
    decreases b.in_play(), 8int,
{
    lemma_upto_ascending(b, 6);
    assert(b.children() == b.children_upto(6));
}

} // verus!
