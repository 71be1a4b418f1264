//! The value of a position to a given depth, with and without pruning.
//!
//! A position is searched for one of two aims: the maximizing side looks for
//! the highest value among the children, the minimizing side for the lowest,
//! and the aim alternates from one ply to the next. Among children of equal
//! value the first one is chosen.
use crate::board::Board;
use crate::moves::lemma_children;
use vstd::prelude::*;

verus! {

/// The score from which a scan of the children starts: below every value for
/// the maximizing side, above every value for the minimizing side.
pub open spec fn worst(maximizing: bool) -> int {
    if maximizing {
        i32::MIN as int
    } else {
        i32::MAX as int
    }
}

/// Whether `score` is strictly better than `best` for the aim.
pub open spec fn improves(maximizing: bool, score: int, best: int) -> bool {
    if maximizing {
        score > best
    } else {
        score < best
    }
}

/// The best score among the first `n` children of `b`, each valued to the
/// depth `below` without pruning, and the index of the first child that
/// reaches it.
pub open spec fn full_scan(b: Board, below: nat, maximizing: bool, n: nat) -> (int, int)
    decreases below, 1int, n,
{
    if n == 0 {
        (worst(maximizing), 0)
    } else {
        let before = full_scan(b, below, maximizing, (n - 1) as nat);
        let score = minimax_result(b.children()[n - 1].0, below, !maximizing).0;
        if improves(maximizing, score, before.0) {
            (score, n - 1)
        } else {
            before
        }
    }
}

/// The value of `b` searched `depth` plies deep without pruning, and the
/// index of the child chosen: the evaluation and 0 at depth 0 and where the
/// game is over, else the best of all children.
pub open spec fn minimax_result(b: Board, depth: nat, maximizing: bool) -> (int, int)
    decreases depth, 0int, 0nat,
{
    if depth == 0 || b.is_terminal() {
        (b.evaluate(), 0)
    } else {
        full_scan(b, (depth - 1) as nat, maximizing, b.children().len())
    }
}

/// The state of a pruned scan: the best score so far with the index of the
/// child that gave it, the window as it has narrowed, and whether the window
/// has closed, which ends the scan.
pub struct Scan {
    pub score: int,
    pub index: int,
    pub alpha: int,
    pub beta: int,
    pub cut: bool,
}

/// The state of the pruned scan after the first `n` children of `b`, or
/// after the child at which the window closed, if that came earlier. Each
/// child is searched to the depth `below` in the window as it stands; its
/// score raises alpha for the maximizing side and lowers beta for the
/// minimizing side.
pub open spec fn pruned_scan(
    b: Board,
    below: nat,
    alpha: int,
    beta: int,
    maximizing: bool,
    n: nat,
) -> Scan
    decreases below, 1int, n,
{
    if n == 0 {
        Scan { score: worst(maximizing), index: 0, alpha, beta, cut: false }
    } else {
        let before = pruned_scan(b, below, alpha, beta, maximizing, (n - 1) as nat);
        if before.cut {
            before
        } else {
            let score = alphabeta(
                b.children()[n - 1].0,
                below,
                before.alpha,
                before.beta,
                !maximizing,
            ).0;
            let better = improves(maximizing, score, before.score);
            let low = if maximizing && score > before.alpha { score } else { before.alpha };
            let high = if !maximizing && score < before.beta { score } else { before.beta };
            Scan {
                score: if better { score } else { before.score },
                index: if better { n - 1 } else { before.index },
                alpha: low,
                beta: high,
                cut: high <= low,
            }
        }
    }
}

/// What the search with the window from `alpha` to `beta` returns for `b` at
/// `depth`: the evaluation and 0 at depth 0 and where the game is over, else
/// the outcome of the pruned scan of the children.
pub open spec fn alphabeta(b: Board, depth: nat, alpha: int, beta: int, maximizing: bool) -> (
    int,
    int,
)
    decreases depth, 0int, 0nat,
{
    if depth == 0 || b.is_terminal() {
        (b.evaluate(), 0)
    } else {
        let scan = pruned_scan(
            b,
            (depth - 1) as nat,
            alpha,
            beta,
            maximizing,
            b.children().len(),
        );
        (scan.score, scan.index)
    }
}

/// How the outcome of a pruned search stands to the unpruned value: a score
/// at or below alpha is an upper bound of it, a score at or above beta a
/// lower bound, and a score strictly inside the window is the value itself,
/// with the same child chosen.
pub open spec fn bounds(found: (int, int), truth: (int, int), alpha: int, beta: int) -> bool {
    &&& found.0 <= alpha ==> truth.0 <= found.0
    &&& found.0 >= beta ==> truth.0 >= found.0
    &&& alpha < found.0 < beta ==> found == truth
}

/// How the state of a pruned scan stands to the unpruned scan of the same
/// children.
pub open spec fn scan_bounds(
    scan: Scan,
    truth: (int, int),
    alpha: int,
    beta: int,
    maximizing: bool,
) -> bool {
    if maximizing {
        &&& scan.beta == beta
        &&& scan.alpha == if scan.score > alpha { scan.score } else { alpha }
        &&& scan.cut == (beta <= scan.alpha)
        &&& scan.cut ==> truth.0 >= scan.score
        &&& !scan.cut && scan.score <= alpha ==> truth.0 <= scan.score
        &&& !scan.cut && scan.score > alpha ==> truth == (scan.score, scan.index)
    } else {
        &&& scan.alpha == alpha
        &&& scan.beta == if scan.score < beta { scan.score } else { beta }
        &&& scan.cut == (scan.beta <= alpha)
        &&& scan.cut ==> truth.0 <= scan.score
        &&& !scan.cut && scan.score >= beta ==> truth.0 >= scan.score
        &&& !scan.cut && scan.score < beta ==> truth == (scan.score, scan.index)
    }
}

/// Once the window has closed the scan stays as it is.
pub proof fn lemma_cut_is_final(
    b: Board,
    below: nat,
    alpha: int,
    beta: int,
    maximizing: bool,
    n: nat,
    m: nat,
)
    requires
        n <= m,
        pruned_scan(b, below, alpha, beta, maximizing, n).cut,
    ensures
        pruned_scan(b, below, alpha, beta, maximizing, m) == pruned_scan(
            b,
            below,
            alpha,
            beta,
            maximizing,
            n,
        ),
    decreases m,
{
    if n < m {
        lemma_cut_is_final(b, below, alpha, beta, maximizing, n, (m - 1) as nat);
    }
}

/// More children never make the unpruned score worse.
pub proof fn lemma_full_scan_grows(b: Board, below: nat, maximizing: bool, n: nat, m: nat)
    requires
        n <= m,
    ensures
        maximizing ==> full_scan(b, below, maximizing, m).0 >= full_scan(b, below, maximizing, n).0,
        !maximizing ==> full_scan(b, below, maximizing, m).0 <= full_scan(
            b,
            below,
            maximizing,
            n,
        ).0,
    decreases m,
{
    if n < m {
        lemma_full_scan_grows(b, below, maximizing, n, (m - 1) as nat);
    }
}

/// The pruned scan of the first `n` children keeps to the unpruned scan of
/// the same children, for every window that is open at the start.
pub proof fn lemma_pruned_scan(
    b: Board,
    below: nat,
    alpha: int,
    beta: int,
    maximizing: bool,
    n: nat,
)
    requires
        i32::MIN <= alpha < beta <= i32::MAX,
    ensures
        scan_bounds(
            pruned_scan(b, below, alpha, beta, maximizing, n),
            full_scan(b, below, maximizing, n),
            alpha,
            beta,
            maximizing,
        ),
    decreases below, 1int, n,
{
    if n > 0 {
        let before = pruned_scan(b, below, alpha, beta, maximizing, (n - 1) as nat);
        let truth_before = full_scan(b, below, maximizing, (n - 1) as nat);
        lemma_pruned_scan(b, below, alpha, beta, maximizing, (n - 1) as nat);
        if before.cut {
            lemma_full_scan_grows(b, below, maximizing, (n - 1) as nat, n);
        } else {
            let child = b.children()[n - 1].0;
            lemma_alphabeta(child, below, before.alpha, before.beta, !maximizing);
        }
    }
}

/// A pruned search keeps to the unpruned one, for every window that is open
/// at the start: its score is the value where it lies strictly inside the
/// window, and a bound of the value on the side on which it lies outside.
pub proof fn lemma_alphabeta(b: Board, depth: nat, alpha: int, beta: int, maximizing: bool)
    requires
        i32::MIN <= alpha < beta <= i32::MAX,
    ensures
        bounds(
            alphabeta(b, depth, alpha, beta, maximizing),
            minimax_result(b, depth, maximizing),
            alpha,
            beta,
        ),
    decreases depth, 0int, 0nat,
{
    if !(depth == 0 || b.is_terminal()) {
        lemma_pruned_scan(b, (depth - 1) as nat, alpha, beta, maximizing, b.children().len());
    }
}

/// The value of the child `i` of `b` to the depth `below`, for the aim of
/// the side that searches `b`.
pub open spec fn child_value(b: Board, below: nat, maximizing: bool, i: int) -> int {
    minimax_result(b.children()[i].0, below, !maximizing).0
}

/// The unpruned scan of the first `n` children picks the first child of the
/// best value: that child has the score of the scan, no earlier child is as
/// good, and no child among the `n` is better.
pub proof fn lemma_full_scan_picks_first(b: Board, below: nat, maximizing: bool, n: nat)
    requires
        b.wf(),
        1 <= n <= b.children().len(),
    ensures
        ({
            let (score, index) = full_scan(b, below, maximizing, n);
            &&& -510 <= score <= 510
            &&& 0 <= index < n
            &&& child_value(b, below, maximizing, index) == score
            &&& forall|j: int|
                0 <= j < index ==> improves(
                    maximizing,
                    score,
                    #[trigger] child_value(b, below, maximizing, j),
                )
            &&& forall|j: int|
                0 <= j < n ==> !improves(
                    maximizing,
                    #[trigger] child_value(b, below, maximizing, j),
                    score,
                )
        }),
    decreases below, 1int, n,
{
    lemma_children(b);
    let last = b.children()[n - 1];
    assert(crate::moves::is_line_of(b, last));
    lemma_value_bounded(last.0, below, !maximizing);
    if n > 1 {
        lemma_full_scan_picks_first(b, below, maximizing, (n - 1) as nat);
    }
}

/// The value of a well-formed position lies within twice the number of
/// stones that a board can hold, and the child chosen is one of its
/// children.
pub proof fn lemma_value_bounded(b: Board, depth: nat, maximizing: bool)
    requires
        b.wf(),
    ensures
        -510 <= minimax_result(b, depth, maximizing).0 <= 510,
        0 <= minimax_result(b, depth, maximizing).1,
        depth > 0 && !b.is_terminal() ==> minimax_result(b, depth, maximizing).1
            < b.children().len(),
    decreases depth, 0int, 0nat,
{
    if depth == 0 || b.is_terminal() {
        assert(b.pits[6] + b.side_stones(crate::board::Turn::Player1) + b.pits[13]
            + b.side_stones(crate::board::Turn::Player2) == b.total());
    } else {
        lemma_children(b);
        lemma_full_scan_picks_first(b, (depth - 1) as nat, maximizing, b.children().len());
    }
}

/// Where the game goes on, the search chooses the first child of the best
/// value: the chosen child has the value of the position, every child
/// before it is strictly worse, and no child is better.
pub proof fn lemma_first_best_child(b: Board, depth: nat, maximizing: bool)
    requires
        b.wf(),
        depth > 0,
        !b.is_terminal(),
    ensures
        ({
            let (score, index) = minimax_result(b, depth, maximizing);
            let below = (depth - 1) as nat;
            &&& 0 <= index < b.children().len()
            &&& child_value(b, below, maximizing, index) == score
            &&& forall|j: int|
                0 <= j < index ==> improves(
                    maximizing,
                    score,
                    #[trigger] child_value(b, below, maximizing, j),
                )
            &&& forall|j: int|
                0 <= j < b.children().len() ==> !improves(
                    maximizing,
                    #[trigger] child_value(b, below, maximizing, j),
                    score,
                )
        }),
{
    lemma_children(b);
    lemma_full_scan_picks_first(b, (depth - 1) as nat, maximizing, b.children().len());
}

/// With the window fully open the pruned search returns the value of the
/// unpruned one and chooses the same child.
pub proof fn lemma_search_equivalence(b: Board, depth: nat, maximizing: bool)
    requires
        b.wf(),
    ensures
        alphabeta(b, depth, i32::MIN as int, i32::MAX as int, maximizing) == minimax_result(
            b,
            depth,
            maximizing,
        ),
{
    lemma_alphabeta(b, depth, i32::MIN as int, i32::MAX as int, maximizing);
    lemma_value_bounded(b, depth, maximizing);
    lemma_window_holds_value(b, depth, i32::MIN as int, i32::MAX as int, maximizing);
}

/// A window that holds the value of a position strictly inside makes the
/// pruned search return that value, with the child that the unpruned search
/// chooses.
pub proof fn lemma_window_holds_value(
    b: Board,
    depth: nat,
    alpha: int,
    beta: int,
    maximizing: bool,
)
    requires
        i32::MIN <= alpha,
        beta <= i32::MAX,
        alpha < minimax_result(b, depth, maximizing).0 < beta,
    ensures
        alphabeta(b, depth, alpha, beta, maximizing) == minimax_result(b, depth, maximizing),
{
    lemma_alphabeta(b, depth, alpha, beta, maximizing);
}

/// A pruned scan chooses among the children that it has looked at.
pub proof fn lemma_pruned_scan_index(
    b: Board,
    below: nat,
    alpha: int,
    beta: int,
    maximizing: bool,
    n: nat,
)
    ensures
        0 <= pruned_scan(b, below, alpha, beta, maximizing, n).index,
        n > 0 ==> pruned_scan(b, below, alpha, beta, maximizing, n).index < n,
    decreases n,
{
    if n > 0 {
        lemma_pruned_scan_index(b, below, alpha, beta, maximizing, (n - 1) as nat);
    }
}

/// The index that a pruned search returns is 0 at a leaf and that of a
/// child elsewhere.
pub proof fn lemma_alphabeta_index(
    b: Board,
    depth: nat,
    alpha: int,
    beta: int,
    maximizing: bool,
)
    requires
        b.wf(),
    ensures
        depth == 0 || b.is_terminal() ==> alphabeta(b, depth, alpha, beta, maximizing).1 == 0,
        depth > 0 && !b.is_terminal() ==> 0 <= alphabeta(b, depth, alpha, beta, maximizing).1
            < b.children().len(),
{
    if depth > 0 && !b.is_terminal() {
        lemma_children(b);
        lemma_pruned_scan_index(
            b,
            (depth - 1) as nat,
            alpha,
            beta,
            maximizing,
            b.children().len(),
        );
    }
}

} // verus!
