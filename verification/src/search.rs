//! The search: minimax with alpha-beta pruning over the children of a
//! position, with a transposition cache at every node.
use crate::board::Board;
use crate::cache::{key_for, looked_up, stored, touched, Entry, Found, TranspositionCache};
use crate::game::Kalah;
use crate::minimax::{
    alphabeta, bounds, lemma_alphabeta, lemma_alphabeta_index, lemma_cut_is_final,
    lemma_search_equivalence, lemma_value_bounded, lemma_window_holds_value, minimax_result,
    pruned_scan, Scan,
};
use crate::moves::{lemma_children, lines_of};
use vstd::prelude::*;

verus! {

/// Whether what the cache held answers a search in the window from `alpha`
/// to `beta`: there was an entry, and its score lies strictly inside.
pub open spec fn answers(hit: Option<Found>, alpha: int, beta: int) -> bool {
    match hit {
        Some(found) => alpha < found.0 < beta,
        None => false,
    }
}

/// The outcome of a search as the cache keeps it.
pub open spec fn kept(outcome: (int, int)) -> Found {
    (outcome.0 as i32, outcome.1 as usize)
}

/// The entries of a cache made for `capacity` entries after the search of
/// `b`, if they were `entries` before. The search first uses the key of `b`;
/// an entry that answers it ends it. Else the children are searched, unless
/// `b` is a leaf, and the outcome is stored if it is the unpruned value.
pub open spec fn cache_after(
    b: Board,
    depth: u64,
    alpha: int,
    beta: int,
    maximizing: bool,
    entries: Seq<Entry>,
    capacity: nat,
) -> Seq<Entry>
    decreases depth, 0int, 0nat,
{
    let key = key_for(b, depth, maximizing);
    let used = touched(entries, key);
    let outcome = alphabeta(b, depth as nat, alpha, beta, maximizing);
    if answers(looked_up(entries, key), alpha, beta) {
        used
    } else if depth == 0 || b.is_terminal() {
        stored(used, capacity, key, kept(outcome))
    } else {
        let scanned = cache_after_scan(
            b,
            (depth - 1) as u64,
            alpha,
            beta,
            maximizing,
            b.children().len(),
            used,
            capacity,
        );
        if alpha < outcome.0 < beta {
            stored(scanned, capacity, key, kept(outcome))
        } else {
            scanned
        }
    }
}

/// The entries of the cache after the pruned scan of the first `n` children
/// of `b`, or of those up to the child at which the window closed.
pub open spec fn cache_after_scan(
    b: Board,
    below: u64,
    alpha: int,
    beta: int,
    maximizing: bool,
    n: nat,
    entries: Seq<Entry>,
    capacity: nat,
) -> Seq<Entry>
    decreases below, 1int, n,
{
    if n == 0 {
        entries
    } else {
        let earlier = cache_after_scan(
            b,
            below,
            alpha,
            beta,
            maximizing,
            (n - 1) as nat,
            entries,
            capacity,
        );
        let before = pruned_scan(b, below as nat, alpha, beta, maximizing, (n - 1) as nat);
        if before.cut {
            earlier
        } else {
            cache_after(
                b.children()[n - 1].0,
                below,
                before.alpha,
                before.beta,
                !maximizing,
                earlier,
                capacity,
            )
        }
    }
}

/// Once the window has closed the cache stays as it is.
pub proof fn lemma_cut_leaves_cache(
    b: Board,
    below: u64,
    alpha: int,
    beta: int,
    maximizing: bool,
    n: nat,
    m: nat,
    entries: Seq<Entry>,
    capacity: nat,
)
    requires
        n <= m,
        pruned_scan(b, below as nat, alpha, beta, maximizing, n).cut,
    ensures
        cache_after_scan(b, below, alpha, beta, maximizing, m, entries, capacity)
            == cache_after_scan(b, below, alpha, beta, maximizing, n, entries, capacity),
    decreases m,
{
    if n < m {
        lemma_cut_is_final(b, below as nat, alpha, beta, maximizing, n, (m - 1) as nat);
        lemma_cut_leaves_cache(
            b,
            below,
            alpha,
            beta,
            maximizing,
            n,
            (m - 1) as nat,
            entries,
            capacity,
        );
    }
}

/// Searches `node` to `depth` plies in the window from `alpha` to `beta` and
/// returns the score with the index of the chosen child among
/// `node.get_children()`.
///
/// The outcome is that of the pruned search whatever the cache holds. A
/// cached entry is used only where the window holds its score strictly
/// inside, and an outcome is stored only where it is the unpruned value:
/// at depth 0, where the game is over, and where the score lies strictly
/// inside the window. It is then the most recently used entry.
pub fn minimax(
    node: &Kalah,
    depth: u64,
    alpha: i32,
    beta: i32,
    maximizing_player: bool,
    cache: &mut TranspositionCache,
) -> (found: (i32, usize))
    requires
        old(cache).wf(),
    ensures
        (found.0 as int, found.1 as int) == alphabeta(
            node@,
            depth as nat,
            alpha as int,
            beta as int,
            maximizing_player,
        ),
        alpha < beta ==> bounds(
            (found.0 as int, found.1 as int),
            minimax_result(node@, depth as nat, maximizing_player),
            alpha as int,
            beta as int,
        ),
        depth == 0 || node@.is_terminal() ==> found.0 == node@.evaluate() && found.1 == 0,
        depth > 0 && !node@.is_terminal() ==> found.1 < node@.children().len(),
        final(cache).wf(),
        final(cache).capacity() == old(cache).capacity(),
        final(cache)@ == cache_after(
            node@,
            depth,
            alpha as int,
            beta as int,
            maximizing_player,
            old(cache)@,
            old(cache).capacity(),
        ),
        depth == 0 || node@.is_terminal() || alpha < found.0 < beta ==> final(cache)@.len() > 0
            && final(cache)@[0] == (key_for(node@, depth, maximizing_player), found),
    decreases depth,
{
    let ghost capacity = cache.capacity();
    proof {
        if alpha < beta {
            lemma_alphabeta(node@, depth as nat, alpha as int, beta as int, maximizing_player);
        }
        use_type_invariant(node);
        lemma_alphabeta_index(node@, depth as nat, alpha as int, beta as int, maximizing_player);
    }
    match cache.lookup(node, depth, maximizing_player) {
        Some((score, index)) => {
            if alpha < score && score < beta {
                proof {
                    lemma_window_holds_value(
                        node@,
                        depth as nat,
                        alpha as int,
                        beta as int,
                        maximizing_player,
                    );
                }
                return (score, index);
            }
        },
        None => {},
    }
    if depth == 0 || node.game_over() {
        let found = (node.heuristic(), 0);
        cache.store(node, depth, maximizing_player, found);
        return found;
    }
    let children = node.get_children();
    let ghost below = (depth - 1) as u64;
    let ghost used = cache@;
    let mut best: i32 = if maximizing_player { i32::MIN } else { i32::MAX };
    let mut best_move: usize = 0;
    let mut low = alpha;
    let mut high = beta;
    let mut cut = false;
    let mut i: usize = 0;
    while i < children.len() && !cut
        invariant
            depth > 0,
            below == depth - 1,
            i <= children.len(),
            lines_of(children@) == node@.children(),
            cache.wf(),
            cache.capacity() == capacity,
            cache@ == cache_after_scan(
                node@,
                below,
                alpha as int,
                beta as int,
                maximizing_player,
                i as nat,
                used,
                capacity,
            ),
            pruned_scan(
                node@,
                below as nat,
                alpha as int,
                beta as int,
                maximizing_player,
                i as nat,
            ) == (
            Scan {
                score: best as int,
                index: best_move as int,
                alpha: low as int,
                beta: high as int,
                cut,
            }),
        decreases children.len() - i,
    {
        assert(lines_of(children@)[i as int].0 == children[i as int].0@);
        let (eval, _) = minimax(&children[i].0, depth - 1, low, high, !maximizing_player, cache);
        if maximizing_player {
            if eval > best {
                best = eval;
                best_move = i;
            }
            if eval > low {
                low = eval;
            }
        } else {
            if eval < best {
                best = eval;
                best_move = i;
            }
            if eval < high {
                high = eval;
            }
        }
        cut = high <= low;
        i = i + 1;
    }
    proof {
        if cut {
            lemma_cut_is_final(
                node@,
                below as nat,
                alpha as int,
                beta as int,
                maximizing_player,
                i as nat,
                children.len() as nat,
            );
            lemma_cut_leaves_cache(
                node@,
                below,
                alpha as int,
                beta as int,
                maximizing_player,
                i as nat,
                children.len() as nat,
                used,
                capacity,
            );
        }
        assert(children.len() == node@.children().len());
    }
    let found = (best, best_move);
    if alpha < best && best < beta {
        cache.store(node, depth, maximizing_player, found);
    }
    found
}

/// The move that a search of `node` to `depth` plies with the window fully
/// open chooses: the value of `node`, the position that the chosen child
/// leads to and the pits to play to reach it. There is none where the game
/// is over.
pub fn choose_move(
    node: &Kalah,
    depth: u64,
    maximizing_player: bool,
    cache: &mut TranspositionCache,
) -> (chosen: Option<(i32, Kalah, Vec<usize>)>)
    requires
        old(cache).wf(),
    ensures
        final(cache).wf(),
        final(cache).capacity() == old(cache).capacity(),
        final(cache)@ == if node@.is_terminal() {
            old(cache)@
        } else {
            cache_after(
                node@,
                depth,
                i32::MIN as int,
                i32::MAX as int,
                maximizing_player,
                old(cache)@,
                old(cache).capacity(),
            )
        },
        chosen is None <==> node@.is_terminal(),
        match chosen {
            Some((score, next, path)) => {
                let (value, index) = minimax_result(node@, depth as nat, maximizing_player);
                &&& score == value
                &&& 0 <= index < node@.children().len()
                &&& (next@, path@) == node@.children()[index]
            },
            None => true,
        },
{
    if node.game_over() {
        return None;
    }
    proof {
        use_type_invariant(node);
        lemma_children(node@);
        lemma_search_equivalence(node@, depth as nat, maximizing_player);
        lemma_value_bounded(node@, depth as nat, maximizing_player);
    }
    let (score, index) = minimax(node, depth, i32::MIN, i32::MAX, maximizing_player, cache);
    let mut children = node.get_children();
    assert(lines_of(children@)[index as int] == (children[index as int].0@, children[index as int].1@));
    let (next, path) = children.remove(index);
    Some((score, next, path))
}

} // verus!
