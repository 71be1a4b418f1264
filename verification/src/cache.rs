//! The transposition cache: a bounded table from searched positions to
//! their values, which forgets the entry that was used least recently.
//!
//! An entry is kept for a position, a depth and an aim together, and only
//! values that no pruning has cut short are ever stored, so that an entry
//! can stand in for a search whenever the window holds its score.
//!
//! The table itself is an `LruCache` of the `lru` crate. Its keys are made
//! of integers and booleans alone, which the standard library compares and
//! hashes by their values. What the table does is not proved here: the
//! functions `lru_sparse`, `lru_get`, `lru_put` and `lru_len` state it, over
//! the sequence of entries from the most to the least recently used.
use crate::board::{Board, Turn};
use crate::game::{cells, Kalah};
use crate::minimax::minimax_result;
use lru::LruCache;
use std::num::NonZeroUsize;
use vstd::prelude::*;

verus! {

/// What an entry is kept under: whether the first player is to move, the
/// fourteen cells, the depth of the search and whether it maximizes.
pub type Key = (bool, [u8; 14], u64, bool);

/// What an entry holds: the score and the index of the child chosen.
pub type Found = (i32, usize);

/// An entry of the table.
pub type Entry = (Key, Found);

/// `lru::LruCache`, the table of the `lru` crate. Nothing inside it is
/// visible here: what it holds is named by `lru_entries`, what it was made
/// for by `lru_capacity`.
#[verifier::external_type_specification]
#[verifier::external_body]
#[verifier::reject_recursive_types(K)]
#[verifier::reject_recursive_types(V)]
#[verifier::reject_recursive_types(S)]
pub struct ExLruCache<K, V, S>(LruCache<K, V, S>);

/// `lru::DefaultHasher`, the state of the hasher that an `LruCache` uses
/// unless it is given another. It is carried along and never looked into.
#[verifier::external_type_specification]
#[verifier::external_body]
pub struct ExDefaultHasher(lru::DefaultHasher);

/// The entries of an `LruCache`, the most recently used first.
pub uninterp spec fn lru_entries(table: LruCache<Key, Found>) -> Seq<Entry>;

/// The number of entries that an `LruCache` was made to hold.
pub uninterp spec fn lru_capacity(table: LruCache<Key, Found>) -> nat;

/// Whether `entries` has an entry under `key`.
pub open spec fn holds(entries: Seq<Entry>, key: Key) -> bool {
    exists|i: int| 0 <= i < entries.len() && (#[trigger] entries[i]).0 == key
}

/// The place of the entry under `key`, where there is one.
pub open spec fn slot(entries: Seq<Entry>, key: Key) -> int {
    choose|i: int| 0 <= i < entries.len() && (#[trigger] entries[i]).0 == key
}

/// What is found under `key`.
pub open spec fn looked_up(entries: Seq<Entry>, key: Key) -> Option<Found> {
    if holds(entries, key) {
        Some(entries[slot(entries, key)].1)
    } else {
        None
    }
}

/// The entries after a use of `key`: its entry, if there is one, has moved
/// to the front.
pub open spec fn touched(entries: Seq<Entry>, key: Key) -> Seq<Entry> {
    if holds(entries, key) {
        seq![entries[slot(entries, key)]] + entries.remove(slot(entries, key))
    } else {
        entries
    }
}

/// The entries after `found` has been put under `key` into a table made for
/// `capacity` entries: the new entry stands at the front; it replaces the
/// entry under `key` if there was one, and else, if the table was full, the
/// last entry has gone.
pub open spec fn stored(entries: Seq<Entry>, capacity: nat, key: Key, found: Found) -> Seq<
    Entry,
> {
    if holds(entries, key) {
        seq![(key, found)] + entries.remove(slot(entries, key))
    } else if entries.len() < capacity {
        seq![(key, found)] + entries
    } else {
        seq![(key, found)] + entries.drop_last()
    }
}

/// `LruCache::sparse` makes a table that holds at most `capacity` entries
/// and is empty at first. The capacity must not be zero.
#[verifier::external_body]
fn lru_sparse(capacity: usize) -> (table: LruCache<Key, Found>)
    requires
        capacity > 0,
    ensures
        lru_entries(table) == Seq::<Entry>::empty(),
        lru_capacity(table) == capacity,
{
    LruCache::sparse(NonZeroUsize::new(capacity).unwrap())
}

/// `LruCache::get` returns a copy of what the table holds under `key`, if
/// anything, and moves that entry to the front; the rest of the table stays
/// as it is.
#[verifier::external_body]
fn lru_get(table: &mut LruCache<Key, Found>, key: &Key) -> (hit: Option<Found>)
    ensures
        hit == looked_up(lru_entries(*old(table)), *key),
        lru_entries(*final(table)) == touched(lru_entries(*old(table)), *key),
        lru_capacity(*final(table)) == lru_capacity(*old(table)),
{
    table.get(key).copied()
}

/// `LruCache::put` places `found` under `key` at the front of the table. An
/// entry under `key` is replaced; else a full table first drops the entry
/// that was used least recently, which is its last.
#[verifier::external_body]
fn lru_put(table: &mut LruCache<Key, Found>, key: Key, found: Found)
    ensures
        lru_entries(*final(table)) == stored(
            lru_entries(*old(table)),
            lru_capacity(*old(table)),
            key,
            found,
        ),
        lru_capacity(*final(table)) == lru_capacity(*old(table)),
{
    table.put(key, found);
}

/// `LruCache::len` returns the number of entries in the table.
#[verifier::external_body]
fn lru_len(table: &LruCache<Key, Found>) -> (n: usize)
    ensures
        n == lru_entries(*table).len(),
{
    table.len()
}

/// The position that `key` stands for.
pub open spec fn key_board(key: Key) -> Board {
    Board { turn: if key.0 { Turn::Player1 } else { Turn::Player2 }, pits: cells(key.1) }
}

/// Whether `key` stands for the search of `b` to `depth` with the given aim.
pub open spec fn is_key_of(key: Key, b: Board, depth: u64, maximizing: bool) -> bool {
    key_board(key) == b && key.2 == depth && key.3 == maximizing
}

/// The key under which the search of `b` to `depth` with the given aim is
/// kept.
pub open spec fn key_for(b: Board, depth: u64, maximizing: bool) -> Key {
    choose|key: Key| is_key_of(key, b, depth, maximizing)
}

/// An entry is exact if it holds the unpruned value of its position at its
/// depth for its aim, and the child that the unpruned search chooses.
pub open spec fn exact(entry: Entry) -> bool {
    (entry.1.0 as int, entry.1.1 as int) == minimax_result(
        key_board(entry.0),
        entry.0.2 as nat,
        entry.0.3,
    )
}

/// A table is coherent if it holds no more entries than it was made for, no
/// two under one key, and exact entries only.
pub open spec fn coherent(entries: Seq<Entry>, capacity: nat) -> bool {
    &&& 0 < capacity
    &&& entries.len() <= capacity
    &&& forall|i: int, j: int|
        0 <= i < j < entries.len() ==> (#[trigger] entries[i]).0 != (#[trigger] entries[j]).0
    &&& forall|i: int| 0 <= i < entries.len() ==> exact(#[trigger] entries[i])
}

/// No two keys stand for the same search.
pub proof fn lemma_key_unique(a: Key, b: Key)
    requires
        key_board(a) == key_board(b),
        a.2 == b.2,
        a.3 == b.3,
    ensures
        a == b,
{
    assert forall|i: int| 0 <= i < 14 implies a.1[i] == b.1[i] by {
        assert(cells(a.1)[i] == cells(b.1)[i]);
    }
    assert(a.1 =~= b.1);
}

/// Using a key keeps a coherent table coherent, and what was found stays
/// where it then is: at the front.
pub proof fn lemma_touched(entries: Seq<Entry>, capacity: nat, key: Key)
    requires
        coherent(entries, capacity),
    ensures
        coherent(touched(entries, key), capacity),
        touched(entries, key).len() == entries.len(),
        looked_up(entries, key) matches Some(found) ==> exact((key, found)) && touched(
            entries,
            key,
        )[0] == (key, found),
{
    if holds(entries, key) {
        let at = slot(entries, key);
        let after = touched(entries, key);
        assert forall|i: int| 0 <= i < after.len() implies exists|j: int|
            0 <= j < entries.len() && #[trigger] after[i] == entries[j] && (i == 0 <==> j == at)
            && (0 < i <= at ==> j == i - 1) && (at < i ==> j == i) by {
            if i == 0 {
                assert(after[i] == entries[at]);
            } else if i <= at {
                assert(after[i] == entries[i - 1]);
            } else {
                assert(after[i] == entries[i]);
            }
        }
        assert forall|i: int, j: int| 0 <= i < j < after.len() implies (#[trigger] after[i]).0 != (
        #[trigger] after[j]).0 by {
            let a = if i == 0 { at } else if i <= at { i - 1 } else { i };
            let b = if j <= at { j - 1 } else { j };
            assert(after[i] == entries[a] && after[j] == entries[b]);
        }
    }
}

/// Putting an exact entry into a coherent table keeps the table coherent,
/// and the entry is then found at the front.
pub proof fn lemma_stored(entries: Seq<Entry>, capacity: nat, key: Key, found: Found)
    requires
        coherent(entries, capacity),
        exact((key, found)),
    ensures
        coherent(stored(entries, capacity, key, found), capacity),
        stored(entries, capacity, key, found)[0] == (key, found),
        looked_up(stored(entries, capacity, key, found), key) == Some(found),
{
    let after = stored(entries, capacity, key, found);
    let at = slot(entries, key);
    assert(after[0] == (key, found));
    assert forall|i: int| 0 < i < after.len() implies (#[trigger] after[i]).0 != key && exists|
        j: int,
    |
        0 <= j < entries.len() && after[i] == entries[j] && (holds(entries, key) && i <= at ==> j
            == i - 1) && (holds(entries, key) && at < i ==> j == i) && (!holds(entries, key) ==> j
            == i - 1) by {
        if holds(entries, key) {
            if i <= at {
                assert(after[i] == entries[i - 1]);
            } else {
                assert(after[i] == entries[i]);
            }
        } else {
            assert(after[i] == entries[i - 1]);
        }
    }
    assert forall|i: int, j: int| 0 <= i < j < after.len() implies (#[trigger] after[i]).0 != (
    #[trigger] after[j]).0 by {
        if i > 0 {
            let a = if holds(entries, key) && at < i { i } else { i - 1 };
            let b = if holds(entries, key) && at < j { j } else { j - 1 };
            assert(after[i] == entries[a] && after[j] == entries[b]);
        }
    }
    assert(holds(after, key));
    let front = slot(after, key);
    assert(front == 0) by {
        if front > 0 {
            assert(after[front].0 != key);
        }
    }
}

/// A transposition cache. Its entries are written by the search alone, so
/// that every one of them is exact.
pub struct TranspositionCache {
    table: LruCache<Key, Found>,
}

impl View for TranspositionCache {
    type V = Seq<Entry>;

    /// The entries, the most recently used first.
    closed spec fn view(&self) -> Seq<Entry> {
        lru_entries(self.table)
    }
}

impl TranspositionCache {
    /// The number of entries that the cache was made to hold.
    pub closed spec fn capacity(&self) -> nat {
        lru_capacity(self.table)
    }

    /// The cache is coherent: it holds no more entries than it was made
    /// for, no two under one key, and exact entries only.
    pub open spec fn wf(&self) -> bool {
        coherent(self@, self.capacity())
    }

    /// An empty cache for at most `capacity` entries, unless `capacity` is
    /// zero.
    pub fn new(capacity: usize) -> (made: Option<TranspositionCache>)
        ensures
            made is Some <==> capacity > 0,
            match made {
                Some(cache) => cache.wf() && cache@.len() == 0 && cache.capacity() == capacity,
                None => true,
            },
    {
        if capacity == 0 {
            None
        } else {
            Some(TranspositionCache { table: lru_sparse(capacity) })
        }
    }

    /// The number of entries in the cache.
    pub fn len(&self) -> (n: usize)
        ensures
            n == self@.len(),
    {
        lru_len(&self.table)
    }

    /// What the cache holds for the search of `node` to `depth` with the
    /// given aim. An entry that is found becomes the most recently used one.
    pub fn lookup(&mut self, node: &Kalah, depth: u64, maximizing: bool) -> (hit: Option<Found>)
        requires
            old(self).wf(),
        ensures
            final(self).wf(),
            hit == looked_up(old(self)@, key_for(node@, depth, maximizing)),
            final(self)@ == touched(old(self)@, key_for(node@, depth, maximizing)),
            final(self).capacity() == old(self).capacity(),
            match hit {
                Some(found) => {
                    &&& (found.0 as int, found.1 as int) == minimax_result(
                        node@,
                        depth as nat,
                        maximizing,
                    )
                    &&& final(self)@.len() > 0
                    &&& final(self)@[0] == (key_for(node@, depth, maximizing), found)
                },
                None => true,
            },
    {
        let key = make_key(node, depth, maximizing);
        proof {
            lemma_touched(self@, self.capacity(), key);
        }
        lru_get(&mut self.table, &key)
    }

    /// Puts the outcome of the unpruned search of `node` to `depth` with the
    /// given aim into the cache, as its most recently used entry.
    pub(crate) fn store(&mut self, node: &Kalah, depth: u64, maximizing: bool, found: Found)
        requires
            old(self).wf(),
            (found.0 as int, found.1 as int) == minimax_result(node@, depth as nat, maximizing),
        ensures
            final(self).wf(),
            final(self)@ == stored(
                old(self)@,
                old(self).capacity(),
                key_for(node@, depth, maximizing),
                found,
            ),
            final(self).capacity() == old(self).capacity(),
            final(self)@.len() > 0,
            final(self)@[0] == (key_for(node@, depth, maximizing), found),
    {
        let key = make_key(node, depth, maximizing);
        proof {
            lemma_stored(self@, self.capacity(), key, found);
        }
        lru_put(&mut self.table, key, found);
    }
}

/// The key under which the search of `node` to `depth` with the given aim is
/// kept.
fn make_key(node: &Kalah, depth: u64, maximizing: bool) -> (key: Key)
    ensures
        is_key_of(key, node@, depth, maximizing),
        key == key_for(node@, depth, maximizing),
{
    let first = match node.turn() {
        Turn::Player1 => true,
        Turn::Player2 => false,
    };
    let key = (first, node.pits(), depth, maximizing);
    proof {
        assert(is_key_of(key, node@, depth, maximizing));
        lemma_key_unique(key, key_for(node@, depth, maximizing));
    }
    key
}

} // verus!
