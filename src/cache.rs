//! The transposition cache: for each board searched, the depth budget of the
//! search and its result. A stored result answers any request for the same
//! board at that depth budget or less.
use vstd::prelude::*;

use dashmap::DashMap;

use crate::board::{local_digits, Board, BoardModel};
use crate::codec::{key_matches, BoardKey};
use crate::eval::zeros;
use crate::search::{res_of, search, SearchResult};

verus! {

/// The depth budget of a stored search, and its result.
pub type CacheEntry = (u64, SearchResult);

#[verifier::external_type_specification]
#[verifier::external_body]
#[verifier::reject_recursive_types(K)]
#[verifier::reject_recursive_types(V)]
#[verifier::reject_recursive_types(S)]
pub struct ExDashMap<K, V, S>(DashMap<K, V, S>);

/// The concurrent map that holds the cache's entries.
pub type EntryMap = DashMap<BoardKey, CacheEntry>;

/// What a map of board keys to entries holds.
pub uninterp spec fn cache_entries(m: DashMap<BoardKey, CacheEntry>) -> Map<BoardKey, CacheEntry>;

/// The contents of an empty cache.
pub open spec fn no_entries() -> Map<BoardKey, CacheEntry> {
    Map::empty()
}

/// Relies on `DashMap::new`: a new map is empty.
#[verifier::external_body]
fn new_entries() -> (r: EntryMap)
    ensures
        cache_entries(r) == no_entries(),
{
    DashMap::new()
}

/// Relies on `DashMap::get`: the value stored under the key, if any.
#[verifier::external_body]
fn entry_of(m: &EntryMap, k: &BoardKey) -> (r: Option<CacheEntry>)
    ensures
        r == (if cache_entries(*m).contains_key(*k) {
            Some(cache_entries(*m)[*k])
        } else {
            None
        }),
{
    m.get(k).map(|e| *e.value())
}

/// Relies on `DashMap::insert`: the key maps to the value afterwards, and every
/// other key to what it mapped to before.
#[verifier::external_body]
fn put_entry(m: &mut EntryMap, k: BoardKey, v: CacheEntry)
    ensures
        cache_entries(*final(m)) == cache_entries(*old(m)).insert(k, v),
{
    m.insert(k, v);
}

/// The result that a cache holding `c` gives for key `k` at depth budget
/// `depth`: the stored one when it was searched at least that deep.
pub open spec fn cached(c: Map<BoardKey, CacheEntry>, k: BoardKey, depth: int) -> Option<
    SearchResult,
> {
    if c.contains_key(k) && c[k].0 >= depth {
        Some(c[k].1)
    } else {
        None
    }
}

/// The number of taken cells of the local boards below `n`.
pub open spec fn marks_below(m: BoardModel, n: nat) -> int
    decreases n,
{
    if n == 0 {
        0
    } else {
        marks_below(m, (n - 1) as nat) + 9 - zeros(local_digits(m.cells[n - 1]))
    }
}

/// The number of taken cells of a board.
pub open spec fn marks(m: BoardModel) -> int {
    marks_below(m, 9)
}

/// A move adds one taken cell.
pub proof fn lemma_marks_play(m: BoardModel, g: int, l: int)
    requires
        m.shaped(),
        m.play(g, l) is Some,
    ensures
        marks(m.play(g, l).unwrap()) == marks(m) + 1,
{
    let c = m.play(g, l).unwrap();
    let before = local_digits(m.cells[g]);
    let digit = crate::board::cell_digit(Some(m.to_play));
    assert(local_digits(c.cells[g]) =~= before.update(l, digit));
    crate::eval::lemma_zeros_update(before, l, digit);
    lemma_marks_below_play(m, c, g, 9);
}

proof fn lemma_marks_below_play(m: BoardModel, c: BoardModel, g: int, n: nat)
    requires
        0 <= g < 9,
        n <= 9,
        forall|i: int| 0 <= i < 9 && i != g ==> #[trigger] c.cells[i] == m.cells[i],
        zeros(local_digits(c.cells[g])) + 1 == zeros(local_digits(m.cells[g])),
    ensures
        marks_below(c, n) == marks_below(m, n) + if g < n {
            1int
        } else {
            0int
        },
    decreases n,
{
    if n > 0 {
        lemma_marks_below_play(m, c, g, (n - 1) as nat);
    }
}

/// Boards with one key have the same taken cells, so as many of them.
pub proof fn lemma_key_marks(k: BoardKey, m1: BoardModel, m2: BoardModel)
    requires
        m1.shaped(),
        m2.shaped(),
        key_matches(k, m1),
        key_matches(k, m2),
    ensures
        marks(m1) == marks(m2),
{
    assert forall|g: int| 0 <= g < 9 implies #[trigger] local_digits(m1.cells[g]) == local_digits(
        m2.cells[g],
    ) by {
        crate::codec::lemma_cells_of_digits(m1.cells[g]);
        crate::codec::lemma_cells_of_digits(m2.cells[g]);
        crate::eval::lemma_decode_code(local_digits(m1.cells[g]), 3);
        crate::eval::lemma_decode_code(local_digits(m2.cells[g]), 3);
        assert(k.0@[g] == crate::eval::code(local_digits(m1.cells[g]), 3));
        assert(k.0@[g] == crate::eval::code(local_digits(m2.cells[g]), 3));
        assert(local_digits(m1.cells[g]).len() == 9 && local_digits(m2.cells[g]).len() == 9);
    }
    lemma_marks_below_same(m1, m2, 9);
}

proof fn lemma_marks_below_same(m1: BoardModel, m2: BoardModel, n: nat)
    requires
        n <= 9,
        forall|g: int| 0 <= g < 9 ==> #[trigger] local_digits(m1.cells[g]) == local_digits(
            m2.cells[g],
        ),
    ensures
        marks_below(m1, n) == marks_below(m2, n),
    decreases n,
{
    if n > 0 {
        lemma_marks_below_same(m1, m2, (n - 1) as nat);
        assert(local_digits(m1.cells[n - 1]) == local_digits(m2.cells[n - 1]));
    }
}

/// Every entry of `c` for a well-formed board with `lo` to `h` taken cells
/// holds the exhaustive search result of that board at the stored depth
/// budget, and the board's taken cells plus that budget come to no more than
/// `h`. Entries of other boards may hold anything.
pub open spec fn sound_within(c: Map<BoardKey, CacheEntry>, lo: int, h: int) -> bool {
    forall|k: BoardKey, m: BoardModel|
        #![trigger c.contains_key(k), key_matches(k, m)]
        c.contains_key(k) && m.wf() && key_matches(k, m) && lo <= marks(m) <= h ==> res_of(c[k].1)
            == search(m, c[k].0 as nat) && marks(m) + c[k].0 <= h
}

/// Key `k` holds in `new` what it held in `old`.
pub open spec fn kept(old: Map<BoardKey, CacheEntry>, new: Map<BoardKey, CacheEntry>, k: BoardKey) -> bool {
    old.contains_key(k) && new.contains_key(k) && new[k] == old[k]
}

/// `new` keeps every key of `old`, an entry being replaced only by one of a
/// deeper search; every key added or replaced belongs to a board with at least
/// `lo` taken cells.
pub open spec fn grows_from(old: Map<BoardKey, CacheEntry>, new: Map<BoardKey, CacheEntry>, lo: int) -> bool {
    &&& forall|k: BoardKey|
        #[trigger] old.contains_key(k) ==> new.contains_key(k) && new[k].0 >= old[k].0 && (new[k].0
            == old[k].0 ==> new[k] == old[k])
    &&& forall|k: BoardKey|
        #[trigger] new.contains_key(k) && !kept(old, new, k) ==> exists|m: BoardModel|
            #[trigger] key_matches(k, m) && m.shaped() && marks(m) >= lo
}

pub proof fn lemma_grows_trans(
    a: Map<BoardKey, CacheEntry>,
    b: Map<BoardKey, CacheEntry>,
    c: Map<BoardKey, CacheEntry>,
    lo: int,
    lo2: int,
)
    requires
        grows_from(a, b, lo),
        grows_from(b, c, lo2),
        lo <= lo2,
    ensures
        grows_from(a, c, lo),
{
    assert forall|k: BoardKey| #[trigger] c.contains_key(k) && !kept(a, c, k) implies exists|m: BoardModel|
        #[trigger] key_matches(k, m) && m.shaped() && marks(m) >= lo by {
        if kept(b, c, k) {
            assert(b.contains_key(k) && !kept(a, b, k));
        } else {
            let m = choose|m: BoardModel| #[trigger] key_matches(k, m) && m.shaped() && marks(m) >= lo2;
            assert(key_matches(k, m) && m.shaped() && marks(m) >= lo);
        }
    }
}

/// A cache that only grows by keys of boards with more than `lo` taken cells
/// keeps every entry of a board with exactly `lo`.
pub proof fn lemma_grows_keeps(
    a: Map<BoardKey, CacheEntry>,
    b: Map<BoardKey, CacheEntry>,
    lo: int,
    k: BoardKey,
    m: BoardModel,
)
    requires
        grows_from(a, b, lo + 1),
        key_matches(k, m),
        m.shaped(),
        marks(m) <= lo,
    ensures
        a.contains_key(k) == b.contains_key(k),
        a.contains_key(k) ==> b[k] == a[k],
{
    if b.contains_key(k) && !kept(a, b, k) {
        let m2 = choose|m2: BoardModel| #[trigger] key_matches(k, m2) && m2.shaped() && marks(m2) >= lo + 1;
        lemma_key_marks(k, m, m2);
    }
}

/// The transposition cache of the search.
pub struct SearchCache {
    entries: EntryMap,
}

impl SearchCache {
    /// What the cache holds, by board key.
    pub closed spec fn contents(&self) -> Map<BoardKey, CacheEntry> {
        cache_entries(self.entries)
    }

    /// An empty cache.
    pub fn new() -> (r: Self)
        ensures
            r.contents() == no_entries(),
    {
        SearchCache { entries: new_entries() }
    }

    /// The stored result for `board` if it was searched at depth budget
    /// `depth` or more.
    pub fn lookup(&self, board: &Board, depth: u64) -> (r: Option<SearchResult>)
        ensures
            forall|k: BoardKey| key_matches(k, board@) ==> r == cached(self.contents(), k, depth as int),
    {
        let k = board.key();
        proof {
            assert forall|k2: BoardKey| key_matches(k2, board@) implies k2 == k by {
                crate::codec::lemma_key_unique(k, k2, board@);
            }
        }
        match entry_of(&self.entries, &k) {
            Some(e) => if e.0 >= depth {
                Some(e.1)
            } else {
                None
            },
            None => None,
        }
    }

    /// Stores the result of searching `board` at depth budget `depth`.
    pub fn insert(&mut self, board: &Board, depth: u64, result: SearchResult)
        ensures
            forall|k: BoardKey|
                key_matches(k, board@) ==> final(self).contents() == old(self).contents().insert(
                    k,
                    (depth, result),
                ),
    {
        let k = board.key();
        proof {
            assert forall|k2: BoardKey| key_matches(k2, board@) implies k2 == k by {
                crate::codec::lemma_key_unique(k, k2, board@);
            }
        }
        put_entry(&mut self.entries, k, (depth, result));
    }
}

/// A result stored at depth budget `d` answers every request at `d` or less,
/// unchanged, and none deeper.
pub proof fn lemma_cached_depth(
    c: Map<BoardKey, CacheEntry>,
    k: BoardKey,
    d: u64,
    r: SearchResult,
    d2: u64,
)
    ensures
        cached(c.insert(k, (d, r)), k, d2 as int) == if d2 <= d {
            Some(r)
        } else {
            None
        },
{
}

} // verus!
