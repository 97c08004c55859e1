//! LRU cache of rendered page images.
//!
//! Rendered pages are cached as their encoded image text, keyed by page index
//! and zoom level (in hundredths). The cache holds at most fifty entries and
//! forgets the least recently used one when a new entry arrives at capacity.

use vstd::prelude::*;
use lru::LruCache;

verus! {

/// Maximum number of rendered pages to keep in the cache.
pub const MAX_CACHE_SIZE: usize = 50;

#[verifier::external_type_specification]
#[verifier::external_body]
#[verifier::reject_recursive_types(K)]
#[verifier::reject_recursive_types(V)]
#[verifier::reject_recursive_types(S)]
pub struct ExLruCache<K, V, S>(LruCache<K, V, S>);

#[verifier::external_type_specification]
#[verifier::external_body]
pub struct ExLruHasher(lru::DefaultHasher);

/// The entries of an LRU cache, most recently used first.
pub uninterp spec fn lru_entries(c: LruCache<(u16, i32), String>) -> Seq<((u16, i32), Seq<char>)>;

/// The capacity an LRU cache was made with.
pub uninterp spec fn lru_capacity(c: LruCache<(u16, i32), String>) -> nat;

/// Position of the entry with key `k`, if any (the first one).
pub open spec fn find_key(es: Seq<((u16, i32), Seq<char>)>, k: (u16, i32)) -> Option<int>
    decreases es.len(),
{
    if es.len() == 0 {
        None
    } else {
        match find_key(es.drop_last(), k) {
            Some(i) => Some(i),
            None => if es.last().0 == k { Some(es.len() - 1) } else { None },
        }
    }
}

/// The entries after `put(k, v)`: an existing entry for `k` takes the new
/// value and moves to the front; otherwise the new entry goes to the front,
/// and at capacity the least recently used entry is dropped.
pub open spec fn lru_after_put(
    es: Seq<((u16, i32), Seq<char>)>,
    cap: nat,
    k: (u16, i32),
    v: Seq<char>,
) -> Seq<((u16, i32), Seq<char>)> {
    match find_key(es, k) {
        Some(i) => seq![(k, v)] + es.remove(i),
        None => if es.len() == cap { seq![(k, v)] + es.drop_last() } else { seq![(k, v)] + es },
    }
}

/// The entries after a `get(k)`: a found entry moves to the front.
pub open spec fn lru_after_get(es: Seq<((u16, i32), Seq<char>)>, k: (u16, i32)) -> Seq<((u16, i32), Seq<char>)> {
    match find_key(es, k) {
        Some(i) => seq![es[i]] + es.remove(i),
        None => es,
    }
}

/// The value stored for `k`, if any.
pub open spec fn lru_lookup(es: Seq<((u16, i32), Seq<char>)>, k: (u16, i32)) -> Option<Seq<char>> {
    match find_key(es, k) {
        Some(i) => Some(es[i].1),
        None => None,
    }
}

/// Calls `LruCache::new` with `cap` as its non-zero capacity: an empty
/// cache that holds at most `cap` entries.
#[verifier::external_body]
fn lru_new(cap: usize) -> (c: LruCache<(u16, i32), String>)
    requires
        cap > 0,
    ensures
        lru_entries(c) == Seq::<((u16, i32), Seq<char>)>::empty(),
        lru_capacity(c) == cap,
{
    LruCache::new(std::num::NonZeroUsize::new(cap).unwrap())
}

/// Calls `LruCache::get` and clones the value found. A found entry becomes
/// the most recently used one.
#[verifier::external_body]
fn lru_get(c: &mut LruCache<(u16, i32), String>, k: (u16, i32)) -> (r: Option<String>)
    ensures
        lru_entries(*final(c)) == lru_after_get(lru_entries(*old(c)), k),
        lru_capacity(*final(c)) == lru_capacity(*old(c)),
        match r {
            Some(s) => lru_lookup(lru_entries(*old(c)), k) == Some(s@),
            None => lru_lookup(lru_entries(*old(c)), k) is None,
        },
{
    c.get(&k).cloned()
}

/// Calls `LruCache::put`: see `lru_after_put`.
#[verifier::external_body]
fn lru_put(c: &mut LruCache<(u16, i32), String>, k: (u16, i32), v: String)
    ensures
        lru_entries(*final(c)) == lru_after_put(lru_entries(*old(c)), lru_capacity(*old(c)), k, v@),
        lru_capacity(*final(c)) == lru_capacity(*old(c)),
{
    c.put(k, v);
}

/// Calls `LruCache::clear`, which removes every entry.
#[verifier::external_body]
fn lru_clear(c: &mut LruCache<(u16, i32), String>)
    ensures
        lru_entries(*final(c)) == Seq::<((u16, i32), Seq<char>)>::empty(),
        lru_capacity(*final(c)) == lru_capacity(*old(c)),
{
    c.clear();
}

/// Calls `LruCache::contains`, which looks the key up without changing the
/// recency order.
#[verifier::external_body]
fn lru_contains(c: &LruCache<(u16, i32), String>, k: (u16, i32)) -> (b: bool)
    ensures
        b == find_key(lru_entries(*c), k) is Some,
{
    c.contains(&k)
}

/// Cache key combining a page index and a normalised zoom level.
#[derive(Debug, Clone, Copy, PartialEq, Eq, Hash, Structural)]
pub struct CacheKey {
    pub page_index: u16,
    /// Zoom × 100, rounded to an integer.
    pub zoom_centile: i32,
}

impl CacheKey {
    /// The key as the pair the cache is indexed by.
    pub open spec fn pair(self) -> (u16, i32) {
        (self.page_index, self.zoom_centile)
    }

    fn as_pair(&self) -> (p: (u16, i32))
        ensures
            p == self.pair(),
    {
        (self.page_index, self.zoom_centile)
    }
}

/// Keys are distinct.
pub open spec fn keys_distinct(es: Seq<((u16, i32), Seq<char>)>) -> bool {
    forall|i: int, j: int| 0 <= i < j < es.len() ==> es[i].0 != es[j].0
}

/// LRU cache of rendered page images (encoded image text).
pub struct PageCache {
    inner: LruCache<(u16, i32), String>,
}

impl PageCache {
    /// The cached entries, most recently used first.
    pub closed spec fn entries(&self) -> Seq<((u16, i32), Seq<char>)> {
        lru_entries(self.inner)
    }

    /// The cache holds at most `MAX_CACHE_SIZE` entries with distinct keys.
    pub closed spec fn wf(&self) -> bool {
        &&& lru_capacity(self.inner) == MAX_CACHE_SIZE
        &&& self.entries().len() <= MAX_CACHE_SIZE
        &&& keys_distinct(self.entries())
    }

    pub fn new() -> (c: PageCache)
        ensures
            c.wf(),
            c.entries() == Seq::<((u16, i32), Seq<char>)>::empty(),
    {
        PageCache { inner: lru_new(MAX_CACHE_SIZE) }
    }

    /// The cached image for `key`, if present; a hit becomes the most
    /// recently used entry.
    pub fn get(&mut self, key: CacheKey) -> (r: Option<String>)
        requires
            old(self).wf(),
        ensures
            final(self).wf(),
            final(self).entries() == lru_after_get(old(self).entries(), key.pair()),
            match r {
                Some(s) => lru_lookup(old(self).entries(), key.pair()) == Some(s@),
                None => lru_lookup(old(self).entries(), key.pair()) is None,
            },
    {
        let k = key.as_pair();
        let r = lru_get(&mut self.inner, k);
        proof { lemma_after_get_wf(old(self).entries(), k); }
        r
    }

    /// Insert a rendered page into the cache.
    pub fn put(&mut self, key: CacheKey, data: String)
        requires
            old(self).wf(),
        ensures
            final(self).wf(),
            final(self).entries() == lru_after_put(old(self).entries(), MAX_CACHE_SIZE as nat, key.pair(), data@),
    {
        let k = key.as_pair();
        let ghost d = data@;
        lru_put(&mut self.inner, k, data);
        proof { lemma_after_put_wf(old(self).entries(), MAX_CACHE_SIZE as nat, k, d); }
    }

    /// Remove all cached entries.
    pub fn invalidate_all(&mut self)
        requires
            old(self).wf(),
        ensures
            final(self).wf(),
            final(self).entries() == Seq::<((u16, i32), Seq<char>)>::empty(),
    {
        lru_clear(&mut self.inner);
    }

    /// Whether a key is present, without promoting it in the LRU order.
    pub fn contains(&self, key: CacheKey) -> (b: bool)
        ensures
            b == find_key(self.entries(), key.pair()) is Some,
    {
        lru_contains(&self.inner, key.as_pair())
    }
}

impl Default for PageCache {
    fn default() -> (c: PageCache)
        ensures
            c.wf(),
            c.entries() == Seq::<((u16, i32), Seq<char>)>::empty(),
    {
        PageCache::new()
    }
}

// ---- facts about the entry sequence -------------------------------------------

proof fn lemma_find_key(es: Seq<((u16, i32), Seq<char>)>, k: (u16, i32))
    ensures
        match find_key(es, k) {
            Some(i) => 0 <= i < es.len() && es[i].0 == k && forall|j: int| 0 <= j < i ==> es[j].0 != k,
            None => forall|j: int| 0 <= j < es.len() ==> es[j].0 != k,
        },
    decreases es.len(),
{
    if es.len() > 0 {
        lemma_find_key(es.drop_last(), k);
        match find_key(es.drop_last(), k) {
            Some(i) => {
                assert forall|j: int| 0 <= j < i implies es[j].0 != k by {
                    assert(es[j] == es.drop_last()[j]);
                }
                assert(es[i] == es.drop_last()[i]);
            },
            None => {
                assert forall|j: int| 0 <= j < es.len() - 1 implies es[j].0 != k by {
                    assert(es[j] == es.drop_last()[j]);
                }
            },
        }
    }
}

proof fn lemma_after_get_wf(es: Seq<((u16, i32), Seq<char>)>, k: (u16, i32))
    requires
        keys_distinct(es),
    ensures
        keys_distinct(lru_after_get(es, k)),
        lru_after_get(es, k).len() == es.len(),
{
    lemma_find_key(es, k);
    if let Some(i) = find_key(es, k) {
        let r = seq![es[i]] + es.remove(i);
        assert forall|a: int, b: int| 0 <= a < b < r.len() implies r[a].0 != r[b].0 by {
            if a == 0 {
                if b - 1 < i { assert(r[b] == es[b - 1]); } else { assert(r[b] == es[b]); }
            } else {
                let ea = if a - 1 < i { a - 1 } else { a };
                let eb = if b - 1 < i { b - 1 } else { b };
                assert(r[a] == es[ea]);
                assert(r[b] == es[eb]);
            }
        }
    }
}

proof fn lemma_after_put_wf(es: Seq<((u16, i32), Seq<char>)>, cap: nat, k: (u16, i32), v: Seq<char>)
    requires
        keys_distinct(es),
        es.len() <= cap,
        cap > 0,
    ensures
        keys_distinct(lru_after_put(es, cap, k, v)),
        lru_after_put(es, cap, k, v).len() <= cap,
{
    lemma_find_key(es, k);
    let r = lru_after_put(es, cap, k, v);
    match find_key(es, k) {
        Some(i) => {
            assert forall|a: int, b: int| 0 <= a < b < r.len() implies r[a].0 != r[b].0 by {
                let eb = if b - 1 < i { b - 1 } else { b };
                assert(r[b] == es[eb]);
                if a > 0 {
                    let ea = if a - 1 < i { a - 1 } else { a };
                    assert(r[a] == es[ea]);
                }
            }
        },
        None => {
            let rest = if es.len() == cap { es.drop_last() } else { es };
            assert(r == seq![(k, v)] + rest);
            assert forall|a: int, b: int| 0 <= a < b < r.len() implies r[a].0 != r[b].0 by {
                assert(r[b] == rest[b - 1]);
                assert(rest[b - 1] == es[b - 1]);
                if a > 0 {
                    assert(r[a] == es[a - 1]);
                }
            }
        },
    }
}

// ---- laws ------------------------------------------------------------------------

/// A lookup right after `put(k, v)` finds `v`.
pub proof fn law_get_after_put(es: Seq<((u16, i32), Seq<char>)>, cap: nat, k: (u16, i32), v: Seq<char>)
    ensures
        lru_lookup(lru_after_put(es, cap, k, v), k) == Some(v),
{
    let r = lru_after_put(es, cap, k, v);
    assert(r[0] == (k, v));
    lemma_find_key(r, k);
    assert(find_key(r, k) == Some(0int)) by {
        lemma_find_key_first(r, k);
    }
}

proof fn lemma_find_key_first(es: Seq<((u16, i32), Seq<char>)>, k: (u16, i32))
    requires
        es.len() > 0,
        es[0].0 == k,
    ensures
        find_key(es, k) == Some(0int),
    decreases es.len(),
{
    if es.len() > 1 {
        assert(es.drop_last()[0] == es[0]);
        lemma_find_key_first(es.drop_last(), k);
    } else {
        assert(es.drop_last().len() == 0);
        assert(find_key(es.drop_last(), k) is None);
        assert(es.last() == es[0]);
    }
}

/// A `put` for one key leaves the value stored for every other key as it
/// was, but for the least recently used entry when a new key arrives at
/// capacity: that one is evicted.
pub proof fn law_put_keeps_other_keys(
    es: Seq<((u16, i32), Seq<char>)>,
    cap: nat,
    k: (u16, i32),
    v: Seq<char>,
    other: (u16, i32),
)
    requires
        keys_distinct(es),
        cap > 0,
        other != k,
        !(find_key(es, k) is None && es.len() == cap && es.last().0 == other),
    ensures
        lru_lookup(lru_after_put(es, cap, k, v), other) == lru_lookup(es, other),
{
    lemma_find_key(es, k);
    lemma_find_key(es, other);
    let r = lru_after_put(es, cap, k, v);
    lemma_find_key(r, other);
    match find_key(es, k) {
        Some(i) => {
            match find_key(es, other) {
                Some(j) => {
                    let rj = if j < i { j + 1 } else { j };
                    assert(r[rj] == es[j]);
                    match find_key(r, other) {
                        Some(x) => {
                            let ex = if x - 1 < i { x - 1 } else { x };
                            if x > 0 { assert(r[x] == es[ex]); }
                        },
                        None => {},
                    }
                },
                None => {
                    match find_key(r, other) {
                        Some(x) => {
                            let ex = if x - 1 < i { x - 1 } else { x };
                            if x > 0 { assert(r[x] == es[ex]); }
                        },
                        None => {},
                    }
                },
            }
        },
        None => {
            let d = if es.len() == cap { es.drop_last() } else { es };
            assert(r == seq![(k, v)] + d);
            assert(forall|q: int| 0 <= q < d.len() ==> d[q] == es[q]);
            match find_key(es, other) {
                Some(j) => {
                    assert(j < d.len());
                    assert(r[j + 1] == es[j]);
                    match find_key(r, other) {
                        Some(x) => { if x > 0 { assert(r[x] == es[x - 1]); } },
                        None => {},
                    }
                },
                None => {
                    match find_key(r, other) {
                        Some(x) => { if x > 0 { assert(r[x] == es[x - 1]); } },
                        None => {},
                    }
                },
            }
        },
    }
}

} // verus!
