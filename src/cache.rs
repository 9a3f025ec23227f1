//! A bounded least-recently-used cache from relative paths to file bytes,
//! held in an `lru::LruCache`.
use vstd::prelude::*;
use lru::LruCache;
use std::num::NonZeroUsize;
use std::sync::Arc;

verus! {

/// The number of entries a cache holds unless told otherwise.
pub const DEFAULT_CACHE_CAPACITY: usize = 20;

#[verifier::external_type_specification]
#[verifier::external_body]
#[verifier::reject_recursive_types(K)]
#[verifier::reject_recursive_types(V)]
#[verifier::reject_recursive_types(S)]
pub struct ExLruCache<K, V, S>(LruCache<K, V, S>);

#[verifier::external_type_specification]
#[verifier::external_body]
pub struct ExDefaultHasher(lru::DefaultHasher);

/// The entries of an `lru::LruCache`, most recently used first.
pub uninterp spec fn lru_entries(c: LruCache<String, Arc<Vec<u8>>>) -> Seq<(Seq<char>, Seq<u8>)>;

/// The bound that an `lru::LruCache` was created with.
pub uninterp spec fn lru_capacity(c: LruCache<String, Arc<Vec<u8>>>) -> nat;

/// No key occurs twice.
pub open spec fn keys_unique(es: Seq<(Seq<char>, Seq<u8>)>) -> bool {
    forall|i: int, j: int| 0 <= i < es.len() && 0 <= j < es.len() && i != j ==> es[i].0 != es[j].0
}

/// A consistent cache state: unique keys, within a positive bound.
pub open spec fn cache_valid(es: Seq<(Seq<char>, Seq<u8>)>, cap: nat) -> bool {
    keys_unique(es) && es.len() <= cap && cap > 0
}

/// Where key `k` stands in `es`, if it is there.
pub open spec fn key_position(es: Seq<(Seq<char>, Seq<u8>)>, k: Seq<char>) -> Option<int> {
    if exists|i: int| 0 <= i < es.len() && es[i].0 == k {
        Some(choose|i: int| 0 <= i < es.len() && es[i].0 == k)
    } else {
        None
    }
}

/// The entries after a lookup of `k`: a present key moves to the front.
pub open spec fn after_get(es: Seq<(Seq<char>, Seq<u8>)>, k: Seq<char>) -> Seq<(Seq<char>, Seq<u8>)> {
    match key_position(es, k) {
        Some(i) => seq![es[i]] + es.remove(i),
        None => es,
    }
}

/// The entries after storing `v` under `k`: the pair goes to the front,
/// replacing an entry of the same key, or else evicting the least recently
/// used entry when the cache is full.
pub open spec fn after_put(es: Seq<(Seq<char>, Seq<u8>)>, cap: nat, k: Seq<char>, v: Seq<u8>) -> Seq<
    (Seq<char>, Seq<u8>),
> {
    match key_position(es, k) {
        Some(i) => seq![(k, v)] + es.remove(i),
        None => if es.len() >= cap {
            seq![(k, v)] + es.drop_last()
        } else {
            seq![(k, v)] + es
        },
    }
}

/// Relies on lru::LruCache::new: a new cache is empty and bounded by `cap`.
#[verifier::external_body]
fn lru_new(cap: usize) -> (c: LruCache<String, Arc<Vec<u8>>>)
    requires
        cap > 0,
    ensures
        lru_entries(c) == Seq::<(Seq<char>, Seq<u8>)>::empty(),
        lru_capacity(c) == cap,
{
    LruCache::new(NonZeroUsize::new(cap).unwrap())
}

/// Relies on lru::LruCache::get: a hit returns the stored value and moves
/// its entry to the front; a miss changes nothing. It relinks list nodes and
/// never panics.
#[verifier::external_body]
fn lru_get(c: &mut LruCache<String, Arc<Vec<u8>>>, k: &str) -> (r: Option<Arc<Vec<u8>>>)
    requires
        keys_unique(lru_entries(*old(c))),
    ensures
        lru_capacity(*final(c)) == lru_capacity(*old(c)),
        lru_entries(*final(c)) == after_get(lru_entries(*old(c)), k@),
        match key_position(lru_entries(*old(c)), k@) {
            Some(i) => r matches Some(v) && v@ == lru_entries(*old(c))[i].1,
            None => r is None,
        },
    no_unwind
{
    c.get(k).cloned()
}

/// Relies on lru::LruCache::put: the pair goes to the front, replacing the
/// value of an equal key, else evicting the back entry when the cache is full.
/// It panics only where its own map and list disagree, which its invariant
/// rules out.
#[verifier::external_body]
fn lru_put(c: &mut LruCache<String, Arc<Vec<u8>>>, k: String, v: Arc<Vec<u8>>)
    requires
        cache_valid(lru_entries(*old(c)), lru_capacity(*old(c))),
    ensures
        lru_capacity(*final(c)) == lru_capacity(*old(c)),
        lru_entries(*final(c)) == after_put(lru_entries(*old(c)), lru_capacity(*old(c)), k@, v@),
    no_unwind
{
    c.put(k, v);
}

proof fn lemma_key_position(es: Seq<(Seq<char>, Seq<u8>)>, k: Seq<char>)
    ensures
        key_position(es, k) matches Some(i) ==> 0 <= i < es.len() && es[i].0 == k,
        key_position(es, k) is None ==> forall|i: int| 0 <= i < es.len() ==> es[i].0 != k,
{
}

proof fn lemma_after_get_valid(es: Seq<(Seq<char>, Seq<u8>)>, cap: nat, k: Seq<char>)
    requires
        cache_valid(es, cap),
    ensures
        cache_valid(after_get(es, k), cap),
{
    lemma_key_position(es, k);
    if let Some(i) = key_position(es, k) {
        let r = after_get(es, k);
        assert forall|a: int, b: int| 0 <= a < r.len() && 0 <= b < r.len() && a != b implies r[a].0
            != r[b].0 by {
            let ia = if a == 0 { i } else if a - 1 < i { a - 1 } else { a };
            let ib = if b == 0 { i } else if b - 1 < i { b - 1 } else { b };
            assert(r[a] == es[ia]);
            assert(r[b] == es[ib]);
        }
    }
}

proof fn lemma_after_put_valid(es: Seq<(Seq<char>, Seq<u8>)>, cap: nat, k: Seq<char>, v: Seq<u8>)
    requires
        cache_valid(es, cap),
    ensures
        cache_valid(after_put(es, cap, k, v), cap),
{
    lemma_key_position(es, k);
    let r = after_put(es, cap, k, v);
    let rest = r.subrange(1, r.len() as int);
    let base = match key_position(es, k) {
        Some(i) => es.remove(i),
        None => if es.len() >= cap {
            es.drop_last()
        } else {
            es
        },
    };
    assert(rest =~= base);
    assert forall|a: int| 0 <= a < base.len() implies exists|j: int|
        0 <= j < es.len() && #[trigger] base[a] == es[j] && (key_position(es, k) matches Some(
            i,
        ) ==> j != i) by {
        match key_position(es, k) {
            Some(i) => {
                if a < i {
                    assert(base[a] == es[a]);
                } else {
                    assert(base[a] == es[a + 1]);
                }
            },
            None => {
                assert(base[a] == es[a]);
            },
        }
    }
    assert forall|a: int, b: int| 0 <= a < r.len() && 0 <= b < r.len() && a != b implies r[a].0
        != r[b].0 by {
        if a > 0 && b > 0 {
            assert(r[a] == base[a - 1]);
            assert(r[b] == base[b - 1]);
            let ja = choose|j: int|
                0 <= j < es.len() && #[trigger] base[a - 1] == es[j] && (key_position(
                    es,
                    k,
                ) matches Some(i) ==> j != i);
            let jb = choose|j: int|
                0 <= j < es.len() && #[trigger] base[b - 1] == es[j] && (key_position(
                    es,
                    k,
                ) matches Some(i) ==> j != i);
            match key_position(es, k) {
                Some(i) => {
                    if a - 1 < i {
                        assert(base[a - 1] == es[a - 1]);
                    } else {
                        assert(base[a - 1] == es[a]);
                    }
                    if b - 1 < i {
                        assert(base[b - 1] == es[b - 1]);
                    } else {
                        assert(base[b - 1] == es[b]);
                    }
                },
                None => {
                    assert(base[a - 1] == es[a - 1]);
                    assert(base[b - 1] == es[b - 1]);
                },
            }
        } else if a == 0 {
            let jb = choose|j: int|
                0 <= j < es.len() && #[trigger] base[b - 1] == es[j] && (key_position(
                    es,
                    k,
                ) matches Some(i) ==> j != i);
            assert(r[b] == base[b - 1]);
        } else {
            let ja = choose|j: int|
                0 <= j < es.len() && #[trigger] base[a - 1] == es[j] && (key_position(
                    es,
                    k,
                ) matches Some(i) ==> j != i);
            assert(r[a] == base[a - 1]);
        }
    }
}

/// The entries after storing `vs[j]` under `ks[j]` for each `j` in order,
/// starting from an empty cache bounded by `cap`.
pub open spec fn put_all(cap: nat, ks: Seq<Seq<char>>, vs: Seq<Seq<u8>>) -> Seq<(Seq<char>, Seq<u8>)>
    decreases ks.len(),
{
    if ks.len() == 0 {
        Seq::empty()
    } else {
        after_put(put_all(cap, ks.drop_last(), vs.drop_last()), cap, ks.last(), vs.last())
    }
}

pub open spec fn distinct_keys(ks: Seq<Seq<char>>) -> bool {
    forall|i: int, j: int| 0 <= i < ks.len() && 0 <= j < ks.len() && i != j ==> ks[i] != ks[j]
}

/// Once `v` is stored under `k`, a lookup of `k` hits at the front and
/// returns exactly `v`.
pub proof fn lemma_put_then_get(es: Seq<(Seq<char>, Seq<u8>)>, cap: nat, k: Seq<char>, v: Seq<u8>)
    requires
        cache_valid(es, cap),
    ensures
        key_position(after_put(es, cap, k, v), k) == Some(0int),
        after_put(es, cap, k, v)[0] == (k, v),
        after_get(after_put(es, cap, k, v), k) == after_put(es, cap, k, v),
{
    let r = after_put(es, cap, k, v);
    lemma_after_put_valid(es, cap, k, v);
    lemma_key_position(r, k);
    assert(r[0].0 == k);
    assert(r.remove(0) =~= r.subrange(1, r.len() as int));
    assert(seq![r[0]] + r.remove(0) =~= r);
}

/// Storing `n <= cap` distinct keys into an empty cache keeps all of them,
/// the latest first.
proof fn lemma_put_all_fits(cap: nat, ks: Seq<Seq<char>>, vs: Seq<Seq<u8>>)
    requires
        ks.len() <= cap,
        vs.len() == ks.len(),
        distinct_keys(ks),
        cap > 0,
    ensures
        put_all(cap, ks, vs).len() == ks.len(),
        forall|m: int|
            0 <= m < ks.len() ==> (#[trigger] put_all(cap, ks, vs)[m]).0 == ks[ks.len() - 1 - m],
        cache_valid(put_all(cap, ks, vs), cap),
    decreases ks.len(),
{
    if ks.len() > 0 {
        let ks0 = ks.drop_last();
        let vs0 = vs.drop_last();
        lemma_put_all_fits(cap, ks0, vs0);
        let prev = put_all(cap, ks0, vs0);
        lemma_key_position(prev, ks.last());
        assert forall|i: int| 0 <= i < prev.len() implies prev[i].0 != ks.last() by {
            assert(prev[i].0 == ks[ks0.len() - 1 - i]);
        }
        lemma_after_put_valid(prev, cap, ks.last(), vs.last());
        let cur = put_all(cap, ks, vs);
        assert(cur =~= seq![(ks.last(), vs.last())] + prev);
        assert forall|m: int| 0 <= m < ks.len() implies (#[trigger] cur[m]).0 == ks[ks.len() - 1 - m] by {
            if m > 0 {
                assert(cur[m] == prev[m - 1]);
            }
        }
    }
}

/// Storing `cap + 1` distinct keys in order into an empty cache bounded by
/// `cap` evicts the first key, the least recently used one, and keeps the rest.
pub proof fn lemma_evicts_least_recent(cap: nat, ks: Seq<Seq<char>>, vs: Seq<Seq<u8>>)
    requires
        cap > 0,
        ks.len() == cap + 1,
        vs.len() == ks.len(),
        distinct_keys(ks),
    ensures
        key_position(put_all(cap, ks, vs), ks[0]) is None,
        forall|j: int| 1 <= j < ks.len() ==> #[trigger] key_position(put_all(cap, ks, vs), ks[j]) is Some,
{
    let ks0 = ks.drop_last();
    let vs0 = vs.drop_last();
    lemma_put_all_fits(cap, ks0, vs0);
    let prev = put_all(cap, ks0, vs0);
    lemma_key_position(prev, ks.last());
    assert forall|i: int| 0 <= i < prev.len() implies prev[i].0 != ks.last() by {
        assert(prev[i].0 == ks[ks0.len() - 1 - i]);
    }
    let cur = put_all(cap, ks, vs);
    assert(cur =~= seq![(ks.last(), vs.last())] + prev.drop_last());
    lemma_key_position(cur, ks[0]);
    assert forall|i: int| 0 <= i < cur.len() implies cur[i].0 != ks[0] by {
        if i == 0 {
            assert(ks.last() == ks[cap as int]);
        } else {
            assert(cur[i] == prev[i - 1]);
            assert(prev[i - 1].0 == ks[cap - 1 - (i - 1)]);
        }
    }
    assert forall|j: int| 1 <= j < ks.len() implies #[trigger] key_position(cur, ks[j]) is Some by {
        lemma_key_position(cur, ks[j]);
        if j == cap {
            assert(cur[0].0 == ks[j]);
        } else {
            let i = cap - j;
            assert(cur[i] == prev[i - 1]);
            assert(prev[i - 1].0 == ks[cap - 1 - (i - 1)]);
        }
    }
}

/// The bounded content cache: relative path to the bytes last read for it.
pub struct ContentCache {
    lru: LruCache<String, Arc<Vec<u8>>>,
}

impl View for ContentCache {
    type V = Seq<(Seq<char>, Seq<u8>)>;

    closed spec fn view(&self) -> Seq<(Seq<char>, Seq<u8>)> {
        lru_entries(self.lru)
    }
}

impl ContentCache {
    #[verifier::type_invariant]
    spec fn inv(&self) -> bool {
        cache_valid(lru_entries(self.lru), lru_capacity(self.lru))
    }

    /// The most entries the cache holds.
    pub closed spec fn capacity(&self) -> nat {
        lru_capacity(self.lru)
    }

    /// An empty cache that holds at most `capacity` entries.
    pub fn new(capacity: usize) -> (c: ContentCache)
        requires
            capacity > 0,
        ensures
            c@ == Seq::<(Seq<char>, Seq<u8>)>::empty(),
            c.capacity() == capacity,
    {
        ContentCache { lru: lru_new(capacity) }
    }

    /// An empty cache of the default capacity.
    pub fn with_default_capacity() -> (c: ContentCache)
        ensures
            c@ == Seq::<(Seq<char>, Seq<u8>)>::empty(),
            c.capacity() == DEFAULT_CACHE_CAPACITY,
    {
        ContentCache::new(DEFAULT_CACHE_CAPACITY)
    }

    /// Looks up `key`; a hit marks the entry most recently used.
    pub fn get(&mut self, key: &str) -> (r: Option<Arc<Vec<u8>>>)
        ensures
            final(self).capacity() == old(self).capacity(),
            final(self)@ == after_get(old(self)@, key@),
            match key_position(old(self)@, key@) {
                Some(i) => r matches Some(v) && v@ == old(self)@[i].1,
                None => r is None,
            },
    {
        proof {
            use_type_invariant(&*self);
            lemma_after_get_valid(self@, self.capacity(), key@);
        }
        lru_get(&mut self.lru, key)
    }

    /// Stores `value` under `key` as the most recently used entry, evicting
    /// the least recently used one when a new key finds the cache full.
    pub fn put(&mut self, key: String, value: Arc<Vec<u8>>)
        ensures
            final(self).capacity() == old(self).capacity(),
            final(self)@ == after_put(old(self)@, old(self).capacity(), key@, value@),
    {
        proof {
            use_type_invariant(&*self);
            lemma_after_put_valid(self@, self.capacity(), key@, value@);
        }
        lru_put(&mut self.lru, key, value);
    }
}

} // verus!
