//! Recency lists: what an LRU cache holds, most recently used first.
//!
//! Keys are byte strings; the cache maps each to a slot and a time.

use lru::LruCache;
use rustc_hash::FxBuildHasher;
use std::num::NonZeroUsize;
use vstd::prelude::*;

verus! {

/// An LRU cache from a key to a slot and a time.
pub type SlotLru = LruCache<Vec<u8>, (usize, u64), FxBuildHasher>;

#[verifier::external_type_specification]
#[verifier::external_body]
#[verifier::reject_recursive_types(K)]
#[verifier::reject_recursive_types(V)]
#[verifier::reject_recursive_types(S)]
pub struct ExLruCache<K, V, S>(LruCache<K, V, S>);

#[verifier::external_type_specification]
#[verifier::external_body]
pub struct ExFxBuildHasher(FxBuildHasher);

/// What a cache holds, most recently used first.
pub uninterp spec fn lru_entries(
    c: LruCache<Vec<u8>, (usize, u64), FxBuildHasher>,
) -> Seq<(Seq<u8>, (usize, u64))>;

/// How many entries a cache may hold.
pub uninterp spec fn lru_cap(c: LruCache<Vec<u8>, (usize, u64), FxBuildHasher>) -> nat;

/// Largest capacity for which room can be reserved.
pub open spec fn max_cap() -> int {
    isize::MAX / 64
}

/// Whether a recency list has an entry under a key.
pub open spec fn has_key<T>(s: Seq<(Seq<u8>, T)>, k: Seq<u8>) -> bool {
    exists|i: int| 0 <= i < s.len() && (#[trigger] s[i]).0 == k
}

/// The entry under a key.
pub open spec fn value_at<T>(s: Seq<(Seq<u8>, T)>, k: Seq<u8>) -> T {
    s[choose|i: int| 0 <= i < s.len() && (#[trigger] s[i]).0 == k].1
}

/// The key of an entry.
pub open spec fn key_of<T>() -> spec_fn((Seq<u8>, T)) -> Seq<u8> {
    |e: (Seq<u8>, T)| e.0
}

/// The test for entries under other keys.
pub open spec fn other_key<T>(k: Seq<u8>) -> spec_fn((Seq<u8>, T)) -> bool {
    |e: (Seq<u8>, T)| e.0 != k
}

/// A recency list without a key.
pub open spec fn without<T>(s: Seq<(Seq<u8>, T)>, k: Seq<u8>) -> Seq<(Seq<u8>, T)> {
    s.filter(other_key(k))
}

/// The entries that stay as they are when a key is given a value: all others, but for
/// the last one if the key is new and the list is full.
pub open spec fn lru_rest<T>(s: Seq<(Seq<u8>, T)>, cap: nat, k: Seq<u8>) -> Seq<(Seq<u8>, T)> {
    if has_key(s, k) {
        without(s, k)
    } else if s.len() < cap {
        s
    } else {
        s.drop_last()
    }
}

/// A recency list after a key was given a value: the key is in front, and if it is
/// new and the list was full, the last entry is gone.
pub open spec fn lru_put<T>(s: Seq<(Seq<u8>, T)>, cap: nat, k: Seq<u8>, v: T) -> Seq<(Seq<u8>, T)> {
    seq![(k, v)] + lru_rest(s, cap, k)
}

/// What putting a value into a recency list pushes out: the key's old entry, or the
/// last one if the list was full.
pub open spec fn lru_displaced<T>(s: Seq<(Seq<u8>, T)>, cap: nat, k: Seq<u8>) -> Option<
    (Seq<u8>, T),
> {
    if has_key(s, k) {
        Some((k, value_at(s, k)))
    } else if s.len() < cap {
        None
    } else {
        Some(s.last())
    }
}

/// `LruCache::with_hasher`: an empty cache of a given capacity. Room for that many
/// entries is reserved at once, hence the bound.
#[verifier::external_body]
pub(crate) fn lru_new(cap: usize) -> (r: SlotLru)
    requires
        0 < cap <= max_cap(),
    ensures
        lru_entries(r).len() == 0,
        lru_cap(r) == cap,
{
    LruCache::with_hasher(NonZeroUsize::new(cap).unwrap(), FxBuildHasher)
}

/// `LruCache::push`: puts the key in front with its value. Returns what that pushed
/// out: the key's old entry, or the least recently used one if the cache was full.
#[verifier::external_body]
pub(crate) fn lru_push(c: &mut SlotLru, key: Vec<u8>, value: (usize, u64)) -> (r: Option<
    (Vec<u8>, (usize, u64)),
>)
    ensures
        lru_entries(*final(c)) == lru_put(lru_entries(*old(c)), lru_cap(*old(c)), key@, value),
        lru_cap(*final(c)) == lru_cap(*old(c)),
        r is Some <==> lru_displaced(lru_entries(*old(c)), lru_cap(*old(c)), key@) is Some,
        r matches Some(e) ==> lru_displaced(lru_entries(*old(c)), lru_cap(*old(c)), key@) == Some(
            (e.0@, e.1),
        ),
{
    c.push(key, value)
}

/// `LruCache::peek`: the entry under a key, the order of use left alone.
#[verifier::external_body]
pub(crate) fn lru_peek(c: &SlotLru, key: &[u8]) -> (r: Option<(usize, u64)>)
    ensures
        r is Some <==> has_key(lru_entries(*c), key@),
        r matches Some(v) ==> v == value_at(lru_entries(*c), key@),
{
    c.peek(key).copied()
}

/// `LruCache::pop`: takes the entry under a key out.
#[verifier::external_body]
pub(crate) fn lru_pop(c: &mut SlotLru, key: &[u8]) -> (r: Option<(usize, u64)>)
    ensures
        r is Some <==> has_key(lru_entries(*old(c)), key@),
        r matches Some(v) ==> v == value_at(lru_entries(*old(c)), key@),
        lru_entries(*final(c)) == without(lru_entries(*old(c)), key@),
        lru_cap(*final(c)) == lru_cap(*old(c)),
{
    c.pop(key)
}

/// `LruCache::pop_lru`: takes the least recently used entry out.
#[verifier::external_body]
pub(crate) fn lru_pop_last(c: &mut SlotLru) -> (r: Option<(Vec<u8>, (usize, u64))>)
    ensures
        r is Some <==> lru_entries(*old(c)).len() > 0,
        r matches Some(e) ==> (e.0@, e.1) == lru_entries(*old(c)).last(),
        lru_entries(*final(c)) == (if lru_entries(*old(c)).len() > 0 {
            lru_entries(*old(c)).drop_last()
        } else {
            lru_entries(*old(c))
        }),
        lru_cap(*final(c)) == lru_cap(*old(c)),
{
    c.pop_lru()
}

/// `LruCache::len`: the number of entries.
#[verifier::external_body]
pub(crate) fn lru_len(c: &SlotLru) -> (r: usize)
    ensures
        r == lru_entries(*c).len(),
{
    c.len()
}

/// `LruCache::clear`: takes every entry out.
#[verifier::external_body]
pub(crate) fn lru_clear(c: &mut SlotLru)
    ensures
        lru_entries(*final(c)).len() == 0,
        lru_cap(*final(c)) == lru_cap(*old(c)),
{
    c.clear()
}

/// `LruCache::resize`: sets the capacity. Entries past it, the least recently used
/// ones, are dropped.
#[verifier::external_body]
pub(crate) fn lru_resize(c: &mut SlotLru, cap: usize)
    requires
        0 < cap,
    ensures
        lru_entries(*final(c)) == (if lru_entries(*old(c)).len() <= cap {
            lru_entries(*old(c))
        } else {
            lru_entries(*old(c)).take(cap as int)
        }),
        lru_cap(*final(c)) == cap,
{
    c.resize(NonZeroUsize::new(cap).unwrap())
}

/// `LruCache::iter`: the entries, most recently used first.
#[verifier::external_body]
pub(crate) fn lru_list(c: &SlotLru) -> (r: Vec<(Vec<u8>, (usize, u64))>)
    ensures
        r@.map_values(|e: (Vec<u8>, (usize, u64))| (e.0@, e.1)) == lru_entries(*c),
{
    c.iter().map(|(k, v)| (k.clone(), *v)).collect()
}

/// Whether no two elements of a sequence agree under `g`.
pub open spec fn distinct_by<A, B>(s: Seq<A>, g: spec_fn(A) -> B) -> bool {
    forall|i: int, j: int| 0 <= i < j < s.len() ==> g(#[trigger] s[i]) != g(#[trigger] s[j])
}

/// Filtering a sequence keeps its elements different under `g`.
pub proof fn lemma_distinct_filter<A, B>(
    s: Seq<A>,
    g: spec_fn(A) -> B,
    p: spec_fn(A) -> bool,
)
    requires
        distinct_by(s, g),
    ensures
        distinct_by(s.filter(p), g),
        forall|i: int|
            0 <= i < s.filter(p).len() ==> p(#[trigger] s.filter(p)[i]) && s.contains(
                s.filter(p)[i],
            ),
    decreases s.len(),
{
    reveal(Seq::filter);
    if s.len() > 0 {
        let t = s.drop_last();
        assert forall|i: int, j: int| 0 <= i < j < t.len() implies g(#[trigger] t[i]) != g(
            #[trigger] t[j],
        ) by {
            assert(t[i] == s[i] && t[j] == s[j]);
        }
        lemma_distinct_filter(t, g, p);
        let ft = t.filter(p);
        let fs = s.filter(p);
        assert forall|i: int| 0 <= i < ft.len() implies s.contains(#[trigger] ft[i]) && g(ft[i])
            != g(s.last()) by {
            assert(t.contains(ft[i]));
            let k = choose|k: int| 0 <= k < t.len() && t[k] == ft[i];
            assert(s[k] == ft[i]);
            assert(g(s[k]) != g(s[s.len() - 1]));
        }
        if p(s.last()) {
            assert(fs == ft.push(s.last()));
            assert(s[s.len() - 1] == s.last());
            assert forall|i: int, j: int| 0 <= i < j < fs.len() implies g(#[trigger] fs[i]) != g(
                #[trigger] fs[j],
            ) by {
                if j == fs.len() - 1 {
                    assert(fs[i] == ft[i]);
                } else {
                    assert(fs[i] == ft[i] && fs[j] == ft[j]);
                }
            }
            assert forall|i: int| 0 <= i < fs.len() implies p(#[trigger] fs[i]) && s.contains(
                fs[i],
            ) by {
                if i < ft.len() {
                    assert(fs[i] == ft[i]);
                }
            }
        } else {
            assert(fs == ft);
        }
    }
}

/// Filtering and mapping commute where the map does not change the outcome of the
/// test.
pub proof fn lemma_filter_map<A, B>(
    s: Seq<A>,
    f: spec_fn(A) -> B,
    p: spec_fn(A) -> bool,
    q: spec_fn(B) -> bool,
)
    requires
        forall|i: int| 0 <= i < s.len() ==> p(#[trigger] s[i]) == q(f(s[i])),
    ensures
        s.filter(p).map_values(f) == s.map_values(f).filter(q),
    decreases s.len(),
{
    reveal(Seq::filter);
    if s.len() > 0 {
        let t = s.drop_last();
        assert forall|i: int| 0 <= i < t.len() implies p(#[trigger] t[i]) == q(f(t[i])) by {
            assert(t[i] == s[i]);
        }
        lemma_filter_map(t, f, p, q);
        let m = s.map_values(f);
        assert(m.drop_last() =~= t.map_values(f));
        assert(m.last() == f(s.last()));
        assert(s[s.len() - 1] == s.last());
        if p(s.last()) {
            assert(s.filter(p) == t.filter(p).push(s.last()));
            assert(s.filter(p).map_values(f) =~= t.filter(p).map_values(f).push(f(s.last())));
        }
    } else {
        assert(s.filter(p).map_values(f) =~= s.map_values(f).filter(q));
    }
}

/// A sequence that passes a test throughout is not changed by filtering.
pub proof fn lemma_filter_all<A>(s: Seq<A>, p: spec_fn(A) -> bool)
    requires
        forall|i: int| 0 <= i < s.len() ==> p(#[trigger] s[i]),
    ensures
        s.filter(p) == s,
    decreases s.len(),
{
    reveal(Seq::filter);
    if s.len() > 0 {
        let t = s.drop_last();
        assert forall|i: int| 0 <= i < t.len() implies p(#[trigger] t[i]) by {
            assert(t[i] == s[i]);
        }
        lemma_filter_all(t, p);
        assert(s[s.len() - 1] == s.last());
        assert(t.push(s.last()) =~= s);
    }
}

/// An element that passes a test is still there after filtering.
pub proof fn lemma_filter_keeps<A>(s: Seq<A>, p: spec_fn(A) -> bool, i: int)
    requires
        0 <= i < s.len(),
        p(s[i]),
    ensures
        s.filter(p).contains(s[i]),
    decreases s.len(),
{
    reveal(Seq::filter);
    let t = s.drop_last();
    if i < t.len() {
        assert(t[i] == s[i]);
        lemma_filter_keeps(t, p, i);
        let k = choose|k: int| 0 <= k < t.filter(p).len() && t.filter(p)[k] == s[i];
        assert(s.filter(p)[k] == s[i]);
    } else {
        assert(s.filter(p)[s.filter(p).len() - 1] == s[i]);
    }
}

/// Taking a key out of a list of different keys takes one entry out, if it is there.
pub proof fn lemma_without<T>(s: Seq<(Seq<u8>, T)>, k: Seq<u8>)
    requires
        distinct_by(s, key_of::<T>()),
    ensures
        !has_key(without(s, k), k),
        distinct_by(without(s, k), key_of::<T>()),
        !has_key(s, k) ==> without(s, k) == s,
        has_key(s, k) ==> without(s, k).len() == s.len() - 1,
        forall|x: Seq<u8>| x != k ==> (#[trigger] has_key(without(s, k), x) <==> has_key(s, x)),
        forall|x: Seq<u8>|
            x != k && has_key(s, x) ==> #[trigger] value_at(without(s, k), x) == value_at(s, x),
    decreases s.len(),
{
    let g = key_of::<T>();
    let p = other_key::<T>(k);
    lemma_distinct_filter(s, g, p);
    let w = without(s, k);
    assert forall|x: Seq<u8>| x != k implies (#[trigger] has_key(w, x) <==> has_key(s, x)) by {
        if has_key(w, x) {
            let i = choose|i: int| 0 <= i < w.len() && (#[trigger] w[i]).0 == x;
            assert(s.contains(w[i]));
            let j = choose|j: int| 0 <= j < s.len() && s[j] == w[i];
            assert(s[j].0 == x);
        }
        if has_key(s, x) {
            let i = choose|i: int| 0 <= i < s.len() && (#[trigger] s[i]).0 == x;
            lemma_filter_keeps(s, p, i);
            let j = choose|j: int| 0 <= j < w.len() && w[j] == s[i];
            assert(w[j].0 == x);
        }
    }
    assert forall|x: Seq<u8>| x != k && has_key(s, x) implies #[trigger] value_at(w, x)
        == value_at(s, x) by {
        let i = choose|i: int| 0 <= i < s.len() && (#[trigger] s[i]).0 == x;
        assert(has_key(w, x));
        let j = choose|j: int| 0 <= j < w.len() && (#[trigger] w[j]).0 == x;
        assert(s.contains(w[j]));
        let l = choose|l: int| 0 <= l < s.len() && s[l] == w[j];
        if l != i {
            if l < i {
                assert(g(s[l]) != g(s[i]));
            } else {
                assert(g(s[i]) != g(s[l]));
            }
        }
    }
    if !has_key(s, k) {
        assert forall|i: int| 0 <= i < s.len() implies p(#[trigger] s[i]) by {
            assert(s[i].0 != k);
        }
        lemma_filter_all(s, p);
    } else {
        lemma_without_len(s, k);
    }
}

proof fn lemma_without_len<T>(s: Seq<(Seq<u8>, T)>, k: Seq<u8>)
    requires
        distinct_by(s, key_of::<T>()),
        has_key(s, k),
    ensures
        without(s, k).len() == s.len() - 1,
    decreases s.len(),
{
    reveal(Seq::filter);
    let g = key_of::<T>();
    let p = other_key::<T>(k);
    let t = s.drop_last();
    assert forall|i: int, j: int| 0 <= i < j < t.len() implies g(#[trigger] t[i]) != g(
        #[trigger] t[j],
    ) by {
        assert(t[i] == s[i] && t[j] == s[j]);
    }
    let i = choose|i: int| 0 <= i < s.len() && (#[trigger] s[i]).0 == k;
    if i < t.len() {
        assert(t[i].0 == k);
        lemma_without_len(t, k);
        assert(g(s[i]) != g(s[s.len() - 1]));
    } else {
        assert forall|j: int| 0 <= j < t.len() implies p(#[trigger] t[j]) by {
            assert(g(s[j]) != g(s[i]));
            assert(t[j] == s[j]);
        }
        lemma_filter_all(t, p);
    }
}

/// A list of different keys stays one when a key is given a value, and stays within its
/// capacity.
pub proof fn lemma_lru_put<T>(s: Seq<(Seq<u8>, T)>, cap: nat, k: Seq<u8>, v: T)
    requires
        distinct_by(s, key_of::<T>()),
        s.len() <= cap,
        0 < cap,
    ensures
        distinct_by(lru_put(s, cap, k, v), key_of::<T>()),
        lru_put(s, cap, k, v).len() <= cap,
        lru_put(s, cap, k, v).len() > 0,
        lru_put(s, cap, k, v)[0] == (k, v),
        has_key(lru_put(s, cap, k, v), k),
        value_at(lru_put(s, cap, k, v), k) == v,
{
    lemma_without(s, k);
    let r = lru_put(s, cap, k, v);
    let g = key_of::<T>();
    assert forall|i: int, j: int| 0 <= i < j < r.len() implies g(#[trigger] r[i]) != g(
        #[trigger] r[j],
    ) by {
        if has_key(s, k) {
            let w = without(s, k);
            assert(r[j] == w[j - 1]);
            if i > 0 {
                assert(r[i] == w[i - 1]);
            } else {
                assert(w[j - 1].0 != k);
            }
        } else {
            assert(r[j] == s[j - 1]);
            if i > 0 {
                assert(r[i] == s[i - 1]);
            } else {
                assert(s[j - 1].0 != k);
            }
        }
    }
    assert(r[0].0 == k);
    let i = choose|i: int| 0 <= i < r.len() && (#[trigger] r[i]).0 == k;
    if i > 0 {
        assert(g(r[0]) != g(r[i]));
    }
}

} // verus!
