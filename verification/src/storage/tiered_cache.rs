//! Two-tier cache: a hot and a warm recency list; what is in neither is cold and has to
//! be loaded again.
//!
//! What is read or written becomes hot. What has not been used for a while goes from
//! hot to warm and from warm out. Keys are byte strings. Times are nanoseconds on a
//! monotonic clock that the caller reads.

use crate::bytes::copy_bytes;
use crate::storage::recency::{
    distinct_by, has_key, key_of, lemma_distinct_filter, lemma_filter_map, lemma_lru_put,
    lemma_without, lru_cap, lru_clear, lru_displaced, lru_entries, lru_len, lru_list, lru_new,
    lru_peek, lru_pop, lru_pop_last, lru_push, lru_put, lru_resize, lru_rest, max_cap, other_key,
    value_at, without, SlotLru,
};
use crate::storage::slab::Slab;
use vstd::prelude::*;

verus! {

/// Sizes and ages of the tiers.
#[derive(Debug, Clone, Copy, PartialEq, Eq, Structural)]
pub struct TieredCacheConfig {
    pub hot_max_count: usize,
    pub warm_max_count: usize,
    /// Age at which a hot entry becomes warm.
    pub hot_threshold_secs: u64,
    /// Age at which a warm entry is dropped.
    pub warm_threshold_secs: u64,
}

impl Default for TieredCacheConfig {
    fn default() -> (r: Self)
        ensures
            r == (TieredCacheConfig {
                hot_max_count: 500_000,
                warm_max_count: 1_000_000,
                hot_threshold_secs: 1800,
                warm_threshold_secs: 7200,
            }),
    {
        TieredCacheConfig {
            hot_max_count: 500_000,
            warm_max_count: 1_000_000,
            hot_threshold_secs: 1800,
            warm_threshold_secs: 7200,
        }
    }
}

/// The capacity that a configured size gives: at least one.
pub open spec fn cap_of(count: usize) -> nat {
    if count == 0 {
        1
    } else {
        count as nat
    }
}

/// Whether an entry last used at `touched` is older than `secs` seconds.
pub open spec fn older_than(touched: u64, now: u64, secs: u64) -> bool {
    touched + secs * 1_000_000_000 < now
}

/// Whether an entry last used at `touched` is older than `secs` seconds.
pub fn is_older(touched: u64, now: u64, secs: u64) -> (r: bool)
    ensures
        r == older_than(touched, now, secs),
{
    assert(secs * 1_000_000_000 <= 0xffff_ffff_ffff_ffff * 1_000_000_000) by (nonlinear_arith)
        requires
            secs <= 0xffff_ffff_ffff_ffff,
    ;
    (touched as u128) + (secs as u128) * 1_000_000_000u128 < (now as u128)
}

/// The entry with its value in place of its slot.
pub open spec fn resolve<V>(m: Map<usize, V>) -> spec_fn((Seq<u8>, (usize, u64))) -> (
    Seq<u8>,
    (V, u64),
) {
    |e: (Seq<u8>, (usize, u64))| (e.0, (m[e.1.0], e.1.1))
}

/// The slot of an entry.
pub open spec fn slot_of() -> spec_fn((Seq<u8>, (usize, u64))) -> usize {
    |e: (Seq<u8>, (usize, u64))| e.1.0
}

/// A recency list in order: different keys, different slots, each in use, and no more
/// entries than the capacity.
pub open spec fn list_ok<V>(
    raw: Seq<(Seq<u8>, (usize, u64))>,
    cap: nat,
    m: Map<usize, V>,
) -> bool {
    &&& distinct_by(raw, key_of::<(usize, u64)>())
    &&& distinct_by(raw, slot_of())
    &&& raw.len() <= cap
    &&& 0 < cap
    &&& forall|i: int| 0 <= i < raw.len() ==> m.dom().contains((#[trigger] raw[i]).1.0)
}

/// Whether two recency lists use different slots.
pub open spec fn slots_apart(
    a: Seq<(Seq<u8>, (usize, u64))>,
    b: Seq<(Seq<u8>, (usize, u64))>,
) -> bool {
    forall|i: int, j: int|
        0 <= i < a.len() && 0 <= j < b.len() ==> (#[trigger] a[i]).1.0 != (#[trigger] b[j]).1.0
}

proof fn lemma_slots_differ(
    h: Seq<(Seq<u8>, (usize, u64))>,
    w: Seq<(Seq<u8>, (usize, u64))>,
    i: int,
    j: int,
)
    requires
        distinct_by(h, slot_of()),
        distinct_by(w, slot_of()),
        slots_apart(h, w),
        0 <= i < h.len() + w.len(),
        0 <= j < h.len() + w.len(),
        i != j,
    ensures
        (h.map_values(slot_of()) + w.map_values(slot_of()))[i] != (h.map_values(slot_of())
            + w.map_values(slot_of()))[j],
{
    if j < i {
        lemma_slots_differ_ordered(h, w, j, i);
    } else {
        lemma_slots_differ_ordered(h, w, i, j);
    }
}

proof fn lemma_slots_differ_ordered(
    h: Seq<(Seq<u8>, (usize, u64))>,
    w: Seq<(Seq<u8>, (usize, u64))>,
    i: int,
    j: int,
)
    requires
        distinct_by(h, slot_of()),
        distinct_by(w, slot_of()),
        slots_apart(h, w),
        0 <= i < j < h.len() + w.len(),
    ensures
        (h.map_values(slot_of()) + w.map_values(slot_of()))[i] != (h.map_values(slot_of())
            + w.map_values(slot_of()))[j],
{
    let g = slot_of();
    if j < h.len() {
        assert(g(h[i]) != g(h[j]));
    } else if i < h.len() {
        assert(h[i].1.0 != w[j - h.len()].1.0);
    } else {
        assert(g(w[i - h.len()]) != g(w[j - h.len()]));
    }
}

/// Whether a slot is used by a recency list.
pub open spec fn uses_slot(raw: Seq<(Seq<u8>, (usize, u64))>, slot: usize) -> bool {
    exists|i: int| 0 <= i < raw.len() && (#[trigger] raw[i]).1.0 == slot
}

proof fn lemma_resolve_keys<V>(raw: Seq<(Seq<u8>, (usize, u64))>, m: Map<usize, V>)
    ensures
        raw.map_values(resolve(m)).len() == raw.len(),
        forall|k: Seq<u8>| #[trigger]
            has_key(raw.map_values(resolve(m)), k) <==> has_key(raw, k),
        distinct_by(raw, key_of::<(usize, u64)>()) <==> distinct_by(
            raw.map_values(resolve(m)),
            key_of::<(V, u64)>(),
        ),
{
    let v = raw.map_values(resolve(m));
    assert forall|k: Seq<u8>| #[trigger] has_key(v, k) <==> has_key(raw, k) by {
        if has_key(v, k) {
            let i = choose|i: int| 0 <= i < v.len() && (#[trigger] v[i]).0 == k;
            assert(raw[i].0 == k);
        }
        if has_key(raw, k) {
            let i = choose|i: int| 0 <= i < raw.len() && (#[trigger] raw[i]).0 == k;
            assert(v[i].0 == k);
        }
    }
    if distinct_by(raw, key_of::<(usize, u64)>()) {
        assert forall|i: int, j: int| 0 <= i < j < v.len() implies key_of::<(V, u64)>()(
            #[trigger] v[i],
        ) != key_of::<(V, u64)>()(#[trigger] v[j]) by {
            assert(key_of::<(usize, u64)>()(raw[i]) != key_of::<(usize, u64)>()(raw[j]));
        }
    }
    if distinct_by(v, key_of::<(V, u64)>()) {
        assert forall|i: int, j: int| 0 <= i < j < raw.len() implies key_of::<(usize, u64)>()(
            #[trigger] raw[i],
        ) != key_of::<(usize, u64)>()(#[trigger] raw[j]) by {
            assert(key_of::<(V, u64)>()(v[i]) != key_of::<(V, u64)>()(v[j]));
        }
    }
}

proof fn lemma_resolve_value<V>(
    raw: Seq<(Seq<u8>, (usize, u64))>,
    m: Map<usize, V>,
    k: Seq<u8>,
)
    requires
        distinct_by(raw, key_of::<(usize, u64)>()),
        has_key(raw, k),
    ensures
        value_at(raw.map_values(resolve(m)), k) == (m[value_at(raw, k).0], value_at(raw, k).1),
        uses_slot(raw, value_at(raw, k).0),
{
    let v = raw.map_values(resolve(m));
    lemma_resolve_keys(raw, m);
    assert(has_key(v, k));
    let i = choose|i: int| 0 <= i < raw.len() && (#[trigger] raw[i]).0 == k;
    let j = choose|j: int| 0 <= j < v.len() && (#[trigger] v[j]).0 == k;
    assert(raw[j].0 == k);
    let g = key_of::<(usize, u64)>();
    if i < j {
        assert(g(raw[i]) != g(raw[j]));
    } else if j < i {
        assert(g(raw[j]) != g(raw[i]));
    }
}

proof fn lemma_resolve_without<V>(
    raw: Seq<(Seq<u8>, (usize, u64))>,
    m: Map<usize, V>,
    k: Seq<u8>,
)
    ensures
        without(raw, k).map_values(resolve(m)) == without(raw.map_values(resolve(m)), k),
{
    lemma_filter_map(raw, resolve(m), other_key::<(usize, u64)>(k), other_key::<(V, u64)>(k));
}

proof fn lemma_resolve_rest<V>(
    raw: Seq<(Seq<u8>, (usize, u64))>,
    m: Map<usize, V>,
    cap: nat,
    k: Seq<u8>,
)
    requires
        0 < cap,
    ensures
        lru_rest(raw, cap, k).map_values(resolve(m)) == lru_rest(
            raw.map_values(resolve(m)),
            cap,
            k,
        ),
{
    lemma_resolve_keys(raw, m);
    if has_key(raw, k) {
        assert(has_key(raw.map_values(resolve(m)), k));
        lemma_resolve_without(raw, m, k);
    } else {
        assert(!has_key(raw.map_values(resolve(m)), k));
        if raw.len() >= cap {
            assert(raw.drop_last().map_values(resolve(m)) =~= raw.map_values(
                resolve(m),
            ).drop_last());
        }
    }
}

proof fn lemma_resolve_change<V>(
    raw: Seq<(Seq<u8>, (usize, u64))>,
    m1: Map<usize, V>,
    m2: Map<usize, V>,
)
    requires
        forall|i: int|
            0 <= i < raw.len() ==> m1[(#[trigger] raw[i]).1.0] == m2[raw[i].1.0],
    ensures
        raw.map_values(resolve(m1)) == raw.map_values(resolve(m2)),
{
    assert(raw.map_values(resolve(m1)) =~= raw.map_values(resolve(m2)));
}

/// Where the entries that stay come from, and that what was pushed out is not among
/// them.
proof fn lemma_rest_members(raw: Seq<(Seq<u8>, (usize, u64))>, cap: nat, k: Seq<u8>)
    requires
        distinct_by(raw, key_of::<(usize, u64)>()),
        distinct_by(raw, slot_of()),
        raw.len() <= cap,
        0 < cap,
    ensures
        forall|i: int|
            0 <= i < lru_rest(raw, cap, k).len() ==> raw.contains(
                #[trigger] lru_rest(raw, cap, k)[i],
            ) && lru_rest(raw, cap, k)[i].0 != k,
        distinct_by(lru_rest(raw, cap, k), slot_of()),
        distinct_by(lru_rest(raw, cap, k), key_of::<(usize, u64)>()),
        lru_rest(raw, cap, k).len() < cap,
        lru_displaced(raw, cap, k) matches Some(e) ==> uses_slot(raw, e.1.0) && !uses_slot(
            lru_rest(raw, cap, k),
            e.1.0,
        ),
{
    let rest = lru_rest(raw, cap, k);
    let g = key_of::<(usize, u64)>();
    lemma_without(raw, k);
    if has_key(raw, k) {
        lemma_distinct_filter(raw, slot_of(), other_key::<(usize, u64)>(k));
        let i = choose|i: int| 0 <= i < raw.len() && (#[trigger] raw[i]).0 == k;
        assert(value_at(raw, k) == raw[i].1);
        let slot = raw[i].1.0;
        if uses_slot(rest, slot) {
            let j = choose|j: int| 0 <= j < rest.len() && (#[trigger] rest[j]).1.0 == slot;
            assert(raw.contains(rest[j]));
            let l = choose|l: int| 0 <= l < raw.len() && raw[l] == rest[j];
            assert(other_key::<(usize, u64)>(k)(rest[j]));
            if l < i {
                assert(slot_of()(raw[l]) != slot_of()(raw[i]));
            } else if i < l {
                assert(slot_of()(raw[i]) != slot_of()(raw[l]));
            }
        }
        assert forall|j: int| 0 <= j < rest.len() implies raw.contains(#[trigger] rest[j])
            && rest[j].0 != k by {
            assert(other_key::<(usize, u64)>(k)(rest[j]));
        }
    } else {
        assert forall|j: int| 0 <= j < rest.len() implies raw.contains(#[trigger] rest[j])
            && rest[j].0 != k by {
            assert(rest[j] == raw[j]);
        }
        assert forall|i: int, j: int| 0 <= i < j < rest.len() implies slot_of()(
            #[trigger] rest[i],
        ) != slot_of()(#[trigger] rest[j]) by {
            assert(rest[i] == raw[i] && rest[j] == raw[j]);
        }
        assert forall|i: int, j: int| 0 <= i < j < rest.len() implies g(#[trigger] rest[i]) != g(
            #[trigger] rest[j],
        ) by {
            assert(rest[i] == raw[i] && rest[j] == raw[j]);
        }
        if raw.len() >= cap {
            let n = raw.len() - 1;
            assert(raw[n] == raw.last());
            let slot = raw.last().1.0;
            if uses_slot(rest, slot) {
                let j = choose|j: int| 0 <= j < rest.len() && (#[trigger] rest[j]).1.0 == slot;
                assert(rest[j] == raw[j]);
                assert(slot_of()(raw[j]) != slot_of()(raw[n]));
            }
        }
    }
}

/// Puts a key in front of a recency list, with a slot that the list does not use, and
/// frees the slot of what that pushes out.
fn push_into<V>(c: &mut SlotLru, values: &mut Slab<V>, key: Vec<u8>, slot: usize, t: u64)
    requires
        old(values).wf(),
        list_ok(lru_entries(*old(c)), lru_cap(*old(c)), old(values)@),
        old(values)@.dom().contains(slot),
        !uses_slot(lru_entries(*old(c)), slot),
        !has_key(lru_entries(*old(c)), key@),
    ensures
        final(values).wf(),
        lru_cap(*final(c)) == lru_cap(*old(c)),
        lru_entries(*final(c)) == lru_put(
            lru_entries(*old(c)),
            lru_cap(*old(c)),
            key@,
            (slot, t),
        ),
        list_ok(lru_entries(*final(c)), lru_cap(*final(c)), final(values)@),
        lru_entries(*final(c)).map_values(resolve(final(values)@)) == lru_put(
            lru_entries(*old(c)).map_values(resolve(old(values)@)),
            lru_cap(*old(c)),
            key@,
            (old(values)@[slot], t),
        ),
        final(values)@ == (match lru_displaced(lru_entries(*old(c)), lru_cap(*old(c)), key@) {
            Some(e) => old(values)@.remove(e.1.0),
            None => old(values)@,
        }),
{
    let ghost raw = lru_entries(*c);
    let ghost cap = lru_cap(*c);
    let ghost m0 = values@;
    let ghost k = key@;
    proof {
        lemma_rest_members(raw, cap, k);
        lemma_lru_put(raw, cap, k, (slot, t));
        lemma_resolve_rest(raw, m0, cap, k);
    }
    match lru_push(c, key, (slot, t)) {
        Some(e) => {
            let _ = values.take(e.1.0);
        },
        None => {},
    }
    proof {
        let m1 = values@;
        let rest = lru_rest(raw, cap, k);
        let raw1 = lru_entries(*c);
        assert forall|i: int| 0 <= i < rest.len() implies m1.dom().contains(
            (#[trigger] rest[i]).1.0,
        ) && m1[rest[i].1.0] == m0[rest[i].1.0] && rest[i].1.0 != slot by {
            assert(raw.contains(rest[i]));
            let j = choose|j: int| 0 <= j < raw.len() && raw[j] == rest[i];
            assert(raw[j].1.0 != slot);
            assert(uses_slot(rest, rest[i].1.0));
        }
        lemma_resolve_change(rest, m0, m1);
        assert(raw1.map_values(resolve(m1)) =~= seq![(k, (m0[slot], t))] + rest.map_values(
            resolve(m1),
        ));
        assert forall|i: int| 0 <= i < raw1.len() implies m1.dom().contains(
            (#[trigger] raw1[i]).1.0,
        ) by {
            if i > 0 {
                assert(raw1[i] == rest[i - 1]);
            }
        }
        assert forall|i: int, j: int| 0 <= i < j < raw1.len() implies slot_of()(
            #[trigger] raw1[i],
        ) != slot_of()(#[trigger] raw1[j]) by {
            assert(raw1[j] == rest[j - 1]);
            if i > 0 {
                assert(raw1[i] == rest[i - 1]);
                assert(slot_of()(rest[i - 1]) != slot_of()(rest[j - 1]));
            }
        }
    }
}

/// Two-tier cache.
pub struct TieredCache<V> {
    hot: SlotLru,
    warm: SlotLru,
    values: Slab<V>,
    cold_loaded_count: u64,
    config: TieredCacheConfig,
}

/// The cache's state as the contracts see it. Each tier lists key, value and time of
/// last use, most recently used first.
#[verifier::ext_equal]
pub struct TierState<V> {
    pub hot: Seq<(Seq<u8>, (V, u64))>,
    pub warm: Seq<(Seq<u8>, (V, u64))>,
    pub hot_cap: nat,
    pub warm_cap: nat,
    pub cold_loaded: u64,
    pub config: TieredCacheConfig,
}

impl<V> TierState<V> {
    /// No key occurs twice, in one tier or in both, and no tier is over its capacity.
    pub open spec fn wf(self) -> bool {
        &&& distinct_by(self.hot, key_of::<(V, u64)>())
        &&& distinct_by(self.warm, key_of::<(V, u64)>())
        &&& forall|k: Seq<u8>| !(#[trigger] has_key(self.hot, k) && has_key(self.warm, k))
        &&& self.hot.len() <= self.hot_cap
        &&& self.warm.len() <= self.warm_cap
        &&& 0 < self.hot_cap
        &&& 0 < self.warm_cap
    }

    /// Whether a key is in either tier.
    pub open spec fn has(self, k: Seq<u8>) -> bool {
        has_key(self.hot, k) || has_key(self.warm, k)
    }

    /// Value and time of last use of a key that is in a tier.
    pub open spec fn entry(self, k: Seq<u8>) -> (V, u64) {
        if has_key(self.hot, k) {
            value_at(self.hot, k)
        } else {
            value_at(self.warm, k)
        }
    }

    /// The value of a key.
    pub open spec fn lookup(self, k: Seq<u8>) -> Option<V> {
        if self.has(k) {
            Some(self.entry(k).0)
        } else {
            None
        }
    }

    /// The state without a key.
    pub open spec fn removed(self, k: Seq<u8>) -> TierState<V> {
        TierState { hot: without(self.hot, k), warm: without(self.warm, k), ..self }
    }

    /// The state after a key was given a value and used at `now`: it is the most
    /// recently used hot entry. If the hot tier was full and the key not in it, the
    /// least recently used hot entry is gone.
    pub open spec fn stored(self, k: Seq<u8>, v: V, now: u64) -> TierState<V> {
        TierState {
            hot: lru_put(self.hot, self.hot_cap, k, (v, now)),
            warm: without(self.warm, k),
            ..self
        }
    }

    /// The state after the value of a key that is in a tier was replaced and nothing
    /// else: its time and tier stay, it moves to the front of its tier.
    pub open spec fn revised(self, k: Seq<u8>, v: V) -> TierState<V> {
        if has_key(self.hot, k) {
            TierState {
                hot: lru_put(self.hot, self.hot_cap, k, (v, self.entry(k).1)),
                ..self
            }
        } else {
            TierState {
                warm: lru_put(self.warm, self.warm_cap, k, (v, self.entry(k).1)),
                ..self
            }
        }
    }
}

impl<V> View for TieredCache<V> {
    type V = TierState<V>;

    closed spec fn view(&self) -> TierState<V> {
        TierState {
            hot: lru_entries(self.hot).map_values(resolve(self.values@)),
            warm: lru_entries(self.warm).map_values(resolve(self.values@)),
            hot_cap: lru_cap(self.hot),
            warm_cap: lru_cap(self.warm),
            cold_loaded: self.cold_loaded_count,
            config: self.config,
        }
    }
}

/// Putting a key into a list from which it was taken out is putting it into the list.
pub proof fn lemma_put_after_without<T>(s: Seq<(Seq<u8>, T)>, cap: nat, k: Seq<u8>, v: T)
    requires
        distinct_by(s, key_of::<T>()),
        s.len() <= cap,
    ensures
        lru_put(without(s, k), cap, k, v) == lru_put(s, cap, k, v),
{
    lemma_without(s, k);
}

impl<V> TieredCache<V> {
    /// Each entry has a slot of its own.
    pub closed spec fn slots_ok(self) -> bool {
        let h = lru_entries(self.hot);
        let w = lru_entries(self.warm);
        &&& self.values.wf()
        &&& list_ok(h, lru_cap(self.hot), self.values@)
        &&& list_ok(w, lru_cap(self.warm), self.values@)
        &&& slots_apart(h, w)
    }

    pub open spec fn wf(self) -> bool {
        self@.wf() && self.slots_ok()
    }

    /// An empty cache.
    pub fn new(config: TieredCacheConfig) -> (r: Self)
        requires
            config.hot_max_count <= max_cap(),
            config.warm_max_count <= max_cap(),
        ensures
            r.wf(),
            r@.hot.len() == 0,
            r@.warm.len() == 0,
            r@.hot_cap == cap_of(config.hot_max_count),
            r@.warm_cap == cap_of(config.warm_max_count),
            r@.cold_loaded == 0,
            r@.config == config,
    {
        let hot_cap: usize = if config.hot_max_count == 0 {
            1
        } else {
            config.hot_max_count
        };
        let warm_cap: usize = if config.warm_max_count == 0 {
            1
        } else {
            config.warm_max_count
        };
        TieredCache {
            hot: lru_new(hot_cap),
            warm: lru_new(warm_cap),
            values: Slab::new(),
            cold_loaded_count: 0,
            config,
        }
    }

    /// Takes a key out of whichever tier it is in. Says what was there and whether it was
    /// hot.
    fn detach(&mut self, key: &[u8]) -> (r: Option<(V, u64, bool)>)
        requires
            old(self).wf(),
        ensures
            final(self).wf(),
            final(self)@ == old(self)@.removed(key@),
            !final(self)@.has(key@),
            r is Some <==> old(self)@.has(key@),
            r matches Some(e) ==> (e.0, e.1) == old(self)@.entry(key@) && e.2 == has_key(
                old(self)@.hot,
                key@,
            ),
    {
        let ghost s = self@;
        let ghost k = key@;
        let ghost h = lru_entries(self.hot);
        let ghost w = lru_entries(self.warm);
        let ghost m = self.values@;
        proof {
            lemma_resolve_keys(h, m);
            lemma_resolve_keys(w, m);
            assert(has_key(s.hot, k) == has_key(h, k));
            assert(has_key(s.warm, k) == has_key(w, k));
            lemma_without(s.hot, k);
            lemma_without(s.warm, k);
            lemma_without(h, k);
            lemma_without(w, k);
            lemma_resolve_without(h, m, k);
            lemma_resolve_without(w, m, k);
            lemma_distinct_filter(h, slot_of(), other_key::<(usize, u64)>(k));
            lemma_distinct_filter(w, slot_of(), other_key::<(usize, u64)>(k));
            if has_key(h, k) {
                lemma_resolve_value(h, m, k);
            }
            if has_key(w, k) {
                lemma_resolve_value(w, m, k);
            }
        }
        let found: Option<(usize, u64)> = lru_pop(&mut self.hot, key);
        match found {
            Some((slot, t)) => {
                let v = self.values.take(slot);
                proof {
                    lemma_detached(h, w, m, k, slot);
                }
                Some((v, t, true))
            },
            None => match lru_pop(&mut self.warm, key) {
                Some((slot, t)) => {
                    let v = self.values.take(slot);
                    proof {
                        lemma_detached(w, h, m, k, slot);
                    }
                    Some((v, t, false))
                },
                None => None,
            },
        }
    }
}

/// Taking a key and its slot out of one list leaves both lists in order, and the values
/// of what stays as they were.
proof fn lemma_detached<V>(
    a: Seq<(Seq<u8>, (usize, u64))>,
    b: Seq<(Seq<u8>, (usize, u64))>,
    m: Map<usize, V>,
    k: Seq<u8>,
    slot: usize,
)
    requires
        distinct_by(a, key_of::<(usize, u64)>()),
        distinct_by(a, slot_of()),
        slots_apart(a, b) || slots_apart(b, a),
        has_key(a, k),
        slot == value_at(a, k).0,
        forall|i: int| 0 <= i < a.len() ==> m.dom().contains((#[trigger] a[i]).1.0),
        forall|i: int| 0 <= i < b.len() ==> m.dom().contains((#[trigger] b[i]).1.0),
    ensures
        without(a, k).map_values(resolve(m.remove(slot))) == without(a, k).map_values(resolve(m)),
        b.map_values(resolve(m.remove(slot))) == b.map_values(resolve(m)),
        distinct_by(without(a, k), slot_of()),
        distinct_by(without(a, k), key_of::<(usize, u64)>()),
        forall|i: int|
            0 <= i < without(a, k).len() ==> m.remove(slot).dom().contains(
                (#[trigger] without(a, k)[i]).1.0,
            ),
        forall|i: int|
            0 <= i < b.len() ==> m.remove(slot).dom().contains((#[trigger] b[i]).1.0),
        slots_apart(without(a, k), b),
        slots_apart(b, without(a, k)),
{
    let r = without(a, k);
    let m2 = m.remove(slot);
    lemma_rest_members(a, a.len(), k);
    lemma_distinct_filter(a, slot_of(), other_key::<(usize, u64)>(k));
    lemma_without(a, k);
    assert(lru_rest(a, a.len(), k) == r);
    let p = choose|p: int| 0 <= p < a.len() && (#[trigger] a[p]).0 == k;
    assert(a[p].1.0 == slot);
    assert forall|i: int| 0 <= i < r.len() implies m2.dom().contains((#[trigger] r[i]).1.0)
        && m2[r[i].1.0] == m[r[i].1.0] by {
        assert(a.contains(r[i]));
        let j = choose|j: int| 0 <= j < a.len() && a[j] == r[i];
        assert(m.dom().contains(a[j].1.0));
        assert(uses_slot(r, r[i].1.0));
    }
    assert forall|i: int| 0 <= i < b.len() implies m2.dom().contains((#[trigger] b[i]).1.0)
        && m2[b[i].1.0] == m[b[i].1.0] by {
        assert(m.dom().contains(b[i].1.0));
        assert(a[p].1.0 != b[i].1.0);
    }
    lemma_resolve_change(r, m, m2);
    lemma_resolve_change(b, m, m2);
    assert forall|i: int, j: int| 0 <= i < r.len() && 0 <= j < b.len() implies (
    #[trigger] r[i]).1.0 != (#[trigger] b[j]).1.0 by {
        assert(a.contains(r[i]));
        let l = choose|l: int| 0 <= l < a.len() && a[l] == r[i];
        assert(a[l].1.0 != b[j].1.0);
    }
}

/// Giving a new value a slot of its own changes nothing for the lists.
proof fn lemma_new_slot<V>(
    a: Seq<(Seq<u8>, (usize, u64))>,
    cap: nat,
    m: Map<usize, V>,
    slot: usize,
    v: V,
)
    requires
        list_ok(a, cap, m),
        !m.dom().contains(slot),
    ensures
        list_ok(a, cap, m.insert(slot, v)),
        !uses_slot(a, slot),
        a.map_values(resolve(m.insert(slot, v))) == a.map_values(resolve(m)),
{
    let m2 = m.insert(slot, v);
    assert forall|i: int| 0 <= i < a.len() implies m2.dom().contains((#[trigger] a[i]).1.0)
        && a[i].1.0 != slot && m2[a[i].1.0] == m[a[i].1.0] by {
        assert(m.dom().contains(a[i].1.0));
    }
    lemma_resolve_change(a, m, m2);
}

/// Putting an entry into one list leaves the other as it was.
proof fn lemma_pushed<V>(
    a: Seq<(Seq<u8>, (usize, u64))>,
    b: Seq<(Seq<u8>, (usize, u64))>,
    cap: nat,
    b_cap: nat,
    m: Map<usize, V>,
    k: Seq<u8>,
    slot: usize,
    t: u64,
)
    requires
        list_ok(a, cap, m),
        list_ok(b, b_cap, m),
        slots_apart(a, b) || slots_apart(b, a),
        !uses_slot(b, slot),
    ensures
        ({
            let m2 = match lru_displaced(a, cap, k) {
                Some(e) => m.remove(e.1.0),
                None => m,
            };
            let a2 = lru_put(a, cap, k, (slot, t));
            &&& list_ok(b, b_cap, m2)
            &&& b.map_values(resolve(m2)) == b.map_values(resolve(m))
            &&& slots_apart(a2, b)
            &&& slots_apart(b, a2)
        }),
{
    lemma_rest_members(a, cap, k);
    let m2 = match lru_displaced(a, cap, k) {
        Some(e) => m.remove(e.1.0),
        None => m,
    };
    let a2 = lru_put(a, cap, k, (slot, t));
    let rest = lru_rest(a, cap, k);
    assert forall|i: int| 0 <= i < b.len() implies m2.dom().contains((#[trigger] b[i]).1.0)
        && m2[b[i].1.0] == m[b[i].1.0] by {
        assert(m.dom().contains(b[i].1.0));
        if let Some(e) = lru_displaced(a, cap, k) {
            let j = choose|j: int| 0 <= j < a.len() && (#[trigger] a[j]).1.0 == e.1.0;
            assert(a[j].1.0 != b[i].1.0);
        }
    }
    lemma_resolve_change(b, m, m2);
    assert forall|i: int, j: int| 0 <= i < a2.len() && 0 <= j < b.len() implies (
    #[trigger] a2[i]).1.0 != (#[trigger] b[j]).1.0 by {
        if i > 0 {
            assert(a2[i] == rest[i - 1]);
            assert(a.contains(rest[i - 1]));
            let l = choose|l: int| 0 <= l < a.len() && a[l] == rest[i - 1];
            assert(a[l].1.0 != b[j].1.0);
        } else {
            assert(a2[0].1.0 == slot);
            assert(b[j].1.0 != slot);
        }
    }
}

/// The keys of a list that was given a key.
pub proof fn lemma_put_keys<T>(s: Seq<(Seq<u8>, T)>, cap: nat, k: Seq<u8>, v: T, x: Seq<u8>)
    requires
        x != k,
        0 < cap,
        has_key(lru_put(s, cap, k, v), x),
    ensures
        has_key(s, x),
{
    let r = lru_put(s, cap, k, v);
    let i = choose|i: int| 0 <= i < r.len() && (#[trigger] r[i]).0 == x;
    let rest = lru_rest(s, cap, k);
    assert(r[i] == rest[i - 1]);
    if has_key(s, k) {
        lemma_filter_members(s, other_key::<T>(k), i - 1);
        let j = choose|j: int| 0 <= j < s.len() && s[j] == rest[i - 1];
        assert(s[j].0 == x);
    } else {
        assert(rest[i - 1] == s[i - 1]);
    }
}

/// What is left of a sequence was in it.
pub proof fn lemma_filter_members<A>(s: Seq<A>, p: spec_fn(A) -> bool, i: int)
    requires
        0 <= i < s.filter(p).len(),
    ensures
        s.contains(s.filter(p)[i]),
    decreases s.len(),
{
    reveal(Seq::filter);
    let t = s.drop_last();
    if i < t.filter(p).len() {
        lemma_filter_members(t, p, i);
        let j = choose|j: int| 0 <= j < t.len() && t[j] == t.filter(p)[i];
        assert(s[j] == s.filter(p)[i]);
    } else {
        assert(s[s.len() - 1] == s.filter(p)[i]);
    }
}

impl<V> TieredCache<V> {
    /// Puts a key that is in no tier in front of the hot one.
    fn attach_hot(&mut self, key: Vec<u8>, v: V, t: u64)
        requires
            old(self).wf(),
            !old(self)@.has(key@),
        ensures
            final(self).wf(),
            final(self)@ == (TierState {
                hot: lru_put(old(self)@.hot, old(self)@.hot_cap, key@, (v, t)),
                ..old(self)@
            }),
    {
        let ghost s = self@;
        let ghost k = key@;
        let ghost h = lru_entries(self.hot);
        let ghost w = lru_entries(self.warm);
        let ghost m = self.values@;
        let slot: usize = self.values.add_value(v);
        proof {
            lemma_resolve_keys(h, m);
            assert(has_key(s.hot, k) == has_key(h, k));
            lemma_new_slot(h, lru_cap(self.hot), m, slot, v);
            lemma_new_slot(w, lru_cap(self.warm), m, slot, v);
            lemma_pushed(
                h,
                w,
                lru_cap(self.hot),
                lru_cap(self.warm),
                self.values@,
                k,
                slot,
                t,
            );
            lemma_lru_put(s.hot, s.hot_cap, k, (v, t));
        }
        push_into(&mut self.hot, &mut self.values, key, slot, t);
        proof {
            assert forall|x: Seq<u8>| !(#[trigger] has_key(self@.hot, x) && has_key(
                self@.warm,
                x,
            )) by {
                if has_key(self@.hot, x) && has_key(self@.warm, x) {
                    assert(has_key(s.warm, x));
                    if x != k {
                        lemma_put_keys(s.hot, s.hot_cap, k, (v, t), x);
                        assert(has_key(s.hot, x));
                    }
                }
            }
        }
    }

    /// Puts a key that is in no tier in front of the warm one.
    fn attach_warm(&mut self, key: Vec<u8>, v: V, t: u64)
        requires
            old(self).wf(),
            !old(self)@.has(key@),
        ensures
            final(self).wf(),
            final(self)@ == (TierState {
                warm: lru_put(old(self)@.warm, old(self)@.warm_cap, key@, (v, t)),
                ..old(self)@
            }),
    {
        let ghost s = self@;
        let ghost k = key@;
        let ghost h = lru_entries(self.hot);
        let ghost w = lru_entries(self.warm);
        let ghost m = self.values@;
        let slot: usize = self.values.add_value(v);
        proof {
            lemma_resolve_keys(w, m);
            assert(has_key(s.warm, k) == has_key(w, k));
            lemma_new_slot(h, lru_cap(self.hot), m, slot, v);
            lemma_new_slot(w, lru_cap(self.warm), m, slot, v);
            lemma_pushed(
                w,
                h,
                lru_cap(self.warm),
                lru_cap(self.hot),
                self.values@,
                k,
                slot,
                t,
            );
            lemma_lru_put(s.warm, s.warm_cap, k, (v, t));
        }
        push_into(&mut self.warm, &mut self.values, key, slot, t);
        proof {
            assert forall|x: Seq<u8>| !(#[trigger] has_key(self@.hot, x) && has_key(
                self@.warm,
                x,
            )) by {
                if has_key(self@.hot, x) && has_key(self@.warm, x) {
                    assert(has_key(s.hot, x));
                    if x != k {
                        lemma_put_keys(s.warm, s.warm_cap, k, (v, t), x);
                        assert(has_key(s.warm, x));
                    }
                }
            }
        }
    }

    /// The value of a key; nothing is noted of the use.
    pub fn peek(&self, key: &[u8]) -> (r: Option<&V>)
        requires
            self.wf(),
        ensures
            r is Some <==> self@.has(key@),
            r matches Some(v) ==> self@.lookup(key@) == Some(*v),
    {
        proof {
            lemma_resolve_keys(lru_entries(self.hot), self.values@);
            lemma_resolve_keys(lru_entries(self.warm), self.values@);
            assert(has_key(self@.hot, key@) == has_key(lru_entries(self.hot), key@));
            assert(has_key(self@.warm, key@) == has_key(lru_entries(self.warm), key@));
        }
        match lru_peek(&self.hot, key) {
            Some((slot, _)) => {
                proof {
                    lemma_resolve_value(lru_entries(self.hot), self.values@, key@);
                }
                Some(self.values.get(slot))
            },
            None => match lru_peek(&self.warm, key) {
                Some((slot, _)) => {
                    proof {
                        lemma_resolve_value(lru_entries(self.warm), self.values@, key@);
                    }
                    Some(self.values.get(slot))
                },
                None => None,
            },
        }
    }

    /// Notes a use of a key at `now`: if it is in a tier it becomes the most recently
    /// used hot entry. Says whether it is there.
    pub fn touch(&mut self, key: &[u8], now: u64) -> (r: bool)
        requires
            old(self).wf(),
        ensures
            final(self).wf(),
            r == old(self)@.has(key@),
            final(self)@ == (match old(self)@.lookup(key@) {
                Some(v) => old(self)@.stored(key@, v, now),
                None => old(self)@,
            }),
    {
        proof {
            lemma_put_after_without(
                self@.hot,
                self@.hot_cap,
                key@,
                (self@.entry(key@).0, now),
            );
            lemma_without(self@.hot, key@);
            lemma_without(self@.warm, key@);
        }
        match self.detach(key) {
            Some((v, _, _)) => {
                self.attach_hot(copy_bytes(key), v, now);
                true
            },
            None => false,
        }
    }

    /// Reads a key: its value, after noting the use.
    pub fn get(&mut self, key: &[u8], now: u64) -> (r: Option<&V>)
        requires
            old(self).wf(),
        ensures
            final(self).wf(),
            r is Some <==> old(self)@.has(key@),
            r matches Some(v) ==> old(self)@.lookup(key@) == Some(*v),
            final(self)@ == (match old(self)@.lookup(key@) {
                Some(v) => old(self)@.stored(key@, v, now),
                None => old(self)@,
            }),
    {
        let ghost s = self@;
        if self.touch(key, now) {
            proof {
                lemma_lru_put(s.hot, s.hot_cap, key@, (s.entry(key@).0, now));
            }
            self.peek(key)
        } else {
            None
        }
    }

    /// Writes a key: it becomes the most recently used hot entry.
    pub fn put(&mut self, key: Vec<u8>, value: V, now: u64)
        requires
            old(self).wf(),
        ensures
            final(self).wf(),
            final(self)@ == old(self)@.stored(key@, value, now),
    {
        proof {
            lemma_put_after_without(self@.hot, self@.hot_cap, key@, (value, now));
        }
        let _ = self.detach(key.as_slice());
        self.attach_hot(key, value, now);
    }

    /// Writes a key that is in no tier. Says whether it wrote.
    pub fn put_if_absent(&mut self, key: Vec<u8>, value: V, now: u64) -> (r: bool)
        requires
            old(self).wf(),
        ensures
            final(self).wf(),
            r == !old(self)@.has(key@),
            final(self)@ == (if r {
                old(self)@.stored(key@, value, now)
            } else {
                old(self)@
            }),
    {
        if self.contains(key.as_slice()) {
            return false;
        }
        proof {
            lemma_without(self@.warm, key@);
        }
        self.attach_hot(key, value, now);
        true
    }

    /// Reads a key, and loads it with `load_fn` if it is in no tier. What was loaded
    /// becomes the most recently used hot entry and is counted; `load_fn` is not called
    /// if the key is there, and nothing changes if it finds nothing.
    pub fn get_or_load<F: FnOnce(&[u8]) -> Option<V>>(
        &mut self,
        key: &[u8],
        load_fn: F,
        now: u64,
    ) -> (r: Option<&V>)
        requires
            old(self).wf(),
            call_requires(load_fn, (key,)),
        ensures
            final(self).wf(),
            old(self)@.lookup(key@) matches Some(v) ==> {
                &&& r is Some && *r->0 == v
                &&& final(self)@ == old(self)@.stored(key@, v, now)
            },
            old(self)@.lookup(key@) is None ==> exists|loaded: Option<V>| #[trigger]
                call_ensures(load_fn, (key,), loaded) && match loaded {
                    Some(v) => {
                        &&& r is Some && *r->0 == v
                        &&& final(self)@ == (TierState {
                            cold_loaded: old(self)@.cold_loaded.wrapping_add(1),
                            ..old(self)@.stored(key@, v, now)
                        })
                    },
                    None => r is None && final(self)@ == old(self)@,
                },
    {
        let ghost s = self@;
        if self.touch(key, now) {
            proof {
                lemma_lru_put(s.hot, s.hot_cap, key@, (s.entry(key@).0, now));
            }
            return self.peek(key);
        }
        match load_fn(key) {
            Some(v) => {
                self.cold_loaded_count = self.cold_loaded_count.wrapping_add(1);
                let ghost gv = v;
                proof {
                    lemma_without(s.warm, key@);
                    lemma_lru_put(s.hot, s.hot_cap, key@, (gv, now));
                }
                self.attach_hot(copy_bytes(key), v, now);
                self.peek(key)
            },
            None => None,
        }
    }

    /// Changes the value of a key in place and notes the use. Says whether it is there.
    pub fn update<F: FnOnce(V) -> V>(&mut self, key: &[u8], f: F, now: u64) -> (r: bool)
        requires
            old(self).wf(),
            old(self)@.lookup(key@) matches Some(v) ==> call_requires(f, (v,)),
        ensures
            final(self).wf(),
            r == old(self)@.has(key@),
            !r ==> final(self)@ == old(self)@,
            old(self)@.lookup(key@) matches Some(v) ==> exists|w: V| #[trigger]
                call_ensures(f, (v,), w) && final(self)@ == old(self)@.stored(key@, w, now),
    {
        let ghost s = self@;
        proof {
            lemma_without(s.hot, key@);
            lemma_without(s.warm, key@);
        }
        match self.detach(key) {
            Some((v, _, _)) => {
                let w = f(v);
                proof {
                    lemma_put_after_without(s.hot, s.hot_cap, key@, (w, now));
                }
                self.attach_hot(copy_bytes(key), w, now);
                true
            },
            None => false,
        }
    }

    /// Changes the value of a key in place; its time of last use and its tier stay. Says
    /// whether it is there.
    pub fn update_without_touch<F: FnOnce(V) -> V>(&mut self, key: &[u8], f: F) -> (r: bool)
        requires
            old(self).wf(),
            old(self)@.lookup(key@) matches Some(v) ==> call_requires(f, (v,)),
        ensures
            final(self).wf(),
            r == old(self)@.has(key@),
            !r ==> final(self)@ == old(self)@,
            old(self)@.lookup(key@) matches Some(v) ==> exists|w: V| #[trigger]
                call_ensures(f, (v,), w) && final(self)@ == old(self)@.revised(key@, w),
    {
        let ghost s = self@;
        proof {
            lemma_without(s.hot, key@);
            lemma_without(s.warm, key@);
        }
        match self.detach(key) {
            Some((v, t, was_hot)) => {
                let w = f(v);
                if was_hot {
                    proof {
                        lemma_put_after_without(s.hot, s.hot_cap, key@, (w, t));
                        assert(!has_key(s.warm, key@));
                    }
                    self.attach_hot(copy_bytes(key), w, t);
                } else {
                    proof {
                        lemma_put_after_without(s.warm, s.warm_cap, key@, (w, t));
                    }
                    self.attach_warm(copy_bytes(key), w, t);
                }
                true
            },
            None => false,
        }
    }

    /// Takes a key out. Gives its value.
    pub fn remove(&mut self, key: &[u8]) -> (r: Option<V>)
        requires
            old(self).wf(),
        ensures
            final(self).wf(),
            r == old(self)@.lookup(key@),
            final(self)@ == old(self)@.removed(key@),
            !final(self)@.has(key@),
    {
        match self.detach(key) {
            Some((v, _, _)) => Some(v),
            None => None,
        }
    }

    /// Whether a key is in either tier.
    pub fn contains(&self, key: &[u8]) -> (r: bool)
        requires
            self.wf(),
        ensures
            r == self@.has(key@),
    {
        self.peek(key).is_some()
    }

    proof fn lemma_counts_fit(self)
        requires
            self.wf(),
        ensures
            self@.hot.len() + self@.warm.len() <= usize::MAX,
    {
        let h = lru_entries(self.hot);
        let w = lru_entries(self.warm);
        let used = h.map_values(slot_of()) + w.map_values(slot_of());
        assert forall|i: int| 0 <= i < used.len() implies self.values@.dom().contains(
            #[trigger] used[i],
        ) by {
            if i < h.len() {
                assert(used[i] == h[i].1.0);
            } else {
                assert(used[i] == w[i - h.len()].1.0);
            }
        }
        assert forall|i: int, j: int|
            0 <= i < used.len() && 0 <= j < used.len() && i != j implies used[i] != used[j] by {
            lemma_slots_differ(h, w, i, j);
        }
        self.values.lemma_slots_fit(used);
    }

    /// Number of hot and warm entries.
    pub fn len(&self) -> (r: usize)
        requires
            self.wf(),
        ensures
            r == self@.hot.len() + self@.warm.len(),
    {
        proof {
            self.lemma_counts_fit();
        }
        lru_len(&self.hot) + lru_len(&self.warm)
    }

    /// Whether both tiers are empty.
    pub fn is_empty(&self) -> (r: bool)
        requires
            self.wf(),
        ensures
            r == (self@.hot.len() == 0 && self@.warm.len() == 0),
    {
        lru_len(&self.hot) == 0 && lru_len(&self.warm) == 0
    }

    /// Hot entries, warm entries, and loads of cold ones so far.
    pub fn stats(&self) -> (r: (usize, usize, u64))
        requires
            self.wf(),
        ensures
            r.0 == self@.hot.len(),
            r.1 == self@.warm.len(),
            r.2 == self@.cold_loaded,
    {
        (lru_len(&self.hot), lru_len(&self.warm), self.cold_loaded_count)
    }

    /// The configuration.
    pub fn config(&self) -> (r: TieredCacheConfig)
        ensures
            r == self@.config,
    {
        self.config
    }

    /// Empties both tiers.
    pub fn clear(&mut self)
        requires
            old(self).wf(),
        ensures
            final(self).wf(),
            final(self)@ == (TierState {
                hot: Seq::<(Seq<u8>, (V, u64))>::empty(),
                warm: Seq::<(Seq<u8>, (V, u64))>::empty(),
                ..old(self)@
            }),
    {
        lru_clear(&mut self.hot);
        lru_clear(&mut self.warm);
        self.values = Slab::new();
        assert(self@.hot =~= Seq::<(Seq<u8>, (V, u64))>::empty());
        assert(self@.warm =~= Seq::<(Seq<u8>, (V, u64))>::empty());
    }
}

/// In a list of different keys the entry under a key is the one that stands there.
pub proof fn lemma_value_at<T>(s: Seq<(Seq<u8>, T)>, i: int)
    requires
        distinct_by(s, key_of::<T>()),
        0 <= i < s.len(),
    ensures
        has_key(s, s[i].0),
        value_at(s, s[i].0) == s[i].1,
{
    let k = s[i].0;
    let j = choose|j: int| 0 <= j < s.len() && (#[trigger] s[j]).0 == k;
    let g = key_of::<T>();
    if i < j {
        assert(g(s[i]) != g(s[j]));
    } else if j < i {
        assert(g(s[j]) != g(s[i]));
    }
}

/// Taking out the key that stands at a position takes out what stands there.
pub proof fn lemma_without_at<T>(s: Seq<(Seq<u8>, T)>, i: int)
    requires
        distinct_by(s, key_of::<T>()),
        0 <= i < s.len(),
    ensures
        without(s, s[i].0) == s.take(i) + s.skip(i + 1),
{
    let k = s[i].0;
    let p = other_key::<T>(k);
    let g = key_of::<T>();
    let a = s.take(i);
    let b = s.skip(i + 1);
    let e = seq![s[i]];
    assert forall|j: int| 0 <= j < a.len() implies p(#[trigger] a[j]) by {
        assert(a[j] == s[j]);
        assert(g(s[j]) != g(s[i]));
    }
    assert forall|j: int| 0 <= j < b.len() implies p(#[trigger] b[j]) by {
        assert(b[j] == s[i + 1 + j]);
        assert(g(s[i]) != g(s[i + 1 + j]));
    }
    crate::storage::recency::lemma_filter_all(a, p);
    crate::storage::recency::lemma_filter_all(b, p);
    assert(s =~= a + (e + b));
    Seq::filter_distributes_over_add(a, e + b, p);
    Seq::filter_distributes_over_add(e, b, p);
    assert(e.filter(p) =~= Seq::<(Seq<u8>, T)>::empty()) by {
        reveal_with_fuel(Seq::filter, 2);
        assert(e.drop_last() =~= Seq::<(Seq<u8>, T)>::empty());
    }
    assert(without(s, k) =~= a + b);
}

/// Where the entries before a position were thinned out, the one at the position stands
/// right behind what is left of them.
pub proof fn lemma_split_at<T>(s: Seq<T>, p: spec_fn(T) -> bool, i: int)
    requires
        0 <= i < s.len(),
    ensures
        ({
            let a = s.take(i).filter(p);
            let t = a + s.skip(i);
            &&& t[a.len() as int] == s[i]
            &&& t.take(a.len() as int) == a
            &&& t.skip(a.len() as int + 1) == s.skip(i + 1)
            &&& a.len() < t.len()
        }),
{
    let a = s.take(i).filter(p);
    let t = a + s.skip(i);
    assert(t.take(a.len() as int) =~= a);
    assert(t.skip(a.len() as int + 1) =~= s.skip(i + 1));
}

/// The test for entries that are older than `secs` seconds.
pub open spec fn stale<V>(now: u64, secs: u64) -> spec_fn((Seq<u8>, (V, u64))) -> bool {
    |e: (Seq<u8>, (V, u64))| older_than(e.1.1, now, secs)
}

/// The test for entries that are not older than `secs` seconds.
pub open spec fn recent_use<V>(now: u64, secs: u64) -> spec_fn((Seq<u8>, (V, u64))) -> bool {
    |e: (Seq<u8>, (V, u64))| !older_than(e.1.1, now, secs)
}

/// A list after entries were put into it one after the other.
pub open spec fn put_all<T>(s: Seq<(Seq<u8>, T)>, cap: nat, es: Seq<(Seq<u8>, T)>) -> Seq<
    (Seq<u8>, T),
>
    decreases es.len(),
{
    if es.len() == 0 {
        s
    } else {
        lru_put(put_all(s, cap, es.drop_last()), cap, es.last().0, es.last().1)
    }
}

/// The keys of the last `n` entries, the last one first.
pub open spec fn last_keys<T>(s: Seq<(Seq<u8>, T)>, n: int) -> Seq<Seq<u8>> {
    Seq::new(n as nat, |i: int| s[s.len() - 1 - i].0)
}

/// The smaller of two numbers.
pub open spec fn smaller(a: int, b: int) -> int {
    if a <= b {
        a
    } else {
        b
    }
}

impl<V> TierState<V> {
    /// The state after stale hot entries went warm.
    pub open spec fn demoted(self, now: u64) -> TierState<V> {
        TierState {
            hot: self.hot.filter(recent_use(now, self.config.hot_threshold_secs)),
            warm: put_all(
                self.warm,
                self.warm_cap,
                self.hot.filter(stale(now, self.config.hot_threshold_secs)),
            ),
            ..self
        }
    }

    /// The state after stale hot entries went warm and stale warm ones were dropped.
    pub open spec fn aged(self, now: u64) -> TierState<V> {
        let d = self.demoted(now);
        TierState { warm: d.warm.filter(recent_use(now, self.config.warm_threshold_secs)), ..d }
    }

    /// The entries that ageing drops for their age.
    pub open spec fn aged_out(self, now: u64) -> Seq<(Seq<u8>, (V, u64))> {
        self.demoted(now).warm.filter(stale(now, self.config.warm_threshold_secs))
    }

    /// The state with at most so many entries in each tier, the most recently used ones.
    pub open spec fn cut(self, hot_max: int, warm_max: int) -> TierState<V> {
        TierState {
            hot: self.hot.take(smaller(self.hot.len() as int, hot_max)),
            warm: self.warm.take(smaller(self.warm.len() as int, warm_max)),
            ..self
        }
    }
}

impl<V> TierState<V> {
    /// The state after `count` entries, or all, were dropped.
    pub open spec fn emptied(self, count: int) -> TierState<V> {
        let n = smaller(self.warm.len() as int, count);
        let m = smaller(self.hot.len() as int, count - n);
        TierState {
            warm: self.warm.take(self.warm.len() - n),
            hot: self.hot.take(self.hot.len() - m),
            ..self
        }
    }

    /// The keys of the entries that are then dropped, in the order in which they go.
    pub open spec fn emptied_keys(self, count: int) -> Seq<Seq<u8>> {
        let n = smaller(self.warm.len() as int, count);
        let m = smaller(self.hot.len() as int, count - n);
        last_keys(self.warm, n) + last_keys(self.hot, m)
    }
}

impl<V> TieredCache<V> {
    /// The values of all entries, hot ones first, in each tier the most recently used
    /// first.
    pub fn values(&self) -> (r: Vec<&V>)
        requires
            self.wf(),
        ensures
            r@.len() == self@.hot.len() + self@.warm.len(),
            forall|i: int| 0 <= i < self@.hot.len() ==> *(#[trigger] r@[i]) == self@.hot[i].1.0,
            forall|i: int|
                self@.hot.len() <= i < r@.len() ==> *(#[trigger] r@[i]) == self@.warm[i
                    - self@.hot.len()].1.0,
    {
        let items = self.iter();
        let mut out: Vec<&V> = Vec::new();
        let mut i: usize = 0;
        while i < items.len()
            invariant
                0 <= i <= items@.len(),
                out@.len() == i,
                forall|k: int| 0 <= k < i ==> *(#[trigger] out@[k]) == *items@[k].1,
            decreases items@.len() - i,
        {
            out.push(items[i].1);
            i = i + 1;
        }
        out
    }

    /// The values of the hot entries, the most recently used first.
    pub fn hot_values(&self) -> (r: Vec<&V>)
        requires
            self.wf(),
        ensures
            r@.len() == self@.hot.len(),
            forall|i: int| 0 <= i < r@.len() ==> *(#[trigger] r@[i]) == self@.hot[i].1.0,
    {
        let list = lru_list(&self.hot);
        let ghost raw = lru_entries(self.hot);
        let mut out: Vec<&V> = Vec::new();
        let mut i: usize = 0;
        while i < list.len()
            invariant
                self.wf(),
                0 <= i <= list@.len(),
                raw == lru_entries(self.hot),
                list@.map_values(|e: (Vec<u8>, (usize, u64))| (e.0@, e.1)) == raw,
                out@.len() == i,
                forall|k: int| 0 <= k < i ==> *(#[trigger] out@[k]) == self@.hot[k].1.0,
            decreases list@.len() - i,
        {
            assert(raw[i as int] == (list@[i as int].0@, list@[i as int].1));
            out.push(self.values.get(list[i].1.0));
            i = i + 1;
        }
        out
    }

    /// Key and value of all entries, hot ones first, in each tier the most recently used
    /// first.
    pub fn iter(&self) -> (r: Vec<(Vec<u8>, &V)>)
        requires
            self.wf(),
        ensures
            r@.len() == self@.hot.len() + self@.warm.len(),
            forall|i: int|
                0 <= i < self@.hot.len() ==> (#[trigger] r@[i]).0@ == self@.hot[i].0 && *r@[i].1
                    == self@.hot[i].1.0,
            forall|i: int|
                self@.hot.len() <= i < r@.len() ==> (#[trigger] r@[i]).0@ == self@.warm[i
                    - self@.hot.len()].0 && *r@[i].1 == self@.warm[i - self@.hot.len()].1.0,
    {
        let list = lru_list(&self.hot);
        let ghost raw = lru_entries(self.hot);
        let ghost n = self@.hot.len();
        let mut out: Vec<(Vec<u8>, &V)> = Vec::new();
        let mut i: usize = 0;
        while i < list.len()
            invariant
                self.wf(),
                0 <= i <= list@.len(),
                raw == lru_entries(self.hot),
                list@.map_values(|e: (Vec<u8>, (usize, u64))| (e.0@, e.1)) == raw,
                out@.len() == i,
                forall|k: int|
                    0 <= k < i ==> (#[trigger] out@[k]).0@ == self@.hot[k].0 && *out@[k].1
                        == self@.hot[k].1.0,
            decreases list@.len() - i,
        {
            assert(raw[i as int] == (list@[i as int].0@, list@[i as int].1));
            out.push((copy_bytes(list[i].0.as_slice()), self.values.get(list[i].1.0)));
            i = i + 1;
        }
        let list2 = lru_list(&self.warm);
        let ghost raw2 = lru_entries(self.warm);
        let mut j: usize = 0;
        while j < list2.len()
            invariant
                self.wf(),
                0 <= j <= list2@.len(),
                n == self@.hot.len(),
                raw2 == lru_entries(self.warm),
                list2@.map_values(|e: (Vec<u8>, (usize, u64))| (e.0@, e.1)) == raw2,
                out@.len() == n + j,
                forall|k: int|
                    0 <= k < n ==> (#[trigger] out@[k]).0@ == self@.hot[k].0 && *out@[k].1
                        == self@.hot[k].1.0,
                forall|k: int|
                    n <= k < n + j ==> (#[trigger] out@[k]).0@ == self@.warm[k - n].0 && *out@[k].1
                        == self@.warm[k - n].1.0,
            decreases list2@.len() - j,
        {
            assert(raw2[j as int] == (list2@[j as int].0@, list2@[j as int].1));
            out.push((copy_bytes(list2[j].0.as_slice()), self.values.get(list2[j].1.0)));
            j = j + 1;
        }
        out
    }

    /// Lets entries age: stale hot ones go warm, stale warm ones are dropped. Gives the
    /// number of the former and the keys of the latter.
    pub fn tier_check_with_evicted(&mut self, now: u64) -> (r: (usize, Vec<Vec<u8>>))
        requires
            old(self).wf(),
        ensures
            final(self).wf(),
            final(self)@ == old(self)@.aged(now),
            r.0 == old(self)@.hot.filter(stale(now, old(self)@.config.hot_threshold_secs)).len(),
            r.1@.map_values(|k: Vec<u8>| k@) == old(self)@.aged_out(now).map_values(
                key_of::<(V, u64)>(),
            ),
    {
        let demoted: usize = self.demote_stale(now);
        let keys = self.drop_stale(now);
        (demoted, keys)
    }

    fn demote(&mut self, key: &[u8])
        requires
            old(self).wf(),
            has_key(old(self)@.hot, key@),
        ensures
            final(self).wf(),
            final(self)@ == (TierState {
                hot: without(old(self)@.hot, key@),
                warm: lru_put(
                    old(self)@.warm,
                    old(self)@.warm_cap,
                    key@,
                    value_at(old(self)@.hot, key@),
                ),
                ..old(self)@
            }),
    {
        proof {
            assert(!has_key(self@.warm, key@));
            lemma_without(self@.warm, key@);
        }
        match self.detach(key) {
            Some((v, t, _)) => {
                self.attach_warm(copy_bytes(key), v, t);
            },
            None => {},
        }
    }

    fn demote_stale(&mut self, now: u64) -> (r: usize)
        requires
            old(self).wf(),
        ensures
            final(self).wf(),
            final(self)@ == old(self)@.demoted(now),
            r == old(self)@.hot.filter(stale(now, old(self)@.config.hot_threshold_secs)).len(),
    {
        let ghost s = self@;
        let secs: u64 = self.config.hot_threshold_secs;
        let ghost gone = stale::<V>(now, secs);
        let ghost stay = recent_use::<V>(now, secs);
        let list = lru_list(&self.hot);
        let ghost raw = lru_entries(self.hot);
        let mut demoted: usize = 0;
        let mut i: usize = 0;
        proof {
            reveal_with_fuel(Seq::filter, 1);
            assert(s.hot.take(0).filter(stay) + s.hot.skip(0) =~= s.hot);
        }
        while i < list.len()
            invariant
                self.wf(),
                secs == s.config.hot_threshold_secs,
                gone == stale::<V>(now, secs),
                stay == recent_use::<V>(now, secs),
                s.wf(),
                0 <= i <= list@.len(),
                list@.len() == s.hot.len(),
                forall|k: int|
                    0 <= k < list@.len() ==> (#[trigger] list@[k]).0@ == s.hot[k].0
                        && list@[k].1.1 == s.hot[k].1.1,
                self@.hot == s.hot.take(i as int).filter(stay) + s.hot.skip(i as int),
                self@.warm == put_all(s.warm, s.warm_cap, s.hot.take(i as int).filter(gone)),
                self@.hot_cap == s.hot_cap,
                self@.warm_cap == s.warm_cap,
                self@.cold_loaded == s.cold_loaded,
                self@.config == s.config,
                demoted == s.hot.take(i as int).filter(gone).len(),
                demoted <= i,
            decreases list@.len() - i,
        {
            let ghost e = s.hot[i as int];
            let ghost a = s.hot.take(i as int).filter(stay);
            proof {
                lemma_split_at(s.hot, stay, i as int);
                crate::ranking::lemma_filter_step(s.hot, stay, i as int);
                crate::ranking::lemma_filter_step(s.hot, gone, i as int);
                assert(list@[i as int].0@ == e.0);
            }
            if is_older(list[i].1.1, now, secs) {
                proof {
                    lemma_value_at(self@.hot, a.len() as int);
                    lemma_without_at(self@.hot, a.len() as int);
                }
                self.demote(list[i].0.as_slice());
                proof {
                    let f = s.hot.take(i + 1).filter(gone);
                    assert(f.drop_last() =~= s.hot.take(i as int).filter(gone));
                }
                demoted = demoted + 1;
            } else {
                proof {
                    assert(a.push(e) + s.hot.skip(i + 1) =~= a + s.hot.skip(i as int));
                }
            }
            i = i + 1;
        }
        proof {
            assert(s.hot.take(i as int) =~= s.hot);
            assert(self@.hot =~= s.hot.filter(stay));
        }
        demoted
    }

    fn drop_stale(&mut self, now: u64) -> (r: Vec<Vec<u8>>)
        requires
            old(self).wf(),
        ensures
            final(self).wf(),
            final(self)@ == (TierState {
                warm: old(self)@.warm.filter(
                    recent_use(now, old(self)@.config.warm_threshold_secs),
                ),
                ..old(self)@
            }),
            r@.map_values(|k: Vec<u8>| k@) == old(self)@.warm.filter(
                stale(now, old(self)@.config.warm_threshold_secs),
            ).map_values(key_of::<(V, u64)>()),
    {
        let ghost s = self@;
        let secs: u64 = self.config.warm_threshold_secs;
        let ghost gone = stale::<V>(now, secs);
        let ghost stay = recent_use::<V>(now, secs);
        let ghost text = |k: Vec<u8>| k@;
        let list = lru_list(&self.warm);
        let ghost raw = lru_entries(self.warm);
        let mut keys: Vec<Vec<u8>> = Vec::new();
        let mut i: usize = 0;
        proof {
            reveal_with_fuel(Seq::filter, 1);
            assert(s.warm.take(0).filter(stay) + s.warm.skip(0) =~= s.warm);
            assert(keys@.map_values(text) =~= s.warm.take(0).filter(gone).map_values(
                key_of::<(V, u64)>(),
            ));
        }
        while i < list.len()
            invariant
                self.wf(),
                secs == s.config.warm_threshold_secs,
                gone == stale::<V>(now, secs),
                stay == recent_use::<V>(now, secs),
                text == (|k: Vec<u8>| k@),
                s.wf(),
                0 <= i <= list@.len(),
                list@.len() == s.warm.len(),
                forall|k: int|
                    0 <= k < list@.len() ==> (#[trigger] list@[k]).0@ == s.warm[k].0
                        && list@[k].1.1 == s.warm[k].1.1,
                self@.warm == s.warm.take(i as int).filter(stay) + s.warm.skip(i as int),
                self@.hot == s.hot,
                self@.hot_cap == s.hot_cap,
                self@.warm_cap == s.warm_cap,
                self@.cold_loaded == s.cold_loaded,
                self@.config == s.config,
                keys@.map_values(text) == s.warm.take(i as int).filter(gone).map_values(
                    key_of::<(V, u64)>(),
                ),
            decreases list@.len() - i,
        {
            let ghost e = s.warm[i as int];
            let ghost a = s.warm.take(i as int).filter(stay);
            let ghost cur = self@;
            proof {
                lemma_split_at(s.warm, stay, i as int);
                crate::ranking::lemma_filter_step(s.warm, stay, i as int);
                crate::ranking::lemma_filter_step(s.warm, gone, i as int);
                assert(list@[i as int].0@ == e.0);
            }
            if is_older(list[i].1.1, now, secs) {
                proof {
                    lemma_value_at(cur.warm, a.len() as int);
                    lemma_without_at(cur.warm, a.len() as int);
                    lemma_without(cur.hot, e.0);
                    assert(!has_key(cur.hot, e.0));
                }
                let _ = self.detach(list[i].0.as_slice());
                let key = copy_bytes(list[i].0.as_slice());
                proof {
                    let f = s.warm.take(i + 1).filter(gone);
                    assert(f == s.warm.take(i as int).filter(gone).push(e));
                    assert(keys@.push(key).map_values(text) =~= f.map_values(
                        key_of::<(V, u64)>(),
                    )) by {
                        let g = s.warm.take(i as int).filter(gone);
                        assert(f.map_values(key_of::<(V, u64)>()) =~= g.map_values(
                            key_of::<(V, u64)>(),
                        ).push(e.0));
                        assert(keys@.push(key).map_values(text) =~= keys@.map_values(text).push(
                            e.0,
                        ));
                    }
                }
                keys.push(key);
            } else {
                proof {
                    assert(a.push(e) + s.warm.skip(i + 1) =~= a + s.warm.skip(i as int));
                }
            }
            i = i + 1;
        }
        proof {
            assert(s.warm.take(i as int) =~= s.warm);
            assert(self@.warm =~= s.warm.filter(stay));
        }
        keys
    }

    /// Lets entries age: stale hot ones go warm, stale warm ones are dropped. Gives how
    /// many of each.
    pub fn tier_check(&mut self, now: u64) -> (r: (usize, usize))
        requires
            old(self).wf(),
        ensures
            final(self).wf(),
            final(self)@ == old(self)@.aged(now),
            r.0 == old(self)@.hot.filter(stale(now, old(self)@.config.hot_threshold_secs)).len(),
            r.1 == old(self)@.aged_out(now).len(),
    {
        let (demoted, keys) = self.tier_check_with_evicted(now);
        proof {
            let t = keys@.map_values(|k: Vec<u8>| k@);
            assert(t.len() == keys@.len());
        }
        (demoted, keys.len())
    }
}

/// A tier that lost its least recently used entry is still in order.
proof fn lemma_shorter<V>(s: TierState<V>)
    requires
        s.wf(),
    ensures
        s.warm.len() > 0 ==> (TierState { warm: s.warm.drop_last(), ..s }).wf(),
        s.hot.len() > 0 ==> (TierState { hot: s.hot.drop_last(), ..s }).wf(),
{
    let g = key_of::<(V, u64)>();
    if s.warm.len() > 0 {
        let t = s.warm.drop_last();
        assert forall|i: int, j: int| 0 <= i < j < t.len() implies g(#[trigger] t[i]) != g(
            #[trigger] t[j],
        ) by {
            assert(t[i] == s.warm[i] && t[j] == s.warm[j]);
        }
        assert forall|k: Seq<u8>| has_key(t, k) implies has_key(s.warm, k) by {
            let i = choose|i: int| 0 <= i < t.len() && (#[trigger] t[i]).0 == k;
            assert(s.warm[i].0 == k);
        }
    }
    if s.hot.len() > 0 {
        let t = s.hot.drop_last();
        assert forall|i: int, j: int| 0 <= i < j < t.len() implies g(#[trigger] t[i]) != g(
            #[trigger] t[j],
        ) by {
            assert(t[i] == s.hot[i] && t[j] == s.hot[j]);
        }
        assert forall|k: Seq<u8>| has_key(t, k) implies has_key(s.hot, k) by {
            let i = choose|i: int| 0 <= i < t.len() && (#[trigger] t[i]).0 == k;
            assert(s.hot[i].0 == k);
        }
    }
}

impl<V> TieredCache<V> {
    fn pop_warm(&mut self) -> (r: Option<Vec<u8>>)
        requires
            old(self).wf(),
        ensures
            final(self).wf(),
            r is Some <==> old(self)@.warm.len() > 0,
            r matches Some(k) ==> k@ == old(self)@.warm.last().0 && final(self)@ == (TierState {
                warm: old(self)@.warm.drop_last(),
                ..old(self)@
            }),
            r is None ==> final(self)@ == old(self)@,
    {
        let ghost s = self@;
        let ghost h = lru_entries(self.hot);
        let ghost w = lru_entries(self.warm);
        let ghost m = self.values@;
        match lru_pop_last(&mut self.warm) {
            Some((key, (slot, _))) => {
                proof {
                    let a = w;
                    let i = a.len() - 1;
                    lemma_value_at(a, i);
                    lemma_without_at(a, i);
                    assert(a.take(i) + a.skip(i + 1) =~= a.drop_last());
                    lemma_detached(w, h, m, key@, slot);
                    assert(s.warm.drop_last() =~= a.drop_last().map_values(resolve(m)));
                    lemma_shorter(s);
                }
                let _ = self.values.take(slot);
                Some(key)
            },
            None => None,
        }
    }

    fn pop_hot(&mut self) -> (r: Option<Vec<u8>>)
        requires
            old(self).wf(),
        ensures
            final(self).wf(),
            r is Some <==> old(self)@.hot.len() > 0,
            r matches Some(k) ==> k@ == old(self)@.hot.last().0 && final(self)@ == (TierState {
                hot: old(self)@.hot.drop_last(),
                ..old(self)@
            }),
            r is None ==> final(self)@ == old(self)@,
    {
        let ghost s = self@;
        let ghost h = lru_entries(self.hot);
        let ghost w = lru_entries(self.warm);
        let ghost m = self.values@;
        match lru_pop_last(&mut self.hot) {
            Some((key, (slot, _))) => {
                proof {
                    let a = h;
                    let i = a.len() - 1;
                    lemma_value_at(a, i);
                    lemma_without_at(a, i);
                    assert(a.take(i) + a.skip(i + 1) =~= a.drop_last());
                    lemma_detached(h, w, m, key@, slot);
                    assert(s.hot.drop_last() =~= a.drop_last().map_values(resolve(m)));
                    lemma_shorter(s);
                }
                let _ = self.values.take(slot);
                Some(key)
            },
            None => None,
        }
    }

    /// Drops entries, the least recently used first, until at most `max` are warm.
    fn cut_warm(&mut self, max: usize) -> (r: usize)
        requires
            old(self).wf(),
        ensures
            final(self).wf(),
            final(self)@ == (TierState {
                warm: old(self)@.warm.take(smaller(old(self)@.warm.len() as int, max as int)),
                ..old(self)@
            }),
            r == old(self)@.warm.len() - smaller(old(self)@.warm.len() as int, max as int),
    {
        let ghost s = self@;
        let mut evicted: usize = 0;
        let mut left: usize = lru_len(&self.warm);
        proof {
            assert(s.warm.take(left as int) =~= s.warm);
        }
        while left > max
            invariant
                self.wf(),
                left <= s.warm.len(),
                smaller(s.warm.len() as int, max as int) <= left,
                evicted == s.warm.len() - left,
                s.warm.len() <= usize::MAX,
                self@ == (TierState { warm: s.warm.take(left as int), ..s }),
            decreases left,
        {
            let _ = self.pop_warm();
            proof {
                assert(s.warm.take(left as int).drop_last() =~= s.warm.take(left - 1));
            }
            evicted = evicted + 1;
            left = left - 1;
        }
        evicted
    }

    /// Drops entries, the least recently used first, until at most `max` are hot.
    fn cut_hot(&mut self, max: usize) -> (r: usize)
        requires
            old(self).wf(),
        ensures
            final(self).wf(),
            final(self)@ == (TierState {
                hot: old(self)@.hot.take(smaller(old(self)@.hot.len() as int, max as int)),
                ..old(self)@
            }),
            r == old(self)@.hot.len() - smaller(old(self)@.hot.len() as int, max as int),
    {
        let ghost s = self@;
        let mut evicted: usize = 0;
        let mut left: usize = lru_len(&self.hot);
        proof {
            assert(s.hot.take(left as int) =~= s.hot);
        }
        while left > max
            invariant
                self.wf(),
                left <= s.hot.len(),
                smaller(s.hot.len() as int, max as int) <= left,
                evicted == s.hot.len() - left,
                s.hot.len() <= usize::MAX,
                self@ == (TierState { hot: s.hot.take(left as int), ..s }),
            decreases left,
        {
            let _ = self.pop_hot();
            proof {
                assert(s.hot.take(left as int).drop_last() =~= s.hot.take(left - 1));
            }
            evicted = evicted + 1;
            left = left - 1;
        }
        evicted
    }

    /// Drops entries, the least recently used first, until each tier is within the count
    /// that it was set up for. Gives how many were dropped.
    pub fn evict_if_needed(&mut self) -> (r: usize)
        requires
            old(self).wf(),
        ensures
            final(self).wf(),
            final(self)@ == old(self)@.cut(
                old(self)@.config.hot_max_count as int,
                old(self)@.config.warm_max_count as int,
            ),
            r == old(self)@.hot.len() + old(self)@.warm.len() - final(self)@.hot.len()
                - final(self)@.warm.len(),
    {
        proof {
            self.lemma_counts_fit();
        }
        let warm_max: usize = self.config.warm_max_count;
        let hot_max: usize = self.config.hot_max_count;
        let a: usize = self.cut_warm(warm_max);
        let b: usize = self.cut_hot(hot_max);
        a + b
    }

    /// Drops `count` entries, or all where there are fewer: warm ones first, then hot
    /// ones, in each tier the least recently used first. Gives their keys in that order.
    pub fn emergency_evict(&mut self, count: usize) -> (r: Vec<Vec<u8>>)
        requires
            old(self).wf(),
        ensures
            final(self).wf(),
            final(self)@ == old(self)@.emptied(count as int),
            r@.map_values(|k: Vec<u8>| k@) == old(self)@.emptied_keys(count as int),
    {
        let ghost s = self@;
        let ghost text = |k: Vec<u8>| k@;
        let mut keys: Vec<Vec<u8>> = Vec::new();
        proof {
            assert(s.warm.take(s.warm.len() as int) =~= s.warm);
            assert(s.hot.take(s.hot.len() as int) =~= s.hot);
            assert(keys@.map_values(text) =~= last_keys(s.warm, 0));
        }
        while keys.len() < count
            invariant_except_break
                self.wf(),
                text == (|k: Vec<u8>| k@),
                keys@.len() <= s.warm.len(),
                keys@.len() <= count,
                keys@.map_values(text) == last_keys(s.warm, keys@.len() as int),
                self@ == (TierState { warm: s.warm.take(s.warm.len() - keys@.len()), ..s }),
            ensures
                self.wf(),
                keys@.len() == smaller(s.warm.len() as int, count as int),
                keys@.map_values(text) == last_keys(s.warm, keys@.len() as int),
                self@ == (TierState { warm: s.warm.take(s.warm.len() - keys@.len()), ..s }),
            decreases count - keys.len(),
        {
            match self.pop_warm() {
                Some(k) => {
                    proof {
                        let n = keys@.len() as int;
                        let left = s.warm.len() - n;
                        assert(s.warm.take(left).drop_last() =~= s.warm.take(left - 1));
                        assert(s.warm.take(left).last() == s.warm[left - 1]);
                        assert(keys@.push(k).map_values(text) =~= keys@.map_values(text).push(k@));
                        assert(last_keys(s.warm, n + 1) =~= last_keys(s.warm, n).push(k@));
                    }
                    keys.push(k);
                },
                None => {
                    break;
                },
            }
        }
        let ghost n = keys@.len() as int;
        proof {
            assert(last_keys(s.hot, 0) =~= Seq::<Seq<u8>>::empty());
            assert(last_keys(s.warm, n) + last_keys(s.hot, 0) =~= last_keys(s.warm, n));
        }
        while keys.len() < count
            invariant_except_break
                self.wf(),
                text == (|k: Vec<u8>| k@),
                n == smaller(s.warm.len() as int, count as int),
                n <= keys@.len() <= count,
                keys@.len() - n <= s.hot.len(),
                keys@.map_values(text) == last_keys(s.warm, n) + last_keys(s.hot, keys@.len() - n),
                self@ == (TierState {
                    warm: s.warm.take(s.warm.len() - n),
                    hot: s.hot.take(s.hot.len() - (keys@.len() - n)),
                    ..s
                }),
            ensures
                self.wf(),
                keys@.len() - n == smaller(s.hot.len() as int, count - n),
                keys@.map_values(text) == last_keys(s.warm, n) + last_keys(s.hot, keys@.len() - n),
                self@ == (TierState {
                    warm: s.warm.take(s.warm.len() - n),
                    hot: s.hot.take(s.hot.len() - (keys@.len() - n)),
                    ..s
                }),
            decreases count - keys.len(),
        {
            match self.pop_hot() {
                Some(k) => {
                    proof {
                        let j = keys@.len() - n;
                        let left = s.hot.len() - j;
                        assert(s.hot.take(left).drop_last() =~= s.hot.take(left - 1));
                        assert(s.hot.take(left).last() == s.hot[left - 1]);
                        assert(keys@.push(k).map_values(text) =~= keys@.map_values(text).push(k@));
                        assert(last_keys(s.hot, j + 1) =~= last_keys(s.hot, j).push(k@));
                        assert(last_keys(s.warm, n) + last_keys(s.hot, j).push(k@) =~= (last_keys(
                            s.warm,
                            n,
                        ) + last_keys(s.hot, j)).push(k@));
                    }
                    keys.push(k);
                },
                None => {
                    break;
                },
            }
        }
        keys
    }

    /// Sets the room of both tiers; entries past it, the least recently used ones, are
    /// dropped. The thresholds stay as they were.
    pub fn update_config(&mut self, config: TieredCacheConfig)
        requires
            old(self).wf(),
        ensures
            final(self).wf(),
            final(self)@ == (TierState {
                hot_cap: cap_of(config.hot_max_count),
                warm_cap: cap_of(config.warm_max_count),
                ..old(self)@.cut(
                    cap_of(config.hot_max_count) as int,
                    cap_of(config.warm_max_count) as int,
                )
            }),
    {
        let hot_max: usize = if config.hot_max_count == 0 {
            1
        } else {
            config.hot_max_count
        };
        let warm_max: usize = if config.warm_max_count == 0 {
            1
        } else {
            config.warm_max_count
        };
        let _ = self.cut_hot(hot_max);
        let _ = self.cut_warm(warm_max);
        lru_resize(&mut self.hot, hot_max);
        lru_resize(&mut self.warm, warm_max);
    }
}

proof fn lemma_put_others<T>(s: Seq<(Seq<u8>, T)>, cap: nat, k: Seq<u8>, v: T, x: Seq<u8>)
    requires
        distinct_by(s, key_of::<T>()),
        s.len() <= cap,
        0 < cap,
        x != k,
        has_key(s, x),
        !has_key(s, k) && s.len() == cap ==> s.last().0 != x,
    ensures
        has_key(lru_put(s, cap, k, v), x),
        value_at(lru_put(s, cap, k, v), x) == value_at(s, x),
{
    let r = lru_put(s, cap, k, v);
    let rest = lru_rest(s, cap, k);
    lemma_lru_put(s, cap, k, v);
    lemma_without(s, k);
    if has_key(s, k) {
        assert(has_key(rest, x));
        let j = choose|j: int| 0 <= j < rest.len() && (#[trigger] rest[j]).0 == x;
        assert(r[j + 1] == rest[j]);
        lemma_value_at(r, j + 1);
        lemma_value_at(rest, j);
    } else {
        let j = choose|j: int| 0 <= j < s.len() && (#[trigger] s[j]).0 == x;
        assert(r[j + 1] == s[j]);
        lemma_value_at(r, j + 1);
        lemma_value_at(s, j);
    }
}

/// A key that was given a value reads as that value, and is the last that eviction
/// would take from the hot tier.
pub proof fn write_then_read<V>(s: TierState<V>, k: Seq<u8>, v: V, now: u64)
    requires
        s.wf(),
    ensures
        s.stored(k, v, now).lookup(k) == Some(v),
        s.stored(k, v, now).hot[0] == (k, (v, now)),
        !has_key(s.stored(k, v, now).warm, k),
{
    lemma_lru_put(s.hot, s.hot_cap, k, (v, now));
    lemma_without(s.warm, k);
}

/// Giving a key a value changes what no other key reads as, but for the least recently
/// used hot key where the hot tier was full without the key.
pub proof fn write_keeps_other_keys<V>(s: TierState<V>, k: Seq<u8>, v: V, now: u64, x: Seq<u8>)
    requires
        s.wf(),
        x != k,
        !has_key(s.hot, k) && s.hot.len() == s.hot_cap ==> s.hot.last().0 != x,
    ensures
        s.stored(k, v, now).lookup(x) == s.lookup(x),
{
    let t = s.stored(k, v, now);
    lemma_without(s.warm, k);
    if has_key(s.hot, x) {
        lemma_put_others(s.hot, s.hot_cap, k, (v, now), x);
    } else {
        if has_key(t.hot, x) {
            lemma_put_keys(s.hot, s.hot_cap, k, (v, now), x);
        }
    }
}

/// A key that was taken out is in no tier; every other key reads as before.
pub proof fn remove_then_read<V>(s: TierState<V>, k: Seq<u8>, x: Seq<u8>)
    requires
        s.wf(),
    ensures
        s.removed(k).lookup(k) is None,
        x != k ==> s.removed(k).lookup(x) == s.lookup(x),
{
    lemma_without(s.hot, k);
    lemma_without(s.warm, k);
}

/// After ageing no entry is older than the threshold of its tier.
pub proof fn ageing_leaves_nothing_stale<V>(s: TierState<V>, now: u64, i: int)
    ensures
        0 <= i < s.aged(now).hot.len() ==> !older_than(
            s.aged(now).hot[i].1.1,
            now,
            s.config.hot_threshold_secs,
        ),
        0 <= i < s.aged(now).warm.len() ==> !older_than(
            s.aged(now).warm[i].1.1,
            now,
            s.config.warm_threshold_secs,
        ),
{
    if 0 <= i < s.aged(now).hot.len() {
        lemma_filter_passes(s.hot, recent_use(now, s.config.hot_threshold_secs), i);
    }
    if 0 <= i < s.aged(now).warm.len() {
        lemma_filter_passes(
            s.demoted(now).warm,
            recent_use(now, s.config.warm_threshold_secs),
            i,
        );
    }
}

proof fn lemma_filter_passes<A>(s: Seq<A>, p: spec_fn(A) -> bool, i: int)
    requires
        0 <= i < s.filter(p).len(),
    ensures
        p(s.filter(p)[i]),
    decreases s.len(),
{
    reveal(Seq::filter);
    let t = s.drop_last();
    if i < t.filter(p).len() {
        lemma_filter_passes(t, p, i);
    }
}

/// An emergency drops the asked number of entries, or all, and touches the hot tier only
/// once no warm entry is left.
pub proof fn emergency_spares_the_hot<V>(s: TierState<V>, count: int)
    requires
        0 <= count,
    ensures
        s.emptied(count).hot.len() + s.emptied(count).warm.len() == s.hot.len() + s.warm.len()
            - s.emptied_keys(count).len(),
        s.emptied_keys(count).len() == smaller((s.hot.len() + s.warm.len()) as int, count),
        s.emptied(count).warm.len() > 0 ==> s.emptied(count).hot == s.hot,
{
    assert(s.hot.take(s.hot.len() as int) =~= s.hot);
}

} // verus!
