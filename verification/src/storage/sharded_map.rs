//! A hash map that is split into shards by the hash of the key, and one that notes which
//! keys have changed.

use std::hash::BuildHasher;

use rustc_hash::FxBuildHasher;
use vstd::prelude::*;

use crate::ranking::lemma_lists_join;
use crate::storage::fx_map::{lemma_lists_len, lists, models, FxMap, FxSet, MapKey};

verus! {

/// The hash of a number on a machine with pointers of so many bits.
pub uninterp spec fn fx_hash(n: u64, pointer_bits: u32) -> u64;

/// `FxBuildHasher::hash_one` on a number. The crate multiplies and rotates a machine word,
/// so that beside the number only the width of the word matters.
#[verifier::external_body]
fn fx_hash_one(n: u64) -> (r: u64)
    ensures
        r == fx_hash(n, usize::BITS),
{
    FxBuildHasher.hash_one(n)
}

/// A number made of the bytes of a key.
pub open spec fn key_number(b: Seq<u8>) -> u64
    decreases b.len(),
{
    if b.len() == 0 {
        0
    } else {
        ((key_number(b.drop_last()) * 257 + b.last()) % 0x1_0000_0000_0000_0000) as u64
    }
}

fn number_of(b: &[u8]) -> (r: u64)
    ensures
        r == key_number(b@),
{
    let mut n: u64 = 0;
    let mut i: usize = 0;
    while i < b.len()
        invariant
            0 <= i <= b@.len(),
            n == key_number(b@.take(i as int)),
        decreases b@.len() - i,
    {
        let wide: u128 = n as u128 * 257 + b[i] as u128;
        proof {
            assert(b@.take(i + 1).drop_last() =~= b@.take(i as int));
        }
        n = (wide % 0x1_0000_0000_0000_0000) as u64;
        i = i + 1;
    }
    assert(b@.take(i as int) =~= b@);
    n
}

/// The shard of a key.
pub open spec fn shard_of(b: Seq<u8>, shard_count: usize) -> int {
    if shard_count == 0 {
        0
    } else {
        (fx_hash(key_number(b), usize::BITS) % shard_count as u64) as int
    }
}

/// Whether a number is a power of two.
pub open spec fn power_of_two(n: nat) -> bool
    decreases n,
{
    n == 1 || (n > 1 && n % 2 == 0 && power_of_two(n / 2))
}

/// A hash map in shards.
pub struct ShardedHashMap<K, V> {
    shards: Vec<FxMap<K, V>>,
}

impl<K: MapKey, V> View for ShardedHashMap<K, V> {
    type V = Map<K::M, V>;

    closed spec fn view(&self) -> Map<K::M, V> {
        Map::new(
            |m: K::M| self.shards@[self.home(m)]@.contains_key(m),
            |m: K::M| self.shards@[self.home(m)]@[m],
        )
    }
}

impl<K: MapKey, V> ShardedHashMap<K, V> {
    /// The shard in which a key belongs.
    pub closed spec fn home(self, m: K::M) -> int {
        shard_of(K::filed_as(m), self.shards@.len() as usize)
    }

    /// How many shards there are.
    pub closed spec fn spec_shard_count(self) -> nat {
        self.shards@.len()
    }

    /// There is a shard, and each key is in the shard in which it belongs.
    pub closed spec fn wf(self) -> bool {
        &&& 0 < self.shards@.len() <= usize::MAX
        &&& forall|i: int| 0 <= i < self.shards@.len() ==> (#[trigger] self.shards@[i]).wf()
        &&& forall|i: int, m: K::M|
            0 <= i < self.shards@.len() && (#[trigger] self.shards@[i]@.dom().contains(m))
                ==> self.home(m) == i
    }

    /// The keys in the first so many shards.
    spec fn keys_below(self, n: int) -> Set<K::M> {
        Set::new(|m: K::M| 0 <= self.home(m) < n && self@.dom().contains(m))
    }

    proof fn lemma_home(self, m: K::M)
        requires
            self.wf(),
        ensures
            0 <= self.home(m) < self.shards@.len(),
    {
    }

    proof fn lemma_keys_step(self, n: int)
        requires
            self.wf(),
            0 <= n < self.shards@.len(),
            self.keys_below(n).finite(),
            self.shards@[n]@.dom().finite(),
        ensures
            self.keys_below(n + 1).finite(),
            self.keys_below(n + 1).len() == self.keys_below(n).len() + self.shards@[n]@.len(),
            self.keys_below(n + 1) == self.keys_below(n).union(self.shards@[n]@.dom()),
            self.keys_below(n).disjoint(self.shards@[n]@.dom()),
    {
        let a = self.keys_below(n);
        let b = self.shards@[n]@.dom();
        assert(a.disjoint(b));
        assert(self.keys_below(n + 1) =~= a.union(b)) by {
            assert forall|m: K::M| b.contains(m) implies self.keys_below(n + 1).contains(m) by {
                assert(self.home(m) == n);
            }
        }
        vstd::set_lib::lemma_set_disjoint_lens(a, b);
    }

    proof fn lemma_keys_finite(self, n: int)
        requires
            self.wf(),
            0 <= n <= self.shards@.len(),
        ensures
            self.keys_below(n).finite(),
            n == self.shards@.len() ==> self@.dom().finite(),
        decreases n,
    {
        if n == 0 {
            assert(self.keys_below(0) =~= Set::empty());
        } else {
            self.lemma_keys_finite(n - 1);
            self.shards@[n - 1].lemma_finite();
            self.lemma_keys_step(n - 1);
        }
        if n == self.shards@.len() {
            self.lemma_all_keys();
        }
    }

    proof fn lemma_all_keys(self)
        requires
            self.wf(),
        ensures
            self.keys_below(self.shards@.len() as int) == self@.dom(),
    {
        assert(self.keys_below(self.shards@.len() as int) =~= self@.dom()) by {
            assert forall|m: K::M| self@.dom().contains(m) implies self.keys_below(
                self.shards@.len() as int,
            ).contains(m) by {
                self.lemma_home(m);
            }
        }
    }

    /// There are finitely many keys.
    pub proof fn lemma_finite(self)
        requires
            self.wf(),
        ensures
            self@.dom().finite(),
    {
        self.lemma_keys_finite(self.shards@.len() as int);
    }

    /// An empty map in so many shards, a power of two.
    pub fn new(shard_count: usize) -> (r: Self)
        requires
            power_of_two(shard_count as nat),
        ensures
            r.wf(),
            r@ == Map::<K::M, V>::empty(),
            r.spec_shard_count() == shard_count,
    {
        let mut shards: Vec<FxMap<K, V>> = Vec::new();
        let mut i: usize = 0;
        while i < shard_count
            invariant
                0 <= i <= shard_count,
                shards@.len() == i,
                forall|j: int| 0 <= j < i ==> (#[trigger] shards@[j]).wf(),
                forall|j: int| 0 <= j < i ==> (#[trigger] shards@[j])@ == Map::<K::M, V>::empty(),
            decreases shard_count - i,
        {
            shards.push(FxMap::new());
            i = i + 1;
        }
        let r = ShardedHashMap { shards };
        proof {
            assert(r@ =~= Map::<K::M, V>::empty()) by {
                assert forall|m: K::M| !r@.dom().contains(m) by {
                    let h = r.home(m);
                    assert(r.shards@[h]@ == Map::<K::M, V>::empty());
                }
            }
        }
        r
    }

    fn shard_index(&self, key: &K) -> (r: usize)
        requires
            self.wf(),
        ensures
            r == self.home(key.model()),
            r < self.shards@.len(),
    {
        let h: u64 = fx_hash_one(number_of(key.key_bytes().as_slice()));
        let n: usize = self.shards.len();
        (h % (n as u64)) as usize
    }

    /// The value of a key.
    pub fn get(&self, key: &K) -> (r: Option<&V>)
        requires
            self.wf(),
        ensures
            r is Some <==> self@.contains_key(key.model()),
            r matches Some(v) ==> *v == self@[key.model()],
    {
        let i: usize = self.shard_index(key);
        self.shards[i].get(key)
    }

    /// Whether a key has a value.
    pub fn contains_key(&self, key: &K) -> (r: bool)
        requires
            self.wf(),
        ensures
            r == self@.contains_key(key.model()),
    {
        let i: usize = self.shard_index(key);
        self.shards[i].contains_key(key)
    }

    proof fn lemma_shard_changed(before: Self, after: Self, i: int, m: K::M, value: Option<V>)
        requires
            before.wf(),
            after.shards@.len() == before.shards@.len(),
            0 <= i < before.shards@.len(),
            i == before.home(m),
            after.shards@[i].wf(),
            forall|j: int|
                0 <= j < before.shards@.len() && j != i ==> after.shards@[j] == before.shards@[j],
            after.shards@[i]@ == match value {
                Some(v) => before.shards@[i]@.insert(m, v),
                None => before.shards@[i]@.remove(m),
            },
        ensures
            after.wf(),
            after@ == match value {
                Some(v) => before@.insert(m, v),
                None => before@.remove(m),
            },
    {
        let want = match value {
            Some(v) => before@.insert(m, v),
            None => before@.remove(m),
        };
        assert forall|x: K::M| after.home(x) == before.home(x) by {}
        assert forall|j: int| 0 <= j < after.shards@.len() implies (
        #[trigger] after.shards@[j]).wf() by {
            if j != i {
                assert(after.shards@[j] == before.shards@[j]);
            }
        }
        assert forall|j: int, x: K::M|
            0 <= j < after.shards@.len() && (#[trigger] after.shards@[j]@.dom().contains(
                x,
            )) implies after.home(x) == j by {
            if j != i {
                assert(before.shards@[j]@.dom().contains(x));
            } else if x != m {
                assert(before.shards@[j]@.dom().contains(x));
            }
        }
        assert forall|x: K::M| #[trigger] after@.dom().contains(x) <==> want.dom().contains(x) by {
            let h = before.home(x);
            before.lemma_home(x);
            if h != i {
                assert(after.shards@[h] == before.shards@[h]);
            }
        }
        assert(after@.dom() =~= want.dom());
        assert forall|x: K::M| #[trigger] after@.dom().contains(x) implies after@[x] == want[x] by {
            let h = before.home(x);
            before.lemma_home(x);
            if h != i {
                assert(after.shards@[h] == before.shards@[h]);
            }
        }
        assert(after@ =~= want);
    }

    /// Gives a key a value and returns what it had.
    pub fn insert(&mut self, key: K, value: V) -> (r: Option<V>)
        requires
            old(self).wf(),
        ensures
            final(self).wf(),
            final(self)@ == old(self)@.insert(key.model(), value),
            final(self).spec_shard_count() == old(self).spec_shard_count(),
            r is Some <==> old(self)@.contains_key(key.model()),
            r matches Some(v) ==> v == old(self)@[key.model()],
    {
        let ghost before = *self;
        let ghost m = key.model();
        let i: usize = self.shard_index(&key);
        let r = self.shards[i].insert(key, value);
        proof {
            Self::lemma_shard_changed(before, *self, i as int, m, Some(value));
        }
        r
    }

    /// Takes a key out and returns what it had.
    pub fn remove(&mut self, key: &K) -> (r: Option<V>)
        requires
            old(self).wf(),
        ensures
            final(self).wf(),
            final(self)@ == old(self)@.remove(key.model()),
            final(self).spec_shard_count() == old(self).spec_shard_count(),
            r is Some <==> old(self)@.contains_key(key.model()),
            r matches Some(v) ==> v == old(self)@[key.model()],
    {
        let ghost before = *self;
        let i: usize = self.shard_index(key);
        let r = self.shards[i].remove(key);
        proof {
            Self::lemma_shard_changed(before, *self, i as int, key.model(), None);
        }
        r
    }

    /// Replaces the value of a key by what `f` makes of it. Says whether the key had one.
    pub fn with_mut<F: FnOnce(V) -> V>(&mut self, key: &K, f: F) -> (r: bool)
        requires
            old(self).wf(),
            old(self)@.contains_key(key.model()) ==> call_requires(
                f,
                (old(self)@[key.model()],),
            ),
        ensures
            final(self).wf(),
            final(self).spec_shard_count() == old(self).spec_shard_count(),
            r == old(self)@.contains_key(key.model()),
            r ==> final(self)@.contains_key(key.model()) && call_ensures(
                f,
                (old(self)@[key.model()],),
                final(self)@[key.model()],
            ) && final(self)@ == old(self)@.insert(key.model(), final(self)@[key.model()]),
            !r ==> final(self)@ == old(self)@,
    {
        let ghost all = self@;
        match self.remove(key) {
            Some(v) => {
                let w = f(v);
                let _ = self.insert(key.duplicate(), w);
                proof {
                    assert(self@ =~= all.insert(key.model(), self@[key.model()]));
                }
                true
            },
            None => {
                proof {
                    assert(self@ =~= all);
                }
                false
            },
        }
    }

    /// The number of keys, where a machine can count them.
    pub fn len(&self) -> (r: usize)
        requires
            self.wf(),
        ensures
            self@.dom().finite(),
            self@.len() <= usize::MAX ==> r == self@.len(),
    {
        let mut n: usize = 0;
        let mut i: usize = 0;
        proof {
            assert(self.keys_below(0) =~= Set::empty());
            self.lemma_keys_finite(self.shards@.len() as int);
        }
        while i < self.shards.len()
            invariant
                self.wf(),
                self@.dom().finite(),
                0 <= i <= self.shards@.len(),
                self.keys_below(i as int).finite(),
                self@.len() <= usize::MAX ==> n == self.keys_below(i as int).len(),
            decreases self.shards@.len() - i,
        {
            let m: usize = self.shards[i].len();
            proof {
                self.lemma_keys_step(i as int);
                vstd::set_lib::lemma_len_subset(self.keys_below(i + 1), self@.dom());
            }
            n = n.wrapping_add(m);
            i = i + 1;
        }
        proof {
            self.lemma_all_keys();
        }
        n
    }

    /// Whether there is no key.
    pub fn is_empty(&self) -> (r: bool)
        requires
            self.wf(),
        ensures
            r == (self@ == Map::<K::M, V>::empty()),
    {
        let mut i: usize = 0;
        while i < self.shards.len()
            invariant
                self.wf(),
                0 <= i <= self.shards@.len(),
                forall|j: int|
                    0 <= j < i ==> (#[trigger] self.shards@[j])@ == Map::<K::M, V>::empty(),
            decreases self.shards@.len() - i,
        {
            if !self.shards[i].is_empty() {
                proof {
                    let s = self.shards@[i as int]@;
                    assert(!(s =~= Map::<K::M, V>::empty()));
                    let m = choose|m: K::M| s.dom().contains(m);
                    assert(s.dom().contains(m));
                    assert(self@.dom().contains(m));
                }
                return false;
            }
            i = i + 1;
        }
        proof {
            assert(self@ =~= Map::<K::M, V>::empty()) by {
                assert forall|m: K::M| !self@.dom().contains(m) by {
                    self.lemma_home(m);
                    assert(self.shards@[self.home(m)]@ == Map::<K::M, V>::empty());
                }
            }
        }
        true
    }

    /// Every key once, shard by shard, in an order that is left open.
    pub fn keys(&self) -> (r: Vec<K>)
        requires
            self.wf(),
        ensures
            lists(models(r@), self@.dom()),
            self@.dom().finite(),
            r@.len() == self@.len(),
    {
        let mut out: Vec<K> = Vec::new();
        let mut i: usize = 0;
        proof {
            assert(self.keys_below(0) =~= Set::empty());
        }
        while i < self.shards.len()
            invariant
                self.wf(),
                0 <= i <= self.shards@.len(),
                lists(models(out@), self.keys_below(i as int)),
                self.keys_below(i as int).finite(),
            decreases self.shards@.len() - i,
        {
            let mut part = self.shards[i].keys();
            let ghost a = models(out@);
            let ghost b = models(part@);
            out.append(&mut part);
            proof {
                self.lemma_keys_step(i as int);
                assert(models(out@) =~= a + b);
                lemma_lists_join(
                    a,
                    b,
                    self.keys_below(i as int),
                    self.shards@[i as int]@.dom(),
                );
            }
            i = i + 1;
        }
        proof {
            self.lemma_all_keys();
            lemma_lists_len(models(out@), self@.dom());
        }
        out
    }

    /// What `f` makes of each key and value, in the order of a list of the keys.
    pub fn collect<R, F: Fn(&K, &V) -> R>(&self, f: F) -> (r: (Vec<K>, Vec<R>))
        requires
            self.wf(),
            forall|k: &K, v: &V|
                self@.contains_key(k.model()) && *v == self@[k.model()] ==> #[trigger] call_requires(
                    f,
                    (k, v),
                ),
        ensures
            lists(models(r.0@), self@.dom()),
            r.1@.len() == r.0@.len(),
            forall|i: int|
                0 <= i < r.1@.len() ==> call_ensures(
                    f,
                    (&r.0@[i], &self@[r.0@[i].model()]),
                    #[trigger] r.1@[i],
                ),
    {
        let keys = self.keys();
        let mut out: Vec<R> = Vec::new();
        let mut i: usize = 0;
        while i < keys.len()
            invariant
                self.wf(),
                lists(models(keys@), self@.dom()),
                0 <= i <= keys@.len(),
                out@.len() == i,
                forall|k: &K, v: &V|
                    self@.contains_key(k.model()) && *v == self@[k.model()]
                        ==> #[trigger] call_requires(f, (k, v)),
                forall|j: int|
                    0 <= j < i ==> call_ensures(
                        f,
                        (&keys@[j], &self@[keys@[j].model()]),
                        #[trigger] out@[j],
                    ),
            decreases keys@.len() - i,
        {
            proof {
                let ms = models(keys@);
                assert(ms[i as int] == keys@[i as int].model());
                assert(ms.contains(ms[i as int]));
            }
            match self.get(&keys[i]) {
                Some(v) => {
                    out.push(f(&keys[i], v));
                },
                None => {},
            }
            i = i + 1;
        }
        (keys, out)
    }

    /// How many shards there are.
    pub fn shard_count(&self) -> (r: usize)
        ensures
            r == self.spec_shard_count(),
    {
        self.shards.len()
    }

    /// Replaces every value by what `f` makes of its key and of it.
    pub fn for_each_mut<F: Fn(&K, V) -> V>(&mut self, f: F)
        requires
            old(self).wf(),
            forall|k: &K, v: V| #[trigger] call_requires(f, (k, v)),
        ensures
            final(self).wf(),
            final(self).spec_shard_count() == old(self).spec_shard_count(),
            final(self)@.dom() == old(self)@.dom(),
            forall|m: K::M| #[trigger]
                final(self)@.contains_key(m) ==> exists|k: K|
                    k.model() == m && #[trigger] call_ensures(
                        f,
                        (&k, old(self)@[m]),
                        final(self)@[m],
                    ),
    {
        let ghost all = self@;
        let keys = self.keys();
        let ghost ids = models(keys@);
        let mut i: usize = 0;
        while i < keys.len()
            invariant
                self.wf(),
                self.spec_shard_count() == old(self).spec_shard_count(),
                all == old(self)@,
                ids == models(keys@),
                lists(ids, all.dom()),
                0 <= i <= keys@.len(),
                self@.dom() == all.dom(),
                forall|k: &K, v: V| #[trigger] call_requires(f, (k, v)),
                forall|j: int|
                    0 <= j < i ==> call_ensures(
                        f,
                        (&keys@[j], all[#[trigger] ids[j]]),
                        self@[ids[j]],
                    ),
                forall|j: int| i <= j < ids.len() ==> self@[#[trigger] ids[j]] == all[ids[j]],
            decreases keys@.len() - i,
        {
            let ghost before = self@;
            proof {
                assert(ids[i as int] == keys@[i as int].model());
                assert(ids.contains(ids[i as int]));
            }
            match self.remove(&keys[i]) {
                Some(v) => {
                    let w = f(&keys[i], v);
                    let _ = self.insert(keys[i].duplicate(), w);
                },
                None => {},
            }
            proof {
                assert(self@.dom() =~= all.dom());
                assert forall|j: int| 0 <= j < i + 1 implies call_ensures(
                    f,
                    (&keys@[j], all[#[trigger] ids[j]]),
                    self@[ids[j]],
                ) by {
                    if j < i {
                        assert(ids[j] != ids[i as int]);
                        assert(self@[ids[j]] == before[ids[j]]);
                    }
                }
                assert forall|j: int| i + 1 <= j < ids.len() implies self@[#[trigger] ids[j]]
                    == all[ids[j]] by {
                    assert(ids[j] != ids[i as int]);
                    assert(self@[ids[j]] == before[ids[j]]);
                }
            }
            i = i + 1;
        }
        proof {
            assert forall|m: K::M| #[trigger] self@.contains_key(m) implies exists|k: K|
                k.model() == m && #[trigger] call_ensures(f, (&k, old(self)@[m]), self@[m]) by {
                assert(ids.contains(m));
                let j = choose|j: int| 0 <= j < ids.len() && ids[j] == m;
                assert(keys@[j].model() == m);
                assert(call_ensures(f, (&keys@[j], all[ids[j]]), self@[ids[j]]));
            }
        }
    }

    /// Takes every key out.
    pub fn clear(&mut self)
        requires
            old(self).wf(),
        ensures
            final(self).wf(),
            final(self)@ == Map::<K::M, V>::empty(),
            final(self).spec_shard_count() == old(self).spec_shard_count(),
    {
        let n: usize = self.shards.len();
        let mut shards: Vec<FxMap<K, V>> = Vec::new();
        let mut i: usize = 0;
        while i < n
            invariant
                0 <= i <= n,
                shards@.len() == i,
                forall|j: int| 0 <= j < i ==> (#[trigger] shards@[j]).wf(),
                forall|j: int| 0 <= j < i ==> (#[trigger] shards@[j])@ == Map::<K::M, V>::empty(),
            decreases n - i,
        {
            shards.push(FxMap::new());
            i = i + 1;
        }
        self.shards = shards;
        proof {
            assert(self@ =~= Map::<K::M, V>::empty()) by {
                assert forall|m: K::M| !self@.dom().contains(m) by {
                    let h = self.home(m);
                    assert(self.shards@[h]@ == Map::<K::M, V>::empty());
                }
            }
        }
    }
}

/// What a map that notes changes holds: the values, and the keys that were given a value
/// or taken out since they were last asked for.
#[verifier::ext_equal]
#[verifier::reject_recursive_types(A)]
pub struct DirtyState<A, V> {
    pub map: Map<A, V>,
    pub dirty: Set<A>,
}

impl<A, V> DirtyState<A, V> {
    /// The state after a key was given a value.
    pub open spec fn inserted(self, m: A, v: V) -> DirtyState<A, V> {
        DirtyState { map: self.map.insert(m, v), dirty: self.dirty.insert(m) }
    }

    /// The state after a key was taken out.
    pub open spec fn removed(self, m: A) -> DirtyState<A, V> {
        DirtyState { map: self.map.remove(m), dirty: self.dirty.insert(m) }
    }
}

/// A sharded map that notes which keys have changed.
pub struct DirtyShardedHashMap<K, V> {
    map: ShardedHashMap<K, V>,
    dirty: FxSet<K>,
}

impl<K: MapKey, V> View for DirtyShardedHashMap<K, V> {
    type V = DirtyState<K::M, V>;

    closed spec fn view(&self) -> DirtyState<K::M, V> {
        DirtyState { map: self.map@, dirty: self.dirty@ }
    }
}

impl<K: MapKey, V> DirtyShardedHashMap<K, V> {
    /// How many shards there are.
    pub closed spec fn spec_shard_count(self) -> nat {
        self.map.spec_shard_count()
    }

    pub closed spec fn wf(self) -> bool {
        self.map.wf() && self.dirty.wf()
    }

    /// An empty map in so many shards, a power of two.
    pub fn new(shard_count: usize) -> (r: Self)
        requires
            power_of_two(shard_count as nat),
        ensures
            r.wf(),
            r@ == (DirtyState { map: Map::<K::M, V>::empty(), dirty: Set::<K::M>::empty() }),
            r.spec_shard_count() == shard_count,
    {
        DirtyShardedHashMap { map: ShardedHashMap::new(shard_count), dirty: FxSet::new() }
    }

    /// Gives a key a value, notes the key, and returns what it had.
    pub fn insert(&mut self, key: K, value: V) -> (r: Option<V>)
        requires
            old(self).wf(),
        ensures
            final(self).wf(),
            final(self)@ == old(self)@.inserted(key.model(), value),
            final(self).spec_shard_count() == old(self).spec_shard_count(),
            r is Some <==> old(self)@.map.contains_key(key.model()),
            r matches Some(v) ==> v == old(self)@.map[key.model()],
    {
        let _ = self.dirty.insert(key.duplicate());
        self.map.insert(key, value)
    }

    /// The value of a key.
    pub fn get(&self, key: &K) -> (r: Option<&V>)
        requires
            self.wf(),
        ensures
            r is Some <==> self@.map.contains_key(key.model()),
            r matches Some(v) ==> *v == self@.map[key.model()],
    {
        self.map.get(key)
    }

    /// Takes a key out, notes it, and returns what it had.
    pub fn remove(&mut self, key: &K) -> (r: Option<V>)
        requires
            old(self).wf(),
        ensures
            final(self).wf(),
            final(self)@ == old(self)@.removed(key.model()),
            final(self).spec_shard_count() == old(self).spec_shard_count(),
            r is Some <==> old(self)@.map.contains_key(key.model()),
            r matches Some(v) ==> v == old(self)@.map[key.model()],
    {
        let _ = self.dirty.insert(key.duplicate());
        self.map.remove(key)
    }

    /// The number of keys, where a machine can count them.
    pub fn len(&self) -> (r: usize)
        requires
            self.wf(),
        ensures
            self@.map.len() <= usize::MAX ==> r == self@.map.len(),
    {
        self.map.len()
    }

    /// Whether there is no key.
    pub fn is_empty(&self) -> (r: bool)
        requires
            self.wf(),
        ensures
            r == (self@.map == Map::<K::M, V>::empty()),
    {
        self.map.is_empty()
    }

    /// The keys that have changed since they were last asked for, each once, in an order
    /// that is left open. None is noted any more.
    pub fn take_dirty(&mut self) -> (r: Vec<K>)
        requires
            old(self).wf(),
        ensures
            final(self).wf(),
            final(self)@ == (DirtyState { dirty: Set::<K::M>::empty(), ..old(self)@ }),
            final(self).spec_shard_count() == old(self).spec_shard_count(),
            lists(models(r@), old(self)@.dirty),
    {
        let keys = self.dirty.elements();
        self.dirty.clear();
        keys
    }

    /// How many keys have changed.
    pub fn dirty_count(&self) -> (r: usize)
        requires
            self.wf(),
        ensures
            r == self@.dirty.len(),
    {
        self.dirty.len()
    }

    /// The map itself.
    pub fn inner(&self) -> (r: &ShardedHashMap<K, V>)
        requires
            self.wf(),
        ensures
            r.wf(),
            r@ == self@.map,
            r.spec_shard_count() == self.spec_shard_count(),
    {
        &self.map
    }
}

/// Whatever a change does to what a key maps to, the key is noted afterwards; no other key
/// maps to anything else than before.
pub proof fn changes_are_noted<A, V>(s: DirtyState<A, V>, m: A, v: V, x: A)
    ensures
        s.inserted(m, v).dirty.contains(m),
        s.removed(m).dirty.contains(m),
        x != m ==> s.inserted(m, v).map.index_opt(x) == s.map.index_opt(x),
        x != m ==> s.removed(m).map.index_opt(x) == s.map.index_opt(x),
        s.dirty.contains(x) ==> s.inserted(m, v).dirty.contains(x) && s.removed(
            m,
        ).dirty.contains(x),
{
}

} // verus!
