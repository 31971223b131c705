//! Maps and sets over rustc-hash's tables.
//!
//! A table of the outside crate takes the bytes of a key to a slot; keys and values
//! stand in the slots. What a key is to its user is told by its `MapKey` impl.

use std::collections::HashMap;

use rustc_hash::FxBuildHasher;
use vstd::prelude::*;
use vstd::set_lib::lemma_map_size;

use crate::storage::slab::Slab;

verus! {

/// A table from byte strings to slots.
pub type SlotTable = HashMap<Vec<u8>, usize, FxBuildHasher>;

/// What a table holds.
pub uninterp spec fn table_of(m: HashMap<Vec<u8>, usize, FxBuildHasher>) -> Map<Seq<u8>, usize>;

/// Whether a sequence lists the elements of a set, each once.
pub open spec fn lists<A>(s: Seq<A>, d: Set<A>) -> bool {
    &&& s.no_duplicates()
    &&& forall|x: A| #[trigger] s.contains(x) <==> d.contains(x)
}

/// `HashMap::with_hasher`: an empty table.
#[verifier::external_body]
fn table_new() -> (r: SlotTable)
    ensures
        (table_of(r) == Map::<Seq<u8>, usize>::empty()),
{
    HashMap::with_hasher(FxBuildHasher)
}

/// `HashMap::get`: the slot under a key.
#[verifier::external_body]
fn table_get(m: &SlotTable, key: &[u8]) -> (r: Option<usize>)
    ensures
        r == (if table_of(*m).contains_key(key@) {
            Some(table_of(*m)[key@])
        } else {
            None
        }),
{
    m.get(key).copied()
}

/// `HashMap::insert`: sets the slot under a key.
#[verifier::external_body]
fn table_insert(m: &mut SlotTable, key: Vec<u8>, slot: usize)
    ensures
        table_of(*final(m)) == table_of(*old(m)).insert(key@, slot),
{
    m.insert(key, slot);
}

/// `HashMap::remove`: takes a key out and returns its slot.
#[verifier::external_body]
fn table_remove(m: &mut SlotTable, key: &[u8]) -> (r: Option<usize>)
    ensures
        r == (if table_of(*old(m)).contains_key(key@) {
            Some(table_of(*old(m))[key@])
        } else {
            None
        }),
        table_of(*final(m)) == table_of(*old(m)).remove(key@),
{
    m.remove(key)
}

/// `HashMap::len`: the number of keys.
#[verifier::external_body]
fn table_len(m: &SlotTable) -> (r: usize)
    ensures
        r == table_of(*m).len(),
{
    m.len()
}

/// `HashMap::keys`: every key once, in an order that is left open.
#[verifier::external_body]
fn table_keys(m: &SlotTable) -> (r: Vec<Vec<u8>>)
    ensures
        lists(r@.map_values(|k: Vec<u8>| k@), table_of(*m).dom()),
{
    m.keys().cloned().collect()
}

/// `HashMap::clear`: takes every key out.
#[verifier::external_body]
fn table_clear(m: &mut SlotTable)
    ensures
        (table_of(*final(m)) == Map::<Seq<u8>, usize>::empty()),
{
    m.clear()
}

/// A type whose values can be keys of a map.
pub trait MapKey: Sized {
    /// What a key stands for in contracts.
    type M;

    /// What this key stands for.
    spec fn model(self) -> Self::M;

    /// The bytes under which a key is filed.
    spec fn filed_as(m: Self::M) -> Seq<u8>;

    /// Different keys are filed under different bytes.
    proof fn told_apart(a: Self::M, b: Self::M)
        requires
            Self::filed_as(a) == Self::filed_as(b),
        ensures
            a == b,
    ;

    /// The bytes under which this key is filed.
    fn key_bytes(&self) -> (r: Vec<u8>)
        ensures
            r@ == Self::filed_as(self.model()),
    ;

    /// Another copy of this key.
    fn duplicate(&self) -> (r: Self)
        ensures
            r.model() == self.model(),
    ;
}

/// The models of keys.
pub open spec fn models<K: MapKey>(s: Seq<K>) -> Seq<K::M> {
    Seq::new(s.len(), |i: int| s[i].model())
}

/// A hash map.
pub struct FxMap<K, V> {
    slots: SlotTable,
    cells: Slab<(K, V)>,
}

impl<K: MapKey, V> View for FxMap<K, V> {
    type V = Map<K::M, V>;

    closed spec fn view(&self) -> Map<K::M, V> {
        Map::new(
            |m: K::M| table_of(self.slots).contains_key(K::filed_as(m)),
            |m: K::M| self.cells@[table_of(self.slots)[K::filed_as(m)]].1,
        )
    }
}

impl<K: MapKey, V> FxMap<K, V> {
    /// Each key of the table has a slot of its own, in which the key itself stands.
    pub closed spec fn wf(self) -> bool {
        let t = table_of(self.slots);
        &&& self.cells.wf()
        &&& t.dom().finite()
        &&& forall|b: Seq<u8>| #[trigger]
            t.contains_key(b) ==> self.cells@.contains_key(t[b]) && K::filed_as(
                self.cells@[t[b]].0.model(),
            ) == b
        &&& forall|a: Seq<u8>, b: Seq<u8>|
            #![trigger t.contains_key(a), t.contains_key(b)]
            t.contains_key(a) && t.contains_key(b) && a != b ==> t[a] != t[b]
    }

    /// There are as many keys as the table has, finitely many.
    proof fn lemma_size(self)
        requires
            self.wf(),
        ensures
            self@.dom().finite(),
            self@.len() == table_of(self.slots).len(),
    {
        let t = table_of(self.slots);
        let f = |b: Seq<u8>| self.cells@[t[b]].0.model();
        assert forall|a: Seq<u8>, b: Seq<u8>| #[trigger]
            t.dom().contains(a) && #[trigger] t.dom().contains(b) && f(a) == f(b) implies a
            == b by {
            assert(t.contains_key(a) && t.contains_key(b));
        }
        assert(vstd::relations::injective_on(f, t.dom()));
        assert(t.dom().map(f) =~= self@.dom()) by {
            assert forall|m: K::M| self@.dom().contains(m) implies t.dom().map(f).contains(m) by {
                let b = K::filed_as(m);
                assert(t.contains_key(b));
                K::told_apart(f(b), m);
            }
            assert forall|m: K::M| t.dom().map(f).contains(m) implies self@.dom().contains(m) by {
                let b = choose|b: Seq<u8>| t.dom().contains(b) && m == f(b);
                assert(t.contains_key(b));
                assert(K::filed_as(m) == b);
            }
        }
        lemma_map_size(t.dom(), self@.dom(), f);
    }

    /// There are finitely many keys.
    pub proof fn lemma_finite(self)
        requires
            self.wf(),
        ensures
            self@.dom().finite(),
    {
        self.lemma_size();
    }

    /// An empty map.
    pub fn new() -> (r: Self)
        ensures
            r.wf(),
            r@ == Map::<K::M, V>::empty(),
    {
        let r = FxMap { slots: table_new(), cells: Slab::new() };
        assert(r@ =~= Map::<K::M, V>::empty());
        r
    }

    /// The number of keys.
    pub fn len(&self) -> (r: usize)
        requires
            self.wf(),
        ensures
            self@.dom().finite(),
            r == self@.len(),
    {
        proof {
            self.lemma_size();
        }
        table_len(&self.slots)
    }

    /// Whether there is no key.
    pub fn is_empty(&self) -> (r: bool)
        requires
            self.wf(),
        ensures
            r == (self@ == Map::<K::M, V>::empty()),
    {
        let n: usize = self.len();
        proof {
            if n == 0 {
                assert(self@.dom() =~= Set::empty());
                assert(self@ =~= Map::<K::M, V>::empty());
            }
        }
        n == 0
    }

    /// The value of a key.
    pub fn get(&self, key: &K) -> (r: Option<&V>)
        requires
            self.wf(),
        ensures
            r is Some <==> self@.contains_key(key.model()),
            r matches Some(v) ==> *v == self@[key.model()],
    {
        match table_get(&self.slots, key.key_bytes().as_slice()) {
            Some(slot) => Some(&self.cells.get(slot).1),
            None => None,
        }
    }

    /// Whether a key has a value.
    pub fn contains_key(&self, key: &K) -> (r: bool)
        requires
            self.wf(),
        ensures
            r == self@.contains_key(key.model()),
    {
        self.get(key).is_some()
    }

    /// Takes a key out and returns what it had.
    pub fn remove(&mut self, key: &K) -> (r: Option<V>)
        requires
            old(self).wf(),
        ensures
            final(self).wf(),
            final(self)@ == old(self)@.remove(key.model()),
            r is Some <==> old(self)@.contains_key(key.model()),
            r matches Some(v) ==> v == old(self)@[key.model()],
    {
        let ghost m = key.model();
        let ghost t = table_of(self.slots);
        let ghost before = self@;
        match table_remove(&mut self.slots, key.key_bytes().as_slice()) {
            Some(slot) => {
                let (_, v) = self.cells.take(slot);
                proof {
                    let b = K::filed_as(m);
                    let u = table_of(self.slots);
                    assert forall|a: Seq<u8>| #[trigger] u.contains_key(a) implies
                        self.cells@.contains_key(u[a]) && K::filed_as(
                        self.cells@[u[a]].0.model(),
                    ) == a by {
                        assert(t.contains_key(a) && t.contains_key(b));
                    }
                    assert forall|a: Seq<u8>, c: Seq<u8>|
                        #![trigger u.contains_key(a), u.contains_key(c)]
                        u.contains_key(a) && u.contains_key(c) && a != c implies u[a] != u[c] by {
                        assert(t.contains_key(a) && t.contains_key(c));
                    }
                    assert forall|x: K::M| self@.contains_key(x) <==> before.remove(
                        m,
                    ).contains_key(x) by {
                        if K::filed_as(x) == b {
                            K::told_apart(x, m);
                        }
                    }
                    assert(self@ =~= before.remove(m));
                }
                Some(v)
            },
            None => {
                proof {
                    assert(table_of(self.slots) =~= t);
                    assert(self@ =~= before.remove(m));
                }
                None
            },
        }
    }

    /// Gives a key a value and returns what it had.
    pub fn insert(&mut self, key: K, value: V) -> (r: Option<V>)
        requires
            old(self).wf(),
        ensures
            final(self).wf(),
            final(self)@ == old(self)@.insert(key.model(), value),
            r is Some <==> old(self)@.contains_key(key.model()),
            r matches Some(v) ==> v == old(self)@[key.model()],
    {
        let ghost m = key.model();
        let ghost all = self@;
        let was = self.remove(&key);
        let bytes = key.key_bytes();
        let ghost t = table_of(self.slots);
        let ghost before = self@;
        let ghost cells = self.cells@;
        let slot: usize = self.cells.add_value((key, value));
        table_insert(&mut self.slots, bytes, slot);
        proof {
            let b = K::filed_as(m);
            let u = table_of(self.slots);
            assert forall|a: Seq<u8>| #[trigger] u.contains_key(a) implies
                self.cells@.contains_key(u[a]) && K::filed_as(self.cells@[u[a]].0.model()) == a by {
                if a != b {
                    assert(t.contains_key(a));
                }
            }
            assert forall|a: Seq<u8>, c: Seq<u8>|
                #![trigger u.contains_key(a), u.contains_key(c)]
                u.contains_key(a) && u.contains_key(c) && a != c implies u[a] != u[c] by {
                if a != b {
                    assert(t.contains_key(a));
                }
                if c != b {
                    assert(t.contains_key(c));
                }
            }
            assert forall|x: K::M| x != m implies K::filed_as(x) != b by {
                if K::filed_as(x) == b {
                    K::told_apart(x, m);
                }
            }
            let want = all.insert(m, value);
            assert forall|x: K::M| #[trigger] self@.dom().contains(x) <==> want.dom().contains(x) by {
                if x != m {
                    let c = K::filed_as(x);
                    assert(u.contains_key(c) == t.contains_key(c));
                    assert(before.contains_key(x) == t.contains_key(c));
                }
            }
            assert(self@.dom() =~= want.dom());
            assert forall|x: K::M| #[trigger] self@.dom().contains(x) implies self@[x] == want[x] by {
                if x != m {
                    let c = K::filed_as(x);
                    assert(t.contains_key(c));
                    assert(cells.contains_key(t[c]));
                    assert(before[x] == all[x]);
                    assert(self.cells@[u[c]] == cells[t[c]]);
                }
            }
            assert(self@ =~= want);
        }
        was
    }

    /// Replaces the value of a key by what `f` makes of it. Says whether the key had one.
    pub fn update<F: FnOnce(V) -> V>(&mut self, key: &K, f: F) -> (r: bool)
        requires
            old(self).wf(),
            old(self)@.contains_key(key.model()) ==> call_requires(
                f,
                (old(self)@[key.model()],),
            ),
        ensures
            final(self).wf(),
            r == old(self)@.contains_key(key.model()),
            r ==> final(self)@.contains_key(key.model()) && call_ensures(
                f,
                (old(self)@[key.model()],),
                final(self)@[key.model()],
            ) && final(self)@ == old(self)@.insert(key.model(), final(self)@[key.model()]),
            !r ==> final(self)@ == old(self)@,
    {
        let ghost all = self@;
        match self.remove(key) {
            Some(v) => {
                let w = f(v);
                let _ = self.insert(key.duplicate(), w);
                proof {
                    assert(self@ =~= all.insert(key.model(), self@[key.model()]));
                }
                true
            },
            None => {
                proof {
                    assert(self@ =~= all);
                }
                false
            },
        }
    }

    /// Every key once, in an order that is left open.
    pub fn keys(&self) -> (r: Vec<K>)
        requires
            self.wf(),
        ensures
            lists(models(r@), self@.dom()),
            r@.len() == self@.len(),
            self@.dom().finite(),
    {
        let list = table_keys(&self.slots);
        let ghost raw = list@.map_values(|k: Vec<u8>| k@);
        let ghost t = table_of(self.slots);
        let mut out: Vec<K> = Vec::new();
        let mut i: usize = 0;
        while i < list.len()
            invariant
                self.wf(),
                t == table_of(self.slots),
                raw == list@.map_values(|k: Vec<u8>| k@),
                lists(raw, t.dom()),
                0 <= i <= list@.len(),
                out@.len() == i,
                forall|j: int| 0 <= j < i ==> K::filed_as((#[trigger] out@[j]).model()) == raw[j],
            decreases list@.len() - i,
        {
            proof {
                assert(raw.contains(raw[i as int]));
                assert(t.contains_key(list@[i as int]@));
            }
            match table_get(&self.slots, list[i].as_slice()) {
                Some(slot) => {
                    out.push(self.cells.get(slot).0.duplicate());
                },
                None => {},
            }
            i = i + 1;
        }
        proof {
            let ms = models(out@);
            assert forall|a: int, b: int|
                0 <= a < ms.len() && 0 <= b < ms.len() && a != b implies ms[a] != ms[b] by {
                assert(K::filed_as(out@[a].model()) == raw[a]);
                assert(K::filed_as(out@[b].model()) == raw[b]);
            }
            assert forall|m: K::M| #[trigger] ms.contains(m) <==> self@.dom().contains(m) by {
                if ms.contains(m) {
                    let j = choose|j: int| 0 <= j < ms.len() && ms[j] == m;
                    assert(K::filed_as(out@[j].model()) == raw[j]);
                    assert(raw.contains(raw[j]));
                }
                if self@.dom().contains(m) {
                    assert(raw.contains(K::filed_as(m)));
                    let j = choose|j: int| 0 <= j < raw.len() && raw[j] == K::filed_as(m);
                    assert(K::filed_as(out@[j].model()) == raw[j]);
                    K::told_apart(out@[j].model(), m);
                    assert(ms[j] == m);
                }
            }
            self.lemma_size();
            lemma_lists_len(ms, self@.dom());
        }
        out
    }

    /// Takes every key out.
    pub fn clear(&mut self)
        ensures
            final(self).wf(),
            final(self)@ == Map::<K::M, V>::empty(),
    {
        table_clear(&mut self.slots);
        self.cells = Slab::new();
        assert(self@ =~= Map::<K::M, V>::empty());
    }
}

/// A list of a set's elements has as many as the set.
pub proof fn lemma_lists_len<A>(s: Seq<A>, d: Set<A>)
    requires
        lists(s, d),
    ensures
        d.finite(),
        d.len() == s.len(),
{
    assert(s.to_set() =~= d) by {
        assert forall|x: A| s.to_set().contains(x) <==> d.contains(x) by {
            assert(s.contains(x) <==> d.contains(x));
        }
    }
    s.unique_seq_to_set();
}

/// A hash set.
pub struct FxSet<K> {
    map: FxMap<K, ()>,
}

impl<K: MapKey> View for FxSet<K> {
    type V = Set<K::M>;

    closed spec fn view(&self) -> Set<K::M> {
        self.map@.dom()
    }
}

impl<K: MapKey> FxSet<K> {
    pub closed spec fn wf(self) -> bool {
        self.map.wf()
    }

    /// An empty set.
    pub fn new() -> (r: Self)
        ensures
            r.wf(),
            r@ == Set::<K::M>::empty(),
    {
        let r = FxSet { map: FxMap::new() };
        assert(r@ =~= Set::<K::M>::empty());
        r
    }

    /// The number of elements.
    pub fn len(&self) -> (r: usize)
        requires
            self.wf(),
        ensures
            self@.finite(),
            r == self@.len(),
    {
        self.map.len()
    }

    /// Whether there is no element.
    pub fn is_empty(&self) -> (r: bool)
        requires
            self.wf(),
        ensures
            r == (self@ == Set::<K::M>::empty()),
    {
        let r = self.map.is_empty();
        proof {
            if self@ == Set::<K::M>::empty() {
                assert(self.map@ =~= Map::<K::M, ()>::empty());
            }
        }
        r
    }

    /// Whether a value is an element.
    pub fn contains(&self, key: &K) -> (r: bool)
        requires
            self.wf(),
        ensures
            r == self@.contains(key.model()),
    {
        self.map.contains_key(key)
    }

    /// Puts an element in. Says whether it is new.
    pub fn insert(&mut self, key: K) -> (r: bool)
        requires
            old(self).wf(),
        ensures
            final(self).wf(),
            final(self)@ == old(self)@.insert(key.model()),
            r == !old(self)@.contains(key.model()),
    {
        let ghost before = self@;
        let ghost m = key.model();
        let was = self.map.insert(key, ());
        proof {
            assert(self@ =~= before.insert(m));
        }
        was.is_none()
    }

    /// Takes an element out. Says whether it was there.
    pub fn remove(&mut self, key: &K) -> (r: bool)
        requires
            old(self).wf(),
        ensures
            final(self).wf(),
            final(self)@ == old(self)@.remove(key.model()),
            r == old(self)@.contains(key.model()),
    {
        let ghost before = self@;
        let was = self.map.remove(key);
        proof {
            assert(self@ =~= before.remove(key.model()));
        }
        was.is_some()
    }

    /// Every element once, in an order that is left open.
    pub fn elements(&self) -> (r: Vec<K>)
        requires
            self.wf(),
        ensures
            lists(models(r@), self@),
            r@.len() == self@.len(),
            self@.finite(),
    {
        self.map.keys()
    }

    /// Takes every element out.
    pub fn clear(&mut self)
        ensures
            final(self).wf(),
            final(self)@ == Set::<K::M>::empty(),
    {
        self.map.clear();
        assert(self@ =~= Set::<K::M>::empty());
    }

    /// Takes several elements out.
    pub fn remove_each(&mut self, keys: &[K])
        requires
            old(self).wf(),
        ensures
            final(self).wf(),
            final(self)@ == old(self)@.difference(models(keys@).to_set()),
    {
        let ghost before = self@;
        let ghost ms = models(keys@);
        let mut i: usize = 0;
        proof {
            assert(ms.take(0).to_set() =~= Set::empty());
            assert(before.difference(ms.take(0).to_set()) =~= before);
        }
        while i < keys.len()
            invariant
                self.wf(),
                0 <= i <= keys@.len(),
                ms == models(keys@),
                self@ == before.difference(ms.take(i as int).to_set()),
            decreases keys@.len() - i,
        {
            let _ = self.remove(&keys[i]);
            proof {
                let a = ms.take(i as int);
                let b = ms.take(i + 1);
                assert(b == a.push(ms[i as int]));
                assert forall|x: K::M| b.to_set().contains(x) <==> (a.to_set().contains(x) || x
                    == ms[i as int]) by {
                    if a.contains(x) {
                        let j = choose|j: int| 0 <= j < a.len() && a[j] == x;
                        assert(b[j] == x);
                    }
                    if b.contains(x) {
                        let j = choose|j: int| 0 <= j < b.len() && b[j] == x;
                        if j < i {
                            assert(a[j] == x);
                        }
                    }
                    assert(b[i as int] == ms[i as int]);
                }
                assert(before.difference(b.to_set()) =~= before.difference(a.to_set()).remove(
                    ms[i as int],
                ));
            }
            i = i + 1;
        }
        proof {
            assert(ms.take(i as int) =~= ms);
        }
    }
}

} // verus!
