//! Slots for values: a value keeps its slot until it is taken out, and the slot is
//! then used again.

use vstd::prelude::*;
use vstd::set_lib::*;

verus! {

/// Values in numbered slots.
pub struct Slab<V> {
    slots: Vec<Option<V>>,
    free: Vec<usize>,
}

impl<V> View for Slab<V> {
    type V = Map<usize, V>;

    closed spec fn view(&self) -> Map<usize, V> {
        Map::new(
            |i: usize| i < self.slots@.len() && self.slots@[i as int] is Some,
            |i: usize| self.slots@[i as int]->0,
        )
    }
}

impl<V> Slab<V> {
    /// The list of free slots names empty slots, each once.
    pub closed spec fn wf(self) -> bool {
        &&& self.free@.no_duplicates()
        &&& forall|i: int|
            0 <= i < self.free@.len() ==> (#[trigger] self.free@[i]) < self.slots@.len()
                && self.slots@[self.free@[i] as int] is None
    }

    /// How many slots there are, in use or not.
    pub closed spec fn room(self) -> usize {
        self.slots.len()
    }

    /// Different slots that are in use are no more than there are slots.
    pub proof fn lemma_slots_fit(self, used: Seq<usize>)
        requires
            used.no_duplicates(),
            forall|i: int| 0 <= i < used.len() ==> self@.dom().contains(#[trigger] used[i]),
        ensures
            used.len() <= self.room(),
    {
        let n = self.room() as int;
        let numbers = used.map_values(|i: usize| i as int);
        assert forall|a: int, b: int|
            0 <= a < numbers.len() && 0 <= b < numbers.len() && a != b implies numbers[a]
            != numbers[b] by {
            assert(used[a] != used[b]);
        }
        numbers.unique_seq_to_set();
        lemma_int_range(0, n);
        assert forall|x: int| #[trigger] numbers.to_set().contains(x) implies set_int_range(
            0,
            n,
        ).contains(x) by {
            let i = choose|i: int| 0 <= i < numbers.len() && numbers[i] == x;
            assert(self@.dom().contains(used[i]));
        }
        lemma_len_subset(numbers.to_set(), set_int_range(0, n));
    }

    /// No values.
    pub fn new() -> (r: Self)
        ensures
            r.wf(),
            r@ == Map::<usize, V>::empty(),
    {
        let r = Slab { slots: Vec::new(), free: Vec::new() };
        assert(r@ =~= Map::<usize, V>::empty());
        r
    }

    /// Puts a value into a slot that is not in use.
    pub fn add_value(&mut self, v: V) -> (slot: usize)
        requires
            old(self).wf(),
        ensures
            final(self).wf(),
            !old(self)@.dom().contains(slot),
            final(self)@ == old(self)@.insert(slot, v),
    {
        match self.free.pop() {
            Some(i) => {
                assert(i == old(self).free@.last());
                assert(old(self).free@[old(self).free@.len() - 1] == i);
                self.slots[i] = Some(v);
                proof {
                    assert forall|k: int| 0 <= k < self.free@.len() implies (
                    #[trigger] self.free@[k]) < self.slots@.len()
                        && self.slots@[self.free@[k] as int] is None by {
                        assert(self.free@[k] == old(self).free@[k]);
                        assert(old(self).free@[k] != i);
                    }
                    assert(self@ =~= old(self)@.insert(i, v));
                }
                i
            },
            None => {
                let i: usize = self.slots.len();
                self.slots.push(Some(v));
                assert(self@ =~= old(self)@.insert(i, v));
                i
            },
        }
    }

    /// Takes the value out of a slot.
    pub fn take(&mut self, slot: usize) -> (v: V)
        requires
            old(self).wf(),
            old(self)@.dom().contains(slot),
        ensures
            final(self).wf(),
            v == old(self)@[slot],
            final(self)@ == old(self)@.remove(slot),
    {
        let mut cell: Option<V> = None;
        let ghost before = self.slots@;
        std::mem::swap(&mut self.slots[slot], &mut cell);
        self.free.push(slot);
        proof {
            assert(self.slots@ =~= before.update(slot as int, None));
            assert forall|k: int| 0 <= k < self.free@.len() implies (#[trigger] self.free@[k])
                < self.slots@.len() && self.slots@[self.free@[k] as int] is None by {
                if k < old(self).free@.len() {
                    assert(self.free@[k] == old(self).free@[k]);
                }
            }
            assert forall|a: int, b: int|
                0 <= a < self.free@.len() && 0 <= b < self.free@.len() && a
                    != b implies self.free@[a] != self.free@[b] by {
                if a < old(self).free@.len() {
                    assert(self.free@[a] == old(self).free@[a]);
                }
                if b < old(self).free@.len() {
                    assert(self.free@[b] == old(self).free@[b]);
                }
            }
            assert(self@ =~= old(self)@.remove(slot));
        }
        cell.unwrap()
    }

    /// The value in a slot.
    pub fn get(&self, slot: usize) -> (v: &V)
        requires
            self@.dom().contains(slot),
        ensures
            *v == self@[slot],
    {
        self.slots[slot].as_ref().unwrap()
    }
}

} // verus!
