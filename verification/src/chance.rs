//! Chance.

use vstd::prelude::*;
use vstd::seq_lib::*;

verus! {

/// `rand::random`: any number.
#[verifier::external_body]
pub(crate) fn random_u64() -> (r: u64) {
    rand::random()
}

/// A list with two places exchanged.
pub open spec fn exchanged<T>(s: Seq<T>, i: int, j: int) -> Seq<T> {
    s.update(i, s[j]).update(j, s[i])
}

/// A list after so many steps of a shuffle: from the last place down, each place is exchanged
/// with one that is not behind it, which the number drawn for the step picks.
pub open spec fn shuffled<T>(s: Seq<T>, draws: Seq<u64>, steps: nat) -> Seq<T>
    decreases steps,
{
    if steps == 0 {
        s
    } else {
        let i = s.len() - steps;
        exchanged(
            shuffled(s, draws, (steps - 1) as nat),
            i,
            draws[steps - 1] as int % (i + 1),
        )
    }
}

/// How many steps it takes to shuffle so many: one for each place but the first.
pub open spec fn steps_for(n: nat) -> nat {
    if n == 0 {
        0
    } else {
        (n - 1) as nat
    }
}

proof fn lemma_exchanged<T>(s: Seq<T>, i: int, j: int)
    requires
        0 <= i < s.len(),
        0 <= j < s.len(),
    ensures
        exchanged(s, i, j).len() == s.len(),
        exchanged(s, i, j).to_multiset() == s.to_multiset(),
{
    let mid = s.update(i, s[j]);
    to_multiset_update(s, i, s[j]);
    to_multiset_update(mid, j, s[i]);
    to_multiset_contains(s, s[i]);
    to_multiset_contains(s, s[j]);
    assert(s.contains(s[i]));
    assert(s.contains(s[j]));
    assert(exchanged(s, i, j).to_multiset() =~= s.to_multiset());
}

/// A shuffled list holds what the list held, each as often.
pub proof fn shuffling_keeps_all<T>(s: Seq<T>, draws: Seq<u64>, steps: nat)
    requires
        steps <= steps_for(s.len()),
    ensures
        shuffled(s, draws, steps).len() == s.len(),
        shuffled(s, draws, steps).to_multiset() == s.to_multiset(),
    decreases steps,
{
    if steps > 0 {
        shuffling_keeps_all(s, draws, (steps - 1) as nat);
        let i = s.len() - steps;
        lemma_exchanged(
            shuffled(s, draws, (steps - 1) as nat),
            i,
            draws[steps - 1] as int % (i + 1),
        );
    }
}

/// Puts a list in the order that drawn numbers give, one for each place but the first.
pub fn shuffle_by<T: Copy>(v: &mut Vec<T>, draws: &Vec<u64>)
    requires
        draws@.len() >= steps_for(old(v)@.len()),
    ensures
        final(v)@ == shuffled(old(v)@, draws@, steps_for(old(v)@.len())),
        final(v)@.to_multiset() == old(v)@.to_multiset(),
{
    let n: usize = v.len();
    let ghost all = v@;
    let mut i: usize = n;
    while i > 1
        invariant
            i <= n,
            n == all.len(),
            n == v@.len(),
            n > 0 ==> i > 0,
            draws@.len() >= steps_for(n as nat),
            v@ == shuffled(all, draws@, (n - i) as nat),
        decreases i,
    {
        let step: usize = n - i;
        i = i - 1;
        let j: usize = (draws[step] % (i as u64 + 1)) as usize;
        let a = v[i];
        let b = v[j];
        let ghost before = v@;
        v[i] = b;
        v[j] = a;
        assert(v@ =~= exchanged(before, i as int, j as int));
    }
    proof {
        shuffling_keeps_all(all, draws@, steps_for(all.len()));
    }
}

/// Puts a list in the order that newly drawn numbers give. Every order is possible, so that
/// nothing is stated of it but what the list holds; what becomes of the numbers that are drawn
/// stands at `shuffle_by`.
pub fn shuffle<T: Copy>(v: &mut Vec<T>)
    ensures
        final(v)@.to_multiset() == old(v)@.to_multiset(),
{
    let n: usize = v.len();
    let mut draws: Vec<u64> = Vec::new();
    let mut i: usize = 1;
    while i < n
        invariant
            1 <= i,
            n > 0 ==> i <= n,
            n == 0 ==> i == 1,
            draws@.len() == i - 1,
        decreases n - i,
    {
        draws.push(random_u64());
        i = i + 1;
    }
    shuffle_by(v, &draws);
}

/// Each step moves the place that was drawn to the back of what is not settled yet, and leaves
/// alone what is.
pub proof fn the_drawn_go_to_the_back<T>(s: Seq<T>, draws: Seq<u64>, steps: nat, i: int)
    requires
        0 < steps <= steps_for(s.len()),
    ensures
        shuffled(s, draws, 0) == s,
        ({
            let (was, is) = (shuffled(s, draws, (steps - 1) as nat), shuffled(s, draws, steps));
            let back = s.len() - steps;
            &&& is[back] == was[draws[steps - 1] as int % (back + 1)]
            &&& back < i < s.len() ==> is[i] == was[i]
        }),
{
    shuffling_keeps_all(s, draws, (steps - 1) as nat);
    let back = s.len() - steps;
    let j = draws[steps - 1] as int % (back + 1);
    assert(0 <= j <= back);
}

} // verus!
