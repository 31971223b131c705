//! Putting things in order.

use vstd::prelude::*;
use vstd::seq_lib::*;

use crate::bytes::{bytes_eq, bytes_lt, bytes_lt_irreflexive, bytes_lt_total, bytes_lt_transitive};

verus! {

/// A key by which things are ordered: the first number decides, the next where the first
/// ones are the same.
pub type SortKey = (u64, u128, u64);

/// Whether one key comes before another.
pub open spec fn key_lt(a: SortKey, b: SortKey) -> bool {
    ||| a.0 < b.0
    ||| a.0 == b.0 && a.1 < b.1
    ||| a.0 == b.0 && a.1 == b.1 && a.2 < b.2
}

/// The dictionary order on tuples of numbers.
pub open spec fn tuple_lt(a: (u64, u128, u64, usize), b: (u64, u128, u64, usize)) -> bool {
    ||| a.0 < b.0
    ||| a.0 == b.0 && a.1 < b.1
    ||| a.0 == b.0 && a.1 == b.1 && a.2 < b.2
    ||| a.0 == b.0 && a.1 == b.1 && a.2 == b.2 && a.3 < b.3
}

/// Whether a list of tuples never steps down.
pub open spec fn tuples_ascend(s: Seq<(u64, u128, u64, usize)>) -> bool {
    forall|i: int, j: int| 0 <= i < j < s.len() ==> !tuple_lt(#[trigger] s[j], #[trigger] s[i])
}

/// Whether a list of byte strings never steps down in dictionary order.
pub open spec fn strings_ascend(s: Seq<Seq<u8>>) -> bool {
    forall|i: int, j: int| 0 <= i < j < s.len() ==> !bytes_lt(#[trigger] s[j], #[trigger] s[i])
}

/// The byte strings of a list of vectors.
pub open spec fn texts(s: Seq<Vec<u8>>) -> Seq<Seq<u8>> {
    s.map_values(|k: Vec<u8>| k@)
}

/// `slice::sort` on tuples of numbers, whose order is the dictionary order: the same
/// tuples, ascending.
#[verifier::external_body]
fn sort_tuples(v: &mut Vec<(u64, u128, u64, usize)>)
    ensures
        tuples_ascend(final(v)@),
        final(v)@.to_multiset() == old(v)@.to_multiset(),
{
    v.sort()
}

/// `slice::sort` on byte strings, whose order is the dictionary order: the same strings,
/// ascending.
#[verifier::external_body]
fn sort_strings(v: &mut Vec<Vec<u8>>)
    ensures
        strings_ascend(texts(final(v)@)),
        texts(final(v)@).to_multiset() == texts(old(v)@).to_multiset(),
{
    v.sort()
}

/// Whether `order` names the positions of `keys`, each once, in ascending order of the
/// keys, those with the same key in the order in which they stand.
pub open spec fn orders(keys: Seq<SortKey>, order: Seq<usize>) -> bool {
    &&& order.len() == keys.len()
    &&& order.no_duplicates()
    &&& forall|i: int| 0 <= i < order.len() ==> (#[trigger] order[i]) < keys.len()
    &&& forall|i: int, j: int|
        0 <= i < j < order.len() ==> {
            let a = keys[(#[trigger] order[i]) as int];
            let b = keys[(#[trigger] order[j]) as int];
            key_lt(a, b) || (a == b && order[i] < order[j])
        }
}

/// The order in which a stable sort by the keys puts things.
pub fn stable_order(keys: &Vec<SortKey>) -> (r: Vec<usize>)
    ensures
        orders(keys@, r@),
{
    let mut v: Vec<(u64, u128, u64, usize)> = Vec::new();
    let mut i: usize = 0;
    while i < keys.len()
        invariant
            0 <= i <= keys@.len(),
            v@.len() == i,
            forall|k: int| 0 <= k < i ==> #[trigger] v@[k] == (keys@[k].0, keys@[k].1, keys@[k].2, k as usize),
        decreases keys@.len() - i,
    {
        v.push((keys[i].0, keys[i].1, keys[i].2, i));
        i = i + 1;
    }
    let ghost before = v@;
    proof {
        assert(keys@.len() == keys.len());
        assert(before.no_duplicates()) by {
            assert forall|a: int, b: int|
                0 <= a < before.len() && 0 <= b < before.len() && a != b implies before[a]
                != before[b] by {
                assert(before[a].3 == a as usize && before[b].3 == b as usize);
            }
        }
    }
    sort_tuples(&mut v);
    let ghost sorted = v@;
    proof {
        lemma_same_multiset(before, sorted);
    }
    let mut out: Vec<usize> = Vec::new();
    let mut j: usize = 0;
    while j < v.len()
        invariant
            0 <= j <= v@.len(),
            v@ == sorted,
            out@.len() == j,
            forall|k: int| 0 <= k < j ==> #[trigger] out@[k] == sorted[k].3,
        decreases v@.len() - j,
    {
        out.push(v[j].3);
        j = j + 1;
    }
    proof {
        assert forall|k: int| 0 <= k < sorted.len() implies (#[trigger] sorted[k]).3 < keys@.len()
            && (sorted[k].0, sorted[k].1, sorted[k].2) == keys@[sorted[k].3 as int] by {
            assert(sorted.contains(sorted[k]));
            assert(before.contains(sorted[k]));
            let p = choose|p: int| 0 <= p < before.len() && before[p] == sorted[k];
            assert(before[p] == (keys@[p].0, keys@[p].1, keys@[p].2, p as usize));
        }
        assert forall|a: int, b: int| 0 <= a < b < out@.len() implies {
            let x = keys@[(#[trigger] out@[a]) as int];
            let y = keys@[(#[trigger] out@[b]) as int];
            key_lt(x, y) || (x == y && out@[a] < out@[b])
        } by {
            assert(out@[a] == sorted[a].3 && out@[b] == sorted[b].3);
            assert(!tuple_lt(sorted[b], sorted[a]));
            assert(sorted[a] != sorted[b]);
        }
        assert forall|a: int, b: int|
            0 <= a < out@.len() && 0 <= b < out@.len() && a != b implies out@[a] != out@[b] by {
            assert(out@[a] == sorted[a].3 && out@[b] == sorted[b].3);
            assert(sorted[a] != sorted[b]);
        }
    }
    out
}

/// Lists of the same things hold the same.
pub proof fn lemma_same_multiset<A>(a: Seq<A>, b: Seq<A>)
    requires
        a.to_multiset() == b.to_multiset(),
    ensures
        a.len() == b.len(),
        forall|x: A| a.contains(x) <==> b.contains(x),
        a.no_duplicates() ==> b.no_duplicates(),
{
    broadcast use group_to_multiset_ensures;

    a.to_multiset_ensures();
    b.to_multiset_ensures();
    assert forall|x: A| a.contains(x) <==> b.contains(x) by {
        assert(a.contains(x) <==> a.to_multiset().count(x) > 0);
        assert(b.contains(x) <==> b.to_multiset().count(x) > 0);
    }
    if a.no_duplicates() {
        a.lemma_multiset_has_no_duplicates();
        b.lemma_multiset_has_no_duplicates_conv();
    }
}

/// Every position is named by an order.
pub proof fn lemma_order_covers(keys: Seq<SortKey>, order: Seq<usize>, p: int)
    requires
        orders(keys, order),
        0 <= p < keys.len(),
        keys.len() <= usize::MAX,
    ensures
        order.contains(p as usize),
{
    let all = Set::<usize>::new(|k: usize| k < keys.len());
    let named = order.to_set();
    order.unique_seq_to_set();
    lemma_below(keys.len());
    assert(named.subset_of(all)) by {
        assert forall|k: usize| named.contains(k) implies all.contains(k) by {
            let i = choose|i: int| 0 <= i < order.len() && order[i] == k;
            assert(order[i] < keys.len());
        }
    }
    vstd::set_lib::lemma_subset_equality(named, all);
    assert(all.contains(p as usize));
    assert(named.contains(p as usize));
}

proof fn lemma_below(n: nat)
    requires
        n <= usize::MAX,
    ensures
        Set::<usize>::new(|k: usize| k < n).finite(),
        Set::<usize>::new(|k: usize| k < n).len() == n,
    decreases n,
{
    let s = Set::<usize>::new(|k: usize| k < n);
    if n == 0 {
        assert(s =~= Set::empty());
    } else {
        lemma_below((n - 1) as nat);
        let t = Set::<usize>::new(|k: usize| k < n - 1);
        assert(s =~= t.insert((n - 1) as usize));
    }
}

/// Whether each byte string of a list comes before the next in dictionary order.
pub open spec fn strictly_ascend(s: Seq<Seq<u8>>) -> bool {
    forall|i: int, j: int| 0 <= i < j < s.len() ==> bytes_lt(#[trigger] s[i], #[trigger] s[j])
}

/// The byte strings of a list, each once, in dictionary order.
pub fn sort_dedup(v: Vec<Vec<u8>>) -> (r: Vec<Vec<u8>>)
    ensures
        strictly_ascend(texts(r@)),
        forall|x: Seq<u8>| #[trigger] texts(r@).contains(x) <==> texts(v@).contains(x),
{
    let ghost all = texts(v@);
    let mut v = v;
    sort_strings(&mut v);
    let ghost s = texts(v@);
    proof {
        lemma_same_multiset(all, s);
    }
    let mut out: Vec<Vec<u8>> = Vec::new();
    let mut i: usize = 0;
    while i < v.len()
        invariant
            0 <= i <= v@.len(),
            s == texts(v@),
            strings_ascend(s),
            strictly_ascend(texts(out@)),
            forall|x: Seq<u8>| #[trigger] texts(out@).contains(x) <==> s.take(i as int).contains(x),
            i > 0 ==> out@.len() > 0 && texts(out@).last() == s[i - 1],
            i == 0 ==> out@.len() == 0,
        decreases v@.len() - i,
    {
        let same = out.len() > 0 && bytes_eq(out[out.len() - 1].as_slice(), v[i].as_slice());
        let ghost o = texts(out@);
        let ghost k = s[i as int];
        proof {
            assert(s.take(i + 1) =~= s.take(i as int).push(k));
        }
        if !same {
            let key = crate::bytes::copy_bytes(v[i].as_slice());
            out.push(key);
            proof {
                let t = texts(out@);
                assert(t =~= o.push(k));
                assert forall|a: int, b: int| 0 <= a < b < t.len() implies bytes_lt(
                    #[trigger] t[a],
                    #[trigger] t[b],
                ) by {
                    if b < o.len() {
                        assert(t[a] == o[a] && t[b] == o[b]);
                    } else {
                        assert(t[a] == o[a]);
                        let last = o.last();
                        assert(!bytes_lt(s[i as int], s[i - 1]));
                        bytes_lt_total(last, k);
                        if a < o.len() - 1 {
                            assert(bytes_lt(o[a], o[o.len() - 1]));
                            bytes_lt_transitive(o[a], last, k);
                        }
                    }
                }
                assert forall|x: Seq<u8>| #[trigger] t.contains(x) <==> s.take(i + 1).contains(
                    x,
                ) by {
                    lemma_push_contains(o, k, x);
                    lemma_push_contains(s.take(i as int), k, x);
                    assert(o.contains(x) <==> s.take(i as int).contains(x));
                }
            }
        } else {
            proof {
                assert(o.last() == k);
                assert forall|x: Seq<u8>| #[trigger] o.contains(x) <==> s.take(i + 1).contains(
                    x,
                ) by {
                    lemma_push_contains(s.take(i as int), k, x);
                    assert(o[o.len() - 1] == k);
                    assert(o.contains(x) <==> s.take(i as int).contains(x));
                }
            }
        }
        i = i + 1;
    }
    proof {
        assert(s.take(i as int) =~= s);
        assert forall|x: Seq<u8>| #[trigger] texts(out@).contains(x) <==> all.contains(x) by {
            assert(texts(out@).contains(x) <==> s.contains(x));
        }
    }
    out
}

proof fn lemma_push_contains<A>(s: Seq<A>, a: A, x: A)
    ensures
        s.push(a).contains(x) <==> (s.contains(x) || x == a),
{
    let t = s.push(a);
    if t.contains(x) {
        let i = choose|i: int| 0 <= i < t.len() && t[i] == x;
        if i < s.len() {
            assert(s[i] == x);
        }
    }
    if s.contains(x) {
        let i = choose|i: int| 0 <= i < s.len() && s[i] == x;
        assert(t[i] == x);
    }
    assert(t[s.len() as int] == a);
}

/// A strictly ascending list holds nothing twice.
pub proof fn ascending_is_distinct(s: Seq<Seq<u8>>)
    requires
        strictly_ascend(s),
    ensures
        s.no_duplicates(),
{
    assert forall|i: int, j: int| 0 <= i < s.len() && 0 <= j < s.len() && i != j implies s[i]
        != s[j] by {
        if i < j {
            assert(bytes_lt(s[i], s[j]));
        } else {
            assert(bytes_lt(s[j], s[i]));
        }
        bytes_lt_irreflexive(s[i]);
    }
}

/// The order of byte strings with a number each: the string decides, the number where the
/// strings are the same.
pub open spec fn pair_lt(a: (Seq<u8>, i64), b: (Seq<u8>, i64)) -> bool {
    bytes_lt(a.0, b.0) || a.0 == b.0 && a.1 < b.1
}

/// The contents of byte strings with a number each.
pub open spec fn pairs(s: Seq<(Vec<u8>, i64)>) -> Seq<(Seq<u8>, i64)> {
    s.map_values(|p: (Vec<u8>, i64)| (p.0@, p.1))
}

/// Whether a list of pairs never steps down.
pub open spec fn pairs_ascend(s: Seq<(Seq<u8>, i64)>) -> bool {
    forall|i: int, j: int| 0 <= i < j < s.len() ==> !pair_lt(#[trigger] s[j], #[trigger] s[i])
}

/// Whether each pair of a list comes before the next.
pub open spec fn pairs_strictly_ascend(s: Seq<(Seq<u8>, i64)>) -> bool {
    forall|i: int, j: int| 0 <= i < j < s.len() ==> pair_lt(#[trigger] s[i], #[trigger] s[j])
}

/// `slice::sort` on pairs of a byte string and a number, whose order is the dictionary
/// order: the same pairs, ascending.
#[verifier::external_body]
fn sort_pairs(v: &mut Vec<(Vec<u8>, i64)>)
    ensures
        pairs_ascend(pairs(final(v)@)),
        pairs(final(v)@).to_multiset() == pairs(old(v)@).to_multiset(),
{
    v.sort()
}

/// Byte strings with a number each, every pair once, in order.
pub fn sort_dedup_pairs(v: Vec<(Vec<u8>, i64)>) -> (r: Vec<(Vec<u8>, i64)>)
    ensures
        pairs_strictly_ascend(pairs(r@)),
        forall|x: (Seq<u8>, i64)| #[trigger] pairs(r@).contains(x) <==> pairs(v@).contains(x),
{
    let ghost all = pairs(v@);
    let mut v = v;
    sort_pairs(&mut v);
    let ghost s = pairs(v@);
    proof {
        lemma_same_multiset(all, s);
    }
    let mut out: Vec<(Vec<u8>, i64)> = Vec::new();
    let mut i: usize = 0;
    while i < v.len()
        invariant
            0 <= i <= v@.len(),
            s == pairs(v@),
            pairs_ascend(s),
            pairs_strictly_ascend(pairs(out@)),
            forall|x: (Seq<u8>, i64)| #[trigger]
                pairs(out@).contains(x) <==> s.take(i as int).contains(x),
            i > 0 ==> out@.len() > 0 && pairs(out@).last() == s[i - 1],
            i == 0 ==> out@.len() == 0,
        decreases v@.len() - i,
    {
        let same = out.len() > 0 && out[out.len() - 1].1 == v[i].1 && bytes_eq(
            out[out.len() - 1].0.as_slice(),
            v[i].0.as_slice(),
        );
        let ghost o = pairs(out@);
        let ghost k = s[i as int];
        proof {
            assert(s.take(i + 1) =~= s.take(i as int).push(k));
        }
        if !same {
            out.push((crate::bytes::copy_bytes(v[i].0.as_slice()), v[i].1));
            proof {
                let t = pairs(out@);
                assert(t =~= o.push(k));
                if o.len() > 0 {
                    assert(!pair_lt(s[i as int], s[i - 1]));
                    assert(o.last() != k);
                    bytes_lt_total(o.last().0, k.0);
                }
                lemma_pairs_pushed(o, k);
                assert forall|x: (Seq<u8>, i64)| #[trigger] t.contains(x) <==> s.take(
                    i + 1,
                ).contains(x) by {
                    lemma_push_contains(o, k, x);
                    lemma_push_contains(s.take(i as int), k, x);
                    assert(o.contains(x) <==> s.take(i as int).contains(x));
                }
            }
        } else {
            proof {
                assert(o.last() == k);
                assert forall|x: (Seq<u8>, i64)| #[trigger] o.contains(x) <==> s.take(
                    i + 1,
                ).contains(x) by {
                    lemma_push_contains(s.take(i as int), k, x);
                    assert(o[o.len() - 1] == k);
                    assert(o.contains(x) <==> s.take(i as int).contains(x));
                }
            }
        }
        i = i + 1;
    }
    proof {
        assert(s.take(i as int) =~= s);
        assert forall|x: (Seq<u8>, i64)| #[trigger] pairs(out@).contains(x) <==> all.contains(
            x,
        ) by {
            assert(pairs(out@).contains(x) <==> s.contains(x));
        }
    }
    out
}

proof fn lemma_pairs_pushed(o: Seq<(Seq<u8>, i64)>, k: (Seq<u8>, i64))
    requires
        pairs_strictly_ascend(o),
        o.len() > 0 ==> pair_lt(o.last(), k),
    ensures
        pairs_strictly_ascend(o.push(k)),
{
    let t = o.push(k);
    assert forall|a: int, b: int| 0 <= a < b < t.len() implies pair_lt(
        #[trigger] t[a],
        #[trigger] t[b],
    ) by {
        if b < o.len() {
            assert(pair_lt(o[a], o[b]));
        } else if a < o.len() - 1 {
            assert(pair_lt(o[a], o[o.len() - 1]));
            if bytes_lt(o[a].0, o.last().0) && bytes_lt(o.last().0, k.0) {
                bytes_lt_transitive(o[a].0, o.last().0, k.0);
            }
        }
    }
}

} // verus!
