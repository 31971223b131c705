//! Lists of what a map holds, and the first few of them in some order.

use vstd::prelude::*;

use crate::sorting::{key_lt, lemma_order_covers, orders, stable_order, SortKey};
use crate::storage::fx_map::{lemma_lists_len, lists};
use crate::storage::recency::{lemma_distinct_filter, lemma_filter_keeps};

verus! {

/// One more entry is looked at: it comes along where the test holds of it.
pub proof fn lemma_filter_step<T>(s: Seq<T>, p: spec_fn(T) -> bool, i: int)
    requires
        0 <= i < s.len(),
    ensures
        s.take(i + 1).filter(p) == if p(s[i]) {
            s.take(i).filter(p).push(s[i])
        } else {
            s.take(i).filter(p)
        },
{
    reveal_with_fuel(Seq::filter, 2);
    assert(s.take(i + 1).drop_last() =~= s.take(i));
    assert(s.take(i + 1).last() == s[i]);
}

/// Two tests that agree on a sequence leave the same of it.
pub proof fn lemma_filter_agree<A>(s: Seq<A>, p: spec_fn(A) -> bool, q: spec_fn(A) -> bool)
    requires
        forall|i: int| 0 <= i < s.len() ==> p(#[trigger] s[i]) == q(s[i]),
    ensures
        s.filter(p) == s.filter(q),
    decreases s.len(),
{
    reveal(Seq::filter);
    if s.len() > 0 {
        let t = s.drop_last();
        assert forall|i: int| 0 <= i < t.len() implies p(#[trigger] t[i]) == q(t[i]) by {
            assert(t[i] == s[i]);
        }
        lemma_filter_agree(t, p, q);
        assert(s[s.len() - 1] == s.last());
    }
}

/// Filtering twice is filtering by both tests.
pub proof fn lemma_filter_twice<A>(
    s: Seq<A>,
    p: spec_fn(A) -> bool,
    q: spec_fn(A) -> bool,
    both: spec_fn(A) -> bool,
)
    requires
        forall|x: A| #[trigger] both(x) == (p(x) && q(x)),
    ensures
        s.filter(p).filter(q) == s.filter(both),
    decreases s.len(),
{
    reveal(Seq::filter);
    if s.len() > 0 {
        let t = s.drop_last();
        lemma_filter_twice(t, p, q, both);
        assert(both(s.last()) == (p(s.last()) && q(s.last())));
        if p(s.last()) {
            assert(s.filter(p) == t.filter(p).push(s.last()));
            assert(s.filter(p).drop_last() =~= t.filter(p));
        }
    }
}

/// Filtering a list of a set's elements lists the elements that pass.
pub proof fn lemma_lists_filter<A>(s: Seq<A>, d: Set<A>, p: spec_fn(A) -> bool)
    requires
        lists(s, d),
    ensures
        lists(s.filter(p), d.filter(p)),
{
    let same = |a: A| a;
    assert forall|i: int, j: int| 0 <= i < j < s.len() implies same(#[trigger] s[i]) != same(
        #[trigger] s[j],
    ) by {}
    lemma_distinct_filter(s, same, p);
    let f = s.filter(p);
    assert forall|i: int, j: int| 0 <= i < f.len() && 0 <= j < f.len() && i != j implies f[i]
        != f[j] by {
        if i < j {
            assert(same(f[i]) != same(f[j]));
        } else {
            assert(same(f[j]) != same(f[i]));
        }
    }
    assert forall|x: A| #[trigger] f.contains(x) <==> d.filter(p).contains(x) by {
        if f.contains(x) {
            let i = choose|i: int| 0 <= i < f.len() && f[i] == x;
            assert(p(f[i]) && s.contains(f[i]));
        }
        if d.filter(p).contains(x) {
            assert(s.contains(x));
            let k = choose|k: int| 0 <= k < s.len() && s[k] == x;
            lemma_filter_keeps(s, p, k);
        }
    }
}

/// A longer list holds one more.
pub proof fn lemma_pushed<A>(s: Seq<A>, a: A)
    ensures
        forall|x: A| #[trigger] s.push(a).contains(x) <==> s.contains(x) || x == a,
{
    assert forall|x: A| #[trigger] s.push(a).contains(x) <==> s.contains(x) || x == a by {
        let t = s.push(a);
        assert(t[s.len() as int] == a);
        if s.contains(x) {
            let i = choose|i: int| 0 <= i < s.len() && s[i] == x;
            assert(t[i] == x);
        }
        if t.contains(x) && x != a {
            let i = choose|i: int| 0 <= i < t.len() && t[i] == x;
            assert(s[i] == x);
        }
    }
}

pub proof fn lemma_push_member<A>(s: Seq<A>, a: A, x: A)
    ensures
        s.push(a).to_set().contains(x) <==> (s.to_set().contains(x) || x == a),
{
    let t = s.push(a);
    if t.contains(x) {
        let i = choose|i: int| 0 <= i < t.len() && t[i] == x;
        if i < s.len() {
            assert(s[i] == x);
        }
    }
    if s.contains(x) {
        let i = choose|i: int| 0 <= i < s.len() && s[i] == x;
        assert(t[i] == x);
    }
    assert(t[s.len() as int] == a);
}

/// Lists of two sets that have nothing in common make a list of both.
pub proof fn lemma_lists_join<A>(a: Seq<A>, b: Seq<A>, c: Set<A>, d: Set<A>)
    requires
        lists(a, c),
        lists(b, d),
        c.disjoint(d),
    ensures
        lists(a + b, c.union(d)),
{
    let s = a + b;
    assert forall|i: int, j: int| 0 <= i < s.len() && 0 <= j < s.len() && i != j implies s[i]
        != s[j] by {
        if i < a.len() {
            assert(a.contains(s[i]));
        } else {
            assert(b.contains(s[i]));
        }
        if j < a.len() {
            assert(a.contains(s[j]));
        } else {
            assert(b.contains(s[j]));
        }
    }
    assert forall|x: A| #[trigger] s.contains(x) <==> c.union(d).contains(x) by {
        if s.contains(x) {
            let i = choose|i: int| 0 <= i < s.len() && s[i] == x;
            if i < a.len() {
                assert(a.contains(x));
            } else {
                assert(b.contains(x));
            }
        }
        if a.contains(x) {
            let i = choose|i: int| 0 <= i < a.len() && a[i] == x;
            assert(s[i] == x);
        }
        if b.contains(x) {
            let i = choose|i: int| 0 <= i < b.len() && b[i] == x;
            assert(s[a.len() + i] == x);
        }
    }
}

/// Whether a sequence lists the values of a map, each once. `key` finds the key of a value.
pub open spec fn lists_values<A, T>(m: Map<A, T>, key: spec_fn(T) -> A, s: Seq<T>) -> bool {
    &&& lists(s.map_values(key), m.dom())
    &&& forall|i: int| 0 <= i < s.len() ==> m[key(#[trigger] s[i])] == s[i]
}

/// The keys whose values pass a test.
pub open spec fn keys_that<A, T>(m: Map<A, T>, p: spec_fn(T) -> bool) -> Set<A> {
    Set::new(|a: A| m.dom().contains(a) && p(m[a]))
}

/// The values of a list that pass a test are those of the keys that do.
pub proof fn lemma_listed_that<A, T>(
    m: Map<A, T>,
    key: spec_fn(T) -> A,
    s: Seq<T>,
    p: spec_fn(T) -> bool,
)
    requires
        lists_values(m, key, s),
    ensures
        lists(s.filter(p).map_values(key), keys_that(m, p)),
        keys_that(m, p).finite(),
        keys_that(m, p).len() == s.filter(p).len(),
        forall|i: int|
            0 <= i < s.filter(p).len() ==> m[key(#[trigger] s.filter(p)[i])] == s.filter(p)[i],
{
    let a = s.map_values(key);
    let f = s.filter(p);
    let b = f.map_values(key);
    assert forall|i: int, j: int| 0 <= i < j < s.len() implies key(#[trigger] s[i]) != key(
        #[trigger] s[j],
    ) by {
        assert(a[i] == key(s[i]) && a[j] == key(s[j]));
    }
    lemma_distinct_filter(s, key, p);
    assert forall|i: int, j: int| 0 <= i < b.len() && 0 <= j < b.len() && i != j implies b[i]
        != b[j] by {
        assert(b[i] == key(f[i]) && b[j] == key(f[j]));
        if i < j {
            assert(key(f[i]) != key(f[j]));
        } else {
            assert(key(f[j]) != key(f[i]));
        }
    }
    assert forall|i: int| 0 <= i < f.len() implies m[key(#[trigger] f[i])] == f[i] by {
        assert(s.contains(f[i]));
        let k = choose|k: int| 0 <= k < s.len() && s[k] == f[i];
        assert(m[key(s[k])] == s[k]);
    }
    assert forall|x: A| #[trigger] b.contains(x) <==> keys_that(m, p).contains(x) by {
        if b.contains(x) {
            let i = choose|i: int| 0 <= i < b.len() && b[i] == x;
            assert(key(f[i]) == x);
            assert(p(f[i]) && s.contains(f[i]));
            let k = choose|k: int| 0 <= k < s.len() && s[k] == f[i];
            assert(a[k] == x);
            assert(a.contains(x));
            assert(m[key(s[k])] == s[k]);
        }
        if keys_that(m, p).contains(x) {
            assert(a.contains(x));
            let k = choose|k: int| 0 <= k < a.len() && a[k] == x;
            assert(m[key(s[k])] == s[k]);
            lemma_filter_keeps(s, p, k);
            let i = choose|i: int| 0 <= i < f.len() && f[i] == s[k];
            assert(b[i] == x);
        }
    }
    lemma_lists_len(b, keys_that(m, p));
}

/// Whether `n` values of a map, or all, were picked so that no other one comes before one of
/// them, and they stand in that order.
pub open spec fn picks<A, T>(
    m: Map<A, T>,
    key: spec_fn(T) -> A,
    r: Seq<T>,
    n: nat,
    before: spec_fn(T, T) -> bool,
) -> bool {
    &&& r.len() == (if n <= m.len() {
        n
    } else {
        m.len()
    })
    &&& r.map_values(key).no_duplicates()
    &&& forall|i: int|
        0 <= i < r.len() ==> m.contains_key(key(#[trigger] r[i])) && m[key(r[i])] == r[i]
    &&& forall|i: int, j: int|
        0 <= i < j < r.len() ==> !before(#[trigger] r[j], #[trigger] r[i])
    &&& forall|a: A, i: int|
        #![trigger m[a], r[i]]
        m.contains_key(a) && !r.map_values(key).contains(a) && 0 <= i < r.len() ==> !before(
            m[a],
            r[i],
        )
}

/// The first `n` entries, or all, in ascending order of the keys.
pub fn pick<T: Copy>(entries: &Vec<T>, keys: &Vec<SortKey>, n: usize) -> (r: (Vec<T>, Ghost<
    Seq<usize>,
>))
    requires
        entries@.len() == keys@.len(),
    ensures
        orders(keys@, r.1@),
        r.0@ == Seq::new(
            (if n <= keys@.len() {
                n as nat
            } else {
                keys@.len()
            }),
            |i: int| entries@[r.1@[i] as int],
        ),
{
    let order = stable_order(keys);
    let count: usize = if n <= order.len() {
        n
    } else {
        order.len()
    };
    let mut out: Vec<T> = Vec::new();
    let mut i: usize = 0;
    while i < count
        invariant
            0 <= i <= count <= order@.len(),
            entries@.len() == keys@.len(),
            orders(keys@, order@),
            out@.len() == i,
            forall|k: int| 0 <= k < i ==> #[trigger] out@[k] == entries@[order@[k] as int],
        decreases count - i,
    {
        out.push(entries[order[i]]);
        i = i + 1;
    }
    proof {
        assert(out@ =~= Seq::new(count as nat, |i: int| entries@[order@[i] as int]));
    }
    (out, Ghost(order@))
}

/// The first few of a list of a map's values, by keys that order as `before` does, are
/// picked as they should be.
pub proof fn lemma_picked<A, T>(
    m: Map<A, T>,
    key: spec_fn(T) -> A,
    entries: Seq<T>,
    keys: Seq<SortKey>,
    order: Seq<usize>,
    n: nat,
    r: Seq<T>,
    before: spec_fn(T, T) -> bool,
)
    requires
        lists_values(m, key, entries),
        entries.len() == keys.len(),
        keys.len() <= usize::MAX,
        orders(keys, order),
        r.len() == (if n <= keys.len() {
            n
        } else {
            keys.len()
        }),
        forall|i: int| 0 <= i < r.len() ==> #[trigger] r[i] == entries[order[i] as int],
        forall|i: int, j: int|
            0 <= i < entries.len() && 0 <= j < entries.len() ==> (before(
                #[trigger] entries[i],
                #[trigger] entries[j],
            ) <==> key_lt(keys[i], keys[j])),
    ensures
        picks(m, key, r, n, before),
        m.dom().finite(),
{
    let addrs = entries.map_values(key);
    lemma_lists_len(addrs, m.dom());
    let ra = r.map_values(key);
    assert forall|i: int, j: int| 0 <= i < ra.len() && 0 <= j < ra.len() && i != j implies ra[i]
        != ra[j] by {
        assert(r[i] == entries[order[i] as int] && r[j] == entries[order[j] as int]);
        assert(order[i] != order[j]);
        assert(addrs[order[i] as int] == ra[i] && addrs[order[j] as int] == ra[j]);
    }
    assert forall|i: int| 0 <= i < r.len() implies m.contains_key(key(#[trigger] r[i]))
        && m[key(r[i])] == r[i] by {
        let k = order[i] as int;
        assert(r[i] == entries[k]);
        assert(addrs[k] == key(r[i]));
        assert(addrs.contains(key(r[i])));
    }
    assert forall|i: int, j: int| 0 <= i < j < r.len() implies !before(
        #[trigger] r[j],
        #[trigger] r[i],
    ) by {
        let (x, y) = (order[i] as int, order[j] as int);
        assert(r[i] == entries[x] && r[j] == entries[y]);
        assert(before(entries[y], entries[x]) <==> key_lt(keys[y], keys[x]));
    }
    assert forall|a: A, i: int|
        #![trigger m[a], r[i]]
        m.contains_key(a) && !ra.contains(a) && 0 <= i < r.len() implies !before(m[a], r[i]) by {
        assert(addrs.contains(a));
        let k = choose|k: int| 0 <= k < addrs.len() && addrs[k] == a;
        assert(m[key(entries[k])] == entries[k]);
        lemma_order_covers(keys, order, k);
        let p = choose|p: int| 0 <= p < order.len() && order[p] == k as usize;
        if p < r.len() {
            assert(r[p] == entries[order[p] as int]);
            assert(ra[p] == a);
        }
        let x = order[i] as int;
        assert(r[i] == entries[x]);
        assert(i < p);
        assert(order[i] as int == x && order[p] as int == k);
        assert(before(entries[k], entries[x]) <==> key_lt(keys[k], keys[x]));
    }
}

} // verus!
