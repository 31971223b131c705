//! Byte strings: comparison, copying and big-endian numbers.

use vstd::prelude::*;

verus! {

/// Whether two byte strings are the same.
pub fn bytes_eq(a: &[u8], b: &[u8]) -> (r: bool)
    ensures
        r == (a@ == b@),
{
    if a.len() != b.len() {
        return false;
    }
    let mut i: usize = 0;
    while i < a.len()
        invariant
            0 <= i <= a@.len(),
            a@.len() == b@.len(),
            forall|k: int| 0 <= k < i ==> a@[k] == b@[k],
        decreases a@.len() - i,
    {
        if a[i] != b[i] {
            assert(a@[i as int] != b@[i as int]);
            return false;
        }
        i = i + 1;
    }
    assert(a@ =~= b@);
    true
}

/// The dictionary order on byte strings.
pub open spec fn bytes_lt(a: Seq<u8>, b: Seq<u8>) -> bool
    decreases a.len(),
{
    if b.len() == 0 {
        false
    } else if a.len() == 0 {
        true
    } else if a[0] != b[0] {
        a[0] < b[0]
    } else {
        bytes_lt(a.skip(1), b.skip(1))
    }
}

pub(crate) proof fn lemma_bytes_lt_common(a: Seq<u8>, b: Seq<u8>, k: int)
    requires
        0 <= k <= a.len(),
        k <= b.len(),
        a.take(k) == b.take(k),
    ensures
        bytes_lt(a, b) == bytes_lt(a.skip(k), b.skip(k)),
    decreases k,
{
    if k == 0 {
        assert(a.skip(0) =~= a && b.skip(0) =~= b);
    } else {
        assert(a[0] == a.take(k)[0] && b[0] == b.take(k)[0]);
        let (a1, b1) = (a.skip(1), b.skip(1));
        assert forall|i: int| 0 <= i < k - 1 implies a1[i] == b1[i] by {
            assert(a1[i] == a.take(k)[i + 1] && b1[i] == b.take(k)[i + 1]);
        }
        assert(a1.take(k - 1) =~= b1.take(k - 1));
        lemma_bytes_lt_common(a1, b1, k - 1);
        assert(a1.skip(k - 1) =~= a.skip(k) && b1.skip(k - 1) =~= b.skip(k));
    }
}

/// No byte string comes before itself.
pub proof fn bytes_lt_irreflexive(a: Seq<u8>)
    ensures
        !bytes_lt(a, a),
    decreases a.len(),
{
    if a.len() > 0 {
        bytes_lt_irreflexive(a.skip(1));
    }
}

/// The dictionary order is transitive.
pub proof fn bytes_lt_transitive(a: Seq<u8>, b: Seq<u8>, c: Seq<u8>)
    requires
        bytes_lt(a, b),
        bytes_lt(b, c),
    ensures
        bytes_lt(a, c),
    decreases a.len(),
{
    if a.len() > 0 && a[0] == b[0] && b[0] == c[0] {
        bytes_lt_transitive(a.skip(1), b.skip(1), c.skip(1));
    }
}

/// Of two different byte strings one comes first.
pub proof fn bytes_lt_total(a: Seq<u8>, b: Seq<u8>)
    ensures
        a == b || bytes_lt(a, b) || bytes_lt(b, a),
    decreases a.len(),
{
    if a.len() > 0 && b.len() > 0 && a[0] == b[0] {
        bytes_lt_total(a.skip(1), b.skip(1));
        if a.skip(1) == b.skip(1) {
            assert(a =~= seq![a[0]] + a.skip(1));
            assert(b =~= seq![b[0]] + b.skip(1));
        }
    } else if a.len() == 0 && b.len() == 0 {
        assert(a =~= b);
    }
}

/// Whether `a` comes before `b` in dictionary order.
pub fn bytes_before(a: &[u8], b: &[u8]) -> (r: bool)
    ensures
        r == bytes_lt(a@, b@),
{
    let mut i: usize = 0;
    while i < a.len() && i < b.len()
        invariant
            0 <= i <= a@.len(),
            i <= b@.len(),
            a@.take(i as int) == b@.take(i as int),
        decreases a@.len() - i,
    {
        proof {
            lemma_bytes_lt_common(a@, b@, i as int);
        }
        if a[i] != b[i] {
            return a[i] < b[i];
        }
        assert(a@.take(i + 1) =~= a@.take(i as int).push(a@[i as int]));
        assert(b@.take(i + 1) =~= b@.take(i as int).push(b@[i as int]));
        i = i + 1;
    }
    proof {
        lemma_bytes_lt_common(a@, b@, i as int);
    }
    i < b.len()
}

/// A copy of the bytes from `from` up to `to`.
pub fn copy_range(s: &[u8], from: usize, to: usize) -> (r: Vec<u8>)
    requires
        from <= to <= s@.len(),
    ensures
        r@ == s@.subrange(from as int, to as int),
{
    let mut out: Vec<u8> = Vec::new();
    let mut i: usize = from;
    while i < to
        invariant
            from <= i <= to <= s@.len(),
            out@ == s@.subrange(from as int, i as int),
        decreases to - i,
    {
        out.push(s[i]);
        i = i + 1;
        assert(out@ =~= s@.subrange(from as int, i as int));
    }
    out
}

/// A copy of a byte string.
pub fn copy_bytes(s: &[u8]) -> (r: Vec<u8>)
    ensures
        r@ == s@,
{
    let r = copy_range(s, 0, s.len());
    assert(r@ =~= s@);
    r
}

/// The first twenty bytes as an array.
pub fn array20(s: &[u8]) -> (r: [u8; 20])
    requires
        s@.len() >= 20,
    ensures
        r@ == s@.take(20),
{
    let mut r: [u8; 20] = [0u8; 20];
    let mut i: usize = 0;
    while i < 20
        invariant
            0 <= i <= 20,
            s@.len() >= 20,
            r@.len() == 20,
            forall|k: int| 0 <= k < i ==> r@[k] == s@[k],
        decreases 20 - i,
    {
        r[i] = s[i];
        i = i + 1;
    }
    assert(r@ =~= s@.take(20));
    r
}

/// Whether two twenty-byte values are the same.
pub fn eq20(a: &[u8; 20], b: &[u8; 20]) -> (r: bool)
    ensures
        r == (a@ == b@),
        r == (*a == *b),
{
    let mut i: usize = 0;
    while i < 20
        invariant
            0 <= i <= 20,
            forall|k: int| 0 <= k < i ==> a@[k] == b@[k],
        decreases 20 - i,
    {
        if a[i] != b[i] {
            assert(a@[i as int] != b@[i as int]);
            return false;
        }
        i = i + 1;
    }
    assert(a@ =~= b@);
    assert(*a =~= *b);
    true
}

/// The four bytes of a number, most significant first.
pub open spec fn be32(n: u32) -> Seq<u8> {
    seq![(n / 0x100_0000) as u8, (n / 0x1_0000 % 256) as u8, (n / 256 % 256) as u8, (n % 256) as u8]
}

/// The number that four bytes stand for, most significant first.
pub open spec fn be32_value(b: Seq<u8>) -> int {
    b[0] * 0x100_0000 + b[1] * 0x1_0000 + b[2] * 256 + b[3]
}

/// Reading back the bytes of a number gives the number.
pub proof fn be32_round_trip(n: u32)
    ensures
        be32_value(be32(n)) == n,
{
}

/// Appends the four bytes of `n`, most significant first.
pub fn push_be32(out: &mut Vec<u8>, n: u32)
    ensures
        final(out)@ == old(out)@ + be32(n),
{
    out.push((n / 0x100_0000) as u8);
    out.push((n / 0x1_0000 % 256) as u8);
    out.push((n / 256 % 256) as u8);
    out.push((n % 256) as u8);
    assert(out@ =~= old(out)@ + be32(n));
}

/// A power of 256.
pub open spec fn pow256(n: nat) -> nat
    decreases n,
{
    if n == 0 {
        1
    } else {
        256 * pow256((n - 1) as nat)
    }
}

/// The number that bytes stand for, most significant first.
pub open spec fn be_value(b: Seq<u8>) -> nat
    decreases b.len(),
{
    if b.len() == 0 {
        0
    } else {
        be_value(b.drop_last()) * 256 + b.last() as nat
    }
}

proof fn lemma_be_value_front(b: Seq<u8>)
    requires
        b.len() > 0,
    ensures
        be_value(b) == b[0] * pow256((b.len() - 1) as nat) + be_value(b.skip(1)),
        be_value(b) < pow256(b.len()),
    decreases b.len(),
{
    if b.len() == 1 {
        assert(b.drop_last() =~= Seq::empty());
        assert(b.skip(1) =~= Seq::empty());
        assert(pow256(0) == 1 && pow256(1) == 256 * pow256(0));
        assert(be_value(b.drop_last()) == 0 && be_value(b.skip(1)) == 0);
        assert(b[0] * pow256(0) == b[0]) by (nonlinear_arith)
            requires
                pow256(0) == 1,
        ;
    } else {
        let a = b.drop_last();
        lemma_be_value_front(a);
        assert(a[0] == b[0]);
        assert(b.skip(1).drop_last() =~= a.skip(1));
        assert(b.skip(1).last() == b.last());
        let p = pow256((b.len() - 2) as nat) as int;
        let q = pow256((b.len() - 1) as nat) as int;
        assert(q == 256 * p);
        assert(be_value(a) * 256 == b[0] * q + be_value(a.skip(1)) * 256) by (nonlinear_arith)
            requires
                be_value(a) == b[0] * p + be_value(a.skip(1)),
                q == 256 * p,
        ;
    }
}

/// Byte strings of one length are ordered as the numbers that they stand for.
pub proof fn be_value_orders(a: Seq<u8>, b: Seq<u8>)
    requires
        a.len() == b.len(),
    ensures
        bytes_lt(a, b) <==> be_value(a) < be_value(b),
    decreases a.len(),
{
    if a.len() > 0 {
        lemma_be_value_front(a);
        lemma_be_value_front(b);
        let (x, y) = (a.skip(1), b.skip(1));
        be_value_orders(x, y);
        let p = pow256((a.len() - 1) as nat) as int;
        lemma_be_value_bound(x);
        lemma_be_value_bound(y);
        let (u, v) = (be_value(x) as int, be_value(y) as int);
        let (c, d) = (a[0] as int, b[0] as int);
        if c < d {
            assert(c * p + u < d * p + v) by (nonlinear_arith)
                requires
                    c + 1 <= d,
                    0 <= u < p,
                    0 <= v,
            ;
        } else if d < c {
            assert(d * p + v < c * p + u) by (nonlinear_arith)
                requires
                    d + 1 <= c,
                    0 <= v < p,
                    0 <= u,
            ;
        }
    }
}

/// Bytes stand for a number below the power of 256 that their count gives.
pub proof fn lemma_be_value_bound(b: Seq<u8>)
    ensures
        be_value(b) < pow256(b.len()),
{
    if b.len() > 0 {
        lemma_be_value_front(b);
    }
}

/// The number that at most sixteen bytes stand for.
pub fn be_number(b: &[u8], from: usize, to: usize) -> (r: u128)
    requires
        from <= to <= b@.len(),
        to - from <= 16,
    ensures
        r == be_value(b@.subrange(from as int, to as int)),
{
    let mut n: u128 = 0;
    let mut i: usize = from;
    while i < to
        invariant
            from <= i <= to <= b@.len(),
            to - from <= 16,
            n == be_value(b@.subrange(from as int, i as int)),
        decreases to - i,
    {
        let ghost part = b@.subrange(from as int, i + 1);
        proof {
            assert(part.drop_last() =~= b@.subrange(from as int, i as int));
            lemma_be_value_bound(part);
            reveal_with_fuel(pow256, 17);
        }
        n = n * 256 + b[i] as u128;
        i = i + 1;
    }
    n
}

/// Of byte strings in two parts, the first ones of one length, the first parts decide
/// unless they are the same.
pub proof fn lemma_bytes_lt_joined(a1: Seq<u8>, a2: Seq<u8>, b1: Seq<u8>, b2: Seq<u8>)
    requires
        a1.len() == b1.len(),
    ensures
        bytes_lt(a1 + a2, b1 + b2) <==> (bytes_lt(a1, b1) || (a1 == b1 && bytes_lt(a2, b2))),
    decreases a1.len(),
{
    if a1.len() == 0 {
        assert(a1 + a2 =~= a2);
        assert(b1 + b2 =~= b2);
        assert(a1 =~= b1);
    } else {
        assert((a1 + a2).skip(1) =~= a1.skip(1) + a2);
        assert((b1 + b2).skip(1) =~= b1.skip(1) + b2);
        lemma_bytes_lt_joined(a1.skip(1), a2, b1.skip(1), b2);
        if a1[0] == b1[0] && a1.skip(1) == b1.skip(1) {
            assert(a1 =~= seq![a1[0]] + a1.skip(1));
            assert(b1 =~= seq![b1[0]] + b1.skip(1));
        }
    }
}

} // verus!
