//! The bits of identifiers.

use vstd::prelude::*;

verus! {

/// Whether a bit of a byte is set, the highest being the first.
pub open spec fn byte_bit(b: u8, n: int) -> bool {
    if n == 0 {
        b >= 128
    } else if n == 1 {
        b % 128 >= 64
    } else if n == 2 {
        b % 64 >= 32
    } else if n == 3 {
        b % 32 >= 16
    } else if n == 4 {
        b % 16 >= 8
    } else if n == 5 {
        b % 8 >= 4
    } else if n == 6 {
        b % 4 >= 2
    } else {
        b % 2 == 1
    }
}

/// Whether a bit of an identifier is set. The first is the highest bit of the first byte.
pub open spec fn id_bit(id: Seq<u8>, n: int) -> bool {
    byte_bit(id[n / 8], n % 8)
}

/// The number that a bit of a given weight adds.
pub open spec fn weighed(bit: bool, weight: int) -> int {
    if bit {
        weight
    } else {
        0
    }
}

proof fn lemma_spelled(b: u8)
    ensures
        b == weighed(byte_bit(b, 0), 128) + weighed(byte_bit(b, 1), 64) + weighed(
            byte_bit(b, 2),
            32,
        ) + weighed(byte_bit(b, 3), 16) + weighed(byte_bit(b, 4), 8) + weighed(byte_bit(b, 5), 4)
            + weighed(byte_bit(b, 6), 2) + weighed(byte_bit(b, 7), 1),
{
    let (b7, b6, b5, b4, b3, b2, b1) = (b % 128, b % 64, b % 32, b % 16, b % 8, b % 4, b % 2);
    assert(b7 < 128 && (b >= 128 ==> b == 128 + b7) && (b < 128 ==> b == b7));
    assert(b % 64 == b % 128 || b % 64 + 64 == b % 128) by (bit_vector);
    assert(b % 32 == b % 64 || b % 32 + 32 == b % 64) by (bit_vector);
    assert(b % 16 == b % 32 || b % 16 + 16 == b % 32) by (bit_vector);
    assert(b % 8 == b % 16 || b % 8 + 8 == b % 16) by (bit_vector);
    assert(b % 4 == b % 8 || b % 4 + 4 == b % 8) by (bit_vector);
    assert(b % 2 == b % 4 || b % 2 + 2 == b % 4) by (bit_vector);
}

/// Eight bits in a row spell a byte, the highest first.
pub proof fn bits_spell_the_bytes(id: Seq<u8>, k: int)
    requires
        0 <= k < id.len(),
    ensures
        id[k] == weighed(id_bit(id, 8 * k), 128) + weighed(id_bit(id, 8 * k + 1), 64) + weighed(
            id_bit(id, 8 * k + 2),
            32,
        ) + weighed(id_bit(id, 8 * k + 3), 16) + weighed(id_bit(id, 8 * k + 4), 8) + weighed(
            id_bit(id, 8 * k + 5),
            4,
        ) + weighed(id_bit(id, 8 * k + 6), 2) + weighed(id_bit(id, 8 * k + 7), 1),
{
    lemma_spelled(id[k]);
    assert((8 * k) / 8 == k && (8 * k + 1) / 8 == k && (8 * k + 2) / 8 == k && (8 * k + 3) / 8 == k
        && (8 * k + 4) / 8 == k && (8 * k + 5) / 8 == k && (8 * k + 6) / 8 == k && (8 * k + 7) / 8
        == k);
}

proof fn lemma_same_byte(x: Seq<u8>, y: Seq<u8>, k: int)
    requires
        0 <= k < x.len(),
        k < y.len(),
        forall|m: int| 8 * k <= m < 8 * k + 8 ==> id_bit(x, m) == id_bit(y, m),
    ensures
        x[k] == y[k],
{
    bits_spell_the_bytes(x, k);
    bits_spell_the_bytes(y, k);
    assert(id_bit(x, 8 * k) == id_bit(y, 8 * k));
    assert(id_bit(x, 8 * k + 1) == id_bit(y, 8 * k + 1));
    assert(id_bit(x, 8 * k + 2) == id_bit(y, 8 * k + 2));
    assert(id_bit(x, 8 * k + 3) == id_bit(y, 8 * k + 3));
    assert(id_bit(x, 8 * k + 4) == id_bit(y, 8 * k + 4));
    assert(id_bit(x, 8 * k + 5) == id_bit(y, 8 * k + 5));
    assert(id_bit(x, 8 * k + 6) == id_bit(y, 8 * k + 6));
    assert(id_bit(x, 8 * k + 7) == id_bit(y, 8 * k + 7));
}

proof fn lemma_masks(b: u8)
    ensures
        byte_bit(b, 0) <==> b & 128 != 0,
        byte_bit(b, 1) <==> b & 64 != 0,
        byte_bit(b, 2) <==> b & 32 != 0,
        byte_bit(b, 3) <==> b & 16 != 0,
        byte_bit(b, 4) <==> b & 8 != 0,
        byte_bit(b, 5) <==> b & 4 != 0,
        byte_bit(b, 6) <==> b & 2 != 0,
        byte_bit(b, 7) <==> b & 1 != 0,
{
    assert(b >= 128 <==> b & 128 != 0) by (bit_vector);
    assert(b % 128 >= 64 <==> b & 64 != 0) by (bit_vector);
    assert(b % 64 >= 32 <==> b & 32 != 0) by (bit_vector);
    assert(b % 32 >= 16 <==> b & 16 != 0) by (bit_vector);
    assert(b % 16 >= 8 <==> b & 8 != 0) by (bit_vector);
    assert(b % 8 >= 4 <==> b & 4 != 0) by (bit_vector);
    assert(b % 4 >= 2 <==> b & 2 != 0) by (bit_vector);
    assert(b % 2 == 1 <==> b & 1 != 0) by (bit_vector);
}

proof fn lemma_first_mask(x: u8, y: u8, t: u8, mask: u8)
    by (bit_vector)
    requires
        mask == 128 || mask == 64 || mask == 32 || mask == 16 || mask == 8 || mask == 4 || mask == 2
            || mask == 1,
        mask < 128 ==> (x & 128 != 0) == (y & 128 != 0),
        mask < 64 ==> (x & 64 != 0) == (y & 64 != 0),
        mask < 32 ==> (x & 32 != 0) == (y & 32 != 0),
        mask < 16 ==> (x & 16 != 0) == (y & 16 != 0),
        mask < 8 ==> (x & 8 != 0) == (y & 8 != 0),
        mask < 4 ==> (x & 4 != 0) == (y & 4 != 0),
        mask < 2 ==> (x & 2 != 0) == (y & 2 != 0),
        (x & mask != 0) != (y & mask != 0),
    ensures
        x ^ t != y ^ t,
        x ^ t < y ^ t <==> (x & mask != 0) == (t & mask != 0),
{
}

proof fn lemma_first_bit_of_byte(x: u8, y: u8, t: u8, s: int)
    requires
        0 <= s < 8,
        forall|m: int| 0 <= m < s ==> byte_bit(x, m) == byte_bit(y, m),
        byte_bit(x, s) != byte_bit(y, s),
    ensures
        x ^ t != y ^ t,
        x ^ t < y ^ t <==> byte_bit(x, s) == byte_bit(t, s),
{
    lemma_masks(x);
    lemma_masks(y);
    lemma_masks(t);
    assert(0 < s ==> byte_bit(x, 0) == byte_bit(y, 0));
    assert(1 < s ==> byte_bit(x, 1) == byte_bit(y, 1));
    assert(2 < s ==> byte_bit(x, 2) == byte_bit(y, 2));
    assert(3 < s ==> byte_bit(x, 3) == byte_bit(y, 3));
    assert(4 < s ==> byte_bit(x, 4) == byte_bit(y, 4));
    assert(5 < s ==> byte_bit(x, 5) == byte_bit(y, 5));
    assert(6 < s ==> byte_bit(x, 6) == byte_bit(y, 6));
    if s == 0 {
        lemma_first_mask(x, y, t, 128);
    } else if s == 1 {
        lemma_first_mask(x, y, t, 64);
    } else if s == 2 {
        lemma_first_mask(x, y, t, 32);
    } else if s == 3 {
        lemma_first_mask(x, y, t, 16);
    } else if s == 4 {
        lemma_first_mask(x, y, t, 8);
    } else if s == 5 {
        lemma_first_mask(x, y, t, 4);
    } else if s == 6 {
        lemma_first_mask(x, y, t, 2);
    } else {
        lemma_first_mask(x, y, t, 1);
    }
}

/// Where two identifiers first differ in a bit, the bytes in front are the same, and the byte
/// with that bit is nearer to that of a third, bit by bit, in the one that agrees with the
/// third there.
pub proof fn first_bit_decides(x: Seq<u8>, y: Seq<u8>, t: Seq<u8>, n: int)
    requires
        x.len() == y.len(),
        x.len() == t.len(),
        0 <= n < 8 * x.len(),
        forall|m: int| 0 <= m < n ==> id_bit(x, m) == id_bit(y, m),
        id_bit(x, n) != id_bit(y, n),
    ensures
        forall|k: int| 0 <= k < n / 8 ==> x[k] == y[k],
        x[n / 8] ^ t[n / 8] != y[n / 8] ^ t[n / 8],
        x[n / 8] ^ t[n / 8] < y[n / 8] ^ t[n / 8] <==> id_bit(x, n) == id_bit(t, n),
{
    assert forall|k: int| 0 <= k < n / 8 implies x[k] == y[k] by {
        lemma_same_byte(x, y, k);
    }
    let k = n / 8;
    assert forall|m: int| 0 <= m < n % 8 implies byte_bit(x[k], m) == byte_bit(y[k], m) by {
        let q = 8 * k + m;
        assert(q / 8 == k && q % 8 == m);
        assert(id_bit(x, q) == id_bit(y, q));
    }
    lemma_first_bit_of_byte(x[k], y[k], t[k], n % 8);
}

} // verus!
