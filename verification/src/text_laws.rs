//! What holds of numerals and of text among text.

use vstd::prelude::*;

use crate::text::{
    all_digits, decimal, digits_value, hex_text, is_hex, occurs_at, parse_digits, replace_all,
    signed_decimal, starts_with, trimmed, trimmed_end, trimmed_start, unhex,
};

verus! {

/// A byte is written as two digits from `0` to `9` and `a` to `f`, the sixteens first.
pub proof fn bytes_are_written_in_hex(bytes: Seq<u8>, i: int)
    requires
        0 <= i < bytes.len(),
    ensures
        hex_text(bytes).len() == 2 * bytes.len(),
        ({
            let (h, l) = (hex_text(bytes)[2 * i] as int, hex_text(bytes)[2 * i + 1] as int);
            &&& 48 <= h <= 57 || 97 <= h <= 102
            &&& 48 <= l <= 57 || 97 <= l <= 102
            &&& bytes[i] == 16 * (if h <= 57 {
                h - 48
            } else {
                h - 87
            }) + (if l <= 57 {
                l - 48
            } else {
                l - 87
            })
        }),
{
    let b = bytes[i] as int;
    assert((2 * i) / 2 == i && (2 * i) % 2 == 0);
    assert((2 * i + 1) / 2 == i && (2 * i + 1) % 2 == 1);
    assert(0 <= b / 16 < 16 && 0 <= b % 16 < 16 && b == 16 * (b / 16) + b % 16);
}

/// An even number of digits is read as one byte for each two of them, the sixteens first, and
/// upper case counts as lower case. Any other character spoils the whole.
pub proof fn hex_digits_are_read(s: Seq<u8>, i: int)
    requires
        0 <= i < s.len(),
    ensures
        is_hex(s) ==> s.len() % 2 == 0 && unhex(s).len() == s.len() / 2,
        is_hex(s) ==> 48 <= s[i] <= 57 || 65 <= s[i] <= 70 || 97 <= s[i] <= 102,
        s.len() % 2 == 0 && (forall|k: int|
            0 <= k < s.len() ==> 48 <= #[trigger] s[k] <= 57 || 65 <= s[k] <= 70 || 97 <= s[k]
                <= 102) ==> is_hex(s),
        is_hex(s) && 2 * i < s.len() ==> unhex(s)[i] == 16 * (if s[2 * i] <= 57 {
            s[2 * i] - 48
        } else if s[2 * i] <= 70 {
            s[2 * i] - 55
        } else {
            s[2 * i] - 87
        }) + (if s[2 * i + 1] <= 57 {
            s[2 * i + 1] - 48
        } else if s[2 * i + 1] <= 70 {
            s[2 * i + 1] - 55
        } else {
            s[2 * i + 1] - 87
        }),
{
    if is_hex(s) {
        assert(crate::text::hex_value(s[i]) is Some);
        if 2 * i < s.len() {
            assert(2 * i + 1 < s.len());
            assert(crate::text::hex_value(s[2 * i]) is Some);
            assert(crate::text::hex_value(s[2 * i + 1]) is Some);
        }
    }
}

/// A number below ten is one digit; a digit behind a numeral makes ten times the number and the
/// digit; and no numeral but that of zero starts with a zero.
pub proof fn numerals_are_decimal(n: nat, d: nat)
    requires
        d < 10,
    ensures
        decimal(d) == seq![(48 + d) as u8],
        n > 0 ==> decimal(10 * n + d) == decimal(n).push((48 + d) as u8),
        n > 0 ==> decimal(n)[0] != 48,
        signed_decimal(n as int) == decimal(n),
        n > 0 ==> signed_decimal(-n) == seq![45u8] + decimal(n),
    decreases n,
{
    if n > 0 {
        assert((10 * n + d) / 10 == n && (10 * n + d) % 10 == d) by (nonlinear_arith)
            requires
                d < 10,
        ;
        if n >= 10 {
            numerals_are_decimal(n / 10, d);
            crate::text::decimal_round_trip(n / 10);
            assert(decimal(n)[0] == decimal(n / 10)[0]);
        }
    }
}

/// Digits are read as the number that they write in tens; what is not all digits, or is none,
/// or writes too great a number, is not read.
pub proof fn digits_are_read(s: Seq<u8>, c: u8, max: nat)
    ensures
        digits_value(Seq::empty()) == 0,
        48 <= c <= 57 ==> digits_value(s.push(c)) == 10 * digits_value(s) + (c - 48),
        parse_digits(s, max) is Some <==> s.len() > 0 && (forall|i: int|
            0 <= i < s.len() ==> 48 <= #[trigger] s[i] <= 57) && digits_value(s) <= max,
        parse_digits(s, max) is Some ==> parse_digits(s, max) == Some(digits_value(s)),
{
    assert(s.push(c).drop_last() =~= s);
    assert(all_digits(s) <==> (forall|i: int| 0 <= i < s.len() ==> 48 <= #[trigger] s[i] <= 57));
}

/// Trimming leaves no blank, tab or line end at either end, and takes nothing out from between.
pub proof fn nothing_blank_at_the_ends(s: Seq<char>)
    ensures
        trimmed(s).len() > 0 ==> trimmed(s)[0] != ' ' && trimmed(s)[0] != '\t' && trimmed(s)[0]
            != '\n' && trimmed(s)[0] != '\r',
        trimmed(s).len() > 0 ==> trimmed(s).last() != ' ' && trimmed(s).last() != '\t' && trimmed(
            s,
        ).last() != '\n' && trimmed(s).last() != '\r',
        exists|i: int, j: int| 0 <= i <= j <= s.len() && trimmed(s) == #[trigger] s.subrange(i, j),
{
    lemma_trimmed_start(s);
    let t = trimmed_start(s);
    let i = s.len() - t.len();
    lemma_trimmed_end(t);
    assert(t == s.skip(i));
    assert(trimmed(s) =~= s.subrange(i, i + trimmed(s).len()));
    if trimmed(s).len() > 0 {
        assert(trimmed(s)[0] == t[0]);
    }
}

proof fn lemma_trimmed_start(s: Seq<char>)
    ensures
        trimmed_start(s).len() <= s.len(),
        trimmed_start(s) == s.skip(s.len() - trimmed_start(s).len()),
        trimmed_start(s).len() > 0 ==> !crate::text::is_white_space(trimmed_start(s)[0]),
    decreases s.len(),
{
    if s.len() > 0 && crate::text::is_white_space(s[0]) {
        lemma_trimmed_start(s.skip(1));
        assert(trimmed_start(s) =~= s.skip(s.len() - trimmed_start(s).len()));
    } else {
        assert(s.skip(0) =~= s);
    }
}

proof fn lemma_trimmed_end(s: Seq<char>)
    ensures
        trimmed_end(s).len() <= s.len(),
        trimmed_end(s) == s.take(trimmed_end(s).len() as int),
        trimmed_end(s).len() > 0 ==> !crate::text::is_white_space(trimmed_end(s).last()),
    decreases s.len(),
{
    if s.len() > 0 && crate::text::is_white_space(s.last()) {
        lemma_trimmed_end(s.drop_last());
        assert(trimmed_end(s) =~= s.take(trimmed_end(s).len() as int));
    } else {
        assert(s.take(s.len() as int) =~= s);
    }
}

/// A text starts with what it was put behind, and holds what was put into it where it was put;
/// where a text does not occur, nothing is replaced.
pub proof fn parts_are_found(a: Seq<u8>, b: Seq<u8>, c: Seq<u8>, rep: Seq<u8>)
    ensures
        starts_with(a + b, a),
        starts_with(c, a) ==> c.len() >= a.len() && forall|i: int|
            0 <= i < a.len() ==> #[trigger] c[i] == a[i],
        occurs_at(a + b + c, b, a.len() as int),
        (forall|i: int| !occurs_at(a, b, i)) ==> replace_all(a, b, rep) == a,
    decreases a.len(),
{
    assert((a + b).take(a.len() as int) =~= a);
    if starts_with(c, a) {
        assert forall|i: int| 0 <= i < a.len() implies #[trigger] c[i] == a[i] by {
            assert(c.take(a.len() as int)[i] == c[i]);
        }
    }
    assert((a + b + c).subrange(a.len() as int, (a.len() + b.len()) as int) =~= b);
    if forall|i: int| !occurs_at(a, b, i) {
        if b.len() > 0 && a.len() >= b.len() {
            assert(!occurs_at(a, b, 0));
            assert(a.subrange(0, b.len() as int) =~= a.take(b.len() as int));
            let t = a.skip(1);
            assert forall|i: int| !occurs_at(t, b, i) by {
                if occurs_at(t, b, i) {
                    assert(a.subrange(i + 1, i + 1 + b.len()) =~= t.subrange(i, i + b.len()));
                    assert(occurs_at(a, b, i + 1));
                }
            }
            parts_are_found(t, b, c, rep);
            assert(a.take(1) + t =~= a);
        }
    }
}

} // verus!
