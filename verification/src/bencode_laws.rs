//! What holds of bencoded values.

use vstd::prelude::*;

use crate::bencode::{
    container_end, dict_end, find_byte, key_index, lemma_find_byte_bounds, Bencode, BencodeTree,
    DictEndError,
};
use crate::text::parse_digits;

verus! {

/// A dictionary has under a key what stands behind the first entry with that key, and nothing
/// where there is no such entry.
pub proof fn the_first_entry_counts(d: Vec<(Vec<u8>, Bencode)>, k: Seq<u8>, i: int)
    ensures
        0 <= i < d@.len() && d@[i].0@ == k && (forall|j: int|
            0 <= j < i ==> (#[trigger] d@[j]).0@ != k) ==> Bencode::Dict(d).tree().at(k) == Some(
            d@[i].1.tree(),
        ),
        (forall|j: int| 0 <= j < d@.len() ==> (#[trigger] d@[j]).0@ != k) ==> Bencode::Dict(
            d,
        ).tree().at(k) is None,
{
    if 0 <= i < d@.len() && d@[i].0@ == k && (forall|j: int|
        0 <= j < i ==> (#[trigger] d@[j]).0@ != k) {
        lemma_key_index(d@, k, i);
    }
    if forall|j: int| 0 <= j < d@.len() ==> (#[trigger] d@[j]).0@ != k {
        lemma_key_index(d@, k, d@.len() as int);
    }
}

proof fn lemma_key_index(d: Seq<(Vec<u8>, Bencode)>, k: Seq<u8>, i: int)
    requires
        0 <= i <= d.len(),
        i < d.len() ==> d[i].0@ == k,
        forall|j: int| 0 <= j < i ==> (#[trigger] d[j]).0@ != k,
    ensures
        key_index(d, k) == i,
    decreases d.len(),
{
    if i > 0 {
        assert(d[0].0@ != k);
        let t = d.skip(1);
        assert forall|j: int| 0 <= j < i - 1 implies (#[trigger] t[j]).0@ != k by {
            assert(t[j] == d[j + 1]);
        }
        lemma_key_index(t, k, i - 1);
    }
}

/// A list, a number and a byte string stand for what they hold, in order, and have nothing under
/// any key.
pub proof fn values_stand_for_what_they_hold(
    v: Vec<Bencode>,
    b: Vec<u8>,
    n: i64,
    k: Seq<u8>,
    i: int,
)
    ensures
        Bencode::Int(n).tree() == BencodeTree::Int(n),
        Bencode::Bytes(b).tree() == BencodeTree::Bytes(b@),
        Bencode::List(v).tree() matches BencodeTree::List(l) && l.len() == v@.len() && (0 <= i
            < v@.len() ==> l[i] == v@[i].tree()),
        Bencode::Int(n).tree().at(k) is None,
        Bencode::Bytes(b).tree().at(k) is None,
        Bencode::List(v).tree().at(k) is None,
{
}

/// What comes behind a dictionary does not move its end, and the end is behind a closing byte.
pub proof fn the_end_is_in_the_dictionary(data: Seq<u8>, rest: Seq<u8>, n: nat)
    requires
        dict_end(data) == Ok::<nat, DictEndError>(n),
    ensures
        data[0] == 100,
        2 <= n <= data.len(),
        data[n - 1] == 101,
        dict_end(data + rest) == Ok::<nat, DictEndError>(n),
{
    lemma_end_stays(data, rest, 0, 0);
    assert((data + rest)[0] == data[0]);
}

proof fn lemma_find_stays(data: Seq<u8>, rest: Seq<u8>, from: int, b: u8)
    requires
        0 <= from <= data.len(),
        find_byte(data, from, b) < data.len(),
    ensures
        find_byte(data + rest, from, b) == find_byte(data, from, b),
    decreases data.len() - from,
{
    if from < data.len() {
        assert((data + rest)[from] == data[from]);
        if data[from] != b {
            lemma_find_stays(data, rest, from + 1, b);
        }
    }
}

proof fn lemma_end_stays(data: Seq<u8>, rest: Seq<u8>, i: int, depth: nat)
    requires
        0 <= i,
        container_end(data, i, depth) is Ok,
    ensures
        container_end(data + rest, i, depth) == container_end(data, i, depth),
        i < container_end(data, i, depth)->Ok_0 <= data.len(),
        data[container_end(data, i, depth)->Ok_0 - 1] == 101,
    decreases data.len() - i,
{
    let all = data + rest;
    assert(all[i] == data[i]);
    if data[i] == 100 || data[i] == 108 {
        lemma_end_stays(data, rest, i + 1, depth + 1);
    } else if data[i] == 101 {
        if depth > 1 {
            lemma_end_stays(data, rest, i + 1, (depth - 1) as nat);
        }
    } else if data[i] == 105 {
        lemma_find_byte_bounds(data, i + 1, 101);
        lemma_find_stays(data, rest, i + 1, 101);
        lemma_end_stays(data, rest, find_byte(data, i + 1, 101) + 1, depth);
    } else {
        let c = find_byte(data, i, 58);
        lemma_find_byte_bounds(data, i, 58);
        lemma_find_stays(data, rest, i, 58);
        assert(all.subrange(i, c) =~= data.subrange(i, c));
        let n = parse_digits(data.subrange(i, c), usize::MAX as nat)->0;
        lemma_end_stays(data, rest, c + 1 + n, depth);
    }
}

} // verus!
