//! What holds of searching the DHT by keyword.

use vstd::prelude::*;
use vstd::utf8::*;

use crate::bencode::{encode_bytes, BencodeTree};
use crate::services::keyword_search_service::{get_request, named_by, value_in, ResponseError};
use crate::text::{ascii, decimal};
use crate::types::distinct_of;

verus! {

/// The value of an answer is the byte string under `v` in the dictionary under `r`.
pub proof fn the_value_stands_in_the_result(
    m: Map<Seq<u8>, BencodeTree>,
    r: Map<Seq<u8>, BencodeTree>,
    b: Seq<u8>,
)
    ensures
        m.contains_key(seq![114u8]) && m[seq![114u8]] == BencodeTree::Dict(r) && r.contains_key(
            seq![118u8],
        ) && r[seq![118u8]] == BencodeTree::Bytes(b) ==> value_in(BencodeTree::Dict(m)) == Ok::<
            Seq<u8>,
            ResponseError,
        >(b),
        !m.contains_key(seq![114u8]) ==> value_in(BencodeTree::Dict(m)) == Err::<
            Seq<u8>,
            ResponseError,
        >(ResponseError::NoResult),
        m.contains_key(seq![114u8]) && !(m[seq![114u8]] is Dict) ==> value_in(BencodeTree::Dict(m))
            == Err::<Seq<u8>, ResponseError>(ResponseError::ResultNotADict),
        m.contains_key(seq![114u8]) && m[seq![114u8]] == BencodeTree::Dict(r) && !r.contains_key(
            seq![118u8],
        ) ==> value_in(BencodeTree::Dict(m)) == Err::<Seq<u8>, ResponseError>(
            ResponseError::NoValue,
        ),
        m.contains_key(seq![114u8]) && m[seq![114u8]] == BencodeTree::Dict(r) && r.contains_key(
            seq![118u8],
        ) && !(r[seq![118u8]] is Bytes) ==> value_in(BencodeTree::Dict(m)) == Err::<
            Seq<u8>,
            ResponseError,
        >(ResponseError::ValueNotBytes),
{
    reveal_strlit("r");
    reveal_strlit("v");
    assert(ascii("r"@) =~= seq![114u8]);
    assert(ascii("v"@) =~= seq![118u8]);
}

/// The dictionary of the arguments of a request: a node of zeros that asks, the key and the
/// salt.
pub open spec fn arguments(public_key: Seq<u8>, salt: Seq<u8>) -> Seq<u8> {
    seq![100u8] + encode_bytes(ascii("id"@)) + encode_bytes(Seq::new(20, |i: int| 0u8))
        + encode_bytes(ascii("key"@)) + encode_bytes(public_key) + encode_bytes(ascii("salt"@))
        + encode_bytes(salt) + seq![101u8]
}

/// A request is a dictionary of four entries in order: the arguments under `a`, the word `get`
/// under `q`, the transaction under `t`, and under `y` that it is a query.
pub proof fn requests_ask_for_a_key(tid: Seq<u8>, public_key: Seq<u8>, salt: Seq<u8>)
    requires
        tid.len() == 2,
        public_key.len() == 32,
    ensures
        get_request(tid, public_key, salt) == seq![100u8] + encode_bytes(ascii("a"@)) + arguments(
            public_key,
            salt,
        ) + encode_bytes(ascii("q"@)) + encode_bytes(ascii("get"@)) + encode_bytes(ascii("t"@))
            + encode_bytes(tid) + encode_bytes(ascii("y"@)) + encode_bytes(ascii("q"@)) + seq![
            101u8,
        ],
{
    reveal_strlit("d1:ad2:id20:");
    reveal_strlit("3:key32:");
    reveal_strlit("4:salt");
    reveal_strlit(":");
    reveal_strlit("e1:q3:get1:t2:");
    reveal_strlit("1:y1:qe");
    reveal_strlit("a");
    reveal_strlit("id");
    reveal_strlit("key");
    reveal_strlit("salt");
    reveal_strlit("q");
    reveal_strlit("get");
    reveal_strlit("t");
    reveal_strlit("y");
    reveal_with_fuel(decimal, 3);
    assert(decimal(1) =~= seq![49u8]);
    assert(decimal(2) =~= seq![50u8]);
    assert(decimal(3) =~= seq![51u8]);
    assert(decimal(4) =~= seq![52u8]);
    assert(decimal(20) =~= seq![50u8, 48u8]);
    assert(decimal(32) =~= seq![51u8, 50u8]);
    let zeros = Seq::new(20, |i: int| 0u8);
    assert(encode_bytes(ascii("a"@)) =~= seq![49u8, 58u8, 97u8]);
    assert(encode_bytes(ascii("q"@)) =~= seq![49u8, 58u8, 113u8]);
    assert(encode_bytes(ascii("t"@)) =~= seq![49u8, 58u8, 116u8]);
    assert(encode_bytes(ascii("y"@)) =~= seq![49u8, 58u8, 121u8]);
    assert(encode_bytes(ascii("get"@)) =~= seq![51u8, 58u8, 103u8, 101u8, 116u8]);
    assert(encode_bytes(ascii("id"@)) =~= seq![50u8, 58u8, 105u8, 100u8]);
    assert(encode_bytes(ascii("key"@)) =~= seq![51u8, 58u8, 107u8, 101u8, 121u8]);
    assert(encode_bytes(ascii("salt"@)) =~= seq![52u8, 58u8, 115u8, 97u8, 108u8, 116u8]);
    assert(encode_bytes(zeros) =~= seq![50u8, 48u8, 58u8] + zeros);
    assert(encode_bytes(public_key) =~= seq![51u8, 50u8, 58u8] + public_key);
    assert(encode_bytes(tid) =~= seq![50u8, 58u8] + tid);
    assert(ascii("d1:ad2:id20:"@) =~= seq![100u8] + encode_bytes(ascii("a"@)) + seq![100u8]
        + encode_bytes(ascii("id"@)) + seq![50u8, 48u8, 58u8]);
    assert(ascii("3:key32:"@) =~= encode_bytes(ascii("key"@)) + seq![51u8, 50u8, 58u8]);
    assert(ascii("4:salt"@) =~= seq![52u8, 58u8, 115u8, 97u8, 108u8, 116u8]);
    assert(ascii("e1:q3:get1:t2:"@) =~= seq![101u8] + encode_bytes(ascii("q"@)) + encode_bytes(
        ascii("get"@),
    ) + encode_bytes(ascii("t"@)) + seq![50u8, 58u8]);
    assert(ascii("1:y1:qe"@) =~= encode_bytes(ascii("y"@)) + encode_bytes(ascii("q"@)) + seq![
        101u8,
    ]);
    assert(ascii(":"@) =~= seq![58u8]);
    assert(get_request(tid, public_key, salt) =~= seq![100u8] + encode_bytes(ascii("a"@))
        + arguments(public_key, salt) + encode_bytes(ascii("q"@)) + encode_bytes(ascii("get"@))
        + encode_bytes(ascii("t"@)) + encode_bytes(tid) + encode_bytes(ascii("y"@))
        + encode_bytes(ascii("q"@)) + seq![101u8]);
}

/// Of equal ones the first stays where it stands, and what is new goes behind the rest.
pub proof fn the_first_of_equals_stays<A>(s: Seq<A>, x: A)
    ensures
        distinct_of(Seq::<A>::empty()).len() == 0,
        s.contains(x) ==> distinct_of(s.push(x)) == distinct_of(s),
        !s.contains(x) ==> distinct_of(s.push(x)) == distinct_of(s).push(x),
{
    crate::types::lemma_distinct_of(s);
    assert(s.push(x).drop_last() =~= s);
}

/// A value that is no text names no torrent, and neither does one of less than forty bytes.
pub proof fn what_is_no_text_names_nothing(value: Seq<u8>)
    ensures
        !valid_utf8(value) ==> named_by(value).len() == 0,
        value.len() < 40 ==> named_by(value).len() == 0,
{
    if valid_utf8(value) && value.len() < 40 {
        lemma_too_short(value, value.len() as int);
    }
}

proof fn lemma_too_short(value: Seq<u8>, n: int)
    requires
        value.len() < 40,
    ensures
        crate::services::keyword_search_service::named_in(value, n).len() == 0,
    decreases n,
{
    if n > 0 {
        lemma_too_short(value, n - 1);
    }
}

/// A text of forty digits alone names the torrent that they spell.
pub proof fn forty_digits_alone_name_one(value: Seq<u8>)
    requires
        value.len() == 40,
        forall|k: int|
            0 <= k < 40 ==> 48 <= #[trigger] value[k] <= 57 || 65 <= value[k] <= 70 || 97
                <= value[k] <= 102,
    ensures
        distinct_of(named_by(value)) == seq![crate::text::unhex(value)],
{
    assert forall|k: int| 0 <= k < value.len() implies #[trigger] value[k] < 128 by {}
    crate::text::lemma_ascii_is_utf8(value);
    let w = value.subrange(0, 40);
    assert(w =~= value);
    crate::text_laws::hex_digits_are_read(value, 0);
    let one = seq![crate::text::unhex(value)];
    lemma_one_place(value, 40);
    assert(named_by(value) == one);
    assert(one.drop_last() =~= Seq::<Seq<u8>>::empty());
    the_first_of_equals_stays(Seq::<Seq<u8>>::empty(), crate::text::unhex(value));
    assert(Seq::<Seq<u8>>::empty().push(crate::text::unhex(value)) =~= one);
    assert(distinct_of(one) =~= one);
}

proof fn lemma_one_place(value: Seq<u8>, n: int)
    requires
        value.len() == 40,
        1 <= n,
        crate::text::is_hex(value),
    ensures
        crate::services::keyword_search_service::named_in(value, n) == seq![
            crate::text::unhex(value),
        ],
    decreases n,
{
    assert(value.subrange(0, 40) =~= value);
    if n > 1 {
        lemma_one_place(value, n - 1);
    } else {
        assert(crate::services::keyword_search_service::named_in(value, 0).len() == 0);
        assert(crate::services::keyword_search_service::named_in(value, 1) =~= seq![
            crate::text::unhex(value),
        ]);
    }
}

} // verus!
