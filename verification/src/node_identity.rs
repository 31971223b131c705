//! The identifier of the node, which is kept in a file.

use vstd::prelude::*;
use vstd::utf8::*;

use crate::bytes::array20;
use crate::chance::random_u64;
use crate::text::{
    ascii, ascii_text, hex_decode, hex_encode, hex_round_trip, hex_text, hex_value, is_hex,
    is_white_space, lemma_ascii_is_utf8, trim, trimmed, unhex,
};

verus! {

/// The identifier that a text stands for: forty hexadecimal digits.
pub open spec fn id_in(text: Seq<char>) -> Option<Seq<u8>> {
    let b = encode_utf8(text);
    if b.len() == 40 && is_hex(b) {
        Some(unhex(b))
    } else {
        None
    }
}

/// The identifier that a text stands for.
pub fn parse_node_id(text: &str) -> (r: Option<[u8; 20]>)
    ensures
        r is Some <==> id_in(text@) is Some,
        r matches Some(id) ==> id_in(text@) == Some(id@),
{
    let b = text.as_bytes();
    if b.len() != 40 {
        return None;
    }
    match hex_decode(b) {
        Ok(v) => {
            proof {
                assert(v@.len() == 20);
                assert(v@.take(20) =~= v@);
            }
            Some(array20(v.as_slice()))
        },
        Err(_) => None,
    }
}

/// The identifier that the file holds, if the file makes sense. Blanks around it do not
/// matter.
pub fn load_node_id(content: &str) -> (r: Option<[u8; 20]>)
    ensures
        r is Some <==> id_in(trimmed(content@)) is Some,
        r matches Some(id) ==> id_in(trimmed(content@)) == Some(id@),
        id_in(content@) matches Some(id) ==> (r matches Some(a) && a@ == id),
{
    proof {
        if id_in(content@) is Some {
            lemma_digits_at_ends(content@);
        }
    }
    parse_node_id(trim(content).as_str())
}

proof fn lemma_digits_at_ends(t: Seq<char>)
    requires
        id_in(t) is Some,
    ensures
        t.len() > 0,
        !is_white_space(t[0]),
        !is_white_space(t.last()),
{
    let b = encode_utf8(t);
    assert forall|i: int| 0 <= i < b.len() implies #[trigger] b[i] < 128 by {
        assert(hex_value(b[i]) is Some);
    }
    lemma_ascii_is_utf8(b);
    encode_utf8_decode_utf8(t);
    encode_utf8_decode_utf8(ascii_text(b));
    assert(t == ascii_text(b));
    assert(hex_value(b[0]) is Some && hex_value(b[b.len() - 1]) is Some);
    assert(t[0] == b[0] as char && t.last() == b[b.len() - 1] as char);
}

/// The identifier that drawn numbers give: the last byte of each.
pub fn node_id_from(draws: &[u64; 20]) -> (r: [u8; 20])
    ensures
        r@ == Seq::new(20, |i: int| (draws@[i] % 256) as u8),
{
    let mut id: [u8; 20] = [0; 20];
    let mut i: usize = 0;
    while i < 20
        invariant
            0 <= i <= 20,
            forall|k: int| 0 <= k < i ==> #[trigger] id@[k] == (draws@[k] % 256) as u8,
        decreases 20 - i,
    {
        id[i] = (draws[i] % 256) as u8;
        i = i + 1;
    }
    assert(id@ =~= Seq::new(20, |i: int| (draws@[i] % 256) as u8));
    id
}

/// A new identifier. Every one is possible, so that nothing is stated of it; what becomes of
/// the numbers that are drawn stands at `node_id_from`.
pub fn generate_node_id() -> (r: [u8; 20]) {
    let mut draws: [u64; 20] = [0; 20];
    let mut i: usize = 0;
    while i < 20
        invariant
            0 <= i <= 20,
        decreases 20 - i,
    {
        draws[i] = random_u64();
        i = i + 1;
    }
    node_id_from(&draws)
}

/// What goes into the file.
pub fn node_id_text(id: &[u8; 20]) -> (r: String)
    ensures
        r@ == hex_text(id@),
{
    hex_encode(id.as_slice())
}

/// The identifier of the node and what to write to its file: the one that the file holds,
/// where it makes sense, else the given new one, which is to be written.
pub fn settle_node_id(content: &Option<String>, fresh: [u8; 20]) -> (r: ([u8; 20], Option<String>))
    ensures
        match content {
            Some(c) => match id_in(trimmed(c@)) {
                Some(id) => r.0@ == id && r.1 is None,
                None => r.0 == fresh && (r.1 matches Some(text) && text@ == hex_text(fresh@)),
            },
            None => r.0 == fresh && (r.1 matches Some(text) && text@ == hex_text(fresh@)),
        },
        content matches Some(c) ==> (id_in(c@) is Some ==> r.1 is None && id_in(c@) == Some(r.0@)),
{
    match content {
        Some(c) => match load_node_id(c.as_str()) {
            Some(id) => {
                return (id, None);
            },
            None => {},
        },
        None => {},
    }
    let text = node_id_text(&fresh);
    (fresh, Some(text))
}

/// The identifier of the node and what to write to its file: the one that the file holds,
/// where it makes sense, else a new one that is to be written.
pub fn load_or_generate_node_id(content: &Option<String>) -> (r: ([u8; 20], Option<String>))
    ensures
        r.1 is None <==> (content matches Some(c) && id_in(trimmed(c@)) is Some),
        r.1 is None ==> (content matches Some(c) && id_in(trimmed(c@)) == Some(r.0@)),
        content matches Some(c) ==> (id_in(c@) is Some ==> r.1 is None && id_in(c@) == Some(r.0@)),
        r.1 matches Some(text) ==> text@ == hex_text(r.0@),
{
    settle_node_id(content, generate_node_id())
}

/// What is written to the file is read back as the identifier.
pub proof fn written_id_is_read_back(id: [u8; 20])
    ensures
        id_in(hex_text(id@)) == Some(id@),
{
    let t = hex_text(id@);
    assert forall|i: int| 0 <= i < t.len() implies (#[trigger] t[i]) as nat <= 127 by {}
    is_ascii_chars_encode_utf8(t);
    assert(encode_utf8(t) =~= ascii(t));
    hex_round_trip(id@);
}

} // verus!
