//! Bencoded values: how they are parsed and looked into.

use crate::bytes::bytes_eq;
use crate::text::{decimal, is_digit, parse_decimal, parse_digits, signed_decimal};
use serde_bencode::value::Value;
use vstd::prelude::*;
use vstd::string::*;

verus! {

/// A bencoded value.
pub enum Bencode {
    Int(i64),
    Bytes(Vec<u8>),
    List(Vec<Bencode>),
    /// Key and value of each entry, in no particular order.
    Dict(Vec<(Vec<u8>, Bencode)>),
}

/// A bencoded value as the contracts see it: a dictionary is a map.
pub enum BencodeTree {
    Int(i64),
    Bytes(Seq<u8>),
    List(Seq<BencodeTree>),
    Dict(Map<Seq<u8>, BencodeTree>),
}

/// Position of the first entry of `d` with key `k`, or the length if there is none.
pub open spec fn key_index(d: Seq<(Vec<u8>, Bencode)>, k: Seq<u8>) -> int
    decreases d.len(),
{
    if d.len() == 0 || d[0].0@ == k {
        0
    } else {
        1 + key_index(d.skip(1), k)
    }
}

impl Bencode {
    /// What the value stands for.
    pub open spec fn tree(self) -> BencodeTree
        decreases self,
    {
        match self {
            Bencode::Int(n) => BencodeTree::Int(n),
            Bencode::Bytes(b) => BencodeTree::Bytes(b@),
            Bencode::List(v) => BencodeTree::List(
                Seq::new(
                    v@.len(),
                    |i: int|
                        if 0 <= i < v@.len() {
                            v@[i].tree()
                        } else {
                            arbitrary()
                        },
                ),
            ),
            Bencode::Dict(d) => BencodeTree::Dict(
                Map::new(
                    |k: Seq<u8>| 0 <= key_index(d@, k) < d@.len(),
                    |k: Seq<u8>|
                        {
                            let i = key_index(d@, k);
                            if 0 <= i < d@.len() {
                                d@[i].1.tree()
                            } else {
                                arbitrary()
                            }
                        },
                ),
            ),
        }
    }
}

impl BencodeTree {
    /// The entry of a dictionary under a key.
    pub open spec fn at(self, k: Seq<u8>) -> Option<BencodeTree> {
        match self {
            BencodeTree::Dict(m) => if m.dom().contains(k) {
                Some(m[k])
            } else {
                None
            },
            _ => None,
        }
    }

    /// The integer under a key.
    pub open spec fn int_at(self, k: Seq<u8>) -> Option<i64> {
        match self.at(k) {
            Some(BencodeTree::Int(n)) => Some(n),
            _ => None,
        }
    }

    /// The byte string under a key.
    pub open spec fn bytes_at(self, k: Seq<u8>) -> Option<Seq<u8>> {
        match self.at(k) {
            Some(BencodeTree::Bytes(b)) => Some(b),
            _ => None,
        }
    }

    /// The list under a key.
    pub open spec fn list_at(self, k: Seq<u8>) -> Option<Seq<BencodeTree>> {
        match self.at(k) {
            Some(BencodeTree::List(l)) => Some(l),
            _ => None,
        }
    }
}

#[verifier::external_type_specification]
#[verifier::external_body]
pub struct ExValue(Value);

#[verifier::external_type_specification]
#[verifier::external_body]
pub struct ExBencodeError(serde_bencode::Error);

/// What a parsed `serde_bencode` value holds.
pub uninterp spec fn value_tree(v: Value) -> BencodeTree;

/// What `serde_bencode::from_bytes` makes of some bytes, read as a `Value`.
pub uninterp spec fn bencode_parse(bytes: Seq<u8>) -> Option<BencodeTree>;

/// How many values may be open at once, one inside the other, in what is parsed: about half
/// of what a thread with a stack of two mebibytes can take.
pub const MAX_NESTING: usize = 2048;

/// Whether the value that is read from position `i` on, `open` values around it, never has
/// more than `most` values open at once. What is not well formed ends it.
pub open spec fn nests_within(data: Seq<u8>, i: int, open: nat, most: nat) -> bool
    decreases data.len() - i,
{
    if open > most {
        false
    } else if i < 0 || i >= data.len() {
        true
    } else if data[i] == 100 || data[i] == 108 {
        nests_within(data, i + 1, open + 1, most)
    } else if data[i] == 101 {
        open <= 1 || nests_within(data, i + 1, (open - 1) as nat, most)
    } else if data[i] == 105 {
        let e = find_byte(data, i + 1, 101);
        proof {
            lemma_find_byte_bounds(data, i + 1, 101);
        }
        e >= data.len() || open == 0 || nests_within(data, e + 1, open, most)
    } else if is_digit(data[i]) {
        let c = find_byte(data, i, 58);
        proof {
            lemma_find_byte_bounds(data, i, 58);
        }
        match parse_digits(data.subrange(i, c), usize::MAX as nat) {
            Some(n) => c + 1 + n >= data.len() || open == 0 || nests_within(
                data,
                c + 1 + n,
                open,
                most,
            ),
            None => true,
        }
    } else {
        true
    }
}

/// Whether the value that some bytes start with is nested no deeper than is parsed.
pub open spec fn shallow(bytes: Seq<u8>) -> bool {
    nests_within(bytes, 0, 0, MAX_NESTING as nat)
}

/// What is made of some bytes: what `serde_bencode` makes of them, where they are not nested
/// too deep.
pub open spec fn parsed(bytes: Seq<u8>) -> Option<BencodeTree> {
    if shallow(bytes) {
        bencode_parse(bytes)
    } else {
        None
    }
}

/// `serde_bencode::from_bytes` at the type `Value`: whether it succeeds, and what
/// the value then holds, depends on the bytes alone. It calls itself for each value that
/// opens inside another, so that the nesting is bounded: deep enough, it would run out of
/// stack and not return.
#[verifier::external_body]
fn from_bytes(bytes: &[u8]) -> (r: Result<Value, serde_bencode::Error>)
    requires
        shallow(bytes@),
    ensures
        r matches Ok(v) ==> bencode_parse(bytes@) == Some(value_tree(v)),
        r is Err ==> bencode_parse(bytes@) is None,
{
    serde_bencode::from_bytes(bytes)
}

/// Moves a `serde_bencode` value, variant by variant, into a value of this library.
/// A dictionary has each of its keys once, in an order that is not fixed.
#[verifier::external_body]
fn from_value(v: Value) -> (r: Bencode)
    ensures
        r.tree() == value_tree(v),
{
    match v {
        Value::Int(n) => Bencode::Int(n),
        Value::Bytes(b) => Bencode::Bytes(b),
        Value::List(l) => Bencode::List(l.into_iter().map(from_value).collect()),
        Value::Dict(d) => {
            Bencode::Dict(d.into_iter().map(|(k, v)| (k, from_value(v))).collect())
        },
    }
}

/// Whether the value that some bytes start with is nested no deeper than is parsed.
fn is_shallow(data: &[u8]) -> (r: bool)
    ensures
        r == shallow(data@),
{
    let mut open: usize = 0;
    let mut i: usize = 0;
    while i < data.len()
        invariant
            open <= MAX_NESTING,
            shallow(data@) == nests_within(data@, i as int, open as nat, MAX_NESTING as nat),
        decreases data@.len() - i,
    {
        let b: u8 = data[i];
        if b == 100 || b == 108 {
            if open == MAX_NESTING {
                assert(!nests_within(data@, i + 1, (open + 1) as nat, MAX_NESTING as nat));
                return false;
            }
            open = open + 1;
            i = i + 1;
        } else if b == 101 {
            if open <= 1 {
                return true;
            }
            open = open - 1;
            i = i + 1;
        } else if b == 105 {
            let e: usize = seek(data, i + 1, 101);
            if e >= data.len() || open == 0 {
                return true;
            }
            i = e + 1;
        } else if b >= 48 && b <= 57 {
            let c: usize = seek(data, i, 58);
            let numeral = vstd::slice::slice_subrange(data, i, c);
            let len: usize = match parse_decimal(numeral, usize::MAX as u64) {
                Some(n) => n as usize,
                None => {
                    return true;
                },
            };
            if open == 0 || c >= data.len() || len >= data.len() - c - 1 {
                return true;
            }
            i = c + 1 + len;
        } else {
            return true;
        }
    }
    true
}

/// Parses a bencoded value. What is nested too deep does not parse.
pub fn parse(bytes: &[u8]) -> (r: Option<Bencode>)
    ensures
        r is Some <==> parsed(bytes@) is Some,
        r matches Some(b) ==> parsed(bytes@) == Some(b.tree()),
{
    if !is_shallow(bytes) {
        return None;
    }
    match from_bytes(bytes) {
        Ok(v) => Some(from_value(v)),
        Err(_) => None,
    }
}

proof fn lemma_key_index(d: Seq<(Vec<u8>, Bencode)>, k: Seq<u8>, i: int)
    requires
        0 <= i <= d.len(),
        forall|j: int| 0 <= j < i ==> (#[trigger] d[j]).0@ != k,
        i < d.len() ==> d[i].0@ == k,
    ensures
        key_index(d, k) == i,
    decreases d.len(),
{
    if d.len() > 0 && i > 0 {
        let t = d.skip(1);
        assert(d[0].0@ != k);
        assert forall|j: int| 0 <= j < i - 1 implies (#[trigger] t[j]).0@ != k by {
            assert(t[j] == d[j + 1]);
        }
        lemma_key_index(t, k, i - 1);
    }
}

impl Bencode {
    /// The entry of a dictionary under a key.
    pub fn get(&self, key: &str) -> (r: Option<&Bencode>)
        ensures
            r is None ==> self.tree().at(key.spec_bytes()) is None,
            r matches Some(b) ==> self.tree().at(key.spec_bytes()) == Some(b.tree()),
    {
        self.get_bytes(key.as_bytes())
    }

    /// The entry of a dictionary under a key.
    pub fn get_bytes(&self, k: &[u8]) -> (r: Option<&Bencode>)
        ensures
            r is None ==> self.tree().at(k@) is None,
            r matches Some(b) ==> self.tree().at(k@) == Some(b.tree()),
    {
        match self {
            Bencode::Dict(d) => {
                let mut i: usize = 0;
                while i < d.len()
                    invariant
                        *self == Bencode::Dict(*d),
                        0 <= i <= d@.len(),
                        forall|j: int| 0 <= j < i ==> (#[trigger] d@[j]).0@ != k@,
                    decreases d@.len() - i,
                {
                    if bytes_eq(d[i].0.as_slice(), k) {
                        proof {
                            lemma_key_index(d@, k@, i as int);
                        }
                        return Some(&d[i].1);
                    }
                    i = i + 1;
                }
                proof {
                    lemma_key_index(d@, k@, i as int);
                }
                None
            },
            _ => None,
        }
    }

    /// The integer under a key.
    pub fn get_int(&self, key: &str) -> (r: Option<i64>)
        ensures
            r == self.tree().int_at(key.spec_bytes()),
    {
        match self.get(key) {
            Some(Bencode::Int(n)) => Some(*n),
            _ => None,
        }
    }

    /// The byte string under a key.
    pub fn get_string(&self, key: &str) -> (r: Option<&Vec<u8>>)
        ensures
            r is Some <==> self.tree().bytes_at(key.spec_bytes()) is Some,
            r matches Some(b) ==> self.tree().bytes_at(key.spec_bytes()) == Some(b@),
    {
        match self.get(key) {
            Some(Bencode::Bytes(b)) => Some(b),
            _ => None,
        }
    }

    /// Whether the value is a dictionary.
    pub fn is_dict(&self) -> (r: bool)
        ensures
            r == (self.tree() is Dict),
    {
        match self {
            Bencode::Dict(_) => true,
            _ => false,
        }
    }
}

/// Why the end of a dictionary could not be found.
#[derive(Debug, Clone, Copy, PartialEq, Eq, Structural)]
pub enum DictEndError {
    /// The data does not start with a dictionary.
    NotADict,
    /// The length of a byte string is no number.
    InvalidLength,
    /// A byte that starts no value.
    UnexpectedByte(u8),
    /// The data ends before the dictionary does.
    NotTerminated,
}

/// Position of the first `b` in `data` at or after `from`, or the length if there is
/// none.
pub open spec fn find_byte(data: Seq<u8>, from: int, b: u8) -> int
    decreases data.len() - from,
{
    if from >= data.len() {
        data.len() as int
    } else if data[from] == b {
        from
    } else {
        find_byte(data, from + 1, b)
    }
}

/// The position that `find_byte` gives is not before the start, holds the byte unless
/// it is the end, and nothing before it does.
pub proof fn lemma_find_byte_bounds(data: Seq<u8>, from: int, b: u8)
    requires
        0 <= from <= data.len(),
    ensures
        from <= find_byte(data, from, b) <= data.len(),
        forall|i: int| from <= i < find_byte(data, from, b) ==> data[i] != b,
        find_byte(data, from, b) < data.len() ==> data[find_byte(data, from, b)] == b,
    decreases data.len() - from,
{
    if from < data.len() && data[from] != b {
        lemma_find_byte_bounds(data, from + 1, b);
    }
}

/// The end of the container that is open `depth` levels deep at position `i`: one
/// past the byte that closes the outermost level.
pub open spec fn container_end(data: Seq<u8>, i: int, depth: nat) -> Result<nat, DictEndError>
    decreases data.len() - i,
{
    if i < 0 || i >= data.len() {
        Err(DictEndError::NotTerminated)
    } else if data[i] == 100 || data[i] == 108 {
        container_end(data, i + 1, depth + 1)
    } else if data[i] == 101 {
        if depth <= 1 {
            Ok((i + 1) as nat)
        } else {
            container_end(data, i + 1, (depth - 1) as nat)
        }
    } else if data[i] == 105 {
        let e = find_byte(data, i + 1, 101);
        proof {
            lemma_find_byte_bounds(data, i + 1, 101);
        }
        if e >= data.len() {
            Err(DictEndError::NotTerminated)
        } else {
            container_end(data, e + 1, depth)
        }
    } else if is_digit(data[i]) {
        let c = find_byte(data, i, 58);
        proof {
            lemma_find_byte_bounds(data, i, 58);
        }
        match parse_digits(data.subrange(i, c), usize::MAX as nat) {
            Some(n) => if c + 1 + n >= data.len() {
                Err(DictEndError::NotTerminated)
            } else {
                container_end(data, c + 1 + n, depth)
            },
            None => Err(DictEndError::InvalidLength),
        }
    } else {
        Err(DictEndError::UnexpectedByte(data[i]))
    }
}

/// The end of the dictionary that `data` starts with.
pub open spec fn dict_end(data: Seq<u8>) -> Result<nat, DictEndError> {
    if data.len() == 0 || data[0] != 100 {
        Err(DictEndError::NotADict)
    } else {
        container_end(data, 0, 0)
    }
}

fn seek(data: &[u8], from: usize, b: u8) -> (r: usize)
    requires
        from <= data@.len(),
    ensures
        from <= r <= data@.len(),
        r == find_byte(data@, from as int, b),
{
    let mut i: usize = from;
    while i < data.len() && data[i] != b
        invariant
            from <= i <= data@.len(),
            find_byte(data@, from as int, b) == find_byte(data@, i as int, b),
        decreases data@.len() - i,
    {
        i = i + 1;
    }
    i
}

/// Finds the end of the dictionary that `data` starts with: one past its closing
/// byte.
pub fn find_bencode_dict_end(data: &[u8]) -> (r: Result<usize, DictEndError>)
    ensures
        r is Ok <==> dict_end(data@) is Ok,
        r matches Ok(n) ==> dict_end(data@) == Ok::<nat, DictEndError>(n as nat) && n <= data@.len(),
        r matches Err(e) ==> dict_end(data@) == Err::<nat, DictEndError>(e),
{
    if data.len() == 0 || data[0] != 100 {
        return Err(DictEndError::NotADict);
    }
    let mut depth: usize = 0;
    let mut i: usize = 0;
    while i < data.len()
        invariant
            data@.len() > 0,
            data@[0] == 100,
            i == 0 ==> depth == 0,
            i > 0 ==> depth >= 1,
            depth <= i,
            dict_end(data@) == container_end(data@, i as int, depth as nat),
        decreases data@.len() - i,
    {
        let b: u8 = data[i];
        if b == 100 || b == 108 {
            depth = depth + 1;
            i = i + 1;
        } else if b == 101 {
            if depth <= 1 {
                return Ok(i + 1);
            }
            depth = depth - 1;
            i = i + 1;
        } else if b == 105 {
            let e: usize = seek(data, i + 1, 101);
            if e >= data.len() {
                return Err(DictEndError::NotTerminated);
            }
            i = e + 1;
        } else if b >= 48 && b <= 57 {
            let c: usize = seek(data, i, 58);
            let numeral = vstd::slice::slice_subrange(data, i, c);
            let len: usize = match parse_decimal(numeral, usize::MAX as u64) {
                Some(n) => n as usize,
                None => {
                    return Err(DictEndError::InvalidLength);
                },
            };
            if c >= data.len() || len >= data.len() - c - 1 {
                return Err(DictEndError::NotTerminated);
            }
            i = c + 1 + len;
        } else {
            return Err(DictEndError::UnexpectedByte(b));
        }
    }
    Err(DictEndError::NotTerminated)
}

/// A byte string with its length in front.
pub open spec fn encode_bytes(b: Seq<u8>) -> Seq<u8> {
    decimal(b.len()) + seq![58u8] + b
}

/// The encoding of a value, the entries of a dictionary in the order in which they
/// stand.
pub open spec fn encode(b: Bencode) -> Seq<u8>
    decreases b, 0nat,
{
    match b {
        Bencode::Int(n) => seq![105u8] + signed_decimal(n as int) + seq![101u8],
        Bencode::Bytes(v) => encode_bytes(v@),
        Bencode::List(v) => seq![108u8] + encode_items(v@, v@.len()) + seq![101u8],
        Bencode::Dict(d) => seq![100u8] + encode_entries(d@, d@.len()) + seq![101u8],
    }
}

/// The encodings of the first `n` values, one after the other.
pub open spec fn encode_items(v: Seq<Bencode>, n: nat) -> Seq<u8>
    decreases v, n,
{
    if n == 0 || n > v.len() {
        Seq::empty()
    } else {
        encode_items(v, (n - 1) as nat) + encode(v[n - 1])
    }
}

/// The encodings of the first `n` entries, key and value one after the other.
pub open spec fn encode_entries(d: Seq<(Vec<u8>, Bencode)>, n: nat) -> Seq<u8>
    decreases d, n,
{
    if n == 0 || n > d.len() {
        Seq::empty()
    } else {
        encode_entries(d, (n - 1) as nat) + encode_bytes(d[n - 1].0@) + encode(d[n - 1].1)
    }
}

/// Whether `part` stands in `data` at position `at`.
pub open spec fn stands_at(data: Seq<u8>, at: int, part: Seq<u8>) -> bool {
    &&& 0 <= at
    &&& at + part.len() <= data.len()
    &&& data.subrange(at, at + part.len()) == part
}

pub(crate) proof fn lemma_stands_split(data: Seq<u8>, at: int, a: Seq<u8>, b: Seq<u8>)
    requires
        stands_at(data, at, a + b),
    ensures
        stands_at(data, at, a),
        stands_at(data, at + a.len(), b),
{
    let w = data.subrange(at, at + a.len() + b.len());
    assert(w == a + b);
    assert(data.subrange(at, at + a.len()) =~= a) by {
        assert forall|i: int| 0 <= i < a.len() implies data[at + i] == a[i] by {
            assert(w[i] == (a + b)[i]);
        }
    }
    assert(data.subrange(at + a.len(), at + a.len() + b.len()) =~= b) by {
        assert forall|i: int| 0 <= i < b.len() implies data[at + a.len() + i] == b[i] by {
            assert(w[a.len() + i] == (a + b)[a.len() + i]);
        }
    }
}

proof fn lemma_find_byte_at(data: Seq<u8>, from: int, to: int, b: u8)
    requires
        0 <= from <= to < data.len(),
        data[to] == b,
        forall|i: int| from <= i < to ==> data[i] != b,
    ensures
        find_byte(data, from, b) == to,
    decreases to - from,
{
    if from < to {
        lemma_find_byte_at(data, from + 1, to, b);
    }
}

proof fn lemma_bytes_at(data: Seq<u8>, at: int, b: Seq<u8>)
    requires
        stands_at(data, at, encode_bytes(b)),
        b.len() <= usize::MAX,
    ensures
        is_digit(data[at]),
        find_byte(data, at, 58) == at + decimal(b.len()).len(),
        parse_digits(data.subrange(at, at + decimal(b.len()).len()), usize::MAX as nat) == Some(
            b.len(),
        ),
{
    let d = decimal(b.len());
    crate::text::decimal_round_trip(b.len());
    lemma_stands_split(data, at, d + seq![58u8], b);
    lemma_stands_split(data, at, d, seq![58u8]);
    let c = at + d.len();
    assert(data[c] == 58) by {
        assert(data.subrange(c, c + 1)[0] == 58);
    }
    assert forall|i: int| at <= i < c implies is_digit(#[trigger] data[i]) by {
        assert(data.subrange(at, c)[i - at] == d[i - at]);
    }
    assert(is_digit(data[at]));
    lemma_find_byte_at(data, at, c, 58);
    assert(data.subrange(at, c) == d);
    assert(parse_digits(d, usize::MAX as nat) == Some(b.len()));
}

pub(crate) proof fn lemma_skip_bytes(data: Seq<u8>, at: int, b: Seq<u8>, depth: nat)
    requires
        stands_at(data, at, encode_bytes(b)),
        b.len() <= usize::MAX,
    ensures
        container_end(data, at, depth) == container_end(
            data,
            at + encode_bytes(b).len(),
            depth,
        ),
{
    lemma_bytes_at(data, at, b);
}

proof fn lemma_int_at(data: Seq<u8>, at: int, n: int)
    requires
        stands_at(data, at, seq![105u8] + signed_decimal(n) + seq![101u8]),
    ensures
        data[at] == 105,
        find_byte(data, at + 1, 101) == at + 1 + signed_decimal(n).len(),
{
    let s = signed_decimal(n);
    let m = if n < 0 {
        (-n) as nat
    } else {
        n as nat
    };
    crate::text::decimal_round_trip(m);
    lemma_stands_split(data, at, seq![105u8] + s, seq![101u8]);
    lemma_stands_split(data, at, seq![105u8], s);
    let e = at + 1 + s.len();
    assert(data[at] == 105) by {
        assert(data.subrange(at, at + 1)[0] == 105);
    }
    assert(data[e] == 101) by {
        assert(data.subrange(e, e + 1)[0] == 101);
    }
    assert forall|i: int| at + 1 <= i < e implies data[i] != 101 by {
        let k = i - (at + 1);
        assert(data.subrange(at + 1, e)[k] == s[k]);
        if n < 0 {
            if k > 0 {
                assert(s[k] == decimal(m)[k - 1]);
                assert(is_digit(decimal(m)[k - 1]));
            }
        } else {
            assert(is_digit(decimal(m)[k]));
        }
    }
    lemma_find_byte_at(data, at + 1, e, 101);
}

pub(crate) proof fn lemma_skip_int(data: Seq<u8>, at: int, n: int, depth: nat)
    requires
        stands_at(data, at, seq![105u8] + signed_decimal(n) + seq![101u8]),
    ensures
        container_end(data, at, depth) == container_end(
            data,
            at + (seq![105u8] + signed_decimal(n) + seq![101u8]).len(),
            depth,
        ),
{
    lemma_int_at(data, at, n);
}

proof fn lemma_skip_value(data: Seq<u8>, at: int, b: Bencode, depth: nat)
    requires
        stands_at(data, at, encode(b)),
        depth >= 1,
    ensures
        container_end(data, at, depth) == container_end(data, at + encode(b).len(), depth),
    decreases b, 0nat,
{
    match b {
        Bencode::Int(n) => {
            lemma_skip_int(data, at, n as int, depth);
        },
        Bencode::Bytes(v) => {
            assert(v@.len() == v.len());
            lemma_skip_bytes(data, at, v@, depth);
        },
        Bencode::List(v) => {
            let body = encode_items(v@, v@.len());
            lemma_stands_split(data, at, seq![108u8] + body, seq![101u8]);
            lemma_stands_split(data, at, seq![108u8], body);
            assert(data.subrange(at, at + 1)[0] == 108);
            let e = at + 1 + body.len();
            assert(data.subrange(e, e + 1)[0] == 101);
            lemma_skip_items(data, at + 1, v@, v@.len(), depth + 1);
        },
        Bencode::Dict(d) => {
            let body = encode_entries(d@, d@.len());
            lemma_stands_split(data, at, seq![100u8] + body, seq![101u8]);
            lemma_stands_split(data, at, seq![100u8], body);
            assert(data.subrange(at, at + 1)[0] == 100);
            let e = at + 1 + body.len();
            assert(data.subrange(e, e + 1)[0] == 101);
            lemma_skip_entries(data, at + 1, d@, d@.len(), depth + 1);
        },
    }
}

proof fn lemma_skip_items(data: Seq<u8>, at: int, v: Seq<Bencode>, n: nat, depth: nat)
    requires
        stands_at(data, at, encode_items(v, n)),
        depth >= 1,
        n <= v.len(),
    ensures
        container_end(data, at, depth) == container_end(
            data,
            at + encode_items(v, n).len(),
            depth,
        ),
    decreases v, n,
{
    if n > 0 {
        let head = encode_items(v, (n - 1) as nat);
        lemma_stands_split(data, at, head, encode(v[n - 1]));
        lemma_skip_items(data, at, v, (n - 1) as nat, depth);
        lemma_skip_value(data, at + head.len(), v[n - 1], depth);
    }
}

proof fn lemma_skip_entries(
    data: Seq<u8>,
    at: int,
    d: Seq<(Vec<u8>, Bencode)>,
    n: nat,
    depth: nat,
)
    requires
        stands_at(data, at, encode_entries(d, n)),
        depth >= 1,
        n <= d.len(),
    ensures
        container_end(data, at, depth) == container_end(
            data,
            at + encode_entries(d, n).len(),
            depth,
        ),
    decreases d, n,
{
    if n > 0 {
        let head = encode_entries(d, (n - 1) as nat);
        let key = encode_bytes(d[n - 1].0@);
        lemma_stands_split(data, at, head + key, encode(d[n - 1].1));
        lemma_stands_split(data, at, head, key);
        lemma_skip_entries(data, at, d, (n - 1) as nat, depth);
        assert(d[n - 1].0@.len() == d[n - 1].0.len());
        lemma_skip_bytes(data, at + head.len(), d[n - 1].0@, depth);
        lemma_skip_value(data, at + head.len() + key.len(), d[n - 1].1, depth);
    }
}

/// The end of an encoded dictionary is found exactly, whatever follows it.
pub proof fn dict_end_finds_the_end(d: Vec<(Vec<u8>, Bencode)>, rest: Seq<u8>)
    ensures
        dict_end(encode(Bencode::Dict(d)) + rest) == Ok::<nat, DictEndError>(
            encode(Bencode::Dict(d)).len(),
        ),
{
    let enc = encode(Bencode::Dict(d));
    let data = enc + rest;
    let body = encode_entries(d@, d@.len());
    assert(data.subrange(0, enc.len() as int) =~= enc);
    lemma_stands_split(data, 0, seq![100u8] + body, seq![101u8]);
    lemma_stands_split(data, 0, seq![100u8], body);
    assert(data.subrange(0, 1)[0] == 100);
    let e = 1 + body.len() as int;
    assert(data.subrange(e, e + 1)[0] == 101);
    lemma_skip_entries(data, 1, d@, d@.len(), 1);
}

/// Whether a value has at most so many lists and dictionaries around anything in it, itself
/// counted.
pub open spec fn nested_at_most(b: Bencode, levels: nat) -> bool
    decreases b,
{
    match b {
        Bencode::List(v) => levels > 0 && forall|i: int|
            0 <= i < v@.len() ==> nested_at_most(#[trigger] v@[i], (levels - 1) as nat),
        Bencode::Dict(d) => levels > 0 && forall|i: int|
            0 <= i < d@.len() ==> nested_at_most((#[trigger] d@[i]).1, (levels - 1) as nat),
        _ => true,
    }
}

proof fn lemma_pass_value(data: Seq<u8>, at: int, b: Bencode, open: nat, most: nat)
    requires
        stands_at(data, at, encode(b)),
        open <= most,
        nested_at_most(b, (most - open) as nat),
    ensures
        open > 0 ==> nests_within(data, at, open, most) == nests_within(
            data,
            at + encode(b).len(),
            open,
            most,
        ),
        open == 0 ==> nests_within(data, at, open, most),
    decreases b, 0nat,
{
    match b {
        Bencode::Int(n) => {
            lemma_int_at(data, at, n as int);
        },
        Bencode::Bytes(v) => {
            assert(v@.len() == v.len());
            lemma_bytes_at(data, at, v@);
        },
        Bencode::List(v) => {
            let body = encode_items(v@, v@.len());
            lemma_stands_split(data, at, seq![108u8] + body, seq![101u8]);
            lemma_stands_split(data, at, seq![108u8], body);
            assert(data.subrange(at, at + 1)[0] == 108);
            let e = at + 1 + body.len();
            assert(data.subrange(e, e + 1)[0] == 101);
            lemma_pass_items(data, at + 1, v@, v@.len(), open + 1, most);
        },
        Bencode::Dict(d) => {
            let body = encode_entries(d@, d@.len());
            lemma_stands_split(data, at, seq![100u8] + body, seq![101u8]);
            lemma_stands_split(data, at, seq![100u8], body);
            assert(data.subrange(at, at + 1)[0] == 100);
            let e = at + 1 + body.len();
            assert(data.subrange(e, e + 1)[0] == 101);
            lemma_pass_entries(data, at + 1, d@, d@.len(), open + 1, most);
        },
    }
}

proof fn lemma_pass_items(
    data: Seq<u8>,
    at: int,
    v: Seq<Bencode>,
    n: nat,
    open: nat,
    most: nat,
)
    requires
        stands_at(data, at, encode_items(v, n)),
        0 < open <= most,
        n <= v.len(),
        forall|i: int|
            0 <= i < v.len() ==> nested_at_most(#[trigger] v[i], (most - open) as nat),
    ensures
        nests_within(data, at, open, most) == nests_within(
            data,
            at + encode_items(v, n).len(),
            open,
            most,
        ),
    decreases v, n,
{
    if n > 0 {
        let head = encode_items(v, (n - 1) as nat);
        lemma_stands_split(data, at, head, encode(v[n - 1]));
        lemma_pass_items(data, at, v, (n - 1) as nat, open, most);
        lemma_pass_value(data, at + head.len(), v[n - 1], open, most);
    }
}

proof fn lemma_pass_entries(
    data: Seq<u8>,
    at: int,
    d: Seq<(Vec<u8>, Bencode)>,
    n: nat,
    open: nat,
    most: nat,
)
    requires
        stands_at(data, at, encode_entries(d, n)),
        0 < open <= most,
        n <= d.len(),
        forall|i: int|
            0 <= i < d.len() ==> nested_at_most((#[trigger] d[i]).1, (most - open) as nat),
    ensures
        nests_within(data, at, open, most) == nests_within(
            data,
            at + encode_entries(d, n).len(),
            open,
            most,
        ),
    decreases d, n,
{
    if n > 0 {
        let head = encode_entries(d, (n - 1) as nat);
        let key = encode_bytes(d[n - 1].0@);
        lemma_stands_split(data, at, head + key, encode(d[n - 1].1));
        lemma_stands_split(data, at, head, key);
        lemma_pass_entries(data, at, d, (n - 1) as nat, open, most);
        assert(d[n - 1].0@.len() == d[n - 1].0.len());
        lemma_bytes_at(data, at + head.len(), d[n - 1].0@);
        lemma_pass_value(data, at + head.len() + key.len(), d[n - 1].1, open, most);
    }
}

/// An encoded value that is nested no deeper than the bound is handed to the parser, whatever
/// follows it.
pub proof fn shallow_values_are_parsed(b: Bencode, rest: Seq<u8>)
    requires
        nested_at_most(b, MAX_NESTING as nat),
    ensures
        parsed(encode(b) + rest) == bencode_parse(encode(b) + rest),
{
    let data = encode(b) + rest;
    assert(data.subrange(0, encode(b).len() as int) =~= encode(b));
    lemma_pass_value(data, 0, b, 0, MAX_NESTING as nat);
}

} // verus!
