//! Search for torrents by keyword: values that publishers keep in the DHT under their key
//! and a salt are fetched, and the torrents that they name are noted.

use vstd::prelude::*;
use vstd::string::*;
use vstd::utf8::*;

use crate::bencode::{parse, parsed, Bencode, BencodeTree};
use crate::bytes::{array20, copy_bytes};
use crate::storage::infohash_repo::{register_each, reports_from, InfohashRepoImpl};
use crate::text::{
    ascii, decimal, hex_decode, hex_value, is_hex, push_decimal, push_str, unhex, utf8_strict,
};
use crate::types::{add_once, distinct_of, id_views, lemma_distinct_of, Infohash, PeerAddr};

verus! {

/// What to search for, how often, and whom to ask.
pub struct KeywordSearchConfig {
    /// Public keys, in hexadecimal digits, and salts.
    pub targets: Vec<(String, String)>,
    /// Seconds from one search to the next.
    pub interval_secs: u64,
    /// How many nodes are asked for each target.
    pub nodes_per_query: usize,
}

impl Default for KeywordSearchConfig {
    fn default() -> (r: Self)
        ensures
            r.targets@.len() == 0,
            r.interval_secs == 1800,
            r.nodes_per_query == 8,
    {
        KeywordSearchConfig { targets: Vec::new(), interval_secs: 1800, nodes_per_query: 8 }
    }
}

/// A value that is kept in the DHT, with its signature.
#[derive(Clone, Debug)]
pub struct MutableDataResponse {
    pub public_key: Vec<u8>,
    pub salt: Vec<u8>,
    pub seq: i64,
    pub value: Vec<u8>,
    pub signature: Vec<u8>,
}

/// A request for a value: the zero identifier as sender, the public key, the salt, and the
/// number of the transaction.
pub open spec fn get_request(tid: Seq<u8>, public_key: Seq<u8>, salt: Seq<u8>) -> Seq<u8> {
    ascii("d1:ad2:id20:"@) + Seq::new(20, |i: int| 0u8) + ascii("3:key32:"@) + public_key + ascii(
        "4:salt"@,
    ) + decimal(salt.len()) + ascii(":"@) + salt + ascii("e1:q3:get1:t2:"@) + tid + ascii(
        "1:y1:qe"@,
    )
}

/// Makes a request for a value.
pub fn build_bep44_get_request(tid: &[u8; 2], public_key: &[u8], salt: &[u8]) -> (r: Vec<u8>)
    ensures
        r@ == get_request(tid@, public_key@, salt@),
{
    let node_id = [0u8; 20];
    let mut buf: Vec<u8> = Vec::new();
    proof {
        reveal_strlit("d1:ad2:id20:");
        reveal_strlit("3:key32:");
        reveal_strlit("4:salt");
        reveal_strlit(":");
        reveal_strlit("e1:q3:get1:t2:");
        reveal_strlit("1:y1:qe");
    }
    push_str(&mut buf, "d1:ad2:id20:");
    buf.extend_from_slice(node_id.as_slice());
    push_str(&mut buf, "3:key32:");
    buf.extend_from_slice(public_key);
    push_str(&mut buf, "4:salt");
    push_decimal(&mut buf, salt.len() as u64);
    push_str(&mut buf, ":");
    buf.extend_from_slice(salt);
    push_str(&mut buf, "e1:q3:get1:t2:");
    buf.extend_from_slice(tid.as_slice());
    push_str(&mut buf, "1:y1:qe");
    assert(buf@ =~= get_request(tid@, public_key@, salt@));
    buf
}

/// Why an answer holds no value.
#[derive(Debug, Clone, Copy, PartialEq, Eq, Structural)]
pub enum ResponseError {
    Unparsable,
    NotADict,
    NoResult,
    ResultNotADict,
    NoValue,
    ValueNotBytes,
}

/// The value in a parsed answer.
pub open spec fn value_in(t: BencodeTree) -> Result<Seq<u8>, ResponseError> {
    if !(t is Dict) {
        Err(ResponseError::NotADict)
    } else {
        match t.at(ascii("r"@)) {
            None => Err(ResponseError::NoResult),
            Some(r) => if !(r is Dict) {
                Err(ResponseError::ResultNotADict)
            } else {
                match r.at(ascii("v"@)) {
                    None => Err(ResponseError::NoValue),
                    Some(BencodeTree::Bytes(b)) => Ok(b),
                    Some(_) => Err(ResponseError::ValueNotBytes),
                }
            },
        }
    }
}

/// Whether a result is a given one, up to the vector that holds it.
pub open spec fn same_value(
    r: Result<Vec<u8>, ResponseError>,
    want: Result<Seq<u8>, ResponseError>,
) -> bool {
    match (r, want) {
        (Ok(a), Ok(b)) => a@ == b,
        (Err(a), Err(b)) => a == b,
        _ => false,
    }
}

/// Reads the value from a parsed answer.
pub fn read_get_response(value: &Bencode) -> (r: Result<Vec<u8>, ResponseError>)
    ensures
        same_value(r, value_in(value.tree())),
{
    proof {
        reveal_strlit("r");
        reveal_strlit("v");
        is_ascii_spec_bytes("r");
        is_ascii_spec_bytes("v");
        assert("r".spec_bytes() =~= ascii("r"@));
        assert("v".spec_bytes() =~= ascii("v"@));
    }
    if !value.is_dict() {
        return Err(ResponseError::NotADict);
    }
    match value.get("r") {
        None => Err(ResponseError::NoResult),
        Some(r) => {
            if !r.is_dict() {
                return Err(ResponseError::ResultNotADict);
            }
            match r.get("v") {
                None => Err(ResponseError::NoValue),
                Some(v) => match v {
                    Bencode::Bytes(b) => Ok(copy_bytes(b.as_slice())),
                    _ => Err(ResponseError::ValueNotBytes),
                },
            }
        },
    }
}

/// Reads the value from an answer.
pub fn parse_bep44_get_response(data: &[u8]) -> (r: Result<Vec<u8>, ResponseError>)
    ensures
        same_value(
            r,
            match parsed(data@) {
                Some(t) => value_in(t),
                None => Err(ResponseError::Unparsable),
            },
        ),
{
    match parse(data) {
        Some(v) => read_get_response(&v),
        None => Err(ResponseError::Unparsable),
    }
}

/// The torrents that the first `n` places of a text name: those where forty hexadecimal
/// digits stand.
pub open spec fn named_in(text: Seq<u8>, n: int) -> Seq<Seq<u8>>
    decreases n,
{
    if n <= 0 {
        Seq::empty()
    } else {
        let before = named_in(text, n - 1);
        if n - 1 + 40 <= text.len() && is_hex(text.subrange(n - 1, n - 1 + 40)) {
            before.push(unhex(text.subrange(n - 1, n - 1 + 40)))
        } else {
            before
        }
    }
}

/// The torrents that a value names, in the order in which they appear. A value that is no
/// text names none.
pub open spec fn named_by(value: Seq<u8>) -> Seq<Seq<u8>> {
    if valid_utf8(value) {
        named_in(value, value.len() as int)
    } else {
        Seq::empty()
    }
}

proof fn lemma_named_end(text: Seq<u8>, n: int, m: int)
    requires
        0 <= n <= m,
        text.len() < n + 40,
    ensures
        named_in(text, m) == named_in(text, n),
    decreases m - n,
{
    if n < m {
        lemma_named_end(text, n, m - 1);
    }
}

/// The torrents that a value names, each once.
pub fn extract_infohashes_from_value(value: &[u8]) -> (r: Vec<Infohash>)
    ensures
        id_views(r@) == distinct_of(named_by(value@)),
{
    let mut out: Vec<Infohash> = Vec::new();
    proof {
        assert(id_views(out@) =~= Seq::empty());
    }
    if utf8_strict(copy_bytes(value)).is_none() {
        return out;
    }
    let mut i: usize = 0;
    while value.len() >= 40 && i <= value.len() - 40
        invariant
            0 <= i,
            value@.len() >= 40 ==> i <= value@.len() - 40 + 1,
            value@.len() < 40 ==> i == 0,
            id_views(out@) == distinct_of(named_in(value@, i as int)),
        decreases value@.len() - i,
    {
        let window = crate::bytes::copy_range(value, i, i + 40);
        let ghost before = named_in(value@, i as int);
        match hex_decode(window.as_slice()) {
            Ok(b) => {
                let ih = array20(b.as_slice());
                proof {
                    assert(b@.take(20) =~= b@);
                    let s = before.push(ih@);
                    assert(s.drop_last() =~= before);
                    assert(named_in(value@, i + 1) == s);
                }
                add_once(&mut out, ih);
            },
            Err(_) => {},
        }
        i = i + 1;
    }
    proof {
        lemma_named_end(value@, i as int, value@.len() as int);
    }
    out
}

/// The torrents that the first `n` values name, in the order in which they appear.
pub open spec fn named_by_all(values: Seq<Vec<u8>>, n: int) -> Seq<Seq<u8>>
    decreases n,
{
    if n <= 0 {
        Seq::empty()
    } else {
        named_by_all(values, n - 1) + distinct_of(named_by(values[n - 1]@))
    }
}

/// The torrents that several values name, each once.
pub fn collect_infohashes(values: &Vec<Vec<u8>>) -> (r: Vec<Infohash>)
    ensures
        id_views(r@) == distinct_of(named_by_all(values@, values@.len() as int)),
{
    let mut out: Vec<Infohash> = Vec::new();
    let mut i: usize = 0;
    proof {
        assert(id_views(out@) =~= Seq::empty());
    }
    while i < values.len()
        invariant
            0 <= i <= values@.len(),
            id_views(out@) == distinct_of(named_by_all(values@, i as int)),
        decreases values@.len() - i,
    {
        let found = extract_infohashes_from_value(values[i].as_slice());
        let ghost before = named_by_all(values@, i as int);
        let ghost more = id_views(found@);
        let mut j: usize = 0;
        proof {
            assert(before + more.take(0) =~= before);
        }
        while j < found.len()
            invariant
                0 <= j <= found@.len(),
                more == id_views(found@),
                id_views(out@) == distinct_of(before + more.take(j as int)),
            decreases found@.len() - j,
        {
            proof {
                let s = before + more.take(j + 1);
                assert(s.drop_last() =~= before + more.take(j as int));
                assert(s.last() == found@[j as int]@);
            }
            add_once(&mut out, found[j]);
            j = j + 1;
        }
        proof {
            assert(more.take(j as int) =~= more);
        }
        i = i + 1;
    }
    out
}

/// Why a public key cannot be used.
#[derive(Debug, Clone, Copy, PartialEq, Eq, Structural)]
pub enum KeyError {
    NotHex,
    WrongLength(usize),
}

/// Reads a public key of 32 bytes from its hexadecimal digits.
pub fn parse_public_key(text: &str) -> (r: Result<Vec<u8>, KeyError>)
    ensures
        match r {
            Ok(k) => is_hex(text.spec_bytes()) && k@ == unhex(text.spec_bytes()) && k@.len() == 32,
            Err(KeyError::NotHex) => !is_hex(text.spec_bytes()),
            Err(KeyError::WrongLength(n)) => is_hex(text.spec_bytes()) && n == unhex(
                text.spec_bytes(),
            ).len() && n != 32,
        },
{
    match hex_decode(text.as_bytes()) {
        Ok(k) => if k.len() == 32 {
            Ok(k)
        } else {
            Err(KeyError::WrongLength(k.len()))
        },
        Err(_) => Err(KeyError::NotHex),
    }
}

/// What to do when the service starts.
#[derive(Debug, Clone, Copy, PartialEq, Eq, Structural)]
pub enum SearchStart {
    NoTargets,
    NoNodes,
    Search,
}

/// Search for torrents by keyword.
pub struct KeywordSearchService {
    pub config: KeywordSearchConfig,
    pub node_addrs: Vec<PeerAddr>,
}

impl KeywordSearchService {
    /// A service that knows no nodes yet.
    pub fn new(config: KeywordSearchConfig) -> (r: Self)
        ensures
            r.config == config,
            r.node_addrs@.len() == 0,
    {
        KeywordSearchService { config, node_addrs: Vec::new() }
    }

    /// The service with nodes to ask.
    pub fn with_node_addrs(self, addrs: Vec<PeerAddr>) -> (r: Self)
        ensures
            r.config == self.config,
            r.node_addrs == addrs,
    {
        KeywordSearchService { config: self.config, node_addrs: addrs }
    }

    /// What to do when the service starts.
    pub fn start(&self) -> (r: SearchStart)
        ensures
            r == (if self.config.targets@.len() == 0 {
                SearchStart::NoTargets
            } else if self.node_addrs@.len() == 0 {
                SearchStart::NoNodes
            } else {
                SearchStart::Search
            }),
    {
        if self.config.targets.len() == 0 {
            SearchStart::NoTargets
        } else if self.node_addrs.len() == 0 {
            SearchStart::NoNodes
        } else {
            SearchStart::Search
        }
    }

    /// How many nodes, from the first on, are asked for a target.
    pub fn nodes_to_ask(&self) -> (r: usize)
        ensures
            r == (if self.config.nodes_per_query <= self.node_addrs@.len() {
                self.config.nodes_per_query as int
            } else {
                self.node_addrs@.len() as int
            }),
    {
        if self.config.nodes_per_query <= self.node_addrs.len() {
            self.config.nodes_per_query
        } else {
            self.node_addrs.len()
        }
    }
}

/// Takes note of the torrents that the values found for a target name. Returns how many.
pub fn finish_search(values: &Vec<Vec<u8>>, repo: &mut InfohashRepoImpl, now: u64) -> (r: usize)
    requires
        old(repo).wf(),
    ensures
        final(repo).wf(),
        exists|ids: Seq<Infohash>|
            id_views(ids) == distinct_of(named_by_all(values@, values@.len() as int)) && r
                == ids.len() && final(repo)@ == old(repo)@.registered_all(
                #[trigger] reports_from(ids, "dht_keyword_search"@, now),
            ),
{
    let ids = collect_infohashes(values);
    register_each(repo, &ids, "dht_keyword_search", now);
    ids.len()
}

proof fn lemma_named_at(text: Seq<u8>, n: int, i: int)
    requires
        0 <= i < n,
        i + 40 <= text.len(),
        is_hex(text.subrange(i, i + 40)),
    ensures
        named_in(text, n).contains(unhex(text.subrange(i, i + 40))),
    decreases n,
{
    let x = unhex(text.subrange(i, i + 40));
    let all = named_in(text, n);
    let before = named_in(text, n - 1);
    if i == n - 1 {
        assert(all[all.len() - 1] == x);
    } else {
        lemma_named_at(text, n - 1, i);
        let k = choose|k: int| 0 <= k < before.len() && before[k] == x;
        assert(all[k] == x);
    }
}

proof fn lemma_named_somewhere(text: Seq<u8>, n: int, x: Seq<u8>)
    requires
        named_in(text, n).contains(x),
    ensures
        exists|i: int|
            0 <= i && i + 40 <= text.len() && is_hex(#[trigger] text.subrange(i, i + 40)) && x
                == unhex(text.subrange(i, i + 40)),
    decreases n,
{
    let all = named_in(text, n);
    let k = choose|k: int| 0 <= k < all.len() && all[k] == x;
    let before = named_in(text, n - 1);
    if k < before.len() {
        assert(before[k] == x);
        lemma_named_somewhere(text, n - 1, x);
    } else {
        let w = text.subrange(n - 1, n - 1 + 40);
        assert(is_hex(w));
    }
}

/// Wherever forty hexadecimal digits stand in a text, the torrent that they spell is found;
/// every torrent that is found stands somewhere so; and none is found twice.
pub proof fn every_spelled_torrent_is_found(value: Seq<u8>, i: int, x: Seq<u8>)
    requires
        valid_utf8(value),
    ensures
        0 <= i && i + 40 <= value.len() && (forall|k: int|
            i <= k < i + 40 ==> 48 <= #[trigger] value[k] <= 57 || 65 <= value[k] <= 70 || 97
                <= value[k] <= 102) ==> distinct_of(named_by(value)).contains(
            unhex(value.subrange(i, i + 40)),
        ),
        distinct_of(named_by(value)).contains(x) ==> exists|j: int|
            0 <= j && j + 40 <= value.len() && is_hex(#[trigger] value.subrange(j, j + 40)) && x
                == unhex(value.subrange(j, j + 40)),
        distinct_of(named_by(value)).no_duplicates(),
{
    let found = named_by(value);
    lemma_distinct_of(found);
    if 0 <= i && i + 40 <= value.len() && (forall|k: int|
        i <= k < i + 40 ==> 48 <= #[trigger] value[k] <= 57 || 65 <= value[k] <= 70 || 97
            <= value[k] <= 102) {
        let w = value.subrange(i, i + 40);
        assert forall|k: int| 0 <= k < w.len() implies (#[trigger] hex_value(w[k])) is Some by {
            assert(w[k] == value[i + k]);
        }
        lemma_named_at(value, value.len() as int, i);
        assert(found.contains(unhex(w)));
    }
    if distinct_of(found).contains(x) {
        assert(found.contains(x));
        lemma_named_somewhere(value, value.len() as int, x);
    }
}

/// What several values name is what one of them names, and none of it comes twice.
pub proof fn values_are_searched_each(values: Seq<Vec<u8>>, x: Seq<u8>)
    ensures
        distinct_of(named_by_all(values, values.len() as int)).contains(x) <==> exists|i: int|
            0 <= i < values.len() && named_by(#[trigger] values[i]@).contains(x),
        distinct_of(named_by_all(values, values.len() as int)).no_duplicates(),
{
    lemma_distinct_of(named_by_all(values, values.len() as int));
    lemma_named_by_one(values, values.len() as int, x);
}

proof fn lemma_named_by_one(values: Seq<Vec<u8>>, n: int, x: Seq<u8>)
    requires
        0 <= n <= values.len(),
    ensures
        named_by_all(values, n).contains(x) <==> exists|i: int|
            0 <= i < n && named_by(#[trigger] values[i]@).contains(x),
    decreases n,
{
    if n > 0 {
        lemma_named_by_one(values, n - 1, x);
        let a = named_by_all(values, n - 1);
        let b = distinct_of(named_by(values[n - 1]@));
        lemma_distinct_of(named_by(values[n - 1]@));
        if (a + b).contains(x) {
            let k = choose|k: int| 0 <= k < (a + b).len() && (a + b)[k] == x;
            if k < a.len() {
                assert(a[k] == x);
                assert(a.contains(x));
            } else {
                assert(b[k - a.len()] == x);
                assert(b.contains(x));
                assert(named_by(values[n - 1]@).contains(x));
            }
        }
        if a.contains(x) {
            let k = choose|k: int| 0 <= k < a.len() && a[k] == x;
            assert((a + b)[k] == x);
        }
        if b.contains(x) {
            let k = choose|k: int| 0 <= k < b.len() && b[k] == x;
            assert((a + b)[a.len() + k] == x);
        }
    }
}

} // verus!
