//! Queries that compare and repair what two nodes have: which rows lie in a range of keys,
//! which keys mark off ranges, and which rows keys name.
//!
//! The library says what to ask the database and what to make of the rows; the caller asks.

use vstd::prelude::*;
use vstd::string::*;
use vstd::utf8::*;

use crate::bytes::{array20, copy_bytes, copy_range};
use crate::ranking::{lemma_filter_step, lemma_pushed};
use crate::sorting::{
    pairs, pairs_strictly_ascend, sort_dedup, sort_dedup_pairs, strictly_ascend, texts,
};
use crate::storage::db::{
    id_from_row, id_of, node_key_of, peer_key_of, socket_text, socket_text_of, RepoRows,
};
use crate::storage::oplog::{sync_views, Operation, SyncEntry, SyncView};
use crate::text::{
    ascii, decimal, decimal_round_trip, hex_decode, hex_round_trip, hex_text, is_hex,
    lemma_ascii_is_utf8, lossy_text, parse_decimal, parse_digits, signed_decimal, unhex,
    utf8_lossy, utf8_strict,
};

verus! {

/// The tables that nodes compare.
#[derive(Debug, Clone, Copy, PartialEq, Eq, Structural)]
pub enum Repo {
    Node,
    Peer,
    Infohash,
    Tracker,
}

/// The table that a number stands for, if any.
pub open spec fn repo_of(code: u8) -> Option<Repo> {
    if code == 1 {
        Some(Repo::Node)
    } else if code == 2 {
        Some(Repo::Peer)
    } else if code == 3 {
        Some(Repo::Infohash)
    } else if code == 4 {
        Some(Repo::Tracker)
    } else {
        None
    }
}

/// The columns of a row that are asked for.
pub open spec fn columns_of(repo: Repo) -> Seq<char> {
    match repo {
        Repo::Node => "id, ip, port"@,
        Repo::Peer => "infohash, ip, port"@,
        Repo::Infohash => "infohash"@,
        Repo::Tracker => "url"@,
    }
}

/// The name of a table.
pub open spec fn table_of(repo: Repo) -> Seq<char> {
    match repo {
        Repo::Node => "dht_nodes"@,
        Repo::Peer => "peers"@,
        Repo::Infohash => "infohashes"@,
        Repo::Tracker => "trackers"@,
    }
}

/// The expression for the key of a row.
pub open spec fn key_sql_of(repo: Repo) -> Seq<char> {
    match repo {
        Repo::Node => "(ip || ':' || port)"@,
        Repo::Peer => "(lower(hex(infohash)) || ':' || ip || ':' || port)"@,
        Repo::Infohash => "infohash"@,
        Repo::Tracker => "url"@,
    }
}

/// The columns that make up the key of a row.
pub open spec fn key_columns_of(repo: Repo) -> Seq<char> {
    match repo {
        Repo::Node => "(ip, port)"@,
        Repo::Peer => "(infohash, ip, port)"@,
        Repo::Infohash => "infohash"@,
        Repo::Tracker => "url"@,
    }
}

/// The place for one key in a list of keys.
pub open spec fn placeholder_of(repo: Repo) -> Seq<char> {
    match repo {
        Repo::Node => "(? , ?)"@,
        Repo::Peer => "(? , ? , ?)"@,
        Repo::Infohash => "?"@,
        Repo::Tracker => "?"@,
    }
}

impl Repo {
    /// The table that a number stands for, if any.
    pub fn from_code(code: u8) -> (r: Option<Repo>)
        ensures
            r == repo_of(code),
    {
        if code == 1 {
            Some(Repo::Node)
        } else if code == 2 {
            Some(Repo::Peer)
        } else if code == 3 {
            Some(Repo::Infohash)
        } else if code == 4 {
            Some(Repo::Tracker)
        } else {
            None
        }
    }

    /// The columns of a row that are asked for.
    pub fn columns(self) -> (r: &'static str)
        ensures
            r@ == columns_of(self),
    {
        match self {
            Repo::Node => "id, ip, port",
            Repo::Peer => "infohash, ip, port",
            Repo::Infohash => "infohash",
            Repo::Tracker => "url",
        }
    }

    /// The name of a table.
    pub fn table(self) -> (r: &'static str)
        ensures
            r@ == table_of(self),
    {
        match self {
            Repo::Node => "dht_nodes",
            Repo::Peer => "peers",
            Repo::Infohash => "infohashes",
            Repo::Tracker => "trackers",
        }
    }

    /// The expression for the key of a row.
    pub fn key_sql(self) -> (r: &'static str)
        ensures
            r@ == key_sql_of(self),
    {
        match self {
            Repo::Node => "(ip || ':' || port)",
            Repo::Peer => "(lower(hex(infohash)) || ':' || ip || ':' || port)",
            Repo::Infohash => "infohash",
            Repo::Tracker => "url",
        }
    }

    /// The columns that make up the key of a row.
    pub fn key_columns(self) -> (r: &'static str)
        ensures
            r@ == key_columns_of(self),
    {
        match self {
            Repo::Node => "(ip, port)",
            Repo::Peer => "(infohash, ip, port)",
            Repo::Infohash => "infohash",
            Repo::Tracker => "url",
        }
    }

    /// The place for one key in a list of keys.
    pub fn placeholder(self) -> (r: &'static str)
        ensures
            r@ == placeholder_of(self),
    {
        match self {
            Repo::Node => "(? , ?)",
            Repo::Peer => "(? , ? , ?)",
            Repo::Infohash => "?",
            Repo::Tracker => "?",
        }
    }
}

/// The query for the rows of a range of keys, in order, the first so many.
pub open spec fn range_sql_of(repo: Repo) -> Seq<char> {
    "SELECT "@ + columns_of(repo) + " FROM "@ + table_of(repo)
        + " WHERE deleted_at IS NULL AND (?1 IS NULL OR "@ + key_sql_of(repo)
        + " >= ?1) AND (?2 IS NULL OR "@ + key_sql_of(repo) + " < ?2) ORDER BY "@ + key_sql_of(repo)
        + " ASC LIMIT ?3"@
}

/// The query for the rows of a range of keys.
pub fn range_sql(repo: Repo) -> (r: String)
    ensures
        r@ == range_sql_of(repo),
{
    let mut s: String = String::from_str("SELECT ");
    s.append(repo.columns());
    s.append(" FROM ");
    s.append(repo.table());
    s.append(" WHERE deleted_at IS NULL AND (?1 IS NULL OR ");
    s.append(repo.key_sql());
    s.append(" >= ?1) AND (?2 IS NULL OR ");
    s.append(repo.key_sql());
    s.append(" < ?2) ORDER BY ");
    s.append(repo.key_sql());
    s.append(" ASC LIMIT ?3");
    s
}

/// The query for the highest row number of a table.
pub open spec fn max_rowid_sql_of(repo: Repo) -> Seq<char> {
    "SELECT COALESCE(MAX(rowid), 0) FROM "@ + table_of(repo)
}

/// The query for the highest row number of a table.
pub fn max_rowid_sql(repo: Repo) -> (r: String)
    ensures
        r@ == max_rowid_sql_of(repo),
{
    let mut s: String = String::from_str("SELECT COALESCE(MAX(rowid), 0) FROM ");
    s.append(repo.table());
    s
}

/// The query for the key of the first row from a row number on.
pub open spec fn sample_sql_of(repo: Repo) -> Seq<char> {
    "SELECT "@ + key_sql_of(repo) + " FROM "@ + table_of(repo)
        + " WHERE deleted_at IS NULL AND rowid >= ?1 ORDER BY rowid ASC LIMIT 1"@
}

/// The query for the key of the first row from a row number on.
pub fn sample_sql(repo: Repo) -> (r: String)
    ensures
        r@ == sample_sql_of(repo),
{
    let mut s: String = String::from_str("SELECT ");
    s.append(repo.key_sql());
    s.append(" FROM ");
    s.append(repo.table());
    s.append(" WHERE deleted_at IS NULL AND rowid >= ?1 ORDER BY rowid ASC LIMIT 1");
    s
}

/// So many of the same text with commas between.
pub open spec fn comma_list(item: Seq<char>, n: nat) -> Seq<char>
    decreases n,
{
    if n == 0 {
        Seq::empty()
    } else if n == 1 {
        item
    } else {
        comma_list(item, (n - 1) as nat) + ", "@ + item
    }
}

/// The query for the rows with one of so many keys.
pub open spec fn keys_sql_of(repo: Repo, n: nat) -> Seq<char> {
    "SELECT "@ + columns_of(repo) + " FROM "@ + table_of(repo) + " WHERE deleted_at IS NULL AND "@
        + key_columns_of(repo) + " IN ("@ + comma_list(placeholder_of(repo), n) + ")"@
}

/// The query for the rows with one of so many keys.
pub fn keys_sql(repo: Repo, n: usize) -> (r: String)
    ensures
        r@ == keys_sql_of(repo, n as nat),
{
    let mut s: String = String::from_str("SELECT ");
    s.append(repo.columns());
    s.append(" FROM ");
    s.append(repo.table());
    s.append(" WHERE deleted_at IS NULL AND ");
    s.append(repo.key_columns());
    s.append(" IN (");
    let ghost head = s@;
    let item = repo.placeholder();
    let mut i: usize = 0;
    proof {
        assert(head + comma_list(item@, 0) =~= head);
    }
    while i < n
        invariant
            0 <= i <= n,
            s@ == head + comma_list(item@, i as nat),
        decreases n - i,
    {
        let ghost done = comma_list(item@, i as nat);
        if i > 0 {
            s.append(", ");
        }
        s.append(item);
        i = i + 1;
        proof {
            if i > 1 {
                assert(head + done + ", "@ + item@ =~= head + (done + ", "@ + item@));
            } else {
                assert(head + done =~= head);
            }
        }
    }
    s.append(")");
    s
}

/// So many places for a key with commas between.
pub open spec fn places(n: nat) -> Seq<char>
    decreases n,
{
    if n == 0 {
        Seq::empty()
    } else if n == 1 {
        "?"@
    } else {
        places((n - 1) as nat) + ",?"@
    }
}

/// The query for all that is known of the nodes with one of so many keys.
pub open spec fn nodes_sql_of(n: nat) -> Seq<char> {
    "SELECT id, ip, port, score, state, query_count, success_count, total_latency_ms, consecutive_failures, nodes_returned FROM dht_nodes WHERE deleted_at IS NULL AND (ip || ':' || port) IN ("@
        + places(n) + ")"@
}

/// What to ask for all that is known of the nodes that keys name: the query, and the texts
/// that go into its places. There is nothing to ask for no key.
pub fn load_nodes_by_keys(keys: &Vec<Vec<u8>>) -> (r: Option<(String, Vec<String>)>)
    ensures
        r is Some <==> keys@.len() > 0,
        r matches Some(q) ==> {
            &&& q.0@ == nodes_sql_of(keys@.len())
            &&& q.1@.len() == keys@.len()
            &&& forall|i: int| 0 <= i < keys@.len() ==> (#[trigger] q.1@[i])@ == lossy_text(keys@[i]@)
        },
{
    if keys.len() == 0 {
        return None;
    }
    let mut s: String = String::from_str(
        "SELECT id, ip, port, score, state, query_count, success_count, total_latency_ms, consecutive_failures, nodes_returned FROM dht_nodes WHERE deleted_at IS NULL AND (ip || ':' || port) IN (",
    );
    let ghost head = s@;
    let mut texts: Vec<String> = Vec::new();
    let mut i: usize = 0;
    proof {
        assert(head + places(0) =~= head);
    }
    while i < keys.len()
        invariant
            0 <= i <= keys@.len(),
            s@ == head + places(i as nat),
            texts@.len() == i,
            forall|k: int| 0 <= k < i ==> (#[trigger] texts@[k])@ == lossy_text(keys@[k]@),
        decreases keys@.len() - i,
    {
        let ghost done = places(i as nat);
        if i > 0 {
            s.append(",?");
        } else {
            s.append("?");
        }
        texts.push(utf8_lossy(keys[i].as_slice()));
        i = i + 1;
        proof {
            if i > 1 {
                assert(head + done + ",?"@ =~= head + (done + ",?"@));
            } else {
                assert(head + done =~= head);
            }
        }
    }
    s.append(")");
    Some((s, texts))
}

/// One end of a range of keys: a text, or bytes in the table of torrents.
pub enum KeyBound {
    Text(String),
    Blob(Vec<u8>),
}

/// Whether a bound stands for the bytes of a key.
pub open spec fn bound_is(repo: Repo, bound: KeyBound, key: Seq<u8>) -> bool {
    match bound {
        KeyBound::Text(t) => !(repo is Infohash) && t@ == lossy_text(key),
        KeyBound::Blob(b) => repo is Infohash && b@ == key,
    }
}

/// What to ask for the rows of a range: the query and what goes into its places.
pub struct RangeQuery {
    pub repo: Repo,
    pub sql: String,
    pub lo: Option<KeyBound>,
    pub hi: Option<KeyBound>,
    pub limit: i64,
}

fn bound_for(repo: Repo, key: &Option<Vec<u8>>) -> (r: Option<KeyBound>)
    ensures
        r is Some <==> key is Some,
        key matches Some(k) ==> bound_is(repo, r->0, k@),
{
    match key {
        Some(k) => Some(
            if repo == Repo::Infohash {
                KeyBound::Blob(copy_bytes(k.as_slice()))
            } else {
                KeyBound::Text(utf8_lossy(k.as_slice()))
            },
        ),
        None => None,
    }
}

/// What to ask for the rows from one key on and before another, at least one and at most so
/// many. There is nothing to ask where the table is not known.
pub fn range_query(repo: u8, lo: &Option<Vec<u8>>, hi: &Option<Vec<u8>>, limit: usize) -> (r:
    Option<RangeQuery>)
    ensures
        r is Some <==> repo_of(repo) is Some,
        r matches Some(q) ==> {
            &&& q.repo == repo_of(repo)->0
            &&& q.sql@ == range_sql_of(q.repo)
            &&& q.limit == (if limit == 0 {
                1usize
            } else {
                limit
            }) as i64
            &&& q.lo is Some <==> lo is Some
            &&& lo matches Some(k) ==> bound_is(q.repo, q.lo->0, k@)
            &&& q.hi is Some <==> hi is Some
            &&& hi matches Some(k) ==> bound_is(q.repo, q.hi->0, k@)
        },
{
    match Repo::from_code(repo) {
        Some(kind) => {
            let count: usize = if limit == 0 {
                1
            } else {
                limit
            };
            Some(
                RangeQuery {
                    repo: kind,
                    sql: range_sql(kind),
                    lo: bound_for(kind, lo),
                    hi: bound_for(kind, hi),
                    limit: count as i64,
                },
            )
        },
        None => None,
    }
}

/// What to ask for a sample of keys: the queries, and the row numbers to go on from.
pub struct SampleQuery {
    pub repo: Repo,
    pub max_rowid_sql: String,
    pub sql: String,
}

/// What to ask for a sample of so many keys. There is nothing to ask for no key, and where
/// the table is not known.
pub fn sample_query(repo: u8, n: usize) -> (r: Option<SampleQuery>)
    ensures
        r is Some <==> n > 0 && repo_of(repo) is Some,
        r matches Some(q) ==> q.repo == repo_of(repo)->0 && q.max_rowid_sql@ == max_rowid_sql_of(
            q.repo,
        ) && q.sql@ == sample_sql_of(q.repo),
{
    if n == 0 {
        return None;
    }
    match Repo::from_code(repo) {
        Some(kind) => Some(
            SampleQuery {
                repo: kind,
                max_rowid_sql: max_rowid_sql(kind),
                sql: sample_sql(kind),
            },
        ),
        None => None,
    }
}

/// A list cut into pieces of so many, the last one shorter where it does not come out even.
pub open spec fn cut<T>(s: Seq<T>, n: nat) -> Seq<Seq<T>>
    decreases s.len(),
{
    if s.len() == 0 {
        Seq::empty()
    } else if n == 0 || s.len() <= n {
        seq![s]
    } else {
        seq![s.take(n as int)] + cut(s.skip(n as int), n)
    }
}

/// The contents of pieces.
pub open spec fn pieces<T>(v: Seq<Vec<T>>) -> Seq<Seq<T>> {
    v.map_values(|p: Vec<T>| p@)
}

/// Cuts a list into pieces of so many.
pub fn chunks_of<T>(v: Vec<T>, n: usize) -> (r: Vec<Vec<T>>)
    requires
        n > 0,
    ensures
        pieces(r@) == cut(v@, n as nat),
{
    let ghost all = v@;
    let mut rest = v;
    let mut out: Vec<Vec<T>> = Vec::new();
    proof {
        assert(pieces(out@) + cut(rest@, n as nat) =~= cut(all, n as nat));
    }
    while rest.len() > n
        invariant
            n > 0,
            pieces(out@) + cut(rest@, n as nat) == cut(all, n as nat),
        decreases rest@.len(),
    {
        let ghost before = pieces(out@);
        let ghost whole = rest@;
        let tail = rest.split_off(n);
        proof {
            assert(rest@ =~= whole.take(n as int));
            assert(tail@ =~= whole.skip(n as int));
        }
        out.push(rest);
        rest = tail;
        proof {
            assert(pieces(out@) =~= before.push(whole.take(n as int)));
            assert(pieces(out@) + cut(rest@, n as nat) =~= before + cut(whole, n as nat));
        }
    }
    let ghost before = pieces(out@);
    let ghost last = rest@;
    if rest.len() > 0 {
        out.push(rest);
        proof {
            assert(pieces(out@) =~= before + seq![last]);
        }
    } else {
        proof {
            assert(pieces(out@) =~= before + cut(last, n as nat));
        }
    }
    out
}

/// Nothing gets lost or moved when a list is cut.
pub proof fn cut_keeps_all<T>(s: Seq<T>, n: nat)
    requires
        n > 0,
    ensures
        cut(s, n).flatten() == s,
        forall|i: int| 0 <= i < cut(s, n).len() ==> 0 < (#[trigger] cut(s, n)[i]).len() <= n,
    decreases s.len(),
{
    if s.len() == 0 {
        assert(cut(s, n).flatten() =~= s);
    } else if s.len() <= n {
        seq![s].lemma_flatten_one_element();
    } else {
        let head = s.take(n as int);
        let rest = cut(s.skip(n as int), n);
        cut_keeps_all(s.skip(n as int), n);
        let c = cut(s, n);
        assert(c == seq![head] + rest);
        assert(c.drop_first() =~= rest);
        assert(c.first() == head);
        assert(c.flatten() == head + rest.flatten());
        assert(c.flatten() =~= s);
        assert forall|i: int| 0 <= i < c.len() implies 0 < (#[trigger] c[i]).len() <= n by {
            if i > 0 {
                assert(c[i] == rest[i - 1]);
            }
        }
    }
}

/// The number that a numeral with an optional sign stands for, where it is one of 64 bits.
pub open spec fn signed_value(s: Seq<u8>) -> Option<int> {
    if s.len() > 0 && s[0] == 45 {
        match parse_digits(s.skip(1), 0x8000_0000_0000_0000) {
            Some(n) => Some(-(n as int)),
            None => None,
        }
    } else {
        let digits = if s.len() > 0 && s[0] == 43 {
            s.skip(1)
        } else {
            s
        };
        match parse_digits(digits, 0x7fff_ffff_ffff_ffff) {
            Some(n) => Some(n as int),
            None => None,
        }
    }
}

/// Reads a number with an optional sign.
pub fn parse_signed(s: &[u8]) -> (r: Option<i64>)
    ensures
        r is Some <==> signed_value(s@) is Some,
        r matches Some(n) ==> signed_value(s@) == Some(n as int),
{
    if s.len() > 0 && s[0] == 45 {
        let digits = copy_range(s, 1, s.len());
        proof {
            assert(digits@ =~= s@.skip(1));
        }
        match parse_decimal(digits.as_slice(), 0x8000_0000_0000_0000) {
            Some(n) => {
                if n == 0 {
                    Some(0)
                } else {
                    Some(-((n - 1) as i64) - 1)
                }
            },
            None => None,
        }
    } else if s.len() > 0 && s[0] == 43 {
        let digits = copy_range(s, 1, s.len());
        proof {
            assert(digits@ =~= s@.skip(1));
        }
        match parse_decimal(digits.as_slice(), 0x7fff_ffff_ffff_ffff) {
            Some(n) => Some(n as i64),
            None => None,
        }
    } else {
        match parse_decimal(s, 0x7fff_ffff_ffff_ffff) {
            Some(n) => Some(n as i64),
            None => None,
        }
    }
}

/// Where the last colon stands, -1 where there is none.
pub open spec fn last_colon(s: Seq<u8>) -> int
    decreases s.len(),
{
    if s.len() == 0 {
        -1
    } else if s.last() == 58 {
        s.len() - 1
    } else {
        last_colon(s.drop_last())
    }
}

proof fn lemma_last_colon(s: Seq<u8>)
    ensures
        -1 <= last_colon(s) < s.len(),
        last_colon(s) >= 0 ==> s[last_colon(s)] == 58,
        forall|i: int| last_colon(s) < i < s.len() ==> s[i] != 58,
    decreases s.len(),
{
    if s.len() > 0 && s.last() != 58 {
        lemma_last_colon(s.drop_last());
        assert forall|i: int| last_colon(s) < i < s.len() implies s[i] != 58 by {
            if i < s.len() - 1 {
                assert(s.drop_last()[i] == s[i]);
            }
        }
    }
}

proof fn lemma_is_last_colon(s: Seq<u8>, at: int)
    requires
        0 <= at < s.len(),
        s[at] == 58,
        forall|i: int| at < i < s.len() ==> s[i] != 58,
    ensures
        last_colon(s) == at,
{
    lemma_last_colon(s);
    let c = last_colon(s);
    if c < at {
        assert(s[at] != 58);
    } else if at < c {
        assert(s[c] != 58);
    }
}

fn find_last_colon(s: &[u8]) -> (r: Option<usize>)
    ensures
        r is None <==> last_colon(s@) == -1,
        r matches Some(i) ==> last_colon(s@) == i,
{
    let mut i: usize = s.len();
    proof {
        assert(s@.take(i as int) =~= s@);
    }
    while i > 0
        invariant
            i <= s@.len(),
            last_colon(s@) == last_colon(s@.take(i as int)),
        ensures
            i <= s@.len(),
            i == 0 ==> last_colon(s@) == -1,
            i > 0 ==> last_colon(s@) == i - 1,
        decreases i,
    {
        proof {
            assert(s@.take(i as int).last() == s@[i - 1]);
            assert(s@.take(i as int).drop_last() =~= s@.take(i - 1));
        }
        if s[i - 1] == 58 {
            break;
        }
        i = i - 1;
    }
    if i == 0 {
        None
    } else {
        Some(i - 1)
    }
}

/// The address and the port that the key of a node names: what stands before and behind the
/// last colon of a text, where the latter is a number.
pub open spec fn node_named(key: Seq<u8>) -> Option<(Seq<u8>, i64)> {
    let c = last_colon(key);
    if valid_utf8(key) && c >= 0 && signed_value(key.skip(c + 1)) is Some {
        Some((key.take(c), signed_value(key.skip(c + 1))->0 as i64))
    } else {
        None
    }
}

/// The address and the port that the key of a node names.
pub fn parse_node_key(key: &[u8]) -> (r: Option<(Vec<u8>, i64)>)
    ensures
        r is Some <==> node_named(key@) is Some,
        r matches Some(p) ==> node_named(key@) == Some((p.0@, p.1)),
{
    proof {
        lemma_last_colon(key@);
    }
    match utf8_strict(copy_bytes(key)) {
        Some(_) => {},
        None => {
            return None;
        },
    }
    let n: usize = key.len();
    match find_last_colon(key) {
        Some(c) => {
            let tail = copy_range(key, c + 1, n);
            let head = copy_range(key, 0, c);
            proof {
                assert(tail@ =~= key@.skip(c + 1));
                assert(head@ =~= key@.take(c as int));
            }
            match parse_signed(tail.as_slice()) {
                Some(port) => Some((head, port)),
                None => None,
            }
        },
        None => None,
    }
}

/// Where the first colon stands, the length where there is none.
pub open spec fn first_colon(s: Seq<u8>) -> int
    decreases s.len(),
{
    if s.len() == 0 || s[0] == 58 {
        0
    } else {
        1 + first_colon(s.skip(1))
    }
}

proof fn lemma_is_first_colon(s: Seq<u8>, at: int)
    requires
        0 <= at <= s.len(),
        at < s.len() ==> s[at] == 58,
        forall|i: int| 0 <= i < at ==> s[i] != 58,
    ensures
        first_colon(s) == at,
    decreases s.len(),
{
    if at > 0 {
        assert(s[0] != 58);
        let t = s.skip(1);
        assert forall|i: int| 0 <= i < at - 1 implies t[i] != 58 by {
            assert(t[i] == s[i + 1]);
        }
        lemma_is_first_colon(t, at - 1);
    }
}

fn find_first_colon(s: &[u8]) -> (r: usize)
    ensures
        r == first_colon(s@),
        r <= s@.len(),
{
    let mut i: usize = 0;
    while i < s.len() && s[i] != 58
        invariant
            0 <= i <= s@.len(),
            forall|k: int| 0 <= k < i ==> s@[k] != 58,
        decreases s@.len() - i,
    {
        i = i + 1;
    }
    proof {
        lemma_is_first_colon(s@, i as int);
    }
    i
}

/// What the key of a peer names, the bytes of the torrent joined with the address: twenty
/// bytes in hexadecimal digits before the first colon, the address between it and the last,
/// and the port behind that. The address may hold colons itself.
pub open spec fn peer_named(key: Seq<u8>) -> Option<(Seq<u8>, i64)> {
    let c = first_colon(key);
    if c < key.len() && is_hex(key.take(c)) && unhex(key.take(c)).len() == 20 {
        match node_named(key.skip(c + 1)) {
            Some((ip, port)) => Some((unhex(key.take(c)) + ip, port)),
            None => None,
        }
    } else {
        None
    }
}

/// What the key of a peer names, the bytes of the torrent joined with the address.
pub fn parse_peer_key(key: &[u8]) -> (r: Option<(Vec<u8>, i64)>)
    ensures
        r is Some <==> peer_named(key@) is Some,
        r matches Some(p) ==> peer_named(key@) == Some((p.0@, p.1)),
{
    let c: usize = find_first_colon(key);
    if c >= key.len() {
        return None;
    }
    let head = copy_range(key, 0, c);
    let rest = copy_range(key, c + 1, key.len());
    proof {
        assert(head@ =~= key@.take(c as int));
        assert(rest@ =~= key@.skip(c + 1));
    }
    let mut joined: Vec<u8> = match hex_decode(head.as_slice()) {
        Ok(ih) => ih,
        Err(_) => {
            return None;
        },
    };
    if joined.len() != 20 {
        return None;
    }
    match parse_node_key(rest.as_slice()) {
        Some((ip, port)) => {
            let mut ip = ip;
            joined.append(&mut ip);
            Some((joined, port))
        },
        None => None,
    }
}

/// How many nodes, peers, torrents and trackers are asked for at once.
pub const NODE_CHUNK: usize = 400;

pub const PEER_CHUNK: usize = 300;

pub const INFOHASH_CHUNK: usize = 900;

pub const TRACKER_CHUNK: usize = 500;

/// A torrent, an address and a port.
pub type PeerKey = (Vec<u8>, Vec<u8>, i64);

/// Which rows to ask for, piece by piece.
pub enum EntryPlan {
    Nodes(Vec<Vec<(Vec<u8>, i64)>>),
    Peers(Vec<Vec<PeerKey>>),
    Infohashes(Vec<Vec<Vec<u8>>>),
    Trackers(Vec<Vec<Vec<u8>>>),
    Nothing,
}

/// Whether one of the keys names an address and a port.
pub open spec fn names_node(keys: Seq<Seq<u8>>, x: (Seq<u8>, i64)) -> bool {
    exists|i: int| 0 <= i < keys.len() && #[trigger] node_named(keys[i]) == Some(x)
}

/// Whether one of the keys names a torrent, an address and a port.
pub open spec fn names_peer(keys: Seq<Seq<u8>>, x: (Seq<u8>, i64)) -> bool {
    exists|i: int| 0 <= i < keys.len() && #[trigger] peer_named(keys[i]) == Some(x)
}

/// The torrent and the address of a key, joined, and the port.
pub open spec fn joined_keys(s: Seq<PeerKey>) -> Seq<(Seq<u8>, i64)> {
    s.map_values(|p: PeerKey| (p.0@ + p.1@, p.2))
}

/// The text of a URL that a key stands for, as bytes.
pub open spec fn urls_of(keys: Seq<Seq<u8>>) -> Seq<Seq<u8>> {
    keys.map_values(|k: Seq<u8>| encode_utf8(lossy_text(k)))
}

/// The test for keys of torrents.
pub open spec fn is_infohash() -> spec_fn(Seq<u8>) -> bool {
    |k: Seq<u8>| k.len() == 20
}

/// Whether the nodes that keys name are asked for, each once, in order.
pub open spec fn plans_nodes(keys: Seq<Seq<u8>>, r: Seq<Vec<(Vec<u8>, i64)>>) -> bool {
    exists|flat: Seq<(Vec<u8>, i64)>|
        pieces(r) == #[trigger] cut(flat, NODE_CHUNK as nat) && pairs_strictly_ascend(pairs(flat))
            && forall|x: (Seq<u8>, i64)| #[trigger] pairs(flat).contains(x) <==> names_node(keys, x)
}

/// Whether the peers that keys name are asked for, each once, in order.
pub open spec fn plans_peers(keys: Seq<Seq<u8>>, r: Seq<Vec<PeerKey>>) -> bool {
    exists|flat: Seq<PeerKey>|
        pieces(r) == #[trigger] cut(flat, PEER_CHUNK as nat) && pairs_strictly_ascend(
            joined_keys(flat),
        ) && (forall|i: int| 0 <= i < flat.len() ==> (#[trigger] flat[i]).0@.len() == 20) && forall|
            x: (Seq<u8>, i64),
        | #[trigger] joined_keys(flat).contains(x) <==> names_peer(keys, x)
}

/// Whether the torrents that keys name are asked for, as they come.
pub open spec fn plans_infohashes(keys: Seq<Seq<u8>>, r: Seq<Vec<Vec<u8>>>) -> bool {
    exists|flat: Seq<Vec<u8>>|
        pieces(r) == #[trigger] cut(flat, INFOHASH_CHUNK as nat) && texts(flat) == keys.filter(
            is_infohash(),
        )
}

/// Whether the trackers that keys name are asked for, each once, in order.
pub open spec fn plans_trackers(keys: Seq<Seq<u8>>, r: Seq<Vec<Vec<u8>>>) -> bool {
    exists|flat: Seq<Vec<u8>>|
        pieces(r) == #[trigger] cut(flat, TRACKER_CHUNK as nat) && strictly_ascend(texts(flat))
            && forall|x: Seq<u8>| #[trigger] texts(flat).contains(x) <==> urls_of(keys).contains(x)
}

fn plan_nodes(keys: &Vec<Vec<u8>>) -> (r: Vec<Vec<(Vec<u8>, i64)>>)
    ensures
        plans_nodes(texts(keys@), r@),
{
    let ghost all = texts(keys@);
    let mut found: Vec<(Vec<u8>, i64)> = Vec::new();
    let mut i: usize = 0;
    while i < keys.len()
        invariant
            0 <= i <= keys@.len(),
            all == texts(keys@),
            forall|x: (Seq<u8>, i64)| #[trigger]
                pairs(found@).contains(x) <==> names_node(all.take(i as int), x),
        decreases keys@.len() - i,
    {
        let ghost before = pairs(found@);
        match parse_node_key(keys[i].as_slice()) {
            Some(p) => {
                let ghost x = (p.0@, p.1);
                found.push(p);
                proof {
                    assert(pairs(found@) =~= before.push(x));
                    lemma_pushed(before, x);
                }
            },
            None => {},
        }
        proof {
            assert forall|x: (Seq<u8>, i64)| #[trigger]
                pairs(found@).contains(x) <==> names_node(all.take(i + 1), x) by {
                lemma_names_node(all, i as int, x);
                assert(before.contains(x) <==> names_node(all.take(i as int), x));
            }
        }
        i = i + 1;
    }
    proof {
        assert(all.take(i as int) =~= all);
    }
    let flat = sort_dedup_pairs(found);
    let ghost f = flat@;
    let r = chunks_of(flat, NODE_CHUNK);
    proof {
        assert forall|x: (Seq<u8>, i64)| #[trigger] pairs(f).contains(x) <==> names_node(
            all,
            x,
        ) by {
            assert(pairs(f).contains(x) <==> pairs(found@).contains(x));
        }
        assert(pieces(r@) == cut(f, NODE_CHUNK as nat));
    }
    r
}

proof fn lemma_names_node(keys: Seq<Seq<u8>>, n: int, x: (Seq<u8>, i64))
    requires
        0 <= n < keys.len(),
    ensures
        names_node(keys.take(n + 1), x) <==> names_node(keys.take(n), x) || node_named(keys[n])
            == Some(x),
{
    let a = keys.take(n);
    let b = keys.take(n + 1);
    if names_node(a, x) {
        let i = choose|i: int| 0 <= i < a.len() && #[trigger] node_named(a[i]) == Some(x);
        assert(b[i] == a[i]);
        assert(node_named(b[i]) == Some(x));
    }
    if node_named(keys[n]) == Some(x) {
        assert(b[n] == keys[n]);
        assert(node_named(b[n]) == Some(x));
    }
    if names_node(b, x) {
        let i = choose|i: int| 0 <= i < b.len() && #[trigger] node_named(b[i]) == Some(x);
        if i < n {
            assert(a[i] == b[i]);
            assert(node_named(a[i]) == Some(x));
        }
    }
}

proof fn lemma_names_peer(keys: Seq<Seq<u8>>, n: int, x: (Seq<u8>, i64))
    requires
        0 <= n < keys.len(),
    ensures
        names_peer(keys.take(n + 1), x) <==> names_peer(keys.take(n), x) || peer_named(keys[n])
            == Some(x),
{
    let a = keys.take(n);
    let b = keys.take(n + 1);
    if names_peer(a, x) {
        let i = choose|i: int| 0 <= i < a.len() && #[trigger] peer_named(a[i]) == Some(x);
        assert(b[i] == a[i]);
        assert(peer_named(b[i]) == Some(x));
    }
    if peer_named(keys[n]) == Some(x) {
        assert(b[n] == keys[n]);
        assert(peer_named(b[n]) == Some(x));
    }
    if names_peer(b, x) {
        let i = choose|i: int| 0 <= i < b.len() && #[trigger] peer_named(b[i]) == Some(x);
        if i < n {
            assert(a[i] == b[i]);
            assert(peer_named(a[i]) == Some(x));
        }
    }
}

fn peer_pairs(keys: &Vec<Vec<u8>>) -> (r: Vec<(Vec<u8>, i64)>)
    ensures
        forall|x: (Seq<u8>, i64)| #[trigger]
            pairs(r@).contains(x) <==> names_peer(texts(keys@), x),
        forall|i: int| 0 <= i < pairs(r@).len() ==> (#[trigger] pairs(r@)[i]).0.len() >= 20,
{
    let ghost all = texts(keys@);
    let mut found: Vec<(Vec<u8>, i64)> = Vec::new();
    let mut i: usize = 0;
    while i < keys.len()
        invariant
            0 <= i <= keys@.len(),
            all == texts(keys@),
            forall|x: (Seq<u8>, i64)| #[trigger]
                pairs(found@).contains(x) <==> names_peer(all.take(i as int), x),
            forall|i: int|
                0 <= i < pairs(found@).len() ==> (#[trigger] pairs(found@)[i]).0.len() >= 20,
        decreases keys@.len() - i,
    {
        let ghost before = pairs(found@);
        match parse_peer_key(keys[i].as_slice()) {
            Some(p) => {
                let ghost x = (p.0@, p.1);
                found.push(p);
                proof {
                    assert(pairs(found@) =~= before.push(x));
                    lemma_pushed(before, x);
                }
            },
            None => {},
        }
        proof {
            assert forall|x: (Seq<u8>, i64)| #[trigger]
                pairs(found@).contains(x) <==> names_peer(all.take(i + 1), x) by {
                lemma_names_peer(all, i as int, x);
                assert(before.contains(x) <==> names_peer(all.take(i as int), x));
            }
        }
        i = i + 1;
    }
    proof {
        assert(all.take(i as int) =~= all);
    }
    found
}

fn plan_peers(keys: &Vec<Vec<u8>>) -> (r: Vec<Vec<PeerKey>>)
    ensures
        plans_peers(texts(keys@), r@),
{
    let ghost all = texts(keys@);
    let found = peer_pairs(keys);
    let ghost p = pairs(found@);
    let sorted = sort_dedup_pairs(found);
    let ghost s = pairs(sorted@);
    proof {
        assert forall|i: int| 0 <= i < s.len() implies (#[trigger] s[i]).0.len() >= 20 by {
            assert(s.contains(s[i]));
            assert(p.contains(s[i]));
            let k = choose|k: int| 0 <= k < p.len() && p[k] == s[i];
            assert(p[k].0.len() >= 20);
        }
    }
    let mut flat: Vec<PeerKey> = Vec::new();
    let mut i: usize = 0;
    while i < sorted.len()
        invariant
            0 <= i <= sorted@.len(),
            s == pairs(sorted@),
            forall|i: int| 0 <= i < s.len() ==> (#[trigger] s[i]).0.len() >= 20,
            joined_keys(flat@) == s.take(i as int),
            forall|k: int| 0 <= k < flat@.len() ==> (#[trigger] flat@[k]).0@.len() == 20,
        decreases sorted@.len() - i,
    {
        proof {
            assert(s[i as int].0 == sorted@[i as int].0@);
            assert(s[i as int].0.len() >= 20);
        }
        let ghost before = joined_keys(flat@);
        let whole = sorted[i].0.as_slice();
        let ih = copy_range(whole, 0, 20);
        let ip = copy_range(whole, 20, whole.len());
        proof {
            assert(ih@ + ip@ =~= whole@);
        }
        flat.push((ih, ip, sorted[i].1));
        proof {
            assert(joined_keys(flat@) =~= before.push(s[i as int]));
            assert(s.take(i + 1) =~= s.take(i as int).push(s[i as int]));
        }
        i = i + 1;
    }
    let ghost f = flat@;
    proof {
        assert(s.take(i as int) =~= s);
        assert forall|x: (Seq<u8>, i64)| #[trigger] joined_keys(f).contains(x) <==> names_peer(
            all,
            x,
        ) by {
            assert(s.contains(x) <==> p.contains(x));
            assert(p.contains(x) <==> names_peer(all, x));
        }
    }
    let r = chunks_of(flat, PEER_CHUNK);
    proof {
        assert(pieces(r@) == cut(f, PEER_CHUNK as nat));
    }
    r
}

fn plan_infohashes(keys: &Vec<Vec<u8>>) -> (r: Vec<Vec<Vec<u8>>>)
    ensures
        plans_infohashes(texts(keys@), r@),
{
    let ghost all = texts(keys@);
    let ghost p = is_infohash();
    let mut flat: Vec<Vec<u8>> = Vec::new();
    let mut i: usize = 0;
    proof {
        reveal(Seq::filter);
        assert(texts(flat@) =~= all.take(0).filter(p));
    }
    while i < keys.len()
        invariant
            0 <= i <= keys@.len(),
            all == texts(keys@),
            p == is_infohash(),
            texts(flat@) == all.take(i as int).filter(p),
        decreases keys@.len() - i,
    {
        let ghost before = texts(flat@);
        proof {
            lemma_filter_step(all, p, i as int);
        }
        if keys[i].len() == 20 {
            flat.push(copy_bytes(keys[i].as_slice()));
            proof {
                assert(texts(flat@) =~= before.push(all[i as int]));
            }
        }
        i = i + 1;
    }
    proof {
        assert(all.take(i as int) =~= all);
    }
    let ghost f = flat@;
    let r = chunks_of(flat, INFOHASH_CHUNK);
    proof {
        assert(pieces(r@) == cut(f, INFOHASH_CHUNK as nat));
    }
    r
}

fn plan_trackers(keys: &Vec<Vec<u8>>) -> (r: Vec<Vec<Vec<u8>>>)
    ensures
        plans_trackers(texts(keys@), r@),
{
    let ghost all = texts(keys@);
    let mut urls: Vec<Vec<u8>> = Vec::new();
    let mut i: usize = 0;
    while i < keys.len()
        invariant
            0 <= i <= keys@.len(),
            all == texts(keys@),
            texts(urls@) == urls_of(all).take(i as int),
        decreases keys@.len() - i,
    {
        let ghost before = texts(urls@);
        let text = utf8_lossy(keys[i].as_slice());
        urls.push(copy_bytes(text.as_str().as_bytes()));
        proof {
            assert(texts(urls@) =~= before.push(urls_of(all)[i as int]));
            assert(urls_of(all).take(i + 1) =~= before.push(urls_of(all)[i as int]));
        }
        i = i + 1;
    }
    proof {
        assert(urls_of(all).take(i as int) =~= urls_of(all));
    }
    let flat = sort_dedup(urls);
    let ghost f = flat@;
    let r = chunks_of(flat, TRACKER_CHUNK);
    proof {
        assert(pieces(r@) == cut(f, TRACKER_CHUNK as nat));
    }
    r
}

/// Whether the rows that keys name are asked for.
pub open spec fn plans(repo: u8, keys: Seq<Seq<u8>>, r: EntryPlan) -> bool {
    match repo_of(repo) {
        Some(Repo::Node) => r matches EntryPlan::Nodes(p) && plans_nodes(keys, p@),
        Some(Repo::Peer) => r matches EntryPlan::Peers(p) && plans_peers(keys, p@),
        Some(Repo::Infohash) => r matches EntryPlan::Infohashes(p) && plans_infohashes(keys, p@),
        Some(Repo::Tracker) => r matches EntryPlan::Trackers(p) && plans_trackers(keys, p@),
        None => r is Nothing,
    }
}

/// Which rows to ask for so as to find what keys name. Keys that name nothing in the table
/// are passed over.
pub fn plan_entries_by_keys(repo: u8, keys: &Vec<Vec<u8>>) -> (r: EntryPlan)
    ensures
        plans(repo, texts(keys@), r),
{
    match Repo::from_code(repo) {
        Some(Repo::Node) => EntryPlan::Nodes(plan_nodes(keys)),
        Some(Repo::Peer) => EntryPlan::Peers(plan_peers(keys)),
        Some(Repo::Infohash) => EntryPlan::Infohashes(plan_infohashes(keys)),
        Some(Repo::Tracker) => EntryPlan::Trackers(plan_trackers(keys)),
        None => EntryPlan::Nothing,
    }
}

/// What an entry is made of: a node or a peer by its identifier and the text of its address,
/// a torrent, or a tracker.
pub enum EntrySubject {
    Node([u8; 20], Vec<u8>),
    Peer([u8; 20], Vec<u8>),
    Infohash([u8; 20]),
    Tracker(String),
}

/// What an entry is made of, by its contents.
pub enum SubjectView {
    Node(Seq<u8>, Seq<u8>),
    Peer(Seq<u8>, Seq<u8>),
    Infohash(Seq<u8>),
    Tracker(Seq<char>),
}

impl View for EntrySubject {
    type V = SubjectView;

    open spec fn view(&self) -> SubjectView {
        match self {
            EntrySubject::Node(id, addr) => SubjectView::Node(id@, addr@),
            EntrySubject::Peer(id, addr) => SubjectView::Peer(id@, addr@),
            EntrySubject::Infohash(id) => SubjectView::Infohash(id@),
            EntrySubject::Tracker(url) => SubjectView::Tracker(url@),
        }
    }
}

/// What the entry of a row is made of. A torrent whose identifier has not twenty bytes has
/// no entry.
pub open spec fn subject_of(rows: RepoRows, i: int) -> Option<SubjectView> {
    match rows {
        RepoRows::Nodes(v) => Some(
            SubjectView::Node(id_of(v@[i].id@), socket_text_of(v@[i].ip@, v@[i].port as int)),
        ),
        RepoRows::Peers(v) => Some(
            SubjectView::Peer(id_of(v@[i].id@), socket_text_of(v@[i].ip@, v@[i].port as int)),
        ),
        RepoRows::Infohashes(v) => if v@[i]@.len() == 20 {
            Some(SubjectView::Infohash(v@[i]@))
        } else {
            None
        },
        RepoRows::Trackers(v) => Some(SubjectView::Tracker(v@[i]@)),
    }
}

/// A key, what is stored under it, and its digest.
pub type Built = (Vec<u8>, Vec<u8>, Vec<u8>);

/// The entries that were built: each says that what is stored under the key is to be put
/// there.
pub open spec fn entries_of(built: Seq<Option<Built>>) -> Seq<SyncView>
    decreases built.len(),
{
    if built.len() == 0 {
        Seq::empty()
    } else {
        let before = entries_of(built.drop_last());
        match built.last() {
            Some(b) => before.push(
                SyncView {
                    key: b.0@,
                    operation: Operation::Upsert,
                    version: 0,
                    payload: b.1@,
                },
            ),
            None => before,
        }
    }
}

/// Whether something was built from each row that has an entry, and nothing from another.
pub open spec fn built_from<F: Fn(EntrySubject) -> Option<Built>>(
    rows: RepoRows,
    build: F,
    built: Seq<Option<Built>>,
) -> bool {
    &&& built.len() == rows.spec_len()
    &&& forall|i: int|
        0 <= i < built.len() ==> built_one(rows, build, i, #[trigger] built[i])
}

/// Whether this was built from a row.
pub open spec fn built_one<F: Fn(EntrySubject) -> Option<Built>>(
    rows: RepoRows,
    build: F,
    i: int,
    built: Option<Built>,
) -> bool {
    match subject_of(rows, i) {
        Some(v) => exists|s: EntrySubject|
            s@ == v && #[trigger] call_ensures(build, (s,), built),
        None => built is None,
    }
}

fn row_subject(rows: &RepoRows, i: usize) -> (r: Option<EntrySubject>)
    requires
        i < rows.spec_len(),
    ensures
        r is Some <==> subject_of(*rows, i as int) is Some,
        r matches Some(s) ==> subject_of(*rows, i as int) == Some(s@),
{
    match rows {
        RepoRows::Nodes(v) => Some(
            EntrySubject::Node(
                id_from_row(v[i].id.as_slice()),
                socket_text(v[i].ip.as_str(), v[i].port),
            ),
        ),
        RepoRows::Peers(v) => Some(
            EntrySubject::Peer(
                id_from_row(v[i].id.as_slice()),
                socket_text(v[i].ip.as_str(), v[i].port),
            ),
        ),
        RepoRows::Infohashes(v) => {
            if v[i].len() == 20 {
                let id = array20(v[i].as_slice());
                proof {
                    assert(v@[i as int]@.take(20) =~= v@[i as int]@);
                }
                Some(EntrySubject::Infohash(id))
            } else {
                None
            }
        },
        RepoRows::Trackers(v) => Some(EntrySubject::Tracker(v[i].clone())),
    }
}

/// The entries of rows, in order. `build` makes the key and what is stored under it, or
/// nothing where a row makes no sense.
pub fn sync_entries<F: Fn(EntrySubject) -> Option<Built>>(rows: &RepoRows, build: F) -> (r: Vec<
    SyncEntry,
>)
    requires
        forall|s: EntrySubject| call_requires(build, (s,)),
    ensures
        exists|built: Seq<Option<Built>>| #[trigger]
            built_from(*rows, build, built) && sync_views(r@) == entries_of(built),
{
    let n: usize = match rows {
        RepoRows::Nodes(v) => v.len(),
        RepoRows::Peers(v) => v.len(),
        RepoRows::Infohashes(v) => v.len(),
        RepoRows::Trackers(v) => v.len(),
    };
    let mut out: Vec<SyncEntry> = Vec::new();
    let ghost mut built: Seq<Option<Built>> = Seq::empty();
    let mut i: usize = 0;
    proof {
        assert(sync_views(out@) =~= entries_of(built));
    }
    while i < n
        invariant
            0 <= i <= n,
            n == rows.spec_len(),
            forall|s: EntrySubject| call_requires(build, (s,)),
            built.len() == i,
            forall|k: int| 0 <= k < i ==> built_one(*rows, build, k, #[trigger] built[k]),
            sync_views(out@) == entries_of(built),
        decreases n - i,
    {
        let ghost before = sync_views(out@);
        let ghost so_far = built;
        let one: Option<Built> = match row_subject(rows, i) {
            Some(s) => {
                let ghost v = s;
                let b = build(s);
                proof {
                    assert(call_ensures(build, (v,), b));
                }
                b
            },
            None => None,
        };
        proof {
            built = so_far.push(one);
            assert(built.drop_last() =~= so_far);
            assert(built_one(*rows, build, i as int, one));
        }
        match one {
            Some(b) => {
                let (key, payload, _) = b;
                let e = SyncEntry { key, operation: Operation::Upsert, version: 0, payload };
                let ghost view = e@;
                out.push(e);
                proof {
                    assert(sync_views(out@) =~= before.push(view));
                }
            },
            None => {},
        }
        i = i + 1;
    }
    proof {
        assert(built_from(*rows, build, built));
    }
    out
}

proof fn lemma_signed_round_trip(port: i64)
    ensures
        signed_value(signed_decimal(port as int)) == Some(port as int),
        forall|i: int|
            0 <= i < signed_decimal(port as int).len() ==> (#[trigger] signed_decimal(
                port as int,
            )[i]) != 58 && signed_decimal(port as int)[i] < 128,
{
    let s = signed_decimal(port as int);
    if port < 0 {
        let n = (-(port as int)) as nat;
        decimal_round_trip(n);
        assert(s.skip(1) =~= decimal(n));
        assert forall|i: int| 0 <= i < s.len() implies (#[trigger] s[i]) != 58 && s[i] < 128 by {
            if i > 0 {
                assert(s[i] == decimal(n)[i - 1]);
            }
        }
    } else {
        decimal_round_trip(port as nat);
        assert(crate::text::is_digit(s[0]));
        assert forall|i: int| 0 <= i < s.len() implies (#[trigger] s[i]) != 58 && s[i] < 128 by {
            assert(crate::text::is_digit(s[i]));
        }
    }
}

/// The key of a node names its address and port.
pub proof fn node_key_round_trip(ip: Seq<char>, port: i64)
    ensures
        node_named(node_key_of(ip, port as int)) == Some((encode_utf8(ip), port)),
{
    let a = encode_utf8(ip);
    let d = signed_decimal(port as int);
    let tail = seq![58u8] + d;
    let key = node_key_of(ip, port as int);
    assert(key =~= a + tail);
    lemma_signed_round_trip(port);
    assert forall|i: int| 0 <= i < tail.len() implies #[trigger] tail[i] < 128 by {
        if i > 0 {
            assert(tail[i] == d[i - 1]);
        }
    }
    lemma_ascii_is_utf8(tail);
    encode_utf8_valid_utf8(ip);
    valid_utf8_concat(a, tail);
    let c = a.len() as int;
    assert forall|i: int| c < i < key.len() implies key[i] != 58 by {
        assert(key[i] == d[i - c - 1]);
    }
    lemma_is_last_colon(key, c);
    assert(key.take(c) =~= a);
    assert(key.skip(c + 1) =~= d);
}

/// The key of a peer names its torrent, address and port.
pub proof fn peer_key_round_trip(infohash: Seq<u8>, ip: Seq<char>, port: i64)
    requires
        infohash.len() == 20,
    ensures
        peer_named(peer_key_of(infohash, ip, port as int)) == Some(
            (infohash + encode_utf8(ip), port),
        ),
{
    let h = ascii(hex_text(infohash));
    let tail = node_key_of(ip, port as int);
    let key = peer_key_of(infohash, ip, port as int);
    hex_round_trip(infohash);
    node_key_round_trip(ip, port);
    let c = h.len() as int;
    assert forall|i: int| 0 <= i < c implies key[i] != 58 by {
        assert(crate::text::hex_value(h[i]) is Some);
        assert(key[i] == h[i]);
    }
    assert(key[c] == 58);
    lemma_is_first_colon(key, c);
    assert(key.take(c) =~= h);
    assert(key.skip(c + 1) =~= tail);
}

} // verus!
