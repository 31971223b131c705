//! What the tables of the database hold and how rows are named, hashed and counted.
//!
//! The database itself is the caller's. A row is named by its key: a node by `ip:port`, a
//! peer by `infohash:ip:port` with the infohash in hexadecimal digits, a torrent by its
//! bytes, a tracker by its URL.

use vstd::prelude::*;
use vstd::string::*;
use vstd::utf8::*;

use crate::bytes::{array20, copy_bytes};
use crate::digest::{blake3, blake3_of};
use crate::sorting::{sort_dedup, strictly_ascend, texts};
use crate::text::{
    ascii, hex_encode, hex_text, lemma_hex_is_ascii, push_decimal, push_str, signed_decimal, str_eq,
};

verus! {

/// How often and how much was written to each table.
#[derive(Debug, Clone, Copy, PartialEq, Eq, Structural)]
pub struct WriteStats {
    pub dht_nodes_writes: u64,
    pub dht_nodes_rows: u64,
    pub peers_writes: u64,
    pub peers_rows: u64,
    pub peer_history_writes: u64,
    pub peer_history_rows: u64,
    pub trackers_writes: u64,
    pub trackers_rows: u64,
    pub infohashes_writes: u64,
    pub infohashes_rows: u64,
    pub stats_writes: u64,
    pub total_writes: u64,
}

/// Nothing was written.
pub open spec fn no_writes() -> WriteStats {
    WriteStats {
        dht_nodes_writes: 0,
        dht_nodes_rows: 0,
        peers_writes: 0,
        peers_rows: 0,
        peer_history_writes: 0,
        peer_history_rows: 0,
        trackers_writes: 0,
        trackers_rows: 0,
        infohashes_writes: 0,
        infohashes_rows: 0,
        stats_writes: 0,
        total_writes: 0,
    }
}

impl Default for WriteStats {
    fn default() -> (r: Self)
        ensures
            r == no_writes(),
    {
        WriteStats {
            dht_nodes_writes: 0,
            dht_nodes_rows: 0,
            peers_writes: 0,
            peers_rows: 0,
            peer_history_writes: 0,
            peer_history_rows: 0,
            trackers_writes: 0,
            trackers_rows: 0,
            infohashes_writes: 0,
            infohashes_rows: 0,
            stats_writes: 0,
            total_writes: 0,
        }
    }
}

impl WriteStats {
    /// The counts after rows were written to a table. Every write counts, of a table that is
    /// not known nothing else.
    pub open spec fn written(self, table: Seq<char>, rows: u64) -> WriteStats {
        let s = WriteStats { total_writes: self.total_writes.wrapping_add(1), ..self };
        if table == "dht_nodes"@ {
            WriteStats {
                dht_nodes_writes: s.dht_nodes_writes.wrapping_add(1),
                dht_nodes_rows: s.dht_nodes_rows.wrapping_add(rows),
                ..s
            }
        } else if table == "peers"@ {
            WriteStats {
                peers_writes: s.peers_writes.wrapping_add(1),
                peers_rows: s.peers_rows.wrapping_add(rows),
                ..s
            }
        } else if table == "peer_history"@ {
            WriteStats {
                peer_history_writes: s.peer_history_writes.wrapping_add(1),
                peer_history_rows: s.peer_history_rows.wrapping_add(rows),
                ..s
            }
        } else if table == "trackers"@ {
            WriteStats {
                trackers_writes: s.trackers_writes.wrapping_add(1),
                trackers_rows: s.trackers_rows.wrapping_add(rows),
                ..s
            }
        } else if table == "infohashes"@ {
            WriteStats {
                infohashes_writes: s.infohashes_writes.wrapping_add(1),
                infohashes_rows: s.infohashes_rows.wrapping_add(rows),
                ..s
            }
        } else if table == "stats"@ {
            WriteStats { stats_writes: s.stats_writes.wrapping_add(1), ..s }
        } else {
            s
        }
    }

    /// Counts a write to a table.
    pub fn record_write(&mut self, table: &str, rows: u64)
        ensures
            *final(self) == old(self).written(table@, rows),
    {
        self.total_writes = self.total_writes.wrapping_add(1);
        if str_eq(table, "dht_nodes") {
            self.dht_nodes_writes = self.dht_nodes_writes.wrapping_add(1);
            self.dht_nodes_rows = self.dht_nodes_rows.wrapping_add(rows);
        } else if str_eq(table, "peers") {
            self.peers_writes = self.peers_writes.wrapping_add(1);
            self.peers_rows = self.peers_rows.wrapping_add(rows);
        } else if str_eq(table, "peer_history") {
            self.peer_history_writes = self.peer_history_writes.wrapping_add(1);
            self.peer_history_rows = self.peer_history_rows.wrapping_add(rows);
        } else if str_eq(table, "trackers") {
            self.trackers_writes = self.trackers_writes.wrapping_add(1);
            self.trackers_rows = self.trackers_rows.wrapping_add(rows);
        } else if str_eq(table, "infohashes") {
            self.infohashes_writes = self.infohashes_writes.wrapping_add(1);
            self.infohashes_rows = self.infohashes_rows.wrapping_add(rows);
        } else if str_eq(table, "stats") {
            self.stats_writes = self.stats_writes.wrapping_add(1);
        }
    }
}

/// How many rows that are not deleted there are, as far as they have been counted.
#[derive(Debug, Clone, Copy, PartialEq, Eq, Structural)]
pub struct EntityCounts {
    pub dht_nodes: i64,
    pub peers: i64,
    pub peers_archive: i64,
    pub infohashes: i64,
    pub trackers: i64,
}

impl EntityCounts {
    /// Nothing has been counted yet.
    pub fn uncounted() -> (r: Self)
        ensures
            r.dht_nodes == -1,
            r.peers == -1,
            r.peers_archive == -1,
            r.infohashes == -1,
            r.trackers == -1,
    {
        EntityCounts { dht_nodes: -1, peers: -1, peers_archive: -1, infohashes: -1, trackers: -1 }
    }

    /// Takes over what was counted.
    pub fn refresh_entity_counts(&mut self, counted: EntityCounts) -> (r: EntityCounts)
        ensures
            *final(self) == counted,
            r == counted,
    {
        *self = counted;
        counted
    }

    /// What was counted last. Nothing where the rows are still to be counted.
    pub fn entity_counts_cached(&self) -> (r: Option<EntityCounts>)
        ensures
            r == if self.dht_nodes < 0 {
                None::<EntityCounts>
            } else {
                Some(*self)
            },
    {
        if self.dht_nodes < 0 {
            None
        } else {
            Some(*self)
        }
    }
}

/// Appends the decimal numeral of a number that may be negative.
pub fn push_signed(out: &mut Vec<u8>, n: i64)
    ensures
        final(out)@ == old(out)@ + signed_decimal(n as int),
{
    let ghost before = out@;
    if n < 0 {
        out.push(45);
        let m: u64 = (-(n + 1)) as u64 + 1;
        push_decimal(out, m);
        proof {
            assert(out@ =~= before + signed_decimal(n as int));
        }
    } else {
        push_decimal(out, n as u64);
    }
}

/// The eight bytes of a number, least significant first.
pub open spec fn le64(n: u64) -> Seq<u8> {
    seq![
        (n % 256) as u8,
        (n / 0x100 % 256) as u8,
        (n / 0x1_0000 % 256) as u8,
        (n / 0x100_0000 % 256) as u8,
        (n / 0x1_0000_0000 % 256) as u8,
        (n / 0x100_0000_0000 % 256) as u8,
        (n / 0x1_0000_0000_0000 % 256) as u8,
        (n / 0x100_0000_0000_0000 % 256) as u8
    ]
}

fn push_le64(out: &mut Vec<u8>, n: u64)
    ensures
        final(out)@ == old(out)@ + le64(n),
{
    let ghost before = out@;
    out.push((n % 256) as u8);
    out.push((n / 0x100 % 256) as u8);
    out.push((n / 0x1_0000 % 256) as u8);
    out.push((n / 0x100_0000 % 256) as u8);
    out.push((n / 0x1_0000_0000 % 256) as u8);
    out.push((n / 0x100_0000_0000 % 256) as u8);
    out.push((n / 0x1_0000_0000_0000 % 256) as u8);
    out.push((n / 0x100_0000_0000_0000 % 256) as u8);
    proof {
        assert(out@ =~= before + le64(n));
    }
}

/// An identifier as it is read from a row: twenty zero bytes where it has another length.
pub open spec fn id_of(bytes: Seq<u8>) -> Seq<u8> {
    if bytes.len() == 20 {
        bytes
    } else {
        Seq::new(20, |i: int| 0u8)
    }
}

/// An identifier as it is read from a row.
pub fn id_from_row(bytes: &[u8]) -> (r: [u8; 20])
    ensures
        r@ == id_of(bytes@),
{
    if bytes.len() == 20 {
        let r = array20(bytes);
        proof {
            assert(bytes@.take(20) =~= bytes@);
        }
        r
    } else {
        let r: [u8; 20] = [0; 20];
        proof {
            assert(r@ =~= id_of(bytes@));
        }
        r
    }
}

/// The key of a node: `ip:port`.
pub open spec fn node_key_of(ip: Seq<char>, port: int) -> Seq<u8> {
    encode_utf8(ip) + seq![58u8] + signed_decimal(port)
}

/// The key of a node.
pub fn node_key(ip: &str, port: i64) -> (r: Vec<u8>)
    ensures
        r@ == node_key_of(ip@, port as int),
{
    let mut out: Vec<u8> = Vec::new();
    push_str(&mut out, ip);
    out.push(58);
    push_signed(&mut out, port);
    proof {
        assert(out@ =~= node_key_of(ip@, port as int));
    }
    out
}

/// Whether a host needs brackets where a port follows it: it holds a colon, and does not
/// start with a bracket already.
pub open spec fn needs_brackets(ip: Seq<char>) -> bool {
    let b = encode_utf8(ip);
    b.contains(58u8) && b[0] != 91
}

/// The text of a socket address: `ip:port`, or `[ip]:port` where the host holds colons.
pub open spec fn socket_text_of(ip: Seq<char>, port: int) -> Seq<u8> {
    if needs_brackets(ip) {
        seq![91u8] + encode_utf8(ip) + seq![93u8, 58u8] + signed_decimal(port)
    } else {
        node_key_of(ip, port)
    }
}

fn is_bare_v6(ip: &str) -> (r: bool)
    ensures
        r == needs_brackets(ip@),
{
    let b = ip.as_bytes();
    let mut i: usize = 0;
    while i < b.len()
        invariant
            0 <= i <= b@.len(),
            b@ == encode_utf8(ip@),
            forall|k: int| 0 <= k < i ==> b@[k] != 58,
        decreases b@.len() - i,
    {
        if b[i] == 58 {
            assert(b@.contains(58u8));
            return b[0] != 91;
        }
        i = i + 1;
    }
    false
}

/// The text of a socket address.
pub fn socket_text(ip: &str, port: i64) -> (r: Vec<u8>)
    ensures
        r@ == socket_text_of(ip@, port as int),
{
    if !is_bare_v6(ip) {
        return node_key(ip, port);
    }
    let mut out: Vec<u8> = vec![91];
    push_str(&mut out, ip);
    out.push(93);
    out.push(58);
    push_signed(&mut out, port);
    proof {
        assert(out@ =~= socket_text_of(ip@, port as int));
    }
    out
}

/// The key of a peer: `infohash:ip:port`, the infohash in hexadecimal digits.
pub open spec fn peer_key_of(infohash: Seq<u8>, ip: Seq<char>, port: int) -> Seq<u8> {
    ascii(hex_text(infohash)) + seq![58u8] + node_key_of(ip, port)
}

/// The key of a peer.
pub fn peer_key(infohash: &[u8], ip: &str, port: i64) -> (r: Vec<u8>)
    ensures
        r@ == peer_key_of(infohash@, ip@, port as int),
{
    let mut out: Vec<u8> = Vec::new();
    let digits = hex_encode(infohash);
    let text = digits.as_str();
    proof {
        lemma_hex_is_ascii(infohash@, text);
    }
    push_str(&mut out, text);
    out.push(58);
    let mut rest = node_key(ip, port);
    out.append(&mut rest);
    proof {
        assert(out@ =~= peer_key_of(infohash@, ip@, port as int));
    }
    out
}

/// The shard of a key: the first two bytes of its digest as a number.
pub open spec fn l2_shard_of(key: Seq<u8>) -> int {
    blake3_of(key)[0] as int * 256 + blake3_of(key)[1] as int
}

/// The shard of a key.
pub fn compute_l2_shard(key: &[u8]) -> (r: u32)
    ensures
        r == l2_shard_of(key@),
        r < 65536,
{
    let h: [u8; 32] = blake3(key);
    proof {
        assert(h@[0] == h[0] && h@[1] == h[1]);
    }
    h[0] as u32 * 256 + h[1] as u32
}

/// The shard of a peer.
pub fn peer_shard_index(infohash: &[u8], ip: &str, port: u16) -> (r: i64)
    ensures
        r == l2_shard_of(peer_key_of(infohash@, ip@, port as int)),
{
    compute_l2_shard(peer_key(infohash, ip, port as i64).as_slice()) as i64
}

/// The shard of a node.
pub fn node_shard_index(ip: &str, port: u16) -> (r: i64)
    ensures
        r == l2_shard_of(node_key_of(ip@, port as int)),
{
    compute_l2_shard(node_key(ip, port as i64).as_slice()) as i64
}

/// A row of a node or a peer as far as its key and its digest go: the identifier, of the
/// node or of the torrent, and the address.
pub struct AddrRow {
    pub id: Vec<u8>,
    pub ip: String,
    pub port: i64,
}

/// Rows of one of the tables.
pub enum RepoRows {
    Nodes(Vec<AddrRow>),
    Peers(Vec<AddrRow>),
    Infohashes(Vec<Vec<u8>>),
    Trackers(Vec<String>),
}

impl RepoRows {
    /// How many rows there are.
    pub open spec fn spec_len(self) -> nat {
        match self {
            RepoRows::Nodes(rows) => rows@.len(),
            RepoRows::Peers(rows) => rows@.len(),
            RepoRows::Infohashes(rows) => rows@.len(),
            RepoRows::Trackers(rows) => rows@.len(),
        }
    }

    /// The key of a row.
    pub open spec fn key_of(self, i: int) -> Seq<u8> {
        match self {
            RepoRows::Nodes(rows) => node_key_of(rows@[i].ip@, rows@[i].port as int),
            RepoRows::Peers(rows) => peer_key_of(
                id_of(rows@[i].id@),
                rows@[i].ip@,
                rows@[i].port as int,
            ),
            RepoRows::Infohashes(rows) => rows@[i]@,
            RepoRows::Trackers(rows) => encode_utf8(rows@[i]@),
        }
    }

    /// The bytes of a row that its digest covers.
    pub open spec fn data_of(self, i: int) -> Seq<u8> {
        match self {
            RepoRows::Nodes(rows) => addr_data(rows@[i]),
            RepoRows::Peers(rows) => addr_data(rows@[i]),
            RepoRows::Infohashes(rows) => rows@[i]@,
            RepoRows::Trackers(rows) => encode_utf8(rows@[i]@),
        }
    }
}

/// The identifier, the address and the port of a row, one behind the other.
pub open spec fn addr_data(row: AddrRow) -> Seq<u8> {
    row.id@ + encode_utf8(row.ip@) + le64(row.port as u64)
}

fn addr_hash(row: &AddrRow) -> (r: Vec<u8>)
    ensures
        r@ == blake3_of(addr_data(*row)),
{
    let mut buf: Vec<u8> = copy_bytes(row.id.as_slice());
    push_str(&mut buf, row.ip.as_str());
    push_le64(&mut buf, row.port as u64);
    let h: [u8; 32] = blake3(buf.as_slice());
    copy_bytes(h.as_slice())
}

/// The key and the digest of each row.
pub fn key_hashes(rows: &RepoRows) -> (r: Vec<(Vec<u8>, Vec<u8>)>)
    ensures
        r@.len() == rows.spec_len(),
        forall|i: int|
            0 <= i < r@.len() ==> (#[trigger] r@[i]).0@ == rows.key_of(i) && r@[i].1@ == blake3_of(
                rows.data_of(i),
            ),
{
    let mut out: Vec<(Vec<u8>, Vec<u8>)> = Vec::new();
    let mut i: usize = 0;
    let n: usize = match rows {
        RepoRows::Nodes(v) => v.len(),
        RepoRows::Peers(v) => v.len(),
        RepoRows::Infohashes(v) => v.len(),
        RepoRows::Trackers(v) => v.len(),
    };
    while i < n
        invariant
            0 <= i <= n,
            n == rows.spec_len(),
            out@.len() == i,
            forall|k: int|
                0 <= k < i ==> (#[trigger] out@[k]).0@ == rows.key_of(k) && out@[k].1@
                    == blake3_of(rows.data_of(k)),
        decreases n - i,
    {
        let pair = key_hash(rows, i);
        out.push(pair);
        i = i + 1;
    }
    out
}

fn key_hash(rows: &RepoRows, i: usize) -> (r: (Vec<u8>, Vec<u8>))
    requires
        i < rows.spec_len(),
    ensures
        r.0@ == rows.key_of(i as int),
        r.1@ == blake3_of(rows.data_of(i as int)),
{
    match rows {
        RepoRows::Nodes(v) => (node_key(v[i].ip.as_str(), v[i].port), addr_hash(&v[i])),
        RepoRows::Peers(v) => {
            let id = id_from_row(v[i].id.as_slice());
            (peer_key(id.as_slice(), v[i].ip.as_str(), v[i].port), addr_hash(&v[i]))
        },
        RepoRows::Infohashes(v) => {
            let h: [u8; 32] = blake3(v[i].as_slice());
            (copy_bytes(v[i].as_slice()), copy_bytes(h.as_slice()))
        },
        RepoRows::Trackers(v) => {
            let bytes = v[i].as_str().as_bytes();
            let h: [u8; 32] = blake3(bytes);
            (copy_bytes(bytes), copy_bytes(h.as_slice()))
        },
    }
}

/// What is mixed into the time to start a sample.
pub const SAMPLE_SEED: u64 = 0x9E37_79B9_7F4A_7C15;

/// The next state of the generator that a sample goes by.
pub open spec fn lcg(state: u64) -> u64 {
    state.wrapping_mul(6_364_136_223_846_793_005).wrapping_add(1_442_695_040_888_963_407)
}

/// The state of the generator after some steps.
pub open spec fn lcg_after(state: u64, steps: nat) -> u64
    decreases steps,
{
    if steps == 0 {
        state
    } else {
        lcg(lcg_after(state, (steps - 1) as nat))
    }
}

/// The row from which on the next row is taken into the sample.
pub open spec fn probe_at(seed: u64, i: int, max_rowid: i64) -> int {
    ((lcg_after(seed, (i + 1) as nat) >> 33) as int) % (max_rowid as int)
}

/// The rows from which on rows are taken into a sample of `n`, none where the table is
/// empty. `millis` is the time.
pub fn sample_probes(millis: i64, max_rowid: i64, n: usize) -> (r: Vec<i64>)
    ensures
        max_rowid <= 0 ==> r@.len() == 0,
        max_rowid > 0 ==> r@.len() == n && forall|i: int|
            0 <= i < n ==> #[trigger] r@[i] == probe_at(
                (millis as u64) ^ SAMPLE_SEED,
                i,
                max_rowid,
            ),
{
    let mut out: Vec<i64> = Vec::new();
    if max_rowid <= 0 {
        return out;
    }
    let seed: u64 = (millis as u64) ^ SAMPLE_SEED;
    let mut state: u64 = seed;
    let mut i: usize = 0;
    while i < n
        invariant
            0 <= i <= n,
            max_rowid > 0,
            seed == (millis as u64) ^ SAMPLE_SEED,
            state == lcg_after(seed, i as nat),
            out@.len() == i,
            forall|k: int|
                0 <= k < i ==> #[trigger] out@[k] == probe_at(seed, k, max_rowid),
        decreases n - i,
    {
        state = state.wrapping_mul(6_364_136_223_846_793_005).wrapping_add(
            1_442_695_040_888_963_407,
        );
        let high: u64 = state >> 33;
        let probe: u64 = high % (max_rowid as u64);
        out.push(probe as i64);
        i = i + 1;
    }
    out
}

/// The keys of a sample, each once, in ascending order.
pub fn finish_sample(keys: Vec<Vec<u8>>) -> (r: Vec<Vec<u8>>)
    ensures
        strictly_ascend(texts(r@)),
        forall|x: Seq<u8>| #[trigger] texts(r@).contains(x) <==> texts(keys@).contains(x),
{
    sort_dedup(keys)
}

/// Every probe is a row number that the table may have.
pub proof fn probes_are_in_range(seed: u64, i: int, max_rowid: i64)
    requires
        i >= 0,
        max_rowid > 0,
    ensures
        0 <= probe_at(seed, i, max_rowid) < max_rowid,
{
}

/// The time before which peers go into the archive.
pub fn archive_threshold(now: i64, older_than_secs: i64) -> (r: i64)
    requires
        i64::MIN <= now - older_than_secs <= i64::MAX,
    ensures
        r == now - older_than_secs,
{
    now - older_than_secs
}

/// The time some days ago.
pub fn days_ago(now: i64, days: u64) -> (r: i64)
    requires
        i64::MIN <= now - days * 86400,
        days * 86400 <= i64::MAX,
    ensures
        r == now - days * 86400,
{
    now - days as i64 * 86400
}

/// The time some hours ago.
pub fn hours_ago(now: i64, hours: u64) -> (r: i64)
    requires
        i64::MIN <= now - hours * 3600,
        hours * 3600 <= i64::MAX,
    ensures
        r == now - hours * 3600,
{
    now - hours as i64 * 3600
}

} // verus!
