//! The columns in which nodes, peers, torrents and trackers are kept in the database.
//!
//! The database holds signed numbers of 64 bits, texts and blobs. A count is kept as the
//! number with the same bits, an identifier as a blob, a state or a source by its name, and an
//! address as the text of its host with its port. Every row also holds the shard that its key
//! falls into, so that the rows of a shard are found without computing a digest.

use vstd::prelude::*;
use vstd::string::*;
use vstd::utf8::*;

use crate::bytes::copy_bytes;
use crate::storage::db::{
    compute_l2_shard, id_from_row, id_of, l2_shard_of, node_key_of, node_shard_index, peer_key_of,
    peer_shard_index,
};
use crate::storage::infohash_repo::InfohashRow;
use crate::storage::node_repo::{state_name_round_trip, state_named, DhtNodeRow, NodeState};
use crate::storage::peer_repo::{PeerHistoryEntry, PeerRow};
use crate::storage::tracker_repo::TrackerRow;
use crate::text::push_str;
use crate::types::{source_name_round_trip, source_named, PeerAddr, PeerSource};

verus! {

/// The columns of a node.
pub struct NodeColumns {
    pub id: Vec<u8>,
    pub ip: String,
    pub port: i64,
    pub score: i64,
    pub state: String,
    pub query_count: i64,
    pub success_count: i64,
    pub total_latency_ms: i64,
    pub consecutive_failures: i64,
    pub nodes_returned: Option<i64>,
    pub last_query_time: Option<i64>,
    pub last_active: i64,
    pub l2_shard: i64,
    pub updated_at: i64,
}

/// Whether columns hold a node with a host, written at a time.
pub open spec fn holds_node(c: NodeColumns, row: DhtNodeRow, ip: Seq<char>, now: i64) -> bool {
    &&& c.id@ == row.id@
    &&& c.ip@ == ip
    &&& c.port == row.addr.spec_port()
    &&& c.score == row.score
    &&& c.state@ == row.state.spec_name()
    &&& c.query_count == row.query_count as i64
    &&& c.success_count == row.success_count as i64
    &&& c.total_latency_ms == row.total_latency_ms as i64
    &&& c.consecutive_failures == row.consecutive_failures
    &&& c.nodes_returned == Some(row.nodes_returned as i64)
    &&& c.last_query_time == row.last_query_time
    &&& c.last_active == now
    &&& c.l2_shard == l2_shard_of(node_key_of(ip, row.addr.spec_port() as int))
    &&& c.updated_at == now
}

/// Whether a node is what columns say of the one at an address.
pub open spec fn reads_node(c: NodeColumns, addr: PeerAddr, row: DhtNodeRow) -> bool {
    &&& row.id@ == id_of(c.id@)
    &&& row.addr == addr
    &&& row.score == c.score
    &&& row.state == state_named(c.state@)
    &&& row.query_count == c.query_count as u64
    &&& row.success_count == c.success_count as u64
    &&& row.total_latency_ms == c.total_latency_ms as u64
    &&& row.consecutive_failures == c.consecutive_failures as u32
    &&& row.nodes_returned == match c.nodes_returned {
        Some(n) => n as u64,
        None => 0,
    }
    &&& row.last_query_time == c.last_query_time
}

/// The columns of a node with a host.
pub fn node_columns(row: &DhtNodeRow, ip: &str, now: i64) -> (r: NodeColumns)
    ensures
        holds_node(r, *row, ip@, now),
{
    NodeColumns {
        id: copy_bytes(row.id.as_slice()),
        ip: ip.to_owned(),
        port: row.addr.port() as i64,
        score: row.score,
        state: row.state.name().to_owned(),
        query_count: row.query_count as i64,
        success_count: row.success_count as i64,
        total_latency_ms: row.total_latency_ms as i64,
        consecutive_failures: row.consecutive_failures as i64,
        nodes_returned: Some(row.nodes_returned as i64),
        last_query_time: row.last_query_time,
        last_active: now,
        l2_shard: node_shard_index(ip, row.addr.port()),
        updated_at: now,
    }
}

/// The host that a text names, its octets as a number, the first octet first.
pub enum Host {
    V4(u32),
    V6(u128),
}

/// The address in a row: its host, or the node itself where the text names none, and the last
/// sixteen bits of its port.
pub fn row_addr(host: &Option<Host>, port: i64) -> (r: PeerAddr)
    ensures
        r == (match *host {
            Some(Host::V4(ip)) => PeerAddr::V4 { ip, port: port as u16 },
            Some(Host::V6(ip)) => PeerAddr::V6 { ip, port: port as u16 },
            None => PeerAddr::V4 { ip: 0x7f00_0001, port: port as u16 },
        }),
{
    match host {
        Some(Host::V4(ip)) => PeerAddr::V4 { ip: *ip, port: port as u16 },
        Some(Host::V6(ip)) => PeerAddr::V6 { ip: *ip, port: port as u16 },
        None => PeerAddr::V4 { ip: 0x7f00_0001, port: port as u16 },
    }
}

/// The addresses of rows that name a host, in order.
pub open spec fn named_addrs(rows: Seq<(Option<Host>, i64)>) -> Seq<PeerAddr>
    decreases rows.len(),
{
    if rows.len() == 0 {
        Seq::empty()
    } else {
        let before = named_addrs(rows.drop_last());
        let port = rows.last().1 as u16;
        match rows.last().0 {
            Some(Host::V4(ip)) => before.push(PeerAddr::V4 { ip, port }),
            Some(Host::V6(ip)) => before.push(PeerAddr::V6 { ip, port }),
            None => before,
        }
    }
}

/// The addresses of the peers that rows of the history tell of. Rows that name no host are
/// passed over.
pub fn get_peers_from_history(rows: &Vec<(Option<Host>, i64)>) -> (r: Vec<PeerAddr>)
    ensures
        r@ == named_addrs(rows@),
{
    let mut out: Vec<PeerAddr> = Vec::new();
    let mut i: usize = 0;
    while i < rows.len()
        invariant
            0 <= i <= rows@.len(),
            out@ == named_addrs(rows@.take(i as int)),
        decreases rows@.len() - i,
    {
        proof {
            assert(rows@.take(i + 1).drop_last() =~= rows@.take(i as int));
            assert(rows@.take(i + 1).last() == rows@[i as int]);
        }
        if rows[i].0.is_some() {
            out.push(row_addr(&rows[i].0, rows[i].1));
        }
        i = i + 1;
    }
    assert(rows@.take(i as int) =~= rows@);
    out
}

/// The node that columns hold, at the address that their host and port name.
pub fn node_row(c: &NodeColumns, addr: PeerAddr) -> (r: DhtNodeRow)
    ensures
        reads_node(*c, addr, r),
{
    DhtNodeRow {
        id: id_from_row(c.id.as_slice()),
        addr,
        score: c.score,
        state: NodeState::from_name(c.state.as_str()),
        query_count: c.query_count as u64,
        success_count: c.success_count as u64,
        total_latency_ms: c.total_latency_ms as u64,
        consecutive_failures: c.consecutive_failures as u32,
        nodes_returned: match c.nodes_returned {
            Some(n) => n as u64,
            None => 0,
        },
        last_query_time: c.last_query_time,
    }
}

/// The columns of a peer of a torrent.
pub struct PeerColumns {
    pub infohash: Vec<u8>,
    pub ip: String,
    pub port: i64,
    pub source: String,
    pub score: i64,
    pub connection_attempts: i64,
    pub connection_successes: i64,
    pub last_active: i64,
    pub l2_shard: i64,
    pub updated_at: i64,
}

/// Whether columns hold a peer with a host, written at a time.
pub open spec fn holds_peer(c: PeerColumns, row: PeerRow, ip: Seq<char>, now: i64) -> bool {
    &&& c.infohash@ == row.infohash@
    &&& c.ip@ == ip
    &&& c.port == row.addr.spec_port()
    &&& c.source@ == row.source.spec_name()
    &&& c.score == row.score
    &&& c.connection_attempts == row.connection_attempts
    &&& c.connection_successes == row.connection_successes
    &&& c.last_active == row.last_active
    &&& c.l2_shard == l2_shard_of(peer_key_of(row.infohash@, ip, row.addr.spec_port() as int))
    &&& c.updated_at == now
}

/// Whether a peer is what columns say of the one at an address.
pub open spec fn reads_peer(c: PeerColumns, addr: PeerAddr, row: PeerRow) -> bool {
    &&& row.infohash@ == id_of(c.infohash@)
    &&& row.addr == addr
    &&& row.source == source_named(c.source@)
    &&& row.score == c.score
    &&& row.connection_attempts == c.connection_attempts as u32
    &&& row.connection_successes == c.connection_successes as u32
    &&& row.last_active == c.last_active
}

/// The columns of a peer with a host.
pub fn peer_columns(row: &PeerRow, ip: &str, now: i64) -> (r: PeerColumns)
    ensures
        holds_peer(r, *row, ip@, now),
{
    PeerColumns {
        infohash: copy_bytes(row.infohash.as_slice()),
        ip: ip.to_owned(),
        port: row.addr.port() as i64,
        source: row.source.as_str().to_owned(),
        score: row.score,
        connection_attempts: row.connection_attempts as i64,
        connection_successes: row.connection_successes as i64,
        last_active: row.last_active,
        l2_shard: peer_shard_index(row.infohash.as_slice(), ip, row.addr.port()),
        updated_at: now,
    }
}

/// The peer that columns hold, at the address that their host and port name.
pub fn peer_row(c: &PeerColumns, addr: PeerAddr) -> (r: PeerRow)
    ensures
        reads_peer(*c, addr, r),
{
    PeerRow {
        infohash: id_from_row(c.infohash.as_slice()),
        addr,
        source: PeerSource::from_name(c.source.as_str()),
        score: c.score,
        connection_attempts: c.connection_attempts as u32,
        connection_successes: c.connection_successes as u32,
        last_active: c.last_active,
    }
}

/// The columns of a torrent. The score may be missing in a database that is older.
pub struct InfohashColumns {
    pub infohash: Vec<u8>,
    pub ref_count: i64,
    pub first_source: String,
    pub seen: i64,
    pub score: Option<i64>,
    pub l2_shard: i64,
}

/// Whether columns hold a torrent, written at a time.
pub open spec fn holds_infohash(c: InfohashColumns, row: InfohashRow, now: i64) -> bool {
    &&& c.infohash@ == row.infohash@
    &&& c.ref_count == row.ref_count
    &&& c.first_source@ == row.first_source@
    &&& c.seen == now
    &&& c.score == Some(row.score)
    &&& c.l2_shard == l2_shard_of(row.infohash@)
}

/// Whether a torrent is what columns say.
pub open spec fn reads_infohash(c: InfohashColumns, row: InfohashRow) -> bool {
    &&& row.infohash@ == id_of(c.infohash@)
    &&& row.ref_count == c.ref_count as u32
    &&& row.first_source@ == c.first_source@
    &&& row.score == match c.score {
        Some(s) => s,
        None => 0,
    }
}

/// The columns of a torrent.
pub fn infohash_columns(row: &InfohashRow, now: i64) -> (r: InfohashColumns)
    ensures
        holds_infohash(r, *row, now),
{
    InfohashColumns {
        infohash: copy_bytes(row.infohash.as_slice()),
        ref_count: row.ref_count as i64,
        first_source: row.first_source.as_str().to_owned(),
        seen: now,
        score: Some(row.score),
        l2_shard: compute_l2_shard(row.infohash.as_slice()) as i64,
    }
}

/// The torrent that columns hold.
pub fn infohash_row(c: &InfohashColumns) -> (r: InfohashRow)
    ensures
        reads_infohash(*c, r),
{
    InfohashRow {
        infohash: id_from_row(c.infohash.as_slice()),
        ref_count: c.ref_count as u32,
        first_source: c.first_source.as_str().to_owned(),
        score: match c.score {
            Some(s) => s,
            None => 0,
        },
    }
}

/// The columns of a tracker.
pub struct TrackerColumns {
    pub url: String,
    pub score: i64,
    pub total_requests: i64,
    pub success_requests: i64,
    pub failed_requests: i64,
    pub total_peers_discovered: i64,
    pub total_response_time_ms: u64,
    pub consecutive_failures: i64,
    pub disabled: i64,
    pub last_used: i64,
    pub l2_shard: i64,
    pub updated_at: i64,
}

/// Whether columns hold a tracker, written at a time.
pub open spec fn holds_tracker(c: TrackerColumns, row: TrackerRow, now: i64) -> bool {
    &&& c.url@ == row.url@
    &&& c.score == row.score
    &&& c.total_requests == row.total_requests as i64
    &&& c.success_requests == row.success_requests as i64
    &&& c.failed_requests == row.failed_requests as i64
    &&& c.total_peers_discovered == row.total_peers_discovered as i64
    &&& c.total_response_time_ms == row.total_response_time_ms
    &&& c.consecutive_failures == row.consecutive_failures
    &&& c.disabled == if row.disabled {
        1int
    } else {
        0
    }
    &&& c.last_used == now
    &&& c.l2_shard == l2_shard_of(encode_utf8(row.url@))
    &&& c.updated_at == now
}

/// Whether a tracker is what columns say.
pub open spec fn reads_tracker(c: TrackerColumns, row: TrackerRow) -> bool {
    &&& row.url@ == c.url@
    &&& row.score == c.score
    &&& row.total_requests == c.total_requests as u64
    &&& row.success_requests == c.success_requests as u64
    &&& row.failed_requests == c.failed_requests as u64
    &&& row.total_peers_discovered == c.total_peers_discovered as u64
    &&& row.total_response_time_ms == c.total_response_time_ms
    &&& row.consecutive_failures == c.consecutive_failures as u32
    &&& row.disabled == (c.disabled != 0)
}

/// The columns of a tracker.
pub fn tracker_columns(row: &TrackerRow, now: i64) -> (r: TrackerColumns)
    ensures
        holds_tracker(r, *row, now),
{
    let mut key: Vec<u8> = Vec::new();
    push_str(&mut key, row.url.as_str());
    proof {
        assert(key@ =~= encode_utf8(row.url@));
    }
    TrackerColumns {
        url: row.url.as_str().to_owned(),
        score: row.score,
        total_requests: row.total_requests as i64,
        success_requests: row.success_requests as i64,
        failed_requests: row.failed_requests as i64,
        total_peers_discovered: row.total_peers_discovered as i64,
        total_response_time_ms: row.total_response_time_ms,
        consecutive_failures: row.consecutive_failures as i64,
        disabled: if row.disabled {
            1
        } else {
            0
        },
        last_used: now,
        l2_shard: compute_l2_shard(key.as_slice()) as i64,
        updated_at: now,
    }
}

/// The tracker that columns hold.
pub fn tracker_row(c: &TrackerColumns) -> (r: TrackerRow)
    ensures
        reads_tracker(*c, r),
{
    TrackerRow {
        url: c.url.as_str().to_owned(),
        score: c.score,
        total_requests: c.total_requests as u64,
        success_requests: c.success_requests as u64,
        failed_requests: c.failed_requests as u64,
        total_peers_discovered: c.total_peers_discovered as u64,
        total_response_time_ms: c.total_response_time_ms,
        consecutive_failures: c.consecutive_failures as u32,
        disabled: c.disabled != 0,
    }
}

/// The columns of a finding of a peer.
pub struct HistoryColumns {
    pub infohash: Vec<u8>,
    pub ip: String,
    pub port: i64,
    pub source: String,
    pub score: i64,
    pub discovered_at: i64,
}

/// Whether columns hold a finding of a peer with a host.
pub open spec fn holds_finding(c: HistoryColumns, e: PeerHistoryEntry, ip: Seq<char>) -> bool {
    &&& c.infohash@ == e.infohash@
    &&& c.ip@ == ip
    &&& c.port == e.addr.spec_port()
    &&& c.source@ == e.source.spec_name()
    &&& c.score == e.score
    &&& c.discovered_at == e.discovered_at
}

/// Whether a finding is what columns say of a peer at an address.
pub open spec fn reads_finding(c: HistoryColumns, addr: PeerAddr, e: PeerHistoryEntry) -> bool {
    &&& e.infohash@ == id_of(c.infohash@)
    &&& e.addr == addr
    &&& e.source == source_named(c.source@)
    &&& e.score == c.score
    &&& e.discovered_at == c.discovered_at
}

/// The columns of a finding of a peer with a host.
pub fn history_columns(e: &PeerHistoryEntry, ip: &str) -> (r: HistoryColumns)
    ensures
        holds_finding(r, *e, ip@),
{
    HistoryColumns {
        infohash: copy_bytes(e.infohash.as_slice()),
        ip: ip.to_owned(),
        port: e.addr.port() as i64,
        source: e.source.as_str().to_owned(),
        score: e.score,
        discovered_at: e.discovered_at,
    }
}

/// The finding that columns hold, at the address that their host and port name.
pub fn history_entry(c: &HistoryColumns, addr: PeerAddr) -> (r: PeerHistoryEntry)
    ensures
        reads_finding(*c, addr, r),
{
    PeerHistoryEntry {
        infohash: id_from_row(c.infohash.as_slice()),
        addr,
        source: PeerSource::from_name(c.source.as_str()),
        score: c.score,
        discovered_at: c.discovered_at,
    }
}

proof fn lemma_same_bits(n: u64)
    ensures
        (n as i64) as u64 == n,
{
    assert((n as i64) as u64 == n) by (bit_vector);
}

/// What is written of a node is what is read of it.
pub proof fn written_node_is_read(
    row: DhtNodeRow,
    ip: Seq<char>,
    now: i64,
    c: NodeColumns,
    back: DhtNodeRow,
)
    requires
        holds_node(c, row, ip, now),
        reads_node(c, row.addr, back),
    ensures
        back == row,
{
    lemma_same_bits(row.query_count);
    lemma_same_bits(row.success_count);
    lemma_same_bits(row.total_latency_ms);
    lemma_same_bits(row.nodes_returned);
    state_name_round_trip(row.state);
    assert(back.id =~= row.id);
}

/// What is written of a peer is what is read of it.
pub proof fn written_peer_is_read(
    row: PeerRow,
    ip: Seq<char>,
    now: i64,
    c: PeerColumns,
    back: PeerRow,
)
    requires
        holds_peer(c, row, ip, now),
        reads_peer(c, row.addr, back),
    ensures
        back == row,
{
    source_name_round_trip(row.source);
    assert(back.infohash =~= row.infohash);
}

/// What is written of a torrent is what is read of it.
pub proof fn written_infohash_is_read(
    row: InfohashRow,
    now: i64,
    c: InfohashColumns,
    back: InfohashRow,
)
    requires
        holds_infohash(c, row, now),
        reads_infohash(c, back),
    ensures
        back.infohash == row.infohash,
        back.ref_count == row.ref_count,
        back.first_source@ == row.first_source@,
        back.score == row.score,
{
    assert(back.infohash =~= row.infohash);
}

/// What is written of a tracker is what is read of it.
pub proof fn written_tracker_is_read(
    row: TrackerRow,
    now: i64,
    c: TrackerColumns,
    back: TrackerRow,
)
    requires
        holds_tracker(c, row, now),
        reads_tracker(c, back),
    ensures
        back.url@ == row.url@,
        back == (TrackerRow { url: back.url, ..row }),
{
    lemma_same_bits(row.total_requests);
    lemma_same_bits(row.success_requests);
    lemma_same_bits(row.failed_requests);
    lemma_same_bits(row.total_peers_discovered);
}

/// What is written of a finding is what is read of it.
pub proof fn written_finding_is_read(
    e: PeerHistoryEntry,
    ip: Seq<char>,
    c: HistoryColumns,
    back: PeerHistoryEntry,
)
    requires
        holds_finding(c, e, ip),
        reads_finding(c, e.addr, back),
    ensures
        back == e,
{
    source_name_round_trip(e.source);
    assert(back.infohash =~= e.infohash);
}

} // verus!
