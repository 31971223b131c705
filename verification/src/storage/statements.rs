//! The statements that write and read the rows of the database.

use vstd::prelude::*;

verus! {

/// Writes a node; one that was deleted is there again.
pub const SAVE_NODE: &'static str = "INSERT INTO dht_nodes (id, ip, port, score, state, query_count, success_count,
    total_latency_ms, consecutive_failures, nodes_returned, last_query_time,
    last_active, first_seen, l2_shard, updated_at, deleted_at)
VALUES (?1, ?2, ?3, ?4, ?5, ?6, ?7, ?8, ?9, ?10, ?11, ?12, ?12, ?13, ?14, NULL)
ON CONFLICT(ip, port) DO UPDATE SET
    id=excluded.id, score=excluded.score, state=excluded.state,
    query_count=excluded.query_count, success_count=excluded.success_count,
    total_latency_ms=excluded.total_latency_ms,
    consecutive_failures=excluded.consecutive_failures,
    nodes_returned=excluded.nodes_returned,
    last_query_time=excluded.last_query_time,
    last_active=excluded.last_active,
    l2_shard=excluded.l2_shard, updated_at=excluded.updated_at, deleted_at=NULL";

/// Reads the nodes that are not deleted.
pub const LOAD_NODES: &'static str = "SELECT id, ip, port, score, state, query_count, success_count,
    total_latency_ms, consecutive_failures, nodes_returned, last_query_time
FROM dht_nodes WHERE deleted_at IS NULL";

/// Reads the nodes that were active after a time or score at least so much, the best first.
pub const LOAD_HOT_WARM_NODES: &'static str = "SELECT id, ip, port, score, state, query_count, success_count,
    total_latency_ms, consecutive_failures, nodes_returned, last_query_time
FROM dht_nodes
WHERE deleted_at IS NULL AND (last_active > ?1 OR score >= ?2)
ORDER BY score DESC
LIMIT ?3";

/// Reads the node at an address.
pub const LOAD_NODE_BY_ADDR: &'static str = "SELECT id, ip, port, score, state, query_count, success_count,
    total_latency_ms, consecutive_failures, nodes_returned, last_query_time
FROM dht_nodes WHERE ip = ?1 AND port = ?2 AND deleted_at IS NULL";

/// Marks a node as deleted.
pub const DELETE_NODE: &'static str = "UPDATE dht_nodes SET deleted_at = ?1, updated_at = ?1
WHERE ip = ?2 AND port = ?3 AND deleted_at IS NULL";

/// Takes all nodes out.
pub const CLEAR_NODES: &'static str = "DELETE FROM dht_nodes";

/// Writes a tracker; one that was deleted is there again.
pub const SAVE_TRACKER: &'static str = "INSERT INTO trackers (url, score, total_requests, success_requests, failed_requests,
    total_peers_discovered, total_response_time_ms, consecutive_failures, disabled, last_used,
    l2_shard, updated_at, deleted_at)
VALUES (?1, ?2, ?3, ?4, ?5, ?6, ?7, ?8, ?9, ?10, ?11, ?12, NULL)
ON CONFLICT(url) DO UPDATE SET
    score=excluded.score, total_requests=excluded.total_requests,
    success_requests=excluded.success_requests,
    failed_requests=excluded.failed_requests,
    total_peers_discovered=excluded.total_peers_discovered,
    total_response_time_ms=excluded.total_response_time_ms,
    consecutive_failures=excluded.consecutive_failures,
    disabled=excluded.disabled, last_used=excluded.last_used,
    l2_shard=excluded.l2_shard, updated_at=excluded.updated_at, deleted_at=NULL";

/// Writes a tracker that another node told of; one that was deleted here stays deleted.
pub const SAVE_TRACKER_KEEP_TOMBSTONE: &'static str = "INSERT INTO trackers (url, score, total_requests, success_requests, failed_requests,
    total_peers_discovered, total_response_time_ms, consecutive_failures, disabled, last_used,
    l2_shard, updated_at, deleted_at)
VALUES (?1, ?2, ?3, ?4, ?5, ?6, ?7, ?8, ?9, ?10, ?11, ?12, NULL)
ON CONFLICT(url) DO UPDATE SET
    score=excluded.score, total_requests=excluded.total_requests,
    success_requests=excluded.success_requests,
    failed_requests=excluded.failed_requests,
    total_peers_discovered=excluded.total_peers_discovered,
    total_response_time_ms=excluded.total_response_time_ms,
    consecutive_failures=excluded.consecutive_failures,
    disabled=excluded.disabled, last_used=excluded.last_used,
    l2_shard=excluded.l2_shard, updated_at=excluded.updated_at";

/// Reads the trackers that are not deleted.
pub const LOAD_TRACKERS: &'static str = "SELECT url, score, total_requests, success_requests, failed_requests,
    total_peers_discovered, total_response_time_ms, consecutive_failures, disabled
FROM trackers WHERE deleted_at IS NULL";

/// Reads a tracker.
pub const LOAD_TRACKER_BY_URL: &'static str = "SELECT url, score, total_requests, success_requests, failed_requests,
    total_peers_discovered, total_response_time_ms, consecutive_failures, disabled
FROM trackers WHERE url = ?1 AND deleted_at IS NULL";

/// Marks a tracker as deleted.
pub const DELETE_TRACKER: &'static str = "UPDATE trackers SET deleted_at = ?1, updated_at = ?1
WHERE url = ?2 AND deleted_at IS NULL";

/// Finds out whether a tracker is marked as deleted.
pub const TRACKER_TOMBSTONE: &'static str = "SELECT 1 FROM trackers
WHERE url = ?1 AND deleted_at IS NOT NULL LIMIT 1";

/// Writes a torrent; one that was deleted is there again.
pub const SAVE_INFOHASH: &'static str = "INSERT INTO infohashes (infohash, ref_count, first_source, first_seen, last_seen, score,
    l2_shard, updated_at, deleted_at)
VALUES (?1, ?2, ?3, ?4, ?4, ?5, ?6, ?4, NULL)
ON CONFLICT(infohash) DO UPDATE SET
    ref_count=excluded.ref_count, last_seen=excluded.last_seen, score=excluded.score,
    l2_shard=excluded.l2_shard, updated_at=excluded.updated_at, deleted_at=NULL";

/// Reads the torrents that are not deleted.
pub const LOAD_INFOHASHES: &'static str = "SELECT infohash, ref_count, first_source, score
FROM infohashes WHERE deleted_at IS NULL";

/// Reads so many torrents, those that are referred to most first.
pub const LOAD_LIMITED_INFOHASHES: &'static str = "SELECT infohash, ref_count, first_source, score
FROM infohashes WHERE deleted_at IS NULL
ORDER BY ref_count DESC LIMIT ?1";

/// Reads a torrent.
pub const LOAD_INFOHASH: &'static str = "SELECT infohash, ref_count, first_source, score
FROM infohashes WHERE infohash = ?1 AND deleted_at IS NULL";

/// Writes the score of a torrent.
pub const SCORE_INFOHASH: &'static str = "UPDATE infohashes SET score = ?1 WHERE infohash = ?2";

/// Takes all torrents out.
pub const CLEAR_INFOHASHES: &'static str = "DELETE FROM infohashes";

/// Writes a peer of a torrent; one that was deleted is there again.
pub const SAVE_PEER: &'static str = "INSERT INTO peers (infohash, ip, port, source, score, connection_attempts, connection_successes,
    last_active, l2_shard, updated_at, deleted_at)
VALUES (?1, ?2, ?3, ?4, ?5, ?6, ?7, ?8, ?9, ?10, NULL)
ON CONFLICT(infohash, ip, port) DO UPDATE SET
    source=excluded.source, score=excluded.score,
    connection_attempts=excluded.connection_attempts,
    connection_successes=excluded.connection_successes,
    last_active=excluded.last_active,
    l2_shard=excluded.l2_shard, updated_at=excluded.updated_at, deleted_at=NULL";

/// Reads the peers that are not deleted.
pub const LOAD_PEERS: &'static str = "SELECT infohash, ip, port, source, score, connection_attempts, connection_successes, last_active
FROM peers WHERE deleted_at IS NULL";

/// Reads so many peers, those that were active last first.
pub const LOAD_LIMITED_PEERS: &'static str = "SELECT infohash, ip, port, source, score, connection_attempts, connection_successes, last_active
FROM peers WHERE deleted_at IS NULL
ORDER BY last_active DESC LIMIT ?1";

/// Reads the peers at an address.
pub const LOAD_PEER_BY_ADDR: &'static str = "SELECT infohash, ip, port, source, score, connection_attempts, connection_successes, last_active
FROM peers WHERE ip = ?1 AND port = ?2 AND deleted_at IS NULL";

/// Takes all peers out.
pub const CLEAR_PEERS: &'static str = "DELETE FROM peers";

/// Counts the peers that were last active before a time.
pub const COUNT_COLD_PEERS: &'static str = "SELECT COUNT(*) FROM peers WHERE last_active < ?1";

/// Copies the peers that were last active before a time into the archive.
pub const ARCHIVE_COLD_PEERS: &'static str = "INSERT OR IGNORE INTO peers_archive (infohash, ip, port, source, score,
    connection_attempts, connection_successes, last_active, archived_at)
SELECT infohash, ip, port, source, score, connection_attempts, connection_successes, last_active, ?1
FROM peers WHERE last_active < ?2";

/// Takes the peers out that were last active before a time.
pub const DROP_COLD_PEERS: &'static str = "DELETE FROM peers WHERE last_active < ?1";

/// Writes down that a peer was found.
pub const SAVE_HISTORY: &'static str = "INSERT INTO peer_history (infohash, ip, port, source, score, discovered_at)
VALUES (?1, ?2, ?3, ?4, ?5, ?6)";

/// Reads which peers of a torrent were found, the latest first.
pub const LOAD_HISTORY: &'static str = "SELECT ip, port, source, score, discovered_at FROM peer_history
WHERE infohash = ?1 ORDER BY discovered_at DESC LIMIT ?2";

/// Takes out what was found before a time.
pub const DROP_HISTORY: &'static str = "DELETE FROM peer_history WHERE discovered_at < ?1";

/// Writes a value of a metric down with its time.
pub const SAVE_STATS: &'static str = "INSERT INTO stats_history (timestamp, metric, value) VALUES (?1, ?2, ?3)";

/// Reads the values of a metric from a time on.
pub const LOAD_STATS: &'static str = "SELECT timestamp, value FROM stats_history
WHERE metric = ?1 AND timestamp >= ?2 ORDER BY timestamp";

/// Writes the latest value of a metric.
pub const SAVE_AGGREGATE: &'static str = "INSERT INTO stats_aggregate (metric, value, updated_at) VALUES (?1, ?2, ?3)
ON CONFLICT(metric) DO UPDATE SET value=excluded.value, updated_at=excluded.updated_at";

/// Reads the latest value of a metric.
pub const LOAD_AGGREGATE: &'static str = "SELECT value FROM stats_aggregate WHERE metric = ?1";

/// Writes a change down in the log.
pub const SAVE_OP: &'static str = "INSERT INTO feed_oplog (seq, op, repo, key, value, ts_ms, origin)
VALUES (?1, ?2, ?3, ?4, ?5, ?6, ?7)";

/// Reads the log of changes in order.
pub const LOAD_OPS: &'static str = "SELECT seq, op, repo, key, value, ts_ms, origin FROM feed_oplog ORDER BY seq ASC";

/// Reads the greatest number that a change in the log ever had.
pub const LAST_SEQ: &'static str = "SELECT COALESCE(MAX(seq), 0) FROM sqlite_sequence WHERE name = 'feed_oplog'";

/// Takes the changes from before a time out of the log.
pub const TRIM_OPS: &'static str = "DELETE FROM feed_oplog WHERE ts_ms < ?1";

} // verus!
