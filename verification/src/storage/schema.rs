//! The statements that bring a database, new or old, to the tables that the node needs.
//!
//! They run in this order: the tables, then the columns, then the indexes. A new database
//! has all columns from the start, so that adding one may fail and the failure does not
//! matter; an index that stands on an added column can only be made once it is there.

use vstd::prelude::*;
use vstd::string::*;

use crate::storage::db::push_signed;
use crate::text::{ascii_string, ascii_text, decimal_round_trip, is_digit, signed_decimal};

verus! {

/// Makes the tables that are not there yet.
pub const TABLES_SQL: &'static str = "
CREATE TABLE IF NOT EXISTS dht_nodes (
    id BLOB NOT NULL,
    ip TEXT NOT NULL,
    port INTEGER NOT NULL,
    score REAL DEFAULT 0,
    state TEXT DEFAULT 'Good',
    query_count INTEGER DEFAULT 0,
    success_count INTEGER DEFAULT 0,
    total_latency_ms INTEGER DEFAULT 0,
    consecutive_failures INTEGER DEFAULT 0,
    nodes_returned INTEGER DEFAULT 0,
    last_query_time INTEGER,
    last_active INTEGER,
    first_seen INTEGER,
    l2_shard INTEGER DEFAULT 0,
    PRIMARY KEY (ip, port)
);
CREATE TABLE IF NOT EXISTS trackers (
    url TEXT PRIMARY KEY,
    score REAL DEFAULT 0,
    state TEXT DEFAULT 'active',
    total_requests INTEGER DEFAULT 0,
    success_requests INTEGER DEFAULT 0,
    failed_requests INTEGER DEFAULT 0,
    total_peers_discovered INTEGER DEFAULT 0,
    total_response_time_ms REAL DEFAULT 0,
    consecutive_failures INTEGER DEFAULT 0,
    disabled INTEGER DEFAULT 0,
    last_used INTEGER,
    l2_shard INTEGER DEFAULT 0
);
CREATE TABLE IF NOT EXISTS infohashes (
    infohash BLOB PRIMARY KEY,
    ref_count INTEGER DEFAULT 1,
    first_source TEXT,
    first_seen INTEGER,
    last_seen INTEGER,
    score REAL DEFAULT 0,
    l2_shard INTEGER DEFAULT 0
);
CREATE TABLE IF NOT EXISTS peers (
    infohash BLOB NOT NULL,
    ip TEXT NOT NULL,
    port INTEGER NOT NULL,
    source TEXT,
    score REAL DEFAULT 0,
    connection_attempts INTEGER DEFAULT 0,
    connection_successes INTEGER DEFAULT 0,
    last_active INTEGER,
    l2_shard INTEGER DEFAULT 0,
    PRIMARY KEY (infohash, ip, port)
);
CREATE INDEX IF NOT EXISTS idx_peers_infohash ON peers(infohash);
CREATE TABLE IF NOT EXISTS peers_archive (
    infohash BLOB NOT NULL,
    ip TEXT NOT NULL,
    port INTEGER NOT NULL,
    source TEXT,
    score REAL DEFAULT 0,
    connection_attempts INTEGER DEFAULT 0,
    connection_successes INTEGER DEFAULT 0,
    last_active INTEGER,
    archived_at INTEGER,
    PRIMARY KEY (infohash, ip, port)
);
CREATE INDEX IF NOT EXISTS idx_peers_archive_infohash ON peers_archive(infohash);
CREATE INDEX IF NOT EXISTS idx_peers_archive_last_active ON peers_archive(last_active);
CREATE TABLE IF NOT EXISTS peer_history (
    id INTEGER PRIMARY KEY AUTOINCREMENT,
    infohash BLOB NOT NULL,
    ip TEXT NOT NULL,
    port INTEGER NOT NULL,
    source TEXT,
    score REAL DEFAULT 0,
    discovered_at INTEGER NOT NULL
);
CREATE INDEX IF NOT EXISTS idx_peer_history_infohash ON peer_history(infohash);
CREATE INDEX IF NOT EXISTS idx_peer_history_time ON peer_history(discovered_at);
CREATE TABLE IF NOT EXISTS stats_history (
    id INTEGER PRIMARY KEY AUTOINCREMENT,
    timestamp INTEGER NOT NULL,
    metric TEXT NOT NULL,
    value REAL NOT NULL
);
CREATE INDEX IF NOT EXISTS idx_stats_history_metric ON stats_history(metric, timestamp);
CREATE TABLE IF NOT EXISTS stats_aggregate (
    metric TEXT PRIMARY KEY,
    value REAL NOT NULL,
    updated_at INTEGER NOT NULL
);
";

/// Makes the indexes on columns that may have been added.
pub const INDEXES_SQL: &'static str = "
CREATE INDEX IF NOT EXISTS idx_dht_nodes_l2_shard ON dht_nodes(l2_shard);
CREATE INDEX IF NOT EXISTS idx_trackers_l2_shard ON trackers(l2_shard);
CREATE INDEX IF NOT EXISTS idx_infohashes_l2_shard ON infohashes(l2_shard);
CREATE INDEX IF NOT EXISTS idx_peers_l2_shard ON peers(l2_shard);
CREATE INDEX IF NOT EXISTS idx_dht_nodes_deleted ON dht_nodes(deleted_at);
CREATE INDEX IF NOT EXISTS idx_trackers_deleted ON trackers(deleted_at);
CREATE INDEX IF NOT EXISTS idx_infohashes_deleted ON infohashes(deleted_at);
CREATE INDEX IF NOT EXISTS idx_peers_deleted ON peers(deleted_at);
";

/// A column that a table may lack.
pub type NewColumn = (&'static str, &'static str);

/// The columns that a table may lack: first those that single tables got, then those that
/// every table got that nodes compare.
pub open spec fn new_columns_of() -> Seq<NewColumn> {
    seq![
        ("dht_nodes", "nodes_returned INTEGER DEFAULT 0"),
        ("dht_nodes", "last_query_time INTEGER"),
        ("infohashes", "score REAL DEFAULT 0"),
        ("dht_nodes", "l2_shard INTEGER DEFAULT 0"),
        ("trackers", "l2_shard INTEGER DEFAULT 0"),
        ("infohashes", "l2_shard INTEGER DEFAULT 0"),
        ("peers", "l2_shard INTEGER DEFAULT 0")
    ] + synced_columns_of("dht_nodes") + synced_columns_of("trackers") + synced_columns_of(
        "infohashes",
    ) + synced_columns_of("peers")
}

/// The columns of a table that nodes compare: the version of a row, where it comes from,
/// when it was written and when it was deleted.
pub open spec fn synced_columns_of(table: &'static str) -> Seq<NewColumn> {
    seq![
        (table, "version INTEGER DEFAULT 0"),
        (table, "origin_node BLOB"),
        (table, "updated_at INTEGER DEFAULT 0"),
        (table, "deleted_at INTEGER")
    ]
}

fn push_synced_columns(out: &mut Vec<NewColumn>, table: &'static str)
    ensures
        final(out)@ == old(out)@ + synced_columns_of(table),
{
    let ghost before = out@;
    out.push((table, "version INTEGER DEFAULT 0"));
    out.push((table, "origin_node BLOB"));
    out.push((table, "updated_at INTEGER DEFAULT 0"));
    out.push((table, "deleted_at INTEGER"));
    proof {
        assert(out@ =~= before + synced_columns_of(table));
    }
}

/// The columns that a table may lack.
pub fn new_columns() -> (r: Vec<NewColumn>)
    ensures
        r@ == new_columns_of(),
{
    let mut out: Vec<NewColumn> = vec![
        ("dht_nodes", "nodes_returned INTEGER DEFAULT 0"),
        ("dht_nodes", "last_query_time INTEGER"),
        ("infohashes", "score REAL DEFAULT 0"),
        ("dht_nodes", "l2_shard INTEGER DEFAULT 0"),
        ("trackers", "l2_shard INTEGER DEFAULT 0"),
        ("infohashes", "l2_shard INTEGER DEFAULT 0"),
        ("peers", "l2_shard INTEGER DEFAULT 0"),
    ];
    push_synced_columns(&mut out, "dht_nodes");
    push_synced_columns(&mut out, "trackers");
    push_synced_columns(&mut out, "infohashes");
    push_synced_columns(&mut out, "peers");
    proof {
        assert(out@ =~= new_columns_of());
    }
    out
}

/// The statement that adds a column.
pub open spec fn add_column_of(c: NewColumn) -> Seq<char> {
    "ALTER TABLE "@ + c.0@ + " ADD COLUMN "@ + c.1@
}

/// The statements that add the columns that a table may lack, in order.
pub fn column_statements() -> (r: Vec<String>)
    ensures
        r@.len() == new_columns_of().len(),
        forall|i: int| 0 <= i < r@.len() ==> (#[trigger] r@[i])@ == add_column_of(new_columns_of()[i]),
{
    let columns = new_columns();
    let mut out: Vec<String> = Vec::new();
    let mut i: usize = 0;
    while i < columns.len()
        invariant
            0 <= i <= columns@.len(),
            columns@ == new_columns_of(),
            out@.len() == i,
            forall|k: int|
                0 <= k < i ==> (#[trigger] out@[k])@ == add_column_of(new_columns_of()[k]),
        decreases columns@.len() - i,
    {
        let mut s: String = "ALTER TABLE ".to_owned();
        s.append(columns[i].0);
        s.append(" ADD COLUMN ");
        s.append(columns[i].1);
        out.push(s);
        i = i + 1;
    }
    out
}

/// Every table that nodes compare can say which of its rows are deleted.
pub proof fn compared_tables_mark_deletions(table: &'static str)
    requires
        table == "dht_nodes" || table == "trackers" || table == "infohashes" || table == "peers",
    ensures
        new_columns_of().contains((table, "deleted_at INTEGER")),
{
    let all = new_columns_of();
    assert(all[10] == ("dht_nodes", "deleted_at INTEGER"));
    assert(all[14] == ("trackers", "deleted_at INTEGER"));
    assert(all[18] == ("infohashes", "deleted_at INTEGER"));
    assert(all[22] == ("peers", "deleted_at INTEGER"));
}

/// Makes the table of the log of changes. The numbers of its rows only ever grow.
pub const OPLOG_SQL: &'static str = "
CREATE TABLE IF NOT EXISTS feed_oplog (
    seq INTEGER PRIMARY KEY AUTOINCREMENT,
    op TEXT NOT NULL,
    repo INTEGER NOT NULL,
    key BLOB NOT NULL,
    value BLOB,
    ts_ms INTEGER NOT NULL,
    origin BLOB NOT NULL
);
CREATE INDEX IF NOT EXISTS idx_feed_oplog_repo_seq ON feed_oplog(repo, seq);
CREATE INDEX IF NOT EXISTS idx_feed_oplog_ts ON feed_oplog(ts_ms);
";

/// How the database is run.
pub struct SqliteConfig {
    pub synchronous: String,
    pub mmap_size: i64,
    pub cache_size: i64,
    pub temp_store: String,
    pub wal_autocheckpoint: i64,
    pub busy_timeout_ms: i64,
}

/// The decimal numeral of a number that may be negative, as a text.
pub open spec fn signed_text(n: i64) -> Seq<char> {
    ascii_text(signed_decimal(n as int))
}

fn signed(n: i64) -> (r: String)
    ensures
        r@ == signed_text(n),
{
    let mut out: Vec<u8> = Vec::new();
    push_signed(&mut out, n);
    proof {
        let m: nat = if n < 0 {
            (-n) as nat
        } else {
            n as nat
        };
        decimal_round_trip(m);
        assert(out@ =~= signed_decimal(n as int));
        let d = crate::text::decimal(m);
        assert forall|i: int| 0 <= i < out@.len() implies #[trigger] out@[i] < 128 by {
            if n < 0 && i > 0 {
                assert(out@[i] == d[i - 1]);
                assert(is_digit(d[i - 1]));
            } else if n >= 0 {
                assert(is_digit(d[i]));
            }
        }
    }
    ascii_string(out)
}

/// The statements that set how the database is run.
pub open spec fn pragmas_of(c: SqliteConfig) -> Seq<char> {
    "PRAGMA journal_mode=WAL; PRAGMA synchronous="@ + c.synchronous@ + "; PRAGMA mmap_size="@
        + signed_text(c.mmap_size) + "; PRAGMA cache_size="@ + signed_text(c.cache_size)
        + "; PRAGMA temp_store="@ + c.temp_store@ + "; PRAGMA wal_autocheckpoint="@ + signed_text(
        c.wal_autocheckpoint,
    ) + "; PRAGMA busy_timeout="@ + signed_text(c.busy_timeout_ms) + ";"@
}

/// The statements that set how the database is run.
pub fn pragmas(c: &SqliteConfig) -> (r: String)
    ensures
        r@ == pragmas_of(*c),
{
    let mut s: String = "PRAGMA journal_mode=WAL; PRAGMA synchronous=".to_owned();
    s.append(c.synchronous.as_str());
    s.append("; PRAGMA mmap_size=");
    s.append(signed(c.mmap_size).as_str());
    s.append("; PRAGMA cache_size=");
    s.append(signed(c.cache_size).as_str());
    s.append("; PRAGMA temp_store=");
    s.append(c.temp_store.as_str());
    s.append("; PRAGMA wal_autocheckpoint=");
    s.append(signed(c.wal_autocheckpoint).as_str());
    s.append("; PRAGMA busy_timeout=");
    s.append(signed(c.busy_timeout_ms).as_str());
    s.append(";");
    s
}

} // verus!
