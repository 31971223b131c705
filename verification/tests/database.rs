use pdc::storage::columns::{
    get_peers_from_history, history_columns, history_entry, infohash_columns, infohash_row,
    node_columns, node_row, peer_columns, peer_row, row_addr, tracker_columns, tracker_row, HistoryColumns, Host,
    NodeColumns, TrackerColumns,
};
use pdc::storage::db::{
    archive_threshold, compute_l2_shard, days_ago, finish_sample, hours_ago, id_from_row,
    key_hashes, node_key, node_shard_index, peer_key, peer_shard_index, sample_probes,
    socket_text, AddrRow, EntityCounts, RepoRows, WriteStats,
};
use pdc::storage::infohash_repo::InfohashRow;
use pdc::storage::l2_input::{
    build_l2_recompute_input, finish_digest_round, shards_to_load, DigestStep, ShardRow,
};
use pdc::storage::node_repo::{DhtNodeRow, NodeState};
use pdc::storage::oplog::Operation;
use pdc::storage::peer_repo::{PeerHistoryEntry, PeerRow};
use pdc::storage::repo_query::{
    chunks_of, keys_sql, load_nodes_by_keys, max_rowid_sql, parse_node_key, parse_peer_key,
    parse_signed, plan_entries_by_keys, range_query, range_sql, sample_query, sample_sql,
    sync_entries, EntryPlan, EntrySubject, KeyBound, Repo, NODE_CHUNK,
};
use pdc::storage::schema::{
    column_statements, pragmas, SqliteConfig, INDEXES_SQL, OPLOG_SQL, TABLES_SQL,
};
use pdc::storage::statements;
use pdc::storage::tracker_repo::TrackerRow;
use pdc::types::{PeerAddr, PeerSource};
use rusqlite::types::Value;
use rusqlite::{params_from_iter, Connection};

fn database() -> Connection {
    let db = Connection::open_in_memory().unwrap();
    db.execute_batch(TABLES_SQL).unwrap();
    for statement in column_statements() {
        let _ = db.execute_batch(&statement);
    }
    db.execute_batch(INDEXES_SQL).unwrap();
    db.execute_batch(OPLOG_SQL).unwrap();
    db
}

#[test]
fn test_init_tables() {
    let _ = database();
}

/// The order of the numbers is that of their keys.
fn key(x: f64) -> i64 {
    assert!(x >= 0.0);
    x.to_bits() as i64
}

fn number(key: i64) -> f64 {
    f64::from_bits(key as u64)
}

fn optional(n: Option<i64>) -> Value {
    match n {
        Some(n) => Value::Integer(n),
        None => Value::Null,
    }
}

fn save_node(db: &Connection, c: &NodeColumns) {
    let values = vec![
        Value::Blob(c.id.clone()),
        Value::Text(c.ip.clone()),
        Value::Integer(c.port),
        Value::Real(number(c.score)),
        Value::Text(c.state.clone()),
        Value::Integer(c.query_count),
        Value::Integer(c.success_count),
        Value::Integer(c.total_latency_ms),
        Value::Integer(c.consecutive_failures),
        optional(c.nodes_returned),
        optional(c.last_query_time),
        Value::Integer(c.last_active),
        Value::Integer(c.l2_shard),
        Value::Integer(c.updated_at),
    ];
    db.execute(statements::SAVE_NODE, params_from_iter(values)).unwrap();
}

fn load_nodes(db: &Connection) -> Vec<NodeColumns> {
    let mut stmt = db.prepare(statements::LOAD_NODES).unwrap();
    let rows = stmt
        .query_map([], |row| {
            Ok(NodeColumns {
                id: row.get(0)?,
                ip: row.get(1)?,
                port: row.get(2)?,
                score: key(row.get(3)?),
                state: row.get(4)?,
                query_count: row.get(5)?,
                success_count: row.get(6)?,
                total_latency_ms: row.get(7)?,
                consecutive_failures: row.get(8)?,
                nodes_returned: row.get(9)?,
                last_query_time: row.get(10)?,
                last_active: 0,
                l2_shard: 0,
                updated_at: 0,
            })
        })
        .unwrap();
    rows.map(|r| r.unwrap()).collect()
}

const LOOPBACK: PeerAddr = PeerAddr::V4 { ip: 0x7f00_0001, port: 6881 };

#[test]
fn test_dht_node_save_load() {
    let db = database();
    let row = DhtNodeRow {
        id: [1u8; 20],
        addr: LOOPBACK,
        score: key(85.5),
        state: NodeState::Good,
        query_count: 10,
        success_count: 8,
        total_latency_ms: 5000,
        consecutive_failures: 1,
        nodes_returned: 64,
        last_query_time: None,
    };
    save_node(&db, &node_columns(&row, "127.0.0.1", 1_700_000_000));
    let nodes = load_nodes(&db);
    assert_eq!(nodes.len(), 1);
    assert_eq!(nodes[0].ip, "127.0.0.1");
    assert_eq!(nodes[0].port, 6881);
    let back = node_row(&nodes[0], LOOPBACK);
    assert!((number(back.score) - 85.5).abs() < 0.01);
    assert_eq!((back.id, back.query_count, back.nodes_returned), ([1u8; 20], 10, 64));
    assert!(back.state == NodeState::Good);
}

#[test]
fn deleted_nodes_come_back_when_they_are_written() {
    let db = database();
    let row = DhtNodeRow {
        id: [1u8; 20],
        addr: LOOPBACK,
        score: key(1.0),
        state: NodeState::Bad,
        query_count: u64::MAX,
        success_count: 0,
        total_latency_ms: 0,
        consecutive_failures: u32::MAX,
        nodes_returned: 0,
        last_query_time: Some(5),
    };
    save_node(&db, &node_columns(&row, "127.0.0.1", 1));
    let gone = (2, "127.0.0.1", 6881);
    assert_eq!(db.execute(statements::DELETE_NODE, gone).unwrap(), 1);
    assert_eq!(db.execute(statements::DELETE_NODE, gone).unwrap(), 0);
    assert!(load_nodes(&db).is_empty());
    save_node(&db, &node_columns(&row, "127.0.0.1", 3));
    let back = node_row(&load_nodes(&db)[0], LOOPBACK);
    assert_eq!((back.query_count, back.consecutive_failures), (u64::MAX, u32::MAX));
    assert_eq!(back.last_query_time, Some(5));
}

fn save_tracker(db: &Connection, sql: &str, c: &TrackerColumns) {
    let values = vec![
        Value::Text(c.url.clone()),
        Value::Real(number(c.score)),
        Value::Integer(c.total_requests),
        Value::Integer(c.success_requests),
        Value::Integer(c.failed_requests),
        Value::Integer(c.total_peers_discovered),
        Value::Real(f64::from_bits(c.total_response_time_ms)),
        Value::Integer(c.consecutive_failures),
        Value::Integer(c.disabled),
        Value::Integer(c.last_used),
        Value::Integer(c.l2_shard),
        Value::Integer(c.updated_at),
    ];
    db.execute(sql, params_from_iter(values)).unwrap();
}

fn load_trackers(db: &Connection) -> Vec<TrackerRow> {
    let mut stmt = db.prepare(statements::LOAD_TRACKERS).unwrap();
    let rows = stmt
        .query_map([], |row| {
            Ok(TrackerColumns {
                url: row.get(0)?,
                score: key(row.get(1)?),
                total_requests: row.get(2)?,
                success_requests: row.get(3)?,
                failed_requests: row.get(4)?,
                total_peers_discovered: row.get(5)?,
                total_response_time_ms: row.get::<_, f64>(6)?.to_bits(),
                consecutive_failures: row.get(7)?,
                disabled: row.get(8)?,
                last_used: 0,
                l2_shard: 0,
                updated_at: 0,
            })
        })
        .unwrap();
    rows.map(|r| tracker_row(&r.unwrap())).collect()
}

fn example_tracker() -> TrackerRow {
    TrackerRow {
        url: "http://example.com/announce".to_string(),
        score: key(70.0),
        total_requests: 100,
        success_requests: 80,
        failed_requests: 20,
        total_peers_discovered: 500,
        total_response_time_ms: 15000.0f64.to_bits(),
        consecutive_failures: 1,
        disabled: false,
    }
}

#[test]
fn test_tracker_save_load() {
    let db = database();
    save_tracker(&db, statements::SAVE_TRACKER, &tracker_columns(&example_tracker(), 9));
    let trackers = load_trackers(&db);
    assert_eq!(trackers.len(), 1);
    assert_eq!(trackers[0].url, "http://example.com/announce");
    assert_eq!(trackers[0].total_requests, 100);
    assert_eq!(f64::from_bits(trackers[0].total_response_time_ms), 15000.0);
    assert!(!trackers[0].disabled);
}

#[test]
fn deleted_trackers_stay_deleted_for_others() {
    let db = database();
    let c = tracker_columns(&example_tracker(), 9);
    save_tracker(&db, statements::SAVE_TRACKER, &c);
    db.execute(statements::DELETE_TRACKER, (10, &c.url)).unwrap();
    save_tracker(&db, statements::SAVE_TRACKER_KEEP_TOMBSTONE, &c);
    assert!(load_trackers(&db).is_empty());
    let marked: i64 =
        db.query_row(statements::TRACKER_TOMBSTONE, [&c.url], |row| row.get(0)).unwrap();
    assert_eq!(marked, 1);
    save_tracker(&db, statements::SAVE_TRACKER, &c);
    assert_eq!(load_trackers(&db).len(), 1);
}

fn record_peer_history(db: &Connection, e: &PeerHistoryEntry, ip: &str) {
    let c = history_columns(e, ip);
    let values = (c.infohash, c.ip, c.port, c.source, number(c.score), c.discovered_at);
    db.execute(statements::SAVE_HISTORY, values).unwrap();
}

#[test]
fn test_peer_history() {
    let db = database();
    let ih = [2u8; 20];
    let first = PeerHistoryEntry {
        infohash: ih,
        addr: PeerAddr::V4 { ip: 0x0a00_0001, port: 5000 },
        source: PeerSource::Tracker,
        score: key(50.0),
        discovered_at: 1,
    };
    let second = PeerHistoryEntry {
        addr: PeerAddr::V4 { ip: 0x0a00_0002, port: 5001 },
        source: PeerSource::Dht,
        score: key(60.0),
        discovered_at: 2,
        ..first
    };
    record_peer_history(&db, &first, "10.0.0.1");
    record_peer_history(&db, &second, "10.0.0.2");
    let mut stmt = db.prepare(statements::LOAD_HISTORY).unwrap();
    let rows = stmt
        .query_map((&ih[..], 10), |row| {
            Ok(HistoryColumns {
                infohash: ih.to_vec(),
                ip: row.get(0)?,
                port: row.get(1)?,
                source: row.get(2)?,
                score: key(row.get(3)?),
                discovered_at: row.get(4)?,
            })
        })
        .unwrap();
    let history: Vec<HistoryColumns> = rows.map(|r| r.unwrap()).collect();
    assert_eq!(history.len(), 2);
    let latest = history_entry(&history[0], second.addr);
    assert_eq!((latest.infohash, latest.discovered_at), (ih, 2));
    assert!(latest.source == PeerSource::Dht);
    assert_eq!(number(latest.score), 60.0);
}

#[test]
fn test_stats_aggregate() {
    let db = database();
    db.execute(statements::SAVE_AGGREGATE, ("total_requests", 1000.0, 1)).unwrap();
    let val: f64 =
        db.query_row(statements::LOAD_AGGREGATE, ["total_requests"], |row| row.get(0)).unwrap();
    assert_eq!(val, 1000.0);
}

#[test]
fn rows_are_read_as_they_were_written() {
    let peer = PeerRow {
        infohash: [3; 20],
        addr: LOOPBACK,
        source: PeerSource::Pex,
        score: -7,
        connection_attempts: u32::MAX,
        connection_successes: 4,
        last_active: -9,
    };
    let back = peer_row(&peer_columns(&peer, "127.0.0.1", 5), LOOPBACK);
    assert_eq!((back.infohash, back.addr, back.score), ([3; 20], LOOPBACK, -7));
    assert_eq!((back.connection_attempts, back.connection_successes), (u32::MAX, 4));
    assert!(back.source == PeerSource::Pex && back.last_active == -9);

    let torrent = InfohashRow {
        infohash: [4; 20],
        ref_count: u32::MAX,
        first_source: "dht".to_string(),
        score: 12,
    };
    let mut c = infohash_columns(&torrent, 5);
    let back = infohash_row(&c);
    assert_eq!((back.infohash, back.ref_count, back.score), ([4; 20], u32::MAX, 12));
    assert_eq!(back.first_source, "dht");
    c.score = None;
    assert_eq!(infohash_row(&c).score, 0);
}

#[test]
fn settings_of_the_database() {
    let c = SqliteConfig {
        synchronous: "NORMAL".to_string(),
        mmap_size: 1024,
        cache_size: -2000,
        temp_store: "MEMORY".to_string(),
        wal_autocheckpoint: 1000,
        busy_timeout_ms: 5000,
    };
    let sql = pragmas(&c);
    assert_eq!(
        sql,
        "PRAGMA journal_mode=WAL; PRAGMA synchronous=NORMAL; PRAGMA mmap_size=1024; \
         PRAGMA cache_size=-2000; PRAGMA temp_store=MEMORY; PRAGMA wal_autocheckpoint=1000; \
         PRAGMA busy_timeout=5000;"
    );
    database().execute_batch(&sql).unwrap();
}

#[test]
fn rounds_of_digests() {
    assert!(shards_to_load(&vec![]).is_none());
    assert_eq!(shards_to_load(&vec![1, 65537]), Some(vec![1, 1]));
    let shards = vec![(1u16, 10u32), (2, 20)];
    match finish_digest_round(&shards, &None) {
        DigestStep::MarkAgain(again) => assert_eq!(again, vec![10, 20]),
        DigestStep::Recompute(..) => panic!("nothing was read"),
    }
    let rows = vec![ShardRow { l1: 1, key: b"a".to_vec(), hash: vec![1] }];
    match finish_digest_round(&shards, &Some(rows)) {
        DigestStep::Recompute(rows, dirty) => assert_eq!((rows.len(), dirty.len()), (1, 2)),
        DigestStep::MarkAgain(_) => panic!("the rows were read"),
    }
}

#[test]
fn statements_fit_the_tables() {
    let db = database();
    for sql in [
        statements::LOAD_HOT_WARM_NODES,
        statements::LOAD_NODE_BY_ADDR,
        statements::CLEAR_NODES,
        statements::LOAD_TRACKER_BY_URL,
        statements::SAVE_INFOHASH,
        statements::LOAD_INFOHASHES,
        statements::LOAD_LIMITED_INFOHASHES,
        statements::LOAD_INFOHASH,
        statements::SCORE_INFOHASH,
        statements::CLEAR_INFOHASHES,
        statements::SAVE_PEER,
        statements::LOAD_PEERS,
        statements::LOAD_LIMITED_PEERS,
        statements::LOAD_PEER_BY_ADDR,
        statements::CLEAR_PEERS,
        statements::COUNT_COLD_PEERS,
        statements::ARCHIVE_COLD_PEERS,
        statements::DROP_COLD_PEERS,
        statements::DROP_HISTORY,
        statements::SAVE_STATS,
        statements::LOAD_STATS,
        statements::SAVE_OP,
        statements::LOAD_OPS,
        statements::LAST_SEQ,
        statements::TRIM_OPS,
    ] {
        db.prepare(sql).unwrap();
    }
    for repo in [Repo::Node, Repo::Peer, Repo::Infohash, Repo::Tracker] {
        db.prepare(&range_sql(repo)).unwrap();
        db.prepare(&max_rowid_sql(repo)).unwrap();
        db.prepare(&sample_sql(repo)).unwrap();
        db.prepare(&keys_sql(repo, 3)).unwrap();
    }
    let (sql, _) = load_nodes_by_keys(&vec![b"1.2.3.4:5".to_vec()]).unwrap();
    db.prepare(&sql).unwrap();
}

#[test]
fn writes_are_counted() {
    let mut s = WriteStats::default();
    s.record_write("dht_nodes", 10);
    s.record_write("trackers", 2);
    s.record_write("elsewhere", 5);
    assert_eq!((s.dht_nodes_writes, s.dht_nodes_rows), (1, 10));
    assert_eq!((s.trackers_writes, s.trackers_rows), (1, 2));
    assert_eq!(s.total_writes, 3);
}

#[test]
fn counts_are_cached() {
    let mut counts = EntityCounts::uncounted();
    assert!(counts.entity_counts_cached().is_none());
    let counted = EntityCounts { dht_nodes: 1, peers: 2, peers_archive: 3, infohashes: 4, trackers: 5 };
    counts.refresh_entity_counts(counted);
    assert_eq!(counts.entity_counts_cached().unwrap().peers, 2);
}

#[test]
fn keys_are_read_back() {
    assert_eq!(node_key("1.2.3.4", 6881), b"1.2.3.4:6881".to_vec());
    assert_eq!(parse_node_key(b"1.2.3.4:6881"), Some((b"1.2.3.4".to_vec(), 6881)));
    assert_eq!(parse_node_key(b"1.2.3.4"), None);
    let key = peer_key(&[7; 20], "1.2.3.4", 6881);
    assert_eq!(key, format!("{}:1.2.3.4:6881", "07".repeat(20)).into_bytes());
    let mut named = vec![7; 20];
    named.extend_from_slice(b"1.2.3.4");
    assert_eq!(parse_peer_key(&key), Some((named, 6881)));
    let mut named = vec![7; 20];
    named.extend_from_slice(b"2001:db8::1");
    assert_eq!(parse_peer_key(&peer_key(&[7; 20], "2001:db8::1", 6881)), Some((named, 6881)));
    assert_eq!(parse_peer_key(b"0707:1.2.3.4:6881"), None);
    assert_eq!(parse_peer_key(&[b"07".repeat(20), b":6881".to_vec()].concat()), None);
    assert_eq!(parse_node_key(b"::1:8080"), Some((b"::1".to_vec(), 8080)));
    assert_eq!(parse_signed(b"-12"), Some(-12));
    assert_eq!(parse_signed(b"1x"), None);
    assert_eq!(id_from_row(&[5; 20]), [5; 20]);
    assert_eq!(id_from_row(&[5; 3]), [0; 20]);
}

#[test]
fn shards_of_keys() {
    let hash = blake3::hash(b"1.2.3.4:6881");
    let b = hash.as_bytes();
    assert_eq!(compute_l2_shard(b"1.2.3.4:6881") as i64, node_shard_index("1.2.3.4", 6881));
    assert_eq!(compute_l2_shard(b"1.2.3.4:6881"), ((b[0] as u32) << 8 | b[1] as u32));
    let key = peer_key(&[1; 20], "1.2.3.4", 6881);
    assert_eq!(peer_shard_index(&[1; 20], "1.2.3.4", 6881), compute_l2_shard(&key) as i64);
}

#[test]
fn hashes_beside_their_keys() {
    let rows = RepoRows::Nodes(vec![AddrRow { id: vec![1; 20], ip: "1.2.3.4".to_string(), port: 1 }]);
    let hashes = key_hashes(&rows);
    assert_eq!(hashes.len(), 1);
    assert_eq!(hashes[0].0, b"1.2.3.4:1".to_vec());
    let trackers = key_hashes(&RepoRows::Trackers(vec!["udp://t".to_string()]));
    assert_eq!(trackers[0].0, b"udp://t".to_vec());
    assert_eq!(trackers[0].1, blake3::hash(b"udp://t").as_bytes().to_vec());
}

#[test]
fn samples_lie_in_range() {
    let probes = sample_probes(123_456, 50, 20);
    assert_eq!(probes.len(), 20);
    assert!(probes.iter().all(|p| 0 <= *p && *p < 50));
    assert_eq!(probes, sample_probes(123_456, 50, 20));
    let keys = vec![b"b".to_vec(), b"a".to_vec(), b"b".to_vec()];
    assert_eq!(finish_sample(keys), vec![b"a".to_vec(), b"b".to_vec()]);
}

#[test]
fn times_in_the_past() {
    assert_eq!(archive_threshold(1000, 400), 600);
    assert_eq!(days_ago(864_000, 2), 864_000 - 2 * 86_400);
    assert_eq!(hours_ago(7_200, 1), 3_600);
}

#[test]
fn range_queries() {
    assert!(range_query(9, &None, &None, 5).is_none());
    let q = range_query(1, &Some(b"a".to_vec()), &None, 5).unwrap();
    assert!(matches!(q.lo, Some(KeyBound::Text(ref t)) if t == "a"));
    assert!(q.hi.is_none());
    assert_eq!(q.limit, 5);
    let q = range_query(3, &None, &Some(vec![1, 2]), 1).unwrap();
    assert!(matches!(q.hi, Some(KeyBound::Blob(ref b)) if *b == vec![1, 2]));
    assert!(sample_query(4, 1).is_some());
    assert!(sample_query(0, 1).is_none());
}

#[test]
fn entries_are_asked_for_in_chunks() {
    let keys: Vec<Vec<u8>> = (0..NODE_CHUNK + 1).map(|i| format!("1.2.3.4:{i}").into_bytes()).collect();
    match plan_entries_by_keys(1, &keys) {
        EntryPlan::Nodes(chunks) => {
            assert_eq!(chunks.len(), 2);
            assert_eq!(chunks[0].len() + chunks[1].len(), NODE_CHUNK + 1);
        }
        _ => panic!("the first repository holds nodes"),
    }
    assert!(matches!(plan_entries_by_keys(7, &keys), EntryPlan::Nothing));
    assert_eq!(chunks_of(vec![1, 2, 3, 4, 5], 2), vec![vec![1, 2], vec![3, 4], vec![5]]);
}

#[test]
fn entries_of_rows() {
    let rows = RepoRows::Infohashes(vec![vec![1; 20], vec![2; 20]]);
    let entries = sync_entries(&rows, |s: EntrySubject| match s {
        EntrySubject::Infohash(id) if id[0] == 1 => Some((id.to_vec(), vec![9], vec![0])),
        _ => None,
    });
    assert_eq!(entries.len(), 1);
    assert_eq!(entries[0].key, vec![1; 20]);
    assert_eq!(entries[0].payload, vec![9]);
}

#[test]
fn digests_are_grouped_by_shard() {
    let rows = vec![
        ShardRow { l1: 1, key: b"b".to_vec(), hash: vec![2] },
        ShardRow { l1: 1, key: b"a".to_vec(), hash: vec![1] },
        ShardRow { l1: 2, key: b"c".to_vec(), hash: vec![3] },
    ];
    let (by_shard, asked) = build_l2_recompute_input(&vec![(1, 10), (1, 11), (2, 20)], &rows);
    assert_eq!(by_shard.get(&1).unwrap().len(), 2);
    assert_eq!(by_shard.get(&2).unwrap()[0].0, b"c".to_vec());
    assert_eq!(asked.get(&1).unwrap().len(), 2);
    assert!(asked.get(&2).unwrap().contains(&20));
}

#[test]
fn a_row_without_a_host_is_local() {
    assert_eq!(row_addr(&Some(Host::V4(0x0102_0304)), 6881), PeerAddr::V4 { ip: 0x0102_0304, port: 6881 });
    assert_eq!(row_addr(&Some(Host::V6(1)), 65_537), PeerAddr::V6 { ip: 1, port: 1 });
    assert_eq!(row_addr(&None, 9), PeerAddr::V4 { ip: 0x7f00_0001, port: 9 });
    let rows = vec![(Some(Host::V4(5)), 1), (None, 2), (Some(Host::V6(6)), 3)];
    assert_eq!(
        get_peers_from_history(&rows),
        vec![PeerAddr::V4 { ip: 5, port: 1 }, PeerAddr::V6 { ip: 6, port: 3 }]
    );
}

/// The payloads of the entries that keys give, in order.
fn looked_up(db: &Connection, repo: u8, keys: &Vec<Vec<u8>>) -> Vec<Vec<u8>> {
    let build = |s: EntrySubject| match s {
        EntrySubject::Infohash(id) => Some((id.to_vec(), id[..1].to_vec(), vec![])),
        EntrySubject::Tracker(url) => Some((url.clone().into_bytes(), url.into_bytes(), vec![])),
        _ => None,
    };
    let mut found = vec![];
    let (repo, chunks) = match plan_entries_by_keys(repo, keys) {
        EntryPlan::Infohashes(chunks) => (Repo::Infohash, chunks),
        EntryPlan::Trackers(chunks) => (Repo::Tracker, chunks),
        _ => panic!("torrents and trackers only"),
    };
    for chunk in chunks {
        let mut stmt = db.prepare(&keys_sql(repo, chunk.len())).unwrap();
        let rows = if repo == Repo::Infohash {
            let rows = stmt.query_map(params_from_iter(chunk), |row| row.get(0)).unwrap();
            RepoRows::Infohashes(rows.map(|r| r.unwrap()).collect())
        } else {
            let texts = chunk.into_iter().map(|k| String::from_utf8(k).unwrap());
            let rows = stmt.query_map(params_from_iter(texts), |row| row.get(0)).unwrap();
            RepoRows::Trackers(rows.map(|r| r.unwrap()).collect())
        };
        for e in sync_entries(&rows, build) {
            assert_eq!((e.operation, e.version), (Operation::Upsert, 0));
            found.push(e.payload);
        }
    }
    found.sort();
    found
}

#[test]
fn addresses_with_colons_have_entries() {
    let db = database();
    let insert = "INSERT INTO dht_nodes (id, ip, port) VALUES (?1, ?2, ?3)";
    let values = vec![Value::Blob(vec![1; 20]), Value::Text("::1".to_string()), Value::Integer(8080)];
    db.execute(insert, params_from_iter(values)).unwrap();
    let keys = vec![b"::1:8080".to_vec()];
    let EntryPlan::Nodes(chunks) = plan_entries_by_keys(1, &keys) else { panic!("nodes") };
    assert_eq!(chunks, vec![vec![(b"::1".to_vec(), 8080)]]);
    let asked = vec![Value::Text("::1".to_string()), Value::Integer(8080)];
    let mut stmt = db.prepare(&keys_sql(Repo::Node, 1)).unwrap();
    let found = stmt
        .query_map(params_from_iter(asked), |row| {
            Ok(AddrRow { id: row.get(0)?, ip: row.get(1)?, port: row.get(2)? })
        })
        .unwrap();
    let rows = RepoRows::Nodes(found.map(|r| r.unwrap()).collect());
    let entries = sync_entries(&rows, |s: EntrySubject| match s {
        EntrySubject::Node(id, addr) if addr == b"[::1]:8080" => Some((addr, id.to_vec(), vec![])),
        _ => None,
    });
    assert_eq!(entries.len(), 1);
    assert_eq!(entries[0].key, b"[::1]:8080".to_vec());
    assert_eq!((entries[0].operation, entries[0].version), (Operation::Upsert, 0));
    assert_eq!(socket_text("1.2.3.4", 5), b"1.2.3.4:5".to_vec());
    assert_eq!(socket_text("[::1]", 5), b"[::1]:5".to_vec());
}

#[test]
fn only_the_keys_matter() {
    let db = database();
    for n in 1..=3u8 {
        db.execute("INSERT INTO infohashes (infohash) VALUES (?1)", [vec![n; 20]]).unwrap();
        db.execute("INSERT INTO trackers (url) VALUES (?1)", [format!("udp://{n}")]).unwrap();
    }
    let ids = |list: &[u8]| list.iter().map(|n| vec![*n; 20]).collect::<Vec<_>>();
    let urls = |list: &[u8]| list.iter().map(|n| format!("udp://{n}").into_bytes()).collect::<Vec<_>>();
    assert_eq!(looked_up(&db, 3, &ids(&[1, 3, 9])), vec![vec![1], vec![3]]);
    assert_eq!(looked_up(&db, 3, &ids(&[9, 3, 1, 3, 1])), vec![vec![1], vec![3]]);
    assert_eq!(looked_up(&db, 4, &urls(&[2, 1, 9])), urls(&[1, 2]));
    assert_eq!(looked_up(&db, 4, &urls(&[1, 2, 2, 9, 1])), urls(&[1, 2]));
}
