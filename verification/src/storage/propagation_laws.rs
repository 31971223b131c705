//! What holds of what other nodes are told, and of what is counted and sorted for it.

use vstd::prelude::*;

use crate::storage::db::WriteStats;
use crate::storage::fx_map::FxSet;
use crate::storage::l2_input::{rows_of, sorts_rows, sorts_shards, KeyHash, ShardRow};
use crate::storage::oplog::{LogState, Operation, SyncView};
use crate::storage::propagation::{is_logged, logged, somes, upserts};
use crate::storage::repo_query::Built;

verus! {

/// What could be built is told, in order, and what could not is left out.
pub proof fn what_was_built_is_told(s: Seq<Option<Built>>, b: Built, version: u64, i: int)
    ensures
        somes(Seq::empty()).len() == 0,
        somes(s.push(Some(b))) == somes(s).push(b),
        somes(s.push(None)) == somes(s),
        upserts(somes(s), version).len() == somes(s).len(),
        0 <= i < somes(s).len() ==> ({
            let e = upserts(somes(s), version)[i];
            &&& e.key == somes(s)[i].0@
            &&& e.payload == somes(s)[i].1@
            &&& e.version == version
            &&& e.operation == Operation::Upsert
        }),
{
    assert(s.push(Some(b)).drop_last() =~= s);
    assert(s.push(None::<Built>).drop_last() =~= s);
}

/// Changes of nodes and trackers are logged, of peers and torrents not; and nothing is where no
/// number is left.
pub proof fn nodes_and_trackers_are_logged(
    log: LogState,
    repo: u8,
    entries: Seq<SyncView>,
    ts_ms: i64,
    origin: Seq<u8>,
)
    ensures
        is_logged(1) && is_logged(4) && !is_logged(2) && !is_logged(3),
        is_logged(repo) ==> repo == 1 || repo == 4,
        log.last_seq + entries.len() <= i64::MAX ==> logged(
            log,
            repo,
            entries,
            ts_ms,
            origin,
        ).ops.len() == log.ops.len() + entries.len(),
        log.last_seq + entries.len() > i64::MAX ==> logged(log, repo, entries, ts_ms, origin)
            == log,
{
    if log.last_seq + entries.len() <= i64::MAX {
        crate::storage::log_laws::changes_are_logged_in_order(log, repo, entries, ts_ms, origin, 0);
    }
}

/// A row is filed under its shard and nowhere else, behind those that came before it.
pub proof fn rows_are_filed_by_shard(
    m: Map<u16, Vec<KeyHash>>,
    rows: Seq<ShardRow>,
    row: ShardRow,
    l1: u16,
)
    ensures
        rows_of(Seq::empty(), l1).len() == 0,
        row.l1 == l1 ==> rows_of(rows.push(row), l1) == rows_of(rows, l1).push(
            (row.key@, row.hash@),
        ),
        row.l1 != l1 ==> rows_of(rows.push(row), l1) == rows_of(rows, l1),
        sorts_rows(m, rows) ==> (m.contains_key(l1) <==> exists|i: int|
            0 <= i < rows.len() && (#[trigger] rows[i]).l1 == l1),
        sorts_rows(m, rows) && m.contains_key(l1) ==> m[l1]@.len() == rows_of(rows, l1).len(),
{
    assert(rows.push(row).drop_last() =~= rows);
    lemma_has_rows(rows, l1);
    if sorts_rows(m, rows) && m.contains_key(l1) {
        assert(crate::storage::l2_input::key_hash_views(m[l1]@) == rows_of(rows, l1));
        assert(crate::storage::l2_input::key_hash_views(m[l1]@).len() == m[l1]@.len());
    }
}

proof fn lemma_has_rows(rows: Seq<ShardRow>, l1: u16)
    ensures
        rows_of(rows, l1).len() > 0 <==> exists|i: int|
            0 <= i < rows.len() && (#[trigger] rows[i]).l1 == l1,
    decreases rows.len(),
{
    if rows.len() > 0 {
        let t = rows.drop_last();
        lemma_has_rows(t, l1);
        if exists|i: int| 0 <= i < rows.len() && (#[trigger] rows[i]).l1 == l1 {
            let i = choose|i: int| 0 <= i < rows.len() && (#[trigger] rows[i]).l1 == l1;
            if i < t.len() {
                assert(t[i].l1 == l1);
            }
        }
        if exists|i: int| 0 <= i < t.len() && (#[trigger] t[i]).l1 == l1 {
            let i = choose|i: int| 0 <= i < t.len() && (#[trigger] t[i]).l1 == l1;
            assert(rows[i].l1 == l1);
        }
        if rows.last().l1 == l1 {
            assert(rows[rows.len() - 1].l1 == l1);
        }
    }
}

/// A shard of the lower level is filed under the one above it and nowhere else.
pub proof fn shards_are_filed_below(
    m: Map<u16, FxSet<u32>>,
    l2s: Seq<(u16, u32)>,
    l1: u16,
    l2: u32,
)
    requires
        sorts_shards(m, l2s),
    ensures
        l2s.contains((l1, l2)) ==> m.contains_key(l1),
        m.contains_key(l1) ==> (m[l1]@.contains(l2) <==> l2s.contains((l1, l2))),
{
}

/// A write counts once in all, and once with its rows for its table.
pub proof fn writes_are_counted(s: WriteStats, rows: u64)
    requires
        s.total_writes < u64::MAX,
        s.dht_nodes_writes < u64::MAX && s.dht_nodes_rows + rows <= u64::MAX,
        s.peers_writes < u64::MAX && s.peers_rows + rows <= u64::MAX,
        s.trackers_writes < u64::MAX && s.trackers_rows + rows <= u64::MAX,
        s.infohashes_writes < u64::MAX && s.infohashes_rows + rows <= u64::MAX,
        s.peer_history_writes < u64::MAX && s.peer_history_rows + rows <= u64::MAX,
    ensures
        ({
            let t = s.written("dht_nodes"@, rows);
            &&& t.total_writes == s.total_writes + 1
            &&& t.dht_nodes_writes == s.dht_nodes_writes + 1
            &&& t.dht_nodes_rows == s.dht_nodes_rows + rows
            &&& t.peers_writes == s.peers_writes && t.peers_rows == s.peers_rows
            &&& t.trackers_writes == s.trackers_writes && t.infohashes_writes == s.infohashes_writes
        }),
        ({
            let t = s.written("peers"@, rows);
            &&& t.total_writes == s.total_writes + 1
            &&& t.peers_writes == s.peers_writes + 1
            &&& t.peers_rows == s.peers_rows + rows
            &&& t.dht_nodes_writes == s.dht_nodes_writes
            &&& t.peer_history_writes == s.peer_history_writes
        }),
        ({
            let t = s.written("peer_history"@, rows);
            &&& t.total_writes == s.total_writes + 1
            &&& t.peer_history_writes == s.peer_history_writes + 1
            &&& t.peer_history_rows == s.peer_history_rows + rows
            &&& t.peers_writes == s.peers_writes
        }),
        ({
            let t = s.written("trackers"@, rows);
            &&& t.total_writes == s.total_writes + 1
            &&& t.trackers_writes == s.trackers_writes + 1
            &&& t.trackers_rows == s.trackers_rows + rows
            &&& t.infohashes_writes == s.infohashes_writes
        }),
        ({
            let t = s.written("infohashes"@, rows);
            &&& t.total_writes == s.total_writes + 1
            &&& t.infohashes_writes == s.infohashes_writes + 1
            &&& t.infohashes_rows == s.infohashes_rows + rows
            &&& t.trackers_writes == s.trackers_writes
        }),
{
    reveal_strlit("dht_nodes");
    reveal_strlit("peers");
    reveal_strlit("peer_history");
    reveal_strlit("trackers");
    reveal_strlit("infohashes");
    reveal_strlit("stats");
    assert("dht_nodes"@.len() == 9 && "peers"@.len() == 5 && "peer_history"@.len() == 12);
    assert("trackers"@.len() == 8 && "infohashes"@.len() == 10 && "stats"@.len() == 5);
    assert("peers"@[0] == 'p' && "stats"@[0] == 's');
}

} // verus!
