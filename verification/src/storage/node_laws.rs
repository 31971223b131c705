//! What holds of the nodes that are known.

use vstd::prelude::*;

use crate::storage::node_repo::{
    after_query, bucket, cutoff_at, idle_since, in_state, longest_idle, node_of, nodes_that, row_of,
    rows_of, subnet_of, was_queried, DhtNodeRow, KBucketEntry, NodeState, NodeTable,
};
use crate::types::{NodeId, PeerAddr};

verus! {

/// A node that is seen is known under its address with its identifier and is active now. What
/// was known of it stays, and so does every other node; a new one starts with nothing counted
/// and is to be saved.
pub proof fn a_node_that_is_seen(t: NodeTable, id: NodeId, addr: PeerAddr, now: u64, x: PeerAddr)
    ensures
        ({
            let u = t.seen((id, addr), now);
            let e = u.nodes[addr];
            &&& u.nodes.contains_key(addr)
            &&& e.id == id
            &&& e.last_active == now
            &&& t.nodes.contains_key(addr) ==> (KBucketEntry {
                id: t.nodes[addr].id,
                last_active: t.nodes[addr].last_active,
                ..e
            }) == t.nodes[addr] && u.dirty == t.dirty
            &&& !t.nodes.contains_key(addr) ==> {
                &&& e.addr == addr
                &&& e.query_count == 0 && e.success_count == 0 && e.consecutive_failures == 0
                &&& e.nodes_returned == 0 && e.total_latency_ms == 0
                &&& e.last_query_time is None && e.last_accessed is None
                &&& e.state == t.fresh_state
                &&& u.dirty.contains(addr)
            }
            &&& x != addr ==> (u.nodes.contains_key(x) <==> t.nodes.contains_key(x)) && (
            t.nodes.contains_key(x) ==> u.nodes[x] == t.nodes[x]) && (u.dirty.contains(x)
                <==> t.dirty.contains(x))
            &&& u.hot == t.hot && u.cold == t.cold
        }),
{
}

/// Every query counts once. One that is answered counts as a success, makes the node good and
/// active, and forgets its failures; one that is not makes it bad at the third failure in a row
/// and not before.
pub proof fn queries_are_counted(e: KBucketEntry, success: bool, latency_ms: u64, now: u64)
    requires
        e.query_count < u64::MAX,
        e.success_count < u64::MAX,
        e.total_latency_ms + latency_ms <= u64::MAX,
        e.consecutive_failures < u32::MAX,
    ensures
        ({
            let q = after_query(e, success, latency_ms, now);
            &&& q.query_count == e.query_count + 1
            &&& q.last_query_time == Some(now)
            &&& q.id == e.id && q.addr == e.addr && q.score == e.score
            &&& q.nodes_returned == e.nodes_returned && q.last_accessed == e.last_accessed
            &&& success ==> q.success_count == e.success_count + 1 && q.total_latency_ms
                == e.total_latency_ms + latency_ms && q.last_active == now && q.state
                == NodeState::Good && q.consecutive_failures == 0
            &&& !success ==> q.success_count == e.success_count && q.total_latency_ms
                == e.total_latency_ms && q.last_active == e.last_active && q.consecutive_failures
                == e.consecutive_failures + 1
            &&& !success && e.consecutive_failures >= 2 ==> q.state == NodeState::Bad
            &&& !success && e.consecutive_failures < 2 ==> q.state == e.state
        }),
{
}

/// Addresses of version 4 are in the same network exactly where they differ at most in their
/// last octet; no other address is in one.
pub proof fn networks_leave_out_the_last_octet(a: u32, b: u32, p: u16, q: u16, c: u128)
    ensures
        subnet_of(PeerAddr::V4 { ip: a, port: p }) is Some,
        subnet_of(PeerAddr::V4 { ip: a, port: p }) == subnet_of(PeerAddr::V4 { ip: b, port: q })
            <==> a / 256 == b / 256,
        subnet_of(PeerAddr::V4 { ip: a, port: p })->0.len() == 3,
        a == subnet_of(PeerAddr::V4 { ip: a, port: p })->0[0] * 0x100_0000 + subnet_of(
            PeerAddr::V4 { ip: a, port: p },
        )->0[1] * 0x1_0000 + subnet_of(PeerAddr::V4 { ip: a, port: p })->0[2] * 256 + a % 256,
        subnet_of(PeerAddr::V6 { ip: c, port: p }) is None,
{
    let x = subnet_of(PeerAddr::V4 { ip: a, port: p })->0;
    let y = subnet_of(PeerAddr::V4 { ip: b, port: q })->0;
    lemma_octets(a, p);
    lemma_octets(b, q);
    if a / 256 == b / 256 {
        assert(x =~= y);
    }
}

proof fn lemma_octets(a: u32, p: u16)
    ensures
        ({
            let x = subnet_of(PeerAddr::V4 { ip: a, port: p })->0;
            &&& x.len() == 3
            &&& x[0] == a / 256 / 256 / 256 && x[1] == a / 256 / 256 % 256 && x[2] == a / 256 % 256
            &&& a == x[0] * 0x100_0000 + x[1] * 0x1_0000 + x[2] * 256 + a % 256
            &&& a / 256 == x[0] * 0x1_0000 + x[1] * 256 + x[2]
        }),
{
    let x = subnet_of(PeerAddr::V4 { ip: a, port: p })->0;
    assert(a / 0x100_0000 == a / 256 / 256 / 256 && a / 0x1_0000 == a / 256 / 256 && a
        / 0x100_0000 < 256 && a / 256 == (a / 0x100_0000) * 0x1_0000 + (a / 0x1_0000 % 256) * 256
        + a / 256 % 256 && a == (a / 256) * 256 + a % 256) by (bit_vector);
    assert(x[0] == a / 0x100_0000);
    assert(x[1] == a / 0x1_0000 % 256);
    assert(x[2] == a / 256 % 256);
}

/// Those who go for having been idle are those who were last active before the cutoff, which
/// lies so many seconds back.
pub proof fn the_idle_are_those_before(
    m: Map<PeerAddr, KBucketEntry>,
    a: PeerAddr,
    now: u64,
    secs: u64,
)
    ensures
        secs * 1_000_000_000 <= now ==> cutoff_at(now, secs) == now - secs * 1_000_000_000,
        secs * 1_000_000_000 > now ==> cutoff_at(now, secs) == 0,
        nodes_that(m, idle_since(cutoff_at(now, secs))).contains(a) <==> m.contains_key(a)
            && m[a].last_active < cutoff_at(now, secs),
        nodes_that(m, in_state(NodeState::Good)).contains(a) <==> m.contains_key(a) && m[a].state
            == NodeState::Good,
        nodes_that(m, was_queried()).contains(a) <==> m.contains_key(a) && m[a].query_count > 0,
{
}

/// Of two nodes, one that goes for want of room was not active after one that stays.
pub proof fn the_longest_idle_go(
    m: Map<PeerAddr, KBucketEntry>,
    gone: Set<PeerAddr>,
    a: PeerAddr,
    b: PeerAddr,
)
    requires
        longest_idle(m, gone),
        gone.subset_of(m.dom()),
        m.contains_key(b),
    ensures
        gone.contains(a) && !gone.contains(b) ==> m[a].last_active <= m[b].last_active,
        gone.contains(a) && m[b].last_active < m[a].last_active ==> gone.contains(b),
{
    if gone.contains(a) && !gone.contains(b) {
        assert(m[a].last_active <= m[b].last_active);
    }
}

/// Taking nodes out takes those out of all that is kept of them, and no others.
pub proof fn only_those_go(t: NodeTable, gone: Set<PeerAddr>, a: PeerAddr)
    ensures
        t.without(gone).nodes.contains_key(a) <==> t.nodes.contains_key(a) && !gone.contains(a),
        t.without(gone).nodes.contains_key(a) ==> t.without(gone).nodes[a] == t.nodes[a],
        t.without(gone).hot.contains(a) <==> t.hot.contains(a) && !gone.contains(a),
        t.without(gone).cold.contains(a) <==> t.cold.contains(a) && !gone.contains(a),
        t.without(gone).dirty.contains(a) <==> t.dirty.contains(a) && !gone.contains(a),
{
}

/// A score that is set is the score of that node and of no other; the node is to be saved, and
/// nothing else is known of it than before.
pub proof fn a_set_score_is_known(t: NodeTable, a: PeerAddr, score: i64, x: PeerAddr)
    ensures
        t.nodes.contains_key(a) ==> t.scored((a, score)).nodes[a].score == score && (KBucketEntry {
            score: t.nodes[a].score,
            ..t.scored((a, score)).nodes[a]
        }) == t.nodes[a] && t.scored((a, score)).dirty.contains(a),
        t.scored((a, score)).nodes.contains_key(x) <==> t.nodes.contains_key(x),
        x != a && t.nodes.contains_key(x) ==> t.scored((a, score)).nodes[x] == t.nodes[x],
        !t.nodes.contains_key(a) ==> t.scored((a, score)) == t,
{
}

/// A hot node stays hot exactly where it is known and was used since the cutoff.
pub proof fn the_used_stay_hot(t: NodeTable, cutoff: u64, a: PeerAddr)
    requires
        t.hot.contains(a),
    ensures
        !t.cooled(cutoff).contains(a) <==> t.nodes.contains_key(a) && t.nodes[a].last_accessed is Some
            && t.nodes[a].last_accessed->0 >= cutoff,
{
}

/// The time of the last query is saved as the seconds that have passed, and read back as that
/// time to the second.
pub proof fn the_last_query_is_saved_by_age(e: KBucketEntry, t: u64, now: u64)
    requires
        e.last_query_time == Some(t),
        t <= now,
    ensures
        row_of(e, now).last_query_time matches Some(s) && s * 1_000_000_000 <= now - t < (s + 1)
            * 1_000_000_000,
        node_of(row_of(e, now), now).last_query_time matches Some(u) && t <= u < t + 1_000_000_000,
{
    let s = (now - t) / 1_000_000_000;
    assert(s * 1_000_000_000 <= now - t < (s + 1) * 1_000_000_000);
}

/// A node that is read back is active now.
pub proof fn a_read_node_is_active(row: DhtNodeRow, now: u64)
    ensures
        node_of(row, now).last_active == now,
        node_of(row, now).last_accessed is None,
        node_of(row, now).addr == row.addr && node_of(row, now).id == row.id,
        row.last_query_time is None ==> node_of(row, now).last_query_time is None,
{
}

/// A node that is seen is listed in its network, under its new identifier where it has one, and
/// no longer under the old one; no other network is touched.
pub proof fn a_seen_node_is_listed(t: NodeTable, id: NodeId, addr: PeerAddr, now: u64, s: Seq<u8>)
    ensures
        ({
            let u = t.seen((id, addr), now);
            &&& !t.nodes.contains_key(addr) && subnet_of(addr) == Some(s) ==> bucket(u.subnets, s)
                == bucket(t.subnets, s).push(id)
            &&& t.nodes.contains_key(addr) && t.nodes[addr].id == id ==> u.subnets == t.subnets
            &&& t.nodes.contains_key(addr) && t.nodes[addr].id != id && subnet_of(addr) == Some(s)
                ==> bucket(u.subnets, s).contains(id) && !bucket(u.subnets, s).contains(
                t.nodes[addr].id,
            )
            &&& subnet_of(addr) != Some(s) ==> bucket(u.subnets, s) == bucket(t.subnets, s)
        }),
{
    let u = t.seen((id, addr), now);
    if t.nodes.contains_key(addr) && t.nodes[addr].id != id && subnet_of(addr) == Some(s) {
        let was = t.nodes[addr].id;
        let p = crate::storage::node_repo::other_id(was);
        let kept = bucket(t.subnets, s).filter(p);
        let b = bucket(u.subnets, s);
        assert(b == kept.push(id));
        assert(b[b.len() - 1] == id);
        if b.contains(was) {
            let i = choose|i: int| 0 <= i < b.len() && b[i] == was;
            assert(kept[i] == was);
            bucket(t.subnets, s).lemma_filter_pred(p, i);
        }
    }
}

/// Of several nodes that are seen, one is new exactly where nobody knew it: not before, and not
/// by those that were seen before it. All of them are known afterwards.
pub proof fn only_the_unknown_are_new(
    t: NodeTable,
    items: Seq<(NodeId, PeerAddr)>,
    item: (NodeId, PeerAddr),
    now: u64,
    a: PeerAddr,
)
    ensures
        t.seen_all(items, now).nodes.contains_key(a) <==> t.nodes.contains_key(a) || exists|i: int|
            0 <= i < items.len() && (#[trigger] items[i]).1 == a,
        t.newcomers(Seq::empty(), now).len() == 0,
        t.nodes.contains_key(item.1) || (exists|i: int|
            0 <= i < items.len() && (#[trigger] items[i]).1 == item.1) ==> t.newcomers(
            items.push(item),
            now,
        ) == t.newcomers(items, now),
        !t.nodes.contains_key(item.1) && (forall|i: int|
            0 <= i < items.len() ==> (#[trigger] items[i]).1 != item.1) ==> t.newcomers(
            items.push(item),
            now,
        ) == t.newcomers(items, now).push(item),
{
    assert(items.push(item).drop_last() =~= items);
    lemma_seen_all(t, items, now, a);
    lemma_seen_all(t, items, now, item.1);
}

proof fn lemma_seen_all(t: NodeTable, items: Seq<(NodeId, PeerAddr)>, now: u64, a: PeerAddr)
    ensures
        t.seen_all(items, now).nodes.contains_key(a) <==> t.nodes.contains_key(a) || exists|i: int|
            0 <= i < items.len() && (#[trigger] items[i]).1 == a,
    decreases items.len(),
{
    if items.len() > 0 {
        let less = items.drop_last();
        lemma_seen_all(t, less, now, a);
        if exists|i: int| 0 <= i < items.len() && (#[trigger] items[i]).1 == a {
            let i = choose|i: int| 0 <= i < items.len() && (#[trigger] items[i]).1 == a;
            if i < less.len() {
                assert(less[i].1 == a);
            }
        }
        if exists|i: int| 0 <= i < less.len() && (#[trigger] less[i]).1 == a {
            let i = choose|i: int| 0 <= i < less.len() && (#[trigger] less[i]).1 == a;
            assert(items[i].1 == a);
        }
        if items.last().1 == a {
            assert(items[items.len() - 1].1 == a);
        }
    }
}

/// Every known node that is to be saved gets a row, and an unknown one none.
pub proof fn the_known_get_rows(
    nodes: Map<PeerAddr, KBucketEntry>,
    addrs: Seq<PeerAddr>,
    a: PeerAddr,
    now: u64,
)
    ensures
        rows_of(nodes, Seq::empty(), now).len() == 0,
        nodes.contains_key(a) ==> rows_of(nodes, addrs.push(a), now) == rows_of(
            nodes,
            addrs,
            now,
        ).push(row_of(nodes[a], now)),
        !nodes.contains_key(a) ==> rows_of(nodes, addrs.push(a), now) == rows_of(nodes, addrs, now),
{
    assert(addrs.push(a).drop_last() =~= addrs);
}

/// Scores are set one after the other, and saved nodes are read one after the other.
pub proof fn each_is_taken_in(
    t: NodeTable,
    scores: Seq<(PeerAddr, i64)>,
    score: (PeerAddr, i64),
    rows: Seq<DhtNodeRow>,
    row: DhtNodeRow,
    now: u64,
    x: PeerAddr,
)
    ensures
        t.scored_all(Seq::empty()) == t,
        t.scored_all(scores.push(score)) == t.scored_all(scores).scored(score),
        t.loaded_all(Seq::empty(), now) == t,
        t.loaded_all(rows.push(row), now).nodes.contains_key(row.addr),
        t.loaded_all(rows.push(row), now).nodes[row.addr] == node_of(row, now),
        x != row.addr ==> (t.loaded_all(rows.push(row), now).nodes.contains_key(x)
            <==> t.loaded_all(rows, now).nodes.contains_key(x)),
{
    assert(scores.push(score).drop_last() =~= scores);
    assert(rows.push(row).drop_last() =~= rows);
}

} // verus!
