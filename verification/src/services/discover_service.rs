//! What becomes of the peers that the ways of finding peers have found.

use vstd::prelude::*;

use crate::sorting::{key_lt, lemma_order_covers, orders, stable_order, SortKey};
use crate::storage::fx_map::FxMap;
use crate::storage::infohash_repo::InfohashRepoImpl;
use crate::storage::peer_repo::{
    history_full, history_of, peers_with, taken_note, NewPeer, PeerHistoryEntry, PeerRepoImpl,
};
use crate::types::{Infohash, PeerAddr, PeerInfo, PeerSource};

verus! {

/// What one way of finding peers came back with: its name, the peers where it did not fail,
/// and how many nanoseconds it took.
pub type Finding = (String, Option<Vec<PeerInfo>>, u64);

/// The outcome of a search for peers. Durations are nanoseconds.
pub struct DiscoveryResult {
    pub peers: Vec<PeerInfo>,
    pub source_stats: FxMap<PeerSource, usize>,
    pub total_duration: u64,
    pub discoverer_durations: FxMap<String, u64>,
}

/// All peers that were found, in the order in which they came.
pub open spec fn collected(raw: Seq<Finding>) -> Seq<PeerInfo>
    decreases raw.len(),
{
    if raw.len() == 0 {
        Seq::empty()
    } else {
        let before = collected(raw.drop_last());
        match raw.last().1 {
            Some(peers) => before + peers@,
            None => before,
        }
    }
}

/// How long each way took; what came later counts where a name comes twice.
pub open spec fn durations(raw: Seq<Finding>) -> Map<Seq<char>, u64>
    decreases raw.len(),
{
    if raw.len() == 0 {
        Map::empty()
    } else {
        durations(raw.drop_last()).insert(raw.last().0@, raw.last().2)
    }
}

/// How many peers come from a source.
pub open spec fn from_source(peers: Seq<PeerInfo>, s: PeerSource) -> nat
    decreases peers.len(),
{
    if peers.len() == 0 {
        0
    } else {
        from_source(peers.drop_last(), s) + if peers.last().source == s {
            1nat
        } else {
            0nat
        }
    }
}

/// How many peers come from each source, for the sources that peers come from.
pub open spec fn counts_sources(m: Map<PeerSource, usize>, peers: Seq<PeerInfo>) -> bool {
    &&& forall|s: PeerSource| #[trigger] m.contains_key(s) <==> from_source(peers, s) > 0
    &&& forall|s: PeerSource| m.contains_key(s) ==> #[trigger] m[s] == from_source(peers, s)
}

/// The key by which addresses are ordered: IPv4 first, then by address, then by port.
pub open spec fn addr_key(a: PeerAddr) -> SortKey {
    match a {
        PeerAddr::V4 { ip, port } => (0u64, ip as u128, port as u64),
        PeerAddr::V6 { ip, port } => (1u64, ip, port as u64),
    }
}

/// Whether one address comes before another.
pub open spec fn addr_lt(a: PeerAddr, b: PeerAddr) -> bool {
    key_lt(addr_key(a), addr_key(b))
}

/// Whether a list holds, of each address, the peer that was found first, in the order of
/// the addresses.
pub open spec fn first_of_each(all: Seq<PeerInfo>, r: Seq<PeerInfo>) -> bool {
    &&& forall|i: int, j: int|
        0 <= i < j < r.len() ==> addr_lt((#[trigger] r[i]).addr, (#[trigger] r[j]).addr)
    &&& forall|i: int| 0 <= i < r.len() ==> first_found(all, #[trigger] r[i])
    &&& forall|k: int| 0 <= k < all.len() ==> has_addr(r, (#[trigger] all[k]).addr)
}

/// Whether a peer was found, and nobody with its address before it.
pub open spec fn first_found(all: Seq<PeerInfo>, p: PeerInfo) -> bool {
    exists|k: int|
        0 <= k < all.len() && #[trigger] all[k] == p && forall|m: int|
            0 <= m < k ==> (#[trigger] all[m]).addr != p.addr
}

/// Whether a peer with the address is listed.
pub open spec fn has_addr(r: Seq<PeerInfo>, a: PeerAddr) -> bool {
    exists|i: int| 0 <= i < r.len() && (#[trigger] r[i]).addr == a
}

fn sort_key(a: &PeerAddr) -> (r: SortKey)
    ensures
        r == addr_key(*a),
{
    match a {
        PeerAddr::V4 { ip, port } => (0, *ip as u128, *port as u64),
        PeerAddr::V6 { ip, port } => (1, *ip, *port as u64),
    }
}

/// The peers in the order of their addresses, the one that was found first of each address.
pub fn sort_and_dedup(peers: &Vec<PeerInfo>) -> (r: Vec<PeerInfo>)
    ensures
        first_of_each(peers@, r@),
{
    let mut keys: Vec<SortKey> = Vec::new();
    let mut i: usize = 0;
    while i < peers.len()
        invariant
            0 <= i <= peers@.len(),
            keys@.len() == i,
            forall|k: int| 0 <= k < i ==> #[trigger] keys@[k] == addr_key(peers@[k].addr),
        decreases peers@.len() - i,
    {
        keys.push(sort_key(&peers[i].addr));
        i = i + 1;
    }
    let order = stable_order(&keys);
    let mut out: Vec<PeerInfo> = Vec::new();
    let mut j: usize = 0;
    while j < order.len()
        invariant
            0 <= j <= order@.len(),
            keys@.len() == peers@.len(),
            peers@.len() <= usize::MAX,
            forall|k: int|
                0 <= k < peers@.len() ==> #[trigger] keys@[k] == addr_key(peers@[k].addr),
            orders(keys@, order@),
            j > 0 ==> out@.len() > 0 && out@.last().addr == peers@[order@[j - 1] as int].addr,
            j == 0 ==> out@.len() == 0,
            forall|a: int, b: int|
                0 <= a < b < out@.len() ==> addr_lt(
                    (#[trigger] out@[a]).addr,
                    (#[trigger] out@[b]).addr,
                ),
            forall|a: int| 0 <= a < out@.len() ==> first_found(peers@, #[trigger] out@[a]),
            forall|p: int|
                0 <= p < j ==> has_addr(out@, peers@[(#[trigger] order@[p]) as int].addr),
        decreases order@.len() - j,
    {
        let ghost before = out@;
        let ghost k = order@[j as int] as int;
        let p = peers[order[j]];
        let fresh: bool = out.len() == 0 || out[out.len() - 1].addr != p.addr;
        if fresh {
            out.push(p);
            proof {
                lemma_is_first(peers@, keys@, order@, j as int);
                assert forall|a: int, b: int| 0 <= a < b < out@.len() implies addr_lt(
                    (#[trigger] out@[a]).addr,
                    (#[trigger] out@[b]).addr,
                ) by {
                    if b == before.len() {
                        let q = order@[j - 1] as int;
                        assert(key_lt(keys@[q], keys@[k]) || keys@[q] == keys@[k]);
                        assert(addr_lt(before.last().addr, p.addr));
                        if a < before.len() - 1 {
                            assert(addr_lt(before[a].addr, before[before.len() - 1].addr));
                        }
                    }
                }
                assert(out@[before.len() as int] == p);
            }
        }
        proof {
            assert forall|q: int| 0 <= q < j + 1 implies has_addr(
                out@,
                peers@[(#[trigger] order@[q]) as int].addr,
            ) by {
                let a = peers@[order@[q] as int].addr;
                if q < j {
                    assert(has_addr(before, a));
                    let w = choose|w: int| 0 <= w < before.len() && (#[trigger] before[w]).addr == a;
                    assert(out@[w].addr == a);
                } else {
                    assert(out@[out@.len() - 1].addr == a);
                }
            }
        }
        j = j + 1;
    }
    proof {
        assert forall|k: int| 0 <= k < peers@.len() implies has_addr(
            out@,
            (#[trigger] peers@[k]).addr,
        ) by {
            lemma_order_covers(keys@, order@, k);
            let q = choose|q: int| 0 <= q < order@.len() && order@[q] == k as usize;
            assert(has_addr(out@, peers@[order@[q] as int].addr));
        }
    }
    out
}

proof fn lemma_is_first(peers: Seq<PeerInfo>, keys: Seq<SortKey>, order: Seq<usize>, j: int)
    requires
        keys.len() == peers.len(),
        peers.len() <= usize::MAX,
        forall|k: int| 0 <= k < peers.len() ==> #[trigger] keys[k] == addr_key(peers[k].addr),
        orders(keys, order),
        0 <= j < order.len(),
        j > 0 ==> peers[order[j - 1] as int].addr != peers[order[j] as int].addr,
    ensures
        first_found(peers, peers[order[j] as int]),
{
    let k = order[j] as int;
    let p = peers[k];
    assert forall|m: int| 0 <= m < k implies (#[trigger] peers[m]).addr != p.addr by {
        if peers[m].addr == p.addr {
            assert(keys[m] == keys[k]);
            lemma_order_covers(keys, order, m);
            let q = choose|q: int| 0 <= q < order.len() && order[q] == m as usize;
            if q > j {
                assert(order[j] < order[q]);
            } else {
                assert(q != j);
                let l = order[j - 1] as int;
                assert(keys[l] == addr_key(peers[l].addr));
                assert(keys[k] == addr_key(peers[k].addr));
                assert(key_lt(keys[l], keys[k]) || keys[l] == keys[k]);
                assert(key_lt(keys[l], keys[k]));
                if q < j - 1 {
                    assert(key_lt(keys[m], keys[l]) || keys[m] == keys[l]);
                }
            }
        }
    }
    assert(peers[k] == p);
}

proof fn lemma_from_source_bound(peers: Seq<PeerInfo>, s: PeerSource)
    ensures
        from_source(peers, s) <= peers.len(),
    decreases peers.len(),
{
    if peers.len() > 0 {
        lemma_from_source_bound(peers.drop_last(), s);
    }
}

fn count_source(m: &mut FxMap<PeerSource, usize>, s: PeerSource, Ghost(peers): Ghost<Seq<PeerInfo>>)
    requires
        old(m).wf(),
        peers.len() > 0,
        peers.last().source == s,
        peers.len() <= usize::MAX,
        counts_sources(old(m)@, peers.drop_last()),
    ensures
        final(m).wf(),
        counts_sources(final(m)@, peers),
{
    proof {
        lemma_from_source_bound(peers.drop_last(), s);
    }
    let n: usize = match m.get(&s) {
        Some(n) => *n,
        None => 0,
    };
    let _ = m.insert(s, n + 1);
}

/// What all ways of finding peers found together.
pub fn merge_findings(raw: &Vec<Finding>, total_duration: u64) -> (r: DiscoveryResult)
    requires
        collected(raw@).len() <= usize::MAX,
    ensures
        first_of_each(collected(raw@), r.peers@),
        r.source_stats.wf(),
        counts_sources(r.source_stats@, collected(raw@)),
        r.discoverer_durations.wf(),
        r.discoverer_durations@ == durations(raw@),
        r.total_duration == total_duration,
{
    let mut all: Vec<PeerInfo> = Vec::new();
    let mut source_stats: FxMap<PeerSource, usize> = FxMap::new();
    let mut discoverer_durations: FxMap<String, u64> = FxMap::new();
    let mut i: usize = 0;
    proof {
        assert(raw@.take(0) =~= Seq::empty());
    }
    while i < raw.len()
        invariant
            0 <= i <= raw@.len(),
            collected(raw@).len() <= usize::MAX,
            source_stats.wf(),
            discoverer_durations.wf(),
            all@ == collected(raw@.take(i as int)),
            counts_sources(source_stats@, all@),
            discoverer_durations@ == durations(raw@.take(i as int)),
        decreases raw@.len() - i,
    {
        let ghost before = all@;
        proof {
            assert(raw@.take(i + 1).drop_last() =~= raw@.take(i as int));
            assert(raw@.take(i + 1).last() == raw@[i as int]);
            lemma_collected_grows(raw@, i + 1);
        }
        let _ = discoverer_durations.insert(raw[i].0.clone(), raw[i].2);
        match &raw[i].1 {
            Some(peers) => {
                let mut k: usize = 0;
                proof {
                    assert(before + peers@.take(0) =~= before);
                }
                while k < peers.len()
                    invariant
                        0 <= k <= peers@.len(),
                        before.len() + peers@.len() <= usize::MAX,
                        source_stats.wf(),
                        all@ == before + peers@.take(k as int),
                        counts_sources(source_stats@, all@),
                    decreases peers@.len() - k,
                {
                    let ghost longer = all@.push(peers@[k as int]);
                    proof {
                        assert(longer.drop_last() =~= all@);
                        assert(longer =~= before + peers@.take(k + 1));
                    }
                    count_source(&mut source_stats, peers[k].source, Ghost(longer));
                    all.push(peers[k]);
                    k = k + 1;
                }
                proof {
                    assert(peers@.take(k as int) =~= peers@);
                }
            },
            None => {},
        }
        i = i + 1;
    }
    proof {
        assert(raw@.take(i as int) =~= raw@);
    }
    let peers = sort_and_dedup(&all);
    DiscoveryResult { peers, source_stats, total_duration, discoverer_durations }
}

proof fn lemma_collected_grows(raw: Seq<Finding>, n: int)
    requires
        0 <= n <= raw.len(),
    ensures
        collected(raw.take(n)).len() <= collected(raw).len(),
    decreases raw.len() - n,
{
    if n < raw.len() {
        lemma_collected_grows(raw, n + 1);
        assert(raw.take(n + 1).drop_last() =~= raw.take(n));
    } else {
        assert(raw.take(n) =~= raw);
    }
}

/// Ends a search for the peers of a torrent: merges what was found and takes note of it and
/// of the torrent. Also who is new, and the history where it is long enough to be saved.
pub fn finish_discovery(
    peer_repo: &mut PeerRepoImpl,
    infohash_repo: &mut InfohashRepoImpl,
    infohash: Infohash,
    raw: &Vec<Finding>,
    total_duration: u64,
    now: u64,
) -> (r: (DiscoveryResult, Vec<NewPeer>, Option<Vec<PeerHistoryEntry>>))
    requires
        old(peer_repo).wf(),
        old(infohash_repo).wf(),
        now <= i64::MAX,
        collected(raw@).len() <= usize::MAX,
    ensures
        final(peer_repo).wf(),
        final(infohash_repo).wf(),
        first_of_each(collected(raw@), r.0.peers@),
        r.0.source_stats.wf(),
        counts_sources(r.0.source_stats@, collected(raw@)),
        r.0.discoverer_durations.wf(),
        r.0.discoverer_durations@ == durations(raw@),
        r.0.total_duration == total_duration,
        ({
            let items = peers_with(infohash, r.0.peers@);
            &&& final(peer_repo)@ == taken_note(old(peer_repo)@, items, now as i64)
            &&& r.1@ == old(peer_repo)@.newcomers(items)
            &&& r.2 is Some <==> history_full(old(peer_repo)@, items, now as i64)
            &&& r.2 matches Some(b) ==> b@ == old(peer_repo)@.history + history_of(
                items,
                now as i64,
            )
        }),
        final(infohash_repo)@ == old(infohash_repo)@.registered((infohash, "discover"@, now)),
{
    let result = merge_findings(raw, total_duration);
    let (fresh, history) = peer_repo.add_peers_sync(
        &infohash,
        result.peers.as_slice(),
        now as i64,
    );
    let _ = infohash_repo.register_sync(infohash, "discover", now);
    (result, fresh, history)
}

/// Of each address that was found there is exactly one peer in the result.
pub proof fn result_has_each_once(all: Seq<PeerInfo>, r: Seq<PeerInfo>, a: PeerAddr)
    requires
        first_of_each(all, r),
        has_addr(all, a),
    ensures
        exists|i: int|
            0 <= i < r.len() && (#[trigger] r[i]).addr == a && forall|j: int|
                0 <= j < r.len() && j != i ==> (#[trigger] r[j]).addr != a,
{
    let k = choose|k: int| 0 <= k < all.len() && (#[trigger] all[k]).addr == a;
    assert(has_addr(r, all[k].addr));
    let i = choose|i: int| 0 <= i < r.len() && (#[trigger] r[i]).addr == a;
    assert forall|j: int| 0 <= j < r.len() && j != i implies (#[trigger] r[j]).addr != a by {
        if j < i {
            assert(addr_lt(r[j].addr, r[i].addr));
        } else {
            assert(addr_lt(r[i].addr, r[j].addr));
        }
    }
}

} // verus!
