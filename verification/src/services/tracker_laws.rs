//! What holds of the answers of the tracker that the node itself is.

use vstd::prelude::*;

use crate::ranking::picks;
use crate::services::tracker_service::{
    after_announce, answers, counted, entry_for, other_than, TrackerAnnounceRequest,
    ANNOUNCE_LIMIT,
};
use crate::storage::best_peers::best_peers_come_first;
use crate::storage::peer_repo::{addr_of, scores_higher, PeerTable};
use crate::storage::recency::lemma_filter_keeps;
use crate::types::{Infohash, PeerAddr, PeerInfo, PeerSource};

verus! {

proof fn lemma_filter_order<A>(s: Seq<A>, p: spec_fn(A) -> bool, i: int, j: int)
    requires
        0 <= i <= j < s.filter(p).len(),
    ensures
        exists|a: int, b: int|
            0 <= a <= b < s.len() && (i < j ==> a < b) && #[trigger] s[a] == s.filter(p)[i]
                && #[trigger] s[b] == s.filter(p)[j],
    decreases s.len(),
{
    reveal(Seq::filter);
    if s.len() > 0 {
        let t = s.drop_last();
        if j < t.filter(p).len() {
            lemma_filter_order(t, p, i, j);
            let (a, b) = choose|a: int, b: int|
                0 <= a <= b < t.len() && (i < j ==> a < b) && #[trigger] t[a] == t.filter(p)[i]
                    && #[trigger] t[b] == t.filter(p)[j];
            assert(s[a] == s.filter(p)[i] && s[b] == s.filter(p)[j]);
        } else {
            assert(s[s.len() - 1] == s.filter(p)[j]);
            if i < j {
                lemma_filter_order(t, p, i, i);
                let (a, b) = choose|a: int, b: int|
                    0 <= a <= b < t.len() && (i < i ==> a < b) && #[trigger] t[a] == t.filter(p)[i]
                        && #[trigger] t[b] == t.filter(p)[i];
                assert(s[a] == s.filter(p)[i] && s[s.len() - 1] == s.filter(p)[j]);
            }
        }
    }
}

/// Whoever asks is told of peers that have the torrent, the best first: nobody else who has it
/// and is not told of has a greater score than one who is. At most fifty are told of, and where
/// fewer than that have the torrent, all of them.
pub proof fn the_best_are_told(
    t: PeerTable,
    req: TrackerAnnounceRequest,
    peers: Seq<PeerAddr>,
    i: int,
    a: PeerAddr,
)
    requires
        answers(t, req, peers),
    ensures
        peers.len() <= 50,
        0 <= i < peers.len() ==> t.peers_of(req.info_hash).contains_key(peers[i]),
        0 <= i < peers.len() ==> forall|j: int|
            i < j < peers.len() ==> t.peers_of(req.info_hash)[peers[i]].priority_score
                >= t.peers_of(req.info_hash)[#[trigger] peers[j]].priority_score,
        0 <= i < peers.len() && t.peers_of(req.info_hash).contains_key(a) && a != req.remote_addr
            && !peers.contains(a) ==> t.peers_of(req.info_hash)[peers[i]].priority_score
            >= t.peers_of(req.info_hash)[a].priority_score,
{
    let m = t.peers_of(req.info_hash);
    let p = other_than(req.remote_addr);
    let best = choose|best: Seq<PeerInfo>|
        #[trigger] picks(m, addr_of(), best, ANNOUNCE_LIMIT as nat, scores_higher()) && peers
            == best.map_values(addr_of()).filter(p);
    let all = best.map_values(addr_of());
    all.lemma_filter_len(p);
    if 0 <= i < peers.len() {
        lemma_filter_order(all, p, i, i);
        let (x, y) = choose|x: int, y: int|
            0 <= x <= y < all.len() && (i < i ==> x < y) && #[trigger] all[x] == all.filter(p)[i]
                && #[trigger] all[y] == all.filter(p)[i];
        best_peers_come_first(m, best, ANNOUNCE_LIMIT as nat, x, a);
        assert(best[x].addr == peers[i]);
        assert forall|j: int| i < j < peers.len() implies m[peers[i]].priority_score
            >= m[#[trigger] peers[j]].priority_score by {
            lemma_filter_order(all, p, i, j);
            let (u, v) = choose|u: int, v: int|
                0 <= u <= v < all.len() && (i < j ==> u < v) && #[trigger] all[u] == all.filter(
                    p,
                )[i] && #[trigger] all[v] == all.filter(p)[j];
            best_peers_come_first(m, best, ANNOUNCE_LIMIT as nat, u, a);
            best_peers_come_first(m, best, ANNOUNCE_LIMIT as nat, v, a);
            assert(best[u].addr == peers[i] && best[v].addr == peers[j]);
        }
        if m.contains_key(a) && a != req.remote_addr && !peers.contains(a) {
            assert forall|j: int| 0 <= j < best.len() implies (#[trigger] best[j]).addr != a by {
                if best[j].addr == a {
                    assert(all[j] == a);
                    lemma_filter_keeps(all, p, j);
                }
            }
        }
    }
}

/// A scrape says how many peers have a torrent, up to a thousand.
pub proof fn peers_are_counted(t: PeerTable, ih: Infohash)
    ensures
        t.peers_of(ih).len() <= 1000 ==> entry_for(t, ih).complete == t.peers_of(ih).len(),
        t.peers_of(ih).len() > 1000 ==> entry_for(t, ih).complete == 1000,
        entry_for(t, ih).downloaded == 0,
        entry_for(t, ih).incomplete == 0,
        counted(t, ih) <= t.peers_of(ih).len(),
{
}

/// Who announces a torrent is known to have it, as learnt by the announce itself, and what was
/// known of others stays.
pub proof fn announcing_makes_known(
    t: PeerTable,
    req: TrackerAnnounceRequest,
    now: u64,
    ih: Infohash,
    x: PeerAddr,
)
    ensures
        ({
            let u = after_announce(t, req, now);
            &&& u.linked(req.info_hash, req.remote_addr)
            &&& u.global.contains_key(req.remote_addr)
            &&& u.global[req.remote_addr].last_active == now
            &&& u.global[req.remote_addr].source == PeerSource::SuperTracker
            &&& !t.global.contains_key(req.remote_addr) ==> u.global[req.remote_addr].first_seen
                == now && u.global[req.remote_addr].priority_score == 0
            &&& t.global.contains_key(req.remote_addr)
                ==> u.global[req.remote_addr].priority_score
                == t.global[req.remote_addr].priority_score
            &&& x != req.remote_addr && t.global.contains_key(x) ==> u.global.contains_key(x)
                && u.global[x] == t.global[x]
            &&& ih != req.info_hash || x != req.remote_addr ==> (u.linked(ih, x) <==> t.linked(
                ih,
                x,
            ))
        }),
{
    let items = crate::services::tracker_service::announced_peer(req, now);
    let p = crate::types::fresh_peer(req.remote_addr, PeerSource::SuperTracker, now);
    assert(items.drop_last() =~= Seq::empty());
    assert(items.last() == (req.info_hash, p));
    reveal_with_fuel(PeerTable::noted_all, 2);
    assert(t.noted_all(items) == t.noted(p).joined(req.info_hash, p.addr));
}

} // verus!
