//! What it is for peers to be the best ones.

use vstd::prelude::*;

use crate::ranking::picks;
use crate::storage::peer_repo::{addr_of, scores_higher, PeerTable};
use crate::types::{Infohash, PeerAddr, PeerInfo};

verus! {

/// The peers that are handed out stand in the order of their scores, each once, and nobody who
/// is left out has a greater score than one of them. Where all fit, nobody is left out.
pub proof fn best_peers_come_first(
    m: Map<PeerAddr, PeerInfo>,
    r: Seq<PeerInfo>,
    n: nat,
    i: int,
    a: PeerAddr,
)
    requires
        picks(m, addr_of(), r, n, scores_higher()),
        0 <= i < r.len(),
    ensures
        r.len() <= n,
        r.len() <= m.len(),
        r.len() == n || r.len() == m.len(),
        m.contains_key(r[i].addr) && m[r[i].addr] == r[i],
        forall|j: int| i < j < r.len() ==> r[i].priority_score >= (#[trigger] r[j]).priority_score,
        forall|j: int| 0 <= j < r.len() && j != i ==> (#[trigger] r[j]).addr != r[i].addr,
        m.contains_key(a) && (forall|j: int| 0 <= j < r.len() ==> (#[trigger] r[j]).addr != a)
            ==> r[i].priority_score >= m[a].priority_score,
{
    let key = addr_of();
    let before = scores_higher();
    let ra = r.map_values(key);
    assert forall|j: int| i < j < r.len() implies r[i].priority_score >= (
    #[trigger] r[j]).priority_score by {
        assert(!before(r[j], r[i]));
    }
    assert forall|j: int| 0 <= j < r.len() && j != i implies (#[trigger] r[j]).addr
        != r[i].addr by {
        assert(ra[j] != ra[i]);
    }
    if m.contains_key(a) && (forall|j: int| 0 <= j < r.len() ==> (#[trigger] r[j]).addr != a) {
        if ra.contains(a) {
            let j = choose|j: int| 0 <= j < ra.len() && ra[j] == a;
            assert(r[j].addr == a);
        }
        assert(!before(m[a], r[i]));
    }
}

/// The peers of a torrent are those that are linked with it, with what is known of them.
pub proof fn peers_of_a_torrent_are_linked(t: PeerTable, ih: Infohash, a: PeerAddr)
    requires
        t.wf(),
    ensures
        t.peers_of(ih).contains_key(a) <==> t.by_infohash.contains_key(ih)
            && t.by_infohash[ih].contains(a),
        t.peers_of(ih).contains_key(a) ==> t.peers_of(ih)[a] == t.global[a]
            && t.peers_of(ih)[a].addr == a,
{
    crate::storage::peer_repo::links_agree(t, ih, a);
}

} // verus!
