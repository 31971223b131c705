//! What holds of what the ways of finding peers have found.

use vstd::prelude::*;

use crate::services::discover_service::{
    addr_lt, collected, counts_sources, durations, first_of_each, first_found, from_source, has_addr,
    Finding,
};
use crate::types::{PeerAddr, PeerInfo, PeerSource};

verus! {

/// A peer of the result was found, and nobody with the same address was found before it.
pub proof fn the_first_found_is_kept(all: Seq<PeerInfo>, r: Seq<PeerInfo>, i: int, k: int)
    requires
        first_of_each(all, r),
        0 <= i < r.len(),
        0 <= k < all.len(),
    ensures
        all[k].addr == r[i].addr && (forall|m: int|
            0 <= m < k ==> (#[trigger] all[m]).addr != r[i].addr) ==> r[i] == all[k],
        exists|m: int| 0 <= m < all.len() && #[trigger] all[m] == r[i],
        exists|j: int| 0 <= j < r.len() && (#[trigger] r[j]).addr == all[k].addr,
{
    assert(first_found(all, r[i]));
    let f = choose|f: int|
        0 <= f < all.len() && #[trigger] all[f] == r[i] && forall|m: int|
            0 <= m < f ==> (#[trigger] all[m]).addr != r[i].addr;
    if all[k].addr == r[i].addr && (forall|m: int|
        0 <= m < k ==> (#[trigger] all[m]).addr != r[i].addr) {
        if f < k {
            assert(all[f].addr != r[i].addr);
        }
        if k < f {
            assert(all[k].addr != r[i].addr);
        }
    }
    assert(has_addr(r, all[k].addr));
}

/// The peers of the result stand in the order of their addresses: those of IPv4 before those of
/// IPv6, smaller numbers before greater ones, and the port last of all.
pub proof fn result_is_in_order(all: Seq<PeerInfo>, r: Seq<PeerInfo>, i: int, j: int)
    requires
        first_of_each(all, r),
        0 <= i < j < r.len(),
    ensures
        match (r[i].addr, r[j].addr) {
            (PeerAddr::V4 { ip, port }, PeerAddr::V4 { ip: ip2, port: port2 }) => ip < ip2 || (ip
                == ip2 && port < port2),
            (PeerAddr::V6 { ip, port }, PeerAddr::V6 { ip: ip2, port: port2 }) => ip < ip2 || (ip
                == ip2 && port < port2),
            (PeerAddr::V4 { .. }, PeerAddr::V6 { .. }) => true,
            (PeerAddr::V6 { .. }, PeerAddr::V4 { .. }) => false,
        },
{
    assert(addr_lt(r[i].addr, r[j].addr));
}

/// What a way of finding peers came back with is added behind the rest; its time is noted under
/// its name, and no other time is touched.
pub proof fn findings_are_added(raw: Seq<Finding>, f: Finding, name: Seq<char>)
    ensures
        collected(Seq::empty()).len() == 0,
        f.1 matches Some(peers) ==> collected(raw.push(f)) == collected(raw) + peers@,
        f.1 is None ==> collected(raw.push(f)) == collected(raw),
        durations(raw.push(f)).contains_key(f.0@),
        durations(raw.push(f))[f.0@] == f.2,
        name != f.0@ ==> (durations(raw.push(f)).contains_key(name) <==> durations(
            raw,
        ).contains_key(name)),
        name != f.0@ && durations(raw).contains_key(name) ==> durations(raw.push(f))[name]
            == durations(raw)[name],
{
    assert(raw.push(f).drop_last() =~= raw);
}

/// Every peer counts once, for its own source.
pub proof fn every_peer_counts_once(peers: Seq<PeerInfo>, p: PeerInfo, s: PeerSource)
    ensures
        from_source(peers.push(p), p.source) == from_source(peers, p.source) + 1,
        s != p.source ==> from_source(peers.push(p), s) == from_source(peers, s),
        peers.len() == from_source(peers, PeerSource::Tracker) + from_source(
            peers,
            PeerSource::Dht,
        ) + from_source(peers, PeerSource::Pex) + from_source(peers, PeerSource::SuperTracker)
            + from_source(peers, PeerSource::Lpd) + from_source(peers, PeerSource::WebSeed)
            + from_source(peers, PeerSource::Manual),
    decreases peers.len(),
{
    assert(peers.push(p).drop_last() =~= peers);
    if peers.len() > 0 {
        every_peer_counts_once(peers.drop_last(), p, s);
    }
}

/// A source is listed exactly where a peer comes from it, with the number of those peers.
pub proof fn sources_are_listed(m: Map<PeerSource, usize>, peers: Seq<PeerInfo>, s: PeerSource)
    requires
        counts_sources(m, peers),
    ensures
        m.contains_key(s) <==> exists|i: int|
            0 <= i < peers.len() && (#[trigger] peers[i]).source == s,
        m.contains_key(s) ==> m[s] == peers.filter(|p: PeerInfo| p.source == s).len(),
{
    lemma_counted(peers, s);
}

proof fn lemma_counted(peers: Seq<PeerInfo>, s: PeerSource)
    ensures
        from_source(peers, s) > 0 <==> exists|i: int|
            0 <= i < peers.len() && (#[trigger] peers[i]).source == s,
        from_source(peers, s) == peers.filter(|p: PeerInfo| p.source == s).len(),
    decreases peers.len(),
{
    reveal(Seq::filter);
    if peers.len() > 0 {
        let t = peers.drop_last();
        lemma_counted(t, s);
        if exists|i: int| 0 <= i < peers.len() && (#[trigger] peers[i]).source == s {
            let i = choose|i: int| 0 <= i < peers.len() && (#[trigger] peers[i]).source == s;
            if i < t.len() {
                assert(t[i].source == s);
            }
        }
        if exists|i: int| 0 <= i < t.len() && (#[trigger] t[i]).source == s {
            let i = choose|i: int| 0 <= i < t.len() && (#[trigger] t[i]).source == s;
            assert(peers[i].source == s);
        }
        if peers.last().source == s {
            assert(peers[peers.len() - 1].source == s);
        }
    }
}

} // verus!
