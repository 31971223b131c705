//! What holds of the exchange of peers.

use vstd::prelude::*;

use crate::pex::client::{due, keeps_unexpired, ConnectedPeer, PexConfig, PexState};
use crate::types::{PeerAddr, PeerInfo, PeerSource};

verus! {

/// A peer is connected only where there is room, replaces nobody else, and is asked at once.
pub proof fn connecting_takes_room(
    s: PexState,
    addr: PeerAddr,
    peer_id: Option<[u8; 20]>,
    now: u64,
    x: PeerAddr,
)
    ensures
        s.connected.len() >= s.config.max_connected_peers ==> s.joined(addr, peer_id, now) == s,
        s.connected.len() < s.config.max_connected_peers ==> ({
            let t = s.joined(addr, peer_id, now);
            &&& t.connected.contains_key(addr)
            &&& t.connected[addr].addr == addr
            &&& t.connected[addr].peer_id == peer_id
            &&& t.connected[addr].connected_at == now
            &&& t.connected[addr].peers_received == 0
            &&& due(t.config, t.connected[addr], now)
            &&& x != addr ==> (t.connected.contains_key(x) <==> s.connected.contains_key(x))
            &&& x != addr && s.connected.contains_key(x) ==> t.connected[x] == s.connected[x]
            &&& t.known == s.known
            &&& t.config == s.config
        }),
{
}

/// Who cannot exchange peers is never asked; who was never asked is asked at once; and anybody
/// else exactly once the interval is over.
pub proof fn asking_keeps_the_interval(c: PexConfig, p: ConnectedPeer, last: u64, now: u64)
    requires
        last <= now,
    ensures
        !p.supports_pex ==> !due(c, p, now),
        p.supports_pex && p.last_pex_exchange is None ==> due(c, p, now),
        p.supports_pex && p.last_pex_exchange == Some(last) ==> (due(c, p, now) <==> now >= last
            + c.pex_request_interval),
{
}

/// Those who are asked are connected; an exchange changes the time of the last one of those who
/// were due, and nothing else.
pub proof fn an_exchange_is_noted(s: PexState, a: PeerAddr, now: u64)
    requires
        s.connected.contains_key(a),
    ensures
        s.due_set(now).contains(a) <==> due(s.config, s.connected[a], now),
        s.after_exchange(now).dom() == s.connected.dom(),
        due(s.config, s.connected[a], now) ==> s.after_exchange(now)[a].last_pex_exchange == Some(
            now,
        ),
        !due(s.config, s.connected[a], now) ==> s.after_exchange(now)[a] == s.connected[a],
        s.after_exchange(now)[a].addr == s.connected[a].addr,
        s.after_exchange(now)[a].peer_id == s.connected[a].peer_id,
        s.after_exchange(now)[a].connected_at == s.connected[a].connected_at,
        s.after_exchange(now)[a].peers_received == s.connected[a].peers_received,
        s.after_exchange(now)[a].supports_pex == s.connected[a].supports_pex,
{
    assert(s.after_exchange(now).dom() =~= s.connected.dom());
}

/// Who is heard of for the first time is known under the own address, as learnt from a peer at
/// that time.
pub proof fn who_is_heard_of_is_new(s: PexState, peers: Seq<PeerAddr>, a: PeerAddr, wall: u64)
    requires
        peers.contains(a),
        !s.known.contains_key(a),
    ensures
        s.heard(peers, wall).known.contains_key(a),
        s.heard(peers, wall).known[a].addr == a,
        s.heard(peers, wall).known[a].source == PeerSource::Pex,
        s.heard(peers, wall).known[a].first_seen == wall,
        s.heard(peers, wall).known[a].last_active == wall,
        s.heard(peers, wall).known[a].priority_score == 0,
        s.heard(peers, wall).known[a].peer_id is None,
    decreases peers.len(),
{
    let t = peers.drop_last();
    let k = choose|k: int| 0 <= k < peers.len() && peers[k] == a;
    if k < t.len() {
        assert(t[k] == a);
    }
    if t.contains(a) {
        who_is_heard_of_is_new(s, t, a, wall);
    } else {
        assert(a == peers.last());
        crate::pex::client::heard_is_known(s, t, wall);
        assert(!s.heard(t, wall).known.contains_key(a));
    }
}

/// A peer is forgotten exactly where the test says that its time is over, and who stays is known
/// as before.
pub proof fn only_the_expired_are_forgotten<F: Fn(PeerInfo) -> bool>(
    before: Map<PeerAddr, PeerInfo>,
    after: Map<PeerAddr, PeerInfo>,
    is_expired: F,
    expired: spec_fn(PeerInfo) -> bool,
    a: PeerAddr,
)
    requires
        keeps_unexpired(before, after, is_expired),
        forall|p: PeerInfo, b: bool| #[trigger]
            call_ensures(is_expired, (p,), b) ==> b == expired(p),
    ensures
        after.contains_key(a) <==> before.contains_key(a) && !expired(before[a]),
        after.contains_key(a) ==> after[a] == before[a],
{
    if before.contains_key(a) {
        assert(call_ensures(is_expired, (before[a],), !after.contains_key(a)));
    }
}

} // verus!
