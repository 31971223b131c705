//! The peers that the node is connected with, and those that it has heard of from them.
//!
//! Times and durations are nanoseconds on a monotonic clock, but for those of a peer, which
//! are seconds since 1970.

use vstd::prelude::*;

use crate::ranking::{lemma_picked, lemma_pushed, lists_values, pick, picks};
use crate::sorting::SortKey;
use crate::storage::fx_map::{lists, models, FxMap};
use crate::storage::peer_repo::{addr_of, scores_higher};
use crate::types::{fresh_peer, PeerAddr, PeerInfo, PeerSource};

verus! {

/// Limits and timing of the exchange of peers.
#[derive(Debug, Clone, Copy, PartialEq, Eq, Structural)]
pub struct PexConfig {
    pub max_connected_peers: usize,
    /// How long a peer is left alone after an exchange.
    pub pex_request_interval: u64,
    pub max_peers_per_request: usize,
    pub peer_ttl: u64,
    pub enabled: bool,
}

impl Default for PexConfig {
    fn default() -> (r: Self)
        ensures
            r == default_config(),
    {
        PexConfig {
            max_connected_peers: 50,
            pex_request_interval: 60_000_000_000,
            max_peers_per_request: 50,
            peer_ttl: 1_800_000_000_000,
            enabled: true,
        }
    }
}

/// Fifty peers, each asked once a minute for up to fifty peers, which are kept for half an
/// hour.
pub open spec fn default_config() -> PexConfig {
    PexConfig {
        max_connected_peers: 50,
        pex_request_interval: 60_000_000_000,
        max_peers_per_request: 50,
        peer_ttl: 1_800_000_000_000,
        enabled: true,
    }
}

/// A peer that the node is connected with.
#[derive(Debug, Clone, Copy)]
pub struct ConnectedPeer {
    pub addr: PeerAddr,
    pub peer_id: Option<[u8; 20]>,
    pub connected_at: u64,
    pub last_pex_exchange: Option<u64>,
    pub peers_received: u64,
    pub supports_pex: bool,
}

/// A peer that was just connected. That it exchanges peers is taken for granted.
pub open spec fn just_connected(
    addr: PeerAddr,
    peer_id: Option<[u8; 20]>,
    now: u64,
) -> ConnectedPeer {
    ConnectedPeer {
        addr,
        peer_id,
        connected_at: now,
        last_pex_exchange: None,
        peers_received: 0,
        supports_pex: true,
    }
}

/// Whether a peer is to be asked again.
pub open spec fn due(config: PexConfig, p: ConnectedPeer, now: u64) -> bool {
    p.supports_pex && match p.last_pex_exchange {
        Some(t) => t <= now && now - t >= config.pex_request_interval || t > now
            && config.pex_request_interval == 0,
        None => true,
    }
}

/// A peer after an exchange.
pub open spec fn exchanged(p: ConnectedPeer, now: u64) -> ConnectedPeer {
    ConnectedPeer { last_pex_exchange: Some(now), ..p }
}

/// The peers that the node is connected with and those that it knows.
#[verifier::ext_equal]
pub struct PexState {
    pub config: PexConfig,
    pub connected: Map<PeerAddr, ConnectedPeer>,
    pub known: Map<PeerAddr, PeerInfo>,
}

impl PexState {
    /// Every peer is kept under its own address, and not too many are connected.
    pub open spec fn wf(self) -> bool {
        &&& self.connected.dom().finite()
        &&& self.connected.len() <= self.config.max_connected_peers
        &&& forall|a: PeerAddr| #[trigger] self.connected.contains_key(a) ==> self.connected[a].addr
            == a
        &&& forall|a: PeerAddr| #[trigger] self.known.contains_key(a) ==> self.known[a].addr == a
    }

    /// The state after a peer was connected, unless there are enough.
    pub open spec fn joined(
        self,
        addr: PeerAddr,
        peer_id: Option<[u8; 20]>,
        now: u64,
    ) -> PexState {
        if self.connected.len() < self.config.max_connected_peers {
            PexState {
                connected: self.connected.insert(addr, just_connected(addr, peer_id, now)),
                ..self
            }
        } else {
            self
        }
    }

    /// The state after peers were heard of. Who is known already stays as known.
    pub open spec fn heard(self, peers: Seq<PeerAddr>, wall: u64) -> PexState
        decreases peers.len(),
    {
        if peers.len() == 0 {
            self
        } else {
            let s = self.heard(peers.drop_last(), wall);
            let a = peers.last();
            if s.known.contains_key(a) {
                s
            } else {
                PexState { known: s.known.insert(a, fresh_peer(a, PeerSource::Pex, wall)), ..s }
            }
        }
    }

    /// The addresses of the connected peers that are to be asked.
    pub open spec fn due_set(self, now: u64) -> Set<PeerAddr> {
        self.connected.dom().filter(|a: PeerAddr| due(self.config, self.connected[a], now))
    }

    /// The connected peers after those that were to be asked have been asked.
    pub open spec fn after_exchange(self, now: u64) -> Map<PeerAddr, ConnectedPeer> {
        self.connected.map_values(
            |p: ConnectedPeer|
                if due(self.config, p, now) {
                    exchanged(p, now)
                } else {
                    p
                },
        )
    }
}

/// Whether known peers are left exactly as the test says: those of which it says no.
pub open spec fn keeps_unexpired<F: Fn(PeerInfo) -> bool>(
    before: Map<PeerAddr, PeerInfo>,
    after: Map<PeerAddr, PeerInfo>,
    is_expired: F,
) -> bool {
    &&& after.submap_of(before)
    &&& forall|a: PeerAddr|
        before.contains_key(a) ==> call_ensures(
            is_expired,
            (#[trigger] before[a],),
            !after.contains_key(a),
        )
}

/// Finds peers by asking connected peers whom they know.
pub struct PexDiscoverer {
    config: PexConfig,
    connected_peers: FxMap<PeerAddr, ConnectedPeer>,
    known_peers: FxMap<PeerAddr, PeerInfo>,
}

impl View for PexDiscoverer {
    type V = PexState;

    closed spec fn view(&self) -> PexState {
        PexState {
            config: self.config,
            connected: self.connected_peers@,
            known: self.known_peers@,
        }
    }
}

impl PexDiscoverer {
    spec fn maps_ok(self) -> bool {
        self.connected_peers.wf() && self.known_peers.wf()
    }

    pub closed spec fn wf(self) -> bool {
        self.maps_ok() && self@.wf()
    }

    /// Nobody is connected and nobody is known.
    pub fn new(config: PexConfig) -> (r: Self)
        ensures
            r.wf(),
            r@ == (PexState { config, connected: Map::empty(), known: Map::empty() }),
    {
        PexDiscoverer { config, connected_peers: FxMap::new(), known_peers: FxMap::new() }
    }

    /// The same with the usual limits.
    pub fn with_default_config() -> (r: Self)
        ensures
            r.wf(),
            r@ == (PexState {
                config: default_config(),
                connected: Map::empty(),
                known: Map::empty(),
            }),
    {
        Self::new(PexConfig::default())
    }

    /// The name of this way of finding peers.
    pub fn name(&self) -> (r: &'static str)
        ensures
            r@ == "pex"@,
    {
        "pex"
    }

    /// Whether peers are exchanged at all.
    pub fn is_enabled(&self) -> (r: bool)
        ensures
            r == self@.config.enabled,
    {
        self.config.enabled
    }

    /// How many peers are connected.
    pub fn connected_count(&self) -> (r: usize)
        requires
            self.wf(),
        ensures
            r == self@.connected.len(),
    {
        self.connected_peers.len()
    }

    /// How many peers are known.
    pub fn known_count(&self) -> (r: usize)
        requires
            self.wf(),
        ensures
            r == self@.known.len(),
    {
        self.known_peers.len()
    }

    /// Takes note that a peer is connected, unless there are enough.
    pub fn add_connected_peer(&mut self, addr: PeerAddr, peer_id: Option<[u8; 20]>, now: u64)
        requires
            old(self).wf(),
        ensures
            final(self).wf(),
            final(self)@ == old(self)@.joined(addr, peer_id, now),
    {
        if self.connected_peers.len() < self.config.max_connected_peers {
            let _ = self.connected_peers.insert(
                addr,
                ConnectedPeer {
                    addr,
                    peer_id,
                    connected_at: now,
                    last_pex_exchange: None,
                    peers_received: 0,
                    supports_pex: true,
                },
            );
        }
    }

    /// Takes note that a peer is gone.
    pub fn remove_connected_peer(&mut self, addr: &PeerAddr)
        requires
            old(self).wf(),
        ensures
            final(self).wf(),
            final(self)@ == (PexState {
                connected: old(self)@.connected.remove(*addr),
                ..old(self)@
            }),
    {
        let _ = self.connected_peers.remove(addr);
    }

    /// Takes note of peers that were heard of.
    pub fn add_known_peers(&mut self, peers: &[PeerAddr], wall: u64)
        requires
            old(self).wf(),
        ensures
            final(self).wf(),
            final(self)@ == old(self)@.heard(peers@, wall),
    {
        let ghost s = self@;
        let mut i: usize = 0;
        proof {
            assert(peers@.take(0) =~= Seq::empty());
        }
        while i < peers.len()
            invariant
                self.wf(),
                0 <= i <= peers@.len(),
                self@ == s.heard(peers@.take(i as int), wall),
            decreases peers@.len() - i,
        {
            proof {
                assert(peers@.take(i + 1).drop_last() =~= peers@.take(i as int));
                assert(peers@.take(i + 1).last() == peers@[i as int]);
            }
            let a = peers[i];
            if !self.known_peers.contains_key(&a) {
                let _ = self.known_peers.insert(a, PeerInfo::new(a, PeerSource::Pex, wall));
            }
            i = i + 1;
        }
        proof {
            assert(peers@.take(i as int) =~= peers@);
        }
    }

    fn is_due(&self, p: &ConnectedPeer, now: u64) -> (r: bool)
        ensures
            r == due(self@.config, *p, now),
    {
        p.supports_pex && match p.last_pex_exchange {
            Some(t) => {
                let elapsed: u64 = if t <= now {
                    now - t
                } else {
                    0
                };
                elapsed >= self.config.pex_request_interval
            },
            None => true,
        }
    }

    /// The connected peers that are to be asked, in an order that is left open.
    pub fn peers_due_for_pex(&self, now: u64) -> (r: Vec<PeerAddr>)
        requires
            self.wf(),
        ensures
            lists(r@, self@.due_set(now)),
    {
        let keys = self.connected_peers.keys();
        let mut out: Vec<PeerAddr> = Vec::new();
        let mut i: usize = 0;
        proof {
            assert(models(keys@) =~= keys@);
        }
        while i < keys.len()
            invariant
                self.wf(),
                lists(keys@, self@.connected.dom()),
                0 <= i <= keys@.len(),
                out@.no_duplicates(),
                forall|a: PeerAddr| #[trigger]
                    out@.contains(a) <==> keys@.take(i as int).contains(a) && due(
                        self@.config,
                        self@.connected[a],
                        now,
                    ),
            decreases keys@.len() - i,
        {
            let ghost before = out@;
            let ghost seen = keys@.take(i as int);
            let a = keys[i];
            proof {
                assert(keys@.contains(a));
                assert(self@.connected.dom().contains(a));
                assert(keys@.take(i + 1) =~= seen.push(a));
                lemma_pushed(seen, a);
                assert(!seen.contains(a)) by {
                    if seen.contains(a) {
                        let k = choose|k: int| 0 <= k < seen.len() && seen[k] == a;
                        assert(keys@[k] == keys@[i as int]);
                    }
                }
            }
            match self.connected_peers.get(&a) {
                Some(p) => {
                    if self.is_due(p, now) {
                        out.push(a);
                        proof {
                            lemma_pushed(before, a);
                            assert(!before.contains(a));
                            assert forall|x: int, y: int|
                                0 <= x < out@.len() && 0 <= y < out@.len() && x != y implies out@[x]
                                != out@[y] by {
                                if x < before.len() {
                                    assert(before.contains(before[x]));
                                }
                                if y < before.len() {
                                    assert(before.contains(before[y]));
                                }
                            }
                        }
                    }
                },
                None => {},
            }
            i = i + 1;
        }
        proof {
            assert(keys@.take(i as int) =~= keys@);
            assert forall|a: PeerAddr| #[trigger]
                out@.contains(a) <==> self@.due_set(now).contains(a) by {
                assert(keys@.contains(a) <==> self@.connected.dom().contains(a));
            }
        }
        out
    }

    fn mark_exchanged(&mut self, now: u64)
        requires
            old(self).wf(),
        ensures
            final(self).wf(),
            final(self)@ == (PexState {
                connected: old(self)@.after_exchange(now),
                ..old(self)@
            }),
    {
        let ghost s = self@;
        let due_peers = self.peers_due_for_pex(now);
        let mut i: usize = 0;
        while i < due_peers.len()
            invariant
                self.maps_ok(),
                s.wf(),
                lists(due_peers@, s.due_set(now)),
                0 <= i <= due_peers@.len(),
                self@.config == s.config,
                self@.known == s.known,
                self@.connected.dom() == s.connected.dom(),
                forall|a: PeerAddr|
                    s.connected.contains_key(a) ==> #[trigger] self@.connected[a] == (
                    if due_peers@.take(i as int).contains(a) {
                        exchanged(s.connected[a], now)
                    } else {
                        s.connected[a]
                    }),
            decreases due_peers@.len() - i,
        {
            let a = due_peers[i];
            let ghost before = self@;
            let ghost seen = due_peers@.take(i as int);
            proof {
                assert(due_peers@.contains(a));
                assert(s.due_set(now).contains(a));
                assert(before.connected.dom().contains(a));
                assert(due_peers@.take(i + 1) =~= seen.push(a));
                lemma_pushed(seen, a);
                assert(!seen.contains(a)) by {
                    if seen.contains(a) {
                        let k = choose|k: int| 0 <= k < seen.len() && seen[k] == a;
                        assert(due_peers@[k] == due_peers@[i as int]);
                    }
                }
            }
            match self.connected_peers.get(&a) {
                Some(p) => {
                    let mut q = *p;
                    q.last_pex_exchange = Some(now);
                    let _ = self.connected_peers.insert(a, q);
                },
                None => {},
            }
            proof {
                assert(self@.connected.dom() =~= s.connected.dom());
            }
            i = i + 1;
        }
        proof {
            assert(due_peers@.take(i as int) =~= due_peers@);
            assert forall|a: PeerAddr| s.connected.contains_key(a) implies #[trigger]
                self@.connected[a] == s.after_exchange(now)[a] by {
                assert(due_peers@.contains(a) <==> s.due_set(now).contains(a));
            }
            assert(self@.connected =~= s.after_exchange(now));
            assert(self@.wf()) by {
                assert forall|a: PeerAddr| #[trigger] self@.connected.contains_key(a) implies
                    self@.connected[a].addr == a by {
                    assert(s.connected.contains_key(a));
                }
            }
        }
    }

    /// Forgets the known peers that the test says are too old.
    pub fn cleanup_expired_peers<F: Fn(PeerInfo) -> bool>(&mut self, is_expired: F)
        requires
            old(self).wf(),
            forall|p: PeerInfo| call_requires(is_expired, (p,)),
        ensures
            final(self).wf(),
            final(self)@ == (PexState { known: final(self)@.known, ..old(self)@ }),
            keeps_unexpired(old(self)@.known, final(self)@.known, is_expired),
    {
        let ghost s = self@;
        let keys = self.known_peers.keys();
        let mut i: usize = 0;
        proof {
            assert(models(keys@) =~= keys@);
            assert forall|k: int| 0 <= k < keys@.len() implies s.known.contains_key(
                #[trigger] keys@[k],
            ) by {
                assert(keys@.contains(keys@[k]));
                assert(s.known.dom().contains(keys@[k]));
            }
        }
        while i < keys.len()
            invariant
                self.maps_ok(),
                s.wf(),
                forall|p: PeerInfo| call_requires(is_expired, (p,)),
                lists(keys@, s.known.dom()),
                0 <= i <= keys@.len(),
                self@ == (PexState { known: self@.known, ..s }),
                self@.known.submap_of(s.known),
                forall|k: int|
                    0 <= k < i ==> call_ensures(
                        is_expired,
                        (s.known[#[trigger] keys@[k]],),
                        !self@.known.contains_key(keys@[k]),
                    ),
                forall|k: int|
                    i <= k < keys@.len() ==> self@.known.contains_key(#[trigger] keys@[k]),
            decreases keys@.len() - i,
        {
            let ghost before = self@.known;
            let a = keys[i];
            proof {
                assert(keys@.contains(a));
                assert(before.contains_key(a));
                assert(before.dom().contains(a));
                assert(before[a] == s.known[a]);
            }
            let gone: bool = match self.known_peers.get(&a) {
                Some(p) => is_expired(*p),
                None => false,
            };
            if gone {
                let _ = self.known_peers.remove(&a);
            }
            proof {
                assert forall|k: int| 0 <= k < i + 1 implies call_ensures(
                    is_expired,
                    (s.known[#[trigger] keys@[k]],),
                    !self@.known.contains_key(keys@[k]),
                ) by {
                    if k < i {
                        assert(keys@[k] != keys@[i as int]);
                    }
                }
                assert forall|k: int| i + 1 <= k < keys@.len() implies self@.known.contains_key(
                    #[trigger] keys@[k],
                ) by {
                    assert(keys@[k] != keys@[i as int]);
                }
            }
            i = i + 1;
        }
        proof {
            assert forall|a: PeerAddr| s.known.contains_key(a) implies call_ensures(
                is_expired,
                (#[trigger] s.known[a],),
                !self@.known.contains_key(a),
            ) by {
                assert(s.known.dom().contains(a));
                assert(keys@.contains(a));
                let k = choose|k: int| 0 <= k < keys@.len() && keys@[k] == a;
                assert(keys@[k] == a);
            }
            assert(self@.wf()) by {
                assert forall|a: PeerAddr| #[trigger] self@.known.contains_key(a) implies
                    self@.known[a].addr == a by {
                    assert(self@.known.dom().contains(a));
                    assert(s.known.contains_key(a));
                }
            }
        }
    }

    /// Finds peers: forgets the old ones, asks who is to be asked, and returns the known
    /// peers with the highest scores.
    pub fn discover_peers<F: Fn(PeerInfo) -> bool>(
        &mut self,
        limit: usize,
        is_expired: F,
        now: u64,
    ) -> (r: Vec<PeerInfo>)
        requires
            old(self).wf(),
            forall|p: PeerInfo| call_requires(is_expired, (p,)),
        ensures
            final(self).wf(),
            final(self)@.config == old(self)@.config,
            final(self)@.connected == old(self)@.after_exchange(now),
            keeps_unexpired(old(self)@.known, final(self)@.known, is_expired),
            picks(final(self)@.known, addr_of(), r@, limit as nat, scores_higher()),
    {
        self.cleanup_expired_peers(is_expired);
        self.mark_exchanged(now);
        self.best_known(limit)
    }

    fn best_known(&self, limit: usize) -> (r: Vec<PeerInfo>)
        requires
            self.wf(),
        ensures
            picks(self@.known, addr_of(), r@, limit as nat, scores_higher()),
    {
        let keys = self.known_peers.keys();
        let ghost m = self@.known;
        let mut found: Vec<PeerInfo> = Vec::new();
        let mut order_keys: Vec<SortKey> = Vec::new();
        let mut i: usize = 0;
        proof {
            assert(models(keys@) =~= keys@);
        }
        while i < keys.len()
            invariant
                self.wf(),
                m == self@.known,
                lists(keys@, m.dom()),
                0 <= i <= keys@.len(),
                found@.len() == i,
                order_keys@.len() == i,
                forall|k: int|
                    0 <= k < i ==> (#[trigger] found@[k]) == m[keys@[k]] && found@[k].addr
                        == keys@[k],
                forall|k: int|
                    0 <= k < i ==> #[trigger] order_keys@[k] == (
                        0u64,
                        (i64::MAX - found@[k].priority_score) as u128,
                        0u64,
                    ),
            decreases keys@.len() - i,
        {
            proof {
                assert(keys@.contains(keys@[i as int]));
                assert(m.dom().contains(keys@[i as int]));
                assert(self@.known.contains_key(keys@[i as int]));
            }
            match self.known_peers.get(&keys[i]) {
                Some(p) => {
                    found.push(*p);
                    order_keys.push((0, (i64::MAX as i128 - p.priority_score as i128) as u128, 0));
                },
                None => {},
            }
            i = i + 1;
        }
        let (picked, Ghost(order)) = pick(&found, &order_keys, limit);
        proof {
            assert(found@.map_values(addr_of()) =~= keys@);
            assert(lists_values(m, addr_of(), found@));
            lemma_picked(
                m,
                addr_of(),
                found@,
                order_keys@,
                order,
                limit as nat,
                picked@,
                scores_higher(),
            );
        }
        picked
    }

    /// Whether anybody can be asked.
    pub fn health_check(&self) -> (r: bool)
        requires
            self.wf(),
        ensures
            r == (self@.connected.len() > 0),
    {
        self.connected_peers.len() > 0
    }
}

/// Who was asked is left alone until the interval is over.
pub proof fn asked_is_left_alone(s: PexState, a: PeerAddr, now: u64, later: u64)
    requires
        s.connected.contains_key(a),
        due(s.config, s.connected[a], now),
        now <= later,
    ensures
        due(s.config, s.after_exchange(now)[a], later) <==> later - now
            >= s.config.pex_request_interval,
{
}

/// Who was heard of is known, and what was known of a peer is not lost by hearing of it.
pub proof fn heard_is_known(s: PexState, peers: Seq<PeerAddr>, wall: u64)
    ensures
        forall|a: PeerAddr| #[trigger]
            s.heard(peers, wall).known.contains_key(a) <==> s.known.contains_key(a)
                || peers.contains(a),
        forall|a: PeerAddr|
            s.known.contains_key(a) ==> #[trigger] s.heard(peers, wall).known[a] == s.known[a],
        s.heard(peers, wall).connected == s.connected,
    decreases peers.len(),
{
    if peers.len() > 0 {
        let front = peers.drop_last();
        heard_is_known(s, front, wall);
        let t = s.heard(front, wall);
        assert(peers =~= front.push(peers.last()));
        lemma_pushed(front, peers.last());
        assert forall|a: PeerAddr| #[trigger]
            s.heard(peers, wall).known.contains_key(a) <==> s.known.contains_key(a)
                || peers.contains(a) by {
            assert(t.known.contains_key(a) <==> s.known.contains_key(a) || front.contains(a));
        }
        assert forall|a: PeerAddr| s.known.contains_key(a) implies #[trigger] s.heard(
            peers,
            wall,
        ).known[a] == s.known[a] by {
            assert(t.known.contains_key(a));
            assert(t.known[a] == s.known[a]);
        }
    }
}

/// Connecting and parting leaves everyone else as they were.
pub proof fn parting_undoes_connecting(
    s: PexState,
    a: PeerAddr,
    peer_id: Option<[u8; 20]>,
    now: u64,
)
    requires
        !s.connected.contains_key(a),
    ensures
        s.joined(a, peer_id, now).connected.remove(a) == s.connected,
{
    assert(s.joined(a, peer_id, now).connected.remove(a) =~= s.connected);
}

} // verus!
