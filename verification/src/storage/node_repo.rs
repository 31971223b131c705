//! The DHT nodes that the crawler knows, by address.
//!
//! Beside the nodes stand an index of the identifiers in each /24 network, the addresses
//! whose data changed since it was last saved, and the addresses that were used recently
//! or not.

use vstd::prelude::*;

use crate::bytes::{be32, be_number, be_value, be_value_orders, bytes_lt, eq20};
use crate::ranking::{
    keys_that, lemma_filter_agree, lemma_filter_twice, lemma_listed_that, lemma_lists_filter,
    lemma_picked, lemma_push_member, lists_values, pick, picks,
};
use crate::sorting::{key_lt, SortKey};
use crate::storage::fx_map::{lemma_lists_len, lists, models, FxMap, FxSet};
use crate::storage::sharded_map::ShardedHashMap;
use crate::storage::tiered_cache::TieredCacheConfig;
use crate::types::{NodeId, PeerAddr};

verus! {

/// The score that a node starts with, by its place in the order of scores: the bits of
/// the number 45 as a double.
pub const NEUTRAL_SCORE: i64 = 0x4046_8000_0000_0000;

/// Nanoseconds in a second.
pub const SECOND: u64 = 1_000_000_000;

/// How a node has answered lately.
#[derive(Clone, Copy, Debug, PartialEq, Eq, Structural)]
pub enum NodeState {
    Good,
    Questionable,
    Bad,
}

/// What is known of a node. Times are nanoseconds of a clock that does not go back; the
/// score is an integer that orders as the score does.
#[derive(Clone, Copy, Debug)]
pub struct KBucketEntry {
    pub id: NodeId,
    pub addr: PeerAddr,
    pub score: i64,
    pub state: NodeState,
    pub query_count: u64,
    pub success_count: u64,
    pub total_latency_ms: u64,
    pub consecutive_failures: u32,
    pub nodes_returned: u64,
    pub last_active: u64,
    pub last_query_time: Option<u64>,
    pub last_accessed: Option<u64>,
}

/// A node as it is saved. `last_query_time` is how many seconds ago it was.
#[derive(Clone, Copy, Debug)]
pub struct DhtNodeRow {
    pub id: NodeId,
    pub addr: PeerAddr,
    pub score: i64,
    pub state: NodeState,
    pub query_count: u64,
    pub success_count: u64,
    pub total_latency_ms: u64,
    pub consecutive_failures: u32,
    pub nodes_returned: u64,
    pub last_query_time: Option<i64>,
}

/// How many nodes there are of each kind.
#[derive(Clone, Copy, Debug, PartialEq, Eq, Structural)]
pub struct NodeStats {
    pub total: usize,
    pub good: usize,
    pub questionable: usize,
    pub bad: usize,
    pub active: usize,
}

/// The state that a saved name stands for: every name but the two known ones is bad.
pub open spec fn state_named(name: Seq<char>) -> NodeState {
    if name == "Good"@ {
        NodeState::Good
    } else if name == "Questionable"@ {
        NodeState::Questionable
    } else {
        NodeState::Bad
    }
}

impl NodeState {
    /// The name under which a state is saved.
    pub open spec fn spec_name(self) -> Seq<char> {
        match self {
            NodeState::Good => "Good"@,
            NodeState::Questionable => "Questionable"@,
            NodeState::Bad => "Bad"@,
        }
    }

    /// The name under which a state is saved.
    pub fn name(self) -> (r: &'static str)
        ensures
            r@ == self.spec_name(),
    {
        match self {
            NodeState::Good => "Good",
            NodeState::Questionable => "Questionable",
            NodeState::Bad => "Bad",
        }
    }

    /// The state that a saved name stands for.
    pub fn from_name(name: &str) -> (r: NodeState)
        ensures
            r == state_named(name@),
    {
        if crate::text::str_eq(name, "Good") {
            NodeState::Good
        } else if crate::text::str_eq(name, "Questionable") {
            NodeState::Questionable
        } else {
            NodeState::Bad
        }
    }
}

/// A saved state is read back as it was.
pub proof fn state_name_round_trip(s: NodeState)
    ensures
        state_named(s.spec_name()) == s,
{
    reveal_strlit("Good");
    reveal_strlit("Questionable");
    reveal_strlit("Bad");
    assert("Good"@.len() == 4 && "Questionable"@.len() == 12 && "Bad"@.len() == 3);
}

/// The point in time so many seconds before `now`, or the earliest there is.
pub open spec fn cutoff_at(now: u64, secs: u64) -> u64 {
    if secs * SECOND <= now {
        (now - secs * SECOND) as u64
    } else {
        0
    }
}

/// The point in time so many seconds before `now`, or the earliest there is.
pub fn cutoff_before(now: u64, secs: u64) -> (r: u64)
    ensures
        r == cutoff_at(now, secs),
{
    match secs.checked_mul(SECOND) {
        Some(d) => if d <= now {
            now - d
        } else {
            0
        },
        None => 0,
    }
}

/// The /24 network of an address: its first three octets. Only version 4 addresses are
/// in one.
pub open spec fn subnet_of(addr: PeerAddr) -> Option<Seq<u8>> {
    match addr {
        PeerAddr::V4 { ip, port: _ } => Some(be32(ip).take(3)),
        PeerAddr::V6 { ip: _, port: _ } => None,
    }
}

/// The /24 network of an address.
pub fn subnet_key(addr: PeerAddr) -> (r: Option<[u8; 3]>)
    ensures
        r is Some <==> subnet_of(addr) is Some,
        r matches Some(s) ==> subnet_of(addr) == Some(s@),
{
    match addr {
        PeerAddr::V4 { ip, port: _ } => {
            let s: [u8; 3] = [
                (ip / 0x100_0000) as u8,
                (ip / 0x1_0000 % 256) as u8,
                (ip / 256 % 256) as u8,
            ];
            assert(s@ =~= be32(ip).take(3));
            Some(s)
        },
        PeerAddr::V6 { ip: _, port: _ } => None,
    }
}

/// The test for other identifiers.
pub open spec fn other_id(id: NodeId) -> spec_fn(NodeId) -> bool {
    |x: NodeId| x != id
}

/// The identifiers listed for a network.
pub open spec fn bucket(subs: Map<Seq<u8>, Seq<NodeId>>, s: Seq<u8>) -> Seq<NodeId> {
    if subs.contains_key(s) {
        subs[s]
    } else {
        Seq::empty()
    }
}

/// An index with one more node.
pub open spec fn indexed(
    subs: Map<Seq<u8>, Seq<NodeId>>,
    addr: PeerAddr,
    id: NodeId,
) -> Map<Seq<u8>, Seq<NodeId>> {
    match subnet_of(addr) {
        Some(s) => subs.insert(s, bucket(subs, s).push(id)),
        None => subs,
    }
}

/// An index without an identifier; a network without identifiers is not listed.
pub open spec fn unindexed(
    subs: Map<Seq<u8>, Seq<NodeId>>,
    addr: PeerAddr,
    id: NodeId,
) -> Map<Seq<u8>, Seq<NodeId>> {
    match subnet_of(addr) {
        Some(s) => if subs.contains_key(s) {
            let b = subs[s].filter(other_id(id));
            if b.len() == 0 {
                subs.remove(s)
            } else {
                subs.insert(s, b)
            }
        } else {
            subs
        },
        None => subs,
    }
}

/// An index in which a node has a new identifier.
pub open spec fn reindexed(
    subs: Map<Seq<u8>, Seq<NodeId>>,
    addr: PeerAddr,
    was: NodeId,
    id: NodeId,
) -> Map<Seq<u8>, Seq<NodeId>> {
    match subnet_of(addr) {
        Some(s) => subs.insert(s, bucket(subs, s).filter(other_id(was)).push(id)),
        None => subs,
    }
}

/// A node that was not known before.
pub open spec fn newcomer(id: NodeId, addr: PeerAddr, state: NodeState, now: u64) -> KBucketEntry {
    KBucketEntry {
        id,
        addr,
        score: NEUTRAL_SCORE,
        state,
        query_count: 0,
        success_count: 0,
        total_latency_ms: 0,
        consecutive_failures: 0,
        nodes_returned: 0,
        last_active: now,
        last_query_time: None,
        last_accessed: None,
    }
}

/// What the repository holds.
#[verifier::ext_equal]
pub struct NodeTable {
    pub nodes: Map<PeerAddr, KBucketEntry>,
    pub dirty: Set<PeerAddr>,
    pub subnets: Map<Seq<u8>, Seq<NodeId>>,
    pub hot: Set<PeerAddr>,
    pub cold: Set<PeerAddr>,
    pub fresh_state: NodeState,
}

impl NodeTable {
    /// Each node stands under its own address, and no listed network is empty.
    pub open spec fn wf(self) -> bool {
        &&& forall|a: PeerAddr| #[trigger] self.nodes.contains_key(a) ==> self.nodes[a].addr == a
        &&& forall|s: Seq<u8>| #[trigger]
            self.subnets.contains_key(s) ==> self.subnets[s].len() > 0
    }

    /// The table after a node was seen: a known one gets the identifier and is active now, a
    /// new one is added and marked as changed.
    pub open spec fn seen(self, item: (NodeId, PeerAddr), now: u64) -> NodeTable {
        let (id, addr) = item;
        if self.nodes.contains_key(addr) {
            let e = self.nodes[addr];
            NodeTable {
                nodes: self.nodes.insert(addr, KBucketEntry { id, last_active: now, ..e }),
                subnets: if e.id == id {
                    self.subnets
                } else {
                    reindexed(self.subnets, addr, e.id, id)
                },
                ..self
            }
        } else {
            NodeTable {
                nodes: self.nodes.insert(addr, newcomer(id, addr, self.fresh_state, now)),
                subnets: indexed(self.subnets, addr, id),
                dirty: self.dirty.insert(addr),
                ..self
            }
        }
    }

    /// The table after several nodes were seen, one after the other.
    pub open spec fn seen_all(self, items: Seq<(NodeId, PeerAddr)>, now: u64) -> NodeTable
        decreases items.len(),
    {
        if items.len() == 0 {
            self
        } else {
            self.seen_all(items.drop_last(), now).seen(items.last(), now)
        }
    }

    /// Those of the nodes that were new when they were seen.
    pub open spec fn newcomers(self, items: Seq<(NodeId, PeerAddr)>, now: u64) -> Seq<
        (NodeId, PeerAddr),
    >
        decreases items.len(),
    {
        if items.len() == 0 {
            Seq::empty()
        } else {
            let before = self.newcomers(items.drop_last(), now);
            if self.seen_all(items.drop_last(), now).nodes.contains_key(items.last().1) {
                before
            } else {
                before.push(items.last())
            }
        }
    }

    /// Whether an identifier in a network belongs to one of the nodes that go.
    pub open spec fn goes(self, gone: Set<PeerAddr>, s: Seq<u8>, id: NodeId) -> bool {
        exists|a: PeerAddr|
            gone.contains(a) && #[trigger] self.nodes.contains_key(a) && subnet_of(a) == Some(s)
                && self.nodes[a].id == id
    }

    /// The test for identifiers in a network that stay.
    pub open spec fn stays(self, gone: Set<PeerAddr>, s: Seq<u8>) -> spec_fn(NodeId) -> bool {
        |id: NodeId| !self.goes(gone, s, id)
    }

    /// The index without the nodes that go; a network without identifiers is not listed.
    pub open spec fn unlisted(self, gone: Set<PeerAddr>) -> Map<Seq<u8>, Seq<NodeId>> {
        Map::new(
            |s: Seq<u8>|
                self.subnets.contains_key(s) && self.subnets[s].filter(self.stays(gone, s)).len()
                    > 0,
            |s: Seq<u8>| self.subnets[s].filter(self.stays(gone, s)),
        )
    }

    /// The table without some nodes.
    pub open spec fn without(self, gone: Set<PeerAddr>) -> NodeTable {
        NodeTable {
            nodes: self.nodes.remove_keys(gone),
            subnets: self.unlisted(gone),
            hot: self.hot.difference(gone),
            cold: self.cold.difference(gone),
            dirty: self.dirty.difference(gone),
            ..self
        }
    }
}

impl NodeTable {
    /// When nobody goes, the index stays.
    pub proof fn lemma_nobody_goes(self)
        requires
            self.wf(),
        ensures
            self.unlisted(Set::empty()) == self.subnets,
    {
        let none = Set::<PeerAddr>::empty();
        assert forall|s: Seq<u8>| #[trigger] self.subnets.contains_key(s) implies self.subnets[s].filter(
            self.stays(none, s),
        ) == self.subnets[s] by {
            crate::storage::recency::lemma_filter_all(self.subnets[s], self.stays(none, s));
        }
        assert(self.unlisted(none) =~= self.subnets);
    }

    /// One more node goes: its identifier is taken out of its network.
    pub proof fn lemma_one_more_goes(self, gone: Set<PeerAddr>, a: PeerAddr)
        requires
            self.wf(),
            self.nodes.contains_key(a),
        ensures
            unindexed(self.unlisted(gone), a, self.nodes[a].id) == self.unlisted(gone.insert(a)),
    {
        let id = self.nodes[a].id;
        let more = gone.insert(a);
        let u = self.unlisted(gone);
        let w = self.unlisted(more);
        assert forall|s: Seq<u8>| #[trigger] self.subnets.contains_key(s) implies self.subnets[s].filter(
            self.stays(more, s),
        ) == (if subnet_of(a) == Some(s) {
            self.subnets[s].filter(self.stays(gone, s)).filter(other_id(id))
        } else {
            self.subnets[s].filter(self.stays(gone, s))
        }) by {
            let b = self.subnets[s];
            assert forall|x: NodeId| #[trigger] self.goes(more, s, x) <==> (self.goes(gone, s, x)
                || (subnet_of(a) == Some(s) && x == id)) by {
                if self.goes(more, s, x) {
                    let c = choose|c: PeerAddr|
                        more.contains(c) && #[trigger] self.nodes.contains_key(c) && subnet_of(c)
                            == Some(s) && self.nodes[c].id == x;
                    if c != a {
                        assert(gone.contains(c));
                    }
                }
                if self.goes(gone, s, x) {
                    let c = choose|c: PeerAddr|
                        gone.contains(c) && #[trigger] self.nodes.contains_key(c) && subnet_of(c)
                            == Some(s) && self.nodes[c].id == x;
                    assert(more.contains(c));
                }
            }
            if subnet_of(a) == Some(s) {
                lemma_filter_twice(b, self.stays(gone, s), other_id(id), self.stays(more, s));
            } else {
                lemma_filter_agree(b, self.stays(gone, s), self.stays(more, s));
            }
        }
        match subnet_of(a) {
            Some(s) => {
                if self.subnets.contains_key(s) {
                    let b = self.subnets[s].filter(self.stays(gone, s));
                    if b.len() == 0 {
                        assert(b =~= Seq::empty());
                        reveal(Seq::filter);
                        assert(b.filter(other_id(id)).len() == 0);
                    }
                }
                assert(unindexed(u, a, id).dom() =~= w.dom());
                assert(unindexed(u, a, id) =~= w);
            },
            None => {
                assert(u =~= w);
            },
        }
    }
}

/// The nodes by address, with their index and marks.
pub struct NodeRepoImpl {
    nodes: ShardedHashMap<PeerAddr, KBucketEntry>,
    dirty: FxSet<PeerAddr>,
    subnet_index: FxMap<[u8; 3], Vec<NodeId>>,
    hot_addrs: FxSet<PeerAddr>,
    cold_addrs: FxSet<PeerAddr>,
    fresh_state: NodeState,
}

/// The contents of the lists of an index.
pub open spec fn list_views(m: Map<Seq<u8>, Vec<NodeId>>) -> Map<Seq<u8>, Seq<NodeId>> {
    Map::new(|s: Seq<u8>| m.contains_key(s), |s: Seq<u8>| m[s]@)
}

impl View for NodeRepoImpl {
    type V = NodeTable;

    closed spec fn view(&self) -> NodeTable {
        NodeTable {
            nodes: self.nodes@,
            dirty: self.dirty@,
            subnets: list_views(self.subnet_index@),
            hot: self.hot_addrs@,
            cold: self.cold_addrs@,
            fresh_state: self.fresh_state,
        }
    }
}

/// The identifiers of a list but for one.
fn retain_others(v: &Vec<NodeId>, id: &NodeId) -> (r: Vec<NodeId>)
    ensures
        r@ == v@.filter(other_id(*id)),
{
    let mut out: Vec<NodeId> = Vec::new();
    let mut i: usize = 0;
    proof {
        reveal(Seq::filter);
        assert(v@.take(0).filter(other_id(*id)) =~= Seq::empty());
    }
    while i < v.len()
        invariant
            0 <= i <= v@.len(),
            out@ == v@.take(i as int).filter(other_id(*id)),
        decreases v@.len() - i,
    {
        proof {
            crate::ranking::lemma_filter_step(v@, other_id(*id), i as int);
        }
        if !eq20(&v[i], id) {
            out.push(v[i]);
        }
        i = i + 1;
    }
    assert(v@.take(i as int) =~= v@);
    out
}

fn index_subnet(index: &mut FxMap<[u8; 3], Vec<NodeId>>, subnet: [u8; 3], id: NodeId)
    requires
        old(index).wf(),
    ensures
        final(index).wf(),
        list_views(final(index)@) == list_views(old(index)@).insert(
            subnet@,
            bucket(list_views(old(index)@), subnet@).push(id),
        ),
{
    let ghost before = list_views(index@);
    let mut list = match index.remove(&subnet) {
        Some(v) => v,
        None => Vec::new(),
    };
    list.push(id);
    let _ = index.insert(subnet, list);
    proof {
        assert(list_views(index@) =~= before.insert(
            subnet@,
            bucket(before, subnet@).push(id),
        ));
    }
}

fn unindex_subnet(index: &mut FxMap<[u8; 3], Vec<NodeId>>, addr: &PeerAddr, id: &NodeId)
    requires
        old(index).wf(),
    ensures
        final(index).wf(),
        list_views(final(index)@) == unindexed(list_views(old(index)@), *addr, *id),
{
    let ghost before = list_views(index@);
    match subnet_key(*addr) {
        Some(s) => match index.remove(&s) {
            Some(v) => {
                let rest = retain_others(&v, id);
                if rest.len() > 0 {
                    let _ = index.insert(s, rest);
                    proof {
                        assert(list_views(index@) =~= before.insert(s@, rest@));
                    }
                } else {
                    proof {
                        assert(list_views(index@) =~= before.remove(s@));
                    }
                }
            },
            None => {
                proof {
                    assert(list_views(index@) =~= before);
                }
            },
        },
        None => {},
    }
}

fn reindex_subnet(
    index: &mut FxMap<[u8; 3], Vec<NodeId>>,
    addr: &PeerAddr,
    was: &NodeId,
    id: NodeId,
)
    requires
        old(index).wf(),
    ensures
        final(index).wf(),
        list_views(final(index)@) == reindexed(list_views(old(index)@), *addr, *was, id),
{
    let ghost before = list_views(index@);
    match subnet_key(*addr) {
        Some(s) => {
            let mut list = match index.remove(&s) {
                Some(v) => retain_others(&v, was),
                None => {
                    proof {
                        reveal(Seq::filter);
                        assert(Seq::<NodeId>::empty().filter(other_id(*was)) =~= Seq::empty());
                    }
                    Vec::new()
                },
            };
            list.push(id);
            let _ = index.insert(s, list);
            proof {
                assert(list_views(index@) =~= reindexed(before, *addr, *was, id));
            }
        },
        None => {},
    }
}

impl NodeRepoImpl {
    pub closed spec fn parts_ok(self) -> bool {
        &&& self.nodes.wf()
        &&& self.dirty.wf()
        &&& self.subnet_index.wf()
        &&& self.hot_addrs.wf()
        &&& self.cold_addrs.wf()
    }

    pub open spec fn wf(self) -> bool {
        self.parts_ok() && self@.wf()
    }

    /// An empty repository. `fresh_state` is the state in which a node starts.
    pub fn new(fresh_state: NodeState) -> (r: Self)
        ensures
            r.wf(),
            r@ == (NodeTable {
                nodes: Map::empty(),
                dirty: Set::empty(),
                subnets: Map::empty(),
                hot: Set::empty(),
                cold: Set::empty(),
                fresh_state,
            }),
    {
        proof {
            reveal_with_fuel(crate::storage::sharded_map::power_of_two, 6);
        }
        let r = NodeRepoImpl {
            nodes: ShardedHashMap::new(16),
            dirty: FxSet::new(),
            subnet_index: FxMap::new(),
            hot_addrs: FxSet::new(),
            cold_addrs: FxSet::new(),
            fresh_state,
        };
        assert(list_views(r.subnet_index@) =~= Map::empty());
        r
    }

    /// An empty repository. It keeps everything in memory, whatever the configuration of
    /// the cache.
    /// `fresh_state` is the state in which a node starts.
    pub fn with_tier_config(fresh_state: NodeState, _cache_config: TieredCacheConfig, _tier_enabled: bool) -> (r: Self)
        ensures
            r.wf(),
            r@ == (NodeTable {
                nodes: Map::empty(),
                dirty: Set::empty(),
                subnets: Map::empty(),
                hot: Set::empty(),
                cold: Set::empty(),
                fresh_state,
            }),
    {
        Self::new(fresh_state)
    }

    /// Everything stays in memory: a regular check drops nothing.
    pub fn tier_evict(&mut self)
        requires
            old(self).wf(),
        ensures
            final(self).wf(),
            final(self)@ == old(self)@,
    {
    }

    /// Everything stays in memory: nothing is dropped even when memory is short.
    pub fn emergency_evict(&mut self, _count: usize)
        requires
            old(self).wf(),
        ensures
            final(self).wf(),
            final(self)@ == old(self)@,
    {
    }

    /// Takes note of nodes that were seen, without telling anybody else. Returns those that
    /// are new.
    pub fn add_nodes_batch_internal(&mut self, items: &[(NodeId, PeerAddr)], now: u64) -> (r: Vec<
        (NodeId, PeerAddr),
    >)
        requires
            old(self).wf(),
        ensures
            final(self).wf(),
            final(self)@ == old(self)@.seen_all(items@, now),
            r@ == old(self)@.newcomers(items@, now),
    {
        let ghost t = self@;
        let mut fresh: Vec<(NodeId, PeerAddr)> = Vec::new();
        let mut i: usize = 0;
        proof {
            assert(items@.take(0) =~= Seq::empty());
        }
        while i < items.len()
            invariant
                self.wf(),
                0 <= i <= items@.len(),
                self@ == t.seen_all(items@.take(i as int), now),
                fresh@ == t.newcomers(items@.take(i as int), now),
            decreases items@.len() - i,
        {
            let (id, addr) = items[i];
            let is_new = self.see(id, addr, now);
            proof {
                assert(items@.take(i + 1).drop_last() =~= items@.take(i as int));
                assert(items@.take(i + 1).last() == items@[i as int]);
            }
            if is_new {
                fresh.push((id, addr));
            }
            i = i + 1;
        }
        proof {
            assert(items@.take(i as int) =~= items@);
        }
        fresh
    }

    fn see(&mut self, id: NodeId, addr: PeerAddr, now: u64) -> (r: bool)
        requires
            old(self).wf(),
        ensures
            final(self).wf(),
            final(self)@ == old(self)@.seen((id, addr), now),
            r == !old(self)@.nodes.contains_key(addr),
    {
        let ghost t = self@;
        match self.nodes.get(&addr) {
            Some(e) => {
                let e = *e;
                if !eq20(&e.id, &id) {
                    reindex_subnet(&mut self.subnet_index, &addr, &e.id, id);
                }
                let _ = self.nodes.insert(addr, KBucketEntry { id, last_active: now, ..e });
                proof {
                    assert(self@ =~= t.seen((id, addr), now));
                    lemma_seen_wf(t, id, addr, now);
                }
                false
            },
            None => {
                let entry = KBucketEntry {
                    id,
                    addr,
                    score: NEUTRAL_SCORE,
                    state: self.fresh_state,
                    query_count: 0,
                    success_count: 0,
                    total_latency_ms: 0,
                    consecutive_failures: 0,
                    nodes_returned: 0,
                    last_active: now,
                    last_query_time: None,
                    last_accessed: None,
                };
                let _ = self.nodes.insert(addr, entry);
                match subnet_key(addr) {
                    Some(s) => {
                        index_subnet(&mut self.subnet_index, s, id);
                    },
                    None => {},
                }
                let _ = self.dirty.insert(addr);
                proof {
                    assert(self@ =~= t.seen((id, addr), now));
                    lemma_seen_wf(t, id, addr, now);
                }
                true
            },
        }
    }
}

proof fn lemma_seen_wf(t: NodeTable, id: NodeId, addr: PeerAddr, now: u64)
    requires
        t.wf(),
    ensures
        t.seen((id, addr), now).wf(),
{
    let u = t.seen((id, addr), now);
    assert forall|a: PeerAddr| #[trigger] u.nodes.contains_key(a) implies u.nodes[a].addr == a by {
        if a != addr {
            assert(t.nodes.contains_key(a));
        }
    }
    assert forall|s: Seq<u8>| #[trigger] u.subnets.contains_key(s) implies u.subnets[s].len() > 0 by {
        if subnet_of(addr) != Some(s) {
            assert(t.subnets.contains_key(s));
        } else if t.subnets.contains_key(s) {
        }
    }
}

impl NodeRepoImpl {
    /// Takes a node out of the table and out of the index; its marks stay.
    fn drop_node(&mut self, addr: &PeerAddr) -> (r: Option<KBucketEntry>)
        requires
            old(self).wf(),
        ensures
            final(self).wf(),
            r is Some <==> old(self)@.nodes.contains_key(*addr),
            r matches Some(e) ==> e == old(self)@.nodes[*addr],
            final(self)@ == if old(self)@.nodes.contains_key(*addr) {
                (NodeTable {
                    nodes: old(self)@.nodes.remove(*addr),
                    subnets: unindexed(old(self)@.subnets, *addr, old(self)@.nodes[*addr].id),
                    ..old(self)@
                })
            } else {
                old(self)@
            },
    {
        let ghost t = self@;
        match self.nodes.remove(addr) {
            Some(e) => {
                unindex_subnet(&mut self.subnet_index, addr, &e.id);
                proof {
                    let u = self@;
                    assert forall|a: PeerAddr| #[trigger] u.nodes.contains_key(a) implies
                        u.nodes[a].addr == a by {
                        assert(t.nodes.contains_key(a));
                    }
                    assert forall|s: Seq<u8>| #[trigger] u.subnets.contains_key(s) implies
                        u.subnets[s].len() > 0 by {
                        assert(t.subnets.contains_key(s));
                    }
                }
                Some(e)
            },
            None => {
                proof {
                    assert(self@ =~= t);
                }
                None
            },
        }
    }

    /// Forgets a node. Says whether it was known.
    pub fn remove_node(&mut self, addr: &PeerAddr) -> (r: bool)
        requires
            old(self).wf(),
        ensures
            final(self).wf(),
            r == old(self)@.nodes.contains_key(*addr),
            final(self)@ == if r {
                old(self)@.without(set![*addr])
            } else {
                old(self)@
            },
    {
        let ghost t = self@;
        match self.drop_node(addr) {
            Some(_) => {
                let _ = self.hot_addrs.remove(addr);
                let _ = self.cold_addrs.remove(addr);
                let _ = self.dirty.remove(addr);
                proof {
                    let gone = set![*addr];
                    let none = Set::<PeerAddr>::empty();
                    t.lemma_nobody_goes();
                    t.lemma_one_more_goes(none, *addr);
                    assert(none.insert(*addr) =~= gone);
                    assert(t.nodes.remove_keys(gone) =~= t.nodes.remove(*addr));
                    assert(self@ =~= t.without(gone));
                }
                true
            },
            None => false,
        }
    }

    fn drop_nodes(&mut self, addrs: &[PeerAddr]) -> (r: usize)
        requires
            old(self).wf(),
        ensures
            final(self).wf(),
            final(self)@ == (NodeTable {
                nodes: old(self)@.nodes.remove_keys(addrs@.to_set()),
                subnets: old(self)@.unlisted(addrs@.to_set()),
                ..old(self)@
            }),
            r == addrs@.to_set().intersect(old(self)@.nodes.dom()).len(),
            r <= addrs@.len(),
    {
        let ghost t = self@;
        let ghost mut gone = Set::<PeerAddr>::empty();
        let mut removed: usize = 0;
        let mut i: usize = 0;
        proof {
            t.lemma_nobody_goes();
            assert(t.nodes.remove_keys(gone) =~= t.nodes);
        }
        while i < addrs.len()
            invariant
                self.wf(),
                t.wf(),
                0 <= i <= addrs@.len(),
                gone.finite(),
                gone.len() == removed,
                removed <= i,
                gone == addrs@.take(i as int).to_set().intersect(t.nodes.dom()),
                self@ == (NodeTable {
                    nodes: t.nodes.remove_keys(gone),
                    subnets: t.unlisted(gone),
                    ..t
                }),
            decreases addrs@.len() - i,
        {
            let ghost a = addrs@[i as int];
            let ghost seen = addrs@.take(i as int);
            proof {
                assert(addrs@.take(i + 1) =~= seen.push(a));
                assert forall|x: PeerAddr| #[trigger] seen.push(a).to_set().contains(x) <==> (
                seen.to_set().contains(x) || x == a) by {
                    lemma_push_member(seen, a, x);
                }
            }
            match self.drop_node(&addrs[i]) {
                Some(_) => {
                    proof {
                        t.lemma_one_more_goes(gone, a);
                        assert(t.nodes.remove_keys(gone).remove(a) =~= t.nodes.remove_keys(
                            gone.insert(a),
                        ));
                        gone = gone.insert(a);
                    }
                    removed = removed + 1;
                },
                None => {},
            }
            proof {
                assert(gone =~= addrs@.take(i + 1).to_set().intersect(t.nodes.dom()));
            }
            i = i + 1;
        }
        proof {
            assert(addrs@.take(i as int) =~= addrs@);
            let all = addrs@.to_set();
            assert(t.nodes.remove_keys(gone) =~= t.nodes.remove_keys(all));
            lemma_only_members_go(t, all, gone);
        }
        removed
    }

    /// Forgets nodes because somebody else did, without telling anybody. Returns how many
    /// were known. Where one was, none of the addresses keeps a mark.
    pub fn remove_nodes_batch_internal(&mut self, addrs: &[PeerAddr]) -> (r: usize)
        requires
            old(self).wf(),
        ensures
            final(self).wf(),
            r == addrs@.to_set().intersect(old(self)@.nodes.dom()).len(),
            final(self)@ == if r > 0 {
                old(self)@.without(addrs@.to_set())
            } else {
                old(self)@
            },
    {
        let ghost t = self@;
        let removed: usize = self.drop_nodes(addrs);
        proof {
            assert(models(addrs@) =~= addrs@);
        }
        if removed > 0 {
            self.hot_addrs.remove_each(addrs);
            self.cold_addrs.remove_each(addrs);
            self.dirty.remove_each(addrs);
            proof {
                assert(self@ =~= t.without(addrs@.to_set()));
            }
        } else {
            proof {
                let gone = addrs@.to_set().intersect(t.nodes.dom());
                vstd::seq_lib::seq_to_set_is_finite(addrs@);
                assert(gone =~= Set::empty());
                lemma_only_members_go(t, addrs@.to_set(), gone);
                t.lemma_nobody_goes();
                assert forall|a: PeerAddr| t.nodes.dom().contains(a) implies !addrs@.to_set().contains(
                    a,
                ) by {
                    assert(!gone.contains(a));
                }
                assert(t.nodes.remove_keys(addrs@.to_set()) =~= t.nodes);
                assert(self@ =~= t);
            }
        }
        removed
    }
}

proof fn lemma_only_members_go(t: NodeTable, all: Set<PeerAddr>, gone: Set<PeerAddr>)
    requires
        gone == all.intersect(t.nodes.dom()),
    ensures
        t.unlisted(gone) == t.unlisted(all),
{
    assert forall|s: Seq<u8>, id: NodeId| t.goes(gone, s, id) <==> t.goes(all, s, id) by {
        if t.goes(all, s, id) {
            let a = choose|a: PeerAddr|
                all.contains(a) && #[trigger] t.nodes.contains_key(a) && subnet_of(a) == Some(s)
                    && t.nodes[a].id == id;
            assert(gone.contains(a));
        }
        if t.goes(gone, s, id) {
            let a = choose|a: PeerAddr|
                gone.contains(a) && #[trigger] t.nodes.contains_key(a) && subnet_of(a) == Some(s)
                    && t.nodes[a].id == id;
            assert(all.contains(a));
        }
    }
    assert forall|s: Seq<u8>| #[trigger] t.subnets.contains_key(s) implies t.subnets[s].filter(
        t.stays(gone, s),
    ) == t.subnets[s].filter(t.stays(all, s)) by {
        lemma_filter_agree(t.subnets[s], t.stays(gone, s), t.stays(all, s));
    }
    assert(t.unlisted(gone) =~= t.unlisted(all));
}

/// The address of an entry.
pub open spec fn addr_of() -> spec_fn(KBucketEntry) -> PeerAddr {
    |e: KBucketEntry| e.addr
}

/// Whether a sequence lists the nodes of a table, each once.
pub open spec fn lists_nodes(m: Map<PeerAddr, KBucketEntry>, s: Seq<KBucketEntry>) -> bool {
    lists_values(m, addr_of(), s)
}

/// The nodes that pass a test.
pub open spec fn nodes_that(
    m: Map<PeerAddr, KBucketEntry>,
    p: spec_fn(KBucketEntry) -> bool,
) -> Set<PeerAddr> {
    keys_that(m, p)
}

/// The test for nodes that were last active before a point in time.
pub open spec fn idle_since(cutoff: u64) -> spec_fn(KBucketEntry) -> bool {
    |e: KBucketEntry| e.last_active < cutoff
}

/// The test for nodes in a state.
pub open spec fn in_state(state: NodeState) -> spec_fn(KBucketEntry) -> bool {
    |e: KBucketEntry| e.state == state
}

/// The test for nodes that were queried.
pub open spec fn was_queried() -> spec_fn(KBucketEntry) -> bool {
    |e: KBucketEntry| e.query_count > 0
}

/// Whether no node that stays was idle for longer than one that goes.
pub open spec fn longest_idle(m: Map<PeerAddr, KBucketEntry>, gone: Set<PeerAddr>) -> bool {
    forall|a: PeerAddr, b: PeerAddr|
        gone.contains(a) && m.dom().contains(b) && !gone.contains(b) ==> (
        #[trigger] m[a]).last_active <= (#[trigger] m[b]).last_active
}

/// Whether `n` nodes, or all, were picked so that no other one comes before one of them, and
/// they stand in that order.
pub open spec fn picks_first(
    m: Map<PeerAddr, KBucketEntry>,
    r: Seq<KBucketEntry>,
    n: nat,
    before: spec_fn(KBucketEntry, KBucketEntry) -> bool,
) -> bool {
    picks(m, addr_of(), r, n, before)
}

impl NodeRepoImpl {
    /// Every node, in an order that is left open.
    pub fn all_nodes_sync(&self) -> (r: Vec<KBucketEntry>)
        requires
            self.wf(),
        ensures
            lists_nodes(self@.nodes, r@),
            r@.len() == self@.nodes.len(),
    {
        let keys = self.nodes.keys();
        let mut out: Vec<KBucketEntry> = Vec::new();
        let mut i: usize = 0;
        let ghost ms = models(keys@);
        proof {
            assert(ms =~= keys@);
        }
        while i < keys.len()
            invariant
                self.wf(),
                0 <= i <= keys@.len(),
                lists(keys@, self@.nodes.dom()),
                out@.len() == i,
                forall|k: int|
                    0 <= k < i ==> (#[trigger] out@[k]).addr == keys@[k] && self@.nodes[keys@[k]]
                        == out@[k],
            decreases keys@.len() - i,
        {
            proof {
                assert(keys@.contains(keys@[i as int]));
                assert(self@.nodes.contains_key(keys@[i as int]));
            }
            match self.nodes.get(&keys[i]) {
                Some(e) => {
                    out.push(*e);
                },
                None => {},
            }
            i = i + 1;
        }
        proof {
            assert(out@.map_values(addr_of()) =~= keys@);
        }
        out
    }

    /// Forgets the nodes that were not active for so many seconds. Returns how many. Where
    /// the clock has not run for that long yet, there are none.
    pub fn remove_cold_nodes(&mut self, older_than_secs: u64, now: u64) -> (r: usize)
        requires
            old(self).wf(),
        ensures
            final(self).wf(),
            older_than_secs * SECOND > now ==> r == 0 && final(self)@ == old(self)@,
            older_than_secs * SECOND <= now ==> {
                let gone = nodes_that(
                    old(self)@.nodes,
                    idle_since((now - older_than_secs * SECOND) as u64),
                );
                &&& r == gone.len()
                &&& final(self)@ == old(self)@.without(gone)
            },
    {
        let cutoff: u64 = match older_than_secs.checked_mul(SECOND) {
            Some(d) => if d <= now {
                now - d
            } else {
                return 0;
            },
            None => {
                return 0;
            },
        };
        let ghost t = self@;
        let ghost p = idle_since(cutoff);
        let entries = self.all_nodes_sync();
        let mut gone: Vec<PeerAddr> = Vec::new();
        let mut i: usize = 0;
        proof {
            reveal(Seq::filter);
            assert(gone@ =~= entries@.take(0).filter(p).map_values(addr_of()));
        }
        while i < entries.len()
            invariant
                0 <= i <= entries@.len(),
                p == idle_since(cutoff),
                gone@ == entries@.take(i as int).filter(p).map_values(addr_of()),
            decreases entries@.len() - i,
        {
            proof {
                crate::ranking::lemma_filter_step(entries@, p, i as int);
            }
            let ghost f = entries@.take(i as int).filter(p);
            if entries[i].last_active < cutoff {
                gone.push(entries[i].addr);
                proof {
                    assert(gone@ =~= f.push(entries@[i as int]).map_values(addr_of()));
                }
            }
            i = i + 1;
        }
        proof {
            assert(entries@.take(i as int) =~= entries@);
            lemma_listed_that(t.nodes, addr_of(), entries@, p);
            let all = nodes_that(t.nodes, p);
            assert(gone@.to_set() =~= all) by {
                assert forall|x: PeerAddr| gone@.to_set().contains(x) <==> all.contains(x) by {
                    assert(gone@.contains(x) <==> all.contains(x));
                }
            }
            assert(all.intersect(t.nodes.dom()) =~= all);
            assert(models(gone@) =~= gone@);
        }
        let removed: usize = self.drop_nodes(gone.as_slice());
        self.hot_addrs.remove_each(gone.as_slice());
        self.cold_addrs.remove_each(gone.as_slice());
        self.dirty.remove_each(gone.as_slice());
        proof {
            assert(self@ =~= t.without(nodes_that(t.nodes, p)));
        }
        removed
    }

    /// Where there are more than `max_count` nodes, forgets as many as there are too many,
    /// those that were idle for longest. Returns how many.
    pub fn evict_by_count(&mut self, max_count: usize) -> (r: usize)
        requires
            old(self).wf(),
        ensures
            final(self).wf(),
            r == (if old(self)@.nodes.len() > max_count {
                old(self)@.nodes.len() - max_count
            } else {
                0
            }),
            exists|gone: Set<PeerAddr>|
                #![trigger old(self)@.without(gone)]
                gone.subset_of(old(self)@.nodes.dom()) && gone.len() == r && longest_idle(
                    old(self)@.nodes,
                    gone,
                ) && final(self)@ == old(self)@.without(gone),
    {
        let ghost t = self@;
        let entries = self.all_nodes_sync();
        let total: usize = entries.len();
        if total <= max_count {
            proof {
                let none = Set::<PeerAddr>::empty();
                t.lemma_nobody_goes();
                assert(t.nodes.remove_keys(none) =~= t.nodes);
                assert(t.without(none) =~= t);
            }
            return 0;
        }
        let to_remove: usize = total - max_count;
        let mut keys: Vec<SortKey> = Vec::new();
        let mut i: usize = 0;
        while i < entries.len()
            invariant
                0 <= i <= entries@.len(),
                keys@.len() == i,
                forall|k: int| 0 <= k < i ==> #[trigger] keys@[k] == (entries@[k].last_active, 0u128, 0u64),
            decreases entries@.len() - i,
        {
            keys.push((entries[i].last_active, 0, 0));
            i = i + 1;
        }
        let ghost earlier = |a: KBucketEntry, b: KBucketEntry| a.last_active < b.last_active;
        let (picked, Ghost(order)) = pick(&entries, &keys, to_remove);
        proof {
            assert(entries@.len() == entries.len());
            lemma_picked(
                t.nodes,
                addr_of(),
                entries@,
                keys@,
                order,
                to_remove as nat,
                picked@,
                earlier,
            );
        }
        let mut gone: Vec<PeerAddr> = Vec::new();
        let mut j: usize = 0;
        while j < picked.len()
            invariant
                0 <= j <= picked@.len(),
                gone@.len() == j,
                forall|k: int| 0 <= k < j ==> #[trigger] gone@[k] == picked@[k].addr,
            decreases picked@.len() - j,
        {
            gone.push(picked[j].addr);
            j = j + 1;
        }
        let ghost set = gone@.to_set();
        proof {
            let ra = picked@.map_values(addr_of());
            assert(gone@ =~= ra);
            assert(models(gone@) =~= gone@);
            ra.unique_seq_to_set();
            assert(set.subset_of(t.nodes.dom())) by {
                assert forall|a: PeerAddr| set.contains(a) implies t.nodes.dom().contains(a) by {
                    let k = choose|k: int| 0 <= k < ra.len() && ra[k] == a;
                    assert(t.nodes.contains_key(picked@[k].addr));
                }
            }
            assert(set.intersect(t.nodes.dom()) =~= set);
            assert forall|a: PeerAddr, b: PeerAddr|
                set.contains(a) && t.nodes.dom().contains(b) && !set.contains(b) implies (
            #[trigger] t.nodes[a]).last_active <= (#[trigger] t.nodes[b]).last_active by {
                let k = choose|k: int| 0 <= k < ra.len() && ra[k] == a;
                assert(t.nodes[picked@[k].addr] == picked@[k]);
                assert(!ra.contains(b));
                assert(!earlier(t.nodes[b], picked@[k]));
            }
        }
        let removed: usize = self.drop_nodes(gone.as_slice());
        self.hot_addrs.remove_each(gone.as_slice());
        self.cold_addrs.remove_each(gone.as_slice());
        self.dirty.remove_each(gone.as_slice());
        proof {
            assert(self@ =~= t.without(set));
        }
        removed
    }
}

/// The bitwise distance of two identifiers.
pub open spec fn xor_distance(a: NodeId, b: NodeId) -> Seq<u8> {
    Seq::new(20, |i: int| a@[i] ^ b@[i])
}

fn distance(a: &NodeId, b: &NodeId) -> (r: [u8; 20])
    ensures
        r@ == xor_distance(*a, *b),
{
    let mut r: [u8; 20] = [0u8; 20];
    let mut i: usize = 0;
    while i < 20
        invariant
            0 <= i <= 20,
            forall|k: int| 0 <= k < i ==> #[trigger] r@[k] == a@[k] ^ b@[k],
        decreases 20 - i,
    {
        r[i] = a[i] ^ b[i];
        i = i + 1;
    }
    assert(r@ =~= xor_distance(*a, *b));
    r
}

/// The test whether one node has a higher score than another.
pub open spec fn scores_higher() -> spec_fn(KBucketEntry, KBucketEntry) -> bool {
    |a: KBucketEntry, b: KBucketEntry| a.score > b.score
}

/// The test whether one node is closer to a target than another.
pub open spec fn closer_to(target: NodeId) -> spec_fn(KBucketEntry, KBucketEntry) -> bool {
    |a: KBucketEntry, b: KBucketEntry|
        bytes_lt(xor_distance(a.id, target), xor_distance(b.id, target))
}

/// An entry after a query that was answered or not.
pub open spec fn after_query(e: KBucketEntry, success: bool, latency_ms: u64, now: u64) -> KBucketEntry {
    let q = KBucketEntry {
        query_count: e.query_count.wrapping_add(1),
        last_query_time: Some(now),
        ..e
    };
    if success {
        KBucketEntry {
            success_count: e.success_count.wrapping_add(1),
            total_latency_ms: e.total_latency_ms.wrapping_add(latency_ms),
            last_active: now,
            state: NodeState::Good,
            consecutive_failures: 0,
            ..q
        }
    } else {
        let failures = e.consecutive_failures.wrapping_add(1);
        KBucketEntry {
            consecutive_failures: failures,
            state: if failures >= 3 {
                NodeState::Bad
            } else {
                e.state
            },
            ..q
        }
    }
}

/// A node that is queried without answer three times in a row is bad, whatever its state
/// was; one answer makes it good again.
pub proof fn three_failures_make_bad(e: KBucketEntry, latency_ms: u64, t1: u64, t2: u64, t3: u64)
    requires
        e.consecutive_failures == 0,
    ensures
        after_query(
            after_query(after_query(e, false, latency_ms, t1), false, latency_ms, t2),
            false,
            latency_ms,
            t3,
        ).state == NodeState::Bad,
        after_query(e, true, latency_ms, t1).state == NodeState::Good,
        after_query(e, true, latency_ms, t1).consecutive_failures == 0,
{
}

/// A node as it is saved.
pub open spec fn row_of(e: KBucketEntry, now: u64) -> DhtNodeRow {
    DhtNodeRow {
        id: e.id,
        addr: e.addr,
        score: e.score,
        state: e.state,
        query_count: e.query_count,
        success_count: e.success_count,
        total_latency_ms: e.total_latency_ms,
        consecutive_failures: e.consecutive_failures,
        nodes_returned: e.nodes_returned,
        last_query_time: match e.last_query_time {
            Some(t) => Some(
                if t <= now {
                    ((now - t) / SECOND as int) as i64
                } else {
                    0
                },
            ),
            None => None,
        },
    }
}

/// A node as it is read back.
pub open spec fn node_of(row: DhtNodeRow, now: u64) -> KBucketEntry {
    KBucketEntry {
        id: row.id,
        addr: row.addr,
        score: row.score,
        state: row.state,
        query_count: row.query_count,
        success_count: row.success_count,
        total_latency_ms: row.total_latency_ms,
        consecutive_failures: row.consecutive_failures,
        nodes_returned: row.nodes_returned,
        last_active: now,
        last_query_time: match row.last_query_time {
            Some(secs) => Some(
                cutoff_at(
                    now,
                    if secs > 0 {
                        secs as u64
                    } else {
                        0
                    },
                ),
            ),
            None => None,
        },
        last_accessed: None,
    }
}

/// What is saved of a node is read back unchanged; the time of the last query to within
/// the second.
pub proof fn saved_node_is_read_back(e: KBucketEntry, now: u64)
    requires
        e.last_query_time matches Some(t) ==> t <= now,
    ensures
        ({
            let n = node_of(row_of(e, now), now);
            &&& n.id == e.id && n.addr == e.addr && n.score == e.score && n.state == e.state
            &&& n.query_count == e.query_count && n.success_count == e.success_count
            &&& n.total_latency_ms == e.total_latency_ms
            &&& n.consecutive_failures == e.consecutive_failures
            &&& n.nodes_returned == e.nodes_returned
            &&& n.last_query_time is Some <==> e.last_query_time is Some
            &&& e.last_query_time matches Some(t) ==> t <= n.last_query_time->0 < t + SECOND
        }),
{
    match e.last_query_time {
        Some(t) => {
            let d = (now - t) / SECOND as int;
            assert(d * SECOND <= now - t < (d + 1) * SECOND);
            assert(0 <= d <= i64::MAX);
        },
        None => {},
    }
}

/// The rows of those of the addresses that are known.
pub open spec fn rows_of(
    nodes: Map<PeerAddr, KBucketEntry>,
    addrs: Seq<PeerAddr>,
    now: u64,
) -> Seq<DhtNodeRow>
    decreases addrs.len(),
{
    if addrs.len() == 0 {
        Seq::empty()
    } else {
        let before = rows_of(nodes, addrs.drop_last(), now);
        if nodes.contains_key(addrs.last()) {
            before.push(row_of(nodes[addrs.last()], now))
        } else {
            before
        }
    }
}

impl NodeTable {
    /// The table after a score was set, and marked as changed, where the node is known.
    pub open spec fn scored(self, item: (PeerAddr, i64)) -> NodeTable {
        if self.nodes.contains_key(item.0) {
            NodeTable {
                nodes: self.nodes.insert(
                    item.0,
                    KBucketEntry { score: item.1, ..self.nodes[item.0] },
                ),
                dirty: self.dirty.insert(item.0),
                ..self
            }
        } else {
            self
        }
    }

    /// The table after several scores were set, one after the other.
    pub open spec fn scored_all(self, scores: Seq<(PeerAddr, i64)>) -> NodeTable
        decreases scores.len(),
    {
        if scores.len() == 0 {
            self
        } else {
            self.scored_all(scores.drop_last()).scored(scores.last())
        }
    }

    /// The table after a saved node was read.
    pub open spec fn loaded(self, row: DhtNodeRow, now: u64) -> NodeTable {
        NodeTable {
            nodes: self.nodes.insert(row.addr, node_of(row, now)),
            subnets: indexed(self.subnets, row.addr, row.id),
            ..self
        }
    }

    /// The table after several saved nodes were read, one after the other.
    pub open spec fn loaded_all(self, rows: Seq<DhtNodeRow>, now: u64) -> NodeTable
        decreases rows.len(),
    {
        if rows.len() == 0 {
            self
        } else {
            self.loaded_all(rows.drop_last(), now).loaded(rows.last(), now)
        }
    }

    /// The table after what is known of one node changed.
    pub open spec fn changed(self, addr: PeerAddr, e: KBucketEntry) -> NodeTable {
        NodeTable { nodes: self.nodes.insert(addr, e), ..self }
    }

    /// The table after a node was marked as changed.
    pub open spec fn marked(self, addr: PeerAddr) -> NodeTable {
        NodeTable { dirty: self.dirty.insert(addr), ..self }
    }

    /// The hot addresses whose nodes were not used since a point in time, or are not known.
    pub open spec fn cooled(self, cutoff: u64) -> Set<PeerAddr> {
        self.hot.filter(
            |a: PeerAddr|
                !(self.nodes.contains_key(a) && (self.nodes[a].last_accessed matches Some(t) && t
                    >= cutoff)),
        )
    }
}

/// What is to be saved: rows, and the addresses that they are for.
pub struct SaveBatch {
    pub addrs: Vec<PeerAddr>,
    pub rows: Vec<DhtNodeRow>,
}

impl NodeRepoImpl {
    /// Takes note of one node. Says whether it is new.
    pub fn add_node_sync(&mut self, id: NodeId, addr: PeerAddr, now: u64) -> (r: bool)
        requires
            old(self).wf(),
        ensures
            final(self).wf(),
            final(self)@ == old(self)@.seen((id, addr), now),
            r == !old(self)@.nodes.contains_key(addr),
    {
        self.see(id, addr, now)
    }

    /// Takes note of several nodes. Returns those that are new.
    pub fn add_nodes_sync_batch(&mut self, items: &[(NodeId, PeerAddr)], now: u64) -> (r: Vec<
        (NodeId, PeerAddr),
    >)
        requires
            old(self).wf(),
        ensures
            final(self).wf(),
            final(self)@ == old(self)@.seen_all(items@, now),
            r@ == old(self)@.newcomers(items@, now),
    {
        self.add_nodes_batch_internal(items, now)
    }

    /// Whether a node is known.
    pub fn contains_sync(&self, addr: PeerAddr) -> (r: bool)
        requires
            self.wf(),
        ensures
            r == self@.nodes.contains_key(addr),
    {
        self.nodes.contains_key(&addr)
    }

    /// How many nodes are known, where a machine can count them.
    pub fn len_sync(&self) -> (r: usize)
        requires
            self.wf(),
        ensures
            self@.nodes.len() <= usize::MAX ==> r == self@.nodes.len(),
    {
        self.nodes.len()
    }

    /// Whether no node is known.
    pub fn is_empty(&self) -> (r: bool)
        requires
            self.wf(),
        ensures
            r == (self@.nodes == Map::<PeerAddr, KBucketEntry>::empty()),
    {
        self.nodes.is_empty()
    }

    /// What is known of a node.
    pub fn get_node(&self, addr: &PeerAddr) -> (r: Option<KBucketEntry>)
        requires
            self.wf(),
        ensures
            r == if self@.nodes.contains_key(*addr) {
                Some(self@.nodes[*addr])
            } else {
                None
            },
    {
        match self.nodes.get(addr) {
            Some(e) => Some(*e),
            None => None,
        }
    }

    /// All nodes count as hot: how many there are, and no others.
    pub fn cache_stats(&self) -> (r: (usize, usize, u64))
        requires
            self.wf(),
        ensures
            self@.nodes.len() <= usize::MAX ==> r.0 == self@.nodes.len(),
            r.1 == 0,
            r.2 == 0,
    {
        (self.len_sync(), 0, 0)
    }

    /// The identifiers in a /24 network.
    pub fn nodes_by_subnet_sync(&self, subnet: [u8; 3]) -> (r: Vec<NodeId>)
        requires
            self.wf(),
        ensures
            r@ == bucket(self@.subnets, subnet@),
    {
        match self.subnet_index.get(&subnet) {
            Some(v) => {
                let mut out: Vec<NodeId> = Vec::new();
                let mut i: usize = 0;
                while i < v.len()
                    invariant
                        0 <= i <= v@.len(),
                        out@ == v@.take(i as int),
                    decreases v@.len() - i,
                {
                    out.push(v[i]);
                    i = i + 1;
                    assert(out@ =~= v@.take(i as int));
                }
                assert(out@ =~= v@);
                out
            },
            None => Vec::new(),
        }
    }

    /// The listed /24 networks, in an order that is left open.
    pub fn all_subnets_sync(&self) -> (r: Vec<[u8; 3]>)
        requires
            self.wf(),
        ensures
            lists(models(r@), self@.subnets.dom()),
    {
        let r = self.subnet_index.keys();
        proof {
            assert(self.subnet_index@.dom() =~= self@.subnets.dom());
        }
        r
    }

    /// How many /24 networks are listed.
    pub fn subnet_count_sync(&self) -> (r: usize)
        requires
            self.wf(),
        ensures
            r == self@.subnets.len(),
    {
        proof {
            assert(self.subnet_index@.dom() =~= self@.subnets.dom());
        }
        self.subnet_index.len()
    }

    /// How many nodes there are of each kind.
    pub fn stats_sync(&self) -> (r: NodeStats)
        requires
            self.wf(),
        ensures
            r.total == self@.nodes.len(),
            r.good == nodes_that(self@.nodes, in_state(NodeState::Good)).len(),
            r.questionable == nodes_that(self@.nodes, in_state(NodeState::Questionable)).len(),
            r.bad == nodes_that(self@.nodes, in_state(NodeState::Bad)).len(),
            r.active == nodes_that(self@.nodes, was_queried()).len(),
    {
        let entries = self.all_nodes_sync();
        let ghost g = in_state(NodeState::Good);
        let ghost q = in_state(NodeState::Questionable);
        let ghost b = in_state(NodeState::Bad);
        let ghost w = was_queried();
        let mut good: usize = 0;
        let mut questionable: usize = 0;
        let mut bad: usize = 0;
        let mut active: usize = 0;
        let mut i: usize = 0;
        proof {
            reveal(Seq::filter);
        }
        while i < entries.len()
            invariant
                0 <= i <= entries@.len(),
                g == in_state(NodeState::Good),
                q == in_state(NodeState::Questionable),
                b == in_state(NodeState::Bad),
                w == was_queried(),
                good == entries@.take(i as int).filter(g).len(),
                questionable == entries@.take(i as int).filter(q).len(),
                bad == entries@.take(i as int).filter(b).len(),
                active == entries@.take(i as int).filter(w).len(),
                good <= i,
                questionable <= i,
                bad <= i,
                active <= i,
            decreases entries@.len() - i,
        {
            proof {
                crate::ranking::lemma_filter_step(entries@, g, i as int);
                crate::ranking::lemma_filter_step(entries@, q, i as int);
                crate::ranking::lemma_filter_step(entries@, b, i as int);
                crate::ranking::lemma_filter_step(entries@, w, i as int);
            }
            match entries[i].state {
                NodeState::Good => {
                    good = good + 1;
                },
                NodeState::Questionable => {
                    questionable = questionable + 1;
                },
                NodeState::Bad => {
                    bad = bad + 1;
                },
            }
            if entries[i].query_count > 0 {
                active = active + 1;
            }
            i = i + 1;
        }
        proof {
            assert(entries@.take(i as int) =~= entries@);
            lemma_listed_that(self@.nodes, addr_of(), entries@, g);
            lemma_listed_that(self@.nodes, addr_of(), entries@, q);
            lemma_listed_that(self@.nodes, addr_of(), entries@, b);
            lemma_listed_that(self@.nodes, addr_of(), entries@, w);
        }
        NodeStats { total: entries.len(), good, questionable, bad, active }
    }

    /// The `n` nodes with the highest scores, highest first.
    pub fn top_nodes_sync(&self, n: usize) -> (r: Vec<KBucketEntry>)
        requires
            self.wf(),
        ensures
            picks_first(self@.nodes, r@, n as nat, scores_higher()),
    {
        let entries = self.all_nodes_sync();
        let mut keys: Vec<SortKey> = Vec::new();
        let mut i: usize = 0;
        while i < entries.len()
            invariant
                0 <= i <= entries@.len(),
                keys@.len() == i,
                forall|k: int|
                    0 <= k < i ==> #[trigger] keys@[k] == (
                        0u64,
                        (i64::MAX - entries@[k].score) as u128,
                        0u64,
                    ),
            decreases entries@.len() - i,
        {
            keys.push((0, (i64::MAX as i128 - entries[i].score as i128) as u128, 0));
            i = i + 1;
        }
        let (picked, Ghost(order)) = pick(&entries, &keys, n);
        proof {
            assert(entries@.len() == entries.len());
            assert forall|a: int, b: int|
                0 <= a < entries@.len() && 0 <= b < entries@.len() implies ((scores_higher())(
                #[trigger] entries@[a],
                #[trigger] entries@[b],
            ) <==> key_lt(keys@[a], keys@[b])) by {
                assert(keys@[a].1 == i64::MAX - entries@[a].score);
                assert(keys@[b].1 == i64::MAX - entries@[b].score);
            }
            lemma_picked(
                self@.nodes,
                addr_of(),
                entries@,
                keys@,
                order,
                n as nat,
                picked@,
                scores_higher(),
            );
        }
        picked
    }

    /// The `n` nodes that are closest to a target, closest first.
    pub fn closest_nodes(&self, target: &NodeId, n: usize) -> (r: Vec<KBucketEntry>)
        requires
            self.wf(),
        ensures
            picks_first(self@.nodes, r@, n as nat, closer_to(*target)),
    {
        let entries = self.all_nodes_sync();
        let mut keys: Vec<SortKey> = Vec::new();
        let mut i: usize = 0;
        while i < entries.len()
            invariant
                0 <= i <= entries@.len(),
                keys@.len() == i,
                forall|k: int|
                    0 <= k < i ==> distance_key(
                        xor_distance((#[trigger] entries@[k]).id, *target),
                        keys@[k],
                    ),
            decreases entries@.len() - i,
        {
            let d = distance(&entries[i].id, target);
            let high: u128 = be_number(d.as_slice(), 0, 4);
            let low: u128 = be_number(d.as_slice(), 4, 20);
            proof {
                crate::bytes::lemma_be_value_bound(d@.subrange(0, 4));
                reveal_with_fuel(crate::bytes::pow256, 5);
            }
            keys.push((high as u64, low, 0));
            i = i + 1;
        }
        let (picked, Ghost(order)) = pick(&entries, &keys, n);
        proof {
            assert(entries@.len() == entries.len());
            assert forall|a: int, b: int|
                0 <= a < entries@.len() && 0 <= b < entries@.len() implies ((closer_to(*target))(
                #[trigger] entries@[a],
                #[trigger] entries@[b],
            ) <==> key_lt(keys@[a], keys@[b])) by {
                lemma_distance_keys(
                    xor_distance(entries@[a].id, *target),
                    xor_distance(entries@[b].id, *target),
                    keys@[a],
                    keys@[b],
                );
            }
            lemma_picked(
                self@.nodes,
                addr_of(),
                entries@,
                keys@,
                order,
                n as nat,
                picked@,
                closer_to(*target),
            );
        }
        picked
    }
}

/// Whether a key is made of a distance: four bytes, then sixteen.
spec fn distance_key(d: Seq<u8>, key: SortKey) -> bool {
    key.0 == be_value(d.subrange(0, 4)) && key.1 == be_value(d.subrange(4, 20)) && key.2 == 0
}

proof fn lemma_distance_keys(a: Seq<u8>, b: Seq<u8>, x: SortKey, y: SortKey)
    requires
        a.len() == 20,
        b.len() == 20,
        distance_key(a, x),
        distance_key(b, y),
    ensures
        bytes_lt(a, b) <==> key_lt(x, y),
{
    let (a1, a2, b1, b2) = (
        a.subrange(0, 4),
        a.subrange(4, 20),
        b.subrange(0, 4),
        b.subrange(4, 20),
    );
    be_value_orders(a1, b1);
    be_value_orders(b1, a1);
    be_value_orders(a2, b2);
    crate::bytes::bytes_lt_total(a1, b1);
    crate::bytes::lemma_bytes_lt_joined(a1, a2, b1, b2);
    assert(a =~= a1 + a2);
    assert(b =~= b1 + b2);
    if a1 == b1 {
        crate::bytes::bytes_lt_irreflexive(a1);
    }
}

impl NodeRepoImpl {
    /// Sets what is known of a node that is known.
    fn change(&mut self, addr: PeerAddr, e: KBucketEntry)
        requires
            old(self).wf(),
            e.addr == addr,
        ensures
            final(self).wf(),
            final(self)@ == old(self)@.changed(addr, e),
    {
        let ghost t = self@;
        let _ = self.nodes.insert(addr, e);
        proof {
            let u = self@;
            assert forall|a: PeerAddr| #[trigger] u.nodes.contains_key(a) implies u.nodes[a].addr
                == a by {
                if a != addr {
                    assert(t.nodes.contains_key(a));
                }
            }
        }
    }

    /// Takes note that a node was queried, and whether it answered.
    pub fn record_query_sync(&mut self, addr: PeerAddr, success: bool, latency_ms: u64, now: u64)
        requires
            old(self).wf(),
        ensures
            final(self).wf(),
            final(self)@ == if old(self)@.nodes.contains_key(addr) {
                old(self)@.changed(
                    addr,
                    after_query(old(self)@.nodes[addr], success, latency_ms, now),
                ).marked(addr)
            } else {
                old(self)@
            },
    {
        match self.get_node(&addr) {
            Some(e) => {
                let mut e = e;
                e.query_count = e.query_count.wrapping_add(1);
                e.last_query_time = Some(now);
                if success {
                    e.success_count = e.success_count.wrapping_add(1);
                    e.total_latency_ms = e.total_latency_ms.wrapping_add(latency_ms);
                    e.last_active = now;
                    e.state = NodeState::Good;
                    e.consecutive_failures = 0;
                } else {
                    e.consecutive_failures = e.consecutive_failures.wrapping_add(1);
                    if e.consecutive_failures >= 3 {
                        e.state = NodeState::Bad;
                    }
                }
                self.change(addr, e);
                let _ = self.dirty.insert(addr);
            },
            None => {},
        }
    }

    /// Takes note that a node was queried and answered with so many nodes.
    pub fn record_query_with_nodes_sync(
        &mut self,
        addr: PeerAddr,
        latency_ms: u64,
        nodes_returned: u64,
        now: u64,
    )
        requires
            old(self).wf(),
        ensures
            final(self).wf(),
            final(self)@ == if old(self)@.nodes.contains_key(addr) {
                let e = old(self)@.nodes[addr];
                old(self)@.changed(
                    addr,
                    KBucketEntry {
                        nodes_returned: e.nodes_returned.wrapping_add(nodes_returned),
                        ..after_query(e, true, latency_ms, now)
                    },
                ).marked(addr)
            } else {
                old(self)@
            },
    {
        match self.get_node(&addr) {
            Some(e) => {
                let mut e = e;
                e.query_count = e.query_count.wrapping_add(1);
                e.success_count = e.success_count.wrapping_add(1);
                e.total_latency_ms = e.total_latency_ms.wrapping_add(latency_ms);
                e.nodes_returned = e.nodes_returned.wrapping_add(nodes_returned);
                e.last_active = now;
                e.last_query_time = Some(now);
                e.state = NodeState::Good;
                e.consecutive_failures = 0;
                self.change(addr, e);
                let _ = self.dirty.insert(addr);
            },
            None => {},
        }
    }

    /// Gives every node the state that `f` finds.
    pub fn refresh_all_states_sync<F: Fn(&KBucketEntry) -> NodeState>(&mut self, f: F)
        requires
            old(self).wf(),
            forall|e: &KBucketEntry| call_requires(f, (e,)),
        ensures
            final(self).wf(),
            final(self)@ == (NodeTable { nodes: final(self)@.nodes, ..old(self)@ }),
            final(self)@.nodes.dom() == old(self)@.nodes.dom(),
            forall|a: PeerAddr|
                final(self)@.nodes.contains_key(a) ==> {
                    let e = old(self)@.nodes[a];
                    let n = #[trigger] final(self)@.nodes[a];
                    n == (KBucketEntry { state: n.state, ..e }) && call_ensures(f, (&e,), n.state)
                },
    {
        let ghost t = self@;
        let entries = self.all_nodes_sync();
        let ghost addrs = entries@.map_values(addr_of());
        let mut i: usize = 0;
        while i < entries.len()
            invariant
                self.wf(),
                0 <= i <= entries@.len(),
                addrs == entries@.map_values(addr_of()),
                lists_nodes(t.nodes, entries@),
                forall|e: &KBucketEntry| call_requires(f, (e,)),
                self@ == (NodeTable { nodes: self@.nodes, ..t }),
                self@.nodes.dom() == t.nodes.dom(),
                forall|k: int|
                    i <= k < entries@.len() ==> self@.nodes[(#[trigger] addrs[k])]
                        == t.nodes[addrs[k]],
                forall|k: int|
                    0 <= k < i ==> {
                        let e = entries@[k];
                        let n = self@.nodes[(#[trigger] addrs[k])];
                        n == (KBucketEntry { state: n.state, ..e }) && call_ensures(
                            f,
                            (&e,),
                            n.state,
                        )
                    },
            decreases entries@.len() - i,
        {
            let mut e = entries[i];
            let state = f(&e);
            e.state = state;
            let ghost before = self@.nodes;
            proof {
                assert(addrs[i as int] == e.addr);
                assert(addrs.contains(e.addr));
                assert(t.nodes.dom().contains(e.addr));
            }
            self.change(e.addr, e);
            proof {
                assert(self@.nodes.dom() =~= t.nodes.dom());
                assert forall|k: int| 0 <= k < addrs.len() && k != i implies self@.nodes[(
                #[trigger] addrs[k])] == before[addrs[k]] by {
                    assert(addrs[k] != addrs[i as int]);
                }
            }
            i = i + 1;
        }
        proof {
            assert forall|a: PeerAddr| self@.nodes.contains_key(a) implies {
                let e = t.nodes[a];
                let n = #[trigger] self@.nodes[a];
                n == (KBucketEntry { state: n.state, ..e }) && call_ensures(f, (&e,), n.state)
            } by {
                assert(t.nodes.dom().contains(a));
                assert(addrs.contains(a));
                let k = choose|k: int| 0 <= k < addrs.len() && addrs[k] == a;
                assert(t.nodes[entries@[k].addr] == entries@[k]);
            }
        }
    }

    /// Takes note that a node was used: it is hot.
    pub fn mark_accessed_sync(&mut self, addr: PeerAddr, now: u64)
        requires
            old(self).wf(),
        ensures
            final(self).wf(),
            final(self)@ == if old(self)@.nodes.contains_key(addr) {
                (NodeTable {
                    hot: old(self)@.hot.insert(addr),
                    cold: old(self)@.cold.remove(addr),
                    ..old(self)@.changed(
                        addr,
                        KBucketEntry {
                            last_accessed: Some(now),
                            ..old(self)@.nodes[addr]
                        },
                    )
                })
            } else {
                old(self)@
            },
    {
        match self.get_node(&addr) {
            Some(e) => {
                let mut e = e;
                e.last_accessed = Some(now);
                self.change(addr, e);
                let _ = self.hot_addrs.insert(addr);
                let _ = self.cold_addrs.remove(&addr);
            },
            None => {},
        }
    }

    /// The hot nodes, in an order that is left open.
    pub fn hot_nodes_sync(&self) -> (r: Vec<KBucketEntry>)
        requires
            self.wf(),
        ensures
            lists(r@.map_values(addr_of()), self@.hot.intersect(self@.nodes.dom())),
            forall|i: int| 0 <= i < r@.len() ==> self@.nodes[(#[trigger] r@[i]).addr] == r@[i],
    {
        let addrs = self.hot_addrs.elements();
        let mut out: Vec<KBucketEntry> = Vec::new();
        let mut i: usize = 0;
        let ghost p = |a: PeerAddr| self@.nodes.dom().contains(a);
        proof {
            assert(models(addrs@) =~= addrs@);
            reveal(Seq::filter);
            assert(out@.map_values(addr_of()) =~= addrs@.take(0).filter(p));
        }
        while i < addrs.len()
            invariant
                self.wf(),
                0 <= i <= addrs@.len(),
                p == (|a: PeerAddr| self@.nodes.dom().contains(a)),
                out@.map_values(addr_of()) == addrs@.take(i as int).filter(p),
                forall|k: int| 0 <= k < out@.len() ==> self@.nodes[(#[trigger] out@[k]).addr]
                    == out@[k],
            decreases addrs@.len() - i,
        {
            proof {
                crate::ranking::lemma_filter_step(addrs@, p, i as int);
            }
            let ghost o = out@;
            match self.get_node(&addrs[i]) {
                Some(e) => {
                    out.push(e);
                    proof {
                        assert(out@.map_values(addr_of()) =~= o.map_values(addr_of()).push(
                            addrs@[i as int],
                        ));
                    }
                },
                None => {},
            }
            i = i + 1;
        }
        proof {
            assert(addrs@.take(i as int) =~= addrs@);
            lemma_lists_filter(addrs@, self@.hot, p);
            assert(self@.hot.filter(p) =~= self@.hot.intersect(self@.nodes.dom()));
        }
        out
    }

    /// Moves the hot addresses whose nodes were not used for so many seconds to the cold
    /// ones. Returns how many.
    pub fn migrate_hot_to_cold_sync(&mut self, threshold_secs: u64, now: u64) -> (r: usize)
        requires
            old(self).wf(),
        ensures
            final(self).wf(),
            ({
                let moved = old(self)@.cooled(cutoff_at(now, threshold_secs));
                &&& r == moved.len()
                &&& final(self)@ == (NodeTable {
                    hot: old(self)@.hot.difference(moved),
                    cold: old(self)@.cold.union(moved),
                    ..old(self)@
                })
            }),
    {
        let ghost t = self@;
        let cutoff: u64 = cutoff_before(now, threshold_secs);
        let addrs = self.hot_addrs.elements();
        let ghost p = |a: PeerAddr|
            !(t.nodes.contains_key(a) && (t.nodes[a].last_accessed matches Some(x) && x >= cutoff));
        let mut moved: Vec<PeerAddr> = Vec::new();
        let mut i: usize = 0;
        proof {
            assert(models(addrs@) =~= addrs@);
            reveal(Seq::filter);
            assert(moved@ =~= addrs@.take(0).filter(p));
            assert(t.cold.union(moved@.to_set()) =~= t.cold);
        }
        while i < addrs.len()
            invariant
                self.wf(),
                t.wf(),
                0 <= i <= addrs@.len(),
                p == (|a: PeerAddr|
                    !(t.nodes.contains_key(a) && (t.nodes[a].last_accessed matches Some(x) && x
                        >= cutoff))),
                moved@ == addrs@.take(i as int).filter(p),
                self@ == (NodeTable { cold: t.cold.union(moved@.to_set()), ..t }),
            decreases addrs@.len() - i,
        {
            proof {
                crate::ranking::lemma_filter_step(addrs@, p, i as int);
            }
            let stays = match self.get_node(&addrs[i]) {
                Some(e) => match e.last_accessed {
                    Some(x) => x >= cutoff,
                    None => false,
                },
                None => false,
            };
            if !stays {
                let ghost m = moved@;
                let a = addrs[i];
                let _ = self.cold_addrs.insert(a);
                moved.push(a);
                proof {
                    assert forall|x: PeerAddr| #[trigger] m.push(a).to_set().contains(x) <==> (
                    m.to_set().contains(x) || x == a) by {
                        lemma_push_member(m, a, x);
                    }
                    assert(t.cold.union(m.to_set()).insert(a) =~= t.cold.union(
                        m.push(a).to_set(),
                    ));
                    assert(self@.nodes == t.nodes && self@.subnets == t.subnets);
                }
            }
            i = i + 1;
        }
        self.hot_addrs.remove_each(moved.as_slice());
        proof {
            assert(models(moved@) =~= moved@);
            assert(addrs@.take(i as int) =~= addrs@);
            lemma_lists_filter(addrs@, t.hot, p);
            let set = t.cooled(cutoff);
            assert(t.hot.filter(p) =~= set);
            lemma_lists_len(moved@, set);
            assert(moved@.to_set() =~= set) by {
                assert forall|x: PeerAddr| moved@.to_set().contains(x) <==> set.contains(x) by {
                    assert(moved@.contains(x) <==> set.contains(x));
                }
            }
        }
        moved.len()
    }

    /// How many addresses are hot.
    pub fn hot_count_sync(&self) -> (r: usize)
        requires
            self.wf(),
        ensures
            r == self@.hot.len(),
    {
        self.hot_addrs.len()
    }

    /// How many addresses are cold.
    pub fn cold_count_sync(&self) -> (r: usize)
        requires
            self.wf(),
        ensures
            r == self@.cold.len(),
    {
        self.cold_addrs.len()
    }

    /// Marks an address as changed.
    pub fn mark_dirty_sync(&mut self, addr: PeerAddr)
        requires
            old(self).wf(),
        ensures
            final(self).wf(),
            final(self)@ == old(self)@.marked(addr),
    {
        let _ = self.dirty.insert(addr);
    }

    /// The addresses that are marked as changed, in an order that is left open.
    pub fn dirty_nodes_sync(&self) -> (r: Vec<PeerAddr>)
        requires
            self.wf(),
        ensures
            lists(r@, self@.dirty),
    {
        let r = self.dirty.elements();
        proof {
            assert(models(r@) =~= r@);
        }
        r
    }

    /// Takes the mark off one address.
    pub fn clear_dirty_sync(&mut self, addr: &PeerAddr)
        requires
            old(self).wf(),
        ensures
            final(self).wf(),
            final(self)@ == (NodeTable { dirty: old(self)@.dirty.remove(*addr), ..old(self)@ }),
    {
        let _ = self.dirty.remove(addr);
    }

    /// Takes the mark off several addresses.
    pub fn clear_dirty_batch_sync(&mut self, addrs: &[PeerAddr])
        requires
            old(self).wf(),
        ensures
            final(self).wf(),
            final(self)@ == (NodeTable {
                dirty: old(self)@.dirty.difference(addrs@.to_set()),
                ..old(self)@
            }),
    {
        self.dirty.remove_each(addrs);
        proof {
            assert(models(addrs@) =~= addrs@);
        }
    }

    /// Takes all marks off.
    pub fn clear_all_dirty_sync(&mut self)
        requires
            old(self).wf(),
        ensures
            final(self).wf(),
            final(self)@ == (NodeTable { dirty: Set::empty(), ..old(self)@ }),
    {
        self.dirty.clear();
    }

    /// The addresses that are marked as changed, in an order that is left open; all marks
    /// are taken off.
    pub fn take_dirty_sync(&mut self) -> (r: Vec<PeerAddr>)
        requires
            old(self).wf(),
        ensures
            final(self).wf(),
            final(self)@ == (NodeTable { dirty: Set::empty(), ..old(self)@ }),
            lists(r@, old(self)@.dirty),
    {
        let r = self.dirty_nodes_sync();
        self.dirty.clear();
        r
    }

    /// How many addresses are marked as changed.
    pub fn dirty_count_sync(&self) -> (r: usize)
        requires
            self.wf(),
        ensures
            r == self@.dirty.len(),
    {
        self.dirty.len()
    }

    /// The rows of those of the addresses that are known.
    pub fn build_dirty_batch(&self, dirty_addrs: &[PeerAddr], now: u64) -> (r: Vec<DhtNodeRow>)
        requires
            self.wf(),
        ensures
            r@ == rows_of(self@.nodes, dirty_addrs@, now),
    {
        let mut out: Vec<DhtNodeRow> = Vec::new();
        let mut i: usize = 0;
        proof {
            assert(dirty_addrs@.take(0) =~= Seq::empty());
        }
        while i < dirty_addrs.len()
            invariant
                self.wf(),
                0 <= i <= dirty_addrs@.len(),
                out@ == rows_of(self@.nodes, dirty_addrs@.take(i as int), now),
            decreases dirty_addrs@.len() - i,
        {
            proof {
                assert(dirty_addrs@.take(i + 1).drop_last() =~= dirty_addrs@.take(i as int));
            }
            match self.get_node(&dirty_addrs[i]) {
                Some(e) => {
                    let ago: Option<i64> = match e.last_query_time {
                        Some(t) => if t <= now {
                            Some(((now - t) / SECOND) as i64)
                        } else {
                            Some(0)
                        },
                        None => None,
                    };
                    out.push(
                        DhtNodeRow {
                            id: e.id,
                            addr: e.addr,
                            score: e.score,
                            state: e.state,
                            query_count: e.query_count,
                            success_count: e.success_count,
                            total_latency_ms: e.total_latency_ms,
                            consecutive_failures: e.consecutive_failures,
                            nodes_returned: e.nodes_returned,
                            last_query_time: ago,
                        },
                    );
                },
                None => {},
            }
            i = i + 1;
        }
        proof {
            assert(dirty_addrs@.take(i as int) =~= dirty_addrs@);
        }
        out
    }

    /// What is to be saved, if anything. Where a queue takes it, the marks are taken off at
    /// once; where not, they stay until `finish_save`, unless no marked node is known.
    pub fn begin_save(&mut self, queued: bool, now: u64) -> (r: Option<SaveBatch>)
        requires
            old(self).wf(),
        ensures
            final(self).wf(),
            r matches Some(b) ==> lists(b.addrs@, old(self)@.dirty) && b.rows@ == rows_of(
                old(self)@.nodes,
                b.addrs@,
                now,
            ),
            r is Some <==> old(self)@.dirty.intersect(old(self)@.nodes.dom()) != Set::<
                PeerAddr,
            >::empty(),
            final(self)@ == if queued || r is None {
                (NodeTable { dirty: Set::empty(), ..old(self)@ })
            } else {
                old(self)@
            },
    {
        let ghost t = self@;
        let addrs = self.dirty_nodes_sync();
        let rows = self.build_dirty_batch(addrs.as_slice(), now);
        proof {
            lemma_rows_some(t.nodes, addrs@, now);
            let known = t.dirty.intersect(t.nodes.dom());
            if rows@.len() > 0 {
                let k = choose|k: int| 0 <= k < addrs@.len() && t.nodes.contains_key(addrs@[k]);
                assert(addrs@.contains(addrs@[k]));
                assert(known.contains(addrs@[k]));
            } else {
                assert(known =~= Set::empty()) by {
                    assert forall|a: PeerAddr| !known.contains(a) by {
                        if known.contains(a) {
                            assert(addrs@.contains(a));
                            let k = choose|k: int| 0 <= k < addrs@.len() && addrs@[k] == a;
                            assert(t.nodes.contains_key(addrs@[k]));
                        }
                    }
                }
            }
        }
        if rows.len() == 0 {
            self.dirty.clear();
            return None;
        }
        if queued {
            self.dirty.clear();
        }
        Some(SaveBatch { addrs, rows })
    }

    /// What is to be done once a batch was saved, or not: the marks are taken off, or stay for
    /// the next attempt.
    pub fn finish_save(&mut self, batch: &SaveBatch, saved: bool)
        requires
            old(self).wf(),
        ensures
            final(self).wf(),
            final(self)@ == if saved {
                (NodeTable {
                    dirty: old(self)@.dirty.difference(batch.addrs@.to_set()),
                    ..old(self)@
                })
            } else {
                old(self)@
            },
    {
        if saved {
            self.clear_dirty_batch_sync(batch.addrs.as_slice());
        }
    }

    /// Sets scores of nodes that are known, and marks these as changed.
    pub fn update_scores_batch_sync(&mut self, scores: &[(PeerAddr, i64)])
        requires
            old(self).wf(),
        ensures
            final(self).wf(),
            final(self)@ == old(self)@.scored_all(scores@),
    {
        let ghost t = self@;
        let mut i: usize = 0;
        proof {
            assert(scores@.take(0) =~= Seq::empty());
        }
        while i < scores.len()
            invariant
                self.wf(),
                0 <= i <= scores@.len(),
                self@ == t.scored_all(scores@.take(i as int)),
            decreases scores@.len() - i,
        {
            proof {
                assert(scores@.take(i + 1).drop_last() =~= scores@.take(i as int));
            }
            let (addr, score) = scores[i];
            match self.get_node(&addr) {
                Some(e) => {
                    self.change(addr, KBucketEntry { score, ..e });
                    let _ = self.dirty.insert(addr);
                },
                None => {},
            }
            i = i + 1;
        }
        proof {
            assert(scores@.take(i as int) =~= scores@);
        }
    }

    /// Sets the score of a node that is known.
    pub fn update_score(&mut self, addr: &PeerAddr, score: i64)
        requires
            old(self).wf(),
        ensures
            final(self).wf(),
            final(self)@ == if old(self)@.nodes.contains_key(*addr) {
                old(self)@.changed(*addr, KBucketEntry { score, ..old(self)@.nodes[*addr] })
            } else {
                old(self)@
            },
    {
        match self.get_node(addr) {
            Some(e) => {
                self.change(*addr, KBucketEntry { score, ..e });
            },
            None => {},
        }
    }

    /// Sets the state of a node where it is known, and marks the address as changed.
    pub fn set_node_state(&mut self, addr: &PeerAddr, state: NodeState)
        requires
            old(self).wf(),
        ensures
            final(self).wf(),
            final(self)@ == (if old(self)@.nodes.contains_key(*addr) {
                old(self)@.changed(*addr, KBucketEntry { state, ..old(self)@.nodes[*addr] })
            } else {
                old(self)@
            }).marked(*addr),
    {
        match self.get_node(addr) {
            Some(e) => {
                self.change(*addr, KBucketEntry { state, ..e });
            },
            None => {},
        }
        let _ = self.dirty.insert(*addr);
    }

    /// Takes in saved nodes. Returns how many rows there were.
    pub fn load_all(&mut self, rows: &[DhtNodeRow], now: u64) -> (r: usize)
        requires
            old(self).wf(),
        ensures
            final(self).wf(),
            final(self)@ == old(self)@.loaded_all(rows@, now),
            r == rows@.len(),
    {
        let ghost t = self@;
        let mut i: usize = 0;
        proof {
            assert(rows@.take(0) =~= Seq::empty());
        }
        while i < rows.len()
            invariant
                self.wf(),
                0 <= i <= rows@.len(),
                self@ == t.loaded_all(rows@.take(i as int), now),
            decreases rows@.len() - i,
        {
            proof {
                assert(rows@.take(i + 1).drop_last() =~= rows@.take(i as int));
            }
            let ghost before = self@;
            let row = rows[i];
            let queried: Option<u64> = match row.last_query_time {
                Some(secs) => if secs > 0 {
                    Some(cutoff_before(now, secs as u64))
                } else {
                    Some(cutoff_before(now, 0))
                },
                None => None,
            };
            let entry = KBucketEntry {
                id: row.id,
                addr: row.addr,
                score: row.score,
                state: row.state,
                query_count: row.query_count,
                success_count: row.success_count,
                total_latency_ms: row.total_latency_ms,
                consecutive_failures: row.consecutive_failures,
                nodes_returned: row.nodes_returned,
                last_active: now,
                last_query_time: queried,
                last_accessed: None,
            };
            self.change(row.addr, entry);
            match subnet_key(row.addr) {
                Some(s) => {
                    index_subnet(&mut self.subnet_index, s, row.id);
                },
                None => {},
            }
            proof {
                assert(self@ =~= before.loaded(row, now));
                assert forall|s: Seq<u8>| #[trigger] self@.subnets.contains_key(s) implies
                    self@.subnets[s].len() > 0 by {
                    if subnet_of(row.addr) != Some(s) {
                        assert(before.subnets.contains_key(s));
                    }
                }
            }
            i = i + 1;
        }
        proof {
            assert(rows@.take(i as int) =~= rows@);
        }
        rows.len()
    }

    /// Takes in saved nodes at the start. Every node is then hot.
    pub fn load_initial(&mut self, rows: &[DhtNodeRow], now: u64) -> (r: usize)
        requires
            old(self).wf(),
        ensures
            final(self).wf(),
            ({
                let t = old(self)@.loaded_all(rows@, now);
                final(self)@ == (NodeTable { hot: t.hot.union(t.nodes.dom()), ..t })
            }),
            r == rows@.len(),
    {
        let count: usize = self.load_all(rows, now);
        let ghost t = self@;
        let keys = self.nodes.keys();
        let mut i: usize = 0;
        proof {
            assert(models(keys@) =~= keys@);
            assert(t.hot.union(keys@.take(0).to_set()) =~= t.hot);
        }
        while i < keys.len()
            invariant
                self.wf(),
                t.wf(),
                0 <= i <= keys@.len(),
                self@ == (NodeTable { hot: t.hot.union(keys@.take(i as int).to_set()), ..t }),
            decreases keys@.len() - i,
        {
            let _ = self.hot_addrs.insert(keys[i]);
            proof {
                let k = keys@.take(i as int);
                let a = keys@[i as int];
                assert(keys@.take(i + 1) =~= k.push(a));
                assert forall|x: PeerAddr| #[trigger] k.push(a).to_set().contains(x) <==> (
                k.to_set().contains(x) || x == a) by {
                    lemma_push_member(k, a, x);
                }
                assert(t.hot.union(k.to_set()).insert(a) =~= t.hot.union(k.push(a).to_set()));
                assert(self@.nodes == t.nodes && self@.subnets == t.subnets);
            }
            i = i + 1;
        }
        proof {
            assert(keys@.take(i as int) =~= keys@);
            assert(keys@.to_set() =~= t.nodes.dom()) by {
                assert forall|x: PeerAddr| keys@.to_set().contains(x) <==> t.nodes.dom().contains(
                    x,
                ) by {
                    assert(keys@.contains(x) <==> t.nodes.dom().contains(x));
                }
            }
        }
        count
    }
}

proof fn lemma_rows_some(nodes: Map<PeerAddr, KBucketEntry>, addrs: Seq<PeerAddr>, now: u64)
    ensures
        rows_of(nodes, addrs, now).len() > 0 <==> exists|k: int|
            0 <= k < addrs.len() && nodes.contains_key(#[trigger] addrs[k]),
    decreases addrs.len(),
{
    if addrs.len() > 0 {
        let a = addrs.drop_last();
        lemma_rows_some(nodes, a, now);
        assert(addrs.last() == addrs[addrs.len() - 1]);
        if exists|k: int| 0 <= k < a.len() && nodes.contains_key(#[trigger] a[k]) {
            let k = choose|k: int| 0 <= k < a.len() && nodes.contains_key(#[trigger] a[k]);
            assert(nodes.contains_key(addrs[k]));
        }
        if exists|k: int| 0 <= k < addrs.len() && nodes.contains_key(#[trigger] addrs[k]) {
            let k = choose|k: int| 0 <= k < addrs.len() && nodes.contains_key(#[trigger] addrs[k]);
            if k < a.len() {
                assert(a[k] == addrs[k]);
            }
        }
    }
}

/// A node that is forgotten is in none of the repository's sets, and nothing else changes
/// for other nodes.
pub proof fn forgotten_leaves_no_mark(t: NodeTable, gone: Set<PeerAddr>, a: PeerAddr)
    ensures
        gone.contains(a) ==> {
            let u = t.without(gone);
            !u.nodes.contains_key(a) && !u.hot.contains(a) && !u.cold.contains(a)
                && !u.dirty.contains(a)
        },
        !gone.contains(a) ==> {
            let u = t.without(gone);
            &&& u.nodes.index_opt(a) == t.nodes.index_opt(a)
            &&& u.hot.contains(a) == t.hot.contains(a)
            &&& u.cold.contains(a) == t.cold.contains(a)
            &&& u.dirty.contains(a) == t.dirty.contains(a)
        },
{
}

/// What was seen is known, under the identifier that it was last seen with and active at
/// that time; a node that is new is marked as changed.
pub proof fn seen_is_known(t: NodeTable, id: NodeId, addr: PeerAddr, now: u64)
    ensures
        ({
            let u = t.seen((id, addr), now);
            &&& u.nodes.contains_key(addr)
            &&& u.nodes[addr].id == id
            &&& u.nodes[addr].last_active == now
            &&& !t.nodes.contains_key(addr) ==> u.dirty.contains(addr)
            &&& subnet_of(addr) is Some && !t.nodes.contains_key(addr) ==> bucket(
                u.subnets,
                subnet_of(addr)->0,
            ).contains(id)
        }),
{
    let u = t.seen((id, addr), now);
    match subnet_of(addr) {
        Some(s) => {
            if !t.nodes.contains_key(addr) {
                let b = bucket(u.subnets, s);
                assert(b[b.len() - 1] == id);
            }
        },
        None => {},
    }
}

/// A node that was seen for the first time and then forgotten leaves the repository as it
/// was, where its identifier is new in its network.
pub proof fn forgetting_undoes_seeing(t: NodeTable, id: NodeId, addr: PeerAddr, now: u64)
    requires
        t.wf(),
        !t.nodes.contains_key(addr),
        !t.dirty.contains(addr),
        !t.hot.contains(addr),
        !t.cold.contains(addr),
        subnet_of(addr) matches Some(s) ==> !bucket(t.subnets, s).contains(id),
    ensures
        t.seen((id, addr), now).without(set![addr]) == t,
{
    let u = t.seen((id, addr), now);
    let gone = set![addr];
    lemma_seen_wf(t, id, addr, now);
    u.lemma_nobody_goes();
    u.lemma_one_more_goes(Set::empty(), addr);
    assert(Set::<PeerAddr>::empty().insert(addr) =~= gone);
    assert(u.nodes.remove_keys(gone) =~= t.nodes);
    assert(u.dirty.difference(gone) =~= t.dirty);
    assert(u.hot.difference(gone) =~= t.hot);
    assert(u.cold.difference(gone) =~= t.cold);
    match subnet_of(addr) {
        Some(s) => {
            let b = bucket(t.subnets, s);
            reveal(Seq::filter);
            assert(b.push(id).drop_last() =~= b);
            assert forall|i: int| 0 <= i < b.len() implies (other_id(id))(#[trigger] b[i]) by {
                assert(b.contains(b[i]));
            }
            crate::storage::recency::lemma_filter_all(b, other_id(id));
            assert(b.push(id).filter(other_id(id)) == b);
            if t.subnets.contains_key(s) {
                assert(unindexed(u.subnets, addr, id) =~= t.subnets);
            } else {
                assert(unindexed(u.subnets, addr, id) =~= t.subnets);
            }
        },
        None => {},
    }
    assert(u.without(gone) =~= t);
}

} // verus!
