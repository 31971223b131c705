//! The peers that are known, by torrent and by address.
//!
//! Two relations are kept, each the other's mirror: the addresses of a torrent and the
//! torrents of an address.

use vstd::prelude::*;

use crate::ranking::{
    lemma_lists_join, lemma_picked, lemma_push_member, lists_values, pick, picks,
};
use crate::sorting::{key_lt, SortKey};
use crate::storage::fx_map::{lists, models, FxMap, FxSet, MapKey};
use crate::storage::tiered_cache::TieredCacheConfig;
use crate::types::{fresh_peer, Infohash, PeerAddr, PeerInfo, PeerSource};

verus! {

/// How many history records are gathered before they are written.
pub const HISTORY_BATCH: usize = 100;

/// That a peer was seen with a torrent.
#[derive(Clone, Copy, Debug)]
pub struct PeerHistoryEntry {
    pub infohash: Infohash,
    pub addr: PeerAddr,
    pub source: PeerSource,
    pub score: i64,
    pub discovered_at: i64,
}

/// A peer of a torrent as it is saved.
#[derive(Clone, Copy, Debug)]
pub struct PeerRow {
    pub infohash: Infohash,
    pub addr: PeerAddr,
    pub source: PeerSource,
    pub score: i64,
    pub connection_attempts: u32,
    pub connection_successes: u32,
    pub last_active: i64,
}

/// That a peer is new for a torrent.
#[derive(Clone, Copy, Debug)]
pub struct NewPeer {
    pub infohash: Infohash,
    pub addr: PeerAddr,
    pub first_seen: u64,
    pub source: PeerSource,
}

/// What the repository holds.
#[verifier::ext_equal]
pub struct PeerTable {
    pub by_infohash: Map<Infohash, Set<PeerAddr>>,
    pub global: Map<PeerAddr, PeerInfo>,
    pub refs: Map<PeerAddr, Set<Infohash>>,
    pub history: Seq<PeerHistoryEntry>,
    pub dirty: Set<PeerAddr>,
}

/// The set under a key, empty where there is none.
pub open spec fn set_at<A, B>(m: Map<A, Set<B>>, a: A) -> Set<B> {
    if m.contains_key(a) {
        m[a]
    } else {
        Set::empty()
    }
}

/// What is known of a peer after it was heard of again.
pub open spec fn heard_of(known: PeerInfo, peer: PeerInfo) -> PeerInfo {
    PeerInfo {
        last_active: peer.last_active,
        source: peer.source,
        peer_id: if peer.peer_id is Some {
            peer.peer_id
        } else {
            known.peer_id
        },
        ..known
    }
}

/// The test whether one peer has a higher score than another.
pub open spec fn scores_higher() -> spec_fn(PeerInfo, PeerInfo) -> bool {
    |a: PeerInfo, b: PeerInfo| a.priority_score > b.priority_score
}

/// The address of a peer.
pub open spec fn addr_of() -> spec_fn(PeerInfo) -> PeerAddr {
    |p: PeerInfo| p.addr
}

impl PeerTable {
    /// Whether a peer is known to have a torrent.
    pub open spec fn linked(self, ih: Infohash, a: PeerAddr) -> bool {
        set_at(self.by_infohash, ih).contains(a)
    }

    /// The two relations mirror each other, an address without torrents is not listed, and
    /// what is linked is known under its own address.
    pub open spec fn wf(self) -> bool {
        &&& forall|ih: Infohash, a: PeerAddr|
            #![trigger set_at(self.by_infohash, ih).contains(a)]
            #![trigger set_at(self.refs, a).contains(ih)]
            set_at(self.by_infohash, ih).contains(a) <==> set_at(self.refs, a).contains(ih)
        &&& forall|a: PeerAddr| #[trigger]
            self.refs.contains_key(a) ==> self.refs[a] != Set::<Infohash>::empty()
                && self.global.contains_key(a)
        &&& forall|a: PeerAddr| #[trigger] self.global.contains_key(a) ==> self.global[a].addr == a
    }

    /// The table after a peer was heard of.
    pub open spec fn noted(self, peer: PeerInfo) -> PeerTable {
        PeerTable {
            global: self.global.insert(
                peer.addr,
                if self.global.contains_key(peer.addr) {
                    heard_of(self.global[peer.addr], peer)
                } else {
                    peer
                },
            ),
            ..self
        }
    }

    /// The table after a peer was linked with a torrent.
    pub open spec fn joined(self, ih: Infohash, a: PeerAddr) -> PeerTable {
        PeerTable {
            by_infohash: self.by_infohash.insert(ih, set_at(self.by_infohash, ih).insert(a)),
            refs: self.refs.insert(a, set_at(self.refs, a).insert(ih)),
            ..self
        }
    }

    /// The table after several peers of torrents were heard of, one after the other.
    pub open spec fn noted_all(self, items: Seq<(Infohash, PeerInfo)>) -> PeerTable
        decreases items.len(),
    {
        if items.len() == 0 {
            self
        } else {
            let (ih, p) = items.last();
            self.noted_all(items.drop_last()).noted(p).joined(ih, p.addr)
        }
    }

    /// Those of the peers that were new for their torrent when they were heard of.
    pub open spec fn newcomers(self, items: Seq<(Infohash, PeerInfo)>) -> Seq<NewPeer>
        decreases items.len(),
    {
        if items.len() == 0 {
            Seq::empty()
        } else {
            let (ih, p) = items.last();
            let before = self.newcomers(items.drop_last());
            if self.noted_all(items.drop_last()).linked(ih, p.addr) {
                before
            } else {
                before.push(
                    NewPeer {
                        infohash: ih,
                        addr: p.addr,
                        first_seen: p.first_seen,
                        source: p.source,
                    },
                )
            }
        }
    }

    /// The table after a peer was parted from a torrent; a peer without torrents is
    /// forgotten.
    pub open spec fn parted(self, ih: Infohash, a: PeerAddr) -> PeerTable {
        let by = if self.by_infohash.contains_key(ih) {
            self.by_infohash.insert(ih, self.by_infohash[ih].remove(a))
        } else {
            self.by_infohash
        };
        let rest = set_at(self.refs, a).remove(ih);
        if !self.refs.contains_key(a) {
            PeerTable { by_infohash: by, ..self }
        } else if rest == Set::<Infohash>::empty() {
            PeerTable {
                by_infohash: by,
                refs: self.refs.remove(a),
                global: self.global.remove(a),
                ..self
            }
        } else {
            PeerTable { by_infohash: by, refs: self.refs.insert(a, rest), ..self }
        }
    }

    /// What is known of the peers of a torrent.
    pub open spec fn peers_of(self, ih: Infohash) -> Map<PeerAddr, PeerInfo> {
        self.global.restrict(set_at(self.by_infohash, ih))
    }
}

/// The history records of peers that were heard of.
pub open spec fn history_of(items: Seq<(Infohash, PeerInfo)>, now: i64) -> Seq<PeerHistoryEntry> {
    Seq::new(
        items.len(),
        |i: int|
            PeerHistoryEntry {
                infohash: items[i].0,
                addr: items[i].1.addr,
                source: items[i].1.source,
                score: items[i].1.priority_score,
                discovered_at: now,
            },
    )
}

/// Whether the history has grown so long with these that it is handed over.
pub open spec fn history_full(t: PeerTable, items: Seq<(Infohash, PeerInfo)>, now: i64) -> bool {
    items.len() > 0 && (t.history + history_of(items, now)).len() >= HISTORY_BATCH
}

/// The table after peers were noted and written to the history, which is empty again once
/// it was handed over.
pub open spec fn taken_note(t: PeerTable, items: Seq<(Infohash, PeerInfo)>, now: i64) -> PeerTable {
    PeerTable {
        history: if history_full(t, items, now) {
            Seq::empty()
        } else {
            t.history + history_of(items, now)
        },
        ..t.noted_all(items)
    }
}

/// Peers of one torrent.
pub open spec fn peers_with(ih: Infohash, peers: Seq<PeerInfo>) -> Seq<(Infohash, PeerInfo)> {
    Seq::new(peers.len(), |i: int| (ih, peers[i]))
}

/// What is known of a peer that is read back. A time that was not saved is now.
pub open spec fn peer_of(row: PeerRow, now: u64) -> PeerInfo {
    PeerInfo {
        priority_score: row.score,
        connection_attempts: row.connection_attempts,
        connection_successes: row.connection_successes,
        last_active: if row.last_active > 0 {
            row.last_active as u64
        } else {
            now
        },
        ..fresh_peer(row.addr, row.source, now)
    }
}

/// A peer of a torrent as it is saved.
pub open spec fn row_of(ih: Infohash, p: PeerInfo) -> PeerRow {
    PeerRow {
        infohash: ih,
        addr: p.addr,
        source: p.source,
        score: p.priority_score,
        connection_attempts: p.connection_attempts,
        connection_successes: p.connection_successes,
        last_active: p.last_active as i64,
    }
}

impl PeerTable {
    /// The table after a saved peer was read.
    pub open spec fn loaded(self, row: PeerRow, now: u64) -> PeerTable {
        (PeerTable { global: self.global.insert(row.addr, peer_of(row, now)), ..self }).joined(
            row.infohash,
            row.addr,
        )
    }

    /// The table after several saved peers were read, one after the other.
    pub open spec fn loaded_all(self, rows: Seq<PeerRow>, now: u64) -> PeerTable
        decreases rows.len(),
    {
        if rows.len() == 0 {
            self
        } else {
            self.loaded_all(rows.drop_last(), now).loaded(rows.last(), now)
        }
    }

    /// The table after what is known of a peer changed.
    pub open spec fn changed(self, a: PeerAddr, p: PeerInfo) -> PeerTable {
        PeerTable { global: self.global.insert(a, p), ..self }
    }

    /// The table after a score was set, and marked as changed, where the peer is known.
    pub open spec fn scored(self, item: (PeerAddr, i64)) -> PeerTable {
        if self.global.contains_key(item.0) {
            PeerTable {
                dirty: self.dirty.insert(item.0),
                ..self.changed(
                    item.0,
                    PeerInfo { priority_score: item.1, ..self.global[item.0] },
                )
            }
        } else {
            self
        }
    }

    /// The table after several scores were set, one after the other.
    pub open spec fn scored_all(self, scores: Seq<(PeerAddr, i64)>) -> PeerTable
        decreases scores.len(),
    {
        if scores.len() == 0 {
            self
        } else {
            self.scored_all(scores.drop_last()).scored(scores.last())
        }
    }
}

/// The sets of a map of sets.
pub open spec fn set_views<A, K: MapKey>(m: Map<A, FxSet<K>>) -> Map<A, Set<K::M>> {
    Map::new(|a: A| m.contains_key(a), |a: A| m[a]@)
}

/// Whether every set of a map of sets is well-formed.
pub open spec fn sets_ok<A, K: MapKey>(m: Map<A, FxSet<K>>) -> bool {
    forall|a: A| #[trigger] m.contains_key(a) ==> m[a].wf()
}

fn put_into<K: MapKey, E: MapKey>(map: &mut FxMap<K, FxSet<E>>, key: K, e: E) -> (r: bool)
    requires
        old(map).wf(),
        sets_ok(old(map)@),
    ensures
        final(map).wf(),
        sets_ok(final(map)@),
        set_views(final(map)@) == set_views(old(map)@).insert(
            key.model(),
            set_at(set_views(old(map)@), key.model()).insert(e.model()),
        ),
        r == !set_at(set_views(old(map)@), key.model()).contains(e.model()),
{
    let ghost m = map@;
    let mut set = match map.remove(&key) {
        Some(s) => {
            proof {
                assert(m.contains_key(key.model()));
            }
            s
        },
        None => FxSet::new(),
    };
    let ghost k = key.model();
    let is_new = set.insert(e);
    let _ = map.insert(key, set);
    proof {
        assert forall|a: K::M| #[trigger] map@.contains_key(a) implies map@[a].wf() by {
            if a != k {
                assert(m.contains_key(a));
            }
        }
        assert(set_views(map@) =~= set_views(m).insert(
            k,
            set_at(set_views(m), k).insert(e.model()),
        ));
    }
    is_new
}

/// The peers by torrent and by address.
pub struct PeerRepoImpl {
    by_infohash: FxMap<Infohash, FxSet<PeerAddr>>,
    global: FxMap<PeerAddr, PeerInfo>,
    infohash_refs: FxMap<PeerAddr, FxSet<Infohash>>,
    history_buffer: Vec<PeerHistoryEntry>,
    dirty: FxSet<PeerAddr>,
}

impl View for PeerRepoImpl {
    type V = PeerTable;

    closed spec fn view(&self) -> PeerTable {
        PeerTable {
            by_infohash: set_views(self.by_infohash@),
            global: self.global@,
            refs: set_views(self.infohash_refs@),
            history: self.history_buffer@,
            dirty: self.dirty@,
        }
    }
}

proof fn lemma_noted_wf(t: PeerTable, peer: PeerInfo)
    requires
        t.wf(),
    ensures
        t.noted(peer).wf(),
{
    let u = t.noted(peer);
    assert forall|a: PeerAddr| #[trigger] u.refs.contains_key(a) implies u.refs[a] != Set::<
        Infohash,
    >::empty() && u.global.contains_key(a) by {
        assert(t.refs.contains_key(a));
    }
    assert forall|a: PeerAddr| #[trigger] u.global.contains_key(a) implies u.global[a].addr == a by {
        if a != peer.addr {
            assert(t.global.contains_key(a));
        }
    }
    assert forall|ih: Infohash, a: PeerAddr|
        #![trigger set_at(u.by_infohash, ih).contains(a)]
        set_at(u.by_infohash, ih).contains(a) <==> set_at(u.refs, a).contains(ih) by {
        assert(set_at(t.by_infohash, ih).contains(a) <==> set_at(t.refs, a).contains(ih));
    }
}

proof fn lemma_joined_wf(t: PeerTable, ih: Infohash, a: PeerAddr)
    requires
        t.wf(),
        t.global.contains_key(a),
    ensures
        t.joined(ih, a).wf(),
{
    let u = t.joined(ih, a);
    assert forall|x: PeerAddr| #[trigger] u.refs.contains_key(x) implies u.refs[x] != Set::<
        Infohash,
    >::empty() && u.global.contains_key(x) by {
        if x != a {
            assert(t.refs.contains_key(x));
        } else {
            assert(u.refs[a].contains(ih));
        }
    }
    assert forall|i: Infohash, x: PeerAddr|
        #![trigger set_at(u.by_infohash, i).contains(x)]
        set_at(u.by_infohash, i).contains(x) <==> set_at(u.refs, x).contains(i) by {
        assert(set_at(t.by_infohash, i).contains(x) <==> set_at(t.refs, x).contains(i));
    }
}

impl PeerRepoImpl {
    pub closed spec fn parts_ok(self) -> bool {
        &&& self.by_infohash.wf()
        &&& self.global.wf()
        &&& self.infohash_refs.wf()
        &&& self.dirty.wf()
        &&& sets_ok(self.by_infohash@)
        &&& sets_ok(self.infohash_refs@)
    }

    pub open spec fn wf(self) -> bool {
        self.parts_ok() && self@.wf()
    }

    /// An empty repository.
    pub fn new() -> (r: Self)
        ensures
            r.wf(),
            r@ == (PeerTable {
                by_infohash: Map::empty(),
                global: Map::empty(),
                refs: Map::empty(),
                history: Seq::empty(),
                dirty: Set::empty(),
            }),
    {
        let r = PeerRepoImpl {
            by_infohash: FxMap::new(),
            global: FxMap::new(),
            infohash_refs: FxMap::new(),
            history_buffer: Vec::new(),
            dirty: FxSet::new(),
        };
        proof {
            assert(set_views(r.by_infohash@) =~= Map::empty());
            assert(set_views(r.infohash_refs@) =~= Map::empty());
        }
        r
    }

    /// An empty repository. It keeps everything in memory, whatever the configuration of
    /// the cache.
    pub fn with_tier_config(_cache_config: TieredCacheConfig, _tier_enabled: bool) -> (r: Self)
        ensures
            r.wf(),
            r@ == (PeerTable {
                by_infohash: Map::empty(),
                global: Map::empty(),
                refs: Map::empty(),
                history: Seq::empty(),
                dirty: Set::empty(),
            }),
    {
        Self::new()
    }

    /// Everything stays in memory: a regular check drops nothing.
    pub fn tier_evict(&mut self)
        requires
            old(self).wf(),
        ensures
            final(self).wf(),
            final(self)@ == old(self)@,
    {
    }

    /// Everything stays in memory: nothing is dropped even when memory is short.
    pub fn emergency_evict(&mut self, _count: usize)
        requires
            old(self).wf(),
        ensures
            final(self).wf(),
            final(self)@ == old(self)@,
    {
    }

    fn note(&mut self, peer: &PeerInfo)
        requires
            old(self).wf(),
        ensures
            final(self).wf(),
            final(self)@ == old(self)@.noted(*peer),
    {
        let ghost t = self@;
        let next = match self.global.get(&peer.addr) {
            Some(known) => PeerInfo {
                last_active: peer.last_active,
                source: peer.source,
                peer_id: if peer.peer_id.is_some() {
                    peer.peer_id
                } else {
                    known.peer_id
                },
                ..*known
            },
            None => *peer,
        };
        let _ = self.global.insert(peer.addr, next);
        proof {
            lemma_noted_wf(t, *peer);
        }
    }

    fn join(&mut self, ih: Infohash, a: PeerAddr) -> (r: bool)
        requires
            old(self).wf(),
            old(self)@.global.contains_key(a),
        ensures
            final(self).wf(),
            final(self)@ == old(self)@.joined(ih, a),
            r == !old(self)@.linked(ih, a),
    {
        let ghost t = self@;
        let is_new = put_into(&mut self.by_infohash, ih, a);
        let _ = put_into(&mut self.infohash_refs, a, ih);
        proof {
            lemma_joined_wf(t, ih, a);
        }
        is_new
    }

    /// Takes note of peers of torrents, without telling anybody else. Returns those that are
    /// new for their torrent and, once enough records of the history have gathered, these.
    pub fn add_peers_sync_internal(&mut self, items: &[(Infohash, PeerInfo)], now: i64) -> (r: (
        Vec<NewPeer>,
        Option<Vec<PeerHistoryEntry>>,
    ))
        requires
            old(self).wf(),
        ensures
            final(self).wf(),
            r.0@ == old(self)@.newcomers(items@),
            r.1 is Some <==> history_full(old(self)@, items@, now),
            r.1 matches Some(b) ==> b@ == old(self)@.history + history_of(items@, now),
            final(self)@ == taken_note(old(self)@, items@, now),
    {
        let ghost t = self@;
        let mut fresh: Vec<NewPeer> = Vec::new();
        let mut i: usize = 0;
        proof {
            assert(items@.take(0) =~= Seq::empty());
            assert(t.history + history_of(items@.take(0), now) =~= t.history);
        }
        while i < items.len()
            invariant
                self.wf(),
                0 <= i <= items@.len(),
                self@ == (PeerTable {
                    history: t.history + history_of(items@.take(i as int), now),
                    ..t.noted_all(items@.take(i as int))
                }),
                fresh@ == t.newcomers(items@.take(i as int)),
            decreases items@.len() - i,
        {
            let (ih, peer) = items[i];
            let ghost seen = items@.take(i as int);
            proof {
                assert(items@.take(i + 1).drop_last() =~= seen);
                assert(items@.take(i + 1).last() == items@[i as int]);
                assert(history_of(items@.take(i + 1), now) =~= history_of(seen, now).push(
                    PeerHistoryEntry {
                        infohash: ih,
                        addr: peer.addr,
                        source: peer.source,
                        score: peer.priority_score,
                        discovered_at: now,
                    },
                ));
            }
            self.note(&peer);
            let is_new = self.join(ih, peer.addr);
            let ghost v = self@;
            if is_new {
                fresh.push(
                    NewPeer {
                        infohash: ih,
                        addr: peer.addr,
                        first_seen: peer.first_seen,
                        source: peer.source,
                    },
                );
            }
            self.history_buffer.push(
                PeerHistoryEntry {
                    infohash: ih,
                    addr: peer.addr,
                    source: peer.source,
                    score: peer.priority_score,
                    discovered_at: now,
                },
            );
            proof {
                assert(self@.history =~= t.history + history_of(items@.take(i + 1), now));
                lemma_history_wf(self@, v);
            }
            i = i + 1;
        }
        proof {
            assert(items@.take(i as int) =~= items@);
        }
        let ghost u = self@;
        if items.len() > 0 && self.history_buffer.len() >= HISTORY_BATCH {
            let mut batch: Vec<PeerHistoryEntry> = Vec::new();
            std::mem::swap(&mut batch, &mut self.history_buffer);
            proof {
                lemma_history_wf(self@, u);
            }
            (fresh, Some(batch))
        } else {
            (fresh, None)
        }
    }
}

proof fn lemma_history_wf(t: PeerTable, u: PeerTable)
    requires
        t.by_infohash == u.by_infohash,
        t.global == u.global,
        t.refs == u.refs,
    ensures
        t.wf() == u.wf(),
{
}

proof fn lemma_parted_wf(t: PeerTable, ih: Infohash, a: PeerAddr)
    requires
        t.wf(),
    ensures
        t.parted(ih, a).wf(),
{
    let u = t.parted(ih, a);
    assert forall|i: Infohash, x: PeerAddr|
        #![trigger set_at(u.by_infohash, i).contains(x)]
        set_at(u.by_infohash, i).contains(x) <==> set_at(u.refs, x).contains(i) by {
        assert(set_at(t.by_infohash, i).contains(x) <==> set_at(t.refs, x).contains(i));
        if x == a && i != ih && set_at(t.refs, a).contains(i) {
            assert(set_at(t.refs, a).remove(ih).contains(i));
        }
    }
    assert forall|x: PeerAddr| #[trigger] u.refs.contains_key(x) implies u.refs[x] != Set::<
        Infohash,
    >::empty() && u.global.contains_key(x) by {
        assert(t.refs.contains_key(x));
    }
    assert forall|x: PeerAddr| #[trigger] u.global.contains_key(x) implies u.global[x].addr == x by {
        assert(t.global.contains_key(x));
    }
}

/// A peer that was linked with a torrent and parted from it again is linked as before; the
/// links of other pairs do not change.
pub proof fn parting_undoes_joining(t: PeerTable, ih: Infohash, a: PeerAddr, i: Infohash, x: PeerAddr)
    requires
        t.wf(),
        t.global.contains_key(a),
        !t.linked(ih, a),
    ensures
        t.joined(ih, a).linked(ih, a),
        !t.joined(ih, a).parted(ih, a).linked(ih, a),
        (i, x) != (ih, a) ==> t.joined(ih, a).linked(i, x) == t.linked(i, x),
        (i, x) != (ih, a) ==> t.joined(ih, a).parted(ih, a).linked(i, x) == t.linked(i, x),
{
    let u = t.joined(ih, a);
    assert(set_at(t.by_infohash, ih).contains(a) <==> set_at(t.refs, a).contains(ih));
}

/// Whoever asks by torrent and whoever asks by address gets the same answer, and what is
/// linked is known.
pub proof fn links_agree(t: PeerTable, ih: Infohash, a: PeerAddr)
    requires
        t.wf(),
    ensures
        t.linked(ih, a) <==> set_at(t.refs, a).contains(ih),
        t.linked(ih, a) ==> t.global.contains_key(a),
{
    assert(set_at(t.by_infohash, ih).contains(a) <==> set_at(t.refs, a).contains(ih));
    if t.linked(ih, a) {
        assert(t.refs.contains_key(a));
    }
}

/// A peer that was heard of with a torrent is listed for it, active at the time that was
/// told.
pub proof fn noted_is_listed(t: PeerTable, ih: Infohash, p: PeerInfo)
    requires
        t.wf(),
    ensures
        t.noted_all(seq![(ih, p)]).peers_of(ih).contains_key(p.addr),
        t.noted_all(seq![(ih, p)]).peers_of(ih)[p.addr].last_active == p.last_active,
        t.noted_all(seq![(ih, p)]).peers_of(ih)[p.addr].source == p.source,
{
    let items = seq![(ih, p)];
    assert(items.drop_last() =~= Seq::empty());
    reveal_with_fuel(PeerTable::noted_all, 2);
    assert(t.noted_all(items) == t.noted(p).joined(ih, p.addr));
}

impl PeerRepoImpl {
    fn change(&mut self, a: PeerAddr, p: PeerInfo)
        requires
            old(self).wf(),
            p.addr == a,
        ensures
            final(self).wf(),
            final(self)@ == old(self)@.changed(a, p),
    {
        let ghost t = self@;
        let _ = self.global.insert(a, p);
        proof {
            let u = self@;
            assert forall|x: PeerAddr| #[trigger] u.refs.contains_key(x) implies u.refs[x]
                != Set::<Infohash>::empty() && u.global.contains_key(x) by {
                assert(t.refs.contains_key(x));
            }
            assert forall|x: PeerAddr| #[trigger] u.global.contains_key(x) implies u.global[x].addr
                == x by {
                if x != a {
                    assert(t.global.contains_key(x));
                }
            }
            assert forall|i: Infohash, x: PeerAddr|
                #![trigger set_at(u.by_infohash, i).contains(x)]
                set_at(u.by_infohash, i).contains(x) <==> set_at(u.refs, x).contains(i) by {
                assert(set_at(t.by_infohash, i).contains(x) <==> set_at(t.refs, x).contains(i));
            }
        }
    }

    /// What is known of a peer.
    pub fn get_peer_global(&self, addr: &PeerAddr) -> (r: Option<PeerInfo>)
        requires
            self.wf(),
        ensures
            r == if self@.global.contains_key(*addr) {
                Some(self@.global[*addr])
            } else {
                None
            },
    {
        match self.global.get(addr) {
            Some(p) => Some(*p),
            None => None,
        }
    }

    /// Takes note of peers of a torrent: who is new, and the history where it is long enough
    /// to be saved.
    pub fn add_peers_sync(&mut self, infohash: &Infohash, new_peers: &[PeerInfo], now: i64) -> (r: (
        Vec<NewPeer>,
        Option<Vec<PeerHistoryEntry>>,
    ))
        requires
            old(self).wf(),
        ensures
            final(self).wf(),
            r.0@ == old(self)@.newcomers(peers_with(*infohash, new_peers@)),
            r.1 is Some <==> history_full(old(self)@, peers_with(*infohash, new_peers@), now),
            r.1 matches Some(b) ==> b@ == old(self)@.history + history_of(
                peers_with(*infohash, new_peers@),
                now,
            ),
            final(self)@ == taken_note(old(self)@, peers_with(*infohash, new_peers@), now),
    {
        let mut items: Vec<(Infohash, PeerInfo)> = Vec::new();
        let mut i: usize = 0;
        while i < new_peers.len()
            invariant
                0 <= i <= new_peers@.len(),
                items@.len() == i,
                forall|k: int|
                    0 <= k < i ==> #[trigger] items@[k] == (*infohash, new_peers@[k]),
            decreases new_peers@.len() - i,
        {
            items.push((*infohash, new_peers[i]));
            i = i + 1;
        }
        proof {
            assert(items@ =~= peers_with(*infohash, new_peers@));
        }
        self.add_peers_sync_internal(items.as_slice(), now)
    }

    /// Takes note of peers of several torrents: how many, who is new, and the history where
    /// it is long enough to be saved.
    pub fn add_peers_sync_batch(&mut self, items: &[(Infohash, PeerInfo)], now: i64) -> (r: (
        usize,
        Vec<NewPeer>,
        Option<Vec<PeerHistoryEntry>>,
    ))
        requires
            old(self).wf(),
        ensures
            final(self).wf(),
            r.0 == items@.len(),
            r.1@ == old(self)@.newcomers(items@),
            r.2 is Some <==> history_full(old(self)@, items@, now),
            r.2 matches Some(b) ==> b@ == old(self)@.history + history_of(items@, now),
            final(self)@ == taken_note(old(self)@, items@, now),
    {
        let (fresh, history) = self.add_peers_sync_internal(items, now);
        (items.len(), fresh, history)
    }

    /// Takes note of peers without torrents.
    pub fn add_peers_only_internal(&mut self, peers: &[PeerInfo])
        requires
            old(self).wf(),
        ensures
            final(self).wf(),
            final(self)@ == noted_only(old(self)@, peers@),
    {
        let ghost t = self@;
        let mut i: usize = 0;
        proof {
            assert(peers@.take(0) =~= Seq::empty());
        }
        while i < peers.len()
            invariant
                self.wf(),
                0 <= i <= peers@.len(),
                self@ == noted_only(t, peers@.take(i as int)),
            decreases peers@.len() - i,
        {
            proof {
                assert(peers@.take(i + 1).drop_last() =~= peers@.take(i as int));
            }
            self.note(&peers[i]);
            i = i + 1;
        }
        proof {
            assert(peers@.take(i as int) =~= peers@);
        }
    }

    /// Whether a peer is known to have a torrent.
    pub fn has_peer_assoc(&self, infohash: &Infohash, addr: &PeerAddr) -> (r: bool)
        requires
            self.wf(),
        ensures
            r == self@.linked(*infohash, *addr),
    {
        match self.by_infohash.get(infohash) {
            Some(set) => {
                proof {
                    assert(self.by_infohash@.contains_key(*infohash));
                }
                set.contains(addr)
            },
            None => false,
        }
    }

    /// The `limit` peers of a torrent with the highest scores, highest first.
    pub fn get_peers_sync(&self, infohash: &Infohash, limit: usize) -> (r: Vec<PeerInfo>)
        requires
            self.wf(),
        ensures
            picks(self@.peers_of(*infohash), addr_of(), r@, limit as nat, scores_higher()),
    {
        let ghost m = self@.peers_of(*infohash);
        let mut found: Vec<PeerInfo> = Vec::new();
        match self.by_infohash.get(infohash) {
            Some(set) => {
                proof {
                    assert(self.by_infohash@.contains_key(*infohash));
                }
                let addrs = set.elements();
                let mut i: usize = 0;
                proof {
                    assert(models(addrs@) =~= addrs@);
                    assert(set@ == set_at(self@.by_infohash, *infohash));
                }
                while i < addrs.len()
                    invariant
                        self.wf(),
                        m == self@.peers_of(*infohash),
                        set@ == set_at(self@.by_infohash, *infohash),
                        lists(addrs@, set@),
                        0 <= i <= addrs@.len(),
                        found@.len() == i,
                        forall|k: int|
                            0 <= k < i ==> (#[trigger] found@[k]).addr == addrs@[k]
                                && self@.global.contains_key(addrs@[k])
                                && self@.global[addrs@[k]] == found@[k],
                    decreases addrs@.len() - i,
                {
                    proof {
                        assert(addrs@.contains(addrs@[i as int]));
                        links_agree(self@, *infohash, addrs@[i as int]);
                    }
                    match self.global.get(&addrs[i]) {
                        Some(p) => {
                            found.push(*p);
                        },
                        None => {},
                    }
                    i = i + 1;
                }
                proof {
                    assert(found@.map_values(addr_of()) =~= addrs@);
                    assert forall|x: PeerAddr| #[trigger] addrs@.contains(x) <==> m.dom().contains(
                        x,
                    ) by {
                        if addrs@.contains(x) {
                            links_agree(self@, *infohash, x);
                        }
                    }
                    assert forall|k: int| 0 <= k < found@.len() implies m[(addr_of())(
                        #[trigger] found@[k],
                    )] == found@[k] by {
                        assert(found@[k].addr == addrs@[k]);
                        assert(addrs@.contains(addrs@[k]));
                        assert(m.dom().contains(addrs@[k]));
                    }
                    assert(lists_values(m, addr_of(), found@));
                }
            },
            None => {
                proof {
                    assert(m.dom() =~= Set::empty());
                    assert(found@.map_values(addr_of()) =~= Seq::empty());
                    assert(lists_values(m, addr_of(), found@));
                }
            },
        }
        let mut keys: Vec<SortKey> = Vec::new();
        let mut i: usize = 0;
        while i < found.len()
            invariant
                0 <= i <= found@.len(),
                keys@.len() == i,
                forall|k: int|
                    0 <= k < i ==> #[trigger] keys@[k] == (
                        0u64,
                        (i64::MAX - found@[k].priority_score) as u128,
                        0u64,
                    ),
            decreases found@.len() - i,
        {
            keys.push((0, (i64::MAX as i128 - found[i].priority_score as i128) as u128, 0));
            i = i + 1;
        }
        let (picked, Ghost(order)) = pick(&found, &keys, limit);
        proof {
            assert(found@.len() == found.len());
            assert forall|a: int, b: int|
                0 <= a < found@.len() && 0 <= b < found@.len() implies ((scores_higher())(
                #[trigger] found@[a],
                #[trigger] found@[b],
            ) <==> key_lt(keys@[a], keys@[b])) by {
                assert(keys@[a].1 == i64::MAX - found@[a].priority_score);
                assert(keys@[b].1 == i64::MAX - found@[b].priority_score);
            }
            lemma_picked(
                m,
                addr_of(),
                found@,
                keys@,
                order,
                limit as nat,
                picked@,
                scores_higher(),
            );
        }
        picked
    }

    /// Takes note that a peer could be connected to.
    pub fn mark_connection_success_sync(&mut self, addr: &PeerAddr, now: u64)
        requires
            old(self).wf(),
        ensures
            final(self).wf(),
            final(self)@ == probed(old(self)@, *addr, true, now),
    {
        self.update_probe_stats(addr, true, now);
    }

    /// Peers are kept for good: none is taken out, however old.
    pub fn cleanup_expired_sync(&mut self)
        requires
            old(self).wf(),
        ensures
            final(self).wf(),
            final(self)@ == old(self)@,
    {
    }

    /// Takes note that a peer could not be connected to.
    pub fn mark_connection_failure_sync(&mut self, addr: &PeerAddr)
        requires
            old(self).wf(),
        ensures
            final(self).wf(),
            final(self)@ == probed(old(self)@, *addr, false, 0),
    {
        self.update_probe_stats(addr, false, 0);
    }

    /// Takes note whether a peer could be connected to.
    pub fn update_probe_stats(&mut self, addr: &PeerAddr, tcp_ok: bool, now: u64)
        requires
            old(self).wf(),
        ensures
            final(self).wf(),
            final(self)@ == probed(old(self)@, *addr, tcp_ok, now),
    {
        match self.get_peer_global(addr) {
            Some(p) => {
                let mut p = p;
                p.connection_attempts = p.connection_attempts.wrapping_add(1);
                if tcp_ok {
                    p.connection_successes = p.connection_successes.wrapping_add(1);
                    p.last_active = now;
                }
                self.change(*addr, p);
            },
            None => {},
        }
    }

    /// Parts a peer from a torrent; a peer without torrents is forgotten.
    pub fn remove_peer(&mut self, infohash: &Infohash, addr: &PeerAddr)
        requires
            old(self).wf(),
        ensures
            final(self).wf(),
            final(self)@ == old(self)@.parted(*infohash, *addr),
    {
        let ghost t = self@;
        let ghost by = self.by_infohash@;
        match self.by_infohash.remove(infohash) {
            Some(set) => {
                proof {
                    assert(by.contains_key(*infohash));
                }
                let mut set = set;
                let _ = set.remove(addr);
                let _ = self.by_infohash.insert(*infohash, set);
                proof {
                    assert forall|k: Infohash| #[trigger] self.by_infohash@.contains_key(
                        k,
                    ) implies self.by_infohash@[k].wf() by {
                        if k != *infohash {
                            assert(by.contains_key(k));
                        }
                    }
                    assert(set_views(self.by_infohash@) =~= t.by_infohash.insert(
                        *infohash,
                        t.by_infohash[*infohash].remove(*addr),
                    ));
                }
            },
            None => {
                proof {
                    assert(self.by_infohash@ =~= by);
                }
            },
        }
        let ghost refs = self.infohash_refs@;
        match self.infohash_refs.remove(addr) {
            Some(set) => {
                proof {
                    assert(refs.contains_key(*addr));
                    assert(t.refs.contains_key(*addr));
                }
                let mut set = set;
                let _ = set.remove(infohash);
                if set.is_empty() {
                    let _ = self.global.remove(addr);
                    proof {
                        assert forall|k: PeerAddr| #[trigger] self.infohash_refs@.contains_key(
                            k,
                        ) implies self.infohash_refs@[k].wf() by {
                            assert(refs.contains_key(k));
                        }
                        assert(set_views(self.infohash_refs@) =~= t.refs.remove(*addr));
                        assert(self@ =~= t.parted(*infohash, *addr));
                    }
                } else {
                    let ghost rest = set@;
                    let _ = self.infohash_refs.insert(*addr, set);
                    proof {
                        assert forall|k: PeerAddr| #[trigger] self.infohash_refs@.contains_key(
                            k,
                        ) implies self.infohash_refs@[k].wf() by {
                            if k != *addr {
                                assert(refs.contains_key(k));
                            }
                        }
                        assert(set_views(self.infohash_refs@) =~= t.refs.insert(*addr, rest));
                        assert(self@ =~= t.parted(*infohash, *addr));
                    }
                }
            },
            None => {
                proof {
                    assert(self.infohash_refs@ =~= refs);
                    assert(!t.refs.contains_key(*addr));
                    assert(self@ =~= t.parted(*infohash, *addr));
                }
            },
        }
        proof {
            lemma_parted_wf(t, *infohash, *addr);
        }
    }
}

/// The table after several peers were heard of without torrents, one after the other.
pub open spec fn noted_only(t: PeerTable, peers: Seq<PeerInfo>) -> PeerTable
    decreases peers.len(),
{
    if peers.len() == 0 {
        t
    } else {
        noted_only(t, peers.drop_last()).noted(peers.last())
    }
}

/// The table after a peer that is known was tried.
pub open spec fn probed(t: PeerTable, a: PeerAddr, tcp_ok: bool, now: u64) -> PeerTable {
    if t.global.contains_key(a) {
        let p = t.global[a];
        t.changed(
            a,
            PeerInfo {
                connection_attempts: p.connection_attempts.wrapping_add(1),
                connection_successes: if tcp_ok {
                    p.connection_successes.wrapping_add(1)
                } else {
                    p.connection_successes
                },
                last_active: if tcp_ok {
                    now
                } else {
                    p.last_active
                },
                ..p
            },
        )
    } else {
        t
    }
}

/// The torrents and peers that are linked.
pub open spec fn links(t: PeerTable) -> Set<(Infohash, PeerAddr)> {
    Set::new(|l: (Infohash, PeerAddr)| t.linked(l.0, l.1))
}

/// Torrent and peer of a row.
pub open spec fn link_of() -> spec_fn(PeerRow) -> (Infohash, PeerAddr) {
    |r: PeerRow| (r.infohash, r.addr)
}

/// What is known of a peer that is read from the history.
pub open spec fn past_peer(e: PeerHistoryEntry, now: u64) -> PeerInfo {
    PeerInfo { priority_score: e.score, ..fresh_peer(e.addr, e.source, now) }
}

/// What a peer was saved as is read back.
pub proof fn saved_peer_is_read_back(ih: Infohash, p: PeerInfo, now: u64)
    requires
        0 < p.last_active <= i64::MAX,
    ensures
        ({
            let q = peer_of(row_of(ih, p), now);
            &&& q.addr == p.addr && q.source == p.source && q.priority_score == p.priority_score
            &&& q.connection_attempts == p.connection_attempts
            &&& q.connection_successes == p.connection_successes
            &&& q.last_active == p.last_active
        }),
{
}

impl PeerRepoImpl {
    /// Takes in saved peers. Returns how many rows there were.
    pub fn load_all(&mut self, rows: &[PeerRow], now: u64) -> (r: usize)
        requires
            old(self).wf(),
        ensures
            final(self).wf(),
            final(self)@ == old(self)@.loaded_all(rows@, now),
            r == rows@.len(),
    {
        let ghost t = self@;
        let mut i: usize = 0;
        proof {
            assert(rows@.take(0) =~= Seq::empty());
        }
        while i < rows.len()
            invariant
                self.wf(),
                0 <= i <= rows@.len(),
                self@ == t.loaded_all(rows@.take(i as int), now),
            decreases rows@.len() - i,
        {
            proof {
                assert(rows@.take(i + 1).drop_last() =~= rows@.take(i as int));
            }
            let row = rows[i];
            let mut peer = PeerInfo::new(row.addr, row.source, now);
            peer.priority_score = row.score;
            peer.connection_attempts = row.connection_attempts;
            peer.connection_successes = row.connection_successes;
            if row.last_active > 0 {
                peer.last_active = row.last_active as u64;
            }
            self.change(row.addr, peer);
            let _ = self.join(row.infohash, row.addr);
            i = i + 1;
        }
        proof {
            assert(rows@.take(i as int) =~= rows@);
        }
        rows.len()
    }

    /// Takes in saved peers where none is known.
    pub fn ensure_loaded(&mut self, rows: &[PeerRow], now: u64)
        requires
            old(self).wf(),
        ensures
            final(self).wf(),
            final(self)@ == if old(self)@.global == Map::<PeerAddr, PeerInfo>::empty() {
                old(self)@.loaded_all(rows@, now)
            } else {
                old(self)@
            },
    {
        if self.global.is_empty() {
            let _ = self.load_all(rows, now);
        }
    }

    /// How many peers are known.
    pub fn len(&self) -> (r: usize)
        requires
            self.wf(),
        ensures
            r == self@.global.len(),
    {
        self.global.len()
    }

    /// Whether no peer is known.
    pub fn is_empty(&self) -> (r: bool)
        requires
            self.wf(),
        ensures
            r == (self@.global == Map::<PeerAddr, PeerInfo>::empty()),
    {
        self.global.is_empty()
    }

    /// All peers count as hot: how many there are, and no others.
    pub fn cache_stats(&self) -> (r: (usize, usize, u64))
        requires
            self.wf(),
        ensures
            r == (self@.global.len() as usize, 0usize, 0u64),
    {
        (self.len(), 0, 0)
    }

    /// How many torrents and how many peers are known.
    pub fn stats(&self) -> (r: (usize, usize))
        requires
            self.wf(),
        ensures
            r.0 == self@.by_infohash.len(),
            r.1 == self@.global.len(),
    {
        (self.infohash_count(), self.global.len())
    }

    /// How many torrents are listed.
    pub fn infohash_count(&self) -> (r: usize)
        requires
            self.wf(),
        ensures
            r == self@.by_infohash.len(),
    {
        proof {
            assert(self.by_infohash@.dom() =~= self@.by_infohash.dom());
        }
        self.by_infohash.len()
    }

    /// How many peers a torrent has.
    pub fn len_for_infohash(&self, infohash: &Infohash) -> (r: usize)
        requires
            self.wf(),
        ensures
            r == set_at(self@.by_infohash, *infohash).len(),
    {
        match self.by_infohash.get(infohash) {
            Some(set) => {
                proof {
                    assert(self.by_infohash@.contains_key(*infohash));
                }
                set.len()
            },
            None => 0,
        }
    }

    /// How many peers a torrent has.
    pub fn peer_count_for_infohash(&self, infohash: &Infohash) -> (r: usize)
        requires
            self.wf(),
        ensures
            r == set_at(self@.by_infohash, *infohash).len(),
    {
        self.len_for_infohash(infohash)
    }

    /// The lower 32 bits of the number of torrents that a peer has.
    pub fn get_peer_infohash_count(&self, addr: &PeerAddr) -> (r: u32)
        requires
            self.wf(),
        ensures
            r == (set_at(self@.refs, *addr).len() as usize) as u32,
            set_at(self@.refs, *addr).len() <= u32::MAX ==> r == set_at(self@.refs, *addr).len(),
    {
        match self.infohash_refs.get(addr) {
            Some(set) => {
                proof {
                    assert(self.infohash_refs@.contains_key(*addr));
                }
                #[verifier::truncate]
                (set.len() as u32)
            },
            None => 0,
        }
    }

    /// The torrents that are listed, in an order that is left open.
    pub fn infohashes(&self) -> (r: Vec<Infohash>)
        requires
            self.wf(),
        ensures
            lists(r@, self@.by_infohash.dom()),
    {
        let r = self.by_infohash.keys();
        proof {
            assert(models(r@) =~= r@);
            assert(self.by_infohash@.dom() =~= self@.by_infohash.dom());
        }
        r
    }

    /// Forgets every peer and link. Marks and history stay.
    pub fn clear(&mut self)
        requires
            old(self).wf(),
        ensures
            final(self).wf(),
            final(self)@ == (PeerTable {
                by_infohash: Map::empty(),
                global: Map::empty(),
                refs: Map::empty(),
                ..old(self)@
            }),
    {
        self.by_infohash.clear();
        self.global.clear();
        self.infohash_refs.clear();
        proof {
            assert(set_views(self.by_infohash@) =~= Map::empty());
            assert(set_views(self.infohash_refs@) =~= Map::empty());
        }
    }

    /// Every peer, in an order that is left open.
    pub fn all_peers_sync(&self) -> (r: Vec<PeerInfo>)
        requires
            self.wf(),
        ensures
            lists_values(self@.global, addr_of(), r@),
    {
        let keys = self.global.keys();
        let mut out: Vec<PeerInfo> = Vec::new();
        let mut i: usize = 0;
        proof {
            assert(models(keys@) =~= keys@);
        }
        while i < keys.len()
            invariant
                self.wf(),
                0 <= i <= keys@.len(),
                lists(keys@, self@.global.dom()),
                out@.len() == i,
                forall|k: int|
                    0 <= k < i ==> (#[trigger] out@[k]).addr == keys@[k] && self@.global[keys@[k]]
                        == out@[k],
            decreases keys@.len() - i,
        {
            proof {
                assert(keys@.contains(keys@[i as int]));
                assert(self@.global.contains_key(keys@[i as int]));
            }
            match self.global.get(&keys[i]) {
                Some(p) => {
                    out.push(*p);
                },
                None => {},
            }
            i = i + 1;
        }
        proof {
            assert(out@.map_values(addr_of()) =~= keys@);
        }
        out
    }

    /// The torrents of a peer, in an order that is left open.
    fn infohashes_of(&self, addr: &PeerAddr) -> (r: Vec<Infohash>)
        requires
            self.wf(),
        ensures
            lists(r@, set_at(self@.refs, *addr)),
    {
        match self.infohash_refs.get(addr) {
            Some(set) => {
                proof {
                    assert(self.infohash_refs@.contains_key(*addr));
                }
                let r = set.elements();
                proof {
                    assert(models(r@) =~= r@);
                }
                r
            },
            None => Vec::new(),
        }
    }

    /// Every peer with its torrents, in orders that are left open.
    pub fn all_peers_with_infohashes_sync(&self) -> (r: Vec<(PeerInfo, Vec<Infohash>)>)
        requires
            self.wf(),
        ensures
            lists_values(
                self@.global,
                addr_of(),
                r@.map_values(|e: (PeerInfo, Vec<Infohash>)| e.0),
            ),
            forall|i: int|
                0 <= i < r@.len() ==> lists(
                    (#[trigger] r@[i]).1@,
                    set_at(self@.refs, r@[i].0.addr),
                ),
    {
        let peers = self.all_peers_sync();
        let mut out: Vec<(PeerInfo, Vec<Infohash>)> = Vec::new();
        let mut i: usize = 0;
        while i < peers.len()
            invariant
                self.wf(),
                0 <= i <= peers@.len(),
                out@.len() == i,
                forall|k: int|
                    0 <= k < i ==> (#[trigger] out@[k]).0 == peers@[k] && lists(
                        out@[k].1@,
                        set_at(self@.refs, peers@[k].addr),
                    ),
            decreases peers@.len() - i,
        {
            let list = self.infohashes_of(&peers[i].addr);
            out.push((peers[i], list));
            i = i + 1;
        }
        proof {
            assert(out@.map_values(|e: (PeerInfo, Vec<Infohash>)| e.0) =~= peers@);
        }
        out
    }

    fn rows_for(&self, infohash: &Infohash) -> (r: Vec<PeerRow>)
        requires
            self.wf(),
        ensures
            lists(
                r@.map_values(|x: PeerRow| x.addr),
                set_at(self@.by_infohash, *infohash),
            ),
            forall|i: int|
                0 <= i < r@.len() ==> self@.global.contains_key((#[trigger] r@[i]).addr) && r@[i]
                    == row_of(*infohash, self@.global[r@[i].addr]),
    {
        let mut out: Vec<PeerRow> = Vec::new();
        match self.by_infohash.get(infohash) {
            Some(set) => {
                proof {
                    assert(self.by_infohash@.contains_key(*infohash));
                }
                let addrs = set.elements();
                let mut i: usize = 0;
                proof {
                    assert(models(addrs@) =~= addrs@);
                }
                while i < addrs.len()
                    invariant
                        self.wf(),
                        set@ == set_at(self@.by_infohash, *infohash),
                        lists(addrs@, set@),
                        0 <= i <= addrs@.len(),
                        out@.len() == i,
                        forall|k: int|
                            0 <= k < i ==> (#[trigger] out@[k]).addr == addrs@[k]
                                && self@.global.contains_key(addrs@[k]) && out@[k] == row_of(
                                *infohash,
                                self@.global[addrs@[k]],
                            ),
                    decreases addrs@.len() - i,
                {
                    proof {
                        assert(addrs@.contains(addrs@[i as int]));
                        links_agree(self@, *infohash, addrs@[i as int]);
                    }
                    match self.global.get(&addrs[i]) {
                        Some(p) => {
                            out.push(
                                PeerRow {
                                    infohash: *infohash,
                                    addr: p.addr,
                                    source: p.source,
                                    score: p.priority_score,
                                    connection_attempts: p.connection_attempts,
                                    connection_successes: p.connection_successes,
                                    last_active: #[verifier::truncate]
                                    (p.last_active as i64),
                                },
                            );
                        },
                        None => {},
                    }
                    i = i + 1;
                }
                proof {
                    assert(out@.map_values(|x: PeerRow| x.addr) =~= addrs@);
                }
            },
            None => {
                proof {
                    assert(out@.map_values(|x: PeerRow| x.addr) =~= Seq::empty());
                }
            },
        }
        out
    }

    /// A row for every link, in an order that is left open.
    pub fn all_rows(&self) -> (r: Vec<PeerRow>)
        requires
            self.wf(),
        ensures
            lists(r@.map_values(link_of()), links(self@)),
            forall|i: int|
                0 <= i < r@.len() ==> (#[trigger] r@[i]) == row_of(
                    r@[i].infohash,
                    self@.global[r@[i].addr],
                ),
    {
        let keys = self.infohashes();
        let ghost t = self@;
        let mut out: Vec<PeerRow> = Vec::new();
        let mut i: usize = 0;
        proof {
            assert(out@.map_values(link_of()) =~= Seq::empty());
        }
        while i < keys.len()
            invariant
                self.wf(),
                t == self@,
                lists(keys@, t.by_infohash.dom()),
                0 <= i <= keys@.len(),
                lists(
                    out@.map_values(link_of()),
                    links(t).filter(
                        |l: (Infohash, PeerAddr)| keys@.take(i as int).contains(l.0),
                    ),
                ),
                forall|k: int|
                    0 <= k < out@.len() ==> (#[trigger] out@[k]) == row_of(
                        out@[k].infohash,
                        t.global[out@[k].addr],
                    ),
            decreases keys@.len() - i,
        {
            let ih = keys[i];
            let mut part = self.rows_for(&ih);
            let ghost a = out@;
            let ghost b = part@;
            out.append(&mut part);
            proof {
                let la = a.map_values(link_of());
                let lb = b.map_values(link_of());
                let sa = links(t).filter(
                    |l: (Infohash, PeerAddr)| keys@.take(i as int).contains(l.0),
                );
                let sb = links(t).filter(|l: (Infohash, PeerAddr)| l.0 == ih);
                let addrs = b.map_values(|x: PeerRow| x.addr);
                assert forall|x: int, y: int|
                    0 <= x < lb.len() && 0 <= y < lb.len() && x != y implies lb[x] != lb[y] by {
                    assert(addrs[x] != addrs[y]);
                }
                assert forall|l: (Infohash, PeerAddr)| #[trigger] lb.contains(l) <==> sb.contains(
                    l,
                ) by {
                    if lb.contains(l) {
                        let x = choose|x: int| 0 <= x < lb.len() && lb[x] == l;
                        assert(b[x] == row_of(ih, t.global[b[x].addr]));
                        assert(addrs[x] == l.1);
                        assert(addrs.contains(l.1));
                    }
                    if sb.contains(l) {
                        assert(addrs.contains(l.1));
                        let x = choose|x: int| 0 <= x < addrs.len() && addrs[x] == l.1;
                        assert(b[x] == row_of(ih, t.global[b[x].addr]));
                        assert(lb[x] == l);
                    }
                }
                assert(sa.disjoint(sb)) by {
                    assert forall|l: (Infohash, PeerAddr)| !(sa.contains(l) && sb.contains(l)) by {
                        if sa.contains(l) && sb.contains(l) {
                            let k = keys@.take(i as int);
                            let x = choose|x: int| 0 <= x < k.len() && k[x] == ih;
                            assert(keys@[x] == keys@[i as int]);
                        }
                    }
                }
                lemma_lists_join(la, lb, sa, sb);
                assert(out@.map_values(link_of()) =~= la + lb);
                assert(keys@.take(i + 1) =~= keys@.take(i as int).push(ih));
                let sc = links(t).filter(
                    |l: (Infohash, PeerAddr)| keys@.take(i + 1).contains(l.0),
                );
                assert(sa.union(sb) =~= sc) by {
                    assert forall|l: (Infohash, PeerAddr)| sa.union(sb).contains(l)
                        <==> sc.contains(l) by {
                        lemma_push_member(keys@.take(i as int), ih, l.0);
                        assert(keys@.take(i + 1).contains(l.0) <==> keys@.take(
                            i + 1,
                        ).to_set().contains(l.0));
                        assert(keys@.take(i as int).contains(l.0) <==> keys@.take(
                            i as int,
                        ).to_set().contains(l.0));
                    }
                }
            }
            i = i + 1;
        }
        proof {
            assert(keys@.take(i as int) =~= keys@);
            let sc = links(t).filter(|l: (Infohash, PeerAddr)| keys@.take(i as int).contains(l.0));
            assert(sc =~= links(t)) by {
                assert forall|l: (Infohash, PeerAddr)| links(t).contains(l) implies sc.contains(
                    l,
                ) by {
                    assert(t.by_infohash.dom().contains(l.0));
                    assert(keys@.contains(l.0));
                }
            }
        }
        out
    }

    /// Sets the score of a peer that is known.
    pub fn update_score(&mut self, addr: &PeerAddr, score: i64)
        requires
            old(self).wf(),
        ensures
            final(self).wf(),
            final(self)@ == if old(self)@.global.contains_key(*addr) {
                old(self)@.changed(
                    *addr,
                    PeerInfo { priority_score: score, ..old(self)@.global[*addr] },
                )
            } else {
                old(self)@
            },
    {
        match self.get_peer_global(addr) {
            Some(p) => {
                self.change(*addr, PeerInfo { priority_score: score, ..p });
            },
            None => {},
        }
    }

    /// Sets scores of peers that are known, and marks these as changed.
    pub fn update_scores_batch(&mut self, scores: &[(PeerAddr, i64)])
        requires
            old(self).wf(),
        ensures
            final(self).wf(),
            final(self)@ == old(self)@.scored_all(scores@),
    {
        let ghost t = self@;
        let mut i: usize = 0;
        proof {
            assert(scores@.take(0) =~= Seq::empty());
        }
        while i < scores.len()
            invariant
                self.wf(),
                0 <= i <= scores@.len(),
                self@ == t.scored_all(scores@.take(i as int)),
            decreases scores@.len() - i,
        {
            proof {
                assert(scores@.take(i + 1).drop_last() =~= scores@.take(i as int));
            }
            let (addr, score) = scores[i];
            match self.get_peer_global(&addr) {
                Some(p) => {
                    self.change(addr, PeerInfo { priority_score: score, ..p });
                    self.mark_dirty_sync(&addr);
                },
                None => {},
            }
            i = i + 1;
        }
        proof {
            assert(scores@.take(i as int) =~= scores@);
        }
    }

    /// Marks an address as changed.
    pub fn mark_dirty_sync(&mut self, addr: &PeerAddr)
        requires
            old(self).wf(),
        ensures
            final(self).wf(),
            final(self)@ == (PeerTable { dirty: old(self)@.dirty.insert(*addr), ..old(self)@ }),
    {
        let ghost t = self@;
        let _ = self.dirty.insert(*addr);
        proof {
            lemma_history_wf(self@, t);
        }
    }

    /// The addresses that are marked as changed, in an order that is left open.
    pub fn dirty_peers_sync(&self) -> (r: Vec<PeerAddr>)
        requires
            self.wf(),
        ensures
            lists(r@, self@.dirty),
    {
        let r = self.dirty.elements();
        proof {
            assert(models(r@) =~= r@);
        }
        r
    }

    /// Takes all marks off.
    pub fn clear_all_dirty_sync(&mut self)
        requires
            old(self).wf(),
        ensures
            final(self).wf(),
            final(self)@ == (PeerTable { dirty: Set::empty(), ..old(self)@ }),
    {
        let ghost t = self@;
        self.dirty.clear();
        proof {
            lemma_history_wf(self@, t);
        }
    }

    /// Records that a peer was seen with a torrent. Once enough records have gathered, they
    /// are handed over to be written.
    pub fn save_history(&mut self, infohash: Infohash, peer: &PeerInfo, now: i64) -> (r: Option<
        Vec<PeerHistoryEntry>,
    >)
        requires
            old(self).wf(),
        ensures
            final(self).wf(),
            ({
                let history = old(self)@.history + history_of(seq![(infohash, *peer)], now);
                &&& r is Some <==> history.len() >= HISTORY_BATCH
                &&& r matches Some(b) ==> b@ == history
                &&& final(self)@ == (PeerTable {
                    history: if history.len() >= HISTORY_BATCH {
                        Seq::empty()
                    } else {
                        history
                    },
                    ..old(self)@
                })
            }),
    {
        let ghost t = self@;
        self.history_buffer.push(
            PeerHistoryEntry {
                infohash,
                addr: peer.addr,
                source: peer.source,
                score: peer.priority_score,
                discovered_at: now,
            },
        );
        proof {
            assert(self.history_buffer@ =~= t.history + history_of(seq![(infohash, *peer)], now));
            lemma_history_wf(self@, t);
        }
        if self.history_buffer.len() >= HISTORY_BATCH {
            Some(self.flush_history())
        } else {
            None
        }
    }

    /// Hands the records of the history over to be written.
    pub fn flush_history(&mut self) -> (r: Vec<PeerHistoryEntry>)
        requires
            old(self).wf(),
        ensures
            final(self).wf(),
            r@ == old(self)@.history,
            final(self)@ == (PeerTable { history: Seq::empty(), ..old(self)@ }),
    {
        let ghost t = self@;
        let mut batch: Vec<PeerHistoryEntry> = Vec::new();
        std::mem::swap(&mut batch, &mut self.history_buffer);
        proof {
            lemma_history_wf(self@, t);
        }
        batch
    }
}

/// The peers that records of the history tell of.
pub fn query_history(records: &[PeerHistoryEntry], now: u64) -> (r: Vec<PeerInfo>)
    ensures
        r@ == Seq::new(records@.len(), |i: int| past_peer(records@[i], now)),
{
    let mut out: Vec<PeerInfo> = Vec::new();
    let mut i: usize = 0;
    while i < records.len()
        invariant
            0 <= i <= records@.len(),
            out@.len() == i,
            forall|k: int| 0 <= k < i ==> #[trigger] out@[k] == past_peer(records@[k], now),
        decreases records@.len() - i,
    {
        let mut p = PeerInfo::new(records[i].addr, records[i].source, now);
        p.priority_score = records[i].score;
        out.push(p);
        i = i + 1;
    }
    assert(out@ =~= Seq::new(records@.len(), |i: int| past_peer(records@[i], now)));
    out
}

} // verus!
