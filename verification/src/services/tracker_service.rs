//! The tracker that the node itself is.

use vstd::prelude::*;

use crate::ranking::{lemma_filter_step, picks};
use crate::storage::fx_map::FxMap;
use crate::storage::infohash_repo::InfohashRepoImpl;
use crate::storage::peer_repo::{
    addr_of, history_full, history_of, peers_with, scores_higher, taken_note,
    NewPeer, PeerHistoryEntry, PeerRepoImpl, PeerTable,
};
use crate::storage::recency::lemma_filter_keeps;
use crate::services::scrape_service::ScrapeEntry;
use crate::types::{fresh_peer, Infohash, PeerAddr, PeerInfo, PeerSource};

verus! {

/// How many peers an announce is answered with.
pub const ANNOUNCE_LIMIT: usize = 50;

/// Up to how many peers a scrape counts.
pub const SCRAPE_LIMIT: usize = 1000;

/// Who announces which torrent.
#[derive(Clone, Copy, Debug)]
pub struct TrackerAnnounceRequest {
    pub info_hash: Infohash,
    pub remote_addr: PeerAddr,
}

/// The answer to an announce. Intervals are seconds.
#[derive(Debug)]
pub struct TrackerAnnounceResponse {
    pub interval: u64,
    pub min_interval: Option<u64>,
    pub tracker_id: Option<String>,
    pub complete: i64,
    pub incomplete: i64,
    pub peers: Vec<PeerAddr>,
    pub failure_reason: Option<String>,
    pub warning_message: Option<String>,
}

/// Which torrents are asked for.
#[derive(Debug)]
pub struct TrackerScrapeRequest {
    pub info_hashes: Vec<Infohash>,
}

/// The answer to a scrape.
pub struct TrackerScrapeResponse {
    pub files: FxMap<Infohash, ScrapeEntry>,
    pub failure_reason: Option<String>,
}

/// The test for addresses other than the one that asks.
pub open spec fn other_than(a: PeerAddr) -> spec_fn(PeerAddr) -> bool {
    |x: PeerAddr| x != a
}

/// The table after a peer announced a torrent.
pub open spec fn after_announce(t: PeerTable, req: TrackerAnnounceRequest, now: u64) -> PeerTable {
    taken_note(t, announced_peer(req, now), now as i64)
}

/// The peer that an announce makes known.
pub open spec fn announced_peer(req: TrackerAnnounceRequest, now: u64) -> Seq<(Infohash, PeerInfo)> {
    peers_with(
        req.info_hash,
        seq![fresh_peer(req.remote_addr, PeerSource::SuperTracker, now)],
    )
}

/// Whether an announce is answered with these addresses: those of the torrent's best peers,
/// as far as the table goes, without the one that asks.
pub open spec fn answers(
    t: PeerTable,
    req: TrackerAnnounceRequest,
    peers: Seq<PeerAddr>,
) -> bool {
    exists|best: Seq<PeerInfo>|
        #[trigger] picks(
            t.peers_of(req.info_hash),
            addr_of(),
            best,
            ANNOUNCE_LIMIT as nat,
            scores_higher(),
        ) && peers == best.map_values(addr_of()).filter(other_than(req.remote_addr))
}

/// How many peers a scrape counts.
pub open spec fn counted(t: PeerTable, ih: Infohash) -> nat {
    if t.peers_of(ih).len() <= SCRAPE_LIMIT {
        t.peers_of(ih).len()
    } else {
        SCRAPE_LIMIT as nat
    }
}

/// What a scrape says of a torrent.
pub open spec fn entry_for(t: PeerTable, ih: Infohash) -> ScrapeEntry {
    ScrapeEntry { complete: counted(t, ih) as i64, downloaded: 0, incomplete: 0 }
}

/// The tracker that the node itself is.
pub struct TrackerService {}

impl TrackerService {
    /// A tracker.
    pub fn new() -> (r: Self) {
        TrackerService {  }
    }

    /// Answers an announce: takes note of the torrent and of who announces it, and returns
    /// others who have it. Also who is new, and the history where it is long enough to be
    /// saved.
    pub fn announce(
        &self,
        peer_repo: &mut PeerRepoImpl,
        infohash_repo: &mut InfohashRepoImpl,
        req: &TrackerAnnounceRequest,
        now: u64,
    ) -> (r: (TrackerAnnounceResponse, Vec<NewPeer>, Option<Vec<PeerHistoryEntry>>))
        requires
            old(peer_repo).wf(),
            old(infohash_repo).wf(),
            now <= i64::MAX,
        ensures
            final(peer_repo).wf(),
            final(infohash_repo).wf(),
            final(infohash_repo)@ == old(infohash_repo)@.registered(
                (req.info_hash, "super_tracker"@, now),
            ),
            final(peer_repo)@ == after_announce(old(peer_repo)@, *req, now),
            answers(final(peer_repo)@, *req, r.0.peers@),
            r.0.interval == 1800,
            r.0.min_interval == Some(900u64),
            r.0.tracker_id matches Some(id) && id@ == "pdc"@,
            r.0.complete == r.0.peers@.len(),
            r.0.incomplete == 0,
            r.0.failure_reason is None,
            r.0.warning_message is None,
            r.1@ == old(peer_repo)@.newcomers(announced_peer(*req, now)),
            r.2 is Some <==> history_full(old(peer_repo)@, announced_peer(*req, now), now as i64),
            r.2 matches Some(b) ==> b@ == old(peer_repo)@.history + history_of(
                announced_peer(*req, now),
                now as i64,
            ),
    {
        let _ = infohash_repo.register_sync(req.info_hash, "super_tracker", now);
        let peer = PeerInfo::new(req.remote_addr, PeerSource::SuperTracker, now);
        let peers: Vec<PeerInfo> = vec![peer];
        proof {
            assert(peers@ =~= seq![peer]);
        }
        let (fresh, history) = peer_repo.add_peers_sync(
            &req.info_hash,
            peers.as_slice(),
            now as i64,
        );
        let best = peer_repo.get_peers_sync(&req.info_hash, ANNOUNCE_LIMIT);
        let ghost all = best@.map_values(addr_of());
        let ghost p = other_than(req.remote_addr);
        let mut addrs: Vec<PeerAddr> = Vec::new();
        let mut i: usize = 0;
        proof {
            reveal(Seq::filter);
            assert(addrs@ =~= all.take(0).filter(p));
        }
        while i < best.len()
            invariant
                0 <= i <= best@.len(),
                best@.len() <= ANNOUNCE_LIMIT,
                all == best@.map_values(addr_of()),
                p == other_than(req.remote_addr),
                addrs@ == all.take(i as int).filter(p),
                addrs@.len() <= i,
            decreases best@.len() - i,
        {
            proof {
                lemma_filter_step(all, p, i as int);
            }
            if best[i].addr != req.remote_addr {
                addrs.push(best[i].addr);
            }
            i = i + 1;
        }
        proof {
            assert(all.take(i as int) =~= all);
        }
        let complete: i64 = addrs.len() as i64;
        let response = TrackerAnnounceResponse {
            interval: 1800,
            min_interval: Some(900),
            tracker_id: Some("pdc".to_owned()),
            complete,
            incomplete: 0,
            peers: addrs,
            failure_reason: None,
            warning_message: None,
        };
        (response, fresh, history)
    }

    /// Answers a scrape: how many peers are known to have each torrent.
    pub fn scrape(&self, peer_repo: &PeerRepoImpl, req: &TrackerScrapeRequest) -> (r:
        TrackerScrapeResponse)
        requires
            peer_repo.wf(),
        ensures
            r.files.wf(),
            forall|ih: Infohash|
                #[trigger] r.files@.contains_key(ih) <==> req.info_hashes@.contains(ih),
            forall|ih: Infohash|
                r.files@.contains_key(ih) ==> #[trigger] r.files@[ih] == entry_for(
                    peer_repo@,
                    ih,
                ),
            r.failure_reason is None,
    {
        let mut files: FxMap<Infohash, ScrapeEntry> = FxMap::new();
        let mut i: usize = 0;
        while i < req.info_hashes.len()
            invariant
                peer_repo.wf(),
                files.wf(),
                0 <= i <= req.info_hashes@.len(),
                forall|ih: Infohash|
                    #[trigger] files@.contains_key(ih) <==> req.info_hashes@.take(
                        i as int,
                    ).contains(ih),
                forall|ih: Infohash|
                    files@.contains_key(ih) ==> #[trigger] files@[ih] == entry_for(
                        peer_repo@,
                        ih,
                    ),
            decreases req.info_hashes@.len() - i,
        {
            let ghost before = files@;
            let ghost asked = req.info_hashes@;
            let ih = req.info_hashes[i];
            let n: usize = peer_repo.get_peers_sync(&ih, SCRAPE_LIMIT).len();
            let _ = files.insert(
                ih,
                ScrapeEntry { complete: n as i64, downloaded: 0, incomplete: 0 },
            );
            proof {
                assert(asked.take(i + 1) =~= asked.take(i as int).push(ih));
                assert forall|x: Infohash|
                    #[trigger] files@.contains_key(x) <==> asked.take(i + 1).contains(x) by {
                    let s = asked.take(i as int);
                    assert(s.push(ih)[i as int] == ih);
                    if s.contains(x) {
                        let k = choose|k: int| 0 <= k < s.len() && s[k] == x;
                        assert(s.push(ih)[k] == x);
                    }
                    if s.push(ih).contains(x) && x != ih {
                        let k = choose|k: int| 0 <= k < s.push(ih).len() && s.push(ih)[k] == x;
                        assert(s[k] == x);
                    }
                    assert(before.contains_key(x) <==> s.contains(x));
                }
            }
            i = i + 1;
        }
        proof {
            assert(req.info_hashes@.take(i as int) =~= req.info_hashes@);
        }
        TrackerScrapeResponse { files, failure_reason: None }
    }
}

/// Nobody is told of themselves.
pub proof fn asker_is_left_out(t: PeerTable, req: TrackerAnnounceRequest, peers: Seq<PeerAddr>)
    requires
        answers(t, req, peers),
    ensures
        !peers.contains(req.remote_addr),
{
    let best = choose|best: Seq<PeerInfo>|
        #[trigger] picks(
            t.peers_of(req.info_hash),
            addr_of(),
            best,
            ANNOUNCE_LIMIT as nat,
            scores_higher(),
        ) && peers == best.map_values(addr_of()).filter(other_than(req.remote_addr));
    let all = best.map_values(addr_of());
    let p = other_than(req.remote_addr);
    if peers.contains(req.remote_addr) {
        let i = choose|i: int| 0 <= i < peers.len() && peers[i] == req.remote_addr;
        all.lemma_filter_pred(p, i);
    }
}

/// Who announced a torrent is told to whoever asks for it, as long as not too many have it.
pub proof fn announcer_is_told(
    t: PeerTable,
    a: TrackerAnnounceRequest,
    now: u64,
    b: TrackerAnnounceRequest,
    later: u64,
    peers: Seq<PeerAddr>,
)
    requires
        now <= i64::MAX,
        later <= i64::MAX,
        a.info_hash == b.info_hash,
        a.remote_addr != b.remote_addr,
        ({
            let after = after_announce(after_announce(t, a, now), b, later);
            &&& after.peers_of(b.info_hash).dom().finite()
            &&& after.peers_of(b.info_hash).len() <= ANNOUNCE_LIMIT
            &&& answers(after, b, peers)
        }),
    ensures
        peers.contains(a.remote_addr),
{
    let ih = b.info_hash;
    let x = a.remote_addr;
    let t1 = after_announce(t, a, now);
    let t2 = after_announce(t1, b, later);
    lemma_after_announce(t, a, now);
    lemma_after_announce(t1, b, later);
    let m = t2.peers_of(ih);
    let best = choose|best: Seq<PeerInfo>|
        #[trigger] picks(m, addr_of(), best, ANNOUNCE_LIMIT as nat, scores_higher()) && peers
            == best.map_values(addr_of()).filter(other_than(b.remote_addr));
    let all = best.map_values(addr_of());
    assert(m.contains_key(x));
    assert(all.contains(x)) by {
        all.unique_seq_to_set();
        assert(all.to_set().subset_of(m.dom())) by {
            assert forall|y: PeerAddr| all.to_set().contains(y) implies m.dom().contains(y) by {
                let i = choose|i: int| 0 <= i < all.len() && all[i] == y;
                assert(m.contains_key((addr_of())(best[i])));
            }
        }
        vstd::set_lib::lemma_subset_equality(all.to_set(), m.dom());
        assert(all.to_set().contains(x));
    }
    let i = choose|i: int| 0 <= i < all.len() && all[i] == x;
    lemma_filter_keeps(all, other_than(b.remote_addr), i);
}

proof fn lemma_after_announce(t: PeerTable, req: TrackerAnnounceRequest, now: u64)
    ensures
        after_announce(t, req, now).peers_of(req.info_hash).contains_key(req.remote_addr),
        forall|a: PeerAddr|
            t.peers_of(req.info_hash).contains_key(a) ==> #[trigger] after_announce(
                t,
                req,
                now,
            ).peers_of(req.info_hash).contains_key(a),
{
    let items = announced_peer(req, now);
    let p = fresh_peer(req.remote_addr, PeerSource::SuperTracker, now);
    assert(items.drop_last() =~= Seq::empty());
    assert(items.last() == (req.info_hash, p));
    reveal_with_fuel(PeerTable::noted_all, 2);
    assert(t.noted_all(items) == t.noted(p).joined(req.info_hash, p.addr));
}

} // verus!
