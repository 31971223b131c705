//! Rounds in which trackers are asked for peers of the torrents that are worth it.
//!
//! A round scrapes some of the best torrents in turn, ranks what came back, and announces
//! the best of these together with a few that were never asked for. How many peers each
//! brought is remembered for later rounds.

use vstd::arithmetic::div_mod::{lemma_add_mod_noop, lemma_mod_twice, lemma_small_mod};
use vstd::prelude::*;
use vstd::seq_lib::*;
use vstd::string::*;

use crate::bytes::array20;
use crate::chance::shuffle;
use crate::ranking::{lemma_filter_agree, lemma_filter_step, picks};
use crate::sorting::{lemma_same_multiset, orders, stable_order, SortKey};
use crate::storage::fx_map::FxMap;
use crate::storage::infohash_repo::{
    register_each, reports_from, scores_higher, torrent_of, InfohashRepoImpl,
};
use crate::storage::peer_repo::{
    history_full, history_of, peers_with, taken_note, NewPeer, PeerHistoryEntry, PeerRepoImpl,
};
use crate::text::{hex_decode, is_hex, unhex};
use crate::types::{has_id, id_views, Infohash, PeerInfo};

verus! {

/// How many of the best torrents are scraped in turn.
pub const SCRAPE_POOL_SIZE: usize = 100;

/// How many torrents are scraped in a round.
pub const SCRAPE_PER_ROUND: usize = 20;

/// How many of the best torrents are announced in a round.
pub const ANNOUNCE_TOP_COUNT: usize = 15;

/// How many further torrents are announced in a round.
pub const EXPLORE_COUNT: usize = 5;

/// After how many announces in a row without a peer a torrent counts less.
pub const EMPTY_DEGRADE_THRESHOLD: u32 = 3;

/// How many peers are asked for in an announce.
pub const PEERS_PER_INFOHASH: usize = 50;

/// Seconds in a day.
pub const DAY: u64 = 86400;

/// Torrents that always have peers, in hexadecimal digits.
pub open spec fn popular_texts() -> Seq<Seq<char>> {
    seq![
        "aa8a2f25763f0b165766690847bf732476490396"@,
        "299671d28121049a9265be9062d503c4d8402cfb"@,
        "c84b227d26b6c05f6ab92f5073d18a9cb84dacd6"@,
        "92b187cdfc4d926a13e7620d44bd18695f0150fb"@,
        "7751f52345b9a0b4bc03782611b9e676d63ce294"@,
        "1235d8b8e4e0314c80ddd39c755d5582803c9609"@,
        "7ddcb3cf9dbbc96d3c08fb808f57d59fa42e8bfb"@,
        "337ef6470ff715be2e09882624daeb9b64d4cb10"@,
        "f73430dbfaf0031f9c5fddcf0adc340456db4c91"@,
        "2b66980093bc11806fab50cb3cb41835b95a0362"@
    ]
}

/// Torrents that always have peers, in hexadecimal digits.
pub fn popular_infohashes() -> (r: Vec<&'static str>)
    ensures
        r@.len() == popular_texts().len(),
        forall|i: int| 0 <= i < r@.len() ==> (#[trigger] r@[i])@ == popular_texts()[i],
{
    let r: Vec<&'static str> = vec![
        "aa8a2f25763f0b165766690847bf732476490396",
        "299671d28121049a9265be9062d503c4d8402cfb",
        "c84b227d26b6c05f6ab92f5073d18a9cb84dacd6",
        "92b187cdfc4d926a13e7620d44bd18695f0150fb",
        "7751f52345b9a0b4bc03782611b9e676d63ce294",
        "1235d8b8e4e0314c80ddd39c755d5582803c9609",
        "7ddcb3cf9dbbc96d3c08fb808f57d59fa42e8bfb",
        "337ef6470ff715be2e09882624daeb9b64d4cb10",
        "f73430dbfaf0031f9c5fddcf0adc340456db4c91",
        "2b66980093bc11806fab50cb3cb41835b95a0362",
    ];
    r
}

/// The torrents that texts name: those of forty hexadecimal digits.
pub open spec fn decoded(texts: Seq<Seq<u8>>) -> Seq<Seq<u8>>
    decreases texts.len(),
{
    if texts.len() == 0 {
        Seq::empty()
    } else {
        let before = decoded(texts.drop_last());
        if is_hex(texts.last()) && texts.last().len() == 40 {
            before.push(unhex(texts.last()))
        } else {
            before
        }
    }
}

/// The torrents that texts name.
pub fn decode_infohashes(texts: &Vec<&'static str>) -> (r: Vec<Infohash>)
    ensures
        id_views(r@) == decoded(Seq::new(texts@.len(), |i: int| texts@[i].spec_bytes())),
{
    let ghost all = Seq::new(texts@.len(), |i: int| texts@[i].spec_bytes());
    let mut out: Vec<Infohash> = Vec::new();
    let mut i: usize = 0;
    proof {
        assert(all.take(0) =~= Seq::empty());
        assert(id_views(out@) =~= Seq::empty());
    }
    while i < texts.len()
        invariant
            0 <= i <= texts@.len(),
            all == Seq::new(texts@.len(), |i: int| texts@[i].spec_bytes()),
            id_views(out@) == decoded(all.take(i as int)),
        decreases texts@.len() - i,
    {
        proof {
            assert(all.take(i + 1).drop_last() =~= all.take(i as int));
            assert(all.take(i + 1).last() == texts@[i as int].spec_bytes());
        }
        let ghost before = id_views(out@);
        match hex_decode(texts[i].as_bytes()) {
            Ok(b) => {
                if b.len() == 20 {
                    let ih = array20(b.as_slice());
                    out.push(ih);
                    proof {
                        assert(b@.take(20) =~= b@);
                        assert(id_views(out@) =~= before.push(ih@));
                    }
                }
            },
            Err(_) => {},
        }
        i = i + 1;
    }
    proof {
        assert(all.take(i as int) =~= all);
    }
    out
}

/// What asking for a torrent has brought.
#[derive(Clone, Copy, Debug, PartialEq, Eq, Structural)]
pub struct InfohashQueryStats {
    pub total_queries: u64,
    pub total_peers_fetched: u64,
    pub last_query_at: u64,
    pub consecutive_empty: u32,
}

/// What is known after one more announce.
pub open spec fn after_announce(
    known: Option<InfohashQueryStats>,
    peers_fetched: usize,
    now: u64,
) -> InfohashQueryStats {
    let s = match known {
        Some(s) => s,
        None => InfohashQueryStats {
            total_queries: 0,
            total_peers_fetched: 0,
            last_query_at: 0,
            consecutive_empty: 0,
        },
    };
    InfohashQueryStats {
        total_queries: s.total_queries.wrapping_add(1),
        total_peers_fetched: s.total_peers_fetched.wrapping_add(peers_fetched as u64),
        last_query_at: now,
        consecutive_empty: if peers_fetched == 0 {
            s.consecutive_empty.wrapping_add(1)
        } else {
            0
        },
    }
}

/// What goes into the rank of a torrent beside the number of its complete peers: the peers
/// that it brought in how many announces, for how many seconds it was not asked for, up to
/// a day, and whether it counts less because it brought none lately.
#[derive(Clone, Copy, Debug, PartialEq, Eq, Structural)]
pub struct RankInputs {
    pub peers: u64,
    pub queries: u64,
    pub idle_secs: u64,
    pub degraded: bool,
}

/// What goes into the rank of a torrent. One that was never asked for counts as not asked
/// for all day.
pub open spec fn rank_inputs_of(known: Option<InfohashQueryStats>, now: u64) -> RankInputs {
    match known {
        Some(s) => RankInputs {
            peers: s.total_peers_fetched,
            queries: s.total_queries,
            idle_secs: if now < s.last_query_at {
                0
            } else if now - s.last_query_at < DAY {
                (now - s.last_query_at) as u64
            } else {
                DAY
            },
            degraded: s.consecutive_empty >= EMPTY_DEGRADE_THRESHOLD,
        },
        None => RankInputs { peers: 0, queries: 0, idle_secs: DAY, degraded: false },
    }
}

/// What goes into the rank of a torrent.
pub fn rank_inputs(known: Option<InfohashQueryStats>, now: u64) -> (r: RankInputs)
    ensures
        r == rank_inputs_of(known, now),
{
    match known {
        Some(s) => RankInputs {
            peers: s.total_peers_fetched,
            queries: s.total_queries,
            idle_secs: if now < s.last_query_at {
                0
            } else if now - s.last_query_at < DAY {
                now - s.last_query_at
            } else {
                DAY
            },
            degraded: s.consecutive_empty >= EMPTY_DEGRADE_THRESHOLD,
        },
        None => RankInputs { peers: 0, queries: 0, idle_secs: DAY, degraded: false },
    }
}

/// How many of the pool are scraped in turn.
pub open spec fn pool_len(n: nat) -> nat {
    if n <= SCRAPE_POOL_SIZE {
        n
    } else {
        SCRAPE_POOL_SIZE as nat
    }
}

/// The torrents of a pool.
pub open spec fn torrents_of(pool: Seq<(Infohash, i64)>) -> Seq<Infohash> {
    Seq::new(pool.len(), |i: int| pool[i].0)
}

/// The torrents that are scraped in a round: so many of the pool from the offset on, round
/// and round.
pub open spec fn scraped(pool: Seq<(Infohash, i64)>, offset: usize) -> Seq<Infohash> {
    let n = pool_len(pool.len());
    Seq::new(
        if n <= SCRAPE_PER_ROUND {
            n
        } else {
            SCRAPE_PER_ROUND as nat
        },
        |i: int| pool[(offset as int % n as int + i) % n as int].0,
    )
}

/// Where the next round goes on.
pub open spec fn next_offset(pool: Seq<(Infohash, i64)>, offset: usize) -> int {
    (offset + SCRAPE_PER_ROUND) % pool_len(pool.len()) as int
}

/// A torrent with the score that it was given, before it is ranked.
pub open spec fn rank_keys(scores: Seq<i64>) -> Seq<SortKey> {
    Seq::new(scores.len(), |i: int| (0u64, (i64::MAX - scores[i]) as u128, 0u64))
}

/// The test for torrents that are not in a list and were never asked for.
pub open spec fn unasked(
    list: Seq<Infohash>,
    stats: Map<Infohash, InfohashQueryStats>,
) -> spec_fn(Infohash) -> bool {
    |x: Infohash| !list.contains(x) && !stats.contains_key(x)
}

/// Whether torrents stand in the order of their scores, highest first, those with the same
/// score as they came.
pub open spec fn ranks<F: Fn(i64, RankInputs) -> i64>(
    s: FetcherState,
    results: Seq<(Infohash, i64, i64, i64)>,
    score: F,
    now: u64,
    r: Seq<Infohash>,
) -> bool {
    exists|scores: Seq<i64>, order: Seq<usize>|
        #![trigger orders(rank_keys(scores), order)]
        scores.len() == results.len() && (forall|i: int|
            0 <= i < scores.len() ==> call_ensures(
                score,
                (results[i].1, rank_inputs_of(s.known(results[i].0), now)),
                #[trigger] scores[i],
            )) && orders(rank_keys(scores), order) && r == Seq::new(
            scores.len(),
            |i: int| results[order[i] as int].0,
        )
}

/// The torrents that are announced for their rank.
pub open spec fn first_of(ranked: Seq<Infohash>) -> Seq<Infohash> {
    if ranked.len() <= ANNOUNCE_TOP_COUNT {
        ranked
    } else {
        ranked.take(ANNOUNCE_TOP_COUNT as int)
    }
}

/// The peers that an announce brought.
pub open spec fn found_peers(found: Option<Vec<PeerInfo>>) -> Seq<PeerInfo> {
    match found {
        Some(peers) => peers@,
        None => Seq::empty(),
    }
}

/// How a round starts: with nothing to do, or with torrents to scrape out of the best.
pub enum RoundStart {
    Idle,
    Scrape { pool: Vec<(Infohash, i64)>, infohashes: Vec<Infohash> },
}

/// The test for torrents that are in neither of two lists.
pub open spec fn beside(a: Seq<Infohash>, b: Seq<Infohash>) -> spec_fn(Infohash) -> bool {
    |x: Infohash| !a.contains(x) && !b.contains(x)
}

/// What the fetcher remembers.
#[verifier::ext_equal]
pub struct FetcherState {
    pub stats: Map<Infohash, InfohashQueryStats>,
    pub scrape_offset: usize,
    pub total_rounds: u64,
    pub total_peers_fetched: u64,
    pub last_round_peers: u64,
}

/// Rounds in which trackers are asked for peers.
pub struct TrackerPeerFetcher {
    query_stats: FxMap<Infohash, InfohashQueryStats>,
    scrape_offset: usize,
    total_rounds: u64,
    total_peers_fetched: u64,
    last_round_peers: u64,
}

impl View for TrackerPeerFetcher {
    type V = FetcherState;

    closed spec fn view(&self) -> FetcherState {
        FetcherState {
            stats: self.query_stats@,
            scrape_offset: self.scrape_offset,
            total_rounds: self.total_rounds,
            total_peers_fetched: self.total_peers_fetched,
            last_round_peers: self.last_round_peers,
        }
    }
}

impl FetcherState {
    /// What is known of a torrent.
    pub open spec fn known(self, ih: Infohash) -> Option<InfohashQueryStats> {
        if self.stats.contains_key(ih) {
            Some(self.stats[ih])
        } else {
            None
        }
    }

    /// The state after a torrent was announced.
    pub open spec fn announced(self, ih: Infohash, peers: usize, now: u64) -> FetcherState {
        FetcherState {
            stats: self.stats.insert(ih, after_announce(self.known(ih), peers, now)),
            ..self
        }
    }

    /// The state after a round that brought so many peers.
    pub open spec fn finished(self, peers: u64) -> FetcherState {
        FetcherState {
            total_rounds: self.total_rounds.wrapping_add(1),
            total_peers_fetched: self.total_peers_fetched.wrapping_add(peers),
            last_round_peers: peers,
            ..self
        }
    }
}

impl TrackerPeerFetcher {
    pub closed spec fn wf(self) -> bool {
        self.query_stats.wf() && self.scrape_offset < SCRAPE_POOL_SIZE
    }

    /// A fetcher that has not asked yet.
    pub fn new() -> (r: Self)
        ensures
            r.wf(),
            r@ == (FetcherState {
                stats: Map::empty(),
                scrape_offset: 0,
                total_rounds: 0,
                total_peers_fetched: 0,
                last_round_peers: 0,
            }),
    {
        TrackerPeerFetcher {
            query_stats: FxMap::new(),
            scrape_offset: 0,
            total_rounds: 0,
            total_peers_fetched: 0,
            last_round_peers: 0,
        }
    }

    /// Notes the torrents that always have peers. Returns how many.
    pub fn with_infohash_repo(&self, repo: &mut InfohashRepoImpl, now: u64) -> (r: usize)
        requires
            old(repo).wf(),
        ensures
            final(repo).wf(),
            exists|ids: Seq<Infohash>|
                id_views(ids) == decoded(
                    Seq::new(
                        popular_texts().len(),
                        |i: int| vstd::utf8::encode_utf8(popular_texts()[i]),
                    ),
                ) && r == ids.len() && final(repo)@ == old(repo)@.registered_all(
                    #[trigger] reports_from(ids, "fetcher_builtin"@, now),
                ),
    {
        let texts = popular_infohashes();
        proof {
            assert(Seq::new(texts@.len(), |i: int| texts@[i].spec_bytes()) =~= Seq::new(
                popular_texts().len(),
                |i: int| vstd::utf8::encode_utf8(popular_texts()[i]),
            ));
        }
        let ids = decode_infohashes(&texts);
        register_each(repo, &ids, "fetcher_builtin", now);
        ids.len()
    }

    /// The torrents to scrape in this round; the next round goes on behind them.
    pub fn select_scrape_infohashes(&mut self, top_pool: &Vec<(Infohash, i64)>) -> (r: Vec<
        Infohash,
    >)
        requires
            old(self).wf(),
        ensures
            final(self).wf(),
            top_pool@.len() == 0 ==> r@.len() == 0 && final(self)@ == old(self)@,
            top_pool@.len() > 0 ==> r@ == scraped(top_pool@, old(self)@.scrape_offset)
                && final(self)@ == (FetcherState {
                scrape_offset: next_offset(top_pool@, old(self)@.scrape_offset) as usize,
                ..old(self)@
            }),
    {
        let mut out: Vec<Infohash> = Vec::new();
        if top_pool.len() == 0 {
            return out;
        }
        let offset: usize = self.scrape_offset;
        let n: usize = if top_pool.len() <= SCRAPE_POOL_SIZE {
            top_pool.len()
        } else {
            SCRAPE_POOL_SIZE
        };
        let start: usize = offset % n;
        let count: usize = if n <= SCRAPE_PER_ROUND {
            n
        } else {
            SCRAPE_PER_ROUND
        };
        let mut i: usize = 0;
        while i < count
            invariant
                0 <= i <= count <= n <= top_pool@.len(),
                0 < n <= SCRAPE_POOL_SIZE,
                count <= SCRAPE_PER_ROUND,
                start == offset as int % n as int,
                start < n,
                n == pool_len(top_pool@.len()),
                out@.len() == i,
                forall|k: int|
                    0 <= k < i ==> #[trigger] out@[k] == top_pool@[(offset as int % n as int + k)
                        % n as int].0,
            decreases count - i,
        {
            let at: usize = (start + i) % n;
            out.push(top_pool[at].0);
            i = i + 1;
        }
        self.scrape_offset = (offset + SCRAPE_PER_ROUND) % n;
        proof {
            assert(out@ =~= scraped(top_pool@, offset));
        }
        out
    }

    /// What is known of a torrent.
    fn stats_of(&self, ih: &Infohash) -> (r: Option<InfohashQueryStats>)
        requires
            self.wf(),
        ensures
            r == self@.known(*ih),
    {
        match self.query_stats.get(ih) {
            Some(s) => Some(*s),
            None => None,
        }
    }

    /// Ranks scraped torrents, best first, those with the same score in the order in which
    /// they came. `score` makes a score of the number of complete peers and what is known.
    pub fn rank_infohashes<F: Fn(i64, RankInputs) -> i64>(
        &self,
        scrape_results: &Vec<(Infohash, i64, i64, i64)>,
        score: F,
        now: u64,
    ) -> (r: Vec<Infohash>)
        requires
            self.wf(),
            forall|c: i64, k: RankInputs| call_requires(score, (c, k)),
        ensures
            ranks(self@, scrape_results@, score, now, r@),
    {
        let mut scores: Vec<i64> = Vec::new();
        let mut keys: Vec<SortKey> = Vec::new();
        let mut i: usize = 0;
        while i < scrape_results.len()
            invariant
                self.wf(),
                forall|c: i64, k: RankInputs| call_requires(score, (c, k)),
                0 <= i <= scrape_results@.len(),
                scores@.len() == i,
                keys@.len() == i,
                forall|k: int|
                    0 <= k < i ==> call_ensures(
                        score,
                        (
                            scrape_results@[k].1,
                            rank_inputs_of(self@.known(scrape_results@[k].0), now),
                        ),
                        #[trigger] scores@[k],
                    ),
                forall|k: int|
                    0 <= k < i ==> #[trigger] keys@[k] == (
                        0u64,
                        (i64::MAX - scores@[k]) as u128,
                        0u64,
                    ),
            decreases scrape_results@.len() - i,
        {
            let known = self.stats_of(&scrape_results[i].0);
            let s: i64 = score(scrape_results[i].1, rank_inputs(known, now));
            scores.push(s);
            keys.push((0, (i64::MAX as i128 - s as i128) as u128, 0));
            i = i + 1;
        }
        let order = stable_order(&keys);
        let mut out: Vec<Infohash> = Vec::new();
        let mut j: usize = 0;
        while j < order.len()
            invariant
                orders(keys@, order@),
                keys@.len() == scrape_results@.len(),
                0 <= j <= order@.len(),
                out@.len() == j,
                forall|k: int|
                    0 <= k < j ==> #[trigger] out@[k] == scrape_results@[order@[k] as int].0,
            decreases order@.len() - j,
        {
            out.push(scrape_results[order[j]].0);
            j = j + 1;
        }
        proof {
            assert(keys@ =~= rank_keys(scores@));
            assert(out@ =~= Seq::new(
                scores@.len(),
                |i: int| scrape_results@[order@[i] as int].0,
            ));
            assert(orders(rank_keys(scores@), order@));
        }
        out
    }

    /// Torrents to try beside the best: at first such as were never asked for, then any,
    /// each kind in any order, none that is excluded.
    pub fn select_explore_infohashes(
        &self,
        top_pool: &Vec<(Infohash, i64)>,
        exclude: &Vec<Infohash>,
    ) -> (r: Vec<Infohash>)
        requires
            self.wf(),
        ensures
            explores(torrents_of(top_pool@), exclude@, self@.stats, r@),
    {
        let ghost pool = torrents_of(top_pool@);
        let ghost p = unasked(exclude@, self@.stats);
        let mut fresh: Vec<Infohash> = Vec::new();
        let mut i: usize = 0;
        proof {
            reveal(Seq::filter);
            assert(fresh@ =~= pool.take(0).filter(p));
        }
        while i < top_pool.len()
            invariant
                self.wf(),
                pool == torrents_of(top_pool@),
                p == unasked(exclude@, self@.stats),
                0 <= i <= top_pool@.len(),
                fresh@ == pool.take(i as int).filter(p),
            decreases top_pool@.len() - i,
        {
            proof {
                lemma_filter_step(pool, p, i as int);
            }
            let ih = top_pool[i].0;
            if !has_id(exclude, &ih) && !self.query_stats.contains_key(&ih) {
                fresh.push(ih);
            }
            i = i + 1;
        }
        let ghost unasked_all = pool.filter(p);
        proof {
            assert(pool.take(i as int) =~= pool);
        }
        shuffle(&mut fresh);
        let ghost mixed = fresh@;
        proof {
            lemma_same_multiset(unasked_all, mixed);
        }
        if fresh.len() >= EXPLORE_COUNT {
            fresh.truncate(EXPLORE_COUNT);
            proof {
                assert(fresh@ =~= mixed.take(5));
                lemma_take_members(unasked_all, mixed, 5);
                assert(explores(pool, exclude@, self@.stats, fresh@));
            }
            return fresh;
        }
        let ghost q = beside(exclude@, mixed);
        let mut others: Vec<Infohash> = Vec::new();
        let mut j: usize = 0;
        proof {
            assert(others@ =~= pool.take(0).filter(q));
        }
        while j < top_pool.len()
            invariant
                pool == torrents_of(top_pool@),
                mixed == fresh@,
                q == beside(exclude@, mixed),
                0 <= j <= top_pool@.len(),
                others@ == pool.take(j as int).filter(q),
            decreases top_pool@.len() - j,
        {
            proof {
                lemma_filter_step(pool, q, j as int);
            }
            let ih = top_pool[j].0;
            if !has_id(exclude, &ih) && !has_id(&fresh, &ih) {
                others.push(ih);
            }
            j = j + 1;
        }
        let ghost others_all = pool.filter(q);
        proof {
            assert(pool.take(j as int) =~= pool);
        }
        shuffle(&mut others);
        let ghost mixed2 = others@;
        proof {
            lemma_same_multiset(others_all, mixed2);
        }
        let mut k: usize = 0;
        proof {
            assert(mixed + mixed2.take(0) =~= mixed);
        }
        while k < others.len() && fresh.len() < EXPLORE_COUNT
            invariant
                mixed2 == others@,
                mixed.len() < EXPLORE_COUNT,
                0 <= k <= others@.len(),
                fresh@ == mixed + mixed2.take(k as int),
                fresh@.len() <= EXPLORE_COUNT,
            decreases others@.len() - k,
        {
            fresh.push(others[k]);
            k = k + 1;
            proof {
                assert(fresh@ =~= mixed + mixed2.take(k as int));
            }
        }
        proof {
            assert forall|x: Infohash| mixed.contains(x) <==> unasked_all.contains(x) by {}
            lemma_filter_agree(
                pool,
                q,
                beside(exclude@, unasked_all),
            );
            lemma_take_members(others_all, mixed2, k as int);
            lemma_take_members(unasked_all, mixed, mixed.len() as int);
            assert(mixed.take(mixed.len() as int) =~= mixed);
            assert(fresh@.take(mixed.len() as int) =~= mixed);
            assert(fresh@.skip(mixed.len() as int) =~= mixed2.take(k as int));
            assert(explores(pool, exclude@, self@.stats, fresh@));
        }
        fresh
    }

    /// Takes note of how many peers an announce brought, none where it failed.
    pub fn update_query_stats(&mut self, ih: &Infohash, peers_fetched: usize, now: u64)
        requires
            old(self).wf(),
        ensures
            final(self).wf(),
            final(self)@ == old(self)@.announced(*ih, peers_fetched, now),
    {
        let mut s = match self.stats_of(ih) {
            Some(s) => s,
            None => InfohashQueryStats {
                total_queries: 0,
                total_peers_fetched: 0,
                last_query_at: 0,
                consecutive_empty: 0,
            },
        };
        s.total_queries = s.total_queries.wrapping_add(1);
        s.total_peers_fetched = s.total_peers_fetched.wrapping_add(peers_fetched as u64);
        s.last_query_at = now;
        if peers_fetched == 0 {
            s.consecutive_empty = s.consecutive_empty.wrapping_add(1);
        } else {
            s.consecutive_empty = 0;
        }
        let _ = self.query_stats.insert(*ih, s);
    }

    /// How many torrents the repository knows, none where there is no repository.
    pub fn infohash_count(&self, repo: &Option<InfohashRepoImpl>) -> (r: usize)
        requires
            repo matches Some(t) ==> t.wf(),
        ensures
            r == match *repo {
                Some(t) => t@.entries.len(),
                None => 0,
            },
    {
        match repo {
            Some(t) => t.count_sync(),
            None => 0,
        }
    }

    /// Starts a round: the best torrents, and those of them to scrape. Without a torrent
    /// there is nothing to do.
    pub fn begin_round(&mut self, repo: &InfohashRepoImpl) -> (r: RoundStart)
        requires
            old(self).wf(),
            repo.wf(),
        ensures
            final(self).wf(),
            r is Idle <==> repo@.entries.len() == 0,
            r is Idle ==> final(self)@ == old(self)@,
            r matches RoundStart::Scrape { pool, infohashes } ==> {
                &&& picks(
                    repo@.scores(),
                    torrent_of(),
                    pool@,
                    SCRAPE_POOL_SIZE as nat,
                    scores_higher(),
                )
                &&& infohashes@ == scraped(pool@, old(self)@.scrape_offset)
                &&& final(self)@ == (FetcherState {
                    scrape_offset: next_offset(pool@, old(self)@.scrape_offset) as usize,
                    ..old(self)@
                })
            },
    {
        let pool = repo.top_infohashes(SCRAPE_POOL_SIZE);
        proof {
            assert(repo@.scores().dom() =~= repo@.entries.dom());
        }
        if pool.len() == 0 {
            return RoundStart::Idle;
        }
        let infohashes = self.select_scrape_infohashes(&pool);
        RoundStart::Scrape { pool, infohashes }
    }

    /// What to announce: the best of what was scraped, or of the pool where no tracker
    /// answered, and a few to try.
    pub fn plan_announce<F: Fn(i64, RankInputs) -> i64>(
        &self,
        pool: &Vec<(Infohash, i64)>,
        scrape_results: &Vec<(Infohash, i64, i64, i64)>,
        score: F,
        now: u64,
    ) -> (r: Vec<Infohash>)
        requires
            self.wf(),
            forall|c: i64, k: RankInputs| call_requires(score, (c, k)),
        ensures
            exists|ranked: Seq<Infohash>, explored: Seq<Infohash>|
                #![trigger explores(torrents_of(pool@), first_of(ranked), self@.stats, explored)]
                (if scrape_results@.len() == 0 {
                    ranked == torrents_of(pool@)
                } else {
                    ranks(self@, scrape_results@, score, now, ranked)
                }) && explores(torrents_of(pool@), first_of(ranked), self@.stats, explored) && r@
                    == first_of(ranked) + explored,
    {
        let ranked: Vec<Infohash> = if scrape_results.len() == 0 {
            let mut all: Vec<Infohash> = Vec::new();
            let mut i: usize = 0;
            while i < pool.len()
                invariant
                    0 <= i <= pool@.len(),
                    all@.len() == i,
                    forall|k: int| 0 <= k < i ==> #[trigger] all@[k] == pool@[k].0,
                decreases pool@.len() - i,
            {
                all.push(pool[i].0);
                i = i + 1;
            }
            proof {
                assert(all@ =~= torrents_of(pool@));
            }
            all
        } else {
            self.rank_infohashes(scrape_results, score, now)
        };
        let ghost all = ranked@;
        let mut chosen = ranked;
        chosen.truncate(ANNOUNCE_TOP_COUNT);
        proof {
            assert(chosen@ =~= first_of(all));
        }
        let mut explored = self.select_explore_infohashes(pool, &chosen);
        let ghost tried = explored@;
        chosen.append(&mut explored);
        proof {
            assert(explores(torrents_of(pool@), first_of(all), self@.stats, tried));
        }
        chosen
    }

    /// Takes note of what an announce brought: peers, or nothing where it failed. How many
    /// peers it was, who is new, and the history where it is long enough to be saved.
    pub fn record_announce(
        &mut self,
        peer_repo: &mut PeerRepoImpl,
        ih: &Infohash,
        found: &Option<Vec<PeerInfo>>,
        now: u64,
    ) -> (r: (usize, Vec<NewPeer>, Option<Vec<PeerHistoryEntry>>))
        requires
            old(self).wf(),
            old(peer_repo).wf(),
            now <= i64::MAX,
        ensures
            final(self).wf(),
            final(peer_repo).wf(),
            ({
                let peers = peers_with(*ih, found_peers(*found));
                &&& r.0 == peers.len()
                &&& final(self)@ == old(self)@.announced(*ih, r.0, now)
                &&& final(peer_repo)@ == taken_note(old(peer_repo)@, peers, now as i64)
                &&& r.1@ == old(peer_repo)@.newcomers(peers)
                &&& r.2 is Some <==> history_full(old(peer_repo)@, peers, now as i64)
                &&& r.2 matches Some(b) ==> b@ == old(peer_repo)@.history + history_of(
                    peers,
                    now as i64,
                )
            }),
    {
        let ghost t = peer_repo@;
        match found {
            Some(peers) => {
                let (fresh, history) = peer_repo.add_peers_sync(ih, peers.as_slice(), now as i64);
                self.update_query_stats(ih, peers.len(), now);
                (peers.len(), fresh, history)
            },
            None => {
                let none: Vec<PeerInfo> = Vec::new();
                let (fresh, history) = peer_repo.add_peers_sync(ih, none.as_slice(), now as i64);
                self.update_query_stats(ih, 0, now);
                (0, fresh, history)
            },
        }
    }

    /// Takes note that a round is over and how many peers it brought.
    pub fn finish_round(&mut self, peers: u64)
        requires
            old(self).wf(),
        ensures
            final(self).wf(),
            final(self)@ == old(self)@.finished(peers),
    {
        self.total_rounds = self.total_rounds.wrapping_add(1);
        self.total_peers_fetched = self.total_peers_fetched.wrapping_add(peers);
        self.last_round_peers = peers;
    }
}

/// Whether a list is the start of some order of another.
pub open spec fn some_of<A>(all: Seq<A>, r: Seq<A>) -> bool {
    exists|m: Seq<A>|
        #[trigger] m.to_multiset() == all.to_multiset() && r.len() <= m.len() && r == m.take(
            r.len() as int,
        )
}

proof fn lemma_take_members<A>(all: Seq<A>, m: Seq<A>, n: int)
    requires
        m.to_multiset() == all.to_multiset(),
        0 <= n <= m.len(),
    ensures
        some_of(all, m.take(n)),
{
    assert(m.take(n) =~= m.take(m.take(n).len() as int));
}

/// Whether torrents were picked to be tried: up to five, first some of those that were never
/// asked for, and only where these are too few some others; none that is excluded.
pub open spec fn explores(
    pool: Seq<Infohash>,
    exclude: Seq<Infohash>,
    stats: Map<Infohash, InfohashQueryStats>,
    r: Seq<Infohash>,
) -> bool {
    let fresh = pool.filter(unasked(exclude, stats));
    let others = pool.filter(beside(exclude, fresh));
    if fresh.len() >= EXPLORE_COUNT {
        r.len() == EXPLORE_COUNT && some_of(fresh, r)
    } else {
        let n = fresh.len() as int;
        &&& r.len() == (if fresh.len() + others.len() <= EXPLORE_COUNT {
            fresh.len() + others.len()
        } else {
            EXPLORE_COUNT as nat
        })
        &&& some_of(fresh, r.take(n))
        &&& some_of(others, r.skip(n))
    }
}

/// Where the scraping stands after some more rounds with the same pool.
pub open spec fn offset_after(pool: Seq<(Infohash, i64)>, offset: usize, rounds: nat) -> usize
    decreases rounds,
{
    if rounds == 0 {
        offset
    } else {
        next_offset(pool, offset_after(pool, offset, (rounds - 1) as nat)) as usize
    }
}

proof fn lemma_offset_after(pool: Seq<(Infohash, i64)>, offset: usize, rounds: nat)
    requires
        pool.len() > 0,
    ensures
        offset_after(pool, offset, rounds) as int % pool_len(pool.len()) as int == (offset
            + SCRAPE_PER_ROUND * rounds) % pool_len(pool.len()) as int,
    decreases rounds,
{
    let n = pool_len(pool.len()) as int;
    if rounds > 0 {
        lemma_offset_after(pool, offset, (rounds - 1) as nat);
        let before = offset_after(pool, offset, (rounds - 1) as nat);
        let now = offset_after(pool, offset, rounds);
        assert(0 <= (before + SCRAPE_PER_ROUND) % n < n);
        assert(now == (before + SCRAPE_PER_ROUND) % n);
        lemma_small_mod(now as nat, n as nat);
        lemma_add_mod_noop(before as int, SCRAPE_PER_ROUND as int, n);
        lemma_add_mod_noop(
            offset + SCRAPE_PER_ROUND * (rounds - 1),
            SCRAPE_PER_ROUND as int,
            n,
        );
    }
}

/// With the same pool every torrent of it is scraped within as many rounds as it takes to
/// go round once.
pub proof fn rotation_reaches_all(pool: Seq<(Infohash, i64)>, offset: usize, j: int)
    requires
        0 <= j < pool_len(pool.len()),
    ensures
        exists|k: nat|
            k * SCRAPE_PER_ROUND < pool_len(pool.len()) && (#[trigger] scraped(
                pool,
                offset_after(pool, offset, k),
            )).contains(pool[j].0),
{
    let n = pool_len(pool.len()) as int;
    let d = (j - offset) % n;
    let k = (d / (SCRAPE_PER_ROUND as int)) as nat;
    let i = d % (SCRAPE_PER_ROUND as int);
    lemma_offset_after(pool, offset, k);
    let at = offset_after(pool, offset, k);
    assert(d == k * SCRAPE_PER_ROUND + i);
    let s = scraped(pool, at);
    if n <= SCRAPE_PER_ROUND {
        assert(k == 0 && i == d);
    }
    assert(0 <= i < s.len());
    assert((at as int % n + i) % n == j) by {
        lemma_add_mod_noop(offset + SCRAPE_PER_ROUND * k, i, n);
        lemma_add_mod_noop(at as int % n, i, n);
        lemma_mod_twice(at as int, n);
        lemma_mod_twice(offset + SCRAPE_PER_ROUND * k, n);
        assert((at as int % n + i) % n == (offset + SCRAPE_PER_ROUND * k + i) % n);
        assert(offset + SCRAPE_PER_ROUND * k + i == offset + d);
        lemma_add_mod_noop(offset as int, j - offset, n);
        lemma_add_mod_noop(offset as int, d, n);
        lemma_mod_twice(j - offset, n);
        assert((offset + d) % n == j % n);
        lemma_small_mod(j as nat, n as nat);
    }
    assert(s[i] == pool[j].0);
    assert(scraped(pool, offset_after(pool, offset, k)).contains(pool[j].0));
}

/// What is announced for the sake of trying is in the pool and is not announced anyway.
pub proof fn explored_is_new(
    pool: Seq<Infohash>,
    exclude: Seq<Infohash>,
    stats: Map<Infohash, InfohashQueryStats>,
    r: Seq<Infohash>,
    i: int,
)
    requires
        explores(pool, exclude, stats, r),
        0 <= i < r.len(),
    ensures
        r.len() <= EXPLORE_COUNT,
        pool.contains(r[i]),
        !exclude.contains(r[i]),
{
    let p = unasked(exclude, stats);
    let fresh = pool.filter(p);
    let q = beside(exclude, fresh);
    let others = pool.filter(q);
    let n = fresh.len() as int;
    if fresh.len() >= EXPLORE_COUNT {
        lemma_some_of(fresh, r, i);
        lemma_filtered(pool, p, r[i]);
    } else if i < n {
        lemma_some_of(fresh, r.take(n), i);
        assert(r.take(n)[i] == r[i]);
        lemma_filtered(pool, p, r[i]);
    } else {
        lemma_some_of(others, r.skip(n), i - n);
        assert(r.skip(n)[i - n] == r[i]);
        lemma_filtered(pool, q, r[i]);
    }
}

proof fn lemma_some_of<A>(all: Seq<A>, r: Seq<A>, i: int)
    requires
        some_of(all, r),
        0 <= i < r.len(),
    ensures
        all.contains(r[i]),
{
    let m = choose|m: Seq<A>|
        #[trigger] m.to_multiset() == all.to_multiset() && r.len() <= m.len() && r == m.take(
            r.len() as int,
        );
    lemma_same_multiset(all, m);
    assert(r[i] == m[i]);
    assert(m.contains(m[i]));
}

proof fn lemma_filtered<A>(s: Seq<A>, p: spec_fn(A) -> bool, x: A)
    requires
        s.filter(p).contains(x),
    ensures
        s.contains(x),
        p(x),
{
    let i = choose|i: int| 0 <= i < s.filter(p).len() && s.filter(p)[i] == x;
    s.lemma_filter_pred(p, i);
    s.lemma_filter_contains_rev(p, x);
}

/// After some announces in a row without a peer a torrent counts less, and after one with
/// peers it counts fully again.
pub proof fn empty_announces_degrade(s: FetcherState, ih: Infohash, t: u64, now: u64)
    ensures
        ({
            let one = s.announced(ih, 1, t);
            let four = one.announced(ih, 0, t).announced(ih, 0, t).announced(ih, 0, t);
            &&& !rank_inputs_of(one.known(ih), now).degraded
            &&& rank_inputs_of(four.known(ih), now).degraded
            &&& !rank_inputs_of(four.announced(ih, 1, t).known(ih), now).degraded
        }),
{
}

} // verus!
