//! The trackers that are known, most recently used ones in memory.
//!
//! What is not in memory may still be saved: the functions that look a tracker up take what
//! is saved of it as an argument, and turn to it only where memory has nothing.

use vstd::prelude::*;
use vstd::string::*;
use vstd::utf8::*;

use crate::bytes::copy_bytes;
use crate::ranking::lemma_filter_step;
use crate::sorting::{orders, stable_order, SortKey};
use crate::storage::fx_map::{lists, models, FxSet};
use crate::storage::recency::{has_key, lemma_without, max_cap};
use crate::storage::tiered_cache::{
    cap_of, lemma_put_keys, TierState, TieredCache, TieredCacheConfig,
};
use crate::text::utf8_strict;

verus! {

/// The score that a tracker starts with, by its place in the order of scores: the bits of
/// the number 15 as a double.
pub const START_SCORE: i64 = 0x402E_0000_0000_0000;

/// How many requests in a row may fail before a tracker is disabled.
pub const MAX_FAILURES: u32 = 10;

/// What is known of a tracker but for its address. The score is an integer that orders as
/// the score does, the mean response time the bits of a double; `last_used` is in seconds
/// since 1970.
#[derive(Clone, Copy, Debug)]
pub struct TrackerStats {
    pub score: i64,
    pub disabled: bool,
    pub total_requests: u64,
    pub success_requests: u64,
    pub failed_requests: u64,
    pub total_peers_discovered: u64,
    pub avg_response_time_ms: u64,
    pub consecutive_failures: u32,
    pub last_used: Option<u64>,
}

/// A tracker.
pub struct TrackerEntry {
    pub url: String,
    pub score: i64,
    pub disabled: bool,
    pub total_requests: u64,
    pub success_requests: u64,
    pub failed_requests: u64,
    pub total_peers_discovered: u64,
    pub avg_response_time_ms: u64,
    pub consecutive_failures: u32,
    pub last_used: Option<u64>,
}

/// A tracker as it is saved.
pub struct TrackerRow {
    pub url: String,
    pub score: i64,
    pub total_requests: u64,
    pub success_requests: u64,
    pub failed_requests: u64,
    pub total_peers_discovered: u64,
    pub total_response_time_ms: u64,
    pub consecutive_failures: u32,
    pub disabled: bool,
}

impl TrackerEntry {
    /// What is known of the tracker but for its address.
    pub open spec fn stats(self) -> TrackerStats {
        TrackerStats {
            score: self.score,
            disabled: self.disabled,
            total_requests: self.total_requests,
            success_requests: self.success_requests,
            failed_requests: self.failed_requests,
            total_peers_discovered: self.total_peers_discovered,
            avg_response_time_ms: self.avg_response_time_ms,
            consecutive_failures: self.consecutive_failures,
            last_used: self.last_used,
        }
    }

    fn of(url: String, s: TrackerStats) -> (r: Self)
        ensures
            r.url == url,
            r.stats() == s,
    {
        TrackerEntry {
            url,
            score: s.score,
            disabled: s.disabled,
            total_requests: s.total_requests,
            success_requests: s.success_requests,
            failed_requests: s.failed_requests,
            total_peers_discovered: s.total_peers_discovered,
            avg_response_time_ms: s.avg_response_time_ms,
            consecutive_failures: s.consecutive_failures,
            last_used: s.last_used,
        }
    }

    /// The tracker as it is saved.
    pub fn to_row(&self) -> (r: TrackerRow)
        ensures
            r.url@ == self.url@,
            saved_stats(r) == (TrackerStats { last_used: None, ..self.stats() }),
    {
        TrackerRow {
            url: self.url.clone(),
            score: self.score,
            total_requests: self.total_requests,
            success_requests: self.success_requests,
            failed_requests: self.failed_requests,
            total_peers_discovered: self.total_peers_discovered,
            total_response_time_ms: self.avg_response_time_ms,
            consecutive_failures: self.consecutive_failures,
            disabled: self.disabled,
        }
    }
}

/// What a row tells of a tracker.
pub open spec fn saved_stats(row: TrackerRow) -> TrackerStats {
    TrackerStats {
        score: row.score,
        disabled: row.disabled,
        total_requests: row.total_requests,
        success_requests: row.success_requests,
        failed_requests: row.failed_requests,
        total_peers_discovered: row.total_peers_discovered,
        avg_response_time_ms: row.total_response_time_ms,
        consecutive_failures: row.consecutive_failures,
        last_used: None,
    }
}

fn read_row(row: &TrackerRow) -> (r: TrackerStats)
    ensures
        r == saved_stats(*row),
{
    TrackerStats {
        score: row.score,
        disabled: row.disabled,
        total_requests: row.total_requests,
        success_requests: row.success_requests,
        failed_requests: row.failed_requests,
        total_peers_discovered: row.total_peers_discovered,
        avg_response_time_ms: row.total_response_time_ms,
        consecutive_failures: row.consecutive_failures,
        last_used: None,
    }
}

/// A tracker that was not known before.
pub open spec fn new_stats(last_seen: u64) -> TrackerStats {
    TrackerStats {
        score: START_SCORE,
        disabled: false,
        total_requests: 0,
        success_requests: 0,
        failed_requests: 0,
        total_peers_discovered: 0,
        avg_response_time_ms: 0,
        consecutive_failures: 0,
        last_used: Some(last_seen),
    }
}

/// A tracker that was seen at a time: it was used at the latest of the times.
pub open spec fn seen_at(s: TrackerStats, last_seen: u64) -> TrackerStats {
    if s.last_used matches Some(t) && last_seen <= t {
        s
    } else {
        TrackerStats { last_used: Some(last_seen), ..s }
    }
}

/// A tracker after a request. `mean` is the mean response time after a success.
pub open spec fn after_request(
    s: TrackerStats,
    success: bool,
    peers: u64,
    mean: u64,
    wall: u64,
) -> TrackerStats {
    let t = TrackerStats {
        total_requests: s.total_requests.wrapping_add(1),
        last_used: Some(wall),
        ..s
    };
    if success {
        TrackerStats {
            success_requests: s.success_requests.wrapping_add(1),
            total_peers_discovered: s.total_peers_discovered.wrapping_add(peers),
            consecutive_failures: 0,
            avg_response_time_ms: mean,
            ..t
        }
    } else {
        let failures = s.consecutive_failures.wrapping_add(1);
        TrackerStats {
            failed_requests: s.failed_requests.wrapping_add(1),
            consecutive_failures: failures,
            disabled: s.disabled || failures >= MAX_FAILURES,
            ..t
        }
    }
}

/// A tracker that was switched off or on; switching it on forgets its failures.
pub open spec fn switched(s: TrackerStats, disabled: bool) -> TrackerStats {
    TrackerStats {
        disabled,
        consecutive_failures: if disabled {
            s.consecutive_failures
        } else {
            0
        },
        ..s
    }
}

/// What the repository holds.
#[verifier::ext_equal]
pub struct TrackerTable {
    pub cache: TierState<TrackerStats>,
    pub persist_dirty: Set<Seq<char>>,
    pub score_dirty: Set<Seq<char>>,
    pub tier_enabled: bool,
}

impl TrackerTable {
    /// The key of a tracker in memory.
    pub open spec fn key(url: Seq<char>) -> Seq<u8> {
        encode_utf8(url)
    }

    /// Memory is in order and its keys are texts.
    pub open spec fn wf(self) -> bool {
        &&& self.cache.wf()
        &&& forall|k: Seq<u8>| #[trigger] self.cache.has(k) ==> valid_utf8(k)
    }

    /// What is known of a tracker: what is in memory, else what is saved.
    pub open spec fn found(self, url: Seq<char>, saved: Option<TrackerStats>) -> Option<
        TrackerStats,
    > {
        match self.cache.lookup(Self::key(url)) {
            Some(s) => Some(s),
            None => if self.tier_enabled {
                saved
            } else {
                None
            },
        }
    }

    /// The table after what is known of a tracker was put in memory as used now.
    pub open spec fn stored(self, url: Seq<char>, s: TrackerStats, now: u64) -> TrackerTable {
        TrackerTable { cache: self.cache.stored(Self::key(url), s, now), ..self }
    }

    /// The table after a tracker was marked as changed.
    pub open spec fn marked(self, url: Seq<char>) -> TrackerTable {
        TrackerTable { persist_dirty: self.persist_dirty.insert(url), ..self }
    }

    /// The table after a tracker was heard of.
    pub open spec fn added(
        self,
        item: (Seq<char>, u64),
        saved: Option<TrackerStats>,
        now: u64,
    ) -> TrackerTable {
        let s = match self.found(item.0, saved) {
            Some(s) => seen_at(s, item.1),
            None => new_stats(item.1),
        };
        self.stored(item.0, s, now).marked(item.0)
    }

    /// The table after several trackers were heard of, one after the other.
    pub open spec fn added_all(
        self,
        items: Seq<(Seq<char>, u64)>,
        saved: Seq<Option<TrackerStats>>,
        now: u64,
    ) -> TrackerTable
        decreases items.len(),
    {
        if items.len() == 0 {
            self
        } else {
            let n = items.len() - 1;
            self.added_all(items.drop_last(), saved, now).added(items.last(), saved[n], now)
        }
    }

    /// Those of the trackers of which nothing was known when they were heard of.
    pub open spec fn newcomers(
        self,
        items: Seq<(Seq<char>, u64)>,
        saved: Seq<Option<TrackerStats>>,
        now: u64,
    ) -> Seq<Seq<char>>
        decreases items.len(),
    {
        if items.len() == 0 {
            Seq::empty()
        } else {
            let n = items.len() - 1;
            let before = self.newcomers(items.drop_last(), saved, now);
            if self.added_all(items.drop_last(), saved, now).found(items.last().0, saved[n]) is None {
                before.push(items.last().0)
            } else {
                before
            }
        }
    }
}

/// Trackers that were all come across at one time.
pub open spec fn met_at(urls: Seq<String>, wall: u64) -> Seq<(Seq<char>, u64)> {
    Seq::new(urls.len(), |i: int| (urls[i]@, wall))
}

/// The contents of trackers that were heard of.
pub open spec fn item_views(s: Seq<(String, u64)>) -> Seq<(Seq<char>, u64)> {
    Seq::new(s.len(), |i: int| (s[i].0@, s[i].1))
}

/// What rows tell.
pub open spec fn saved_views(s: Seq<Option<TrackerRow>>) -> Seq<Option<TrackerStats>> {
    Seq::new(s.len(), |i: int| saved_view(s[i]))
}

/// What a row tells.
pub open spec fn saved_view(r: Option<TrackerRow>) -> Option<TrackerStats> {
    match r {
        Some(row) => Some(saved_stats(row)),
        None => None,
    }
}

/// The texts of strings.
pub open spec fn texts_of(s: Seq<String>) -> Seq<Seq<char>> {
    Seq::new(s.len(), |i: int| s[i]@)
}

/// What is in memory, hot trackers first, in each tier the most recently used first.
pub open spec fn in_memory(c: TierState<TrackerStats>) -> Seq<(Seq<u8>, TrackerStats)> {
    Seq::new(
        c.hot.len() + c.warm.len(),
        |i: int|
            if i < c.hot.len() {
                (c.hot[i].0, c.hot[i].1.0)
            } else {
                (c.warm[i - c.hot.len()].0, c.warm[i - c.hot.len()].1.0)
            },
    )
}

/// The test for trackers that are not disabled.
pub open spec fn is_active() -> spec_fn((Seq<u8>, TrackerStats)) -> bool {
    |e: (Seq<u8>, TrackerStats)| !e.1.disabled
}

/// Whether entries are given trackers.
pub open spec fn are_entries(r: Seq<TrackerEntry>, s: Seq<(Seq<u8>, TrackerStats)>) -> bool {
    &&& r.len() == s.len()
    &&& forall|i: int|
        0 <= i < r.len() ==> (#[trigger] r[i]).url@ == decode_utf8(s[i].0) && r[i].stats() == s[i].1
}

/// A key by which higher scores come first.
pub open spec fn rank_of(score: i64) -> SortKey {
    (0u64, (i64::MAX - score) as u128, 0u64)
}

/// The trackers that are known.
pub struct TrackerRepoImpl {
    cache: TieredCache<TrackerStats>,
    persist_dirty: FxSet<String>,
    score_dirty: FxSet<String>,
    tier_enabled: bool,
}

impl View for TrackerRepoImpl {
    type V = TrackerTable;

    closed spec fn view(&self) -> TrackerTable {
        TrackerTable {
            cache: self.cache@,
            persist_dirty: self.persist_dirty@,
            score_dirty: self.score_dirty@,
            tier_enabled: self.tier_enabled,
        }
    }
}

proof fn lemma_stored_keys(c: TierState<TrackerStats>, k: Seq<u8>, s: TrackerStats, now: u64)
    requires
        c.wf(),
        valid_utf8(k),
        forall|x: Seq<u8>| #[trigger] c.has(x) ==> valid_utf8(x),
    ensures
        forall|x: Seq<u8>| #[trigger] c.stored(k, s, now).has(x) ==> valid_utf8(x),
{
    let d = c.stored(k, s, now);
    lemma_without(c.warm, k);
    assert forall|x: Seq<u8>| #[trigger] d.has(x) implies valid_utf8(x) by {
        if x != k {
            if has_key(d.hot, x) {
                lemma_put_keys(c.hot, c.hot_cap, k, (s, now), x);
            }
            assert(c.has(x));
        }
    }
}

proof fn lemma_revised_keys(c: TierState<TrackerStats>, k: Seq<u8>, s: TrackerStats)
    requires
        c.wf(),
        c.has(k),
        forall|x: Seq<u8>| #[trigger] c.has(x) ==> valid_utf8(x),
    ensures
        forall|x: Seq<u8>| #[trigger] c.revised(k, s).has(x) ==> valid_utf8(x),
{
    let d = c.revised(k, s);
    assert forall|x: Seq<u8>| #[trigger] d.has(x) implies valid_utf8(x) by {
        if x != k {
            if has_key(c.hot, k) {
                if has_key(d.hot, x) {
                    lemma_put_keys(c.hot, c.hot_cap, k, (s, c.entry(k).1), x);
                }
            } else {
                if has_key(d.warm, x) {
                    lemma_put_keys(c.warm, c.warm_cap, k, (s, c.entry(k).1), x);
                }
            }
            assert(c.has(x));
        }
    }
}

impl TrackerRepoImpl {
    pub closed spec fn parts_ok(self) -> bool {
        self.cache.wf() && self.persist_dirty.wf() && self.score_dirty.wf()
    }

    pub open spec fn wf(self) -> bool {
        self.parts_ok() && self@.wf()
    }

    /// An empty repository with room for ten thousand trackers in each tier.
    pub fn new() -> (r: Self)
        ensures
            r.wf(),
            r@.cache.hot.len() == 0,
            r@.cache.warm.len() == 0,
            r@.cache.cold_loaded == 0,
            r@.cache.config == (TieredCacheConfig {
                hot_max_count: 10_000,
                warm_max_count: 10_000,
                hot_threshold_secs: 86400,
                warm_threshold_secs: 604800,
            }),
            r@.cache.hot_cap == 10_000,
            r@.cache.warm_cap == 10_000,
            r@.persist_dirty == Set::<Seq<char>>::empty(),
            r@.score_dirty == Set::<Seq<char>>::empty(),
            r@.tier_enabled,
    {
        let config = TieredCacheConfig {
            hot_max_count: 10_000,
            warm_max_count: 10_000,
            hot_threshold_secs: 86400,
            warm_threshold_secs: 604800,
        };
        Self::with_tier_config(config, true)
    }

    /// An empty repository.
    pub fn with_tier_config(cache_config: TieredCacheConfig, tier_enabled: bool) -> (r: Self)
        requires
            cache_config.hot_max_count <= max_cap(),
            cache_config.warm_max_count <= max_cap(),
        ensures
            r.wf(),
            r@.cache.hot.len() == 0,
            r@.cache.warm.len() == 0,
            r@.cache.cold_loaded == 0,
            r@.cache.config == cache_config,
            r@.cache.hot_cap == cap_of(cache_config.hot_max_count),
            r@.cache.warm_cap == cap_of(cache_config.warm_max_count),
            r@.persist_dirty == Set::<Seq<char>>::empty(),
            r@.score_dirty == Set::<Seq<char>>::empty(),
            r@.tier_enabled == tier_enabled,
    {
        TrackerRepoImpl {
            cache: TieredCache::new(cache_config),
            persist_dirty: FxSet::new(),
            score_dirty: FxSet::new(),
            tier_enabled,
        }
    }

    fn put(&mut self, url: &str, s: TrackerStats, now: u64)
        requires
            old(self).wf(),
        ensures
            final(self).wf(),
            final(self)@ == old(self)@.stored(url@, s, now),
    {
        let ghost t = self@;
        proof {
            encode_utf8_valid_utf8(url@);
            lemma_stored_keys(t.cache, encode_utf8(url@), s, now);
        }
        self.cache.put(copy_bytes(url.as_bytes()), s, now);
    }

    fn find(&self, url: &str, saved: &Option<TrackerRow>) -> (r: Option<TrackerStats>)
        requires
            self.wf(),
        ensures
            r == self@.found(url@, saved_view(*saved)),
    {
        match self.cache.peek(url.as_bytes()) {
            Some(s) => Some(*s),
            None => if self.tier_enabled {
                match saved {
                    Some(row) => Some(read_row(row)),
                    None => None,
                }
            } else {
                None
            },
        }
    }

    /// Whether a tracker is in memory.
    pub fn in_memory(&self, url: &str) -> (r: bool)
        requires
            self.wf(),
        ensures
            r == self@.cache.has(TrackerTable::key(url@)),
    {
        self.cache.contains(url.as_bytes())
    }

    fn add_one(&mut self, url: &String, last_seen: u64, saved: &Option<TrackerRow>, now: u64) -> (r:
        bool)
        requires
            old(self).wf(),
        ensures
            final(self).wf(),
            final(self)@ == old(self)@.added((url@, last_seen), saved_view(*saved), now),
            r == (old(self)@.found(url@, saved_view(*saved)) is None),
    {
        let ghost t = self@;
        let (s, is_new) = match self.find(url.as_str(), saved) {
            Some(s) => {
                let keep = match s.last_used {
                    Some(t) => last_seen <= t,
                    None => false,
                };
                if keep {
                    (s, false)
                } else {
                    (TrackerStats { last_used: Some(last_seen), ..s }, false)
                }
            },
            None => (
                TrackerStats {
                    score: START_SCORE,
                    disabled: false,
                    total_requests: 0,
                    success_requests: 0,
                    failed_requests: 0,
                    total_peers_discovered: 0,
                    avg_response_time_ms: 0,
                    consecutive_failures: 0,
                    last_used: Some(last_seen),
                },
                true,
            ),
        };
        self.put(url.as_str(), s, now);
        let _ = self.persist_dirty.insert(url.clone());
        proof {
            assert(self@ =~= t.added((url@, last_seen), saved_view(*saved), now));
        }
        is_new
    }

    /// Takes note of trackers, without telling anybody else. Returns those of which nothing was
    /// known. `saved` is what is saved of each.
    pub fn add_trackers_batch_internal(
        &mut self,
        items: &[(String, u64)],
        saved: &[Option<TrackerRow>],
        now: u64,
    ) -> (r: Vec<String>)
        requires
            old(self).wf(),
            saved@.len() == items@.len(),
        ensures
            final(self).wf(),
            final(self)@ == old(self)@.added_all(item_views(items@), saved_views(saved@), now),
            texts_of(r@) == old(self)@.newcomers(item_views(items@), saved_views(saved@), now),
    {
        let ghost t = self@;
        let ghost all = item_views(items@);
        let ghost rows = saved_views(saved@);
        let mut fresh: Vec<String> = Vec::new();
        let mut i: usize = 0;
        proof {
            assert(all.take(0) =~= Seq::empty());
            assert(texts_of(fresh@) =~= Seq::empty());
        }
        while i < items.len()
            invariant
                self.wf(),
                saved@.len() == items@.len(),
                all == item_views(items@),
                rows == saved_views(saved@),
                0 <= i <= items@.len(),
                self@ == t.added_all(all.take(i as int), rows, now),
                texts_of(fresh@) == t.newcomers(all.take(i as int), rows, now),
            decreases items@.len() - i,
        {
            proof {
                assert(all.take(i + 1).drop_last() =~= all.take(i as int));
                assert(all.take(i + 1).last() == all[i as int]);
            }
            let ghost f = fresh@;
            let is_new = self.add_one(&items[i].0, items[i].1, &saved[i], now);
            if is_new {
                fresh.push(items[i].0.clone());
                proof {
                    assert(texts_of(fresh@) =~= texts_of(f).push(all[i as int].0));
                }
            }
            i = i + 1;
        }
        proof {
            assert(all.take(i as int) =~= all);
        }
        fresh
    }

    /// Takes note of a tracker that was come across here. Says whether nothing was known of it.
    pub fn add_tracker_sync(&mut self, url: &String, wall: u64, saved: &Option<TrackerRow>, now: u64)
        -> (r: bool)
        requires
            old(self).wf(),
        ensures
            final(self).wf(),
            final(self)@ == old(self)@.added((url@, wall), saved_view(*saved), now),
            r == (old(self)@.found(url@, saved_view(*saved)) is None),
    {
        self.add_one(url, wall, saved, now)
    }

    /// Takes note of trackers that were come across here. Returns how many there were of which
    /// nothing was known, and these.
    pub fn add_trackers_sync_batch(
        &mut self,
        urls: &[String],
        wall: u64,
        saved: &[Option<TrackerRow>],
        now: u64,
    ) -> (r: (usize, Vec<String>))
        requires
            old(self).wf(),
            saved@.len() == urls@.len(),
        ensures
            final(self).wf(),
            final(self)@ == old(self)@.added_all(met_at(urls@, wall), saved_views(saved@), now),
            texts_of(r.1@) == old(self)@.newcomers(
                met_at(urls@, wall),
                saved_views(saved@),
                now,
            ),
            r.0 == r.1@.len(),
    {
        let mut items: Vec<(String, u64)> = Vec::new();
        let mut i: usize = 0;
        while i < urls.len()
            invariant
                0 <= i <= urls@.len(),
                item_views(items@) == met_at(urls@.take(i as int), wall),
            decreases urls@.len() - i,
        {
            let ghost before = items@;
            items.push((urls[i].as_str().to_owned(), wall));
            i = i + 1;
            proof {
                let want = met_at(urls@.take(i as int), wall);
                assert(met_at(urls@.take(i - 1), wall) =~= want.drop_last());
                assert(item_views(items@).drop_last() =~= item_views(before));
                assert(item_views(items@).len() == want.len());
                assert(item_views(items@).last() == want.last());
                assert forall|k: int| 0 <= k < want.len() implies #[trigger] item_views(items@)[k]
                    == want[k] by {
                    if k < i - 1 {
                        assert(item_views(items@).drop_last()[k] == want.drop_last()[k]);
                    }
                }
                assert(item_views(items@) =~= want);
            }
        }
        proof {
            assert(urls@.take(i as int) =~= urls@);
            assert(item_views(items@).len() == items@.len());
        }
        let fresh = self.add_trackers_batch_internal(items.as_slice(), saved, now);
        (fresh.len(), fresh)
    }

    /// Looks a tracker up. What is found counts as used and is in memory afterwards.
    pub fn get_tracker_sync(&mut self, url: &str, saved: &Option<TrackerRow>, now: u64) -> (r: Option<
        TrackerEntry,
    >)
        requires
            old(self).wf(),
        ensures
            final(self).wf(),
            ({
                let found = old(self)@.found(url@, saved_view(*saved));
                &&& r is Some <==> found is Some
                &&& r matches Some(e) ==> e.url@ == url@ && found == Some(e.stats())
                &&& final(self)@ == match found {
                    Some(s) => old(self)@.stored(url@, s, now),
                    None => old(self)@,
                }
            }),
    {
        match self.find(url, saved) {
            Some(s) => {
                self.put(url, s, now);
                Some(TrackerEntry::of(url.to_owned(), s))
            },
            None => None,
        }
    }

    /// The trackers in memory, hot ones first, in each tier the most recently used first.
    pub fn all_trackers_sync(&self) -> (r: Vec<TrackerEntry>)
        requires
            self.wf(),
        ensures
            are_entries(r@, in_memory(self@.cache)),
    {
        let list = self.cache.iter();
        let ghost all = in_memory(self@.cache);
        let mut out: Vec<TrackerEntry> = Vec::new();
        let mut i: usize = 0;
        while i < list.len()
            invariant
                self.wf(),
                all == in_memory(self@.cache),
                list@.len() == all.len(),
                forall|k: int|
                    0 <= k < list@.len() ==> (#[trigger] list@[k]).0@ == all[k].0 && *list@[k].1
                        == all[k].1,
                0 <= i <= list@.len(),
                out@.len() == i,
                forall|k: int|
                    0 <= k < i ==> (#[trigger] out@[k]).url@ == decode_utf8(all[k].0)
                        && out@[k].stats() == all[k].1,
            decreases list@.len() - i,
        {
            proof {
                let c = self@.cache;
                if i < c.hot.len() {
                    assert(c.hot[i as int].0 == all[i as int].0);
                    assert(has_key(c.hot, all[i as int].0));
                } else {
                    assert(c.warm[i - c.hot.len()].0 == all[i as int].0);
                    assert(has_key(c.warm, all[i as int].0));
                }
                assert(c.has(all[i as int].0));
            }
            let key = copy_bytes(list[i].0.as_slice());
            match utf8_strict(key) {
                Some(url) => {
                    out.push(TrackerEntry::of(url, *list[i].1));
                },
                None => {},
            }
            i = i + 1;
        }
        out
    }

    /// The trackers in memory that are not disabled, in the same order.
    pub fn active_trackers_sync(&self) -> (r: Vec<TrackerEntry>)
        requires
            self.wf(),
        ensures
            are_entries(r@, in_memory(self@.cache).filter(is_active())),
    {
        let trackers = self.all_trackers_sync();
        let ghost all = in_memory(self@.cache);
        let ghost p = is_active();
        let mut out: Vec<TrackerEntry> = Vec::new();
        let mut i: usize = 0;
        proof {
            reveal(Seq::filter);
        }
        while i < trackers.len()
            invariant
                are_entries(trackers@, all),
                p == is_active(),
                0 <= i <= trackers@.len(),
                are_entries(out@, all.take(i as int).filter(p)),
            decreases trackers@.len() - i,
        {
            proof {
                lemma_filter_step(all, p, i as int);
            }
            let t = &trackers[i];
            if !t.disabled {
                out.push(
                    TrackerEntry {
                        url: t.url.clone(),
                        score: t.score,
                        disabled: t.disabled,
                        total_requests: t.total_requests,
                        success_requests: t.success_requests,
                        failed_requests: t.failed_requests,
                        total_peers_discovered: t.total_peers_discovered,
                        avg_response_time_ms: t.avg_response_time_ms,
                        consecutive_failures: t.consecutive_failures,
                        last_used: t.last_used,
                    },
                );
            }
            i = i + 1;
        }
        proof {
            assert(all.take(i as int) =~= all);
        }
        out
    }
}

/// The keys by which trackers are ranked.
pub open spec fn ranks(s: Seq<(Seq<u8>, TrackerStats)>) -> Seq<SortKey> {
    Seq::new(s.len(), |i: int| rank_of(s[i].1.score))
}

/// The first `n` trackers, or all, in a given order.
pub open spec fn first_of(
    s: Seq<(Seq<u8>, TrackerStats)>,
    order: Seq<usize>,
    n: nat,
) -> Seq<(Seq<u8>, TrackerStats)> {
    Seq::new(
        if n <= s.len() {
            n
        } else {
            s.len()
        },
        |i: int| s[order[i] as int],
    )
}

/// The test for trackers whose address is among some.
pub open spec fn among(urls: Set<Seq<char>>) -> spec_fn((Seq<u8>, TrackerStats)) -> bool {
    |e: (Seq<u8>, TrackerStats)| urls.contains(decode_utf8(e.0))
}

/// Whether rows tell of given trackers.
pub open spec fn are_rows(r: Seq<TrackerRow>, s: Seq<(Seq<u8>, TrackerStats)>) -> bool {
    &&& r.len() == s.len()
    &&& forall|i: int|
        0 <= i < r.len() ==> (#[trigger] r[i]).url@ == decode_utf8(s[i].0) && saved_stats(r[i])
            == (TrackerStats { last_used: None, ..s[i].1 })
}

/// What is to be saved: rows, and the addresses that they are for.
pub struct TrackerSave {
    pub urls: Vec<String>,
    pub rows: Vec<TrackerRow>,
}

impl TrackerTable {
    /// The table after a score was set: of a tracker in memory in place, of one that is saved
    /// as used now.
    pub open spec fn scored(
        self,
        url: Seq<char>,
        score: i64,
        saved: Option<TrackerStats>,
        now: u64,
    ) -> TrackerTable {
        let k = Self::key(url);
        match self.found(url, saved) {
            Some(s) => TrackerTable {
                cache: if self.cache.has(k) {
                    self.cache.revised(k, TrackerStats { score, ..s })
                } else {
                    self.cache.stored(k, TrackerStats { score, ..s }, now)
                },
                score_dirty: self.score_dirty.insert(url),
                ..self
            },
            None => self,
        }
    }

    /// The table after scores of trackers in memory were set, one after the other.
    pub open spec fn scored_all(self, scores: Seq<(Seq<char>, i64)>) -> TrackerTable
        decreases scores.len(),
    {
        if scores.len() == 0 {
            self
        } else {
            self.scored_all(scores.drop_last()).scored(scores.last().0, scores.last().1, None, 0)
        }
    }

    /// The table after what is known of a tracker changed to `s`, and the tracker was marked.
    pub open spec fn replaced(self, url: Seq<char>, s: Option<TrackerStats>, now: u64) -> TrackerTable {
        (match s {
            Some(s) => self.stored(url, s, now),
            None => self,
        }).marked(url)
    }

    /// The table after saved trackers were read, one after the other.
    pub open spec fn loaded_all(self, rows: Seq<TrackerRow>, now: u64) -> TrackerTable
        decreases rows.len(),
    {
        if rows.len() == 0 {
            self
        } else {
            self.loaded_all(rows.drop_last(), now).stored(
                rows.last().url@,
                saved_stats(rows.last()),
                now,
            )
        }
    }
}

/// The texts and scores of a list.
pub open spec fn score_views(s: Seq<(String, i64)>) -> Seq<(Seq<char>, i64)> {
    Seq::new(s.len(), |i: int| (s[i].0@, s[i].1))
}

impl TrackerRepoImpl {
    /// The `n` trackers in memory with the highest scores that are not disabled, highest
    /// first, those with the same score in the order of memory.
    pub fn top_trackers_sync(&self, n: usize) -> (r: Vec<TrackerEntry>)
        requires
            self.wf(),
        ensures
            ({
                let active = in_memory(self@.cache).filter(is_active());
                exists|order: Seq<usize>| #[trigger]
                    orders(ranks(active), order) && are_entries(
                        r@,
                        first_of(active, order, n as nat),
                    )
            }),
    {
        let trackers = self.active_trackers_sync();
        let ghost active = in_memory(self@.cache).filter(is_active());
        let mut keys: Vec<SortKey> = Vec::new();
        let mut i: usize = 0;
        while i < trackers.len()
            invariant
                are_entries(trackers@, active),
                0 <= i <= trackers@.len(),
                keys@.len() == i,
                forall|k: int| 0 <= k < i ==> #[trigger] keys@[k] == rank_of(active[k].1.score),
            decreases trackers@.len() - i,
        {
            keys.push((0, (i64::MAX as i128 - trackers[i].score as i128) as u128, 0));
            proof {
                assert(trackers@[i as int].stats() == active[i as int].1);
            }
            i = i + 1;
        }
        proof {
            assert(keys@ =~= ranks(active));
        }
        let order = stable_order(&keys);
        let count: usize = if n <= order.len() {
            n
        } else {
            order.len()
        };
        let mut out: Vec<TrackerEntry> = Vec::new();
        let mut j: usize = 0;
        while j < count
            invariant
                are_entries(trackers@, active),
                orders(ranks(active), order@),
                0 <= j <= count <= order@.len(),
                order@.len() == trackers@.len(),
                out@.len() == j,
                forall|k: int|
                    0 <= k < j ==> (#[trigger] out@[k]).url@ == decode_utf8(
                        active[order@[k] as int].0,
                    ) && out@[k].stats() == active[order@[k] as int].1,
            decreases count - j,
        {
            let t = &trackers[order[j]];
            out.push(
                TrackerEntry {
                    url: t.url.clone(),
                    score: t.score,
                    disabled: t.disabled,
                    total_requests: t.total_requests,
                    success_requests: t.success_requests,
                    failed_requests: t.failed_requests,
                    total_peers_discovered: t.total_peers_discovered,
                    avg_response_time_ms: t.avg_response_time_ms,
                    consecutive_failures: t.consecutive_failures,
                    last_used: t.last_used,
                },
            );
            j = j + 1;
        }
        proof {
            assert(are_entries(out@, first_of(active, order@, n as nat)));
        }
        out
    }

    /// How many trackers are in memory.
    pub fn count_sync(&self) -> (r: usize)
        requires
            self.wf(),
        ensures
            r == self@.cache.hot.len() + self@.cache.warm.len(),
    {
        self.cache.len()
    }

    /// How many trackers are hot and warm, and how many were loaded since the start.
    pub fn cache_stats(&self) -> (r: (usize, usize, u64))
        requires
            self.wf(),
        ensures
            r.0 == self@.cache.hot.len(),
            r.1 == self@.cache.warm.len(),
            r.2 == self@.cache.cold_loaded,
    {
        self.cache.stats()
    }

    /// Sets the score of a tracker of which something is known.
    pub fn update_score_sync(&mut self, url: &str, score: i64, saved: &Option<TrackerRow>, now: u64)
        requires
            old(self).wf(),
        ensures
            final(self).wf(),
            final(self)@ == old(self)@.scored(url@, score, saved_view(*saved), now),
    {
        let ghost t = self@;
        match self.find(url, saved) {
            Some(s) => {
                let next = TrackerStats { score, ..s };
                if self.in_memory(url) {
                    proof {
                        lemma_revised_keys(t.cache, TrackerTable::key(url@), next);
                    }
                    let f = |v: TrackerStats| -> (w: TrackerStats)
                        ensures
                            w == next,
                        { next };
                    let _ = self.cache.update_without_touch(url.as_bytes(), f);
                } else {
                    self.put(url, next, now);
                }
                let _ = self.score_dirty.insert(url.to_owned());
                proof {
                    assert(self@ =~= t.scored(url@, score, saved_view(*saved), now));
                }
            },
            None => {},
        }
    }

    /// Sets scores of trackers in memory.
    pub fn update_scores_batch(&mut self, scores: &[(String, i64)])
        requires
            old(self).wf(),
        ensures
            final(self).wf(),
            final(self)@ == old(self)@.scored_all(score_views(scores@)),
    {
        let ghost t = self@;
        let ghost all = score_views(scores@);
        let none: Option<TrackerRow> = None;
        let mut i: usize = 0;
        proof {
            assert(all.take(0) =~= Seq::empty());
        }
        while i < scores.len()
            invariant
                self.wf(),
                none is None,
                all == score_views(scores@),
                0 <= i <= scores@.len(),
                self@ == t.scored_all(all.take(i as int)),
            decreases scores@.len() - i,
        {
            proof {
                assert(all.take(i + 1).drop_last() =~= all.take(i as int));
                assert(all.take(i + 1).last() == all[i as int]);
            }
            self.update_score_sync(scores[i].0.as_str(), scores[i].1, &none, 0);
            i = i + 1;
        }
        proof {
            assert(all.take(i as int) =~= all);
        }
    }

    /// Takes note of a request to a tracker. `mean` makes the new mean response time of the
    /// old one and the latency of a success.
    pub fn record_request_sync<F: FnOnce(u64, u64) -> u64>(
        &mut self,
        url: &str,
        success: bool,
        peers: u64,
        latency_ms: u64,
        mean: F,
        saved: &Option<TrackerRow>,
        wall: u64,
        now: u64,
    )
        requires
            old(self).wf(),
            forall|a: u64, b: u64| call_requires(mean, (a, b)),
        ensures
            final(self).wf(),
            match old(self)@.found(url@, saved_view(*saved)) {
                Some(s) => exists|m: u64|
                    (success ==> call_ensures(mean, (s.avg_response_time_ms, latency_ms), m))
                        && final(self)@ == old(self)@.replaced(
                        url@,
                        Some(#[trigger] after_request(s, success, peers, m, wall)),
                        now,
                    ),
                None => final(self)@ == old(self)@.replaced(url@, None, now),
            },
    {
        let ghost t = self@;
        match self.find(url, saved) {
            Some(s) => {
                let mut n = s;
                let mut m: u64 = 0;
                n.total_requests = s.total_requests.wrapping_add(1);
                if success {
                    n.success_requests = s.success_requests.wrapping_add(1);
                    n.total_peers_discovered = s.total_peers_discovered.wrapping_add(peers);
                    n.consecutive_failures = 0;
                    m = mean(s.avg_response_time_ms, latency_ms);
                    n.avg_response_time_ms = m;
                } else {
                    n.failed_requests = s.failed_requests.wrapping_add(1);
                    n.consecutive_failures = s.consecutive_failures.wrapping_add(1);
                    if n.consecutive_failures >= MAX_FAILURES {
                        n.disabled = true;
                    }
                }
                n.last_used = Some(wall);
                proof {
                    assert(n == after_request(s, success, peers, m, wall));
                }
                self.put(url, n, now);
                self.mark_dirty_sync(url);
                proof {
                    assert(self@ =~= t.replaced(
                        url@,
                        Some(after_request(s, success, peers, m, wall)),
                        now,
                    ));
                }
            },
            None => {
                self.mark_dirty_sync(url);
            },
        }
    }

    /// Switches a tracker off or on.
    pub fn set_disabled_sync(
        &mut self,
        url: &str,
        disabled: bool,
        saved: &Option<TrackerRow>,
        now: u64,
    )
        requires
            old(self).wf(),
        ensures
            final(self).wf(),
            final(self)@ == old(self)@.replaced(
                url@,
                match old(self)@.found(url@, saved_view(*saved)) {
                    Some(s) => Some(switched(s, disabled)),
                    None => None,
                },
                now,
            ),
    {
        match self.find(url, saved) {
            Some(s) => {
                let mut n = s;
                n.disabled = disabled;
                if !disabled {
                    n.consecutive_failures = 0;
                }
                self.put(url, n, now);
            },
            None => {},
        }
        self.mark_dirty_sync(url);
    }

    /// Marks a tracker as changed.
    pub fn mark_dirty_sync(&mut self, url: &str)
        requires
            old(self).wf(),
        ensures
            final(self).wf(),
            final(self)@ == old(self)@.marked(url@),
    {
        let _ = self.persist_dirty.insert(url.to_owned());
    }

    /// The trackers that are marked as changed, in an order that is left open.
    pub fn dirty_trackers_sync(&self) -> (r: Vec<String>)
        requires
            self.wf(),
        ensures
            lists(texts_of(r@), self@.persist_dirty),
    {
        let r = self.persist_dirty.elements();
        proof {
            assert(models(r@) =~= texts_of(r@));
        }
        r
    }

    /// Takes the mark off several trackers.
    pub fn clear_dirty_batch_sync(&mut self, urls: &[String])
        requires
            old(self).wf(),
        ensures
            final(self).wf(),
            final(self)@ == (TrackerTable {
                persist_dirty: old(self)@.persist_dirty.difference(texts_of(urls@).to_set()),
                ..old(self)@
            }),
    {
        self.persist_dirty.remove_each(urls);
        proof {
            assert(models(urls@) =~= texts_of(urls@));
        }
    }

    /// Takes all marks off.
    pub fn clear_all_dirty_sync(&mut self)
        requires
            old(self).wf(),
        ensures
            final(self).wf(),
            final(self)@ == (TrackerTable { persist_dirty: Set::empty(), ..old(self)@ }),
    {
        self.persist_dirty.clear();
    }

    /// The trackers that are marked as changed, in an order that is left open; all marks are
    /// taken off.
    pub fn take_dirty_sync(&mut self) -> (r: Vec<String>)
        requires
            old(self).wf(),
        ensures
            final(self).wf(),
            final(self)@ == (TrackerTable { persist_dirty: Set::empty(), ..old(self)@ }),
            lists(texts_of(r@), old(self)@.persist_dirty),
    {
        let r = self.dirty_trackers_sync();
        self.persist_dirty.clear();
        r
    }

    /// How many trackers are marked as changed.
    pub fn dirty_count_sync(&self) -> (r: usize)
        requires
            self.wf(),
        ensures
            r == self@.persist_dirty.len(),
    {
        self.persist_dirty.len()
    }

    /// The trackers whose score changed, in an order that is left open; they do not count as
    /// such any more.
    pub fn take_score_dirty_sync(&mut self) -> (r: Vec<String>)
        requires
            old(self).wf(),
        ensures
            final(self).wf(),
            final(self)@ == (TrackerTable { score_dirty: Set::empty(), ..old(self)@ }),
            lists(texts_of(r@), old(self)@.score_dirty),
    {
        let r = self.score_dirty.elements();
        self.score_dirty.clear();
        proof {
            assert(models(r@) =~= texts_of(r@));
        }
        r
    }

    /// How many trackers have a changed score.
    pub fn score_dirty_count_sync(&self) -> (r: usize)
        requires
            self.wf(),
        ensures
            r == self@.score_dirty.len(),
    {
        self.score_dirty.len()
    }

    /// No score counts as changed any more.
    pub fn clear_score_dirty_sync(&mut self)
        requires
            old(self).wf(),
        ensures
            final(self).wf(),
            final(self)@ == (TrackerTable { score_dirty: Set::empty(), ..old(self)@ }),
    {
        self.score_dirty.clear();
    }

    /// The rows of those of the trackers that are in memory, in the order of memory.
    pub fn build_dirty_batch(&self, dirty_urls: &[String]) -> (r: Vec<TrackerRow>)
        requires
            self.wf(),
        ensures
            are_rows(
                r@,
                in_memory(self@.cache).filter(among(texts_of(dirty_urls@).to_set())),
            ),
    {
        let trackers = self.all_trackers_sync();
        let ghost all = in_memory(self@.cache);
        let ghost set = texts_of(dirty_urls@).to_set();
        let ghost p = among(set);
        let mut wanted: FxSet<String> = FxSet::new();
        let mut j: usize = 0;
        proof {
            assert(texts_of(dirty_urls@).take(0).to_set() =~= Set::empty());
        }
        while j < dirty_urls.len()
            invariant
                wanted.wf(),
                0 <= j <= dirty_urls@.len(),
                wanted@ == texts_of(dirty_urls@).take(j as int).to_set(),
            decreases dirty_urls@.len() - j,
        {
            let _ = wanted.insert(dirty_urls[j].clone());
            proof {
                let s = texts_of(dirty_urls@).take(j as int);
                let a = dirty_urls@[j as int]@;
                assert(texts_of(dirty_urls@).take(j + 1) =~= s.push(a));
                assert(s.push(a).to_set() =~= s.to_set().insert(a)) by {
                    assert forall|x: Seq<char>| s.push(a).to_set().contains(x) <==> s.to_set().insert(
                        a,
                    ).contains(x) by {
                        crate::ranking::lemma_push_member(s, a, x);
                    }
                }
            }
            j = j + 1;
        }
        proof {
            assert(texts_of(dirty_urls@).take(j as int) =~= texts_of(dirty_urls@));
        }
        let mut out: Vec<TrackerRow> = Vec::new();
        let mut i: usize = 0;
        proof {
            reveal(Seq::filter);
        }
        while i < trackers.len()
            invariant
                wanted.wf(),
                wanted@ == set,
                p == among(set),
                are_entries(trackers@, all),
                0 <= i <= trackers@.len(),
                are_rows(out@, all.take(i as int).filter(p)),
            decreases trackers@.len() - i,
        {
            proof {
                lemma_filter_step(all, p, i as int);
            }
            if wanted.contains(&trackers[i].url) {
                out.push(trackers[i].to_row());
            }
            i = i + 1;
        }
        proof {
            assert(all.take(i as int) =~= all);
        }
        out
    }

    /// What is to be saved, if anything. Where a queue takes it, the marks are taken off at
    /// once; where not, they stay until `finish_save`, unless no marked tracker is in memory.
    pub fn begin_save(&mut self, queued: bool) -> (r: Option<TrackerSave>)
        requires
            old(self).wf(),
        ensures
            final(self).wf(),
            ({
                let rows = in_memory(old(self)@.cache).filter(among(old(self)@.persist_dirty));
                &&& r is Some <==> rows.len() > 0
                &&& r matches Some(b) ==> lists(texts_of(b.urls@), old(self)@.persist_dirty)
                    && are_rows(b.rows@, rows)
                &&& final(self)@ == if queued || r is None {
                    (TrackerTable { persist_dirty: Set::empty(), ..old(self)@ })
                } else {
                    old(self)@
                }
            }),
    {
        let ghost t = self@;
        let urls = self.dirty_trackers_sync();
        let rows = self.build_dirty_batch(urls.as_slice());
        proof {
            assert(texts_of(urls@).to_set() =~= t.persist_dirty) by {
                assert forall|x: Seq<char>| texts_of(urls@).to_set().contains(x)
                    <==> t.persist_dirty.contains(x) by {
                    assert(texts_of(urls@).contains(x) <==> t.persist_dirty.contains(x));
                }
            }
        }
        if rows.len() == 0 {
            self.persist_dirty.clear();
            return None;
        }
        if queued {
            self.persist_dirty.clear();
        }
        Some(TrackerSave { urls, rows })
    }

    /// What is to be done once a batch was saved, or not: the marks are taken off, or stay for
    /// the next attempt.
    pub fn finish_save(&mut self, batch: &TrackerSave, saved: bool)
        requires
            old(self).wf(),
        ensures
            final(self).wf(),
            final(self)@ == if saved {
                (TrackerTable {
                    persist_dirty: old(self)@.persist_dirty.difference(
                        texts_of(batch.urls@).to_set(),
                    ),
                    ..old(self)@
                })
            } else {
                old(self)@
            },
    {
        if saved {
            self.clear_dirty_batch_sync(batch.urls.as_slice());
        }
    }

    /// Takes in saved trackers. Returns how many rows there were.
    pub fn load_all(&mut self, rows: &[TrackerRow], now: u64) -> (r: usize)
        requires
            old(self).wf(),
        ensures
            final(self).wf(),
            final(self)@ == old(self)@.loaded_all(rows@, now),
            r == rows@.len(),
    {
        let ghost t = self@;
        let mut i: usize = 0;
        proof {
            assert(rows@.take(0) =~= Seq::empty());
        }
        while i < rows.len()
            invariant
                self.wf(),
                0 <= i <= rows@.len(),
                self@ == t.loaded_all(rows@.take(i as int), now),
            decreases rows@.len() - i,
        {
            proof {
                assert(rows@.take(i + 1).drop_last() =~= rows@.take(i as int));
            }
            self.put(rows[i].url.as_str(), read_row(&rows[i]), now);
            i = i + 1;
        }
        proof {
            assert(rows@.take(i as int) =~= rows@);
        }
        rows.len()
    }

    /// Forgets a tracker.
    pub fn remove_tracker(&mut self, url: &str)
        requires
            old(self).wf(),
        ensures
            final(self).wf(),
            final(self)@ == (TrackerTable {
                cache: old(self)@.cache.removed(TrackerTable::key(url@)),
                persist_dirty: old(self)@.persist_dirty.remove(url@),
                score_dirty: old(self)@.score_dirty.remove(url@),
                ..old(self)@
            }),
    {
        let ghost t = self@;
        let key = url.to_owned();
        let _ = self.cache.remove(url.as_bytes());
        let _ = self.persist_dirty.remove(&key);
        let _ = self.score_dirty.remove(&key);
        proof {
            let k = TrackerTable::key(url@);
            lemma_without(t.cache.hot, k);
            lemma_without(t.cache.warm, k);
            assert forall|x: Seq<u8>| #[trigger] self@.cache.has(x) implies valid_utf8(x) by {
                assert(x != k);
                assert(t.cache.has(x));
            }
        }
    }

    /// Lets trackers age and keeps memory within its room. Returns the keys that memory lost, in
    /// an order that is left open.
    pub fn tier_evict(&mut self, now: u64) -> (r: Vec<Vec<u8>>)
        requires
            old(self).wf(),
        ensures
            final(self).wf(),
            final(self)@ == (TrackerTable {
                cache: after_evict(old(self)@.cache, now),
                ..old(self)@
            }),
            lists(
                crate::sorting::texts(r@),
                Set::new(|k: Seq<u8>| old(self)@.cache.has(k) && !final(self)@.cache.has(k)),
            ),
    {
        let ghost t = self@;
        let ghost c = t.cache;
        let before = self.memory_keys();
        let _ = self.cache.tier_check(now);
        let _ = self.cache.evict_if_needed();
        proof {
            lemma_evict_keys(c, now);
            assert(self.cache@ == after_evict(c, now));
            assert forall|x: Seq<u8>| #[trigger] self@.cache.has(x) implies valid_utf8(x) by {
                assert(after_evict(c, now).has(x));
                assert(c.has(x));
            }
        }
        let ghost d = self@.cache;
        let ghost p = |k: Seq<u8>| !d.has(k);
        let ghost all = crate::sorting::texts(before@);
        let mut out: Vec<Vec<u8>> = Vec::new();
        let mut i: usize = 0;
        proof {
            reveal(Seq::filter);
            assert(crate::sorting::texts(out@) =~= all.take(0).filter(p));
        }
        while i < before.len()
            invariant
                self.wf(),
                d == self@.cache,
                p == (|k: Seq<u8>| !d.has(k)),
                all == crate::sorting::texts(before@),
                0 <= i <= before@.len(),
                crate::sorting::texts(out@) == all.take(i as int).filter(p),
            decreases before@.len() - i,
        {
            proof {
                lemma_filter_step(all, p, i as int);
            }
            let ghost o = out@;
            if !self.cache.contains(before[i].as_slice()) {
                let key = copy_bytes(before[i].as_slice());
                out.push(key);
                proof {
                    assert(crate::sorting::texts(out@) =~= crate::sorting::texts(o).push(
                        all[i as int],
                    ));
                }
            }
            i = i + 1;
        }
        proof {
            assert(all.take(i as int) =~= all);
            let had = Set::new(|k: Seq<u8>| c.has(k));
            crate::ranking::lemma_lists_filter(all, had, p);
            assert(had.filter(p) =~= Set::new(|k: Seq<u8>| c.has(k) && !d.has(k)));
        }
        out
    }

    fn memory_keys(&self) -> (r: Vec<Vec<u8>>)
        requires
            self.wf(),
        ensures
            lists(crate::sorting::texts(r@), Set::new(|k: Seq<u8>| self@.cache.has(k))),
    {
        let list = self.cache.iter();
        let ghost c = self@.cache;
        let mut out: Vec<Vec<u8>> = Vec::new();
        let mut i: usize = 0;
        while i < list.len()
            invariant
                0 <= i <= list@.len(),
                out@.len() == i,
                forall|k: int| 0 <= k < i ==> (#[trigger] out@[k])@ == list@[k].0@,
            decreases list@.len() - i,
        {
            out.push(copy_bytes(list[i].0.as_slice()));
            i = i + 1;
        }
        proof {
            let s = crate::sorting::texts(out@);
            let g = crate::storage::recency::key_of::<(TrackerStats, u64)>();
            assert forall|a: int| 0 <= a < s.len() implies #[trigger] s[a] == (if a < c.hot.len() {
                c.hot[a].0
            } else {
                c.warm[a - c.hot.len()].0
            }) by {
                assert(out@[a]@ == list@[a].0@);
            }
            assert forall|a: int, b: int| 0 <= a < b < s.len() implies s[a] != s[b] by {
                if b < c.hot.len() {
                    assert(g(c.hot[a]) != g(c.hot[b]));
                } else if a >= c.hot.len() {
                    assert(g(c.warm[a - c.hot.len()]) != g(c.warm[b - c.hot.len()]));
                } else {
                    assert(has_key(c.hot, c.hot[a].0));
                    assert(c.warm[b - c.hot.len()].0 == s[b]);
                    if s[a] == s[b] {
                        assert(has_key(c.warm, s[a]));
                    }
                }
            }
            let had = Set::new(|k: Seq<u8>| c.has(k));
            assert forall|x: Seq<u8>| #[trigger] s.contains(x) <==> had.contains(x) by {
                if s.contains(x) {
                    let a = choose|a: int| 0 <= a < s.len() && s[a] == x;
                    if a < c.hot.len() {
                        assert(c.hot[a].0 == x);
                    } else {
                        assert(c.warm[a - c.hot.len()].0 == x);
                    }
                }
                if has_key(c.hot, x) {
                    let a = choose|a: int| 0 <= a < c.hot.len() && (#[trigger] c.hot[a]).0 == x;
                    assert(s[a] == x);
                } else if has_key(c.warm, x) {
                    let a = choose|a: int| 0 <= a < c.warm.len() && (#[trigger] c.warm[a]).0 == x;
                    assert(s[c.hot.len() + a] == x);
                }
            }
        }
        out
    }

    /// Drops trackers from memory when it runs out.
    pub fn emergency_evict(&mut self, count: usize)
        requires
            old(self).wf(),
        ensures
            final(self).wf(),
            final(self)@ == (TrackerTable {
                cache: old(self)@.cache.emptied(count as int),
                ..old(self)@
            }),
    {
        let ghost t = self@;
        let _ = self.cache.emergency_evict(count);
        proof {
            let c = t.cache;
            let d = self@.cache;
            assert forall|x: Seq<u8>| #[trigger] d.has(x) implies valid_utf8(x) by {
                if has_key(d.hot, x) {
                    let a = choose|a: int| 0 <= a < d.hot.len() && (#[trigger] d.hot[a]).0 == x;
                    assert(c.hot[a].0 == x);
                } else {
                    let a = choose|a: int| 0 <= a < d.warm.len() && (#[trigger] d.warm[a]).0 == x;
                    assert(c.warm[a].0 == x);
                }
                assert(c.has(x));
            }
        }
    }
}

/// Memory after trackers aged and it was brought within its room.
pub open spec fn after_evict(c: TierState<TrackerStats>, now: u64) -> TierState<TrackerStats> {
    c.aged(now).cut(c.config.hot_max_count as int, c.config.warm_max_count as int)
}

proof fn lemma_put_all_keys(
    s: Seq<(Seq<u8>, (TrackerStats, u64))>,
    cap: nat,
    es: Seq<(Seq<u8>, (TrackerStats, u64))>,
    x: Seq<u8>,
)
    requires
        0 < cap,
        has_key(crate::storage::tiered_cache::put_all(s, cap, es), x),
    ensures
        has_key(s, x) || has_key(es, x),
    decreases es.len(),
{
    if es.len() > 0 {
        let e = es.last();
        assert(e == es[es.len() - 1]);
        if x != e.0 {
            lemma_put_keys(
                crate::storage::tiered_cache::put_all(s, cap, es.drop_last()),
                cap,
                e.0,
                e.1,
                x,
            );
            lemma_put_all_keys(s, cap, es.drop_last(), x);
            if has_key(es.drop_last(), x) {
                let i = choose|i: int|
                    0 <= i < es.drop_last().len() && (#[trigger] es.drop_last()[i]).0 == x;
                assert(es[i].0 == x);
            }
        }
    }
}

proof fn lemma_filter_key<T>(s: Seq<(Seq<u8>, T)>, p: spec_fn((Seq<u8>, T)) -> bool, x: Seq<u8>)
    requires
        has_key(s.filter(p), x),
    ensures
        has_key(s, x),
{
    let f = s.filter(p);
    let i = choose|i: int| 0 <= i < f.len() && (#[trigger] f[i]).0 == x;
    crate::storage::tiered_cache::lemma_filter_members(s, p, i);
    let j = choose|j: int| 0 <= j < s.len() && s[j] == f[i];
    assert(s[j].0 == x);
}

proof fn lemma_evict_keys(c: TierState<TrackerStats>, now: u64)
    requires
        c.wf(),
    ensures
        forall|x: Seq<u8>| #[trigger] after_evict(c, now).has(x) ==> c.has(x),
{
    let d = after_evict(c, now);
    let a = c.aged(now);
    assert forall|x: Seq<u8>| #[trigger] d.has(x) implies c.has(x) by {
        if has_key(d.hot, x) {
            let i = choose|i: int| 0 <= i < d.hot.len() && (#[trigger] d.hot[i]).0 == x;
            assert(a.hot[i].0 == x);
            assert(has_key(a.hot, x));
            lemma_filter_key(
                c.hot,
                crate::storage::tiered_cache::recent_use(now, c.config.hot_threshold_secs),
                x,
            );
        } else {
            let i = choose|i: int| 0 <= i < d.warm.len() && (#[trigger] d.warm[i]).0 == x;
            assert(a.warm[i].0 == x);
            assert(has_key(a.warm, x));
            lemma_filter_key(
                c.demoted(now).warm,
                crate::storage::tiered_cache::recent_use(now, c.config.warm_threshold_secs),
                x,
            );
            let stale = c.hot.filter(
                crate::storage::tiered_cache::stale(now, c.config.hot_threshold_secs),
            );
            lemma_put_all_keys(c.warm, c.warm_cap, stale, x);
            if has_key(stale, x) {
                lemma_filter_key(
                    c.hot,
                    crate::storage::tiered_cache::stale(now, c.config.hot_threshold_secs),
                    x,
                );
            }
        }
    }
}

/// A tracker after requests at these times, each of which failed.
pub open spec fn after_failures(s: TrackerStats, walls: Seq<u64>) -> TrackerStats
    decreases walls.len(),
{
    if walls.len() == 0 {
        s
    } else {
        after_request(after_failures(s, walls.drop_last()), false, 0, 0, walls.last())
    }
}

/// A tracker whose requests fail ten times in a row is disabled, however many more fail; one
/// that was not disabled is not disabled before.
pub proof fn ten_failures_disable(s: TrackerStats, walls: Seq<u64>)
    requires
        s.consecutive_failures == 0,
    ensures
        walls.len() < MAX_FAILURES ==> after_failures(s, walls).disabled == s.disabled,
        walls.len() < MAX_FAILURES ==> after_failures(s, walls).consecutive_failures == walls.len(),
        walls.len() >= MAX_FAILURES ==> after_failures(s, walls).disabled,
    decreases walls.len(),
{
    if walls.len() > 0 {
        ten_failures_disable(s, walls.drop_last());
    }
}

/// A disabled tracker stays so, whatever becomes of requests to it, until it is switched on
/// again; a single success forgets the failures.
pub proof fn disabled_stays_so(s: TrackerStats, peers: u64, mean: u64, wall: u64)
    ensures
        s.disabled ==> after_request(s, false, peers, mean, wall).disabled && after_request(
            s,
            true,
            peers,
            mean,
            wall,
        ).disabled,
        after_request(s, true, peers, mean, wall).consecutive_failures == 0,
        !switched(s, false).disabled && switched(s, false).consecutive_failures == 0,
{
}

/// What is known of a tracker that was heard of is found again, without turning to what is
/// saved, and nothing that is known of it but the time of its last use is lost.
pub proof fn added_is_found(
    t: TrackerTable,
    url: Seq<char>,
    last_seen: u64,
    saved: Option<TrackerStats>,
    other: Option<TrackerStats>,
    now: u64,
)
    requires
        t.wf(),
    ensures
        ({
            let u = t.added((url, last_seen), saved, now);
            &&& u.found(url, other) is Some
            &&& t.found(url, saved) matches Some(s) ==> u.found(url, other) == Some(
                seen_at(s, last_seen),
            )
            &&& t.found(url, saved) is None ==> u.found(url, other) == Some(new_stats(last_seen))
            &&& u.persist_dirty.contains(url)
        }),
{
    let s = match t.found(url, saved) {
        Some(s) => seen_at(s, last_seen),
        None => new_stats(last_seen),
    };
    crate::storage::tiered_cache::write_then_read(t.cache, TrackerTable::key(url), s, now);
}

/// A tracker that was saved is found again with all that was known of it but the time of its
/// last use: after a restart that read it, and by turning to what is saved where memory has
/// lost it.
pub proof fn saved_tracker_is_found(t: TrackerTable, e: TrackerEntry, row: TrackerRow, now: u64)
    requires
        t.wf(),
        row.url@ == e.url@,
        saved_stats(row) == (TrackerStats { last_used: None, ..e.stats() }),
    ensures
        t.loaded_all(seq![row], now).found(e.url@, None) == Some(
            TrackerStats { last_used: None, ..e.stats() },
        ),
        t.tier_enabled && !t.cache.has(TrackerTable::key(e.url@)) ==> t.found(
            e.url@,
            Some(saved_stats(row)),
        ) == Some(TrackerStats { last_used: None, ..e.stats() }),
{
    assert(seq![row].drop_last() =~= Seq::empty());
    reveal_with_fuel(TrackerTable::loaded_all, 2);
    crate::storage::tiered_cache::write_then_read(
        t.cache,
        TrackerTable::key(row.url@),
        saved_stats(row),
        now,
    );
}

/// A tracker that is forgotten is not found in memory and is not saved again.
pub proof fn removed_is_gone(t: TrackerTable, url: Seq<char>)
    requires
        t.wf(),
    ensures
        ({
            let u = TrackerTable {
                cache: t.cache.removed(TrackerTable::key(url)),
                persist_dirty: t.persist_dirty.remove(url),
                score_dirty: t.score_dirty.remove(url),
                ..t
            };
            u.found(url, None) is None && !u.persist_dirty.contains(url) && !u.score_dirty.contains(
                url,
            )
        }),
{
    crate::storage::tiered_cache::remove_then_read(
        t.cache,
        TrackerTable::key(url),
        TrackerTable::key(url),
    );
}

} // verus!
