//! The torrents that are known, with a count of who refers to each.

use vstd::prelude::*;

use crate::ranking::{lemma_picked, lists_values, pick, picks};
use crate::sorting::{key_lt, SortKey};
use crate::storage::fx_map::{lists, models, FxMap, FxSet};
use crate::storage::repo_traits::InfohashRepository;
use crate::storage::tiered_cache::TieredCacheConfig;
use crate::types::Infohash;

verus! {

/// What is known of a torrent. The score is an integer that orders as the score does, zero
/// for zero; times are seconds since 1970.
pub struct InfohashEntry {
    pub ref_count: u32,
    pub first_source: String,
    pub score: i64,
    pub last_seen: u64,
}

/// A torrent as it is saved.
pub struct InfohashRow {
    pub infohash: Infohash,
    pub ref_count: u32,
    pub first_source: String,
    pub score: i64,
}

/// What is known of a torrent, by its contents.
#[verifier::ext_equal]
pub struct InfohashRecord {
    pub ref_count: u32,
    pub first_source: Seq<char>,
    pub score: i64,
    pub last_seen: u64,
}

impl View for InfohashEntry {
    type V = InfohashRecord;

    open spec fn view(&self) -> InfohashRecord {
        InfohashRecord {
            ref_count: self.ref_count,
            first_source: self.first_source@,
            score: self.score,
            last_seen: self.last_seen,
        }
    }
}

/// What the repository holds.
#[verifier::ext_equal]
pub struct InfohashTable {
    pub entries: Map<Infohash, InfohashRecord>,
    pub pending: Seq<(Infohash, Seq<char>)>,
    pub dirty: Set<Infohash>,
}

impl InfohashTable {
    /// The table after a torrent was reported, unless the report is older than what is known:
    /// one more refers to it, and it was seen at the later of the two times. Where it is now
    /// referred to once, it is queued to be saved.
    pub open spec fn registered(self, item: (Infohash, Seq<char>, u64)) -> InfohashTable {
        let (ih, source, last_seen) = item;
        if self.outdated(item) {
            self
        } else {
            let e = self.known(item);
            let n = InfohashRecord {
                ref_count: e.ref_count.wrapping_add(1),
                last_seen: if last_seen > e.last_seen {
                    last_seen
                } else {
                    e.last_seen
                },
                ..e
            };
            InfohashTable {
                entries: self.entries.insert(ih, n),
                pending: if n.ref_count == 1 {
                    self.pending.push((ih, source))
                } else {
                    self.pending
                },
                ..self
            }
        }
    }

    /// Whether a report is older than what is known.
    pub open spec fn outdated(self, item: (Infohash, Seq<char>, u64)) -> bool {
        self.entries.contains_key(item.0) && item.2 < self.entries[item.0].last_seen
    }

    /// What is known of a reported torrent; a new one nobody refers to.
    pub open spec fn known(self, item: (Infohash, Seq<char>, u64)) -> InfohashRecord {
        if self.entries.contains_key(item.0) {
            self.entries[item.0]
        } else {
            InfohashRecord { ref_count: 0, first_source: item.1, score: 0, last_seen: item.2 }
        }
    }

    /// Whether a report makes a torrent one that is referred to once.
    pub open spec fn is_news(self, item: (Infohash, Seq<char>, u64)) -> bool {
        !self.outdated(item) && self.known(item).ref_count.wrapping_add(1) == 1
    }

    /// The table after several torrents were reported, one after the other.
    pub open spec fn registered_all(self, items: Seq<(Infohash, Seq<char>, u64)>) -> InfohashTable
        decreases items.len(),
    {
        if items.len() == 0 {
            self
        } else {
            self.registered_all(items.drop_last()).registered(items.last())
        }
    }

    /// Those of the reports that made a torrent one that is referred to once.
    pub open spec fn news(self, items: Seq<(Infohash, Seq<char>, u64)>) -> Seq<
        (Infohash, Seq<char>),
    >
        decreases items.len(),
    {
        if items.len() == 0 {
            Seq::empty()
        } else {
            let before = self.news(items.drop_last());
            if self.registered_all(items.drop_last()).is_news(items.last()) {
                before.push((items.last().0, items.last().1))
            } else {
                before
            }
        }
    }

    /// The table after one less refers to a torrent that is known.
    pub open spec fn unregistered(self, ih: Infohash) -> InfohashTable {
        if self.entries.contains_key(ih) {
            let e = self.entries[ih];
            InfohashTable {
                entries: self.entries.insert(
                    ih,
                    InfohashRecord {
                        ref_count: if e.ref_count > 0 {
                            (e.ref_count - 1) as u32
                        } else {
                            0
                        },
                        ..e
                    },
                ),
                ..self
            }
        } else {
            self
        }
    }

    /// How many refer to a torrent.
    pub open spec fn refs(self, ih: Infohash) -> u32 {
        if self.entries.contains_key(ih) {
            self.entries[ih].ref_count
        } else {
            0
        }
    }

    /// The score of a torrent.
    pub open spec fn score(self, ih: Infohash) -> i64 {
        if self.entries.contains_key(ih) {
            self.entries[ih].score
        } else {
            0
        }
    }

    /// The table after a score was set where the torrent is known.
    pub open spec fn scored(self, item: (Infohash, i64)) -> InfohashTable {
        if self.entries.contains_key(item.0) {
            InfohashTable {
                entries: self.entries.insert(
                    item.0,
                    InfohashRecord { score: item.1, ..self.entries[item.0] },
                ),
                ..self
            }
        } else {
            self
        }
    }

    /// The table after several scores were set, one after the other.
    pub open spec fn scored_all(self, scores: Seq<(Infohash, i64)>) -> InfohashTable
        decreases scores.len(),
    {
        if scores.len() == 0 {
            self
        } else {
            self.scored_all(scores.drop_last()).scored(scores.last())
        }
    }

    /// The table after saved torrents were read, one after the other.
    pub open spec fn loaded_all(self, rows: Seq<InfohashRow>) -> InfohashTable
        decreases rows.len(),
    {
        if rows.len() == 0 {
            self
        } else {
            let r = rows.last();
            let t = self.loaded_all(rows.drop_last());
            InfohashTable {
                entries: t.entries.insert(
                    r.infohash,
                    InfohashRecord {
                        ref_count: r.ref_count,
                        first_source: r.first_source@,
                        score: r.score,
                        last_seen: 0,
                    },
                ),
                ..t
            }
        }
    }

    /// The scores of all torrents.
    pub open spec fn scores(self) -> Map<Infohash, (Infohash, i64)> {
        Map::new(
            |ih: Infohash| self.entries.contains_key(ih),
            |ih: Infohash| (ih, self.entries[ih].score),
        )
    }
}

/// The torrent of a scored torrent.
pub open spec fn torrent_of() -> spec_fn((Infohash, i64)) -> Infohash {
    |e: (Infohash, i64)| e.0
}

/// The test whether one torrent has a higher score than another.
pub open spec fn scores_higher() -> spec_fn((Infohash, i64), (Infohash, i64)) -> bool {
    |a: (Infohash, i64), b: (Infohash, i64)| a.1 > b.1
}

/// The contents of entries.
pub open spec fn records(m: Map<Infohash, InfohashEntry>) -> Map<Infohash, InfohashRecord> {
    Map::new(|ih: Infohash| m.contains_key(ih), |ih: Infohash| m[ih]@)
}

/// The contents of queued torrents.
pub open spec fn queued(s: Seq<(Infohash, String)>) -> Seq<(Infohash, Seq<char>)> {
    Seq::new(s.len(), |i: int| (s[i].0, s[i].1@))
}

/// The contents of reports.
pub open spec fn reports(s: Seq<(Infohash, String, u64)>) -> Seq<(Infohash, Seq<char>, u64)> {
    Seq::new(s.len(), |i: int| (s[i].0, s[i].1@, s[i].2))
}

/// The torrents that are known.
pub struct InfohashRepoImpl {
    entries: FxMap<Infohash, InfohashEntry>,
    pending: Vec<(Infohash, String)>,
    dirty: FxSet<Infohash>,
}

impl View for InfohashRepoImpl {
    type V = InfohashTable;

    closed spec fn view(&self) -> InfohashTable {
        InfohashTable {
            entries: records(self.entries@),
            pending: queued(self.pending@),
            dirty: self.dirty@,
        }
    }
}

impl InfohashRepoImpl {
    pub closed spec fn wf(self) -> bool {
        self.entries.wf() && self.dirty.wf()
    }

    /// An empty repository.
    pub fn new() -> (r: Self)
        ensures
            r.wf(),
            r@ == (InfohashTable {
                entries: Map::empty(),
                pending: Seq::empty(),
                dirty: Set::empty(),
            }),
    {
        let r = InfohashRepoImpl {
            entries: FxMap::new(),
            pending: Vec::new(),
            dirty: FxSet::new(),
        };
        proof {
            assert(records(r.entries@) =~= Map::empty());
            assert(queued(r.pending@) =~= Seq::empty());
        }
        r
    }

    /// An empty repository. It keeps everything in memory, whatever the configuration of
    /// the cache.
    pub fn with_tier_config(_cache_config: TieredCacheConfig, _tier_enabled: bool) -> (r: Self)
        ensures
            r.wf(),
            r@ == (InfohashTable {
                entries: Map::empty(),
                pending: Seq::empty(),
                dirty: Set::empty(),
            }),
    {
        Self::new()
    }

    /// Everything stays in memory: a regular check drops nothing.
    pub fn tier_evict(&mut self)
        requires
            old(self).wf(),
        ensures
            final(self).wf(),
            final(self)@ == old(self)@,
    {
    }

    /// Everything stays in memory: nothing is dropped even when memory is short.
    pub fn emergency_evict(&mut self, _count: usize)
        requires
            old(self).wf(),
        ensures
            final(self).wf(),
            final(self)@ == old(self)@,
    {
    }

    fn put(&mut self, ih: Infohash, e: InfohashEntry)
        requires
            old(self).wf(),
        ensures
            final(self).wf(),
            final(self)@ == (InfohashTable {
                entries: old(self)@.entries.insert(ih, e@),
                ..old(self)@
            }),
    {
        let ghost t = self@;
        let _ = self.entries.insert(ih, e);
        proof {
            assert(self@.entries =~= t.entries.insert(ih, e@));
        }
    }

    fn report(&mut self, ih: Infohash, source: &str, last_seen: u64) -> (r: bool)
        requires
            old(self).wf(),
        ensures
            final(self).wf(),
            final(self)@ == old(self)@.registered((ih, source@, last_seen)),
            r == old(self)@.is_news((ih, source@, last_seen)),
    {
        let ghost t = self@;
        let (known, first_source, score, seen) = match self.entries.get(&ih) {
            Some(e) => {
                if last_seen < e.last_seen {
                    return false;
                }
                (e.ref_count, e.first_source.clone(), e.score, e.last_seen)
            },
            None => (0, source.to_owned(), 0, last_seen),
        };
        let ref_count: u32 = known.wrapping_add(1);
        let last: u64 = if last_seen > seen {
            last_seen
        } else {
            seen
        };
        self.put(ih, InfohashEntry { ref_count, first_source, score, last_seen: last });
        if ref_count == 1 {
            self.pending.push((ih, source.to_owned()));
            proof {
                assert(queued(self.pending@) =~= t.pending.push((ih, source@)));
            }
            true
        } else {
            false
        }
    }

    /// Takes note of reports, without telling anybody else. Returns those that made a torrent
    /// one that is referred to once.
    pub fn register_batch_internal(&mut self, items: &[(Infohash, String, u64)]) -> (r: Vec<
        (Infohash, String),
    >)
        requires
            old(self).wf(),
        ensures
            final(self).wf(),
            final(self)@ == old(self)@.registered_all(reports(items@)),
            queued(r@) == old(self)@.news(reports(items@)),
    {
        let ghost t = self@;
        let ghost all = reports(items@);
        let mut news: Vec<(Infohash, String)> = Vec::new();
        let mut i: usize = 0;
        proof {
            assert(all.take(0) =~= Seq::empty());
            assert(queued(news@) =~= Seq::empty());
        }
        while i < items.len()
            invariant
                self.wf(),
                all == reports(items@),
                0 <= i <= items@.len(),
                self@ == t.registered_all(all.take(i as int)),
                queued(news@) == t.news(all.take(i as int)),
            decreases items@.len() - i,
        {
            proof {
                assert(all.take(i + 1).drop_last() =~= all.take(i as int));
                assert(all.take(i + 1).last() == all[i as int]);
            }
            let ghost before = news@;
            let fresh = self.report(items[i].0, items[i].1.as_str(), items[i].2);
            if fresh {
                news.push((items[i].0, items[i].1.clone()));
                proof {
                    assert(queued(news@) =~= queued(before).push((all[i as int].0, all[i as int].1)));
                }
            }
            i = i + 1;
        }
        proof {
            assert(all.take(i as int) =~= all);
        }
        news
    }

    /// Takes note of a torrent that was come across here. Says whether it is now referred to
    /// once.
    pub fn register_sync(&mut self, infohash: Infohash, source: &str, now: u64) -> (r: bool)
        requires
            old(self).wf(),
        ensures
            final(self).wf(),
            final(self)@ == old(self)@.registered((infohash, source@, now)),
            r == old(self)@.is_news((infohash, source@, now)),
    {
        self.report(infohash, source, now)
    }

    /// Takes note of several torrents that were come across here. Returns those that are now
    /// referred to once.
    pub fn register_batch_sync(&mut self, items: &[(Infohash, String)], now: u64) -> (r: Vec<
        (Infohash, String),
    >)
        requires
            old(self).wf(),
        ensures
            final(self).wf(),
            ({
                let all = Seq::new(items@.len(), |i: int| (items@[i].0, items@[i].1@, now));
                &&& final(self)@ == old(self)@.registered_all(all)
                &&& queued(r@) == old(self)@.news(all)
            }),
    {
        let mut stamped: Vec<(Infohash, String, u64)> = Vec::new();
        let mut i: usize = 0;
        while i < items.len()
            invariant
                0 <= i <= items@.len(),
                stamped@.len() == i,
                forall|k: int|
                    0 <= k < i ==> (#[trigger] stamped@[k]).0 == items@[k].0 && stamped@[k].1@
                        == items@[k].1@ && stamped@[k].2 == now,
            decreases items@.len() - i,
        {
            stamped.push((items[i].0, items[i].1.clone(), now));
            i = i + 1;
        }
        proof {
            assert(reports(stamped@) =~= Seq::new(
                items@.len(),
                |i: int| (items@[i].0, items@[i].1@, now),
            ));
        }
        self.register_batch_internal(stamped.as_slice())
    }

    /// How many torrents are known.
    pub fn count_sync(&self) -> (r: usize)
        requires
            self.wf(),
        ensures
            r == self@.entries.len(),
    {
        proof {
            assert(self.entries@.dom() =~= self@.entries.dom());
        }
        self.entries.len()
    }

    /// All torrents count as hot: how many there are, and no others.
    pub fn cache_stats(&self) -> (r: (usize, usize, u64))
        requires
            self.wf(),
        ensures
            r == (self@.entries.len() as usize, 0usize, 0u64),
    {
        (self.count_sync(), 0, 0)
    }

    fn torrents(&self) -> (r: Vec<Infohash>)
        requires
            self.wf(),
        ensures
            lists(r@, self@.entries.dom()),
    {
        let r = self.entries.keys();
        proof {
            assert(models(r@) =~= r@);
            assert(self.entries@.dom() =~= self@.entries.dom());
        }
        r
    }

    /// Every torrent with the time at which it was last seen, in an order that is left open.
    pub fn all_sync(&self) -> (r: Vec<(Infohash, u64)>)
        requires
            self.wf(),
        ensures
            lists(r@.map_values(|e: (Infohash, u64)| e.0), self@.entries.dom()),
            forall|i: int|
                0 <= i < r@.len() ==> (#[trigger] r@[i]).1 == self@.entries[r@[i].0].last_seen,
    {
        let keys = self.torrents();
        let mut out: Vec<(Infohash, u64)> = Vec::new();
        let mut i: usize = 0;
        while i < keys.len()
            invariant
                self.wf(),
                lists(keys@, self@.entries.dom()),
                0 <= i <= keys@.len(),
                out@.len() == i,
                forall|k: int|
                    0 <= k < i ==> (#[trigger] out@[k]).0 == keys@[k] && out@[k].1
                        == self@.entries[keys@[k]].last_seen,
            decreases keys@.len() - i,
        {
            proof {
                assert(keys@.contains(keys@[i as int]));
                assert(self@.entries.dom().contains(keys@[i as int]));
            }
            match self.entries.get(&keys[i]) {
                Some(e) => {
                    out.push((keys[i], e.last_seen));
                },
                None => {},
            }
            i = i + 1;
        }
        proof {
            assert(out@.map_values(|e: (Infohash, u64)| e.0) =~= keys@);
        }
        out
    }

    /// Hands the queued torrents over to be saved.
    pub fn flush_pending(&mut self) -> (r: Vec<(Infohash, String)>)
        requires
            old(self).wf(),
        ensures
            final(self).wf(),
            queued(r@) == old(self)@.pending,
            final(self)@ == (InfohashTable { pending: Seq::empty(), ..old(self)@ }),
    {
        let mut batch: Vec<(Infohash, String)> = Vec::new();
        std::mem::swap(&mut batch, &mut self.pending);
        proof {
            assert(queued(self.pending@) =~= Seq::empty());
        }
        batch
    }

    /// How many torrents are queued to be saved.
    pub fn pending_count(&self) -> (r: usize)
        requires
            self.wf(),
        ensures
            r == self@.pending.len(),
    {
        self.pending.len()
    }

    /// A row for every torrent, in an order that is left open.
    pub fn all_rows(&self) -> (r: Vec<InfohashRow>)
        requires
            self.wf(),
        ensures
            lists(r@.map_values(|e: InfohashRow| e.infohash), self@.entries.dom()),
            forall|i: int|
                0 <= i < r@.len() ==> {
                    let e = self@.entries[(#[trigger] r@[i]).infohash];
                    r@[i].ref_count == e.ref_count && r@[i].first_source@ == e.first_source
                        && r@[i].score == e.score
                },
    {
        let keys = self.torrents();
        let mut out: Vec<InfohashRow> = Vec::new();
        let mut i: usize = 0;
        while i < keys.len()
            invariant
                self.wf(),
                lists(keys@, self@.entries.dom()),
                0 <= i <= keys@.len(),
                out@.len() == i,
                forall|k: int|
                    0 <= k < i ==> {
                        let e = self@.entries[keys@[k]];
                        (#[trigger] out@[k]).infohash == keys@[k] && out@[k].ref_count
                            == e.ref_count && out@[k].first_source@ == e.first_source
                            && out@[k].score == e.score
                    },
            decreases keys@.len() - i,
        {
            proof {
                assert(keys@.contains(keys@[i as int]));
                assert(self@.entries.dom().contains(keys@[i as int]));
            }
            match self.entries.get(&keys[i]) {
                Some(e) => {
                    out.push(
                        InfohashRow {
                            infohash: keys[i],
                            ref_count: e.ref_count,
                            first_source: e.first_source.clone(),
                            score: e.score,
                        },
                    );
                },
                None => {},
            }
            i = i + 1;
        }
        proof {
            assert(out@.map_values(|e: InfohashRow| e.infohash) =~= keys@);
        }
        out
    }

    /// Takes in saved torrents. Returns how many rows there were.
    pub fn load_all(&mut self, rows: &[InfohashRow]) -> (r: usize)
        requires
            old(self).wf(),
        ensures
            final(self).wf(),
            final(self)@ == old(self)@.loaded_all(rows@),
            r == rows@.len(),
    {
        let ghost t = self@;
        let mut i: usize = 0;
        proof {
            assert(rows@.take(0) =~= Seq::empty());
        }
        while i < rows.len()
            invariant
                self.wf(),
                0 <= i <= rows@.len(),
                self@ == t.loaded_all(rows@.take(i as int)),
            decreases rows@.len() - i,
        {
            proof {
                assert(rows@.take(i + 1).drop_last() =~= rows@.take(i as int));
            }
            self.put(
                rows[i].infohash,
                InfohashEntry {
                    ref_count: rows[i].ref_count,
                    first_source: rows[i].first_source.clone(),
                    score: rows[i].score,
                    last_seen: 0,
                },
            );
            i = i + 1;
        }
        proof {
            assert(rows@.take(i as int) =~= rows@);
        }
        rows.len()
    }

    /// Sets the score of a torrent that is known.
    pub fn update_score(&mut self, infohash: &Infohash, score: i64)
        requires
            old(self).wf(),
        ensures
            final(self).wf(),
            final(self)@ == old(self)@.scored((*infohash, score)),
    {
        let next = match self.entries.get(infohash) {
            Some(e) => InfohashEntry {
                ref_count: e.ref_count,
                first_source: e.first_source.clone(),
                score,
                last_seen: e.last_seen,
            },
            None => {
                return;
            },
        };
        self.put(*infohash, next);
    }

    /// Sets scores of torrents that are known.
    pub fn update_scores_batch(&mut self, scores: &[(Infohash, i64)])
        requires
            old(self).wf(),
        ensures
            final(self).wf(),
            final(self)@ == old(self)@.scored_all(scores@),
    {
        let ghost t = self@;
        let mut i: usize = 0;
        proof {
            assert(scores@.take(0) =~= Seq::empty());
        }
        while i < scores.len()
            invariant
                self.wf(),
                0 <= i <= scores@.len(),
                self@ == t.scored_all(scores@.take(i as int)),
            decreases scores@.len() - i,
        {
            proof {
                assert(scores@.take(i + 1).drop_last() =~= scores@.take(i as int));
            }
            self.update_score(&scores[i].0, scores[i].1);
            i = i + 1;
        }
        proof {
            assert(scores@.take(i as int) =~= scores@);
        }
    }

    /// The score of a torrent, zero where it is not known.
    pub fn get_score(&self, infohash: &Infohash) -> (r: i64)
        requires
            self.wf(),
        ensures
            r == self@.score(*infohash),
    {
        match self.entries.get(infohash) {
            Some(e) => e.score,
            None => 0,
        }
    }

    /// The `n` torrents with the highest scores, highest first.
    pub fn top_infohashes(&self, n: usize) -> (r: Vec<(Infohash, i64)>)
        requires
            self.wf(),
        ensures
            picks(self@.scores(), torrent_of(), r@, n as nat, scores_higher()),
    {
        let keys = self.torrents();
        let ghost m = self@.scores();
        let mut found: Vec<(Infohash, i64)> = Vec::new();
        let mut order_keys: Vec<SortKey> = Vec::new();
        let mut i: usize = 0;
        while i < keys.len()
            invariant
                self.wf(),
                m == self@.scores(),
                lists(keys@, self@.entries.dom()),
                0 <= i <= keys@.len(),
                found@.len() == i,
                order_keys@.len() == i,
                forall|k: int|
                    0 <= k < i ==> (#[trigger] found@[k]) == (
                        keys@[k],
                        self@.entries[keys@[k]].score,
                    ),
                forall|k: int|
                    0 <= k < i ==> #[trigger] order_keys@[k] == (
                        0u64,
                        (i64::MAX - found@[k].1) as u128,
                        0u64,
                    ),
            decreases keys@.len() - i,
        {
            proof {
                assert(keys@.contains(keys@[i as int]));
                assert(self@.entries.dom().contains(keys@[i as int]));
            }
            match self.entries.get(&keys[i]) {
                Some(e) => {
                    found.push((keys[i], e.score));
                    order_keys.push((0, (i64::MAX as i128 - e.score as i128) as u128, 0));
                },
                None => {},
            }
            i = i + 1;
        }
        let (picked, Ghost(order)) = pick(&found, &order_keys, n);
        proof {
            assert(found@.len() == found.len());
            assert(found@.map_values(torrent_of()) =~= keys@);
            assert(m.dom() =~= self@.entries.dom());
            assert forall|k: int| 0 <= k < found@.len() implies m[(torrent_of())(
                #[trigger] found@[k],
            )] == found@[k] by {
                assert(keys@.contains(keys@[k]));
                assert(self@.entries.dom().contains(keys@[k]));
            }
            assert(lists_values(m, torrent_of(), found@));
            assert forall|a: int, b: int|
                0 <= a < found@.len() && 0 <= b < found@.len() implies ((scores_higher())(
                #[trigger] found@[a],
                #[trigger] found@[b],
            ) <==> key_lt(order_keys@[a], order_keys@[b])) by {
                assert(order_keys@[a].1 == i64::MAX - found@[a].1);
                assert(order_keys@[b].1 == i64::MAX - found@[b].1);
            }
            lemma_picked(
                m,
                torrent_of(),
                found@,
                order_keys@,
                order,
                n as nat,
                picked@,
                scores_higher(),
            );
        }
        picked
    }

    /// Marks a torrent as changed.
    pub fn mark_dirty_sync(&mut self, infohash: &Infohash)
        requires
            old(self).wf(),
        ensures
            final(self).wf(),
            final(self)@ == (InfohashTable {
                dirty: old(self)@.dirty.insert(*infohash),
                ..old(self)@
            }),
    {
        let _ = self.dirty.insert(*infohash);
    }

    /// The torrents that are marked as changed, in an order that is left open.
    pub fn dirty_infohashes_sync(&self) -> (r: Vec<Infohash>)
        requires
            self.wf(),
        ensures
            lists(r@, self@.dirty),
    {
        let r = self.dirty.elements();
        proof {
            assert(models(r@) =~= r@);
        }
        r
    }

    /// Takes all marks off.
    pub fn clear_all_dirty_sync(&mut self)
        requires
            old(self).wf(),
        ensures
            final(self).wf(),
            final(self)@ == (InfohashTable { dirty: Set::empty(), ..old(self)@ }),
    {
        self.dirty.clear();
    }
}

impl InfohashRepository for InfohashRepoImpl {
    open spec fn table(&self) -> InfohashTable {
        self@
    }

    open spec fn ok(&self) -> bool {
        self.wf()
    }

    fn register(&mut self, infohash: Infohash, source: &str, now: u64) {
        let _ = self.register_sync(infohash, source, now);
    }

    fn unregister(&mut self, infohash: &Infohash) {
        let next = match self.entries.get(infohash) {
            Some(e) => InfohashEntry {
                ref_count: if e.ref_count > 0 {
                    e.ref_count - 1
                } else {
                    0
                },
                first_source: e.first_source.clone(),
                score: e.score,
                last_seen: e.last_seen,
            },
            None => {
                return;
            },
        };
        self.put(*infohash, next);
    }

    fn ref_count(&self, infohash: &Infohash) -> (r: u32) {
        match self.entries.get(infohash) {
            Some(e) => e.ref_count,
            None => 0,
        }
    }

    fn all_infohashes(&self) -> (r: Vec<Infohash>) {
        self.torrents()
    }

    fn count(&self) -> (r: usize) {
        self.count_sync()
    }

    fn cleanup_zero_ref(&mut self) -> (r: usize) {
        0
    }
}

/// Of two reports of a torrent the later one decides when it was last seen, in whichever
/// order they come, and an older report than what is known changes nothing.
pub proof fn later_report_wins(
    t: InfohashTable,
    ih: Infohash,
    a: (Seq<char>, u64),
    b: (Seq<char>, u64),
)
    ensures
        ({
            let ab = t.registered((ih, a.0, a.1)).registered((ih, b.0, b.1));
            let ba = t.registered((ih, b.0, b.1)).registered((ih, a.0, a.1));
            &&& ab.entries[ih].last_seen == ba.entries[ih].last_seen
            &&& ab.entries[ih].last_seen >= a.1
            &&& ab.entries[ih].last_seen >= b.1
        }),
        t.outdated((ih, a.0, a.1)) ==> t.registered((ih, a.0, a.1)) == t,
{
}

/// Who takes a reference back that was just given leaves the count as it was.
pub proof fn unregister_undoes_register(t: InfohashTable, ih: Infohash, source: Seq<char>, now: u64)
    requires
        !t.outdated((ih, source, now)),
        t.refs(ih) < u32::MAX,
    ensures
        t.registered((ih, source, now)).refs(ih) == t.refs(ih) + 1,
        t.registered((ih, source, now)).unregistered(ih).refs(ih) == t.refs(ih),
{
}

/// Nothing that is ever known is forgotten: neither a report nor taking a reference back
/// takes a torrent out.
pub proof fn torrents_stay_known(
    t: InfohashTable,
    item: (Infohash, Seq<char>, u64),
    ih: Infohash,
    x: Infohash,
)
    requires
        t.entries.contains_key(x),
    ensures
        t.registered(item).entries.contains_key(x),
        t.unregistered(ih).entries.contains_key(x),
        t.registered(item).entries[x].first_source == t.entries[x].first_source,
{
}

/// What a torrent was saved as is read back, but for the time at which it was last seen.
pub proof fn saved_torrent_is_read_back(t: InfohashTable, u: InfohashTable, row: InfohashRow)
    requires
        t.entries.contains_key(row.infohash),
        row.ref_count == t.entries[row.infohash].ref_count,
        row.first_source@ == t.entries[row.infohash].first_source,
        row.score == t.entries[row.infohash].score,
    ensures
        u.loaded_all(seq![row]).refs(row.infohash) == t.refs(row.infohash),
        u.loaded_all(seq![row]).score(row.infohash) == t.score(row.infohash),
        u.loaded_all(seq![row]).entries[row.infohash] == (InfohashRecord {
            last_seen: 0,
            ..t.entries[row.infohash]
        }),
{
    assert(seq![row].drop_last() =~= Seq::empty());
    reveal_with_fuel(InfohashTable::loaded_all, 2);
}

/// Every report that makes a torrent one that is referred to once queues it to be saved.
pub proof fn news_are_queued(t: InfohashTable, items: Seq<(Infohash, Seq<char>, u64)>)
    ensures
        t.registered_all(items).pending == t.pending + t.news(items),
    decreases items.len(),
{
    if items.len() == 0 {
        assert(t.pending + t.news(items) =~= t.pending);
    } else {
        news_are_queued(t, items.drop_last());
        assert(t.registered_all(items).pending =~= t.pending + t.news(items));
    }
}

/// Reports of torrents from one source at one time.
pub open spec fn reports_from(ids: Seq<Infohash>, source: Seq<char>, now: u64) -> Seq<
    (Infohash, Seq<char>, u64),
> {
    Seq::new(ids.len(), |i: int| (ids[i], source, now))
}

/// Takes note of torrents from one source.
pub fn register_each(repo: &mut InfohashRepoImpl, ids: &Vec<Infohash>, source: &str, now: u64)
    requires
        old(repo).wf(),
    ensures
        final(repo).wf(),
        final(repo)@ == old(repo)@.registered_all(reports_from(ids@, source@, now)),
{
    let ghost t = repo@;
    let ghost all = reports_from(ids@, source@, now);
    let mut i: usize = 0;
    proof {
        assert(all.take(0) =~= Seq::empty());
    }
    while i < ids.len()
        invariant
            repo.wf(),
            all == reports_from(ids@, source@, now),
            0 <= i <= ids@.len(),
            repo@ == t.registered_all(all.take(i as int)),
        decreases ids@.len() - i,
    {
        proof {
            assert(all.take(i + 1).drop_last() =~= all.take(i as int));
            assert(all.take(i + 1).last() == all[i as int]);
        }
        let _ = repo.register_sync(ids[i], source, now);
        i = i + 1;
    }
    proof {
        assert(all.take(i as int) =~= all);
    }
}

} // verus!
