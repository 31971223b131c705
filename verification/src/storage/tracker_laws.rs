//! What holds of the trackers that are known.

use vstd::prelude::*;

use crate::sorting::{lemma_order_covers, orders};
use crate::storage::tiered_cache::{write_then_read, TierState};
use crate::storage::tracker_repo::{
    after_evict, after_failures, after_request, among, are_entries, are_rows, first_of, in_memory,
    is_active, met_at, new_stats, ranks, saved_stats, seen_at, switched, TrackerEntry, TrackerRow,
    TrackerStats, TrackerTable,
};

verus! {

/// The best trackers stand in the order of their scores, none of them is disabled, each stands
/// there once, and no other that is not disabled has a greater score than one of them.
pub proof fn best_trackers_come_first(
    c: TierState<TrackerStats>,
    order: Seq<usize>,
    n: nat,
    r: Seq<TrackerEntry>,
    i: int,
    k: int,
)
    requires
        ({
            let active = in_memory(c).filter(is_active());
            &&& orders(ranks(active), order)
            &&& are_entries(r, first_of(active, order, n))
        }),
        in_memory(c).len() <= usize::MAX,
        0 <= i < r.len(),
    ensures
        r.len() <= n,
        r.len() == n || r.len() == in_memory(c).filter(|e: (Seq<u8>, TrackerStats)| !e.1.disabled).len(),
        !r[i].disabled,
        forall|j: int| i < j < r.len() ==> r[i].score >= (#[trigger] r[j]).score,
        0 <= k < in_memory(c).len() && !in_memory(c)[k].1.disabled && in_memory(c)[k].1.score
            > r[i].score ==> exists|j: int|
            0 <= j < i && (#[trigger] r[j]).stats() == in_memory(c)[k].1 && r[j].url@
                == vstd::utf8::decode_utf8(in_memory(c)[k].0),
{
    let all = in_memory(c);
    let active = all.filter(is_active());
    let best = first_of(active, order, n);
    let keys = ranks(active);
    assert(is_active() =~= |e: (Seq<u8>, TrackerStats)| !e.1.disabled);
    assert(r[i].stats() == best[i].1);
    all.lemma_filter_pred(is_active(), order[i] as int);
    assert forall|j: int| i < j < r.len() implies r[i].score >= (#[trigger] r[j]).score by {
        assert(r[j].stats() == best[j].1);
        let a = keys[order[i] as int];
        let b = keys[order[j] as int];
    }
    if 0 <= k < all.len() && !all[k].1.disabled && all[k].1.score > r[i].score {
        crate::storage::recency::lemma_filter_keeps(all, is_active(), k);
        let m = choose|m: int| 0 <= m < active.len() && active[m] == all[k];
        all.lemma_filter_len(is_active());
        lemma_order_covers(keys, order, m);
        let j = choose|j: int| 0 <= j < order.len() && (#[trigger] order[j]) == m;
        if j >= i {
            if j > i {
                let a = keys[order[i] as int];
                let b = keys[order[j] as int];
            }
            assert(false);
        }
        assert(r[j].stats() == best[j].1);
    }
}

/// What is listed of memory are all its entries, hot and warm, and nothing else.
pub proof fn all_of_memory_is_listed(c: TierState<TrackerStats>, k: Seq<u8>, s: TrackerStats)
    ensures
        in_memory(c).contains((k, s)) <==> (exists|i: int|
            0 <= i < c.hot.len() && (#[trigger] c.hot[i]).0 == k && c.hot[i].1.0 == s) || (exists|
            i: int,
        |
            0 <= i < c.warm.len() && (#[trigger] c.warm[i]).0 == k && c.warm[i].1.0 == s),
        in_memory(c).len() == c.hot.len() + c.warm.len(),
{
    let all = in_memory(c);
    if all.contains((k, s)) {
        let i = choose|i: int| 0 <= i < all.len() && all[i] == (k, s);
        if i < c.hot.len() {
            assert(c.hot[i].0 == k);
        } else {
            assert(c.warm[i - c.hot.len()].0 == k);
        }
    }
    if exists|i: int| 0 <= i < c.hot.len() && (#[trigger] c.hot[i]).0 == k && c.hot[i].1.0 == s {
        let i = choose|i: int|
            0 <= i < c.hot.len() && (#[trigger] c.hot[i]).0 == k && c.hot[i].1.0 == s;
        assert(all[i] == (k, s));
    }
    if exists|i: int| 0 <= i < c.warm.len() && (#[trigger] c.warm[i]).0 == k && c.warm[i].1.0 == s {
        let i = choose|i: int|
            0 <= i < c.warm.len() && (#[trigger] c.warm[i]).0 == k && c.warm[i].1.0 == s;
        assert(all[c.hot.len() + i] == (k, s));
    }
}

/// Every request counts once, as a success or as a failure; the peers that it brought are added;
/// the score is left alone.
pub proof fn requests_are_counted(
    s: TrackerStats,
    success: bool,
    peers: u64,
    mean: u64,
    wall: u64,
)
    requires
        s.total_requests < u64::MAX,
        s.success_requests < u64::MAX,
        s.failed_requests < u64::MAX,
        s.total_peers_discovered + peers <= u64::MAX,
        s.consecutive_failures < u32::MAX,
    ensures
        ({
            let t = after_request(s, success, peers, mean, wall);
            &&& t.total_requests == s.total_requests + 1
            &&& t.success_requests == s.success_requests + (if success {
                1int
            } else {
                0
            })
            &&& t.failed_requests == s.failed_requests + (if success {
                0int
            } else {
                1
            })
            &&& t.total_peers_discovered == s.total_peers_discovered + (if success {
                peers as int
            } else {
                0
            })
            &&& t.consecutive_failures == (if success {
                0
            } else {
                s.consecutive_failures + 1
            })
            &&& t.avg_response_time_ms == (if success {
                mean
            } else {
                s.avg_response_time_ms
            })
            &&& t.score == s.score
            &&& t.last_used == Some(wall)
        }),
{
}

/// Nine failures in a row disable nobody, the tenth does.
pub proof fn the_tenth_failure_disables(s: TrackerStats, walls: Seq<u64>)
    requires
        s.consecutive_failures == 0,
        !s.disabled,
    ensures
        walls.len() <= 9 ==> !after_failures(s, walls).disabled,
        walls.len() >= 10 ==> after_failures(s, walls).disabled,
{
    crate::storage::tracker_repo::ten_failures_disable(s, walls);
}

/// A tracker was last used at the latest time of which it is known, and nothing else of it is
/// changed by being seen; one that is new starts with nothing counted.
pub proof fn the_latest_use_counts(s: TrackerStats, t: u64)
    ensures
        seen_at(s, t).last_used matches Some(u) && u >= t,
        s.last_used matches Some(u) ==> seen_at(s, t).last_used == Some(
            if u >= t {
                u
            } else {
                t
            },
        ),
        s.last_used is None ==> seen_at(s, t).last_used == Some(t),
        (TrackerStats { last_used: s.last_used, ..seen_at(s, t) }) == s,
        new_stats(t).last_used == Some(t),
        !new_stats(t).disabled,
        new_stats(t).total_requests == 0 && new_stats(t).success_requests == 0
            && new_stats(t).failed_requests == 0 && new_stats(t).consecutive_failures == 0
            && new_stats(t).total_peers_discovered == 0,
{
}

/// Switching a tracker off or on does that; its counts are left alone, but for the failures in a
/// row, which are forgotten when it is switched on.
pub proof fn switching_touches_nothing_else(s: TrackerStats, off: bool)
    ensures
        switched(s, off).disabled == off,
        off ==> switched(s, off).consecutive_failures == s.consecutive_failures,
        !off ==> switched(s, off).consecutive_failures == 0,
        (TrackerStats {
            disabled: s.disabled,
            consecutive_failures: s.consecutive_failures,
            ..switched(s, off)
        }) == s,
{
}

/// A score that is set is found again, with all else that is known of the tracker, which is
/// marked; a tracker of which nothing is known does not become known by it.
pub proof fn a_set_score_is_found(
    t: TrackerTable,
    url: Seq<char>,
    score: i64,
    saved: Option<TrackerStats>,
    now: u64,
)
    requires
        t.wf(),
    ensures
        t.found(url, saved) is None ==> t.scored(url, score, saved, now) == t,
        t.found(url, saved) matches Some(s) ==> {
            &&& t.scored(url, score, saved, now).found(url, None) == Some(
                TrackerStats { score, ..s },
            )
            &&& t.scored(url, score, saved, now).score_dirty.contains(url)
            &&& t.scored(url, score, saved, now).persist_dirty == t.persist_dirty
        },
{
    let k = TrackerTable::key(url);
    if let Some(s) = t.found(url, saved) {
        let v = TrackerStats { score, ..s };
        if t.cache.has(k) {
            crate::storage::cache_laws::revised_is_read_back(t.cache, k, v);
        } else {
            write_then_read(t.cache, k, v, now);
        }
    }
}

/// A tracker is new exactly where nothing is known of it, neither in memory nor saved.
pub proof fn only_unknown_trackers_are_new(
    t: TrackerTable,
    items: Seq<(Seq<char>, u64)>,
    item: (Seq<char>, u64),
    saved: Seq<Option<TrackerStats>>,
    now: u64,
)
    requires
        saved.len() > items.len(),
    ensures
        t.newcomers(Seq::empty(), saved, now).len() == 0,
        t.added_all(items.push(item), saved, now) == t.added_all(items, saved, now).added(
            item,
            saved[items.len() as int],
            now,
        ),
        t.added_all(items, saved, now).found(item.0, saved[items.len() as int]) is None
            ==> t.newcomers(items.push(item), saved, now) == t.newcomers(items, saved, now).push(
            item.0,
        ),
        t.added_all(items, saved, now).found(item.0, saved[items.len() as int]) is Some
            ==> t.newcomers(items.push(item), saved, now) == t.newcomers(items, saved, now),
{
    assert(items.push(item).drop_last() =~= items);
}

/// What is known of a tracker is what memory holds, else what is saved where that is used.
pub proof fn memory_goes_before_what_is_saved(
    t: TrackerTable,
    url: Seq<char>,
    s: TrackerStats,
    saved: Option<TrackerStats>,
)
    ensures
        t.cache.lookup(vstd::utf8::encode_utf8(url)) == Some(s) ==> t.found(url, saved) == Some(s),
        t.cache.lookup(vstd::utf8::encode_utf8(url)) is None && t.tier_enabled ==> t.found(
            url,
            saved,
        ) == saved,
        t.cache.lookup(vstd::utf8::encode_utf8(url)) is None && !t.tier_enabled ==> t.found(
            url,
            saved,
        ) is None,
{
}

/// What changed of a tracker is found again and is to be saved; where nothing is known of it, it
/// is only marked.
pub proof fn a_change_is_found_again(t: TrackerTable, url: Seq<char>, s: TrackerStats, now: u64)
    requires
        t.wf(),
    ensures
        t.replaced(url, Some(s), now).found(url, None) == Some(s),
        t.replaced(url, Some(s), now).persist_dirty.contains(url),
        t.replaced(url, None, now).cache == t.cache,
        t.replaced(url, None, now).persist_dirty == t.persist_dirty.insert(url),
        t.replaced(url, Some(s), now).score_dirty == t.score_dirty,
{
    write_then_read(t.cache, TrackerTable::key(url), s, now);
}

/// What is saved are the trackers in memory whose addresses are among the changed ones, with all
/// that is known of them but the time of their last use.
pub proof fn the_changed_are_saved(
    c: TierState<TrackerStats>,
    urls: Set<Seq<char>>,
    r: Seq<TrackerRow>,
    i: int,
    k: int,
)
    requires
        are_rows(r, in_memory(c).filter(among(urls))),
    ensures
        0 <= i < r.len() ==> urls.contains(r[i].url@),
        0 <= k < in_memory(c).len() && urls.contains(vstd::utf8::decode_utf8(in_memory(c)[k].0))
            ==> exists|j: int|
            0 <= j < r.len() && (#[trigger] r[j]).url@ == vstd::utf8::decode_utf8(in_memory(c)[k].0)
                && r[j].score == in_memory(c)[k].1.score && r[j].disabled
                == in_memory(c)[k].1.disabled && r[j].total_requests
                == in_memory(c)[k].1.total_requests,
{
    let all = in_memory(c);
    let p = among(urls);
    let f = all.filter(p);
    if 0 <= i < r.len() {
        all.lemma_filter_pred(p, i);
        assert(r[i].url@ == vstd::utf8::decode_utf8(f[i].0));
    }
    if 0 <= k < all.len() && urls.contains(vstd::utf8::decode_utf8(all[k].0)) {
        crate::storage::recency::lemma_filter_keeps(all, p, k);
        let j = choose|j: int| 0 <= j < f.len() && f[j] == all[k];
        assert(r[j].url@ == vstd::utf8::decode_utf8(f[j].0));
        assert(saved_stats(r[j]) == (TrackerStats { last_used: None, ..f[j].1 }));
    }
}

/// Trackers that are come across at one time were all seen at that time.
pub proof fn met_together(urls: Seq<String>, wall: u64, i: int)
    ensures
        met_at(urls, wall).len() == urls.len(),
        0 <= i < urls.len() ==> met_at(urls, wall)[i].0 == urls[i]@ && met_at(urls, wall)[i].1
            == wall,
{
}

/// After an eviction no tier holds more than it may, and what it holds was there or went warm.
pub proof fn evictions_make_room(c: TierState<TrackerStats>, now: u64)
    ensures
        after_evict(c, now).hot.len() <= c.config.hot_max_count,
        after_evict(c, now).warm.len() <= c.config.warm_max_count,
        after_evict(c, now).hot.len() <= c.hot.len(),
{
    c.hot.lemma_filter_len(
        crate::storage::tiered_cache::recent_use(now, c.config.hot_threshold_secs),
    );
}

} // verus!
