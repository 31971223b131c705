//! What holds of the cache of two tiers.

use vstd::prelude::*;

use crate::storage::recency::{has_key, lemma_filter_keeps, lemma_lru_put};
use crate::storage::tiered_cache::{lemma_filter_members, TierState};

verus! {

/// A key that is in a tier and gets another value reads as that value, and keeps its tier and
/// the time of its last use.
pub proof fn revised_is_read_back<V>(s: TierState<V>, k: Seq<u8>, v: V)
    requires
        s.wf(),
        s.has(k),
    ensures
        s.revised(k, v).lookup(k) == Some(v),
        s.revised(k, v).entry(k).1 == s.entry(k).1,
        has_key(s.hot, k) <==> has_key(s.revised(k, v).hot, k),
        has_key(s.hot, k) ==> s.revised(k, v).warm == s.warm,
        has_key(s.warm, k) ==> s.revised(k, v).hot == s.hot,
{
    let e = (v, s.entry(k).1);
    if has_key(s.hot, k) {
        lemma_lru_put(s.hot, s.hot_cap, k, e);
        assert(s.revised(k, v).hot[0].0 == k);
    } else {
        lemma_lru_put(s.warm, s.warm_cap, k, e);
        assert(s.revised(k, v).warm[0].0 == k);
    }
}

/// What was used within the threshold of its tier stays there when the cache ages.
pub proof fn the_recently_used_stay<V>(s: TierState<V>, now: u64, i: int)
    ensures
        0 <= i < s.hot.len() && s.hot[i].1.1 + s.config.hot_threshold_secs * 1_000_000_000 >= now
            ==> s.aged(now).hot.contains(s.hot[i]),
        0 <= i < s.aged(now).hot.len() ==> s.hot.contains(s.aged(now).hot[i]) && s.aged(
            now,
        ).hot[i].1.1 + s.config.hot_threshold_secs * 1_000_000_000 >= now,
        0 <= i < s.demoted(now).warm.len() && s.demoted(now).warm[i].1.1
            + s.config.warm_threshold_secs * 1_000_000_000 >= now ==> s.aged(now).warm.contains(
            s.demoted(now).warm[i],
        ),
        0 <= i < s.aged(now).warm.len() ==> s.aged(now).warm[i].1.1 + s.config.warm_threshold_secs
            * 1_000_000_000 >= now,
{
    let hot = crate::storage::tiered_cache::recent_use::<V>(now, s.config.hot_threshold_secs);
    let warm = crate::storage::tiered_cache::recent_use::<V>(now, s.config.warm_threshold_secs);
    if 0 <= i < s.hot.len() && s.hot[i].1.1 + s.config.hot_threshold_secs * 1_000_000_000 >= now {
        assert(hot(s.hot[i]));
        lemma_filter_keeps(s.hot, hot, i);
    }
    if 0 <= i < s.aged(now).hot.len() {
        lemma_filter_members(s.hot, hot, i);
        s.hot.lemma_filter_pred(hot, i);
    }
    let d = s.demoted(now).warm;
    if 0 <= i < d.len() && d[i].1.1 + s.config.warm_threshold_secs * 1_000_000_000 >= now {
        assert(warm(d[i]));
        lemma_filter_keeps(d, warm, i);
    }
    if 0 <= i < s.aged(now).warm.len() {
        d.lemma_filter_pred(warm, i);
    }
}

/// Cutting a tier to a size keeps as many of its entries as there is room for, and those that
/// were used last.
pub proof fn the_last_used_stay<V>(s: TierState<V>, hot_max: int, warm_max: int, i: int)
    requires
        0 <= hot_max,
        0 <= warm_max,
    ensures
        s.cut(hot_max, warm_max).hot.len() <= hot_max,
        s.cut(hot_max, warm_max).warm.len() <= warm_max,
        0 <= i < s.hot.len() && i < hot_max ==> i < s.cut(hot_max, warm_max).hot.len() && s.cut(
            hot_max,
            warm_max,
        ).hot[i] == s.hot[i],
        0 <= i < s.warm.len() && i < warm_max ==> i < s.cut(hot_max, warm_max).warm.len() && s.cut(
            hot_max,
            warm_max,
        ).warm[i] == s.warm[i],
{
}

/// An emergency drops from the end of a tier: what is left stands where it stood, and what goes
/// was used before everything of its tier that stays.
pub proof fn the_first_used_go<V>(s: TierState<V>, count: int, i: int)
    requires
        0 <= count,
    ensures
        s.emptied(count).hot.len() <= s.hot.len(),
        s.emptied(count).warm.len() <= s.warm.len(),
        0 <= i < s.emptied(count).hot.len() ==> s.emptied(count).hot[i] == s.hot[i],
        0 <= i < s.emptied(count).warm.len() ==> s.emptied(count).warm[i] == s.warm[i],
        count <= s.warm.len() ==> s.emptied(count).warm.len() == s.warm.len() - count && s.emptied(
            count,
        ).hot == s.hot,
        count > s.warm.len() ==> s.emptied(count).warm.len() == 0,
        s.warm.len() < count <= s.warm.len() + s.hot.len() ==> s.emptied(count).hot.len()
            == s.hot.len() - (count - s.warm.len()),
        count >= s.warm.len() + s.hot.len() ==> s.emptied(count).hot.len() == 0,
        0 <= i < s.emptied_keys(count).len() && i < s.warm.len() ==> s.emptied_keys(count)[i]
            == s.warm[s.warm.len() - 1 - i].0,
{
    assert(s.hot.take(s.hot.len() as int) =~= s.hot);
}

/// What ageing drops for its age is what went unused for longer than the threshold of the warm
/// tier, all of it and nothing else.
pub proof fn only_the_stale_are_dropped<V>(s: TierState<V>, now: u64, e: (Seq<u8>, (V, u64)))
    ensures
        s.aged_out(now).contains(e) <==> s.demoted(now).warm.contains(e) && e.1.1
            + s.config.warm_threshold_secs * 1_000_000_000 < now,
{
    let p = crate::storage::tiered_cache::stale::<V>(now, s.config.warm_threshold_secs);
    let d = s.demoted(now).warm;
    if s.aged_out(now).contains(e) {
        let i = choose|i: int| 0 <= i < s.aged_out(now).len() && s.aged_out(now)[i] == e;
        d.lemma_filter_pred(p, i);
        d.lemma_filter_contains_rev(p, e);
    }
    if d.contains(e) && e.1.1 + s.config.warm_threshold_secs * 1_000_000_000 < now {
        let i = choose|i: int| 0 <= i < d.len() && d[i] == e;
        assert(p(d[i]));
        lemma_filter_keeps(d, p, i);
    }
}

/// What went unused for longer than the threshold of the hot tier leaves it, and the one that is
/// put last is then the first of the warm tier.
pub proof fn the_stale_go_warm<V>(s: TierState<V>, now: u64, i: int)
    ensures
        0 <= i < s.demoted(now).hot.len() ==> s.demoted(now).hot[i].1.1
            + s.config.hot_threshold_secs * 1_000_000_000 >= now,
        s.hot.len() > 0 && s.hot.last().1.1 + s.config.hot_threshold_secs * 1_000_000_000 < now
            ==> s.demoted(now).warm.len() > 0 && s.demoted(now).warm[0] == s.hot.last(),
        (forall|k: int|
            0 <= k < s.hot.len() ==> (#[trigger] s.hot[k]).1.1 + s.config.hot_threshold_secs
                * 1_000_000_000 >= now) ==> s.demoted(now).warm == s.warm,
{
    let fresh = crate::storage::tiered_cache::recent_use::<V>(now, s.config.hot_threshold_secs);
    let p = crate::storage::tiered_cache::stale::<V>(now, s.config.hot_threshold_secs);
    if 0 <= i < s.demoted(now).hot.len() {
        s.hot.lemma_filter_pred(fresh, i);
    }
    if s.hot.len() > 0 && p(s.hot.last()) {
        reveal(Seq::filter);
        assert(s.hot.filter(p).last() == s.hot.last());
    }
    if forall|k: int|
        0 <= k < s.hot.len() ==> (#[trigger] s.hot[k]).1.1 + s.config.hot_threshold_secs
            * 1_000_000_000 >= now {
        if s.hot.filter(p).len() > 0 {
            s.hot.lemma_filter_pred(p, 0);
            lemma_filter_members(s.hot, p, 0);
        }
    }
}

} // verus!
