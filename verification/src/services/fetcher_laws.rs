//! What holds of the rounds in which trackers are asked.

use vstd::prelude::*;

use crate::services::tracker_fetcher::{
    beside, decoded, explores, first_of, rank_inputs_of, rank_keys, ranks, scraped, some_of,
    unasked, FetcherState, InfohashQueryStats, RankInputs,
};
use crate::sorting::{lemma_same_multiset, orders};
use crate::storage::recency::lemma_filter_keeps;
use crate::text::unhex;
use crate::types::Infohash;

verus! {

/// Ranked torrents are the scraped ones in another order: those with a greater score come first,
/// and those with the same score as they came.
pub proof fn greater_scores_come_first<F: Fn(i64, RankInputs) -> i64>(
    s: FetcherState,
    results: Seq<(Infohash, i64, i64, i64)>,
    score: F,
    now: u64,
    r: Seq<Infohash>,
)
    requires
        ranks(s, results, score, now, r),
    ensures
        r.len() == results.len(),
        exists|scores: Seq<i64>, at: Seq<usize>|
            #![trigger scores.len(), at.len()]
            scores.len() == results.len() && at.len() == results.len() && at.no_duplicates() && (
            forall|i: int|
                0 <= i < scores.len() ==> call_ensures(
                    score,
                    (results[i].1, rank_inputs_of(s.known(results[i].0), now)),
                    #[trigger] scores[i],
                )) && (forall|i: int|
                0 <= i < r.len() ==> (#[trigger] at[i]) < results.len() && r[i]
                    == results[at[i] as int].0) && (forall|i: int, j: int|
                0 <= i < j < r.len() ==> scores[(#[trigger] at[i]) as int] > scores[(
                #[trigger] at[j]) as int] || (scores[at[i] as int] == scores[at[j] as int] && at[i]
                    < at[j])),
{
    let (scores, order) = choose|scores: Seq<i64>, order: Seq<usize>|
        #![trigger orders(rank_keys(scores), order)]
        scores.len() == results.len() && (forall|i: int|
            0 <= i < scores.len() ==> call_ensures(
                score,
                (results[i].1, rank_inputs_of(s.known(results[i].0), now)),
                #[trigger] scores[i],
            )) && orders(rank_keys(scores), order) && r == Seq::new(
            scores.len(),
            |i: int| results[order[i] as int].0,
        );
    assert(scores.len() == results.len() && order.len() == results.len());
    assert forall|i: int, j: int| 0 <= i < j < r.len() implies scores[(
    #[trigger] order[i]) as int] > scores[(#[trigger] order[j]) as int] || (scores[order[i] as int]
        == scores[order[j] as int] && order[i] < order[j]) by {
        let a = rank_keys(scores)[order[i] as int];
        let b = rank_keys(scores)[order[j] as int];
        assert(a.1 == (i64::MAX - scores[order[i] as int]) as u128);
        assert(b.1 == (i64::MAX - scores[order[j] as int]) as u128);
    }
}

/// An announce counts once for its torrent and for no other, with the peers that it brought.
pub proof fn announces_are_counted(
    s: FetcherState,
    ih: Infohash,
    x: Infohash,
    peers: usize,
    now: u64,
)
    ensures
        x != ih ==> s.announced(ih, peers, now).known(x) == s.known(x),
        s.known(ih) is None ==> s.announced(ih, peers, now).known(ih) == Some(
            InfohashQueryStats {
                total_queries: 1,
                total_peers_fetched: peers as u64,
                last_query_at: now,
                consecutive_empty: if peers == 0 {
                    1
                } else {
                    0
                },
            },
        ),
        s.known(ih) matches Some(q) ==> q.total_queries < u64::MAX && q.total_peers_fetched + peers
            <= u64::MAX && q.consecutive_empty < u32::MAX ==> ({
            let t = s.announced(ih, peers, now).known(ih)->0;
            &&& s.announced(ih, peers, now).known(ih) is Some
            &&& t.total_queries == q.total_queries + 1
            &&& t.total_peers_fetched == q.total_peers_fetched + peers
            &&& t.last_query_at == now
            &&& t.consecutive_empty == (if peers == 0 {
                q.consecutive_empty + 1
            } else {
                0
            })
        }),
        s.announced(ih, peers, now).scrape_offset == s.scrape_offset,
{
}

/// What goes into a rank is what was counted, and for how long the torrent was not asked for, at
/// most a day; a torrent counts less once three announces in a row brought nobody.
pub proof fn ranks_go_by_what_was_counted(q: InfohashQueryStats, now: u64)
    ensures
        ({
            let r = rank_inputs_of(Some(q), now);
            &&& r.peers == q.total_peers_fetched
            &&& r.queries == q.total_queries
            &&& r.idle_secs <= 24 * 60 * 60
            &&& q.last_query_at <= now <= q.last_query_at + 24 * 60 * 60 ==> r.idle_secs == now
                - q.last_query_at
            &&& now > q.last_query_at + 24 * 60 * 60 ==> r.idle_secs == 24 * 60 * 60
            &&& now < q.last_query_at ==> r.idle_secs == 0
            &&& r.degraded <==> q.consecutive_empty >= 3
        }),
        rank_inputs_of(None, now).idle_secs == 24 * 60 * 60,
        !rank_inputs_of(None, now).degraded,
        rank_inputs_of(None, now).peers == 0 && rank_inputs_of(None, now).queries == 0,
{
}

/// The first fifteen are announced for their rank, in order.
pub proof fn the_first_fifteen_are_announced(ranked: Seq<Infohash>, i: int)
    ensures
        first_of(ranked).len() <= 15,
        ranked.len() <= 15 ==> first_of(ranked) == ranked,
        0 <= i < ranked.len() && i < 15 ==> i < first_of(ranked).len() && first_of(ranked)[i]
            == ranked[i],
{
}

/// A round scrapes twenty torrents, or as many as there are, out of the first hundred, one after
/// the other from where it stands, and from the start again behind the last.
pub proof fn twenty_are_scraped(pool: Seq<(Infohash, i64)>, offset: usize, i: int)
    requires
        pool.len() > 0,
    ensures
        scraped(pool, offset).len() == (if pool.len() < 20 {
            pool.len() as int
        } else {
            20
        }),
        20 <= pool.len() <= 100 && offset < pool.len() && 0 <= i < 20 && offset + i < pool.len()
            ==> scraped(pool, offset)[i] == pool[offset + i].0,
        20 <= pool.len() <= 100 && offset < pool.len() && 0 <= i < 20 && offset + i >= pool.len()
            ==> scraped(pool, offset)[i] == pool[offset + i - pool.len()].0,
        pool.len() > 100 && offset < 100 && 0 <= i < 20 ==> scraped(pool, offset)[i] == (if offset
            + i < 100 {
            pool[offset + i].0
        } else {
            pool[offset + i - 100].0
        }),
{
    let n = if pool.len() <= 100 {
        pool.len() as int
    } else {
        100
    };
    if offset < n && 0 <= i < 20 && n >= 20 {
        vstd::arithmetic::div_mod::lemma_small_mod(offset as nat, n as nat);
        if offset + i < n {
            vstd::arithmetic::div_mod::lemma_small_mod((offset + i) as nat, n as nat);
        } else {
            vstd::arithmetic::div_mod::lemma_mod_add_multiples_vanish(offset + i - n, n);
            vstd::arithmetic::div_mod::lemma_small_mod((offset + i - n) as nat, n as nat);
        }
    }
}

proof fn lemma_all_taken<A>(all: Seq<A>, r: Seq<A>, x: A)
    requires
        some_of(all, r),
        r.len() == all.len(),
        all.contains(x),
    ensures
        r.contains(x),
{
    let m = choose|m: Seq<A>|
        #[trigger] m.to_multiset() == all.to_multiset() && r.len() <= m.len() && r == m.take(
            r.len() as int,
        );
    lemma_same_multiset(all, m);
    assert(m.take(r.len() as int) =~= m);
}

/// Five torrents are tried, or all that there are to try; one that was asked for before is tried
/// only where all those are that never were.
pub proof fn the_unasked_are_tried_first(
    pool: Seq<Infohash>,
    exclude: Seq<Infohash>,
    stats: Map<Infohash, InfohashQueryStats>,
    r: Seq<Infohash>,
    i: int,
    x: Infohash,
)
    requires
        explores(pool, exclude, stats, r),
        pool.contains(x),
        !exclude.contains(x),
    ensures
        r.len() <= 5,
        r.len() < 5 ==> r.contains(x),
        0 <= i < r.len() && stats.contains_key(r[i]) && !stats.contains_key(x) ==> r.contains(x),
{
    let p = unasked(exclude, stats);
    let fresh = pool.filter(p);
    let q = beside(exclude, fresh);
    let others = pool.filter(q);
    let k = choose|k: int| 0 <= k < pool.len() && pool[k] == x;
    if !stats.contains_key(x) {
        lemma_filter_keeps(pool, p, k);
    }
    if fresh.len() >= 5 {
        if 0 <= i < r.len() && stats.contains_key(r[i]) {
            let m = choose|m: Seq<Infohash>|
                #[trigger] m.to_multiset() == fresh.to_multiset() && r.len() <= m.len() && r
                    == m.take(r.len() as int);
            lemma_same_multiset(fresh, m);
            assert(m[i] == r[i]);
            assert(fresh.contains(m[i]));
            let f = choose|f: int| 0 <= f < fresh.len() && fresh[f] == r[i];
            pool.lemma_filter_pred(p, f);
        }
    } else {
        let n = fresh.len() as int;
        if fresh.contains(x) {
            lemma_all_taken(fresh, r.take(n), x);
            let j = choose|j: int| 0 <= j < r.take(n).len() && r.take(n)[j] == x;
            assert(r[j] == x);
        } else if r.len() < 5 {
            lemma_filter_keeps(pool, q, k);
            lemma_all_taken(others, r.skip(n), x);
            let j = choose|j: int| 0 <= j < r.skip(n).len() && r.skip(n)[j] == x;
            assert(r[n + j] == x);
        }
    }
}

/// A text names a torrent exactly where it is forty hexadecimal digits.
pub proof fn forty_digits_name_a_torrent(texts: Seq<Seq<u8>>, t: Seq<u8>)
    ensures
        decoded(Seq::empty()).len() == 0,
        t.len() == 40 && (forall|i: int|
            0 <= i < t.len() ==> 48 <= #[trigger] t[i] <= 57 || 65 <= t[i] <= 70 || 97 <= t[i]
                <= 102) ==> decoded(texts.push(t)) == decoded(texts).push(unhex(t)),
        t.len() != 40 || (exists|i: int|
            0 <= i < t.len() && !(48 <= #[trigger] t[i] <= 57 || 65 <= t[i] <= 70 || 97 <= t[i]
                <= 102)) ==> decoded(texts.push(t)) == decoded(texts),
{
    assert(texts.push(t).drop_last() =~= texts);
    if t.len() > 0 {
        crate::text_laws::hex_digits_are_read(t, 0);
    }
    if exists|i: int|
        0 <= i < t.len() && !(48 <= #[trigger] t[i] <= 57 || 65 <= t[i] <= 70 || 97 <= t[i]
            <= 102) {
        let i = choose|i: int|
            0 <= i < t.len() && !(48 <= #[trigger] t[i] <= 57 || 65 <= t[i] <= 70 || 97 <= t[i]
                <= 102);
        crate::text_laws::hex_digits_are_read(t, i);
    }
}

/// A round that is over counts once, with the peers that it brought.
pub proof fn rounds_are_counted(s: FetcherState, peers: u64)
    requires
        s.total_rounds < u64::MAX,
        s.total_peers_fetched + peers <= u64::MAX,
    ensures
        s.finished(peers).total_rounds == s.total_rounds + 1,
        s.finished(peers).total_peers_fetched == s.total_peers_fetched + peers,
        s.finished(peers).last_round_peers == peers,
        s.finished(peers).stats == s.stats,
        s.finished(peers).scrape_offset == s.scrape_offset,
{
}

} // verus!
