//! What it is for torrents to be the best ones.

use vstd::prelude::*;

use crate::ranking::picks;
use crate::storage::infohash_repo::{reports_from, scores_higher, torrent_of, InfohashTable};
use crate::types::Infohash;

verus! {

/// The torrents that are handed out stand in the order of their scores, each once and with its
/// score, and none that is left out has a greater score than one of them. Where all fit, none is
/// left out.
pub proof fn best_torrents_come_first(
    t: InfohashTable,
    r: Seq<(Infohash, i64)>,
    n: nat,
    i: int,
    x: Infohash,
)
    requires
        picks(t.scores(), torrent_of(), r, n, scores_higher()),
        0 <= i < r.len(),
    ensures
        r.len() <= n,
        r.len() == n || r.len() == t.scores().len(),
        t.scores().dom() == t.entries.dom(),
        t.entries.contains_key(r[i].0) && t.entries[r[i].0].score == r[i].1,
        forall|j: int| i < j < r.len() ==> r[i].1 >= (#[trigger] r[j]).1,
        forall|j: int| 0 <= j < r.len() && j != i ==> (#[trigger] r[j]).0 != r[i].0,
        t.entries.contains_key(x) && (forall|j: int| 0 <= j < r.len() ==> (#[trigger] r[j]).0 != x)
            ==> r[i].1 >= t.entries[x].score,
{
    let m = t.scores();
    let key = torrent_of();
    let before = scores_higher();
    let ra = r.map_values(key);
    assert(m.dom() =~= t.entries.dom());
    assert(m.contains_key(key(r[i])) && m[key(r[i])] == r[i]);
    assert forall|j: int| i < j < r.len() implies r[i].1 >= (#[trigger] r[j]).1 by {
        assert(!before(r[j], r[i]));
    }
    assert forall|j: int| 0 <= j < r.len() && j != i implies (#[trigger] r[j]).0 != r[i].0 by {
        assert(ra[j] != ra[i]);
    }
    if t.entries.contains_key(x) && (forall|j: int| 0 <= j < r.len() ==> (#[trigger] r[j]).0 != x) {
        if ra.contains(x) {
            let j = choose|j: int| 0 <= j < ra.len() && ra[j] == x;
            assert(r[j].0 == x);
        }
        assert(!before(m[x], r[i]));
    }
}

/// A report of a torrent that is not known makes it known under the source that reported it,
/// with no score and one reference, and queues it to be saved.
pub proof fn a_first_report_is_kept(t: InfohashTable, ih: Infohash, source: Seq<char>, now: u64)
    requires
        !t.entries.contains_key(ih),
    ensures
        ({
            let u = t.registered((ih, source, now));
            &&& u.entries.contains_key(ih)
            &&& u.entries[ih].ref_count == 1
            &&& u.entries[ih].first_source == source
            &&& u.entries[ih].score == 0
            &&& u.entries[ih].last_seen == now
            &&& u.pending == t.pending.push((ih, source))
            &&& u.dirty == t.dirty
            &&& forall|x: Infohash| x != ih && t.entries.contains_key(x) ==> #[trigger]
                u.entries.contains_key(x) && u.entries[x] == t.entries[x]
            &&& forall|x: Infohash| #[trigger]
                u.entries.contains_key(x) ==> x == ih || t.entries.contains_key(x)
        }),
{
}

/// A score that is set is the score, of that torrent and of no other; nothing becomes known by
/// it.
pub proof fn a_set_score_is_read_back(t: InfohashTable, ih: Infohash, score: i64, x: Infohash)
    ensures
        t.entries.contains_key(ih) ==> t.scored((ih, score)).score(ih) == score,
        t.entries.contains_key(ih) ==> t.scored((ih, score)).refs(ih) == t.refs(ih),
        x != ih ==> t.scored((ih, score)).score(x) == t.score(x),
        t.scored((ih, score)).entries.contains_key(x) <==> t.entries.contains_key(x),
        !t.entries.contains_key(x) ==> t.score(x) == 0 && t.refs(x) == 0,
{
}

/// A report is news where nobody knew the torrent, and is not where somebody refers to it.
pub proof fn the_unknown_is_news(t: InfohashTable, ih: Infohash, source: Seq<char>, now: u64)
    ensures
        !t.entries.contains_key(ih) ==> t.is_news((ih, source, now)),
        t.entries.contains_key(ih) && 0 < t.entries[ih].ref_count < u32::MAX ==> !t.is_news(
            (ih, source, now),
        ),
{
}

/// Torrents that are reported together are each reported once, in order, by the same source at
/// the same time; reports and scores are taken in one after the other.
pub proof fn each_is_reported(
    t: InfohashTable,
    ids: Seq<Infohash>,
    source: Seq<char>,
    now: u64,
    i: int,
    items: Seq<(Infohash, Seq<char>, u64)>,
    item: (Infohash, Seq<char>, u64),
    scores: Seq<(Infohash, i64)>,
    score: (Infohash, i64),
)
    ensures
        reports_from(ids, source, now).len() == ids.len(),
        0 <= i < ids.len() ==> reports_from(ids, source, now)[i].0 == ids[i] && reports_from(
            ids,
            source,
            now,
        )[i].1 == source && reports_from(ids, source, now)[i].2 == now,
        t.registered_all(Seq::empty()) == t,
        t.registered_all(items.push(item)) == t.registered_all(items).registered(item),
        t.scored_all(Seq::empty()) == t,
        t.scored_all(scores.push(score)) == t.scored_all(scores).scored(score),
{
    assert(items.push(item).drop_last() =~= items);
    assert(scores.push(score).drop_last() =~= scores);
}

} // verus!
