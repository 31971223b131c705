//! What holds of scraping: the URLs that are asked, the answers, and who is asked when.

use vstd::prelude::*;
use vstd::string::*;

use crate::bencode::BencodeTree;
use crate::services::scrape_service::{
    askable, considered, entry_error, entry_in, merged, scrape_url, url_byte, url_bytes,
    ScrapeEntry, ScrapeError, ScrapeOutcome, ScrapeState, TrackerRateLimit, SCRAPE_COOLDOWN,
    SCRAPE_MAX_FAILURES, SCRAPE_MIN_INTERVAL,
};
use crate::text::{ascii, occurs, occurs_at, replace_all};

verus! {

/// An answer that lists the torrent gives the figures that stand under its infohash.
pub proof fn listed_figures_are_given(
    m: Map<Seq<u8>, BencodeTree>,
    files: Map<Seq<u8>, BencodeTree>,
    e: Map<Seq<u8>, BencodeTree>,
    infohash: Seq<u8>,
    complete: i64,
    downloaded: i64,
    incomplete: i64,
)
    requires
        !m.contains_key("failure reason".spec_bytes()),
        m.contains_key("files".spec_bytes()),
        m["files".spec_bytes()] == BencodeTree::Dict(files),
        files.contains_key(infohash),
        files[infohash] == BencodeTree::Dict(e),
        e.contains_key("complete".spec_bytes()),
        e["complete".spec_bytes()] == BencodeTree::Int(complete),
        e.contains_key("downloaded".spec_bytes()),
        e["downloaded".spec_bytes()] == BencodeTree::Int(downloaded),
        e.contains_key("incomplete".spec_bytes()),
        e["incomplete".spec_bytes()] == BencodeTree::Int(incomplete),
    ensures
        entry_in(BencodeTree::Dict(m), infohash) == Some(
            ScrapeEntry { complete, downloaded, incomplete },
        ),
{
}

/// An answer that gives a reason for failing, or does not list the torrent, gives no figures.
pub proof fn unlisted_gives_nothing(
    m: Map<Seq<u8>, BencodeTree>,
    files: Map<Seq<u8>, BencodeTree>,
    infohash: Seq<u8>,
    reason: Seq<u8>,
)
    ensures
        m.contains_key("failure reason".spec_bytes()) && m["failure reason".spec_bytes()]
            == BencodeTree::Bytes(reason) ==> entry_in(BencodeTree::Dict(m), infohash) is None,
        m.contains_key("files".spec_bytes()) && m["files".spec_bytes()] == BencodeTree::Dict(files)
            && !files.contains_key(infohash) ==> entry_in(BencodeTree::Dict(m), infohash) is None,
        !m.contains_key("files".spec_bytes()) ==> entry_in(BencodeTree::Dict(m), infohash) is None,
{
}

/// Letters, digits and four signs stand in a URL for themselves; any other byte is a percent
/// sign and its two hexadecimal digits, the letters among them in upper case.
pub proof fn bytes_are_spelled_in_urls(a: Seq<u8>, b: Seq<u8>, x: u8)
    ensures
        (48 <= x <= 57 || 65 <= x <= 90 || 97 <= x <= 122 || x == 45 || x == 46 || x == 95 || x
            == 126) ==> url_bytes(seq![x]) == seq![x],
        !(48 <= x <= 57 || 65 <= x <= 90 || 97 <= x <= 122 || x == 45 || x == 46 || x == 95 || x
            == 126) ==> ({
            let u = url_bytes(seq![x]);
            &&& u.len() == 3
            &&& u[0] == 37
            &&& (48 <= u[1] <= 57 || 65 <= u[1] <= 70)
            &&& (48 <= u[2] <= 57 || 65 <= u[2] <= 70)
            &&& x == 16 * (if u[1] <= 57 {
                u[1] - 48
            } else {
                u[1] - 55
            }) + (if u[2] <= 57 {
                u[2] - 48
            } else {
                u[2] - 55
            })
        }),
        url_bytes(a + b) == url_bytes(a) + url_bytes(b),
    decreases b.len(),
{
    assert(seq![x].drop_last() =~= Seq::<u8>::empty());
    reveal_with_fuel(url_bytes, 2);
    assert(url_bytes(seq![x]) =~= url_byte(x));
    if b.len() == 0 {
        assert(a + b =~= a);
        assert(url_bytes(a) + url_bytes(b) =~= url_bytes(a));
    } else {
        bytes_are_spelled_in_urls(a, b.drop_last(), x);
        assert((a + b).drop_last() =~= a + b.drop_last());
        assert(url_bytes(a + b) =~= url_bytes(a) + url_bytes(b));
    }
}

proof fn lemma_replaced_at_end(base: Seq<u8>, pat: Seq<u8>, rep: Seq<u8>)
    requires
        pat.len() > 0,
        forall|i: int| 0 <= i < base.len() ==> !occurs_at(base + pat, pat, i),
    ensures
        replace_all(base + pat, pat, rep) == base + rep,
    decreases base.len(),
{
    let s = base + pat;
    let n = pat.len() as int;
    if base.len() == 0 {
        assert(s =~= pat);
        assert(s.take(n) =~= pat);
        assert(s.skip(n) =~= Seq::<u8>::empty());
        assert(replace_all(s.skip(n), pat, rep) =~= Seq::<u8>::empty());
        assert(replace_all(s, pat, rep) =~= base + rep);
    } else {
        let less = base.skip(1);
        assert(!occurs_at(s, pat, 0));
        assert(s.subrange(0, n) =~= s.take(n));
        assert(s.skip(1) =~= less + pat);
        assert forall|i: int| 0 <= i < less.len() implies !occurs_at(less + pat, pat, i) by {
            assert(!occurs_at(s, pat, i + 1));
            if occurs_at(less + pat, pat, i) {
                assert(s.subrange(i + 1, i + 1 + n) =~= (less + pat).subrange(i, i + n));
            }
        }
        lemma_replaced_at_end(less, pat, rep);
        assert(replace_all(s, pat, rep) =~= base + rep);
    }
}

/// A tracker that is announced to at `/announce` is scraped at `/scrape` in the same place; one
/// that is announced to elsewhere is scraped below its URL, with one slash between.
pub proof fn scraped_beside_the_announce(base: Seq<u8>)
    ensures
        (forall|i: int|
            0 <= i < base.len() ==> !occurs_at(base + ascii("/announce"@), ascii("/announce"@), i))
            ==> scrape_url(base + ascii("/announce"@)) == base + ascii("/scrape"@),
        !occurs(base, ascii("/announce"@)) && base.len() > 0 && base.last() != 47 ==> scrape_url(
            base,
        ) == base + ascii("/scrape"@),
        !occurs(base, ascii("/announce"@)) && !occurs(base.push(47u8), ascii("/announce"@))
            ==> scrape_url(base.push(47u8)) == scrape_url(base),
{
    reveal_strlit("/announce");
    reveal_strlit("/scrape");
    is_ascii_spec_bytes("/announce");
    is_ascii_spec_bytes("/scrape");
    let pat = ascii("/announce"@);
    assert("/announce".spec_bytes() =~= pat);
    assert("/scrape".spec_bytes() =~= ascii("/scrape"@));
    if forall|i: int| 0 <= i < base.len() ==> !occurs_at(base + pat, pat, i) {
        lemma_replaced_at_end(base, pat, ascii("/scrape"@));
        let at = base.len() as int;
        assert((base + pat).subrange(at, at + pat.len()) =~= pat);
        assert(occurs_at(base + pat, pat, at));
    }
    assert(base.push(47u8).drop_last() =~= base);
}

/// Every answer counts as one source, a failure as none; and the last answer is merged into
/// those before it by taking the greater figure.
pub proof fn answers_are_counted(os: Seq<ScrapeOutcome>, o: ScrapeOutcome, now: u64)
    requires
        merged(os, now).source_count < u32::MAX,
    ensures
        merged(Seq::empty(), now).source_count == 0,
        o.entry is None ==> merged(os.push(o), now) == merged(os, now),
        o.entry matches Some(e) ==> {
            let (m, r) = (merged(os, now), merged(os.push(o), now));
            &&& r.source_count == m.source_count + 1
            &&& r.complete >= m.complete && r.complete >= e.complete
            &&& r.complete == m.complete || r.complete == e.complete
            &&& r.incomplete >= m.incomplete && r.incomplete >= e.incomplete
            &&& r.incomplete == m.incomplete || r.incomplete == e.incomplete
            &&& r.downloaded >= m.downloaded && r.downloaded >= e.downloaded
            &&& r.downloaded == m.downloaded || r.downloaded == e.downloaded
            &&& r.last_updated == now
        },
{
    assert(os.push(o).drop_last() =~= os);
}

/// A tracker is left alone only for a reason: one that was never asked is asked at once; one
/// that failed less than three times in a row is asked again a second after the last time;
/// and one that failed three times, five minutes after the last of them.
pub proof fn trackers_get_another_chance(
    l: TrackerRateLimit,
    t1: u64,
    t2: u64,
    t3: u64,
    later: u64,
)
    requires
        l.consecutive_failures == 0,
        l.disabled_until is None,
        t1 <= t2 <= t3 <= later,
        t3 + 300_000_000_000 <= u64::MAX,
        later >= 3_600_000_000_000,
    ensures
        TrackerRateLimit::fresh_at(later).allows(SCRAPE_MIN_INTERVAL, later),
        TrackerRateLimit::fresh_at(later).consecutive_failures == 0,
        TrackerRateLimit::fresh_at(later).disabled_until is None,
        ({
            let one = l.after_failure(SCRAPE_MAX_FAILURES, SCRAPE_COOLDOWN, t1);
            let two = one.after_failure(SCRAPE_MAX_FAILURES, SCRAPE_COOLDOWN, t2);
            let three = two.after_failure(SCRAPE_MAX_FAILURES, SCRAPE_COOLDOWN, t3);
            &&& later >= t1 + 1_000_000_000 <==> one.allows(SCRAPE_MIN_INTERVAL, later)
            &&& later >= t2 + 1_000_000_000 <==> two.allows(SCRAPE_MIN_INTERVAL, later)
            &&& later >= t3 + 300_000_000_000 <==> three.allows(SCRAPE_MIN_INTERVAL, later)
            &&& two.after_success(t3).after_failure(
                SCRAPE_MAX_FAILURES,
                SCRAPE_COOLDOWN,
                t3,
            ).disabled_until is None
        }),
{
}

/// Of the first five trackers of a list those are asked that may be, in order, and no others.
pub proof fn the_first_five_are_asked(s: ScrapeState, urls: Seq<String>, url: String, now: u64)
    ensures
        considered(urls).len() <= 5,
        forall|i: int|
            0 <= i < urls.len() && i < 5 ==> i < considered(urls).len() && (#[trigger] urls[i])
                == considered(urls)[i],
        askable(s, Seq::empty(), now).len() == 0,
        s.limit(url@, now).allows(SCRAPE_MIN_INTERVAL, now) ==> askable(s, urls.push(url), now)
            == askable(s, urls, now).push(url@),
        !s.limit(url@, now).allows(SCRAPE_MIN_INTERVAL, now) ==> askable(s, urls.push(url), now)
            == askable(s, urls, now),
{
    let p = |u: String| s.limit(u@, now).allows(SCRAPE_MIN_INTERVAL, now);
    reveal(Seq::filter);
    assert(urls.push(url).drop_last() =~= urls);
    assert(askable(s, urls.push(url), now) =~= if p(url) {
        askable(s, urls, now).push(url@)
    } else {
        askable(s, urls, now)
    });
}

/// Why an answer gives no figures: it is no dictionary, the tracker says itself that it failed,
/// it lists no torrents, or not this one; in this order.
pub proof fn failures_have_their_reason(
    m: Map<Seq<u8>, BencodeTree>,
    infohash: Seq<u8>,
    reason: Seq<u8>,
    n: i64,
    e: ScrapeError,
)
    ensures
        entry_error(BencodeTree::Int(n), infohash, e) <==> e is NotADict,
        m.contains_key("failure reason".spec_bytes()) && m["failure reason".spec_bytes()]
            == BencodeTree::Bytes(reason) ==> (entry_error(BencodeTree::Dict(m), infohash, e)
            <==> e is TrackerFailure && e->TrackerFailure_0@ == crate::text::lossy_text(reason)),
        !m.contains_key("failure reason".spec_bytes()) && !m.contains_key("files".spec_bytes())
            ==> (entry_error(BencodeTree::Dict(m), infohash, e) <==> e is NoFiles),
        !m.contains_key("failure reason".spec_bytes()) && m.contains_key("files".spec_bytes())
            && m["files".spec_bytes()] is Dict ==> (entry_error(
            BencodeTree::Dict(m),
            infohash,
            e,
        ) <==> e is NotFound),
{
}

/// How a tracker behaved is noted of that tracker and of no other: an answer forgets its
/// failures, and a failure counts. What was found before is kept.
pub proof fn only_the_asked_are_judged(s: ScrapeState, o: ScrapeOutcome, url: Seq<char>, now: u64)
    requires
        s.limit(o.url@, now).consecutive_failures < 2,
    ensures
        ({
            let t = s.after_outcome(o, now);
            let l = t.limit(o.url@, now);
            &&& l.last_request == now
            &&& o.entry is Some ==> l.consecutive_failures == 0
            &&& o.entry is None ==> l.consecutive_failures == s.limit(
                o.url@,
                now,
            ).consecutive_failures + 1
            &&& l.disabled_until == s.limit(o.url@, now).disabled_until
            &&& url != o.url@ ==> t.limit(url, now) == s.limit(url, now)
            &&& t.cache == s.cache
        }),
{
}

/// Outcomes are taken in one after the other, and planning whom to ask judges nobody.
pub proof fn outcomes_come_one_by_one(
    s: ScrapeState,
    os: Seq<ScrapeOutcome>,
    o: ScrapeOutcome,
    urls: Seq<String>,
    url: Seq<char>,
    now: u64,
)
    ensures
        s.after_outcomes(Seq::empty(), now) == s,
        s.after_outcomes(os.push(o), now) == s.after_outcomes(os, now).after_outcome(o, now),
        s.after_plan(urls, now).limit(url, now) == s.limit(url, now),
        s.after_plan(urls, now).cache == s.cache,
    decreases urls.len(),
{
    assert(os.push(o).drop_last() =~= os);
    if urls.len() > 0 {
        let less = urls.drop_last();
        outcomes_come_one_by_one(s, os, o, less, url, now);
        outcomes_come_one_by_one(s, os, o, less, urls.last()@, now);
    }
}

/// A result is used for five minutes, and not a moment longer.
pub proof fn results_are_used_for_five_minutes(s: ScrapeState, infohash: Seq<u8>, now: u64)
    ensures
        s.usable(infohash, now) is Some <==> s.cache.contains_key(infohash) && now
            <= s.cache[infohash].last_updated + 5 * 60 * 1_000_000_000,
        s.usable(infohash, now) is Some ==> s.usable(infohash, now) == Some(s.cache[infohash]),
{
}

} // verus!
