//! Feeds: the magnet links in RSS and Atom feeds name torrents, which are noted.

use vstd::prelude::*;
use vstd::string::*;

use crate::bytes::{array20, copy_range};
use crate::storage::infohash_repo::{register_each, reports_from, InfohashRepoImpl};
use crate::text::{ascii, hex_decode, is_hex, matches_at, occurs_at, unhex};
use crate::types::{add_once, id_views, Infohash};

verus! {

/// Which feeds to read, how often, and how much to take of each.
pub struct SubscriptionConfig {
    pub feeds: Vec<String>,
    /// Seconds from one reading to the next.
    pub interval_secs: u64,
    /// How many torrents are taken from a feed at a time.
    pub max_per_feed: usize,
}

impl Default for SubscriptionConfig {
    fn default() -> (r: Self)
        ensures
            r.feeds@.len() == 0,
            r.interval_secs == 3600,
            r.max_per_feed == 50,
    {
        SubscriptionConfig { feeds: Vec::new(), interval_secs: 3600, max_per_feed: 50 }
    }
}

/// What stands in front of a torrent in a magnet link.
pub open spec fn marker() -> Seq<u8> {
    ascii("xt=urn:btih:"@)
}

/// The first place at or after `from` where the marker stands, or -1.
pub open spec fn next_marker(body: Seq<u8>, from: int) -> int
    decreases body.len() - from,
{
    if from < 0 || from + 12 > body.len() {
        -1
    } else if occurs_at(body, marker(), from) {
        from
    } else {
        next_marker(body, from + 1)
    }
}

/// The torrents that a feed names from a place on, added to those already found: the forty
/// hexadecimal digits behind each marker, each torrent once. Reading goes on behind the
/// forty places and ends once `max` were found.
pub open spec fn scan(body: Seq<u8>, from: int, found: Seq<Seq<u8>>, max: nat) -> Seq<Seq<u8>>
    decreases body.len() - from,
{
    let at = next_marker(body, from);
    if found.len() >= max || at < from || from < 0 {
        found
    } else {
        let start = at + 12;
        let next = if start + 40 <= body.len() && is_hex(body.subrange(start, start + 40))
            && !found.contains(unhex(body.subrange(start, start + 40))) {
            found.push(unhex(body.subrange(start, start + 40)))
        } else {
            found
        };
        if start + 40 > body.len() {
            next
        } else {
            scan(body, start + 40, next, max)
        }
    }
}

proof fn lemma_next_marker(body: Seq<u8>, from: int)
    requires
        0 <= from,
    ensures
        next_marker(body, from) == -1 || (from <= next_marker(body, from) && next_marker(body, from)
            + 12 <= body.len()),
    decreases body.len() - from,
{
    if from + 12 <= body.len() && !occurs_at(body, marker(), from) {
        lemma_next_marker(body, from + 1);
    }
}

fn find_marker(body: &[u8], from: usize) -> (r: Option<usize>)
    requires
        from <= body@.len(),
    ensures
        r is None <==> next_marker(body@, from as int) == -1,
        r matches Some(at) ==> at == next_marker(body@, from as int) && from <= at && at + 12
            <= body@.len(),
{
    let m = "xt=urn:btih:";
    proof {
        reveal_strlit("xt=urn:btih:");
        is_ascii_spec_bytes(m);
        assert(m.spec_bytes() =~= marker());
        assert(marker().len() == 12);
    }
    let mut i: usize = from;
    while i < body.len() && body.len() - i >= 12
        invariant
            from <= i <= body@.len(),
            m.spec_bytes() == marker(),
            marker().len() == 12,
            next_marker(body@, from as int) == next_marker(body@, i as int),
        decreases body@.len() - i,
    {
        if matches_at(body, m.as_bytes(), i) {
            return Some(i);
        }
        i = i + 1;
    }
    None
}

/// The torrents that a feed names, each once, at most `max_per_feed`.
pub fn extract_magnets(body: &[u8], max_per_feed: usize) -> (r: Vec<Infohash>)
    ensures
        id_views(r@) == scan(body@, 0, Seq::empty(), max_per_feed as nat),
{
    let mut out: Vec<Infohash> = Vec::new();
    let mut from: usize = 0;
    let ghost want = scan(body@, 0, Seq::empty(), max_per_feed as nat);
    proof {
        assert(id_views(out@) =~= Seq::empty());
        assert(body@.len() == body.len());
    }
    loop
        invariant
            0 <= from <= body@.len(),
            body@.len() <= usize::MAX,
            want == scan(body@, 0, Seq::empty(), max_per_feed as nat),
            scan(body@, from as int, id_views(out@), max_per_feed as nat) == want,
        decreases body@.len() - from,
    {
        if out.len() >= max_per_feed {
            return out;
        }
        proof {
            lemma_next_marker(body@, from as int);
        }
        let at: usize = match find_marker(body, from) {
            Some(at) => at,
            None => {
                return out;
            },
        };
        let start: usize = at + 12;
        let ghost before = id_views(out@);
        if body.len() - start >= 40 {
            let window = copy_range(body, start, start + 40);
            match hex_decode(window.as_slice()) {
                Ok(b) => {
                    let ih = array20(b.as_slice());
                    proof {
                        assert(b@.take(20) =~= b@);
                    }
                    add_once(&mut out, ih);
                },
                Err(_) => {},
            }
        }
        if body.len() - start < 40 {
            return out;
        }
        from = start + 40;
    }
}

/// Takes note of the torrents that a feed names. Returns how many.
pub fn finish_feed(body: &[u8], max_per_feed: usize, repo: &mut InfohashRepoImpl, now: u64) -> (r:
    usize)
    requires
        old(repo).wf(),
    ensures
        final(repo).wf(),
        exists|ids: Seq<Infohash>|
            id_views(ids) == scan(body@, 0, Seq::empty(), max_per_feed as nat) && r == ids.len()
                && final(repo)@ == old(repo)@.registered_all(
                #[trigger] reports_from(ids, "subscription"@, now),
            ),
{
    let ids = extract_magnets(body, max_per_feed);
    register_each(repo, &ids, "subscription", now);
    ids.len()
}

/// No torrent is taken twice from a feed, and not more than asked for.
pub proof fn scan_is_bounded(body: Seq<u8>, from: int, found: Seq<Seq<u8>>, max: nat)
    requires
        found.no_duplicates(),
        found.len() <= max,
    ensures
        scan(body, from, found, max).no_duplicates(),
        scan(body, from, found, max).len() <= max,
    decreases body.len() - from,
{
    let at = next_marker(body, from);
    if !(found.len() >= max || at < from || from < 0) {
        let start = at + 12;
        let window = body.subrange(start, start + 40);
        let next = if start + 40 <= body.len() && is_hex(window) && !found.contains(unhex(window)) {
            found.push(unhex(window))
        } else {
            found
        };
        assert(next.no_duplicates()) by {
            assert forall|i: int, j: int|
                0 <= i < next.len() && 0 <= j < next.len() && i != j implies next[i] != next[j] by {
                if i < found.len() {
                    assert(found.contains(found[i]));
                }
                if j < found.len() {
                    assert(found.contains(found[j]));
                }
            }
        }
        if !(start + 40 > body.len()) {
            scan_is_bounded(body, start + 40, next, max);
        }
    }
}

} // verus!
