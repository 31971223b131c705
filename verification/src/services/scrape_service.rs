//! Scraping of external trackers: what to ask whom, and what to make of the answers.
//!
//! Answers of several trackers are merged by taking the larger figure. A result is
//! kept for five minutes. A tracker is asked at most once a second, and not at all
//! for five minutes after three failures in a row. Times are nanoseconds on a
//! monotonic clock that the caller reads.

use crate::bencode::{parse, parsed, Bencode, BencodeTree};
use crate::services::metadata_service::{fresh, is_fresh, lists_keys};
use crate::text::{
    ascii, ascii_string, ascii_text, contains_bytes, lossy_text, matches_at, occurs, push_str,
    replace_all, replace_bytes, starts_with, utf8_lossy,
};
use crate::types::Infohash;
use dashmap::DashMap;
use vstd::prelude::*;
use vstd::string::*;

verus! {

/// How long a result stays usable.
pub const SCRAPE_CACHE_TTL: u64 = 300_000_000_000;

/// How long a result is kept at all.
pub const SCRAPE_CACHE_KEEP: u64 = 600_000_000_000;

/// Least time between two requests to one tracker.
pub const SCRAPE_MIN_INTERVAL: u64 = 1_000_000_000;

/// Failures in a row after which a tracker is left alone.
pub const SCRAPE_MAX_FAILURES: u32 = 3;

/// How long a failing tracker is left alone.
pub const SCRAPE_COOLDOWN: u64 = 300_000_000_000;

/// Trackers that are asked for one torrent.
pub const SCRAPE_MAX_TRACKERS: usize = 5;

/// An hour: a tracker that was never asked counts as last asked that long ago.
pub const ONE_HOUR: u64 = 3_600_000_000_000;

/// What one tracker says of a torrent.
#[derive(Debug, Clone, Copy, PartialEq, Eq, Structural)]
pub struct ScrapeEntry {
    /// Seeders.
    pub complete: i64,
    pub downloaded: i64,
    /// Leechers.
    pub incomplete: i64,
}

/// What all asked trackers together say of a torrent.
#[derive(Debug, Clone, Copy, PartialEq, Eq, Structural)]
pub struct ScrapeResult {
    pub complete: i64,
    pub incomplete: i64,
    pub downloaded: i64,
    /// Trackers that answered.
    pub source_count: u32,
    pub last_updated: u64,
}

impl Default for ScrapeResult {
    fn default() -> (r: Self)
        ensures
            r == empty_result(0),
    {
        ScrapeResult { complete: 0, incomplete: 0, downloaded: 0, source_count: 0, last_updated: 0 }
    }
}

/// The result of asking nobody.
pub open spec fn empty_result(now: u64) -> ScrapeResult {
    ScrapeResult { complete: 0, incomplete: 0, downloaded: 0, source_count: 0, last_updated: now }
}

/// When a tracker was last asked, and how it has done since.
#[derive(Debug, Clone, Copy, PartialEq, Eq, Structural)]
pub struct TrackerRateLimit {
    pub last_request: u64,
    pub consecutive_failures: u32,
    pub disabled_until: Option<u64>,
}

impl TrackerRateLimit {
    /// The count of failures can still go up.
    pub open spec fn wf(self) -> bool {
        self.consecutive_failures < u32::MAX
    }

    /// The state of a tracker that was never asked.
    pub open spec fn fresh_at(now: u64) -> TrackerRateLimit {
        TrackerRateLimit {
            last_request: (now - ONE_HOUR) as u64,
            consecutive_failures: 0,
            disabled_until: None,
        }
    }

    /// Whether the tracker may be asked at `now`: it is not disabled, and was last
    /// asked long enough ago.
    pub open spec fn allows(self, min_interval: u64, now: u64) -> bool {
        &&& self.disabled_until matches Some(until) ==> now >= until
        &&& if now >= self.last_request {
            now - self.last_request >= min_interval
        } else {
            min_interval == 0
        }
    }

    /// The state after an answer.
    pub open spec fn after_success(self, now: u64) -> TrackerRateLimit {
        TrackerRateLimit { last_request: now, consecutive_failures: 0, ..self }
    }

    /// The state after a failure: at the last one that is tolerated the tracker is
    /// disabled and the count starts over.
    pub open spec fn after_failure(
        self,
        max_failures: u32,
        cooldown: u64,
        now: u64,
    ) -> TrackerRateLimit {
        let n = self.consecutive_failures + 1;
        if n >= max_failures {
            TrackerRateLimit {
                last_request: now,
                consecutive_failures: 0,
                disabled_until: Some((now + cooldown) as u64),
            }
        } else {
            TrackerRateLimit { last_request: now, consecutive_failures: n as u32, ..self }
        }
    }

    /// A tracker that was never asked.
    pub fn new(now: u64) -> (r: Self)
        requires
            now >= ONE_HOUR,
        ensures
            r.wf(),
            r == Self::fresh_at(now),
    {
        TrackerRateLimit {
            last_request: now - ONE_HOUR,
            consecutive_failures: 0,
            disabled_until: None,
        }
    }

    /// Whether the tracker may be asked.
    pub fn can_request(&self, min_interval: u64, now: u64) -> (r: bool)
        ensures
            r == self.allows(min_interval, now),
    {
        if let Some(until) = self.disabled_until {
            if now < until {
                return false;
            }
        }
        now.saturating_sub(self.last_request) >= min_interval
    }

    /// The tracker answered.
    pub fn record_success(&mut self, now: u64)
        ensures
            final(self).wf(),
            *final(self) == old(self).after_success(now),
    {
        self.last_request = now;
        self.consecutive_failures = 0;
    }

    /// The tracker failed.
    pub fn record_failure(&mut self, max_failures: u32, cooldown: u64, now: u64)
        requires
            old(self).wf(),
            now + cooldown <= u64::MAX,
        ensures
            final(self).wf(),
            *final(self) == old(self).after_failure(max_failures, cooldown, now),
    {
        self.last_request = now;
        self.consecutive_failures = self.consecutive_failures + 1;
        if self.consecutive_failures >= max_failures {
            self.disabled_until = Some(now + cooldown);
            self.consecutive_failures = 0;
        }
    }
}

/// Three failures in a row disable a tracker for the whole cooldown, whatever the
/// interval between requests.
pub proof fn three_failures_disable(
    l: TrackerRateLimit,
    t1: u64,
    t2: u64,
    t3: u64,
    later: u64,
    min_interval: u64,
)
    requires
        l.consecutive_failures == 0,
        t3 + SCRAPE_COOLDOWN <= u64::MAX,
        later < t3 + SCRAPE_COOLDOWN,
    ensures
        !l.after_failure(SCRAPE_MAX_FAILURES, SCRAPE_COOLDOWN, t1).after_failure(
            SCRAPE_MAX_FAILURES,
            SCRAPE_COOLDOWN,
            t2,
        ).after_failure(SCRAPE_MAX_FAILURES, SCRAPE_COOLDOWN, t3).allows(min_interval, later),
{
}

/// A tracker that has just been asked, with whatever outcome, is not asked again before
/// the interval is over.
pub proof fn asked_is_left_alone(l: TrackerRateLimit, now: u64, later: u64, min_interval: u64)
    requires
        now <= later < now + min_interval,
    ensures
        !l.after_success(now).allows(min_interval, later),
        !l.after_failure(SCRAPE_MAX_FAILURES, SCRAPE_COOLDOWN, now).allows(min_interval, later),
{
}

/// A tracker that answered may be asked again once the interval is over, unless it is
/// still disabled.
pub proof fn answering_tracker_is_asked_again(
    l: TrackerRateLimit,
    now: u64,
    later: u64,
    min_interval: u64,
)
    requires
        now + min_interval <= later,
        l.disabled_until matches Some(until) ==> until <= later,
    ensures
        l.after_success(now).allows(min_interval, later),
{
}

/// Why a tracker's answer cannot be used.
pub enum ScrapeError {
    Unparsable,
    NotADict,
    /// The tracker's own words.
    TrackerFailure(String),
    NoFiles,
    NotFound,
}

impl ScrapeError {
    /// The error in words.
    pub fn message(&self) -> (r: String)
        ensures
            r@ == (match self {
                ScrapeError::Unparsable => "Bencode parse error"@,
                ScrapeError::NotADict => "Response is not a dict"@,
                ScrapeError::TrackerFailure(reason) => "Tracker failure: "@ + reason@,
                ScrapeError::NoFiles => "No files in response"@,
                ScrapeError::NotFound => "Infohash not found in scrape response"@,
            }),
    {
        match self {
            ScrapeError::Unparsable => "Bencode parse error".to_owned(),
            ScrapeError::NotADict => "Response is not a dict".to_owned(),
            ScrapeError::TrackerFailure(reason) => {
                let mut s = "Tracker failure: ".to_owned();
                s.append(reason.as_str());
                s
            },
            ScrapeError::NoFiles => "No files in response".to_owned(),
            ScrapeError::NotFound => "Infohash not found in scrape response".to_owned(),
        }
    }
}

/// The figure under a key, or 0.
pub open spec fn figure(t: BencodeTree, key: Seq<u8>) -> i64 {
    match t.int_at(key) {
        Some(n) => n,
        None => 0,
    }
}

/// What an answer, parsed, says of a torrent, or why it says nothing.
pub open spec fn entry_in(t: BencodeTree, infohash: Seq<u8>) -> Option<ScrapeEntry> {
    if !(t is Dict) || t.bytes_at("failure reason".spec_bytes()) is Some {
        None
    } else {
        match t.at("files".spec_bytes()) {
            Some(files) => match files.at(infohash) {
                Some(e) => if e is Dict {
                    Some(
                        ScrapeEntry {
                            complete: figure(e, "complete".spec_bytes()),
                            downloaded: figure(e, "downloaded".spec_bytes()),
                            incomplete: figure(e, "incomplete".spec_bytes()),
                        },
                    )
                } else {
                    None
                },
                None => None,
            },
            None => None,
        }
    }
}

/// Whether an error is the one that a parsed answer calls for.
pub open spec fn entry_error(t: BencodeTree, infohash: Seq<u8>, e: ScrapeError) -> bool {
    if !(t is Dict) {
        e is NotADict
    } else if t.bytes_at("failure reason".spec_bytes()) is Some {
        e matches ScrapeError::TrackerFailure(s) && s@ == lossy_text(
            t.bytes_at("failure reason".spec_bytes())->0,
        )
    } else if t.at("files".spec_bytes()) is None || !(t.at("files".spec_bytes())->0 is Dict) {
        e is NoFiles
    } else {
        e is NotFound
    }
}

/// Reads a parsed answer.
pub fn read_scrape_response(value: &Bencode, infohash: &Infohash) -> (r: Result<
    ScrapeEntry,
    ScrapeError,
>)
    ensures
        r is Ok <==> entry_in(value.tree(), infohash@) is Some,
        r matches Ok(e) ==> entry_in(value.tree(), infohash@) == Some(e),
        r matches Err(e) ==> entry_error(value.tree(), infohash@, e),
{
    if !value.is_dict() {
        return Err(ScrapeError::NotADict);
    }
    if let Some(reason) = value.get_string("failure reason") {
        return Err(ScrapeError::TrackerFailure(utf8_lossy(reason.as_slice())));
    }
    let files = match value.get("files") {
        Some(f) => f,
        None => {
            return Err(ScrapeError::NoFiles);
        },
    };
    if !files.is_dict() {
        return Err(ScrapeError::NoFiles);
    }
    let entry = match files.get_bytes(infohash.as_slice()) {
        Some(e) => e,
        None => {
            return Err(ScrapeError::NotFound);
        },
    };
    if !entry.is_dict() {
        return Err(ScrapeError::NotFound);
    }
    let complete: i64 = match entry.get_int("complete") {
        Some(n) => n,
        None => 0,
    };
    let incomplete: i64 = match entry.get_int("incomplete") {
        Some(n) => n,
        None => 0,
    };
    let downloaded: i64 = match entry.get_int("downloaded") {
        Some(n) => n,
        None => 0,
    };
    Ok(ScrapeEntry { complete, downloaded, incomplete })
}

/// Reads a tracker's answer.
pub fn parse_scrape_response(bytes: &[u8], infohash: &Infohash) -> (r: Result<
    ScrapeEntry,
    ScrapeError,
>)
    ensures
        parsed(bytes@) is None ==> (r matches Err(e) && e is Unparsable),
        parsed(bytes@) matches Some(t) ==> {
            &&& r is Ok <==> entry_in(t, infohash@) is Some
            &&& r matches Ok(e) ==> entry_in(t, infohash@) == Some(e)
            &&& r matches Err(e) ==> entry_error(t, infohash@, e)
        },
{
    match parse(bytes) {
        Some(v) => read_scrape_response(&v, infohash),
        None => Err(ScrapeError::Unparsable),
    }
}

/// Whether a byte stands for itself in a URL.
pub open spec fn unreserved(b: u8) -> bool {
    ||| 48 <= b <= 57
    ||| 65 <= b <= 90
    ||| 97 <= b <= 122
    ||| b == 45
    ||| b == 95
    ||| b == 46
    ||| b == 126
}

/// The upper-case hexadecimal digit of a number below sixteen.
pub open spec fn upper_hex(n: int) -> u8 {
    if n < 10 {
        (48 + n) as u8
    } else {
        (55 + n) as u8
    }
}

/// A byte in a URL: itself, or a percent sign and two digits.
pub open spec fn url_byte(b: u8) -> Seq<u8> {
    if unreserved(b) {
        seq![b]
    } else {
        seq![37u8, upper_hex(b as int / 16), upper_hex(b as int % 16)]
    }
}

/// Bytes in a URL.
pub open spec fn url_bytes(bytes: Seq<u8>) -> Seq<u8>
    decreases bytes.len(),
{
    if bytes.len() == 0 {
        Seq::empty()
    } else {
        url_bytes(bytes.drop_last()) + url_byte(bytes.last())
    }
}

fn upper_hex_digit(n: u8) -> (r: u8)
    requires
        n < 16,
    ensures
        r == upper_hex(n as int),
        r < 128,
{
    if n < 10 {
        48 + n
    } else {
        55 + n
    }
}

/// The infohash as it stands in a URL.
pub fn urlencode_infohash(infohash: &Infohash) -> (r: String)
    ensures
        r@ == ascii_text(url_bytes(infohash@)),
        ascii(r@) == url_bytes(infohash@),
{
    let mut out: Vec<u8> = Vec::new();
    let mut i: usize = 0;
    while i < 20
        invariant
            0 <= i <= 20,
            out@ == url_bytes(infohash@.take(i as int)),
            forall|k: int| 0 <= k < out@.len() ==> #[trigger] out@[k] < 128,
        decreases 20 - i,
    {
        let b: u8 = infohash[i];
        let ghost before = out@;
        if (b >= 48 && b <= 57) || (b >= 65 && b <= 90) || (b >= 97 && b <= 122) || b == 45 || b
            == 95 || b == 46 || b == 126 {
            out.push(b);
        } else {
            out.push(37);
            out.push(upper_hex_digit(b / 16));
            out.push(upper_hex_digit(b % 16));
        }
        proof {
            assert(infohash@.take(i + 1).drop_last() =~= infohash@.take(i as int));
            assert(out@ =~= before + url_byte(b));
        }
        i = i + 1;
    }
    assert(infohash@.take(20) =~= infohash@);
    ascii_string(out)
}

/// The value of an upper-case hexadecimal digit.
pub open spec fn upper_hex_value(b: u8) -> int {
    if b <= 57 {
        b - 48
    } else {
        b - 55
    }
}

/// The bytes that a URL part stands for.
pub open spec fn url_decode(s: Seq<u8>) -> Seq<u8>
    decreases s.len(),
{
    if s.len() == 0 {
        Seq::empty()
    } else if s[0] == 37 && s.len() >= 3 {
        seq![(16 * upper_hex_value(s[1]) + upper_hex_value(s[2])) as u8] + url_decode(s.skip(3))
    } else {
        seq![s[0]] + url_decode(s.skip(1))
    }
}

proof fn lemma_url_bytes_split(bytes: Seq<u8>)
    requires
        bytes.len() > 0,
    ensures
        url_bytes(bytes) == url_byte(bytes[0]) + url_bytes(bytes.skip(1)),
    decreases bytes.len(),
{
    if bytes.len() == 1 {
        assert(bytes.drop_last() =~= Seq::<u8>::empty());
        assert(bytes.skip(1) =~= Seq::<u8>::empty());
        reveal_with_fuel(url_bytes, 2);
        assert(url_bytes(bytes) =~= url_byte(bytes[0]) + url_bytes(bytes.skip(1)));
    } else {
        lemma_url_bytes_split(bytes.drop_last());
        assert(bytes.drop_last().skip(1) =~= bytes.skip(1).drop_last());
        assert(url_bytes(bytes) =~= url_byte(bytes[0]) + url_bytes(bytes.skip(1)));
    }
}

/// Decoding an encoded infohash gives it back, so no two are encoded alike.
pub proof fn url_round_trip(bytes: Seq<u8>)
    ensures
        url_decode(url_bytes(bytes)) == bytes,
    decreases bytes.len(),
{
    if bytes.len() == 0 {
    } else {
        lemma_url_bytes_split(bytes);
        url_round_trip(bytes.skip(1));
        let b = bytes[0];
        let rest = url_bytes(bytes.skip(1));
        let s = url_bytes(bytes);
        if unreserved(b) {
            assert(s.skip(1) =~= rest);
        } else {
            assert(s.skip(3) =~= rest);
            assert(16 * (b as int / 16) + b as int % 16 == b);
        }
        assert(url_decode(s) =~= bytes);
    }
}

/// How a tracker is spoken to.
#[derive(Debug, Clone, Copy, PartialEq, Eq, Structural)]
pub enum TrackerProtocol {
    Http,
    /// Cannot be scraped.
    Udp,
    Unknown,
}

/// The protocol that a tracker's URL names.
pub open spec fn protocol_of(url: Seq<u8>) -> TrackerProtocol {
    if starts_with(url, "http://".spec_bytes()) || starts_with(url, "https://".spec_bytes()) {
        TrackerProtocol::Http
    } else if starts_with(url, "udp://".spec_bytes()) {
        TrackerProtocol::Udp
    } else {
        TrackerProtocol::Unknown
    }
}

fn has_prefix(s: &[u8], prefix: &str) -> (r: bool)
    ensures
        r == starts_with(s@, prefix.spec_bytes()),
{
    let r = matches_at(s, prefix.as_bytes(), 0);
    proof {
        let p = prefix.spec_bytes();
        if s@.len() >= p.len() {
            assert(s@.subrange(0, p.len() as int) =~= s@.take(p.len() as int));
        }
    }
    r
}

/// The protocol that a tracker's URL names.
pub fn tracker_protocol(url: &str) -> (r: TrackerProtocol)
    ensures
        r == protocol_of(url.spec_bytes()),
{
    let b = url.as_bytes();
    if has_prefix(b, "http://") || has_prefix(b, "https://") {
        TrackerProtocol::Http
    } else if has_prefix(b, "udp://") {
        TrackerProtocol::Udp
    } else {
        TrackerProtocol::Unknown
    }
}

/// `s` without the slashes at its end.
pub open spec fn trim_slashes(s: Seq<u8>) -> Seq<u8>
    decreases s.len(),
{
    if s.len() > 0 && s.last() == 47 {
        trim_slashes(s.drop_last())
    } else {
        s
    }
}

/// Where a tracker is scraped: its announce URL with `scrape` for `announce`, or its
/// URL with `scrape` behind it.
pub open spec fn scrape_url(url: Seq<u8>) -> Seq<u8> {
    if occurs(url, "/announce".spec_bytes()) {
        replace_all(url, "/announce".spec_bytes(), "/scrape".spec_bytes())
    } else {
        trim_slashes(url) + "/scrape".spec_bytes()
    }
}

/// The URL, as bytes, that asks a tracker about a torrent.
pub fn build_scrape_url(tracker_url: &str, infohash: &Infohash) -> (r: Vec<u8>)
    ensures
        r@ == scrape_url(tracker_url.spec_bytes()) + ascii("?info_hash="@) + url_bytes(infohash@),
{
    let url = tracker_url.as_bytes();
    proof {
        reveal_strlit("/announce");
        is_ascii_spec_bytes("/announce");
        reveal_strlit("?info_hash=");
    }
    let mut out: Vec<u8> = if contains_bytes(url, "/announce".as_bytes()) {
        replace_bytes(url, "/announce".as_bytes(), "/scrape".as_bytes())
    } else {
        let mut end: usize = url.len();
        assert(url@.take(end as int) =~= url@);
        while end > 0 && url[end - 1] == 47
            invariant
                end <= url@.len(),
                trim_slashes(url@) == trim_slashes(url@.take(end as int)),
            decreases end,
        {
            assert(url@.take(end as int).drop_last() =~= url@.take(end - 1));
            end = end - 1;
        }
        let mut base: Vec<u8> = Vec::new();
        base.extend_from_slice(vstd::slice::slice_subrange(url, 0, end));
        assert(base@ =~= url@.take(end as int));
        push_str(&mut base, "/scrape");
        base
    };
    assert(out@ == scrape_url(url@));
    push_str(&mut out, "?info_hash=");
    let encoded = urlencode_infohash(infohash);
    proof {
        let t = encoded@;
        assert forall|i: int| 0 <= i < t.len() implies (#[trigger] t[i]) as nat <= 127 by {
            lemma_url_ascii(infohash@);
            assert(url_bytes(infohash@)[i] < 128);
        }
    }
    push_str(&mut out, encoded.as_str());
    assert(out@ =~= scrape_url(url@) + ascii("?info_hash="@) + url_bytes(infohash@));
    out
}

proof fn lemma_url_ascii(bytes: Seq<u8>)
    ensures
        forall|i: int| 0 <= i < url_bytes(bytes).len() ==> #[trigger] url_bytes(bytes)[i] < 128,
    decreases bytes.len(),
{
    if bytes.len() > 0 {
        lemma_url_ascii(bytes.drop_last());
        let head = url_bytes(bytes.drop_last());
        let all = url_bytes(bytes);
        assert forall|i: int| 0 <= i < all.len() implies #[trigger] all[i] < 128 by {
            if i < head.len() {
                assert(all[i] == head[i]);
            } else {
                assert(all[i] == url_byte(bytes.last())[i - head.len()]);
            }
        }
    }
}

/// What a cache of results holds.
pub uninterp spec fn results_in(m: DashMap<[u8; 20], ScrapeResult>) -> Map<Seq<u8>, ScrapeResult>;

/// What is noted of each tracker.
pub uninterp spec fn limits_in(m: DashMap<String, TrackerRateLimit>) -> Map<
    Seq<char>,
    TrackerRateLimit,
>;

/// `DashMap::new`: a map without entries.
#[verifier::external_body]
fn new_results() -> (r: DashMap<[u8; 20], ScrapeResult>)
    ensures
        (results_in(r) == Map::<Seq<u8>, ScrapeResult>::empty()),
{
    DashMap::new()
}

/// `DashMap::get`, with a copy of the value: the entry under the key, if there is one.
#[verifier::external_body]
fn results_get(m: &DashMap<[u8; 20], ScrapeResult>, key: &[u8; 20]) -> (r: Option<ScrapeResult>)
    ensures
        r is Some <==> results_in(*m).dom().contains(key@),
        r matches Some(v) ==> v == results_in(*m)[key@],
{
    m.get(key).map(|entry| *entry.value())
}

/// `DashMap::insert`: the key then has the new value, and every other entry is
/// untouched.
#[verifier::external_body]
fn results_insert(m: &mut DashMap<[u8; 20], ScrapeResult>, key: [u8; 20], value: ScrapeResult)
    ensures
        results_in(*final(m)) == results_in(*old(m)).insert(key@, value),
{
    m.insert(key, value);
}

/// `DashMap::retain`: exactly the entries stay for which the predicate, here whether
/// they are recent enough, is true.
#[verifier::external_body]
fn results_retain(m: &mut DashMap<[u8; 20], ScrapeResult>, now: u64, keep: u64)
    ensures
        results_in(*final(m)) == results_in(*old(m)).restrict(
            Set::new(
                |k: Seq<u8>|
                    results_in(*old(m)).dom().contains(k) && fresh(
                        results_in(*old(m))[k].last_updated,
                        now,
                        keep,
                    ),
            ),
        ),
{
    m.retain(|_, v| is_fresh(v.last_updated, now, keep));
}

/// `DashMap::len`: the number of entries. The keys can be listed, each once, in a
/// list of that length.
#[verifier::external_body]
fn results_len(m: &DashMap<[u8; 20], ScrapeResult>) -> (r: usize)
    ensures
        exists|keys: Seq<Seq<u8>>| #[trigger] lists_keys(keys, results_in(*m).dom(), r as nat),
{
    m.len()
}

/// `DashMap::new`: a map without entries.
#[verifier::external_body]
fn new_limits() -> (r: DashMap<String, TrackerRateLimit>)
    ensures
        (limits_in(r) == Map::<Seq<char>, TrackerRateLimit>::empty()),
{
    DashMap::new()
}

/// `DashMap::get`, with a copy of the value: the entry under the key, if there is one.
#[verifier::external_body]
fn limits_get(m: &DashMap<String, TrackerRateLimit>, key: &str) -> (r: Option<TrackerRateLimit>)
    ensures
        r is Some <==> limits_in(*m).dom().contains(key@),
        r matches Some(v) ==> v == limits_in(*m)[key@],
{
    m.get(key).map(|entry| *entry.value())
}

/// `DashMap::insert`: the key then has the new value, and every other entry is
/// untouched.
#[verifier::external_body]
fn limits_insert(m: &mut DashMap<String, TrackerRateLimit>, key: String, value: TrackerRateLimit)
    ensures
        limits_in(*final(m)) == limits_in(*old(m)).insert(key@, value),
{
    m.insert(key, value);
}

fn count_results(m: &DashMap<[u8; 20], ScrapeResult>) -> (r: usize)
    ensures
        r == results_in(*m).dom().len(),
        results_in(*m).dom().finite(),
{
    let n: usize = results_len(m);
    proof {
        let keys = choose|keys: Seq<Seq<u8>>| #[trigger]
            lists_keys(keys, results_in(*m).dom(), n as nat);
        keys.unique_seq_to_set();
    }
    n
}

/// What a tracker that was asked came back with.
pub struct ScrapeOutcome {
    pub url: String,
    /// What it said, unless it failed.
    pub entry: Option<ScrapeEntry>,
}

/// What a wish to scrape a torrent leads to.
pub enum ScrapePlan {
    /// A usable result is in the cache.
    Cached(ScrapeResult),
    /// There is no tracker to ask.
    NoTrackers,
    /// Ask these, and report the outcomes.
    Ask(Vec<String>),
}

pub open spec fn max_figure(a: i64, b: i64) -> i64 {
    if a >= b {
        a
    } else {
        b
    }
}

/// The merged result of the outcomes: the largest of each figure, none below zero, and
/// the number of trackers that answered.
pub open spec fn merged(outcomes: Seq<ScrapeOutcome>, now: u64) -> ScrapeResult
    decreases outcomes.len(),
{
    if outcomes.len() == 0 {
        empty_result(now)
    } else {
        let m = merged(outcomes.drop_last(), now);
        match outcomes.last().entry {
            Some(e) => ScrapeResult {
                complete: max_figure(m.complete, e.complete),
                incomplete: max_figure(m.incomplete, e.incomplete),
                downloaded: max_figure(m.downloaded, e.downloaded),
                source_count: (m.source_count + 1) as u32,
                last_updated: now,
            },
            None => m,
        }
    }
}

proof fn lemma_merged_count(outcomes: Seq<ScrapeOutcome>, now: u64)
    requires
        outcomes.len() <= u32::MAX,
    ensures
        merged(outcomes, now).source_count <= outcomes.len(),
        merged(outcomes, now).last_updated == now,
    decreases outcomes.len(),
{
    if outcomes.len() > 0 {
        lemma_merged_count(outcomes.drop_last(), now);
    }
}

/// A merged figure is at least what each tracker said.
pub proof fn merged_covers_every_answer(outcomes: Seq<ScrapeOutcome>, now: u64, i: int)
    requires
        0 <= i < outcomes.len(),
        outcomes[i].entry is Some,
    ensures
        merged(outcomes, now).complete >= outcomes[i].entry->0.complete,
        merged(outcomes, now).incomplete >= outcomes[i].entry->0.incomplete,
        merged(outcomes, now).downloaded >= outcomes[i].entry->0.downloaded,
    decreases outcomes.len(),
{
    if i < outcomes.len() - 1 {
        merged_covers_every_answer(outcomes.drop_last(), now, i);
    }
}

/// A merged figure is zero or what some tracker said.
pub proof fn merged_is_attained(outcomes: Seq<ScrapeOutcome>, now: u64)
    ensures
        merged(outcomes, now).complete == 0 || exists|i: int|
            0 <= i < outcomes.len() && (#[trigger] outcomes[i]).entry is Some
                && outcomes[i].entry->0.complete == merged(outcomes, now).complete,
        merged(outcomes, now).incomplete == 0 || exists|i: int|
            0 <= i < outcomes.len() && (#[trigger] outcomes[i]).entry is Some
                && outcomes[i].entry->0.incomplete == merged(outcomes, now).incomplete,
        merged(outcomes, now).downloaded == 0 || exists|i: int|
            0 <= i < outcomes.len() && (#[trigger] outcomes[i]).entry is Some
                && outcomes[i].entry->0.downloaded == merged(outcomes, now).downloaded,
    decreases outcomes.len(),
{
    if outcomes.len() > 0 {
        let p = outcomes.drop_last();
        merged_is_attained(p, now);
        let m = merged(p, now);
        assert(outcomes[outcomes.len() - 1] == outcomes.last());
        if m.complete != 0 {
            let i = choose|i: int|
                0 <= i < p.len() && (#[trigger] p[i]).entry is Some && p[i].entry->0.complete
                    == m.complete;
            assert(outcomes[i] == p[i]);
        }
        if m.incomplete != 0 {
            let i = choose|i: int|
                0 <= i < p.len() && (#[trigger] p[i]).entry is Some && p[i].entry->0.incomplete
                    == m.incomplete;
            assert(outcomes[i] == p[i]);
        }
        if m.downloaded != 0 {
            let i = choose|i: int|
                0 <= i < p.len() && (#[trigger] p[i]).entry is Some && p[i].entry->0.downloaded
                    == m.downloaded;
            assert(outcomes[i] == p[i]);
        }
    }
}

/// Keeper of scrape results and of how the trackers have behaved.
pub struct ScrapeService {
    cache: DashMap<[u8; 20], ScrapeResult>,
    rate_limits: DashMap<String, TrackerRateLimit>,
}

/// The service's state as the contracts see it.
#[verifier::ext_equal]
pub struct ScrapeState {
    pub cache: Map<Seq<u8>, ScrapeResult>,
    pub limits: Map<Seq<char>, TrackerRateLimit>,
}

impl ScrapeState {
    pub open spec fn wf(self) -> bool {
        forall|u: Seq<char>| #[trigger] self.limits.dom().contains(u) ==> self.limits[u].wf()
    }

    /// The result that is still usable at `now`.
    pub open spec fn usable(self, infohash: Seq<u8>, now: u64) -> Option<ScrapeResult> {
        if self.cache.dom().contains(infohash) && fresh(
            self.cache[infohash].last_updated,
            now,
            SCRAPE_CACHE_TTL,
        ) {
            Some(self.cache[infohash])
        } else {
            None
        }
    }

    /// What is noted of a tracker; a new one counts as never asked.
    pub open spec fn limit(self, url: Seq<char>, now: u64) -> TrackerRateLimit {
        if self.limits.dom().contains(url) {
            self.limits[url]
        } else {
            TrackerRateLimit::fresh_at(now)
        }
    }

    /// The state with a tracker noted.
    pub open spec fn known(self, url: Seq<char>, now: u64) -> ScrapeState {
        ScrapeState { limits: self.limits.insert(url, self.limit(url, now)), ..self }
    }

    /// The state after the first trackers of a list were considered: all are noted.
    pub open spec fn after_plan(self, urls: Seq<String>, now: u64) -> ScrapeState
        decreases urls.len(),
    {
        if urls.len() == 0 {
            self
        } else {
            self.after_plan(urls.drop_last(), now).known(urls.last()@, now)
        }
    }

    /// The state after an outcome.
    pub open spec fn after_outcome(self, o: ScrapeOutcome, now: u64) -> ScrapeState {
        let l = self.limit(o.url@, now);
        ScrapeState {
            limits: self.limits.insert(
                o.url@,
                if o.entry is Some {
                    l.after_success(now)
                } else {
                    l.after_failure(SCRAPE_MAX_FAILURES, SCRAPE_COOLDOWN, now)
                },
            ),
            ..self
        }
    }

    /// The state after several outcomes.
    pub open spec fn after_outcomes(self, os: Seq<ScrapeOutcome>, now: u64) -> ScrapeState
        decreases os.len(),
    {
        if os.len() == 0 {
            self
        } else {
            self.after_outcomes(os.drop_last(), now).after_outcome(os.last(), now)
        }
    }
}

/// A merged result that is kept is handed out until it is too old.
pub proof fn kept_result_is_usable(s: ScrapeState, infohash: Seq<u8>, r: ScrapeResult, now: u64)
    requires
        fresh(r.last_updated, now, SCRAPE_CACHE_TTL),
    ensures
        (ScrapeState { cache: s.cache.insert(infohash, r), ..s }).usable(infohash, now) == Some(r),
{
}

/// Dropping old results takes nothing away that was usable.
pub proof fn dropping_keeps_the_usable(s: ScrapeState, infohash: Seq<u8>, now: u64)
    ensures
        (ScrapeState {
            cache: s.cache.restrict(
                Set::new(
                    |k: Seq<u8>|
                        s.cache.dom().contains(k) && fresh(
                            s.cache[k].last_updated,
                            now,
                            SCRAPE_CACHE_KEEP,
                        ),
                ),
            ),
            ..s
        }).usable(infohash, now) == s.usable(infohash, now),
{
}

/// The trackers of a list that may be asked at `now`.
pub open spec fn askable(s: ScrapeState, urls: Seq<String>, now: u64) -> Seq<Seq<char>> {
    urls.filter(|u: String| s.limit(u@, now).allows(SCRAPE_MIN_INTERVAL, now)).map_values(
        |u: String| u@,
    )
}

/// The part of a tracker list that one scrape considers.
pub open spec fn considered(urls: Seq<String>) -> Seq<String> {
    if urls.len() <= SCRAPE_MAX_TRACKERS {
        urls
    } else {
        urls.take(SCRAPE_MAX_TRACKERS as int)
    }
}

impl View for ScrapeService {
    type V = ScrapeState;

    closed spec fn view(&self) -> ScrapeState {
        ScrapeState { cache: results_in(self.cache), limits: limits_in(self.rate_limits) }
    }
}

proof fn lemma_limit_stable(s: ScrapeState, urls: Seq<String>, now: u64, url: Seq<char>)
    ensures
        s.after_plan(urls, now).limit(url, now) == s.limit(url, now),
        s.after_plan(urls, now).cache == s.cache,
    decreases urls.len(),
{
    if urls.len() > 0 {
        lemma_limit_stable(s, urls.drop_last(), now, url);
        lemma_limit_stable(s, urls.drop_last(), now, urls.last()@);
    }
}

impl ScrapeService {
    /// A service that has asked nobody.
    pub fn new() -> (r: Self)
        ensures
            r@.wf(),
            r@.cache == Map::<Seq<u8>, ScrapeResult>::empty(),
            r@.limits == Map::<Seq<char>, TrackerRateLimit>::empty(),
    {
        ScrapeService { cache: new_results(), rate_limits: new_limits() }
    }

    /// A result from the cache, unless it is too old.
    pub fn get_scrape_result(&self, infohash: &Infohash, now: u64) -> (r: Option<ScrapeResult>)
        ensures
            r == self@.usable(infohash@, now),
    {
        match results_get(&self.cache, infohash) {
            Some(v) => {
                if is_fresh(v.last_updated, now, SCRAPE_CACHE_TTL) {
                    Some(v)
                } else {
                    None
                }
            },
            None => None,
        }
    }

    /// What is noted of a tracker; a new one is noted as never asked.
    pub fn get_or_create_rate_limit(&mut self, url: &String, now: u64) -> (r: TrackerRateLimit)
        requires
            old(self)@.wf(),
            now >= ONE_HOUR,
        ensures
            final(self)@.wf(),
            r == old(self)@.limit(url@, now),
            final(self)@ == old(self)@.known(url@, now),
    {
        match limits_get(&self.rate_limits, url.as_str()) {
            Some(l) => {
                assert(old(self)@.known(url@, now).limits =~= old(self)@.limits);
                l
            },
            None => {
                let l = TrackerRateLimit::new(now);
                limits_insert(&mut self.rate_limits, url.clone(), l);
                l
            },
        }
    }

    /// Decides how to scrape a torrent: from the cache, or by asking those of the first
    /// few trackers that may be asked.
    pub fn plan_scrape(&mut self, infohash: &Infohash, trackers: &Vec<String>, now: u64) -> (r:
        ScrapePlan)
        requires
            old(self)@.wf(),
            now >= ONE_HOUR,
        ensures
            final(self)@.wf(),
            match old(self)@.usable(infohash@, now) {
                Some(v) => r == ScrapePlan::Cached(v) && final(self)@ == old(self)@,
                None => if trackers@.len() == 0 {
                    r is NoTrackers && final(self)@ == old(self)@
                } else {
                    &&& r matches ScrapePlan::Ask(urls) && urls@.map_values(|u: String| u@)
                        == askable(old(self)@, considered(trackers@), now)
                    &&& final(self)@ == old(self)@.after_plan(considered(trackers@), now)
                },
            },
    {
        if let Some(v) = self.get_scrape_result(infohash, now) {
            return ScrapePlan::Cached(v);
        }
        if trackers.len() == 0 {
            return ScrapePlan::NoTrackers;
        }
        let ghost s = self@;
        let ghost list = considered(trackers@);
        let ghost open_to = |u: String| s.limit(u@, now).allows(SCRAPE_MIN_INTERVAL, now);
        let ghost text = |u: String| u@;
        let mut ask: Vec<String> = Vec::new();
        let mut i: usize = 0;
        assert(ask@.map_values(text) =~= askable(s, list.take(0), now));
        while i < trackers.len() && i < SCRAPE_MAX_TRACKERS
            invariant
                now >= ONE_HOUR,
                self@.wf(),
                list == considered(trackers@),
                0 <= i <= list.len(),
                open_to == (|u: String| s.limit(u@, now).allows(SCRAPE_MIN_INTERVAL, now)),
                text == (|u: String| u@),
                self@ == s.after_plan(list.take(i as int), now),
                ask@.map_values(text) == askable(s, list.take(i as int), now),
            decreases trackers@.len() - i,
        {
            let ghost head = list.take(i as int);
            proof {
                lemma_limit_stable(s, head, now, trackers@[i as int]@);
                assert(list.take(i + 1).drop_last() =~= head);
                assert(list.take(i + 1).last() == trackers@[i as int]);
                reveal_with_fuel(Seq::filter, 2);
            }
            let limit = self.get_or_create_rate_limit(&trackers[i], now);
            if limit.can_request(SCRAPE_MIN_INTERVAL, now) {
                let url = trackers[i].clone();
                proof {
                    assert(list.take(i + 1).filter(open_to) =~= head.filter(open_to).push(
                        trackers@[i as int],
                    ));
                    assert(askable(s, list.take(i + 1), now) =~= askable(s, head, now).push(url@));
                    assert(ask@.push(url).map_values(text) =~= ask@.map_values(text).push(url@));
                }
                ask.push(url);
            }
            i = i + 1;
        }
        assert(list.take(i as int) =~= list);
        ScrapePlan::Ask(ask)
    }

    /// Takes in what the asked trackers came back with: notes how each behaved, merges
    /// what they said, and keeps the result if any answered.
    pub fn finish_scrape(&mut self, infohash: &Infohash, outcomes: &Vec<ScrapeOutcome>, now: u64)
        -> (r: ScrapeResult)
        requires
            old(self)@.wf(),
            now >= ONE_HOUR,
            now + SCRAPE_COOLDOWN <= u64::MAX,
            outcomes@.len() <= u32::MAX,
        ensures
            final(self)@.wf(),
            r == merged(outcomes@, now),
            final(self)@.limits == old(self)@.after_outcomes(outcomes@, now).limits,
            final(self)@.cache == (if r.source_count > 0 {
                old(self)@.cache.insert(infohash@, r)
            } else {
                old(self)@.cache
            }),
    {
        let ghost s = self@;
        let mut result = ScrapeResult {
            complete: 0,
            incomplete: 0,
            downloaded: 0,
            source_count: 0,
            last_updated: now,
        };
        let mut i: usize = 0;
        while i < outcomes.len()
            invariant
                now >= ONE_HOUR,
                now + SCRAPE_COOLDOWN <= u64::MAX,
                outcomes@.len() <= u32::MAX,
                self@.wf(),
                0 <= i <= outcomes@.len(),
                result == merged(outcomes@.take(i as int), now),
                self@.limits == s.after_outcomes(outcomes@.take(i as int), now).limits,
                self@.cache == s.cache,
            decreases outcomes@.len() - i,
        {
            proof {
                assert(outcomes@.take(i + 1).drop_last() =~= outcomes@.take(i as int));
                lemma_merged_count(outcomes@.take(i as int), now);
            }
            let ghost before = self@;
            let o = &outcomes[i];
            let mut limit = self.get_or_create_rate_limit(&o.url, now);
            match o.entry {
                Some(e) => {
                    limit.record_success(now);
                    if e.complete > result.complete {
                        result.complete = e.complete;
                    }
                    if e.incomplete > result.incomplete {
                        result.incomplete = e.incomplete;
                    }
                    if e.downloaded > result.downloaded {
                        result.downloaded = e.downloaded;
                    }
                    result.source_count = result.source_count + 1;
                },
                None => {
                    limit.record_failure(SCRAPE_MAX_FAILURES, SCRAPE_COOLDOWN, now);
                },
            }
            limits_insert(&mut self.rate_limits, o.url.clone(), limit);
            assert(self@.limits =~= before.after_outcome(*o, now).limits);
            i = i + 1;
        }
        assert(outcomes@.take(i as int) =~= outcomes@);
        if result.source_count > 0 {
            results_insert(&mut self.cache, *infohash, result);
        }
        result
    }

    /// Drops results that are kept no longer, and says how many they were.
    pub fn cleanup_expired_cache(&mut self, now: u64) -> (r: usize)
        requires
            old(self)@.wf(),
        ensures
            final(self)@.wf(),
            final(self)@.limits == old(self)@.limits,
            final(self)@.cache == old(self)@.cache.restrict(
                Set::new(
                    |k: Seq<u8>|
                        old(self)@.cache.dom().contains(k) && fresh(
                            old(self)@.cache[k].last_updated,
                            now,
                            SCRAPE_CACHE_KEEP,
                        ),
                ),
            ),
            r == old(self)@.cache.dom().len() - final(self)@.cache.dom().len(),
    {
        let before: usize = count_results(&self.cache);
        let ghost c = results_in(self.cache);
        results_retain(&mut self.cache, now, SCRAPE_CACHE_KEEP);
        let after: usize = count_results(&self.cache);
        proof {
            vstd::set_lib::lemma_len_subset(results_in(self.cache).dom(), c.dom());
            assert(self@.limits == old(self)@.limits);
        }
        before - after
    }

    /// Number of results in the cache, usable or not.
    pub fn cached_count(&self) -> (r: usize)
        ensures
            r == self@.cache.dom().len(),
    {
        count_results(&self.cache)
    }
}

impl Default for ScrapeService {
    fn default() -> (r: Self)
        ensures
            r@.wf(),
            r@.cache == Map::<Seq<u8>, ScrapeResult>::empty(),
            r@.limits == Map::<Seq<char>, TrackerRateLimit>::empty(),
    {
        ScrapeService::new()
    }
}

/// A URL that goes on behind `http://` or `https://` names a tracker that is spoken to over
/// HTTP, one behind `udp://` one over UDP.
pub proof fn prefixes_name_the_protocol(rest: Seq<u8>)
    ensures
        protocol_of(ascii("http://"@) + rest) == TrackerProtocol::Http,
        protocol_of(ascii("https://"@) + rest) == TrackerProtocol::Http,
        protocol_of(ascii("udp://"@) + rest) == TrackerProtocol::Udp,
{
    lemma_prefix_bytes();
    let (h, s, u) = (ascii("http://"@), ascii("https://"@), ascii("udp://"@));
    assert((h + rest).take(h.len() as int) =~= h);
    assert((s + rest).take(s.len() as int) =~= s);
    assert((u + rest).take(u.len() as int) =~= u);
    reveal_strlit("http://");
    reveal_strlit("https://");
    reveal_strlit("udp://");
    assert((u + rest)[0] == 117);
    assert("http://".spec_bytes()[0] == 104 && "https://".spec_bytes()[0] == 104);
    if starts_with(u + rest, h) {
        assert((u + rest).take(h.len() as int)[0] == h[0]);
    }
    if starts_with(u + rest, s) {
        assert((u + rest).take(s.len() as int)[0] == s[0]);
    }
}

/// A tracker that is spoken to over HTTP has one of the two prefixes of that protocol in its
/// URL, one over UDP that of UDP, and any other has none of the three.
pub proof fn the_protocol_is_in_the_prefix(url: Seq<u8>)
    ensures
        match protocol_of(url) {
            TrackerProtocol::Http => exists|rest: Seq<u8>|
                url == #[trigger] (ascii("http://"@) + rest) || url == ascii("https://"@) + rest,
            TrackerProtocol::Udp => exists|rest: Seq<u8>|
                url == #[trigger] (ascii("udp://"@) + rest),
            TrackerProtocol::Unknown => forall|rest: Seq<u8>|
                #![trigger ascii("http://"@) + rest]
                url != ascii("http://"@) + rest && url != ascii("https://"@) + rest && url != ascii(
                    "udp://"@,
                ) + rest,
        },
{
    lemma_prefix_bytes();
    let (h, s, u) = (ascii("http://"@), ascii("https://"@), ascii("udp://"@));
    if starts_with(url, h) {
        let rest = url.skip(h.len() as int);
        assert(url =~= h + rest);
    } else if starts_with(url, s) {
        let rest = url.skip(s.len() as int);
        assert(url =~= s + rest);
        let other = h + rest;
    } else if starts_with(url, u) {
        let rest = url.skip(u.len() as int);
        assert(url =~= u + rest);
    } else {
        assert forall|rest: Seq<u8>|
            #![trigger ascii("http://"@) + rest]
            url != h + rest && url != s + rest && url != u + rest by {
            assert((h + rest).take(h.len() as int) =~= h);
            assert((s + rest).take(s.len() as int) =~= s);
            assert((u + rest).take(u.len() as int) =~= u);
        }
    }
}

proof fn lemma_prefix_bytes()
    ensures
        "http://".spec_bytes() == ascii("http://"@),
        "https://".spec_bytes() == ascii("https://"@),
        "udp://".spec_bytes() == ascii("udp://"@),
{
    reveal_strlit("http://");
    reveal_strlit("https://");
    reveal_strlit("udp://");
    is_ascii_spec_bytes("http://");
    is_ascii_spec_bytes("https://");
    is_ascii_spec_bytes("udp://");
    assert("http://".spec_bytes() =~= ascii("http://"@));
    assert("https://".spec_bytes() =~= ascii("https://"@));
    assert("udp://".spec_bytes() =~= ascii("udp://"@));
}

} // verus!
