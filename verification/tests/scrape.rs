use pdc::services::scrape_service::{
    build_scrape_url, parse_scrape_response, tracker_protocol, urlencode_infohash, ScrapeEntry,
    ScrapeError, ScrapeOutcome, ScrapePlan, ScrapeResult, ScrapeService, TrackerProtocol,
    TrackerRateLimit,
};

#[test]
fn test_urlencode_infohash() {
    let infohash = [0u8; 20];
    let encoded = urlencode_infohash(&infohash);
    assert_eq!(encoded, "%00%00%00%00%00%00%00%00%00%00%00%00%00%00%00%00%00%00%00%00");
    let mut infohash2 = [0u8; 20];
    infohash2[0] = b'A';
    infohash2[1] = b'B';
    infohash2[2] = b'1';
    let encoded2 = urlencode_infohash(&infohash2);
    assert!(encoded2.starts_with("AB1"));
}

#[test]
fn test_scrape_result_default() {
    let result = ScrapeResult::default();
    assert_eq!(result.complete, 0);
    assert_eq!(result.incomplete, 0);
    assert_eq!(result.downloaded, 0);
    assert_eq!(result.source_count, 0);
}

#[test]
fn test_parse_scrape_response() {
    let infohash = [b'A'; 20];
    assert!(parse_scrape_response(b"invalid bencode data", &infohash).is_err());
}

#[test]
fn test_parse_scrape_response_failure() {
    let infohash = [b'A'; 20];
    match parse_scrape_response(b"d14:failure reason10:test errore", &infohash) {
        Err(e) => assert!(e.message().contains("test error")),
        Ok(_) => panic!("the tracker refused"),
    }
}

#[test]
fn scrape_response_is_read() {
    let mut body = b"d5:filesd20:".to_vec();
    body.extend_from_slice(&[b'A'; 20]);
    body.extend_from_slice(b"d8:completei7e10:downloadedi5e10:incompletei3eeee");
    let e = parse_scrape_response(&body, &[b'A'; 20]).ok().unwrap();
    assert_eq!((e.complete, e.downloaded, e.incomplete), (7, 5, 3));
    assert!(matches!(parse_scrape_response(&body, &[b'B'; 20]), Err(ScrapeError::NotFound)));
    assert!(matches!(parse_scrape_response(b"de", &[b'B'; 20]), Err(ScrapeError::NoFiles)));
    assert!(matches!(parse_scrape_response(b"i1e", &[b'B'; 20]), Err(ScrapeError::NotADict)));
    assert!(matches!(parse_scrape_response(b"?", &[b'B'; 20]), Err(ScrapeError::Unparsable)));
}

const SEC: u64 = 1_000_000_000;

#[test]
fn test_rate_limit() {
    let now = 10_000 * SEC;
    let mut rl = TrackerRateLimit::new(now);
    assert!(rl.can_request(SEC, now));
    rl.record_success(now);
    assert!(!rl.can_request(10 * SEC, now));
    rl.record_failure(3, 300 * SEC, now);
    rl.record_failure(3, 300 * SEC, now);
    rl.record_failure(3, 300 * SEC, now);
    assert!(!rl.can_request(0, now));
}

#[test]
fn scrape_urls() {
    let url = build_scrape_url("http://t.example/announce", &[b'A'; 20]);
    let text = String::from_utf8(url).unwrap();
    assert_eq!(text, "http://t.example/scrape?info_hash=AAAAAAAAAAAAAAAAAAAA");
    assert!(matches!(tracker_protocol("udp://t.example:80"), TrackerProtocol::Udp));
    assert!(matches!(tracker_protocol("https://t.example"), TrackerProtocol::Http));
    assert!(matches!(tracker_protocol("ws://t.example"), TrackerProtocol::Unknown));
}

#[test]
fn answers_are_merged_and_kept() {
    let now = 10_000 * SEC;
    let mut service = ScrapeService::new();
    let ih = [9u8; 20];
    let none: Vec<String> = vec![];
    assert!(matches!(service.plan_scrape(&ih, &none, now), ScrapePlan::NoTrackers));
    let urls = vec!["http://a/announce".to_string(), "http://b/announce".to_string()];
    match service.plan_scrape(&ih, &urls, now) {
        ScrapePlan::Ask(list) => assert_eq!(list.len(), 2),
        _ => panic!("both trackers can be asked"),
    }
    let outcomes = vec![
        ScrapeOutcome {
            url: urls[0].clone(),
            entry: Some(ScrapeEntry { complete: 3, downloaded: 1, incomplete: 9 }),
        },
        ScrapeOutcome {
            url: urls[1].clone(),
            entry: Some(ScrapeEntry { complete: 5, downloaded: 0, incomplete: 2 }),
        },
    ];
    let r = service.finish_scrape(&ih, &outcomes, now);
    assert_eq!((r.complete, r.incomplete, r.source_count), (5, 9, 2));
    assert!(service.get_scrape_result(&ih, now).is_some());
    assert!(matches!(service.plan_scrape(&ih, &urls, now), ScrapePlan::Cached(_)));
    assert_eq!(service.cached_count(), 1);
    assert_eq!(service.cleanup_expired_cache(now + 601 * SEC), 1);
    assert!(service.get_scrape_result(&ih, now).is_none());
}

#[test]
fn a_tracker_is_asked_once_a_second() {
    let now = 10_000 * SEC;
    let mut rl = TrackerRateLimit::new(now);
    rl.record_success(now);
    assert!(!rl.can_request(SEC, now + SEC - 1));
    assert!(rl.can_request(SEC, now + SEC));
    rl.record_failure(3, 300 * SEC, now + SEC);
    assert!(!rl.can_request(SEC, now + SEC + SEC / 2));
    assert!(rl.can_request(SEC, now + 2 * SEC));
    rl.record_failure(3, 300 * SEC, now + 2 * SEC);
    rl.record_failure(3, 300 * SEC, now + 3 * SEC);
    assert!(!rl.can_request(0, now + 303 * SEC - 1));
    assert!(rl.can_request(0, now + 303 * SEC));
}
