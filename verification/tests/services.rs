use pdc::services::crawler_service::{stats, CrawlerState};
use pdc::services::discover_service::{finish_discovery, merge_findings, sort_and_dedup};
use pdc::services::keyword_search_service::{
    build_bep44_get_request, collect_infohashes, extract_infohashes_from_value, finish_search,
    parse_bep44_get_response, parse_public_key, KeyError, KeywordSearchConfig,
    KeywordSearchService, ResponseError, SearchStart,
};
use pdc::services::nat_service::{
    NatConfig, NatManager, NatService, NatStatus, NoReachability, PortMapping,
};
use pdc::services::subscription_service::{extract_magnets, finish_feed, SubscriptionConfig};
use pdc::services::tracker_fetcher::{
    decode_infohashes, popular_infohashes, rank_inputs, InfohashQueryStats, RankInputs,
    RoundStart, TrackerPeerFetcher, DAY, EMPTY_DEGRADE_THRESHOLD, SCRAPE_PER_ROUND,
};
use pdc::services::tracker_service::{
    TrackerAnnounceRequest, TrackerScrapeRequest, TrackerService,
};
use pdc::storage::infohash_repo::{register_each, InfohashRepoImpl};
use pdc::storage::peer_repo::PeerRepoImpl;
use pdc::types::{PeerAddr, PeerInfo, PeerSource};
use std::sync::Arc;

fn at(n: u32) -> PeerAddr {
    PeerAddr::V4 { ip: n, port: 6881 }
}

fn found(n: u32, source: PeerSource, score: i64) -> PeerInfo {
    let mut p = PeerInfo::new(at(n), source, 0);
    p.priority_score = score;
    p
}

#[test]
fn announcers_hear_of_the_others() {
    let service = TrackerService::new();
    let mut peers = PeerRepoImpl::new();
    let mut torrents = InfohashRepoImpl::new();
    let first = TrackerAnnounceRequest { info_hash: [1; 20], remote_addr: at(1) };
    let second = TrackerAnnounceRequest { info_hash: [1; 20], remote_addr: at(2) };
    let (alone, news, _) = service.announce(&mut peers, &mut torrents, &first, 10);
    assert!(alone.peers.is_empty());
    assert_eq!(news.len(), 1);
    let (answer, _, _) = service.announce(&mut peers, &mut torrents, &second, 11);
    assert_eq!(answer.peers, vec![at(1)]);
    assert_eq!((answer.interval, answer.min_interval), (1800, Some(900)));
    assert_eq!((answer.complete, answer.incomplete), (1, 0));
    assert_eq!(answer.tracker_id, Some("pdc".to_string()));
    assert_eq!(torrents.count_sync(), 1);

    let req = TrackerScrapeRequest { info_hashes: vec![[1; 20], [2; 20]] };
    let answer = service.scrape(&peers, &req);
    assert_eq!(answer.files.get(&[1; 20]).unwrap().complete, 2);
    assert_eq!(answer.files.get(&[2; 20]).unwrap().complete, 0);
    assert!(answer.failure_reason.is_none());
}

#[test]
fn popular_torrents_are_registered() {
    let ids = decode_infohashes(&popular_infohashes());
    assert_eq!(ids.len(), popular_infohashes().len());
    assert_eq!(hex::encode(ids[0]), popular_infohashes()[0].to_lowercase());
    assert!(decode_infohashes(&vec!["zz"]).is_empty());
    let fetcher = TrackerPeerFetcher::new();
    let mut repo = InfohashRepoImpl::new();
    assert_eq!(fetcher.with_infohash_repo(&mut repo, 0), ids.len());
    assert_eq!(fetcher.infohash_count(&None), 0);
    assert_eq!(fetcher.infohash_count(&Some(repo)), ids.len());
}

#[test]
fn scraping_goes_round_the_pool() {
    let mut fetcher = TrackerPeerFetcher::new();
    let pool: Vec<([u8; 20], i64)> = (0..50u8).map(|i| ([i; 20], 0)).collect();
    let mut seen = vec![];
    for _ in 0..3 {
        let part = fetcher.select_scrape_infohashes(&pool);
        assert_eq!(part.len(), SCRAPE_PER_ROUND);
        seen.extend(part);
    }
    for (id, _) in &pool {
        assert!(seen.contains(id));
    }
    assert!(fetcher.select_scrape_infohashes(&vec![]).is_empty());
}

#[test]
fn empty_answers_degrade_a_torrent() {
    let mut fetcher = TrackerPeerFetcher::new();
    let mut peers = PeerRepoImpl::new();
    let ih = [1; 20];
    let results = vec![([1; 20], 10i64, 0i64, 0i64), ([2; 20], 5, 0, 0)];
    let score = |complete: i64, k: RankInputs| if k.degraded { 0 } else { complete };
    assert_eq!(fetcher.rank_infohashes(&results, score, 100), vec![[1; 20], [2; 20]]);
    for i in 0..EMPTY_DEGRADE_THRESHOLD {
        let (n, _, _) = fetcher.record_announce(&mut peers, &ih, &Some(vec![]), 100 + i as u64);
        assert_eq!(n, 0);
    }
    assert_eq!(fetcher.rank_infohashes(&results, score, 200), vec![[2; 20], [1; 20]]);
    let (n, news, _) = fetcher.record_announce(
        &mut peers,
        &ih,
        &Some(vec![found(1, PeerSource::Tracker, 0)]),
        300,
    );
    assert_eq!((n, news.len()), (1, 1));
    assert_eq!(fetcher.rank_infohashes(&results, score, 400), vec![[1; 20], [2; 20]]);
}

#[test]
fn rounds_of_the_fetcher() {
    let mut fetcher = TrackerPeerFetcher::new();
    let mut repo = InfohashRepoImpl::new();
    assert!(matches!(fetcher.begin_round(&repo), RoundStart::Idle));
    register_each(&mut repo, &vec![[1; 20], [2; 20]], "seed", 0);
    match fetcher.begin_round(&repo) {
        RoundStart::Scrape { pool, infohashes } => {
            assert_eq!((pool.len(), infohashes.len()), (2, 2));
            let plan = fetcher.plan_announce(&pool, &vec![], |c: i64, _: RankInputs| c, 0);
            assert_eq!(plan.len(), 2);
        }
        RoundStart::Idle => panic!("two torrents are known"),
    }
    fetcher.finish_round(3);
}

#[test]
fn what_a_ranking_is_based_on() {
    let fresh = rank_inputs(None, 5);
    assert_eq!((fresh.peers, fresh.queries, fresh.degraded), (0, 0, false));
    assert_eq!(fresh.idle_secs, DAY);
    let known = InfohashQueryStats {
        total_queries: 2,
        total_peers_fetched: 30,
        last_query_at: 100,
        consecutive_empty: EMPTY_DEGRADE_THRESHOLD,
    };
    let k = rank_inputs(Some(known), 160);
    assert_eq!((k.peers, k.queries, k.idle_secs, k.degraded), (30, 2, 60, true));
}

#[test]
fn findings_are_merged() {
    let a = vec![found(1, PeerSource::Dht, 5), found(2, PeerSource::Dht, 9)];
    let b = vec![found(1, PeerSource::Pex, 7)];
    let sorted = sort_and_dedup(&vec![a[0], a[1], b[0]]);
    assert_eq!(sorted.len(), 2);
    assert_eq!((sorted[0].addr, sorted[0].priority_score), (at(1), 5));
    assert_eq!(sorted[1].addr, at(2));
    let raw = vec![
        ("dht".to_string(), Some(a), 3u64),
        ("pex".to_string(), Some(b), 4),
        ("lpd".to_string(), None, 5),
    ];
    let merged = merge_findings(&raw, 6);
    assert_eq!(merged.peers.len(), 2);
    assert_eq!(merged.total_duration, 6);
    assert_eq!(merged.source_stats.get(&PeerSource::Dht), Some(&2));
    assert_eq!(merged.source_stats.get(&PeerSource::Pex), Some(&1));
    assert_eq!(merged.discoverer_durations.get(&"dht".to_string()), Some(&3));

    let mut peers = PeerRepoImpl::new();
    let mut torrents = InfohashRepoImpl::new();
    let (result, news, _) = finish_discovery(&mut peers, &mut torrents, [1; 20], &raw, 6, 10);
    assert_eq!((result.peers.len(), news.len()), (2, 2));
    assert_eq!(peers.len_for_infohash(&[1; 20]), 2);
    assert_eq!(torrents.count_sync(), 1);
}

#[test]
fn get_requests_are_dictionaries() {
    let bytes = build_bep44_get_request(b"ab", &[7; 32], b"salt");
    let mut expected = b"d1:ad2:id20:".to_vec();
    expected.extend_from_slice(&[0; 20]);
    expected.extend_from_slice(b"3:key32:");
    expected.extend_from_slice(&[7; 32]);
    expected.extend_from_slice(b"4:salt4:salte1:q3:get1:t2:ab1:y1:qe");
    assert_eq!(bytes, expected);
}

#[test]
fn get_responses() {
    assert_eq!(parse_bep44_get_response(b"d1:rd1:v5:helloee").ok(), Some(b"hello".to_vec()));
    let cases: [(&[u8], ResponseError); 6] = [
        (b"x", ResponseError::Unparsable),
        (b"i1e", ResponseError::NotADict),
        (b"de", ResponseError::NoResult),
        (b"d1:ri1ee", ResponseError::ResultNotADict),
        (b"d1:rdee", ResponseError::NoValue),
        (b"d1:rd1:vi1eee", ResponseError::ValueNotBytes),
    ];
    for (bytes, expected) in cases {
        assert!(parse_bep44_get_response(bytes).err() == Some(expected));
    }
}

#[test]
fn infohashes_in_a_value() {
    let id = [0xab; 20];
    let text = format!("name {} end", hex::encode(id));
    assert_eq!(extract_infohashes_from_value(text.as_bytes()), vec![id]);
    assert!(extract_infohashes_from_value(&[0xff; 60]).is_empty());
    assert!(extract_infohashes_from_value(b"abc").is_empty());
    let twice = vec![text.clone().into_bytes(), text.into_bytes()];
    assert_eq!(collect_infohashes(&twice), vec![id]);
    let mut repo = InfohashRepoImpl::new();
    assert_eq!(finish_search(&twice, &mut repo, 0), 1);
    assert_eq!(repo.count_sync(), 1);
}

#[test]
fn public_keys() {
    assert_eq!(parse_public_key(&hex::encode([9; 32])).ok(), Some(vec![9; 32]));
    assert!(parse_public_key("zz").err() == Some(KeyError::NotHex));
    assert!(parse_public_key("abcd").err() == Some(KeyError::WrongLength(2)));
}

#[test]
fn searches_need_targets_and_nodes() {
    let idle = KeywordSearchService::new(KeywordSearchConfig::default());
    assert!(matches!(idle.start(), SearchStart::NoTargets));
    let config = KeywordSearchConfig {
        targets: vec![("key".to_string(), "salt".to_string())],
        nodes_per_query: 1,
        ..KeywordSearchConfig::default()
    };
    let service = KeywordSearchService::new(config);
    assert!(matches!(service.start(), SearchStart::NoNodes));
    let service = service.with_node_addrs(vec![at(1), at(2)]);
    assert!(matches!(service.start(), SearchStart::Search));
    assert_eq!(service.nodes_to_ask(), 1);
}

#[test]
fn magnets_in_a_feed() {
    let a = hex::encode([1; 20]);
    let b = hex::encode([2; 20]);
    let body = format!("<a xt=urn:btih:{a}&x><b xt=urn:btih:{b}><c xt=urn:btih:{a}><d xt=urn:btih:12>");
    assert_eq!(extract_magnets(body.as_bytes(), 50), vec![[1; 20], [2; 20]]);
    assert_eq!(extract_magnets(body.as_bytes(), 1), vec![[1; 20]]);
    assert!(extract_magnets(body.as_bytes(), 0).is_empty());
    assert!(extract_magnets(b"nothing", 50).is_empty());
    let mut repo = InfohashRepoImpl::new();
    assert_eq!(finish_feed(body.as_bytes(), 50, &mut repo, 0), 2);
    assert_eq!(repo.count_sync(), 2);
    let c = SubscriptionConfig::default();
    assert_eq!((c.interval_secs, c.max_per_feed), (3600, 50));
}

#[test]
fn mappings_are_summed_up() {
    let mapping = |protocol: &str, verified: bool, reachable: bool| PortMapping {
        protocol: protocol.to_string(),
        internal_port: 1,
        external_port: 1,
        verified,
        reachable,
    };
    let manager = NatManager {
        status: NatStatus {
            nat_type: 3u8,
            reachability_score: 80,
            gateway_healthy: true,
            external_ip: Some("1.2.3.4".to_string()),
            local_ip: None,
            mappings: vec![
                mapping("TCP", true, true),
                mapping("UDP", true, false),
                mapping("UDP", false, false),
            ],
        },
        config: NatConfig { enable_reachability_check: true, stun_servers: vec![] },
    };
    let service = NatService::new(Arc::new(manager));
    let s = service.mapping_summary();
    assert_eq!((s.total, s.tcp_total, s.udp_total), (3, 1, 2));
    assert_eq!((s.verified, s.reachable, s.nat_type), (2, 1, 3));
    assert_eq!(service.external_ip(), Some("1.2.3.4".to_string()));
    assert_eq!(service.local_ip(), None);
    assert_eq!(service.active_mappings(), 3);
    assert_eq!((service.reachability_score(), s.reachability_score), (80, 80));
    assert!(matches!(service.check_conditions(0), Err(NoReachability::NoServers)));
    assert!(service.check_conditions(1).is_ok());
}

#[test]
fn crawler_statistics() {
    let state = CrawlerState {
        requests_sent: 1,
        messages_received: 2,
        infohashes_collected: 3,
        peers_collected: 4,
    };
    let s = stats(&state, 5);
    assert_eq!((s.nodes_total, s.requests_sent, s.responses_received), (5, 1, 2));
    assert_eq!((s.infohashes_collected, s.peers_collected), (3, 4));
}
