use pdc::config::{
    CrawlerConfig, DiscoverersConfig, FederationConfig, PdcConfig, ServerConfig,
    SuperTrackerConfig,
};
use pdc::crash::{
    crash_logs, exception_name, exception_report, location_text, outlives_console_event,
    panic_report,
};
use pdc::memory_monitor::{CacheSizes, MemoryAction, MemoryMonitor, MAX_ROUNDS};
use pdc::net::socket_opts::{domain_for_addr, Domain};
use pdc::node_identity::{
    generate_node_id, load_node_id, load_or_generate_node_id, node_id_from, node_id_text, parse_node_id, settle_node_id,
};
use pdc::startup::{
    anti_entropy_tick, cold_eviction_runs, config_source, delta_tick, firewall_rules, nat_ports, runtime_threads, scheduler_config,
    tier_configs, udp_tracker_port, ConfigWatch, IoSettings, ThreadSettings, TierSettings,
};
use pdc::storage::fx_map::FxMap;
use pdc::tasks::{all_tasks, get_interval_secs, plan_tasks, Clocks, Part, Parts};
use pdc::types::PeerAddr;
use pdc::workdir::{
    join, log_level, parse_config_path, parse_work_dir_arg, peek_log_level, trimmed_log_level,
    ConfigArg, WorkDir,
};

fn args(list: &[&str]) -> Vec<String> {
    list.iter().map(|a| a.to_string()).collect()
}

#[test]
fn paths_of_the_work_dir() {
    assert_eq!(join("a", "b"), "a/b");
    assert_eq!(join("a/", "b"), "a/b");
    assert_eq!(join("", "b"), "b");
    assert_eq!(join("a", ""), "a/");
    assert_eq!(join("a", "/b"), "/b");
    let w = WorkDir::standalone("/srv/pdc", "pdc");
    assert_eq!(w.logs_dir, "/srv/pdc/logs");
    assert_eq!(w.config_file(), "/srv/pdc/config/config.yaml");
    assert_eq!(w.db_file("pdc"), "/srv/pdc/data/pdc.db");
    assert_eq!(w.db_file("/x"), "/x.db");
    assert_eq!(w.clone().root, w.root);
    assert_eq!(w.node_id_file(), "/srv/pdc/data/node_id");
    assert_eq!(w.dirs()[0], "/srv/pdc/config");
    assert_eq!(WorkDir::auto_detect("pdc", &None).root, ".");
    assert_eq!(WorkDir::auto_detect("pdc", &Some("/x".to_string())).root, "/x");
}

#[test]
fn arguments() {
    assert_eq!(parse_work_dir_arg(&args(&["pdc", "--work-dir", "/x"])), Some("/x".to_string()));
    assert_eq!(parse_work_dir_arg(&args(&["pdc", "--work-dir"])), None);
    assert!(matches!(parse_config_path(&args(&["pdc", "-c", "f"])), ConfigArg::Path(ref p) if p == "f"));
    assert!(matches!(parse_config_path(&args(&["pdc", "-h"])), ConfigArg::Help));
    assert!(matches!(parse_config_path(&args(&["pdc"])), ConfigArg::Absent));
}

#[test]
fn log_levels() {
    assert_eq!(log_level(&None), "info");
    assert_eq!(log_level(&Some("  debug ".to_string())), "debug");
    assert_eq!(log_level(&Some("   ".to_string())), "info");
    assert_eq!(trimmed_log_level("warn".to_string()), "warn");
    assert_eq!(trimmed_log_level(String::new()), "info");
}

#[test]
fn log_level_in_a_configuration() {
    let peek = |text: &str| peek_log_level(&Some(text.to_string()));
    assert_eq!(peek("server:\n  port: 1\nlog_level: ' debug '\n"), "debug");
    assert_eq!(peek("log_level: warn"), "warn");
    assert_eq!(peek("log_level: !level trace"), "trace");
    assert_eq!(peek("log_level: ''"), "info");
    assert_eq!(peek("log_level: 3"), "info");
    assert_eq!(peek("server:\n  log_level: debug\n"), "info");
    assert_eq!(peek("- log_level"), "info");
    assert_eq!(peek("log_level: [debug"), "info");
    assert_eq!(peek("log_level: a\nlog_level: b\n"), "info");
    assert_eq!(peek(""), "info");
    assert_eq!(peek_log_level(&None), "info");
}

#[test]
fn white_space_is_trimmed() {
    let blank = |n: u32| matches!(n, 0x9..=0xd | 0x20 | 0x85 | 0xa0 | 0x1680 | 0x2000..=0x200a
        | 0x2028 | 0x2029 | 0x202f | 0x205f | 0x3000);
    for c in (0..=0x10ffff).filter_map(char::from_u32) {
        let text = format!("{c}x {c}");
        let left = if blank(c as u32) { "x".to_string() } else { text.clone() };
        assert_eq!(log_level(&Some(text)), left);
    }
}

#[test]
fn node_ids() {
    let id = [0xab; 20];
    let text = node_id_text(&id);
    assert_eq!(text, "ab".repeat(20));
    assert_eq!(parse_node_id(&text), Some(id));
    assert_eq!(load_node_id(&format!("  {text}\n")), Some(id));
    assert_eq!(parse_node_id("ab"), None);
    assert_eq!(load_or_generate_node_id(&Some(text)), (id, None));
    let (fresh, written) = load_or_generate_node_id(&None);
    assert_eq!(load_node_id(&written.unwrap()), Some(fresh));
    assert_ne!(generate_node_id(), generate_node_id());
    let mut draws = [0x1_01u64; 20];
    draws[19] = 255;
    let mut drawn = [1u8; 20];
    drawn[19] = 255;
    assert_eq!(node_id_from(&draws), drawn);
    assert_eq!(settle_node_id(&Some("?".to_string()), drawn), (drawn, Some(node_id_text(&drawn))));
    assert_eq!(settle_node_id(&Some(node_id_text(&id)), drawn), (id, None));
}

fn config() -> PdcConfig {
    PdcConfig {
        server: ServerConfig { port: 1, api_port: 2 },
        super_tracker: SuperTrackerConfig { relay_port: 3, udp_port: None },
        discoverers: DiscoverersConfig { dht_listen_port: 4 },
        crawler: CrawlerConfig {
            enabled: true,
            listen_port: 5,
            socket_count: 1,
            utp_port: 6,
            tcp_pex_port: 7,
        },
        federation: FederationConfig {
            enabled: false,
            listen_port: 8,
            api_port: 9,
            lpd_multicast_port: 10,
        },
        port_step: 100,
    }
}

#[test]
fn ports_of_a_configuration() {
    let mut c = config();
    assert_eq!(udp_tracker_port(&c), 1);
    c.super_tracker.udp_port = Some(11);
    assert_eq!(udp_tracker_port(&c), 11);
    let p = nat_ports(&c);
    assert_eq!((p.http, p.udp, p.crawler, p.relay), (1, 11, 5, 3));
    assert_eq!((p.utp, p.tcp_pex, p.federation), (6, 7, 0));
    let rules = firewall_rules(&c);
    assert_eq!(rules.len(), 10);
    assert_eq!(rules[1], (11, "UDP", "super-tracker-udp"));
    assert_eq!(rules[9], (10, "UDP", "lpd"));
}

#[test]
fn settings_at_start() {
    let none = ThreadSettings { worker: 0, federation: 0, tracker: 0, api: 5, scheduler: 1, persistence: 2 };
    let t = runtime_threads(&none, Some(16));
    assert_eq!((t.worker, t.federation, t.tracker), (16, 16, 2));
    assert_eq!((t.api, t.scheduler, t.persistence), (5, 2, 2));
    assert_eq!(runtime_threads(&none, None).worker, 8);
    let few = ThreadSettings { worker: 1, ..none };
    assert_eq!(runtime_threads(&few, Some(16)).worker, 4);
    assert_eq!(anti_entropy_tick(30, 20), 20);
    assert_eq!((delta_tick(0), delta_tick(9)), (1, 9));
    let (all, peers) = tier_configs(&TierSettings {
        hot_max_count: 1,
        warm_max_count: 2,
        peer_warm_max_count: 3,
        hot_threshold_secs: 4,
        warm_threshold_secs: 5,
    });
    assert_eq!((all.warm_max_count, peers.warm_max_count), (2, 3));
    let io = scheduler_config(&IoSettings {
        max_queue_size: 1,
        token_bucket_rate: 2,
        token_bucket_max: 3,
        low_watermark: 4,
        high_watermark: 5,
        batch_max_size: 6,
        batch_max_delay_ms: 7,
        idle_prediction_enabled: true,
        idle_window_secs: 8,
        idle_wait_ms: 9,
        retry_wait_ms: 10,
    });
    assert_eq!((io.batch_max_delay, io.idle_window), (7_000_000, 8_000_000_000));
}

#[test]
fn source_of_the_configuration() {
    let asked = config_source(Some("a".to_string()), "b".to_string(), false);
    assert_eq!(asked, ("a".to_string(), false));
    assert_eq!(config_source(None, "b".to_string(), true), ("b".to_string(), false));
    assert_eq!(config_source(None, "b".to_string(), false), ("b".to_string(), true));
    assert!(cold_eviction_runs(None) && cold_eviction_runs(Some(true)));
    assert!(!cold_eviction_runs(Some(false)));
}

#[test]
fn changes_of_the_configuration_are_noticed() {
    let mut watch = ConfigWatch::new();
    let _ = watch.observe(Some(1));
    assert!(!watch.observe(Some(1)));
    assert!(watch.observe(Some(2)));
    assert!(!watch.observe(None));
    assert!(!watch.observe(Some(2)));
}

#[test]
fn memory_is_freed_step_by_step() {
    let mut monitor = MemoryMonitor::new(100);
    let sizes = CacheSizes { nodes: 2_000_000, peers: 50, infohashes: 0, trackers: 0 };
    assert!(matches!(monitor.next(100, &sizes), MemoryAction::Done));
    for _ in 0..MAX_ROUNDS {
        match monitor.next(101, &sizes) {
            MemoryAction::Evict(e) => assert_eq!((e.nodes, e.peers), (200_000, 0)),
            MemoryAction::Done => panic!("there is still something to free"),
        }
    }
    assert!(matches!(monitor.next(101, &sizes), MemoryAction::Done));
    let mut other = MemoryMonitor::new(100);
    let small = CacheSizes { nodes: 50, peers: 50, infohashes: 50, trackers: 50 };
    assert!(matches!(other.next(101, &small), MemoryAction::Done));
}

fn clocks() -> Clocks {
    Clocks {
        backpressure_poll: 1,
        health_check: 2,
        health_stats: 3,
        health_cleanup: 4,
        tier_evict: 5,
        memory_monitor: 6,
        anti_entropy: 7,
        delta_sync: 8,
        merkle_incremental: 9,
        merkle_cold_rebuild: 10,
        oplog_trim: 11,
        config_reload: 0,
    }
}

#[test]
fn tasks_are_planned_for_the_parts_that_run() {
    let c = clocks();
    let over: FxMap<String, u64> = FxMap::new();
    let nothing = Parts {
        io_scheduler: false,
        federation: false,
        federation_dht: false,
        federation_trackers: false,
        remote_trackers: false,
        udp_tracker: false,
        crawler: false,
    };
    let plan = plan_tasks(&nothing, &c, &over);
    assert!(!plan.is_empty());
    assert!(plan.iter().all(|t| t.entry.part == Part::Always));
    let all = Parts {
        io_scheduler: true,
        federation: true,
        federation_dht: true,
        federation_trackers: true,
        remote_trackers: true,
        udp_tracker: true,
        crawler: true,
    };
    let reloading = Clocks { config_reload: 30, ..clocks() };
    assert_eq!(plan_tasks(&all, &reloading, &over).len(), all_tasks(&reloading).len());
    assert_eq!(all_tasks(&c).len(), 62);
}

#[test]
fn intervals_can_be_set() {
    let mut over: FxMap<String, u64> = FxMap::new();
    assert_eq!(get_interval_secs(&over, "x", 5), 5);
    over.insert("x".to_string(), 9);
    assert_eq!(get_interval_secs(&over, "x", 5), 9);
}

#[test]
fn crash_reports() {
    assert_eq!(location_text("a.rs", 3, 7), "a.rs:3:7");
    let r = panic_report("T", "main", &Some("a.rs:3:7".to_string()), &None, "B");
    assert_eq!(
        r,
        "===== PANIC CRASH REPORT =====\n时间: T\n线程: main\n位置: a.rs:3:7\n信息: 未知 panic 信息\n堆栈:\nB\n===============================\n"
    );
    let r = exception_report("T", 0xC0000005, "0x1");
    assert!(r.contains("异常码: 0xC0000005"));
    assert!(r.contains(exception_name(0xC0000005)));
    assert_eq!(
        crash_logs("logs"),
        (
            "logs/crash.log".to_string(),
            "logs/crash-panic.log".to_string(),
            "logs/crash-seh.log".to_string()
        )
    );
    assert!(outlives_console_event(2));
}

#[test]
fn socket_domains() {
    assert!(matches!(domain_for_addr(&PeerAddr::V4 { ip: 1, port: 1 }), Domain::Ipv4));
    assert!(matches!(domain_for_addr(&PeerAddr::V6 { ip: 1, port: 1 }), Domain::Ipv6));
}
