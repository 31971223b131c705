//! What the node decides before it runs: ports, threads, caches and clocks.

use vstd::prelude::*;
use vstd::string::*;

use crate::config::PdcConfig;
use crate::storage::io_scheduler::SchedulerRuntimeConfig;
use crate::storage::tiered_cache::TieredCacheConfig;

verus! {

/// Nanoseconds in a millisecond.
pub const MILLISECOND: u64 = 1_000_000;

/// How many threads each part of the node is configured to have; none of the first two
/// means as many as the machine has.
#[derive(Debug, Clone, Copy, PartialEq, Eq, Structural)]
pub struct ThreadSettings {
    pub worker: usize,
    pub federation: usize,
    pub tracker: usize,
    pub api: usize,
    pub scheduler: usize,
    pub persistence: usize,
}

/// The larger of two numbers.
pub open spec fn at_least(n: usize, least: usize) -> usize {
    if n < least {
        least
    } else {
        n
    }
}

/// A configured number of threads, or as many as the machine has, eight where that is not
/// known.
pub open spec fn or_machine(n: usize, available: Option<usize>) -> usize {
    if n == 0 {
        match available {
            Some(m) => m,
            None => 8,
        }
    } else {
        n
    }
}

/// How many threads each part gets: at least four for the crawler and the federation, at
/// least two for the others.
pub open spec fn threads_of(s: ThreadSettings, available: Option<usize>) -> ThreadSettings {
    ThreadSettings {
        worker: at_least(or_machine(s.worker, available), 4),
        federation: at_least(or_machine(s.federation, available), 4),
        tracker: at_least(s.tracker, 2),
        api: at_least(s.api, 2),
        scheduler: at_least(s.scheduler, 2),
        persistence: at_least(s.persistence, 2),
    }
}

fn not_below(n: usize, least: usize) -> (r: usize)
    ensures
        r == at_least(n, least),
{
    if n < least {
        least
    } else {
        n
    }
}

fn or_available(n: usize, available: Option<usize>) -> (r: usize)
    ensures
        r == or_machine(n, available),
{
    if n == 0 {
        match available {
            Some(m) => m,
            None => 8,
        }
    } else {
        n
    }
}

/// How many threads each part gets.
pub fn runtime_threads(s: &ThreadSettings, available: Option<usize>) -> (r: ThreadSettings)
    ensures
        r == threads_of(*s, available),
{
    ThreadSettings {
        worker: not_below(or_available(s.worker, available), 4),
        federation: not_below(or_available(s.federation, available), 4),
        tracker: not_below(s.tracker, 2),
        api: not_below(s.api, 2),
        scheduler: not_below(s.scheduler, 2),
        persistence: not_below(s.persistence, 2),
    }
}

/// The port of the UDP tracker: its own, or the server's.
pub open spec fn udp_port_of(c: PdcConfig) -> u16 {
    match c.super_tracker.udp_port {
        Some(p) => p,
        None => c.server.port,
    }
}

/// The port of the UDP tracker.
pub fn udp_tracker_port(c: &PdcConfig) -> (r: u16)
    ensures
        r == udp_port_of(*c),
{
    match c.super_tracker.udp_port {
        Some(p) => p,
        None => c.server.port,
    }
}

/// The ports to be opened at the gateway; zero for a part that is switched off.
#[derive(Debug, Clone, Copy, PartialEq, Eq, Structural)]
pub struct NatPorts {
    pub http: u16,
    pub udp: u16,
    pub crawler: u16,
    pub relay: u16,
    pub utp: u16,
    pub tcp_pex: u16,
    pub federation: u16,
}

/// The ports to be opened at the gateway.
pub open spec fn nat_ports_of(c: PdcConfig) -> NatPorts {
    NatPorts {
        http: c.server.port,
        udp: udp_port_of(c),
        crawler: if c.crawler.enabled {
            c.crawler.listen_port
        } else {
            0
        },
        relay: c.super_tracker.relay_port,
        utp: c.crawler.utp_port,
        tcp_pex: c.crawler.tcp_pex_port,
        federation: if c.federation.enabled {
            c.federation.listen_port
        } else {
            0
        },
    }
}

/// The ports to be opened at the gateway.
pub fn nat_ports(c: &PdcConfig) -> (r: NatPorts)
    ensures
        r == nat_ports_of(*c),
{
    NatPorts {
        http: c.server.port,
        udp: udp_tracker_port(c),
        crawler: if c.crawler.enabled {
            c.crawler.listen_port
        } else {
            0
        },
        relay: c.super_tracker.relay_port,
        utp: c.crawler.utp_port,
        tcp_pex: c.crawler.tcp_pex_port,
        federation: if c.federation.enabled {
            c.federation.listen_port
        } else {
            0
        },
    }
}

/// A rule for the firewall: a port, a protocol and a name.
pub type FirewallRule = (u16, &'static str, &'static str);

/// The contents of rules.
pub open spec fn rules(s: Seq<FirewallRule>) -> Seq<(u16, Seq<char>, Seq<char>)> {
    s.map_values(|r: FirewallRule| (r.0, r.1@, r.2@))
}

/// The rules that the firewall needs.
pub open spec fn firewall_rules_of(c: PdcConfig) -> Seq<(u16, Seq<char>, Seq<char>)> {
    seq![
        (c.server.api_port, "TCP"@, "api"@),
        (udp_port_of(c), "UDP"@, "super-tracker-udp"@),
        (c.super_tracker.relay_port, "TCP"@, "relay"@),
        (c.discoverers.dht_listen_port, "UDP"@, "dht"@),
        (c.crawler.listen_port, "UDP"@, "crawler"@),
        (c.crawler.utp_port, "UDP"@, "utp"@),
        (c.crawler.tcp_pex_port, "TCP"@, "tcp-pex"@),
        (c.federation.listen_port, "TCP"@, "federation"@),
        (c.federation.listen_port, "UDP"@, "federation-udp"@),
        (c.federation.lpd_multicast_port, "UDP"@, "lpd"@)
    ]
}

/// The rules that the firewall needs.
pub fn firewall_rules(c: &PdcConfig) -> (r: Vec<FirewallRule>)
    ensures
        rules(r@) == firewall_rules_of(*c),
{
    let r: Vec<FirewallRule> = vec![
        (c.server.api_port, "TCP", "api"),
        (udp_tracker_port(c), "UDP", "super-tracker-udp"),
        (c.super_tracker.relay_port, "TCP", "relay"),
        (c.discoverers.dht_listen_port, "UDP", "dht"),
        (c.crawler.listen_port, "UDP", "crawler"),
        (c.crawler.utp_port, "UDP", "utp"),
        (c.crawler.tcp_pex_port, "TCP", "tcp-pex"),
        (c.federation.listen_port, "TCP", "federation"),
        (c.federation.listen_port, "UDP", "federation-udp"),
        (c.federation.lpd_multicast_port, "UDP", "lpd"),
    ];
    proof {
        assert(rules(r@) =~= firewall_rules_of(*c));
    }
    r
}

/// How the writer of the database is configured. Waits are milliseconds, the window is
/// seconds.
#[derive(Debug, Clone, Copy, PartialEq, Eq, Structural)]
pub struct IoSettings {
    pub max_queue_size: usize,
    pub token_bucket_rate: usize,
    pub token_bucket_max: usize,
    pub low_watermark: usize,
    pub high_watermark: usize,
    pub batch_max_size: usize,
    pub batch_max_delay_ms: u64,
    pub idle_prediction_enabled: bool,
    pub idle_window_secs: u64,
    pub idle_wait_ms: u64,
    pub retry_wait_ms: u64,
}

/// The limits and waits of the writer of the database.
pub fn scheduler_config(s: &IoSettings) -> (r: SchedulerRuntimeConfig)
    requires
        s.batch_max_delay_ms * 1_000_000 <= u64::MAX,
        s.idle_window_secs * 1_000_000_000 <= u64::MAX,
        s.idle_wait_ms * 1_000_000 <= u64::MAX,
        s.retry_wait_ms * 1_000_000 <= u64::MAX,
    ensures
        r == (SchedulerRuntimeConfig {
            max_queue_size: s.max_queue_size,
            token_bucket_rate: s.token_bucket_rate,
            token_bucket_max: s.token_bucket_max,
            low_watermark: s.low_watermark,
            high_watermark: s.high_watermark,
            batch_max_size: s.batch_max_size,
            batch_max_delay: (s.batch_max_delay_ms * 1_000_000) as u64,
            idle_prediction_enabled: s.idle_prediction_enabled,
            idle_window: (s.idle_window_secs * 1_000_000_000) as u64,
            idle_wait: (s.idle_wait_ms * 1_000_000) as u64,
            retry_wait: (s.retry_wait_ms * 1_000_000) as u64,
        }),
{
    SchedulerRuntimeConfig {
        max_queue_size: s.max_queue_size,
        token_bucket_rate: s.token_bucket_rate,
        token_bucket_max: s.token_bucket_max,
        low_watermark: s.low_watermark,
        high_watermark: s.high_watermark,
        batch_max_size: s.batch_max_size,
        batch_max_delay: s.batch_max_delay_ms * MILLISECOND,
        idle_prediction_enabled: s.idle_prediction_enabled,
        idle_window: s.idle_window_secs * 1_000_000_000,
        idle_wait: s.idle_wait_ms * MILLISECOND,
        retry_wait: s.retry_wait_ms * MILLISECOND,
    }
}

/// How the caches are configured.
#[derive(Debug, Clone, Copy, PartialEq, Eq, Structural)]
pub struct TierSettings {
    pub hot_max_count: usize,
    pub warm_max_count: usize,
    /// How many warm peers are kept: a peer takes more room than the rest.
    pub peer_warm_max_count: usize,
    pub hot_threshold_secs: u64,
    pub warm_threshold_secs: u64,
}

/// The limits of the caches, and those of the cache of peers.
pub fn tier_configs(s: &TierSettings) -> (r: (TieredCacheConfig, TieredCacheConfig))
    ensures
        r.0 == (TieredCacheConfig {
            hot_max_count: s.hot_max_count,
            warm_max_count: s.warm_max_count,
            hot_threshold_secs: s.hot_threshold_secs,
            warm_threshold_secs: s.warm_threshold_secs,
        }),
        r.1 == (TieredCacheConfig { warm_max_count: s.peer_warm_max_count, ..r.0 }),
{
    let all = TieredCacheConfig {
        hot_max_count: s.hot_max_count,
        warm_max_count: s.warm_max_count,
        hot_threshold_secs: s.hot_threshold_secs,
        warm_threshold_secs: s.warm_threshold_secs,
    };
    let peers = TieredCacheConfig {
        hot_max_count: s.hot_max_count,
        warm_max_count: s.peer_warm_max_count,
        hot_threshold_secs: s.hot_threshold_secs,
        warm_threshold_secs: s.warm_threshold_secs,
    };
    (all, peers)
}

/// How often the node looks whether it differs from others: as often as the more frequent
/// of the two comparisons asks.
pub fn anti_entropy_tick(node_secs: u64, other_secs: u64) -> (r: u64)
    ensures
        r == if node_secs < other_secs {
            node_secs
        } else {
            other_secs
        },
{
    if node_secs < other_secs {
        node_secs
    } else {
        other_secs
    }
}

/// How often the node asks for changes: not more than once a second.
pub fn delta_tick(secs: u64) -> (r: u64)
    ensures
        r == if secs < 1 {
            1u64
        } else {
            secs
        },
{
    if secs < 1 {
        1
    } else {
        secs
    }
}

/// Which file the configuration is read from: the one that was asked for, or else the one of
/// the work directory. The second value says whether that one is to be written first, with
/// what holds by default, because it is not there.
pub fn config_source(asked: Option<String>, usual: String, usual_exists: bool) -> (r: (String, bool))
    ensures
        match asked {
            Some(p) => r.0@ == p@ && !r.1,
            None => r.0@ == usual@ && r.1 == !usual_exists,
        },
{
    match asked {
        Some(p) => (p, false),
        None => (usual, !usual_exists),
    }
}

/// Whether cold entries may be taken out now: always without a scheduler, otherwise while the
/// scheduler is idle.
pub fn cold_eviction_runs(scheduler_idle: Option<bool>) -> (r: bool)
    ensures
        r == (scheduler_idle != Some(false)),
{
    match scheduler_idle {
        Some(idle) => idle,
        None => true,
    }
}

/// Notices changes of the configuration file by its time.
#[derive(Debug, Clone, Copy, PartialEq, Eq, Structural)]
pub struct ConfigWatch {
    pub last: Option<u64>,
}

impl ConfigWatch {
    /// The file was not looked at yet.
    pub fn new() -> (r: Self)
        ensures
            r.last is None,
    {
        ConfigWatch { last: None }
    }

    /// Looks at the time of the file, if it could be read. Says whether the file has changed
    /// since the last look.
    pub fn observe(&mut self, mtime: Option<u64>) -> (r: bool)
        ensures
            r == (old(self).last is Some && mtime is Some && old(self).last != mtime),
            final(self).last == match mtime {
                Some(t) => Some(t),
                None => old(self).last,
            },
    {
        match mtime {
            Some(t) => {
                let changed = match self.last {
                    Some(prev) => prev != t,
                    None => false,
                };
                self.last = Some(t);
                changed
            },
            None => false,
        }
    }
}

} // verus!
