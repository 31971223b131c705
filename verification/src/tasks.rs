//! The tasks that run in the background: which there are, when each first runs and how
//! often, and what it takes.

use vstd::prelude::*;
use vstd::string::*;

use crate::storage::fx_map::FxMap;

verus! {

/// What kind of work a task is; tasks of a kind share their threads.
#[derive(Debug, Clone, Copy, PartialEq, Eq, Structural)]
pub enum TaskCategory {
    Crawl,
    Persistence,
    Monitor,
    Network,
    Federation,
}

/// How urgent a task is.
#[derive(Debug, Clone, Copy, PartialEq, Eq, Structural)]
pub enum TaskPriority {
    Critical,
    Important,
    Normal,
    Background,
}

/// How much a task takes of something.
#[derive(Debug, Clone, Copy, PartialEq, Eq, Structural)]
pub enum Level {
    Low,
    Medium,
    High,
}

/// What a task takes.
#[derive(Debug, Clone, Copy, PartialEq, Eq, Structural)]
pub struct Load {
    pub cpu: Level,
    pub memory: Level,
    pub io: Level,
    pub network: Level,
    /// It goes through everything.
    pub full: bool,
}

/// The part of the node that a task belongs to.
#[derive(Debug, Clone, Copy, PartialEq, Eq, Structural)]
pub enum Part {
    Always,
    IoScheduler,
    Federation,
    FederationDht,
    FederationTrackers,
    RemoteTrackers,
    UdpTracker,
    Crawler,
    ConfigReload,
}

/// How often a task runs. Where a key can be configured, the number is what holds
/// otherwise: `Secs` and `Millis` are configured under the task's name, `KeyedSecs` and
/// `KeyedMillis` under a key of their own, `Fixed` not at all.
#[derive(Debug, Clone, Copy)]
pub enum Clock {
    Secs(u64),
    Millis(u64),
    KeyedSecs(&'static str, u64),
    KeyedMillis(&'static str, u64),
    Fixed(u64),
}

/// How many seconds pass before a task first runs: `Named` is configured under the task's
/// name with `_initial_delay` behind it, `Keyed` under a key of its own, `Fixed` not at
/// all.
#[derive(Debug, Clone, Copy)]
pub enum Delay {
    Absent,
    Named(u64),
    Keyed(&'static str, u64),
    Fixed(u64),
}

/// A task. The time by which its runs are spread, in seconds, is configured under its name
/// with `_jitter` behind it; zero means that they are not spread. `after` names the task
/// that goes before, if any.
#[derive(Debug, Clone, Copy)]
pub struct TaskEntry {
    pub name: &'static str,
    pub part: Part,
    pub category: TaskCategory,
    pub priority: TaskPriority,
    pub load: Load,
    pub interval: Clock,
    pub delay: Delay,
    pub jitter: u64,
    pub after: Option<&'static str>,
    pub deferrable: bool,
}

/// What a task takes that does not go through everything.
pub open spec fn load_of(cpu: Level, memory: Level, io: Level, network: Level) -> Load {
    Load { cpu, memory, io, network, full: false }
}

fn load(cpu: Level, memory: Level, io: Level, network: Level) -> (r: Load)
    ensures
        r == load_of(cpu, memory, io, network),
{
    Load { cpu, memory, io, network, full: false }
}

/// A task that may be put off and waits for no other.
pub open spec fn task_of(
    name: &'static str,
    part: Part,
    category: TaskCategory,
    priority: TaskPriority,
    load: Load,
    interval: Clock,
    delay: Delay,
    jitter: u64,
) -> TaskEntry {
    TaskEntry {
        name,
        part,
        category,
        priority,
        load,
        interval,
        delay,
        jitter,
        after: None,
        deferrable: true,
    }
}

fn task(
    name: &'static str,
    part: Part,
    category: TaskCategory,
    priority: TaskPriority,
    load: Load,
    interval: Clock,
    delay: Delay,
    jitter: u64,
) -> (r: TaskEntry)
    ensures
        r == task_of(name, part, category, priority, load, interval, delay, jitter),
{
    TaskEntry {
        name,
        part,
        category,
        priority,
        load,
        interval,
        delay,
        jitter,
        after: None,
        deferrable: true,
    }
}

impl TaskEntry {
    /// The same task, which waits for another.
    pub open spec fn behind_spec(self, other: &'static str) -> TaskEntry {
        TaskEntry { after: Some(other), ..self }
    }

    fn behind(self, other: &'static str) -> (r: TaskEntry)
        ensures
            r == self.behind_spec(other),
    {
        let mut t = self;
        t.after = Some(other);
        t
    }

    /// The same task, which goes through everything.
    pub open spec fn covering_all_spec(self) -> TaskEntry {
        TaskEntry { load: Load { full: true, ..self.load }, ..self }
    }

    fn covering_all(self) -> (r: TaskEntry)
        ensures
            r == self.covering_all_spec(),
    {
        let mut t = self;
        t.load.full = true;
        t
    }

    /// The same task, which is never put off.
    pub open spec fn prompt_spec(self) -> TaskEntry {
        TaskEntry { deferrable: false, ..self }
    }

    fn prompt(self) -> (r: TaskEntry)
        ensures
            r == self.prompt_spec(),
    {
        let mut t = self;
        t.deferrable = false;
        t
    }
}

/// The intervals that the configuration gives, in seconds.
#[derive(Debug, Clone, Copy, PartialEq, Eq, Structural)]
pub struct Clocks {
    pub backpressure_poll: u64,
    pub health_check: u64,
    pub health_stats: u64,
    pub health_cleanup: u64,
    pub tier_evict: u64,
    pub memory_monitor: u64,
    pub anti_entropy: u64,
    pub delta_sync: u64,
    pub merkle_incremental: u64,
    pub merkle_cold_rebuild: u64,
    pub oplog_trim: u64,
    pub config_reload: u64,
}

/// Which parts of the node run.
#[derive(Debug, Clone, Copy, PartialEq, Eq, Structural)]
pub struct Parts {
    pub io_scheduler: bool,
    pub federation: bool,
    pub federation_dht: bool,
    pub federation_trackers: bool,
    pub remote_trackers: bool,
    pub udp_tracker: bool,
    pub crawler: bool,
}

/// Whether a part runs. What belongs to the federation runs only with it, and the
/// configuration file is looked at only where an interval is given.
pub open spec fn runs(parts: Parts, c: Clocks, part: Part) -> bool {
    match part {
        Part::Always => true,
        Part::IoScheduler => parts.io_scheduler,
        Part::Federation => parts.federation,
        Part::FederationDht => parts.federation && parts.federation_dht,
        Part::FederationTrackers => parts.federation && parts.federation_trackers,
        Part::RemoteTrackers => parts.remote_trackers,
        Part::UdpTracker => parts.udp_tracker,
        Part::Crawler => parts.crawler,
        Part::ConfigReload => c.config_reload > 0,
    }
}

/// Whether a part runs.
pub fn part_runs(parts: &Parts, c: &Clocks, part: Part) -> (r: bool)
    ensures
        r == runs(*parts, *c, part),
{
    match part {
        Part::Always => true,
        Part::IoScheduler => parts.io_scheduler,
        Part::Federation => parts.federation,
        Part::FederationDht => parts.federation && parts.federation_dht,
        Part::FederationTrackers => parts.federation && parts.federation_trackers,
        Part::RemoteTrackers => parts.remote_trackers,
        Part::UdpTracker => parts.udp_tracker,
        Part::Crawler => parts.crawler,
        Part::ConfigReload => c.config_reload > 0,
    }
}

/// The tasks for the upkeep of the node.
pub open spec fn core_tasks_of(c: Clocks) -> Seq<TaskEntry> {
    seq![
        task_of(
            "resource_monitor", Part::Always, TaskCategory::Monitor, TaskPriority::Critical,
            load_of(Level::Low, Level::Low, Level::Low, Level::Low),
            Clock::Secs(5), Delay::Absent, 0,
        ).prompt_spec(),
        task_of(
            "periodic_persistence", Part::Always, TaskCategory::Persistence, TaskPriority::Background,
            load_of(Level::Medium, Level::Low, Level::High, Level::Low),
            Clock::Secs(10), Delay::Named(30), 10,
        ),
        task_of(
            "write_queue_flush", Part::Always, TaskCategory::Persistence, TaskPriority::Background,
            load_of(Level::Low, Level::Low, Level::High, Level::Low),
            Clock::Secs(5), Delay::Named(10), 0,
        ),
        task_of(
            "wal_checkpoint_steady", Part::Always, TaskCategory::Persistence, TaskPriority::Background,
            load_of(Level::Low, Level::Low, Level::Medium, Level::Low),
            Clock::KeyedMillis("wal_checkpoint_interval_ms", 100), Delay::Named(5), 0,
        ),
        task_of(
            "wal_checkpoint_hourly_truncate", Part::Always, TaskCategory::Persistence, TaskPriority::Background,
            load_of(Level::Low, Level::Low, Level::High, Level::Low),
            Clock::KeyedSecs("wal_checkpoint_truncate_interval_secs", 3600), Delay::Keyed("wal_checkpoint_truncate_initial_delay", 60), 0,
        ),
        task_of(
            "io_backpressure_poll", Part::IoScheduler, TaskCategory::Monitor, TaskPriority::Background,
            load_of(Level::Low, Level::Low, Level::Low, Level::Low),
            Clock::Fixed(c.backpressure_poll), Delay::Fixed(c.backpressure_poll), 0,
        ),
        task_of(
            "health_check_main", Part::Always, TaskCategory::Monitor, TaskPriority::Important,
            load_of(Level::Medium, Level::Low, Level::Low, Level::Low),
            Clock::Secs(c.health_check), Delay::Absent, 10,
        ),
        task_of(
            "health_check_stats", Part::Always, TaskCategory::Monitor, TaskPriority::Normal,
            load_of(Level::Low, Level::Low, Level::Low, Level::Low),
            Clock::Secs(c.health_stats), Delay::Named(75), 10,
        ),
        task_of(
            "health_cache_cleanup", Part::Always, TaskCategory::Monitor, TaskPriority::Background,
            load_of(Level::Low, Level::Low, Level::Medium, Level::Low),
            Clock::Secs(c.health_cleanup), Delay::Named(420), 15,
        ).behind_spec("score_full"),
        task_of(
            "score_incremental", Part::Always, TaskCategory::Monitor, TaskPriority::Important,
            load_of(Level::Medium, Level::Low, Level::Low, Level::Low),
            Clock::Secs(60), Delay::Absent, 10,
        ),
        task_of(
            "score_full", Part::Always, TaskCategory::Monitor, TaskPriority::Normal,
            load_of(Level::High, Level::Medium, Level::Low, Level::Low),
            Clock::Secs(600), Delay::Named(360), 15,
        ).behind_spec("periodic_persistence").covering_all_spec(),
        task_of(
            "score_snapshot", Part::Always, TaskCategory::Monitor, TaskPriority::Normal,
            load_of(Level::Low, Level::Medium, Level::Low, Level::Low),
            Clock::Secs(120), Delay::Named(60), 10,
        ),
        task_of(
            "cache_cleanup", Part::Always, TaskCategory::Monitor, TaskPriority::Background,
            load_of(Level::Low, Level::Low, Level::Medium, Level::Low),
            Clock::Secs(600), Delay::Named(420), 15,
        ).behind_spec("score_full"),
        task_of(
            "tier_check", Part::Always, TaskCategory::Monitor, TaskPriority::Background,
            load_of(Level::Low, Level::Low, Level::Medium, Level::Low),
            Clock::Secs(300), Delay::Named(225), 10,
        ),
        task_of(
            "tier_evict", Part::Always, TaskCategory::Monitor, TaskPriority::Background,
            load_of(Level::Low, Level::Low, Level::Low, Level::Low),
            Clock::Secs(c.tier_evict), Delay::Fixed(60), 0,
        ),
        task_of(
            "memory_monitor", Part::Always, TaskCategory::Monitor, TaskPriority::Important,
            load_of(Level::Low, Level::Low, Level::Low, Level::Low),
            Clock::Secs(c.memory_monitor), Delay::Fixed(30), 0,
        )
    ]
}

/// The tasks for the upkeep of the node.
pub fn core_tasks(c: &Clocks) -> (r: Vec<TaskEntry>)
    ensures
        r@ == core_tasks_of(*c),
{
    let r: Vec<TaskEntry> = vec![
        task(
            "resource_monitor", Part::Always, TaskCategory::Monitor, TaskPriority::Critical,
            load(Level::Low, Level::Low, Level::Low, Level::Low),
            Clock::Secs(5), Delay::Absent, 0,
        ).prompt(),
        task(
            "periodic_persistence", Part::Always, TaskCategory::Persistence, TaskPriority::Background,
            load(Level::Medium, Level::Low, Level::High, Level::Low),
            Clock::Secs(10), Delay::Named(30), 10,
        ),
        task(
            "write_queue_flush", Part::Always, TaskCategory::Persistence, TaskPriority::Background,
            load(Level::Low, Level::Low, Level::High, Level::Low),
            Clock::Secs(5), Delay::Named(10), 0,
        ),
        task(
            "wal_checkpoint_steady", Part::Always, TaskCategory::Persistence, TaskPriority::Background,
            load(Level::Low, Level::Low, Level::Medium, Level::Low),
            Clock::KeyedMillis("wal_checkpoint_interval_ms", 100), Delay::Named(5), 0,
        ),
        task(
            "wal_checkpoint_hourly_truncate", Part::Always, TaskCategory::Persistence, TaskPriority::Background,
            load(Level::Low, Level::Low, Level::High, Level::Low),
            Clock::KeyedSecs("wal_checkpoint_truncate_interval_secs", 3600), Delay::Keyed("wal_checkpoint_truncate_initial_delay", 60), 0,
        ),
        task(
            "io_backpressure_poll", Part::IoScheduler, TaskCategory::Monitor, TaskPriority::Background,
            load(Level::Low, Level::Low, Level::Low, Level::Low),
            Clock::Fixed(c.backpressure_poll), Delay::Fixed(c.backpressure_poll), 0,
        ),
        task(
            "health_check_main", Part::Always, TaskCategory::Monitor, TaskPriority::Important,
            load(Level::Medium, Level::Low, Level::Low, Level::Low),
            Clock::Secs(c.health_check), Delay::Absent, 10,
        ),
        task(
            "health_check_stats", Part::Always, TaskCategory::Monitor, TaskPriority::Normal,
            load(Level::Low, Level::Low, Level::Low, Level::Low),
            Clock::Secs(c.health_stats), Delay::Named(75), 10,
        ),
        task(
            "health_cache_cleanup", Part::Always, TaskCategory::Monitor, TaskPriority::Background,
            load(Level::Low, Level::Low, Level::Medium, Level::Low),
            Clock::Secs(c.health_cleanup), Delay::Named(420), 15,
        ).behind("score_full"),
        task(
            "score_incremental", Part::Always, TaskCategory::Monitor, TaskPriority::Important,
            load(Level::Medium, Level::Low, Level::Low, Level::Low),
            Clock::Secs(60), Delay::Absent, 10,
        ),
        task(
            "score_full", Part::Always, TaskCategory::Monitor, TaskPriority::Normal,
            load(Level::High, Level::Medium, Level::Low, Level::Low),
            Clock::Secs(600), Delay::Named(360), 15,
        ).behind("periodic_persistence").covering_all(),
        task(
            "score_snapshot", Part::Always, TaskCategory::Monitor, TaskPriority::Normal,
            load(Level::Low, Level::Medium, Level::Low, Level::Low),
            Clock::Secs(120), Delay::Named(60), 10,
        ),
        task(
            "cache_cleanup", Part::Always, TaskCategory::Monitor, TaskPriority::Background,
            load(Level::Low, Level::Low, Level::Medium, Level::Low),
            Clock::Secs(600), Delay::Named(420), 15,
        ).behind("score_full"),
        task(
            "tier_check", Part::Always, TaskCategory::Monitor, TaskPriority::Background,
            load(Level::Low, Level::Low, Level::Medium, Level::Low),
            Clock::Secs(300), Delay::Named(225), 10,
        ),
        task(
            "tier_evict", Part::Always, TaskCategory::Monitor, TaskPriority::Background,
            load(Level::Low, Level::Low, Level::Low, Level::Low),
            Clock::Secs(c.tier_evict), Delay::Fixed(60), 0,
        ),
        task(
            "memory_monitor", Part::Always, TaskCategory::Monitor, TaskPriority::Important,
            load(Level::Low, Level::Low, Level::Low, Level::Low),
            Clock::Secs(c.memory_monitor), Delay::Fixed(30), 0,
        ),
    ];
    proof {
        assert(r@ =~= core_tasks_of(*c));
    }
    r
}

/// The tasks for the federation.
pub open spec fn federation_tasks_of(c: Clocks) -> Seq<TaskEntry> {
    seq![
        task_of(
            "fed_heartbeat", Part::Federation, TaskCategory::Federation, TaskPriority::Important,
            load_of(Level::Low, Level::Low, Level::Low, Level::Low),
            Clock::Secs(30), Delay::Absent, 5,
        ),
        task_of(
            "fed_node_sync", Part::Federation, TaskCategory::Federation, TaskPriority::Normal,
            load_of(Level::Low, Level::Low, Level::Low, Level::Medium),
            Clock::Secs(300), Delay::Named(150), 10,
        ),
        task_of(
            "fed_dht_discovery", Part::FederationDht, TaskCategory::Federation, TaskPriority::Normal,
            load_of(Level::Low, Level::Low, Level::Low, Level::Medium),
            Clock::Secs(300), Delay::Absent, 10,
        ),
        task_of(
            "fed_merkle_anti_entropy", Part::Federation, TaskCategory::Federation, TaskPriority::Normal,
            load_of(Level::Medium, Level::Low, Level::Low, Level::Low),
            Clock::Secs(c.anti_entropy), Delay::Named(45), 10,
        ),
        task_of(
            "fed_delta_sync", Part::Federation, TaskCategory::Federation, TaskPriority::Normal,
            load_of(Level::Low, Level::Low, Level::Low, Level::Medium),
            Clock::Secs(c.delta_sync), Delay::Named(20), 5,
        ),
        task_of(
            "fed_range_reconcile", Part::Federation, TaskCategory::Federation, TaskPriority::Normal,
            load_of(Level::Low, Level::Low, Level::Medium, Level::Low),
            Clock::Secs(60), Delay::Named(90), 15,
        ),
        task_of(
            "fed_bootstrap_resume", Part::Federation, TaskCategory::Federation, TaskPriority::Background,
            load_of(Level::Low, Level::Low, Level::Medium, Level::Medium),
            Clock::Secs(60), Delay::Named(120), 0,
        ),
        task_of(
            "fed_public_addr_sync", Part::Federation, TaskCategory::Federation, TaskPriority::Background,
            load_of(Level::Low, Level::Low, Level::Low, Level::Low),
            Clock::Secs(300), Delay::Named(60), 0,
        ),
        task_of(
            "fed_relay_channel_cleanup", Part::Federation, TaskCategory::Federation, TaskPriority::Background,
            load_of(Level::Low, Level::Low, Level::Low, Level::Low),
            Clock::Secs(30), Delay::Named(60), 0,
        ),
        task_of(
            "fed_diff_sync_watcher", Part::Federation, TaskCategory::Federation, TaskPriority::Background,
            load_of(Level::Low, Level::Low, Level::Low, Level::Low),
            Clock::Secs(30), Delay::Named(60), 0,
        ),
        task_of(
            "fed_pex_exchange", Part::Federation, TaskCategory::Federation, TaskPriority::Normal,
            load_of(Level::Low, Level::Low, Level::Low, Level::Medium),
            Clock::Secs(30), Delay::Named(30), 0,
        ),
        task_of(
            "fed_connection_maintain", Part::Federation, TaskCategory::Federation, TaskPriority::Important,
            load_of(Level::Low, Level::Low, Level::Low, Level::Medium),
            Clock::Secs(30), Delay::Named(45), 0,
        ),
        task_of(
            "fed_peer_cache_save", Part::Federation, TaskCategory::Federation, TaskPriority::Background,
            load_of(Level::Low, Level::Low, Level::Medium, Level::Low),
            Clock::Secs(300), Delay::Named(120), 0,
        ),
        task_of(
            "fed_nat_refresh", Part::Federation, TaskCategory::Federation, TaskPriority::Normal,
            load_of(Level::Low, Level::Low, Level::Low, Level::Medium),
            Clock::Secs(300), Delay::Named(60), 0,
        ),
        task_of(
            "fed_tracker_sync", Part::FederationTrackers, TaskCategory::Federation, TaskPriority::Background,
            load_of(Level::Low, Level::Medium, Level::Medium, Level::Low),
            Clock::Secs(3600), Delay::Named(300), 0,
        ),
        task_of(
            "fed_gossip_flush", Part::Federation, TaskCategory::Federation, TaskPriority::Important,
            load_of(Level::Low, Level::Low, Level::Low, Level::Low),
            Clock::Millis(50), Delay::Absent, 0,
        ),
        task_of(
            "fed_gossip_propagation", Part::Federation, TaskCategory::Federation, TaskPriority::Important,
            load_of(Level::Medium, Level::Low, Level::Low, Level::Medium),
            Clock::Millis(100), Delay::Absent, 0,
        ),
        task_of(
            "fed_merkle_flush", Part::Federation, TaskCategory::Federation, TaskPriority::Normal,
            load_of(Level::Low, Level::Low, Level::Medium, Level::Low),
            Clock::Millis(1000), Delay::Named(10), 0,
        )
    ]
}

/// The tasks for the federation.
pub fn federation_tasks(c: &Clocks) -> (r: Vec<TaskEntry>)
    ensures
        r@ == federation_tasks_of(*c),
{
    let r: Vec<TaskEntry> = vec![
        task(
            "fed_heartbeat", Part::Federation, TaskCategory::Federation, TaskPriority::Important,
            load(Level::Low, Level::Low, Level::Low, Level::Low),
            Clock::Secs(30), Delay::Absent, 5,
        ),
        task(
            "fed_node_sync", Part::Federation, TaskCategory::Federation, TaskPriority::Normal,
            load(Level::Low, Level::Low, Level::Low, Level::Medium),
            Clock::Secs(300), Delay::Named(150), 10,
        ),
        task(
            "fed_dht_discovery", Part::FederationDht, TaskCategory::Federation, TaskPriority::Normal,
            load(Level::Low, Level::Low, Level::Low, Level::Medium),
            Clock::Secs(300), Delay::Absent, 10,
        ),
        task(
            "fed_merkle_anti_entropy", Part::Federation, TaskCategory::Federation, TaskPriority::Normal,
            load(Level::Medium, Level::Low, Level::Low, Level::Low),
            Clock::Secs(c.anti_entropy), Delay::Named(45), 10,
        ),
        task(
            "fed_delta_sync", Part::Federation, TaskCategory::Federation, TaskPriority::Normal,
            load(Level::Low, Level::Low, Level::Low, Level::Medium),
            Clock::Secs(c.delta_sync), Delay::Named(20), 5,
        ),
        task(
            "fed_range_reconcile", Part::Federation, TaskCategory::Federation, TaskPriority::Normal,
            load(Level::Low, Level::Low, Level::Medium, Level::Low),
            Clock::Secs(60), Delay::Named(90), 15,
        ),
        task(
            "fed_bootstrap_resume", Part::Federation, TaskCategory::Federation, TaskPriority::Background,
            load(Level::Low, Level::Low, Level::Medium, Level::Medium),
            Clock::Secs(60), Delay::Named(120), 0,
        ),
        task(
            "fed_public_addr_sync", Part::Federation, TaskCategory::Federation, TaskPriority::Background,
            load(Level::Low, Level::Low, Level::Low, Level::Low),
            Clock::Secs(300), Delay::Named(60), 0,
        ),
        task(
            "fed_relay_channel_cleanup", Part::Federation, TaskCategory::Federation, TaskPriority::Background,
            load(Level::Low, Level::Low, Level::Low, Level::Low),
            Clock::Secs(30), Delay::Named(60), 0,
        ),
        task(
            "fed_diff_sync_watcher", Part::Federation, TaskCategory::Federation, TaskPriority::Background,
            load(Level::Low, Level::Low, Level::Low, Level::Low),
            Clock::Secs(30), Delay::Named(60), 0,
        ),
        task(
            "fed_pex_exchange", Part::Federation, TaskCategory::Federation, TaskPriority::Normal,
            load(Level::Low, Level::Low, Level::Low, Level::Medium),
            Clock::Secs(30), Delay::Named(30), 0,
        ),
        task(
            "fed_connection_maintain", Part::Federation, TaskCategory::Federation, TaskPriority::Important,
            load(Level::Low, Level::Low, Level::Low, Level::Medium),
            Clock::Secs(30), Delay::Named(45), 0,
        ),
        task(
            "fed_peer_cache_save", Part::Federation, TaskCategory::Federation, TaskPriority::Background,
            load(Level::Low, Level::Low, Level::Medium, Level::Low),
            Clock::Secs(300), Delay::Named(120), 0,
        ),
        task(
            "fed_nat_refresh", Part::Federation, TaskCategory::Federation, TaskPriority::Normal,
            load(Level::Low, Level::Low, Level::Low, Level::Medium),
            Clock::Secs(300), Delay::Named(60), 0,
        ),
        task(
            "fed_tracker_sync", Part::FederationTrackers, TaskCategory::Federation, TaskPriority::Background,
            load(Level::Low, Level::Medium, Level::Medium, Level::Low),
            Clock::Secs(3600), Delay::Named(300), 0,
        ),
        task(
            "fed_gossip_flush", Part::Federation, TaskCategory::Federation, TaskPriority::Important,
            load(Level::Low, Level::Low, Level::Low, Level::Low),
            Clock::Millis(50), Delay::Absent, 0,
        ),
        task(
            "fed_gossip_propagation", Part::Federation, TaskCategory::Federation, TaskPriority::Important,
            load(Level::Medium, Level::Low, Level::Low, Level::Medium),
            Clock::Millis(100), Delay::Absent, 0,
        ),
        task(
            "fed_merkle_flush", Part::Federation, TaskCategory::Federation, TaskPriority::Normal,
            load(Level::Low, Level::Low, Level::Medium, Level::Low),
            Clock::Millis(1000), Delay::Named(10), 0,
        ),
    ];
    proof {
        assert(r@ =~= federation_tasks_of(*c));
    }
    r
}

/// The tasks for the digests that the federation compares, and its log.
pub open spec fn digest_tasks_of(c: Clocks) -> Seq<TaskEntry> {
    seq![
        task_of(
            "merkle_incremental_node", Part::Federation, TaskCategory::Persistence, TaskPriority::Background,
            load_of(Level::Low, Level::Low, Level::Medium, Level::Low),
            Clock::Fixed(c.merkle_incremental), Delay::Fixed(15), 0,
        ),
        task_of(
            "merkle_incremental_peer", Part::Federation, TaskCategory::Persistence, TaskPriority::Background,
            load_of(Level::Low, Level::Low, Level::Medium, Level::Low),
            Clock::Fixed(c.merkle_incremental), Delay::Fixed(20), 0,
        ),
        task_of(
            "merkle_incremental_infohash", Part::Federation, TaskCategory::Persistence, TaskPriority::Background,
            load_of(Level::Low, Level::Low, Level::Medium, Level::Low),
            Clock::Fixed(c.merkle_incremental), Delay::Fixed(25), 0,
        ),
        task_of(
            "merkle_incremental_tracker", Part::Federation, TaskCategory::Persistence, TaskPriority::Background,
            load_of(Level::Low, Level::Low, Level::Medium, Level::Low),
            Clock::Fixed(c.merkle_incremental), Delay::Fixed(30), 0,
        ),
        task_of(
            "merkle_cold_rebuild_node", Part::Federation, TaskCategory::Persistence, TaskPriority::Background,
            load_of(Level::Medium, Level::Medium, Level::High, Level::Low),
            Clock::Fixed(c.merkle_cold_rebuild), Delay::Named(60), 0,
        ),
        task_of(
            "merkle_cold_rebuild_peer", Part::Federation, TaskCategory::Persistence, TaskPriority::Background,
            load_of(Level::Medium, Level::Medium, Level::High, Level::Low),
            Clock::Fixed(c.merkle_cold_rebuild), Delay::Named(75), 0,
        ),
        task_of(
            "merkle_cold_rebuild_infohash", Part::Federation, TaskCategory::Persistence, TaskPriority::Background,
            load_of(Level::Medium, Level::Medium, Level::High, Level::Low),
            Clock::Fixed(c.merkle_cold_rebuild), Delay::Named(90), 0,
        ),
        task_of(
            "merkle_cold_rebuild_tracker", Part::Federation, TaskCategory::Persistence, TaskPriority::Background,
            load_of(Level::Low, Level::Low, Level::Medium, Level::Low),
            Clock::Fixed(c.merkle_cold_rebuild), Delay::Named(105), 0,
        ),
        task_of(
            "oplog_trim", Part::Federation, TaskCategory::Persistence, TaskPriority::Background,
            load_of(Level::Low, Level::Low, Level::Low, Level::Low),
            Clock::KeyedSecs("oplog_trim_interval", c.oplog_trim), Delay::Named(300), 0,
        )
    ]
}

/// The tasks for the digests that the federation compares, and its log.
pub fn digest_tasks(c: &Clocks) -> (r: Vec<TaskEntry>)
    ensures
        r@ == digest_tasks_of(*c),
{
    let r: Vec<TaskEntry> = vec![
        task(
            "merkle_incremental_node", Part::Federation, TaskCategory::Persistence, TaskPriority::Background,
            load(Level::Low, Level::Low, Level::Medium, Level::Low),
            Clock::Fixed(c.merkle_incremental), Delay::Fixed(15), 0,
        ),
        task(
            "merkle_incremental_peer", Part::Federation, TaskCategory::Persistence, TaskPriority::Background,
            load(Level::Low, Level::Low, Level::Medium, Level::Low),
            Clock::Fixed(c.merkle_incremental), Delay::Fixed(20), 0,
        ),
        task(
            "merkle_incremental_infohash", Part::Federation, TaskCategory::Persistence, TaskPriority::Background,
            load(Level::Low, Level::Low, Level::Medium, Level::Low),
            Clock::Fixed(c.merkle_incremental), Delay::Fixed(25), 0,
        ),
        task(
            "merkle_incremental_tracker", Part::Federation, TaskCategory::Persistence, TaskPriority::Background,
            load(Level::Low, Level::Low, Level::Medium, Level::Low),
            Clock::Fixed(c.merkle_incremental), Delay::Fixed(30), 0,
        ),
        task(
            "merkle_cold_rebuild_node", Part::Federation, TaskCategory::Persistence, TaskPriority::Background,
            load(Level::Medium, Level::Medium, Level::High, Level::Low),
            Clock::Fixed(c.merkle_cold_rebuild), Delay::Named(60), 0,
        ),
        task(
            "merkle_cold_rebuild_peer", Part::Federation, TaskCategory::Persistence, TaskPriority::Background,
            load(Level::Medium, Level::Medium, Level::High, Level::Low),
            Clock::Fixed(c.merkle_cold_rebuild), Delay::Named(75), 0,
        ),
        task(
            "merkle_cold_rebuild_infohash", Part::Federation, TaskCategory::Persistence, TaskPriority::Background,
            load(Level::Medium, Level::Medium, Level::High, Level::Low),
            Clock::Fixed(c.merkle_cold_rebuild), Delay::Named(90), 0,
        ),
        task(
            "merkle_cold_rebuild_tracker", Part::Federation, TaskCategory::Persistence, TaskPriority::Background,
            load(Level::Low, Level::Low, Level::Medium, Level::Low),
            Clock::Fixed(c.merkle_cold_rebuild), Delay::Named(105), 0,
        ),
        task(
            "oplog_trim", Part::Federation, TaskCategory::Persistence, TaskPriority::Background,
            load(Level::Low, Level::Low, Level::Low, Level::Low),
            Clock::KeyedSecs("oplog_trim_interval", c.oplog_trim), Delay::Named(300), 0,
        ),
    ];
    proof {
        assert(r@ =~= digest_tasks_of(*c));
    }
    r
}

/// The tasks for finding peers, and the trackers.
pub open spec fn network_tasks_of(c: Clocks) -> Seq<TaskEntry> {
    seq![
        task_of(
            "remote_tracker_refresh", Part::RemoteTrackers, TaskCategory::Network, TaskPriority::Background,
            load_of(Level::Low, Level::Low, Level::Low, Level::Low),
            Clock::Secs(3600), Delay::Absent, 30,
        ),
        task_of(
            "tracker_fetcher", Part::Always, TaskCategory::Network, TaskPriority::Background,
            load_of(Level::Low, Level::Low, Level::Low, Level::Medium),
            Clock::Secs(300), Delay::Named(120), 0,
        ),
        task_of(
            "subscription_fetch", Part::Always, TaskCategory::Network, TaskPriority::Background,
            load_of(Level::Low, Level::Low, Level::Low, Level::Medium),
            Clock::Secs(3600), Delay::Named(180), 0,
        ),
        task_of(
            "keyword_search", Part::Always, TaskCategory::Network, TaskPriority::Background,
            load_of(Level::Low, Level::Low, Level::Low, Level::Medium),
            Clock::Secs(3600), Delay::Named(240), 0,
        ),
        task_of(
            "dht_probe_poll", Part::Crawler, TaskCategory::Network, TaskPriority::Normal,
            load_of(Level::Low, Level::Low, Level::Low, Level::Low),
            Clock::Secs(15), Delay::Absent, 0,
        ),
        task_of(
            "active_pex", Part::Always, TaskCategory::Network, TaskPriority::Normal,
            load_of(Level::Low, Level::Low, Level::Low, Level::Medium),
            Clock::Secs(30), Delay::Named(30), 0,
        ),
        task_of(
            "http_tracker_cleanup", Part::Always, TaskCategory::Monitor, TaskPriority::Background,
            load_of(Level::Low, Level::Low, Level::Low, Level::Low),
            Clock::Secs(60), Delay::Absent, 0,
        ),
        task_of(
            "relay_cleanup", Part::Always, TaskCategory::Network, TaskPriority::Background,
            load_of(Level::Low, Level::Low, Level::Low, Level::Low),
            Clock::Secs(30), Delay::Named(60), 0,
        ),
        task_of(
            "udp_tracker_cleanup", Part::UdpTracker, TaskCategory::Network, TaskPriority::Background,
            load_of(Level::Low, Level::Low, Level::Low, Level::Low),
            Clock::Secs(60), Delay::Named(120), 0,
        )
    ]
}

/// The tasks for finding peers, and the trackers.
pub fn network_tasks(c: &Clocks) -> (r: Vec<TaskEntry>)
    ensures
        r@ == network_tasks_of(*c),
{
    let r: Vec<TaskEntry> = vec![
        task(
            "remote_tracker_refresh", Part::RemoteTrackers, TaskCategory::Network, TaskPriority::Background,
            load(Level::Low, Level::Low, Level::Low, Level::Low),
            Clock::Secs(3600), Delay::Absent, 30,
        ),
        task(
            "tracker_fetcher", Part::Always, TaskCategory::Network, TaskPriority::Background,
            load(Level::Low, Level::Low, Level::Low, Level::Medium),
            Clock::Secs(300), Delay::Named(120), 0,
        ),
        task(
            "subscription_fetch", Part::Always, TaskCategory::Network, TaskPriority::Background,
            load(Level::Low, Level::Low, Level::Low, Level::Medium),
            Clock::Secs(3600), Delay::Named(180), 0,
        ),
        task(
            "keyword_search", Part::Always, TaskCategory::Network, TaskPriority::Background,
            load(Level::Low, Level::Low, Level::Low, Level::Medium),
            Clock::Secs(3600), Delay::Named(240), 0,
        ),
        task(
            "dht_probe_poll", Part::Crawler, TaskCategory::Network, TaskPriority::Normal,
            load(Level::Low, Level::Low, Level::Low, Level::Low),
            Clock::Secs(15), Delay::Absent, 0,
        ),
        task(
            "active_pex", Part::Always, TaskCategory::Network, TaskPriority::Normal,
            load(Level::Low, Level::Low, Level::Low, Level::Medium),
            Clock::Secs(30), Delay::Named(30), 0,
        ),
        task(
            "http_tracker_cleanup", Part::Always, TaskCategory::Monitor, TaskPriority::Background,
            load(Level::Low, Level::Low, Level::Low, Level::Low),
            Clock::Secs(60), Delay::Absent, 0,
        ),
        task(
            "relay_cleanup", Part::Always, TaskCategory::Network, TaskPriority::Background,
            load(Level::Low, Level::Low, Level::Low, Level::Low),
            Clock::Secs(30), Delay::Named(60), 0,
        ),
        task(
            "udp_tracker_cleanup", Part::UdpTracker, TaskCategory::Network, TaskPriority::Background,
            load(Level::Low, Level::Low, Level::Low, Level::Low),
            Clock::Secs(60), Delay::Named(120), 0,
        ),
    ];
    proof {
        assert(r@ =~= network_tasks_of(*c));
    }
    r
}

/// The tasks for the crawler, and the configuration.
pub open spec fn crawler_tasks_of(c: Clocks) -> Seq<TaskEntry> {
    seq![
        task_of(
            "crawler_bootstrap", Part::Crawler, TaskCategory::Crawl, TaskPriority::Normal,
            load_of(Level::Low, Level::Low, Level::Low, Level::Medium),
            Clock::Secs(120), Delay::Named(120), 0,
        ),
        task_of(
            "crawler_keepalive", Part::Crawler, TaskCategory::Crawl, TaskPriority::Normal,
            load_of(Level::Low, Level::Low, Level::Low, Level::Low),
            Clock::Secs(60), Delay::Named(60), 0,
        ),
        task_of(
            "crawler_active_crawl", Part::Crawler, TaskCategory::Crawl, TaskPriority::Important,
            load_of(Level::Medium, Level::Low, Level::Low, Level::High),
            Clock::Secs(30), Delay::Absent, 0,
        ),
        task_of(
            "crawler_get_peers", Part::Crawler, TaskCategory::Crawl, TaskPriority::Important,
            load_of(Level::Low, Level::Low, Level::Low, Level::Medium),
            Clock::Secs(10), Delay::Absent, 0,
        ),
        task_of(
            "crawler_sample_infohashes", Part::Crawler, TaskCategory::Crawl, TaskPriority::Normal,
            load_of(Level::Low, Level::Low, Level::Low, Level::Medium),
            Clock::Secs(15), Delay::Named(30), 0,
        ),
        task_of(
            "crawler_scrape", Part::Crawler, TaskCategory::Crawl, TaskPriority::Normal,
            load_of(Level::Low, Level::Low, Level::Low, Level::Medium),
            Clock::Secs(60), Delay::Named(60), 0,
        ),
        task_of(
            "crawler_cleanup_pending", Part::Crawler, TaskCategory::Crawl, TaskPriority::Background,
            load_of(Level::Low, Level::Low, Level::Low, Level::Low),
            Clock::Secs(30), Delay::Absent, 0,
        ),
        task_of(
            "crawler_bucket_refresh", Part::Crawler, TaskCategory::Crawl, TaskPriority::Normal,
            load_of(Level::Low, Level::Low, Level::Low, Level::Medium),
            Clock::Secs(300), Delay::Named(300), 0,
        ),
        task_of(
            "crawler_update_metrics", Part::Crawler, TaskCategory::Monitor, TaskPriority::Background,
            load_of(Level::Low, Level::Low, Level::Low, Level::Low),
            Clock::Secs(5), Delay::Absent, 0,
        ),
        task_of(
            "config_reloader", Part::ConfigReload, TaskCategory::Monitor, TaskPriority::Normal,
            load_of(Level::Low, Level::Low, Level::Low, Level::Low),
            Clock::Fixed(c.config_reload), Delay::Absent, 0,
        )
    ]
}

/// The tasks for the crawler, and the configuration.
pub fn crawler_tasks(c: &Clocks) -> (r: Vec<TaskEntry>)
    ensures
        r@ == crawler_tasks_of(*c),
{
    let r: Vec<TaskEntry> = vec![
        task(
            "crawler_bootstrap", Part::Crawler, TaskCategory::Crawl, TaskPriority::Normal,
            load(Level::Low, Level::Low, Level::Low, Level::Medium),
            Clock::Secs(120), Delay::Named(120), 0,
        ),
        task(
            "crawler_keepalive", Part::Crawler, TaskCategory::Crawl, TaskPriority::Normal,
            load(Level::Low, Level::Low, Level::Low, Level::Low),
            Clock::Secs(60), Delay::Named(60), 0,
        ),
        task(
            "crawler_active_crawl", Part::Crawler, TaskCategory::Crawl, TaskPriority::Important,
            load(Level::Medium, Level::Low, Level::Low, Level::High),
            Clock::Secs(30), Delay::Absent, 0,
        ),
        task(
            "crawler_get_peers", Part::Crawler, TaskCategory::Crawl, TaskPriority::Important,
            load(Level::Low, Level::Low, Level::Low, Level::Medium),
            Clock::Secs(10), Delay::Absent, 0,
        ),
        task(
            "crawler_sample_infohashes", Part::Crawler, TaskCategory::Crawl, TaskPriority::Normal,
            load(Level::Low, Level::Low, Level::Low, Level::Medium),
            Clock::Secs(15), Delay::Named(30), 0,
        ),
        task(
            "crawler_scrape", Part::Crawler, TaskCategory::Crawl, TaskPriority::Normal,
            load(Level::Low, Level::Low, Level::Low, Level::Medium),
            Clock::Secs(60), Delay::Named(60), 0,
        ),
        task(
            "crawler_cleanup_pending", Part::Crawler, TaskCategory::Crawl, TaskPriority::Background,
            load(Level::Low, Level::Low, Level::Low, Level::Low),
            Clock::Secs(30), Delay::Absent, 0,
        ),
        task(
            "crawler_bucket_refresh", Part::Crawler, TaskCategory::Crawl, TaskPriority::Normal,
            load(Level::Low, Level::Low, Level::Low, Level::Medium),
            Clock::Secs(300), Delay::Named(300), 0,
        ),
        task(
            "crawler_update_metrics", Part::Crawler, TaskCategory::Monitor, TaskPriority::Background,
            load(Level::Low, Level::Low, Level::Low, Level::Low),
            Clock::Secs(5), Delay::Absent, 0,
        ),
        task(
            "config_reloader", Part::ConfigReload, TaskCategory::Monitor, TaskPriority::Normal,
            load(Level::Low, Level::Low, Level::Low, Level::Low),
            Clock::Fixed(c.config_reload), Delay::Absent, 0,
        ),
    ];
    proof {
        assert(r@ =~= crawler_tasks_of(*c));
    }
    r
}

/// All tasks, in the order in which they are set up.
pub open spec fn all_tasks_of(c: Clocks) -> Seq<TaskEntry> {
    core_tasks_of(c) + federation_tasks_of(c) + digest_tasks_of(c) + network_tasks_of(c)
        + crawler_tasks_of(c)
}

/// All tasks, in the order in which they are set up.
pub fn all_tasks(c: &Clocks) -> (r: Vec<TaskEntry>)
    ensures
        r@ == all_tasks_of(*c),
{
    let mut r = core_tasks(c);
    let mut federation = federation_tasks(c);
    let mut digests = digest_tasks(c);
    let mut network = network_tasks(c);
    let mut crawler = crawler_tasks(c);
    r.append(&mut federation);
    r.append(&mut digests);
    r.append(&mut network);
    r.append(&mut crawler);
    r
}

/// A time, in milliseconds where `millis` holds, else in seconds.
#[derive(Debug, Clone, Copy, PartialEq, Eq, Structural)]
pub struct Span {
    pub amount: u64,
    pub millis: bool,
}

/// A task as it is set up, with the times that hold for it.
#[derive(Debug, Clone, Copy)]
pub struct PlannedTask {
    pub entry: TaskEntry,
    pub interval: Span,
    /// Seconds before it first runs.
    pub delay: u64,
    /// Seconds by which its runs are spread.
    pub jitter: u64,
}

/// What the configuration gives under a key, or else the number that holds otherwise.
pub open spec fn configured(over: Map<Seq<char>, u64>, key: Seq<char>, otherwise: u64) -> u64 {
    if over.contains_key(key) {
        over[key]
    } else {
        otherwise
    }
}

/// What the configuration gives under a key, or else the number that holds otherwise.
pub fn get_interval_secs(over: &FxMap<String, u64>, key: &str, otherwise: u64) -> (r: u64)
    requires
        over.wf(),
    ensures
        r == configured(over@, key@, otherwise),
{
    match over.get(&key.to_owned()) {
        Some(n) => *n,
        None => otherwise,
    }
}

/// How often a task runs.
pub open spec fn interval_of(e: TaskEntry, over: Map<Seq<char>, u64>) -> Span {
    match e.interval {
        Clock::Secs(n) => Span { amount: configured(over, e.name@, n), millis: false },
        Clock::Millis(n) => Span { amount: configured(over, e.name@, n), millis: true },
        Clock::KeyedSecs(k, n) => Span { amount: configured(over, k@, n), millis: false },
        Clock::KeyedMillis(k, n) => Span { amount: configured(over, k@, n), millis: true },
        Clock::Fixed(n) => Span { amount: n, millis: false },
    }
}

/// How many seconds pass before a task first runs.
pub open spec fn delay_of(e: TaskEntry, over: Map<Seq<char>, u64>) -> u64 {
    match e.delay {
        Delay::Absent => 0,
        Delay::Named(n) => configured(over, e.name@ + "_initial_delay"@, n),
        Delay::Keyed(k, n) => configured(over, k@, n),
        Delay::Fixed(n) => n,
    }
}

/// By how many seconds the runs of a task are spread.
pub open spec fn jitter_of(e: TaskEntry, over: Map<Seq<char>, u64>) -> u64 {
    if e.jitter == 0 {
        0
    } else {
        configured(over, e.name@ + "_jitter"@, e.jitter)
    }
}

/// A task as it is set up.
pub open spec fn planned(e: TaskEntry, over: Map<Seq<char>, u64>) -> PlannedTask {
    PlannedTask {
        entry: e,
        interval: interval_of(e, over),
        delay: delay_of(e, over),
        jitter: jitter_of(e, over),
    }
}

fn plan_one(e: &TaskEntry, over: &FxMap<String, u64>) -> (r: PlannedTask)
    requires
        over.wf(),
    ensures
        r == planned(*e, over@),
{
    let interval = match e.interval {
        Clock::Secs(n) => Span { amount: get_interval_secs(over, e.name, n), millis: false },
        Clock::Millis(n) => Span { amount: get_interval_secs(over, e.name, n), millis: true },
        Clock::KeyedSecs(k, n) => Span { amount: get_interval_secs(over, k, n), millis: false },
        Clock::KeyedMillis(k, n) => Span { amount: get_interval_secs(over, k, n), millis: true },
        Clock::Fixed(n) => Span { amount: n, millis: false },
    };
    let delay: u64 = match e.delay {
        Delay::Absent => 0,
        Delay::Named(n) => {
            let mut key: String = e.name.to_owned();
            key.append("_initial_delay");
            get_interval_secs(over, key.as_str(), n)
        },
        Delay::Keyed(k, n) => get_interval_secs(over, k, n),
        Delay::Fixed(n) => n,
    };
    let jitter: u64 = if e.jitter == 0 {
        0
    } else {
        let mut key: String = e.name.to_owned();
        key.append("_jitter");
        get_interval_secs(over, key.as_str(), e.jitter)
    };
    PlannedTask { entry: *e, interval, delay, jitter }
}

/// The test for tasks of parts that run.
pub open spec fn wanted(parts: Parts, c: Clocks) -> spec_fn(TaskEntry) -> bool {
    |e: TaskEntry| runs(parts, c, e.part)
}

/// The tasks to set up: those of the parts that run, with the times that hold for them.
pub open spec fn plan_of(
    tasks: Seq<TaskEntry>,
    parts: Parts,
    c: Clocks,
    over: Map<Seq<char>, u64>,
) -> Seq<PlannedTask> {
    tasks.filter(wanted(parts, c)).map_values(|e: TaskEntry| planned(e, over))
}

/// The tasks to set up.
pub fn plan_tasks(parts: &Parts, c: &Clocks, over: &FxMap<String, u64>) -> (r: Vec<PlannedTask>)
    requires
        over.wf(),
    ensures
        r@ == plan_of(all_tasks_of(*c), *parts, *c, over@),
{
    let tasks = all_tasks(c);
    let ghost p = wanted(*parts, *c);
    let ghost f = |e: TaskEntry| planned(e, over@);
    let mut out: Vec<PlannedTask> = Vec::new();
    let mut i: usize = 0;
    proof {
        reveal(Seq::filter);
        assert(out@ =~= tasks@.take(0).filter(p).map_values(f));
    }
    while i < tasks.len()
        invariant
            over.wf(),
            0 <= i <= tasks@.len(),
            p == wanted(*parts, *c),
            f == (|e: TaskEntry| planned(e, over@)),
            out@ == tasks@.take(i as int).filter(p).map_values(f),
        decreases tasks@.len() - i,
    {
        let ghost before = tasks@.take(i as int).filter(p);
        proof {
            crate::ranking::lemma_filter_step(tasks@, p, i as int);
        }
        if part_runs(parts, c, tasks[i].part) {
            let one = plan_one(&tasks[i], over);
            out.push(one);
            proof {
                assert(before.push(tasks@[i as int]).map_values(f) =~= before.map_values(f).push(
                    one,
                ));
            }
        }
        i = i + 1;
    }
    proof {
        assert(tasks@.take(i as int) =~= tasks@);
        assert(out@ == plan_of(tasks@, *parts, *c, over@));
    }
    out
}

/// A task of a part that does not run is not set up.
pub proof fn idle_parts_have_no_tasks(
    tasks: Seq<TaskEntry>,
    parts: Parts,
    c: Clocks,
    over: Map<Seq<char>, u64>,
    i: int,
)
    requires
        0 <= i < plan_of(tasks, parts, c, over).len(),
    ensures
        runs(parts, c, plan_of(tasks, parts, c, over)[i].entry.part),
        tasks.contains(plan_of(tasks, parts, c, over)[i].entry),
{
    let p = wanted(parts, c);
    broadcast use vstd::seq_lib::group_filter_ensures;

    let f = tasks.filter(p);
    assert(p(f[i]));
    crate::storage::tiered_cache::lemma_filter_members(tasks, p, i);
}

/// Without an entry in the configuration a task keeps its own times.
pub proof fn own_times_hold_otherwise(e: TaskEntry)
    ensures
        ({
            let t = planned(e, Map::empty());
            &&& e.interval matches Clock::Secs(n) ==> t.interval == (Span {
                amount: n,
                millis: false,
            })
            &&& e.delay matches Delay::Named(n) ==> t.delay == n
            &&& t.jitter == e.jitter
        }),
{
}

} // verus!
