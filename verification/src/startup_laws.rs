//! What holds of what the node decides before it runs.

use vstd::prelude::*;

use crate::config::PdcConfig;
use crate::startup::{firewall_rules_of, nat_ports_of, threads_of, udp_port_of, ThreadSettings};
use crate::tasks::{plan_of, planned, runs, Clock, Clocks, Delay, Part, Parts, TaskEntry};

verus! {

/// Every part gets the threads that it is configured to have, where they are enough: at least
/// four for the crawler and the federation, two for the others. Where the first two are not
/// configured they get as many as the machine has, or eight.
pub proof fn threads_are_as_configured(s: ThreadSettings, machine: usize)
    ensures
        ({
            let t = threads_of(s, Some(machine));
            &&& t.worker >= 4 && t.federation >= 4
            &&& t.tracker >= 2 && t.api >= 2 && t.scheduler >= 2 && t.persistence >= 2
            &&& s.worker >= 4 ==> t.worker == s.worker
            &&& s.federation >= 4 ==> t.federation == s.federation
            &&& s.worker == 0 && machine >= 4 ==> t.worker == machine
            &&& s.federation == 0 && machine >= 4 ==> t.federation == machine
            &&& 1 <= s.worker < 4 ==> t.worker == 4
            &&& 1 <= s.federation < 4 ==> t.federation == 4
            &&& s.tracker >= 2 ==> t.tracker == s.tracker
            &&& s.api >= 2 ==> t.api == s.api
            &&& s.scheduler >= 2 ==> t.scheduler == s.scheduler
            &&& s.persistence >= 2 ==> t.persistence == s.persistence
            &&& s.tracker < 2 ==> t.tracker == 2
            &&& s.api < 2 ==> t.api == 2
            &&& s.scheduler < 2 ==> t.scheduler == 2
            &&& s.persistence < 2 ==> t.persistence == 2
        }),
        s.worker == 0 ==> threads_of(s, None).worker == 8,
        s.federation == 0 ==> threads_of(s, None).federation == 8,
{
}

/// The UDP tracker has its own port where one is given, else the server's; what is switched off
/// gets no port at the gateway.
pub proof fn what_is_off_has_no_port(c: PdcConfig, p: u16)
    ensures
        c.super_tracker.udp_port == Some(p) ==> udp_port_of(c) == p,
        c.super_tracker.udp_port is None ==> udp_port_of(c) == c.server.port,
        nat_ports_of(c).http == c.server.port,
        nat_ports_of(c).udp == udp_port_of(c),
        nat_ports_of(c).relay == c.super_tracker.relay_port,
        nat_ports_of(c).utp == c.crawler.utp_port,
        nat_ports_of(c).tcp_pex == c.crawler.tcp_pex_port,
        c.crawler.enabled ==> nat_ports_of(c).crawler == c.crawler.listen_port,
        !c.crawler.enabled ==> nat_ports_of(c).crawler == 0,
        c.federation.enabled ==> nat_ports_of(c).federation == c.federation.listen_port,
        !c.federation.enabled ==> nat_ports_of(c).federation == 0,
{
}

/// The firewall is opened for every port that the node listens on, with its protocol.
pub proof fn every_port_has_a_rule(c: PdcConfig)
    ensures
        firewall_rules_of(c).len() == 10,
        exists|i: int|
            0 <= i < 10 && (#[trigger] firewall_rules_of(c)[i]).0 == c.server.api_port
                && firewall_rules_of(c)[i].1 == "TCP"@,
        exists|i: int|
            0 <= i < 10 && (#[trigger] firewall_rules_of(c)[i]).0 == udp_port_of(c)
                && firewall_rules_of(c)[i].1 == "UDP"@,
        exists|i: int|
            0 <= i < 10 && (#[trigger] firewall_rules_of(c)[i]).0 == c.super_tracker.relay_port
                && firewall_rules_of(c)[i].1 == "TCP"@,
        exists|i: int|
            0 <= i < 10 && (#[trigger] firewall_rules_of(c)[i]).0 == c.discoverers.dht_listen_port
                && firewall_rules_of(c)[i].1 == "UDP"@,
        exists|i: int|
            0 <= i < 10 && (#[trigger] firewall_rules_of(c)[i]).0 == c.crawler.listen_port
                && firewall_rules_of(c)[i].1 == "UDP"@,
        exists|i: int|
            0 <= i < 10 && (#[trigger] firewall_rules_of(c)[i]).0 == c.crawler.utp_port
                && firewall_rules_of(c)[i].1 == "UDP"@,
        exists|i: int|
            0 <= i < 10 && (#[trigger] firewall_rules_of(c)[i]).0 == c.crawler.tcp_pex_port
                && firewall_rules_of(c)[i].1 == "TCP"@,
        exists|i: int|
            0 <= i < 10 && (#[trigger] firewall_rules_of(c)[i]).0 == c.federation.listen_port
                && firewall_rules_of(c)[i].1 == "TCP"@,
        exists|i: int|
            0 <= i < 10 && (#[trigger] firewall_rules_of(c)[i]).0 == c.federation.listen_port
                && firewall_rules_of(c)[i].1 == "UDP"@,
        exists|i: int|
            0 <= i < 10 && (#[trigger] firewall_rules_of(c)[i]).0 == c.federation.lpd_multicast_port
                && firewall_rules_of(c)[i].1 == "UDP"@,
{
    let r = firewall_rules_of(c);
    assert(r[0].0 == c.server.api_port && r[0].1 == "TCP"@);
    assert(r[1].0 == udp_port_of(c) && r[1].1 == "UDP"@);
    assert(r[2].0 == c.super_tracker.relay_port && r[2].1 == "TCP"@);
    assert(r[3].0 == c.discoverers.dht_listen_port && r[3].1 == "UDP"@);
    assert(r[4].0 == c.crawler.listen_port && r[4].1 == "UDP"@);
    assert(r[5].0 == c.crawler.utp_port && r[5].1 == "UDP"@);
    assert(r[6].0 == c.crawler.tcp_pex_port && r[6].1 == "TCP"@);
    assert(r[7].0 == c.federation.listen_port && r[7].1 == "TCP"@);
    assert(r[8].0 == c.federation.listen_port && r[8].1 == "UDP"@);
    assert(r[9].0 == c.federation.lpd_multicast_port && r[9].1 == "UDP"@);
}

/// A task is set up exactly where its part runs, with the times that hold for it.
pub proof fn what_runs_is_planned(
    tasks: Seq<TaskEntry>,
    parts: Parts,
    c: Clocks,
    over: Map<Seq<char>, u64>,
    i: int,
)
    requires
        0 <= i < tasks.len(),
        runs(parts, c, tasks[i].part),
    ensures
        plan_of(tasks, parts, c, over).contains(planned(tasks[i], over)),
{
    let p = crate::tasks::wanted(parts, c);
    crate::storage::recency::lemma_filter_keeps(tasks, p, i);
    let f = tasks.filter(p);
    let k = choose|k: int| 0 <= k < f.len() && f[k] == tasks[i];
    assert(plan_of(tasks, parts, c, over)[k] == planned(tasks[i], over));
}

/// What belongs to the federation runs only with it, what belongs to a part only with that, and
/// the rest always.
pub proof fn parts_switch_their_tasks(parts: Parts, c: Clocks)
    ensures
        runs(parts, c, Part::Always),
        !parts.federation ==> !runs(parts, c, Part::Federation) && !runs(
            parts,
            c,
            Part::FederationDht,
        ) && !runs(parts, c, Part::FederationTrackers),
        parts.federation ==> runs(parts, c, Part::Federation) && (runs(
            parts,
            c,
            Part::FederationDht,
        ) <==> parts.federation_dht) && (runs(parts, c, Part::FederationTrackers)
            <==> parts.federation_trackers),
        runs(parts, c, Part::IoScheduler) <==> parts.io_scheduler,
        runs(parts, c, Part::RemoteTrackers) <==> parts.remote_trackers,
        runs(parts, c, Part::UdpTracker) <==> parts.udp_tracker,
        runs(parts, c, Part::Crawler) <==> parts.crawler,
        runs(parts, c, Part::ConfigReload) <==> c.config_reload != 0,
{
}

/// What the configuration says of a task counts, under its name for its interval and with
/// `_initial_delay` and `_jitter` behind it for the other two; what it does not say is as the
/// task has it. A task whose runs are not spread stays so.
pub proof fn the_configuration_counts(e: TaskEntry, over: Map<Seq<char>, u64>, n: u64)
    ensures
        e.interval == Clock::Secs(n) ==> planned(e, over).interval.amount == (
        if over.contains_key(e.name@) {
            over[e.name@]
        } else {
            n
        }) && !planned(e, over).interval.millis,
        e.interval == Clock::Millis(n) ==> planned(e, over).interval.amount == (
        if over.contains_key(e.name@) {
            over[e.name@]
        } else {
            n
        }) && planned(e, over).interval.millis,
        e.interval == Clock::Fixed(n) ==> planned(e, over).interval.amount == n,
        e.delay == Delay::Named(n) ==> planned(e, over).delay == (if over.contains_key(
            e.name@ + "_initial_delay"@,
        ) {
            over[e.name@ + "_initial_delay"@]
        } else {
            n
        }),
        e.delay == Delay::Absent ==> planned(e, over).delay == 0,
        e.delay == Delay::Fixed(n) ==> planned(e, over).delay == n,
        e.jitter == 0 ==> planned(e, over).jitter == 0,
        e.jitter > 0 ==> planned(e, over).jitter == (if over.contains_key(e.name@ + "_jitter"@) {
            over[e.name@ + "_jitter"@]
        } else {
            e.jitter
        }),
        planned(e, over).entry == e,
{
}

/// A key of its own is looked up where a task has one.
pub proof fn own_keys_count(e: TaskEntry, over: Map<Seq<char>, u64>, k: &'static str, n: u64)
    ensures
        e.interval == Clock::KeyedSecs(k, n) ==> !planned(e, over).interval.millis && planned(
            e,
            over,
        ).interval.amount == (if over.contains_key(k@) {
            over[k@]
        } else {
            n
        }),
        e.interval == Clock::KeyedMillis(k, n) ==> planned(e, over).interval.millis && planned(
            e,
            over,
        ).interval.amount == (if over.contains_key(k@) {
            over[k@]
        } else {
            n
        }),
        e.delay == Delay::Keyed(k, n) ==> planned(e, over).delay == (if over.contains_key(k@) {
            over[k@]
        } else {
            n
        }),
{
}

} // verus!
