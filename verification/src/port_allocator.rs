//! Search for a group of free ports.
//!
//! A group is the configured one, shifted as a whole so that its first port falls on
//! the base of one of ten blocks of a hundred. The blocks are tried in a fixed order;
//! the first whose ports can all be bound is taken. Binding is the caller's part.

use crate::config::PdcConfig;
use vstd::prelude::*;

verus! {

/// Most sockets that the crawler opens.
pub const MAX_CRAWLER_SOCKETS: usize = 10;

/// Number of blocks that are tried.
pub const GROUP_COUNT: usize = 10;

/// Base of the block that is tried at a given turn.
pub open spec fn group_base(i: int) -> u16 {
    if i == 0 {
        6880
    } else if i == 1 {
        6980
    } else {
        (6080 + 100 * (i - 2)) as u16
    }
}

/// Base of the block that is tried at a given turn.
pub fn offset_group(i: usize) -> (r: u16)
    requires
        i < GROUP_COUNT,
    ensures
        r == group_base(i as int),
{
    if i == 0 {
        6880
    } else if i == 1 {
        6980
    } else {
        6080 + 100 * (i - 2) as u16
    }
}

/// Every block is tried once.
pub proof fn group_bases_are_distinct(i: int, j: int)
    requires
        0 <= i < j < GROUP_COUNT,
    ensures
        group_base(i) != group_base(j),
{
}

/// The sequence with only the first of equal elements kept.
pub open spec fn first_occurrences(s: Seq<u16>) -> Seq<u16>
    decreases s.len(),
{
    if s.len() == 0 {
        s
    } else {
        let head = first_occurrences(s.drop_last());
        if head.contains(s.last()) {
            head
        } else {
            head.push(s.last())
        }
    }
}

/// The ports that the crawler would use: its own, then those of its block of a hundred
/// that end in 02, 12, up to 92, without 82.
pub open spec fn crawler_candidates(port: u16) -> Seq<u16> {
    let block = (port - port % 100) as int;
    seq![port] + Seq::new(
        9,
        |i: int|
            {
                let p = block + (if i < 8 {
                    2 + 10 * i
                } else {
                    92
                });
                if p <= u16::MAX {
                    p as u16
                } else {
                    u16::MAX
                }
            },
    )
}

/// How many sockets are opened for a wished number: at least one and at most ten.
pub open spec fn clamp_sockets(n: u16) -> int {
    if n < 1 {
        1
    } else if n > MAX_CRAWLER_SOCKETS {
        MAX_CRAWLER_SOCKETS as int
    } else {
        n as int
    }
}

/// The ports of the crawler's sockets: as many of the candidates, none twice, as are
/// wished and there are.
pub open spec fn crawler_ports(port: u16, socket_count: u16) -> Seq<u16> {
    let all = first_occurrences(crawler_candidates(port));
    let n = clamp_sockets(socket_count);
    if all.len() <= n {
        all
    } else {
        all.take(n)
    }
}

proof fn lemma_first_occurrences(s: Seq<u16>)
    ensures
        first_occurrences(s).no_duplicates(),
        first_occurrences(s).len() <= s.len(),
        forall|x: u16| #[trigger] first_occurrences(s).contains(x) <==> s.contains(x),
        s.len() > 0 ==> first_occurrences(s).len() > 0 && first_occurrences(s)[0] == s[0],
    decreases s.len(),
{
    if s.len() > 0 {
        let t = s.drop_last();
        lemma_first_occurrences(t);
        let head = first_occurrences(t);
        let all = first_occurrences(s);
        assert(s =~= t.push(s.last()));
        if !head.contains(s.last()) {
            assert(all[all.len() - 1] == s.last());
            assert forall|x: u16| #[trigger] all.contains(x) implies s.contains(x) by {
                let i = choose|i: int| 0 <= i < all.len() && all[i] == x;
                if i < head.len() {
                    assert(head.contains(x));
                    let k = choose|k: int| 0 <= k < t.len() && t[k] == x;
                    assert(s[k] == x);
                } else {
                    assert(s[s.len() - 1] == x);
                }
            }
        }
        assert forall|x: u16| s.contains(x) implies #[trigger] all.contains(x) by {
            let k = choose|k: int| 0 <= k < s.len() && s[k] == x;
            if k < t.len() {
                assert(t[k] == x);
                assert(t.contains(x) && head.contains(x));
                let i = choose|i: int| 0 <= i < head.len() && head[i] == x;
                assert(all[i] == x);
            } else {
                assert(x == s.last());
            }
        }
        assert forall|x: u16| #[trigger] all.contains(x) implies s.contains(x) by {
            if head.contains(x) {
                let k = choose|k: int| 0 <= k < t.len() && t[k] == x;
                assert(s[k] == x);
            } else {
                assert(s[s.len() - 1] == x);
            }
        }
    }
}

/// The crawler's ports are all different, its own comes first, and there are between
/// one and ten of them.
pub proof fn crawler_ports_are_distinct(port: u16, socket_count: u16)
    ensures
        crawler_ports(port, socket_count).no_duplicates(),
        1 <= crawler_ports(port, socket_count).len() <= MAX_CRAWLER_SOCKETS,
        crawler_ports(port, socket_count)[0] == port,
{
    lemma_first_occurrences(crawler_candidates(port));
    let all = first_occurrences(crawler_candidates(port));
    assert(crawler_candidates(port)[0] == port);
    let n = clamp_sockets(socket_count);
    if all.len() > n {
        assert forall|i: int, j: int| 0 <= i < n && 0 <= j < n && i != j implies all.take(n)[i]
            != all.take(n)[j] by {
            assert(all[i] != all[j]);
        }
    }
}

fn contains_port(ports: &Vec<u16>, p: u16) -> (r: bool)
    ensures
        r == ports@.contains(p),
{
    let mut i: usize = 0;
    while i < ports.len()
        invariant
            0 <= i <= ports@.len(),
            forall|k: int| 0 <= k < i ==> ports@[k] != p,
        decreases ports@.len() - i,
    {
        if ports[i] == p {
            assert(ports@[i as int] == p);
            return true;
        }
        i = i + 1;
    }
    false
}

proof fn lemma_first_occurrences_prefix(s: Seq<u16>, i: int)
    requires
        0 <= i <= s.len(),
    ensures
        first_occurrences(s.take(i)).len() <= first_occurrences(s).len(),
        first_occurrences(s.take(i)) == first_occurrences(s).take(
            first_occurrences(s.take(i)).len() as int,
        ),
    decreases s.len(),
{
    let a = first_occurrences(s.take(i));
    if i == s.len() {
        assert(s.take(i) =~= s);
        assert(a.take(a.len() as int) =~= a);
    } else {
        let t = s.drop_last();
        lemma_first_occurrences_prefix(t, i);
        assert(t.take(i) =~= s.take(i));
        assert(first_occurrences(s).take(a.len() as int) =~= first_occurrences(t).take(
            a.len() as int,
        ));
    }
}

/// The ports of the crawler's sockets.
pub fn build_crawler_socket_ports(crawler_port: u16, socket_count: u16) -> (r: Vec<u16>)
    ensures
        r@ == crawler_ports(crawler_port, socket_count),
{
    let ghost all = crawler_candidates(crawler_port);
    let count: usize = if socket_count < 1 {
        1
    } else if socket_count > 10 {
        10
    } else {
        socket_count as usize
    };
    let block: u16 = crawler_port - crawler_port % 100;
    let mut ports: Vec<u16> = Vec::new();
    let mut i: usize = 0;
    while i < 10 && ports.len() < count
        invariant
            0 <= i <= 10,
            all == crawler_candidates(crawler_port),
            all.len() == 10,
            block == crawler_port - crawler_port % 100,
            count == clamp_sockets(socket_count),
            ports@.len() <= count,
            ports@ == first_occurrences(all.take(i as int)),
        decreases 10 - i,
    {
        let cand: u16 = if i == 0 {
            crawler_port
        } else if i < 9 {
            block.saturating_add(2 + 10 * (i - 1) as u16)
        } else {
            block.saturating_add(92)
        };
        assert(cand == all[i as int]);
        assert(all.take(i + 1).drop_last() =~= all.take(i as int));
        if !contains_port(&ports, cand) {
            ports.push(cand);
        }
        i = i + 1;
    }
    proof {
        lemma_first_occurrences_prefix(all, i as int);
        lemma_first_occurrences(all);
        assert(all.take(10) =~= all);
        let f = first_occurrences(all);
        if f.len() <= count {
            assert(f.take(f.len() as int) =~= f);
            if i < 10 {
                assert(ports@.len() == count);
            }
        }
    }
    ports
}

/// A group of ports.
#[derive(Debug, Clone)]
pub struct PortGroup {
    /// HTTP tracker (TCP).
    pub api_port: u16,
    /// API and monitoring (TCP).
    pub api_monitor_port: u16,
    /// Relay (TCP).
    pub relay_port: u16,
    /// DHT discoverer (UDP).
    pub dht_listen_port: u16,
    /// DHT crawler (UDP).
    pub crawler_port: u16,
    /// uTP (UDP).
    pub utp_port: u16,
    /// Peer exchange (TCP).
    pub tcp_pex_port: u16,
    /// Federation (TCP and UDP).
    pub federation_port: u16,
    /// The crawler's sockets (UDP), the main one first.
    pub crawler_socket_ports: Vec<u16>,
}

/// A group of ports as the contracts see it.
#[verifier::ext_equal]
pub struct PortGroupView {
    pub api_port: u16,
    pub api_monitor_port: u16,
    pub relay_port: u16,
    pub dht_listen_port: u16,
    pub crawler_port: u16,
    pub utp_port: u16,
    pub tcp_pex_port: u16,
    pub federation_port: u16,
    pub crawler_socket_ports: Seq<u16>,
}

impl View for PortGroup {
    type V = PortGroupView;

    open spec fn view(&self) -> PortGroupView {
        PortGroupView {
            api_port: self.api_port,
            api_monitor_port: self.api_monitor_port,
            relay_port: self.relay_port,
            dht_listen_port: self.dht_listen_port,
            crawler_port: self.crawler_port,
            utp_port: self.utp_port,
            tcp_pex_port: self.tcp_pex_port,
            federation_port: self.federation_port,
            crawler_socket_ports: self.crawler_socket_ports@,
        }
    }
}

/// Whether a port, shifted, is still a port.
pub open spec fn shiftable(p: u16, shift: int) -> bool {
    0 <= p + shift <= u16::MAX
}

/// A port, shifted.
pub open spec fn shifted(p: u16, shift: int) -> u16 {
    (p + shift) as u16
}

impl PortGroupView {
    /// Whether every port of the group, shifted, is still a port.
    pub open spec fn fits(self, shift: int) -> bool {
        &&& shiftable(self.api_port, shift)
        &&& shiftable(self.api_monitor_port, shift)
        &&& shiftable(self.relay_port, shift)
        &&& shiftable(self.dht_listen_port, shift)
        &&& shiftable(self.crawler_port, shift)
        &&& shiftable(self.utp_port, shift)
        &&& shiftable(self.tcp_pex_port, shift)
        &&& shiftable(self.federation_port, shift)
        &&& forall|i: int|
            0 <= i < self.crawler_socket_ports.len() ==> shiftable(
                #[trigger] self.crawler_socket_ports[i],
                shift,
            )
    }

    /// The group with every port shifted.
    pub open spec fn shift(self, shift: int) -> PortGroupView {
        PortGroupView {
            api_port: shifted(self.api_port, shift),
            api_monitor_port: shifted(self.api_monitor_port, shift),
            relay_port: shifted(self.relay_port, shift),
            dht_listen_port: shifted(self.dht_listen_port, shift),
            crawler_port: shifted(self.crawler_port, shift),
            utp_port: shifted(self.utp_port, shift),
            tcp_pex_port: shifted(self.tcp_pex_port, shift),
            federation_port: shifted(self.federation_port, shift),
            crawler_socket_ports: self.crawler_socket_ports.map_values(
                |p: u16| shifted(p, shift),
            ),
        }
    }

    /// The group moved to a block, if every port of it stays a port: its first port
    /// falls on the block's base, and the distances within the group are kept.
    pub open spec fn at_block(self, base: u16) -> Option<PortGroupView> {
        let d = base - self.api_port;
        if self.fits(d) {
            Some(self.shift(d))
        } else {
            None
        }
    }
}

/// Moving a group keeps the distance between any port of it and the first.
pub proof fn moving_keeps_distances(g: PortGroupView, base: u16)
    requires
        g.at_block(base) is Some,
    ensures
        g.at_block(base)->0.api_port == base,
        g.at_block(base)->0.relay_port - base == g.relay_port - g.api_port,
        g.at_block(base)->0.api_monitor_port - base == g.api_monitor_port - g.api_port,
        g.at_block(base)->0.dht_listen_port - base == g.dht_listen_port - g.api_port,
        g.at_block(base)->0.crawler_port - base == g.crawler_port - g.api_port,
        g.at_block(base)->0.utp_port - base == g.utp_port - g.api_port,
        g.at_block(base)->0.tcp_pex_port - base == g.tcp_pex_port - g.api_port,
        g.at_block(base)->0.federation_port - base == g.federation_port - g.api_port,
        forall|i: int|
            0 <= i < g.crawler_socket_ports.len() ==> (
            #[trigger] g.at_block(base)->0.crawler_socket_ports[i]) - base
                == g.crawler_socket_ports[i] - g.api_port,
{
}

/// A moved group, moved back, is the group.
pub proof fn moving_back_undoes(g: PortGroupView, base: u16)
    requires
        g.at_block(base) is Some,
    ensures
        g.at_block(base)->0.at_block(g.api_port) == Some(g),
{
    let m = g.at_block(base)->0;
    let d = g.api_port - base;
    assert forall|i: int| 0 <= i < m.crawler_socket_ports.len() implies shiftable(
        #[trigger] m.crawler_socket_ports[i],
        d,
    ) by {
        assert(m.crawler_socket_ports[i] == shifted(
            g.crawler_socket_ports[i],
            base - g.api_port,
        ));
    }
    assert(m.shift(d).crawler_socket_ports =~= g.crawler_socket_ports) by {
        assert forall|i: int| 0 <= i < g.crawler_socket_ports.len() implies m.shift(
            d,
        ).crawler_socket_ports[i] == g.crawler_socket_ports[i] by {
            assert(shiftable(g.crawler_socket_ports[i], base - g.api_port));
            assert(m.crawler_socket_ports[i] == shifted(
                g.crawler_socket_ports[i],
                base - g.api_port,
            ));
        }
    }
}

/// Transport of a socket.
#[derive(Debug, Clone, Copy, PartialEq, Eq, Structural)]
pub enum Transport {
    Tcp,
    Udp,
}

/// A socket to bind.
#[derive(Debug, Clone, Copy, PartialEq, Eq, Structural)]
pub struct BindRequest {
    pub transport: Transport,
    pub port: u16,
}

pub open spec fn tcp(port: u16) -> BindRequest {
    BindRequest { transport: Transport::Tcp, port }
}

pub open spec fn udp(port: u16) -> BindRequest {
    BindRequest { transport: Transport::Udp, port }
}

/// The sockets of a group, in the order in which they are bound.
pub open spec fn sockets_of(g: PortGroupView) -> Seq<BindRequest> {
    seq![tcp(g.api_port), tcp(g.api_monitor_port), tcp(g.relay_port), udp(g.dht_listen_port)]
        + g.crawler_socket_ports.map_values(|p: u16| udp(p)) + seq![
        udp(g.utp_port),
        tcp(g.tcp_pex_port),
        tcp(g.federation_port),
        udp(g.federation_port),
    ]
}

/// The sockets of a group, in the order in which they are bound.
pub fn bind_plan(ports: &PortGroup) -> (r: Vec<BindRequest>)
    ensures
        r@ == sockets_of(ports@),
{
    let mut out: Vec<BindRequest> = Vec::new();
    out.push(BindRequest { transport: Transport::Tcp, port: ports.api_port });
    out.push(BindRequest { transport: Transport::Tcp, port: ports.api_monitor_port });
    out.push(BindRequest { transport: Transport::Tcp, port: ports.relay_port });
    out.push(BindRequest { transport: Transport::Udp, port: ports.dht_listen_port });
    let ghost head = out@;
    let mut i: usize = 0;
    while i < ports.crawler_socket_ports.len()
        invariant
            0 <= i <= ports.crawler_socket_ports@.len(),
            out@ == head + ports.crawler_socket_ports@.take(i as int).map_values(|p: u16| udp(p)),
        decreases ports.crawler_socket_ports@.len() - i,
    {
        let ghost before = out@;
        let p: u16 = ports.crawler_socket_ports[i];
        out.push(BindRequest { transport: Transport::Udp, port: p });
        i = i + 1;
        assert(out@ =~= head + ports.crawler_socket_ports@.take(i as int).map_values(
            |p: u16| udp(p),
        ));
    }
    assert(ports.crawler_socket_ports@.take(i as int) =~= ports.crawler_socket_ports@);
    out.push(BindRequest { transport: Transport::Udp, port: ports.utp_port });
    out.push(BindRequest { transport: Transport::Tcp, port: ports.tcp_pex_port });
    out.push(BindRequest { transport: Transport::Tcp, port: ports.federation_port });
    out.push(BindRequest { transport: Transport::Udp, port: ports.federation_port });
    assert(out@ =~= sockets_of(ports@));
    out
}

/// A group of ports that is tried or taken, with its turn in the search.
#[derive(Debug, Clone)]
pub struct PortAllocation {
    pub ports: PortGroup,
    pub offset: u16,
}

impl PortAllocation {
    /// Puts the ports of the group into the configuration.
    pub fn apply_to_config(&self, config: &mut PdcConfig)
        ensures
            *final(config) == applied(self.ports@, *old(config)),
    {
        config.server.port = self.ports.api_port;
        config.server.api_port = self.ports.api_monitor_port;
        config.super_tracker.relay_port = self.ports.relay_port;
        config.discoverers.dht_listen_port = self.ports.dht_listen_port;
        config.crawler.listen_port = self.ports.crawler_port;
        config.crawler.utp_port = self.ports.utp_port;
        config.crawler.tcp_pex_port = self.ports.tcp_pex_port;
        config.federation.listen_port = self.ports.federation_port;
        config.federation.api_port = self.ports.api_port;
    }
}

/// The configuration with the ports of a group.
pub open spec fn applied(g: PortGroupView, c: PdcConfig) -> PdcConfig {
    PdcConfig {
        server: crate::config::ServerConfig { port: g.api_port, api_port: g.api_monitor_port },
        super_tracker: crate::config::SuperTrackerConfig {
            relay_port: g.relay_port,
            ..c.super_tracker
        },
        discoverers: crate::config::DiscoverersConfig { dht_listen_port: g.dht_listen_port },
        crawler: crate::config::CrawlerConfig {
            listen_port: g.crawler_port,
            utp_port: g.utp_port,
            tcp_pex_port: g.tcp_pex_port,
            ..c.crawler
        },
        federation: crate::config::FederationConfig {
            listen_port: g.federation_port,
            api_port: g.api_port,
            ..c.federation
        },
        port_step: c.port_step,
    }
}

/// Search for a free group.
pub struct PortAllocator {
    pub base_ports: PortGroup,
    pub step: u16,
    pub max_attempts: u32,
    pub bind_addr: String,
}

/// Where a search stands: the turn that comes next.
#[derive(Debug, Clone, Copy, PartialEq, Eq, Structural)]
pub struct PortSearch {
    pub next: usize,
}

impl PortAllocator {
    /// How many blocks are tried.
    pub open spec fn attempts(self) -> int {
        if self.max_attempts < GROUP_COUNT {
            self.max_attempts as int
        } else {
            GROUP_COUNT as int
        }
    }

    /// The group that is tried at a given turn, unless it does not fit.
    pub open spec fn candidate(self, i: int) -> Option<PortGroupView> {
        self.base_ports@.at_block(group_base(i))
    }

    /// A search that tries up to a hundred groups on all interfaces.
    pub fn new(base_ports: PortGroup, step: u16) -> (r: Self)
        ensures
            r.base_ports == base_ports,
            r.step == step,
            r.max_attempts == 100,
            r.bind_addr@ == "0.0.0.0"@,
    {
        PortAllocator { base_ports, step, max_attempts: 100, bind_addr: "0.0.0.0".to_owned() }
    }

    /// Sets how many groups are tried.
    pub fn with_max_attempts(self, max: u32) -> (r: Self)
        ensures
            r == (PortAllocator { max_attempts: max, ..self }),
    {
        let mut r = self;
        r.max_attempts = max;
        r
    }

    /// Sets the address to bind to.
    pub fn with_bind_addr(self, addr: String) -> (r: Self)
        ensures
            r == (PortAllocator { bind_addr: addr, ..self }),
    {
        let mut r = self;
        r.bind_addr = addr;
        r
    }

    /// A search that starts from the configured ports.
    pub fn from_config(config: &PdcConfig) -> (r: Self)
        ensures
            r.base_ports@ == (PortGroupView {
                api_port: config.server.port,
                api_monitor_port: config.server.api_port,
                relay_port: config.super_tracker.relay_port,
                dht_listen_port: config.discoverers.dht_listen_port,
                crawler_port: config.crawler.listen_port,
                utp_port: config.crawler.utp_port,
                tcp_pex_port: config.crawler.tcp_pex_port,
                federation_port: config.federation.listen_port,
                crawler_socket_ports: crawler_ports(
                    config.crawler.listen_port,
                    config.crawler.socket_count,
                ),
            }),
            r.step == config.port_step,
            r.max_attempts == 100,
            r.bind_addr@ == "0.0.0.0"@,
    {
        let crawler_port: u16 = config.crawler.listen_port;
        let crawler_socket_ports = build_crawler_socket_ports(
            crawler_port,
            config.crawler.socket_count,
        );
        PortAllocator::new(
            PortGroup {
                api_port: config.server.port,
                api_monitor_port: config.server.api_port,
                relay_port: config.super_tracker.relay_port,
                dht_listen_port: config.discoverers.dht_listen_port,
                crawler_port,
                utp_port: config.crawler.utp_port,
                tcp_pex_port: config.crawler.tcp_pex_port,
                federation_port: config.federation.listen_port,
                crawler_socket_ports,
            },
            config.port_step,
        )
    }

    fn shift_one(p: u16, shift: i32) -> (r: Option<u16>)
        requires
            -65535 <= shift <= 65535,
        ensures
            r == (if shiftable(p, shift as int) {
                Some(shifted(p, shift as int))
            } else {
                None
            }),
    {
        let q: i32 = p as i32 + shift;
        if q < 0 || q > 65535 {
            None
        } else {
            Some(q as u16)
        }
    }

    fn shift_all(ports: &Vec<u16>, shift: i32) -> (r: Option<Vec<u16>>)
        requires
            -65535 <= shift <= 65535,
        ensures
            r is Some <==> forall|i: int|
                0 <= i < ports@.len() ==> shiftable(#[trigger] ports@[i], shift as int),
            r matches Some(v) ==> v@ == ports@.map_values(|p: u16| shifted(p, shift as int)),
    {
        let mut out: Vec<u16> = Vec::new();
        let mut i: usize = 0;
        while i < ports.len()
            invariant
                -65535 <= shift <= 65535,
                0 <= i <= ports@.len(),
                forall|k: int| 0 <= k < i ==> shiftable(#[trigger] ports@[k], shift as int),
                out@ == ports@.take(i as int).map_values(|p: u16| shifted(p, shift as int)),
            decreases ports@.len() - i,
        {
            match Self::shift_one(ports[i], shift) {
                Some(q) => {
                    out.push(q);
                },
                None => {
                    assert(!shiftable(ports@[i as int], shift as int));
                    return None;
                },
            }
            i = i + 1;
            assert(out@ =~= ports@.take(i as int).map_values(|p: u16| shifted(p, shift as int)));
        }
        assert(ports@.take(i as int) =~= ports@);
        Some(out)
    }

    /// The group moved to a block, if every port of it stays a port.
    pub fn ports_for_group(&self, group_base: u16) -> (r: Option<PortGroup>)
        ensures
            r is Some <==> self.base_ports@.at_block(group_base) is Some,
            r matches Some(g) ==> self.base_ports@.at_block(group_base) == Some(g@),
    {
        let b = &self.base_ports;
        let shift: i32 = group_base as i32 - b.api_port as i32;
        let api_port = Self::shift_one(b.api_port, shift);
        let api_monitor_port = Self::shift_one(b.api_monitor_port, shift);
        let relay_port = Self::shift_one(b.relay_port, shift);
        let dht_listen_port = Self::shift_one(b.dht_listen_port, shift);
        let crawler_port = Self::shift_one(b.crawler_port, shift);
        let utp_port = Self::shift_one(b.utp_port, shift);
        let tcp_pex_port = Self::shift_one(b.tcp_pex_port, shift);
        let federation_port = Self::shift_one(b.federation_port, shift);
        let crawler_socket_ports = Self::shift_all(&b.crawler_socket_ports, shift);
        if api_port.is_none() || api_monitor_port.is_none() || relay_port.is_none()
            || dht_listen_port.is_none() || crawler_port.is_none() || utp_port.is_none()
            || tcp_pex_port.is_none() || federation_port.is_none()
            || crawler_socket_ports.is_none() {
            return None;
        }
        let g = PortGroup {
            api_port: api_port.unwrap(),
            api_monitor_port: api_monitor_port.unwrap(),
            relay_port: relay_port.unwrap(),
            dht_listen_port: dht_listen_port.unwrap(),
            crawler_port: crawler_port.unwrap(),
            utp_port: utp_port.unwrap(),
            tcp_pex_port: tcp_pex_port.unwrap(),
            federation_port: federation_port.unwrap(),
            crawler_socket_ports: crawler_socket_ports.unwrap(),
        };
        assert(g@ =~= self.base_ports@.shift(shift as int));
        Some(g)
    }

    /// A search that has tried nothing yet.
    pub fn start_search(&self) -> (r: PortSearch)
        ensures
            r.next == 0,
    {
        PortSearch { next: 0 }
    }

    /// The next group to try, with its turn. Blocks to which the group does not fit are
    /// passed over. When there is none left the search has failed.
    pub fn next_group(&self, search: &mut PortSearch) -> (r: Option<PortAllocation>)
        ensures
            match r {
                Some(a) => {
                    &&& old(search).next <= a.offset < self.attempts()
                    &&& self.candidate(a.offset as int) == Some(a.ports@)
                    &&& forall|k: int|
                        old(search).next <= k < a.offset ==> (#[trigger] self.candidate(k)) is None
                    &&& final(search).next == a.offset + 1
                },
                None => {
                    &&& forall|k: int|
                        old(search).next <= k < self.attempts() ==> (#[trigger] self.candidate(
                            k,
                        )) is None
                    &&& final(search).next == if old(search).next < self.attempts() {
                        self.attempts()
                    } else {
                        old(search).next as int
                    }
                },
            },
    {
        let attempts: usize = if (self.max_attempts as u64) < 10 {
            self.max_attempts as usize
        } else {
            GROUP_COUNT
        };
        while search.next < attempts
            invariant
                attempts == self.attempts(),
                attempts <= 10,
                old(search).next <= search.next,
                search.next <= attempts || search.next == old(search).next,
                forall|k: int|
                    old(search).next <= k < search.next ==> (#[trigger] self.candidate(k)) is None,
            decreases attempts - search.next,
        {
            let turn: usize = search.next;
            search.next = turn + 1;
            if let Some(g) = self.ports_for_group(offset_group(turn)) {
                return Some(PortAllocation { ports: g, offset: turn as u16 });
            }
        }
        None
    }
}

/// The sockets of the crawler beside the main one are in its block of a hundred, on ports that
/// end in two but not in eighty-two; there is one where none is wished, and never more than are
/// wished or than ten.
pub proof fn crawler_sockets_share_a_block(port: u16, socket_count: u16, i: int)
    requires
        port - port % 100 + 92 <= u16::MAX,
        0 <= i < crawler_ports(port, socket_count).len(),
    ensures
        crawler_ports(port, socket_count)[i] / 100 == port / 100,
        crawler_ports(port, socket_count)[i] == port || (crawler_ports(port, socket_count)[i] % 10
            == 2 && crawler_ports(port, socket_count)[i] % 100 != 82),
        socket_count <= 1 ==> crawler_ports(port, socket_count).len() == 1,
        crawler_ports(port, socket_count).len() <= (if socket_count <= 1 {
            1
        } else {
            socket_count
        }),
        crawler_ports(port, socket_count).len() <= 10,
{
    let cands = crawler_candidates(port);
    lemma_first_occurrences(cands);
    let all = first_occurrences(cands);
    let x = crawler_ports(port, socket_count)[i];
    assert(all[i] == x);
    assert(all.contains(x));
    let k = choose|k: int| 0 <= k < cands.len() && cands[k] == x;
    crawler_ports_are_distinct(port, socket_count);
    if k > 0 {
        let block = (port - port % 100) as int;
        let j = k - 1;
        assert(x == block + (if j < 8 {
            2 + 10 * j
        } else {
            92
        }));
        assert(block == 100 * (port as int / 100));
    }
}

/// A group has a socket on each of its ports, on that of the federation two, and every one of
/// the crawler's is among them.
pub proof fn every_port_has_its_socket(g: PortGroupView, i: int)
    ensures
        sockets_of(g).len() == 8 + g.crawler_socket_ports.len(),
        sockets_of(g).contains(BindRequest { transport: Transport::Tcp, port: g.api_port }),
        sockets_of(g).contains(BindRequest { transport: Transport::Tcp, port: g.api_monitor_port }),
        sockets_of(g).contains(BindRequest { transport: Transport::Tcp, port: g.relay_port }),
        sockets_of(g).contains(BindRequest { transport: Transport::Udp, port: g.dht_listen_port }),
        0 <= i < g.crawler_socket_ports.len() ==> sockets_of(g).contains(
            BindRequest { transport: Transport::Udp, port: g.crawler_socket_ports[i] },
        ),
        sockets_of(g).contains(BindRequest { transport: Transport::Udp, port: g.utp_port }),
        sockets_of(g).contains(BindRequest { transport: Transport::Tcp, port: g.tcp_pex_port }),
        sockets_of(g).contains(BindRequest { transport: Transport::Tcp, port: g.federation_port }),
        sockets_of(g).contains(BindRequest { transport: Transport::Udp, port: g.federation_port }),
{
    let s = sockets_of(g);
    let n = g.crawler_socket_ports.len() as int;
    assert(s[0] == tcp(g.api_port));
    assert(s[1] == tcp(g.api_monitor_port));
    assert(s[2] == tcp(g.relay_port));
    assert(s[3] == udp(g.dht_listen_port));
    if 0 <= i < n {
        assert(s[4 + i] == udp(g.crawler_socket_ports[i]));
    }
    assert(s[4 + n] == udp(g.utp_port));
    assert(s[5 + n] == tcp(g.tcp_pex_port));
    assert(s[6 + n] == tcp(g.federation_port));
    assert(s[7 + n] == udp(g.federation_port));
}

/// The first two blocks that are tried are those of the usual ports and the one above; the
/// others lie below, a hundred apart.
pub proof fn blocks_are_a_hundred_apart(i: int)
    requires
        0 <= i < 10,
    ensures
        i == 0 ==> group_base(i) == 6880,
        i == 1 ==> group_base(i) == 6980,
        i == 2 ==> group_base(i) == 6080,
        3 <= i ==> group_base(i) == group_base(i - 1) + 100,
        group_base(i) % 100 == 80,
{
}

/// A configuration that was given the ports of a group has these ports and is otherwise as it
/// was.
pub proof fn given_ports_are_configured(g: PortGroupView, c: PdcConfig)
    ensures
        ({
            let d = applied(g, c);
            &&& d.server.port == g.api_port && d.server.api_port == g.api_monitor_port
            &&& d.super_tracker.relay_port == g.relay_port
            &&& d.super_tracker.udp_port == c.super_tracker.udp_port
            &&& d.discoverers.dht_listen_port == g.dht_listen_port
            &&& d.crawler.listen_port == g.crawler_port && d.crawler.utp_port == g.utp_port
            &&& d.crawler.tcp_pex_port == g.tcp_pex_port && d.crawler.enabled == c.crawler.enabled
            &&& d.crawler.socket_count == c.crawler.socket_count
            &&& d.federation.listen_port == g.federation_port && d.federation.api_port == g.api_port
            &&& d.federation.enabled == c.federation.enabled
            &&& d.port_step == c.port_step
        }),
{
}

} // verus!
