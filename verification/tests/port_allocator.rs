use pdc::config::{
    CrawlerConfig, DiscoverersConfig, FederationConfig, PdcConfig, ServerConfig,
    SuperTrackerConfig,
};
use pdc::port_allocator::{
    bind_plan, build_crawler_socket_ports, offset_group, PortAllocation, PortAllocator, PortGroup,
    Transport,
};

fn config() -> PdcConfig {
    PdcConfig {
        server: ServerConfig { port: 6880, api_port: 6886 },
        super_tracker: SuperTrackerConfig { relay_port: 6881, udp_port: None },
        discoverers: DiscoverersConfig { dht_listen_port: 6880 },
        crawler: CrawlerConfig {
            enabled: true,
            listen_port: 6882,
            socket_count: 1,
            utp_port: 6883,
            tcp_pex_port: 6884,
        },
        federation: FederationConfig {
            enabled: true,
            listen_port: 6885,
            api_port: 6886,
            lpd_multicast_port: 6771,
        },
        port_step: 100,
    }
}

fn test_base_ports(p: u16, socket_count: u16) -> PortGroup {
    PortGroup {
        api_port: p,
        api_monitor_port: p + 6,
        relay_port: p + 1,
        dht_listen_port: p,
        crawler_port: p + 2,
        utp_port: p + 3,
        tcp_pex_port: p + 4,
        federation_port: p + 5,
        crawler_socket_ports: build_crawler_socket_ports(p + 2, socket_count),
    }
}

fn same(a: &PortGroup, b: &PortGroup) -> bool {
    a.api_port == b.api_port
        && a.api_monitor_port == b.api_monitor_port
        && a.relay_port == b.relay_port
        && a.dht_listen_port == b.dht_listen_port
        && a.crawler_port == b.crawler_port
        && a.utp_port == b.utp_port
        && a.tcp_pex_port == b.tcp_pex_port
        && a.federation_port == b.federation_port
        && a.crawler_socket_ports == b.crawler_socket_ports
}

/// Goes through the groups until one has all its ports free.
fn allocate(allocator: &PortAllocator, taken: &[u16]) -> Option<PortAllocation> {
    let mut search = allocator.start_search();
    loop {
        let group = allocator.next_group(&mut search)?;
        if bind_plan(&group.ports).iter().all(|b| !taken.contains(&b.port)) {
            return Some(group);
        }
    }
}

#[test]
fn test_port_group_from_config() {
    let config = config();
    let allocator = PortAllocator::from_config(&config);
    assert_eq!(allocator.base_ports.api_port, config.server.port);
    assert_eq!(allocator.base_ports.api_monitor_port, config.server.api_port);
    assert_eq!(allocator.base_ports.relay_port, config.super_tracker.relay_port);
    assert_eq!(allocator.base_ports.dht_listen_port, config.discoverers.dht_listen_port);
    assert_eq!(allocator.base_ports.crawler_port, config.crawler.listen_port);
    assert_eq!(allocator.base_ports.utp_port, config.crawler.utp_port);
    assert_eq!(allocator.base_ports.tcp_pex_port, config.crawler.tcp_pex_port);
    assert_eq!(allocator.base_ports.federation_port, config.federation.listen_port);
    assert_eq!(allocator.base_ports.crawler_socket_ports.len(), 1);
    assert_eq!(allocator.base_ports.crawler_socket_ports[0], config.crawler.listen_port);
    assert_eq!(allocator.step, config.port_step);
    assert_eq!(allocator.max_attempts, 100);
}

#[test]
fn test_allocate_success() {
    let base = test_base_ports(20000, 1);
    let allocator = PortAllocator::new(base, 100).with_bind_addr("127.0.0.1".to_string());
    let allocation = allocate(&allocator, &[]).expect("all ports are free");
    let expected = allocator.ports_for_group(offset_group(allocation.offset as usize));
    assert!(same(&allocation.ports, &expected.unwrap()));
    let plan = bind_plan(&allocation.ports);
    assert_eq!(plan.iter().filter(|b| matches!(b.transport, Transport::Tcp)).count(), 5);
    assert_eq!(plan.iter().filter(|b| matches!(b.transport, Transport::Udp)).count(), 4);
    assert_eq!(allocation.ports.crawler_socket_ports.len(), 1);
    assert_eq!(allocation.ports.crawler_socket_ports[0], allocation.ports.crawler_port);
}

#[test]
fn a_search_that_failed_stays_at_its_end() {
    let allocator = PortAllocator::new(test_base_ports(20000, 1), 100);
    let mut search = allocator.start_search();
    while allocator.next_group(&mut search).is_some() {}
    let end = search.next;
    assert!(end > 0);
    assert!(allocator.next_group(&mut search).is_none());
    assert_eq!(search.next, end);
}

#[test]
fn test_allocate_with_offset() {
    let base = test_base_ports(20000, 1);
    let allocator = PortAllocator::new(base, 100).with_bind_addr("127.0.0.1".to_string());
    let g0 = allocator.ports_for_group(offset_group(0)).expect("the first group exists");
    let taken: Vec<u16> = bind_plan(&g0).iter().map(|b| b.port).collect();
    let allocation = allocate(&allocator, &taken).expect("another group is free");
    assert!(allocation.offset >= 1);
    let expected = allocator.ports_for_group(offset_group(allocation.offset as usize));
    assert!(same(&allocation.ports, &expected.unwrap()));
}

#[test]
fn test_apply_to_config() {
    let base = test_base_ports(20000, 1);
    let allocator = PortAllocator::new(base, 100).with_bind_addr("127.0.0.1".to_string());
    let allocation = allocate(&allocator, &[]).unwrap();
    let mut config = config();
    allocation.apply_to_config(&mut config);
    assert_eq!(config.server.port, allocation.ports.api_port);
    assert_eq!(config.server.api_port, allocation.ports.api_monitor_port);
    assert_eq!(config.super_tracker.relay_port, allocation.ports.relay_port);
    assert_eq!(config.discoverers.dht_listen_port, allocation.ports.dht_listen_port);
    assert_eq!(config.crawler.listen_port, allocation.ports.crawler_port);
    assert_eq!(config.crawler.utp_port, allocation.ports.utp_port);
    assert_eq!(config.crawler.tcp_pex_port, allocation.ports.tcp_pex_port);
    assert_eq!(config.federation.listen_port, allocation.ports.federation_port);
    assert_eq!(config.federation.api_port, allocation.ports.api_port);
}

#[test]
fn test_max_attempts_exceeded() {
    let base = test_base_ports(20000, 1);
    let allocator = PortAllocator::new(base, 100)
        .with_max_attempts(1)
        .with_bind_addr("127.0.0.1".to_string());
    let g0 = allocator.ports_for_group(offset_group(0)).unwrap();
    let taken: Vec<u16> = bind_plan(&g0).iter().map(|b| b.port).collect();
    assert!(allocate(&allocator, &taken).is_none());
}

#[test]
fn test_socket_count_ports() {
    assert_eq!(build_crawler_socket_ports(6882, 1), vec![6882]);
    assert_eq!(build_crawler_socket_ports(6882, 3), vec![6882, 6802, 6812]);
    let v = build_crawler_socket_ports(6882, 10);
    assert_eq!(v.len(), 10);
    assert_eq!(v[0], 6882);
    assert!(v.contains(&6892));
    assert_eq!(v.iter().filter(|&&x| x == 6882).count(), 1);
    assert_eq!(build_crawler_socket_ports(6882, 99).len(), 10);
}

#[test]
fn groups_keep_their_distances() {
    let allocator = PortAllocator::new(test_base_ports(6880, 1), 100);
    let g = allocator.ports_for_group(26880).unwrap();
    assert_eq!(g.api_port, 26880);
    assert_eq!(g.relay_port, 26881);
    assert_eq!(g.federation_port, 26885);
}
