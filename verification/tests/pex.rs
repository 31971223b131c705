use pdc::pex::client::{PexConfig, PexDiscoverer};
use pdc::services::pex_service::PexService;
use pdc::types::{PeerAddr, PeerInfo};

const SEC: u64 = 1_000_000_000;

fn v4(last: u32, port: u16) -> PeerAddr {
    PeerAddr::V4 { ip: 0x7f00_0000 + last, port }
}

#[test]
fn test_pex_config_default() {
    let config = PexConfig::default();
    assert_eq!(config.max_connected_peers, 50);
    assert!(config.enabled);
}

#[test]
fn test_pex_discoverer_creation() {
    let discoverer = PexDiscoverer::with_default_config();
    assert_eq!(discoverer.name(), "pex");
    assert!(discoverer.is_enabled());
}

#[test]
fn test_add_connected_peer() {
    let mut discoverer = PexDiscoverer::with_default_config();
    let addr = v4(1, 6881);
    discoverer.add_connected_peer(addr, None, 0);
    assert_eq!(discoverer.connected_count(), 1);
    discoverer.remove_connected_peer(&addr);
    assert_eq!(discoverer.connected_count(), 0);
}

#[test]
fn test_add_known_peers() {
    let mut discoverer = PexDiscoverer::with_default_config();
    discoverer.add_known_peers(&[v4(1, 6881), v4(2, 6882)], 0);
    assert_eq!(discoverer.known_count(), 2);
}

#[test]
fn asked_peers_are_left_alone_for_a_while() {
    let mut discoverer = PexDiscoverer::with_default_config();
    discoverer.add_connected_peer(v4(1, 6881), None, 0);
    assert_eq!(discoverer.peers_due_for_pex(0).len(), 1);
    discoverer.discover_peers(10, |_: PeerInfo| false, 0);
    assert!(discoverer.peers_due_for_pex(SEC).is_empty());
    let later = PexConfig::default().pex_request_interval + SEC;
    assert_eq!(discoverer.peers_due_for_pex(later).len(), 1);
}

#[test]
fn expired_peers_are_not_handed_out() {
    let mut discoverer = PexDiscoverer::with_default_config();
    discoverer.add_known_peers(&[v4(1, 6881), v4(2, 6882), v4(3, 6883)], 0);
    let found = discoverer.discover_peers(10, |p: PeerInfo| p.addr.port() == 6882, 0);
    assert_eq!(found.len(), 2);
    assert_eq!(discoverer.known_count(), 2);
    assert_eq!(discoverer.discover_peers(1, |_: PeerInfo| false, 0).len(), 1);
}

#[test]
fn connections_are_capped() {
    let config = PexConfig { max_connected_peers: 1, ..PexConfig::default() };
    let mut discoverer = PexDiscoverer::new(config);
    discoverer.add_connected_peer(v4(1, 1), None, 0);
    discoverer.add_connected_peer(v4(2, 2), None, 0);
    assert_eq!(discoverer.connected_count(), 1);
}

#[test]
fn service_passes_peers_on() {
    let mut service = PexService::new(PexDiscoverer::with_default_config());
    service.add_peer(v4(1, 6881), 0);
    assert_eq!(service.pex().connected_count(), 1);
}
