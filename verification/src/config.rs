//! The part of the node's configuration that the library reads.

use vstd::prelude::*;

verus! {

#[derive(Debug, Clone, Copy, PartialEq, Eq, Structural)]
pub struct ServerConfig {
    pub port: u16,
    pub api_port: u16,
}

#[derive(Debug, Clone, Copy, PartialEq, Eq, Structural)]
pub struct SuperTrackerConfig {
    pub relay_port: u16,
    /// The UDP tracker's port, if it is not the server's.
    pub udp_port: Option<u16>,
}

#[derive(Debug, Clone, Copy, PartialEq, Eq, Structural)]
pub struct DiscoverersConfig {
    pub dht_listen_port: u16,
}

#[derive(Debug, Clone, Copy, PartialEq, Eq, Structural)]
pub struct CrawlerConfig {
    pub enabled: bool,
    pub listen_port: u16,
    pub socket_count: u16,
    pub utp_port: u16,
    pub tcp_pex_port: u16,
}

#[derive(Debug, Clone, Copy, PartialEq, Eq, Structural)]
pub struct FederationConfig {
    pub enabled: bool,
    pub listen_port: u16,
    pub api_port: u16,
    pub lpd_multicast_port: u16,
}

/// Configuration of a node.
#[derive(Debug, Clone, Copy, PartialEq, Eq, Structural)]
pub struct PdcConfig {
    pub server: ServerConfig,
    pub super_tracker: SuperTrackerConfig,
    pub discoverers: DiscoverersConfig,
    pub crawler: CrawlerConfig,
    pub federation: FederationConfig,
    pub port_step: u16,
}

} // verus!
