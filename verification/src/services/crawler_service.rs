//! Figures of the DHT crawler.

use vstd::prelude::*;

verus! {

/// What the crawler has counted.
#[derive(Debug, Clone, Copy, PartialEq, Eq, Structural)]
pub struct CrawlerState {
    pub requests_sent: u64,
    pub messages_received: u64,
    pub infohashes_collected: u64,
    pub peers_collected: u64,
}

/// The crawler's figures together with the size of its routing table.
#[derive(Debug, Clone, Copy, PartialEq, Eq, Structural)]
pub struct CrawlerStats {
    pub nodes_total: usize,
    pub requests_sent: u64,
    pub responses_received: u64,
    pub infohashes_collected: u64,
    pub peers_collected: u64,
}

/// Puts the figures together.
pub fn stats(state: &CrawlerState, nodes_total: usize) -> (r: CrawlerStats)
    ensures
        r == (CrawlerStats {
            nodes_total,
            requests_sent: state.requests_sent,
            responses_received: state.messages_received,
            infohashes_collected: state.infohashes_collected,
            peers_collected: state.peers_collected,
        }),
{
    CrawlerStats {
        nodes_total,
        requests_sent: state.requests_sent,
        responses_received: state.messages_received,
        infohashes_collected: state.infohashes_collected,
        peers_collected: state.peers_collected,
    }
}

} // verus!
