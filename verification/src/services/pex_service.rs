//! The exchange of peers as the rest of the node sees it.

use vstd::prelude::*;

use crate::pex::client::PexDiscoverer;
use crate::types::PeerAddr;

verus! {

/// The exchange of peers as the rest of the node sees it.
pub struct PexService {
    pub pex: PexDiscoverer,
}

impl PexService {
    /// Wraps an exchange of peers.
    pub fn new(pex: PexDiscoverer) -> (r: Self)
        ensures
            r.pex == pex,
    {
        PexService { pex }
    }

    /// Takes note that a peer of which only the address is known is connected.
    pub fn add_peer(&mut self, addr: PeerAddr, now: u64)
        requires
            old(self).pex.wf(),
        ensures
            final(self).pex.wf(),
            final(self).pex@ == old(self).pex@.joined(addr, None, now),
    {
        self.pex.add_connected_peer(addr, None, now);
    }

    /// The exchange of peers.
    pub fn pex(&self) -> (r: &PexDiscoverer)
        ensures
            *r == self.pex,
    {
        &self.pex
    }
}

} // verus!
