//! How UDP sockets are set up.

use vstd::prelude::*;

use crate::types::PeerAddr;

verus! {

/// How many bytes the kernel keeps for a socket that were not read yet.
pub const UDP_RECV_BUF_SIZE: usize = 4 * 1024 * 1024;

/// How many bytes the kernel keeps for a socket that were not sent yet.
pub const UDP_SEND_BUF_SIZE: usize = 1024 * 1024;

/// A family of addresses.
#[derive(Debug, Clone, Copy, PartialEq, Eq, Structural)]
pub enum Domain {
    Ipv4,
    Ipv6,
}

/// The family that a socket for an address belongs to.
pub fn domain_for_addr(addr: &PeerAddr) -> (r: Domain)
    ensures
        r == match *addr {
            PeerAddr::V4 { .. } => Domain::Ipv4,
            PeerAddr::V6 { .. } => Domain::Ipv6,
        },
{
    match addr {
        PeerAddr::V4 { .. } => Domain::Ipv4,
        PeerAddr::V6 { .. } => Domain::Ipv6,
    }
}

} // verus!
