//! NAT traversal: what the node knows of its gateway and port mappings.
//!
//! The NAT layer names the types of NAT; `T` is its name for them.

use crate::text::str_eq;
use std::sync::Arc;
use vstd::prelude::*;

verus! {

/// A port mapping at the gateway.
#[derive(Debug, Clone)]
pub struct PortMapping {
    /// `TCP` or `UDP`.
    pub protocol: String,
    pub internal_port: u16,
    pub external_port: u16,
    /// The gateway confirmed it.
    pub verified: bool,
    /// It was reached from outside.
    pub reachable: bool,
}

/// State of the NAT layer.
#[derive(Debug, Clone)]
pub struct NatStatus<T> {
    pub nat_type: T,
    /// From 0 to 100.
    pub reachability_score: u8,
    pub gateway_healthy: bool,
    pub external_ip: Option<String>,
    pub local_ip: Option<String>,
    pub mappings: Vec<PortMapping>,
}

impl<T> NatStatus<T> {
    /// The score stays within its range.
    pub open spec fn wf(self) -> bool {
        self.reachability_score <= 100
    }
}

/// Settings of the NAT layer.
#[derive(Debug, Clone)]
pub struct NatConfig {
    pub enable_reachability_check: bool,
    pub stun_servers: Vec<String>,
}

/// The NAT layer's last word on its state.
pub struct NatManager<T> {
    pub status: NatStatus<T>,
    pub config: NatConfig,
}

/// A summary of the mappings.
#[derive(Debug, Clone, Copy, PartialEq, Eq)]
pub struct MappingSummary<T> {
    pub total: usize,
    pub tcp_total: usize,
    pub udp_total: usize,
    pub verified: usize,
    pub reachable: usize,
    pub reachability_score: u8,
    pub gateway_healthy: bool,
    pub nat_type: T,
}

/// Why the reachability of a port is not known.
#[derive(Debug, Clone, Copy, PartialEq, Eq, Structural)]
pub enum NoReachability {
    /// The check is switched off.
    Disabled,
    /// No STUN server could be resolved, so nothing can be concluded.
    NoServers,
}

/// What the rest of the node asks of the NAT layer.
pub struct NatService<T> {
    manager: Arc<NatManager<T>>,
}

impl<T> View for NatService<T> {
    type V = NatManager<T>;

    closed spec fn view(&self) -> NatManager<T> {
        *self.manager
    }
}

fn text_of(o: &Option<String>) -> (r: Option<String>)
    ensures
        r is Some <==> o is Some,
        r matches Some(s) ==> s@ == o->0@,
{
    match o {
        Some(s) => Some(s.clone()),
        None => None,
    }
}

/// Number of mappings for which a property holds.
pub open spec fn count_mappings(m: Seq<PortMapping>, p: spec_fn(PortMapping) -> bool) -> nat {
    m.filter(p).len()
}

impl<T> NatService<T> {
    #[verifier::type_invariant]
    spec fn valid(self) -> bool {
        self.manager.status.wf()
    }
}

impl<T: Copy> NatService<T> {
    pub fn new(manager: Arc<NatManager<T>>) -> (r: Self)
        requires
            manager.status.wf(),
        ensures
            r@ == *manager,
    {
        NatService { manager }
    }

    pub fn manager(&self) -> (r: &Arc<NatManager<T>>)
        ensures
            **r == self@,
    {
        &self.manager
    }

    /// The whole state.
    pub fn status(&self) -> (r: &NatStatus<T>)
        ensures
            *r == self@.status,
    {
        &self.manager.status
    }

    /// The type of NAT.
    pub fn nat_type(&self) -> (r: T)
        ensures
            r == self@.status.nat_type,
    {
        self.manager.status.nat_type
    }

    /// How well the node can be reached from outside, from 0 to 100.
    pub fn reachability_score(&self) -> (r: u8)
        ensures
            r == self@.status.reachability_score,
            r <= 100,
    {
        proof {
            use_type_invariant(self);
        }
        self.manager.status.reachability_score
    }

    /// Whether the gateway answers.
    pub fn gateway_healthy(&self) -> (r: bool)
        ensures
            r == self@.status.gateway_healthy,
    {
        self.manager.status.gateway_healthy
    }

    /// The public address.
    pub fn external_ip(&self) -> (r: Option<String>)
        ensures
            r is Some <==> self@.status.external_ip is Some,
            r matches Some(s) ==> s@ == self@.status.external_ip->0@,
    {
        text_of(&self.manager.status.external_ip)
    }

    /// The address on the local network.
    pub fn local_ip(&self) -> (r: Option<String>)
        ensures
            r is Some <==> self@.status.local_ip is Some,
            r matches Some(s) ==> s@ == self@.status.local_ip->0@,
    {
        text_of(&self.manager.status.local_ip)
    }

    /// Number of mappings.
    pub fn active_mappings(&self) -> (r: usize)
        ensures
            r == self@.status.mappings@.len(),
    {
        self.manager.status.mappings.len()
    }

    /// Whether a port can be checked, given how many of the STUN servers could be
    /// resolved.
    pub fn check_conditions(&self, resolved_servers: usize) -> (r: Result<(), NoReachability>)
        ensures
            r == (if !self@.config.enable_reachability_check {
                Err(NoReachability::Disabled)
            } else if resolved_servers == 0 {
                Err(NoReachability::NoServers)
            } else {
                Ok::<(), NoReachability>(())
            }),
    {
        if !self.manager.config.enable_reachability_check {
            return Err(NoReachability::Disabled);
        }
        if resolved_servers == 0 {
            return Err(NoReachability::NoServers);
        }
        Ok(())
    }

    /// Counts the mappings by what holds of them.
    pub fn mapping_summary(&self) -> (r: MappingSummary<T>)
        ensures
            ({
                let m = self@.status.mappings@;
                &&& r.total == m.len()
                &&& r.tcp_total == count_mappings(m, |x: PortMapping| x.protocol@ == "TCP"@)
                &&& r.udp_total == count_mappings(m, |x: PortMapping| x.protocol@ == "UDP"@)
                &&& r.verified == count_mappings(m, |x: PortMapping| x.verified)
                &&& r.reachable == count_mappings(m, |x: PortMapping| x.reachable)
                &&& r.reachability_score == self@.status.reachability_score
                &&& r.reachability_score <= 100
                &&& r.gateway_healthy == self@.status.gateway_healthy
                &&& r.nat_type == self@.status.nat_type
            }),
    {
        proof {
            use_type_invariant(self);
        }
        let status = &self.manager.status;
        let ghost m = status.mappings@;
        let ghost is_tcp = |x: PortMapping| x.protocol@ == "TCP"@;
        let ghost is_udp = |x: PortMapping| x.protocol@ == "UDP"@;
        let ghost is_verified = |x: PortMapping| x.verified;
        let ghost is_reachable = |x: PortMapping| x.reachable;
        let mut tcp_total: usize = 0;
        let mut udp_total: usize = 0;
        let mut verified: usize = 0;
        let mut reachable: usize = 0;
        let mut i: usize = 0;
        while i < status.mappings.len()
            invariant
                0 <= i <= m.len(),
                m == status.mappings@,
                m.len() == status.mappings.len(),
                is_tcp == (|x: PortMapping| x.protocol@ == "TCP"@),
                is_udp == (|x: PortMapping| x.protocol@ == "UDP"@),
                is_verified == (|x: PortMapping| x.verified),
                is_reachable == (|x: PortMapping| x.reachable),
                tcp_total == m.take(i as int).filter(is_tcp).len(),
                udp_total == m.take(i as int).filter(is_udp).len(),
                verified == m.take(i as int).filter(is_verified).len(),
                reachable == m.take(i as int).filter(is_reachable).len(),
                tcp_total <= i,
                udp_total <= i,
                verified <= i,
                reachable <= i,
            decreases m.len() - i,
        {
            proof {
                assert(m.take(i + 1).drop_last() =~= m.take(i as int));
                assert(m.take(i + 1).last() == m[i as int]);
                reveal_with_fuel(Seq::filter, 2);
            }
            let x = &status.mappings[i];
            if str_eq(x.protocol.as_str(), "TCP") {
                tcp_total = tcp_total + 1;
            }
            if str_eq(x.protocol.as_str(), "UDP") {
                udp_total = udp_total + 1;
            }
            if x.verified {
                verified = verified + 1;
            }
            if x.reachable {
                reachable = reachable + 1;
            }
            i = i + 1;
        }
        assert(m.take(i as int) =~= m);
        MappingSummary {
            total: status.mappings.len(),
            tcp_total,
            udp_total,
            verified,
            reachable,
            reachability_score: status.reachability_score,
            gateway_healthy: status.gateway_healthy,
            nat_type: status.nat_type,
        }
    }
}

/// Each mapping counts once, where the property holds of it.
pub proof fn each_mapping_counts_once(
    m: Seq<PortMapping>,
    x: PortMapping,
    p: spec_fn(PortMapping) -> bool,
)
    ensures
        count_mappings(Seq::empty(), p) == 0,
        p(x) ==> count_mappings(m.push(x), p) == count_mappings(m, p) + 1,
        !p(x) ==> count_mappings(m.push(x), p) == count_mappings(m, p),
{
    reveal(Seq::filter);
    assert(m.push(x).drop_last() =~= m);
}

} // verus!
