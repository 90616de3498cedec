//! Which packets are moved between the interface and the tunnels.

use vstd::prelude::*;

use super::identity;
use super::identity::peer_identity;
use crate::firewall;
use crate::firewall::{DropReason, Firewall, FirewallOptions, Packet, PeerIdentity, RuleSet};
use crate::net;
use crate::net::{IpAddr, IpNet};
use crate::protocol::session::PeerInfo;
use crate::time;
use crate::time::Instant;

verus! {

/// What a forwarder is made from.
#[derive(Debug)]
pub struct ListenerConfig {
    pub firewall_rules: RuleSet,
    pub firewall_options: FirewallOptions,
    /// This host's own networks, as its certificate has them.
    pub assigned_networks: Vec<IpNet>,
    pub unsafe_networks: Vec<IpNet>,
    /// The name of the authority that issues all peers' certificates.
    pub ca_name: String,
    /// The fingerprint of that authority.
    pub ca_sha: String,
}

/// The firewall, and what it is told of the authority behind every peer.
#[derive(Debug)]
pub struct Forwarder {
    pub firewall: Firewall,
    pub ca_name: String,
    pub ca_sha: String,
}

/// What is to be done about a packet for a host, before the firewall is asked.
#[derive(Debug, Clone, Copy, PartialEq, Eq, Structural)]
pub enum Step {
    /// There is a tunnel to the host.
    Check,
    /// There is none yet.
    Connect,
    /// There can be none.
    Drop,
}

/// Whether an address is for many hosts: `224.0.0.0/4` or `ff00::/8`.
pub open spec fn spec_is_multicast(ip: IpAddr) -> bool {
    match ip {
        IpAddr::V4(v) => v / 0x1000_0000 == 0xe,
        IpAddr::V6(v) => v / 0x100_0000_0000_0000_0000_0000_0000_0000 == 0xff,
    }
}

pub fn is_multicast(ip: IpAddr) -> (r: bool)
    ensures
        r == spec_is_multicast(ip),
{
    match ip {
        IpAddr::V4(v) => v / 0x1000_0000 == 0xe,
        IpAddr::V6(v) => v / 0x100_0000_0000_0000_0000_0000_0000_0000 == 0xff,
    }
}

/// What is to be done about a packet for `dst`. The system sends packets to
/// multicast addresses on its own account; no peer has such an address, and
/// waiting for one would hold up the packets behind.
pub fn next_step(dst: IpAddr, has_tunnel: bool) -> (r: Step)
    ensures
        r == (if has_tunnel {
            Step::Check
        } else if spec_is_multicast(dst) {
            Step::Drop
        } else {
            Step::Connect
        }),
{
    if has_tunnel {
        Step::Check
    } else if is_multicast(dst) {
        Step::Drop
    } else {
        Step::Connect
    }
}

/// Whether a packet to or from a peer was let pass at some moment, or not.
pub open spec fn is_answered(
    before: Forwarder,
    after: Forwarder,
    packet: Packet,
    incoming: bool,
    info: PeerInfo,
    now: Instant,
    passes: bool,
) -> bool {
    &&& after.ca_name == before.ca_name
    &&& after.ca_sha == before.ca_sha
    &&& exists|remote: PeerIdentity, r: Result<(), DropReason>|
        identity::is_identity(remote, info, before.ca_name@, before.ca_sha@) && #[trigger]
        firewall::evaluates_to(
            before.firewall,
            packet,
            incoming,
            remote,
            now,
            after.firewall,
            r,
        ) && passes == (r is Ok)
}

impl Forwarder {
    /// A forwarder that tracks no flows yet.
    pub fn new(config: ListenerConfig) -> (r: Self)
        ensures
            r.firewall.rules() == config.firewall_rules,
            r.firewall.version() == 0,
            r.firewall.flows() == Map::<Packet, firewall::conntrack::ConnEntry>::empty(),
            r.firewall.spec_options() == config.firewall_options,
            forall|ip: IpAddr| #[trigger]
                r.firewall.routes(ip) == (net::any_at(config.assigned_networks@, ip)
                    || net::any_covers(config.unsafe_networks@, ip)),
            r.ca_name == config.ca_name,
            r.ca_sha == config.ca_sha,
    {
        let firewall = Firewall::new(
            config.firewall_rules,
            config.firewall_options,
            config.assigned_networks,
            config.unsafe_networks,
        );
        Forwarder { firewall, ca_name: config.ca_name, ca_sha: config.ca_sha }
    }

    /// Whether a packet to or from a peer may pass now.
    pub fn passes(&mut self, packet: Packet, incoming: bool, info: &PeerInfo) -> (r: bool)
        requires
            identity::are_sound(info.unsafe_networks@),
        ensures
            exists|now: Instant|
                now.nanos <= time::clock_limit() && old(self).firewall.clock_shows(now)
                    && #[trigger] is_answered(
                    *old(self),
                    *final(self),
                    packet,
                    incoming,
                    *info,
                    now,
                    r,
                ),
    {
        let remote = peer_identity(info, self.ca_name.as_str(), self.ca_sha.as_str());
        let answer = self.firewall.evaluate(packet, incoming, &remote);
        proof {
            let now = choose|now: Instant|
                now.nanos <= time::clock_limit() && old(self).firewall.clock_shows(now)
                    && #[trigger] firewall::evaluates_to(
                    old(self).firewall,
                    packet,
                    incoming,
                    remote,
                    now,
                    self.firewall,
                    answer,
                );
            assert(is_answered(
                *old(self),
                *self,
                packet,
                incoming,
                *info,
                now,
                answer is Ok,
            ));
        }
        answer.is_ok()
    }

    /// Whether a packet to or from a peer may pass at the moment `now`.
    pub fn passes_at(&mut self, packet: Packet, incoming: bool, info: &PeerInfo, now: Instant) -> (r:
        bool)
        requires
            identity::are_sound(info.unsafe_networks@),
            now.nanos + old(self).firewall.spec_options().timeout(packet.protocol).total()
                <= u128::MAX,
        ensures
            is_answered(*old(self), *final(self), packet, incoming, *info, now, r),
    {
        let remote = peer_identity(info, self.ca_name.as_str(), self.ca_sha.as_str());
        let answer = self.firewall.evaluate_at(packet, incoming, &remote, now);
        assert(firewall::evaluates_to(
            old(self).firewall,
            packet,
            incoming,
            remote,
            now,
            self.firewall,
            answer,
        ));
        answer.is_ok()
    }
}

} // verus!
