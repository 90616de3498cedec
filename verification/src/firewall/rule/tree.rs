//! The tables that rules are filed in, and what they let through.
//!
//! A table maps a port to the authorities a peer must be signed by, those to
//! the peers that are let in, and those to the local addresses they may
//! reach. A packet passes where any path through the tables admits it.

use std::collections::HashMap;

use vstd::prelude::*;

use crate::firewall::identity::PeerIdentity;
use crate::firewall::packet::{Packet, Protocol};
use crate::map::KeyMap;
use crate::net;
use crate::net::{any_contains, IpNet};

verus! {

broadcast use vstd::std_specs::hash::group_hash_axioms;

/// The port under which rules for every port are filed.
pub const PORT_ANY: i32 = 0;

/// The port under which rules for fragments are filed.
pub const PORT_FRAGMENT: i32 = -1;

/// The local addresses that a rule lets a peer reach.
#[derive(Debug)]
pub struct LocalCidr {
    pub any: bool,
    pub nets: Vec<IpNet>,
}

/// The peers that rules let in, each with the local addresses it may reach.
#[derive(Debug)]
pub struct PeerRule {
    pub any: Option<LocalCidr>,
    pub hosts: KeyMap<String, LocalCidr>,
    pub groups: Vec<(Vec<String>, LocalCidr)>,
    pub cidrs: Vec<(IpNet, LocalCidr)>,
}

/// Peer rules by the authority that signed the peer.
#[derive(Debug)]
pub struct CaRule {
    pub any: Option<PeerRule>,
    pub ca_names: KeyMap<String, PeerRule>,
    pub ca_shas: KeyMap<String, PeerRule>,
}

pub type PortTable = HashMap<i32, CaRule>;

/// The tables of one direction, by protocol.
#[derive(Debug)]
pub struct Direction {
    pub tcp: PortTable,
    pub udp: PortTable,
    pub icmp: PortTable,
    pub any_proto: PortTable,
}

/// The rules for both directions.
#[derive(Debug)]
pub struct RuleSet {
    pub inbound: Direction,
    pub outbound: Direction,
}

/// Whether a peer is in every group of a list.
pub open spec fn in_all_groups(groups: Seq<String>, remote: PeerIdentity) -> bool {
    forall|i: int| 0 <= i < groups.len() ==> remote.groups@.contains((#[trigger] groups[i])@)
}

/// The port of a packet that rules are looked up by.
pub open spec fn port_key(packet: Packet, incoming: bool) -> i32 {
    if packet.fragment {
        PORT_FRAGMENT
    } else if incoming {
        packet.local_port as i32
    } else {
        packet.remote_port as i32
    }
}

impl LocalCidr {
    pub open spec fn admits(self, packet: Packet) -> bool {
        self.any || net::any_covers(self.nets@, packet.local_addr)
    }

    pub fn matches(&self, packet: &Packet) -> (r: bool)
        ensures
            r == self.admits(*packet),
    {
        if self.any {
            return true;
        }
        any_contains(&self.nets, &packet.local_addr)
    }
}

/// Whether the entry at `i` lets in a peer that is in all of its groups.
pub open spec fn group_admits(
    groups: Seq<(Vec<String>, LocalCidr)>,
    i: int,
    packet: Packet,
    remote: PeerIdentity,
) -> bool {
    in_all_groups(groups[i].0@, remote) && groups[i].1.admits(packet)
}

/// Whether some entry lets in a peer that is in all of its groups.
pub open spec fn groups_admit(
    groups: Seq<(Vec<String>, LocalCidr)>,
    packet: Packet,
    remote: PeerIdentity,
) -> bool {
    exists|i: int| 0 <= i < groups.len() && #[trigger] group_admits(groups, i, packet, remote)
}

/// Whether the entry for the peer's name lets it in.
pub open spec fn hosts_admit(
    hosts: Map<Seq<char>, LocalCidr>,
    packet: Packet,
    remote: PeerIdentity,
) -> bool {
    hosts.contains_key(remote.name@) && hosts[remote.name@].admits(packet)
}

/// Whether the entry at `i` lets in a peer by the packet's remote address.
pub open spec fn cidr_admits(cidrs: Seq<(IpNet, LocalCidr)>, i: int, packet: Packet) -> bool {
    cidrs[i].0.covers(packet.remote_addr) && cidrs[i].1.admits(packet)
}

/// Whether some entry lets in a peer by the packet's remote address.
pub open spec fn cidrs_admit(cidrs: Seq<(IpNet, LocalCidr)>, packet: Packet) -> bool {
    exists|i: int| 0 <= i < cidrs.len() && #[trigger] cidr_admits(cidrs, i, packet)
}

impl PeerRule {
    pub open spec fn any_admits(self, packet: Packet) -> bool {
        self.any matches Some(lc) && lc.admits(packet)
    }

    /// Whether the peer is let in by name, by its groups, by its address, or
    /// because anyone is, and may reach the packet's local address.
    pub open spec fn admits(self, packet: Packet, remote: PeerIdentity) -> bool {
        ||| self.any_admits(packet)
        ||| groups_admit(self.groups@, packet, remote)
        ||| hosts_admit(self.hosts@, packet, remote)
        ||| cidrs_admit(self.cidrs@, packet)
    }

    pub fn matches(&self, packet: &Packet, remote: &PeerIdentity) -> (r: bool)
        ensures
            r == self.admits(*packet, *remote),
    {
        if let Some(any) = &self.any {
            if any.matches(packet) {
                return true;
            }
        }
        let mut i: usize = 0;
        while i < self.groups.len()
            invariant
                i <= self.groups@.len(),
                forall|j: int| 0 <= j < i ==> !#[trigger] group_admits(self.groups@, j, *packet, *remote),
            decreases self.groups.len() - i,
        {
            let entry = &self.groups[i];
            if has_all_groups(&entry.0, remote) && entry.1.matches(packet) {
                assert(group_admits(self.groups@, i as int, *packet, *remote));
                return true;
            }
            i = i + 1;
        }
        if let Some(local_cidr) = self.hosts.get(&remote.name) {
            if local_cidr.matches(packet) {
                return true;
            }
        }
        let mut k: usize = 0;
        while k < self.cidrs.len()
            invariant
                k <= self.cidrs@.len(),
                forall|j: int| 0 <= j < k ==> !#[trigger] cidr_admits(self.cidrs@, j, *packet),
            decreases self.cidrs.len() - k,
        {
            let entry = &self.cidrs[k];
            if entry.0.contains(&packet.remote_addr) && entry.1.matches(packet) {
                assert(cidr_admits(self.cidrs@, k as int, *packet));
                return true;
            }
            k = k + 1;
        }
        false
    }
}

/// Whether a peer is in every group of a list.
fn has_all_groups(groups: &Vec<String>, remote: &PeerIdentity) -> (r: bool)
    ensures
        r == in_all_groups(groups@, *remote),
{
    let mut i: usize = 0;
    while i < groups.len()
        invariant
            i <= groups@.len(),
            forall|j: int| 0 <= j < i ==> remote.groups@.contains((#[trigger] groups@[j])@),
        decreases groups.len() - i,
    {
        if !remote.groups.contains(&groups[i]) {
            return false;
        }
        i = i + 1;
    }
    true
}

impl CaRule {
    pub open spec fn any_admits(self, packet: Packet, remote: PeerIdentity) -> bool {
        self.any matches Some(pr) && pr.admits(packet, remote)
    }

    pub open spec fn sha_admits(self, packet: Packet, remote: PeerIdentity) -> bool {
        self.ca_shas@.contains_key(remote.ca_sha@) && self.ca_shas@[remote.ca_sha@].admits(
            packet,
            remote,
        )
    }

    pub open spec fn name_admits(self, packet: Packet, remote: PeerIdentity) -> bool {
        self.ca_names@.contains_key(remote.ca_name@) && self.ca_names@[remote.ca_name@].admits(
            packet,
            remote,
        )
    }

    /// Whether the rules for any authority, for the one with the peer's
    /// authority's fingerprint, or for those with its name, let the peer in.
    pub open spec fn admits(self, packet: Packet, remote: PeerIdentity) -> bool {
        ||| self.any_admits(packet, remote)
        ||| self.sha_admits(packet, remote)
        ||| self.name_admits(packet, remote)
    }

    pub fn matches(&self, packet: &Packet, remote: &PeerIdentity) -> (r: bool)
        ensures
            r == self.admits(*packet, *remote),
    {
        if let Some(any) = &self.any {
            if any.matches(packet, remote) {
                return true;
            }
        }
        if let Some(rule) = self.ca_shas.get(&remote.ca_sha) {
            if rule.matches(packet, remote) {
                return true;
            }
        }
        if let Some(rule) = self.ca_names.get(&remote.ca_name) {
            if rule.matches(packet, remote) {
                return true;
            }
        }
        false
    }
}

/// Whether the rules filed under one port let the packet through.
pub open spec fn entry_admits(
    table: Map<i32, CaRule>,
    port: i32,
    packet: Packet,
    remote: PeerIdentity,
) -> bool {
    table.contains_key(port) && table[port].admits(packet, remote)
}

/// Whether the rules for the packet's port, or those for every port, let it
/// through.
pub open spec fn table_admits(
    table: Map<i32, CaRule>,
    packet: Packet,
    incoming: bool,
    remote: PeerIdentity,
) -> bool {
    ||| entry_admits(table, port_key(packet, incoming), packet, remote)
    ||| entry_admits(table, PORT_ANY, packet, remote)
}

pub fn port_table_matches(
    table: &PortTable,
    packet: &Packet,
    incoming: bool,
    remote: &PeerIdentity,
) -> (r: bool)
    ensures
        r == table_admits(table@, *packet, incoming, *remote),
{
    let port: i32 = if packet.fragment {
        PORT_FRAGMENT
    } else if incoming {
        packet.local_port as i32
    } else {
        packet.remote_port as i32
    };
    if let Some(ca) = table.get(&port) {
        if ca.matches(packet, remote) {
            return true;
        }
    }
    if let Some(ca) = table.get(&PORT_ANY) {
        if ca.matches(packet, remote) {
            return true;
        }
    }
    false
}

impl Direction {
    /// The table for packets of a protocol, for those protocols that have one.
    pub open spec fn protocol_table(self, protocol: Protocol) -> Option<Map<i32, CaRule>> {
        match protocol {
            Protocol::Tcp => Some(self.tcp@),
            Protocol::Udp => Some(self.udp@),
            Protocol::Icmp => Some(self.icmp@),
            Protocol::IcmpV6 => Some(self.icmp@),
            Protocol::Any => None,
            Protocol::Other(_) => None,
        }
    }

    pub open spec fn admits(self, packet: Packet, incoming: bool, remote: PeerIdentity) -> bool {
        ||| table_admits(self.any_proto@, packet, incoming, remote)
        ||| (self.protocol_table(packet.protocol) matches Some(t) && table_admits(
            t,
            packet,
            incoming,
            remote,
        ))
    }

    pub fn matches(&self, packet: &Packet, incoming: bool, remote: &PeerIdentity) -> (r: bool)
        ensures
            r == self.admits(*packet, incoming, *remote),
    {
        if port_table_matches(&self.any_proto, packet, incoming, remote) {
            return true;
        }
        match packet.protocol {
            Protocol::Tcp => port_table_matches(&self.tcp, packet, incoming, remote),
            Protocol::Udp => port_table_matches(&self.udp, packet, incoming, remote),
            Protocol::Icmp | Protocol::IcmpV6 => port_table_matches(
                &self.icmp,
                packet,
                incoming,
                remote,
            ),
            Protocol::Any | Protocol::Other(_) => false,
        }
    }
}

impl RuleSet {
    /// The tables of a direction.
    pub open spec fn direction(self, incoming: bool) -> Direction {
        if incoming {
            self.inbound
        } else {
            self.outbound
        }
    }

    pub open spec fn admits(self, packet: Packet, incoming: bool, remote: PeerIdentity) -> bool {
        self.direction(incoming).admits(packet, incoming, remote)
    }

    pub fn matches(&self, packet: &Packet, incoming: bool, remote: &PeerIdentity) -> (r: bool)
        ensures
            r == self.admits(*packet, incoming, *remote),
    {
        let dir = if incoming {
            &self.inbound
        } else {
            &self.outbound
        };
        dir.matches(packet, incoming, remote)
    }
}

impl Default for LocalCidr {
    fn default() -> (r: Self)
        ensures
            !r.any,
            r.nets@ == Seq::<IpNet>::empty(),
    {
        LocalCidr { any: false, nets: Vec::new() }
    }
}

impl Default for PeerRule {
    fn default() -> (r: Self)
        ensures
            r.any is None,
            r.hosts@ == Map::<Seq<char>, LocalCidr>::empty(),
            r.groups@ == Seq::<(Vec<String>, LocalCidr)>::empty(),
            r.cidrs@ == Seq::<(IpNet, LocalCidr)>::empty(),
    {
        PeerRule { any: None, hosts: KeyMap::new(), groups: Vec::new(), cidrs: Vec::new() }
    }
}

impl Default for CaRule {
    fn default() -> (r: Self)
        ensures
            r.any is None,
            r.ca_names@ == Map::<Seq<char>, PeerRule>::empty(),
            r.ca_shas@ == Map::<Seq<char>, PeerRule>::empty(),
    {
        CaRule { any: None, ca_names: KeyMap::new(), ca_shas: KeyMap::new() }
    }
}

impl Default for Direction {
    fn default() -> (r: Self)
        ensures
            r.tcp@ == Map::<i32, CaRule>::empty(),
            r.udp@ == Map::<i32, CaRule>::empty(),
            r.icmp@ == Map::<i32, CaRule>::empty(),
            r.any_proto@ == Map::<i32, CaRule>::empty(),
    {
        Direction {
            tcp: HashMap::new(),
            udp: HashMap::new(),
            icmp: HashMap::new(),
            any_proto: HashMap::new(),
        }
    }
}

impl Default for RuleSet {
    fn default() -> (r: Self)
        ensures
            r.no_rules(),
    {
        RuleSet { inbound: Direction::default(), outbound: Direction::default() }
    }
}

impl RuleSet {
    /// Whether both directions are without a single rule.
    pub open spec fn no_rules(self) -> bool {
        self.inbound.no_rules() && self.outbound.no_rules()
    }
}

impl Direction {
    pub open spec fn no_rules(self) -> bool {
        &&& self.tcp@ == Map::<i32, CaRule>::empty()
        &&& self.udp@ == Map::<i32, CaRule>::empty()
        &&& self.icmp@ == Map::<i32, CaRule>::empty()
        &&& self.any_proto@ == Map::<i32, CaRule>::empty()
    }
}

/// What no rule admits is not admitted: without rules nothing passes.
pub proof fn nothing_passes_without_rules(
    rules: RuleSet,
    packet: Packet,
    incoming: bool,
    remote: PeerIdentity,
)
    requires
        rules.no_rules(),
    ensures
        !rules.admits(packet, incoming, remote),
{
}

} // verus!
