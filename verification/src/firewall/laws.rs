//! What rules and the firewall do, in terms of what a rule says, what a packet
//! holds and what is known of the peer.

use vstd::multiset::Multiset;
use vstd::prelude::*;

use super::conntrack;
use super::conntrack::ConnEntry;
use super::packet;
use super::rule::builder;
use super::{DropReason, Firewall, LocalCidrSpec, Packet, PeerIdentity, PortSpec, Protocol};
use super::{Rule, RuleError, RuleSet, RuleSetBuilder};
use crate::net::{IpAddr, IpNet};
use crate::time::{Duration, Instant};

verus! {

/// Whether a protocol is the one with an IP protocol number.
pub open spec fn has_number(p: Protocol, number: u8) -> bool {
    match p {
        Protocol::Any => number == 0,
        Protocol::Icmp => number == 1,
        Protocol::Tcp => number == 6,
        Protocol::Udp => number == 17,
        Protocol::IcmpV6 => number == 58,
        Protocol::Other(n) => number == n && n != 0 && n != 1 && n != 6 && n != 17 && n != 58,
    }
}

/// Every number has its protocol, and every protocol that a number has, has
/// that number.
pub proof fn protocols_have_numbers(number: u8, p: Protocol)
    ensures
        has_number(packet::protocol_of(number), number),
        has_number(p, number) ==> packet::protocol_number(p) == number && packet::protocol_of(
            number,
        ) == p,
{
}

/// The port that decides about a packet: this host's for one that comes in,
/// and the peer's for one that goes out.
pub open spec fn service_port(p: Packet, incoming: bool) -> u16 {
    if incoming {
        p.local_port
    } else {
        p.remote_port
    }
}

/// Whether a rule is for a packet's protocol. The two kinds of ICMP go
/// together.
pub open spec fn fits_protocol(rule: Protocol, p: Protocol) -> bool {
    ||| rule == Protocol::Any
    ||| rule == Protocol::Tcp && p == Protocol::Tcp
    ||| rule == Protocol::Udp && p == Protocol::Udp
    ||| (rule == Protocol::Icmp || rule == Protocol::IcmpV6) && (p == Protocol::Icmp || p
        == Protocol::IcmpV6)
}

/// Whether a rule is for a packet's port. Port zero stands for all ports, and
/// rules for ICMP are for all ports.
pub open spec fn fits_port(rule: Rule, p: Packet, incoming: bool) -> bool {
    let port = service_port(p, incoming);
    ||| rule.proto == Protocol::Icmp || rule.proto == Protocol::IcmpV6
    ||| match rule.port {
        PortSpec::Any => true,
        PortSpec::Fragment => p.fragment,
        PortSpec::Single(n) => n == 0 || (!p.fragment && port == n),
        PortSpec::Range(first, last) => first == 0 || (!p.fragment && first <= port && port
            <= last),
    }
}

/// Whether a rule is for the authority behind a peer: it names none, or this
/// one's fingerprint, or its name.
pub open spec fn fits_authority(rule: Rule, remote: PeerIdentity) -> bool {
    match (rule.ca_sha, rule.ca_name) {
        (None, None) => true,
        (Some(sha), None) => sha@ == remote.ca_sha@,
        (None, Some(name)) => name@ == remote.ca_name@,
        (Some(sha), Some(name)) => sha@ == remote.ca_sha@ || name@ == remote.ca_name@,
    }
}

/// Whether a rule is for a peer: it names nobody, or everybody, or groups all
/// of which the peer is in, or the peer's name, or a network that the peer's
/// address lies in.
pub open spec fn fits_peer(rule: Rule, p: Packet, remote: PeerIdentity) -> bool {
    ||| rule.groups@.len() == 0 && rule.host is None && rule.cidr is None
    ||| exists|i: int| 0 <= i < rule.groups@.len() && (#[trigger] rule.groups@[i])@ == "any"@
    ||| rule.groups@.len() > 0 && forall|i: int|
        0 <= i < rule.groups@.len() ==> remote.groups@.contains((#[trigger] rule.groups@[i])@)
    ||| match rule.host {
        Some(host) => host@ == "any"@ || host@ == remote.name@,
        None => false,
    }
    ||| match rule.cidr {
        Some(net) => net.covers(p.remote_addr),
        None => false,
    }
}

/// Whether a rule lets peers reach a packet's local address.
pub open spec fn fits_local_address(rule: Rule, p: Packet, by_default: bool) -> bool {
    match rule.local_cidr {
        LocalCidrSpec::Any => true,
        LocalCidrSpec::Net(net) => net.covers(p.local_addr),
        LocalCidrSpec::Unset => by_default,
    }
}

/// Filing a rule takes nothing away, and adds exactly the packets that the
/// rule is for: by direction, protocol, port, authority, peer and local
/// address.
pub proof fn filed_rule_admits_what_it_is_for(
    before: RuleSetBuilder,
    rule: Rule,
    after: RuleSetBuilder,
    p: Packet,
    incoming: bool,
    remote: PeerIdentity,
)
    requires
        builder::files(before, rule, Ok(()), after),
    ensures
        after.rules().admits(p, incoming, remote) <==> before.rules().admits(p, incoming, remote)
            || (rule.incoming == incoming && fits_protocol(rule.proto, p.protocol) && fits_port(
            rule,
            p,
            incoming,
        ) && fits_authority(rule, remote) && fits_peer(rule, p, remote) && fits_local_address(
            rule,
            p,
            before.unset_admits(p),
        )),
        after.unset_admits(p) == before.unset_admits(p),
{
}

/// A rule for a range of TCP or UDP ports, and for nothing narrower, admits
/// the packets to those ports, and no others unless the range starts at zero,
/// which stands for all ports.
pub proof fn range_rule_admits_its_ports(
    before: RuleSetBuilder,
    rule: Rule,
    first: u16,
    last: u16,
    after: RuleSetBuilder,
    p: Packet,
    remote: PeerIdentity,
)
    requires
        before.rules().no_rules(),
        rule.port == PortSpec::Range(first, last),
        first <= last,
        rule.proto == Protocol::Tcp || rule.proto == Protocol::Udp,
        rule.groups@.len() == 0,
        rule.host is None,
        rule.cidr is None,
        rule.local_cidr == LocalCidrSpec::Any,
        rule.ca_name is None,
        rule.ca_sha is None,
        builder::files(before, rule, Ok(()), after),
        p.protocol == rule.proto,
        !p.fragment,
    ensures
        ({
            let port = if rule.incoming {
                p.local_port
            } else {
                p.remote_port
            };
            &&& first <= port && port <= last ==> after.rules().admits(p, rule.incoming, remote)
            &&& first > 0 && after.rules().admits(p, rule.incoming, remote) ==> first <= port
                && port <= last
        }),
{
}

/// A rule is refused for a range that ends before it starts, and otherwise for
/// a protocol that rules cannot be for; every other rule is filed. A refused
/// rule changes nothing.
pub proof fn bad_rules_are_refused(
    before: RuleSetBuilder,
    rule: Rule,
    r: Result<(), RuleError>,
    after: RuleSetBuilder,
)
    requires
        builder::files(before, rule, r, after),
    ensures
        match (rule.port, rule.proto) {
            (PortSpec::Range(first, last), Protocol::Other(n)) => if last < first {
                r == Err::<(), RuleError>(RuleError::InvalidPortRange { start: first, end: last })
            } else {
                r == Err::<(), RuleError>(RuleError::UnknownProtocol(Protocol::Other(n)))
            },
            (PortSpec::Range(first, last), _) => if last < first {
                r == Err::<(), RuleError>(RuleError::InvalidPortRange { start: first, end: last })
            } else {
                r == Ok::<(), RuleError>(())
            },
            (_, Protocol::Other(n)) => r == Err::<(), RuleError>(
                RuleError::UnknownProtocol(Protocol::Other(n)),
            ),
            _ => r == Ok::<(), RuleError>(()),
        },
        r is Err ==> after == before,
{
}

/// The warnings that a filed rule adds, in order: a port on an ICMP rule; the
/// word for everybody among several groups; a host that is everybody beside
/// groups, or beside a network; groups with everybody beside a host, or
/// beside a network.
pub proof fn doubtful_rules_are_warned_about(
    before: RuleSetBuilder,
    rule: Rule,
    after: RuleSetBuilder,
)
    requires
        builder::files(before, rule, Ok(()), after),
    ensures
        ({
            let incoming = rule.incoming;
            let groups = Seq::new(rule.groups@.len(), |i: int| rule.groups@[i]@);
            let everybody = exists|i: int| 0 <= i < groups.len() && #[trigger] groups[i] == "any"@;
            let any_host = rule.host matches Some(h) && h@ == "any"@;
            let nothing = Seq::<builder::RuleWarningView>::empty();
            let w0 = if (rule.proto == Protocol::Icmp || rule.proto == Protocol::IcmpV6)
                && rule.port != PortSpec::Any {
                seq![builder::RuleWarningView::IcmpPortIgnored { incoming, port: rule.port }]
            } else {
                nothing
            };
            let w1 = if everybody && groups.len() >= 2 {
                seq![builder::RuleWarningView::GroupsShadowedByAny { incoming }]
            } else {
                nothing
            };
            let w2 = if any_host && groups.len() >= 1 {
                seq![builder::RuleWarningView::HostAnyShadowsGroups { incoming, groups }]
            } else {
                nothing
            };
            let w3 = match rule.cidr {
                Some(cidr) if any_host => seq![
                    builder::RuleWarningView::HostAnyShadowsCidr { incoming, cidr },
                ],
                _ => nothing,
            };
            let w4 = match rule.host {
                Some(host) if everybody && !any_host => seq![
                    builder::RuleWarningView::GroupsAnyShadowsHost { incoming, host: host@ },
                ],
                _ => nothing,
            };
            let w5 = match rule.cidr {
                Some(cidr) if everybody => seq![
                    builder::RuleWarningView::GroupsAnyShadowsCidr { incoming, cidr },
                ],
                _ => nothing,
            };
            after.cautions() == before.cautions() + w0 + w1 + w2 + w3 + w4 + w5
        }),
{
    let groups = Seq::new(rule.groups@.len(), |i: int| rule.groups@[i]@);
    assert(groups =~= builder::texts(rule.groups@));
    assert((exists|i: int| 0 <= i < groups.len() && #[trigger] groups[i] == "any"@)
        == builder::has_any_word(rule.groups@)) by {
        if exists|i: int| 0 <= i < groups.len() && #[trigger] groups[i] == "any"@ {
            let i = choose|i: int| 0 <= i < groups.len() && #[trigger] groups[i] == "any"@;
            assert(builder::is_any_word(rule.groups@[i]@));
        }
        if builder::has_any_word(rule.groups@) {
            let i = choose|i: int|
                0 <= i < rule.groups@.len() && builder::is_any_word(
                    (#[trigger] rule.groups@[i])@,
                );
            assert(groups[i] == "any"@);
        }
    }
}

/// A peer owns the addresses it was assigned and whatever lies in the networks
/// behind it.
pub proof fn peer_owns_exactly_its_addresses(id: PeerIdentity, addr: IpAddr)
    ensures
        id.spec_owns(addr) <==> (exists|i: int|
            0 <= i < id.vpn_networks@.len() && (#[trigger] id.vpn_networks@[i]).spec_addr() == addr)
            || (exists|i: int|
            0 <= i < id.unsafe_networks@.len() && (#[trigger] id.unsafe_networks@[i]).covers(addr)),
{
}

/// How long a flow may be silent, in nanoseconds.
pub open spec fn silence_allowed(fw: Firewall, p: Packet) -> int {
    let d: Duration = if p.protocol == Protocol::Tcp {
        fw.spec_options().tcp_timeout
    } else if p.protocol == Protocol::Udp {
        fw.spec_options().udp_timeout
    } else {
        fw.spec_options().default_timeout
    };
    1_000_000_000 * d.secs + d.nanos
}

/// A packet of a flow that is not tracked, or no longer, is dropped if its
/// remote address is not the peer's, otherwise if its local address is not
/// handled, and otherwise if no rule admits it. If it is not dropped, its flow
/// is tracked from then on, in the packet's direction, for as long as its
/// protocol may be silent.
pub proof fn untracked_packet_is_judged(
    before: Firewall,
    p: Packet,
    incoming: bool,
    remote: PeerIdentity,
    now: Instant,
    after: Firewall,
    r: Result<(), DropReason>,
)
    requires
        before.flows().contains_key(p) ==> before.flows()[p].expires.nanos <= now.nanos,
        now.nanos + silence_allowed(before, p) <= u128::MAX,
        super::evaluates_to(before, p, incoming, remote, now, after, r),
    ensures
        ({
            let owned = (exists|i: int|
                0 <= i < remote.vpn_networks@.len() && (#[trigger] remote.vpn_networks@[i]).spec_addr()
                    == p.remote_addr) || (exists|i: int|
                0 <= i < remote.unsafe_networks@.len()
                    && (#[trigger] remote.unsafe_networks@[i]).covers(p.remote_addr));
            let handled = before.routes(p.local_addr);
            let allowed = before.rules().admits(p, incoming, remote);
            &&& r == Err::<(), DropReason>(DropReason::InvalidRemoteIp) <==> !owned
            &&& r == Err::<(), DropReason>(DropReason::InvalidLocalIp) <==> owned && !handled
            &&& r == Err::<(), DropReason>(DropReason::NoMatchingRule) <==> owned && handled
                && !allowed
            &&& r == Ok::<(), DropReason>(()) <==> owned && handled && allowed
        }),
        after.flows().contains_key(p) <==> r is Ok,
        r is Ok ==> after.flows()[p].incoming == incoming && after.flows()[p].rules_version
            == before.version() && after.flows()[p].expires.nanos == now.nanos + silence_allowed(
            before,
            p,
        ),
{
}

/// Asking about a packet leaves the rules and the settings as they are, and
/// every other flow that has not expired.
pub proof fn other_flows_are_left_alone(
    before: Firewall,
    p: Packet,
    incoming: bool,
    remote: PeerIdentity,
    now: Instant,
    after: Firewall,
    r: Result<(), DropReason>,
    other: Packet,
)
    requires
        other != p,
        super::evaluates_to(before, p, incoming, remote, now, after, r),
    ensures
        after.flows().contains_key(other) <==> before.flows().contains_key(other)
            && now.nanos < before.flows()[other].expires.nanos,
        after.flows().contains_key(other) ==> after.flows()[other] == before.flows()[other],
        after.rules() == before.rules(),
        after.version() == before.version(),
        after.spec_options() == before.spec_options(),
        after.routes(other.local_addr) == before.routes(other.local_addr),
{
}

/// A flow that is tracked passes, if the rules have not been replaced since it
/// was last let through, and is tracked on in its direction for as long as its
/// protocol may be silent.
pub proof fn tracked_packet_passes(
    before: Firewall,
    p: Packet,
    incoming: bool,
    remote: PeerIdentity,
    now: Instant,
    after: Firewall,
    r: Result<(), DropReason>,
)
    requires
        before.flows().contains_key(p),
        now.nanos < before.flows()[p].expires.nanos,
        before.flows()[p].rules_version == before.version(),
        now.nanos + silence_allowed(before, p) <= u128::MAX,
        super::evaluates_to(before, p, incoming, remote, now, after, r),
    ensures
        r == Ok::<(), DropReason>(()),
        after.flows().contains_key(p),
        after.flows()[p].incoming == before.flows()[p].incoming,
        after.flows()[p].rules_version == before.version(),
        after.flows()[p].expires.nanos == now.nanos + silence_allowed(before, p),
{
}

/// What has expired is dropped, and what has not stays as it is.
pub proof fn purging_drops_what_has_expired(
    flows: Map<Packet, ConnEntry>,
    now: Instant,
    p: Packet,
)
    ensures
        conntrack::purged(flows, now).contains_key(p) <==> flows.contains_key(p) && now.nanos
            < flows[p].expires.nanos,
        conntrack::purged(flows, now).contains_key(p) ==> conntrack::purged(flows, now)[p]
            == flows[p],
{
}

/// A network covers the addresses of its family from a multiple of its size up
/// to the next, its own among them.
pub proof fn network_is_a_range_of_addresses(net: IpNet, ip: IpAddr)
    requires
        net.spec_prefix_len() as nat <= net.spec_addr().bits(),
    ensures
        match (net.spec_addr(), ip) {
            (IpAddr::V4(a), IpAddr::V4(b)) => net.covers(ip) <==> same_block(
                a as int,
                b as int,
                vstd::arithmetic::power2::pow2((32 - net.spec_prefix_len()) as nat) as int,
            ),
            (IpAddr::V6(a), IpAddr::V6(b)) => net.covers(ip) <==> same_block(
                a as int,
                b as int,
                vstd::arithmetic::power2::pow2((128 - net.spec_prefix_len()) as nat) as int,
            ),
            _ => !net.covers(ip),
        },
        net.covers(net.spec_addr()),
{
    let h = (ip.bits() - net.spec_prefix_len()) as nat;
    if net.spec_addr().bits() == ip.bits() {
        vstd::arithmetic::power2::lemma_pow2_pos(h);
        lemma_same_block(
            net.spec_addr().value() as int,
            ip.value() as int,
            vstd::arithmetic::power2::pow2(h) as int,
        );
    }
}

/// Whether two numbers lie between the same two neighbouring multiples of a
/// size.
pub open spec fn same_block(a: int, b: int, size: int) -> bool {
    a - a % size <= b < a - a % size + size
}

proof fn lemma_same_block(a: int, b: int, size: int)
    requires
        size > 0,
    ensures
        same_block(a, b, size) <==> a / size == b / size,
{
    vstd::arithmetic::div_mod::lemma_fundamental_div_mod(a, size);
    vstd::arithmetic::div_mod::lemma_fundamental_div_mod(b, size);
    vstd::arithmetic::div_mod::lemma_mod_bound(a, size);
    vstd::arithmetic::div_mod::lemma_mod_bound(b, size);
    let (x, y) = (a / size, b / size);
    if same_block(a, b, size) {
        if x < y {
            assert(size * y >= size * x + size) by (nonlinear_arith)
                requires
                    x < y,
                    size > 0,
            ;
        } else if y < x {
            assert(size * x >= size * y + size) by (nonlinear_arith)
                requires
                    y < x,
                    size > 0,
            ;
        }
    }
}

/// A packet of a tracked flow that older rules let through passes if the rules
/// in force admit the flow in the direction it was first seen in, and keeps
/// that direction. Otherwise it is judged like that of a flow that is not
/// tracked. Either way it is tracked on under the rules in force, for as long
/// as its protocol may be silent, or forgotten if it is dropped.
pub proof fn stale_packet_is_judged_by_the_rules_in_force(
    before: Firewall,
    p: Packet,
    incoming: bool,
    remote: PeerIdentity,
    now: Instant,
    after: Firewall,
    r: Result<(), DropReason>,
)
    requires
        before.flows().contains_key(p),
        now.nanos < before.flows()[p].expires.nanos,
        before.flows()[p].rules_version != before.version(),
        now.nanos + silence_allowed(before, p) <= u128::MAX,
        super::evaluates_to(before, p, incoming, remote, now, after, r),
    ensures
        ({
            let direction = before.flows()[p].incoming;
            let still = before.rules().admits(p, direction, remote);
            let owned = (exists|i: int|
                0 <= i < remote.vpn_networks@.len() && (#[trigger] remote.vpn_networks@[i]).spec_addr()
                    == p.remote_addr) || (exists|i: int|
                0 <= i < remote.unsafe_networks@.len()
                    && (#[trigger] remote.unsafe_networks@[i]).covers(p.remote_addr));
            let handled = before.routes(p.local_addr);
            let allowed = before.rules().admits(p, incoming, remote);
            &&& r == Ok::<(), DropReason>(()) <==> still || (owned && handled && allowed)
            &&& r == Err::<(), DropReason>(DropReason::InvalidRemoteIp) <==> !still && !owned
            &&& r == Err::<(), DropReason>(DropReason::InvalidLocalIp) <==> !still && owned
                && !handled
            &&& r == Err::<(), DropReason>(DropReason::NoMatchingRule) <==> !still && owned
                && handled && !allowed
            &&& after.flows().contains_key(p) <==> r is Ok
            &&& r is Ok ==> after.flows()[p].incoming == (if still {
                direction
            } else {
                incoming
            })
            &&& r is Ok ==> after.flows()[p].rules_version == before.version()
                && after.flows()[p].expires.nanos == now.nanos + silence_allowed(before, p)
        }),
{
}

/// Replacing the rules leaves everything else as it is, but gives the rules the
/// next version. When there is no next one, all flows are forgotten and the
/// versions start anew.
pub proof fn reloading_replaces_the_rules_alone(
    before: Firewall,
    rules: RuleSet,
    after: Firewall,
    ip: IpAddr,
)
    requires
        super::reloads_to(before, rules, after),
    ensures
        after.rules() == rules,
        after.spec_options() == before.spec_options(),
        after.routes(ip) == before.routes(ip),
        before.version() < u64::MAX ==> after.version() == before.version() + 1 && after.flows()
            == before.flows(),
        before.version() == u64::MAX ==> after.version() == 0 && after.flows() == Map::<
            Packet,
            ConnEntry,
        >::empty(),
{
}

/// Purging leaves no slot that has come up. A flow that lives on gets as many
/// slots at its expiry as slots of it have come up, and all other slots stay.
pub proof fn purging_moves_slots_to_the_expiry(
    flows: Map<Packet, ConnEntry>,
    slots: Multiset<conntrack::Slot>,
    now: Instant,
    at: Instant,
    p: Packet,
    due: spec_fn(conntrack::Slot) -> bool,
)
    requires
        forall|s: conntrack::Slot| #[trigger] due(s) <==> s.0.nanos <= now.nanos && s.1 == p,
    ensures
        at.nanos <= now.nanos ==> conntrack::rescheduled(flows, slots, now, (at, p)) == 0,
        at.nanos > now.nanos && flows.contains_key(p) && flows[p].expires == at
            ==> conntrack::rescheduled(flows, slots, now, (at, p)) == slots.count((at, p))
            + slots.filter(due).len(),
        at.nanos > now.nanos && !(flows.contains_key(p) && flows[p].expires == at)
            ==> conntrack::rescheduled(flows, slots, now, (at, p)) == slots.count((at, p)),
{
    assert(due =~= conntrack::is_due(p, now));
}

} // verus!
