//! The firewall: which packets may pass between this host and a peer.
//!
//! Build a [`RuleSet`] with a [`RuleSetBuilder`], make a [`Firewall`] from
//! it, and ask [`Firewall::evaluate`] about each decrypted packet, with what
//! is known of the peer it comes from or goes to.

use vstd::prelude::*;

pub mod conntrack;
pub mod identity;
pub mod laws;
pub mod packet;
pub mod rule;

pub use identity::{PeerIdentity, StringSet};
pub use packet::{Packet, Protocol};
pub use rule::{LocalCidrSpec, PortSpec, Rule, RuleError, RuleSet, RuleSetBuilder, RuleWarning};

use crate::net;
use crate::net::{any_contains, IpAddr, IpNet};
use crate::time;
use crate::time::{Clock, Duration, Instant};
use conntrack::{ConnEntry, Conntrack};

verus! {

#[derive(Clone, Copy, Debug)]
pub struct FirewallOptions {
    pub tcp_timeout: Duration,
    pub udp_timeout: Duration,
    pub default_timeout: Duration,
    pub in_send_reject: bool,
    pub out_send_reject: bool,
    pub default_local_cidr_any: bool,
}

/// Why a packet is dropped.
#[derive(Clone, Copy, PartialEq, Eq, Debug, Structural)]
pub enum DropReason {
    /// The local address is not one this host handles.
    InvalidLocalIp,
    /// The remote address is not in the networks of the peer's certificate.
    InvalidRemoteIp,
    /// No rule lets the packet through.
    NoMatchingRule,
}

#[derive(Debug)]
pub struct Firewall {
    rules: RuleSet,
    version: u64,
    conntrack: Conntrack,
    options: FirewallOptions,
    routable_networks: Vec<IpNet>,
    clock: Clock,
}

impl FirewallOptions {
    /// How long a flow of a protocol may be silent.
    pub open spec fn timeout(self, protocol: Protocol) -> Duration {
        match protocol {
            Protocol::Tcp => self.tcp_timeout,
            Protocol::Udp => self.udp_timeout,
            _ => self.default_timeout,
        }
    }
}

/// The answer for a packet of a flow that is not tracked.
pub open spec fn verdict(
    fw: Firewall,
    packet: Packet,
    incoming: bool,
    remote: PeerIdentity,
) -> Result<(), DropReason> {
    if !remote.spec_owns(packet.remote_addr) {
        Err(DropReason::InvalidRemoteIp)
    } else if !fw.routes(packet.local_addr) {
        Err(DropReason::InvalidLocalIp)
    } else if !fw.rules().admits(packet, incoming, remote) {
        Err(DropReason::NoMatchingRule)
    } else {
        Ok(())
    }
}

/// The flows that are tracked and have not expired at `now`.
pub open spec fn live(fw: Firewall, now: Instant) -> Map<Packet, ConnEntry> {
    conntrack::purged(fw.flows(), now)
}

/// Whether a packet passes because its flow is tracked: the rules that let
/// the flow through are still in force, or those now in force would let it
/// through in the direction it was first seen in.
pub open spec fn passes_as_tracked(
    fw: Firewall,
    packet: Packet,
    remote: PeerIdentity,
    now: Instant,
) -> bool {
    let conns = live(fw, now);
    conns.contains_key(packet) && (conns[packet].rules_version == fw.version()
        || fw.rules().admits(packet, conns[packet].incoming, remote))
}

/// The entry that a flow is tracked by once a packet of it has passed.
pub open spec fn entry_for(
    fw: Firewall,
    packet: Packet,
    incoming: bool,
    now: Instant,
) -> ConnEntry {
    ConnEntry {
        expires: Instant {
            nanos: (now.nanos + fw.spec_options().timeout(packet.protocol).total()) as u128,
        },
        incoming,
        rules_version: fw.version(),
    }
}

/// What evaluating a packet at `now` gives and leaves behind.
pub open spec fn evaluates_to(
    before: Firewall,
    packet: Packet,
    incoming: bool,
    remote: PeerIdentity,
    now: Instant,
    after: Firewall,
    r: Result<(), DropReason>,
) -> bool {
    let conns = live(before, now);
    let known = passes_as_tracked(before, packet, remote, now);
    let fresh = verdict(before, packet, incoming, remote);
    &&& r == (if known {
        Ok(())
    } else {
        fresh
    })
    &&& after.flows() == (if known {
        conns.insert(packet, entry_for(before, packet, conns[packet].incoming, now))
    } else if fresh is Ok {
        conns.insert(packet, entry_for(before, packet, incoming, now))
    } else {
        conns.remove(packet)
    })
    &&& after.same_settings(before)
}

/// What replacing the rules leaves behind. Flows that are tracked stay so. The
/// one exception is the reload at which the versions run out: it forgets all
/// flows, and the versions start anew.
pub open spec fn reloads_to(before: Firewall, rules: RuleSet, after: Firewall) -> bool {
    &&& after.rules() == rules
    &&& after.version() == (if before.version() < u64::MAX {
        before.version() + 1
    } else {
        0
    })
    &&& after.flows() == (if before.version() < u64::MAX {
        before.flows()
    } else {
        Map::<Packet, ConnEntry>::empty()
    })
    &&& after.spec_options() == before.spec_options()
    &&& forall|ip: IpAddr| #[trigger] after.routes(ip) == before.routes(ip)
}

impl Firewall {
    /// The rules in force.
    pub closed spec fn rules(self) -> RuleSet {
        self.rules
    }

    /// The version of the rules in force: how often they have been replaced
    /// since the versions last started anew.
    pub closed spec fn version(self) -> u64 {
        self.version
    }

    /// The flows that are tracked.
    pub closed spec fn flows(self) -> Map<Packet, ConnEntry> {
        self.conntrack.conns()
    }

    /// Whether no flow was let through by rules that are yet to come.
    pub open spec fn is_current(self) -> bool {
        forall|p: Packet| #[trigger]
            self.flows().contains_key(p) ==> self.flows()[p].rules_version <= self.version()
    }

    #[verifier::type_invariant]
    spec fn inv(self) -> bool {
        self.is_current()
    }

    pub closed spec fn spec_options(self) -> FirewallOptions {
        self.options
    }

    /// Whether a moment is one that the machine gave for this firewall's clock.
    pub closed spec fn clock_shows(self, now: Instant) -> bool {
        self.clock.shows(now)
    }

    /// Whether packets for the local address `ip` are handled.
    pub closed spec fn routes(self, ip: IpAddr) -> bool {
        net::any_covers(self.routable_networks@, ip)
    }

    /// Whether the rules, the options and the local addresses are those of
    /// another firewall.
    pub open spec fn same_settings(self, other: Firewall) -> bool {
        &&& self.rules() == other.rules()
        &&& self.version() == other.version()
        &&& self.spec_options() == other.spec_options()
        &&& forall|ip: IpAddr| #[trigger] self.routes(ip) == other.routes(ip)
    }

    /// A firewall for a host with the given networks. Of an assigned network
    /// only the host's own address is handled, however short the prefix;
    /// unsafe networks are handled whole.
    pub fn new(
        rules: RuleSet,
        options: FirewallOptions,
        assigned_networks: Vec<IpNet>,
        unsafe_networks: Vec<IpNet>,
    ) -> (r: Self)
        ensures
            r.rules() == rules,
            r.version() == 0,
            r.flows() == Map::<Packet, ConnEntry>::empty(),
            r.spec_options() == options,
            forall|ip: IpAddr| #[trigger]
                r.routes(ip) == (net::any_at(assigned_networks@, ip) || net::any_covers(
                    unsafe_networks@,
                    ip,
                )),
    {
        let mut routable_networks: Vec<IpNet> = Vec::new();
        let mut i: usize = 0;
        while i < assigned_networks.len()
            invariant
                i <= assigned_networks@.len(),
                routable_networks@.len() == i,
                forall|j: int|
                    #![trigger routable_networks@[j]]
                    0 <= j < i ==> routable_networks@[j].spec_addr()
                        == assigned_networks@[j].spec_addr()
                        && routable_networks@[j].spec_prefix_len() as nat
                        == assigned_networks@[j].spec_addr().bits(),
            decreases assigned_networks.len() - i,
        {
            routable_networks.push(IpNet::host_route(assigned_networks[i].addr()));
            i = i + 1;
        }
        let ghost hosts = routable_networks@;
        let mut k: usize = 0;
        while k < unsafe_networks.len()
            invariant
                k <= unsafe_networks@.len(),
                routable_networks@ == hosts + unsafe_networks@.take(k as int),
            decreases unsafe_networks.len() - k,
        {
            routable_networks.push(unsafe_networks[k]);
            proof {
                assert(unsafe_networks@.take(k + 1) =~= unsafe_networks@.take(k as int).push(
                    unsafe_networks@[k as int],
                ));
            }
            k = k + 1;
        }
        proof {
            assert(unsafe_networks@.take(k as int) =~= unsafe_networks@);
            lemma_routes(hosts, assigned_networks@, unsafe_networks@);
        }
        Firewall {
            rules,
            version: 0,
            conntrack: Conntrack::new(),
            options,
            routable_networks,
            clock: Clock::start(),
        }
    }

    /// Puts other rules in force. Flows that are tracked stay so, and are
    /// held against the new rules when their next packet comes: none of them
    /// was let through by rules of the new version.
    pub fn reload(&mut self, rules: RuleSet)
        ensures
            reloads_to(*old(self), rules, *final(self)),
            forall|p: Packet|
                final(self).flows().contains_key(p)
                    ==> #[trigger] final(self).flows()[p].rules_version != final(self).version(),
            final(self).is_current(),
    {
        proof {
            use_type_invariant(&*self);
        }
        if self.version < u64::MAX {
            let ghost flows = self.conntrack.conns();
            assert forall|p: Packet| #[trigger] flows.contains_key(p) implies flows[p].rules_version
                <= self.version by {
                assert(self.flows().contains_key(p));
            }
            self.version = self.version + 1;
        } else {
            self.conntrack = Conntrack::new();
            self.version = 0;
        }
        self.rules = rules;
    }

    pub fn options(&self) -> (r: &FirewallOptions)
        ensures
            *r == self.spec_options(),
    {
        &self.options
    }

    /// Whether a packet may pass now. A packet of a tracked flow passes
    /// while the rules that let the flow through, or those in force since,
    /// do; any other packet is held against the peer's networks, this host's
    /// addresses and the rules, in that order, and if it passes its flow is
    /// tracked.
    pub fn evaluate(&mut self, packet: Packet, incoming: bool, remote: &PeerIdentity) -> (r: Result<
        (),
        DropReason,
    >)
        ensures
            exists|now: Instant|
                now.nanos <= time::clock_limit() && old(self).clock_shows(now)
                    && #[trigger] evaluates_to(
                    *old(self),
                    packet,
                    incoming,
                    *remote,
                    now,
                    *final(self),
                    r,
                ),
            final(self).is_current(),
    {
        let now = self.clock.now();
        self.evaluate_at(packet, incoming, remote, now)
    }

    /// Whether a packet may pass at the moment `now`.
    pub fn evaluate_at(
        &mut self,
        packet: Packet,
        incoming: bool,
        remote: &PeerIdentity,
        now: Instant,
    ) -> (r: Result<(), DropReason>)
        requires
            now.nanos + old(self).spec_options().timeout(packet.protocol).total() <= u128::MAX,
        ensures
            evaluates_to(*old(self), packet, incoming, *remote, now, *final(self), r),
            final(self).is_current(),
    {
        proof {
            use_type_invariant(&*self);
        }
        let timeout = self.timeout_for(packet.protocol);
        let mut conntrack = Conntrack::new();
        std::mem::swap(&mut conntrack, &mut self.conntrack);
        let mut direction: Option<bool> = None;
        if let Some((conn_incoming, conn_version)) = conntrack.get(&packet, now) {
            if conn_version == self.version || self.rules.matches(&packet, conn_incoming, remote) {
                direction = Some(conn_incoming);
            } else {
                conntrack.remove(&packet);
            }
        }
        let r = match direction {
            Some(_) => Ok(()),
            None => self.judge(&packet, incoming, remote),
        };
        let first_seen = match direction {
            Some(conn_incoming) => conn_incoming,
            None => incoming,
        };
        if r.is_ok() {
            conntrack.record(packet, first_seen, self.version, now, timeout);
        }
        proof {
            let conns = live(*old(self), now);
            let entry = entry_for(*old(self), packet, incoming, now);
            assert(conns.remove(packet).insert(packet, entry) =~= conns.insert(packet, entry));
            if !conns.contains_key(packet) {
                assert(conns.remove(packet) =~= conns);
            }
        }
        self.conntrack = conntrack;
        r
    }

    /// Whether a packet of a flow that is not tracked may pass.
    fn judge(&self, packet: &Packet, incoming: bool, remote: &PeerIdentity) -> (r: Result<
        (),
        DropReason,
    >)
        ensures
            r == verdict(*self, *packet, incoming, *remote),
    {
        if !remote.owns(packet.remote_addr) {
            return Err(DropReason::InvalidRemoteIp);
        }
        if !any_contains(&self.routable_networks, &packet.local_addr) {
            return Err(DropReason::InvalidLocalIp);
        }
        if !self.rules.matches(packet, incoming, remote) {
            return Err(DropReason::NoMatchingRule);
        }
        Ok(())
    }

    fn timeout_for(&self, protocol: Protocol) -> (r: Duration)
        ensures
            r == self.spec_options().timeout(protocol),
    {
        match protocol {
            Protocol::Tcp => self.options.tcp_timeout,
            Protocol::Udp => self.options.udp_timeout,
            _ => self.options.default_timeout,
        }
    }
}

/// A host route covers its own address alone.
pub proof fn host_route_covers_one_address(route: IpNet, ip: IpAddr)
    requires
        route.spec_prefix_len() as nat == route.spec_addr().bits(),
    ensures
        route.covers(ip) == (route.spec_addr() == ip),
{
    if route.spec_addr().bits() == ip.bits() {
        let host_bits = (ip.bits() - route.spec_prefix_len()) as nat;
        assert(host_bits == 0);
        vstd::arithmetic::power2::lemma2_to64();
        let divisor = vstd::arithmetic::power2::pow2(host_bits) as int;
        assert(divisor == 1);
        assert(route.spec_addr().value() as int / divisor == route.spec_addr().value());
        assert(ip.value() as int / divisor == ip.value());
    }
}

proof fn lemma_routes(hosts: Seq<IpNet>, assigned: Seq<IpNet>, unsafes: Seq<IpNet>)
    requires
        hosts.len() == assigned.len(),
        forall|j: int|
            #![trigger hosts[j]]
            0 <= j < hosts.len() ==> hosts[j].spec_addr() == assigned[j].spec_addr()
                && hosts[j].spec_prefix_len() as nat == assigned[j].spec_addr().bits(),
    ensures
        forall|ip: IpAddr| #[trigger]
            net::any_covers(hosts + unsafes, ip) == (net::any_at(assigned, ip) || net::any_covers(
                unsafes,
                ip,
            )),
{
    let all = hosts + unsafes;
    assert forall|ip: IpAddr| #[trigger]
        net::any_covers(all, ip) == (net::any_at(assigned, ip) || net::any_covers(unsafes, ip)) by {
        assert forall|j: int| 0 <= j < hosts.len() implies (#[trigger] hosts[j]).covers(ip) == (
        assigned[j].spec_addr() == ip) by {
            host_route_covers_one_address(hosts[j], ip);
        }
        if net::any_at(assigned, ip) {
            let j = choose|j: int| 0 <= j < assigned.len() && (#[trigger] assigned[j]).spec_addr()
                == ip;
            assert(all[j] == hosts[j]);
        }
        if net::any_covers(unsafes, ip) {
            let j = choose|j: int| 0 <= j < unsafes.len() && (#[trigger] unsafes[j]).covers(ip);
            assert(all[hosts.len() + j] == unsafes[j]);
        }
        if net::any_covers(all, ip) {
            let j = choose|j: int| 0 <= j < all.len() && (#[trigger] all[j]).covers(ip);
            if j < hosts.len() {
                assert(all[j] == hosts[j]);
                assert(assigned[j].spec_addr() == ip);
            } else {
                assert(all[j] == unsafes[j - hosts.len()]);
            }
        }
    }
}

/// Whether a firewall came of another by being asked, at a moment no later
/// than `until`, about a packet of another flow than that of `packet`.
pub open spec fn asked_about_another(
    before: Firewall,
    after: Firewall,
    packet: Packet,
    until: Instant,
) -> bool {
    exists|
        other: Packet,
        incoming: bool,
        remote: PeerIdentity,
        now: Instant,
        r: Result<(), DropReason>,
    |
        other != packet && now.nanos <= until.nanos && #[trigger] evaluates_to(
            before,
            other,
            incoming,
            remote,
            now,
            after,
            r,
        )
}

/// A flow stays tracked as it is while the firewall is asked about others
/// before the flow expires.
proof fn lemma_stays_tracked(fws: Seq<Firewall>, packet: Packet, until: Instant, n: int)
    requires
        0 <= n < fws.len(),
        fws[0].flows().contains_key(packet),
        until.nanos < fws[0].flows()[packet].expires.nanos,
        forall|i: int|
            0 <= i < fws.len() - 1 ==> #[trigger] asked_about_another(
                fws[i],
                fws[i + 1],
                packet,
                until,
            ),
    ensures
        fws[n].flows().contains_key(packet),
        fws[n].flows()[packet] == fws[0].flows()[packet],
        fws[n].version() == fws[0].version(),
        fws[n].spec_options() == fws[0].spec_options(),
    decreases n,
{
    if n > 0 {
        lemma_stays_tracked(fws, packet, until, n - 1);
        assert(asked_about_another(fws[n - 1], fws[n - 1 + 1], packet, until));
    }
}

/// Once a packet of a flow has passed, and whatever the firewall is asked
/// about other flows meanwhile, the next packet of the flow passes in either
/// direction and with any peer, whatever the rules say of it, if it comes
/// before the flow has been silent for as long as its protocol allows and
/// before the rules are replaced. The flow keeps the direction that it was
/// first seen in, and its time starts anew.
pub proof fn tracked_flow_passes_until_its_timeout(
    start: Firewall,
    packet: Packet,
    first_incoming: bool,
    remote: PeerIdentity,
    at: Instant,
    fws: Seq<Firewall>,
    second_incoming: bool,
    other_remote: PeerIdentity,
    later: Instant,
    end: Firewall,
    r: Result<(), DropReason>,
)
    requires
        fws.len() > 0,
        evaluates_to(start, packet, first_incoming, remote, at, fws[0], Ok(())),
        at.nanos + start.spec_options().timeout(packet.protocol).total() <= u128::MAX,
        later.nanos < at.nanos + start.spec_options().timeout(packet.protocol).total(),
        later.nanos + start.spec_options().timeout(packet.protocol).total() <= u128::MAX,
        forall|i: int|
            0 <= i < fws.len() - 1 ==> #[trigger] asked_about_another(
                fws[i],
                fws[i + 1],
                packet,
                later,
            ),
        evaluates_to(fws.last(), packet, second_incoming, other_remote, later, end, r),
    ensures
        r == Ok::<(), DropReason>(()),
        end.flows().contains_key(packet),
        end.flows()[packet].incoming == (if passes_as_tracked(start, packet, remote, at) {
            start.flows()[packet].incoming
        } else {
            first_incoming
        }),
        end.flows()[packet].expires.nanos == later.nanos + start.spec_options().timeout(
            packet.protocol,
        ).total(),
        end.flows()[packet].rules_version == start.version(),
{
    assert(fws[0].flows().contains_key(packet));
    assert(fws[0].flows()[packet].expires.nanos == at.nanos + start.spec_options().timeout(
        packet.protocol,
    ).total());
    lemma_stays_tracked(fws, packet, later, fws.len() - 1);
    assert(live(fws.last(), later).contains_key(packet));
}

/// Whether a flow, if it is tracked, was let through by earlier rules.
pub open spec fn is_stale(fw: Firewall, packet: Packet) -> bool {
    fw.flows().contains_key(packet) ==> fw.flows()[packet].rules_version < fw.version()
}

/// Whether a firewall came of another without a packet of the flow of
/// `packet`: its rules were replaced, or it was asked about another packet.
pub open spec fn leaves_alone(before: Firewall, after: Firewall, packet: Packet) -> bool {
    ||| exists|rules: RuleSet| #[trigger] reloads_to(before, rules, after)
    ||| exists|
        other: Packet,
        incoming: bool,
        remote: PeerIdentity,
        now: Instant,
        r: Result<(), DropReason>,
    |
        other != packet && #[trigger] evaluates_to(before, other, incoming, remote, now, after, r)
}

/// Replacing the rules makes every tracked flow stale.
pub proof fn reloading_makes_flows_stale(
    before: Firewall,
    rules: RuleSet,
    after: Firewall,
    packet: Packet,
)
    requires
        before.is_current(),
        reloads_to(before, rules, after),
    ensures
        after.is_current(),
        is_stale(after, packet),
        after.flows().contains_key(packet) ==> before.flows().contains_key(packet)
            && after.flows()[packet] == before.flows()[packet],
{
    if after.flows().contains_key(packet) {
        assert(before.flows().contains_key(packet));
    }
}

/// A stale flow stays stale, and keeps its direction, until a packet of it
/// comes.
proof fn lemma_stays_stale(fws: Seq<Firewall>, packet: Packet, n: int)
    requires
        0 <= n < fws.len(),
        fws[0].is_current(),
        is_stale(fws[0], packet),
        forall|i: int|
            0 <= i < fws.len() - 1 ==> #[trigger] leaves_alone(fws[i], fws[i + 1], packet),
    ensures
        fws[n].is_current(),
        is_stale(fws[n], packet),
        fws[n].flows().contains_key(packet) ==> fws[0].flows().contains_key(packet)
            && fws[n].flows()[packet] == fws[0].flows()[packet],
    decreases n,
{
    if n > 0 {
        lemma_stays_stale(fws, packet, n - 1);
        let before = fws[n - 1];
        let after = fws[n];
        assert(leaves_alone(fws[n - 1], fws[n - 1 + 1], packet));
        if exists|rules: RuleSet| #[trigger] reloads_to(before, rules, after) {
            let rules = choose|rules: RuleSet| #[trigger] reloads_to(before, rules, after);
            reloading_makes_flows_stale(before, rules, after, packet);
        } else {
            assert forall|p: Packet| #[trigger] after.flows().contains_key(
                p,
            ) implies after.flows()[p].rules_version <= after.version() by {
                if before.flows().contains_key(p) {
                    assert(before.flows()[p].rules_version <= before.version());
                }
            }
        }
    }
}

/// Once the rules have been replaced, however often they are replaced again
/// and whatever else the firewall is asked meanwhile, the next packet of a
/// flow passes only if the rules then in force let it: on account of being
/// tracked only if they admit it in the direction it was first seen in, and
/// otherwise as the packet of a flow that was never seen. In the first case
/// the flow keeps its direction, in the second it has that of the packet, and
/// a flow that is refused is forgotten.
pub proof fn reloads_revalidate_tracked_flows(
    before: Firewall,
    rules: RuleSet,
    fws: Seq<Firewall>,
    packet: Packet,
    incoming: bool,
    remote: PeerIdentity,
    now: Instant,
    after: Firewall,
    r: Result<(), DropReason>,
)
    requires
        before.is_current(),
        fws.len() > 0,
        reloads_to(before, rules, fws[0]),
        forall|i: int|
            0 <= i < fws.len() - 1 ==> #[trigger] leaves_alone(fws[i], fws[i + 1], packet),
        evaluates_to(fws.last(), packet, incoming, remote, now, after, r),
    ensures
        r == (if live(fws.last(), now).contains_key(packet) && fws.last().rules().admits(
            packet,
            before.flows()[packet].incoming,
            remote,
        ) {
            Ok(())
        } else {
            verdict(fws.last(), packet, incoming, remote)
        }),
        live(fws.last(), now).contains_key(packet) ==> before.flows().contains_key(packet),
        r is Ok == after.flows().contains_key(packet),
        r is Ok ==> after.flows()[packet] == entry_for(
            fws.last(),
            packet,
            if live(fws.last(), now).contains_key(packet) && fws.last().rules().admits(
                packet,
                before.flows()[packet].incoming,
                remote,
            ) {
                before.flows()[packet].incoming
            } else {
                incoming
            },
            now,
        ),
{
    reloading_makes_flows_stale(before, rules, fws[0], packet);
    lemma_stays_stale(fws, packet, fws.len() - 1);
}

/// What a reload does to a flow that is tracked: the next packet of it passes
/// if and only if the new rules admit the flow in the direction it was first
/// seen in, when whose address it is is not asked again, or would let the
/// packet through as that of a new flow. In the first case the flow keeps its
/// direction, in the second only it takes that of the packet, and otherwise
/// it is forgotten. The reload at which the versions run out is left out,
/// since it forgets all flows.
pub proof fn reload_decides_about_a_tracked_flow(
    before: Firewall,
    rules: RuleSet,
    fw: Firewall,
    packet: Packet,
    incoming: bool,
    remote: PeerIdentity,
    now: Instant,
    after: Firewall,
    r: Result<(), DropReason>,
)
    requires
        before.is_current(),
        before.version() < u64::MAX,
        live(before, now).contains_key(packet),
        reloads_to(before, rules, fw),
        evaluates_to(fw, packet, incoming, remote, now, after, r),
    ensures
        ({
            let direction = before.flows()[packet].incoming;
            let as_tracked = rules.admits(packet, direction, remote);
            let afresh = remote.spec_owns(packet.remote_addr) && before.routes(packet.local_addr)
                && rules.admits(packet, incoming, remote);
            &&& r is Ok <==> as_tracked || afresh
            &&& as_tracked ==> after.flows().contains_key(packet) && after.flows()[packet]
                == entry_for(fw, packet, direction, now)
            &&& !as_tracked && afresh ==> after.flows().contains_key(packet)
                && after.flows()[packet] == entry_for(fw, packet, incoming, now)
            &&& !as_tracked && !afresh ==> !after.flows().contains_key(packet)
        }),
{
    reloading_makes_flows_stale(before, rules, fw, packet);
}

/// Whether no flow expires later than one that is refreshed at the moment
/// `last`, which is when the firewall was last asked.
pub open spec fn is_timely(fw: Firewall, last: Instant) -> bool {
    forall|p: Packet| #[trigger]
        fw.flows().contains_key(p) ==> fw.flows()[p].expires.nanos <= last.nanos
            + fw.spec_options().timeout(p.protocol).total()
}

/// A firewall that tracks nothing is timely.
pub proof fn new_firewall_is_timely(fw: Firewall, last: Instant)
    requires
        fw.flows() == Map::<Packet, ConnEntry>::empty(),
    ensures
        is_timely(fw, last),
{
}

/// Replacing the rules leaves a firewall timely.
pub proof fn reloading_stays_timely(
    before: Firewall,
    last: Instant,
    rules: RuleSet,
    after: Firewall,
)
    requires
        is_timely(before, last),
        reloads_to(before, rules, after),
    ensures
        is_timely(after, last),
{
    assert forall|p: Packet| #[trigger] after.flows().contains_key(p) implies after.flows()[
        p
    ].expires.nanos <= last.nanos + after.spec_options().timeout(p.protocol).total() by {
        assert(before.flows().contains_key(p));
    }
}

/// However many packets a firewall is asked about, it stays timely, as long as
/// time does not run backwards.
pub proof fn evaluating_stays_timely(
    before: Firewall,
    last: Instant,
    packet: Packet,
    incoming: bool,
    remote: PeerIdentity,
    now: Instant,
    after: Firewall,
    r: Result<(), DropReason>,
)
    requires
        is_timely(before, last),
        last.nanos <= now.nanos,
        now.nanos + before.spec_options().timeout(packet.protocol).total() <= u128::MAX,
        evaluates_to(before, packet, incoming, remote, now, after, r),
    ensures
        is_timely(after, now),
{
    assert forall|p: Packet| #[trigger] after.flows().contains_key(p) implies after.flows()[
        p
    ].expires.nanos <= now.nanos + after.spec_options().timeout(p.protocol).total() by {
        if p != packet {
            assert(before.flows().contains_key(p));
        }
    }
}

/// A flow that has been silent for as long as its protocol allows is held
/// against the rules again, like one that was never seen.
pub proof fn silent_flows_are_forgotten(
    fw: Firewall,
    last: Instant,
    packet: Packet,
    incoming: bool,
    remote: PeerIdentity,
    now: Instant,
    after: Firewall,
    r: Result<(), DropReason>,
)
    requires
        is_timely(fw, last),
        last.nanos + fw.spec_options().timeout(packet.protocol).total() <= now.nanos,
        evaluates_to(fw, packet, incoming, remote, now, after, r),
    ensures
        r == verdict(fw, packet, incoming, remote),
{
}

} // verus!
