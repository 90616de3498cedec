//! Filing rules into the tables of a [`RuleSet`].

use vstd::prelude::*;

use super::tree;
use super::tree::{CaRule, Direction, LocalCidr, PeerRule, PortTable, RuleSet, PORT_ANY, PORT_FRAGMENT};
use crate::firewall::identity::PeerIdentity;
use crate::firewall::packet::{Packet, Protocol};
use crate::net;
use crate::net::IpNet;
use crate::text::clone_strings;

verus! {

broadcast use vstd::std_specs::hash::group_hash_axioms;

/// The ports a rule is for.
#[derive(Clone, Copy, PartialEq, Eq, Debug, Structural)]
pub enum PortSpec {
    Any,
    Fragment,
    Single(u16),
    Range(u16, u16),
}

/// The local addresses a rule lets peers reach. An `Unset` one is decided by
/// the builder's default, which may be narrower than `Any`.
#[derive(Clone, Copy, PartialEq, Eq, Debug, Structural)]
pub enum LocalCidrSpec {
    Unset,
    Any,
    Net(IpNet),
}

/// Why a rule was refused.
#[derive(Clone, Copy, PartialEq, Eq, Debug, Structural)]
pub enum RuleError {
    UnknownProtocol(Protocol),
    InvalidPortRange { start: u16, end: u16 },
}

/// Something about a rule that its author may not have meant: `"any"` in one
/// field makes another field that was given meaningless. The rule is filed
/// all the same.
#[derive(Clone, PartialEq, Eq, Debug)]
pub enum RuleWarning {
    GroupsShadowedByAny { incoming: bool },
    HostAnyShadowsGroups { incoming: bool, groups: Vec<String> },
    HostAnyShadowsCidr { incoming: bool, cidr: IpNet },
    GroupsAnyShadowsHost { incoming: bool, host: String },
    GroupsAnyShadowsCidr { incoming: bool, cidr: IpNet },
    /// A port was given on an ICMP rule. ICMP has no ports, so the rule is
    /// filed under every port: under the one given it could never match.
    IcmpPortIgnored { incoming: bool, port: PortSpec },
}

/// A [`RuleWarning`] with its strings as sequences of characters.
pub enum RuleWarningView {
    GroupsShadowedByAny { incoming: bool },
    HostAnyShadowsGroups { incoming: bool, groups: Seq<Seq<char>> },
    HostAnyShadowsCidr { incoming: bool, cidr: IpNet },
    GroupsAnyShadowsHost { incoming: bool, host: Seq<char> },
    GroupsAnyShadowsCidr { incoming: bool, cidr: IpNet },
    IcmpPortIgnored { incoming: bool, port: PortSpec },
}

/// The characters of each string of a sequence.
pub open spec fn texts(s: Seq<String>) -> Seq<Seq<char>> {
    Seq::new(s.len(), |i: int| s[i]@)
}

impl View for RuleWarning {
    type V = RuleWarningView;

    open spec fn view(&self) -> RuleWarningView {
        match *self {
            RuleWarning::GroupsShadowedByAny { incoming } => RuleWarningView::GroupsShadowedByAny {
                incoming,
            },
            RuleWarning::HostAnyShadowsGroups {
                incoming,
                groups,
            } => RuleWarningView::HostAnyShadowsGroups { incoming, groups: texts(groups@) },
            RuleWarning::HostAnyShadowsCidr {
                incoming,
                cidr,
            } => RuleWarningView::HostAnyShadowsCidr { incoming, cidr },
            RuleWarning::GroupsAnyShadowsHost {
                incoming,
                host,
            } => RuleWarningView::GroupsAnyShadowsHost { incoming, host: host@ },
            RuleWarning::GroupsAnyShadowsCidr {
                incoming,
                cidr,
            } => RuleWarningView::GroupsAnyShadowsCidr { incoming, cidr },
            RuleWarning::IcmpPortIgnored { incoming, port } => RuleWarningView::IcmpPortIgnored {
                incoming,
                port,
            },
        }
    }
}

/// One rule: whom it is for, and what it lets through.
#[derive(Debug)]
pub struct Rule {
    pub incoming: bool,
    pub proto: Protocol,
    pub port: PortSpec,
    pub groups: Vec<String>,
    pub host: Option<String>,
    pub cidr: Option<IpNet>,
    pub local_cidr: LocalCidrSpec,
    pub ca_name: Option<String>,
    pub ca_sha: Option<String>,
}

/// Whether a string is the word that stands for everything.
pub open spec fn is_any_word(s: Seq<char>) -> bool {
    s == "any"@
}

/// Whether a list of groups holds the word that stands for everything.
pub open spec fn has_any_word(groups: Seq<String>) -> bool {
    exists|i: int| 0 <= i < groups.len() && is_any_word((#[trigger] groups[i])@)
}

/// Whether an optional string is present and holds the text `s`.
pub open spec fn is_text(o: Option<String>, s: Seq<char>) -> bool {
    o matches Some(t) && t@ == s
}

pub open spec fn is_icmp(p: Protocol) -> bool {
    p == Protocol::Icmp || p == Protocol::IcmpV6
}

/// A sequence of one warning if it is due, and of none otherwise.
pub open spec fn when(due: bool, w: RuleWarningView) -> Seq<RuleWarningView> {
    if due {
        seq![w]
    } else {
        Seq::empty()
    }
}

impl Rule {
    /// The error that the rule is refused with, if it is.
    pub open spec fn refusal(self) -> Option<RuleError> {
        match self.port {
            PortSpec::Range(start, end) if start > end => Some(
                RuleError::InvalidPortRange { start, end },
            ),
            _ => match self.proto {
                Protocol::Other(_) => Some(RuleError::UnknownProtocol(self.proto)),
                _ => None,
            },
        }
    }

    /// Whether the rule is for packets of a protocol.
    pub open spec fn selects_protocol(self, p: Protocol) -> bool {
        match self.proto {
            Protocol::Any => true,
            Protocol::Icmp => is_icmp(p),
            Protocol::IcmpV6 => is_icmp(p),
            Protocol::Other(_) => false,
            _ => p == self.proto,
        }
    }

    /// Whether the rule is filed under the port key `k`. An ICMP rule is
    /// filed under every port, whatever port it names.
    pub open spec fn filed_under(self, k: i32) -> bool {
        if is_icmp(self.proto) {
            k == PORT_ANY
        } else {
            match self.port {
                PortSpec::Any => k == PORT_ANY,
                PortSpec::Fragment => k == PORT_FRAGMENT,
                PortSpec::Single(p) => k == p,
                PortSpec::Range(start, end) => start <= k <= end,
            }
        }
    }

    /// Whether the rule is for the port of a packet.
    pub open spec fn selects_port(self, packet: Packet, incoming: bool) -> bool {
        self.filed_under(tree::port_key(packet, incoming)) || self.filed_under(PORT_ANY)
    }

    /// Whether the rule is for peers signed by the authority that signed
    /// `remote`.
    pub open spec fn selects_authority(self, remote: PeerIdentity) -> bool {
        ||| self.ca_sha is None && self.ca_name is None
        ||| is_text(self.ca_sha, remote.ca_sha@)
        ||| is_text(self.ca_name, remote.ca_name@)
    }

    /// Whether the rule is for every peer.
    pub open spec fn is_for_anyone(self) -> bool {
        ||| self.groups@.len() == 0 && self.host is None && self.cidr is None
        ||| has_any_word(self.groups@)
        ||| is_text(self.host, "any"@)
    }

    /// Whether the rule is for the peer: it is for every peer, or for the
    /// groups the peer is in, or for its name, or for its address.
    pub open spec fn selects_peer(self, packet: Packet, remote: PeerIdentity) -> bool {
        ||| self.is_for_anyone()
        ||| self.groups@.len() > 0 && tree::in_all_groups(self.groups@, remote)
        ||| is_text(self.host, remote.name@)
        ||| (self.cidr matches Some(net) && net.covers(packet.remote_addr))
    }

    /// Whether the rule lets peers reach the packet's local address, given
    /// whether a rule that does not say so would.
    pub open spec fn reaches(self, packet: Packet, unset: bool) -> bool {
        match self.local_cidr {
            LocalCidrSpec::Any => true,
            LocalCidrSpec::Net(net) => net.covers(packet.local_addr),
            LocalCidrSpec::Unset => unset,
        }
    }

    /// Whether the rule lets the peer in, once its port and protocol fit.
    pub open spec fn lets_in(self, packet: Packet, remote: PeerIdentity, unset: bool) -> bool {
        &&& self.selects_authority(remote)
        &&& self.selects_peer(packet, remote)
        &&& self.reaches(packet, unset)
    }

    /// Whether the rule, on its own, lets a packet through.
    pub open spec fn admits(
        self,
        packet: Packet,
        incoming: bool,
        remote: PeerIdentity,
        unset: bool,
    ) -> bool {
        &&& self.incoming == incoming
        &&& self.selects_protocol(packet.protocol)
        &&& self.selects_port(packet, incoming)
        &&& self.lets_in(packet, remote, unset)
    }

    /// The warnings that filing the rule gives, in order.
    pub open spec fn cautions(self) -> Seq<RuleWarningView> {
        when(
            is_icmp(self.proto) && self.port != PortSpec::Any,
            RuleWarningView::IcmpPortIgnored { incoming: self.incoming, port: self.port },
        ) + self.shadowings()
    }

    /// The warnings that one field of the rule shadows another.
    pub open spec fn shadowings(self) -> Seq<RuleWarningView> {
        let incoming = self.incoming;
        let groups_any = has_any_word(self.groups@);
        let host_any = is_text(self.host, "any"@);
        when(
            groups_any && self.groups@.len() > 1,
            RuleWarningView::GroupsShadowedByAny { incoming },
        ) + when(
            host_any && self.groups@.len() > 0,
            RuleWarningView::HostAnyShadowsGroups { incoming, groups: texts(self.groups@) },
        ) + when(
            host_any && self.cidr is Some,
            RuleWarningView::HostAnyShadowsCidr { incoming, cidr: self.cidr->0 },
        ) + when(
            groups_any && self.host is Some && !host_any,
            RuleWarningView::GroupsAnyShadowsHost { incoming, host: (self.host->0)@ },
        ) + when(
            groups_any && self.cidr is Some,
            RuleWarningView::GroupsAnyShadowsCidr { incoming, cidr: self.cidr->0 },
        )
    }
}

/// What a rule that names no local addresses lets peers reach.
#[derive(Debug)]
enum LocalCidrDefault {
    Any,
    Nets(Vec<IpNet>),
}

impl LocalCidrDefault {
    spec fn admits(self, packet: Packet) -> bool {
        match self {
            LocalCidrDefault::Any => true,
            LocalCidrDefault::Nets(nets) => net::any_covers(nets@, packet.local_addr),
        }
    }
}

/// Incrementally builds a [`RuleSet`].
#[derive(Debug)]
pub struct RuleSetBuilder {
    inbound: Direction,
    outbound: Direction,
    default_local_cidr: LocalCidrDefault,
    warnings: Vec<RuleWarning>,
}

/// What filing a rule gives and leaves behind. From then on a packet passes if
/// it passed before or if the rule lets it through; a refused rule changes
/// nothing.
pub open spec fn files(
    before: RuleSetBuilder,
    rule: Rule,
    r: Result<(), RuleError>,
    after: RuleSetBuilder,
) -> bool {
    &&& match rule.refusal() {
        Some(e) => r == Err::<(), _>(e) && after == before,
        None => {
            &&& r == Ok::<(), RuleError>(())
            &&& after.cautions() == before.cautions() + rule.cautions()
            &&& forall|packet: Packet, dir: bool, remote: PeerIdentity|
                #![trigger after.rules().admits(packet, dir, remote)]
                after.rules().admits(packet, dir, remote) == (before.rules().admits(
                    packet,
                    dir,
                    remote,
                ) || rule.admits(packet, dir, remote, before.unset_admits(packet)))
        },
    }
    &&& forall|packet: Packet| #[trigger]
        after.unset_admits(packet) == before.unset_admits(packet)
}

impl RuleSetBuilder {
    /// The rules filed so far.
    pub closed spec fn rules(self) -> RuleSet {
        RuleSet { inbound: self.inbound, outbound: self.outbound }
    }

    /// The warnings given so far, in order.
    pub closed spec fn cautions(self) -> Seq<RuleWarningView> {
        Seq::new(self.warnings@.len(), |i: int| self.warnings@[i]@)
    }

    /// Whether a rule that names no local addresses lets peers reach the
    /// packet's.
    pub closed spec fn unset_admits(self, packet: Packet) -> bool {
        self.default_local_cidr.admits(packet)
    }

    /// `assigned_networks` and `has_unsafe_networks` should be those of the
    /// firewall the rules are for. They decide what an unset `local_cidr`
    /// means: every address, unless the host has unsafe networks and
    /// `default_local_cidr_any` is false, in which case only the addresses
    /// in the full prefixes of `assigned_networks`.
    pub fn new(
        assigned_networks: Vec<IpNet>,
        has_unsafe_networks: bool,
        default_local_cidr_any: bool,
    ) -> (r: Self)
        ensures
            r.rules().no_rules(),
            r.cautions() == Seq::<RuleWarningView>::empty(),
            forall|packet: Packet| #[trigger]
                r.unset_admits(packet) == (!has_unsafe_networks || default_local_cidr_any
                    || net::any_covers(assigned_networks@, packet.local_addr)),
    {
        let default_local_cidr = if !has_unsafe_networks || default_local_cidr_any {
            LocalCidrDefault::Any
        } else {
            LocalCidrDefault::Nets(assigned_networks)
        };
        let r = RuleSetBuilder {
            inbound: Direction::default(),
            outbound: Direction::default(),
            default_local_cidr,
            warnings: Vec::new(),
        };
        assert(r.cautions() =~= Seq::<RuleWarningView>::empty());
        r
    }

    /// Files a rule. From then on a packet passes if it passed before or if
    /// the rule lets it through; a refused rule changes nothing.
    #[allow(clippy::too_many_arguments)]
    pub fn add_rule(
        &mut self,
        incoming: bool,
        proto: Protocol,
        port: PortSpec,
        groups: Vec<String>,
        host: Option<String>,
        cidr: Option<IpNet>,
        local_cidr: LocalCidrSpec,
        ca_name: Option<String>,
        ca_sha: Option<String>,
    ) -> (r: Result<(), RuleError>)
        ensures
            files(
                *old(self),
                Rule { incoming, proto, port, groups, host, cidr, local_cidr, ca_name, ca_sha },
                r,
                *final(self),
            ),
    {
        let rule = Rule {
            incoming,
            proto,
            port,
            groups,
            host,
            cidr,
            local_cidr,
            ca_name,
            ca_sha,
        };
        let (mut start, mut end): (i32, i32) = match port_bounds(port) {
            Ok(b) => b,
            Err(e) => {
                return Err(e);
            },
        };
        if let Protocol::Other(_) = proto {
            return Err(RuleError::UnknownProtocol(proto));
        }
        // ICMP has no ports, so a rule filed under the port it names could
        // never be reached. An inverted range on an ICMP rule has been
        // refused above all the same: it is a typo worth reporting.
        if (proto == Protocol::Icmp || proto == Protocol::IcmpV6) && port != PortSpec::Any {
            self.warnings.push(RuleWarning::IcmpPortIgnored { incoming, port });
            start = PORT_ANY;
            end = PORT_ANY;
        }
        proof {
            assert(self.cautions() =~= old(self).cautions() + when(
                is_icmp(proto) && port != PortSpec::Any,
                RuleWarningView::IcmpPortIgnored { incoming, port },
            ));
            assert(forall|k: i32| rule.filed_under(k) == (start <= k <= end));
        }
        self.check_sanity(&rule);
        proof {
            assert(self.cautions() =~= old(self).cautions() + rule.cautions());
        }
        if incoming {
            file_in_direction(&mut self.inbound, start, end, &rule, &self.default_local_cidr);
        } else {
            file_in_direction(&mut self.outbound, start, end, &rule, &self.default_local_cidr);
        }
        Ok(())
    }

    /// Records a warning for each field of the rule that another shadows.
    fn check_sanity(&mut self, rule: &Rule)
        ensures
            final(self).cautions() == old(self).cautions() + rule.shadowings(),
            final(self).rules() == old(self).rules(),
            final(self).default_local_cidr == old(self).default_local_cidr,
    {
        let incoming = rule.incoming;
        let groups_has_any = contains_any_word(&rule.groups);
        let host_is_any = option_is_any_word(&rule.host);
        let ghost mut due = Seq::<RuleWarningView>::empty();
        if groups_has_any && rule.groups.len() > 1 {
            self.warnings.push(RuleWarning::GroupsShadowedByAny { incoming });
        }
        proof {
            due = when(
                groups_has_any && rule.groups@.len() > 1,
                RuleWarningView::GroupsShadowedByAny { incoming },
            );
            assert(self.cautions() =~= old(self).cautions() + due);
        }
        if host_is_any && rule.groups.len() > 0 {
            let groups = clone_strings(&rule.groups);
            proof {
                assert(texts(groups@) =~= texts(rule.groups@));
            }
            self.warnings.push(RuleWarning::HostAnyShadowsGroups { incoming, groups });
        }
        proof {
            due = due + when(
                host_is_any && rule.groups@.len() > 0,
                RuleWarningView::HostAnyShadowsGroups { incoming, groups: texts(rule.groups@) },
            );
            assert(self.cautions() =~= old(self).cautions() + due);
        }
        if host_is_any {
            if let Some(cidr) = rule.cidr {
                self.warnings.push(RuleWarning::HostAnyShadowsCidr { incoming, cidr });
            }
        }
        proof {
            due = due + when(
                host_is_any && rule.cidr is Some,
                RuleWarningView::HostAnyShadowsCidr { incoming, cidr: rule.cidr->0 },
            );
            assert(self.cautions() =~= old(self).cautions() + due);
        }
        if groups_has_any && !host_is_any {
            if let Some(h) = &rule.host {
                self.warnings.push(
                    RuleWarning::GroupsAnyShadowsHost { incoming, host: h.clone() },
                );
            }
        }
        proof {
            due = due + when(
                groups_has_any && rule.host is Some && !host_is_any,
                RuleWarningView::GroupsAnyShadowsHost { incoming, host: (rule.host->0)@ },
            );
            assert(self.cautions() =~= old(self).cautions() + due);
        }
        if groups_has_any {
            if let Some(cidr) = rule.cidr {
                self.warnings.push(RuleWarning::GroupsAnyShadowsCidr { incoming, cidr });
            }
        }
        proof {
            due = due + when(
                groups_has_any && rule.cidr is Some,
                RuleWarningView::GroupsAnyShadowsCidr { incoming, cidr: rule.cidr->0 },
            );
            assert(self.cautions() =~= old(self).cautions() + due);
            assert(due =~= rule.shadowings());
        }
    }

    pub fn warnings(&self) -> (r: &[RuleWarning])
        ensures
            r@.len() == self.cautions().len(),
            forall|i: int| 0 <= i < r@.len() ==> (#[trigger] r@[i])@ == self.cautions()[i],
    {
        self.warnings.as_slice()
    }

    pub fn build(self) -> (r: RuleSet)
        ensures
            r == self.rules(),
    {
        RuleSet { inbound: self.inbound, outbound: self.outbound }
    }
}

/// The first and last port key that a rule for `port` is filed under.
fn port_bounds(port: PortSpec) -> (r: Result<(i32, i32), RuleError>)
    ensures
        match port {
            PortSpec::Any => r == Ok::<(i32, i32), RuleError>((PORT_ANY, PORT_ANY)),
            PortSpec::Fragment => r == Ok::<(i32, i32), RuleError>((PORT_FRAGMENT, PORT_FRAGMENT)),
            PortSpec::Single(p) => r == Ok::<(i32, i32), RuleError>((p as i32, p as i32)),
            PortSpec::Range(start, end) => if start > end {
                r == Err::<(i32, i32), _>(RuleError::InvalidPortRange { start, end })
            } else {
                r == Ok::<(i32, i32), RuleError>((start as i32, end as i32))
            },
        },
{
    match port {
        PortSpec::Any => Ok((PORT_ANY, PORT_ANY)),
        PortSpec::Fragment => Ok((PORT_FRAGMENT, PORT_FRAGMENT)),
        PortSpec::Single(p) => Ok((p as i32, p as i32)),
        PortSpec::Range(start, end) => {
            if start > end {
                return Err(RuleError::InvalidPortRange { start, end });
            }
            Ok((start as i32, end as i32))
        },
    }
}

fn contains_any_word(groups: &Vec<String>) -> (r: bool)
    ensures
        r == has_any_word(groups@),
{
    let any = "any".to_string();
    let mut i: usize = 0;
    while i < groups.len()
        invariant
            i <= groups@.len(),
            any@ == "any"@,
            forall|j: int| 0 <= j < i ==> !is_any_word((#[trigger] groups@[j])@),
        decreases groups.len() - i,
    {
        if groups[i] == any {
            return true;
        }
        i = i + 1;
    }
    false
}

fn option_is_any_word(o: &Option<String>) -> (r: bool)
    ensures
        r == is_text(*o, "any"@),
{
    match o {
        Some(s) => *s == "any".to_string(),
        None => false,
    }
}

fn is_any(rule: &Rule) -> (r: bool)
    ensures
        r == rule.is_for_anyone(),
{
    if rule.groups.len() == 0 && rule.host.is_none() && rule.cidr.is_none() {
        return true;
    }
    contains_any_word(&rule.groups) || option_is_any_word(&rule.host)
}

/// Adds the local addresses that a rule lets peers reach.
fn merge_local_cidr(lc: &mut LocalCidr, default: &LocalCidrDefault, rule: &Rule)
    ensures
        forall|packet: Packet| #[trigger]
            final(lc).admits(packet) == (old(lc).admits(packet) || rule.reaches(
                packet,
                default.admits(packet),
            )),
{
    match &rule.local_cidr {
        LocalCidrSpec::Any => {
            lc.any = true;
        },
        LocalCidrSpec::Net(n) => {
            lc.nets.push(*n);
            proof {
                lemma_push_covers(old(lc).nets@, *n);
            }
        },
        LocalCidrSpec::Unset => match default {
            LocalCidrDefault::Any => {
                lc.any = true;
            },
            LocalCidrDefault::Nets(nets) => {
                let mut i: usize = 0;
                while i < nets.len()
                    invariant
                        i <= nets@.len(),
                        lc.any == old(lc).any,
                        lc.nets@ == old(lc).nets@ + nets@.take(i as int),
                    decreases nets.len() - i,
                {
                    lc.nets.push(nets[i]);
                    assert(nets@.take(i + 1) =~= nets@.take(i as int).push(nets@[i as int]));
                    i = i + 1;
                }
                assert(nets@.take(i as int) =~= nets@);
                proof {
                    lemma_append_covers(old(lc).nets@, nets@);
                }
            },
        },
    }
}

proof fn lemma_push_covers(nets: Seq<IpNet>, n: IpNet)
    ensures
        forall|ip: net::IpAddr| #[trigger]
            net::any_covers(nets.push(n), ip) == (net::any_covers(nets, ip)
                || n.covers(ip)),
{
    lemma_append_covers(nets, seq![n]);
    assert(nets.push(n) =~= nets + seq![n]);
    assert forall|ip: net::IpAddr| net::any_covers(seq![n], ip) == n.covers(ip) by {
        assert(seq![n][0] == n);
    }
}

proof fn lemma_append_covers(a: Seq<IpNet>, b: Seq<IpNet>)
    ensures
        forall|ip: net::IpAddr| #[trigger]
            net::any_covers(a + b, ip) == (net::any_covers(a, ip)
                || net::any_covers(b, ip)),
{
    assert forall|ip: net::IpAddr| #[trigger]
        net::any_covers(a + b, ip) == (net::any_covers(a, ip)
            || net::any_covers(b, ip)) by {
        if net::any_covers(a, ip) {
            let i = choose|i: int| 0 <= i < a.len() && (#[trigger] a[i]).covers(ip);
            assert((a + b)[i] == a[i]);
        }
        if net::any_covers(b, ip) {
            let i = choose|i: int| 0 <= i < b.len() && (#[trigger] b[i]).covers(ip);
            assert((a + b)[a.len() + i] == b[i]);
        }
    }
}

/// The local addresses a rule lets peers reach, on their own.
fn own_local_cidr(default: &LocalCidrDefault, rule: &Rule) -> (r: LocalCidr)
    ensures
        forall|packet: Packet| #[trigger]
            r.admits(packet) == rule.reaches(packet, default.admits(packet)),
{
    let mut lc = LocalCidr::default();
    merge_local_cidr(&mut lc, default, rule);
    lc
}

/// Lets in the peers that a rule is for.
fn add_to_peer_rule(pr: &mut PeerRule, default: &LocalCidrDefault, rule: &Rule)
    ensures
        forall|packet: Packet, remote: PeerIdentity| #[trigger]
            final(pr).admits(packet, remote) == (old(pr).admits(packet, remote) || (
            rule.selects_peer(packet, remote) && rule.reaches(packet, default.admits(packet)))),
{
    if is_any(rule) {
        let mut lc = match pr.any.take() {
            Some(lc) => lc,
            None => LocalCidr::default(),
        };
        merge_local_cidr(&mut lc, default, rule);
        pr.any = Some(lc);
        return;
    }
    if rule.groups.len() > 0 {
        add_groups(pr, default, rule);
    }
    if let Some(h) = &rule.host {
        add_host(pr, default, rule, h);
    }
    if let Some(c) = rule.cidr {
        add_cidr(pr, default, rule, c);
    }
}

fn add_groups(pr: &mut PeerRule, default: &LocalCidrDefault, rule: &Rule)
    ensures
        final(pr).any == old(pr).any,
        final(pr).hosts == old(pr).hosts,
        final(pr).cidrs == old(pr).cidrs,
        forall|packet: Packet, remote: PeerIdentity| #[trigger]
            tree::groups_admit(final(pr).groups@, packet, remote) == (tree::groups_admit(old(pr).groups@, packet, remote) || (
            tree::in_all_groups(rule.groups@, remote) && rule.reaches(
                packet,
                default.admits(packet),
            ))),
{
    let lc = own_local_cidr(default, rule);
    let groups = clone_strings(&rule.groups);
    let ghost last = old(pr).groups@.len() as int;
    pr.groups.push((groups, lc));
    proof {
        assert(pr.groups@[last].0 == groups && pr.groups@[last].1 == lc);
        assert forall|packet: Packet, remote: PeerIdentity| #[trigger]
            tree::groups_admit(pr.groups@, packet, remote) == (tree::groups_admit(old(pr).groups@, packet, remote) || (
            tree::in_all_groups(rule.groups@, remote) && rule.reaches(
                packet,
                default.admits(packet),
            ))) by {
            assert(tree::in_all_groups(groups@, remote) == tree::in_all_groups(
                rule.groups@,
                remote,
            )) by {
                if tree::in_all_groups(groups@, remote) {
                    assert forall|i: int| 0 <= i < rule.groups@.len() implies remote.groups@.contains(
                        (#[trigger] rule.groups@[i])@,
                    ) by {
                        assert(groups@[i]@ == rule.groups@[i]@);
                    }
                }
            }
            assert forall|i: int| 0 <= i < last implies #[trigger] tree::group_admits(pr.groups@,
                i,
                packet,
                remote,
            ) == tree::group_admits(old(pr).groups@, i, packet, remote) by {
                assert(pr.groups@[i] == old(pr).groups@[i]);
            }
            assert(tree::group_admits(pr.groups@, last, packet, remote) == (tree::in_all_groups(
                rule.groups@,
                remote,
            ) && rule.reaches(packet, default.admits(packet))));
            if tree::groups_admit(old(pr).groups@, packet, remote) {
                let i = choose|i: int|
                    0 <= i < old(pr).groups@.len() && #[trigger] tree::group_admits(old(pr).groups@,
                        i,
                        packet,
                        remote,
                    );
                assert(tree::group_admits(pr.groups@, i, packet, remote));
            }
        }
    }
}

fn add_host(pr: &mut PeerRule, default: &LocalCidrDefault, rule: &Rule, host: &String)
    ensures
        final(pr).any == old(pr).any,
        final(pr).groups == old(pr).groups,
        final(pr).cidrs == old(pr).cidrs,
        forall|packet: Packet, remote: PeerIdentity| #[trigger]
            tree::hosts_admit(final(pr).hosts@, packet, remote) == (tree::hosts_admit(old(pr).hosts@, packet, remote) || (host@
                == remote.name@ && rule.reaches(packet, default.admits(packet)))),
{
    let mut lc = match pr.hosts.remove(host) {
        Some(lc) => lc,
        None => LocalCidr::default(),
    };
    merge_local_cidr(&mut lc, default, rule);
    pr.hosts.insert(host.clone(), lc);
}

fn add_cidr(pr: &mut PeerRule, default: &LocalCidrDefault, rule: &Rule, cidr: IpNet)
    ensures
        final(pr).any == old(pr).any,
        final(pr).groups == old(pr).groups,
        final(pr).hosts == old(pr).hosts,
        forall|packet: Packet| #[trigger]
            tree::cidrs_admit(final(pr).cidrs@, packet) == (tree::cidrs_admit(old(pr).cidrs@, packet) || (cidr.covers(
                packet.remote_addr,
            ) && rule.reaches(packet, default.admits(packet)))),
{
    let mut i: usize = 0;
    while i < pr.cidrs.len()
        invariant
            i <= pr.cidrs@.len(),
            *pr == *old(pr),
        decreases pr.cidrs.len() - i,
    {
        if pr.cidrs[i].0 == cidr {
            let (net, mut lc) = pr.cidrs.remove(i);
            merge_local_cidr(&mut lc, default, rule);
            pr.cidrs.insert(i, (net, lc));
            proof {
                assert(pr.cidrs@ =~= old(pr).cidrs@.update(i as int, (cidr, lc)));
                lemma_cidr_replaced(*old(pr), *pr, i as int, cidr, lc, default, *rule);
            }
            return;
        }
        i = i + 1;
    }
    let lc = own_local_cidr(default, rule);
    pr.cidrs.push((cidr, lc));
    proof {
        let last = old(pr).cidrs@.len() as int;
        assert(pr.cidrs@[last] == (cidr, lc));
        assert forall|packet: Packet| #[trigger]
            tree::cidrs_admit(pr.cidrs@, packet) == (tree::cidrs_admit(old(pr).cidrs@, packet) || (cidr.covers(
                packet.remote_addr,
            ) && rule.reaches(packet, default.admits(packet)))) by {
            assert forall|j: int| 0 <= j < last implies #[trigger] tree::cidr_admits(pr.cidrs@, j, packet) == tree::cidr_admits(old(pr).cidrs@, j, packet) by {
                assert(pr.cidrs@[j] == old(pr).cidrs@[j]);
            }
            assert(tree::cidr_admits(pr.cidrs@, last, packet) == (cidr.covers(packet.remote_addr)
                && rule.reaches(packet, default.admits(packet))));
            if tree::cidrs_admit(old(pr).cidrs@, packet) {
                let j = choose|j: int|
                    0 <= j < old(pr).cidrs@.len() && #[trigger] tree::cidr_admits(old(pr).cidrs@, j, packet);
                assert(tree::cidr_admits(pr.cidrs@, j, packet));
            }
        }
    }
}

/// Widening what the entry at `at` reaches lets in what it let in before and
/// what the rule lets in.
proof fn lemma_cidr_replaced(
    before: PeerRule,
    after: PeerRule,
    at: int,
    cidr: IpNet,
    lc: LocalCidr,
    default: &LocalCidrDefault,
    rule: Rule,
)
    requires
        0 <= at < before.cidrs@.len(),
        before.cidrs@[at].0 == cidr,
        after.cidrs@ == before.cidrs@.update(at, (cidr, lc)),
        forall|packet: Packet| #[trigger]
            lc.admits(packet) == (before.cidrs@[at].1.admits(packet) || rule.reaches(
                packet,
                default.admits(packet),
            )),
    ensures
        forall|packet: Packet| #[trigger]
            tree::cidrs_admit(after.cidrs@, packet) == (tree::cidrs_admit(before.cidrs@, packet) || (cidr.covers(
                packet.remote_addr,
            ) && rule.reaches(packet, default.admits(packet)))),
{
    assert forall|packet: Packet| #[trigger]
        tree::cidrs_admit(after.cidrs@, packet) == (tree::cidrs_admit(before.cidrs@, packet) || (cidr.covers(
            packet.remote_addr,
        ) && rule.reaches(packet, default.admits(packet)))) by {
        assert(tree::cidr_admits(after.cidrs@, at, packet) == (tree::cidr_admits(before.cidrs@, at, packet) || (cidr.covers(
            packet.remote_addr,
        ) && rule.reaches(packet, default.admits(packet)))));
        assert forall|j: int| 0 <= j < after.cidrs@.len() && j != at implies #[trigger] tree::cidr_admits(after.cidrs@,
            j,
            packet,
        ) == tree::cidr_admits(before.cidrs@, j, packet) by {
            assert(after.cidrs@[j] == before.cidrs@[j]);
        }
        if tree::cidrs_admit(before.cidrs@, packet) {
            let j = choose|j: int|
                0 <= j < before.cidrs@.len() && #[trigger] tree::cidr_admits(before.cidrs@, j, packet);
            assert(tree::cidr_admits(after.cidrs@, j, packet));
        }
        if tree::cidrs_admit(after.cidrs@, packet) {
            let j = choose|j: int|
                0 <= j < after.cidrs@.len() && #[trigger] tree::cidr_admits(after.cidrs@, j, packet);
            if j != at {
                assert(tree::cidr_admits(before.cidrs@, j, packet));
            } else if tree::cidr_admits(before.cidrs@, at, packet) {
                assert(tree::cidrs_admit(before.cidrs@, packet));
            }
        }
    }
}

/// Lets in the peers that a rule is for, where their authority is one that
/// the rule is for.
fn add_to_ca_rule(ca: &mut CaRule, default: &LocalCidrDefault, rule: &Rule)
    ensures
        forall|packet: Packet, remote: PeerIdentity| #[trigger]
            final(ca).admits(packet, remote) == (old(ca).admits(packet, remote) || rule.lets_in(
                packet,
                remote,
                default.admits(packet),
            )),
{
    if rule.ca_sha.is_none() && rule.ca_name.is_none() {
        let mut pr = match ca.any.take() {
            Some(pr) => pr,
            None => PeerRule::default(),
        };
        add_to_peer_rule(&mut pr, default, rule);
        ca.any = Some(pr);
        return;
    }
    if let Some(sha) = &rule.ca_sha {
        let mut pr = match ca.ca_shas.remove(sha) {
            Some(pr) => pr,
            None => PeerRule::default(),
        };
        add_to_peer_rule(&mut pr, default, rule);
        ca.ca_shas.insert(sha.clone(), pr);
    }
    if let Some(name) = &rule.ca_name {
        let mut pr = match ca.ca_names.remove(name) {
            Some(pr) => pr,
            None => PeerRule::default(),
        };
        add_to_peer_rule(&mut pr, default, rule);
        ca.ca_names.insert(name.clone(), pr);
    }
}

/// Files a rule under the port keys from `start` to `end`.
fn file_in_table(
    table: &mut PortTable,
    start: i32,
    end: i32,
    rule: &Rule,
    default: &LocalCidrDefault,
)
    requires
        PORT_FRAGMENT <= start <= end <= u16::MAX,
    ensures
        forall|k: i32, packet: Packet, remote: PeerIdentity| #[trigger]
            tree::entry_admits(final(table)@, k, packet, remote)
                == (tree::entry_admits(old(table)@, k, packet, remote) || (start <= k <= end
                && rule.lets_in(packet, remote, default.admits(packet)))),
{
    let mut p: i32 = start;
    while p <= end
        invariant
            start <= p <= end + 1,
            end <= u16::MAX,
            forall|k: i32, packet: Packet, remote: PeerIdentity| #[trigger]
                tree::entry_admits(table@, k, packet, remote)
                    == (tree::entry_admits(old(table)@, k, packet, remote) || (start <= k < p
                    && rule.lets_in(packet, remote, default.admits(packet)))),
        decreases end + 1 - p,
    {
        let ghost before = table@;
        let mut ca = match table.remove(&p) {
            Some(ca) => ca,
            None => CaRule::default(),
        };
        let ghost bare = ca;
        add_to_ca_rule(&mut ca, default, rule);
        table.insert(p, ca);
        proof {
            assert forall|k: i32, packet: Packet, remote: PeerIdentity| #[trigger]
                tree::entry_admits(table@, k, packet, remote)
                    == (tree::entry_admits(old(table)@, k, packet, remote) || (start <= k < p
                    + 1 && rule.lets_in(packet, remote, default.admits(packet)))) by {
                if k == p {
                    assert(bare.admits(packet, remote) == tree::entry_admits(
                        before,
                        k,
                        packet,
                        remote,
                    ));
                    assert(ca.admits(packet, remote) == (bare.admits(packet, remote)
                        || rule.lets_in(packet, remote, default.admits(packet))));
                } else {
                    assert(tree::entry_admits(table@, k, packet, remote)
                        == tree::entry_admits(before, k, packet, remote));
                }
            }
        }
        p = p + 1;
    }
}

/// Files a rule in the table of its protocol.
fn file_in_direction(
    dir: &mut Direction,
    start: i32,
    end: i32,
    rule: &Rule,
    default: &LocalCidrDefault,
)
    requires
        PORT_FRAGMENT <= start <= end <= u16::MAX,
        !(rule.proto is Other),
        forall|k: i32| #[trigger] rule.filed_under(k) == (start <= k <= end),
    ensures
        forall|packet: Packet, incoming: bool, remote: PeerIdentity| #[trigger]
            final(dir).admits(packet, incoming, remote) == (old(dir).admits(
                packet,
                incoming,
                remote,
            ) || (rule.selects_protocol(packet.protocol) && rule.selects_port(packet, incoming)
                && rule.lets_in(packet, remote, default.admits(packet)))),
{
    match rule.proto {
        Protocol::Any => file_in_table(&mut dir.any_proto, start, end, rule, default),
        Protocol::Tcp => file_in_table(&mut dir.tcp, start, end, rule, default),
        Protocol::Udp => file_in_table(&mut dir.udp, start, end, rule, default),
        Protocol::Icmp | Protocol::IcmpV6 => file_in_table(
            &mut dir.icmp,
            start,
            end,
            rule,
            default,
        ),
        Protocol::Other(_) => {},
    }
}

} // verus!
