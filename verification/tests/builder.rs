use nebula::firewall::{
    LocalCidrSpec, Packet, PeerIdentity, PortSpec, Protocol, RuleError, RuleSetBuilder, RuleWarning,
    StringSet,
};
use nebula::net::{IpAddr, IpNet};

fn ip(s: &str) -> IpAddr {
    if s.contains(':') {
        let n: ipnet::Ipv6Net = format!("{s}/128").parse().unwrap();
        IpAddr::V6(u128::from_be_bytes(n.addr().octets()))
    } else {
        let n: ipnet::Ipv4Net = format!("{s}/32").parse().unwrap();
        IpAddr::V4(u32::from_be_bytes(n.addr().octets()))
    }
}

fn net(s: &str) -> IpNet {
    let (addr, len) = s.split_once('/').unwrap();
    IpNet::new(ip(addr), len.parse().unwrap()).unwrap()
}

fn groups(names: &[&str]) -> StringSet {
    let mut set = StringSet::new();
    for name in names {
        set.insert(name.to_string());
    }
    set
}

fn packet(
    local: &str,
    remote: &str,
    local_port: u16,
    remote_port: u16,
    protocol: Protocol,
) -> Packet {
    Packet {
        local_addr: ip(local),
        remote_addr: ip(remote),
        local_port,
        remote_port,
        protocol,
        fragment: false,
    }
}

fn identity(name: &str, groups: &[&str]) -> PeerIdentity {
    PeerIdentity {
        name: name.into(),
        groups: crate::groups(groups),
        ..Default::default()
    }
}

fn open_builder() -> RuleSetBuilder {
    RuleSetBuilder::new(vec![], false, false)
}

#[test]
fn empty_rule_matches_unconditionally() {
    let mut b = open_builder();
    b.add_rule(
        true,
        Protocol::Tcp,
        PortSpec::Single(1),
        vec![],
        None,
        None,
        LocalCidrSpec::Unset,
        None,
        None,
    )
    .unwrap();
    let rules = b.build();
    let p = packet("1.1.1.1", "2.2.2.2", 1, 1, Protocol::Tcp);
    assert!(rules.matches(&p, true, &identity("anyone", &[])));
}

#[test]
fn group_rule_requires_the_group() {
    let mut b = open_builder();
    b.add_rule(
        true,
        Protocol::Udp,
        PortSpec::Single(1),
        vec!["g1".into()],
        None,
        None,
        LocalCidrSpec::Unset,
        None,
        None,
    )
    .unwrap();
    let rules = b.build();
    let p = packet("1.1.1.1", "2.2.2.2", 1, 1, Protocol::Udp);
    assert!(rules.matches(&p, true, &identity("h", &["g1"])));
    assert!(!rules.matches(&p, true, &identity("h", &["g2"])));
}

#[test]
fn icmp_rule_with_a_port_is_coerced_to_port_any() {
    let mut b = open_builder();
    b.add_rule(
        true,
        Protocol::Icmp,
        PortSpec::Single(8),
        vec![],
        None,
        None,
        LocalCidrSpec::Unset,
        None,
        None,
    )
    .unwrap();
    assert_eq!(
        b.warnings(),
        &[RuleWarning::IcmpPortIgnored {
            incoming: true,
            port: PortSpec::Single(8)
        }]
    );

    let rules = b.build();
    let p = packet("1.1.1.1", "2.2.2.2", 0, 0, Protocol::Icmp);
    assert!(rules.matches(&p, true, &identity("h", &[])));
}

#[test]
fn icmpv6_rule_with_a_port_range_is_coerced_and_still_matches_outbound() {
    let mut b = open_builder();
    b.add_rule(
        false,
        Protocol::IcmpV6,
        PortSpec::Range(1, 4),
        vec![],
        None,
        None,
        LocalCidrSpec::Unset,
        None,
        None,
    )
    .unwrap();

    let rules = b.build();
    let p = packet("fd00::1", "fd00::2", 0, 41337, Protocol::IcmpV6);
    assert!(rules.matches(&p, false, &identity("h", &[])));
}

#[test]
fn icmp_rule_without_a_port_produces_no_warning() {
    let mut b = open_builder();
    b.add_rule(
        true,
        Protocol::Icmp,
        PortSpec::Any,
        vec![],
        None,
        None,
        LocalCidrSpec::Unset,
        None,
        None,
    )
    .unwrap();
    assert!(b.warnings().is_empty());
}

#[test]
fn unknown_protocol_is_rejected() {
    let mut b = open_builder();
    let err = b
        .add_rule(
            true,
            Protocol::Other(255),
            PortSpec::Any,
            vec![],
            None,
            None,
            LocalCidrSpec::Unset,
            None,
            None,
        )
        .unwrap_err();
    assert_eq!(err, RuleError::UnknownProtocol(Protocol::Other(255)));
}

#[test]
fn inverted_port_range_is_rejected() {
    let mut b = open_builder();
    let err = b
        .add_rule(
            true,
            Protocol::Tcp,
            PortSpec::Range(10, 5),
            vec![],
            None,
            None,
            LocalCidrSpec::Unset,
            None,
            None,
        )
        .unwrap_err();
    assert_eq!(err, RuleError::InvalidPortRange { start: 10, end: 5 });
}

#[test]
fn ca_sha_scoped_rule_does_not_affect_a_differently_scoped_rule_on_the_same_port() {
    let mut b = open_builder();
    b.add_rule(
        true,
        Protocol::Any,
        PortSpec::Any,
        vec!["nope".into()],
        None,
        None,
        LocalCidrSpec::Unset,
        None,
        Some("signer-shasum-bad".into()),
    )
    .unwrap();
    b.add_rule(
        true,
        Protocol::Any,
        PortSpec::Any,
        vec!["default-group".into()],
        None,
        None,
        LocalCidrSpec::Unset,
        None,
        Some("signer-shasum".into()),
    )
    .unwrap();
    let rules = b.build();
    let p = packet("1.1.1.1", "2.2.2.2", 10, 90, Protocol::Udp);
    let remote = PeerIdentity {
        name: "host1".into(),
        groups: groups(&["default-group"]),
        ca_sha: "signer-shasum".into(),
        ..Default::default()
    };
    assert!(rules.matches(&p, true, &remote));
}

#[test]
fn host_targeted_by_two_add_rule_calls_merges_local_cidr_rather_than_overwriting() {
    let mut b = open_builder();
    b.add_rule(
        true,
        Protocol::Tcp,
        PortSpec::Single(1),
        vec![],
        Some("db1".into()),
        None,
        LocalCidrSpec::Net(net("10.0.0.0/24")),
        None,
        None,
    )
    .unwrap();
    b.add_rule(
        true,
        Protocol::Tcp,
        PortSpec::Single(1),
        vec![],
        Some("db1".into()),
        None,
        LocalCidrSpec::Net(net("10.0.1.0/24")),
        None,
        None,
    )
    .unwrap();
    let rules = b.build();
    let remote = identity("db1", &[]);
    assert!(rules.matches(
        &packet("10.0.0.5", "9.9.9.9", 1, 1, Protocol::Tcp),
        true,
        &remote
    ));
    assert!(rules.matches(
        &packet("10.0.1.5", "9.9.9.9", 1, 1, Protocol::Tcp),
        true,
        &remote
    ));
    assert!(!rules.matches(
        &packet("10.0.2.5", "9.9.9.9", 1, 1, Protocol::Tcp),
        true,
        &remote
    ));
}

#[test]
fn local_cidr_unset_defaults_to_any_when_there_are_no_unsafe_networks() {
    let mut b = RuleSetBuilder::new(vec![net("10.0.0.9/32")], false, false);
    b.add_rule(
        true,
        Protocol::Tcp,
        PortSpec::Single(1),
        vec![],
        Some("h".into()),
        None,
        LocalCidrSpec::Unset,
        None,
        None,
    )
    .unwrap();
    let rules = b.build();
    let remote = identity("h", &[]);
    assert!(rules.matches(
        &packet("192.168.99.1", "9.9.9.9", 1, 1, Protocol::Tcp),
        true,
        &remote
    ));
}

#[test]
fn local_cidr_unset_falls_back_to_assigned_networks_when_unsafe_networks_exist() {
    let mut b = RuleSetBuilder::new(vec![net("10.0.0.9/32")], true, false);
    b.add_rule(
        true,
        Protocol::Tcp,
        PortSpec::Single(1),
        vec![],
        Some("h".into()),
        None,
        LocalCidrSpec::Unset,
        None,
        None,
    )
    .unwrap();
    let rules = b.build();
    let remote = identity("h", &[]);
    assert!(rules.matches(
        &packet("10.0.0.9", "9.9.9.9", 1, 1, Protocol::Tcp),
        true,
        &remote
    ));
    assert!(!rules.matches(
        &packet("192.168.99.1", "9.9.9.9", 1, 1, Protocol::Tcp),
        true,
        &remote
    ));
}

#[test]
fn local_cidr_unset_fallback_uses_the_full_assigned_prefix_not_just_the_host() {
    let mut b = RuleSetBuilder::new(vec![net("fd12::34/120")], true, false);
    b.add_rule(
        true,
        Protocol::Tcp,
        PortSpec::Single(1),
        vec![],
        Some("h".into()),
        None,
        LocalCidrSpec::Unset,
        None,
        None,
    )
    .unwrap();
    let rules = b.build();
    let remote = identity("h", &[]);
    assert!(
        rules.matches(
            &packet("fd12::99", "9::9", 1, 1, Protocol::Tcp),
            true,
            &remote
        ),
        "another address in the /120 matches"
    );
    assert!(
        !rules.matches(
            &packet("fd12::1:99", "9::9", 1, 1, Protocol::Tcp),
            true,
            &remote
        ),
        "an address outside the /120 does not"
    );
}

#[test]
fn default_local_cidr_any_overrides_the_unsafe_networks_fallback() {
    let mut b = RuleSetBuilder::new(vec![net("10.0.0.9/32")], true, true);
    b.add_rule(
        true,
        Protocol::Tcp,
        PortSpec::Single(1),
        vec![],
        Some("h".into()),
        None,
        LocalCidrSpec::Unset,
        None,
        None,
    )
    .unwrap();
    let rules = b.build();
    let remote = identity("h", &[]);
    assert!(rules.matches(
        &packet("192.168.99.1", "9.9.9.9", 1, 1, Protocol::Tcp),
        true,
        &remote
    ));
}

#[test]
fn explicit_local_cidr_any_is_unconditional_even_with_unsafe_networks() {
    let mut b = RuleSetBuilder::new(vec![net("10.0.0.9/32")], true, false);
    b.add_rule(
        true,
        Protocol::Tcp,
        PortSpec::Single(1),
        vec![],
        Some("h".into()),
        None,
        LocalCidrSpec::Any,
        None,
        None,
    )
    .unwrap();
    let rules = b.build();
    let remote = identity("h", &[]);
    assert!(rules.matches(
        &packet("192.168.99.1", "9.9.9.9", 1, 1, Protocol::Tcp),
        true,
        &remote
    ));
}

#[test]
fn groups_any_alongside_other_groups_warns() {
    let mut b = open_builder();
    b.add_rule(
        true,
        Protocol::Any,
        PortSpec::Any,
        vec!["any".into(), "foo".into()],
        None,
        None,
        LocalCidrSpec::Unset,
        None,
        None,
    )
    .unwrap();
    assert_eq!(
        b.warnings(),
        &[RuleWarning::GroupsShadowedByAny { incoming: true }]
    );
}

#[test]
fn host_any_combined_with_groups_warns() {
    let mut b = open_builder();
    b.add_rule(
        false,
        Protocol::Any,
        PortSpec::Any,
        vec!["g1".into()],
        Some("any".into()),
        None,
        LocalCidrSpec::Unset,
        None,
        None,
    )
    .unwrap();
    assert_eq!(
        b.warnings(),
        &[RuleWarning::HostAnyShadowsGroups {
            incoming: false,
            groups: vec!["g1".into()]
        }]
    );
}

#[test]
fn no_warning_for_a_well_formed_rule() {
    let mut b = open_builder();
    b.add_rule(
        true,
        Protocol::Any,
        PortSpec::Any,
        vec!["g1".into()],
        Some("bob".into()),
        None,
        LocalCidrSpec::Unset,
        None,
        None,
    )
    .unwrap();
    assert!(b.warnings().is_empty());
}
