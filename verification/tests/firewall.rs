use nebula::firewall::{
    DropReason, Firewall, FirewallOptions, LocalCidrSpec, Packet, PeerIdentity, PortSpec, Protocol,
    RuleSetBuilder, StringSet,
};
use nebula::net::{IpAddr, IpNet};
use nebula::time::{Duration, Instant};

fn ip(s: &str) -> IpAddr {
    if s.contains(':') {
        let n: ipnet::Ipv6Net = format!("{s}/128").parse().unwrap();
        IpAddr::V6(u128::from_be_bytes(n.addr().octets()))
    } else {
        let n: ipnet::Ipv4Net = format!("{s}/32").parse().unwrap();
        IpAddr::V4(u32::from_be_bytes(n.addr().octets()))
    }
}

fn net(s: &str) -> IpNet {
    let (addr, len) = s.split_once('/').unwrap();
    IpNet::new(ip(addr), len.parse().unwrap()).unwrap()
}

fn groups(names: &[&str]) -> StringSet {
    let mut set = StringSet::new();
    for name in names {
        set.insert(name.to_string());
    }
    set
}

fn options() -> FirewallOptions {
    FirewallOptions {
        tcp_timeout: Duration::from_secs(1),
        udp_timeout: Duration::from_secs(60),
        default_timeout: Duration::from_secs(600),
        in_send_reject: false,
        out_send_reject: false,
        default_local_cidr_any: false,
    }
}

fn packet() -> Packet {
    Packet {
        local_addr: ip("1.2.3.4"),
        remote_addr: ip("1.2.3.4"),
        local_port: 10,
        remote_port: 90,
        protocol: Protocol::Udp,
        fragment: false,
    }
}

fn remote() -> PeerIdentity {
    PeerIdentity {
        name: "host1".into(),
        groups: groups(&["default-group"]),
        vpn_networks: vec![net("1.2.3.4/32")],
        ..Default::default()
    }
}

fn allow_any_firewall() -> Firewall {
    let mut b = RuleSetBuilder::new(vec![net("1.2.3.4/32")], false, false);
    b.add_rule(
        true,
        Protocol::Any,
        PortSpec::Any,
        vec!["any".into()],
        None,
        None,
        LocalCidrSpec::Unset,
        None,
        None,
    )
    .unwrap();
    Firewall::new(
        b.build(),
        options(),
        vec![net("1.2.3.4/32")],
        vec![],
    )
}

#[test]
fn drops_outbound_when_only_an_inbound_rule_exists() {
    let mut fw = allow_any_firewall();
    assert_eq!(
        fw.evaluate(packet(), false, &remote()),
        Err(DropReason::NoMatchingRule)
    );
}

#[test]
fn allows_inbound_matching_the_any_rule() {
    let mut fw = allow_any_firewall();
    assert_eq!(fw.evaluate(packet(), true, &remote()), Ok(()));
}

#[test]
fn conntrack_lets_the_return_leg_through_without_a_matching_outbound_rule() {
    let mut fw = allow_any_firewall();
    fw.evaluate(packet(), true, &remote()).unwrap();
    assert_eq!(fw.evaluate(packet(), false, &remote()), Ok(()));
}

#[test]
fn rejects_when_local_addr_is_not_routable() {
    let mut fw = allow_any_firewall();
    let mut p = packet();
    p.local_addr = ip("9.9.9.9");
    assert_eq!(
        fw.evaluate(p, true, &remote()),
        Err(DropReason::InvalidLocalIp)
    );
}

#[test]
fn rejects_when_remote_addr_is_not_owned_by_the_identity() {
    let mut fw = allow_any_firewall();
    let mut p = packet();
    p.remote_addr = ip("1.2.3.10");
    assert_eq!(
        fw.evaluate(p, true, &remote()),
        Err(DropReason::InvalidRemoteIp)
    );
}

#[test]
fn assigned_network_wider_than_a_host_is_only_routable_at_its_exact_address() {
    let assigned = vec![net("fd00::1/8")];
    let mut b = RuleSetBuilder::new(assigned.clone(), false, false);
    b.add_rule(
        true,
        Protocol::Any,
        PortSpec::Any,
        vec!["any".into()],
        None,
        None,
        LocalCidrSpec::Unset,
        None,
        None,
    )
    .unwrap();
    let mut fw = Firewall::new(b.build(), options(), assigned, vec![]);

    let remote = PeerIdentity {
        name: "host1".into(),
        groups: groups(&["default-group"]),
        vpn_networks: vec![net("2222::2/128")],
        ..Default::default()
    };

    let on_host = Packet {
        local_addr: ip("fd00::1"),
        remote_addr: ip("2222::2"),
        local_port: 10,
        remote_port: 90,
        protocol: Protocol::Udp,
        fragment: false,
    };
    assert_eq!(
        fw.evaluate(on_host, true, &remote),
        Ok(()),
        "exact assigned address is routable"
    );

    let off_host = Packet {
        local_addr: ip("fd12::34"),
        remote_addr: ip("2222::2"),
        local_port: 10,
        remote_port: 90,
        protocol: Protocol::Udp,
        fragment: false,
    };
    assert_eq!(
        fw.evaluate(off_host, true, &remote),
        Err(DropReason::InvalidLocalIp),
        "another address inside the /8 is not"
    );
}

#[test]
fn allows_inbound_over_ipv6_including_icmpv6() {
    let assigned = vec![net("fd12::34/128")];
    let mut b = RuleSetBuilder::new(assigned.clone(), false, false);
    b.add_rule(
        true,
        Protocol::IcmpV6,
        PortSpec::Any,
        vec!["any".into()],
        None,
        None,
        LocalCidrSpec::Unset,
        None,
        None,
    )
    .unwrap();
    let mut fw = Firewall::new(b.build(), options(), assigned, vec![]);

    let remote = PeerIdentity {
        name: "host1".into(),
        groups: groups(&["default-group"]),
        vpn_networks: vec![net("fd12::34/128")],
        ..Default::default()
    };
    let p = Packet {
        local_addr: ip("fd12::34"),
        remote_addr: ip("fd12::34"),
        local_port: 0,
        remote_port: 0,
        protocol: Protocol::IcmpV6,
        fragment: false,
    };
    assert_eq!(fw.evaluate(p, true, &remote), Ok(()));
}

#[test]
fn reload_invalidates_a_conntracked_flow_that_no_longer_matches() {
    let mut b = RuleSetBuilder::new(vec![net("1.2.3.4/32")], false, false);
    b.add_rule(
        true,
        Protocol::Any,
        PortSpec::Any,
        vec!["any".into()],
        None,
        None,
        LocalCidrSpec::Unset,
        None,
        None,
    )
    .unwrap();
    let mut fw = Firewall::new(
        b.build(),
        options(),
        vec![net("1.2.3.4/32")],
        vec![],
    );

    fw.evaluate(packet(), true, &remote()).unwrap();
    assert_eq!(
        fw.evaluate(packet(), false, &remote()),
        Ok(()),
        "outbound passes via conntrack before reload"
    );

    let mut b2 = RuleSetBuilder::new(vec![net("1.2.3.4/32")], false, false);
    b2.add_rule(
        true,
        Protocol::Any,
        PortSpec::Single(11),
        vec!["any".into()],
        None,
        None,
        LocalCidrSpec::Unset,
        None,
        None,
    )
    .unwrap();
    fw.reload(b2.build());

    assert_eq!(
        fw.evaluate(packet(), false, &remote()),
        Err(DropReason::NoMatchingRule),
        "port 10 no longer matches the reloaded ruleset"
    );
}

#[test]
fn options_are_readable_by_the_consumer() {
    let fw = allow_any_firewall();
    assert!(!fw.options().in_send_reject);
}

#[test]
fn a_silent_flow_is_forgotten() {
    let mut fw = allow_any_firewall();
    let at = |secs: u64| Instant { nanos: secs as u128 * 1_000_000_000 };
    assert_eq!(fw.evaluate_at(packet(), true, &remote(), at(1)), Ok(()));
    assert_eq!(fw.evaluate_at(packet(), false, &remote(), at(50)), Ok(()));
    assert_eq!(fw.evaluate_at(packet(), false, &remote(), at(109)), Ok(()));
    assert_eq!(
        fw.evaluate_at(packet(), false, &remote(), at(169)),
        Err(DropReason::NoMatchingRule)
    );
}

#[test]
fn no_number_of_reloads_spares_a_flow_the_rules() {
    let mut fw = allow_any_firewall();
    let now = Instant { nanos: 1 };
    fw.evaluate_at(packet(), true, &remote(), now).unwrap();
    for _ in 0..65_536 {
        fw.reload(RuleSetBuilder::new(vec![net("1.2.3.4/32")], false, false).build());
    }
    assert_eq!(
        fw.evaluate_at(packet(), true, &remote(), now),
        Err(DropReason::NoMatchingRule)
    );
}

#[test]
fn a_neighbour_of_the_peer_is_refused() {
    let mut fw = allow_any_firewall();
    let wide = PeerIdentity { vpn_networks: vec![net("1.2.3.4/24")], ..remote() };
    assert_eq!(fw.evaluate(packet(), true, &wide), Ok(()));
    let mut p = packet();
    p.remote_addr = ip("1.2.3.5");
    assert_eq!(fw.evaluate(p, true, &wide), Err(DropReason::InvalidRemoteIp));
}

#[test]
fn a_flow_passes_until_its_timeout_whatever_else_comes() {
    let mut fw = allow_any_firewall();
    let second = |s: u128| Instant { nanos: s * 1_000_000_000 };
    let stranger = PeerIdentity::default();
    fw.evaluate_at(packet(), true, &remote(), second(0)).unwrap();
    let mut other = packet();
    other.local_port = 11;
    assert_eq!(fw.evaluate_at(other, true, &remote(), second(30)), Ok(()));
    assert_eq!(fw.evaluate_at(packet(), false, &stranger, second(59)), Ok(()));
    other.remote_addr = ip("9.9.9.9");
    assert_eq!(
        fw.evaluate_at(other, true, &stranger, second(100)),
        Err(DropReason::InvalidRemoteIp)
    );
    assert_eq!(fw.evaluate_at(packet(), false, &stranger, second(118)), Ok(()));
    assert_eq!(
        fw.evaluate_at(packet(), false, &remote(), second(178)),
        Err(DropReason::NoMatchingRule)
    );
}

#[test]
fn a_reload_keeps_the_direction_of_a_flow_or_takes_the_packets() {
    let rules = |incoming: bool| {
        let mut b = RuleSetBuilder::new(vec![net("1.2.3.4/32")], false, false);
        b.add_rule(
            incoming,
            Protocol::Any,
            PortSpec::Any,
            vec![],
            None,
            None,
            LocalCidrSpec::Unset,
            None,
            None,
        )
        .unwrap();
        b.build()
    };
    let now = Instant { nanos: 1 };
    let stranger = PeerIdentity::default();
    let mut fw = allow_any_firewall();
    fw.evaluate_at(packet(), true, &remote(), now).unwrap();
    // Admitted in its direction: whose address it is is not asked again.
    fw.reload(rules(true));
    assert_eq!(fw.evaluate_at(packet(), false, &stranger, now), Ok(()));
    // Admitted only afresh, in the direction of the packet, which it takes.
    fw.reload(rules(false));
    assert_eq!(fw.evaluate_at(packet(), false, &remote(), now), Ok(()));
    fw.reload(rules(false));
    assert_eq!(fw.evaluate_at(packet(), true, &stranger, now), Ok(()));
    // Admitted in neither way.
    fw.reload(rules(true));
    assert_eq!(
        fw.evaluate_at(packet(), false, &remote(), now),
        Err(DropReason::NoMatchingRule)
    );
}
