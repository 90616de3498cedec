use nebula::firewall::{
    Firewall, FirewallOptions, LocalCidrSpec, Packet, PeerIdentity, PortSpec, Protocol,
    RuleSetBuilder, StringSet,
};
use nebula::net::{IpAddr, IpNet};
use nebula::time::Duration;

fn ip(s: &str) -> IpAddr {
    if s.contains(':') {
        let n: ipnet::Ipv6Net = format!("{s}/128").parse().unwrap();
        IpAddr::V6(u128::from_be_bytes(n.addr().octets()))
    } else {
        let n: ipnet::Ipv4Net = format!("{s}/32").parse().unwrap();
        IpAddr::V4(u32::from_be_bytes(n.addr().octets()))
    }
}

fn net(s: &str) -> IpNet {
    let (addr, len) = s.split_once('/').unwrap();
    IpNet::new(ip(addr), len.parse().unwrap()).unwrap()
}

fn groups(names: &[&str]) -> StringSet {
    let mut set = StringSet::new();
    for name in names {
        set.insert(name.to_string());
    }
    set
}

fn options() -> FirewallOptions {
    FirewallOptions {
        tcp_timeout: Duration::from_secs(1),
        udp_timeout: Duration::from_secs(60),
        default_timeout: Duration::from_secs(600),
        in_send_reject: false,
        out_send_reject: false,
        default_local_cidr_any: false,
    }
}

fn packet(local: &str, remote: &str, local_port: u16, remote_port: u16) -> Packet {
    Packet {
        local_addr: ip(local),
        remote_addr: ip(remote),
        local_port,
        remote_port,
        protocol: Protocol::Udp,
        fragment: false,
    }
}

#[test]
fn drop_basic_allow_and_remote_mismatch() {
    let assigned = vec![net("1.2.3.4/32")];
    let mut b = RuleSetBuilder::new(assigned.clone(), false, false);
    b.add_rule(
        true,
        Protocol::Any,
        PortSpec::Any,
        vec!["any".into()],
        None,
        None,
        LocalCidrSpec::Unset,
        None,
        None,
    )
    .unwrap();
    let mut fw = Firewall::new(b.build(), options(), assigned, vec![]);

    let remote = PeerIdentity {
        name: "host1".into(),
        groups: groups(&["default-group"]),
        vpn_networks: vec![net("1.2.3.4/32")],
        ..Default::default()
    };

    let p = packet("1.2.3.4", "1.2.3.4", 10, 90);
    assert!(
        fw.evaluate(p, false, &remote).is_err(),
        "outbound should have no matching rule"
    );
    assert!(
        fw.evaluate(p, true, &remote).is_ok(),
        "inbound matches the any rule"
    );
    assert!(
        fw.evaluate(p, false, &remote).is_ok(),
        "outbound now passes via conntrack"
    );

    let mut mismatched = p;
    mismatched.remote_addr = ip("1.2.3.10");
    assert!(
        fw.evaluate(mismatched, false, &remote).is_err(),
        "remote address the identity doesn't own is rejected"
    );
}

#[test]
fn drop_group_rule_requires_every_named_group() {
    let assigned = vec![net("1.2.3.4/32")];
    let mut b = RuleSetBuilder::new(assigned.clone(), false, false);
    b.add_rule(
        true,
        Protocol::Any,
        PortSpec::Any,
        vec!["default-group".into(), "test-group".into()],
        None,
        None,
        LocalCidrSpec::Unset,
        None,
        None,
    )
    .unwrap();
    let mut fw = Firewall::new(b.build(), options(), assigned, vec![]);

    let p = packet("1.2.3.4", "1.2.3.4", 10, 90);

    let missing_one = PeerIdentity {
        name: "host1".into(),
        groups: groups(&["default-group", "test-group-not"]),
        vpn_networks: vec![net("1.2.3.4/32")],
        ..Default::default()
    };
    assert!(fw.evaluate(p, true, &missing_one).is_err());

    let has_both = PeerIdentity {
        name: "host1".into(),
        groups: groups(&["default-group", "test-group"]),
        vpn_networks: vec![net("1.2.3.4/32")],
        ..Default::default()
    };
    assert!(fw.evaluate(p, true, &has_both).is_ok());
}

#[test]
fn drop_host_ca_sha_and_remote_cidr_are_independent_match_paths() {
    let assigned = vec![net("1.2.3.4/32")];
    let make_fw = || {
        let mut b = RuleSetBuilder::new(assigned.clone(), false, false);
        b.add_rule(
            true,
            Protocol::Any,
            PortSpec::Single(1),
            vec![],
            Some("host1".into()),
            None,
            LocalCidrSpec::Unset,
            None,
            None,
        )
        .unwrap();
        b.add_rule(
            true,
            Protocol::Any,
            PortSpec::Single(1),
            vec![],
            None,
            None,
            LocalCidrSpec::Unset,
            None,
            Some("signer-sha".into()),
        )
        .unwrap();
        Firewall::new(b.build(), options(), assigned.clone(), vec![])
    };

    let p = packet("1.2.3.4", "1.2.3.4", 1, 1);

    let by_host = PeerIdentity {
        name: "host1".into(),
        vpn_networks: assigned.clone(),
        ca_sha: "signer-sha-bad".into(),
        ..Default::default()
    };
    assert!(
        make_fw().evaluate(p, true, &by_host).is_ok(),
        "matches via host name"
    );

    let by_ca_sha = PeerIdentity {
        name: "host2".into(),
        vpn_networks: assigned.clone(),
        ca_sha: "signer-sha".into(),
        ..Default::default()
    };
    assert!(
        make_fw().evaluate(p, true, &by_ca_sha).is_ok(),
        "matches via ca_sha"
    );

    let neither = PeerIdentity {
        name: "host3".into(),
        vpn_networks: assigned.clone(),
        ca_sha: "signer-sha-bad".into(),
        ..Default::default()
    };
    assert!(
        make_fw().evaluate(p, true, &neither).is_err(),
        "matches neither path"
    );

    let mut b2 = RuleSetBuilder::new(assigned.clone(), false, false);
    b2.add_rule(
        true,
        Protocol::Any,
        PortSpec::Single(1),
        vec![],
        None,
        Some(net("1.2.3.4/24")),
        LocalCidrSpec::Unset,
        None,
        None,
    )
    .unwrap();
    let mut fw2 = Firewall::new(b2.build(), options(), assigned, vec![]);
    assert!(
        fw2.evaluate(p, true, &neither).is_ok(),
        "matches via remote cidr"
    );
}

#[test]
fn drop_reload_lazily_revalidates_conntracked_flows() {
    let assigned = vec![net("1.2.3.4/32")];
    let mut b = RuleSetBuilder::new(assigned.clone(), false, false);
    b.add_rule(
        true,
        Protocol::Any,
        PortSpec::Any,
        vec!["any".into()],
        None,
        None,
        LocalCidrSpec::Unset,
        None,
        None,
    )
    .unwrap();
    let mut fw = Firewall::new(b.build(), options(), assigned.clone(), vec![]);

    let remote = PeerIdentity {
        name: "host1".into(),
        groups: groups(&["default-group"]),
        vpn_networks: vec![net("1.2.3.4/32")],
        ..Default::default()
    };
    let p = packet("1.2.3.4", "1.2.3.4", 10, 90);

    assert!(fw.evaluate(p, true, &remote).is_ok());
    assert!(
        fw.evaluate(p, false, &remote).is_ok(),
        "outbound passes via conntrack"
    );

    let mut b2 = RuleSetBuilder::new(assigned.clone(), false, false);
    b2.add_rule(
        true,
        Protocol::Any,
        PortSpec::Single(10),
        vec!["any".into()],
        None,
        None,
        LocalCidrSpec::Unset,
        None,
        None,
    )
    .unwrap();
    fw.reload(b2.build());
    assert!(
        fw.evaluate(p, false, &remote).is_ok(),
        "reloaded ruleset still allows port 10 on revalidation"
    );

    let mut b3 = RuleSetBuilder::new(assigned.clone(), false, false);
    b3.add_rule(
        true,
        Protocol::Any,
        PortSpec::Single(11),
        vec!["any".into()],
        None,
        None,
        LocalCidrSpec::Unset,
        None,
        None,
    )
    .unwrap();
    fw.reload(b3.build());
    assert!(
        fw.evaluate(p, false, &remote).is_err(),
        "reloaded ruleset no longer allows port 10"
    );
}

#[test]
fn drop_ca_sha_scoping_blocks_when_neither_bucket_grants_the_peer() {
    let assigned = vec![net("1.2.3.4/32")];
    let mut b = RuleSetBuilder::new(assigned.clone(), false, false);
    b.add_rule(
        true,
        Protocol::Any,
        PortSpec::Any,
        vec!["nope".into()],
        None,
        None,
        LocalCidrSpec::Unset,
        None,
        Some("signer-shasum".into()),
    )
    .unwrap();
    b.add_rule(
        true,
        Protocol::Any,
        PortSpec::Any,
        vec!["default-group".into()],
        None,
        None,
        LocalCidrSpec::Unset,
        None,
        Some("signer-shasum-bad".into()),
    )
    .unwrap();
    let mut fw = Firewall::new(b.build(), options(), assigned.clone(), vec![]);

    let remote = PeerIdentity {
        name: "host1".into(),
        groups: groups(&["default-group"]),
        vpn_networks: assigned,
        ca_sha: "signer-shasum".into(),
        ..Default::default()
    };
    assert!(
        fw.evaluate(packet("1.2.3.4", "1.2.3.4", 10, 90), true, &remote)
            .is_err(),
        "peer's bucket wants a group it lacks; its group is in another bucket"
    );
}

#[test]
fn drop_basic_allow_over_ipv6() {
    let assigned = vec![net("fd12::34/128")];
    let mut b = RuleSetBuilder::new(assigned.clone(), false, false);
    b.add_rule(
        true,
        Protocol::Any,
        PortSpec::Any,
        vec!["any".into()],
        None,
        None,
        LocalCidrSpec::Unset,
        None,
        None,
    )
    .unwrap();
    let mut fw = Firewall::new(b.build(), options(), assigned, vec![]);

    let remote = PeerIdentity {
        name: "host1".into(),
        groups: groups(&["default-group"]),
        vpn_networks: vec![net("fd12::34/128")],
        ..Default::default()
    };

    let p = packet("fd12::34", "fd12::34", 10, 90);
    assert!(
        fw.evaluate(p, false, &remote).is_err(),
        "outbound has no matching rule"
    );
    assert!(
        fw.evaluate(p, true, &remote).is_ok(),
        "inbound matches the any rule"
    );
    assert!(
        fw.evaluate(p, false, &remote).is_ok(),
        "outbound now passes via conntrack"
    );

    let mut mismatched = p;
    mismatched.remote_addr = ip("fd12::56");
    assert!(
        fw.evaluate(mismatched, false, &remote).is_err(),
        "unowned v6 remote address is rejected"
    );
}

#[test]
fn drop_enforce_ip_match_over_ipv6() {
    let assigned = vec![net("fd00::1/8")];
    let mut b = RuleSetBuilder::new(assigned.clone(), false, false);
    b.add_rule(
        true,
        Protocol::Any,
        PortSpec::Any,
        vec!["any".into()],
        None,
        None,
        LocalCidrSpec::Unset,
        None,
        None,
    )
    .unwrap();
    let mut fw = Firewall::new(b.build(), options(), assigned, vec![]);

    let remote = PeerIdentity {
        name: "host1".into(),
        groups: groups(&["default-group"]),
        vpn_networks: vec![net("2222::2/128")],
        ..Default::default()
    };

    assert!(
        fw.evaluate(packet("fd00::1", "2222::2", 10, 90), true, &remote)
            .is_ok(),
        "exact assigned v6 address is routable"
    );
    assert!(
        fw.evaluate(packet("fd12::34", "2222::2", 10, 90), true, &remote)
            .is_err(),
        "another address inside the /8 is not routable"
    );
}
