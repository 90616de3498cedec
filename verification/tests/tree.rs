use std::collections::HashMap;

use nebula::firewall::rule::tree::{
    port_table_matches, CaRule, Direction, LocalCidr, PeerRule, PortTable, RuleSet, PORT_ANY,
    PORT_FRAGMENT,
};
use nebula::firewall::{Packet, PeerIdentity, Protocol, StringSet};
use nebula::map::KeyMap;
use nebula::net::{IpAddr, IpNet};

fn ip(s: &str) -> IpAddr {
    if s.contains(':') {
        let n: ipnet::Ipv6Net = format!("{s}/128").parse().unwrap();
        IpAddr::V6(u128::from_be_bytes(n.addr().octets()))
    } else {
        let n: ipnet::Ipv4Net = format!("{s}/32").parse().unwrap();
        IpAddr::V4(u32::from_be_bytes(n.addr().octets()))
    }
}

fn net(s: &str) -> IpNet {
    let (addr, len) = s.split_once('/').unwrap();
    IpNet::new(ip(addr), len.parse().unwrap()).unwrap()
}

fn groups(names: &[&str]) -> StringSet {
    let mut set = StringSet::new();
    for name in names {
        set.insert(name.to_string());
    }
    set
}

fn key_map<V>(pairs: Vec<(String, V)>) -> KeyMap<String, V> {
    let mut map = KeyMap::new();
    for (key, value) in pairs {
        map.insert(key, value);
    }
    map
}

fn packet(
    local: &str,
    remote: &str,
    local_port: u16,
    remote_port: u16,
    protocol: Protocol,
    fragment: bool,
) -> Packet {
    Packet {
        local_addr: ip(local),
        remote_addr: ip(remote),
        local_port,
        remote_port,
        protocol,
        fragment,
    }
}

fn identity(name: &str, groups: &[&str], ca_name: &str, ca_sha: &str) -> PeerIdentity {
    PeerIdentity {
        name: name.into(),
        groups: crate::groups(groups),
        ca_name: ca_name.into(),
        ca_sha: ca_sha.into(),
        ..Default::default()
    }
}

#[test]
fn local_cidr_any_matches_every_local_address() {
    let lc = LocalCidr {
        any: true,
        nets: vec![],
    };
    let p = packet("9.9.9.9", "1.1.1.1", 1, 1, Protocol::Tcp, false);
    assert!(lc.matches(&p));
}

#[test]
fn local_cidr_with_nets_matches_only_within_them() {
    let lc = LocalCidr {
        any: false,
        nets: vec![net("10.0.0.0/24")],
    };
    assert!(lc.matches(&packet("10.0.0.5", "1.1.1.1", 1, 1, Protocol::Tcp, false)));
    assert!(!lc.matches(&packet("10.0.1.5", "1.1.1.1", 1, 1, Protocol::Tcp, false)));
}

#[test]
fn peer_rule_groups_requires_all_groups_present_but_matches_across_entries() {
    let pr = PeerRule {
        groups: vec![
            (
                vec!["default-group".into(), "test-group".into()],
                LocalCidr {
                    any: true,
                    nets: vec![],
                },
            ),
            (
                vec!["admins".into()],
                LocalCidr {
                    any: true,
                    nets: vec![],
                },
            ),
        ],
        ..Default::default()
    };
    let p = packet("1.1.1.1", "2.2.2.2", 1, 1, Protocol::Tcp, false);

    let has_both = identity("h1", &["default-group", "test-group"], "", "");
    assert!(pr.matches(&p, &has_both));

    let missing_one = identity("h1", &["default-group"], "", "");
    assert!(!pr.matches(&p, &missing_one));

    let only_admin = identity("h1", &["admins"], "", "");
    assert!(pr.matches(&p, &only_admin));
}

#[test]
fn peer_rule_host_and_cidr_are_independent_or_paths() {
    let pr = PeerRule {
        hosts: key_map(vec![(
            "db1".to_string(),
            LocalCidr {
                any: true,
                nets: vec![],
            },
        )]),
        cidrs: vec![(
            net("172.16.0.0/16"),
            LocalCidr {
                any: true,
                nets: vec![],
            },
        )],
        ..Default::default()
    };
    let by_host = packet("1.1.1.1", "9.9.9.9", 1, 1, Protocol::Tcp, false);
    assert!(pr.matches(&by_host, &identity("db1", &[], "", "")));
    assert!(!pr.matches(&by_host, &identity("other-host", &[], "", "")));

    let by_cidr = packet("1.1.1.1", "172.16.5.5", 1, 1, Protocol::Tcp, false);
    assert!(pr.matches(&by_cidr, &identity("other-host", &[], "", "")));
}

#[test]
fn ca_rule_any_ca_shas_and_ca_names_are_independent_buckets() {
    let matches_default_group = || PeerRule {
        groups: vec![(
            vec!["default-group".into()],
            LocalCidr {
                any: true,
                nets: vec![],
            },
        )],
        ..Default::default()
    };
    let ca = CaRule {
        any: None,
        ca_shas: key_map(vec![
            (
                "signer-shasum-bad".to_string(),
                PeerRule {
                    groups: vec![(
                        vec!["nope".into()],
                        LocalCidr {
                            any: true,
                            nets: vec![],
                        },
                    )],
                    ..Default::default()
                },
            ),
            ("signer-shasum".to_string(), matches_default_group()),
        ]),
        ca_names: KeyMap::new(),
    };
    let p = packet("1.1.1.1", "2.2.2.2", 1, 1, Protocol::Tcp, false);
    let remote = PeerIdentity {
        name: "host1".into(),
        groups: groups(&["default-group"]),
        ca_sha: "signer-shasum".into(),
        ..Default::default()
    };
    assert!(ca.matches(&p, &remote));

    let remote_wrong_ca = PeerIdentity {
        ca_sha: "signer-shasum-bad-typo".into(),
        ..remote.clone()
    };
    assert!(!ca.matches(&p, &remote_wrong_ca));
}

#[test]
fn port_table_selects_local_port_when_incoming_and_remote_port_when_outgoing() {
    let mut table: PortTable = HashMap::new();
    table.insert(
        10,
        CaRule {
            any: Some(PeerRule {
                any: Some(LocalCidr {
                    any: true,
                    nets: vec![],
                }),
                ..Default::default()
            }),
            ..Default::default()
        },
    );

    let p = packet("1.1.1.1", "2.2.2.2", 10, 99, Protocol::Tcp, false);
    let remote = identity("h", &[], "", "");
    assert!(
        port_table_matches(&table, &p, true, &remote),
        "incoming should match on local_port 10"
    );
    assert!(
        !port_table_matches(&table, &p, false, &remote),
        "outgoing should check remote_port 99, not 10"
    );
}

#[test]
fn port_table_falls_back_to_port_any() {
    let mut table: PortTable = HashMap::new();
    table.insert(
        PORT_ANY,
        CaRule {
            any: Some(PeerRule {
                any: Some(LocalCidr {
                    any: true,
                    nets: vec![],
                }),
                ..Default::default()
            }),
            ..Default::default()
        },
    );

    let p = packet("1.1.1.1", "2.2.2.2", 12345, 1, Protocol::Tcp, false);
    assert!(port_table_matches(
        &table,
        &p,
        true,
        &identity("h", &[], "", "")
    ));
}

#[test]
fn port_table_uses_port_fragment_for_fragments_regardless_of_actual_port() {
    let mut table: PortTable = HashMap::new();
    table.insert(
        PORT_FRAGMENT,
        CaRule {
            any: Some(PeerRule {
                any: Some(LocalCidr {
                    any: true,
                    nets: vec![],
                }),
                ..Default::default()
            }),
            ..Default::default()
        },
    );

    let p = packet("1.1.1.1", "2.2.2.2", 10, 90, Protocol::Tcp, true);
    assert!(port_table_matches(
        &table,
        &p,
        true,
        &identity("h", &[], "", "")
    ));
}

#[test]
fn direction_checks_any_proto_before_the_protocol_specific_table() {
    let mut dir = Direction::default();
    dir.any_proto.insert(
        PORT_ANY,
        CaRule {
            any: Some(PeerRule {
                any: Some(LocalCidr {
                    any: true,
                    nets: vec![],
                }),
                ..Default::default()
            }),
            ..Default::default()
        },
    );

    let udp_packet = packet("1.1.1.1", "2.2.2.2", 1, 1, Protocol::Udp, false);
    assert!(dir.matches(&udp_packet, true, &identity("h", &[], "", "")));
}

#[test]
fn direction_rejects_protocol_other_unless_any_proto_matches() {
    let dir = Direction::default();
    let sctp_packet = packet("1.1.1.1", "2.2.2.2", 1, 1, Protocol::Other(132), false);
    assert!(!dir.matches(&sctp_packet, true, &identity("h", &[], "", "")));
}

#[test]
fn direction_routes_icmpv6_to_the_icmp_table() {
    let mut dir = Direction::default();
    dir.icmp.insert(
        PORT_ANY,
        CaRule {
            any: Some(PeerRule {
                any: Some(LocalCidr {
                    any: true,
                    nets: vec![],
                }),
                ..Default::default()
            }),
            ..Default::default()
        },
    );
    let v6 = packet("fd00::1", "fd00::2", 1, 1, Protocol::IcmpV6, false);
    assert!(dir.matches(&v6, true, &identity("h", &[], "", "")));
}

#[test]
fn peer_cidr_and_local_cidr_match_ipv6() {
    let pr = PeerRule {
        cidrs: vec![(
            net("fd00::/64"),
            LocalCidr {
                any: false,
                nets: vec![net("fd12::/64")],
            },
        )],
        ..Default::default()
    };
    let h = identity("h", &[], "", "");
    assert!(
        pr.matches(
            &packet("fd12::5", "fd00::9", 1, 1, Protocol::Tcp, false),
            &h
        ),
        "remote in cidr AND local in local_cidr"
    );
    assert!(
        !pr.matches(
            &packet("fd99::5", "fd00::9", 1, 1, Protocol::Tcp, false),
            &h
        ),
        "local outside local_cidr"
    );
    assert!(
        !pr.matches(
            &packet("fd12::5", "fd99::9", 1, 1, Protocol::Tcp, false),
            &h
        ),
        "remote outside cidr"
    );
}

#[test]
fn ruleset_selects_inbound_or_outbound_by_direction() {
    let mut rules = RuleSet::default();
    rules.inbound.any_proto.insert(
        PORT_ANY,
        CaRule {
            any: Some(PeerRule {
                any: Some(LocalCidr {
                    any: true,
                    nets: vec![],
                }),
                ..Default::default()
            }),
            ..Default::default()
        },
    );

    let p = packet("1.1.1.1", "2.2.2.2", 1, 1, Protocol::Tcp, false);
    let remote = identity("h", &[], "", "");
    assert!(rules.matches(&p, true, &remote));
    assert!(!rules.matches(&p, false, &remote));
}
