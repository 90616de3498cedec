use nebula::firewall::PeerIdentity;
use nebula::net::{IpAddr, IpNet};

fn ip(s: &str) -> IpAddr {
    if s.contains(':') {
        let n: ipnet::Ipv6Net = format!("{s}/128").parse().unwrap();
        IpAddr::V6(u128::from_be_bytes(n.addr().octets()))
    } else {
        let n: ipnet::Ipv4Net = format!("{s}/32").parse().unwrap();
        IpAddr::V4(u32::from_be_bytes(n.addr().octets()))
    }
}

fn net(s: &str) -> IpNet {
    let (addr, len) = s.split_once('/').unwrap();
    IpNet::new(ip(addr), len.parse().unwrap()).unwrap()
}

fn identity() -> PeerIdentity {
    PeerIdentity {
        name: "host1".into(),
        vpn_networks: vec![net("10.0.0.5/32")],
        unsafe_networks: vec![net("192.168.1.0/24")],
        ..Default::default()
    }
}

#[test]
fn owns_its_exact_vpn_address() {
    assert!(identity().owns(ip("10.0.0.5")));
}

#[test]
fn does_not_own_a_different_address_in_the_same_vpn_prefix() {
    assert!(!identity().owns(ip("10.0.0.6")));
}

#[test]
fn owns_no_neighbour_under_a_wide_prefix() {
    let id = PeerIdentity {
        vpn_networks: vec![net("10.0.0.5/24"), net("fd12::34/64")],
        ..Default::default()
    };
    assert!(id.owns(ip("10.0.0.5")));
    assert!(!id.owns(ip("10.0.0.6")));
    assert!(!id.owns(ip("10.0.0.0")));
    assert!(id.owns(ip("fd12::34")));
    assert!(!id.owns(ip("fd12::35")));
}

#[test]
fn owns_any_address_within_its_unsafe_network() {
    assert!(identity().owns(ip("192.168.1.200")));
}

#[test]
fn does_not_own_an_unrelated_address() {
    assert!(!identity().owns(ip("8.8.8.8")));
}

#[test]
fn owns_ipv6_vpn_and_unsafe_networks() {
    let id = PeerIdentity {
        name: "host6".into(),
        vpn_networks: vec![net("fd12::34/128")],
        unsafe_networks: vec![net("fd99::/64")],
        ..Default::default()
    };
    assert!(id.owns(ip("fd12::34")), "exact v6 vpn address");
    assert!(
        !id.owns(ip("fd12::35")),
        "different v6 host is not owned"
    );
    assert!(
        id.owns(ip("fd99::abcd")),
        "address within v6 unsafe network"
    );
    assert!(!id.owns(ip("fd00::1")), "unrelated v6 address");
}
