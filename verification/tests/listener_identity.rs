use nebula::listener::identity::{check_networks, peer_identity};
use nebula::net::{IpAddr, IpNet};
use nebula::protocol::cert::der::Network;
use nebula::protocol::session::PeerInfo;

fn ip(s: &str) -> IpAddr {
    if s.contains(':') {
        let n: ipnet::Ipv6Net = format!("{s}/128").parse().unwrap();
        IpAddr::V6(u128::from_be_bytes(n.addr().octets()))
    } else {
        let n: ipnet::Ipv4Net = format!("{s}/32").parse().unwrap();
        IpAddr::V4(u32::from_be_bytes(n.addr().octets()))
    }
}

fn net(s: &str) -> IpNet {
    let (addr, len) = s.split_once('/').unwrap();
    IpNet::new(ip(addr), len.parse().unwrap()).unwrap()
}

fn network(addr: &str, prefix_len: u8) -> Network {
    Network { addr: ip(addr), prefix_len }
}

#[test]
fn vpn_networks_become_host_routes_and_unsafe_keep_prefix() {
    let info = PeerInfo {
        name: "host-a".into(),
        groups: vec!["test".into(), "host".into()],
        networks: vec![network("10.100.0.3", 16)],
        unsafe_networks: vec![network("192.168.9.0", 24)],
    };
    let id = peer_identity(&info, "my-ca", "deadbeef");

    assert_eq!(id.name, "host-a");
    assert!(id.groups.contains(&"test".to_string()) && id.groups.contains(&"host".to_string()));
    assert_eq!(id.ca_name, "my-ca");
    assert_eq!(id.ca_sha, "deadbeef");
    assert_eq!(id.vpn_networks, vec![net("10.100.0.3/32")]);
    assert_eq!(id.unsafe_networks, vec![net("192.168.9.0/24")]);
    assert!(id.owns(ip("10.100.0.3")));
    assert!(!id.owns(ip("10.100.0.4")));
    assert!(id.owns(ip("192.168.9.42")));
}

#[test]
fn ipv6_networks_convert_to_128_host_routes() {
    let info = PeerInfo {
        name: "host6".into(),
        groups: vec![],
        networks: vec![network("fd00::3", 64)],
        unsafe_networks: vec![network("fd99::", 64)],
    };
    let id = peer_identity(&info, "ca", "sha");
    assert_eq!(id.vpn_networks, vec![net("fd00::3/128")]);
    assert_eq!(id.unsafe_networks, vec![net("fd99::/64")]);
    assert!(id.owns(ip("fd00::3")));
    assert!(!id.owns(ip("fd00::4")));
}

#[test]
fn overlong_prefixes_are_told() {
    assert!(check_networks(&vec![network("10.0.0.1", 32), network("fd00::1", 128)]));
    assert!(!check_networks(&vec![network("10.0.0.1", 33)]));
    assert!(!check_networks(&vec![network("fd00::1", 129)]));
}
