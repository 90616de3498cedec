use std::collections::HashMap;

use nebula::firewall::{Packet, Protocol};
use nebula::net::IpAddr;

fn ip(s: &str) -> IpAddr {
    if s.contains(':') {
        let n: ipnet::Ipv6Net = format!("{s}/128").parse().unwrap();
        IpAddr::V6(u128::from_be_bytes(n.addr().octets()))
    } else {
        let n: ipnet::Ipv4Net = format!("{s}/32").parse().unwrap();
        IpAddr::V4(u32::from_be_bytes(n.addr().octets()))
    }
}

#[test]
fn known_protocol_numbers_round_trip() {
    for (num, proto) in [
        (0u8, Protocol::Any),
        (6, Protocol::Tcp),
        (17, Protocol::Udp),
        (1, Protocol::Icmp),
        (58, Protocol::IcmpV6),
    ] {
        assert_eq!(Protocol::from(num), proto);
        assert_eq!(proto.as_u8(), num);
    }
}

#[test]
fn unrecognized_protocol_number_round_trips_via_other() {
    assert_eq!(Protocol::from(132), Protocol::Other(132));
    assert_eq!(Protocol::Other(132).as_u8(), 132);
}

#[test]
fn packet_is_usable_as_a_hashmap_key() {
    let p = Packet {
        local_addr: ip("10.0.0.1"),
        remote_addr: ip("10.0.0.2"),
        local_port: 10,
        remote_port: 90,
        protocol: Protocol::Udp,
        fragment: false,
    };
    let mut m = HashMap::new();
    m.insert(p, "flow-a");
    assert_eq!(m.get(&p), Some(&"flow-a"));
}
