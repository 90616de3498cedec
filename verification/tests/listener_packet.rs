use nebula::firewall::Protocol;
use nebula::listener::packet::parse;
use nebula::net::IpAddr;

fn v4(octets: [u8; 4]) -> IpAddr {
    IpAddr::V4(u32::from_be_bytes(octets))
}

fn v6(octets: [u8; 16]) -> IpAddr {
    IpAddr::V6(u128::from_be_bytes(octets))
}

fn ipv4(proto: u8, src: [u8; 4], dst: [u8; 4], frag_word: u16, l4: &[u8]) -> Vec<u8> {
    let total = 20 + l4.len();
    let mut p = vec![0x45, 0x00];
    p.extend_from_slice(&(total as u16).to_be_bytes());
    p.extend_from_slice(&[0, 0]);
    p.extend_from_slice(&frag_word.to_be_bytes());
    p.push(64);
    p.push(proto);
    p.extend_from_slice(&[0, 0]);
    p.extend_from_slice(&src);
    p.extend_from_slice(&dst);
    p.extend_from_slice(l4);
    p
}

fn ports(src_port: u16, dst_port: u16) -> Vec<u8> {
    let mut v = src_port.to_be_bytes().to_vec();
    v.extend_from_slice(&dst_port.to_be_bytes());
    v
}

#[test]
fn ipv4_tcp_outbound_maps_src_to_local() {
    let raw = ipv4(6, [10, 0, 0, 1], [10, 0, 0, 2], 0x4000, &ports(1111, 443));
    let pkt = parse(&raw, false).unwrap();
    assert_eq!(pkt.local_addr, v4([10, 0, 0, 1]));
    assert_eq!(pkt.remote_addr, v4([10, 0, 0, 2]));
    assert_eq!(pkt.local_port, 1111);
    assert_eq!(pkt.remote_port, 443);
    assert_eq!(pkt.protocol, Protocol::Tcp);
    assert!(!pkt.fragment);
}

#[test]
fn ipv4_udp_inbound_swaps_local_and_remote() {
    let raw = ipv4(17, [10, 0, 0, 1], [10, 0, 0, 2], 0x4000, &ports(1111, 443));
    let pkt = parse(&raw, true).unwrap();
    assert_eq!(pkt.local_addr, v4([10, 0, 0, 2]));
    assert_eq!(pkt.remote_addr, v4([10, 0, 0, 1]));
    assert_eq!(pkt.local_port, 443);
    assert_eq!(pkt.remote_port, 1111);
    assert_eq!(pkt.protocol, Protocol::Udp);
}

#[test]
fn ipv4_icmp_has_zero_ports() {
    let raw = ipv4(1, [10, 0, 0, 1], [10, 0, 0, 2], 0x4000, &[8, 0, 0, 0]);
    let pkt = parse(&raw, false).unwrap();
    assert_eq!(pkt.protocol, Protocol::Icmp);
    assert_eq!(pkt.local_port, 0);
    assert_eq!(pkt.remote_port, 0);
}

#[test]
fn ipv4_more_fragments_flag_marks_fragment() {
    let raw = ipv4(6, [10, 0, 0, 1], [10, 0, 0, 2], 0x2000, &ports(1111, 443));
    let pkt = parse(&raw, false).unwrap();
    assert!(pkt.fragment);
}

#[test]
fn ipv4_nonzero_fragment_offset_marks_fragment_and_zeroes_ports() {
    let raw = ipv4(6, [10, 0, 0, 1], [10, 0, 0, 2], 0x0025, &[]);
    let pkt = parse(&raw, false).unwrap();
    assert!(pkt.fragment);
    assert_eq!(pkt.local_port, 0);
    assert_eq!(pkt.remote_port, 0);
}

#[test]
fn ipv4_truncated_is_rejected() {
    assert!(parse(&[0x45, 0x00, 0x00], false).is_none());
    assert!(parse(&[], false).is_none());
}

fn ipv6(next_header: u8, src: [u8; 16], dst: [u8; 16], payload: &[u8]) -> Vec<u8> {
    let mut p = vec![0x60, 0, 0, 0];
    p.extend_from_slice(&(payload.len() as u16).to_be_bytes());
    p.push(next_header);
    p.push(64);
    p.extend_from_slice(&src);
    p.extend_from_slice(&dst);
    p.extend_from_slice(payload);
    p
}

#[test]
fn ipv6_udp_outbound_maps_ports() {
    let src = [0xfd, 0, 0, 0, 0, 0, 0, 0, 0, 0, 0, 0, 0, 0, 0, 1];
    let dst = [0xfd, 0, 0, 0, 0, 0, 0, 0, 0, 0, 0, 0, 0, 0, 0, 2];
    let raw = ipv6(17, src, dst, &ports(5353, 53));
    let pkt = parse(&raw, false).unwrap();
    assert_eq!(pkt.local_addr, v6(src));
    assert_eq!(pkt.remote_addr, v6(dst));
    assert_eq!(pkt.local_port, 5353);
    assert_eq!(pkt.remote_port, 53);
    assert_eq!(pkt.protocol, Protocol::Udp);
}

#[test]
fn ipv6_icmpv6_has_zero_ports_and_shares_icmp_semantics() {
    let src = [0xfd; 16];
    let dst = [0xfe; 16];
    let raw = ipv6(58, src, dst, &[128, 0, 0, 0]);
    let pkt = parse(&raw, false).unwrap();
    assert_eq!(pkt.protocol, Protocol::IcmpV6);
    assert_eq!(pkt.local_port, 0);
    assert_eq!(pkt.remote_port, 0);
}

#[test]
fn ipv6_fragment_header_marks_fragment_and_reads_inner_protocol() {
    let src = [0xfd; 16];
    let dst = [0xfe; 16];
    let mut payload = vec![6u8, 0, 0, 0, 0, 0, 0, 0];
    payload.extend_from_slice(&ports(1234, 80));
    let raw = ipv6(44, src, dst, &payload);
    let pkt = parse(&raw, false).unwrap();
    assert!(pkt.fragment);
    assert_eq!(pkt.protocol, Protocol::Tcp);
    assert_eq!(pkt.local_port, 1234);
    assert_eq!(pkt.remote_port, 80);
}

#[test]
fn ipv6_truncated_is_rejected() {
    assert!(parse(&[0x60, 0, 0, 0, 0, 0], false).is_none());
}

#[test]
fn unknown_ip_version_is_rejected() {
    assert!(parse(&[0x35, 0, 0, 0], false).is_none());
}

#[test]
fn ports_come_after_ipv4_options() {
    let mut raw = ipv4(17, [10, 0, 0, 1], [10, 0, 0, 2], 0x4000, &[1, 1, 1, 1, 0x11, 0x22, 0x33, 0x44]);
    raw[0] = 0x46;
    let pkt = parse(&raw, false).unwrap();
    assert_eq!((pkt.local_port, pkt.remote_port), (0x1122, 0x3344));
    raw[0] = 0x44;
    assert!(parse(&raw, false).is_none());
    raw[0] = 0x4f;
    assert!(parse(&raw, false).is_none());
}

#[test]
fn cut_ports_are_zero() {
    let raw = ipv4(6, [10, 0, 0, 1], [10, 0, 0, 2], 0x4000, &[1, 2, 3]);
    let pkt = parse(&raw, false).unwrap();
    assert_eq!((pkt.local_port, pkt.remote_port), (0, 0));
}

#[test]
fn a_cut_fragment_header_is_rejected() {
    assert!(parse(&ipv6(44, [0xfd; 16], [0xfe; 16], &[6, 0, 0, 0, 0, 0, 0]), false).is_none());
}

#[test]
fn both_directions_show_the_same_flow() {
    let raw = ipv4(17, [10, 0, 0, 1], [10, 0, 0, 2], 0x4000, &ports(1111, 443));
    let (i, o) = (parse(&raw, true).unwrap(), parse(&raw, false).unwrap());
    assert_eq!((i.local_addr, i.local_port), (o.remote_addr, o.remote_port));
    assert_eq!((i.remote_addr, i.remote_port), (o.local_addr, o.local_port));
}
