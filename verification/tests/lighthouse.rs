use nebula::net::{IpAddr, SocketAddr};
use nebula::protocol::lighthouse::{
    addr_to_ip, candidate_addrs, host_query, host_update_notification,
};
use nebula::protocol::wire::{Addr, NebulaMeta, NebulaMetaDetails, V4AddrPort, V6AddrPort};

fn v4(octets: [u8; 4]) -> IpAddr {
    IpAddr::V4(u32::from_be_bytes(octets))
}

#[test]
fn host_update_notification_round_trips_through_candidate_addrs() {
    let vpn_addr = v4([10, 100, 0, 3]);
    let reachable = vec![SocketAddr { ip: v4([192, 0, 2, 5]), port: 4242 }];
    let meta = host_update_notification(vpn_addr, &reachable);
    assert_eq!(candidate_addrs(&meta), reachable);
}

#[test]
fn host_query_carries_the_requested_vpn_addr() {
    let vpn_addr = v4([10, 100, 0, 2]);
    let meta = host_query(vpn_addr);
    let details = meta.details.unwrap();
    assert_eq!(addr_to_ip(&details.vpn_addr.unwrap()), vpn_addr);
}

#[test]
fn protobuf_round_trip_matches_real_nebula_wire_bytes() {
    let vpn_addr = v4([10, 100, 0, 3]);
    let meta = host_query(vpn_addr);
    let bytes = meta.encode_to_vec();
    let decoded = NebulaMeta::decode(bytes.as_slice()).unwrap();
    assert_eq!(decoded, meta);
}

#[test]
fn ipv4_addresses_are_mapped_into_ipv6() {
    let addr = host_query(v4([10, 100, 0, 3])).details.unwrap().vpn_addr.unwrap();
    assert_eq!(addr, Addr { hi: 0, lo: 0xffff_0a64_0003 });
    assert_eq!(addr_to_ip(&Addr { hi: 0xfd00 << 48, lo: 9 }), IpAddr::V6((0xfd00 << 112) + 9));
    assert_eq!(addr_to_ip(&Addr { hi: 1, lo: 0xffff_0a64_0003 }), IpAddr::V6((1 << 64) + 0xffff_0a64_0003));
}

#[test]
fn ipv4_places_come_first_and_ports_are_cut() {
    let meta = NebulaMeta {
        type_: 2,
        details: Some(NebulaMetaDetails {
            vpn_addr: None,
            v4_addr_ports: vec![V4AddrPort { addr: 7, port: 0x1_0005 }],
            v6_addr_ports: vec![V6AddrPort { hi: 1, lo: 2, port: 3 }],
        }),
    };
    assert_eq!(
        candidate_addrs(&meta),
        vec![
            SocketAddr { ip: IpAddr::V4(7), port: 5 },
            SocketAddr { ip: IpAddr::V6((1 << 64) + 2), port: 3 },
        ]
    );
    assert!(candidate_addrs(&NebulaMeta { type_: 2, details: None }).is_empty());
    assert!(candidate_addrs(&host_query(v4([1, 2, 3, 4]))).is_empty());
}

#[test]
fn mixed_places_are_sorted_by_family() {
    let six = SocketAddr { ip: IpAddr::V6(u128::MAX - 1), port: 1 };
    let four = SocketAddr { ip: v4([192, 0, 2, 5]), port: 2 };
    let meta = host_update_notification(IpAddr::V6(5), &[six, four]);
    assert_eq!(candidate_addrs(&meta), vec![four, six]);
}
