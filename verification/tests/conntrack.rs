use nebula::firewall::conntrack::Conntrack;
use nebula::firewall::{Packet, Protocol};
use nebula::net::IpAddr;
use nebula::time::{Duration, Instant};

fn ip(s: &str) -> IpAddr {
    if s.contains(':') {
        let n: ipnet::Ipv6Net = format!("{s}/128").parse().unwrap();
        IpAddr::V6(u128::from_be_bytes(n.addr().octets()))
    } else {
        let n: ipnet::Ipv4Net = format!("{s}/32").parse().unwrap();
        IpAddr::V4(u32::from_be_bytes(n.addr().octets()))
    }
}

fn start() -> Instant {
    Instant { nanos: 5_000_000_000 }
}

fn packet(port: u16) -> Packet {
    Packet {
        local_addr: ip("10.0.0.1"),
        remote_addr: ip("10.0.0.2"),
        local_port: port,
        remote_port: 90,
        protocol: Protocol::Udp,
        fragment: false,
    }
}

#[test]
fn record_then_get_within_timeout_returns_the_entry() {
    let mut ct = Conntrack::new();
    let p = packet(1);
    let t0 = start();
    ct.record(p, true, 3, t0, Duration::from_secs(10));
    assert_eq!(ct.get(&p, t0.plus(Duration::from_secs(5))), Some((true, 3)));
}

#[test]
fn get_after_expiry_returns_none_and_purges() {
    let mut ct = Conntrack::new();
    let p = packet(1);
    let t0 = start();
    ct.record(p, true, 0, t0, Duration::from_secs(10));
    assert_eq!(ct.get(&p, t0.plus(Duration::from_secs(11))), None);
}

#[test]
fn unknown_flow_returns_none() {
    let mut ct = Conntrack::new();
    assert_eq!(ct.get(&packet(1), start()), None);
}

#[test]
fn purge_expired_removes_only_entries_at_or_before_now() {
    let mut ct = Conntrack::new();
    let t0 = start();
    ct.record(packet(1), true, 0, t0, Duration::from_secs(5));
    ct.record(packet(2), true, 0, t0, Duration::from_secs(50));
    ct.purge_expired(t0.plus(Duration::from_secs(6)));
    assert_eq!(ct.get(&packet(1), t0.plus(Duration::from_secs(6))), None);
    assert_eq!(
        ct.get(&packet(2), t0.plus(Duration::from_secs(6))),
        Some((true, 0))
    );
}

#[test]
fn remove_evicts_immediately() {
    let mut ct = Conntrack::new();
    let p = packet(1);
    let t0 = start();
    ct.record(p, true, 0, t0, Duration::from_secs(10));
    ct.remove(&p);
    assert_eq!(ct.get(&p, t0), None);
}

#[test]
fn refreshing_a_flow_survives_the_original_expiry() {
    let mut ct = Conntrack::new();
    let p = packet(1);
    let t0 = start();
    ct.record(p, true, 0, t0, Duration::from_secs(10));
    ct.record(
        p,
        true,
        0,
        t0.plus(Duration::from_secs(5)),
        Duration::from_secs(10),
    );

    ct.purge_expired(t0.plus(Duration::from_secs(10)));
    assert_eq!(
        ct.get(&p, t0.plus(Duration::from_secs(10))),
        Some((true, 0)),
        "refreshed flow must survive its original expiry"
    );

    ct.purge_expired(t0.plus(Duration::from_secs(16)));
    assert_eq!(
        ct.get(&p, t0.plus(Duration::from_secs(16))),
        None,
        "flow must expire at its refreshed expiry"
    );
}

#[test]
fn repeated_refreshes_do_not_grow_the_expiry_heap() {
    let mut ct = Conntrack::new();
    let p = packet(1);
    let t0 = start();
    for i in 0..1000 {
        ct.record(
            p,
            true,
            0,
            t0.plus(Duration::from_secs(i)),
            Duration::from_secs(60),
        );
    }
    assert_eq!(
        ct.scheduled(),
        1,
        "refreshes must not accumulate heap entries"
    );
}

#[test]
fn tracks_ipv6_flows() {
    let p = Packet {
        local_addr: ip("fd12::34"),
        remote_addr: ip("fd12::56"),
        local_port: 10,
        remote_port: 90,
        protocol: Protocol::IcmpV6,
        fragment: false,
    };
    let mut ct = Conntrack::new();
    let t0 = start();
    ct.record(p, true, 7, t0, Duration::from_secs(10));
    assert_eq!(ct.get(&p, t0.plus(Duration::from_secs(5))), Some((true, 7)));
}

#[test]
fn a_flow_that_is_cut_short_expires_sooner() {
    let mut ct = Conntrack::new();
    let p = packet(1);
    let t0 = start();
    ct.record(p, true, 0, t0, Duration::from_secs(50));
    ct.record(p, true, 0, t0, Duration::from_secs(5));
    assert_eq!(ct.scheduled(), 2);
    assert_eq!(ct.get(&p, t0.plus(Duration::from_secs(4))), Some((true, 0)));
    assert_eq!(ct.get(&p, t0.plus(Duration::from_secs(5))), None);
    assert_eq!(ct.get(&p, t0.plus(Duration::from_secs(60))), None);
    assert_eq!(ct.scheduled(), 0);
}
