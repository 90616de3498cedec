use ed25519_dalek::{Signer, SigningKey};
use nebula::net::{IpAddr, SocketAddr};
use nebula::protocol::cert::der::{encode_details, Certificate, Curve, Details, Network};
use nebula::protocol::cert::pem;
use nebula::protocol::handshake::Cipher;
use nebula::firewall::FirewallOptions;
use nebula::listener::config::{allow_any, cipher_named, list_entries, split_entry};
use nebula::listener::forward::{is_multicast, next_step, Forwarder, ListenerConfig, Step};
use nebula::listener::packet::parse;
use nebula::listener::tun::{interface_name, plan, up_flags, NameTooLong, Setup};
use nebula::net::IpNet;
use nebula::protocol::session::{Event, Session, SessionConfig};
use nebula::time::{Duration, Instant};

const NOT_BEFORE: i64 = 1_700_000_000;
const NOT_AFTER: i64 = 2_000_000_000;

fn sign(key: &SigningKey, details: Details, public_key: Vec<u8>, curve: Curve) -> Certificate {
    let raw_details = encode_details(&details);
    let mut cert = Certificate { details, raw_details, curve, public_key, signature: vec![] };
    cert.signature = key.sign(&cert.signing_bytes()).to_bytes().to_vec();
    cert
}

fn ca_key() -> SigningKey {
    SigningKey::from_bytes(&[7u8; 32])
}

fn ca_cert() -> Certificate {
    let key = ca_key();
    let details = Details {
        name: "test authority".to_string(),
        networks: vec![],
        unsafe_networks: vec![],
        groups: vec![],
        is_ca: true,
        not_before: NOT_BEFORE,
        not_after: NOT_AFTER,
        issuer: vec![],
    };
    sign(&key, details, key.verifying_key().to_bytes().to_vec(), Curve::Curve25519)
}

fn host_details(name: &str, last: u8) -> Details {
    Details {
        name: name.to_string(),
        networks: vec![Network {
            addr: IpAddr::V4(u32::from_be_bytes([10, 100, 0, last])),
            prefix_len: 16,
        }],
        unsafe_networks: vec![],
        groups: vec!["test".to_string()],
        is_ca: false,
        not_before: NOT_BEFORE,
        not_after: NOT_AFTER,
        issuer: hex::decode(ca_cert().fingerprint()).unwrap(),
    }
}

const NOW: i64 = NOT_BEFORE + 60;

fn keypair() -> (Vec<u8>, Vec<u8>) {
    let params: snow::params::NoiseParams = "Noise_IX_25519_AESGCM_SHA256".parse().unwrap();
    let kp = snow::Builder::new(params).generate_keypair().unwrap();
    (kp.private, kp.public)
}

fn config(name: &str, last: u8, cipher: Cipher) -> SessionConfig {
    let (private, public) = keypair();
    let cert = sign(&ca_key(), host_details(name, last), public, Curve::Curve25519);
    SessionConfig {
        ca_cert_pem: pem::encode(pem::CERTIFICATE_V2_BANNER, &ca_cert().encode()).into_bytes(),
        host_cert_pem: pem::encode(pem::CERTIFICATE_V2_BANNER, &cert.encode()).into_bytes(),
        host_key_pem: pem::encode(pem::X25519_PRIVATE_KEY_BANNER, &private).into_bytes(),
        cipher,
        bind_addr: place(0),
        lighthouses: vec![],
        static_hosts: vec![],
    }
}

fn vpn(last: u8) -> IpAddr {
    IpAddr::V4(u32::from_be_bytes([10, 100, 0, last]))
}

fn place(port: u16) -> SocketAddr {
    SocketAddr { ip: IpAddr::V4(0x7f00_0001), port }
}

/// Host `b` connects to host `a`.
fn connect(a: &mut Session, b: &mut Session) {
    let opening = b.connect(7).unwrap();
    let reply = match a.receive(&opening, place(2), 9, NOW) {
        Event::Reply(packet, to) => {
            assert_eq!(to, place(2));
            packet
        }
        other => panic!("{other:?}"),
    };
    match b.receive(&reply, place(1), 8, NOW) {
        Event::Connected(peer) => assert_eq!(peer, vpn(1)),
        other => panic!("{other:?}"),
    }
}

fn fw_options() -> FirewallOptions {
    FirewallOptions {
        tcp_timeout: Duration::from_secs(120),
        udp_timeout: Duration::from_secs(60),
        default_timeout: Duration::from_secs(60),
        in_send_reject: false,
        out_send_reject: false,
        default_local_cidr_any: true,
    }
}

fn forwarder(last: u8) -> Forwarder {
    let assigned = vec![IpNet::new(vpn(last), 16).unwrap()];
    Forwarder::new(ListenerConfig {
        firewall_rules: allow_any(assigned.clone()),
        firewall_options: fw_options(),
        assigned_networks: assigned,
        unsafe_networks: vec![],
        ca_name: "nebula-protocol interop CA".into(),
        ca_sha: String::new(),
    })
}

fn udp_packet(src: [u8; 4], dst: [u8; 4]) -> Vec<u8> {
    let mut udp = 1111u16.to_be_bytes().to_vec();
    udp.extend_from_slice(&2222u16.to_be_bytes());
    udp.extend_from_slice(&12u16.to_be_bytes());
    udp.extend_from_slice(&[0, 0]);
    udp.extend_from_slice(b"ping");

    let total = 20 + udp.len();
    let mut ip = vec![0x45, 0x00];
    ip.extend_from_slice(&(total as u16).to_be_bytes());
    ip.extend_from_slice(&[0, 0, 0x40, 0x00, 64, 17, 0, 0]);
    ip.extend_from_slice(&src);
    ip.extend_from_slice(&dst);
    ip.extend_from_slice(&udp);
    ip
}

#[test]
fn packet_injected_into_node_a_tun_arrives_on_node_b_tun() {
    let mut a = Session::new(config("host-a", 1, Cipher::AesGcm)).unwrap();
    let mut b = Session::new(config("host-b", 2, Cipher::AesGcm)).unwrap();
    connect(&mut a, &mut b);
    let mut a_gate = forwarder(1);
    let mut b_gate = forwarder(2);

    let raw = udp_packet([10, 100, 0, 1], [10, 100, 0, 2]);
    let out = parse(&raw, false).unwrap();
    let info = a.peer_info(out.remote_addr).unwrap();
    assert_eq!(next_step(out.remote_addr, true), Step::Check);
    assert!(a_gate.passes(out, false, &info));
    let (packet, _) = a.send(out.remote_addr, &raw).unwrap();

    let (from, buf) = match b.receive(&packet, place(1), 12, NOW) {
        Event::Delivered(from, bytes) => (from, bytes),
        other => panic!("{other:?}"),
    };
    let seen = parse(&buf, true).unwrap();
    assert!(b_gate.passes(seen, true, &b.peer_info(from).unwrap()));
    assert!(buf.len() >= 28);
    assert_eq!(buf[9], 17, "protocol should still be UDP");
    assert_eq!(&buf[12..16], &[10, 100, 0, 1]);
    assert_eq!(&buf[16..20], &[10, 100, 0, 2]);
}

#[test]
fn a_peer_cannot_speak_for_another() {
    let mut a = Session::new(config("host-a", 1, Cipher::AesGcm)).unwrap();
    let mut b = Session::new(config("host-b", 2, Cipher::AesGcm)).unwrap();
    connect(&mut a, &mut b);
    let info = b.peer_info(vpn(1)).unwrap();
    let mut gate = forwarder(2);
    let spoofed = parse(&udp_packet([10, 100, 0, 3], [10, 100, 0, 2]), true).unwrap();
    assert!(!gate.passes_at(spoofed, true, &info, Instant { nanos: 5 }));
    let honest = parse(&udp_packet([10, 100, 0, 1], [10, 100, 0, 2]), true).unwrap();
    assert!(gate.passes_at(honest, true, &info, Instant { nanos: 5 }));
}

#[test]
fn rejects_overlong_interface_name() {
    assert_eq!(interface_name("this-name-is-way-too-long"), Err(NameTooLong));
    assert_eq!(interface_name("exactly-16-bytes"), Err(NameTooLong));
    let mut name = [0u8; 16];
    name[..4].copy_from_slice(b"tun0");
    assert_eq!(interface_name("tun0"), Ok(name));
    assert_eq!(interface_name(""), Ok([0u8; 16]));
}

#[test]
fn multicast_destinations_are_dropped() {
    let v4 = |o: [u8; 4]| IpAddr::V4(u32::from_be_bytes(o));
    assert!(is_multicast(v4([224, 0, 0, 1])));
    assert!(is_multicast(v4([239, 255, 255, 255])));
    assert!(!is_multicast(v4([223, 255, 255, 255])));
    assert!(!is_multicast(v4([240, 0, 0, 0])));
    assert!(is_multicast(IpAddr::V6((0xff02 << 112) + 2)));
    assert!(!is_multicast(IpAddr::V6(0xfe80 << 112)));
    assert_eq!(next_step(v4([224, 0, 0, 1]), false), Step::Drop);
    assert_eq!(next_step(v4([224, 0, 0, 1]), true), Step::Check);
    assert_eq!(next_step(v4([10, 0, 0, 1]), false), Step::Connect);
}

#[test]
fn netmasks_have_the_leading_bits_set() {
    let net = |len| IpNet::new(IpAddr::V4(0x0a09_0901), len).unwrap();
    assert_eq!(net(24).netmask(), Some(0xffff_ff00));
    assert_eq!(net(20).netmask(), Some(0xffff_f000));
    assert_eq!(net(0).netmask(), Some(0));
    assert_eq!(net(32).netmask(), Some(u32::MAX));
    assert_eq!(IpNet::new(IpAddr::V6(1), 64).unwrap().netmask(), None);
    assert!(IpNet::new(IpAddr::V4(1), 33).is_err());
}

#[test]
fn lists_are_split_at_commas() {
    assert!(list_entries("").is_empty());
    assert!(list_entries(" , ,").is_empty());
    assert_eq!(list_entries(" 10.0.0.1 ,\t10.0.0.2\u{2003},,x"), vec!["10.0.0.1", "10.0.0.2", "x"]);
    assert_eq!(
        split_entry("10.0.0.1 = 192.0.2.1:4242"),
        Some(("10.0.0.1".to_string(), "192.0.2.1:4242".to_string()))
    );
    assert_eq!(split_entry("a=b=c"), Some(("a".to_string(), "b=c".to_string())));
    assert_eq!(split_entry("10.0.0.1"), None);
}

#[test]
fn ciphers_are_named() {
    assert_eq!(cipher_named("chachapoly"), Cipher::ChaChaPoly);
    assert_eq!(cipher_named("aes"), Cipher::AesGcm);
    assert_eq!(cipher_named(""), Cipher::AesGcm);
}

#[test]
fn interfaces_are_made_step_by_step() {
    let v4 = IpNet::new(IpAddr::V4(0x0a09_0901), 24).unwrap();
    assert_eq!(
        plan(&v4, 1300),
        vec![
            Setup::Register,
            Setup::Control { ipv6: false },
            Setup::Address(0x0a09_0901),
            Setup::Netmask(0xffff_ff00),
            Setup::Mtu(1300),
            Setup::Up,
        ]
    );
    let v6 = IpNet::new(IpAddr::V6(5), 64).unwrap();
    assert_eq!(
        plan(&v6, 1300),
        vec![
            Setup::Register,
            Setup::Control { ipv6: true },
            Setup::SkipDetection,
            Setup::Address6 { addr: 5, prefix_len: 64 },
            Setup::Mtu(1300),
            Setup::Up,
        ]
    );
    assert_eq!(up_flags(0x1002), 0x1043);
}

#[test]
fn white_space_is_that_of_unicode() {
    let listed = list_entries("\u{3000}a\u{2009},\u{85}\u{a0}b\t\u{2029}, \u{200b}c\u{feff}");
    assert_eq!(listed, vec!["a", "b", "\u{200b}c\u{feff}"]);
    for u in 0..=0x11_0000u32 {
        if let Some(c) = char::from_u32(u) {
            let listed = matches!(u,
                0x9..=0xd | 0x20 | 0x85 | 0xa0 | 0x1680 | 0x2000..=0x200a | 0x2028 | 0x2029
                    | 0x202f | 0x205f | 0x3000);
            assert_eq!(c.is_whitespace(), listed, "{u:x}");
        }
    }
}
