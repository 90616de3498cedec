use ed25519_dalek::{Signer, SigningKey};
use nebula::net::{IpAddr, SocketAddr};
use nebula::protocol::cert::der::{encode_details, Certificate, Curve, Details, Network};
use nebula::protocol::cert::pem;
use nebula::protocol::handshake::{stage0, Cipher};
use nebula::protocol::header::{message_type, Header};
use nebula::protocol::lighthouse::host_update_notification;
use nebula::protocol::session::{
    check_key, first_place, now_unix, scramble, Event, LighthouseWay, Resolution, Session,
    SessionConfig,
};
use nebula::protocol::wire::NebulaMeta;
use nebula::protocol::Error;

const NOT_BEFORE: i64 = 1_700_000_000;
const NOT_AFTER: i64 = 2_000_000_000;

fn sign(key: &SigningKey, details: Details, public_key: Vec<u8>, curve: Curve) -> Certificate {
    let raw_details = encode_details(&details);
    let mut cert = Certificate { details, raw_details, curve, public_key, signature: vec![] };
    cert.signature = key.sign(&cert.signing_bytes()).to_bytes().to_vec();
    cert
}

fn ca_key() -> SigningKey {
    SigningKey::from_bytes(&[7u8; 32])
}

fn ca_cert() -> Certificate {
    let key = ca_key();
    let details = Details {
        name: "test authority".to_string(),
        networks: vec![],
        unsafe_networks: vec![],
        groups: vec![],
        is_ca: true,
        not_before: NOT_BEFORE,
        not_after: NOT_AFTER,
        issuer: vec![],
    };
    sign(&key, details, key.verifying_key().to_bytes().to_vec(), Curve::Curve25519)
}

fn host_details(name: &str, last: u8) -> Details {
    Details {
        name: name.to_string(),
        networks: vec![Network {
            addr: IpAddr::V4(u32::from_be_bytes([10, 100, 0, last])),
            prefix_len: 16,
        }],
        unsafe_networks: vec![],
        groups: vec!["test".to_string()],
        is_ca: false,
        not_before: NOT_BEFORE,
        not_after: NOT_AFTER,
        issuer: hex::decode(ca_cert().fingerprint()).unwrap(),
    }
}

const NOW: i64 = NOT_BEFORE + 60;

fn keypair() -> (Vec<u8>, Vec<u8>) {
    let params: snow::params::NoiseParams = "Noise_IX_25519_AESGCM_SHA256".parse().unwrap();
    let kp = snow::Builder::new(params).generate_keypair().unwrap();
    (kp.private, kp.public)
}

fn config(name: &str, last: u8, cipher: Cipher) -> SessionConfig {
    let (private, public) = keypair();
    let cert = sign(&ca_key(), host_details(name, last), public, Curve::Curve25519);
    SessionConfig {
        ca_cert_pem: pem::encode(pem::CERTIFICATE_V2_BANNER, &ca_cert().encode()).into_bytes(),
        host_cert_pem: pem::encode(pem::CERTIFICATE_V2_BANNER, &cert.encode()).into_bytes(),
        host_key_pem: pem::encode(pem::X25519_PRIVATE_KEY_BANNER, &private).into_bytes(),
        cipher,
        bind_addr: place(0),
        lighthouses: vec![],
        static_hosts: vec![],
    }
}

fn vpn(last: u8) -> IpAddr {
    IpAddr::V4(u32::from_be_bytes([10, 100, 0, last]))
}

fn place(port: u16) -> SocketAddr {
    SocketAddr { ip: IpAddr::V4(0x7f00_0001), port }
}

/// Host `b` connects to host `a`.
fn connect(a: &mut Session, b: &mut Session) {
    let opening = b.connect(7).unwrap();
    let reply = match a.receive(&opening, place(2), 9, NOW) {
        Event::Reply(packet, to) => {
            assert_eq!(to, place(2));
            packet
        }
        other => panic!("{other:?}"),
    };
    match b.receive(&reply, place(1), 8, NOW) {
        Event::Connected(peer) => assert_eq!(peer, vpn(1)),
        other => panic!("{other:?}"),
    }
}

#[test]
fn two_sessions_handshake_and_exchange_bytes_over_loopback() {
    for cipher in [Cipher::AesGcm, Cipher::ChaChaPoly] {
        let mut a = Session::new(config("host-a", 1, cipher)).unwrap();
        let mut b = Session::new(config("host-b", 2, cipher)).unwrap();
        connect(&mut a, &mut b);

        let (packet, to) = b.send(vpn(1), b"hello from b").unwrap();
        assert_eq!(to, place(1));
        match a.receive(&packet, place(2), 11, NOW) {
            Event::Delivered(from, bytes) => {
                assert_eq!(from, vpn(2));
                assert_eq!(bytes, b"hello from b");
            }
            other => panic!("{other:?}"),
        }

        let (packet, to) = a.send(vpn(2), b"hello from a").unwrap();
        assert_eq!(to, place(2));
        match b.receive(&packet, place(1), 12, NOW) {
            Event::Delivered(from, bytes) => {
                assert_eq!(from, vpn(1));
                assert_eq!(bytes, b"hello from a");
            }
            other => panic!("{other:?}"),
        }
    }
}

#[test]
fn peer_info_returns_verified_identity_after_handshake() {
    let mut a = Session::new(config("host-a", 1, Cipher::AesGcm)).unwrap();
    let mut b = Session::new(config("host-b", 2, Cipher::AesGcm)).unwrap();
    assert!(b.peer_info(vpn(1)).is_none());

    connect(&mut a, &mut b);

    let info = b.peer_info(vpn(1)).expect("peer identity known after handshake");
    assert_eq!(info.name, "host-a");
    assert_eq!(info.groups, vec!["test".to_string()]);
    assert_eq!(info.networks.len(), 1);
    assert_eq!(info.networks[0].addr, vpn(1));
    assert_eq!(info.networks[0].prefix_len, 16);
    assert_eq!(a.peer_info(vpn(2)).unwrap().name, "host-b");
}

#[test]
fn packets_are_delivered_once() {
    let mut a = Session::new(config("host-a", 1, Cipher::AesGcm)).unwrap();
    let mut b = Session::new(config("host-b", 2, Cipher::AesGcm)).unwrap();
    connect(&mut a, &mut b);
    let (packet, _) = b.send(vpn(1), b"once").unwrap();
    assert!(matches!(a.receive(&packet, place(2), 11, NOW), Event::Delivered(_, _)));
    assert!(matches!(a.receive(&packet, place(2), 11, NOW), Event::Nothing));
}

#[test]
fn a_packet_names_the_tunnel_by_the_receivers_index() {
    let mut a = Session::new(config("host-a", 1, Cipher::AesGcm)).unwrap();
    let mut b = Session::new(config("host-b", 2, Cipher::AesGcm)).unwrap();
    let opening = b.connect(7).unwrap();
    let h = Header::parse(&opening).unwrap();
    assert_eq!((h.type_, h.remote_index, h.message_counter), (message_type::HANDSHAKE, 0, 1));
    let reply = match a.receive(&opening, place(2), 9, NOW) {
        Event::Reply(packet, _) => packet,
        other => panic!("{other:?}"),
    };
    let h = Header::parse(&reply).unwrap();
    assert_eq!((h.type_, h.remote_index, h.message_counter), (message_type::HANDSHAKE, 7, 2));
    assert!(matches!(b.receive(&reply, place(1), 8, NOW), Event::Connected(_)));
    let (packet, _) = b.send(vpn(1), b"x").unwrap();
    let h = Header::parse(&packet).unwrap();
    assert_eq!((h.type_, h.remote_index, h.message_counter), (message_type::MESSAGE, 9, 3));
    let (packet, _) = a.send(vpn(2), b"x").unwrap();
    assert_eq!(Header::parse(&packet).unwrap().remote_index, 7);
}

#[test]
fn forged_and_misdirected_packets_bring_nothing() {
    let mut a = Session::new(config("host-a", 1, Cipher::AesGcm)).unwrap();
    let mut b = Session::new(config("host-b", 2, Cipher::AesGcm)).unwrap();
    connect(&mut a, &mut b);
    let (packet, _) = b.send(vpn(1), b"payload").unwrap();
    for at in [0usize, 4, 9, 20] {
        let mut forged = packet.clone();
        forged[at] ^= 0x40;
        assert!(matches!(a.receive(&forged, place(2), 11, NOW), Event::Nothing), "{at}");
    }
    assert!(matches!(a.receive(&packet[..15], place(2), 11, NOW), Event::Nothing));
    assert!(matches!(a.receive(&[], place(2), 11, NOW), Event::Nothing));
}

#[test]
fn a_host_of_another_authority_gets_no_tunnel() {
    let mut a = Session::new(config("host-a", 1, Cipher::AesGcm)).unwrap();
    let mut strange = config("host-c", 3, Cipher::AesGcm);
    let (private, public) = keypair();
    let cert = sign(
        &SigningKey::from_bytes(&[8u8; 32]),
        host_details("host-c", 3),
        public,
        Curve::Curve25519,
    );
    strange.host_cert_pem =
        pem::encode(pem::CERTIFICATE_V2_BANNER, &cert.encode()).into_bytes();
    strange.host_key_pem = pem::encode(pem::X25519_PRIVATE_KEY_BANNER, &private).into_bytes();
    let mut c = Session::new(strange).unwrap();
    let opening = c.connect(7).unwrap();
    assert!(matches!(a.receive(&opening, place(3), 9, NOW), Event::Nothing));
    assert!(a.peer_info(vpn(3)).is_none());
}

#[test]
fn a_stolen_certificate_gets_no_tunnel() {
    let mut a = Session::new(config("host-a", 1, Cipher::AesGcm)).unwrap();
    let mut thief = config("host-b", 2, Cipher::AesGcm);
    thief.host_key_pem = pem::encode(pem::X25519_PRIVATE_KEY_BANNER, &keypair().0).into_bytes();
    let mut t = Session::new(thief).unwrap();
    let opening = t.connect(7).unwrap();
    assert!(matches!(a.receive(&opening, place(3), 9, NOW), Event::Nothing));
}

#[test]
fn an_expired_certificate_gets_no_tunnel() {
    let mut a = Session::new(config("host-a", 1, Cipher::AesGcm)).unwrap();
    let mut b = Session::new(config("host-b", 2, Cipher::AesGcm)).unwrap();
    let opening = b.connect(7).unwrap();
    assert!(matches!(a.receive(&opening, place(2), 9, NOT_AFTER + 1), Event::Nothing));
}

#[test]
fn a_refused_answer_ends_the_handshake() {
    let mut a = Session::new(config("host-a", 1, Cipher::AesGcm)).unwrap();
    let mut b = Session::new(config("host-b", 2, Cipher::AesGcm)).unwrap();
    let opening = b.connect(7).unwrap();
    let reply = match a.receive(&opening, place(2), 9, NOW) {
        Event::Reply(packet, _) => packet,
        other => panic!("{other:?}"),
    };
    let mut forged = reply.clone();
    let last = forged.len() - 1;
    forged[last] ^= 1;
    assert_eq!(b.fresh_index(7), None);
    assert!(matches!(b.receive(&forged, place(1), 8, NOW), Event::Nothing));
    assert_eq!(b.fresh_index(7), Some(7));
    assert!(matches!(b.receive(&reply, place(1), 8, NOW), Event::Nothing));
}

#[test]
fn unknown_peers_are_unreachable() {
    let mut a = Session::new(config("host-a", 1, Cipher::AesGcm)).unwrap();
    match a.send(vpn(9), b"x") {
        Err(Error::PeerUnreachable(addr)) => assert_eq!(addr, vpn(9)),
        other => panic!("{other:?}"),
    }
    assert!(matches!(
        first_place(vpn(9), &vec![]),
        Err(Error::PeerUnreachable(addr)) if addr == vpn(9)
    ));
    assert_eq!(first_place(vpn(9), &vec![place(4), place(5)]).unwrap(), place(4));
}

#[test]
fn lighthouse_messages_go_through_the_tunnel() {
    let mut a = Session::new(config("host-a", 1, Cipher::AesGcm)).unwrap();
    let mut b = Session::new(config("host-b", 2, Cipher::AesGcm)).unwrap();
    connect(&mut a, &mut b);

    let message = b.registration(place(4242));
    assert_eq!(
        NebulaMeta::decode(&message).unwrap(),
        host_update_notification(vpn(2), &[place(4242)])
    );
    let (packet, to) = b.send_to_lighthouse(vpn(1), &message).unwrap();
    assert_eq!(to, place(1));
    assert_eq!(Header::parse(&packet).unwrap().type_, message_type::LIGHTHOUSE);
    assert!(!packet.windows(message.len()).any(|w| w == message.as_slice()));
    assert!(matches!(a.resolve(vpn(2)), Resolution::Ask(_)));
    match a.receive(&packet, place(2), 11, NOW) {
        Event::Learned(host, places) => {
            assert_eq!(host, vpn(2));
            assert_eq!(places, vec![place(4242)]);
        }
        other => panic!("{other:?}"),
    }
    assert!(matches!(a.resolve(vpn(2)), Resolution::Known(p) if p == place(4242)));

    let mut plain = vec![0x13u8, 0, 0, 0, 0, 0, 0, 0, 0, 0, 0, 0, 0, 0, 0, 0];
    plain.extend_from_slice(&b.registration(place(6666)));
    assert!(matches!(a.receive(&plain, place(2), 11, NOW), Event::Nothing));
    assert!(matches!(a.resolve(vpn(2)), Resolution::Known(p) if p == place(4242)));
}

#[test]
fn questions_teach_nothing() {
    let mut a = Session::new(config("host-a", 1, Cipher::AesGcm)).unwrap();
    let question = match a.resolve(vpn(7)) {
        Resolution::Ask(message) => message,
        other => panic!("{other:?}"),
    };
    assert!(a.learn(&question).is_none());
    assert!(a.learn(&[0x80]).is_none());
}

#[test]
fn static_hosts_are_known() {
    let mut c = config("host-a", 1, Cipher::AesGcm);
    c.static_hosts = vec![(vpn(5), place(1)), (vpn(6), place(2)), (vpn(5), place(3))];
    c.lighthouses = vec![vpn(5)];
    let a = Session::new(c).unwrap();
    assert!(matches!(a.resolve(vpn(5)), Resolution::Known(p) if p == place(3)));
    assert!(matches!(a.resolve(vpn(6)), Resolution::Known(p) if p == place(2)));
    assert_eq!(a.lighthouses(), &vec![vpn(5)]);
}

#[test]
fn bad_configurations_are_refused() {
    let good = config("host-a", 1, Cipher::AesGcm);
    let key_as_cert =
        SessionConfig { ca_cert_pem: good.host_key_pem.clone(), ..good.clone() };
    assert!(matches!(Session::new(key_as_cert).err(), Some(Error::Pem(_))));
    let not_a_cert = SessionConfig {
        host_cert_pem: pem::encode(pem::CERTIFICATE_V2_BANNER, b"junk").into_bytes(),
        ..good.clone()
    };
    assert!(matches!(Session::new(not_a_cert).err(), Some(Error::Der(_))));
    let short_key = SessionConfig {
        host_key_pem: pem::encode(pem::X25519_PRIVATE_KEY_BANNER, &[1u8; 31]).into_bytes(),
        ..good.clone()
    };
    match Session::new(short_key).err() {
        Some(Error::Pem(s)) => assert_eq!(s, "host private key is not 32 bytes"),
        other => panic!("{other:?}"),
    }
    let mut details = host_details("nowhere", 4);
    details.networks.clear();
    let cert = sign(&ca_key(), details, vec![9u8; 32], Curve::Curve25519);
    let nowhere = SessionConfig {
        host_cert_pem: pem::encode(pem::CERTIFICATE_V2_BANNER, &cert.encode()).into_bytes(),
        ..good
    };
    assert!(matches!(Session::new(nowhere).err(), Some(Error::CertNoNetworks)));
    assert_eq!(check_key(&[3u8; 32]).unwrap(), [3u8; 32]);
}

#[test]
fn indexes_are_fresh() {
    let mut a = Session::new(config("host-a", 1, Cipher::AesGcm)).unwrap();
    assert_eq!(a.fresh_index(0), None);
    assert_eq!(a.fresh_index(5), Some(5));
    a.connect(5).unwrap();
    assert_eq!(a.fresh_index(5), None);
    assert_eq!(scramble(0), 0x9E37_79B9);
    assert_eq!(scramble(0x9E37_79B9), 0);
    if let Some(i) = a.allocate_index() {
        assert!(i != 0 && i != 5);
    }
    assert!(now_unix() > 1_600_000_000);
}

#[test]
fn overlong_payloads_are_told() {
    let a = Session::new(config("host-a", 1, Cipher::ChaChaPoly)).unwrap();
    assert!(a.can_send(vpn(2), 65_535));
    assert!(!a.can_send(vpn(2), usize::MAX));
    assert!(!a.can_send(vpn(2), 64 * 0xffff_fffe + 1));
    assert!(a.can_send(vpn(2), 64 * 0xffff_fffe));
}

#[test]
fn the_way_to_a_lighthouse_is_a_tunnel_or_a_known_place() {
    let mut a = Session::new(config("host-a", 1, Cipher::AesGcm)).unwrap();
    let mut c = config("host-b", 2, Cipher::AesGcm);
    c.static_hosts = vec![(vpn(1), place(1))];
    let mut b = Session::new(c).unwrap();
    assert_eq!(b.way_to_lighthouse(vpn(1)), LighthouseWay::Connect(place(1)));
    assert_eq!(b.way_to_lighthouse(vpn(3)), LighthouseWay::Unknown);
    connect(&mut a, &mut b);
    assert_eq!(b.way_to_lighthouse(vpn(1)), LighthouseWay::Tunnel);
}

#[test]
fn an_opened_handshake_waits_under_its_index() {
    let mut b = Session::new(config("host-b", 2, Cipher::AesGcm)).unwrap();
    let refused = b.await_answer(7, Err(Error::Noise("no entropy".to_string())));
    assert!(matches!(refused, Err(Error::Noise(s)) if s == "no entropy"));
    assert_eq!(b.fresh_index(7), Some(7));
    let opened = stage0(Cipher::AesGcm, &[5u8; 32], vec![1], 7).unwrap();
    let message = opened.1.clone();
    let packet = b.await_answer(7, Ok(opened)).unwrap();
    assert_eq!(packet[..16], [0x10, 0, 0, 0, 0, 0, 0, 0, 0, 0, 0, 0, 0, 0, 0, 1]);
    assert_eq!(packet[16..], message);
    assert_eq!(b.fresh_index(7), None);
}
