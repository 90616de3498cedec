use ed25519_dalek::{Signer, SigningKey};
use nebula::net::IpAddr;
use nebula::protocol::cert::der::{encode_details, Certificate, Curve, Details, Network};
use nebula::protocol::cert::der::{decode_der_int, encode_der_int};
use nebula::protocol::cert::pem;
use nebula::protocol::cert::tlv::Reader;
use nebula::protocol::Error;

const NOT_BEFORE: i64 = 1_700_000_000;
const NOT_AFTER: i64 = 2_000_000_000;

fn sign(key: &SigningKey, details: Details, public_key: Vec<u8>, curve: Curve) -> Certificate {
    let raw_details = encode_details(&details);
    let mut cert = Certificate { details, raw_details, curve, public_key, signature: vec![] };
    cert.signature = key.sign(&cert.signing_bytes()).to_bytes().to_vec();
    cert
}

fn ca_key() -> SigningKey {
    SigningKey::from_bytes(&[7u8; 32])
}

fn ca_cert() -> Certificate {
    let key = ca_key();
    let details = Details {
        name: "test authority".to_string(),
        networks: vec![],
        unsafe_networks: vec![],
        groups: vec![],
        is_ca: true,
        not_before: NOT_BEFORE,
        not_after: NOT_AFTER,
        issuer: vec![],
    };
    sign(&key, details, key.verifying_key().to_bytes().to_vec(), Curve::Curve25519)
}

fn host_details(name: &str, last: u8) -> Details {
    Details {
        name: name.to_string(),
        networks: vec![Network {
            addr: IpAddr::V4(u32::from_be_bytes([10, 100, 0, last])),
            prefix_len: 16,
        }],
        unsafe_networks: vec![],
        groups: vec!["test".to_string()],
        is_ca: false,
        not_before: NOT_BEFORE,
        not_after: NOT_AFTER,
        issuer: hex::decode(ca_cert().fingerprint()).unwrap(),
    }
}

fn host_cert() -> Certificate {
    sign(&ca_key(), host_details("host-a", 1), vec![9u8; 32], Curve::Curve25519)
}

/// The certificates as they stand in a file.
fn fixture(name: &str) -> Vec<u8> {
    let cert = if name == "ca.crt" { ca_cert() } else { host_cert() };
    pem::encode(pem::CERTIFICATE_V2_BANNER, &cert.encode()).into_bytes()
}

fn message(e: Error) -> String {
    match e {
        Error::Der(s) => s,
        other => panic!("{other:?}"),
    }
}

#[test]
fn der_decodes_real_ca_cert() {
    let der = pem::decode(&fixture("ca.crt"), pem::CERTIFICATE_V2_BANNER).unwrap();
    let cert = Certificate::decode(&der).unwrap();
    assert_eq!(cert.details.name, "test authority");
    assert_eq!(cert.details.is_ca, true);
    assert_eq!(cert.details.not_before, NOT_BEFORE);
    assert_eq!(cert.details.not_after, NOT_AFTER);
    assert_eq!(cert.curve, Curve::Curve25519);
    assert_eq!(hex::encode(&cert.public_key).len(), 64);
}

#[test]
fn decodes_real_host_cert_with_networks_and_groups() {
    let der = pem::decode(&fixture("host-a.crt"), pem::CERTIFICATE_V2_BANNER).unwrap();
    let cert = Certificate::decode(&der).unwrap();
    assert_eq!(cert.details.name, "host-a");
    assert_eq!(cert.details.groups, vec!["test".to_string()]);
    assert_eq!(cert.details.networks.len(), 1);
    assert_eq!(cert.details.networks[0].addr, IpAddr::V4(0x0a64_0001));
    assert_eq!(cert.details.networks[0].prefix_len, 16);
    assert!(!cert.details.issuer.is_empty());
}

#[test]
fn encode_round_trips_a_decoded_cert() {
    let der = pem::decode(&fixture("host-a.crt"), pem::CERTIFICATE_V2_BANNER).unwrap();
    let cert = Certificate::decode(&der).unwrap();
    assert_eq!(cert.encode(), der);
}

#[test]
fn decode_rejects_truncated_input() {
    let der = pem::decode(&fixture("host-a.crt"), pem::CERTIFICATE_V2_BANNER).unwrap();
    assert!(Certificate::decode(&der[..der.len() - 5]).is_err());
    assert!(Certificate::decode(&[]).is_err());
}

#[test]
fn encode_for_handshake_omits_curve_and_public_key() {
    let der = pem::decode(&fixture("host-a.crt"), pem::CERTIFICATE_V2_BANNER).unwrap();
    let cert = Certificate::decode(&der).unwrap();
    let hs_bytes = cert.encode_for_handshake();
    assert!(hs_bytes.len() < der.len());
    let recombined = Certificate::recombine(&hs_bytes, &cert.public_key, cert.curve).unwrap();
    assert_eq!(recombined, cert);
}

#[test]
fn encode_details_reproduces_raw_details() {
    for name in ["host-a.crt", "ca.crt"] {
        let der = pem::decode(&fixture(name), pem::CERTIFICATE_V2_BANNER).unwrap();
        let cert = Certificate::decode(&der).unwrap();
        assert_eq!(encode_details(&cert.details), cert.raw_details, "{name}");
    }
}

#[test]
fn integers_take_as_few_bytes_as_they_need() {
    for (v, bytes) in [
        (0i64, vec![0u8]),
        (127, vec![0x7f]),
        (128, vec![0x00, 0x80]),
        (256, vec![0x01, 0x00]),
        (-1, vec![0xff; 8]),
        (i64::MAX, vec![0x7f, 0xff, 0xff, 0xff, 0xff, 0xff, 0xff, 0xff]),
        (i64::MIN, vec![0x80, 0, 0, 0, 0, 0, 0, 0]),
    ] {
        assert_eq!(encode_der_int(v), bytes, "{v}");
        assert_eq!(decode_der_int(&bytes), Ok(v));
    }
    assert_eq!(decode_der_int(&[0x80]), Ok(-128));
    assert_eq!(decode_der_int(&[0xff, 0x7f]), Ok(-129));
    assert_eq!(decode_der_int(&[]), Err("invalid integer length".to_string()));
    assert_eq!(decode_der_int(&[0; 9]), Err("invalid integer length".to_string()));
}

#[test]
fn networks_of_both_families_survive() {
    let v4 = Network { addr: IpAddr::V4(0xc0a8_0900), prefix_len: 24 };
    assert_eq!(v4.encode(), vec![192, 168, 9, 0, 24]);
    assert_eq!(Network::decode(&v4.encode()), Ok(v4));
    let v6 = Network { addr: IpAddr::V6(0xfd99 << 112), prefix_len: 64 };
    assert_eq!(v6.encode().len(), 17);
    assert_eq!(Network::decode(&v6.encode()), Ok(v6));
    assert_eq!(Network::decode(&[1, 2, 3]), Err("invalid network length 3".to_string()));
    assert_eq!(Network::decode(&[0; 16]), Err("invalid network length 16".to_string()));
}

#[test]
fn other_curves_are_written_out() {
    let cert = sign(&ca_key(), host_details("host-p", 4), vec![4u8; 65], Curve::P256);
    let der = cert.encode();
    let read = Certificate::decode(&der).unwrap();
    assert_eq!(read, cert);
    assert_eq!(read.curve, Curve::P256);
}

#[test]
fn unknown_curves_are_named() {
    assert_eq!(Curve::from_byte(1), Ok(Curve::P256));
    assert_eq!(Curve::from_byte(17), Err("unknown curve 17".to_string()));
}

#[test]
fn names_that_are_no_text_are_refused() {
    let cert = host_cert();
    let mut der = cert.encode();
    let at = der.windows(6).position(|w| w == b"host-a").unwrap();
    der[at] = 0xff;
    assert!(!message(Certificate::decode(&der).unwrap_err()).is_empty());
}

#[test]
fn a_wrong_tag_is_named_in_hexadecimal() {
    let err = message(Certificate::decode(&[0x04, 0x00]).unwrap_err());
    assert_eq!(err, "expected tag 0x30, got 0x4");
}

/// A certificate of a host, written out.
const WRITTEN: [u8; 52] = [
    0x30, 0x32, // the envelope
    0xa0, 0x27, // the details
    0x80, 0x04, b't', b'e', b's', b't', // the name
    0xa1, 0x07, 0x04, 0x05, 10, 100, 0, 1, 16, // the networks
    0xa3, 0x06, 0x0c, 0x04, b'g', b'r', b'p', b'A', // the groups
    0x85, 0x04, 0x65, 0x53, 0xf1, 0x00, // from when on it is valid
    0x86, 0x04, 0x77, 0x35, 0x94, 0x00, // and until when
    0x87, 0x02, 0xab, 0xcd, // the issuer
    0x82, 0x03, 1, 2, 3, // the public key
    0x83, 0x02, 9, 8, // the signature
];

#[test]
fn a_written_out_certificate_is_read_and_written() {
    let cert = Certificate::decode(&WRITTEN).unwrap();
    assert_eq!(
        cert.details,
        Details {
            name: "test".to_string(),
            networks: vec![Network { addr: IpAddr::V4(0x0a64_0001), prefix_len: 16 }],
            unsafe_networks: vec![],
            groups: vec!["grpA".to_string()],
            is_ca: false,
            not_before: NOT_BEFORE,
            not_after: NOT_AFTER,
            issuer: vec![0xab, 0xcd],
        }
    );
    assert_eq!(cert.raw_details, WRITTEN[2..43]);
    assert_eq!(cert.curve, Curve::Curve25519);
    assert_eq!(cert.public_key, [1, 2, 3]);
    assert_eq!(cert.signature, [9, 8]);
    assert_eq!(encode_details(&cert.details), WRITTEN[2..43]);
    assert_eq!(cert.encode(), WRITTEN);
    assert_eq!(
        cert.fingerprint(),
        "528bbcb06d4c6d153981c885acfecb6d7f12da617180a7d0c87402b9d0000a12"
    );
}

#[test]
fn a_written_out_authority_is_read_and_written() {
    let written = [
        0x30, 0x19, 0xa0, 0x0e, 0x80, 0x02, b'c', b'a', 0x84, 0x01, 0xff, 0x85, 0x01, 0x05, 0x86,
        0x02, 0x00, 0x80, 0x81, 0x01, 0x01, 0x82, 0x01, 7, 0x83, 0x01, 6,
    ];
    let cert = Certificate::decode(&written).unwrap();
    assert!(cert.details.is_ca);
    assert_eq!((cert.details.not_before, cert.details.not_after), (5, 128));
    assert_eq!(cert.curve, Curve::P256);
    assert_eq!(cert.encode(), written);
}

#[test]
fn a_reader_stops_where_it_fails() {
    let data = [0x04, 0x02, 1, 2, 0x05, 0x82, 0x01, 0x04, 0x7f, 9];
    let mut r = Reader::new(&data);
    assert!(r.read_tlv(0x05).is_err());
    assert_eq!(r.pos, 0);
    assert_eq!(r.read_tlv_opt(0x05), Ok(None));
    assert_eq!(r.pos, 0);
    assert_eq!(r.read_tlv_opt(0x04), Ok(Some(&data[2..4])));
    assert_eq!(r.pos, 4);
    assert_eq!(r.read_tlv_opt(0x05), Err("truncated content".to_string()));
    assert_eq!(r.pos, 8);
    let mut r = Reader::new(&[0x04, 0x89, 1]);
    assert_eq!(r.read_tlv(0x04), Err("unsupported length encoding".to_string()));
    assert_eq!(r.pos, 2);
}
