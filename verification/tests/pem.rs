use ed25519_dalek::{Signer, SigningKey};
use nebula::net::IpAddr;
use nebula::protocol::cert::der::{encode_details, Certificate, Curve, Details, Network};
use nebula::protocol::cert::pem::{
    check_block, decode, encode, CERTIFICATE_V2_BANNER, ED25519_PRIVATE_KEY_BANNER,
    X25519_PRIVATE_KEY_BANNER,
};
use nebula::protocol::Error;

const NOT_BEFORE: i64 = 1_700_000_000;
const NOT_AFTER: i64 = 2_000_000_000;

fn sign(key: &SigningKey, details: Details, public_key: Vec<u8>, curve: Curve) -> Certificate {
    let raw_details = encode_details(&details);
    let mut cert = Certificate { details, raw_details, curve, public_key, signature: vec![] };
    cert.signature = key.sign(&cert.signing_bytes()).to_bytes().to_vec();
    cert
}

fn ca_key() -> SigningKey {
    SigningKey::from_bytes(&[7u8; 32])
}

fn ca_cert() -> Certificate {
    let key = ca_key();
    let details = Details {
        name: "test authority".to_string(),
        networks: vec![],
        unsafe_networks: vec![],
        groups: vec![],
        is_ca: true,
        not_before: NOT_BEFORE,
        not_after: NOT_AFTER,
        issuer: vec![],
    };
    sign(&key, details, key.verifying_key().to_bytes().to_vec(), Curve::Curve25519)
}

fn host_details(name: &str, last: u8) -> Details {
    Details {
        name: name.to_string(),
        networks: vec![Network {
            addr: IpAddr::V4(u32::from_be_bytes([10, 100, 0, last])),
            prefix_len: 16,
        }],
        unsafe_networks: vec![],
        groups: vec!["test".to_string()],
        is_ca: false,
        not_before: NOT_BEFORE,
        not_after: NOT_AFTER,
        issuer: hex::decode(ca_cert().fingerprint()).unwrap(),
    }
}

fn fixture(name: &str) -> Vec<u8> {
    match name {
        "ca.crt" => encode(CERTIFICATE_V2_BANNER, &ca_cert().encode()),
        "ca.key" => encode(ED25519_PRIVATE_KEY_BANNER, &ca_key().to_keypair_bytes()),
        _ => encode(X25519_PRIVATE_KEY_BANNER, &[5u8; 32]),
    }
    .into_bytes()
}

#[test]
fn pem_decodes_real_ca_cert() {
    let der = decode(&fixture("ca.crt"), CERTIFICATE_V2_BANNER).unwrap();
    assert!(!der.is_empty());
}

#[test]
fn decodes_real_ca_key() {
    let raw = decode(&fixture("ca.key"), ED25519_PRIVATE_KEY_BANNER).unwrap();
    assert_eq!(raw.len(), 64);
}

#[test]
fn decodes_real_host_key() {
    let raw = decode(&fixture("host-a.key"), X25519_PRIVATE_KEY_BANNER).unwrap();
    assert_eq!(raw.len(), 32);
}

#[test]
fn rejects_wrong_banner() {
    let err = decode(&fixture("ca.crt"), X25519_PRIVATE_KEY_BANNER).unwrap_err();
    assert!(matches!(err, Error::Pem(_)));
}

#[test]
fn encode_round_trips_through_decode() {
    let original = b"not real der bytes, just round-trip content";
    let pem_text = encode(CERTIFICATE_V2_BANNER, original);
    let decoded = decode(pem_text.as_bytes(), CERTIFICATE_V2_BANNER).unwrap();
    assert_eq!(decoded, original);
}

#[test]
fn a_wrong_banner_is_quoted() {
    let err = decode(&fixture("host-a.key"), CERTIFICATE_V2_BANNER).unwrap_err();
    match err {
        Error::Pem(s) => assert_eq!(
            s,
            "expected PEM tag \"NEBULA CERTIFICATE V2\", got \"NEBULA X25519 PRIVATE KEY\""
        ),
        other => panic!("{other:?}"),
    }
}

#[test]
fn a_text_without_a_block_is_refused() {
    assert!(matches!(decode(b"nothing here", CERTIFICATE_V2_BANNER), Err(Error::Pem(_))));
}

#[test]
fn a_block_is_checked_by_its_tag() {
    let block = Ok(("A TAG".to_string(), vec![1, 2]));
    assert_eq!(check_block(block, "A TAG").unwrap(), vec![1, 2]);
    let failed = Err("no block".to_string());
    assert!(matches!(check_block(failed, "A TAG"), Err(Error::Pem(s)) if s == "no block"));
}

#[test]
fn a_block_has_its_banner_around_it() {
    let text = encode("A TAG", b"abc");
    assert!(text.starts_with("-----BEGIN A TAG-----"));
    assert!(text.contains("YWJj"));
    assert!(text.trim_end().ends_with("-----END A TAG-----"));
}
