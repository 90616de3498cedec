use ed25519_dalek::{Signer, SigningKey};
use nebula::net::IpAddr;
use nebula::protocol::cert::der::{encode_details, Certificate, Curve, Details, Network};
use nebula::protocol::cert::verify::verify_host_cert;
use nebula::protocol::Error;
use sha2::{Digest, Sha256};

const NOT_BEFORE: i64 = 1_700_000_000;
const NOT_AFTER: i64 = 2_000_000_000;

fn sign(key: &SigningKey, details: Details, public_key: Vec<u8>, curve: Curve) -> Certificate {
    let raw_details = encode_details(&details);
    let mut cert = Certificate { details, raw_details, curve, public_key, signature: vec![] };
    cert.signature = key.sign(&cert.signing_bytes()).to_bytes().to_vec();
    cert
}

fn ca_key() -> SigningKey {
    SigningKey::from_bytes(&[7u8; 32])
}

fn ca_cert() -> Certificate {
    let key = ca_key();
    let details = Details {
        name: "test authority".to_string(),
        networks: vec![],
        unsafe_networks: vec![],
        groups: vec![],
        is_ca: true,
        not_before: NOT_BEFORE,
        not_after: NOT_AFTER,
        issuer: vec![],
    };
    sign(&key, details, key.verifying_key().to_bytes().to_vec(), Curve::Curve25519)
}

fn host_details(name: &str, last: u8) -> Details {
    Details {
        name: name.to_string(),
        networks: vec![Network {
            addr: IpAddr::V4(u32::from_be_bytes([10, 100, 0, last])),
            prefix_len: 16,
        }],
        unsafe_networks: vec![],
        groups: vec!["test".to_string()],
        is_ca: false,
        not_before: NOT_BEFORE,
        not_after: NOT_AFTER,
        issuer: hex::decode(ca_cert().fingerprint()).unwrap(),
    }
}

fn load(name: &str) -> Certificate {
    let ca = ca_key();
    match name {
        "ca.crt" => ca_cert(),
        "host-a.crt" => sign(&ca, host_details("host-a", 1), vec![9u8; 32], Curve::Curve25519),
        "host-b.crt" => sign(&ca, host_details("host-b", 2), vec![8u8; 32], Curve::Curve25519),
        "host-a-tampered.crt" => {
            let mut cert = load("host-a.crt");
            cert.signature[5] ^= 1;
            cert
        }
        _ => {
            let mut details = host_details("expired", 3);
            details.not_after = NOT_BEFORE + 100;
            sign(&ca, details, vec![7u8; 32], Curve::Curve25519)
        }
    }
}

#[test]
fn valid_host_cert_verifies_against_its_real_ca() {
    let ca = load("ca.crt");
    let host = load("host-a.crt");
    verify_host_cert(&host, &ca, host.details.not_before + 60).unwrap();
}

#[test]
fn tampered_signature_is_rejected() {
    let ca = load("ca.crt");
    let tampered = load("host-a-tampered.crt");
    let err = verify_host_cert(&tampered, &ca, tampered.details.not_before + 60).unwrap_err();
    assert!(matches!(err, Error::CertSignatureInvalid));
}

#[test]
fn expired_cert_is_rejected() {
    let ca = load("ca.crt");
    let expired = load("expired.crt");
    let err = verify_host_cert(&expired, &ca, expired.details.not_after + 1).unwrap_err();
    assert!(matches!(err, Error::CertExpired));
}

#[test]
fn cert_from_a_different_ca_is_rejected() {
    let not_a_ca = load("host-b.crt");
    let host = load("host-a.crt");
    let err = verify_host_cert(&host, &not_a_ca, host.details.not_before + 60).unwrap_err();
    assert!(matches!(err, Error::CertSignatureInvalid));
}

#[test]
fn fingerprint_matches_issuer_recorded_on_signed_certs() {
    let ca = load("ca.crt");
    let host = load("host-a.crt");
    assert_eq!(hex::encode(&host.details.issuer), ca.fingerprint());
}

#[test]
fn fingerprint_is_the_digest_of_the_whole_certificate() {
    let ca = load("ca.crt");
    let mut all = ca.signing_bytes();
    all.extend_from_slice(&ca.signature);
    assert_eq!(ca.fingerprint(), hex::encode(Sha256::digest(&all)));
    assert_eq!(ca.fingerprint().len(), 64);
}

#[test]
fn signing_bytes_are_details_curve_and_key() {
    let ca = load("ca.crt");
    let mut all = ca.raw_details.clone();
    all.push(0);
    all.extend_from_slice(&ca.public_key);
    assert_eq!(ca.signing_bytes(), all);
}

#[test]
fn an_unknown_issuer_is_untrusted() {
    let ca = load("ca.crt");
    let mut details = host_details("stranger", 6);
    details.issuer = vec![1u8; 32];
    let host = sign(&ca_key(), details, vec![9u8; 32], Curve::Curve25519);
    let err = verify_host_cert(&host, &ca, NOT_BEFORE + 60).unwrap_err();
    assert!(matches!(err, Error::CertUntrusted));
}

#[test]
fn another_curve_is_not_supported() {
    let ca = load("ca.crt");
    let host = sign(&ca_key(), host_details("host-p", 4), vec![4u8; 65], Curve::P256);
    let err = verify_host_cert(&host, &ca, NOT_BEFORE + 60).unwrap_err();
    assert!(matches!(err, Error::CertUnsupportedCurve));
}

#[test]
fn a_host_without_networks_is_refused() {
    let ca = load("ca.crt");
    let mut details = host_details("nowhere", 4);
    details.networks.clear();
    let host = sign(&ca_key(), details, vec![9u8; 32], Curve::Curve25519);
    let err = verify_host_cert(&host, &ca, NOT_BEFORE + 60).unwrap_err();
    assert!(matches!(err, Error::CertNoNetworks));
}

#[test]
fn an_authority_is_no_host() {
    let ca = load("ca.crt");
    let err = verify_host_cert(&ca, &ca, NOT_BEFORE + 60).unwrap_err();
    assert!(matches!(err, Error::CertSignatureInvalid));
}

#[test]
fn a_certificate_is_in_force_from_the_first_to_the_last_second() {
    let ca = load("ca.crt");
    assert!(ca.is_expired(NOT_BEFORE - 1));
    assert!(!ca.is_expired(NOT_BEFORE));
    assert!(!ca.is_expired(NOT_AFTER));
    assert!(ca.is_expired(NOT_AFTER + 1));
}
