//! Whether a certificate is what it claims to be.

use ed25519_dalek::Verifier;
use sha2::Digest;
use vstd::prelude::*;

use super::der;
use super::der::{Certificate, CertificateView, Curve};
use crate::bytes::{push_all, to_key};
use crate::protocol::error::Error;
use crate::text;

verus! {

/// Whether bytes are a key under which a signature of a message is valid.
pub uninterp spec fn ed25519_verifies(key: Seq<u8>, message: Seq<u8>, signature: Seq<u8>) -> bool;

/// The SHA-256 digest of bytes.
pub uninterp spec fn sha256(b: Seq<u8>) -> Seq<u8>;

/// `ed25519_dalek::VerifyingKey::from_bytes` and `verify`: whether the bytes
/// are a key, and the signature is one of the message under it.
#[verifier::external_body]
fn ed25519_verify(key: &[u8; 32], message: &[u8], signature: &[u8; 64]) -> (r: bool)
    ensures
        r == ed25519_verifies(key@, message@, signature@),
{
    let signature = ed25519_dalek::Signature::from_bytes(signature);
    match ed25519_dalek::VerifyingKey::from_bytes(key) {
        Ok(key) => key.verify(message, &signature).is_ok(),
        Err(_) => false,
    }
}

/// `sha2::Sha256::digest`: a digest of thirty-two bytes.
#[verifier::external_body]
fn sha256_digest(b: &[u8]) -> (r: Vec<u8>)
    ensures
        r@ == sha256(b@),
        r@.len() == 32,
{
    sha2::Sha256::digest(b).to_vec()
}

/// The digit for the upper or the lower half of a byte.
pub open spec fn hex_digit(b: Seq<u8>, i: int) -> char {
    if i % 2 == 0 {
        text::digit((b[i / 2] / 16) as nat)
    } else {
        text::digit((b[i / 2] % 16) as nat)
    }
}

/// Bytes in lower-case hexadecimal, two digits each.
pub open spec fn hex_text(b: Seq<u8>) -> Seq<char> {
    Seq::new(2 * b.len(), |i: int| hex_digit(b, i))
}

/// `hex::encode`: bytes in lower-case hexadecimal, two digits each.
#[verifier::external_body]
fn hex_encode(b: &[u8]) -> (r: String)
    ensures
        r@ == hex_text(b@),
{
    hex::encode(b)
}

/// Bytes that are the same in hexadecimal are the same.
pub proof fn hex_text_tells_bytes_apart(a: Seq<u8>, b: Seq<u8>)
    requires
        hex_text(a) == hex_text(b),
    ensures
        a == b,
{
    assert(hex_text(a).len() == 2 * a.len());
    assert(hex_text(b).len() == 2 * b.len());
    assert forall|i: int| 0 <= i < a.len() implies a[i] == b[i] by {
        assert(hex_text(a)[2 * i] == hex_text(b)[2 * i]);
        assert(hex_text(a)[2 * i + 1] == hex_text(b)[2 * i + 1]);
        assert((2 * i) / 2 == i && (2 * i + 1) / 2 == i && (2 * i) % 2 == 0 && (2 * i + 1) % 2
            == 1);
        assert(hex_text(a)[2 * i] == hex_digit(a, 2 * i));
        assert(hex_text(b)[2 * i] == hex_digit(b, 2 * i));
        assert(hex_text(a)[2 * i + 1] == hex_digit(a, 2 * i + 1));
        assert(hex_text(b)[2 * i + 1] == hex_digit(b, 2 * i + 1));
        text::lemma_digit_tells_values_apart((a[i] / 16) as nat, (b[i] / 16) as nat);
        text::lemma_digit_tells_values_apart((a[i] % 16) as nat, (b[i] % 16) as nat);
    }
    assert(a =~= b);
}

/// What identifies a certificate: the digest of everything in it.
pub open spec fn fingerprint_of(c: CertificateView) -> Seq<u8> {
    sha256(der::signed_bytes(c) + c.signature)
}

/// Whether a moment is outside the time that a certificate is for.
pub open spec fn expired(c: CertificateView, now: i64) -> bool {
    now < c.details.not_before || now > c.details.not_after
}

/// What checking a certificate's signature gives, if the answer for a key and
/// a signature of the right lengths is `valid`.
pub open spec fn signature_outcome(c: CertificateView, key: Seq<u8>, valid: bool) -> Result<
    (),
    Error,
> {
    if c.curve != Curve::Curve25519 {
        Err(Error::CertUnsupportedCurve)
    } else if key.len() == 32 && c.signature.len() == 64 && valid {
        Ok(())
    } else {
        Err(Error::CertSignatureInvalid)
    }
}

/// What checking a host's certificate gives, if it gives `signature` for the
/// signature.
pub open spec fn host_cert_outcome(
    cert: CertificateView,
    ca: CertificateView,
    now: i64,
    ca_fingerprint: Seq<u8>,
    signature: Result<(), Error>,
) -> Result<(), Error> {
    if cert.details.is_ca || !ca.details.is_ca {
        Err(Error::CertSignatureInvalid)
    } else if expired(ca, now) || expired(cert, now) {
        Err(Error::CertExpired)
    } else if cert.details.issuer != ca_fingerprint {
        Err(Error::CertUntrusted)
    } else if signature is Err {
        signature
    } else if cert.details.networks.len() == 0 {
        Err(Error::CertNoNetworks)
    } else {
        Ok(())
    }
}

/// Whether a host's certificate was issued by an authority.
pub open spec fn issued_by(cert: CertificateView, ca: CertificateView, now: i64) -> Result<
    (),
    Error,
> {
    host_cert_outcome(
        cert,
        ca,
        now,
        fingerprint_of(ca),
        signature_outcome(
            cert,
            ca.public_key,
            ed25519_verifies(ca.public_key, der::signed_bytes(cert), cert.signature),
        ),
    )
}

/// Bytes as an array, if there are as many as it takes.
fn to_signature(b: &[u8]) -> (r: Option<[u8; 64]>)
    ensures
        r is Some == (b@.len() == 64),
        r matches Some(a) ==> a@ == b@,
{
    if b.len() != 64 {
        return None;
    }
    let mut a: [u8; 64] = [0u8;64];
    let mut i: usize = 0;
    while i < 64
        invariant
            i <= 64,
            b@.len() == 64,
            forall|j: int| 0 <= j < i ==> a@[j] == b@[j],
        decreases 64 - i,
    {
        a[i] = b[i];
        i = i + 1;
    }
    assert(a@ =~= b@);
    Some(a)
}

impl Certificate {
    /// Checks the signature against the public key of the authority that
    /// issued the certificate. Only Ed25519 signatures are supported.
    pub fn check_signature(&self, signer_public_key: &[u8]) -> (r: Result<(), Error>)
        ensures
            r == signature_outcome(
                self@,
                signer_public_key@,
                ed25519_verifies(signer_public_key@, der::signed_bytes(self@), self.signature@),
            ),
    {
        if self.curve != Curve::Curve25519 {
            return Err(Error::CertUnsupportedCurve);
        }
        let key = match to_key(signer_public_key) {
            Some(key) => key,
            None => {
                return Err(Error::CertSignatureInvalid);
            },
        };
        let signature = match to_signature(self.signature.as_slice()) {
            Some(signature) => signature,
            None => {
                return Err(Error::CertSignatureInvalid);
            },
        };
        let message = self.signing_bytes();
        if ed25519_verify(&key, message.as_slice(), &signature) {
            Ok(())
        } else {
            Err(Error::CertSignatureInvalid)
        }
    }

    /// The digest that other certificates name this one by, in hexadecimal.
    pub fn fingerprint(&self) -> (r: String)
        ensures
            r@ == hex_text(fingerprint_of(self@)),
            r@.len() == 64,
    {
        let mut b = self.signing_bytes();
        push_all(&mut b, self.signature.as_slice());
        hex_encode(sha256_digest(b.as_slice()).as_slice())
    }

    pub fn is_expired(&self, now_unix: i64) -> (r: bool)
        ensures
            r == expired(self@, now_unix),
    {
        now_unix < self.details.not_before || now_unix > self.details.not_after
    }
}

/// Checks that `cert` was issued by `ca`, that both are valid now, and that
/// `cert` is not itself the certificate of an authority.
pub fn verify_host_cert(cert: &Certificate, ca: &Certificate, now_unix: i64) -> (r: Result<
    (),
    Error,
>)
    ensures
        r == issued_by(cert@, ca@, now_unix),
{
    if cert.details.is_ca || !ca.details.is_ca {
        return Err(Error::CertSignatureInvalid);
    }
    if ca.is_expired(now_unix) || cert.is_expired(now_unix) {
        return Err(Error::CertExpired);
    }
    let issuer = hex_encode(cert.details.issuer.as_slice());
    let fingerprint = ca.fingerprint();
    if issuer != fingerprint {
        return Err(Error::CertUntrusted);
    }
    proof {
        hex_text_tells_bytes_apart(cert.details.issuer@, fingerprint_of(ca@));
    }
    match cert.check_signature(ca.public_key.as_slice()) {
        Ok(()) => {},
        Err(e) => {
            return Err(e);
        },
    }
    if cert.details.networks.len() == 0 {
        return Err(Error::CertNoNetworks);
    }
    Ok(())
}

/// A certificate that passes is a host's, is in force with its authority's,
/// names the authority that signed it, and has networks.
pub proof fn accepted_certificate_is_trusted(
    cert: CertificateView,
    ca: CertificateView,
    now: i64,
)
    requires
        issued_by(cert, ca, now) == Ok::<(), Error>(()),
    ensures
        !cert.details.is_ca,
        ca.details.is_ca,
        !expired(cert, now),
        !expired(ca, now),
        cert.details.issuer == fingerprint_of(ca),
        ed25519_verifies(ca.public_key, der::signed_bytes(cert), cert.signature),
        cert.details.networks.len() > 0,
{
}

} // verus!
