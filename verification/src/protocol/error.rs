//! What can go wrong.

use vstd::prelude::*;

use crate::net::IpAddr;

verus! {

#[derive(Debug)]
pub enum Error {
    /// A packet is shorter than its header.
    HeaderTooShort { need: usize, got: usize },
    /// A certificate is not well-formed.
    Der(String),
    CertExpired,
    CertSignatureInvalid,
    /// Only Curve25519 is supported.
    CertUnsupportedCurve,
    /// A certificate was not issued by the configured authority.
    CertUntrusted,
    CertNoNetworks,
    /// A packet's counter was seen before, or is too old to tell.
    ReplayedPacket,
    DecryptFailed,
    /// What the Noise implementation said.
    Noise(String),
    ProtobufDecode(prost::DecodeError),
    Pem(String),
    HandshakeFailed(String),
    /// A handshake carried a zero peer index.
    HandshakeInvalidRemoteIndex,
    /// No address is known for a peer.
    PeerUnreachable(IpAddr),
    /// Nothing came in time.
    Timeout(&'static str),
}

} // verus!
