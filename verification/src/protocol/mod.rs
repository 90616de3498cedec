//! The wire protocol: certificates, the handshake that turns them into
//! keys, and the packets that the keys protect.

pub mod aead;
pub mod cert;
pub mod error;
pub mod handshake;
pub mod header;
pub mod laws;
pub mod lighthouse;
pub mod session;
pub mod transport;
pub mod wire;

pub use error::Error;
