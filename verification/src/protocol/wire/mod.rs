//! Messages as protobuf writes them.

pub mod field;
pub mod handshake;
pub mod laws;
pub mod meta;
pub mod nebula_meta;

pub use handshake::{NebulaHandshake, NebulaHandshakeDetails};
pub use meta::{Addr, NebulaMeta, NebulaMetaDetails, V4AddrPort, V6AddrPort};
