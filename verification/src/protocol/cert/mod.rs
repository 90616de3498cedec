//! Certificates: who a host is, and which authority says so.

pub mod der;
pub mod laws;
pub mod pem;
pub mod tlv;
pub mod verify;
