//! The forwarder: what it reads off the packets that it moves between a
//! network interface and the tunnels, and which of them it lets pass.

pub mod config;
pub mod forward;
pub mod identity;
pub mod laws;
pub mod packet;
pub mod tun;
