//! A mesh VPN node: the firewall that decides which packets a peer may
//! exchange with this host, the wire protocol that authenticates and
//! encrypts traffic between hosts, and the decisions of the forwarder that
//! joins the two to a network interface.
//!
//! Every function of the library is verified. What a call into an outside
//! crate is believed to do is stated on the function that makes the call.

pub mod bytes;
pub mod map;
pub mod net;
pub mod protocol;
pub mod text;
pub mod time;
pub mod firewall;
pub mod listener;
