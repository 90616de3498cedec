//! What a packet is for.

use vstd::prelude::*;

verus! {

pub const HANDSHAKE: u8 = 0;
pub const MESSAGE: u8 = 1;
pub const RECV_ERROR: u8 = 2;
pub const LIGHTHOUSE: u8 = 3;
pub const TEST: u8 = 4;
pub const CLOSE_TUNNEL: u8 = 5;
pub const CONTROL: u8 = 6;

} // verus!
