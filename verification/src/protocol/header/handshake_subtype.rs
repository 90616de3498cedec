//! Which handshake a handshake packet belongs to.

use vstd::prelude::*;

verus! {

pub const IX_PSK0: u8 = 0;

} // verus!
