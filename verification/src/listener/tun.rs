//! What the system is told when a network interface is made.

use vstd::arithmetic::power2;
use vstd::prelude::*;
use vstd::utf8;

use crate::net::{IpAddr, IpNet};

verus! {

/// How long the name of an interface may be, with the zero that ends it.
pub const NAME_LEN: usize = 16;

/// The reason a name was refused.
#[derive(Clone, Copy, PartialEq, Eq, Debug, Structural)]
pub struct NameTooLong;

/// The name of an interface as the system takes it: its bytes, and zeros
/// after them.
pub fn interface_name(name: &str) -> (r: Result<[u8; 16], NameTooLong>)
    ensures
        match r {
            Ok(b) => {
                let bytes = utf8::encode_utf8(name@);
                &&& bytes.len() < NAME_LEN
                &&& forall|i: int|
                    0 <= i < NAME_LEN ==> #[trigger] b@[i] == (if i < bytes.len() {
                        bytes[i]
                    } else {
                        0u8
                    })
            },
            Err(_) => utf8::encode_utf8(name@).len() >= NAME_LEN,
        },
{
    let bytes = name.as_bytes();
    if bytes.len() >= NAME_LEN {
        return Err(NameTooLong);
    }
    let mut b: [u8; 16] = [0u8;16];
    let mut i: usize = 0;
    while i < bytes.len()
        invariant
            i <= bytes@.len() < NAME_LEN,
            forall|j: int|
                0 <= j < NAME_LEN ==> #[trigger] b@[j] == (if j < i {
                    bytes@[j]
                } else {
                    0u8
                }),
        decreases bytes@.len() - i,
    {
        b[i] = bytes[i];
        i = i + 1;
    }
    Ok(b)
}

/// A step in making an interface.
#[derive(Clone, Copy, PartialEq, Eq, Debug, Structural)]
pub enum Setup {
    /// Give the interface its name.
    Register,
    /// Open a control socket; the family of an address decides who handles
    /// what is asked of it.
    Control { ipv6: bool },
    /// Give the interface an IPv4 address.
    Address(u32),
    Netmask(u32),
    /// Let the address be used at once, without looking for duplicates.
    SkipDetection,
    /// Give the interface an IPv6 address.
    Address6 { addr: u128, prefix_len: u8 },
    Mtu(u32),
    /// Bring the interface up.
    Up,
}

/// The steps that make an interface with an address.
pub open spec fn steps(addr: IpNet, mtu: u32) -> Seq<Setup> {
    match addr.spec_addr() {
        IpAddr::V4(v) => seq![
            Setup::Register,
            Setup::Control { ipv6: false },
            Setup::Address(v),
            Setup::Netmask(
                (0x1_0000_0000 - power2::pow2((32 - addr.spec_prefix_len()) as nat)) as u32,
            ),
            Setup::Mtu(mtu),
            Setup::Up,
        ],
        IpAddr::V6(v) => seq![
            Setup::Register,
            Setup::Control { ipv6: true },
            Setup::SkipDetection,
            Setup::Address6 { addr: v, prefix_len: addr.spec_prefix_len() },
            Setup::Mtu(mtu),
            Setup::Up,
        ],
    }
}

/// The steps that make an interface with an address.
pub fn plan(addr: &IpNet, mtu: u32) -> (r: Vec<Setup>)
    ensures
        r@ == steps(*addr, mtu),
{
    let mut r: Vec<Setup> = Vec::new();
    r.push(Setup::Register);
    match addr.addr() {
        IpAddr::V4(v) => {
            r.push(Setup::Control { ipv6: false });
            r.push(Setup::Address(v));
            if let Some(mask) = addr.netmask() {
                r.push(Setup::Netmask(mask));
            }
        },
        IpAddr::V6(v) => {
            r.push(Setup::Control { ipv6: true });
            r.push(Setup::SkipDetection);
            r.push(Setup::Address6 { addr: v, prefix_len: addr.prefix_len() });
        },
    }
    r.push(Setup::Mtu(mtu));
    r.push(Setup::Up);
    assert(r@ =~= steps(*addr, mtu));
    r
}

/// The flags of an interface that is up and running.
pub fn up_flags(flags: i16) -> (r: i16)
    ensures
        r == flags | 0x41,
{
    flags | 0x41
}

} // verus!
