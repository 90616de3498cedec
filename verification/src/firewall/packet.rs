//! The flow a packet belongs to.

use vstd::prelude::*;

use crate::map::MapKey;
use crate::net::IpAddr;

verus! {

/// The protocol a packet carries. As the protocol of a rule, `Any` stands
/// for every protocol.
#[derive(Clone, Copy, PartialEq, Eq, PartialOrd, Ord, Hash, Debug, Structural)]
pub enum Protocol {
    Any,
    Tcp,
    Udp,
    Icmp,
    IcmpV6,
    Other(u8),
}

/// Both ends of a flow, as this host sees them.
#[derive(Clone, Copy, PartialEq, Eq, PartialOrd, Ord, Hash, Debug, Structural)]
pub struct Packet {
    pub local_addr: IpAddr,
    pub remote_addr: IpAddr,
    pub local_port: u16,
    pub remote_port: u16,
    pub protocol: Protocol,
    pub fragment: bool,
}

/// The protocol that an IP protocol number names.
pub open spec fn protocol_of(v: u8) -> Protocol {
    if v == 0 {
        Protocol::Any
    } else if v == 6 {
        Protocol::Tcp
    } else if v == 17 {
        Protocol::Udp
    } else if v == 1 {
        Protocol::Icmp
    } else if v == 58 {
        Protocol::IcmpV6
    } else {
        Protocol::Other(v)
    }
}

/// The IP protocol number of a protocol.
pub open spec fn protocol_number(p: Protocol) -> u8 {
    match p {
        Protocol::Any => 0,
        Protocol::Tcp => 6,
        Protocol::Udp => 17,
        Protocol::Icmp => 1,
        Protocol::IcmpV6 => 58,
        Protocol::Other(v) => v,
    }
}

impl From<u8> for Protocol {
    fn from(v: u8) -> (r: Self) {
        match v {
            0 => Protocol::Any,
            6 => Protocol::Tcp,
            17 => Protocol::Udp,
            1 => Protocol::Icmp,
            58 => Protocol::IcmpV6,
            other => Protocol::Other(other),
        }
    }
}

impl vstd::std_specs::convert::FromSpecImpl<u8> for Protocol {
    open spec fn obeys_from_spec() -> bool {
        true
    }

    open spec fn from_spec(v: u8) -> Self {
        protocol_of(v)
    }
}

impl Protocol {
    /// The IP protocol number.
    pub fn as_u8(&self) -> (r: u8)
        ensures
            r == protocol_number(*self),
    {
        match self {
            Protocol::Any => 0,
            Protocol::Tcp => 6,
            Protocol::Udp => 17,
            Protocol::Icmp => 1,
            Protocol::IcmpV6 => 58,
            Protocol::Other(v) => *v,
        }
    }
}

/// A protocol number survives the way to a [`Protocol`] and back.
pub proof fn protocol_number_round_trips(v: u8)
    ensures
        protocol_number(protocol_of(v)) == v,
{
}

impl MapKey for Packet {
    type Key = Packet;

    open spec fn key(&self) -> Packet {
        *self
    }

    fn same_key(&self, other: &Self) -> (r: bool) {
        *self == *other
    }

    open spec fn number(key: Packet) -> u64 {
        <IpAddr as MapKey>::number(key.local_addr) ^ <IpAddr as MapKey>::number(key.remote_addr) ^ (
        (key.local_port * 0x1_0000 + key.remote_port) as u64)
    }

    fn key_number(&self) -> (r: u64) {
        let ports: u64 = (self.local_port as u64) * 0x1_0000 + (self.remote_port as u64);
        self.local_addr.key_number() ^ self.remote_addr.key_number() ^ ports
    }
}

} // verus!
