//! The flow that a raw IP packet belongs to.

use vstd::prelude::*;

use crate::bytes;
use crate::bytes::read_be;
use crate::firewall::packet;
use crate::firewall::{Packet, Protocol};
use crate::net::IpAddr;

verus! {

/// Both ends of a packet, before it is known which is this host's.
#[derive(Clone, Copy, PartialEq, Eq, Debug, Structural)]
pub struct FiveTuple {
    pub src: IpAddr,
    pub dst: IpAddr,
    pub protocol: Protocol,
    pub src_port: u16,
    pub dst_port: u16,
    pub fragment: bool,
}

/// The ports that a TCP or UDP header starts with; none if it is cut off.
pub open spec fn ports_of(l4: Seq<u8>) -> (u16, u16) {
    if l4.len() < 4 {
        (0, 0)
    } else {
        (bytes::be_value(l4.subrange(0, 2)) as u16, bytes::be_value(l4.subrange(2, 4)) as u16)
    }
}

pub open spec fn has_ports(p: Protocol) -> bool {
    p == Protocol::Tcp || p == Protocol::Udp
}

/// The fields of an IPv4 packet whose header is all there. A packet is a
/// fragment if more fragments follow or it is not the first; only the first
/// has ports.
pub open spec fn ipv4_of(raw: Seq<u8>) -> Option<FiveTuple> {
    let header_len = 4 * (raw[0] % 16);
    if raw.len() < 20 || header_len < 20 || raw.len() < header_len {
        None
    } else {
        let word = 256 * raw[6] + raw[7];
        let more_fragments = (word / 0x2000) % 2 == 1;
        let offset = word % 0x2000;
        let protocol = packet::protocol_of(raw[9]);
        let ports = if offset == 0 && has_ports(protocol) {
            ports_of(raw.skip(header_len as int))
        } else {
            (0, 0)
        };
        Some(
            FiveTuple {
                src: IpAddr::V4(bytes::be_value(raw.subrange(12, 16)) as u32),
                dst: IpAddr::V4(bytes::be_value(raw.subrange(16, 20)) as u32),
                protocol,
                src_port: ports.0,
                dst_port: ports.1,
                fragment: more_fragments || offset != 0,
            },
        )
    }
}

/// The fields of an IPv6 packet whose header is all there. Of the extension
/// headers only a fragment header right behind the fixed one is looked into.
pub open spec fn ipv6_of(raw: Seq<u8>) -> Option<FiveTuple> {
    let fragment = raw[6] == 44;
    let header_len: int = if fragment {
        48
    } else {
        40
    };
    if raw.len() < header_len {
        None
    } else {
        let protocol = packet::protocol_of(
            if fragment {
                raw[40]
            } else {
                raw[6]
            },
        );
        let ports = if has_ports(protocol) {
            ports_of(raw.skip(header_len))
        } else {
            (0, 0)
        };
        Some(
            FiveTuple {
                src: IpAddr::V6(bytes::be_value(raw.subrange(8, 24)) as u128),
                dst: IpAddr::V6(bytes::be_value(raw.subrange(24, 40)) as u128),
                protocol,
                src_port: ports.0,
                dst_port: ports.1,
                fragment,
            },
        )
    }
}

/// The fields of an IP packet.
pub open spec fn tuple_of(raw: Seq<u8>) -> Option<FiveTuple> {
    if raw.len() == 0 {
        None
    } else if raw[0] / 16 == 4 {
        ipv4_of(raw)
    } else if raw[0] / 16 == 6 {
        ipv6_of(raw)
    } else {
        None
    }
}

/// The flow, once it is known which way the packet goes: an incoming packet
/// is addressed to this host, and an outgoing one comes from it.
pub open spec fn facing(t: FiveTuple, incoming: bool) -> Packet {
    if incoming {
        Packet {
            local_addr: t.dst,
            remote_addr: t.src,
            local_port: t.dst_port,
            remote_port: t.src_port,
            protocol: t.protocol,
            fragment: t.fragment,
        }
    } else {
        Packet {
            local_addr: t.src,
            remote_addr: t.dst,
            local_port: t.src_port,
            remote_port: t.dst_port,
            protocol: t.protocol,
            fragment: t.fragment,
        }
    }
}

/// The flow that a raw packet belongs to.
pub open spec fn flow_of(raw: Seq<u8>, incoming: bool) -> Option<Packet> {
    match tuple_of(raw) {
        Some(t) => Some(facing(t, incoming)),
        None => None,
    }
}

/// Reads the flow that a raw packet belongs to. What cannot be read is to be
/// dropped.
pub fn parse(raw: &[u8], incoming: bool) -> (r: Option<Packet>)
    ensures
        r == flow_of(raw@, incoming),
{
    if raw.len() == 0 {
        return None;
    }
    let first = raw[0];
    assert(first >> 4 == first / 16) by (bit_vector);
    let tuple = match first >> 4 {
        4 => parse_ipv4(raw),
        6 => parse_ipv6(raw),
        _ => None,
    };
    let t = match tuple {
        Some(t) => t,
        None => {
            return None;
        },
    };
    let (local_addr, remote_addr, local_port, remote_port): (IpAddr, IpAddr, u16, u16) =
        if incoming {
        (t.dst, t.src, t.dst_port, t.src_port)
    } else {
        (t.src, t.dst, t.src_port, t.dst_port)
    };
    Some(
        Packet {
            local_addr,
            remote_addr,
            local_port,
            remote_port,
            protocol: t.protocol,
            fragment: t.fragment,
        },
    )
}

fn read_ports(l4: &[u8]) -> (r: (u16, u16))
    ensures
        r == ports_of(l4@),
{
    if l4.len() < 4 {
        return (0, 0);
    }
    proof {
        bytes::lemma_pow256_values();
        bytes::lemma_be_value_bound(l4@.subrange(0, 2));
        bytes::lemma_be_value_bound(l4@.subrange(2, 4));
    }
    (read_be(&l4[0..2]) as u16, read_be(&l4[2..4]) as u16)
}

fn parse_ipv4(raw: &[u8]) -> (r: Option<FiveTuple>)
    requires
        raw@.len() > 0,
    ensures
        r == ipv4_of(raw@),
{
    if raw.len() < 20 {
        return None;
    }
    let first = raw[0];
    assert(first & 0x0f == first % 16) by (bit_vector);
    let header_len: usize = ((first & 0x0f) as usize) * 4;
    if header_len < 20 || raw.len() < header_len {
        return None;
    }
    let word: u16 = (raw[6] as u16) * 256 + (raw[7] as u16);
    assert((word & 0x2000 != 0) == ((word / 0x2000) % 2 == 1)) by (bit_vector);
    assert(word & 0x1fff == word % 0x2000) by (bit_vector);
    let more_fragments = word & 0x2000 != 0;
    let offset: u16 = word & 0x1fff;
    proof {
        bytes::lemma_pow256_values();
        bytes::lemma_be_value_bound(raw@.subrange(12, 16));
        bytes::lemma_be_value_bound(raw@.subrange(16, 20));
    }
    let src = IpAddr::V4(read_be(&raw[12..16]) as u32);
    let dst = IpAddr::V4(read_be(&raw[16..20]) as u32);
    let protocol = Protocol::from(raw[9]);
    let (src_port, dst_port): (u16, u16) = if offset == 0 && (protocol == Protocol::Tcp || protocol
        == Protocol::Udp) {
        assert(raw@.subrange(header_len as int, raw@.len() as int) =~= raw@.skip(header_len as int));
        read_ports(&raw[header_len..raw.len()])
    } else {
        (0, 0)
    };
    Some(
        FiveTuple { src, dst, protocol, src_port, dst_port, fragment: more_fragments || offset != 0 },
    )
}

fn parse_ipv6(raw: &[u8]) -> (r: Option<FiveTuple>)
    requires
        raw@.len() > 0,
    ensures
        r == ipv6_of(raw@),
{
    if raw.len() < 40 {
        return None;
    }
    proof {
        bytes::lemma_pow256_values();
        bytes::lemma_be_value_bound(raw@.subrange(8, 24));
        bytes::lemma_be_value_bound(raw@.subrange(24, 40));
    }
    let src = IpAddr::V6(read_be(&raw[8..24]));
    let dst = IpAddr::V6(read_be(&raw[24..40]));
    let mut next_header: u8 = raw[6];
    let mut offset: usize = 40;
    let mut fragment = false;
    if next_header == 44 {
        if raw.len() < 48 {
            return None;
        }
        fragment = true;
        next_header = raw[40];
        offset = 48;
    }
    let protocol = Protocol::from(next_header);
    let (src_port, dst_port): (u16, u16) = if protocol == Protocol::Tcp || protocol
        == Protocol::Udp {
        assert(raw@.subrange(offset as int, raw@.len() as int) =~= raw@.skip(offset as int));
        read_ports(&raw[offset..raw.len()])
    } else {
        (0, 0)
    };
    Some(FiveTuple { src, dst, protocol, src_port, dst_port, fragment })
}

/// What one end sees of a packet is what the other end sees, the other way
/// round.
pub proof fn ends_see_the_same_flow(raw: Seq<u8>)
    ensures
        flow_of(raw, true) is Some == flow_of(raw, false) is Some,
        flow_of(raw, true) matches Some(i) ==> (flow_of(raw, false) matches Some(o) && {
            &&& i.local_addr == o.remote_addr
            &&& i.remote_addr == o.local_addr
            &&& i.local_port == o.remote_port
            &&& i.remote_port == o.local_port
            &&& i.protocol == o.protocol
            &&& i.fragment == o.fragment
        }),
{
}

/// A packet of a protocol without ports, and a later fragment of an IPv4
/// packet, has zero ports.
pub proof fn ports_are_zero_without_a_header(raw: Seq<u8>, incoming: bool)
    ensures
        flow_of(raw, incoming) matches Some(p) ==> !has_ports(p.protocol) ==> p.local_port == 0
            && p.remote_port == 0,
        flow_of(raw, incoming) matches Some(p) ==> raw[0] / 16 == 4 ==> (256 * raw[6] + raw[7])
            % 0x2000 != 0 ==> p.local_port == 0 && p.remote_port == 0 && p.fragment,
{
}

} // verus!
