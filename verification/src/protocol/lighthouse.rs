//! What a host says to lighthouses, and what it takes from their answers:
//! it tells where it can be reached, and asks where others can. Answering
//! for other hosts is the lighthouse's own part, and is not here.

use vstd::prelude::*;

use super::wire::nebula_meta;
use super::wire::nebula_meta::MessageType;
use super::wire::meta::{
    Addr, MetaDetailsView, MetaView, NebulaMeta, NebulaMetaDetails, V4AddrPort, V6AddrPort,
};
use crate::net::{IpAddr, SocketAddr};

verus! {

/// Two to the 64th.
pub const HALF: u128 = 0x1_0000_0000_0000_0000;

/// What precedes an IPv4 address that is mapped into IPv6, as a number.
pub const MAPPED: u128 = 0xffff;

/// Whether an IPv6 address is an IPv4 one in disguise, as in `::ffff:192.0.2.1`.
pub open spec fn is_mapped(v: u128) -> bool {
    v / 0x1_0000_0000 == MAPPED
}

/// The number that two halves are.
pub open spec fn joined(hi: u64, lo: u64) -> u128 {
    (hi * HALF + lo) as u128
}

/// The address that a message means.
pub open spec fn ip_of(a: Addr) -> IpAddr {
    let v = joined(a.hi, a.lo);
    if is_mapped(v) {
        IpAddr::V4((v % 0x1_0000_0000) as u32)
    } else {
        IpAddr::V6(v)
    }
}

/// How a message gives an address: IPv4 addresses are mapped into IPv6.
pub open spec fn addr_of(ip: IpAddr) -> Addr {
    match ip {
        IpAddr::V4(v) => Addr { hi: 0, lo: (0xffff_0000_0000 + v) as u64 },
        IpAddr::V6(v) => Addr { hi: (v / HALF) as u64, lo: (v % HALF) as u64 },
    }
}

/// The IPv4 entries of a list of places, in their order.
pub open spec fn v4_places(addrs: Seq<SocketAddr>) -> Seq<V4AddrPort>
    decreases addrs.len(),
{
    if addrs.len() == 0 {
        Seq::empty()
    } else {
        let before = v4_places(addrs.drop_last());
        match addrs.last().ip {
            IpAddr::V4(v) => before.push(V4AddrPort { addr: v, port: addrs.last().port as u32 }),
            IpAddr::V6(_) => before,
        }
    }
}

/// The IPv6 entries of a list of places, in their order.
pub open spec fn v6_places(addrs: Seq<SocketAddr>) -> Seq<V6AddrPort>
    decreases addrs.len(),
{
    if addrs.len() == 0 {
        Seq::empty()
    } else {
        let before = v6_places(addrs.drop_last());
        match addrs.last().ip {
            IpAddr::V4(_) => before,
            IpAddr::V6(v) => before.push(
                V6AddrPort {
                    hi: (v / HALF) as u64,
                    lo: (v % HALF) as u64,
                    port: addrs.last().port as u32,
                },
            ),
        }
    }
}

/// Where a host at `vpn_addr` can be reached.
pub open spec fn update_of(vpn_addr: IpAddr, reachable_at: Seq<SocketAddr>) -> MetaView {
    MetaView {
        type_: nebula_meta::type_number(MessageType::HostUpdateNotification),
        details: Some(
            MetaDetailsView {
                vpn_addr: Some(addr_of(vpn_addr)),
                v4_addr_ports: v4_places(reachable_at),
                v6_addr_ports: v6_places(reachable_at),
            },
        ),
    }
}

/// The question where a host can be reached.
pub open spec fn query_of(vpn_addr: IpAddr) -> MetaView {
    MetaView {
        type_: nebula_meta::type_number(MessageType::HostQuery),
        details: Some(
            MetaDetailsView {
                vpn_addr: Some(addr_of(vpn_addr)),
                v4_addr_ports: Seq::empty(),
                v6_addr_ports: Seq::empty(),
            },
        ),
    }
}

/// The place that an IPv4 entry means. Only the low half of a port counts.
pub open spec fn v4_place(a: V4AddrPort) -> SocketAddr {
    SocketAddr { ip: IpAddr::V4(a.addr), port: (a.port % 0x1_0000) as u16 }
}

/// The place that an IPv6 entry means. Only the low half of a port counts.
pub open spec fn v6_place(a: V6AddrPort) -> SocketAddr {
    SocketAddr { ip: IpAddr::V6(joined(a.hi, a.lo)), port: (a.port % 0x1_0000) as u16 }
}

/// The places a message names: first the IPv4 ones, then the IPv6 ones.
pub open spec fn candidates(meta: MetaView) -> Seq<SocketAddr> {
    match meta.details {
        Some(d) => d.v4_addr_ports.map_values(|a: V4AddrPort| v4_place(a))
            + d.v6_addr_ports.map_values(|a: V6AddrPort| v6_place(a)),
        None => Seq::empty(),
    }
}

/// The address that a message means.
pub fn addr_to_ip(addr: &Addr) -> (r: IpAddr)
    ensures
        r == ip_of(*addr),
{
    let v: u128 = (addr.hi as u128) * HALF + (addr.lo as u128);
    if v / 0x1_0000_0000 == MAPPED {
        IpAddr::V4((v % 0x1_0000_0000) as u32)
    } else {
        IpAddr::V6(v)
    }
}

fn ip_to_addr(ip: IpAddr) -> (r: Addr)
    ensures
        r == addr_of(ip),
{
    match ip {
        IpAddr::V4(v) => Addr { hi: 0, lo: 0xffff_0000_0000 + (v as u64) },
        IpAddr::V6(v) => Addr { hi: (v / HALF) as u64, lo: (v % HALF) as u64 },
    }
}

/// Adds a place to the list of its family.
fn addr_to_v4_v6(addr: SocketAddr, v4: &mut Vec<V4AddrPort>, v6: &mut Vec<V6AddrPort>)
    ensures
        match addr.ip {
            IpAddr::V4(v) => final(v4)@ == old(v4)@.push(
                V4AddrPort { addr: v, port: addr.port as u32 },
            ) && final(v6)@ == old(v6)@,
            IpAddr::V6(v) => final(v4)@ == old(v4)@ && final(v6)@ == old(v6)@.push(
                V6AddrPort {
                    hi: (v / HALF) as u64,
                    lo: (v % HALF) as u64,
                    port: addr.port as u32,
                },
            ),
        },
{
    match addr.ip {
        IpAddr::V4(v) => {
            v4.push(V4AddrPort { addr: v, port: addr.port as u32 });
        },
        IpAddr::V6(v) => {
            v6.push(
                V6AddrPort {
                    hi: (v / HALF) as u64,
                    lo: (v % HALF) as u64,
                    port: addr.port as u32,
                },
            );
        },
    }
}

/// Tells lighthouses where the host at `vpn_addr` can be reached.
pub fn host_update_notification(vpn_addr: IpAddr, reachable_at: &[SocketAddr]) -> (r: NebulaMeta)
    ensures
        r@ == update_of(vpn_addr, reachable_at@),
{
    let mut v4: Vec<V4AddrPort> = Vec::new();
    let mut v6: Vec<V6AddrPort> = Vec::new();
    let mut i: usize = 0;
    while i < reachable_at.len()
        invariant
            i <= reachable_at@.len(),
            v4@ == v4_places(reachable_at@.take(i as int)),
            v6@ == v6_places(reachable_at@.take(i as int)),
        decreases reachable_at@.len() - i,
    {
        addr_to_v4_v6(reachable_at[i], &mut v4, &mut v6);
        proof {
            let next = reachable_at@.take(i + 1);
            assert(next.drop_last() =~= reachable_at@.take(i as int));
            assert(next.last() == reachable_at@[i as int]);
        }
        i = i + 1;
    }
    assert(reachable_at@.take(i as int) =~= reachable_at@);
    NebulaMeta {
        type_: MessageType::HostUpdateNotification.as_i32(),
        details: Some(
            NebulaMetaDetails {
                vpn_addr: Some(ip_to_addr(vpn_addr)),
                v4_addr_ports: v4,
                v6_addr_ports: v6,
            },
        ),
    }
}

/// Asks lighthouses where the host at `vpn_addr` can be reached.
pub fn host_query(vpn_addr: IpAddr) -> (r: NebulaMeta)
    ensures
        r@ == query_of(vpn_addr),
{
    NebulaMeta {
        type_: MessageType::HostQuery.as_i32(),
        details: Some(
            NebulaMetaDetails {
                vpn_addr: Some(ip_to_addr(vpn_addr)),
                v4_addr_ports: Vec::new(),
                v6_addr_ports: Vec::new(),
            },
        ),
    }
}

/// The low half of a port number.
fn low_port(port: u32) -> (r: u16)
    ensures
        r == port % 0x1_0000,
{
    (port % 0x1_0000) as u16
}

/// The places that an answer or a notification names.
pub fn candidate_addrs(meta: &NebulaMeta) -> (r: Vec<SocketAddr>)
    ensures
        r@ == candidates(meta@),
{
    let mut out: Vec<SocketAddr> = Vec::new();
    let details = match &meta.details {
        Some(d) => d,
        None => {
            return out;
        },
    };
    let ghost v4 = details.v4_addr_ports@.map_values(|a: V4AddrPort| v4_place(a));
    let ghost v6 = details.v6_addr_ports@.map_values(|a: V6AddrPort| v6_place(a));
    let mut i: usize = 0;
    while i < details.v4_addr_ports.len()
        invariant
            i <= details.v4_addr_ports@.len(),
            v4 == details.v4_addr_ports@.map_values(|a: V4AddrPort| v4_place(a)),
            out@ == v4.take(i as int),
        decreases details.v4_addr_ports@.len() - i,
    {
        let a = &details.v4_addr_ports[i];
        out.push(SocketAddr { ip: IpAddr::V4(a.addr), port: low_port(a.port) });
        assert(v4.take(i + 1) =~= v4.take(i as int).push(v4[i as int]));
        i = i + 1;
    }
    assert(out@ =~= v4 + v6.take(0));
    let mut k: usize = 0;
    while k < details.v6_addr_ports.len()
        invariant
            k <= details.v6_addr_ports@.len(),
            v6 == details.v6_addr_ports@.map_values(|a: V6AddrPort| v6_place(a)),
            out@ == v4 + v6.take(k as int),
        decreases details.v6_addr_ports@.len() - k,
    {
        let a = &details.v6_addr_ports[k];
        let v: u128 = (a.hi as u128) * HALF + (a.lo as u128);
        out.push(SocketAddr { ip: IpAddr::V6(v), port: low_port(a.port) });
        assert(v4 + v6.take(k + 1) =~= (v4 + v6.take(k as int)).push(v6[k as int]));
        k = k + 1;
    }
    assert(out@ =~= v4 + v6);
    out
}

/// An address gets through a message unchanged, unless it is an IPv4 address
/// written as an IPv6 one: that is read as the IPv4 address.
pub proof fn addresses_survive_messages(ip: IpAddr)
    requires
        match ip {
            IpAddr::V4(_) => true,
            IpAddr::V6(v) => !is_mapped(v),
        },
    ensures
        ip_of(addr_of(ip)) == ip,
{
}

/// The places in a list that are of one family.
pub open spec fn of_family(addrs: Seq<SocketAddr>, v4: bool) -> Seq<SocketAddr> {
    addrs.filter(|a: SocketAddr| (a.ip is V4) == v4)
}

proof fn lemma_places_survive(addrs: Seq<SocketAddr>)
    ensures
        v4_places(addrs).map_values(|a: V4AddrPort| v4_place(a)) == of_family(addrs, true),
        v6_places(addrs).map_values(|a: V6AddrPort| v6_place(a)) == of_family(addrs, false),
    decreases addrs.len(),
{
    reveal(Seq::filter);
    if addrs.len() > 0 {
        lemma_places_survive(addrs.drop_last());
        match addrs.last().ip {
            IpAddr::V4(_) => {
                assert(v4_places(addrs).map_values(|a: V4AddrPort| v4_place(a))
                    =~= of_family(addrs.drop_last(), true).push(addrs.last()));
            },
            IpAddr::V6(v) => {
                assert(joined((v / HALF) as u64, (v % HALF) as u64) == v);
                assert(v6_places(addrs).map_values(|a: V6AddrPort| v6_place(a))
                    =~= of_family(addrs.drop_last(), false).push(addrs.last()));
            },
        }
    } else {
        assert(v4_places(addrs).map_values(|a: V4AddrPort| v4_place(a)) =~= of_family(addrs, true));
        assert(v6_places(addrs).map_values(|a: V6AddrPort| v6_place(a)) =~= of_family(
            addrs,
            false,
        ));
    }
}

/// What a host says of where it can be reached is what is read from it: the
/// same places, the IPv4 ones first.
pub proof fn updates_name_the_places_given(vpn_addr: IpAddr, reachable_at: Seq<SocketAddr>)
    ensures
        candidates(update_of(vpn_addr, reachable_at)) == of_family(reachable_at, true) + of_family(
            reachable_at,
            false,
        ),
{
    lemma_places_survive(reachable_at);
}

/// If one place is given, it is the one that is named.
pub proof fn updates_name_the_one_place_given(vpn_addr: IpAddr, place: SocketAddr)
    ensures
        candidates(update_of(vpn_addr, seq![place])) == seq![place],
{
    reveal_with_fuel(v4_places, 2);
    reveal_with_fuel(v6_places, 2);
    let places = seq![place];
    assert(places.drop_last() =~= Seq::empty());
    assert(places.last() == place);
    match place.ip {
        IpAddr::V4(_) => {},
        IpAddr::V6(v) => {
            assert(joined((v / HALF) as u64, (v % HALF) as u64) == v);
        },
    }
    assert(candidates(update_of(vpn_addr, places)) =~= places);
}

/// A question names no places.
pub proof fn queries_name_no_places(vpn_addr: IpAddr)
    ensures
        candidates(query_of(vpn_addr)) == Seq::<SocketAddr>::empty(),
{
    assert(candidates(query_of(vpn_addr)) =~= Seq::<SocketAddr>::empty());
}

} // verus!
