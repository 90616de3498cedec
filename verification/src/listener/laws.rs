//! What the forwarder reads off packets and settings, in terms of the bytes
//! and characters themselves.

use vstd::prelude::*;

use super::config;
use super::forward;
use super::identity;
use super::packet;
use super::tun;
use super::tun::Setup;
use crate::bytes;
use crate::firewall;
use crate::firewall::laws;
use crate::firewall::{DropReason, Packet, PeerIdentity};
use crate::net::{IpAddr, IpNet};
use crate::protocol::cert::der::Network;
use crate::protocol::session::PeerInfo;
use crate::time::Instant;

verus! {

/// Whether the two ports of a flow that goes out are those at a place in a
/// packet, if its protocol is TCP or UDP and they are there, and zero
/// otherwise.
pub open spec fn ports_stand_at(p: Packet, raw: Seq<u8>, number: u8, at: int) -> bool {
    if (number == 6 || number == 17) && raw.len() >= at + 4 {
        &&& p.local_port == 256 * raw[at] + raw[at + 1]
        &&& p.remote_port == 256 * raw[at + 2] + raw[at + 3]
    } else {
        p.local_port == 0 && p.remote_port == 0
    }
}

/// The number that sixteen bytes from a place on spell.
pub open spec fn sixteen_at(raw: Seq<u8>, at: int) -> int {
    0x1_0000_0000_0000_0000_0000_0000 * bytes::four_at(raw, at) + 0x1_0000_0000_0000_0000 * bytes::four_at(
        raw,
        at + 4,
    ) + 0x1_0000_0000 * bytes::four_at(raw, at + 8) + bytes::four_at(raw, at + 12)
}

proof fn lemma_sixteen(raw: Seq<u8>, at: int)
    requires
        0 <= at,
        at + 16 <= raw.len(),
    ensures
        bytes::be_value(raw.subrange(at, at + 16)) == sixteen_at(raw, at),
{
    let s = raw.subrange(at, at + 16);
    let (a, b, c, d) = (s.subrange(0, 4), s.subrange(4, 8), s.subrange(8, 12), s.subrange(12, 16));
    bytes::four_bytes_spell_a_number(a);
    bytes::four_bytes_spell_a_number(b);
    bytes::four_bytes_spell_a_number(c);
    bytes::four_bytes_spell_a_number(d);
    bytes::appended_bytes_spell_a_number(a, b);
    bytes::appended_bytes_spell_a_number(a + b, c);
    bytes::appended_bytes_spell_a_number(a + b + c, d);
    bytes::lemma_pow256_values();
    assert(a + b + c + d =~= s);
}

/// An IPv6 packet that goes out: from the source to the destination that its
/// header names, of the protocol that the header or a fragment header right
/// behind it names, and with the ports right behind those headers. It cannot
/// be read where a header is cut off.
pub proof fn ipv6_packet_is_read(raw: Seq<u8>)
    requires
        raw.len() > 0,
        raw[0] / 16 == 6,
    ensures
        ({
            let fragment = raw.len() >= 40 && raw[6] == 44;
            let end: int = if fragment {
                48
            } else {
                40
            };
            if raw.len() < end {
                packet::flow_of(raw, false) is None
            } else {
                let number = if fragment {
                    raw[40]
                } else {
                    raw[6]
                };
                &&& packet::flow_of(raw, false) matches Some(p)
                &&& p.local_addr matches IpAddr::V6(local) && local == sixteen_at(raw, 8)
                &&& p.remote_addr matches IpAddr::V6(remote) && remote == sixteen_at(raw, 24)
                &&& laws::has_number(p.protocol, number)
                &&& ports_stand_at(p, raw, number, end)
                &&& p.fragment == fragment
            }
        }),
{
    if raw.len() >= 40 {
        let end: int = if raw[6] == 44 {
            48
        } else {
            40
        };
        lemma_sixteen(raw, 8);
        lemma_sixteen(raw, 24);
        bytes::lemma_be_value_bound(raw.subrange(8, 24));
        bytes::lemma_be_value_bound(raw.subrange(24, 40));
        bytes::lemma_pow256_values();
        if raw.len() >= end + 4 {
            lemma_ports(raw, end);
        }
    }
}

proof fn lemma_ports(raw: Seq<u8>, at: int)
    requires
        0 <= at,
        at + 4 <= raw.len(),
    ensures
        packet::ports_of(raw.skip(at)).0 == 256 * raw[at] + raw[at + 1],
        packet::ports_of(raw.skip(at)).1 == 256 * raw[at + 2] + raw[at + 3],
{
    bytes::two_bytes_spell_a_number(raw.skip(at).subrange(0, 2));
    bytes::two_bytes_spell_a_number(raw.skip(at).subrange(2, 4));
}

/// An IPv4 packet that goes out: from the source to the destination that its
/// header names, of the protocol it names, and with the ports right behind
/// it, options included. It is a fragment if more fragments follow or it is
/// not the first one, which alone has ports. It cannot be read where the
/// header is cut off or too short.
pub proof fn ipv4_packet_is_read(raw: Seq<u8>)
    requires
        raw.len() > 0,
        raw[0] / 16 == 4,
    ensures
        ({
            let end: int = 4 * (raw[0] % 16);
            if raw.len() < 20 || end < 20 || raw.len() < end {
                packet::flow_of(raw, false) is None
            } else {
                let first = raw[6] % 32 == 0 && raw[7] == 0;
                let more = (raw[6] / 32) % 2 == 1;
                &&& packet::flow_of(raw, false) matches Some(p)
                &&& p.local_addr matches IpAddr::V4(local) && local == bytes::four_at(raw, 12)
                &&& p.remote_addr matches IpAddr::V4(remote) && remote == bytes::four_at(raw, 16)
                &&& laws::has_number(p.protocol, raw[9])
                &&& first ==> ports_stand_at(p, raw, raw[9], end)
                &&& !first ==> p.local_port == 0 && p.remote_port == 0
                &&& p.fragment == (more || !first)
            }
        }),
{
    let end: int = 4 * (raw[0] % 16);
    if raw.len() >= 20 {
        bytes::four_bytes_spell_a_number(raw.subrange(12, 16));
        bytes::four_bytes_spell_a_number(raw.subrange(16, 20));
        let (hi, lo) = (raw[6], raw[7]);
        let word = 256 * hi + lo;
        assert(word % 0x2000 == 256 * (hi % 32) + lo);
        assert(word / 0x2000 == hi / 32);
        if raw.len() >= end + 4 {
            lemma_ports(raw, end);
        }
    }
}

/// What is neither IPv4 nor IPv6 cannot be read.
pub proof fn other_packets_are_not_read(raw: Seq<u8>, incoming: bool)
    requires
        raw.len() == 0 || (raw[0] / 16 != 4 && raw[0] / 16 != 6),
    ensures
        packet::flow_of(raw, incoming) is None,
{
}

/// Multicast addresses are those from 224.0.0.0 to 239.255.255.255, and those
/// that start with `ff`.
pub proof fn multicast_addresses_are_known(ip: IpAddr)
    ensures
        forward::spec_is_multicast(ip) <==> match ip {
            IpAddr::V4(v) => 0xe000_0000 <= v <= 0xefff_ffff,
            IpAddr::V6(v) => 0xff00_0000_0000_0000_0000_0000_0000_0000 <= v,
        },
{
}

/// The forwarder lets a packet pass if and only if the firewall does, which is
/// told the peer's name and groups and the configured authority.
pub proof fn forwarder_asks_the_firewall(
    before: forward::Forwarder,
    after: forward::Forwarder,
    flow: Packet,
    incoming: bool,
    info: PeerInfo,
    now: Instant,
    passes: bool,
)
    requires
        forward::is_answered(before, after, flow, incoming, info, now, passes),
    ensures
        exists|remote: PeerIdentity, r: Result<(), DropReason>|
            #![trigger firewall::evaluates_to(before.firewall, flow, incoming, remote, now, after.firewall, r)]
            firewall::evaluates_to(
                before.firewall,
                flow,
                incoming,
                remote,
                now,
                after.firewall,
                r,
            ) && passes == (r == Ok::<(), DropReason>(())) && remote.name@ == info.name@
                && remote.ca_name@ == before.ca_name@ && remote.ca_sha@ == before.ca_sha@
                && is_known_as(remote, info),
        after.ca_name == before.ca_name,
        after.ca_sha == before.ca_sha,
{
    let (remote, r) = choose|remote: PeerIdentity, r: Result<(), DropReason>|
        identity::is_identity(remote, info, before.ca_name@, before.ca_sha@)
            && #[trigger] firewall::evaluates_to(
            before.firewall,
            flow,
            incoming,
            remote,
            now,
            after.firewall,
            r,
        ) && passes == (r is Ok);
    identity_is_that_of_the_peer(remote, info, before.ca_name@, before.ca_sha@);
}

/// Whether an identity has a peer's groups, its addresses as its own, and the
/// networks behind it with their prefixes.
pub open spec fn is_known_as(id: PeerIdentity, info: PeerInfo) -> bool {
    &&& forall|g: Seq<char>| #[trigger]
        id.groups@.contains(g) <==> exists|i: int|
            0 <= i < info.groups@.len() && (#[trigger] info.groups@[i])@ == g
    &&& id.vpn_networks@.len() == info.networks@.len()
    &&& forall|i: int|
        0 <= i < info.networks@.len() ==> (#[trigger] id.vpn_networks@[i]).spec_addr()
            == info.networks@[i].addr && id.vpn_networks@[i].spec_prefix_len() == (
        match info.networks@[i].addr {
            IpAddr::V4(_) => 32u8,
            IpAddr::V6(_) => 128u8,
        })
    &&& id.unsafe_networks@.len() == info.unsafe_networks@.len()
    &&& forall|i: int|
        0 <= i < info.unsafe_networks@.len() ==> (#[trigger] id.unsafe_networks@[i]).spec_addr()
            == info.unsafe_networks@[i].addr && id.unsafe_networks@[i].spec_prefix_len()
            == info.unsafe_networks@[i].prefix_len
}

/// What the firewall is told of a peer is what its certificate says: the name,
/// exactly its groups, each of its addresses as a network of that address
/// alone, and the networks behind it as they are.
pub proof fn identity_is_that_of_the_peer(
    id: PeerIdentity,
    info: PeerInfo,
    ca_name: Seq<char>,
    ca_sha: Seq<char>,
)
    requires
        identity::is_identity(id, info, ca_name, ca_sha),
    ensures
        id.name@ == info.name@,
        id.ca_name@ == ca_name,
        id.ca_sha@ == ca_sha,
        is_known_as(id, info),
{
    let names = crate::protocol::cert::der::texts(info.groups@);
    assert forall|g: Seq<char>| #[trigger]
        id.groups@.contains(g) <==> exists|i: int|
            0 <= i < info.groups@.len() && (#[trigger] info.groups@[i])@ == g by {
        if id.groups@.contains(g) {
            assert(names.contains(g));
            let i = choose|i: int| 0 <= i < names.len() && names[i] == g;
            assert(info.groups@[i]@ == g);
        }
        if exists|i: int| 0 <= i < info.groups@.len() && (#[trigger] info.groups@[i])@ == g {
            let i = choose|i: int| 0 <= i < info.groups@.len() && (#[trigger] info.groups@[i])@ == g;
            assert(names[i] == g);
            assert(names.contains(g));
        }
    }
}

/// An interface is registered first and brought up last, with its address,
/// then its size, set in between through one control socket of the address's
/// family. An IPv4 address comes with a mask whose leading bits are set; an
/// IPv6 one comes with its prefix, and is usable at once.
pub proof fn interface_is_made_in_order(addr: IpNet, mtu: u32)
    requires
        addr.spec_prefix_len() as nat <= addr.spec_addr().bits(),
    ensures
        tun::steps(addr, mtu).len() == 6,
        tun::steps(addr, mtu)[0] == Setup::Register,
        tun::steps(addr, mtu)[1] == (Setup::Control { ipv6: addr.spec_addr() is V6 }),
        match addr.spec_addr() {
            IpAddr::V4(v) => {
                &&& tun::steps(addr, mtu)[2] == Setup::Address(v)
                &&& tun::steps(addr, mtu)[3] matches Setup::Netmask(m) && m + vstd::arithmetic::power2::pow2(
                    (32 - addr.spec_prefix_len()) as nat,
                ) == 0x1_0000_0000
            },
            IpAddr::V6(v) => {
                &&& tun::steps(addr, mtu)[2] == Setup::SkipDetection
                &&& tun::steps(addr, mtu)[3] == (Setup::Address6 {
                    addr: v,
                    prefix_len: addr.spec_prefix_len(),
                })
            },
        },
        tun::steps(addr, mtu)[4] == Setup::Mtu(mtu),
        tun::steps(addr, mtu)[5] == Setup::Up,
{
    if addr.spec_addr() is V4 {
        let n = (32 - addr.spec_prefix_len()) as nat;
        vstd::arithmetic::power2::lemma2_to64();
        vstd::arithmetic::power2::lemma_pow2_pos(n);
        if n < 32 {
            vstd::arithmetic::power2::lemma_pow2_strictly_increases(n, 32);
        }
    }
}

/// Whether `t` is the part of `s` from some place on, with nothing but white
/// space around it.
pub open spec fn is_middle(s: Seq<char>, t: Seq<char>, from: int) -> bool {
    &&& 0 <= from
    &&& from + t.len() <= s.len()
    &&& t == s.subrange(from, from + t.len())
    &&& forall|i: int| 0 <= i < from ==> config::white_space(#[trigger] s[i])
    &&& forall|i: int| from + t.len() <= i < s.len() ==> config::white_space(#[trigger] s[i])
}

proof fn lemma_middle_behind_a_blank(s: Seq<char>, t: Seq<char>, from: int)
    requires
        s.len() > 0,
        config::white_space(s[0]),
        is_middle(s.drop_first(), t, from),
    ensures
        is_middle(s, t, from + 1),
{
    let rest = s.drop_first();
    assert(t =~= s.subrange(from + 1, from + 1 + t.len()));
    assert forall|i: int| 0 <= i < from + 1 implies config::white_space(#[trigger] s[i]) by {
        if i > 0 {
            assert(rest[i - 1] == s[i]);
        }
    }
    assert forall|i: int| from + 1 + t.len() <= i < s.len() implies config::white_space(
        #[trigger] s[i],
    ) by {
        assert(rest[i - 1] == s[i]);
    }
}

proof fn lemma_middle_before_a_blank(s: Seq<char>, t: Seq<char>, from: int)
    requires
        s.len() > 0,
        config::white_space(s.last()),
        is_middle(s.drop_last(), t, from),
    ensures
        is_middle(s, t, from),
{
    let rest = s.drop_last();
    assert(t =~= s.subrange(from, from + t.len()));
    assert forall|i: int| 0 <= i < from implies config::white_space(#[trigger] s[i]) by {
        assert(rest[i] == s[i]);
    }
    assert forall|i: int| from + t.len() <= i < s.len() implies config::white_space(
        #[trigger] s[i],
    ) by {
        if i < s.len() - 1 {
            assert(rest[i] == s[i]);
        }
    }
}

/// Trimming takes white space off both ends, all of it and nothing else.
pub proof fn trimming_leaves_the_middle(s: Seq<char>) -> (from: int)
    ensures
        config::trimmed(s).len() > 0 ==> !config::white_space(config::trimmed(s)[0])
            && !config::white_space(config::trimmed(s).last()),
        is_middle(s, config::trimmed(s), from),
    decreases s.len(),
{
    let t = config::trimmed(s);
    if s.len() > 0 && config::white_space(s[0]) {
        let from = trimming_leaves_the_middle(s.drop_first());
        lemma_middle_behind_a_blank(s, t, from);
        from + 1
    } else if s.len() > 0 && config::white_space(s.last()) {
        let from = trimming_leaves_the_middle(s.drop_last());
        lemma_middle_before_a_blank(s, t, from);
        from
    } else {
        assert(t =~= s.subrange(0, 0int + t.len()));
        0
    }
}

proof fn lemma_found(s: Seq<char>, c: char, n: int)
    requires
        0 <= n <= s.len(),
        forall|i: int| 0 <= i < n ==> s[i] != c,
        n < s.len() ==> s[n] == c,
    ensures
        config::first_at(s, c) == n,
    decreases s.len(),
{
    if n > 0 {
        assert forall|i: int| 0 <= i < n - 1 implies s.drop_first()[i] != c by {
            assert(s.drop_first()[i] == s[i + 1]);
        }
        lemma_found(s.drop_first(), c, n - 1);
    }
}

/// A list without commas is one entry, trimmed, unless nothing is left of it.
pub proof fn list_without_commas_is_one_entry(s: Seq<char>)
    requires
        forall|i: int| 0 <= i < s.len() ==> s[i] != ',',
    ensures
        config::entries_of(s) == (if config::trimmed(s).len() > 0 {
            seq![config::trimmed(s)]
        } else {
            Seq::<Seq<char>>::empty()
        }),
{
    lemma_found(s, ',', s.len() as int);
    assert(s.take(s.len() as int) =~= s);
}

/// A comma parts a list: what stands on both sides of it gives its entries in
/// order.
pub proof fn commas_part_lists(a: Seq<char>, b: Seq<char>)
    ensures
        config::entries_of(a.push(',') + b) == config::entries_of(a) + config::entries_of(b),
    decreases a.len(),
{
    let s = a.push(',') + b;
    if forall|i: int| 0 <= i < a.len() ==> a[i] != ',' {
        lemma_found(s, ',', a.len() as int);
        assert(s.take(a.len() as int) =~= a);
        assert(s.skip(a.len() + 1int) =~= b);
        list_without_commas_is_one_entry(a);
    } else {
        let n = config::first_at(a, ',');
        lemma_first_comma(a);
        lemma_found(s, ',', n);
        let rest = a.skip(n + 1);
        assert(s.take(n) =~= a.take(n));
        assert(s.skip(n + 1) =~= rest.push(',') + b);
        commas_part_lists(rest, b);
        assert(config::entries_of(s) =~= config::entries_of(a) + config::entries_of(b));
    }
}

proof fn lemma_first_comma(s: Seq<char>)
    requires
        exists|i: int| 0 <= i < s.len() && s[i] == ',',
    ensures
        0 <= config::first_at(s, ',') < s.len(),
        s[config::first_at(s, ',')] == ',',
        forall|i: int| 0 <= i < config::first_at(s, ',') ==> s[i] != ',',
    decreases s.len(),
{
    if s[0] != ',' {
        let i = choose|i: int| 0 <= i < s.len() && s[i] == ',';
        assert(s.drop_first()[i - 1] == ',');
        lemma_first_comma(s.drop_first());
        assert forall|j: int| 0 <= j < config::first_at(s, ',') implies s[j] != ',' by {
            if j > 0 {
                assert(s.drop_first()[j - 1] == s[j]);
            }
        }
    }
}

/// The first equals sign parts an entry into two parts, which are trimmed; an
/// entry without one has no parts.
pub proof fn equals_sign_parts_an_entry(a: Seq<char>, b: Seq<char>)
    requires
        forall|i: int| 0 <= i < a.len() ==> a[i] != '=',
    ensures
        config::halves_of(a.push('=') + b) == Some((config::trimmed(a), config::trimmed(b))),
        config::halves_of(a) is None,
{
    let s = a.push('=') + b;
    lemma_found(s, '=', a.len() as int);
    lemma_found(a, '=', a.len() as int);
    assert(s.take(a.len() as int) =~= a);
    assert(s.skip(a.len() + 1int) =~= b);
}

/// Networks are sound if no prefix is longer than 32 bits for IPv4 and 128 for
/// IPv6.
pub proof fn sound_networks_have_short_prefixes(ns: Seq<Network>)
    ensures
        identity::are_sound(ns) <==> forall|i: int|
            0 <= i < ns.len() ==> (#[trigger] ns[i]).prefix_len <= (match ns[i].addr {
                IpAddr::V4(_) => 32u8,
                IpAddr::V6(_) => 128u8,
            }),
{
    if !identity::are_sound(ns) {
        let i = choose|i: int|
            0 <= i < ns.len() && !((#[trigger] ns[i]).prefix_len as nat <= ns[i].addr.bits());
        assert(ns[i].prefix_len as nat > ns[i].addr.bits());
    }
}

/// White space are the blank, the controls from tab to carriage return, the
/// next-line control, and the blanks and separators that Unicode has beyond
/// Latin-1.
pub proof fn blanks_are_white_space(c: char)
    ensures
        (c as u32) < 0x80 ==> (config::white_space(c) <==> c == ' ' || (9 <= c as u32 <= 13)),
        0x80 <= (c as u32) < 0x1680 ==> (config::white_space(c) <==> c as u32 == 0x85 || c as u32
            == 0xa0),
        0x1680 <= c as u32 ==> (config::white_space(c) <==> c as u32 == 0x1680 || (0x2000 <= c as u32
            <= 0x200a) || c as u32 == 0x2028 || c as u32 == 0x2029 || c as u32 == 0x202f || c as u32
            == 0x205f || c as u32 == 0x3000),
{
}

} // verus!
