//! What a certificate says, and the bytes it says it in.
//!
//! ```text
//! certificate ::= SEQUENCE { details [0], curve [1] DEFAULT curve25519,
//!                            public key [2], signature [3] }
//! details     ::= { name [0], networks [1]?, unsafe networks [2]?,
//!                   groups [3]?, is ca [4]?, not before [5], not after [6],
//!                   issuer [7]? }
//! ```

use vstd::prelude::*;
use vstd::utf8;

use super::tlv;
use super::tlv::{write_tlv, Reader};
use crate::bytes;
use crate::bytes::{push_all, push_be, read_be, to_vec};
use crate::net::IpAddr;
use crate::protocol::error::Error;
use crate::text;
use crate::text::{decimal_of_usize, join, string_from_utf8};

verus! {

pub const TAG_CERT_DETAILS: u8 = 0xA0;
pub const TAG_CERT_CURVE: u8 = 0x81;
pub const TAG_CERT_PUBLIC_KEY: u8 = 0x82;
pub const TAG_CERT_SIGNATURE: u8 = 0x83;

pub const TAG_DETAILS_NAME: u8 = 0x80;
pub const TAG_DETAILS_NETWORKS: u8 = 0xA1;
pub const TAG_DETAILS_UNSAFE_NETWORKS: u8 = 0xA2;
pub const TAG_DETAILS_GROUPS: u8 = 0xA3;
pub const TAG_DETAILS_IS_CA: u8 = 0x84;
pub const TAG_DETAILS_NOT_BEFORE: u8 = 0x85;
pub const TAG_DETAILS_NOT_AFTER: u8 = 0x86;
pub const TAG_DETAILS_ISSUER: u8 = 0x87;

pub const UNIVERSAL_OCTET_STRING: u8 = 0x04;
pub const UNIVERSAL_UTF8_STRING: u8 = 0x0C;
pub const UNIVERSAL_SEQUENCE: u8 = 0x30;

/// An integer modulo 2^64, as two's complement has it.
pub open spec fn twos_complement(v: i64) -> nat {
    if v < 0 {
        (v + 0x1_0000_0000_0000_0000) as nat
    } else {
        v as nat
    }
}

/// How many bytes an integer is written in: the fewest that leave the highest
/// bit for the sign of a number that is not negative, and all eight of one
/// that is.
pub open spec fn int_byte_count(v: nat) -> nat
    decreases v,
{
    if v < 0x80 {
        1
    } else {
        1 + int_byte_count(v / 256)
    }
}

/// The bytes of an integer.
pub open spec fn int_bytes(v: i64) -> Seq<u8> {
    if v < 0 {
        bytes::be_bytes(twos_complement(v), 8)
    } else {
        bytes::be_bytes(v as nat, int_byte_count(v as nat))
    }
}

/// The integer that up to eight bytes are in two's complement.
pub open spec fn int_of(b: Seq<u8>) -> Result<i64, Seq<char>> {
    if b.len() == 0 || b.len() > 8 {
        Err("invalid integer length"@)
    } else if b[0] >= 0x80 {
        Ok((bytes::be_value(b) - bytes::pow256(b.len())) as i64)
    } else {
        Ok(bytes::be_value(b) as i64)
    }
}

proof fn lemma_int_byte_count(v: nat)
    requires
        v <= i64::MAX,
    ensures
        1 <= int_byte_count(v) <= 8,
        2 * v < bytes::pow256(int_byte_count(v)),
{
    bytes::lemma_pow256_values();
    reveal_with_fuel(int_byte_count, 9);
}

/// The first byte of a number in `n` bytes tells which half of the range the
/// number is in.
proof fn lemma_first_byte(v: nat, n: nat)
    requires
        n >= 1,
        v < bytes::pow256(n),
    ensures
        bytes::be_bytes(v, n).len() == n,
        (bytes::be_bytes(v, n)[0] >= 0x80) == (2 * v >= bytes::pow256(n)),
    decreases n,
{
    bytes::lemma_be_bytes_len(v, n);
    if n == 1 {
        bytes::lemma_pow256_values();
        assert(bytes::be_bytes(v, 1)[0] == (v % 256) as u8);
    } else {
        let shorter = bytes::be_bytes(v / 256, (n - 1) as nat);
        lemma_first_byte(v / 256, (n - 1) as nat);
        assert(bytes::be_bytes(v, n)[0] == shorter[0]);
        let half = bytes::pow256((n - 1) as nat);
        assert(bytes::pow256(n) == 256 * half);
        assert((2 * (v / 256) >= half) == (2 * v >= 256 * half)) by {
            lemma_pow256_even((n - 1) as nat);
        }
    }
}

proof fn lemma_pow256_even(n: nat)
    requires
        n >= 1,
    ensures
        bytes::pow256(n) % 2 == 0,
{
    assert(bytes::pow256(n) == 256 * bytes::pow256((n - 1) as nat));
}

/// Every integer is read back from its bytes.
pub proof fn int_round_trips(v: i64)
    ensures
        1 <= int_bytes(v).len() <= 8,
        int_of(int_bytes(v)) == Ok::<i64, Seq<char>>(v),
{
    bytes::lemma_pow256_values();
    let u = twos_complement(v);
    if v < 0 {
        bytes::be_bytes_round_trips(u, 8);
        lemma_first_byte(u, 8);
    } else {
        lemma_int_byte_count(u);
        bytes::be_bytes_round_trips(u, int_byte_count(u));
        lemma_first_byte(u, int_byte_count(u));
    }
}

fn count_int_bytes(v: u64) -> (r: usize)
    requires
        v <= i64::MAX,
    ensures
        r == int_byte_count(v as nat),
    decreases v,
{
    if v < 0x80 {
        1
    } else {
        proof {
            lemma_int_byte_count(v as nat);
            lemma_int_byte_count(v as nat / 256);
        }
        1 + count_int_bytes(v / 256)
    }
}

/// The bytes of an integer: two's complement, big-endian, and as few bytes as
/// that takes for one that is not negative.
pub fn encode_der_int(v: i64) -> (r: Vec<u8>)
    ensures
        r@ == int_bytes(v),
{
    let mut out: Vec<u8> = Vec::new();
    if v < 0 {
        let u: u64 = (v - i64::MIN) as u64 + 0x8000_0000_0000_0000;
        push_be(&mut out, u as u128, 8);
    } else {
        let n: usize = count_int_bytes(v as u64);
        push_be(&mut out, v as u128, n);
    }
    assert(out@ =~= int_bytes(v));
    out
}

pub fn decode_der_int(b: &[u8]) -> (r: Result<i64, String>)
    ensures
        match int_of(b@) {
            Ok(v) => r == Ok::<i64, String>(v),
            Err(msg) => r matches Err(e) && e@ == msg,
        },
{
    if b.len() == 0 || b.len() > 8 {
        return Err("invalid integer length".to_string());
    }
    let value: u128 = read_be(b);
    proof {
        bytes::lemma_pow256_values();
        bytes::lemma_be_value_bound(b@);
        bytes::be_value_round_trips(b@);
        lemma_first_byte(bytes::be_value(b@), b@.len());
        bytes::lemma_pow256_increases(b@.len(), 8);
    }
    if b[0] >= 0x80 {
        let mut range: u128 = 1;
        let mut i: usize = 0;
        while i < b.len()
            invariant
                i <= b@.len() <= 8,
                range as nat == bytes::pow256(i as nat),
            decreases b.len() - i,
        {
            proof {
                bytes::lemma_pow256_increases((i + 1) as nat, 8);
                bytes::lemma_pow256_values();
                assert(bytes::pow256((i + 1) as nat) == 256 * bytes::pow256(i as nat));
            }
            range = range * 256;
            i = i + 1;
        }
        let below: u128 = range - value;
        proof {
            assert(below as int <= 0x8000_0000_0000_0000int);
        }
        Ok((-(below as i128)) as i64)
    } else {
        Ok(value as i64)
    }
}

#[derive(Debug, Clone, Copy, PartialEq, Eq, Structural)]
pub enum Curve {
    Curve25519,
    P256,
}

pub open spec fn curve_byte(c: Curve) -> u8 {
    match c {
        Curve::Curve25519 => 0,
        Curve::P256 => 1,
    }
}

pub open spec fn curve_of(b: u8) -> Result<Curve, Seq<char>> {
    if b == 0 {
        Ok(Curve::Curve25519)
    } else if b == 1 {
        Ok(Curve::P256)
    } else {
        Err("unknown curve "@ + text::digits(b as nat, 10))
    }
}

impl Curve {
    pub fn from_byte(b: u8) -> (r: Result<Self, String>)
        ensures
            match curve_of(b) {
                Ok(c) => r == Ok::<Curve, String>(c),
                Err(msg) => r matches Err(e) && e@ == msg,
            },
    {
        match b {
            0 => Ok(Curve::Curve25519),
            1 => Ok(Curve::P256),
            _ => Err(
                join("unknown curve ".to_string(), decimal_of_usize(b as usize).as_str()),
            ),
        }
    }

    pub fn to_byte(self) -> (r: u8)
        ensures
            r == curve_byte(self),
    {
        match self {
            Curve::Curve25519 => 0,
            Curve::P256 => 1,
        }
    }
}

/// An address and a prefix length, as a certificate has them.
#[derive(Debug, Clone, Copy, PartialEq, Eq, Structural)]
pub struct Network {
    pub addr: IpAddr,
    pub prefix_len: u8,
}

/// Four or sixteen bytes of address, and one of prefix length.
pub open spec fn network_bytes(n: Network) -> Seq<u8> {
    bytes::be_bytes(
        n.addr.value(),
        match n.addr {
            IpAddr::V4(_) => 4,
            IpAddr::V6(_) => 16,
        },
    ).push(n.prefix_len)
}

pub open spec fn network_of(b: Seq<u8>) -> Result<Network, Seq<char>> {
    if b.len() == 5 {
        Ok(
            Network {
                addr: IpAddr::V4(bytes::be_value(b.take(4)) as u32),
                prefix_len: b[4],
            },
        )
    } else if b.len() == 17 {
        Ok(
            Network {
                addr: IpAddr::V6(bytes::be_value(b.take(16)) as u128),
                prefix_len: b[16],
            },
        )
    } else {
        Err("invalid network length "@ + text::digits(b.len(), 10))
    }
}

/// A network is read back from its bytes.
pub proof fn network_round_trips(n: Network)
    ensures
        network_of(network_bytes(n)) == Ok::<Network, Seq<char>>(n),
{
    bytes::lemma_pow256_values();
    match n.addr {
        IpAddr::V4(v) => {
            bytes::be_bytes_round_trips(v as nat, 4);
            assert(network_bytes(n).take(4) =~= bytes::be_bytes(v as nat, 4));
        },
        IpAddr::V6(v) => {
            bytes::be_bytes_round_trips(v as nat, 16);
            assert(network_bytes(n).take(16) =~= bytes::be_bytes(v as nat, 16));
        },
    }
}

impl Network {
    pub fn decode(b: &[u8]) -> (r: Result<Self, String>)
        ensures
            match network_of(b@) {
                Ok(n) => r == Ok::<Network, String>(n),
                Err(msg) => r matches Err(e) && e@ == msg,
            },
    {
        proof {
            bytes::lemma_pow256_values();
        }
        if b.len() == 5 {
            let addr: u128 = read_be(&b[0..4]);
            proof {
                assert(b@.subrange(0, 4) =~= b@.take(4));
                bytes::lemma_be_value_bound(b@.take(4));
            }
            Ok(Network { addr: IpAddr::V4(addr as u32), prefix_len: b[4] })
        } else if b.len() == 17 {
            let addr: u128 = read_be(&b[0..16]);
            proof {
                assert(b@.subrange(0, 16) =~= b@.take(16));
            }
            Ok(Network { addr: IpAddr::V6(addr), prefix_len: b[16] })
        } else {
            Err(
                join(
                    "invalid network length ".to_string(),
                    decimal_of_usize(b.len()).as_str(),
                ),
            )
        }
    }

    pub fn encode(&self) -> (r: Vec<u8>)
        ensures
            r@ == network_bytes(*self),
    {
        let mut v: Vec<u8> = Vec::new();
        match self.addr {
            IpAddr::V4(a) => push_be(&mut v, a as u128, 4),
            IpAddr::V6(a) => push_be(&mut v, a, 16),
        }
        v.push(self.prefix_len);
        assert(v@ =~= network_bytes(*self));
        v
    }
}

#[derive(Debug, Clone, PartialEq, Eq)]
pub struct Details {
    pub name: String,
    pub networks: Vec<Network>,
    pub unsafe_networks: Vec<Network>,
    pub groups: Vec<String>,
    pub is_ca: bool,
    pub not_before: i64,
    pub not_after: i64,
    /// The fingerprint of the authority that issued the certificate; empty
    /// for the certificate of an authority.
    pub issuer: Vec<u8>,
}

/// [`Details`] with its strings and lists as sequences.
#[verifier::ext_equal]
pub struct DetailsView {
    pub name: Seq<char>,
    pub networks: Seq<Network>,
    pub unsafe_networks: Seq<Network>,
    pub groups: Seq<Seq<char>>,
    pub is_ca: bool,
    pub not_before: i64,
    pub not_after: i64,
    pub issuer: Seq<u8>,
}

/// The characters of each string of a list.
pub open spec fn texts(s: Seq<String>) -> Seq<Seq<char>> {
    Seq::new(s.len(), |i: int| s[i]@)
}

impl View for Details {
    type V = DetailsView;

    open spec fn view(&self) -> DetailsView {
        DetailsView {
            name: self.name@,
            networks: self.networks@,
            unsafe_networks: self.unsafe_networks@,
            groups: texts(self.groups@),
            is_ca: self.is_ca,
            not_before: self.not_before,
            not_after: self.not_after,
            issuer: self.issuer@,
        }
    }
}

pub open spec fn network_items(ns: Seq<Network>) -> Seq<Seq<u8>> {
    Seq::new(ns.len(), |i: int| network_bytes(ns[i]))
}

pub open spec fn group_items(gs: Seq<Seq<char>>) -> Seq<Seq<u8>> {
    Seq::new(gs.len(), |i: int| utf8::encode_utf8(gs[i]))
}

/// The optional mark of an authority's certificate.
pub open spec fn is_ca_bytes(is_ca: bool) -> Seq<u8> {
    if is_ca {
        tlv::tlv(TAG_DETAILS_IS_CA, seq![0xffu8])
    } else {
        Seq::empty()
    }
}

pub open spec fn issuer_bytes(issuer: Seq<u8>) -> Seq<u8> {
    if issuer.len() == 0 {
        Seq::empty()
    } else {
        tlv::tlv(TAG_DETAILS_ISSUER, issuer)
    }
}

/// The fields of details, one after the other.
#[verifier::opaque]
pub open spec fn fields_bytes(d: DetailsView) -> Seq<u8> {
    tlv::tlv(TAG_DETAILS_NAME, utf8::encode_utf8(d.name)) + (tlv::list_bytes(
        TAG_DETAILS_NETWORKS,
        UNIVERSAL_OCTET_STRING,
        network_items(d.networks),
    ) + (tlv::list_bytes(
        TAG_DETAILS_UNSAFE_NETWORKS,
        UNIVERSAL_OCTET_STRING,
        network_items(d.unsafe_networks),
    ) + (tlv::list_bytes(TAG_DETAILS_GROUPS, UNIVERSAL_UTF8_STRING, group_items(d.groups)) + (
    is_ca_bytes(d.is_ca) + (tlv::tlv(TAG_DETAILS_NOT_BEFORE, int_bytes(d.not_before)) + (tlv::tlv(
        TAG_DETAILS_NOT_AFTER,
        int_bytes(d.not_after),
    ) + issuer_bytes(d.issuer)))))))
}

pub open spec fn details_bytes(d: DetailsView) -> Seq<u8> {
    tlv::tlv(TAG_CERT_DETAILS, fields_bytes(d))
}

/// The text that bytes encode, or what is said where they encode none.
#[verifier::opaque]
pub open spec fn text_of(b: Seq<u8>, msg: Seq<char>) -> Result<Seq<char>, Seq<char>> {
    if utf8::valid_utf8(b) {
        Ok(utf8::decode_utf8(b))
    } else {
        Err(msg)
    }
}

/// Text is read back from its bytes.
pub proof fn text_round_trips(s: Seq<char>, msg: Seq<char>)
    ensures
        text_of(utf8::encode_utf8(s), msg) == Ok::<Seq<char>, Seq<char>>(s),
{
    reveal(text_of);
    utf8::encode_utf8_valid_utf8(s);
    utf8::encode_utf8_decode_utf8(s);
}

pub open spec fn networks_at(data: Seq<u8>, pos: int, tag: u8) -> Result<
    (Seq<Network>, int),
    Seq<char>,
> {
    tlv::list_at(data, pos, tag, UNIVERSAL_OCTET_STRING, |b: Seq<u8>| network_of(b))
}

pub open spec fn groups_at(data: Seq<u8>, pos: int) -> Result<(Seq<Seq<char>>, int), Seq<char>> {
    tlv::list_at(
        data,
        pos,
        TAG_DETAILS_GROUPS,
        UNIVERSAL_UTF8_STRING,
        |b: Seq<u8>| text_of(b, "group is not valid utf-8"@),
    )
}

pub open spec fn int_at(data: Seq<u8>, pos: int, tag: u8) -> Result<(i64, int), Seq<char>> {
    match tlv::tlv_at(data, pos, tag) {
        Err(e) => Err(e),
        Ok((content, end)) => match int_of(content) {
            Err(e) => Err(e),
            Ok(v) => Ok((v, end)),
        },
    }
}

/// The details whose fields stand one after the other in `b`.
pub open spec fn fields_of(b: Seq<u8>) -> Result<DetailsView, Seq<char>> {
    match tlv::tlv_at(b, 0, TAG_DETAILS_NAME) {
        Err(e) => Err(e),
        Ok((name_bytes, p1)) => match text_of(name_bytes, "name is not valid utf-8"@) {
            Err(e) => Err(e),
            Ok(name) => match networks_at(b, p1, TAG_DETAILS_NETWORKS) {
                Err(e) => Err(e),
                Ok((networks, p2)) => match networks_at(b, p2, TAG_DETAILS_UNSAFE_NETWORKS) {
                    Err(e) => Err(e),
                    Ok((unsafe_networks, p3)) => match groups_at(b, p3) {
                        Err(e) => Err(e),
                        Ok((groups, p4)) => fields_after_groups(
                            b,
                            p4,
                            name,
                            networks,
                            unsafe_networks,
                            groups,
                        ),
                    },
                },
            },
        },
    }
}

/// The same, from behind the groups on.
pub open spec fn fields_after_groups(
    b: Seq<u8>,
    pos: int,
    name: Seq<char>,
    networks: Seq<Network>,
    unsafe_networks: Seq<Network>,
    groups: Seq<Seq<char>>,
) -> Result<DetailsView, Seq<char>> {
    match tlv::tlv_opt_at(b, pos, TAG_DETAILS_IS_CA) {
        Err(e) => Err(e),
        Ok((ca, p5)) => match int_at(b, p5, TAG_DETAILS_NOT_BEFORE) {
            Err(e) => Err(e),
            Ok((not_before, p6)) => match int_at(b, p6, TAG_DETAILS_NOT_AFTER) {
                Err(e) => Err(e),
                Ok((not_after, p7)) => match tlv::tlv_opt_at(b, p7, TAG_DETAILS_ISSUER) {
                    Err(e) => Err(e),
                    Ok((issuer, _)) => Ok(
                        DetailsView {
                            name,
                            networks,
                            unsafe_networks,
                            groups,
                            is_ca: ca is Some,
                            not_before,
                            not_after,
                            issuer: match issuer {
                                Some(i) => i,
                                None => Seq::empty(),
                            },
                        },
                    ),
                },
            },
        },
    }
}

/// The details in a whole `TAG_CERT_DETAILS` value.
#[verifier::opaque]
pub open spec fn details_of(raw: Seq<u8>) -> Result<DetailsView, Seq<char>> {
    match tlv::tlv_at(raw, 0, TAG_CERT_DETAILS) {
        Err(e) => Err(e),
        Ok((fields, _)) => fields_of(fields),
    }
}

/// The bytes of details.
pub fn encode_details(d: &Details) -> (r: Vec<u8>)
    ensures
        r@ == details_bytes(d@),
{
    let mut inner: Vec<u8> = Vec::new();
    write_tlv(&mut inner, TAG_DETAILS_NAME, d.name.as_str().as_bytes());
    write_networks(&mut inner, TAG_DETAILS_NETWORKS, &d.networks);
    write_networks(&mut inner, TAG_DETAILS_UNSAFE_NETWORKS, &d.unsafe_networks);
    write_groups(&mut inner, &d.groups);
    write_is_ca(&mut inner, d.is_ca);
    let not_before = encode_der_int(d.not_before);
    write_tlv(&mut inner, TAG_DETAILS_NOT_BEFORE, not_before.as_slice());
    let not_after = encode_der_int(d.not_after);
    write_tlv(&mut inner, TAG_DETAILS_NOT_AFTER, not_after.as_slice());
    write_issuer(&mut inner, &d.issuer);
    proof {
        reveal(fields_bytes);
        let s = d@;
        lemma_concat_eight(
            tlv::tlv(TAG_DETAILS_NAME, utf8::encode_utf8(s.name)),
            tlv::list_bytes(
                TAG_DETAILS_NETWORKS,
                UNIVERSAL_OCTET_STRING,
                network_items(s.networks),
            ),
            tlv::list_bytes(
                TAG_DETAILS_UNSAFE_NETWORKS,
                UNIVERSAL_OCTET_STRING,
                network_items(s.unsafe_networks),
            ),
            tlv::list_bytes(TAG_DETAILS_GROUPS, UNIVERSAL_UTF8_STRING, group_items(s.groups)),
            is_ca_bytes(s.is_ca),
            tlv::tlv(TAG_DETAILS_NOT_BEFORE, int_bytes(s.not_before)),
            tlv::tlv(TAG_DETAILS_NOT_AFTER, int_bytes(s.not_after)),
            issuer_bytes(s.issuer),
        );
    }
    let mut out: Vec<u8> = Vec::new();
    write_tlv(&mut out, TAG_CERT_DETAILS, inner.as_slice());
    assert(out@ =~= details_bytes(d@));
    out
}

proof fn lemma_concat_eight(
    a: Seq<u8>,
    b: Seq<u8>,
    c: Seq<u8>,
    d: Seq<u8>,
    e: Seq<u8>,
    f: Seq<u8>,
    g: Seq<u8>,
    h: Seq<u8>,
)
    ensures
        Seq::<u8>::empty() + a + b + c + d + e + f + g + h == a + (b + (c + (d + (e + (f + (g
            + h)))))),
{
    assert(Seq::<u8>::empty() + a =~= a);
    let gh = g + h;
    let fh = f + gh;
    let eh = e + fh;
    let dh = d + eh;
    let ch = c + dh;
    let bh = b + ch;
    let ab = a + b;
    let ac = ab + c;
    let ad = ac + d;
    let ae = ad + e;
    let af = ae + f;
    assert(af + g + h =~= af + gh);
    assert(ae + f + gh =~= ae + fh);
    assert(ad + e + fh =~= ad + eh);
    assert(ac + d + eh =~= ac + dh);
    assert(ab + c + dh =~= ab + ch);
    assert(a + b + ch =~= a + bh);
}

fn write_is_ca(out: &mut Vec<u8>, is_ca: bool)
    ensures
        final(out)@ == old(out)@ + is_ca_bytes(is_ca),
{
    if is_ca {
        let mark: [u8; 1] = [0xff];
        assert(mark@ =~= seq![0xffu8]);
        write_tlv(out, TAG_DETAILS_IS_CA, mark.as_slice());
    } else {
        assert(out@ =~= old(out)@ + is_ca_bytes(is_ca));
    }
}

fn write_issuer(out: &mut Vec<u8>, issuer: &Vec<u8>)
    ensures
        final(out)@ == old(out)@ + issuer_bytes(issuer@),
{
    if issuer.len() > 0 {
        write_tlv(out, TAG_DETAILS_ISSUER, issuer.as_slice());
    } else {
        assert(out@ =~= old(out)@ + issuer_bytes(issuer@));
    }
}

fn write_networks(out: &mut Vec<u8>, tag: u8, networks: &Vec<Network>)
    ensures
        final(out)@ == old(out)@ + tlv::list_bytes(
            tag,
            UNIVERSAL_OCTET_STRING,
            network_items(networks@),
        ),
{
    proof {
        reveal(tlv::list_bytes);
    }
    if networks.len() == 0 {
        assert(out@ =~= old(out)@ + Seq::<u8>::empty());
        return;
    }
    let mut nets: Vec<u8> = Vec::new();
    let mut i: usize = 0;
    let ghost items = network_items(networks@);
    while i < networks.len()
        invariant
            i <= networks@.len(),
            items == network_items(networks@),
            nets@ == tlv::tlvs(UNIVERSAL_OCTET_STRING, items.take(i as int)),
        decreases networks.len() - i,
    {
        let n = networks[i].encode();
        write_tlv(&mut nets, UNIVERSAL_OCTET_STRING, n.as_slice());
        proof {
            tlv::lemma_tlvs_push(UNIVERSAL_OCTET_STRING, items.take(i as int), items[i as int]);
            assert(items.take(i as int).push(items[i as int]) =~= items.take(i + 1));
        }
        i = i + 1;
    }
    assert(items.take(i as int) =~= items);
    write_tlv(out, tag, nets.as_slice());
}

fn write_groups(out: &mut Vec<u8>, groups: &Vec<String>)
    ensures
        final(out)@ == old(out)@ + tlv::list_bytes(
            TAG_DETAILS_GROUPS,
            UNIVERSAL_UTF8_STRING,
            group_items(texts(groups@)),
        ),
{
    proof {
        reveal(tlv::list_bytes);
    }
    if groups.len() == 0 {
        assert(out@ =~= old(out)@ + Seq::<u8>::empty());
        return;
    }
    let mut inner: Vec<u8> = Vec::new();
    let mut i: usize = 0;
    let ghost items = group_items(texts(groups@));
    while i < groups.len()
        invariant
            i <= groups@.len(),
            items == group_items(texts(groups@)),
            inner@ == tlv::tlvs(UNIVERSAL_UTF8_STRING, items.take(i as int)),
        decreases groups.len() - i,
    {
        write_tlv(&mut inner, UNIVERSAL_UTF8_STRING, groups[i].as_str().as_bytes());
        proof {
            tlv::lemma_tlvs_push(UNIVERSAL_UTF8_STRING, items.take(i as int), items[i as int]);
            assert(items.take(i as int).push(items[i as int]) =~= items.take(i + 1));
        }
        i = i + 1;
    }
    assert(items.take(i as int) =~= items);
    write_tlv(out, TAG_DETAILS_GROUPS, inner.as_slice());
}

/// Details are read back from their bytes.
pub proof fn details_round_trip(d: DetailsView)
    requires
        details_bytes(d).len() <= usize::MAX,
    ensures
        details_of(details_bytes(d)) == Ok::<DetailsView, Seq<char>>(d),
        tlv::tlv_at(details_bytes(d), 0, TAG_CERT_DETAILS) == Ok::<(Seq<u8>, int), Seq<char>>(
            (fields_bytes(d), details_bytes(d).len() as int),
        ),
{
    reveal(details_of);
    tlv::lemma_whole_tlv(TAG_CERT_DETAILS, fields_bytes(d));
    lemma_fields_round_trip(d);
}

proof fn lemma_fields_round_trip(d: DetailsView)
    requires
        fields_bytes(d).len() <= usize::MAX,
    ensures
        fields_of(fields_bytes(d)) == Ok::<DetailsView, Seq<char>>(d),
{
    let r3 = tlv::list_bytes(TAG_DETAILS_GROUPS, UNIVERSAL_UTF8_STRING, group_items(d.groups))
        + tail_bytes(d);
    let r2 = tlv::list_bytes(
        TAG_DETAILS_UNSAFE_NETWORKS,
        UNIVERSAL_OCTET_STRING,
        network_items(d.unsafe_networks),
    ) + r3;
    let r1 = tlv::list_bytes(
        TAG_DETAILS_NETWORKS,
        UNIVERSAL_OCTET_STRING,
        network_items(d.networks),
    ) + r2;
    assert(fields_bytes(d) == tlv::tlv(TAG_DETAILS_NAME, utf8::encode_utf8(d.name)) + r1) by {
        reveal(fields_bytes);
    }
    lemma_first_of_tail(d);
    lemma_first_of_list(
        TAG_DETAILS_GROUPS,
        UNIVERSAL_UTF8_STRING,
        group_items(d.groups),
        tail_bytes(d),
    );
    lemma_first_of_list(
        TAG_DETAILS_UNSAFE_NETWORKS,
        UNIVERSAL_OCTET_STRING,
        network_items(d.unsafe_networks),
        r3,
    );
    lemma_fields_read(fields_bytes(d), d, utf8::encode_utf8(d.name), r1, r2, r3);
}

/// Fields that stand one after the other are read one after the other.
proof fn lemma_fields_read(
    b: Seq<u8>,
    d: DetailsView,
    name: Seq<u8>,
    r1: Seq<u8>,
    r2: Seq<u8>,
    r3: Seq<u8>,
)
    requires
        b.len() <= usize::MAX,
        name == utf8::encode_utf8(d.name),
        b == tlv::tlv(TAG_DETAILS_NAME, name) + r1,
        r1 == tlv::list_bytes(
            TAG_DETAILS_NETWORKS,
            UNIVERSAL_OCTET_STRING,
            network_items(d.networks),
        ) + r2,
        r2 == tlv::list_bytes(
            TAG_DETAILS_UNSAFE_NETWORKS,
            UNIVERSAL_OCTET_STRING,
            network_items(d.unsafe_networks),
        ) + r3,
        r3 == tlv::list_bytes(TAG_DETAILS_GROUPS, UNIVERSAL_UTF8_STRING, group_items(d.groups))
            + tail_bytes(d),
        tlv::first(r2) != Some(TAG_DETAILS_NETWORKS),
        tlv::first(r3) != Some(TAG_DETAILS_UNSAFE_NETWORKS),
        tlv::first(tail_bytes(d)) != Some(TAG_DETAILS_GROUPS),
    ensures
        fields_of(b) == Ok::<DetailsView, Seq<char>>(d),
{
    tlv::lemma_skip_none(b);
    tlv::lemma_tlv_round_trips(b, 0, TAG_DETAILS_NAME, name, r1);
    let p1 = tlv::tlv(TAG_DETAILS_NAME, name).len() as int;
    lemma_networks_at(b, p1, TAG_DETAILS_NETWORKS, d.networks, r2);
    let p2 = p1 + tlv::list_bytes(
        TAG_DETAILS_NETWORKS,
        UNIVERSAL_OCTET_STRING,
        network_items(d.networks),
    ).len();
    lemma_networks_at(b, p2, TAG_DETAILS_UNSAFE_NETWORKS, d.unsafe_networks, r3);
    let p3 = p2 + tlv::list_bytes(
        TAG_DETAILS_UNSAFE_NETWORKS,
        UNIVERSAL_OCTET_STRING,
        network_items(d.unsafe_networks),
    ).len();
    lemma_groups_at(b, p3, d.groups, tail_bytes(d));
    let p4 = p3 + tlv::list_bytes(
        TAG_DETAILS_GROUPS,
        UNIVERSAL_UTF8_STRING,
        group_items(d.groups),
    ).len();
    lemma_tail_round_trips(d, b, p4);
    text_round_trips(d.name, "name is not valid utf-8"@);
    lemma_fields_compose(b, d, name, p1, p2, p3, p4);
}

proof fn lemma_fields_compose(
    b: Seq<u8>,
    d: DetailsView,
    name: Seq<u8>,
    p1: int,
    p2: int,
    p3: int,
    p4: int,
)
    requires
        tlv::tlv_at(b, 0, TAG_DETAILS_NAME) == Ok::<(Seq<u8>, int), Seq<char>>((name, p1)),
        text_of(name, "name is not valid utf-8"@) == Ok::<Seq<char>, Seq<char>>(d.name),
        networks_at(b, p1, TAG_DETAILS_NETWORKS) == Ok::<(Seq<Network>, int), Seq<char>>(
            (d.networks, p2),
        ),
        networks_at(b, p2, TAG_DETAILS_UNSAFE_NETWORKS) == Ok::<(Seq<Network>, int), Seq<char>>(
            (d.unsafe_networks, p3),
        ),
        groups_at(b, p3) == Ok::<(Seq<Seq<char>>, int), Seq<char>>((d.groups, p4)),
        fields_after_groups(b, p4, d.name, d.networks, d.unsafe_networks, d.groups) == Ok::<
            DetailsView,
            Seq<char>,
        >(d),
    ensures
        fields_of(b) == Ok::<DetailsView, Seq<char>>(d),
{
}

/// The fields behind the groups.
spec fn tail_bytes(d: DetailsView) -> Seq<u8> {
    is_ca_bytes(d.is_ca) + (tlv::tlv(TAG_DETAILS_NOT_BEFORE, int_bytes(d.not_before)) + (tlv::tlv(
        TAG_DETAILS_NOT_AFTER,
        int_bytes(d.not_after),
    ) + issuer_bytes(d.issuer)))
}

proof fn lemma_first_of_tail(d: DetailsView)
    ensures
        tlv::first(tail_bytes(d)) == Some(
            if d.is_ca {
                TAG_DETAILS_IS_CA
            } else {
                TAG_DETAILS_NOT_BEFORE
            },
        ),
{
    let rest = tlv::tlv(TAG_DETAILS_NOT_AFTER, int_bytes(d.not_after)) + issuer_bytes(d.issuer);
    lemma_first_of_tlv(TAG_DETAILS_NOT_BEFORE, int_bytes(d.not_before), rest);
    reveal(tlv::tlv);
    lemma_first_of_optional(
        is_ca_bytes(d.is_ca),
        TAG_DETAILS_IS_CA,
        tlv::tlv(TAG_DETAILS_NOT_BEFORE, int_bytes(d.not_before)) + rest,
    );
}

proof fn lemma_first_of_list(tag: u8, item_tag: u8, items: Seq<Seq<u8>>, rest: Seq<u8>)
    ensures
        tlv::first(tlv::list_bytes(tag, item_tag, items) + rest) == (if items.len() == 0 {
            tlv::first(rest)
        } else {
            Some(tag)
        }),
{
    reveal(tlv::tlv);
    reveal(tlv::list_bytes);
    lemma_first_of_optional(tlv::list_bytes(tag, item_tag, items), tag, rest);
}

proof fn lemma_networks_at(b: Seq<u8>, pos: int, tag: u8, ns: Seq<Network>, rest: Seq<u8>)
    requires
        0 <= pos <= b.len() <= usize::MAX,
        b.skip(pos) == tlv::list_bytes(tag, UNIVERSAL_OCTET_STRING, network_items(ns)) + rest,
        tlv::first(rest) != Some(tag),
    ensures
        ({
            let end = pos + tlv::list_bytes(tag, UNIVERSAL_OCTET_STRING, network_items(ns)).len();
            &&& networks_at(b, pos, tag) == Ok::<(Seq<Network>, int), Seq<char>>((ns, end))
            &&& end <= b.len()
            &&& b.skip(end) == rest
        }),
{
    let decode = |b: Seq<u8>| network_of(b);
    assert forall|i: int| 0 <= i < network_items(ns).len() implies #[trigger] decode(
        network_items(ns)[i],
    ) == Ok::<Network, Seq<char>>(ns[i]) by {
        network_round_trips(ns[i]);
    }
    tlv::lemma_list_round_trips(
        b,
        pos,
        tag,
        UNIVERSAL_OCTET_STRING,
        decode,
        network_items(ns),
        ns,
        rest,
    );
}

proof fn lemma_groups_at(b: Seq<u8>, pos: int, gs: Seq<Seq<char>>, rest: Seq<u8>)
    requires
        0 <= pos <= b.len() <= usize::MAX,
        b.skip(pos) == tlv::list_bytes(TAG_DETAILS_GROUPS, UNIVERSAL_UTF8_STRING, group_items(gs))
            + rest,
        tlv::first(rest) != Some(TAG_DETAILS_GROUPS),
    ensures
        ({
            let end = pos + tlv::list_bytes(
                TAG_DETAILS_GROUPS,
                UNIVERSAL_UTF8_STRING,
                group_items(gs),
            ).len();
            &&& groups_at(b, pos) == Ok::<(Seq<Seq<char>>, int), Seq<char>>((gs, end))
            &&& end <= b.len()
            &&& b.skip(end) == rest
        }),
{
    let decode = |b: Seq<u8>| text_of(b, "group is not valid utf-8"@);
    assert forall|i: int| 0 <= i < group_items(gs).len() implies #[trigger] decode(
        group_items(gs)[i],
    ) == Ok::<Seq<char>, Seq<char>>(gs[i]) by {
        text_round_trips(gs[i], "group is not valid utf-8"@);
    }
    tlv::lemma_list_round_trips(
        b,
        pos,
        TAG_DETAILS_GROUPS,
        UNIVERSAL_UTF8_STRING,
        decode,
        group_items(gs),
        gs,
        rest,
    );
}

/// The fields behind the groups are read back.
proof fn lemma_tail_round_trips(d: DetailsView, b: Seq<u8>, pos: int)
    requires
        0 <= pos <= b.len() <= usize::MAX,
        b.skip(pos) == tail_bytes(d),
    ensures
        fields_after_groups(b, pos, d.name, d.networks, d.unsafe_networks, d.groups) == Ok::<
            DetailsView,
            Seq<char>,
        >(d),
{
    let ca = is_ca_bytes(d.is_ca);
    let before = tlv::tlv(TAG_DETAILS_NOT_BEFORE, int_bytes(d.not_before));
    let after = tlv::tlv(TAG_DETAILS_NOT_AFTER, int_bytes(d.not_after));
    let issuer = issuer_bytes(d.issuer);
    let r6 = after + issuer;
    let r5 = before + r6;
    lemma_first_of_tlv(TAG_DETAILS_NOT_BEFORE, int_bytes(d.not_before), r6);
    let mark = if d.is_ca {
        Some(seq![0xffu8])
    } else {
        None
    };
    if !d.is_ca {
        assert(ca + r5 =~= r5);
    }
    tlv::lemma_tlv_opt_round_trips(b, pos, TAG_DETAILS_IS_CA, mark, r5);
    let p5 = pos + ca.len();
    tlv::lemma_tlv_round_trips(b, p5, TAG_DETAILS_NOT_BEFORE, int_bytes(d.not_before), r6);
    int_round_trips(d.not_before);
    let p6 = p5 + before.len();
    tlv::lemma_tlv_round_trips(b, p6, TAG_DETAILS_NOT_AFTER, int_bytes(d.not_after), issuer);
    int_round_trips(d.not_after);
    let p7 = p6 + after.len();
    if d.issuer.len() == 0 {
        tlv::lemma_tlv_opt_round_trips(b, p7, TAG_DETAILS_ISSUER, None, Seq::empty());
        assert(d.issuer =~= Seq::empty());
    } else {
        assert(issuer + Seq::empty() =~= issuer);
        tlv::lemma_tlv_opt_round_trips(b, p7, TAG_DETAILS_ISSUER, Some(d.issuer), Seq::empty());
    }
}

proof fn lemma_first_of_tlv(tag: u8, content: Seq<u8>, rest: Seq<u8>)
    ensures
        tlv::first(tlv::tlv(tag, content) + rest) == Some(tag),
{
    reveal(tlv::tlv);
    assert((tlv::tlv(tag, content) + rest)[0] == tag);
}

/// What starts with an optional value starts with its tag, or with what
/// follows it.
proof fn lemma_first_of_optional(opt: Seq<u8>, tag: u8, rest: Seq<u8>)
    requires
        opt.len() == 0 || opt[0] == tag,
    ensures
        tlv::first(opt + rest) == (if opt.len() == 0 {
            tlv::first(rest)
        } else {
            Some(tag)
        }),
{
    if opt.len() == 0 {
        assert(opt + rest =~= rest);
    } else {
        assert((opt + rest)[0] == opt[0]);
    }
}

fn decode_networks(content: &[u8]) -> (res: Result<Vec<Network>, String>)
    ensures
        match tlv::items_at(content@, 0, UNIVERSAL_OCTET_STRING, |b: Seq<u8>| network_of(b)) {
            Ok(networks) => res matches Ok(v) && v@ == networks,
            Err(msg) => res matches Err(e) && e@ == msg,
        },
{
    let mut networks: Vec<Network> = Vec::new();
    let mut nr = Reader::new(content);
    let ghost decode = |b: Seq<u8>| network_of(b);
    let ghost whole = tlv::items_at(content@, 0, UNIVERSAL_OCTET_STRING, decode);
    proof {
        if let Ok(rest) = whole {
            assert(networks@ + rest =~= rest);
        }
    }
    while !nr.is_empty()
        invariant
            nr.wf(),
            nr.data@ == content@,
            decode == (|b: Seq<u8>| network_of(b)),
            whole == tlv::items_at(content@, 0, UNIVERSAL_OCTET_STRING, decode),
            match tlv::items_at(content@, nr.pos as int, UNIVERSAL_OCTET_STRING, decode) {
                Ok(rest) => whole == Ok::<Seq<Network>, Seq<char>>(networks@ + rest),
                Err(e) => whole == Err::<Seq<Network>, _>(e),
            },
        decreases nr.data@.len() - nr.pos,
    {
        proof {
            tlv::lemma_tlv_ends_later(content@, nr.pos as int, UNIVERSAL_OCTET_STRING);
        }
        let item = match nr.read_tlv(UNIVERSAL_OCTET_STRING) {
            Ok(c) => c,
            Err(e) => {
                return Err(e);
            },
        };
        let ghost before = networks@;
        match Network::decode(item) {
            Ok(n) => {
                networks.push(n);
                proof {
                    if let Ok(rest) = tlv::items_at(
                        content@,
                        nr.pos as int,
                        UNIVERSAL_OCTET_STRING,
                        decode,
                    ) {
                        assert(before + (seq![n] + rest) =~= networks@ + rest);
                    }
                }
            },
            Err(e) => {
                return Err(e);
            },
        }
    }
    assert(networks@ + Seq::<Network>::empty() =~= networks@);
    Ok(networks)
}

fn read_networks(r: &mut Reader<'_>, tag: u8) -> (res: Result<Vec<Network>, String>)
    requires
        old(r).wf(),
    ensures
        final(r).wf(),
        final(r).data == old(r).data,
        match networks_at(old(r).data@, old(r).pos as int, tag) {
            Ok((networks, end)) => res matches Ok(v) && v@ == networks && final(r).pos == end,
            Err(msg) => res matches Err(e) && e@ == msg,
        },
{
    match r.read_tlv_opt(tag) {
        Ok(Some(c)) => decode_networks(c),
        Ok(None) => Ok(Vec::new()),
        Err(e) => Err(e),
    }
}

fn decode_groups(content: &[u8]) -> (res: Result<Vec<String>, String>)
    ensures
        match tlv::items_at(
            content@,
            0,
            UNIVERSAL_UTF8_STRING,
            |b: Seq<u8>| text_of(b, "group is not valid utf-8"@),
        ) {
            Ok(groups) => res matches Ok(v) && texts(v@) == groups,
            Err(msg) => res matches Err(e) && e@ == msg,
        },
{
    let mut groups: Vec<String> = Vec::new();
    let mut gr = Reader::new(content);
    let ghost decode = |b: Seq<u8>| text_of(b, "group is not valid utf-8"@);
    let ghost whole = tlv::items_at(content@, 0, UNIVERSAL_UTF8_STRING, decode);
    proof {
        if let Ok(rest) = whole {
            assert(texts(groups@) + rest =~= rest);
        }
    }
    while !gr.is_empty()
        invariant
            gr.wf(),
            gr.data@ == content@,
            decode == (|b: Seq<u8>| text_of(b, "group is not valid utf-8"@)),
            whole == tlv::items_at(content@, 0, UNIVERSAL_UTF8_STRING, decode),
            match tlv::items_at(content@, gr.pos as int, UNIVERSAL_UTF8_STRING, decode) {
                Ok(rest) => whole == Ok::<Seq<Seq<char>>, Seq<char>>(texts(groups@) + rest),
                Err(e) => whole == Err::<Seq<Seq<char>>, _>(e),
            },
        decreases gr.data@.len() - gr.pos,
    {
        proof {
            tlv::lemma_tlv_ends_later(content@, gr.pos as int, UNIVERSAL_UTF8_STRING);
        }
        let item = match gr.read_tlv(UNIVERSAL_UTF8_STRING) {
            Ok(c) => c,
            Err(e) => {
                return Err(e);
            },
        };
        let ghost before = texts(groups@);
        proof {
            reveal(text_of);
        }
        match string_from_utf8(to_vec(item)) {
            Some(s) => {
                groups.push(s);
                proof {
                    if let Ok(rest) = tlv::items_at(
                        content@,
                        gr.pos as int,
                        UNIVERSAL_UTF8_STRING,
                        decode,
                    ) {
                        assert(before + (seq![s@] + rest) =~= texts(groups@) + rest);
                    }
                }
            },
            None => {
                return Err("group is not valid utf-8".to_string());
            },
        }
    }
    assert(texts(groups@) + Seq::<Seq<char>>::empty() =~= texts(groups@));
    Ok(groups)
}

fn read_groups(r: &mut Reader<'_>) -> (res: Result<Vec<String>, String>)
    requires
        old(r).wf(),
    ensures
        final(r).wf(),
        final(r).data == old(r).data,
        match groups_at(old(r).data@, old(r).pos as int) {
            Ok((groups, end)) => res matches Ok(v) && texts(v@) == groups && final(r).pos == end,
            Err(msg) => res matches Err(e) && e@ == msg,
        },
{
    match r.read_tlv_opt(TAG_DETAILS_GROUPS) {
        Ok(Some(c)) => decode_groups(c),
        Ok(None) => {
            let none: Vec<String> = Vec::new();
            assert(texts(none@) =~= Seq::empty());
            Ok(none)
        },
        Err(e) => Err(e),
    }
}

fn read_int(r: &mut Reader<'_>, tag: u8) -> (res: Result<i64, String>)
    requires
        old(r).wf(),
    ensures
        final(r).wf(),
        final(r).data == old(r).data,
        match int_at(old(r).data@, old(r).pos as int, tag) {
            Ok((v, end)) => res == Ok::<i64, String>(v) && final(r).pos == end,
            Err(msg) => res matches Err(e) && e@ == msg,
        },
{
    match r.read_tlv(tag) {
        Ok(c) => decode_der_int(c),
        Err(e) => Err(e),
    }
}

/// The details in a whole `TAG_CERT_DETAILS` value.
pub fn decode_details(raw_tlv: &[u8]) -> (r: Result<Details, String>)
    ensures
        match details_of(raw_tlv@) {
            Ok(d) => r matches Ok(v) && v@ == d,
            Err(msg) => r matches Err(e) && e@ == msg,
        },
{
    proof {
        reveal(details_of);
    }
    let mut outer = Reader::new(raw_tlv);
    let inner = match outer.read_tlv(TAG_CERT_DETAILS) {
        Ok(c) => c,
        Err(e) => {
            return Err(e);
        },
    };
    let mut r = Reader::new(inner);
    let name_bytes = match r.read_tlv(TAG_DETAILS_NAME) {
        Ok(c) => c,
        Err(e) => {
            return Err(e);
        },
    };
    proof {
        reveal(text_of);
    }
    let name = match string_from_utf8(to_vec(name_bytes)) {
        Some(s) => s,
        None => {
            return Err("name is not valid utf-8".to_string());
        },
    };
    let networks = match read_networks(&mut r, TAG_DETAILS_NETWORKS) {
        Ok(v) => v,
        Err(e) => {
            return Err(e);
        },
    };
    let unsafe_networks = match read_networks(&mut r, TAG_DETAILS_UNSAFE_NETWORKS) {
        Ok(v) => v,
        Err(e) => {
            return Err(e);
        },
    };
    let groups = match read_groups(&mut r) {
        Ok(v) => v,
        Err(e) => {
            return Err(e);
        },
    };
    let is_ca = match r.read_tlv_opt(TAG_DETAILS_IS_CA) {
        Ok(c) => c.is_some(),
        Err(e) => {
            return Err(e);
        },
    };
    let not_before: i64 = match read_int(&mut r, TAG_DETAILS_NOT_BEFORE) {
        Ok(v) => v,
        Err(e) => {
            return Err(e);
        },
    };
    let not_after: i64 = match read_int(&mut r, TAG_DETAILS_NOT_AFTER) {
        Ok(v) => v,
        Err(e) => {
            return Err(e);
        },
    };
    let issuer = match r.read_tlv_opt(TAG_DETAILS_ISSUER) {
        Ok(Some(c)) => to_vec(c),
        Ok(None) => Vec::new(),
        Err(e) => {
            return Err(e);
        },
    };
    Ok(
        Details {
            name,
            networks,
            unsafe_networks,
            groups,
            is_ca,
            not_before,
            not_after,
            issuer,
        },
    )
}

#[derive(Debug, Clone, PartialEq, Eq)]
pub struct Certificate {
    pub details: Details,
    /// The whole `TAG_CERT_DETAILS` value as it was read: it is what the
    /// authority signed.
    pub raw_details: Vec<u8>,
    pub curve: Curve,
    pub public_key: Vec<u8>,
    pub signature: Vec<u8>,
}

/// [`Certificate`] with its lists as sequences.
#[verifier::ext_equal]
pub struct CertificateView {
    pub details: DetailsView,
    pub raw_details: Seq<u8>,
    pub curve: Curve,
    pub public_key: Seq<u8>,
    pub signature: Seq<u8>,
}

impl View for Certificate {
    type V = CertificateView;

    open spec fn view(&self) -> CertificateView {
        CertificateView {
            details: self.details@,
            raw_details: self.raw_details@,
            curve: self.curve,
            public_key: self.public_key@,
            signature: self.signature@,
        }
    }
}

impl CertificateView {
    /// Whether the details are those that the raw details say, and these are
    /// one value and nothing else.
    pub open spec fn is_sound(self) -> bool {
        &&& details_of(self.raw_details) == Ok::<DetailsView, Seq<char>>(self.details)
        &&& tlv::tlv_at(self.raw_details, 0, TAG_CERT_DETAILS) matches Ok((_, end)) && end
            == self.raw_details.len()
    }
}

pub open spec fn curve_bytes(c: Curve) -> Seq<u8> {
    if c == Curve::Curve25519 {
        Seq::empty()
    } else {
        tlv::tlv(TAG_CERT_CURVE, seq![curve_byte(c)])
    }
}

/// What stands in the envelope of a certificate.
pub open spec fn cert_fields_bytes(c: CertificateView) -> Seq<u8> {
    c.raw_details + (curve_bytes(c.curve) + (tlv::tlv(TAG_CERT_PUBLIC_KEY, c.public_key)
        + tlv::tlv(TAG_CERT_SIGNATURE, c.signature)))
}

/// The bytes of a certificate.
pub open spec fn cert_bytes(c: CertificateView) -> Seq<u8> {
    tlv::tlv(UNIVERSAL_SEQUENCE, cert_fields_bytes(c))
}

/// The bytes of a certificate in a handshake: without the curve and the
/// public key, which the handshake conveys itself.
pub open spec fn handshake_bytes(c: CertificateView) -> Seq<u8> {
    tlv::tlv(UNIVERSAL_SEQUENCE, c.raw_details + tlv::tlv(TAG_CERT_SIGNATURE, c.signature))
}

/// What an authority signs: the raw details, the curve and the public key.
pub open spec fn signed_bytes(c: CertificateView) -> Seq<u8> {
    c.raw_details + seq![curve_byte(c.curve)] + c.public_key
}

/// The details at the front of an envelope: read, raw, and where they end.
pub open spec fn raw_details_of(envelope: Seq<u8>) -> Result<
    (DetailsView, Seq<u8>, int),
    Seq<char>,
> {
    match tlv::tlv_at(envelope, 0, TAG_CERT_DETAILS) {
        Err(e) => Err(e),
        Ok((_, end)) => match details_of(envelope.subrange(0, end)) {
            Err(e) => Err(e),
            Ok(details) => Ok((details, envelope.subrange(0, end), end)),
        },
    }
}

/// The curve at `pos`, which is Curve25519 where none is given, and where it
/// ends.
pub open spec fn curve_at(data: Seq<u8>, pos: int) -> Result<(Curve, int), Seq<char>> {
    match tlv::tlv_opt_at(data, pos, TAG_CERT_CURVE) {
        Err(e) => Err(e),
        Ok((None, end)) => Ok((Curve::Curve25519, end)),
        Ok((Some(content), end)) => if content.len() == 1 {
            match curve_of(content[0]) {
                Err(e) => Err(e),
                Ok(c) => Ok((c, end)),
            }
        } else {
            Err("invalid curve encoding"@)
        },
    }
}

/// The certificate that stands in an envelope.
pub open spec fn cert_fields_of(envelope: Seq<u8>) -> Result<CertificateView, Seq<char>> {
    match raw_details_of(envelope) {
        Err(e) => Err(e),
        Ok((details, raw_details, p1)) => match curve_at(envelope, p1) {
            Err(e) => Err(e),
            Ok((curve, p2)) => match tlv::tlv_at(envelope, p2, TAG_CERT_PUBLIC_KEY) {
                Err(e) => Err(e),
                Ok((public_key, p3)) => match tlv::tlv_at(envelope, p3, TAG_CERT_SIGNATURE) {
                    Err(e) => Err(e),
                    Ok((signature, _)) => Ok(
                        CertificateView { details, raw_details, curve, public_key, signature },
                    ),
                },
            },
        },
    }
}

/// The certificate that bytes start with.
pub open spec fn cert_of(b: Seq<u8>) -> Result<CertificateView, Seq<char>> {
    match tlv::tlv_at(b, 0, UNIVERSAL_SEQUENCE) {
        Err(e) => Err(e),
        Ok((envelope, _)) => cert_fields_of(envelope),
    }
}

/// The certificate that bytes from a handshake stand for, with the curve and
/// the public key that the handshake conveyed.
pub open spec fn recombined(b: Seq<u8>, public_key: Seq<u8>, curve: Curve) -> Result<
    CertificateView,
    Seq<char>,
> {
    match tlv::tlv_at(b, 0, UNIVERSAL_SEQUENCE) {
        Err(e) => Err(e),
        Ok((envelope, _)) => match raw_details_of(envelope) {
            Err(e) => Err(e),
            Ok((details, raw_details, p1)) => match tlv::tlv_at(envelope, p1, TAG_CERT_SIGNATURE) {
                Err(e) => Err(e),
                Ok((signature, _)) => Ok(
                    CertificateView { details, raw_details, curve, public_key, signature },
                ),
            },
        },
    }
}

/// A value that is followed by something is read as it is on its own.
proof fn lemma_tlv_at_front(front: Seq<u8>, rest: Seq<u8>, tag: u8)
    requires
        tlv::tlv_at(front, 0, tag) matches Ok((_, end)) && end == front.len(),
        front.len() + rest.len() <= usize::MAX,
    ensures
        tlv::tlv_at(front + rest, 0, tag) matches Ok((_, end)) && end == front.len(),
        (front + rest).subrange(0, front.len() as int) == front,
        (front + rest).skip(front.len() as int) == rest,
{
    let all = front + rest;
    tlv::lemma_length_ends_later(front, 1);
    assert(all[0] == front[0]);
    assert(all[1] == front[1]);
    if front[1] >= 0x80 {
        let n = front[1] - 0x80;
        assert(all.subrange(2, 2 + n) =~= front.subrange(2, 2 + n));
    }
    assert(all.subrange(0, front.len() as int) =~= front);
    assert(all.skip(front.len() as int) =~= rest);
}

proof fn lemma_curve_at(b: Seq<u8>, pos: int, c: Curve, rest: Seq<u8>)
    requires
        0 <= pos <= b.len() <= usize::MAX,
        b.skip(pos) == curve_bytes(c) + rest,
        tlv::first(rest) != Some(TAG_CERT_CURVE),
    ensures
        ({
            let end = pos + curve_bytes(c).len();
            &&& curve_at(b, pos) == Ok::<(Curve, int), Seq<char>>((c, end))
            &&& end <= b.len()
            &&& b.skip(end) == rest
        }),
{
    if c == Curve::Curve25519 {
        assert(curve_bytes(c) + rest =~= rest);
        tlv::lemma_tlv_opt_round_trips(b, pos, TAG_CERT_CURVE, None, rest);
    } else {
        tlv::lemma_tlv_opt_round_trips(b, pos, TAG_CERT_CURVE, Some(seq![curve_byte(c)]), rest);
    }
}

/// The details at the front of an envelope are read as they are on their own.
proof fn lemma_details_at_front(c: CertificateView, rest: Seq<u8>)
    requires
        c.is_sound(),
        c.raw_details.len() + rest.len() <= usize::MAX,
    ensures
        raw_details_of(c.raw_details + rest) == Ok::<(DetailsView, Seq<u8>, int), Seq<char>>(
            (c.details, c.raw_details, c.raw_details.len() as int),
        ),
        (c.raw_details + rest).skip(c.raw_details.len() as int) == rest,
{
    lemma_tlv_at_front(c.raw_details, rest, TAG_CERT_DETAILS);
}

/// A certificate is what its fields are, once each of them is read.
proof fn lemma_cert_of_fields(c: CertificateView, b: Seq<u8>, p1: int, p2: int, p3: int, p4: int)
    requires
        raw_details_of(b) == Ok::<(DetailsView, Seq<u8>, int), Seq<char>>(
            (c.details, c.raw_details, p1),
        ),
        curve_at(b, p1) == Ok::<(Curve, int), Seq<char>>((c.curve, p2)),
        tlv::tlv_at(b, p2, TAG_CERT_PUBLIC_KEY) == Ok::<(Seq<u8>, int), Seq<char>>(
            (c.public_key, p3),
        ),
        tlv::tlv_at(b, p3, TAG_CERT_SIGNATURE) == Ok::<(Seq<u8>, int), Seq<char>>(
            (c.signature, p4),
        ),
    ensures
        cert_fields_of(b) == Ok::<CertificateView, Seq<char>>(c),
{
}

/// What stands in the envelope of a certificate is read back, field by field.
proof fn lemma_cert_fields(c: CertificateView, b: Seq<u8>, r1: Seq<u8>, r2: Seq<u8>, r3: Seq<u8>)
    requires
        c.is_sound(),
        b.len() <= usize::MAX,
        b == c.raw_details + r1,
        r1 == curve_bytes(c.curve) + r2,
        r2 == tlv::tlv(TAG_CERT_PUBLIC_KEY, c.public_key) + r3,
        r3 == tlv::tlv(TAG_CERT_SIGNATURE, c.signature) + Seq::<u8>::empty(),
    ensures
        cert_fields_of(b) == Ok::<CertificateView, Seq<char>>(c),
{
    let p1 = c.raw_details.len() as int;
    let p2 = p1 + curve_bytes(c.curve).len();
    let p3 = p2 + tlv::tlv(TAG_CERT_PUBLIC_KEY, c.public_key).len();
    let p4 = p3 + tlv::tlv(TAG_CERT_SIGNATURE, c.signature).len();
    lemma_details_at_front(c, r1);
    assert(curve_at(b, p1) == Ok::<(Curve, int), Seq<char>>((c.curve, p2)) && p2 <= b.len()
        && b.skip(p2) == r2) by {
        lemma_first_of_tlv(TAG_CERT_PUBLIC_KEY, c.public_key, r3);
        lemma_curve_at(b, p1, c.curve, r2);
    }
    assert(tlv::tlv_at(b, p2, TAG_CERT_PUBLIC_KEY) == Ok::<(Seq<u8>, int), Seq<char>>(
        (c.public_key, p3),
    ) && p3 <= b.len() && b.skip(p3) == r3) by {
        tlv::lemma_tlv_round_trips(b, p2, TAG_CERT_PUBLIC_KEY, c.public_key, r3);
    }
    assert(tlv::tlv_at(b, p3, TAG_CERT_SIGNATURE) == Ok::<(Seq<u8>, int), Seq<char>>(
        (c.signature, p4),
    )) by {
        tlv::lemma_tlv_round_trips(b, p3, TAG_CERT_SIGNATURE, c.signature, Seq::empty());
    }
    lemma_cert_of_fields(c, b, p1, p2, p3, p4);
}

/// A certificate is read back from its bytes.
pub proof fn certificate_round_trips(c: CertificateView)
    requires
        c.is_sound(),
        cert_bytes(c).len() <= usize::MAX,
    ensures
        cert_of(cert_bytes(c)) == Ok::<CertificateView, Seq<char>>(c),
{
    let b = cert_fields_bytes(c);
    let r3 = tlv::tlv(TAG_CERT_SIGNATURE, c.signature);
    let r2 = tlv::tlv(TAG_CERT_PUBLIC_KEY, c.public_key) + r3;
    tlv::lemma_whole_tlv(UNIVERSAL_SEQUENCE, b);
    assert(r3 =~= r3 + Seq::<u8>::empty());
    lemma_cert_fields(c, b, curve_bytes(c.curve) + r2, r2, r3);
}

/// A certificate is read back from what stands for it in a handshake, given
/// its own public key and curve.
pub proof fn handshake_certificate_round_trips(c: CertificateView)
    requires
        c.is_sound(),
        handshake_bytes(c).len() <= usize::MAX,
    ensures
        recombined(handshake_bytes(c), c.public_key, c.curve) == Ok::<CertificateView, Seq<char>>(
            c,
        ),
{
    let signature = tlv::tlv(TAG_CERT_SIGNATURE, c.signature);
    let b = c.raw_details + signature;
    tlv::lemma_whole_tlv(UNIVERSAL_SEQUENCE, b);
    lemma_details_at_front(c, signature);
    assert(signature + Seq::<u8>::empty() =~= signature);
    tlv::lemma_tlv_round_trips(
        b,
        c.raw_details.len() as int,
        TAG_CERT_SIGNATURE,
        c.signature,
        Seq::empty(),
    );
}

/// A certificate cut short anywhere is refused.
pub proof fn cut_certificate_is_refused(c: CertificateView, n: int)
    requires
        cert_bytes(c).len() <= usize::MAX,
        0 <= n < cert_bytes(c).len(),
    ensures
        cert_of(cert_bytes(c).take(n)) is Err,
{
    tlv::lemma_cut_tlv_is_refused(UNIVERSAL_SEQUENCE, cert_fields_bytes(c), n);
}

/// A certificate with details written by [`encode_details`] is sound.
pub proof fn written_details_are_sound(c: CertificateView)
    requires
        c.raw_details == details_bytes(c.details),
        c.raw_details.len() <= usize::MAX,
    ensures
        c.is_sound(),
{
    details_round_trip(c.details);
}

/// A value is a whole value on its own.
proof fn lemma_raw_is_whole(data: Seq<u8>, end: int, tag: u8)
    requires
        tlv::tlv_at(data, 0, tag) matches Ok((_, e)) && e == end,
    ensures
        tlv::tlv_at(data.subrange(0, end), 0, tag) matches Ok((_, e)) && e == end,
{
    let front = data.subrange(0, end);
    tlv::lemma_tlv_ends_later(data, 0, tag);
    tlv::lemma_length_ends_later(data, 1);
    assert(front[0] == data[0]);
    assert(front[1] == data[1]);
    if front[1] >= 0x80 {
        let n = front[1] - 0x80;
        assert(front.subrange(2, 2 + n) =~= data.subrange(2, 2 + n));
    }
}

/// Reads the details at the front of an envelope.
fn read_details(r: &mut Reader<'_>) -> (res: Result<(Details, Vec<u8>), String>)
    requires
        old(r).wf(),
        old(r).pos == 0,
    ensures
        final(r).wf(),
        final(r).data == old(r).data,
        match raw_details_of(old(r).data@) {
            Ok((details, raw, end)) => res matches Ok(v) && v.0@ == details && v.1@ == raw
                && final(r).pos == end,
            Err(msg) => res matches Err(e) && e@ == msg,
        },
        res matches Ok(v) ==> (tlv::tlv_at(v.1@, 0, TAG_CERT_DETAILS) matches Ok((_, end)) && end
            == v.1@.len()),
{
    let raw = match r.read_tlv_raw(TAG_CERT_DETAILS) {
        Ok(c) => to_vec(c),
        Err(e) => {
            return Err(e);
        },
    };
    proof {
        tlv::lemma_tlv_ends_later(r.data@, 0, TAG_CERT_DETAILS);
        lemma_raw_is_whole(r.data@, r.pos as int, TAG_CERT_DETAILS);
    }
    match decode_details(raw.as_slice()) {
        Ok(d) => Ok((d, raw)),
        Err(e) => Err(e),
    }
}

fn read_curve(r: &mut Reader<'_>) -> (res: Result<Curve, String>)
    requires
        old(r).wf(),
    ensures
        final(r).wf(),
        final(r).data == old(r).data,
        match curve_at(old(r).data@, old(r).pos as int) {
            Ok((c, end)) => res == Ok::<Curve, String>(c) && final(r).pos == end,
            Err(msg) => res matches Err(e) && e@ == msg,
        },
{
    match r.read_tlv_opt(TAG_CERT_CURVE) {
        Ok(Some(c)) => {
            if c.len() == 1 {
                Curve::from_byte(c[0])
            } else {
                Err("invalid curve encoding".to_string())
            }
        },
        Ok(None) => Ok(Curve::Curve25519),
        Err(e) => Err(e),
    }
}

impl Certificate {
    pub fn decode(der_bytes: &[u8]) -> (r: Result<Self, Error>)
        ensures
            match cert_of(der_bytes@) {
                Ok(c) => r matches Ok(v) && v@ == c && c.is_sound(),
                Err(msg) => r matches Err(Error::Der(e)) && e@ == msg,
            },
    {
        let mut top = Reader::new(der_bytes);
        let envelope = match top.read_tlv(UNIVERSAL_SEQUENCE) {
            Ok(c) => c,
            Err(e) => {
                return Err(Error::Der(e));
            },
        };
        let mut r = Reader::new(envelope);
        let (details, raw_details) = match read_details(&mut r) {
            Ok(d) => d,
            Err(e) => {
                return Err(Error::Der(e));
            },
        };
        let curve = match read_curve(&mut r) {
            Ok(c) => c,
            Err(e) => {
                return Err(Error::Der(e));
            },
        };
        let public_key = match r.read_tlv(TAG_CERT_PUBLIC_KEY) {
            Ok(c) => to_vec(c),
            Err(e) => {
                return Err(Error::Der(e));
            },
        };
        let signature = match r.read_tlv(TAG_CERT_SIGNATURE) {
            Ok(c) => to_vec(c),
            Err(e) => {
                return Err(Error::Der(e));
            },
        };
        Ok(Certificate { details, raw_details, curve, public_key, signature })
    }

    pub fn encode(&self) -> (r: Vec<u8>)
        ensures
            r@ == cert_bytes(self@),
    {
        let mut inner: Vec<u8> = Vec::new();
        push_all(&mut inner, self.raw_details.as_slice());
        if self.curve != Curve::Curve25519 {
            let curve: [u8; 1] = [self.curve.to_byte()];
            assert(curve@ =~= seq![curve_byte(self.curve)]);
            write_tlv(&mut inner, TAG_CERT_CURVE, curve.as_slice());
        }
        assert(inner@ =~= self.raw_details@ + curve_bytes(self.curve));
        write_tlv(&mut inner, TAG_CERT_PUBLIC_KEY, self.public_key.as_slice());
        write_tlv(&mut inner, TAG_CERT_SIGNATURE, self.signature.as_slice());
        assert(inner@ =~= cert_fields_bytes(self@));
        let mut out: Vec<u8> = Vec::new();
        write_tlv(&mut out, UNIVERSAL_SEQUENCE, inner.as_slice());
        assert(out@ =~= cert_bytes(self@));
        out
    }

    /// What the authority's signature covers.
    pub fn signing_bytes(&self) -> (r: Vec<u8>)
        ensures
            r@ == signed_bytes(self@),
    {
        let mut b: Vec<u8> = Vec::new();
        push_all(&mut b, self.raw_details.as_slice());
        b.push(self.curve.to_byte());
        push_all(&mut b, self.public_key.as_slice());
        assert(b@ =~= signed_bytes(self@));
        b
    }

    /// The bytes that stand for the certificate in a handshake.
    pub fn encode_for_handshake(&self) -> (r: Vec<u8>)
        ensures
            r@ == handshake_bytes(self@),
    {
        let mut inner: Vec<u8> = Vec::new();
        push_all(&mut inner, self.raw_details.as_slice());
        write_tlv(&mut inner, TAG_CERT_SIGNATURE, self.signature.as_slice());
        assert(inner@ =~= self.raw_details@ + tlv::tlv(TAG_CERT_SIGNATURE, self.signature@));
        let mut out: Vec<u8> = Vec::new();
        write_tlv(&mut out, UNIVERSAL_SEQUENCE, inner.as_slice());
        assert(out@ =~= handshake_bytes(self@));
        out
    }

    /// The certificate that stands in a handshake, with the peer's public key
    /// that the handshake conveyed.
    pub fn recombine(handshake_bytes: &[u8], peer_public_key: &[u8], curve: Curve) -> (r: Result<
        Self,
        Error,
    >)
        ensures
            match recombined(handshake_bytes@, peer_public_key@, curve) {
                Ok(c) => r matches Ok(v) && v@ == c && c.is_sound(),
                Err(msg) => r matches Err(Error::Der(e)) && e@ == msg,
            },
    {
        let mut top = Reader::new(handshake_bytes);
        let envelope = match top.read_tlv(UNIVERSAL_SEQUENCE) {
            Ok(c) => c,
            Err(e) => {
                return Err(Error::Der(e));
            },
        };
        let mut r = Reader::new(envelope);
        let (details, raw_details) = match read_details(&mut r) {
            Ok(d) => d,
            Err(e) => {
                return Err(Error::Der(e));
            },
        };
        let signature = match r.read_tlv(TAG_CERT_SIGNATURE) {
            Ok(c) => to_vec(c),
            Err(e) => {
                return Err(Error::Der(e));
            },
        };
        Ok(
            Certificate {
                details,
                raw_details,
                curve,
                public_key: to_vec(peer_public_key),
                signature,
            },
        )
    }
}

} // verus!
