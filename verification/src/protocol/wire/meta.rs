//! What hosts and lighthouses tell each other.

use vstd::prelude::*;

use super::field;
use super::field::{
    put_bytes, put_i32, put_u32_opt, put_u64_opt, skip_value, take_bytes, take_i32, take_key,
    take_u32, take_u64, Field, FieldValue,
};

verus! {

/// An IPv6 address, or an IPv4 one mapped into IPv6, as two halves.
#[derive(Debug, Clone, Copy, PartialEq, Eq, Structural)]
pub struct Addr {
    pub hi: u64,
    pub lo: u64,
}

#[derive(Debug, Clone, Copy, PartialEq, Eq, Structural)]
pub struct V4AddrPort {
    pub addr: u32,
    pub port: u32,
}

#[derive(Debug, Clone, Copy, PartialEq, Eq, Structural)]
pub struct V6AddrPort {
    pub hi: u64,
    pub lo: u64,
    pub port: u32,
}

#[derive(Debug, Clone, PartialEq, Eq)]
pub struct NebulaMetaDetails {
    pub vpn_addr: Option<Addr>,
    pub v4_addr_ports: Vec<V4AddrPort>,
    pub v6_addr_ports: Vec<V6AddrPort>,
}

#[derive(Debug, Clone, PartialEq, Eq)]
pub struct NebulaMeta {
    pub type_: i32,
    pub details: Option<NebulaMetaDetails>,
}

/// [`NebulaMetaDetails`] with its lists as sequences.
#[verifier::ext_equal]
pub struct MetaDetailsView {
    pub vpn_addr: Option<Addr>,
    pub v4_addr_ports: Seq<V4AddrPort>,
    pub v6_addr_ports: Seq<V6AddrPort>,
}

/// [`NebulaMeta`] with its lists as sequences.
#[verifier::ext_equal]
pub struct MetaView {
    pub type_: i32,
    pub details: Option<MetaDetailsView>,
}

impl View for NebulaMetaDetails {
    type V = MetaDetailsView;

    open spec fn view(&self) -> MetaDetailsView {
        MetaDetailsView {
            vpn_addr: self.vpn_addr,
            v4_addr_ports: self.v4_addr_ports@,
            v6_addr_ports: self.v6_addr_ports@,
        }
    }
}

impl View for NebulaMeta {
    type V = MetaView;

    open spec fn view(&self) -> MetaView {
        MetaView {
            type_: self.type_,
            details: match self.details {
                Some(d) => Some(d@),
                None => None,
            },
        }
    }
}

pub open spec fn no_addr() -> Addr {
    Addr { hi: 0, lo: 0 }
}

pub open spec fn no_v4() -> V4AddrPort {
    V4AddrPort { addr: 0, port: 0 }
}

pub open spec fn no_v6() -> V6AddrPort {
    V6AddrPort { hi: 0, lo: 0, port: 0 }
}

pub open spec fn no_meta_details() -> MetaDetailsView {
    MetaDetailsView {
        vpn_addr: None,
        v4_addr_ports: Seq::empty(),
        v6_addr_ports: Seq::empty(),
    }
}

pub open spec fn no_meta() -> MetaView {
    MetaView { type_: 0, details: None }
}

pub open spec fn addr_bytes(a: Addr) -> Seq<u8> {
    field::number_field_opt(1, a.hi as nat) + field::number_field_opt(2, a.lo as nat)
}

pub open spec fn v4_bytes(a: V4AddrPort) -> Seq<u8> {
    field::number_field_opt(1, a.addr as nat) + field::number_field_opt(2, a.port as nat)
}

pub open spec fn v6_bytes(a: V6AddrPort) -> Seq<u8> {
    field::number_field_opt(1, a.hi as nat) + (field::number_field_opt(2, a.lo as nat)
        + field::number_field_opt(3, a.port as nat))
}

pub open spec fn v4_list_bytes(s: Seq<V4AddrPort>) -> Seq<u8>
    decreases s.len(),
{
    if s.len() == 0 {
        Seq::empty()
    } else {
        field::bytes_field(2, v4_bytes(s[0])) + v4_list_bytes(s.drop_first())
    }
}

pub open spec fn v6_list_bytes(s: Seq<V6AddrPort>) -> Seq<u8>
    decreases s.len(),
{
    if s.len() == 0 {
        Seq::empty()
    } else {
        field::bytes_field(4, v6_bytes(s[0])) + v6_list_bytes(s.drop_first())
    }
}

pub open spec fn vpn_addr_bytes(a: Option<Addr>) -> Seq<u8> {
    match a {
        Some(a) => field::bytes_field(6, addr_bytes(a)),
        None => Seq::empty(),
    }
}

pub open spec fn meta_details_bytes(d: MetaDetailsView) -> Seq<u8> {
    v4_list_bytes(d.v4_addr_ports) + (v6_list_bytes(d.v6_addr_ports) + vpn_addr_bytes(d.vpn_addr))
}

/// The bytes of a message.
pub open spec fn meta_bytes(m: MetaView) -> Seq<u8> {
    field::number_field_opt(1, field::sign_extended(m.type_)) + (match m.details {
        Some(d) => field::bytes_field(2, meta_details_bytes(d)),
        None => Seq::empty(),
    })
}

pub open spec fn addr_step(a: Addr, f: Field) -> Option<Addr> {
    if f.tag == 1 {
        match f.value {
            FieldValue::Number(v) => Some(Addr { hi: v as u64, ..a }),
            _ => None,
        }
    } else if f.tag == 2 {
        match f.value {
            FieldValue::Number(v) => Some(Addr { lo: v as u64, ..a }),
            _ => None,
        }
    } else {
        Some(a)
    }
}

pub open spec fn v4_step(a: V4AddrPort, f: Field) -> Option<V4AddrPort> {
    if f.tag == 1 {
        match f.value {
            FieldValue::Number(v) => Some(V4AddrPort { addr: field::low_u32(v), ..a }),
            _ => None,
        }
    } else if f.tag == 2 {
        match f.value {
            FieldValue::Number(v) => Some(V4AddrPort { port: field::low_u32(v), ..a }),
            _ => None,
        }
    } else {
        Some(a)
    }
}

pub open spec fn v6_step(a: V6AddrPort, f: Field) -> Option<V6AddrPort> {
    if f.tag == 1 {
        match f.value {
            FieldValue::Number(v) => Some(V6AddrPort { hi: v as u64, ..a }),
            _ => None,
        }
    } else if f.tag == 2 {
        match f.value {
            FieldValue::Number(v) => Some(V6AddrPort { lo: v as u64, ..a }),
            _ => None,
        }
    } else if f.tag == 3 {
        match f.value {
            FieldValue::Number(v) => Some(V6AddrPort { port: field::low_u32(v), ..a }),
            _ => None,
        }
    } else {
        Some(a)
    }
}

pub open spec fn addr_merged(b: Seq<u8>, a: Addr) -> Option<Addr> {
    field::merged(field::ENTRY_DEPTH, b, a, |a: Addr, f: Field| addr_step(a, f))
}

pub open spec fn v4_merged(b: Seq<u8>, a: V4AddrPort) -> Option<V4AddrPort> {
    field::merged(field::ENTRY_DEPTH, b, a, |a: V4AddrPort, f: Field| v4_step(a, f))
}

pub open spec fn v6_merged(b: Seq<u8>, a: V6AddrPort) -> Option<V6AddrPort> {
    field::merged(field::ENTRY_DEPTH, b, a, |a: V6AddrPort, f: Field| v6_step(a, f))
}

pub open spec fn meta_details_step(d: MetaDetailsView, f: Field) -> Option<MetaDetailsView> {
    if f.tag == 2 {
        match f.value {
            FieldValue::Bytes(b) => match v4_merged(b, no_v4()) {
                Some(a) => Some(
                    MetaDetailsView { v4_addr_ports: d.v4_addr_ports.push(a), ..d },
                ),
                None => None,
            },
            _ => None,
        }
    } else if f.tag == 4 {
        match f.value {
            FieldValue::Bytes(b) => match v6_merged(b, no_v6()) {
                Some(a) => Some(
                    MetaDetailsView { v6_addr_ports: d.v6_addr_ports.push(a), ..d },
                ),
                None => None,
            },
            _ => None,
        }
    } else if f.tag == 6 {
        match f.value {
            FieldValue::Bytes(b) => match addr_merged(
                b,
                match d.vpn_addr {
                    Some(a) => a,
                    None => no_addr(),
                },
            ) {
                Some(a) => Some(MetaDetailsView { vpn_addr: Some(a), ..d }),
                None => None,
            },
            _ => None,
        }
    } else {
        Some(d)
    }
}

pub open spec fn meta_details_merged(b: Seq<u8>, d: MetaDetailsView) -> Option<MetaDetailsView> {
    field::merged(field::DETAILS_DEPTH, b, d, |d: MetaDetailsView, f: Field| meta_details_step(d, f))
}

pub open spec fn meta_step(m: MetaView, f: Field) -> Option<MetaView> {
    if f.tag == 1 {
        match f.value {
            FieldValue::Number(v) => Some(MetaView { type_: field::low_i32(v), ..m }),
            _ => None,
        }
    } else if f.tag == 2 {
        match f.value {
            FieldValue::Bytes(b) => match meta_details_merged(
                b,
                match m.details {
                    Some(d) => d,
                    None => no_meta_details(),
                },
            ) {
                Some(d) => Some(MetaView { details: Some(d), ..m }),
                None => None,
            },
            _ => None,
        }
    } else {
        Some(m)
    }
}

pub open spec fn meta_merged(b: Seq<u8>, m: MetaView) -> Option<MetaView> {
    field::merged(field::MESSAGE_DEPTH, b, m, |m: MetaView, f: Field| meta_step(m, f))
}

/// The message that bytes are, if they are one.
pub open spec fn meta_of(b: Seq<u8>) -> Option<MetaView> {
    meta_merged(b, no_meta())
}

proof fn lemma_addr_round_trips(a: Addr)
    ensures
        addr_merged(addr_bytes(a), no_addr()) == Some(a),
{
    let step = |a: Addr, f: Field| addr_step(a, f);
    let m1 = Addr { hi: a.hi, ..no_addr() };
    let r1 = field::number_field_opt(2, a.lo as nat);
    field::lemma_merge_number_opt(field::ENTRY_DEPTH, 1, a.hi as nat, r1, no_addr(), step, m1);
    assert(r1 + Seq::<u8>::empty() =~= r1);
    field::lemma_merge_number_opt(field::ENTRY_DEPTH, 2, a.lo as nat, Seq::empty(), m1, step, a);
}

proof fn lemma_v4_round_trips(a: V4AddrPort)
    ensures
        v4_merged(v4_bytes(a), no_v4()) == Some(a),
{
    let step = |a: V4AddrPort, f: Field| v4_step(a, f);
    let m1 = V4AddrPort { addr: a.addr, ..no_v4() };
    let r1 = field::number_field_opt(2, a.port as nat);
    field::lemma_merge_number_opt(field::ENTRY_DEPTH, 1, a.addr as nat, r1, no_v4(), step, m1);
    assert(r1 + Seq::<u8>::empty() =~= r1);
    field::lemma_merge_number_opt(field::ENTRY_DEPTH, 2, a.port as nat, Seq::empty(), m1, step, a);
}

proof fn lemma_v6_round_trips(a: V6AddrPort)
    ensures
        v6_merged(v6_bytes(a), no_v6()) == Some(a),
{
    let step = |a: V6AddrPort, f: Field| v6_step(a, f);
    let m1 = V6AddrPort { hi: a.hi, ..no_v6() };
    let m2 = V6AddrPort { lo: a.lo, ..m1 };
    let r2 = field::number_field_opt(3, a.port as nat);
    let r1 = field::number_field_opt(2, a.lo as nat) + r2;
    field::lemma_merge_number_opt(field::ENTRY_DEPTH, 1, a.hi as nat, r1, no_v6(), step, m1);
    field::lemma_merge_number_opt(field::ENTRY_DEPTH, 2, a.lo as nat, r2, m1, step, m2);
    assert(r2 + Seq::<u8>::empty() =~= r2);
    field::lemma_merge_number_opt(field::ENTRY_DEPTH, 3, a.port as nat, Seq::empty(), m2, step, a);
}

proof fn lemma_v4_list_merges(s: Seq<V4AddrPort>, rest: Seq<u8>, d: MetaDetailsView)
    requires
        v4_list_bytes(s).len() <= u64::MAX,
    ensures
        meta_details_merged(v4_list_bytes(s) + rest, d) == meta_details_merged(
            rest,
            MetaDetailsView { v4_addr_ports: d.v4_addr_ports + s, ..d },
        ),
    decreases s.len(),
{
    let step = |d: MetaDetailsView, f: Field| meta_details_step(d, f);
    if s.len() == 0 {
        assert(v4_list_bytes(s) + rest =~= rest);
        assert(d.v4_addr_ports + s =~= d.v4_addr_ports);
    } else {
        let tail = v4_list_bytes(s.drop_first());
        let head = field::bytes_field(2, v4_bytes(s[0]));
        let next = MetaDetailsView { v4_addr_ports: d.v4_addr_ports.push(s[0]), ..d };
        assert(v4_list_bytes(s) + rest =~= head + (tail + rest));
        lemma_v4_round_trips(s[0]);
        field::lemma_merge_bytes(field::DETAILS_DEPTH, 2, v4_bytes(s[0]), tail + rest, d, step, next);
        lemma_v4_list_merges(s.drop_first(), rest, next);
        assert(next.v4_addr_ports + s.drop_first() =~= d.v4_addr_ports + s);
    }
}

proof fn lemma_v6_list_merges(s: Seq<V6AddrPort>, rest: Seq<u8>, d: MetaDetailsView)
    requires
        v6_list_bytes(s).len() <= u64::MAX,
    ensures
        meta_details_merged(v6_list_bytes(s) + rest, d) == meta_details_merged(
            rest,
            MetaDetailsView { v6_addr_ports: d.v6_addr_ports + s, ..d },
        ),
    decreases s.len(),
{
    let step = |d: MetaDetailsView, f: Field| meta_details_step(d, f);
    if s.len() == 0 {
        assert(v6_list_bytes(s) + rest =~= rest);
        assert(d.v6_addr_ports + s =~= d.v6_addr_ports);
    } else {
        let tail = v6_list_bytes(s.drop_first());
        let head = field::bytes_field(4, v6_bytes(s[0]));
        let next = MetaDetailsView { v6_addr_ports: d.v6_addr_ports.push(s[0]), ..d };
        assert(v6_list_bytes(s) + rest =~= head + (tail + rest));
        lemma_v6_round_trips(s[0]);
        field::lemma_merge_bytes(field::DETAILS_DEPTH, 4, v6_bytes(s[0]), tail + rest, d, step, next);
        lemma_v6_list_merges(s.drop_first(), rest, next);
        assert(next.v6_addr_ports + s.drop_first() =~= d.v6_addr_ports + s);
    }
}

proof fn lemma_meta_details_round_trip(d: MetaDetailsView)
    requires
        meta_details_bytes(d).len() <= u64::MAX,
    ensures
        meta_details_merged(meta_details_bytes(d), no_meta_details()) == Some(d),
{
    let step = |d: MetaDetailsView, f: Field| meta_details_step(d, f);
    let m0 = no_meta_details();
    let m1 = MetaDetailsView { v4_addr_ports: m0.v4_addr_ports + d.v4_addr_ports, ..m0 };
    let m2 = MetaDetailsView { v6_addr_ports: m1.v6_addr_ports + d.v6_addr_ports, ..m1 };
    let r2 = vpn_addr_bytes(d.vpn_addr);
    let r1 = v6_list_bytes(d.v6_addr_ports) + r2;
    lemma_v4_list_merges(d.v4_addr_ports, r1, m0);
    lemma_v6_list_merges(d.v6_addr_ports, r2, m1);
    assert(m0.v4_addr_ports + d.v4_addr_ports =~= d.v4_addr_ports);
    assert(m1.v6_addr_ports + d.v6_addr_ports =~= d.v6_addr_ports);
    match d.vpn_addr {
        Some(a) => {
            lemma_addr_round_trips(a);
            assert(r2 + Seq::<u8>::empty() =~= r2);
            field::lemma_merge_bytes(field::DETAILS_DEPTH, 6, addr_bytes(a), Seq::empty(), m2, step, d);
        },
        None => {},
    }
}

proof fn lemma_type_round_trips(v: i32)
    ensures
        field::low_i32(field::sign_extended(v)) == v,
        field::sign_extended(v) <= u64::MAX,
        (field::sign_extended(v) == 0) == (v == 0),
{
}

/// A message is read back from its bytes.
pub proof fn meta_round_trips(m: MetaView)
    requires
        meta_bytes(m).len() <= u64::MAX,
    ensures
        meta_of(meta_bytes(m)) == Some(m),
{
    let step = |m: MetaView, f: Field| meta_step(m, f);
    let m1 = MetaView { type_: m.type_, ..no_meta() };
    let r1 = match m.details {
        Some(d) => field::bytes_field(2, meta_details_bytes(d)),
        None => Seq::empty(),
    };
    lemma_type_round_trips(m.type_);
    field::lemma_merge_number_opt(field::MESSAGE_DEPTH, 1, field::sign_extended(m.type_), r1, no_meta(), step, m1);
    match m.details {
        Some(d) => {
            assert(meta_details_bytes(d).len() <= r1.len());
            lemma_meta_details_round_trip(d);
            assert(r1 + Seq::<u8>::empty() =~= r1);
            field::lemma_merge_bytes(field::MESSAGE_DEPTH, 2, meta_details_bytes(d), Seq::empty(), m1, step, m);
        },
        None => {},
    }
}

impl Addr {
    pub fn encode_to_vec(&self) -> (r: Vec<u8>)
        ensures
            r@ == addr_bytes(*self),
    {
        let mut out: Vec<u8> = Vec::new();
        put_u64_opt(&mut out, 1, self.hi);
        put_u64_opt(&mut out, 2, self.lo);
        assert(out@ =~= addr_bytes(*self));
        out
    }

    /// Merges the fields in `b`.
    pub fn merge(self, b: &[u8]) -> (r: Result<Self, prost::DecodeError>)
        ensures
            match addr_merged(b@, self) {
                Some(a) => r matches Ok(m) && m == a,
                None => r is Err,
            },
    {
        let mut m = self;
        let mut rest = b;
        while rest.len() > 0
            invariant
                addr_merged(rest@, m) == addr_merged(b@, self),
            decreases rest@.len(),
        {
            proof {
                field::lemma_field_len(field::ENTRY_DEPTH, rest@);
            }
            let (tag, wt, value) = match take_key(rest) {
                Ok(k) => k,
                Err(e) => {
                    return Err(e);
                },
            };
            let ghost whole = rest@;
            let ghost before = m;
            if tag == 1 {
                match take_u64(wt, value) {
                    Ok((v, after)) => {
                        m.hi = v;
                        rest = after;
                    },
                    Err(e) => {
                        return Err(e);
                    },
                }
            } else if tag == 2 {
                match take_u64(wt, value) {
                    Ok((v, after)) => {
                        m.lo = v;
                        rest = after;
                    },
                    Err(e) => {
                        return Err(e);
                    },
                }
            } else {
                match skip_value(field::ENTRY_DEPTH, tag, wt, value) {
                    Ok(after) => {
                        rest = after;
                    },
                    Err(e) => {
                        return Err(e);
                    },
                }
            }
            proof {
                let step = |m: Addr, f: Field| addr_step(m, f);
                field::lemma_merge_next(field::ENTRY_DEPTH, whole, tag, wt, value@, rest@, before, step, m);
            }
        }
        Ok(m)
    }
}

impl V4AddrPort {
    pub fn encode_to_vec(&self) -> (r: Vec<u8>)
        ensures
            r@ == v4_bytes(*self),
    {
        let mut out: Vec<u8> = Vec::new();
        put_u32_opt(&mut out, 1, self.addr);
        put_u32_opt(&mut out, 2, self.port);
        assert(out@ =~= v4_bytes(*self));
        out
    }

    /// The address that bytes in the details of a message are.
    pub fn decode(b: &[u8]) -> (r: Result<Self, prost::DecodeError>)
        ensures
            match v4_merged(b@, no_v4()) {
                Some(a) => r matches Ok(m) && m == a,
                None => r is Err,
            },
    {
        let mut m = V4AddrPort { addr: 0, port: 0 };
        let mut rest = b;
        while rest.len() > 0
            invariant
                v4_merged(rest@, m) == v4_merged(b@, no_v4()),
            decreases rest@.len(),
        {
            proof {
                field::lemma_field_len(field::ENTRY_DEPTH, rest@);
            }
            let (tag, wt, value) = match take_key(rest) {
                Ok(k) => k,
                Err(e) => {
                    return Err(e);
                },
            };
            let ghost whole = rest@;
            let ghost before = m;
            if tag == 1 {
                match take_u32(wt, value) {
                    Ok((v, after)) => {
                        m.addr = v;
                        rest = after;
                    },
                    Err(e) => {
                        return Err(e);
                    },
                }
            } else if tag == 2 {
                match take_u32(wt, value) {
                    Ok((v, after)) => {
                        m.port = v;
                        rest = after;
                    },
                    Err(e) => {
                        return Err(e);
                    },
                }
            } else {
                match skip_value(field::ENTRY_DEPTH, tag, wt, value) {
                    Ok(after) => {
                        rest = after;
                    },
                    Err(e) => {
                        return Err(e);
                    },
                }
            }
            proof {
                let step = |m: V4AddrPort, f: Field| v4_step(m, f);
                field::lemma_merge_next(field::ENTRY_DEPTH, whole, tag, wt, value@, rest@, before, step, m);
            }
        }
        Ok(m)
    }
}

impl V6AddrPort {
    pub fn encode_to_vec(&self) -> (r: Vec<u8>)
        ensures
            r@ == v6_bytes(*self),
    {
        let mut out: Vec<u8> = Vec::new();
        put_u64_opt(&mut out, 1, self.hi);
        put_u64_opt(&mut out, 2, self.lo);
        put_u32_opt(&mut out, 3, self.port);
        assert(out@ =~= v6_bytes(*self));
        out
    }

    /// The address that bytes in the details of a message are.
    pub fn decode(b: &[u8]) -> (r: Result<Self, prost::DecodeError>)
        ensures
            match v6_merged(b@, no_v6()) {
                Some(a) => r matches Ok(m) && m == a,
                None => r is Err,
            },
    {
        let mut m = V6AddrPort { hi: 0, lo: 0, port: 0 };
        let mut rest = b;
        while rest.len() > 0
            invariant
                v6_merged(rest@, m) == v6_merged(b@, no_v6()),
            decreases rest@.len(),
        {
            proof {
                field::lemma_field_len(field::ENTRY_DEPTH, rest@);
            }
            let (tag, wt, value) = match take_key(rest) {
                Ok(k) => k,
                Err(e) => {
                    return Err(e);
                },
            };
            let ghost whole = rest@;
            let ghost before = m;
            if tag == 1 {
                match take_u64(wt, value) {
                    Ok((v, after)) => {
                        m.hi = v;
                        rest = after;
                    },
                    Err(e) => {
                        return Err(e);
                    },
                }
            } else if tag == 2 {
                match take_u64(wt, value) {
                    Ok((v, after)) => {
                        m.lo = v;
                        rest = after;
                    },
                    Err(e) => {
                        return Err(e);
                    },
                }
            } else if tag == 3 {
                match take_u32(wt, value) {
                    Ok((v, after)) => {
                        m.port = v;
                        rest = after;
                    },
                    Err(e) => {
                        return Err(e);
                    },
                }
            } else {
                match skip_value(field::ENTRY_DEPTH, tag, wt, value) {
                    Ok(after) => {
                        rest = after;
                    },
                    Err(e) => {
                        return Err(e);
                    },
                }
            }
            proof {
                let step = |m: V6AddrPort, f: Field| v6_step(m, f);
                field::lemma_merge_next(field::ENTRY_DEPTH, whole, tag, wt, value@, rest@, before, step, m);
            }
        }
        Ok(m)
    }
}

impl Default for NebulaMetaDetails {
    fn default() -> (r: Self)
        ensures
            r@ == no_meta_details(),
    {
        NebulaMetaDetails { vpn_addr: None, v4_addr_ports: Vec::new(), v6_addr_ports: Vec::new() }
    }
}

proof fn lemma_v4_list_push(s: Seq<V4AddrPort>, a: V4AddrPort)
    ensures
        v4_list_bytes(s.push(a)) == v4_list_bytes(s) + field::bytes_field(2, v4_bytes(a)),
    decreases s.len(),
{
    let all = s.push(a);
    let last = field::bytes_field(2, v4_bytes(a));
    if s.len() == 0 {
        assert(all.drop_first() =~= Seq::empty());
        assert(all[0] == a);
        assert(v4_list_bytes(all.drop_first()) =~= Seq::empty());
        assert(v4_list_bytes(all) =~= v4_list_bytes(s) + last);
    } else {
        assert(all.drop_first() =~= s.drop_first().push(a));
        assert(all[0] == s[0]);
        lemma_v4_list_push(s.drop_first(), a);
        assert(v4_list_bytes(all) =~= v4_list_bytes(s) + last);
    }
}

proof fn lemma_v6_list_push(s: Seq<V6AddrPort>, a: V6AddrPort)
    ensures
        v6_list_bytes(s.push(a)) == v6_list_bytes(s) + field::bytes_field(4, v6_bytes(a)),
    decreases s.len(),
{
    let all = s.push(a);
    let last = field::bytes_field(4, v6_bytes(a));
    if s.len() == 0 {
        assert(all.drop_first() =~= Seq::empty());
        assert(all[0] == a);
        assert(v6_list_bytes(all.drop_first()) =~= Seq::empty());
        assert(v6_list_bytes(all) =~= v6_list_bytes(s) + last);
    } else {
        assert(all.drop_first() =~= s.drop_first().push(a));
        assert(all[0] == s[0]);
        lemma_v6_list_push(s.drop_first(), a);
        assert(v6_list_bytes(all) =~= v6_list_bytes(s) + last);
    }
}

impl NebulaMetaDetails {
    pub fn encode_to_vec(&self) -> (r: Vec<u8>)
        ensures
            r@ == meta_details_bytes(self@),
    {
        let mut out: Vec<u8> = Vec::new();
        let ghost v4s = self.v4_addr_ports@;
        let ghost v6s = self.v6_addr_ports@;
        let mut i: usize = 0;
        while i < self.v4_addr_ports.len()
            invariant
                i <= v4s.len(),
                v4s == self.v4_addr_ports@,
                out@ == v4_list_bytes(v4s.take(i as int)),
            decreases v4s.len() - i,
        {
            put_bytes(&mut out, 2, &self.v4_addr_ports[i].encode_to_vec());
            proof {
                lemma_v4_list_push(v4s.take(i as int), v4s[i as int]);
                assert(v4s.take(i as int).push(v4s[i as int]) =~= v4s.take(i + 1));
            }
            i = i + 1;
        }
        assert(v4s.take(i as int) =~= v4s);
        let ghost front = out@;
        let mut k: usize = 0;
        assert(front + Seq::<u8>::empty() =~= front);
        while k < self.v6_addr_ports.len()
            invariant
                k <= v6s.len(),
                v6s == self.v6_addr_ports@,
                out@ == front + v6_list_bytes(v6s.take(k as int)),
            decreases v6s.len() - k,
        {
            put_bytes(&mut out, 4, &self.v6_addr_ports[k].encode_to_vec());
            proof {
                lemma_v6_list_push(v6s.take(k as int), v6s[k as int]);
                assert(v6s.take(k as int).push(v6s[k as int]) =~= v6s.take(k + 1));
                assert(out@ =~= front + v6_list_bytes(v6s.take(k + 1)));
            }
            k = k + 1;
        }
        assert(v6s.take(k as int) =~= v6s);
        if let Some(a) = &self.vpn_addr {
            put_bytes(&mut out, 6, &a.encode_to_vec());
        }
        assert(out@ =~= meta_details_bytes(self@));
        out
    }

    /// Merges the fields in `b`.
    pub fn merge(self, b: &[u8]) -> (r: Result<Self, prost::DecodeError>)
        ensures
            match meta_details_merged(b@, self@) {
                Some(d) => r matches Ok(m) && m@ == d,
                None => r is Err,
            },
    {
        let mut m = self;
        let mut rest = b;
        while rest.len() > 0
            invariant
                meta_details_merged(rest@, m@) == meta_details_merged(b@, self@),
            decreases rest@.len(),
        {
            proof {
                field::lemma_field_len(field::DETAILS_DEPTH, rest@);
            }
            let (tag, wt, value) = match take_key(rest) {
                Ok(k) => k,
                Err(e) => {
                    return Err(e);
                },
            };
            let ghost whole = rest@;
            let ghost before = m@;
            if tag == 2 {
                let (content, after) = match take_bytes(wt, value) {
                    Ok(v) => v,
                    Err(e) => {
                        return Err(e);
                    },
                };
                match V4AddrPort::decode(content.as_slice()) {
                    Ok(a) => {
                        m.v4_addr_ports.push(a);
                        rest = after;
                    },
                    Err(e) => {
                        return Err(e);
                    },
                }
            } else if tag == 4 {
                let (content, after) = match take_bytes(wt, value) {
                    Ok(v) => v,
                    Err(e) => {
                        return Err(e);
                    },
                };
                match V6AddrPort::decode(content.as_slice()) {
                    Ok(a) => {
                        m.v6_addr_ports.push(a);
                        rest = after;
                    },
                    Err(e) => {
                        return Err(e);
                    },
                }
            } else if tag == 6 {
                let (content, after) = match take_bytes(wt, value) {
                    Ok(v) => v,
                    Err(e) => {
                        return Err(e);
                    },
                };
                let addr = match m.vpn_addr {
                    Some(a) => a,
                    None => Addr { hi: 0, lo: 0 },
                };
                match addr.merge(content.as_slice()) {
                    Ok(a) => {
                        m.vpn_addr = Some(a);
                        rest = after;
                    },
                    Err(e) => {
                        return Err(e);
                    },
                }
            } else {
                match skip_value(field::DETAILS_DEPTH, tag, wt, value) {
                    Ok(after) => {
                        rest = after;
                    },
                    Err(e) => {
                        return Err(e);
                    },
                }
            }
            proof {
                let step = |m: MetaDetailsView, f: Field| meta_details_step(m, f);
                field::lemma_merge_next(field::DETAILS_DEPTH, whole, tag, wt, value@, rest@, before, step, m@);
            }
        }
        Ok(m)
    }
}

impl NebulaMeta {
    pub fn encode_to_vec(&self) -> (r: Vec<u8>)
        ensures
            r@ == meta_bytes(self@),
    {
        let mut out: Vec<u8> = Vec::new();
        if self.type_ != 0 {
            put_i32(&mut out, 1, self.type_);
        }
        if let Some(d) = &self.details {
            put_bytes(&mut out, 2, &d.encode_to_vec());
        }
        assert(out@ =~= meta_bytes(self@));
        out
    }

    /// The message that bytes are. Fields that it does not have are skipped.
    /// Of a number that comes twice the later one counts, places gather, and
    /// details or an address that come in pieces are put together.
    pub fn decode(b: &[u8]) -> (r: Result<Self, prost::DecodeError>)
        ensures
            match meta_of(b@) {
                Some(v) => r matches Ok(m) && m@ == v,
                None => r is Err,
            },
    {
        let mut m = NebulaMeta { type_: 0, details: None };
        let mut rest = b;
        while rest.len() > 0
            invariant
                meta_merged(rest@, m@) == meta_of(b@),
            decreases rest@.len(),
        {
            proof {
                field::lemma_field_len(field::MESSAGE_DEPTH, rest@);
            }
            let (tag, wt, value) = match take_key(rest) {
                Ok(k) => k,
                Err(e) => {
                    return Err(e);
                },
            };
            let ghost whole = rest@;
            let ghost before = m@;
            if tag == 1 {
                match take_i32(wt, value) {
                    Ok((v, after)) => {
                        m.type_ = v;
                        rest = after;
                    },
                    Err(e) => {
                        return Err(e);
                    },
                }
            } else if tag == 2 {
                let (content, after) = match take_bytes(wt, value) {
                    Ok(v) => v,
                    Err(e) => {
                        return Err(e);
                    },
                };
                let details = match m.details.take() {
                    Some(d) => d,
                    None => NebulaMetaDetails::default(),
                };
                match details.merge(content.as_slice()) {
                    Ok(d) => {
                        m.details = Some(d);
                        rest = after;
                    },
                    Err(e) => {
                        return Err(e);
                    },
                }
            } else {
                match skip_value(field::MESSAGE_DEPTH, tag, wt, value) {
                    Ok(after) => {
                        rest = after;
                    },
                    Err(e) => {
                        return Err(e);
                    },
                }
            }
            proof {
                let step = |m: MetaView, f: Field| meta_step(m, f);
                field::lemma_merge_next(field::MESSAGE_DEPTH, whole, tag, wt, value@, rest@, before, step, m@);
            }
        }
        Ok(m)
    }
}

} // verus!
