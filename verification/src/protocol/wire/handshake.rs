//! What a handshake packet carries.

use vstd::prelude::*;

use super::field;
use super::field::{
    put_bytes, put_bytes_opt, put_u32_opt, put_u64_opt, skip_value, take_bytes, take_key, take_u32,
    take_u64, Field, FieldValue,
};

verus! {

#[derive(Debug, Clone, PartialEq, Eq)]
pub struct NebulaHandshakeDetails {
    pub cert: Vec<u8>,
    pub initiator_index: u32,
    pub responder_index: u32,
    pub cookie: u64,
    pub time: u64,
    pub cert_version: u32,
}

#[derive(Debug, Clone, PartialEq, Eq)]
pub struct NebulaHandshake {
    pub details: Option<NebulaHandshakeDetails>,
    pub hmac: Vec<u8>,
}

/// [`NebulaHandshakeDetails`] with its bytes as a sequence.
#[verifier::ext_equal]
pub struct HandshakeDetailsView {
    pub cert: Seq<u8>,
    pub initiator_index: u32,
    pub responder_index: u32,
    pub cookie: u64,
    pub time: u64,
    pub cert_version: u32,
}

/// [`NebulaHandshake`] with its bytes as a sequence.
#[verifier::ext_equal]
pub struct HandshakeView {
    pub details: Option<HandshakeDetailsView>,
    pub hmac: Seq<u8>,
}

impl View for NebulaHandshakeDetails {
    type V = HandshakeDetailsView;

    open spec fn view(&self) -> HandshakeDetailsView {
        HandshakeDetailsView {
            cert: self.cert@,
            initiator_index: self.initiator_index,
            responder_index: self.responder_index,
            cookie: self.cookie,
            time: self.time,
            cert_version: self.cert_version,
        }
    }
}

impl View for NebulaHandshake {
    type V = HandshakeView;

    open spec fn view(&self) -> HandshakeView {
        HandshakeView {
            details: match self.details {
                Some(d) => Some(d@),
                None => None,
            },
            hmac: self.hmac@,
        }
    }
}

/// Details before any field is read.
pub open spec fn no_details() -> HandshakeDetailsView {
    HandshakeDetailsView {
        cert: Seq::empty(),
        initiator_index: 0,
        responder_index: 0,
        cookie: 0,
        time: 0,
        cert_version: 0,
    }
}

/// A handshake before any field is read.
pub open spec fn no_handshake() -> HandshakeView {
    HandshakeView { details: None, hmac: Seq::empty() }
}

/// The bytes of details.
pub open spec fn details_bytes(d: HandshakeDetailsView) -> Seq<u8> {
    field::bytes_field_opt(1, d.cert) + (field::number_field_opt(2, d.initiator_index as nat) + (
    field::number_field_opt(3, d.responder_index as nat) + (field::number_field_opt(
        4,
        d.cookie as nat,
    ) + (field::number_field_opt(5, d.time as nat) + field::number_field_opt(
        8,
        d.cert_version as nat,
    )))))
}

/// The bytes of a handshake.
pub open spec fn handshake_bytes(h: HandshakeView) -> Seq<u8> {
    (match h.details {
        Some(d) => field::bytes_field(1, details_bytes(d)),
        None => Seq::empty(),
    }) + field::bytes_field_opt(2, h.hmac)
}

/// Details with one more field.
pub open spec fn details_step(d: HandshakeDetailsView, f: Field) -> Option<HandshakeDetailsView> {
    if f.tag == 1 {
        match f.value {
            FieldValue::Bytes(b) => Some(HandshakeDetailsView { cert: b, ..d }),
            _ => None,
        }
    } else if f.tag == 2 {
        match f.value {
            FieldValue::Number(v) => Some(
                HandshakeDetailsView { initiator_index: field::low_u32(v), ..d },
            ),
            _ => None,
        }
    } else if f.tag == 3 {
        match f.value {
            FieldValue::Number(v) => Some(
                HandshakeDetailsView { responder_index: field::low_u32(v), ..d },
            ),
            _ => None,
        }
    } else if f.tag == 4 {
        match f.value {
            FieldValue::Number(v) => Some(HandshakeDetailsView { cookie: v as u64, ..d }),
            _ => None,
        }
    } else if f.tag == 5 {
        match f.value {
            FieldValue::Number(v) => Some(HandshakeDetailsView { time: v as u64, ..d }),
            _ => None,
        }
    } else if f.tag == 8 {
        match f.value {
            FieldValue::Number(v) => Some(
                HandshakeDetailsView { cert_version: field::low_u32(v), ..d },
            ),
            _ => None,
        }
    } else {
        Some(d)
    }
}

/// Details with the fields in `b`, or nothing where they are malformed.
pub open spec fn details_merged(b: Seq<u8>, d: HandshakeDetailsView) -> Option<
    HandshakeDetailsView,
> {
    field::merged(field::DETAILS_DEPTH, b, d, |d: HandshakeDetailsView, f: Field| details_step(d, f))
}

/// A handshake with one more field. Details that come twice are merged.
pub open spec fn handshake_step(h: HandshakeView, f: Field) -> Option<HandshakeView> {
    if f.tag == 1 {
        match f.value {
            FieldValue::Bytes(b) => match details_merged(
                b,
                match h.details {
                    Some(d) => d,
                    None => no_details(),
                },
            ) {
                Some(d) => Some(HandshakeView { details: Some(d), ..h }),
                None => None,
            },
            _ => None,
        }
    } else if f.tag == 2 {
        match f.value {
            FieldValue::Bytes(b) => Some(HandshakeView { hmac: b, ..h }),
            _ => None,
        }
    } else {
        Some(h)
    }
}

/// A handshake with the fields in `b`, or nothing where they are malformed.
pub open spec fn handshake_merged(b: Seq<u8>, h: HandshakeView) -> Option<HandshakeView> {
    field::merged(field::MESSAGE_DEPTH, b, h, |h: HandshakeView, f: Field| handshake_step(h, f))
}

/// The handshake that bytes are, if they are one.
pub open spec fn handshake_of(b: Seq<u8>) -> Option<HandshakeView> {
    handshake_merged(b, no_handshake())
}

proof fn lemma_details_round_trip(d: HandshakeDetailsView)
    requires
        d.cert.len() <= u64::MAX,
    ensures
        details_merged(details_bytes(d), no_details()) == Some(d),
{
    let step = |d: HandshakeDetailsView, f: Field| details_step(d, f);
    let m0 = no_details();
    let m1 = HandshakeDetailsView { cert: d.cert, ..m0 };
    let m2 = HandshakeDetailsView { initiator_index: d.initiator_index, ..m1 };
    let m3 = HandshakeDetailsView { responder_index: d.responder_index, ..m2 };
    let m4 = HandshakeDetailsView { cookie: d.cookie, ..m3 };
    let m5 = HandshakeDetailsView { time: d.time, ..m4 };
    let m6 = HandshakeDetailsView { cert_version: d.cert_version, ..m5 };
    let r5 = field::number_field_opt(8, d.cert_version as nat);
    let r4 = field::number_field_opt(5, d.time as nat) + r5;
    let r3 = field::number_field_opt(4, d.cookie as nat) + r4;
    let r2 = field::number_field_opt(3, d.responder_index as nat) + r3;
    let r1 = field::number_field_opt(2, d.initiator_index as nat) + r2;
    if d.cert.len() == 0 {
        assert(d.cert =~= Seq::empty());
    }
    field::lemma_merge_bytes_opt(field::DETAILS_DEPTH, 1, d.cert, r1, m0, step, m1);
    field::lemma_merge_number_opt(field::DETAILS_DEPTH, 2, d.initiator_index as nat, r2, m1, step, m2);
    field::lemma_merge_number_opt(field::DETAILS_DEPTH, 3, d.responder_index as nat, r3, m2, step, m3);
    field::lemma_merge_number_opt(field::DETAILS_DEPTH, 4, d.cookie as nat, r4, m3, step, m4);
    field::lemma_merge_number_opt(field::DETAILS_DEPTH, 5, d.time as nat, r5, m4, step, m5);
    assert(r5 + Seq::<u8>::empty() =~= r5);
    field::lemma_merge_number_opt(field::DETAILS_DEPTH, 8, d.cert_version as nat, Seq::empty(), m5, step, m6);
    assert(m6 == d);
}

/// A handshake is read back from its bytes.
pub proof fn handshake_round_trips(h: HandshakeView)
    requires
        handshake_bytes(h).len() <= u64::MAX,
    ensures
        handshake_of(handshake_bytes(h)) == Some(h),
{
    let step = |h: HandshakeView, f: Field| handshake_step(h, f);
    let m0 = no_handshake();
    let m1 = HandshakeView { details: h.details, ..m0 };
    let r1 = field::bytes_field_opt(2, h.hmac);
    match h.details {
        Some(d) => {
            lemma_details_round_trip_within(d, h);
            field::lemma_merge_bytes(field::MESSAGE_DEPTH, 1, details_bytes(d), r1, m0, step, m1);
        },
        None => {
            assert(Seq::<u8>::empty() + r1 =~= r1);
        },
    }
    if h.hmac.len() == 0 {
        assert(h.hmac =~= Seq::empty());
    }
    assert(r1 + Seq::<u8>::empty() =~= r1);
    field::lemma_merge_bytes_opt(field::MESSAGE_DEPTH, 2, h.hmac, Seq::empty(), m1, step, h);
}

proof fn lemma_details_round_trip_within(d: HandshakeDetailsView, h: HandshakeView)
    requires
        h.details == Some(d),
        handshake_bytes(h).len() <= u64::MAX,
    ensures
        details_bytes(d).len() <= u64::MAX,
        details_merged(details_bytes(d), no_details()) == Some(d),
{
    assert(details_bytes(d).len() <= handshake_bytes(h).len());
    assert(d.cert.len() <= details_bytes(d).len()) by {
        if d.cert.len() > 0 {
            assert(d.cert.len() <= field::bytes_field(1, d.cert).len());
        }
    }
    lemma_details_round_trip(d);
}

impl NebulaHandshakeDetails {
    pub fn encode_to_vec(&self) -> (r: Vec<u8>)
        ensures
            r@ == details_bytes(self@),
    {
        let mut out: Vec<u8> = Vec::new();
        put_bytes_opt(&mut out, 1, &self.cert);
        put_u32_opt(&mut out, 2, self.initiator_index);
        put_u32_opt(&mut out, 3, self.responder_index);
        put_u64_opt(&mut out, 4, self.cookie);
        put_u64_opt(&mut out, 5, self.time);
        put_u32_opt(&mut out, 8, self.cert_version);
        proof {
            lemma_concat_six(
                field::bytes_field_opt(1, self.cert@),
                field::number_field_opt(2, self.initiator_index as nat),
                field::number_field_opt(3, self.responder_index as nat),
                field::number_field_opt(4, self.cookie as nat),
                field::number_field_opt(5, self.time as nat),
                field::number_field_opt(8, self.cert_version as nat),
            );
        }
        out
    }

    /// Merges the fields in `b`.
    pub fn merge(self, b: &[u8]) -> (r: Result<Self, prost::DecodeError>)
        ensures
            match details_merged(b@, self@) {
                Some(d) => r matches Ok(m) && m@ == d,
                None => r is Err,
            },
    {
        let mut m = self;
        let mut rest = b;
        while rest.len() > 0
            invariant
                details_merged(rest@, m@) == details_merged(b@, self@),
            decreases rest@.len(),
        {
            proof {
                field::lemma_field_len(field::DETAILS_DEPTH, rest@);
            }
            let (tag, wt, value) = match take_key(rest) {
                Ok(k) => k,
                Err(e) => {
                    return Err(e);
                },
            };
            let ghost whole = rest@;
            let ghost before = m@;
            if tag == 1 {
                match take_bytes(wt, value) {
                    Ok((v, after)) => {
                        m.cert = v;
                        rest = after;
                    },
                    Err(e) => {
                        return Err(e);
                    },
                }
            } else if tag == 2 {
                match take_u32(wt, value) {
                    Ok((v, after)) => {
                        m.initiator_index = v;
                        rest = after;
                    },
                    Err(e) => {
                        return Err(e);
                    },
                }
            } else if tag == 3 {
                match take_u32(wt, value) {
                    Ok((v, after)) => {
                        m.responder_index = v;
                        rest = after;
                    },
                    Err(e) => {
                        return Err(e);
                    },
                }
            } else if tag == 4 {
                match take_u64(wt, value) {
                    Ok((v, after)) => {
                        m.cookie = v;
                        rest = after;
                    },
                    Err(e) => {
                        return Err(e);
                    },
                }
            } else if tag == 5 {
                match take_u64(wt, value) {
                    Ok((v, after)) => {
                        m.time = v;
                        rest = after;
                    },
                    Err(e) => {
                        return Err(e);
                    },
                }
            } else if tag == 8 {
                match take_u32(wt, value) {
                    Ok((v, after)) => {
                        m.cert_version = v;
                        rest = after;
                    },
                    Err(e) => {
                        return Err(e);
                    },
                }
            } else {
                match skip_value(field::DETAILS_DEPTH, tag, wt, value) {
                    Ok(after) => {
                        rest = after;
                    },
                    Err(e) => {
                        return Err(e);
                    },
                }
            }
            proof {
                let step = |d: HandshakeDetailsView, f: Field| details_step(d, f);
                field::lemma_merge_next(field::DETAILS_DEPTH, whole, tag, wt, value@, rest@, before, step, m@);
            }
        }
        Ok(m)
    }
}

impl Default for NebulaHandshakeDetails {
    fn default() -> (r: Self)
        ensures
            r@ == no_details(),
    {
        NebulaHandshakeDetails {
            cert: Vec::new(),
            initiator_index: 0,
            responder_index: 0,
            cookie: 0,
            time: 0,
            cert_version: 0,
        }
    }
}

impl Default for NebulaHandshake {
    fn default() -> (r: Self)
        ensures
            r@ == no_handshake(),
    {
        NebulaHandshake { details: None, hmac: Vec::new() }
    }
}

impl NebulaHandshake {
    pub fn encode_to_vec(&self) -> (r: Vec<u8>)
        ensures
            r@ == handshake_bytes(self@),
    {
        let mut out: Vec<u8> = Vec::new();
        if let Some(d) = &self.details {
            put_bytes(&mut out, 1, &d.encode_to_vec());
        }
        put_bytes_opt(&mut out, 2, &self.hmac);
        assert(out@ =~= handshake_bytes(self@));
        out
    }

    /// The handshake that bytes are. Fields that it does not have are
    /// skipped. Of a number, or of bytes, that come twice the later one
    /// counts, and details that come in pieces are put together.
    pub fn decode(b: &[u8]) -> (r: Result<Self, prost::DecodeError>)
        ensures
            match handshake_of(b@) {
                Some(h) => r matches Ok(m) && m@ == h,
                None => r is Err,
            },
    {
        let mut m = NebulaHandshake::default();
        let mut rest = b;
        while rest.len() > 0
            invariant
                handshake_merged(rest@, m@) == handshake_of(b@),
            decreases rest@.len(),
        {
            proof {
                field::lemma_field_len(field::MESSAGE_DEPTH, rest@);
            }
            let (tag, wt, value) = match take_key(rest) {
                Ok(k) => k,
                Err(e) => {
                    return Err(e);
                },
            };
            let ghost whole = rest@;
            let ghost before = m@;
            if tag == 1 {
                let (content, after) = match take_bytes(wt, value) {
                    Ok(v) => v,
                    Err(e) => {
                        return Err(e);
                    },
                };
                let details = match m.details.take() {
                    Some(d) => d,
                    None => NebulaHandshakeDetails::default(),
                };
                match details.merge(content.as_slice()) {
                    Ok(d) => {
                        m.details = Some(d);
                        rest = after;
                    },
                    Err(e) => {
                        return Err(e);
                    },
                }
            } else if tag == 2 {
                match take_bytes(wt, value) {
                    Ok((v, after)) => {
                        m.hmac = v;
                        rest = after;
                    },
                    Err(e) => {
                        return Err(e);
                    },
                }
            } else {
                match skip_value(field::MESSAGE_DEPTH, tag, wt, value) {
                    Ok(after) => {
                        rest = after;
                    },
                    Err(e) => {
                        return Err(e);
                    },
                }
            }
            proof {
                let step = |h: HandshakeView, f: Field| handshake_step(h, f);
                field::lemma_merge_next(field::MESSAGE_DEPTH, whole, tag, wt, value@, rest@, before, step, m@);
            }
        }
        Ok(m)
    }
}

proof fn lemma_concat_six(
    a: Seq<u8>,
    b: Seq<u8>,
    c: Seq<u8>,
    d: Seq<u8>,
    e: Seq<u8>,
    f: Seq<u8>,
)
    ensures
        Seq::<u8>::empty() + a + b + c + d + e + f == a + (b + (c + (d + (e + f)))),
{
    assert(Seq::<u8>::empty() + a =~= a);
    assert(a + b + c + d + e + f =~= a + (b + (c + (d + (e + f)))));
}

} // verus!
