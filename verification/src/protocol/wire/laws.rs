//! What stands where in the bytes of a message, and what is read from them.

use vstd::prelude::*;

use super::field;
use super::field::{Field, FieldValue};
use super::handshake;
use super::handshake::{HandshakeDetailsView, HandshakeView};
use super::meta;
use super::meta::{Addr, MetaDetailsView, MetaView, V4AddrPort, V6AddrPort};
use super::nebula_meta;
use super::nebula_meta::MessageType;

verus! {

/// The number that the lower seven bits of each byte spell, the least
/// significant first.
pub open spec fn spelled(b: Seq<u8>) -> nat
    decreases b.len(),
{
    if b.len() == 0 {
        0
    } else {
        (b[0] % 128) as nat + 128 * spelled(b.skip(1))
    }
}

/// Whether the first `n` bytes go together: all of them but the last are 128 or
/// more.
pub open spec fn go_together(b: Seq<u8>, n: int) -> bool {
    &&& 1 <= n <= b.len()
    &&& b[n - 1] < 128
    &&& forall|i: int| 0 <= i < n - 1 ==> #[trigger] b[i] >= 128
}

/// A number is written in bytes that go together and spell it, and the last of
/// them is zero only if the number is.
pub proof fn numbers_are_spelled(v: nat)
    ensures
        go_together(field::varint(v), field::varint(v).len() as int),
        spelled(field::varint(v)) == v,
        v > 0 ==> field::varint(v).last() > 0,
    decreases v,
{
    let b = field::varint(v);
    reveal_with_fuel(spelled, 2);
    if v < 128 {
        assert(b.skip(1) =~= Seq::<u8>::empty());
    } else {
        let rest = field::varint(v / 128);
        numbers_are_spelled(v / 128);
        assert(b.skip(1) =~= rest);
        assert(b.last() == rest.last());
        assert forall|i: int| 0 <= i < b.len() - 1 implies #[trigger] b[i] >= 128 by {
            if i > 0 {
                assert(b[i] == rest[i - 1]);
            }
        }
    }
}

/// The number at the front of `b` is what the bytes spell that go together. At
/// most ten may, and then the last is zero or one. Zeros at the end do no harm.
pub proof fn numbers_are_read(b: Seq<u8>, n: int)
    ensures
        go_together(b, n) && (n <= 9 || (n == 10 && b[9] <= 1)) ==> field::varint_at(b) == Some(
            (spelled(b.take(n)), n as nat),
        ),
        field::varint_at(b) matches Some((_, k)) ==> go_together(b, k as int) && (k <= 9 || (k == 10
            && b[9] <= 1)),
{
    lemma_groups_are_read(b, 10, n);
}

proof fn lemma_groups_are_read(b: Seq<u8>, left: nat, n: int)
    ensures
        go_together(b, n) && (n < left || (n == left && b[n - 1] <= 1)) ==> field::groups_at(b, left)
            == Some((spelled(b.take(n)), n as nat)),
        field::groups_at(b, left) matches Some((_, k)) ==> go_together(b, k as int) && (k < left
            || (k == left && b[k - 1] <= 1)),
    decreases left,
{
    reveal_with_fuel(spelled, 2);
    if left > 0 && b.len() > 0 {
        let rest = b.skip(1);
        lemma_groups_are_read(rest, (left - 1) as nat, n - 1);
        if b[0] < 128 {
            if go_together(b, n) {
                assert(n == 1) by {
                    if n > 1 {
                        assert(b[0] >= 128);
                    }
                }
                assert(b.take(1).skip(1) =~= Seq::<u8>::empty());
            }
        } else {
            if go_together(b, n) {
                assert(go_together(rest, n - 1)) by {
                    assert forall|i: int| 0 <= i < n - 2 implies #[trigger] rest[i] >= 128 by {
                        assert(b[i + 1] >= 128);
                    }
                }
                assert(b.take(n).skip(1) =~= rest.take(n - 1));
            }
            if let Some((_, k)) = field::groups_at(rest, (left - 1) as nat) {
                assert forall|i: int| 0 <= i < k implies #[trigger] b[i] >= 128 by {
                    if i > 0 {
                        assert(b[i] == rest[i - 1]);
                    }
                }
            }
        }
    }
}

/// A field starts with a number that is eight times its tag and its wire type.
/// It must fit 32 bits, the tag must not be zero, and the wire type at most 5.
pub proof fn keys_hold_tag_and_wire_type(b: Seq<u8>, tag: u32, wt: u8, n: nat)
    ensures
        field::key_at(b) == Some((tag, wt, n)) <==> {
            &&& field::varint_at(b) == Some(((8 * tag + wt) as nat, n))
            &&& 1 <= tag <= 0x1fff_ffff
            &&& wt <= 5
        },
{
    if let Some((key, m)) = field::varint_at(b) {
        assert(key == 8 * (key / 8) + key % 8);
    }
}

/// Behind the key stands a number for wire type 0, eight bytes for 1, a length
/// and as many bytes for 2, and four bytes for 5; only numbers and bytes with a
/// length are taken up. The key alone is no field, and wire type 4 starts none.
pub proof fn fields_are_read_by_wire_type(left: u32, b: Seq<u8>, tag: u32, wt: u8, n: nat)
    requires
        left > 0,
        field::key_at(b) == Some((tag, wt, n)),
    ensures
        ({
            let rest = b.skip(n as int);
            let r = field::field_at(left, b);
            &&& wt == 0 ==> match field::varint_at(rest) {
                Some((v, k)) => r == Some((Field { tag, value: FieldValue::Number(v) }, n + k)),
                None => r is None,
            }
            &&& wt == 1 ==> r == (if rest.len() >= 8 {
                Some((Field { tag, value: FieldValue::Skipped }, n + 8))
            } else {
                None
            })
            &&& wt == 2 ==> match field::varint_at(rest) {
                Some((len, k)) => r == (if k + len <= rest.len() {
                    Some(
                        (
                            Field {
                                tag,
                                value: FieldValue::Bytes(rest.skip(k as int).take(len as int)),
                            },
                            n + k + len,
                        ),
                    )
                } else {
                    None
                }),
                None => r is None,
            }
            &&& wt == 4 ==> r is None
            &&& wt == 5 ==> r == (if rest.len() >= 4 {
                Some((Field { tag, value: FieldValue::Skipped }, n + 4))
            } else {
                None
            })
        }),
{
    let rest = b.skip(n as int);
    field::lemma_groups_len(rest, 10);
    if let Some((len, k)) = field::varint_at(rest) {
        if k + len <= rest.len() {
            assert(rest.subrange(k as int, (k + len) as int) =~= rest.skip(k as int).take(
                len as int,
            ));
        }
    }
}

/// A group, which wire type 3 starts, holds fields and ends with a key of wire
/// type 4 and the group's own tag; another tag there is an error. None of what
/// it holds is taken up, and groups in groups count as levels.
pub proof fn groups_are_passed_over(left: u32, b: Seq<u8>, tag: u32, n: nat, t: u32, wt: u8, k: nat)
    requires
        left > 0,
        field::key_at(b) == Some((tag, 3u8, n)),
    ensures
        ({
            let rest = b.skip(n as int);
            &&& field::field_at(left, b) == (match field::group_len(left, tag, rest) {
                Some(m) => Some((Field { tag, value: FieldValue::Skipped }, n + m)),
                None => None,
            })
            &&& field::key_at(rest) is None ==> field::group_len(left, tag, rest) is None
            &&& field::key_at(rest) == Some((t, wt, k)) && wt == 4 ==> field::group_len(
                left,
                tag,
                rest,
            ) == (if t == tag {
                Some(k)
            } else {
                None
            })
            &&& field::key_at(rest) == Some((t, wt, k)) && wt != 4 && left == 1
                ==> field::group_len(left, tag, rest) is None
            &&& field::key_at(rest) == Some((t, wt, k)) && wt != 4 && left > 1 ==> (
            match field::field_at((left - 1) as u32, rest) {
                Some((_, m)) => field::group_len(left, tag, rest) == (match field::group_len(
                    left,
                    tag,
                    rest.skip(m as int),
                ) {
                    Some(more) => Some(m + more),
                    None => None,
                }),
                None => field::group_len(left, tag, rest) is None,
            })
        }),
{
    let rest = b.skip(n as int);
    field::lemma_groups_len(rest, 10);
    if let Some((t, wt, k)) = field::key_at(rest) {
        field::lemma_value_len((left - 1) as u32, t, wt, rest.skip(k as int));
    }
}

/// Fields are taken up one after the other, each by itself, until none is left.
/// A field that cannot be read, or that does not fit, spoils the message.
pub proof fn fields_are_taken_up_in_turn<M>(
    left: u32,
    b: Seq<u8>,
    m: M,
    step: spec_fn(M, Field) -> Option<M>,
)
    ensures
        b.len() == 0 ==> field::merged(left, b, m, step) == Some(m),
        b.len() > 0 ==> match field::field_at(left, b) {
            Some((f, n)) => match step(m, f) {
                Some(next) => field::merged(left, b, m, step) == field::merged(
                    left,
                    b.skip(n as int),
                    next,
                    step,
                ),
                None => field::merged(left, b, m, step) is None,
            },
            None => field::merged(left, b, m, step) is None,
        },
{
    field::lemma_field_len(left, b);
}

/// A field with a number, or nothing for zero.
pub open spec fn number_behind(key: u8, v: nat) -> Seq<u8> {
    if v > 0 {
        seq![key] + field::varint(v)
    } else {
        Seq::empty()
    }
}

/// A field with a length and bytes.
pub open spec fn bytes_behind(key: u8, b: Seq<u8>) -> Seq<u8> {
    seq![key] + field::varint(b.len()) + b
}

proof fn lemma_fields_are_laid_out(tag: u32, v: nat, b: Seq<u8>)
    requires
        1 <= tag <= 15,
    ensures
        field::number_field_opt(tag, v) == number_behind((8 * tag) as u8, v),
        field::bytes_field(tag, b) == bytes_behind((8 * tag + 2) as u8, b),
        field::bytes_field_opt(tag, b) == (if b.len() > 0 {
            bytes_behind((8 * tag + 2) as u8, b)
        } else {
            Seq::empty()
        }),
{
    reveal_with_fuel(field::varint, 2);
    assert(field::key(tag, 0) =~= seq![(8 * tag) as u8]);
    assert(field::key(tag, 2) =~= seq![(8 * tag + 2) as u8]);
}

/// The bytes of a handshake: its details and then its authentication code; in
/// the details the certificate, the two indexes, the cookie, the time and the
/// version of the certificate. What is empty or zero is left out, but the
/// details.
pub proof fn handshakes_are_laid_out(h: HandshakeView, d: HandshakeDetailsView)
    ensures
        handshake::details_bytes(d) == (if d.cert.len() > 0 {
            bytes_behind(0x0A, d.cert)
        } else {
            Seq::empty()
        }) + number_behind(0x10, d.initiator_index as nat) + number_behind(
            0x18,
            d.responder_index as nat,
        ) + number_behind(0x20, d.cookie as nat) + number_behind(0x28, d.time as nat)
            + number_behind(0x40, d.cert_version as nat),
        h.details == Some(d) && h.hmac.len() == 0 ==> handshake::handshake_bytes(h)
            == bytes_behind(0x0A, handshake::details_bytes(d)),
        h.details == Some(d) && h.hmac.len() > 0 ==> handshake::handshake_bytes(h) == bytes_behind(
            0x0A,
            handshake::details_bytes(d),
        ) + bytes_behind(0x12, h.hmac),
        h.details is None && h.hmac.len() > 0 ==> handshake::handshake_bytes(h) == bytes_behind(
            0x12,
            h.hmac,
        ),
        h.details is None && h.hmac.len() == 0 ==> handshake::handshake_bytes(h) == Seq::<
            u8,
        >::empty(),
{
    lemma_fields_are_laid_out(1, 0, d.cert);
    lemma_fields_are_laid_out(2, d.initiator_index as nat, h.hmac);
    lemma_fields_are_laid_out(3, d.responder_index as nat, d.cert);
    lemma_fields_are_laid_out(4, d.cookie as nat, d.cert);
    lemma_fields_are_laid_out(5, d.time as nat, d.cert);
    lemma_fields_are_laid_out(8, d.cert_version as nat, d.cert);
    lemma_fields_are_laid_out(1, 0, handshake::details_bytes(d));
    let (a, b, c) = (
        field::bytes_field_opt(1, d.cert),
        number_behind(0x10, d.initiator_index as nat),
        number_behind(0x18, d.responder_index as nat),
    );
    let (e, f, g) = (
        number_behind(0x20, d.cookie as nat),
        number_behind(0x28, d.time as nat),
        number_behind(0x40, d.cert_version as nat),
    );
    assert(a + (b + (c + (e + (f + g)))) =~= a + b + c + e + f + g);
    let whole = bytes_behind(0x0A, handshake::details_bytes(d));
    assert(whole + Seq::<u8>::empty() =~= whole);
    let code = bytes_behind(0x12, h.hmac);
    assert(Seq::<u8>::empty() + code =~= code);
}

/// The bytes of a message to or from a lighthouse: its type and its details. A
/// type below zero is written as the 64-bit number with the same lower bits.
pub proof fn messages_are_laid_out(m: MetaView, d: MetaDetailsView)
    ensures
        meta::meta_bytes(m) == number_behind(
            0x08,
            if m.type_ < 0 {
                (0x1_0000_0000_0000_0000 + m.type_) as nat
            } else {
                m.type_ as nat
            },
        ) + (match m.details {
            Some(details) => bytes_behind(0x12, meta::meta_details_bytes(details)),
            None => Seq::empty(),
        }),
        meta::meta_details_bytes(d) == meta::v4_list_bytes(d.v4_addr_ports) + meta::v6_list_bytes(
            d.v6_addr_ports,
        ) + (match d.vpn_addr {
            Some(a) => bytes_behind(
                0x32,
                number_behind(0x08, a.hi as nat) + number_behind(0x10, a.lo as nat),
            ),
            None => Seq::empty(),
        }),
{
    let number = field::sign_extended(m.type_);
    lemma_fields_are_laid_out(1, number, Seq::empty());
    if let Some(details) = m.details {
        lemma_fields_are_laid_out(2, 0, meta::meta_details_bytes(details));
    }
    if let Some(a) = d.vpn_addr {
        lemma_fields_are_laid_out(1, a.hi as nat, Seq::empty());
        lemma_fields_are_laid_out(2, a.lo as nat, Seq::empty());
        lemma_fields_are_laid_out(6, 0, meta::addr_bytes(a));
    }
    let (x, y, z) = (
        meta::v4_list_bytes(d.v4_addr_ports),
        meta::v6_list_bytes(d.v6_addr_ports),
        meta::vpn_addr_bytes(d.vpn_addr),
    );
    assert(x + (y + z) =~= x + y + z);
}

/// The bytes of lists of places: those of each place in turn, an address and a
/// port.
pub proof fn places_are_laid_out(
    v4: Seq<V4AddrPort>,
    v6: Seq<V6AddrPort>,
    a: V4AddrPort,
    b: V6AddrPort,
)
    ensures
        meta::v4_list_bytes(Seq::empty()) == Seq::<u8>::empty(),
        meta::v6_list_bytes(Seq::empty()) == Seq::<u8>::empty(),
        meta::v4_list_bytes(seq![a] + v4) == bytes_behind(
            0x12,
            number_behind(0x08, a.addr as nat) + number_behind(0x10, a.port as nat),
        ) + meta::v4_list_bytes(v4),
        meta::v6_list_bytes(seq![b] + v6) == bytes_behind(
            0x22,
            number_behind(0x08, b.hi as nat) + number_behind(0x10, b.lo as nat) + number_behind(
                0x18,
                b.port as nat,
            ),
        ) + meta::v6_list_bytes(v6),
{
    assert((seq![a] + v4).drop_first() =~= v4);
    assert((seq![b] + v6).drop_first() =~= v6);
    lemma_fields_are_laid_out(1, a.addr as nat, Seq::empty());
    lemma_fields_are_laid_out(2, a.port as nat, meta::v4_bytes(a));
    lemma_fields_are_laid_out(1, b.hi as nat, Seq::empty());
    lemma_fields_are_laid_out(2, b.lo as nat, Seq::empty());
    lemma_fields_are_laid_out(3, b.port as nat, Seq::empty());
    lemma_fields_are_laid_out(4, 0, meta::v6_bytes(b));
    let (x, y, z) = (
        number_behind(0x08, b.hi as nat),
        number_behind(0x10, b.lo as nat),
        number_behind(0x18, b.port as nat),
    );
    assert(x + (y + z) =~= x + y + z);
}

/// Bytes are a handshake if their fields can be taken up. A field of details is
/// taken up into those there are, and any other field but the code is passed
/// over. A code that comes twice counts the second time.
pub proof fn handshakes_are_read_by_tag(
    b: Seq<u8>,
    step: spec_fn(HandshakeView, Field) -> Option<HandshakeView>,
    h: HandshakeView,
    tag: u32,
    number: nat,
    content: Seq<u8>,
)
    requires
        forall|h: HandshakeView, f: Field| #[trigger] step(h, f) == handshake::handshake_step(h, f),
    ensures
        handshake::handshake_of(b) == field::merged(
            100,
            b,
            HandshakeView { details: None, hmac: Seq::empty() },
            step,
        ),
        handshake::handshake_step(
            h,
            (Field { tag: 2, value: FieldValue::Bytes(content) }),
        ) == Some(HandshakeView { details: h.details, hmac: content }),
        handshake::handshake_step(h, (Field { tag: 1, value: FieldValue::Bytes(content) })) == (
        match handshake::details_merged(
            content,
            match h.details {
                Some(d) => d,
                None => HandshakeDetailsView {
                    cert: Seq::empty(),
                    initiator_index: 0,
                    responder_index: 0,
                    cookie: 0,
                    time: 0,
                    cert_version: 0,
                },
            },
        ) {
            Some(d) => Some(HandshakeView { details: Some(d), hmac: h.hmac }),
            None => None,
        }),
        tag == 1 || tag == 2 ==> handshake::handshake_step(
            h,
            (Field { tag, value: FieldValue::Number(number) }),
        ) is None && handshake::handshake_step(
            h,
            (Field { tag, value: FieldValue::Skipped }),
        ) is None,
        forall|f: Field|
            f.tag != 1 && f.tag != 2 ==> #[trigger] handshake::handshake_step(h, f) == Some(h),
{
    assert(step =~= |h: HandshakeView, f: Field| handshake::handshake_step(h, f));
}

/// A field of details with a known tag is what the details hold from then on,
/// of a number as many of its lower bits as there is room for. One that is not
/// of the wire type that belongs to its tag is an error, and one with another
/// tag is passed over.
pub proof fn handshake_details_are_read_by_tag(
    b: Seq<u8>,
    step: spec_fn(HandshakeDetailsView, Field) -> Option<HandshakeDetailsView>,
    d: HandshakeDetailsView,
    tag: u32,
    v: nat,
    content: Seq<u8>,
)
    requires
        forall|d: HandshakeDetailsView, f: Field| #[trigger]
            step(d, f) == handshake::details_step(d, f),
        v <= u64::MAX,
    ensures
        handshake::details_merged(b, d) == field::merged(99, b, d, step),
        handshake::details_step(d, (Field { tag: 1, value: FieldValue::Bytes(content) })) == Some(
            HandshakeDetailsView { cert: content, ..d },
        ),
        handshake::details_step(d, (Field { tag: 2, value: FieldValue::Number(v) })) == Some(
            HandshakeDetailsView { initiator_index: (v % 0x1_0000_0000) as u32, ..d },
        ),
        handshake::details_step(d, (Field { tag: 3, value: FieldValue::Number(v) })) == Some(
            HandshakeDetailsView { responder_index: (v % 0x1_0000_0000) as u32, ..d },
        ),
        handshake::details_step(d, (Field { tag: 4, value: FieldValue::Number(v) })) == Some(
            HandshakeDetailsView { cookie: v as u64, ..d },
        ),
        handshake::details_step(d, (Field { tag: 5, value: FieldValue::Number(v) })) == Some(
            HandshakeDetailsView { time: v as u64, ..d },
        ),
        handshake::details_step(d, (Field { tag: 8, value: FieldValue::Number(v) })) == Some(
            HandshakeDetailsView { cert_version: (v % 0x1_0000_0000) as u32, ..d },
        ),
        handshake::details_step(d, (Field { tag: 1, value: FieldValue::Number(v) })) is None,
        2 <= tag <= 5 || tag == 8 ==> handshake::details_step(
            d,
            (Field { tag, value: FieldValue::Bytes(content) }),
        ) is None,
        1 <= tag <= 5 || tag == 8 ==> handshake::details_step(
            d,
            (Field { tag, value: FieldValue::Skipped }),
        ) is None,
        forall|f: Field|
            !(1 <= f.tag <= 5 || f.tag == 8) ==> #[trigger] handshake::details_step(d, f) == Some(d),
{
    assert(step =~= |d: HandshakeDetailsView, f: Field| handshake::details_step(d, f));
}

/// Bytes are a message to or from a lighthouse if their fields can be taken up.
/// Of the type the lower 32 bits count, as two's complement; details are taken
/// up into those there are, and any other field is passed over.
pub proof fn messages_are_read_by_tag(
    b: Seq<u8>,
    step: spec_fn(MetaView, Field) -> Option<MetaView>,
    m: MetaView,
    tag: u32,
    v: nat,
    content: Seq<u8>,
)
    requires
        forall|m: MetaView, f: Field| #[trigger] step(m, f) == meta::meta_step(m, f),
        v <= u64::MAX,
    ensures
        meta::meta_of(b) == field::merged(100, b, MetaView { type_: 0, details: None }, step),
        ({
            let low = v % 0x1_0000_0000;
            meta::meta_step(m, (Field { tag: 1, value: FieldValue::Number(v) })) == Some(
                MetaView {
                    type_: if low < 0x8000_0000 {
                        low as i32
                    } else {
                        (low - 0x1_0000_0000) as i32
                    },
                    details: m.details,
                },
            )
        }),
        meta::meta_step(m, (Field { tag: 2, value: FieldValue::Bytes(content) })) == (
        match meta::meta_details_merged(
            content,
            match m.details {
                Some(d) => d,
                None => MetaDetailsView {
                    vpn_addr: None,
                    v4_addr_ports: Seq::empty(),
                    v6_addr_ports: Seq::empty(),
                },
            },
        ) {
            Some(d) => Some(MetaView { type_: m.type_, details: Some(d) }),
            None => None,
        }),
        meta::meta_step(m, (Field { tag: 1, value: FieldValue::Bytes(content) })) is None,
        meta::meta_step(m, (Field { tag: 2, value: FieldValue::Number(v) })) is None,
        tag == 1 || tag == 2 ==> meta::meta_step(
            m,
            (Field { tag, value: FieldValue::Skipped }),
        ) is None,
        forall|f: Field| f.tag != 1 && f.tag != 2 ==> #[trigger] meta::meta_step(m, f) == Some(m),
{
    assert(step =~= |m: MetaView, f: Field| meta::meta_step(m, f));
}

/// In details each IPv4 or IPv6 place goes to the end of its list, the host's
/// address is taken up into the one there is, and any other field is passed
/// over.
pub proof fn message_details_are_read_by_tag(
    b: Seq<u8>,
    step: spec_fn(MetaDetailsView, Field) -> Option<MetaDetailsView>,
    d: MetaDetailsView,
    tag: u32,
    v: nat,
    content: Seq<u8>,
)
    requires
        forall|d: MetaDetailsView, f: Field| #[trigger] step(d, f) == meta::meta_details_step(d, f),
    ensures
        meta::meta_details_merged(b, d) == field::merged(99, b, d, step),
        meta::meta_details_step(d, (Field { tag: 2, value: FieldValue::Bytes(content) })) == (
        match meta::v4_merged(content, V4AddrPort { addr: 0, port: 0 }) {
            Some(a) => Some(MetaDetailsView { v4_addr_ports: d.v4_addr_ports.push(a), ..d }),
            None => None,
        }),
        meta::meta_details_step(d, (Field { tag: 4, value: FieldValue::Bytes(content) })) == (
        match meta::v6_merged(content, V6AddrPort { hi: 0, lo: 0, port: 0 }) {
            Some(a) => Some(MetaDetailsView { v6_addr_ports: d.v6_addr_ports.push(a), ..d }),
            None => None,
        }),
        meta::meta_details_step(d, (Field { tag: 6, value: FieldValue::Bytes(content) })) == (
        match meta::addr_merged(
            content,
            match d.vpn_addr {
                Some(a) => a,
                None => Addr { hi: 0, lo: 0 },
            },
        ) {
            Some(a) => Some(MetaDetailsView { vpn_addr: Some(a), ..d }),
            None => None,
        }),
        tag == 2 || tag == 4 || tag == 6 ==> meta::meta_details_step(
            d,
            (Field { tag, value: FieldValue::Number(v) }),
        ) is None && meta::meta_details_step(
            d,
            (Field { tag, value: FieldValue::Skipped }),
        ) is None,
        forall|f: Field|
            f.tag != 2 && f.tag != 4 && f.tag != 6 ==> #[trigger] meta::meta_details_step(d, f)
                == Some(d),
{
    assert(step =~= |d: MetaDetailsView, f: Field| meta::meta_details_step(d, f));
}

/// An address is two numbers of 64 bits, an IPv4 place an address and a port of
/// 32, and an IPv6 place an address in two halves and a port. Each is what its
/// field last said; other fields are passed over.
pub proof fn places_are_read_by_tag(
    b: Seq<u8>,
    addr_step: spec_fn(Addr, Field) -> Option<Addr>,
    v4_step: spec_fn(V4AddrPort, Field) -> Option<V4AddrPort>,
    v6_step: spec_fn(V6AddrPort, Field) -> Option<V6AddrPort>,
    a: Addr,
    p: V4AddrPort,
    q: V6AddrPort,
    tag: u32,
    v: nat,
    content: Seq<u8>,
)
    requires
        forall|a: Addr, f: Field| #[trigger] addr_step(a, f) == meta::addr_step(a, f),
        forall|p: V4AddrPort, f: Field| #[trigger] v4_step(p, f) == meta::v4_step(p, f),
        forall|q: V6AddrPort, f: Field| #[trigger] v6_step(q, f) == meta::v6_step(q, f),
        v <= u64::MAX,
    ensures
        meta::addr_merged(b, a) == field::merged(98, b, a, addr_step),
        meta::v4_merged(b, p) == field::merged(98, b, p, v4_step),
        meta::v6_merged(b, q) == field::merged(98, b, q, v6_step),
        meta::addr_step(a, (Field { tag: 1, value: FieldValue::Number(v) })) == Some(
            Addr { hi: v as u64, lo: a.lo },
        ),
        meta::addr_step(a, (Field { tag: 2, value: FieldValue::Number(v) })) == Some(
            Addr { hi: a.hi, lo: v as u64 },
        ),
        meta::v4_step(p, (Field { tag: 1, value: FieldValue::Number(v) })) == Some(
            V4AddrPort { addr: (v % 0x1_0000_0000) as u32, port: p.port },
        ),
        meta::v4_step(p, (Field { tag: 2, value: FieldValue::Number(v) })) == Some(
            V4AddrPort { addr: p.addr, port: (v % 0x1_0000_0000) as u32 },
        ),
        meta::v6_step(q, (Field { tag: 1, value: FieldValue::Number(v) })) == Some(
            V6AddrPort { hi: v as u64, lo: q.lo, port: q.port },
        ),
        meta::v6_step(q, (Field { tag: 2, value: FieldValue::Number(v) })) == Some(
            V6AddrPort { hi: q.hi, lo: v as u64, port: q.port },
        ),
        meta::v6_step(q, (Field { tag: 3, value: FieldValue::Number(v) })) == Some(
            V6AddrPort { hi: q.hi, lo: q.lo, port: (v % 0x1_0000_0000) as u32 },
        ),
        tag == 1 || tag == 2 ==> meta::addr_step(
            a,
            (Field { tag, value: FieldValue::Bytes(content) }),
        ) is None && meta::v4_step(p, (Field { tag, value: FieldValue::Bytes(content) })) is None,
        1 <= tag <= 3 ==> meta::v6_step(
            q,
            (Field { tag, value: FieldValue::Bytes(content) }),
        ) is None && meta::v6_step(q, (Field { tag, value: FieldValue::Skipped })) is None,
        tag == 1 || tag == 2 ==> meta::addr_step(
            a,
            (Field { tag, value: FieldValue::Skipped }),
        ) is None && meta::v4_step(p, (Field { tag, value: FieldValue::Skipped })) is None,
        forall|f: Field| f.tag != 1 && f.tag != 2 ==> #[trigger] meta::addr_step(a, f) == Some(a),
        forall|f: Field| f.tag != 1 && f.tag != 2 ==> #[trigger] meta::v4_step(p, f) == Some(p),
        forall|f: Field| !(1 <= f.tag <= 3) ==> #[trigger] meta::v6_step(q, f) == Some(q),
{
    assert(addr_step =~= |a: Addr, f: Field| meta::addr_step(a, f));
    assert(v4_step =~= |p: V4AddrPort, f: Field| meta::v4_step(p, f));
    assert(v6_step =~= |q: V6AddrPort, f: Field| meta::v6_step(q, f));
}

/// Each type of message has its number.
pub proof fn message_types_have_numbers()
    ensures
        nebula_meta::type_number(MessageType::Unset) == 0,
        nebula_meta::type_number(MessageType::HostQuery) == 1,
        nebula_meta::type_number(MessageType::HostQueryReply) == 2,
        nebula_meta::type_number(MessageType::HostUpdateNotification) == 3,
        nebula_meta::type_number(MessageType::HostMovedNotification) == 4,
        nebula_meta::type_number(MessageType::HostPunchNotification) == 5,
        nebula_meta::type_number(MessageType::HostWhoami) == 6,
        nebula_meta::type_number(MessageType::HostWhoamiReply) == 7,
        nebula_meta::type_number(MessageType::PathCheck) == 8,
        nebula_meta::type_number(MessageType::PathCheckReply) == 9,
        nebula_meta::type_number(MessageType::HostUpdateNotificationAck) == 10,
{
}

} // verus!
