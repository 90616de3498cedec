//! Protobuf fields: a key, which names the field and how its value is
//! written, and the value.

use prost::encoding::DecodeContext;
use vstd::prelude::*;

verus! {

/// How a value is written, as a key says it.
pub const VARINT: u8 = 0;
pub const SIXTY_FOUR_BIT: u8 = 1;
pub const LENGTH_DELIMITED: u8 = 2;
pub const START_GROUP: u8 = 3;
pub const END_GROUP: u8 = 4;
pub const THIRTY_TWO_BIT: u8 = 5;

/// How many levels of values a field of a message may hold.
pub const MESSAGE_DEPTH: u32 = 100;

/// How many levels of values a field of a message's details may hold.
pub const DETAILS_DEPTH: u32 = 99;

/// How many levels of values a field of an entry in the details may hold.
pub const ENTRY_DEPTH: u32 = 98;

/// A number in groups of seven bits, the lowest first, each but the last
/// with its highest bit set.
pub open spec fn varint(v: nat) -> Seq<u8>
    decreases v,
{
    if v < 0x80 {
        seq![v as u8]
    } else {
        seq![(v % 0x80 + 0x80) as u8] + varint(v / 0x80)
    }
}

/// The number that starts `b` in at most `left` groups, and how many bytes it
/// takes. The tenth group has room for one bit.
pub open spec fn groups_at(b: Seq<u8>, left: nat) -> Option<(nat, nat)>
    decreases left,
{
    if left == 0 || b.len() == 0 {
        None
    } else if b[0] < 0x80 {
        if left == 1 && b[0] >= 2 {
            None
        } else {
            Some((b[0] as nat, 1))
        }
    } else {
        match groups_at(b.skip(1), (left - 1) as nat) {
            None => None,
            Some((v, n)) => Some(((b[0] - 0x80 + 0x80 * v) as nat, n + 1)),
        }
    }
}

/// The number that starts `b`, and how many bytes it takes.
pub open spec fn varint_at(b: Seq<u8>) -> Option<(nat, nat)> {
    groups_at(b, 10)
}

/// The value of a field.
pub enum FieldValue {
    Number(nat),
    Bytes(Seq<u8>),
    /// One that no message here has.
    Skipped,
}

/// A field of a message.
pub struct Field {
    pub tag: u32,
    pub value: FieldValue,
}

/// The tag and the wire type of the key at the front of `b`, and how many
/// bytes it takes.
pub open spec fn key_at(b: Seq<u8>) -> Option<(u32, u8, nat)> {
    match varint_at(b) {
        None => None,
        Some((key, n)) => if key > u32::MAX || key % 8 > 5 || key / 8 == 0 {
            None
        } else {
            Some(((key / 8) as u32, (key % 8) as u8, n))
        },
    }
}

/// The bytes behind a length at the front of `b`, and how many bytes both take.
pub open spec fn bytes_at(b: Seq<u8>) -> Option<(Seq<u8>, nat)> {
    match varint_at(b) {
        None => None,
        Some((len, n)) => if n + len <= b.len() {
            Some((b.subrange(n as int, (n + len) as int), n + len))
        } else {
            None
        },
    }
}

/// How many bytes a value takes that holds no other values.
pub open spec fn scalar_len(wt: u8, b: Seq<u8>) -> Option<nat> {
    if wt == VARINT {
        match varint_at(b) {
            None => None,
            Some((_, n)) => Some(n),
        }
    } else if wt == SIXTY_FOUR_BIT {
        if b.len() >= 8 {
            Some(8)
        } else {
            None
        }
    } else if wt == THIRTY_TWO_BIT {
        if b.len() >= 4 {
            Some(4)
        } else {
            None
        }
    } else if wt == LENGTH_DELIMITED {
        match bytes_at(b) {
            None => None,
            Some((_, n)) => Some(n),
        }
    } else {
        None
    }
}

/// How many bytes the value of a field takes, if it holds at most `left`
/// levels of values.
pub open spec fn value_len(left: u32, tag: u32, wt: u8, b: Seq<u8>) -> Option<nat>
    decreases b.len(), 1int,
{
    if left == 0 {
        None
    } else if wt == START_GROUP {
        group_len(left, tag, b)
    } else {
        scalar_len(wt, b)
    }
}

/// How many bytes the rest of a group takes, whose start has been read: the
/// fields in it, and the key that ends it, which has the group's tag.
pub open spec fn group_len(left: u32, tag: u32, b: Seq<u8>) -> Option<nat>
    decreases b.len(), 0int,
{
    proof {
        lemma_groups_len(b, 10);
    }
    match key_at(b) {
        None => None,
        Some((t, wt, n)) => if wt == END_GROUP {
            if t == tag {
                Some(n)
            } else {
                None
            }
        } else {
            match value_len((left - 1) as u32, t, wt, b.skip(n as int)) {
                None => None,
                Some(m) => if n + m > b.len() {
                    None
                } else {
                    match group_len(left, tag, b.skip((n + m) as int)) {
                        None => None,
                        Some(k) => Some(n + m + k),
                    }
                },
            }
        },
    }
}

/// The value at the front of `b`, where it has a length.
pub open spec fn value_at(wt: u8, b: Seq<u8>) -> FieldValue {
    if wt == VARINT {
        match varint_at(b) {
            Some((v, _)) => FieldValue::Number(v),
            None => FieldValue::Skipped,
        }
    } else if wt == LENGTH_DELIMITED {
        match bytes_at(b) {
            Some((content, _)) => FieldValue::Bytes(content),
            None => FieldValue::Skipped,
        }
    } else {
        FieldValue::Skipped
    }
}

/// The field at the front of `b`, which holds at most `left` levels of values,
/// and how many bytes it takes.
pub open spec fn field_at(left: u32, b: Seq<u8>) -> Option<(Field, nat)> {
    match key_at(b) {
        None => None,
        Some((tag, wt, n)) => match value_len(left, tag, wt, b.skip(n as int)) {
            None => None,
            Some(m) => Some((Field { tag, value: value_at(wt, b.skip(n as int)) }, n + m)),
        },
    }
}

/// What becomes of a message when the fields in `b` are merged into it one by
/// one, or nothing where that fails.
pub open spec fn merged<M>(
    left: u32,
    b: Seq<u8>,
    m: M,
    step: spec_fn(M, Field) -> Option<M>,
) -> Option<M>
    decreases b.len(),
{
    if b.len() == 0 {
        Some(m)
    } else {
        match field_at(left, b) {
            None => None,
            Some((f, n)) => match step(m, f) {
                None => None,
                Some(next) => {
                    proof {
                        lemma_field_len(left, b);
                    }
                    merged(left, b.skip(n as int), next, step)
                },
            },
        }
    }
}

pub proof fn lemma_groups_len(b: Seq<u8>, left: nat)
    ensures
        groups_at(b, left) matches Some((_, n)) ==> 1 <= n <= b.len(),
    decreases left,
{
    if left > 0 && b.len() > 0 && b[0] >= 0x80 {
        lemma_groups_len(b.skip(1), (left - 1) as nat);
    }
}

/// A value takes no more bytes than there are.
pub proof fn lemma_value_len(left: u32, tag: u32, wt: u8, b: Seq<u8>)
    ensures
        value_len(left, tag, wt, b) matches Some(n) ==> n <= b.len(),
        group_len(left, tag, b) matches Some(n) ==> n <= b.len(),
    decreases b.len(),
{
    lemma_groups_len(b, 10);
    if let Some((t, w, n)) = key_at(b) {
        if let Some(m) = value_len((left - 1) as u32, t, w, b.skip(n as int)) {
            if n + m <= b.len() {
                lemma_value_len(left, tag, wt, b.skip((n + m) as int));
            }
        }
    }
}

/// A field takes at least one byte, and no more than there are.
pub proof fn lemma_field_len(left: u32, b: Seq<u8>)
    ensures
        field_at(left, b) matches Some((_, n)) ==> 1 <= n <= b.len(),
{
    lemma_groups_len(b, 10);
    if let Some((tag, wt, n)) = key_at(b) {
        lemma_value_len(left, tag, wt, b.skip(n as int));
    }
}

/// Merging the field whose key and value have been read.
pub proof fn lemma_merge_next<M>(
    left: u32,
    whole: Seq<u8>,
    tag: u32,
    wt: u8,
    value: Seq<u8>,
    rest: Seq<u8>,
    before: M,
    step: spec_fn(M, Field) -> Option<M>,
    after: M,
)
    requires
        whole.len() > 0,
        key_at(whole) matches Some((t, w, n)) && t == tag && w == wt && value == whole.skip(
            n as int,
        ),
        value_len(left, tag, wt, value) matches Some(m) && rest == value.skip(m as int),
        step(before, Field { tag, value: value_at(wt, value) }) == Some(after),
    ensures
        merged(left, rest, after, step) == merged(left, whole, before, step),
        rest.len() < whole.len(),
{
    lemma_field_len(left, whole);
    if let Some((f, n)) = field_at(left, whole) {
        assert(rest =~= whole.skip(n as int));
    }
}

/// The range of numbers that `left` groups have room for.
pub open spec fn room(left: nat) -> nat
    decreases left,
{
    if left == 0 {
        0
    } else if left == 1 {
        2
    } else {
        0x80 * room((left - 1) as nat)
    }
}

proof fn lemma_groups_round_trip(v: nat, left: nat, rest: Seq<u8>)
    requires
        1 <= left,
        v < room(left),
    ensures
        varint(v).len() >= 1,
        groups_at(varint(v) + rest, left) == Some((v, varint(v).len())),
    decreases left,
{
    let b = varint(v) + rest;
    if v < 0x80 {
        assert(b[0] == v as u8);
    } else {
        assert(left > 1);
        assert(b[0] == (v % 0x80 + 0x80) as u8);
        assert(b.skip(1) =~= varint(v / 0x80) + rest);
        assert(v / 0x80 < room((left - 1) as nat));
        lemma_groups_round_trip(v / 0x80, (left - 1) as nat, rest);
    }
}

/// A number is read back from its varint, whatever follows.
pub proof fn varint_round_trips(v: nat, rest: Seq<u8>)
    requires
        v <= u64::MAX,
    ensures
        varint(v).len() >= 1,
        varint_at(varint(v) + rest) == Some((v, varint(v).len())),
{
    reveal_with_fuel(room, 11);
    lemma_groups_round_trip(v, 10, rest);
}

/// Whether a tag is one that a key has room for.
pub open spec fn is_tag(tag: u32) -> bool {
    1 <= tag <= 0x1fff_ffff
}

/// A key.
pub open spec fn key(tag: u32, wt: u8) -> Seq<u8> {
    varint((8 * tag + wt) as nat)
}

/// A field with a number.
pub open spec fn number_field(tag: u32, v: nat) -> Seq<u8> {
    key(tag, VARINT) + varint(v)
}

/// A field with bytes.
pub open spec fn bytes_field(tag: u32, b: Seq<u8>) -> Seq<u8> {
    key(tag, LENGTH_DELIMITED) + varint(b.len()) + b
}

/// A field with a number, or nothing if the number is zero.
pub open spec fn number_field_opt(tag: u32, v: nat) -> Seq<u8> {
    if v == 0 {
        Seq::empty()
    } else {
        number_field(tag, v)
    }
}

/// A field with bytes, or nothing if there are none.
pub open spec fn bytes_field_opt(tag: u32, b: Seq<u8>) -> Seq<u8> {
    if b.len() == 0 {
        Seq::empty()
    } else {
        bytes_field(tag, b)
    }
}

proof fn lemma_key_round_trips(tag: u32, wt: u8, rest: Seq<u8>)
    requires
        is_tag(tag),
        wt <= 5,
    ensures
        key_at(key(tag, wt) + rest) == Some((tag, wt, key(tag, wt).len())),
        (key(tag, wt) + rest).skip(key(tag, wt).len() as int) == rest,
{
    let k = (8 * tag + wt) as nat;
    varint_round_trips(k, rest);
    assert(k / 8 == tag as nat && k % 8 == wt as nat);
    assert((key(tag, wt) + rest).skip(key(tag, wt).len() as int) =~= rest);
}

/// Merging a field with a number and what follows it.
pub proof fn lemma_merge_number<M>(
    left: u32,
    tag: u32,
    v: nat,
    rest: Seq<u8>,
    m: M,
    step: spec_fn(M, Field) -> Option<M>,
    next: M,
)
    requires
        left > 0,
        is_tag(tag),
        v <= u64::MAX,
        step(m, Field { tag, value: FieldValue::Number(v) }) == Some(next),
    ensures
        merged(left, number_field(tag, v) + rest, m, step) == merged(left, rest, next, step),
{
    let b = number_field(tag, v) + rest;
    let k = key(tag, VARINT);
    assert(b =~= k + (varint(v) + rest));
    lemma_key_round_trips(tag, VARINT, varint(v) + rest);
    varint_round_trips(v, rest);
    assert(b.skip((k.len() + varint(v).len()) as int) =~= rest);
    assert(field_at(left, b) == Some(
        (Field { tag, value: FieldValue::Number(v) }, k.len() + varint(v).len()),
    ));
}

/// Merging a field with bytes and what follows it.
pub proof fn lemma_merge_bytes<M>(
    left: u32,
    tag: u32,
    content: Seq<u8>,
    rest: Seq<u8>,
    m: M,
    step: spec_fn(M, Field) -> Option<M>,
    next: M,
)
    requires
        left > 0,
        is_tag(tag),
        content.len() <= u64::MAX,
        step(m, Field { tag, value: FieldValue::Bytes(content) }) == Some(next),
    ensures
        merged(left, bytes_field(tag, content) + rest, m, step) == merged(left, rest, next, step),
{
    let b = bytes_field(tag, content) + rest;
    let k = key(tag, LENGTH_DELIMITED);
    let l = varint(content.len());
    let tail = l + (content + rest);
    assert(b =~= k + tail);
    lemma_key_round_trips(tag, LENGTH_DELIMITED, tail);
    varint_round_trips(content.len(), content + rest);
    assert(tail.subrange(l.len() as int, (l.len() + content.len()) as int) =~= content);
    assert(b.skip((k.len() + (l.len() + content.len())) as int) =~= rest);
    assert(field_at(left, b) == Some(
        (Field { tag, value: FieldValue::Bytes(content) }, k.len() + (l.len() + content.len())),
    ));
}

/// Merging a field that may be missing because its number is zero.
pub proof fn lemma_merge_number_opt<M>(
    left: u32,
    tag: u32,
    v: nat,
    rest: Seq<u8>,
    m: M,
    step: spec_fn(M, Field) -> Option<M>,
    next: M,
)
    requires
        left > 0,
        is_tag(tag),
        v <= u64::MAX,
        v == 0 ==> next == m,
        v != 0 ==> step(m, Field { tag, value: FieldValue::Number(v) }) == Some(next),
    ensures
        merged(left, number_field_opt(tag, v) + rest, m, step) == merged(left, rest, next, step),
{
    if v == 0 {
        assert(number_field_opt(tag, v) + rest =~= rest);
    } else {
        lemma_merge_number(left, tag, v, rest, m, step, next);
    }
}

/// Merging a field that may be missing because it has no bytes.
pub proof fn lemma_merge_bytes_opt<M>(
    left: u32,
    tag: u32,
    content: Seq<u8>,
    rest: Seq<u8>,
    m: M,
    step: spec_fn(M, Field) -> Option<M>,
    next: M,
)
    requires
        left > 0,
        is_tag(tag),
        content.len() <= u64::MAX,
        content.len() == 0 ==> next == m,
        content.len() != 0 ==> step(m, Field { tag, value: FieldValue::Bytes(content) }) == Some(
            next,
        ),
    ensures
        merged(left, bytes_field_opt(tag, content) + rest, m, step) == merged(left, rest, next, step),
{
    if content.len() == 0 {
        assert(bytes_field_opt(tag, content) + rest =~= rest);
    } else {
        lemma_merge_bytes(left, tag, content, rest, m, step, next);
    }
}

/// The lower 32 bits of a number, as a number.
pub open spec fn low_u32(v: nat) -> u32 {
    (v % 0x1_0000_0000) as u32
}

/// The lower 32 bits of a number, as two's complement.
pub open spec fn low_i32(v: nat) -> i32 {
    let w = v % 0x1_0000_0000;
    if w >= 0x8000_0000 {
        (w - 0x1_0000_0000) as i32
    } else {
        w as i32
    }
}

/// An integer modulo 2^64, as two's complement has it.
pub open spec fn sign_extended(v: i32) -> nat {
    if v < 0 {
        (v + 0x1_0000_0000_0000_0000) as nat
    } else {
        v as nat
    }
}

/// Appends a field with a number, unless the number is zero.
pub fn put_u32_opt(out: &mut Vec<u8>, tag: u32, v: u32)
    requires
        is_tag(tag),
    ensures
        final(out)@ == old(out)@ + number_field_opt(tag, v as nat),
{
    if v != 0 {
        put_u32(out, tag, v);
    } else {
        assert(out@ =~= old(out)@ + Seq::<u8>::empty());
    }
}

/// Appends a field with a number, unless the number is zero.
pub fn put_u64_opt(out: &mut Vec<u8>, tag: u32, v: u64)
    requires
        is_tag(tag),
    ensures
        final(out)@ == old(out)@ + number_field_opt(tag, v as nat),
{
    if v != 0 {
        put_u64(out, tag, v);
    } else {
        assert(out@ =~= old(out)@ + Seq::<u8>::empty());
    }
}

/// Appends a field with bytes, unless there are none.
pub fn put_bytes_opt(out: &mut Vec<u8>, tag: u32, v: &Vec<u8>)
    requires
        is_tag(tag),
    ensures
        final(out)@ == old(out)@ + bytes_field_opt(tag, v@),
{
    if v.len() > 0 {
        put_bytes(out, tag, v);
    } else {
        assert(out@ =~= old(out)@ + Seq::<u8>::empty());
    }
}

/// Why bytes are not a message.
#[verifier::external_type_specification]
#[verifier::external_body]
pub struct ExDecodeError(prost::DecodeError);

/// `prost::encoding::uint32::encode`: appends a key and a number.
#[verifier::external_body]
pub(crate) fn put_u32(out: &mut Vec<u8>, tag: u32, v: u32)
    requires
        is_tag(tag),
    ensures
        final(out)@ == old(out)@ + number_field(tag, v as nat),
{
    prost::encoding::uint32::encode(tag, &v, out)
}

/// `prost::encoding::uint64::encode`: appends a key and a number.
#[verifier::external_body]
pub(crate) fn put_u64(out: &mut Vec<u8>, tag: u32, v: u64)
    requires
        is_tag(tag),
    ensures
        final(out)@ == old(out)@ + number_field(tag, v as nat),
{
    prost::encoding::uint64::encode(tag, &v, out)
}

/// `prost::encoding::int32::encode`: appends a key and a number, a negative
/// one as 64 bits of two's complement.
#[verifier::external_body]
pub(crate) fn put_i32(out: &mut Vec<u8>, tag: u32, v: i32)
    requires
        is_tag(tag),
    ensures
        final(out)@ == old(out)@ + number_field(tag, sign_extended(v)),
{
    prost::encoding::int32::encode(tag, &v, out)
}

/// `prost::encoding::bytes::encode`: appends a key, a length and bytes.
#[verifier::external_body]
pub(crate) fn put_bytes(out: &mut Vec<u8>, tag: u32, v: &Vec<u8>)
    requires
        is_tag(tag),
    ensures
        final(out)@ == old(out)@ + bytes_field(tag, v@),
{
    prost::encoding::bytes::encode(tag, v, out)
}

/// `prost::encoding::decode_key`: the tag and the wire type at the front of
/// `b`, and what follows them. A key has at most 32 bits, a known wire type,
/// and a tag other than zero.
#[verifier::external_body]
pub(crate) fn take_key(b: &[u8]) -> (r: Result<(u32, u8, &[u8]), prost::DecodeError>)
    ensures
        r is Ok == key_at(b@) is Some,
        r matches Ok(k) ==> (key_at(b@) matches Some((tag, wt, n)) && k.0 == tag && k.1 == wt
            && k.2@ == b@.skip(n as int)),
{
    let mut rest = b;
    let (tag, wire_type) = prost::encoding::decode_key(&mut rest)?;
    Ok((tag, wire_type as u8, rest))
}

/// `prost::encoding::uint32::merge`: the lower 32 bits of the number at the
/// front of `b`, and what follows it, if the wire type is that of a number.
#[verifier::external_body]
pub(crate) fn take_u32(wt: u8, b: &[u8]) -> (r: Result<(u32, &[u8]), prost::DecodeError>)
    requires
        wt <= 5,
    ensures
        r is Ok == (wt == VARINT && varint_at(b@) is Some),
        r matches Ok(f) ==> (varint_at(b@) matches Some((v, n)) && f.0 == low_u32(v) && f.1@
            == b@.skip(n as int)),
{
    let wire_type = prost::encoding::WireType::try_from(u64::from(wt))?;
    let (mut v, mut rest) = (0u32, b);
    prost::encoding::uint32::merge(wire_type, &mut v, &mut rest, DecodeContext::default())?;
    Ok((v, rest))
}

/// `prost::encoding::uint64::merge`: the number at the front of `b`, and what
/// follows it, if the wire type is that of a number.
#[verifier::external_body]
pub(crate) fn take_u64(wt: u8, b: &[u8]) -> (r: Result<(u64, &[u8]), prost::DecodeError>)
    requires
        wt <= 5,
    ensures
        r is Ok == (wt == VARINT && varint_at(b@) is Some),
        r matches Ok(f) ==> (varint_at(b@) matches Some((v, n)) && f.0 == v && f.1@ == b@.skip(
            n as int,
        )),
{
    let wire_type = prost::encoding::WireType::try_from(u64::from(wt))?;
    let (mut v, mut rest) = (0u64, b);
    prost::encoding::uint64::merge(wire_type, &mut v, &mut rest, DecodeContext::default())?;
    Ok((v, rest))
}

/// `prost::encoding::int32::merge`: the lower 32 bits, as two's complement,
/// of the number at the front of `b`, and what follows it, if the wire type
/// is that of a number.
#[verifier::external_body]
pub(crate) fn take_i32(wt: u8, b: &[u8]) -> (r: Result<(i32, &[u8]), prost::DecodeError>)
    requires
        wt <= 5,
    ensures
        r is Ok == (wt == VARINT && varint_at(b@) is Some),
        r matches Ok(f) ==> (varint_at(b@) matches Some((v, n)) && f.0 == low_i32(v) && f.1@
            == b@.skip(n as int)),
{
    let wire_type = prost::encoding::WireType::try_from(u64::from(wt))?;
    let (mut v, mut rest) = (0i32, b);
    prost::encoding::int32::merge(wire_type, &mut v, &mut rest, DecodeContext::default())?;
    Ok((v, rest))
}

/// `prost::encoding::bytes::merge`: the bytes behind the length at the front
/// of `b`, and what follows them, if the wire type is that of bytes.
#[verifier::external_body]
pub(crate) fn take_bytes(wt: u8, b: &[u8]) -> (r: Result<(Vec<u8>, &[u8]), prost::DecodeError>)
    requires
        wt <= 5,
    ensures
        r is Ok == (wt == LENGTH_DELIMITED && bytes_at(b@) is Some),
        r matches Ok(f) ==> (bytes_at(b@) matches Some((v, n)) && f.0@ == v && f.1@ == b@.skip(
            n as int,
        )),
{
    let wire_type = prost::encoding::WireType::try_from(u64::from(wt))?;
    let (mut v, mut rest) = (Vec::new(), b);
    prost::encoding::bytes::merge(wire_type, &mut v, &mut rest, DecodeContext::default())?;
    Ok((v, rest))
}

/// `prost::encoding::skip_field`: what follows a value that is no group. The
/// end of a group is not a value.
#[verifier::external_body]
fn skip_scalar(tag: u32, wt: u8, b: &[u8]) -> (r: Result<&[u8], prost::DecodeError>)
    requires
        wt <= 5,
        wt != START_GROUP,
    ensures
        r is Ok == scalar_len(wt, b@) is Some,
        r matches Ok(rest) ==> (scalar_len(wt, b@) matches Some(n) && rest@ == b@.skip(n as int)),
{
    let wire_type = prost::encoding::WireType::try_from(u64::from(wt))?;
    let mut rest = b;
    prost::encoding::skip_field(wire_type, tag, &mut rest, DecodeContext::default())?;
    Ok(rest)
}

/// `prost::DecodeError::new`: an error that says `text`.
#[verifier::external_body]
fn decode_error(text: &'static str) -> prost::DecodeError {
    prost::DecodeError::new(text)
}

/// What follows the value of a field that no message here has. A group is
/// walked through to its end.
pub(crate) fn skip_value(left: u32, tag: u32, wt: u8, b: &[u8]) -> (r: Result<
    &[u8],
    prost::DecodeError,
>)
    requires
        wt <= 5,
    ensures
        r is Ok == value_len(left, tag, wt, b@) is Some,
        r matches Ok(rest) ==> (value_len(left, tag, wt, b@) matches Some(n) && rest@ == b@.skip(
            n as int,
        )),
    decreases left,
{
    if left == 0 {
        return Err(decode_error("recursion limit reached"));
    }
    if wt != START_GROUP {
        return skip_scalar(tag, wt, b);
    }
    let mut rest = b;
    assert(b@.skip(0) =~= b@);
    loop
        invariant
            left > 0,
            rest@.len() <= b@.len(),
            rest@ == b@.skip(b@.len() - rest@.len()),
            group_len(left, tag, b@) == (match group_len(left, tag, rest@) {
                Some(k) => Some((b@.len() - rest@.len() + k) as nat),
                None => None,
            }),
            value_len(left, tag, wt, b@) == group_len(left, tag, b@),
        decreases rest@.len(),
    {
        let (t, w, value) = match take_key(rest) {
            Ok(k) => k,
            Err(e) => {
                return Err(e);
            },
        };
        proof {
            lemma_groups_len(rest@, 10);
        }
        if w == END_GROUP {
            if t == tag {
                assert(value@ =~= b@.skip(b@.len() - value@.len()));
                return Ok(value);
            }
            return skip_scalar(t, w, value);
        }
        match skip_value(left - 1, t, w, value) {
            Ok(after) => {
                proof {
                    lemma_value_len((left - 1) as u32, t, w, value@);
                    let n = rest@.len() - value@.len();
                    let m = value@.len() - after@.len();
                    assert(after@ =~= rest@.skip(n + m));
                    assert(after@ =~= b@.skip(b@.len() - after@.len()));
                }
                rest = after;
            },
            Err(e) => {
                return Err(e);
            },
        }
    }
}

} // verus!
