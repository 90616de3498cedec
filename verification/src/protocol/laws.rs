//! What stands in packets and nonces, byte by byte, and which packets a
//! receiver takes.

use vstd::prelude::*;

use super::aead;
use super::handshake;
use super::handshake::Cipher;
use super::header;
use super::header::{message_type, Header};
use super::transport;
use super::transport::ReplayWindow;
use super::wire;
use crate::bytes;

verus! {

/// Where the fields of a header stand in its bytes.
pub open spec fn is_laid_out(h: Header, b: Seq<u8>) -> bool {
    &&& b[0] == 16 * (h.version % 16) + h.type_ % 16
    &&& b[1] == h.subtype
    &&& h.remote_index == bytes::four_at(b, 4)
    &&& h.message_counter == 0x1_0000_0000 * bytes::four_at(b, 8) + bytes::four_at(b, 12)
}

/// A header is written as sixteen bytes: version and type share the first, the
/// subtype is next, then come two zeros, and then the index and the counter,
/// the most significant byte first.
pub proof fn header_is_laid_out(h: Header)
    ensures
        header::header_bytes(h).len() == 16,
        is_laid_out(h, header::header_bytes(h)),
        header::header_bytes(h)[2] == 0,
        header::header_bytes(h)[3] == 0,
{
    bytes::lemma_pow256_values();
    bytes::be_bytes_round_trips(h.remote_index as nat, 4);
    bytes::be_bytes_round_trips(h.message_counter as nat, 8);
    let b = header::header_bytes(h);
    let index = bytes::be_bytes(h.remote_index as nat, 4);
    let counter = bytes::be_bytes(h.message_counter as nat, 8);
    bytes::four_bytes_spell_a_number(index);
    bytes::eight_bytes_spell_a_number(counter);
    assert forall|i: int| 0 <= i < 4 implies b[4 + i] == index[i] by {}
    assert forall|i: int| 0 <= i < 8 implies b[8 + i] == counter[i] by {}
    assert(b[4] == index[0] && b[5] == index[1] && b[6] == index[2] && b[7] == index[3]);
    assert(b[8] == counter[0] && b[9] == counter[1] && b[10] == counter[2] && b[11] == counter[3]);
    assert(b[12] == counter[4] && b[13] == counter[5] && b[14] == counter[6] && b[15]
        == counter[7]);
}

/// No other sixteen bytes hold the fields of a header in these places and two
/// zeros between them.
pub proof fn layout_fixes_the_header(h: Header, b: Seq<u8>)
    requires
        b.len() == 16,
        is_laid_out(h, b),
        b[2] == 0,
        b[3] == 0,
    ensures
        b == header::header_bytes(h),
{
    let c = header::header_bytes(h);
    header_is_laid_out(h);
    let (x, y) = (bytes::four_at(b, 8), bytes::four_at(b, 12));
    let (v, w) = (bytes::four_at(c, 8), bytes::four_at(c, 12));
    assert(x == v && y == w) by {
        assert(0 <= y < 0x1_0000_0000 && 0 <= w < 0x1_0000_0000);
    }
    lemma_four_bytes_are_fixed(b, c, 4);
    lemma_four_bytes_are_fixed(b, c, 8);
    lemma_four_bytes_are_fixed(b, c, 12);
    assert(b =~= c);
}

proof fn lemma_four_bytes_are_fixed(a: Seq<u8>, b: Seq<u8>, at: int)
    requires
        bytes::four_at(a, at) == bytes::four_at(b, at),
    ensures
        a[at] == b[at],
        a[at + 1] == b[at + 1],
        a[at + 2] == b[at + 2],
        a[at + 3] == b[at + 3],
{
    let (x, y) = (0x100 * a[at] + a[at + 1], 0x100 * a[at + 2] + a[at + 3]);
    let (v, w) = (0x100 * b[at] + b[at + 1], 0x100 * b[at + 2] + b[at + 3]);
    assert(0x1_0000 * x + y == 0x1_0000 * v + w);
}

/// A header is read off the first sixteen bytes of a packet, wherever its
/// fields stand in them.
pub proof fn header_is_read_where_it_stands(b: Seq<u8>)
    requires
        b.len() >= 16,
    ensures
        is_laid_out(header::header_of(b), b),
        header::header_of(b).version < 16,
        header::header_of(b).type_ < 16,
{
    let (i, c) = (b.subrange(4, 8), b.subrange(8, 16));
    bytes::four_bytes_spell_a_number(i);
    bytes::eight_bytes_spell_a_number(c);
    assert(bytes::four_at(i, 0) == bytes::four_at(b, 4));
    assert(bytes::four_at(c, 0) == bytes::four_at(b, 8));
    assert(bytes::four_at(c, 4) == bytes::four_at(b, 12));
    bytes::lemma_be_value_bound(i);
    bytes::lemma_be_value_bound(c);
    bytes::lemma_pow256_values();
}

/// A nonce is four zeros and the packet's number in eight bytes, the most
/// significant first for AES-GCM and last for ChaChaPoly.
pub proof fn nonce_holds_the_number(counter: u64)
    ensures
        ({
            let n = aead::nonce_bytes(Cipher::AesGcm, counter);
            &&& n.len() == 12
            &&& n[0] == 0 && n[1] == 0 && n[2] == 0 && n[3] == 0
            &&& counter == 0x1_0000_0000 * bytes::four_at(n, 4) + bytes::four_at(n, 8)
        }),
        ({
            let n = aead::nonce_bytes(Cipher::ChaChaPoly, counter);
            &&& n.len() == 12
            &&& n[0] == 0 && n[1] == 0 && n[2] == 0 && n[3] == 0
            &&& counter == n[4] + 0x100 * n[5] + 0x1_0000 * n[6] + 0x100_0000 * n[7]
                + 0x1_0000_0000 * n[8] + 0x100_0000_0000 * n[9] + 0x1_0000_0000_0000 * n[10]
                + 0x100_0000_0000_0000 * n[11]
        }),
{
    bytes::lemma_pow256_values();
    bytes::be_bytes_round_trips(counter as nat, 8);
    let be = bytes::be_bytes(counter as nat, 8);
    bytes::eight_bytes_spell_a_number(be);
    let n = aead::nonce_bytes(Cipher::AesGcm, counter);
    assert(n[4] == be[0] && n[5] == be[1] && n[6] == be[2] && n[7] == be[3]);
    assert(n[8] == be[4] && n[9] == be[5] && n[10] == be[6] && n[11] == be[7]);
    let m = aead::nonce_bytes(Cipher::ChaChaPoly, counter);
    assert(m[4] == be[7] && m[5] == be[6] && m[6] == be[5] && m[7] == be[4]);
    assert(m[8] == be[3] && m[9] == be[2] && m[10] == be[1] && m[11] == be[0]);
}

/// Each cipher seals a message of any length it takes with the key, the nonce
/// of the packet's number and the associated data that it is given, and opens
/// with the same. Messages up to 2^36 bytes are taken by AES-GCM, and messages
/// short of 2^32 - 1 blocks by ChaChaPoly.
pub proof fn ciphers_seal_what_they_are_given(
    key: Seq<u8>,
    counter: u64,
    aad: Seq<u8>,
    text: Seq<u8>,
)
    ensures
        aead::seals_to(Cipher::AesGcm, key, counter, aad, text) == (if text.len() <= 0x10_0000_0000
            && aad.len() <= 0x10_0000_0000 {
            Some(aead::aes_gcm_seal(key, aead::nonce_bytes(Cipher::AesGcm, counter), aad, text))
        } else {
            None
        }),
        aead::seals_to(Cipher::ChaChaPoly, key, counter, aad, text) == (if text.len()
            < 64 * 0xffff_ffff {
            Some(aead::chacha_seal(key, aead::nonce_bytes(Cipher::ChaChaPoly, counter), aad, text))
        } else {
            None
        }),
        aead::opens_to(Cipher::AesGcm, key, counter, aad, text) == aead::aes_gcm_open(
            key,
            aead::nonce_bytes(Cipher::AesGcm, counter),
            aad,
            text,
        ),
        aead::opens_to(Cipher::ChaChaPoly, key, counter, aad, text) == aead::chacha_open(
            key,
            aead::nonce_bytes(Cipher::ChaChaPoly, counter),
            aad,
            text,
        ),
{
}

/// Whether a window knows which numbers have been accepted: the highest of
/// them, and each of those up to 1023 below it.
pub open spec fn knows(w: ReplayWindow, accepted: Set<u64>) -> bool {
    &&& forall|c: u64| #[trigger] accepted.contains(c) ==> c <= w.highest()
    &&& accepted.contains(w.highest()) || w.highest() == 0
    &&& forall|c: u64|
        c <= w.highest() && w.highest() - c <= 1023 ==> (#[trigger] w.has_seen(c)
            <==> accepted.contains(c))
}

/// A window that has seen nothing knows that nothing has been accepted.
pub proof fn new_window_knows_nothing(w: ReplayWindow)
    requires
        w.highest() == 0,
        forall|c: u64| !#[trigger] w.has_seen(c),
    ensures
        knows(w, Set::empty()),
{
}

/// A number is accepted if and only if it is higher than all before it, or not
/// more than 1023 below the highest and not accepted before. The window knows
/// of it from then on.
pub proof fn numbers_are_accepted_once(
    before: ReplayWindow,
    past: Set<u64>,
    counter: u64,
    after: ReplayWindow,
    accepted: bool,
)
    requires
        knows(before, past),
        transport::window_step(before, counter, after, accepted),
    ensures
        accepted <==> before.highest() < counter || (before.highest() - counter <= 1023
            && !past.contains(counter)),
        accepted ==> knows(after, past.insert(counter)),
        !accepted ==> knows(after, past),
        transport::accepts(before, counter) == accepted,
{
    assert(after.has_seen(counter) || !accepted);
    assert forall|c: u64|
        c <= after.highest() && after.highest() - c <= 1023 implies (#[trigger] after.has_seen(c)
        <==> (past.contains(c) || (accepted && c == counter))) by {
        transport::seen_numbers_are_in_the_window(before, c);
        if c <= before.highest() && before.highest() - c <= 1023 {
            assert(before.has_seen(c) <==> past.contains(c));
        }
        if !accepted && counter <= before.highest() && before.highest() - counter <= 1023 {
            assert(before.has_seen(counter) <==> past.contains(counter));
        }
    }
}

/// What a host says when it opens a handshake, and when it answers one: its
/// certificate, which is of version 2, the index it gave the tunnel, in the
/// answer also the other host's index, and the time.
pub proof fn hosts_say_who_they_are(cert: Seq<u8>, initiator_index: u32, responder_index: u32, time: u64)
    ensures
        handshake::opening(cert, initiator_index, time).details == Some(
            wire::handshake::HandshakeDetailsView {
                cert,
                initiator_index,
                responder_index: 0,
                cookie: 0,
                time,
                cert_version: 2,
            },
        ),
        handshake::opening(cert, initiator_index, time).hmac.len() == 0,
        handshake::answer(cert, initiator_index, responder_index, time).details == Some(
            wire::handshake::HandshakeDetailsView {
                cert,
                initiator_index,
                responder_index,
                cookie: 0,
                time,
                cert_version: 2,
            },
        ),
        handshake::answer(cert, initiator_index, responder_index, time).hmac.len() == 0,
        handshake::noise_name(Cipher::AesGcm) == "Noise_IX_25519_AESGCM_SHA256"@,
        handshake::noise_name(Cipher::ChaChaPoly) == "Noise_IX_25519_ChaChaPoly_SHA256"@,
{
}

/// The side that opened a handshake sends with its first key and receives with
/// its second; the other side does it the other way round.
pub proof fn opener_sends_with_the_first_key(first: Seq<u8>, second: Seq<u8>)
    ensures
        handshake::assigned(true, (first, second)) == (first, second),
        handshake::assigned(false, (first, second)) == (second, first),
{
}

/// What an answer comes to: it is in order if it can be read, tells the other
/// side's public key and holds details, and then gives those and the keys.
pub proof fn answer_gives_details_and_keys(
    hs: snow::HandshakeState,
    message: Seq<u8>,
    payload: Seq<u8>,
    after: snow::HandshakeState,
    details: wire::handshake::HandshakeDetailsView,
    hmac: Seq<u8>,
    public_key: Seq<u8>,
)
    requires
        handshake::noise_read(hs, message) == Ok::<
            (Seq<u8>, snow::HandshakeState),
            Seq<char>,
        >((payload, after)),
        wire::handshake::handshake_of(payload) == Some(
            wire::handshake::HandshakeView { details: Some(details), hmac },
        ),
        handshake::noise_remote_static(after) == Some(public_key),
    ensures
        handshake::finished(hs, message) == Some(
            (
                details,
                public_key,
                if handshake::noise_initiates(after) {
                    (handshake::noise_split(after).0, handshake::noise_split(after).1)
                } else {
                    (handshake::noise_split(after).1, handshake::noise_split(after).0)
                },
            ),
        ),
{
}

/// Each purpose of a packet has its number.
pub proof fn packet_types_have_numbers()
    ensures
        message_type::HANDSHAKE == 0,
        message_type::MESSAGE == 1,
        message_type::RECV_ERROR == 2,
        message_type::LIGHTHOUSE == 3,
        message_type::TEST == 4,
        message_type::CLOSE_TUNNEL == 5,
        message_type::CONTROL == 6,
{
}

} // verus!
