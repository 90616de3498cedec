//! The handshake: two messages of the Noise pattern IX, each of which
//! carries a certificate, and the keys that come of them.

use vstd::prelude::*;

use super::error::Error;
use super::wire;
use super::wire::{NebulaHandshake, NebulaHandshakeDetails};
use crate::time;
use crate::time::{unix_time, Duration};

verus! {

/// The cipher of a session.
#[derive(Debug, Clone, Copy, PartialEq, Eq, Structural)]
pub enum Cipher {
    AesGcm,
    ChaChaPoly,
}

/// The longest message that Noise has.
pub const MAX_MESSAGE_LEN: usize = 65535;

/// How long the two public keys are that stand before the payload of the
/// first message.
pub const KEYS_LEN: usize = 64;

/// How long the longest payload of a first message is: it is written to a
/// buffer that must also have room for a tag.
pub const MAX_FIRST_PAYLOAD: usize = 65455;

/// How much longer an answer is than its payload: it holds a public key, and
/// another one and the payload with a tag each.
pub const ANSWER_OVERHEAD: usize = 96;

/// How long the longest payload of an answer is.
pub const MAX_ANSWER_PAYLOAD: usize = 65439;

/// What Noise calls the handshake.
pub open spec fn noise_name(cipher: Cipher) -> Seq<char> {
    match cipher {
        Cipher::AesGcm => "Noise_IX_25519_AESGCM_SHA256"@,
        Cipher::ChaChaPoly => "Noise_IX_25519_ChaChaPoly_SHA256"@,
    }
}

impl Cipher {
    fn noise_params(self) -> (r: &'static str)
        ensures
            r@ == noise_name(self),
    {
        match self {
            Cipher::AesGcm => "Noise_IX_25519_AESGCM_SHA256",
            Cipher::ChaChaPoly => "Noise_IX_25519_ChaChaPoly_SHA256",
        }
    }
}

#[verifier::external_type_specification]
#[verifier::external_body]
pub struct ExHandshakeState(snow::HandshakeState);

/// The state that a handshake starts from on the side that opens it.
pub uninterp spec fn noise_initiator(params: Seq<char>, key: Seq<u8>) -> snow::HandshakeState;

/// The state that a handshake starts from on the side that answers.
pub uninterp spec fn noise_responder(params: Seq<char>, key: Seq<u8>) -> snow::HandshakeState;

/// Whether a state can write a payload as a message and be left as another
/// state. Which message it is depends on chance.
pub uninterp spec fn noise_written(
    before: snow::HandshakeState,
    payload: Seq<u8>,
    message: Seq<u8>,
    after: snow::HandshakeState,
) -> bool;

/// The payload of a message and the state that reading it leaves, or what is
/// said where it cannot be read.
pub uninterp spec fn noise_read(before: snow::HandshakeState, message: Seq<u8>) -> Result<
    (Seq<u8>, snow::HandshakeState),
    Seq<char>,
>;

/// The public key of the other side, once it is known.
pub uninterp spec fn noise_remote_static(hs: snow::HandshakeState) -> Option<Seq<u8>>;

/// The two keys that a handshake comes to.
pub uninterp spec fn noise_split(hs: snow::HandshakeState) -> (Seq<u8>, Seq<u8>);

/// Whether a state is that of the side that opened the handshake.
pub uninterp spec fn noise_initiates(hs: snow::HandshakeState) -> bool;

/// The public key that belongs to a private one.
pub uninterp spec fn noise_public_key(key: Seq<u8>) -> Seq<u8>;

/// Whether a string names one of the handshakes in use.
pub open spec fn is_noise_name(params: Seq<char>) -> bool {
    params == noise_name(Cipher::AesGcm) || params == noise_name(Cipher::ChaChaPoly)
}

/// `snow::Builder::build_initiator`: the state of the side that opens a
/// handshake, which does not know the other side's key. It succeeds for both
/// names, whose algorithms are all built in.
#[verifier::external_body]
fn build_initiator(params: &str, key: &[u8; 32]) -> (r: Result<snow::HandshakeState, String>)
    requires
        is_noise_name(params@),
    ensures
        match r {
            Ok(hs) => {
                &&& hs == noise_initiator(params@, key@)
                &&& noise_initiates(hs)
                &&& noise_remote_static(hs) is None
            },
            Err(_) => false,
        },
{
    match params.parse().map(snow::Builder::new).and_then(|b| b.local_private_key(key)) {
        Ok(b) => b.build_initiator().map_err(|e| e.to_string()),
        Err(e) => Err(e.to_string()),
    }
}

/// `snow::Builder::build_responder`: the state of the side that answers a
/// handshake. It succeeds for both names, as for the other side.
#[verifier::external_body]
fn build_responder(params: &str, key: &[u8; 32]) -> (r: Result<snow::HandshakeState, String>)
    requires
        is_noise_name(params@),
    ensures
        match r {
            Ok(hs) => {
                &&& hs == noise_responder(params@, key@)
                &&& !noise_initiates(hs)
                &&& noise_remote_static(hs) is None
            },
            Err(_) => false,
        },
{
    match params.parse().map(snow::Builder::new).and_then(|b| b.local_private_key(key)) {
        Ok(b) => b.build_responder().map_err(|e| e.to_string()),
        Err(e) => Err(e.to_string()),
    }
}

/// Whether a message is a first one with a payload: two keys, and the payload
/// in the clear.
pub open spec fn is_first_message(payload: Seq<u8>, message: Seq<u8>) -> bool {
    &&& message.len() == KEYS_LEN + payload.len()
    &&& message.skip(64) == payload
}

/// Whether a state is that of a side that has read a first message.
pub open spec fn has_read_first(
    cipher: Cipher,
    key: Seq<u8>,
    message: Seq<u8>,
    hs: snow::HandshakeState,
) -> bool {
    &&& key.len() == 32
    &&& noise_read(noise_responder(noise_name(cipher), key), message) matches Ok((_, read))
        && read == hs
}

/// Whether `opener` wrote a first message that `answerer` has read.
pub open spec fn is_opened(
    cipher: Cipher,
    opener_key: Seq<u8>,
    answerer_key: Seq<u8>,
    payload: Seq<u8>,
    message: Seq<u8>,
    opener: snow::HandshakeState,
    answerer: snow::HandshakeState,
) -> bool {
    &&& opener_key.len() == 32
    &&& answerer_key.len() == 32
    &&& noise_written(
        noise_initiator(noise_name(cipher), opener_key),
        payload,
        message,
        opener,
    )
    &&& noise_read(noise_responder(noise_name(cipher), answerer_key), message) matches Ok((_, read))
        && read == answerer
}

/// Whether `opener` can read an answer: it gets the payload, the answerer's
/// public key, and the keys that the answerer has in `after`.
pub open spec fn is_answered(
    opener: snow::HandshakeState,
    answerer_key: Seq<u8>,
    payload: Seq<u8>,
    message: Seq<u8>,
    after: snow::HandshakeState,
) -> bool {
    match noise_read(opener, message) {
        Ok((read, finished)) => {
            &&& read == payload
            &&& noise_initiates(finished)
            &&& noise_remote_static(finished) == Some(noise_public_key(answerer_key))
            &&& noise_split(finished) == noise_split(after)
        },
        Err(_) => false,
    }
}

/// `snow::HandshakeState::write_message`: writes the next message to the front
/// of `message` and returns its length, unless the random source fails or
/// there is no room. The role and what is known of the other side stay. A
/// first message has its payload in the clear, and is refused where no tag
/// would fit behind it. An answer to a first message holds a public key, and
/// another one and the payload with a tag each; it is refused where it would
/// not fit, and can be read by the side that wrote the first message.
#[verifier::external_body]
fn write_message(hs: &mut snow::HandshakeState, payload: &[u8], message: &mut Vec<u8>) -> (r:
    Result<usize, String>)
    requires
        old(message)@.len() == MAX_MESSAGE_LEN,
    ensures
        final(message)@.len() == old(message)@.len(),
        noise_initiates(*final(hs)) == noise_initiates(*old(hs)),
        noise_remote_static(*final(hs)) == noise_remote_static(*old(hs)),
        r matches Ok(len) ==> len <= MAX_MESSAGE_LEN && noise_written(
            *old(hs),
            payload@,
            final(message)@.take(len as int),
            *final(hs),
        ),
        r matches Ok(len) ==> forall|c: Cipher, key: Seq<u8>|
            key.len() == 32 && *old(hs) == #[trigger] noise_initiator(noise_name(c), key) ==> is_first_message(
                payload@,
                final(message)@.take(len as int),
            ),
        r matches Ok(len) ==> forall|c: Cipher, key: Seq<u8>|
            key.len() == 32 && *old(hs) == #[trigger] noise_initiator(noise_name(c), key) ==> final(message)@.subrange(
                32,
                64,
            ) == noise_public_key(key),
        forall|c: Cipher, key: Seq<u8>|
            key.len() == 32 && *old(hs) == #[trigger] noise_initiator(noise_name(c), key) && payload@.len()
                > MAX_FIRST_PAYLOAD ==> r is Err,
        r matches Ok(len) ==> forall|c: Cipher, key: Seq<u8>, m: Seq<u8>| #[trigger]
            has_read_first(c, key, m, *old(hs)) ==> len == ANSWER_OVERHEAD + payload@.len(),
        forall|c: Cipher, key: Seq<u8>, m: Seq<u8>| #[trigger]
            has_read_first(c, key, m, *old(hs)) && payload@.len() > MAX_ANSWER_PAYLOAD ==> r is Err,
        r matches Ok(len) ==> forall|
            c: Cipher,
            opener_key: Seq<u8>,
            answerer_key: Seq<u8>,
            first: Seq<u8>,
            m: Seq<u8>,
            opener: snow::HandshakeState,
        | #[trigger]
            is_opened(c, opener_key, answerer_key, first, m, opener, *old(hs)) ==> is_answered(
                opener,
                answerer_key,
                payload@,
                final(message)@.take(len as int),
                *final(hs),
            ),
{
    hs.write_message(payload, message.as_mut_slice()).map_err(|e| e.to_string())
}

/// Whether writing a payload came to an error.
pub closed spec fn write_fails(
    before: snow::HandshakeState,
    payload: Seq<u8>,
    error: Seq<char>,
) -> bool {
    exists|hs: &mut snow::HandshakeState, p: &[u8], message: &mut Vec<u8>, e: String|
        #[trigger] call_ensures(write_message, (hs, p, message), Err(e)) && *hs == before && p@
            == payload && e@ == error
}

/// The next message, with a payload.
fn next_message(hs: &mut snow::HandshakeState, payload: &[u8]) -> (r: Result<Vec<u8>, String>)
    ensures
        noise_initiates(*final(hs)) == noise_initiates(*old(hs)),
        noise_remote_static(*final(hs)) == noise_remote_static(*old(hs)),
        match r {
            Ok(m) => {
                &&& m@.len() <= MAX_MESSAGE_LEN
                &&& noise_written(*old(hs), payload@, m@, *final(hs))
                &&& forall|c: Cipher, key: Seq<u8>|
                    key.len() == 32 && *old(hs) == #[trigger] noise_initiator(noise_name(c), key)
                        ==> is_first_message(payload@, m@) && m@.subrange(32, 64)
                        == noise_public_key(key) && payload@.len() <= MAX_FIRST_PAYLOAD
                &&& forall|c: Cipher, key: Seq<u8>, first: Seq<u8>| #[trigger]
                    has_read_first(c, key, first, *old(hs)) ==> m@.len() == ANSWER_OVERHEAD
                        + payload@.len() && payload@.len() <= MAX_ANSWER_PAYLOAD
                &&& forall|
                    c: Cipher,
                    opener_key: Seq<u8>,
                    answerer_key: Seq<u8>,
                    first: Seq<u8>,
                    f: Seq<u8>,
                    opener: snow::HandshakeState,
                | #[trigger]
                    is_opened(c, opener_key, answerer_key, first, f, opener, *old(hs))
                        ==> is_answered(opener, answerer_key, payload@, m@, *final(hs))
            },
            Err(e) => write_fails(*old(hs), payload@, e@),
        },
{
    let mut message: Vec<u8> = vec![0u8; MAX_MESSAGE_LEN];
    match write_message(hs, payload, &mut message) {
        Ok(len) => {
            let ghost whole = message@;
            message.truncate(len);
            proof {
                assert(message@ =~= whole.take(len as int));
                assert forall|c: Cipher, key: Seq<u8>|
                    key.len() == 32 && *old(hs) == #[trigger] noise_initiator(
                        noise_name(c),
                        key,
                    ) implies message@.subrange(32, 64) == noise_public_key(key) by {
                    assert(is_first_message(payload@, message@));
                    assert(message@.subrange(32, 64) =~= whole.subrange(32, 64));
                }
            }
            Ok(message)
        },
        Err(e) => Err(e),
    }
}

/// `snow::HandshakeState::read_message`: writes the payload of a message to
/// the front of `payload` and returns its length. The role stays. A first
/// message is read if it holds two keys and is not too long: the payload is
/// what comes after the keys, and the second key is that of the other side.
#[verifier::external_body]
fn read_message(hs: &mut snow::HandshakeState, message: &[u8], payload: &mut Vec<u8>) -> (r: Result<
    usize,
    String,
>)
    requires
        old(payload)@.len() == MAX_MESSAGE_LEN,
    ensures
        final(payload)@.len() == old(payload)@.len(),
        noise_initiates(*final(hs)) == noise_initiates(*old(hs)),
        match noise_read(*old(hs), message@) {
            Ok((read, after)) => {
                &&& r matches Ok(len)
                &&& len <= MAX_MESSAGE_LEN
                &&& final(payload)@.take(len as int) == read
                &&& *final(hs) == after
            },
            Err(msg) => r matches Err(e) && e@ == msg,
        },
        forall|c: Cipher, key: Seq<u8>|
            key.len() == 32 && *old(hs) == #[trigger] noise_responder(noise_name(c), key) ==> {
                &&& r is Ok == (KEYS_LEN <= message@.len() <= MAX_MESSAGE_LEN)
                &&& r matches Ok(len) ==> final(payload)@.take(len as int) == message@.skip(64)
                    && noise_remote_static(*final(hs)) == Some(message@.subrange(32, 64))
            },
{
    hs.read_message(message, payload.as_mut_slice()).map_err(|e| e.to_string())
}

/// `snow::HandshakeState::get_remote_static`: the public key of the other
/// side, once it is known.
#[verifier::external_body]
fn get_remote_static(hs: &snow::HandshakeState) -> (r: Option<Vec<u8>>)
    ensures
        match noise_remote_static(*hs) {
            Some(k) => r matches Some(v) && v@ == k,
            None => r is None,
        },
{
    hs.get_remote_static().map(|k| k.to_vec())
}

/// `snow::HandshakeState::dangerously_get_raw_split`: the two keys that the
/// handshake comes to. The role stays.
#[verifier::external_body]
fn raw_split(hs: &mut snow::HandshakeState) -> (r: ([u8; 32], [u8; 32]))
    ensures
        (r.0@, r.1@) == noise_split(*old(hs)),
        noise_initiates(*final(hs)) == noise_initiates(*old(hs)),
{
    hs.dangerously_get_raw_split()
}

/// `snow::HandshakeState::is_initiator`: whether this side opened the
/// handshake.
#[verifier::external_body]
fn is_initiator(hs: &snow::HandshakeState) -> (r: bool)
    ensures
        r == noise_initiates(*hs),
{
    hs.is_initiator()
}

/// The keys of a session, taken off a finished handshake, and the public key
/// of the other side. Sealing packets with them is left to the transport,
/// which authenticates a packet's header along with it.
#[derive(Debug)]
pub struct SplitKeys {
    pub remote_static: Vec<u8>,
    pub send_key: [u8; 32],
    pub recv_key: [u8; 32],
}

/// Which of the two keys of a handshake a side sends with and which it
/// receives with: the side that opened it sends with the first.
pub open spec fn assigned(initiator: bool, keys: (Seq<u8>, Seq<u8>)) -> (Seq<u8>, Seq<u8>) {
    if initiator {
        keys
    } else {
        (keys.1, keys.0)
    }
}

/// Each side receives with the key that the other side sends with.
pub proof fn sides_have_mirrored_keys(keys: (Seq<u8>, Seq<u8>))
    ensures
        assigned(true, keys).0 == assigned(false, keys).1,
        assigned(true, keys).1 == assigned(false, keys).0,
{
}

/// The keys for a side, given the two of the handshake.
pub fn assign_keys(initiator: bool, keys: ([u8; 32], [u8; 32])) -> (r: ([u8; 32], [u8; 32]))
    ensures
        (r.0@, r.1@) == assigned(initiator, (keys.0@, keys.1@)),
{
    if initiator {
        keys
    } else {
        (keys.1, keys.0)
    }
}

impl SplitKeys {
    /// Whether these are the keys of a side whose handshake is in a state
    /// where it knows the other side.
    pub open spec fn are_of(self, hs: snow::HandshakeState) -> bool {
        &&& noise_remote_static(hs) == Some(self.remote_static@)
        &&& (self.send_key@, self.recv_key@) == assigned(noise_initiates(hs), noise_split(hs))
    }
}

/// The keys of a side, if the handshake told it the other side's public key.
fn split_keys(hs: &mut snow::HandshakeState) -> (r: Result<SplitKeys, Error>)
    ensures
        match r {
            Ok(keys) => keys.are_of(*old(hs)),
            Err(e) => noise_remote_static(*old(hs)) is None && (e matches Error::HandshakeFailed(
                s,
            ) && s@ == "handshake completed with no remote static key"@),
        },
{
    let remote_static = match get_remote_static(hs) {
        Some(k) => k,
        None => {
            return Err(
                Error::HandshakeFailed("handshake completed with no remote static key".to_string()),
            );
        },
    };
    let split = raw_split(hs);
    let (send_key, recv_key) = assign_keys(is_initiator(hs), split);
    Ok(SplitKeys { remote_static, send_key, recv_key })
}

/// What the side that opens a handshake says.
pub open spec fn opening(cert: Seq<u8>, initiator_index: u32, time: u64) -> wire::handshake::HandshakeView {
    wire::handshake::HandshakeView {
        details: Some(
            wire::handshake::HandshakeDetailsView {
                cert,
                initiator_index,
                responder_index: 0,
                cookie: 0,
                time,
                cert_version: 2,
            },
        ),
        hmac: Seq::empty(),
    }
}

/// What the side that answers says: it repeats the other side's index.
pub open spec fn answer(
    cert: Seq<u8>,
    initiator_index: u32,
    responder_index: u32,
    time: u64,
) -> wire::handshake::HandshakeView {
    wire::handshake::HandshakeView {
        details: Some(
            wire::handshake::HandshakeDetailsView {
                cert,
                initiator_index,
                responder_index,
                cookie: 0,
                time,
                cert_version: 2,
            },
        ),
        hmac: Seq::empty(),
    }
}

/// The payload of the message that opens a handshake.
pub fn opening_payload(cert: Vec<u8>, initiator_index: u32, time: u64) -> (r: Vec<u8>)
    ensures
        r@ == wire::handshake::handshake_bytes(opening(cert@, initiator_index, time)),
{
    let payload = NebulaHandshake {
        details: Some(
            NebulaHandshakeDetails {
                cert,
                initiator_index,
                responder_index: 0,
                cookie: 0,
                time,
                cert_version: 2,
            },
        ),
        hmac: Vec::new(),
    };
    assert(payload@ =~= opening(cert@, initiator_index, time));
    payload.encode_to_vec()
}

/// The payload of the message that answers.
pub fn answer_payload(
    cert: Vec<u8>,
    initiator_index: u32,
    responder_index: u32,
    time: u64,
) -> (r: Vec<u8>)
    ensures
        r@ == wire::handshake::handshake_bytes(
            answer(cert@, initiator_index, responder_index, time),
        ),
{
    let payload = NebulaHandshake {
        details: Some(
            NebulaHandshakeDetails {
                cert,
                initiator_index,
                responder_index,
                cookie: 0,
                time,
                cert_version: 2,
            },
        ),
        hmac: Vec::new(),
    };
    assert(payload@ =~= answer(cert@, initiator_index, responder_index, time));
    payload.encode_to_vec()
}

/// The details that a payload holds. `missing` is what is said where there
/// are none.
pub fn payload_details(payload: &[u8], missing: &str) -> (r: Result<NebulaHandshakeDetails, Error>)
    ensures
        match wire::handshake::handshake_of(payload@) {
            None => r matches Err(Error::ProtobufDecode(_)),
            Some(h) => match h.details {
                Some(d) => r matches Ok(v) && v@ == d,
                None => r matches Err(Error::HandshakeFailed(s)) && s@ == missing@,
            },
        },
{
    match NebulaHandshake::decode(payload) {
        Ok(h) => match h.details {
            Some(d) => Ok(d),
            None => Err(Error::HandshakeFailed(missing.to_string())),
        },
        Err(e) => Err(Error::ProtobufDecode(e)),
    }
}

/// A span in nanoseconds, of which the lower 64 bits are kept.
pub fn low_nanos(span: Duration) -> (r: u64)
    ensures
        r == span.total() % 0x1_0000_0000_0000_0000,
{
    (span.as_nanos() % 0x1_0000_0000_0000_0000) as u64
}

/// Whether a number is one that the machine's clock can show: the time since
/// the start of 1970 in nanoseconds, of which the lower 64 bits are kept.
pub open spec fn is_clock_reading(nanos: u64) -> bool {
    exists|t: std::time::SystemTime|
        time::machine_shows(t) && nanos == time::counted_time(
            #[trigger] time::after_epoch(t),
        ).total() % 0x1_0000_0000_0000_0000
}

/// The time since the start of 1970 in nanoseconds, of which the lower 64
/// bits are kept. It is whatever the machine says.
fn unix_nanos_now() -> (r: u64)
    ensures
        is_clock_reading(r),
{
    low_nanos(unix_time())
}

/// Whether a handshake was opened with a message that says when: it holds the
/// public key of this side and, in the clear, what this side says.
pub open spec fn opens(
    cipher: Cipher,
    key: Seq<u8>,
    cert: Seq<u8>,
    initiator_index: u32,
    time: u64,
    hs: snow::HandshakeState,
    message: Seq<u8>,
) -> bool {
    let said = opening(cert, initiator_index, time);
    &&& is_clock_reading(time)
    &&& key.len() == 32
    &&& noise_written(
        noise_initiator(noise_name(cipher), key),
        wire::handshake::handshake_bytes(said),
        message,
        hs,
    )
    &&& message.len() <= MAX_MESSAGE_LEN
    &&& message.subrange(32, 64) == noise_public_key(key)
    &&& is_first_message(wire::handshake::handshake_bytes(said), message)
    &&& wire::handshake::handshake_of(message.skip(64)) == Some(said)
}

/// Whether writing the message that opens a handshake came to an error.
pub open spec fn opening_fails(
    cipher: Cipher,
    key: Seq<u8>,
    cert: Seq<u8>,
    initiator_index: u32,
    error: Seq<char>,
) -> bool {
    exists|time: u64|
        is_clock_reading(time) && #[trigger] write_fails(
            noise_initiator(noise_name(cipher), key),
            wire::handshake::handshake_bytes(opening(cert, initiator_index, time)),
            error,
        )
}

/// Whether writing the answer to a first message came to an error.
pub open spec fn answer_fails(
    cipher: Cipher,
    key: Seq<u8>,
    cert: Seq<u8>,
    initiator_index: u32,
    responder_index: u32,
    first: Seq<u8>,
) -> bool {
    exists|hs: snow::HandshakeState, time: u64, error: Seq<char>|
        has_read_first(cipher, key, first, hs) && is_clock_reading(time)
            && #[trigger] write_fails(
            hs,
            wire::handshake::handshake_bytes(
                answer(cert, initiator_index, responder_index, time),
            ),
            error,
        )
}

/// Opens a handshake: returns the message to send, and the state that
/// [`finish_initiator`] takes up when the answer comes. The message holds
/// this side's public key and, in the clear, its certificate and the index
/// it wants the other side to use. The random source decides whether there
/// is a message at all, unless the certificate is too long.
pub fn stage0(
    cipher: Cipher,
    local_private_key: &[u8; 32],
    my_cert_handshake_bytes: Vec<u8>,
    initiator_index: u32,
) -> (r: Result<(snow::HandshakeState, Vec<u8>), Error>)
    ensures
        r matches Ok(opened) ==> exists|time: u64|
            opens(
                cipher,
                local_private_key@,
                my_cert_handshake_bytes@,
                initiator_index,
                time,
                opened.0,
                opened.1@,
            ),
        r matches Err(e) ==> (e matches Error::Noise(s) && opening_fails(
            cipher,
            local_private_key@,
            my_cert_handshake_bytes@,
            initiator_index,
            s@,
        )),
        my_cert_handshake_bytes@.len() > MAX_FIRST_PAYLOAD ==> r is Err,
{
    let mut hs = match build_initiator(cipher.noise_params(), local_private_key) {
        Ok(hs) => hs,
        Err(e) => {
            return Err(Error::Noise(e));
        },
    };
    let ghost cert = my_cert_handshake_bytes@;
    let time: u64 = unix_nanos_now();
    let payload = opening_payload(my_cert_handshake_bytes, initiator_index, time);
    let ghost start = hs;
    let message = match next_message(&mut hs, payload.as_slice()) {
        Ok(m) => m,
        Err(e) => {
            assert(opening_fails(cipher, local_private_key@, cert, initiator_index, e@));
            return Err(Error::Noise(e));
        },
    };
    proof {
        let said = opening(cert, initiator_index, time);
        assert(start == noise_initiator(noise_name(cipher), local_private_key@));
        assert(payload.len() == wire::handshake::handshake_bytes(said).len());
        wire::handshake::handshake_round_trips(said);
    }
    let opened: Result<(snow::HandshakeState, Vec<u8>), Error> = Ok((hs, message));
    assert(opened matches Ok(o) && opens(
        cipher,
        local_private_key@,
        cert,
        initiator_index,
        time,
        o.0,
        o.1@,
    ));
    opened
}

/// The details, the other side's public key and the keys to send and to
/// receive with that an answer gives, if it is in order.
pub open spec fn finished(hs: snow::HandshakeState, message: Seq<u8>) -> Option<
    (wire::handshake::HandshakeDetailsView, Seq<u8>, (Seq<u8>, Seq<u8>)),
> {
    match noise_read(hs, message) {
        Ok((payload, after)) => match (
            wire::handshake::handshake_of(payload),
            noise_remote_static(after),
        ) {
            (Some(h), Some(key)) => match h.details {
                Some(d) => Some((d, key, assigned(noise_initiates(after), noise_split(after)))),
                None => None,
            },
            _ => None,
        },
        Err(_) => None,
    }
}

/// Whether an answer lets every side that opened the handshake with `first`
/// finish it: that side reads what this side said, gets this side's public
/// key, and has the same two keys, the other way round.
pub open spec fn is_finished_by(
    cipher: Cipher,
    first: Seq<u8>,
    key: Seq<u8>,
    said: wire::handshake::HandshakeView,
    message: Seq<u8>,
    keys: SplitKeys,
) -> bool {
    forall|opener_key: Seq<u8>, payload: Seq<u8>, opener: snow::HandshakeState|
        #[trigger] noise_written(
            noise_initiator(noise_name(cipher), opener_key),
            payload,
            first,
            opener,
        ) && opener_key.len() == 32 ==> {
            &&& finished(opener, message) matches Some((d, public_key, (send, recv)))
            &&& said.details == Some(d)
            &&& public_key == noise_public_key(key)
            &&& send == keys.recv_key@
            &&& recv == keys.send_key@
        }
}

/// Answers a handshake: reads what the other side said, and returns it with
/// the message to send back and the keys, since this side is done when it has
/// answered. `responder_index` is the index that the other side is to use.
/// Whatever has no room for two keys, or is longer than a message can be, is
/// refused. The random source decides whether there is an answer, unless the
/// certificate is too long.
pub fn respond(
    cipher: Cipher,
    local_private_key: &[u8; 32],
    my_cert_handshake_bytes: Vec<u8>,
    responder_index: u32,
    stage0_noise_payload: &[u8],
) -> (r: Result<(NebulaHandshakeDetails, Vec<u8>, SplitKeys), Error>)
    ensures
        if !(KEYS_LEN <= stage0_noise_payload@.len() <= MAX_MESSAGE_LEN) {
            r matches Err(Error::Noise(_))
        } else {
            match wire::handshake::handshake_of(stage0_noise_payload@.skip(64)) {
                None => r matches Err(Error::ProtobufDecode(_)),
                Some(h) => match h.details {
                    None => r matches Err(Error::HandshakeFailed(s)) && s@
                        == "stage 0 message had no details"@,
                    Some(d) => match r {
                        Ok((details, message, keys)) => {
                            &&& details@ == d
                            &&& message@.len() <= MAX_MESSAGE_LEN
                            &&& keys.remote_static@ == stage0_noise_payload@.subrange(32, 64)
                            &&& exists|time: u64| #[trigger]
                                is_finished_by(
                                    cipher,
                                    stage0_noise_payload@,
                                    local_private_key@,
                                    answer(
                                        my_cert_handshake_bytes@,
                                        d.initiator_index,
                                        responder_index,
                                        time,
                                    ),
                                    message@,
                                    keys,
                                ) && is_clock_reading(time) && message@.len() == ANSWER_OVERHEAD
                                    + wire::handshake::handshake_bytes(
                                    answer(
                                        my_cert_handshake_bytes@,
                                        d.initiator_index,
                                        responder_index,
                                        time,
                                    ),
                                ).len()
                        },
                        Err(e) => e is Noise && answer_fails(
                            cipher,
                            local_private_key@,
                            my_cert_handshake_bytes@,
                            d.initiator_index,
                            responder_index,
                            stage0_noise_payload@,
                        ),
                    },
                },
            }
        },
        my_cert_handshake_bytes@.len() > MAX_ANSWER_PAYLOAD ==> r is Err,
{
    let mut hs = match build_responder(cipher.noise_params(), local_private_key) {
        Ok(hs) => hs,
        Err(e) => {
            return Err(Error::Noise(e));
        },
    };
    let ghost cert = my_cert_handshake_bytes@;
    let ghost start = hs;
    let mut payload: Vec<u8> = vec![0u8; MAX_MESSAGE_LEN];
    let len: usize = match read_message(&mut hs, stage0_noise_payload, &mut payload) {
        Ok(len) => len,
        Err(e) => {
            return Err(Error::Noise(e));
        },
    };
    let ghost whole = payload@;
    payload.truncate(len);
    let ghost answerer = hs;
    assert(payload@ =~= whole.take(len as int));
    assert(start == noise_responder(noise_name(cipher), local_private_key@));
    assert(payload@ == stage0_noise_payload@.skip(64));
    assert(noise_read(start, stage0_noise_payload@) == Ok::<
        (Seq<u8>, snow::HandshakeState),
        Seq<char>,
    >((payload@, answerer)));
    let their_details = match payload_details(payload.as_slice(), "stage 0 message had no details") {
        Ok(d) => d,
        Err(e) => {
            return Err(e);
        },
    };
    let time: u64 = unix_nanos_now();
    let reply = answer_payload(
        my_cert_handshake_bytes,
        their_details.initiator_index,
        responder_index,
        time,
    );
    assert(has_read_first(cipher, local_private_key@, stage0_noise_payload@, answerer));
    let message = match next_message(&mut hs, reply.as_slice()) {
        Ok(m) => m,
        Err(e) => {
            assert(answer_fails(
                cipher,
                local_private_key@,
                cert,
                their_details.initiator_index,
                responder_index,
                stage0_noise_payload@,
            ));
            return Err(Error::Noise(e));
        },
    };
    let keys = match split_keys(&mut hs) {
        Ok(k) => k,
        Err(e) => {
            return Err(e);
        },
    };
    proof {
        let said = answer(cert, their_details.initiator_index, responder_index, time);
        assert(reply.len() == wire::handshake::handshake_bytes(said).len());
        wire::handshake::handshake_round_trips(said);
        assert forall|opener_key: Seq<u8>, p: Seq<u8>, opener: snow::HandshakeState|
            #[trigger] noise_written(
                noise_initiator(noise_name(cipher), opener_key),
                p,
                stage0_noise_payload@,
                opener,
            ) && opener_key.len() == 32 implies {
            &&& finished(opener, message@) matches Some((d, public_key, (send, recv)))
            &&& said.details == Some(d)
            &&& public_key == noise_public_key(local_private_key@)
            &&& send == keys.recv_key@
            &&& recv == keys.send_key@
        } by {
            assert(is_opened(
                cipher,
                opener_key,
                local_private_key@,
                p,
                stage0_noise_payload@,
                opener,
                answerer,
            ));
        }
        assert(is_finished_by(
            cipher,
            stage0_noise_payload@,
            local_private_key@,
            said,
            message@,
            keys,
        ));
    }
    let answered: Result<(NebulaHandshakeDetails, Vec<u8>, SplitKeys), Error> = Ok(
        (their_details, message, keys),
    );
    assert(answered matches Ok((d, m, k)) && is_finished_by(
        cipher,
        stage0_noise_payload@,
        local_private_key@,
        answer(cert, d@.initiator_index, responder_index, time),
        m@,
        k,
    ));
    answered
}

/// Takes the answer to a handshake that this side opened, and returns what
/// the other side said and the keys. The certificate among that is still to
/// be checked.
pub fn finish_initiator(hs: snow::HandshakeState, stage2_noise_payload: &[u8]) -> (r: Result<
    (NebulaHandshakeDetails, SplitKeys),
    Error,
>)
    ensures
        match noise_read(hs, stage2_noise_payload@) {
            Err(msg) => r matches Err(Error::Noise(e)) && e@ == msg,
            Ok((payload, after)) => match wire::handshake::handshake_of(payload) {
                None => r matches Err(Error::ProtobufDecode(_)),
                Some(h) => match h.details {
                    None => r matches Err(Error::HandshakeFailed(s)) && s@
                        == "stage 2 message had no details"@,
                    Some(d) => match noise_remote_static(after) {
                        None => r matches Err(Error::HandshakeFailed(s)) && s@
                            == "handshake completed with no remote static key"@,
                        Some(_) => {
                            &&& r matches Ok((details, keys))
                            &&& details@ == d
                            &&& keys.are_of(after)
                        },
                    },
                },
            },
        },
        match finished(hs, stage2_noise_payload@) {
            Some((d, key, (send, recv))) => {
                &&& r matches Ok((details, keys))
                &&& details@ == d
                &&& keys.remote_static@ == key
                &&& keys.send_key@ == send
                &&& keys.recv_key@ == recv
            },
            None => r is Err,
        },
{
    let mut hs = hs;
    let mut payload: Vec<u8> = vec![0u8; MAX_MESSAGE_LEN];
    let len: usize = match read_message(&mut hs, stage2_noise_payload, &mut payload) {
        Ok(len) => len,
        Err(e) => {
            return Err(Error::Noise(e));
        },
    };
    let ghost whole = payload@;
    payload.truncate(len);
    assert(payload@ =~= whole.take(len as int));
    let details = match payload_details(payload.as_slice(), "stage 2 message had no details") {
        Ok(d) => d,
        Err(e) => {
            return Err(e);
        },
    };
    match split_keys(&mut hs) {
        Ok(keys) => Ok((details, keys)),
        Err(e) => Err(e),
    }
}

/// A handshake completes: the answerer reads what the opener said and learns
/// its public key, the opener reads what the answerer said and learns its
/// public key, and each side sends with the key that the other receives with.
pub proof fn handshake_completes(
    cipher: Cipher,
    opener_key: Seq<u8>,
    opener_cert: Seq<u8>,
    opener_index: u32,
    opened_at: u64,
    opener: snow::HandshakeState,
    first: Seq<u8>,
    answerer_key: Seq<u8>,
    answerer_cert: Seq<u8>,
    answerer_index: u32,
    answered_at: u64,
    second: Seq<u8>,
    answerer_keys: SplitKeys,
)
    requires
        opens(cipher, opener_key, opener_cert, opener_index, opened_at, opener, first),
        answerer_keys.remote_static@ == first.subrange(32, 64),
        is_finished_by(
            cipher,
            first,
            answerer_key,
            answer(answerer_cert, opener_index, answerer_index, answered_at),
            second,
            answerer_keys,
        ),
    ensures
        wire::handshake::handshake_of(first.skip(64)) == Some(
            opening(opener_cert, opener_index, opened_at),
        ),
        answerer_keys.remote_static@ == noise_public_key(opener_key),
        finished(opener, second) matches Some((d, key, (send, recv))) && {
            &&& Some(d) == answer(
                answerer_cert,
                opener_index,
                answerer_index,
                answered_at,
            ).details
            &&& key == noise_public_key(answerer_key)
            &&& send == answerer_keys.recv_key@
            &&& recv == answerer_keys.send_key@
        },
{
}

/// A handshake cannot be opened, or an answer given, only where Noise was given
/// what this side says and failed to write it.
pub proof fn handshakes_fail_only_in_writing(
    cipher: Cipher,
    key: Seq<u8>,
    cert: Seq<u8>,
    initiator_index: u32,
    responder_index: u32,
    first: Seq<u8>,
    error: Seq<char>,
)
    ensures
        opening_fails(cipher, key, cert, initiator_index, error) ==> exists|time: u64| #[trigger]
            write_fails(
                noise_initiator(noise_name(cipher), key),
                wire::handshake::handshake_bytes(opening(cert, initiator_index, time)),
                error,
            ),
        answer_fails(cipher, key, cert, initiator_index, responder_index, first) ==> exists|
            hs: snow::HandshakeState,
            time: u64,
            said: Seq<char>,
        |
            has_read_first(cipher, key, first, hs) && #[trigger] write_fails(
                hs,
                wire::handshake::handshake_bytes(
                    answer(cert, initiator_index, responder_index, time),
                ),
                said,
            ),
{
    assert forall|before: snow::HandshakeState, payload: Seq<u8>, e: Seq<char>| #[trigger]
        write_fails(before, payload, e) implies exists|
        hs: &mut snow::HandshakeState,
        p: &[u8],
        message: &mut Vec<u8>,
        s: String,
    | #[trigger]
        call_ensures(write_message, (hs, p, message), Err(s)) && *hs == before && p@ == payload
            && s@ == e by {}
}

} // verus!
