//! The two ciphers that packets can be sealed with.

use aes_gcm::aead::{Aead, KeyInit, Payload};
use vstd::prelude::*;

use crate::bytes;
use crate::bytes::push_be;
use crate::protocol::handshake::Cipher;

verus! {

/// The length of the tag at the end of what a cipher seals.
pub const TAG_LEN: usize = 16;

/// The bytes that AES-256-GCM makes of a message.
pub uninterp spec fn aes_gcm_seal(
    key: Seq<u8>,
    nonce: Seq<u8>,
    aad: Seq<u8>,
    msg: Seq<u8>,
) -> Seq<u8>;

/// The message that AES-256-GCM makes of bytes, if they are authentic.
pub uninterp spec fn aes_gcm_open(
    key: Seq<u8>,
    nonce: Seq<u8>,
    aad: Seq<u8>,
    sealed: Seq<u8>,
) -> Option<Seq<u8>>;

/// The bytes that ChaCha20-Poly1305 makes of a message.
pub uninterp spec fn chacha_seal(
    key: Seq<u8>,
    nonce: Seq<u8>,
    aad: Seq<u8>,
    msg: Seq<u8>,
) -> Seq<u8>;

/// The message that ChaCha20-Poly1305 makes of bytes, if they are authentic.
pub uninterp spec fn chacha_open(
    key: Seq<u8>,
    nonce: Seq<u8>,
    aad: Seq<u8>,
    sealed: Seq<u8>,
) -> Option<Seq<u8>>;

/// Whether AES-256-GCM takes a message and associated data of these lengths.
pub open spec fn aes_gcm_takes(msg_len: nat, aad_len: nat) -> bool {
    msg_len <= 0x10_0000_0000 && aad_len <= 0x10_0000_0000
}

/// Whether ChaCha20-Poly1305 takes a message of this length.
pub open spec fn chacha_takes(msg_len: nat) -> bool {
    msg_len / 64 < u32::MAX
}

/// Whether a message of this length needs one block more than the keystream
/// of ChaCha20 has, which its implementation does not survive.
pub open spec fn chacha_exhausted(msg_len: nat) -> bool {
    msg_len / 64 == u32::MAX - 1 && msg_len % 64 != 0
}

/// `aes_gcm::Aes256Gcm::encrypt`: refuses a message or associated data of
/// more than 2^36 bytes; otherwise returns the ciphertext and a tag of
/// sixteen bytes, from which the message can be had back.
#[verifier::external_body]
fn aes_gcm_encrypt(key: &[u8; 32], nonce: &[u8; 12], aad: &[u8], msg: &[u8]) -> (r: Option<Vec<u8>>)
    ensures
        r is Some == aes_gcm_takes(msg@.len(), aad@.len()),
        r matches Some(c) ==> c@ == aes_gcm_seal(key@, nonce@, aad@, msg@),
        r matches Some(c) ==> c@.len() == msg@.len() + TAG_LEN,
        r matches Some(c) ==> aes_gcm_open(key@, nonce@, aad@, c@) == Some(msg@),
{
    aes_gcm::Aes256Gcm::new(key.into()).encrypt(nonce.into(), Payload { msg, aad }).ok()
}

/// `aes_gcm::Aes256Gcm::decrypt`: returns the message, which is without the
/// tag, if the bytes are authentic.
#[verifier::external_body]
fn aes_gcm_decrypt(key: &[u8; 32], nonce: &[u8; 12], aad: &[u8], sealed: &[u8]) -> (r: Option<
    Vec<u8>,
>)
    ensures
        r is Some == aes_gcm_open(key@, nonce@, aad@, sealed@) is Some,
        r matches Some(m) ==> aes_gcm_open(key@, nonce@, aad@, sealed@) == Some(m@),
        r matches Some(m) ==> sealed@.len() == m@.len() + TAG_LEN,
{
    let payload = Payload { msg: sealed, aad };
    aes_gcm::Aes256Gcm::new(key.into()).decrypt(nonce.into(), payload).ok()
}

/// `chacha20poly1305::ChaCha20Poly1305::encrypt`: refuses a message that has
/// more whole blocks than the counter can count; otherwise returns the
/// ciphertext and a tag of sixteen bytes, from which the message can be had
/// back.
#[verifier::external_body]
fn chacha_encrypt(key: &[u8; 32], nonce: &[u8; 12], aad: &[u8], msg: &[u8]) -> (r: Option<Vec<u8>>)
    requires
        !chacha_exhausted(msg@.len()),
    ensures
        r is Some == chacha_takes(msg@.len()),
        r matches Some(c) ==> c@ == chacha_seal(key@, nonce@, aad@, msg@),
        r matches Some(c) ==> c@.len() == msg@.len() + TAG_LEN,
        r matches Some(c) ==> chacha_open(key@, nonce@, aad@, c@) == Some(msg@),
{
    let payload = Payload { msg, aad };
    chacha20poly1305::ChaCha20Poly1305::new(key.into()).encrypt(nonce.into(), payload).ok()
}

/// `chacha20poly1305::ChaCha20Poly1305::decrypt`: returns the message, which
/// is without the tag, if the bytes are authentic.
#[verifier::external_body]
fn chacha_decrypt(key: &[u8; 32], nonce: &[u8; 12], aad: &[u8], sealed: &[u8]) -> (r: Option<
    Vec<u8>,
>)
    requires
        sealed@.len() >= TAG_LEN ==> !chacha_exhausted((sealed@.len() - TAG_LEN) as nat),
    ensures
        r is Some == chacha_open(key@, nonce@, aad@, sealed@) is Some,
        r matches Some(m) ==> chacha_open(key@, nonce@, aad@, sealed@) == Some(m@),
        r matches Some(m) ==> sealed@.len() == m@.len() + TAG_LEN,
{
    let payload = Payload { msg: sealed, aad };
    chacha20poly1305::ChaCha20Poly1305::new(key.into()).decrypt(nonce.into(), payload).ok()
}

/// The nonce for a counter: four zero bytes and the counter, big-endian for
/// AES-GCM and little-endian for ChaChaPoly.
pub open spec fn nonce_bytes(cipher: Cipher, counter: u64) -> Seq<u8> {
    seq![0u8, 0u8, 0u8, 0u8] + match cipher {
        Cipher::AesGcm => bytes::be_bytes(counter as nat, 8),
        Cipher::ChaChaPoly => bytes::le_bytes(counter as nat, 8),
    }
}

/// Packets with different numbers are sealed with different nonces.
pub proof fn nonces_tell_numbers_apart(cipher: Cipher, a: u64, b: u64)
    requires
        nonce_bytes(cipher, a) == nonce_bytes(cipher, b),
    ensures
        a == b,
{
    bytes::lemma_pow256_values();
    bytes::be_bytes_round_trips(a as nat, 8);
    bytes::be_bytes_round_trips(b as nat, 8);
    let x = bytes::be_bytes(a as nat, 8);
    let y = bytes::be_bytes(b as nat, 8);
    let (m, n) = (nonce_bytes(cipher, a), nonce_bytes(cipher, b));
    assert forall|i: int| 0 <= i < 8 implies x[i] == y[i] by {
        match cipher {
            Cipher::AesGcm => {
                assert(m[4 + i] == x[i] && n[4 + i] == y[i]);
            },
            Cipher::ChaChaPoly => {
                assert(m[11 - i] == x[i] && n[11 - i] == y[i]);
            },
        }
    }
    assert(x =~= y);
}

/// Whether a cipher takes a message and associated data of these lengths.
pub open spec fn takes(cipher: Cipher, msg_len: nat, aad_len: nat) -> bool {
    match cipher {
        Cipher::AesGcm => aes_gcm_takes(msg_len, aad_len),
        Cipher::ChaChaPoly => chacha_takes(msg_len),
    }
}

/// What a message is sealed as, unless it is too long.
pub open spec fn seals_to(
    cipher: Cipher,
    key: Seq<u8>,
    counter: u64,
    aad: Seq<u8>,
    msg: Seq<u8>,
) -> Option<Seq<u8>> {
    let nonce = nonce_bytes(cipher, counter);
    if takes(cipher, msg.len(), aad.len()) {
        Some(
            match cipher {
                Cipher::AesGcm => aes_gcm_seal(key, nonce, aad, msg),
                Cipher::ChaChaPoly => chacha_seal(key, nonce, aad, msg),
            },
        )
    } else {
        None
    }
}

/// The message that sealed bytes hold, if they are authentic.
pub open spec fn opens_to(
    cipher: Cipher,
    key: Seq<u8>,
    counter: u64,
    aad: Seq<u8>,
    sealed: Seq<u8>,
) -> Option<Seq<u8>> {
    let nonce = nonce_bytes(cipher, counter);
    match cipher {
        Cipher::AesGcm => aes_gcm_open(key, nonce, aad, sealed),
        Cipher::ChaChaPoly => chacha_open(key, nonce, aad, sealed),
    }
}

/// Whether the cipher's implementation survives a message of this length.
pub open spec fn survives(cipher: Cipher, msg_len: int) -> bool {
    cipher == Cipher::ChaChaPoly && msg_len >= 0 ==> !chacha_exhausted(msg_len as nat)
}

/// A cipher under one key.
#[derive(Clone, Copy, Debug)]
pub struct CipherImpl {
    pub cipher: Cipher,
    pub key: [u8; 32],
}

impl CipherImpl {
    pub fn new(cipher: Cipher, key: [u8; 32]) -> (r: Self)
        ensures
            r.cipher == cipher,
            r.key == key,
    {
        CipherImpl { cipher, key }
    }

    pub fn nonce(&self, counter: u64) -> (r: [u8; 12])
        ensures
            r@ == nonce_bytes(self.cipher, counter),
    {
        let mut be: Vec<u8> = Vec::new();
        push_be(&mut be, counter as u128, 8);
        proof {
            bytes::lemma_be_bytes_len(counter as nat, 8);
        }
        let mut nb: [u8; 12] = [0u8;12];
        let mut i: usize = 0;
        while i < 8
            invariant
                i <= 8,
                be@ =~= bytes::be_bytes(counter as nat, 8),
                be@.len() == 8,
                forall|j: int| 0 <= j < 4 ==> nb@[j] == 0,
                forall|j: int|
                    0 <= j < i ==> #[trigger] nb@[4 + j] == (match self.cipher {
                        Cipher::AesGcm => be@[j],
                        Cipher::ChaChaPoly => be@[7 - j],
                    }),
            decreases 8 - i,
        {
            nb[4 + i] = match self.cipher {
                Cipher::AesGcm => be[i],
                Cipher::ChaChaPoly => be[7 - i],
            };
            i = i + 1;
        }
        proof {
            let want = nonce_bytes(self.cipher, counter);
            assert forall|k: int| 0 <= k < 12 implies nb@[k] == want[k] by {
                if k >= 4 {
                    assert(nb@[4 + (k - 4)] == want[k]);
                }
            }
            assert(nb@ =~= want);
        }
        nb
    }

    pub fn encrypt(&self, counter: u64, aad: &[u8], plaintext: &[u8]) -> (r: Option<Vec<u8>>)
        requires
            survives(self.cipher, plaintext@.len() as int),
        ensures
            match r {
                Some(c) => {
                    &&& seals_to(self.cipher, self.key@, counter, aad@, plaintext@) == Some(c@)
                    &&& opens_to(self.cipher, self.key@, counter, aad@, c@) == Some(plaintext@)
                    &&& c@.len() == plaintext@.len() + TAG_LEN
                },
                None => seals_to(self.cipher, self.key@, counter, aad@, plaintext@) is None,
            },
    {
        let nonce = self.nonce(counter);
        match self.cipher {
            Cipher::AesGcm => aes_gcm_encrypt(&self.key, &nonce, aad, plaintext),
            Cipher::ChaChaPoly => chacha_encrypt(&self.key, &nonce, aad, plaintext),
        }
    }

    pub fn decrypt(&self, counter: u64, aad: &[u8], ciphertext: &[u8]) -> (r: Option<Vec<u8>>)
        requires
            survives(self.cipher, ciphertext@.len() - TAG_LEN),
        ensures
            match r {
                Some(m) => {
                    &&& opens_to(self.cipher, self.key@, counter, aad@, ciphertext@) == Some(m@)
                    &&& ciphertext@.len() == m@.len() + TAG_LEN
                },
                None => opens_to(self.cipher, self.key@, counter, aad@, ciphertext@) is None,
            },
    {
        let nonce = self.nonce(counter);
        match self.cipher {
            Cipher::AesGcm => aes_gcm_decrypt(&self.key, &nonce, aad, ciphertext),
            Cipher::ChaChaPoly => chacha_decrypt(&self.key, &nonce, aad, ciphertext),
        }
    }
}

} // verus!
