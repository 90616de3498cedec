//! Packets under the keys that a handshake left behind.
//!
//! A packet's header is authenticated with its payload, and the counter in
//! the header is the nonce: four zero bytes and the counter, big-endian for
//! AES-GCM and little-endian for ChaChaPoly.

use vstd::prelude::*;

use crate::protocol::aead;
use crate::protocol::aead::{CipherImpl, TAG_LEN};
use crate::protocol::error::Error;
use crate::protocol::handshake::Cipher;

verus! {

pub const WINDOW_SIZE: u64 = 1024;

/// Which of the last 1024 counters have been seen: of the highest one and of
/// those up to 1023 below it.
#[derive(Debug)]
pub struct ReplayWindow {
    current: u64,
    /// Bit `k % 64` of word `k / 64` is for the counter `k` below `current`.
    seen: [u64; 16],
}

/// Bit `i` of a word.
spec fn bit(w: u64, i: u64) -> bool {
    (w & (1u64 << i)) != 0
}

/// Bit `k` of sixteen words.
spec fn window_bit(words: Seq<u64>, k: int) -> bool {
    bit(words[k / 64], (k % 64) as u64)
}

/// Whether a window that has seen `current` still tells about `c`.
pub open spec fn in_window(current: u64, c: u64) -> bool {
    c <= current && current - c < WINDOW_SIZE
}

/// What checking a counter gives and leaves behind.
pub open spec fn window_step(
    before: ReplayWindow,
    counter: u64,
    after: ReplayWindow,
    accepted: bool,
) -> bool {
    &&& accepted == (counter > before.highest() || (in_window(before.highest(), counter)
        && !before.has_seen(counter)))
    &&& after.highest() == (if counter > before.highest() {
        counter
    } else {
        before.highest()
    })
    &&& forall|c: u64| #[trigger]
        after.has_seen(c) == (in_window(after.highest(), c) && (before.has_seen(c) || c == counter))
}

proof fn lemma_bit_set(w: u64, b: u64, i: u64)
    requires
        b < 64,
        i < 64,
    ensures
        bit(w | (1u64 << b), i) == (i == b || bit(w, i)),
{
    assert((((w | (1u64 << b)) & (1u64 << i)) != 0) == (i == b || (w & (1u64 << i)) != 0))
        by (bit_vector)
        requires
            b < 64,
            i < 64,
    ;
}

proof fn lemma_bit_shifted(w: u64, carry: u64, i: u64)
    requires
        i < 64,
        carry <= 1,
    ensures
        bit((w << 1) | carry, i) == (if i == 0 {
            carry == 1
        } else {
            bit(w, (i - 1) as u64)
        }),
        w >> 63 <= 1,
        (w >> 63 == 1) == bit(w, 63),
{
    assert(((((w << 1) | carry) & (1u64 << i)) != 0) == (if i == 0 {
        carry == 1
    } else {
        (w & (1u64 << ((i - 1) as u64))) != 0
    })) by (bit_vector)
        requires
            i < 64,
            carry <= 1,
    ;
    assert(w >> 63 <= 1 && ((w >> 63 == 1) == ((w & (1u64 << 63u64)) != 0))) by (bit_vector);
}

proof fn lemma_bit_zero(i: u64)
    ensures
        !bit(0, i),
{
    assert((0u64 & (1u64 << i)) == 0) by (bit_vector);
}

impl ReplayWindow {
    /// The highest counter seen.
    pub closed spec fn highest(self) -> u64 {
        self.current
    }

    /// Whether `c` is in the window and has been seen.
    pub closed spec fn has_seen(self, c: u64) -> bool {
        in_window(self.current, c) && window_bit(self.seen@, self.current - c)
    }

    pub fn new() -> (r: Self)
        ensures
            r.highest() == 0,
            forall|c: u64| !#[trigger] r.has_seen(c),
    {
        let r = ReplayWindow { current: 0, seen: [0u64;16] };
        proof {
            assert forall|c: u64| !#[trigger] r.has_seen(c) by {
                if in_window(r.current, c) {
                    lemma_bit_zero(((r.current - c) % 64) as u64);
                }
            }
        }
        r
    }

    /// Returns `true` and marks `counter` as seen if it is new; `false` if it
    /// has been seen or is too old to tell.
    pub fn check_and_update(&mut self, counter: u64) -> (r: bool)
        ensures
            window_step(*old(self), counter, *final(self), r),
    {
        if counter > self.current {
            let shift: u64 = counter - self.current;
            if shift >= WINDOW_SIZE {
                self.seen = [0u64;16];
                proof {
                    assert forall|k: int| 0 <= k < 1024 implies !#[trigger] window_bit(
                        self.seen@,
                        k,
                    ) by {
                        lemma_bit_zero((k % 64) as u64);
                    }
                }
            } else {
                self.shift_left(shift);
            }
            self.current = counter;
            self.mark(0);
            proof {
                assert forall|c: u64| #[trigger]
                    self.has_seen(c) == (in_window(self.highest(), c) && (old(self).has_seen(c) || c
                        == counter)) by {
                    if in_window(counter, c) && c != counter {
                        let k = counter - c;
                        assert(window_bit(self.seen@, k) == (k - shift >= 0 && window_bit(
                            old(self).seen@,
                            k - shift,
                        ) && shift < WINDOW_SIZE));
                    }
                }
            }
            true
        } else {
            let diff: u64 = self.current - counter;
            if diff >= WINDOW_SIZE || self.is_marked(diff) {
                return false;
            }
            self.mark(diff);
            true
        }
    }

    fn mark(&mut self, offset: u64)
        requires
            offset < WINDOW_SIZE,
        ensures
            final(self).current == old(self).current,
            forall|k: int|
                0 <= k < 1024 ==> #[trigger] window_bit(final(self).seen@, k) == (k == offset
                    || window_bit(old(self).seen@, k)),
    {
        let word: usize = (offset / 64) as usize;
        let index: u64 = offset % 64;
        self.seen[word] = self.seen[word] | (1u64 << index);
        proof {
            assert forall|k: int| 0 <= k < 1024 implies #[trigger] window_bit(self.seen@, k) == (k
                == offset || window_bit(old(self).seen@, k)) by {
                lemma_bit_set(old(self).seen@[word as int], index, (k % 64) as u64);
            }
        }
    }

    fn is_marked(&self, offset: u64) -> (r: bool)
        requires
            offset < WINDOW_SIZE,
        ensures
            r == window_bit(self.seen@, offset as int),
    {
        let word: usize = (offset / 64) as usize;
        let index: u64 = offset % 64;
        self.seen[word] & (1u64 << index) != 0
    }

    /// Moves every bit up by `n`.
    fn shift_left(&mut self, n: u64)
        requires
            n < WINDOW_SIZE,
        ensures
            final(self).current == old(self).current,
            forall|k: int|
                0 <= k < 1024 ==> #[trigger] window_bit(final(self).seen@, k) == (k >= n
                    && window_bit(old(self).seen@, k - n)),
    {
        let mut done: u64 = 0;
        while done < n
            invariant
                done <= n < WINDOW_SIZE,
                self.current == old(self).current,
                forall|k: int|
                    0 <= k < 1024 ==> #[trigger] window_bit(self.seen@, k) == (k >= done
                        && window_bit(old(self).seen@, k - done)),
            decreases n - done,
        {
            let ghost before = self.seen@;
            self.shift_left_once();
            proof {
                assert forall|k: int| 0 <= k < 1024 implies #[trigger] window_bit(self.seen@, k)
                    == (k >= done + 1 && window_bit(old(self).seen@, k - (done + 1))) by {
                    if k >= 1 {
                        assert(window_bit(self.seen@, k) == window_bit(before, k - 1));
                    }
                }
            }
            done = done + 1;
        }
    }

    /// Moves every bit up by one.
    fn shift_left_once(&mut self)
        ensures
            final(self).current == old(self).current,
            forall|k: int|
                0 <= k < 1024 ==> #[trigger] window_bit(final(self).seen@, k) == (k >= 1
                    && window_bit(old(self).seen@, k - 1)),
    {
        let mut carry: u64 = 0;
        let mut i: usize = 0;
        let ghost before = self.seen@;
        while i < 16
            invariant
                i <= 16,
                self.current == old(self).current,
                before == old(self).seen@,
                carry <= 1,
                (carry == 1) == (i > 0 && bit(before[i - 1], 63)),
                forall|j: int| i <= j < 16 ==> self.seen@[j] == before[j],
                forall|k: int|
                    0 <= k < 64 * i ==> #[trigger] window_bit(self.seen@, k) == (k >= 1
                        && window_bit(before, k - 1)),
            decreases 16 - i,
        {
            let word: u64 = self.seen[i];
            let ghost mid = self.seen@;
            self.seen[i] = (word << 1) | carry;
            proof {
                assert forall|k: int| 0 <= k < 64 * (i + 1) implies #[trigger] window_bit(
                    self.seen@,
                    k,
                ) == (k >= 1 && window_bit(before, k - 1)) by {
                    if k < 64 * i {
                        assert(window_bit(self.seen@, k) == window_bit(mid, k));
                    } else {
                        lemma_bit_shifted(word, carry, (k - 64 * i) as u64);
                        assert(k / 64 == i as int && k % 64 == k - 64 * i);
                        if k > 64 * i {
                            assert((k - 1) / 64 == i as int && (k - 1) % 64 == k - 1 - 64 * i);
                        } else if i > 0 {
                            assert((k - 1) / 64 == i - 1 && (k - 1) % 64 == 63);
                        }
                    }
                }
                lemma_bit_shifted(word, carry, 0);
            }
            carry = word >> 63;
            i = i + 1;
        }
    }
}

impl Default for ReplayWindow {
    fn default() -> (r: Self)
        ensures
            r.highest() == 0,
            forall|c: u64| !#[trigger] r.has_seen(c),
    {
        ReplayWindow::new()
    }
}

/// A window has seen no number that is above its highest, or more than 1023
/// below it.
pub proof fn seen_numbers_are_in_the_window(w: ReplayWindow, c: u64)
    ensures
        w.has_seen(c) ==> c <= w.highest() && w.highest() - c <= 1023,
{
}

/// Whether a window remembers a set of counters: of each it knows that it
/// was seen, or it is too old to be accepted.
pub open spec fn remembers(w: ReplayWindow, accepted: Set<u64>) -> bool {
    forall|c: u64| #[trigger]
        accepted.contains(c) ==> c <= w.highest() && (in_window(w.highest(), c) ==> w.has_seen(c))
}

/// No counter is accepted twice: a window that remembers what it accepted
/// refuses all of that, and still remembers it, with what it accepts next.
pub proof fn no_counter_is_accepted_twice(
    before: ReplayWindow,
    past: Set<u64>,
    counter: u64,
    after: ReplayWindow,
    accepted: bool,
)
    requires
        remembers(before, past),
        window_step(before, counter, after, accepted),
    ensures
        accepted ==> !past.contains(counter),
        remembers(
            after,
            if accepted {
                past.insert(counter)
            } else {
                past
            },
        ),
{
}

/// The two keys of a session, the counter of the last packet sent, and the
/// counters of the packets received.
#[derive(Debug)]
pub struct Transport {
    cipher: Cipher,
    send_key: [u8; 32],
    recv_key: [u8; 32],
    send_counter: u64,
    replay: ReplayWindow,
}

/// Whether a window accepts a counter.
pub open spec fn accepts(w: ReplayWindow, counter: u64) -> bool {
    counter > w.highest() || (in_window(w.highest(), counter) && !w.has_seen(counter))
}

impl Transport {
    /// The cipher of both directions.
    pub closed spec fn cipher(self) -> Cipher {
        self.cipher
    }

    pub closed spec fn send_key(self) -> Seq<u8> {
        self.send_key@
    }

    pub closed spec fn recv_key(self) -> Seq<u8> {
        self.recv_key@
    }

    /// The counter of the last packet sent.
    pub closed spec fn sent(self) -> u64 {
        self.send_counter
    }

    /// The counters of the packets received.
    pub closed spec fn window(self) -> ReplayWindow {
        self.replay
    }

    pub fn replay(&self) -> (r: &ReplayWindow)
        ensures
            *r == self.window(),
    {
        &self.replay
    }

    /// The initiator's send key is the responder's receive key, and the other
    /// way round: handing in the pair that fits its role is up to the caller.
    pub fn new(cipher: Cipher, send_key: [u8; 32], recv_key: [u8; 32]) -> (r: Self)
        ensures
            r.cipher() == cipher,
            r.send_key() == send_key@,
            r.recv_key() == recv_key@,
            r.sent() == 2,
            r.window().highest() == 0,
            forall|c: u64| !#[trigger] r.window().has_seen(c),
    {
        Transport {
            cipher,
            send_key,
            recv_key,
            // The two handshake messages are numbers 1 and 2, so the first
            // data packet is number 3.
            send_counter: 2,
            replay: ReplayWindow::new(),
        }
    }

    /// The number for the next packet. It goes into the packet's header, and
    /// so comes before the packet is sealed.
    pub fn next_counter(&mut self) -> (r: u64)
        requires
            old(self).sent() < u64::MAX,
        ensures
            r == old(self).sent() + 1,
            final(self).sent() == r,
            final(self).same_keys(*old(self)),
            final(self).window() == old(self).window(),
    {
        let next: u64 = self.send_counter + 1;
        self.send_counter = next;
        next
    }

    pub open spec fn same_keys(self, other: Transport) -> bool {
        &&& self.cipher() == other.cipher()
        &&& self.send_key() == other.send_key()
        &&& self.recv_key() == other.recv_key()
    }

    /// Whether every number up to `u64::MAX` has been used.
    pub fn is_spent(&self) -> (r: bool)
        ensures
            r == (self.sent() == u64::MAX),
    {
        self.send_counter == u64::MAX
    }

    /// Seals `plaintext` into the front of `out`, and returns how much of
    /// `out` that takes. `aad` must be the packet's header, which holds
    /// `counter`.
    pub fn encrypt(&self, counter: u64, aad: &[u8], plaintext: &[u8], out: &mut [u8]) -> (r: Result<
        usize,
        Error,
    >)
        requires
            aead::survives(self.cipher(), plaintext@.len() as int),
            aead::takes(self.cipher(), plaintext@.len(), aad@.len()) ==> plaintext@.len() + TAG_LEN
                <= old(out)@.len(),
        ensures
            final(out)@.len() == old(out)@.len(),
            match aead::seals_to(self.cipher(), self.send_key(), counter, aad@, plaintext@) {
                Some(c) => {
                    &&& r == Ok::<usize, Error>(c.len() as usize)
                    &&& c.len() == plaintext@.len() + TAG_LEN
                    &&& final(out)@ == c + old(out)@.skip(c.len() as int)
                    &&& aead::opens_to(self.cipher(), self.send_key(), counter, aad@, c) == Some(
                        plaintext@,
                    )
                },
                None => r == Err::<usize, _>(Error::DecryptFailed) && final(out)@ == old(out)@,
            },
    {
        match CipherImpl::new(self.cipher, self.send_key).encrypt(counter, aad, plaintext) {
            Some(c) => {
                copy_to_front(out, &c);
                Ok(c.len())
            },
            None => Err(Error::DecryptFailed),
        }
    }

    /// Opens a packet into the front of `out`, and returns how much of `out`
    /// that takes. A counter that was seen before, or is too old to tell, is
    /// refused, and one that is new is marked as seen before the packet is
    /// opened. `aad` must be the header as it was received.
    pub fn decrypt(
        &mut self,
        counter: u64,
        aad: &[u8],
        ciphertext: &[u8],
        out: &mut [u8],
    ) -> (r: Result<usize, Error>)
        requires
            accepts(old(self).window(), counter) ==> {
                &&& aead::survives(old(self).cipher(), ciphertext@.len() - TAG_LEN)
                &&& ciphertext@.len() <= old(out)@.len() + TAG_LEN || aead::opens_to(
                    old(self).cipher(),
                    old(self).recv_key(),
                    counter,
                    aad@,
                    ciphertext@,
                ) is None
            },
        ensures
            final(self).same_keys(*old(self)),
            final(self).sent() == old(self).sent(),
            window_step(
                old(self).window(),
                counter,
                final(self).window(),
                accepts(old(self).window(), counter),
            ),
            final(out)@.len() == old(out)@.len(),
            if !accepts(old(self).window(), counter) {
                r == Err::<usize, _>(Error::ReplayedPacket) && final(out)@ == old(out)@
            } else {
                match aead::opens_to(
                    old(self).cipher(),
                    old(self).recv_key(),
                    counter,
                    aad@,
                    ciphertext@,
                ) {
                    Some(m) => {
                        &&& r == Ok::<usize, Error>(m.len() as usize)
                        &&& ciphertext@.len() == m.len() + TAG_LEN
                        &&& final(out)@ == m + old(out)@.skip(m.len() as int)
                    },
                    None => r == Err::<usize, _>(Error::DecryptFailed) && final(out)@ == old(out)@,
                }
            },
    {
        if !self.replay.check_and_update(counter) {
            return Err(Error::ReplayedPacket);
        }
        match CipherImpl::new(self.cipher, self.recv_key).decrypt(counter, aad, ciphertext) {
            Some(m) => {
                copy_to_front(out, &m);
                Ok(m.len())
            },
            None => Err(Error::DecryptFailed),
        }
    }
}

/// Overwrites the front of `out`.
fn copy_to_front(out: &mut [u8], b: &Vec<u8>)
    requires
        b@.len() <= old(out)@.len(),
    ensures
        final(out)@ == b@ + old(out)@.skip(b@.len() as int),
        final(out)@.len() == old(out)@.len(),
{
    let mut i: usize = 0;
    while i < b.len()
        invariant
            i <= b@.len() <= out@.len(),
            out@.len() == old(out)@.len(),
            forall|j: int| 0 <= j < i ==> out@[j] == b@[j],
            forall|j: int| i <= j < out@.len() ==> out@[j] == old(out)@[j],
        decreases b.len() - i,
    {
        out[i] = b[i];
        i = i + 1;
    }
    assert(out@ =~= b@ + old(out)@.skip(b@.len() as int));
}

/// What one end of a session seals, the other end opens, once: a receiver
/// with the sender's key gets the message back, and refuses the packet when
/// it comes again.
pub proof fn sealed_packet_is_read_once(
    sender: Transport,
    receiver: Transport,
    counter: u64,
    aad: Seq<u8>,
    plaintext: Seq<u8>,
    sealed: Seq<u8>,
    after: ReplayWindow,
)
    requires
        sender.cipher() == receiver.cipher(),
        sender.send_key() == receiver.recv_key(),
        aead::opens_to(sender.cipher(), sender.send_key(), counter, aad, sealed) == Some(plaintext),
        accepts(receiver.window(), counter),
        window_step(receiver.window(), counter, after, true),
    ensures
        aead::opens_to(receiver.cipher(), receiver.recv_key(), counter, aad, sealed) == Some(
            plaintext,
        ),
        !accepts(after, counter),
{
}

} // verus!
