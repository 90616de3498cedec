//! The sixteen bytes that every packet starts with:
//! ```text
//! | Version:4 | Type:4 | Subtype:8 | Reserved:16 | RemoteIndex:32 | MessageCounter:64 |
//! ```

use vstd::prelude::*;

pub mod handshake_subtype;
pub mod message_type;

use crate::bytes;
use crate::bytes::{push_be, read_be};
use crate::protocol::error::Error;

verus! {

pub const LEN: usize = 16;

pub const VERSION: u8 = 1;

#[derive(Debug, Clone, Copy, PartialEq, Eq, Structural)]
pub struct Header {
    pub version: u8,
    pub type_: u8,
    pub subtype: u8,
    pub remote_index: u32,
    pub message_counter: u64,
}

/// The bytes of a header, of whose version and type the lower four bits are
/// kept.
pub open spec fn header_bytes(h: Header) -> Seq<u8> {
    seq![(16 * (h.version % 16) + h.type_ % 16) as u8, h.subtype, 0u8, 0u8] + bytes::be_bytes(
        h.remote_index as nat,
        4,
    ) + bytes::be_bytes(h.message_counter as nat, 8)
}

/// The header that bytes start with.
pub open spec fn header_of(b: Seq<u8>) -> Header {
    Header {
        version: b[0] / 16,
        type_: b[0] % 16,
        subtype: b[1],
        remote_index: bytes::be_value(b.subrange(4, 8)) as u32,
        message_counter: bytes::be_value(b.subrange(8, 16)) as u64,
    }
}

/// A header is read back from its bytes, and from whatever they start, if its
/// version and type fit in four bits each.
pub proof fn header_round_trips(h: Header, rest: Seq<u8>)
    requires
        h.version < 16,
        h.type_ < 16,
    ensures
        header_bytes(h).len() == LEN,
        header_of(header_bytes(h) + rest) == h,
{
    bytes::lemma_pow256_values();
    bytes::be_bytes_round_trips(h.remote_index as nat, 4);
    bytes::be_bytes_round_trips(h.message_counter as nat, 8);
    let b = header_bytes(h) + rest;
    assert(b.subrange(4, 8) =~= bytes::be_bytes(h.remote_index as nat, 4));
    assert(b.subrange(8, 16) =~= bytes::be_bytes(h.message_counter as nat, 8));
}

impl Header {
    pub fn encode(&self, out: &mut [u8; LEN])
        ensures
            final(out)@ == header_bytes(*self),
    {
        let version = self.version;
        let type_ = self.type_;
        proof {
            assert(((version << 4) | (type_ & 0x0f)) == 16 * (version % 16) + type_ % 16)
                by (bit_vector);
        }
        let mut b: Vec<u8> = Vec::new();
        b.push((version << 4) | (type_ & 0x0f));
        b.push(self.subtype);
        b.push(0);
        b.push(0);
        push_be(&mut b, self.remote_index as u128, 4);
        push_be(&mut b, self.message_counter as u128, 8);
        proof {
            bytes::lemma_be_bytes_len(self.remote_index as nat, 4);
            bytes::lemma_be_bytes_len(self.message_counter as nat, 8);
            assert(b@ =~= header_bytes(*self));
        }
        let mut i: usize = 0;
        while i < LEN
            invariant
                i <= LEN,
                b@.len() == LEN,
                forall|j: int| 0 <= j < i ==> out@[j] == b@[j],
            decreases LEN - i,
        {
            out[i] = b[i];
            i = i + 1;
        }
        assert(out@ =~= b@);
    }

    pub fn parse(b: &[u8]) -> (r: Result<Self, Error>)
        ensures
            match r {
                Ok(h) => b@.len() >= LEN && h == header_of(b@),
                Err(e) => b@.len() < LEN && e == (Error::HeaderTooShort {
                    need: LEN,
                    got: b@.len() as usize,
                }),
            },
    {
        if b.len() < LEN {
            return Err(Error::HeaderTooShort { need: LEN, got: b.len() });
        }
        let first = b[0];
        proof {
            assert((first >> 4) & 0x0f == first / 16) by (bit_vector);
            assert(first & 0x0f == first % 16) by (bit_vector);
            bytes::lemma_be_value_bound(b@.subrange(4, 8));
            bytes::lemma_be_value_bound(b@.subrange(8, 16));
            bytes::lemma_pow256_values();
        }
        Ok(
            Header {
                version: (first >> 4) & 0x0f,
                type_: first & 0x0f,
                subtype: b[1],
                remote_index: read_be(&b[4..8]) as u32,
                message_counter: read_be(&b[8..16]) as u64,
            },
        )
    }
}

} // verus!
