//! Values behind a tag and a length, as DER writes them: a tag of one byte,
//! a definite length, and the content.

use vstd::prelude::*;

use crate::bytes;
use crate::bytes::{push_all, push_be, read_be};
use crate::text;
use crate::text::{hex_of_u8, join};

verus! {

/// How many bytes a number takes without leading zeros.
pub open spec fn byte_count(v: nat) -> nat
    decreases v,
{
    if v < 256 {
        1
    } else {
        1 + byte_count(v / 256)
    }
}

/// The bytes that a length is written as: itself below 128, and otherwise
/// the number of bytes it takes, with the highest bit set, and those bytes.
pub open spec fn length_bytes(n: nat) -> Seq<u8> {
    if n < 0x80 {
        seq![n as u8]
    } else {
        seq![(0x80 + byte_count(n)) as u8] + bytes::be_bytes(n, byte_count(n))
    }
}

/// A tag, the length of the content, and the content.
#[verifier::opaque]
pub open spec fn tlv(tag: u8, content: Seq<u8>) -> Seq<u8> {
    seq![tag] + length_bytes(content.len()) + content
}

/// The length at `pos`, and where it ends.
pub open spec fn length_at(data: Seq<u8>, pos: int) -> Result<(usize, int), Seq<char>> {
    if pos >= data.len() {
        Err("truncated length"@)
    } else if data[pos] < 0x80 {
        Ok((data[pos] as usize, pos + 1))
    } else {
        let n = data[pos] - 0x80;
        if n == 0 || n > 8 {
            Err("unsupported length encoding"@)
        } else if pos + 1 + n > usize::MAX {
            Err("length overflow"@)
        } else if pos + 1 + n > data.len() {
            Err("truncated length"@)
        } else {
            let value = bytes::be_value(data.subrange(pos + 1, pos + 1 + n));
            Ok(((value as u64) as usize, pos + 1 + n))
        }
    }
}

/// Where a reader is left that fails to read a length at `pos`: behind the
/// length's first byte, if there is one.
pub open spec fn length_stop(data: Seq<u8>, pos: int) -> int {
    if pos >= data.len() {
        pos
    } else {
        pos + 1
    }
}

/// Where a reader is left that fails to read a value at `pos`: where it was,
/// if the tag is missing or another one, and behind what it made of the tag
/// and the length otherwise.
pub open spec fn tlv_stop(data: Seq<u8>, pos: int, tag: u8) -> int {
    if pos >= data.len() || data[pos] != tag {
        pos
    } else {
        match length_at(data, pos + 1) {
            Err(_) => length_stop(data, pos + 1),
            Ok((_, start)) => start,
        }
    }
}

/// What is said of a tag other than the one expected.
pub open spec fn wrong_tag(expected: u8, got: u8) -> Seq<char> {
    "expected tag "@ + ("0x"@ + text::digits(expected as nat, 16)) + ", got "@ + ("0x"@
        + text::digits(got as nat, 16))
}

/// The content of the value with the tag `tag` at `pos`, and where it ends.
pub open spec fn tlv_at(data: Seq<u8>, pos: int, tag: u8) -> Result<(Seq<u8>, int), Seq<char>> {
    if pos >= data.len() {
        Err("truncated tag"@)
    } else if data[pos] != tag {
        Err(wrong_tag(tag, data[pos]))
    } else {
        match length_at(data, pos + 1) {
            Err(e) => Err(e),
            Ok((len, start)) => if start + len > usize::MAX {
                Err("length overflow"@)
            } else if start + len > data.len() {
                Err("truncated content"@)
            } else {
                Ok((data.subrange(start, start + len), start + len))
            },
        }
    }
}

/// The same, where the value may be missing.
pub open spec fn tlv_opt_at(data: Seq<u8>, pos: int, tag: u8) -> Result<
    (Option<Seq<u8>>, int),
    Seq<char>,
> {
    if pos < data.len() && data[pos] == tag {
        match tlv_at(data, pos, tag) {
            Err(e) => Err(e),
            Ok((content, end)) => Ok((Some(content), end)),
        }
    } else {
        Ok((None, pos))
    }
}

/// The values with the tag `tag` from `pos` to the end, each decoded.
pub open spec fn items_at<T>(
    data: Seq<u8>,
    pos: int,
    tag: u8,
    decode: spec_fn(Seq<u8>) -> Result<T, Seq<char>>,
) -> Result<Seq<T>, Seq<char>>
    decreases data.len() - pos,
{
    if pos >= data.len() {
        Ok(Seq::empty())
    } else {
        match tlv_at(data, pos, tag) {
            Err(e) => Err(e),
            Ok((content, end)) => match decode(content) {
                Err(e) => Err(e),
                Ok(item) => {
                    proof {
                        lemma_tlv_ends_later(data, pos, tag);
                    }
                    match items_at(data, end, tag, decode) {
                        Err(e) => Err(e),
                        Ok(rest) => Ok(seq![item] + rest),
                    }
                },
            },
        }
    }
}

/// The values of the optional list with the tag `tag` at `pos`, each behind
/// `item_tag` and decoded, and where the list ends.
pub open spec fn list_at<T>(
    data: Seq<u8>,
    pos: int,
    tag: u8,
    item_tag: u8,
    decode: spec_fn(Seq<u8>) -> Result<T, Seq<char>>,
) -> Result<(Seq<T>, int), Seq<char>> {
    match tlv_opt_at(data, pos, tag) {
        Err(e) => Err(e),
        Ok((None, end)) => Ok((Seq::empty(), end)),
        Ok((Some(content), end)) => match items_at(content, 0, item_tag, decode) {
            Err(e) => Err(e),
            Ok(items) => Ok((items, end)),
        },
    }
}

/// Values one after the other, each behind `tag`.
pub open spec fn tlvs(tag: u8, items: Seq<Seq<u8>>) -> Seq<u8>
    decreases items.len(),
{
    if items.len() == 0 {
        Seq::empty()
    } else {
        tlv(tag, items[0]) + tlvs(tag, items.drop_first())
    }
}

/// A list behind `tag`, or nothing if it is empty.
#[verifier::opaque]
pub open spec fn list_bytes(tag: u8, item_tag: u8, items: Seq<Seq<u8>>) -> Seq<u8> {
    if items.len() == 0 {
        Seq::empty()
    } else {
        tlv(tag, tlvs(item_tag, items))
    }
}

pub proof fn lemma_length_ends_later(data: Seq<u8>, pos: int)
    ensures
        length_at(data, pos) matches Ok((_, end)) ==> pos < end <= data.len(),
{
}

/// A value ends behind where it starts, and within the data.
pub proof fn lemma_tlv_ends_later(data: Seq<u8>, pos: int, tag: u8)
    ensures
        tlv_at(data, pos, tag) matches Ok((_, end)) ==> pos < end <= data.len(),
{
    lemma_length_ends_later(data, pos + 1);
}

pub proof fn lemma_byte_count(v: nat)
    requires
        v <= u64::MAX,
    ensures
        1 <= byte_count(v) <= 8,
        v < bytes::pow256(byte_count(v)),
{
    bytes::lemma_pow256_values();
    reveal_with_fuel(byte_count, 9);
}

pub proof fn lemma_length_bytes_len(n: nat)
    requires
        n <= u64::MAX,
    ensures
        1 <= length_bytes(n).len() <= 9,
{
    lemma_byte_count(n);
    bytes::lemma_be_bytes_len(n, byte_count(n));
}

/// A length is read back from where it was written.
pub proof fn lemma_length_round_trips(data: Seq<u8>, pos: int, n: nat, rest: Seq<u8>)
    requires
        0 <= pos <= data.len() <= usize::MAX,
        n <= usize::MAX,
        data.skip(pos) == length_bytes(n) + rest,
    ensures
        length_at(data, pos) == Ok::<(usize, int), Seq<char>>(
            (n as usize, pos + length_bytes(n).len()),
        ),
        data.skip(pos + length_bytes(n).len()) == rest,
{
    lemma_byte_count(n);
    lemma_length_bytes_len(n);
    let lb = length_bytes(n);
    assert(data.skip(pos).len() == lb.len() + rest.len());
    assert(data.skip(pos)[0] == lb[0]);
    assert(data[pos] == lb[0]);
    if n >= 0x80 {
        let k = byte_count(n);
        bytes::be_bytes_round_trips(n, k);
        assert(data.subrange(pos + 1, pos + 1 + k) =~= data.skip(pos).subrange(1, 1 + k as int));
        assert(data.skip(pos).subrange(1, 1 + k as int) =~= bytes::be_bytes(n, k));
    }
    assert(data.skip(pos + lb.len()) =~= data.skip(pos).skip(lb.len() as int));
    assert(data.skip(pos).skip(lb.len() as int) =~= rest);
}

/// A value is read back from where it was written.
pub proof fn lemma_tlv_round_trips(
    data: Seq<u8>,
    pos: int,
    tag: u8,
    content: Seq<u8>,
    rest: Seq<u8>,
)
    requires
        0 <= pos <= data.len() <= usize::MAX,
        data.skip(pos) == tlv(tag, content) + rest,
    ensures
        tlv_at(data, pos, tag) == Ok::<(Seq<u8>, int), Seq<char>>(
            (content, pos + tlv(tag, content).len()),
        ),
        pos + tlv(tag, content).len() <= data.len(),
        data.skip(pos + tlv(tag, content).len()) == rest,
{
    reveal(tlv);
    let whole = tlv(tag, content);
    let lb = length_bytes(content.len());
    assert(data.skip(pos).len() == whole.len() + rest.len());
    assert(data.skip(pos)[0] == whole[0]);
    assert(data[pos] == tag);
    assert(data.skip(pos + 1) =~= data.skip(pos).skip(1));
    assert(data.skip(pos).skip(1) =~= lb + (content + rest));
    lemma_length_round_trips(data, pos + 1, content.len(), content + rest);
    let start = pos + 1 + lb.len();
    assert(data.subrange(start, start + content.len()) =~= data.skip(start).take(
        content.len() as int,
    ));
    assert(data.skip(start).take(content.len() as int) =~= content);
    assert(data.skip(pos + whole.len()) =~= data.skip(start).skip(content.len() as int));
    assert(data.skip(start).skip(content.len() as int) =~= rest);
}

/// A value on its own is read back.
pub proof fn lemma_whole_tlv(tag: u8, content: Seq<u8>)
    requires
        tlv(tag, content).len() <= usize::MAX,
    ensures
        tlv_at(tlv(tag, content), 0, tag) == Ok::<(Seq<u8>, int), Seq<char>>(
            (content, tlv(tag, content).len() as int),
        ),
        content.len() <= tlv(tag, content).len(),
{
    reveal(tlv);
    let whole = tlv(tag, content);
    lemma_skip_none(whole);
    assert(whole + Seq::<u8>::empty() =~= whole);
    lemma_tlv_round_trips(whole, 0, tag, content, Seq::empty());
}

pub proof fn lemma_skip_none(b: Seq<u8>)
    ensures
        b.skip(0) == b,
{
    assert(b.skip(0) =~= b);
}

/// The first byte of a sequence, if it has one.
pub open spec fn first(b: Seq<u8>) -> Option<u8> {
    if b.len() == 0 {
        None
    } else {
        Some(b[0])
    }
}

/// An optional value is read back, if what follows could not be taken for it.
pub proof fn lemma_tlv_opt_round_trips(
    data: Seq<u8>,
    pos: int,
    tag: u8,
    content: Option<Seq<u8>>,
    rest: Seq<u8>,
)
    requires
        0 <= pos <= data.len() <= usize::MAX,
        content matches Some(c) ==> data.skip(pos) == tlv(tag, c) + rest,
        content is None ==> data.skip(pos) == rest,
        first(rest) != Some(tag),
    ensures
        ({
            let end = pos + (match content {
                Some(c) => tlv(tag, c).len(),
                None => 0,
            });
            &&& tlv_opt_at(data, pos, tag) == Ok::<(Option<Seq<u8>>, int), Seq<char>>((content, end))
            &&& end <= data.len()
            &&& data.skip(end) == rest
        }),
{
    match content {
        Some(c) => {
            reveal(tlv);
            lemma_tlv_round_trips(data, pos, tag, c, rest);
            assert(tlv(tag, c)[0] == tag);
            assert(data.skip(pos)[0] == tag);
            assert(data[pos] == tag);
        },
        None => {
            if pos < data.len() {
                assert(data.skip(pos)[0] == data[pos]);
            }
        },
    }
}

/// Values are read back one by one.
pub proof fn lemma_items_round_trip<T>(
    data: Seq<u8>,
    pos: int,
    tag: u8,
    decode: spec_fn(Seq<u8>) -> Result<T, Seq<char>>,
    items: Seq<Seq<u8>>,
    decoded: Seq<T>,
)
    requires
        0 <= pos <= data.len() <= usize::MAX,
        data.skip(pos) == tlvs(tag, items),
        items.len() == decoded.len(),
        forall|i: int|
            0 <= i < items.len() ==> #[trigger] decode(items[i]) == Ok::<T, Seq<char>>(decoded[i]),
    ensures
        items_at(data, pos, tag, decode) == Ok::<Seq<T>, Seq<char>>(decoded),
    decreases items.len(),
{
    if items.len() == 0 {
        assert(data.skip(pos).len() == 0);
        assert(decoded =~= Seq::empty());
    } else {
        let rest = tlvs(tag, items.drop_first());
        lemma_tlv_round_trips(data, pos, tag, items[0], rest);
        assert(data.skip(pos).len() > 0) by {
            reveal(tlv);
        }
        assert(decode(items[0]) == Ok::<T, Seq<char>>(decoded[0]));
        let end = pos + tlv(tag, items[0]).len();
        assert forall|i: int| 0 <= i < items.drop_first().len() implies #[trigger] decode(
            items.drop_first()[i],
        ) == Ok::<T, Seq<char>>(decoded.drop_first()[i]) by {
            assert(items.drop_first()[i] == items[i + 1]);
        }
        lemma_items_round_trip(data, end, tag, decode, items.drop_first(), decoded.drop_first());
        assert(seq![decoded[0]] + decoded.drop_first() =~= decoded);
    }
}

/// A list is read back, if what follows could not be taken for it.
pub proof fn lemma_list_round_trips<T>(
    data: Seq<u8>,
    pos: int,
    tag: u8,
    item_tag: u8,
    decode: spec_fn(Seq<u8>) -> Result<T, Seq<char>>,
    items: Seq<Seq<u8>>,
    decoded: Seq<T>,
    rest: Seq<u8>,
)
    requires
        0 <= pos <= data.len() <= usize::MAX,
        data.skip(pos) == list_bytes(tag, item_tag, items) + rest,
        first(rest) != Some(tag),
        items.len() == decoded.len(),
        forall|i: int|
            0 <= i < items.len() ==> #[trigger] decode(items[i]) == Ok::<T, Seq<char>>(decoded[i]),
    ensures
        ({
            let end = pos + list_bytes(tag, item_tag, items).len();
            &&& list_at(data, pos, tag, item_tag, decode) == Ok::<(Seq<T>, int), Seq<char>>(
                (decoded, end),
            )
            &&& end <= data.len()
            &&& data.skip(end) == rest
        }),
{
    reveal(list_bytes);
    if items.len() == 0 {
        assert(list_bytes(tag, item_tag, items) + rest =~= rest);
        lemma_tlv_opt_round_trips(data, pos, tag, None, rest);
        assert(decoded =~= Seq::empty());
    } else {
        let content = tlvs(item_tag, items);
        lemma_tlv_opt_round_trips(data, pos, tag, Some(content), rest);
        lemma_tlv_round_trips(data, pos, tag, content, rest);
        assert(content.skip(0) =~= content);
        assert(content.len() <= tlv(tag, content).len()) by {
            reveal(tlv);
        }
        lemma_items_round_trip(content, 0, item_tag, decode, items, decoded);
    }
}

/// A value cut short anywhere is not read.
pub proof fn lemma_cut_tlv_is_refused(tag: u8, content: Seq<u8>, n: int)
    requires
        tlv(tag, content).len() <= usize::MAX,
        0 <= n < tlv(tag, content).len(),
    ensures
        tlv_at(tlv(tag, content).take(n), 0, tag) is Err,
{
    reveal(tlv);
    let whole = tlv(tag, content);
    let cut = whole.take(n);
    let lb = length_bytes(content.len());
    lemma_byte_count(content.len());
    lemma_length_bytes_len(content.len());
    bytes::lemma_be_bytes_len(content.len(), byte_count(content.len()));
    if n > 1 {
        assert(cut[0] == tag);
        assert(cut[1] == lb[0]);
        if content.len() >= 0x80 && n >= 1 + lb.len() {
            let k = byte_count(content.len());
            bytes::be_bytes_round_trips(content.len(), k);
            assert(cut.subrange(2, 2 + k as int) =~= bytes::be_bytes(content.len(), k));
            assert(length_at(cut, 1) == Ok::<(usize, int), Seq<char>>(
                (content.len() as usize, 2 + k as int),
            ));
        } else if content.len() >= 0x80 {
            assert(length_at(cut, 1) is Err);
        } else {
            assert(length_at(cut, 1) == Ok::<(usize, int), Seq<char>>(
                (content.len() as usize, 2int),
            ));
        }
    } else {
        assert(length_at(cut, 1) is Err);
    }
}

pub proof fn lemma_tlvs_push(tag: u8, items: Seq<Seq<u8>>, item: Seq<u8>)
    ensures
        tlvs(tag, items.push(item)) == tlvs(tag, items) + tlv(tag, item),
    decreases items.len(),
{
    let all = items.push(item);
    if items.len() == 0 {
        assert(all.drop_first() =~= Seq::empty());
        assert(all[0] == item);
        assert(tlvs(tag, all.drop_first()) =~= Seq::empty());
        assert(tlvs(tag, all) =~= tlv(tag, item));
        assert(tlvs(tag, items) + tlv(tag, item) =~= tlv(tag, item));
    } else {
        assert(all.drop_first() =~= items.drop_first().push(item));
        lemma_tlvs_push(tag, items.drop_first(), item);
        assert(all[0] == items[0]);
        assert(tlvs(tag, all) =~= tlvs(tag, items) + tlv(tag, item));
    }
}

/// How many bytes a number takes without leading zeros.
fn count_bytes(v: usize) -> (r: usize)
    ensures
        r == byte_count(v as nat),
    decreases v,
{
    if v < 256 {
        1
    } else {
        proof {
            lemma_byte_count(v as nat);
            lemma_byte_count(v as nat / 256);
        }
        1 + count_bytes(v / 256)
    }
}

/// Appends a length.
pub fn write_length(out: &mut Vec<u8>, len: usize)
    ensures
        final(out)@ == old(out)@ + length_bytes(len as nat),
{
    if len < 0x80 {
        out.push(len as u8);
        assert(out@ =~= old(out)@ + length_bytes(len as nat));
    } else {
        let n: usize = count_bytes(len);
        proof {
            lemma_byte_count(len as nat);
        }
        out.push(0x80 + n as u8);
        push_be(out, len as u128, n);
        assert(out@ =~= old(out)@ + length_bytes(len as nat));
    }
}

/// Appends a tag, the length of the content, and the content.
pub fn write_tlv(out: &mut Vec<u8>, tag: u8, content: &[u8])
    ensures
        final(out)@ == old(out)@ + tlv(tag, content@),
{
    out.push(tag);
    write_length(out, content.len());
    push_all(out, content);
    proof {
        reveal(tlv);
    }
    assert(out@ =~= old(out)@ + tlv(tag, content@));
}

/// Reads values one after the other.
pub struct Reader<'a> {
    pub data: &'a [u8],
    pub pos: usize,
}

impl<'a> Reader<'a> {
    /// Whether the reader stands within its data.
    pub open spec fn wf(self) -> bool {
        self.pos <= self.data@.len()
    }

    /// A reader at the start of `data`.
    pub fn new(data: &'a [u8]) -> (r: Self)
        ensures
            r.data@ == data@,
            r.pos == 0,
            r.wf(),
    {
        Reader { data, pos: 0 }
    }

    /// Whether everything was read.
    pub fn is_empty(&self) -> (r: bool)
        ensures
            r == (self.pos >= self.data@.len()),
    {
        self.pos >= self.data.len()
    }

    /// The next tag, if there is one.
    pub fn peek_tag(&self) -> (r: Option<u8>)
        ensures
            r == (if self.pos < self.data@.len() {
                Some(self.data@[self.pos as int])
            } else {
                None
            }),
    {
        if self.pos < self.data.len() {
            Some(self.data[self.pos])
        } else {
            None
        }
    }

    /// Reads a length.
    pub fn read_length(&mut self) -> (r: Result<usize, String>)
        requires
            old(self).wf(),
        ensures
            final(self).wf(),
            final(self).data == old(self).data,
            match length_at(old(self).data@, old(self).pos as int) {
                Ok((len, end)) => r == Ok::<usize, String>(len) && final(self).pos == end,
                Err(msg) => r matches Err(e) && e@ == msg && final(self).pos == length_stop(
                    old(self).data@,
                    old(self).pos as int,
                ),
            },
    {
        if self.pos >= self.data.len() {
            return Err("truncated length".to_string());
        }
        let first: u8 = self.data[self.pos];
        self.pos = self.pos + 1;
        if first < 0x80 {
            return Ok(first as usize);
        }
        let num_bytes: usize = (first - 0x80) as usize;
        if num_bytes == 0 || num_bytes > 8 {
            return Err("unsupported length encoding".to_string());
        }
        let end: usize = match self.pos.checked_add(num_bytes) {
            Some(end) => end,
            None => {
                return Err("length overflow".to_string());
            },
        };
        if end > self.data.len() {
            return Err("truncated length".to_string());
        }
        let value: u128 = read_be(&self.data[self.pos..end]);
        proof {
            let b = self.data@.subrange(self.pos as int, end as int);
            bytes::lemma_be_value_bound(b);
            bytes::lemma_pow256_increases(b.len(), 8);
            bytes::lemma_pow256_values();
        }
        self.pos = end;
        Ok((value as u64) as usize)
    }

    /// Reads a value whose tag must be `expected_tag`, and returns its content.
    pub fn read_tlv(&mut self, expected_tag: u8) -> (r: Result<&'a [u8], String>)
        requires
            old(self).wf(),
        ensures
            final(self).wf(),
            final(self).data == old(self).data,
            match tlv_at(old(self).data@, old(self).pos as int, expected_tag) {
                Ok((content, end)) => r matches Ok(c) && c@ == content && final(self).pos == end,
                Err(msg) => r matches Err(e) && e@ == msg && final(self).pos == tlv_stop(
                    old(self).data@,
                    old(self).pos as int,
                    expected_tag,
                ),
            },
    {
        if self.pos >= self.data.len() {
            return Err("truncated tag".to_string());
        }
        let tag: u8 = self.data[self.pos];
        if tag != expected_tag {
            let s = join("expected tag ".to_string(), hex_of_u8(expected_tag).as_str());
            let s = join(s, ", got ");
            return Err(join(s, hex_of_u8(tag).as_str()));
        }
        self.pos = self.pos + 1;
        let len: usize = match self.read_length() {
            Ok(len) => len,
            Err(e) => {
                return Err(e);
            },
        };
        let end: usize = match self.pos.checked_add(len) {
            Some(end) => end,
            None => {
                return Err("length overflow".to_string());
            },
        };
        if end > self.data.len() {
            return Err("truncated content".to_string());
        }
        let content = &self.data[self.pos..end];
        self.pos = end;
        Ok(content)
    }

    /// Reads a value as [`Reader::read_tlv`] does, and returns it whole, with
    /// its tag and length.
    pub fn read_tlv_raw(&mut self, expected_tag: u8) -> (r: Result<&'a [u8], String>)
        requires
            old(self).wf(),
        ensures
            final(self).wf(),
            final(self).data == old(self).data,
            match tlv_at(old(self).data@, old(self).pos as int, expected_tag) {
                Ok((content, end)) => r matches Ok(c) && c@ == old(self).data@.subrange(
                    old(self).pos as int,
                    end,
                ) && final(self).pos == end,
                Err(msg) => r matches Err(e) && e@ == msg && final(self).pos == tlv_stop(
                    old(self).data@,
                    old(self).pos as int,
                    expected_tag,
                ),
            },
    {
        let start: usize = self.pos;
        match self.read_tlv(expected_tag) {
            Ok(_) => {},
            Err(e) => {
                return Err(e);
            },
        }
        proof {
            lemma_tlv_ends_later(self.data@, start as int, expected_tag);
        }
        Ok(&self.data[start..self.pos])
    }

    /// Reads a value only if the next tag is `expected_tag`; otherwise stays
    /// where it is.
    pub fn read_tlv_opt(&mut self, expected_tag: u8) -> (r: Result<Option<&'a [u8]>, String>)
        requires
            old(self).wf(),
        ensures
            final(self).wf(),
            final(self).data == old(self).data,
            match tlv_opt_at(old(self).data@, old(self).pos as int, expected_tag) {
                Ok((Some(content), end)) => r matches Ok(Some(c)) && c@ == content
                    && final(self).pos == end,
                Ok((None, end)) => r matches Ok(None) && final(self).pos == end,
                Err(msg) => r matches Err(e) && e@ == msg && final(self).pos == tlv_stop(
                    old(self).data@,
                    old(self).pos as int,
                    expected_tag,
                ),
            },
    {
        if self.peek_tag() == Some(expected_tag) {
            match self.read_tlv(expected_tag) {
                Ok(c) => Ok(Some(c)),
                Err(e) => Err(e),
            }
        } else {
            Ok(None)
        }
    }
}

} // verus!
