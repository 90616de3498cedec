//! Which certificates are trusted, and what stands where in the bytes of one.

use vstd::prelude::*;
use vstd::utf8;

use super::der;
use super::der::{CertificateView, Curve, DetailsView, Network};
use super::pem;
use super::tlv;
use super::verify;
use crate::bytes;
use crate::net::IpAddr;
use crate::protocol::error::Error;
use crate::text;

verus! {

/// The number that stands for a curve.
pub open spec fn number_of(c: Curve) -> u8 {
    if c == Curve::P256 {
        1
    } else {
        0
    }
}

/// What an authority signs is the raw details, one byte for the curve, and the
/// public key, in this order, and a certificate is named by the digest of that
/// and the signature.
pub proof fn signature_and_name_cover_everything(c: CertificateView)
    ensures
        der::signed_bytes(c) == c.raw_details.push(number_of(c.curve)) + c.public_key,
        verify::fingerprint_of(c) == verify::sha256(
            c.raw_details.push(number_of(c.curve)) + c.public_key + c.signature,
        ),
{
    assert(der::signed_bytes(c) =~= c.raw_details.push(number_of(c.curve)) + c.public_key);
}

/// Whether a certificate carries the signature of the holder of a key.
pub open spec fn is_signed_with(c: CertificateView, key: Seq<u8>) -> bool {
    &&& key.len() == 32
    &&& c.signature.len() == 64
    &&& verify::ed25519_verifies(
        key,
        c.raw_details.push(number_of(c.curve)) + c.public_key,
        c.signature,
    )
}

/// A signature is accepted exactly if the certificate is one of a Curve25519
/// key and was signed with the authority's key. A certificate on the other
/// curve is not supported, and any other is said to have an invalid signature.
pub proof fn signatures_are_told_apart(c: CertificateView, key: Seq<u8>)
    ensures
        ({
            let r = verify::signature_outcome(
                c,
                key,
                verify::ed25519_verifies(key, der::signed_bytes(c), c.signature),
            );
            &&& r is Ok <==> c.curve == Curve::Curve25519 && is_signed_with(c, key)
            &&& r == Err::<(), Error>(Error::CertUnsupportedCurve) <==> c.curve == Curve::P256
            &&& r == Err::<(), Error>(Error::CertSignatureInvalid) <==> c.curve
                == Curve::Curve25519 && !is_signed_with(c, key)
        }),
{
    signature_and_name_cover_everything(c);
}

/// Whether a moment is within the time that a certificate is for, both ends
/// included.
pub open spec fn is_in_force(c: CertificateView, now: i64) -> bool {
    c.details.not_before <= now && now <= c.details.not_after
}

/// A certificate has expired exactly when it is not in force.
pub proof fn certificates_last_from_start_to_end(c: CertificateView, now: i64)
    ensures
        verify::expired(c, now) == !is_in_force(c, now),
{
}

/// Whether a certificate names an authority, by the digest of all that the
/// authority's own certificate holds.
pub open spec fn names(c: CertificateView, ca: CertificateView) -> bool {
    c.details.issuer == verify::sha256(
        ca.raw_details.push(number_of(ca.curve)) + ca.public_key + ca.signature,
    )
}

/// A host's certificate is accepted exactly if it is no authority's and the
/// other one is, both are in force, it names the authority, was signed with
/// the authority's key, is for a Curve25519 key, and has a network. What is
/// said of one that is refused is the first of these that fails.
pub proof fn trusted_certificate_is_accepted(cert: CertificateView, ca: CertificateView, now: i64)
    ensures
        ({
            let r = verify::issued_by(cert, ca, now);
            let roles = !cert.details.is_ca && ca.details.is_ca;
            let dates = is_in_force(cert, now) && is_in_force(ca, now);
            let named = names(cert, ca);
            let curve = cert.curve == Curve::Curve25519;
            let signed = is_signed_with(cert, ca.public_key);
            let networks = cert.details.networks.len() > 0;
            &&& r is Ok <==> roles && dates && named && curve && signed && networks
            &&& r == Err::<(), Error>(Error::CertSignatureInvalid) <==> !roles || (dates && named
                && curve && !signed)
            &&& r == Err::<(), Error>(Error::CertExpired) <==> roles && !dates
            &&& r == Err::<(), Error>(Error::CertUntrusted) <==> roles && dates && !named
            &&& r == Err::<(), Error>(Error::CertUnsupportedCurve) <==> roles && dates && named
                && !curve
            &&& r == Err::<(), Error>(Error::CertNoNetworks) <==> roles && dates && named && curve
                && signed && !networks
        }),
{
    signature_and_name_cover_everything(cert);
    signature_and_name_cover_everything(ca);
    signatures_are_told_apart(cert, ca.public_key);
}

/// A value is written as its tag, its length and its content. A length below
/// 128 is one byte.
pub proof fn short_values_are_laid_out(tag: u8, content: Seq<u8>)
    requires
        content.len() < 128,
    ensures
        tlv::tlv(tag, content) == seq![tag, content.len() as u8] + content,
{
    reveal(tlv::tlv);
    assert(tlv::tlv(tag, content) =~= seq![tag, content.len() as u8] + content);
}

/// A length of 128 or more is written as the number of bytes it takes, with 128
/// added, and then those bytes. They are as few as can be.
pub proof fn long_values_are_laid_out(tag: u8, content: Seq<u8>, n: nat)
    requires
        content.len() >= 128,
        1 <= n <= 8,
        content.len() < bytes::pow256(n),
        n > 1 ==> content.len() >= bytes::pow256((n - 1) as nat),
    ensures
        tlv::tlv(tag, content) == seq![tag, (128 + n) as u8] + bytes::be_bytes(content.len(), n)
            + content,
{
    reveal(tlv::tlv);
    bytes::lemma_pow256_values();
    reveal_with_fuel(tlv::byte_count, 9);
    assert(tlv::byte_count(content.len()) == n);
    assert(tlv::tlv(tag, content) =~= seq![tag, (128 + n) as u8] + bytes::be_bytes(
        content.len(),
        n,
    ) + content);
}

/// A value with a length of one byte is read if its content is all there: it is
/// what stands behind the length, and the value ends where it does.
pub proof fn short_values_are_read(data: Seq<u8>, pos: int, tag: u8)
    requires
        0 <= pos,
        pos + 1 < data.len() <= usize::MAX,
        data[pos + 1] < 128,
    ensures
        ({
            let end = pos + 2 + data[pos + 1];
            let r = tlv::tlv_at(data, pos, tag);
            &&& r is Ok <==> data[pos] == tag && end <= data.len()
            &&& r is Ok ==> r == Ok::<(Seq<u8>, int), Seq<char>>((data.subrange(pos + 2, end), end))
            &&& data[pos] == tag && end > usize::MAX ==> r == Err::<(Seq<u8>, int), Seq<char>>(
                "length overflow"@,
            )
            &&& data[pos] == tag && data.len() < end <= usize::MAX ==> r == Err::<
                (Seq<u8>, int),
                Seq<char>,
            >("truncated content"@)
        }),
{
}

/// A value with a longer length is read if the length is in one to eight bytes,
/// which are all there, and so is the content.
pub proof fn long_values_are_read(data: Seq<u8>, pos: int, tag: u8, len: usize)
    requires
        0 <= pos,
        pos + 1 < data.len() <= usize::MAX,
        data[pos + 1] >= 128,
        129 <= data[pos + 1] <= 136 && pos + data[pos + 1] - 126 <= data.len() ==> len
            == bytes::be_value(data.subrange(pos + 2, pos + data[pos + 1] - 126)),
    ensures
        ({
            let start = pos + data[pos + 1] - 126;
            let r = tlv::tlv_at(data, pos, tag);
            &&& r is Ok <==> data[pos] == tag && 129 <= data[pos + 1] <= 136 && start + len
                <= data.len()
            &&& r is Ok ==> r == Ok::<(Seq<u8>, int), Seq<char>>(
                (data.subrange(start, start + len), start + len),
            )
            &&& data[pos] == tag && !(129 <= data[pos + 1] <= 136) ==> r == Err::<
                (Seq<u8>, int),
                Seq<char>,
            >("unsupported length encoding"@)
            &&& data[pos] == tag && 129 <= data[pos + 1] <= 136 && data.len() < start <= usize::MAX
                ==> r == Err::<(Seq<u8>, int), Seq<char>>("truncated length"@)
        }),
{
}

/// Without a tag, or with another one, or without a length, there is no value.
pub proof fn values_need_tag_and_length(data: Seq<u8>, pos: int, tag: u8)
    ensures
        pos >= data.len() ==> tlv::tlv_at(data, pos, tag) == Err::<(Seq<u8>, int), Seq<char>>(
            "truncated tag"@,
        ),
        pos < data.len() && data[pos] != tag ==> tlv::tlv_at(data, pos, tag) == Err::<
            (Seq<u8>, int),
            Seq<char>,
        >(
            "expected tag "@ + ("0x"@ + text::digits(tag as nat, 16)) + ", got "@ + ("0x"@
                + text::digits(data[pos] as nat, 16)),
        ),
        pos == data.len() - 1 && data[pos] == tag ==> tlv::tlv_at(data, pos, tag) == Err::<
            (Seq<u8>, int),
            Seq<char>,
        >("truncated length"@),
{
}

/// A value that may be missing is missing exactly if its tag is not there; if
/// it is there it must be whole.
pub proof fn optional_values_go_by_the_tag(data: Seq<u8>, pos: int, tag: u8)
    ensures
        pos >= data.len() || data[pos] != tag ==> tlv::tlv_opt_at(data, pos, tag) == Ok::<
            (Option<Seq<u8>>, int),
            Seq<char>,
        >((None, pos)),
        pos < data.len() && data[pos] == tag ==> (tlv::tlv_opt_at(data, pos, tag) is Ok
            == tlv::tlv_at(data, pos, tag) is Ok),
        tlv::tlv_at(data, pos, tag) matches Ok((content, end)) ==> tlv::tlv_opt_at(data, pos, tag)
            == Ok::<(Option<Seq<u8>>, int), Seq<char>>((Some(content), end)),
{
}

/// An integer is read from one to eight bytes. Of one byte, 128 and above stand
/// for the negative numbers from -128 up, and each further byte makes of the
/// number before it 256 times as much, and adds itself.
pub proof fn integers_are_read_byte_by_byte(b: Seq<u8>, x: u8)
    ensures
        der::int_of(b) is Ok <==> 1 <= b.len() <= 8,
        der::int_of(b) is Err ==> der::int_of(b) == Err::<i64, Seq<char>>(
            "invalid integer length"@,
        ),
        der::int_of(seq![x]) == Ok::<i64, Seq<char>>(
            if x < 128 {
                x as i64
            } else {
                (x - 256) as i64
            },
        ),
        1 <= b.len() <= 7 ==> (der::int_of(b) matches Ok(shorter) && der::int_of(
            b.push(x),
        ) matches Ok(longer) && longer == 256 * shorter + x),
{
    bytes::lemma_pow256_values();
    reveal_with_fuel(bytes::be_value, 2);
    assert(seq![x].drop_last() =~= Seq::<u8>::empty());
    assert(b.push(x).drop_last() =~= b);
    if 1 <= b.len() <= 7 {
        let n = b.len();
        bytes::lemma_be_value_bound(b);
        bytes::lemma_be_value_bound(b.push(x));
        lemma_first_byte_halves(b);
        lemma_first_byte_halves(b.push(x));
        assert(bytes::pow256(n + 1) == 256 * bytes::pow256(n));
        lemma_integer_fits(b);
        lemma_integer_fits(b.push(x));
    }
}

/// The first byte tells which half of the range a number is in.
proof fn lemma_first_byte_halves(b: Seq<u8>)
    requires
        b.len() >= 1,
    ensures
        b[0] >= 128 <==> 2 * bytes::be_value(b) >= bytes::pow256(b.len()),
    decreases b.len(),
{
    bytes::lemma_pow256_values();
    reveal_with_fuel(bytes::be_value, 2);
    if b.len() == 1 {
        assert(b.drop_last() =~= Seq::<u8>::empty());
    } else {
        let a = b.drop_last();
        lemma_first_byte_halves(a);
        assert(bytes::pow256(b.len()) == 256 * bytes::pow256(a.len()));
        assert(bytes::pow256(a.len()) == 256 * bytes::pow256((a.len() - 1) as nat));
    }
}

proof fn lemma_integer_fits(b: Seq<u8>)
    requires
        1 <= b.len() <= 8,
    ensures
        der::int_of(b) matches Ok(v) && v == bytes::be_value(b) - if b[0] >= 128 {
            bytes::pow256(b.len()) as int
        } else {
            0
        },
{
    bytes::lemma_pow256_values();
    bytes::lemma_be_value_bound(b);
    lemma_first_byte_halves(b);
    bytes::lemma_pow256_increases(b.len(), 8);
}

/// A negative integer is written in eight bytes, and one that is not negative
/// in the fewest that it can be read back from.
pub proof fn integers_are_written_short(v: i64)
    ensures
        der::int_of(der::int_bytes(v)) == Ok::<i64, Seq<char>>(v),
        v < 0 ==> der::int_bytes(v).len() == 8,
        v >= 0 ==> 2 * v < bytes::pow256(der::int_bytes(v).len()),
        v >= 0 && der::int_bytes(v).len() > 1 ==> 2 * v >= bytes::pow256(
            (der::int_bytes(v).len() - 1) as nat,
        ),
{
    der::int_round_trips(v);
    bytes::lemma_pow256_values();
    if v < 0 {
        bytes::be_bytes_round_trips(der::twos_complement(v), 8);
    } else {
        reveal_with_fuel(der::int_byte_count, 9);
        bytes::lemma_be_bytes_len(v as nat, der::int_byte_count(v as nat));
    }
}

/// A network is written as the four bytes of an IPv4 address or the sixteen of
/// an IPv6 one, the most significant first, and the length of its prefix.
pub proof fn networks_are_laid_out(n: Network)
    ensures
        match n.addr {
            IpAddr::V4(v) => {
                let b = der::network_bytes(n);
                b.len() == 5 && bytes::four_at(b, 0) == v && b[4] == n.prefix_len
            },
            IpAddr::V6(v) => {
                let b = der::network_bytes(n);
                b.len() == 17 && bytes::be_value(b.take(16)) == v && b[16] == n.prefix_len
            },
        },
{
    bytes::lemma_pow256_values();
    match n.addr {
        IpAddr::V4(v) => {
            bytes::be_bytes_round_trips(v as nat, 4);
            let a = bytes::be_bytes(v as nat, 4);
            bytes::four_bytes_spell_a_number(a);
            let b = der::network_bytes(n);
            assert(b[0] == a[0] && b[1] == a[1] && b[2] == a[2] && b[3] == a[3]);
        },
        IpAddr::V6(v) => {
            bytes::be_bytes_round_trips(v as nat, 16);
            assert(der::network_bytes(n).take(16) =~= bytes::be_bytes(v as nat, 16));
        },
    }
}

/// Five bytes are read as an IPv4 network, seventeen as an IPv6 one, and any
/// other number of bytes is none. No length of prefix is refused.
pub proof fn networks_are_read(b: Seq<u8>)
    ensures
        der::network_of(b) is Ok <==> b.len() == 5 || b.len() == 17,
        b.len() != 5 && b.len() != 17 ==> der::network_of(b) == Err::<Network, Seq<char>>(
            "invalid network length "@ + text::digits(b.len(), 10),
        ),
        b.len() == 5 ==> (der::network_of(b) matches Ok(n) && n.addr matches IpAddr::V4(v) && v
            == bytes::four_at(b, 0) && n.prefix_len == b[4]),
        b.len() == 17 ==> (der::network_of(b) matches Ok(n) && n.addr matches IpAddr::V6(v) && v
            == bytes::be_value(b.take(16)) && n.prefix_len == b[16]),
{
    bytes::lemma_pow256_values();
    if b.len() == 5 {
        bytes::four_bytes_spell_a_number(b.take(4));
        bytes::lemma_be_value_bound(b.take(4));
    }
    if b.len() == 17 {
        bytes::lemma_be_value_bound(b.take(16));
    }
}

/// Each curve has its number, and no other number stands for a curve.
pub proof fn curves_have_numbers(c: Curve, x: u8)
    ensures
        der::curve_byte(c) == number_of(c),
        der::curve_of(x) == Ok::<Curve, Seq<char>>(c) <==> x == number_of(c),
        der::curve_of(x) is Ok <==> x <= 1,
        x > 1 ==> der::curve_of(x) == Err::<Curve, Seq<char>>(
            "unknown curve "@ + text::digits(x as nat, 10),
        ),
{
}

/// Values one after the other are those of the front and then those of the
/// rest, and one alone is the value itself. A list is one value around them,
/// and an empty list is nothing at all.
pub proof fn lists_are_laid_out(
    tag: u8,
    item_tag: u8,
    front: Seq<Seq<u8>>,
    rest: Seq<Seq<u8>>,
    item: Seq<u8>,
)
    ensures
        tlv::tlvs(item_tag, front + rest) == tlv::tlvs(item_tag, front) + tlv::tlvs(item_tag, rest),
        tlv::tlvs(item_tag, seq![item]) == tlv::tlv(item_tag, item),
        tlv::list_bytes(tag, item_tag, Seq::empty()) == Seq::<u8>::empty(),
        front.len() > 0 ==> tlv::list_bytes(tag, item_tag, front) == tlv::tlv(
            tag,
            tlv::tlvs(item_tag, front),
        ),
    decreases front.len(),
{
    reveal(tlv::list_bytes);
    reveal_with_fuel(tlv::tlvs, 2);
    assert(seq![item].drop_first() =~= Seq::<Seq<u8>>::empty());
    if front.len() == 0 {
        assert(front + rest =~= rest);
    } else {
        lists_are_laid_out(tag, item_tag, front.drop_first(), rest, item);
        assert((front + rest).drop_first() =~= front.drop_first() + rest);
        assert((front + rest)[0] == front[0]);
    }
}

/// The values of a list are read one by one to the end of the list; it is read
/// only if each of them is.
pub proof fn lists_are_read_item_by_item<T>(
    data: Seq<u8>,
    pos: int,
    tag: u8,
    decode: spec_fn(Seq<u8>) -> Result<T, Seq<char>>,
)
    ensures
        pos >= data.len() ==> tlv::items_at(data, pos, tag, decode) == Ok::<Seq<T>, Seq<char>>(
            Seq::empty(),
        ),
        pos < data.len() ==> match tlv::items_at(data, pos, tag, decode) {
            Ok(items) => tlv::tlv_at(data, pos, tag) matches Ok((content, end)) && items.len() > 0
                && decode(content) == Ok::<T, Seq<char>>(items[0]) && tlv::items_at(
                data,
                end,
                tag,
                decode,
            ) == Ok::<Seq<T>, Seq<char>>(items.skip(1)),
            Err(e) => match tlv::tlv_at(data, pos, tag) {
                Err(bad) => bad == e,
                Ok((content, end)) => match decode(content) {
                    Err(bad) => bad == e,
                    Ok(_) => tlv::items_at(data, end, tag, decode) == Err::<Seq<T>, Seq<char>>(e),
                },
            },
        },
{
    if pos < data.len() {
        if let Ok((content, end)) = tlv::tlv_at(data, pos, tag) {
            tlv::lemma_tlv_ends_later(data, pos, tag);
            if let Ok(item) = decode(content) {
                if let Ok(rest) = tlv::items_at(data, end, tag, decode) {
                    assert((seq![item] + rest).skip(1) =~= rest);
                }
            }
        }
    }
}

/// Networks stand in a list of octet strings and groups in one of texts. A list
/// that is missing is empty, and one that is there must be read as a whole.
pub proof fn networks_and_groups_stand_in_lists(
    data: Seq<u8>,
    pos: int,
    tag: u8,
    network: spec_fn(Seq<u8>) -> Result<Network, Seq<char>>,
    group: spec_fn(Seq<u8>) -> Result<Seq<char>, Seq<char>>,
)
    requires
        forall|b: Seq<u8>| #[trigger] network(b) == der::network_of(b),
        forall|b: Seq<u8>| #[trigger] group(b) == der::text_of(b, "group is not valid utf-8"@),
    ensures
        match tlv::tlv_opt_at(data, pos, tag) {
            Err(e) => der::networks_at(data, pos, tag) == Err::<(Seq<Network>, int), Seq<char>>(e),
            Ok((None, end)) => end == pos && der::networks_at(data, pos, tag) == Ok::<
                (Seq<Network>, int),
                Seq<char>,
            >((Seq::empty(), pos)),
            Ok((Some(content), end)) => match tlv::items_at(content, 0, 0x04, network) {
                Ok(items) => der::networks_at(data, pos, tag) == Ok::<
                    (Seq<Network>, int),
                    Seq<char>,
                >((items, end)),
                Err(e) => der::networks_at(data, pos, tag) == Err::<
                    (Seq<Network>, int),
                    Seq<char>,
                >(e),
            },
        },
        match tlv::tlv_opt_at(data, pos, 0xA3) {
            Err(e) => der::groups_at(data, pos) == Err::<(Seq<Seq<char>>, int), Seq<char>>(e),
            Ok((None, end)) => end == pos && der::groups_at(data, pos) == Ok::<
                (Seq<Seq<char>>, int),
                Seq<char>,
            >((Seq::empty(), pos)),
            Ok((Some(content), end)) => match tlv::items_at(content, 0, 0x0C, group) {
                Ok(items) => der::groups_at(data, pos) == Ok::<
                    (Seq<Seq<char>>, int),
                    Seq<char>,
                >((items, end)),
                Err(e) => der::groups_at(data, pos) == Err::<(Seq<Seq<char>>, int), Seq<char>>(e),
            },
        },
{
    assert(network =~= |b: Seq<u8>| der::network_of(b));
    assert(group =~= |b: Seq<u8>| der::text_of(b, "group is not valid utf-8"@));
}

/// Text is what valid UTF-8 encodes, and nothing else is text.
pub proof fn texts_are_utf8(b: Seq<u8>, msg: Seq<char>)
    ensures
        utf8::valid_utf8(b) ==> der::text_of(b, msg) == Ok::<Seq<char>, Seq<char>>(
            utf8::decode_utf8(b),
        ),
        !utf8::valid_utf8(b) ==> der::text_of(b, msg) == Err::<Seq<char>, Seq<char>>(msg),
{
    reveal(der::text_of);
}

/// The details of a certificate are its name, networks, unsafe networks and
/// groups, the mark of an authority, the two ends of its time and its issuer,
/// each behind a tag of its own. What is empty is left out, but the name.
pub proof fn details_are_laid_out(d: DetailsView)
    ensures
        ({
            let networks = Seq::new(d.networks.len(), |i: int| der::network_bytes(d.networks[i]));
            let others = Seq::new(
                d.unsafe_networks.len(),
                |i: int| der::network_bytes(d.unsafe_networks[i]),
            );
            let groups = Seq::new(d.groups.len(), |i: int| utf8::encode_utf8(d.groups[i]));
            der::details_bytes(d) == tlv::tlv(
                0xA0,
                tlv::tlv(0x80, utf8::encode_utf8(d.name)) + tlv::list_bytes(0xA1, 0x04, networks)
                    + tlv::list_bytes(0xA2, 0x04, others) + tlv::list_bytes(0xA3, 0x0C, groups)
                    + (if d.is_ca {
                    tlv::tlv(0x84, seq![0xffu8])
                } else {
                    Seq::empty()
                }) + tlv::tlv(0x85, der::int_bytes(d.not_before)) + tlv::tlv(
                    0x86,
                    der::int_bytes(d.not_after),
                ) + (if d.issuer.len() > 0 {
                    tlv::tlv(0x87, d.issuer)
                } else {
                    Seq::empty()
                }),
            )
        }),
{
    reveal(der::fields_bytes);
    let networks = Seq::new(d.networks.len(), |i: int| der::network_bytes(d.networks[i]));
    let others = Seq::new(
        d.unsafe_networks.len(),
        |i: int| der::network_bytes(d.unsafe_networks[i]),
    );
    let groups = Seq::new(d.groups.len(), |i: int| utf8::encode_utf8(d.groups[i]));
    assert(networks =~= der::network_items(d.networks));
    assert(others =~= der::network_items(d.unsafe_networks));
    assert(groups =~= der::group_items(d.groups));
    lemma_eight_in_a_row(
        tlv::tlv(0x80, utf8::encode_utf8(d.name)),
        tlv::list_bytes(0xA1, 0x04, networks),
        tlv::list_bytes(0xA2, 0x04, others),
        tlv::list_bytes(0xA3, 0x0C, groups),
        der::is_ca_bytes(d.is_ca),
        tlv::tlv(0x85, der::int_bytes(d.not_before)),
        tlv::tlv(0x86, der::int_bytes(d.not_after)),
        der::issuer_bytes(d.issuer),
    );
}

proof fn lemma_eight_in_a_row(
    a: Seq<u8>,
    b: Seq<u8>,
    c: Seq<u8>,
    d: Seq<u8>,
    e: Seq<u8>,
    f: Seq<u8>,
    g: Seq<u8>,
    h: Seq<u8>,
)
    ensures
        a + (b + (c + (d + (e + (f + (g + h)))))) == a + b + c + d + e + f + g + h,
{
    assert(a + (b + (c + (d + (e + (f + (g + h)))))) =~= a + b + c + d + e + f + g + h);
}

/// The fields of details are read in their order: what is read of each is what
/// its value holds. The mark of an authority counts whatever it holds, and what
/// follows the last field does not count.
pub proof fn details_are_read_in_order(
    b: Seq<u8>,
    name: (Seq<u8>, int),
    networks: (Seq<Network>, int),
    unsafe_networks: (Seq<Network>, int),
    groups: (Seq<Seq<char>>, int),
    ca: (Option<Seq<u8>>, int),
    not_before: (Seq<u8>, int),
    not_after: (Seq<u8>, int),
    issuer: (Option<Seq<u8>>, int),
)
    requires
        tlv::tlv_at(b, 0, 0x80) == Ok::<(Seq<u8>, int), Seq<char>>(name),
        utf8::valid_utf8(name.0),
        der::networks_at(b, name.1, 0xA1) == Ok::<(Seq<Network>, int), Seq<char>>(networks),
        der::networks_at(b, networks.1, 0xA2) == Ok::<(Seq<Network>, int), Seq<char>>(
            unsafe_networks,
        ),
        der::groups_at(b, unsafe_networks.1) == Ok::<(Seq<Seq<char>>, int), Seq<char>>(groups),
        tlv::tlv_opt_at(b, groups.1, 0x84) == Ok::<(Option<Seq<u8>>, int), Seq<char>>(ca),
        tlv::tlv_at(b, ca.1, 0x85) == Ok::<(Seq<u8>, int), Seq<char>>(not_before),
        1 <= not_before.0.len() <= 8,
        tlv::tlv_at(b, not_before.1, 0x86) == Ok::<(Seq<u8>, int), Seq<char>>(not_after),
        1 <= not_after.0.len() <= 8,
        tlv::tlv_opt_at(b, not_after.1, 0x87) == Ok::<(Option<Seq<u8>>, int), Seq<char>>(issuer),
    ensures
        der::fields_of(b) matches Ok(d) && {
            &&& d.name == utf8::decode_utf8(name.0)
            &&& d.networks == networks.0
            &&& d.unsafe_networks == unsafe_networks.0
            &&& d.groups == groups.0
            &&& d.is_ca == ca.0 is Some
            &&& der::int_of(not_before.0) == Ok::<i64, Seq<char>>(d.not_before)
            &&& der::int_of(not_after.0) == Ok::<i64, Seq<char>>(d.not_after)
            &&& issuer.0 is Some ==> d.issuer == issuer.0->0
            &&& issuer.0 is None ==> d.issuer == Seq::<u8>::empty()
        },
{
    texts_are_utf8(name.0, "name is not valid utf-8"@);
    integers_are_read_byte_by_byte(not_before.0, 0);
    integers_are_read_byte_by_byte(not_after.0, 0);
}

/// Details are read only if every field that must be there is, in its place,
/// and every field that is there is whole.
pub proof fn details_need_their_fields(b: Seq<u8>)
    requires
        der::fields_of(b) is Ok,
    ensures
        tlv::tlv_at(b, 0, 0x80) matches Ok((name, p1)) && {
            &&& utf8::valid_utf8(name)
            &&& der::networks_at(b, p1, 0xA1) matches Ok((_, p2)) && der::networks_at(
                b,
                p2,
                0xA2,
            ) matches Ok((_, p3)) && der::groups_at(b, p3) matches Ok((_, p4)) && tlv::tlv_opt_at(
                b,
                p4,
                0x84,
            ) matches Ok((_, p5)) && tlv::tlv_at(b, p5, 0x85) matches Ok((not_before, p6)) && {
                &&& 1 <= not_before.len() <= 8
                &&& tlv::tlv_at(b, p6, 0x86) matches Ok((not_after, p7)) && {
                    &&& 1 <= not_after.len() <= 8
                    &&& tlv::tlv_opt_at(b, p7, 0x87) is Ok
                }
            }
        },
{
    reveal(der::text_of);
}

/// What is said of details that cannot be read is what is wrong with the first
/// field that cannot.
pub proof fn details_are_refused_for_the_first_bad_field(b: Seq<u8>, e: Seq<char>)
    ensures
        tlv::tlv_at(b, 0, 0x80) == Err::<(Seq<u8>, int), Seq<char>>(e) ==> der::fields_of(b)
            == Err::<DetailsView, Seq<char>>(e),
        tlv::tlv_at(b, 0, 0x80) matches Ok((name, p1)) ==> {
            let networks = der::networks_at(b, p1, 0xA1);
            &&& !utf8::valid_utf8(name) ==> der::fields_of(b) == Err::<DetailsView, Seq<char>>(
                "name is not valid utf-8"@,
            )
            &&& utf8::valid_utf8(name) && networks == Err::<(Seq<Network>, int), Seq<char>>(e)
                ==> der::fields_of(b) == Err::<DetailsView, Seq<char>>(e)
            &&& networks matches Ok((_, p2)) ==> utf8::valid_utf8(name) ==> {
                let others = der::networks_at(b, p2, 0xA2);
                &&& others == Err::<(Seq<Network>, int), Seq<char>>(e) ==> der::fields_of(b)
                    == Err::<DetailsView, Seq<char>>(e)
                &&& others matches Ok((_, p3)) ==> {
                    let groups = der::groups_at(b, p3);
                    &&& groups == Err::<(Seq<Seq<char>>, int), Seq<char>>(e) ==> der::fields_of(b)
                        == Err::<DetailsView, Seq<char>>(e)
                    &&& groups matches Ok((_, p4)) ==> {
                        let ca = tlv::tlv_opt_at(b, p4, 0x84);
                        &&& ca == Err::<(Option<Seq<u8>>, int), Seq<char>>(e) ==> der::fields_of(b)
                            == Err::<DetailsView, Seq<char>>(e)
                        &&& ca matches Ok((_, p5)) ==> is_refused_for_its_dates(b, p5, e)
                    }
                }
            }
        },
{
    reveal(der::text_of);
}

/// Whether details with bad dates from `pos` on, or a bad issuer behind those,
/// are refused for the first of these.
pub open spec fn is_refused_for_its_dates(b: Seq<u8>, pos: int, e: Seq<char>) -> bool {
    let refused = der::fields_of(b) == Err::<DetailsView, Seq<char>>(e);
    let start = tlv::tlv_at(b, pos, 0x85);
    &&& start == Err::<(Seq<u8>, int), Seq<char>>(e) ==> refused
    &&& start matches Ok((from, p6)) ==> {
        let end = tlv::tlv_at(b, p6, 0x86);
        &&& der::int_of(from) == Err::<i64, Seq<char>>(e) ==> refused
        &&& der::int_of(from) is Ok && end == Err::<(Seq<u8>, int), Seq<char>>(e) ==> refused
        &&& end matches Ok((to, p7)) ==> der::int_of(from) is Ok ==> {
            &&& der::int_of(to) == Err::<i64, Seq<char>>(e) ==> refused
            &&& der::int_of(to) is Ok && tlv::tlv_opt_at(b, p7, 0x87) == Err::<
                (Option<Seq<u8>>, int),
                Seq<char>,
            >(e) ==> refused
        }
    }
}

/// Details stand behind a tag of their own, and what follows them does not
/// count.
pub proof fn details_stand_behind_their_tag(raw: Seq<u8>)
    ensures
        match tlv::tlv_at(raw, 0, 0xA0) {
            Ok((fields, _)) => der::details_of(raw) == der::fields_of(fields),
            Err(e) => der::details_of(raw) == Err::<DetailsView, Seq<char>>(e),
        },
{
    reveal(der::details_of);
}

/// A certificate is the raw details, the curve unless it is Curve25519, the
/// public key and the signature, in one sequence. In a handshake the curve and
/// the key are left out.
pub proof fn certificates_are_laid_out(c: CertificateView)
    ensures
        der::cert_bytes(c) == tlv::tlv(
            0x30,
            c.raw_details + (if c.curve == Curve::P256 {
                tlv::tlv(0x81, seq![1u8])
            } else {
                Seq::empty()
            }) + tlv::tlv(0x82, c.public_key) + tlv::tlv(0x83, c.signature),
        ),
        der::handshake_bytes(c) == tlv::tlv(0x30, c.raw_details + tlv::tlv(0x83, c.signature)),
{
    let (a, d, e) = (
        der::curve_bytes(c.curve),
        tlv::tlv(0x82, c.public_key),
        tlv::tlv(0x83, c.signature),
    );
    assert(c.raw_details + (a + (d + e)) =~= c.raw_details + a + d + e);
}

/// A certificate is read field by field: its details and their bytes, the
/// curve, which is Curve25519 where there is none, the public key and the
/// signature. What follows does not count.
pub proof fn certificates_are_read_in_order(
    b: Seq<u8>,
    envelope: (Seq<u8>, int),
    raw: (Seq<u8>, int),
    curve: (Option<Seq<u8>>, int),
    key: (Seq<u8>, int),
    signature: (Seq<u8>, int),
)
    requires
        tlv::tlv_at(b, 0, 0x30) == Ok::<(Seq<u8>, int), Seq<char>>(envelope),
        tlv::tlv_at(envelope.0, 0, 0xA0) == Ok::<(Seq<u8>, int), Seq<char>>(raw),
        der::details_of(envelope.0.take(raw.1)) is Ok,
        tlv::tlv_opt_at(envelope.0, raw.1, 0x81) == Ok::<(Option<Seq<u8>>, int), Seq<char>>(curve),
        curve.0 matches Some(c) ==> c.len() == 1 && c[0] <= 1,
        tlv::tlv_at(envelope.0, curve.1, 0x82) == Ok::<(Seq<u8>, int), Seq<char>>(key),
        tlv::tlv_at(envelope.0, key.1, 0x83) == Ok::<(Seq<u8>, int), Seq<char>>(signature),
    ensures
        der::cert_of(b) matches Ok(c) && {
            &&& der::details_of(envelope.0.take(raw.1)) == Ok::<DetailsView, Seq<char>>(c.details)
            &&& c.raw_details == envelope.0.take(raw.1)
            &&& c.curve == Curve::P256 <==> curve.0 == Some(seq![1u8])
            &&& c.public_key == key.0
            &&& c.signature == signature.0
        },
{
    assert(envelope.0.subrange(0, raw.1) =~= envelope.0.take(raw.1));
    if let Some(c) = curve.0 {
        assert(c =~= seq![c[0]]);
        assert(c == seq![1u8] ==> c[0] == 1);
    }
}

/// A certificate is read only if every field that must be there is, in its
/// place, and every field that is there is whole.
pub proof fn certificates_need_their_fields(b: Seq<u8>)
    requires
        der::cert_of(b) is Ok,
    ensures
        tlv::tlv_at(b, 0, 0x30) matches Ok((envelope, _)) && tlv::tlv_at(
            envelope,
            0,
            0xA0,
        ) matches Ok((_, p1)) && {
            &&& der::details_of(envelope.take(p1)) is Ok
            &&& tlv::tlv_opt_at(envelope, p1, 0x81) matches Ok((curve, p2)) && {
                &&& curve matches Some(c) ==> c.len() == 1 && c[0] <= 1
                &&& tlv::tlv_at(envelope, p2, 0x82) matches Ok((_, p3)) && tlv::tlv_at(
                    envelope,
                    p3,
                    0x83,
                ) is Ok
            }
        },
{
    if let Ok((envelope, _)) = tlv::tlv_at(b, 0, 0x30) {
        if let Ok((_, p1)) = tlv::tlv_at(envelope, 0, 0xA0) {
            assert(envelope.subrange(0, p1) =~= envelope.take(p1));
        }
    }
}

/// What is said of a certificate that cannot be read is what is wrong with the
/// first field that cannot.
pub proof fn certificates_are_refused_for_the_first_bad_field(b: Seq<u8>, e: Seq<char>)
    ensures
        ({
            let refused = der::cert_of(b) == Err::<CertificateView, Seq<char>>(e);
            &&& tlv::tlv_at(b, 0, 0x30) == Err::<(Seq<u8>, int), Seq<char>>(e) ==> refused
            &&& tlv::tlv_at(b, 0, 0x30) matches Ok((envelope, _)) ==> {
                let raw = tlv::tlv_at(envelope, 0, 0xA0);
                &&& raw == Err::<(Seq<u8>, int), Seq<char>>(e) ==> refused
                &&& raw matches Ok((_, p1)) ==> {
                    let details = der::details_of(envelope.take(p1));
                    let curve = tlv::tlv_opt_at(envelope, p1, 0x81);
                    &&& details == Err::<DetailsView, Seq<char>>(e) ==> refused
                    &&& details is Ok && curve == Err::<(Option<Seq<u8>>, int), Seq<char>>(e)
                        ==> refused
                    &&& curve matches Ok((Some(c), _)) ==> details is Ok ==> {
                        &&& c.len() != 1 ==> der::cert_of(b) == Err::<CertificateView, Seq<char>>(
                            "invalid curve encoding"@,
                        )
                        &&& c.len() == 1 && der::curve_of(c[0]) == Err::<Curve, Seq<char>>(e)
                            ==> refused
                    }
                    &&& curve matches Ok((c, p2)) ==> details is Ok ==> {
                        let known = c is None || (c->0.len() == 1 && c->0[0] <= 1);
                        let key = tlv::tlv_at(envelope, p2, 0x82);
                        &&& known && key == Err::<(Seq<u8>, int), Seq<char>>(e) ==> refused
                        &&& key matches Ok((_, p3)) ==> known && tlv::tlv_at(envelope, p3, 0x83)
                            == Err::<(Seq<u8>, int), Seq<char>>(e) ==> refused
                    }
                }
            }
        }),
{
    if let Ok((envelope, _)) = tlv::tlv_at(b, 0, 0x30) {
        if let Ok((_, p1)) = tlv::tlv_at(envelope, 0, 0xA0) {
            assert(envelope.subrange(0, p1) =~= envelope.take(p1));
        }
    }
}

/// A certificate from a handshake has the details and the signature that it
/// brings, and the key and the curve that it is given. It is read exactly if
/// details and signature are there.
pub proof fn handshake_certificates_take_the_key_given(
    b: Seq<u8>,
    public_key: Seq<u8>,
    curve: Curve,
)
    ensures
        der::recombined(b, public_key, curve) matches Ok(c) ==> {
            &&& c.public_key == public_key
            &&& c.curve == curve
            &&& tlv::tlv_at(b, 0, 0x30) matches Ok((envelope, _)) && tlv::tlv_at(
                envelope,
                0,
                0xA0,
            ) matches Ok((_, p1)) && {
                &&& c.raw_details == envelope.take(p1)
                &&& der::details_of(envelope.take(p1)) == Ok::<DetailsView, Seq<char>>(c.details)
                &&& tlv::tlv_at(envelope, p1, 0x83) matches Ok((signature, _)) && c.signature
                    == signature
            }
        },
        tlv::tlv_at(b, 0, 0x30) matches Ok((envelope, _)) ==> tlv::tlv_at(
            envelope,
            0,
            0xA0,
        ) matches Ok((_, p1)) ==> der::details_of(envelope.take(p1)) is Ok ==> tlv::tlv_at(
            envelope,
            p1,
            0x83,
        ) is Ok ==> der::recombined(b, public_key, curve) is Ok,
{
    if let Ok((envelope, _)) = tlv::tlv_at(b, 0, 0x30) {
        if let Ok((_, p1)) = tlv::tlv_at(envelope, 0, 0xA0) {
            assert(envelope.subrange(0, p1) =~= envelope.take(p1));
        }
    }
}

/// Of a PEM block the contents are taken exactly if its tag is the one that is
/// asked for. What is said where there is no block is what was found wrong.
pub proof fn blocks_are_told_apart_by_their_tags(
    tag: Seq<char>,
    contents: Seq<u8>,
    msg: Seq<char>,
    expected: Seq<char>,
)
    ensures
        ({
            let r = pem::contents_of(Ok((tag, contents)), expected);
            &&& r is Ok <==> tag == expected
            &&& r is Ok ==> r == Ok::<Seq<u8>, Seq<char>>(contents)
            &&& r is Err ==> r == Err::<Seq<u8>, Seq<char>>(
                "expected PEM tag "@ + text::debug_text(expected) + ", got "@ + text::debug_text(tag),
            )
        }),
        pem::contents_of(Err(msg), expected) == Err::<Seq<u8>, Seq<char>>(msg),
{
}

/// The tags of certificates and keys in text files.
pub proof fn banners_say_what_they_hold()
    ensures
        pem::CERTIFICATE_V2_BANNER@ == "NEBULA CERTIFICATE V2"@,
        pem::X25519_PRIVATE_KEY_BANNER@ == "NEBULA X25519 PRIVATE KEY"@,
        pem::X25519_PUBLIC_KEY_BANNER@ == "NEBULA X25519 PUBLIC KEY"@,
        pem::ED25519_PRIVATE_KEY_BANNER@ == "NEBULA ED25519 PRIVATE KEY"@,
        pem::ED25519_PUBLIC_KEY_BANNER@ == "NEBULA ED25519 PUBLIC KEY"@,
{
}

/// In hexadecimal a byte is two digits, the one for its upper half first.
pub proof fn bytes_are_two_hexadecimal_digits(b: Seq<u8>, i: int)
    requires
        0 <= i < b.len(),
    ensures
        verify::hex_text(b).len() == 2 * b.len(),
        verify::hex_text(b)[2 * i] == text::digit((b[i] / 16) as nat),
        verify::hex_text(b)[2 * i + 1] == text::digit((b[i] % 16) as nat),
{
    assert((2 * i) / 2 == i && (2 * i + 1) / 2 == i && (2 * i) % 2 == 0 && (2 * i + 1) % 2 == 1);
}

} // verus!
