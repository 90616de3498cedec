//! Certificates and keys in text files: one PEM block behind a banner that
//! says what it holds.

use vstd::prelude::*;
use vstd::utf8;

use crate::bytes::to_vec;
use crate::protocol::error::Error;
use crate::text;
use crate::text::{debug_of_str, join};

verus! {

pub const CERTIFICATE_V2_BANNER: &'static str = "NEBULA CERTIFICATE V2";
pub const X25519_PRIVATE_KEY_BANNER: &'static str = "NEBULA X25519 PRIVATE KEY";
pub const X25519_PUBLIC_KEY_BANNER: &'static str = "NEBULA X25519 PUBLIC KEY";
pub const ED25519_PRIVATE_KEY_BANNER: &'static str = "NEBULA ED25519 PRIVATE KEY";
pub const ED25519_PUBLIC_KEY_BANNER: &'static str = "NEBULA ED25519 PUBLIC KEY";

/// The tag and the contents of the first PEM block in a text, or what is said
/// where there is none.
pub uninterp spec fn pem_block(input: Seq<u8>) -> Result<(Seq<char>, Seq<u8>), Seq<char>>;

/// The PEM block with a tag and contents.
pub uninterp spec fn pem_text(tag: Seq<char>, contents: Seq<u8>) -> Seq<char>;

/// Whether a PEM block with this tag can be told apart from its framing: the
/// tag is not empty, and holds no dash.
pub open spec fn is_plain_tag(tag: Seq<char>) -> bool {
    tag.len() > 0 && forall|i: int| 0 <= i < tag.len() ==> tag[i] != '-'
}

/// `pem::parse`: the tag and the contents of the first PEM block in a text,
/// or the text of its error.
#[verifier::external_body]
fn parse_block(input: &[u8]) -> (r: Result<(String, Vec<u8>), String>)
    ensures
        match pem_block(input@) {
            Ok((tag, contents)) => r matches Ok(b) && b.0@ == tag && b.1@ == contents,
            Err(msg) => r matches Err(e) && e@ == msg,
        },
{
    match pem::parse(input) {
        Ok(block) => Ok((block.tag().to_string(), block.into_contents())),
        Err(e) => Err(e.to_string()),
    }
}

/// Whether a text is read as a block with a tag and contents.
pub open spec fn reads_as(block: Seq<char>, tag: Seq<char>, contents: Seq<u8>) -> bool {
    pem_block(utf8::encode_utf8(block)) == Ok::<(Seq<char>, Seq<u8>), Seq<char>>((tag, contents))
}

/// `pem::encode`: the PEM block with a tag and contents. [`parse_block`] gets
/// both back from its bytes, if the tag is plain.
#[verifier::external_body]
fn encode_block(tag: &str, contents: Vec<u8>) -> (r: String)
    ensures
        r@ == pem_text(tag@, contents@),
        is_plain_tag(tag@) ==> reads_as(r@, tag@, contents@),
{
    pem::encode(&pem::Pem::new(tag, contents))
}

/// What is said of a tag other than the one expected.
pub open spec fn wrong_tag(expected: Seq<char>, got: Seq<char>) -> Seq<char> {
    "expected PEM tag "@ + text::debug_text(expected) + ", got "@ + text::debug_text(got)
}

/// The contents of a block, given the block and the tag it must have.
pub open spec fn contents_of(
    block: Result<(Seq<char>, Seq<u8>), Seq<char>>,
    expected_tag: Seq<char>,
) -> Result<Seq<u8>, Seq<char>> {
    match block {
        Err(msg) => Err(msg),
        Ok((tag, contents)) => if tag == expected_tag {
            Ok(contents)
        } else {
            Err(wrong_tag(expected_tag, tag))
        },
    }
}

/// The contents of a block, if its tag is `expected_tag`.
pub fn check_block(block: Result<(String, Vec<u8>), String>, expected_tag: &str) -> (r: Result<
    Vec<u8>,
    Error,
>)
    ensures
        match contents_of(
            match block {
                Ok(b) => Ok((b.0@, b.1@)),
                Err(e) => Err(e@),
            },
            expected_tag@,
        ) {
            Ok(contents) => r matches Ok(v) && v@ == contents,
            Err(msg) => r matches Err(Error::Pem(e)) && e@ == msg,
        },
{
    let (tag, contents) = match block {
        Ok(b) => b,
        Err(e) => {
            return Err(Error::Pem(e));
        },
    };
    if tag != expected_tag.to_string() {
        let s = join("expected PEM tag ".to_string(), debug_of_str(expected_tag).as_str());
        let s = join(s, ", got ");
        return Err(Error::Pem(join(s, debug_of_str(tag.as_str()).as_str())));
    }
    Ok(contents)
}

/// Decodes a single PEM block, whose tag must be `expected_tag`.
pub fn decode(input: &[u8], expected_tag: &str) -> (r: Result<Vec<u8>, Error>)
    ensures
        match contents_of(pem_block(input@), expected_tag@) {
            Ok(contents) => r matches Ok(v) && v@ == contents,
            Err(msg) => r matches Err(Error::Pem(e)) && e@ == msg,
        },
{
    check_block(parse_block(input), expected_tag)
}

/// The PEM block with a tag and contents. Decoding it gives the contents
/// back, for every tag that is not empty and holds no dash.
pub fn encode(tag: &str, contents: &[u8]) -> (r: String)
    ensures
        r@ == pem_text(tag@, contents@),
        is_plain_tag(tag@) ==> contents_of(pem_block(utf8::encode_utf8(r@)), tag@) == Ok::<
            Seq<u8>,
            Seq<char>,
        >(contents@),
{
    encode_block(tag, to_vec(contents))
}

/// The tags in use are plain.
pub proof fn banners_are_plain()
    ensures
        is_plain_tag(CERTIFICATE_V2_BANNER@),
        is_plain_tag(X25519_PRIVATE_KEY_BANNER@),
        is_plain_tag(X25519_PUBLIC_KEY_BANNER@),
        is_plain_tag(ED25519_PRIVATE_KEY_BANNER@),
        is_plain_tag(ED25519_PUBLIC_KEY_BANNER@),
{
    reveal_strlit("NEBULA CERTIFICATE V2");
    reveal_strlit("NEBULA X25519 PRIVATE KEY");
    reveal_strlit("NEBULA X25519 PUBLIC KEY");
    reveal_strlit("NEBULA ED25519 PRIVATE KEY");
    reveal_strlit("NEBULA ED25519 PUBLIC KEY");
}

} // verus!
