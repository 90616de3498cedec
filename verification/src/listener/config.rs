//! What a node is told by its environment.

use vstd::prelude::*;

use crate::firewall::{LocalCidrSpec, Packet, PeerIdentity, PortSpec, Protocol, RuleSet, RuleSetBuilder};
use crate::net::IpNet;
use crate::protocol::handshake::Cipher;

verus! {

/// Whether a character is white space, as Unicode has it: it has the property
/// `White_Space`.
pub open spec fn white_space(c: char) -> bool {
    let u = c as u32;
    ||| 0x9 <= u <= 0xd
    ||| u == 0x20
    ||| u == 0x85
    ||| u == 0xa0
    ||| u == 0x1680
    ||| 0x2000 <= u <= 0x200a
    ||| 0x2028 <= u <= 0x2029
    ||| u == 0x202f
    ||| u == 0x205f
    ||| u == 0x3000
}

/// `char::is_whitespace`: whether a character has the property `White_Space`.
#[verifier::external_body]
fn is_white_space(c: char) -> (r: bool)
    ensures
        r == white_space(c),
{
    c.is_whitespace()
}

/// A text without the white space around it.
pub open spec fn trimmed(s: Seq<char>) -> Seq<char>
    decreases s.len(),
{
    if s.len() == 0 {
        s
    } else if white_space(s[0]) {
        trimmed(s.drop_first())
    } else if white_space(s.last()) {
        trimmed(s.drop_last())
    } else {
        s
    }
}

/// Where a character first occurs in a text; the text's length if it does
/// not.
pub open spec fn first_at(s: Seq<char>, c: char) -> int
    decreases s.len(),
{
    if s.len() == 0 || s[0] == c {
        0
    } else {
        1 + first_at(s.drop_first(), c)
    }
}

proof fn lemma_first_at(s: Seq<char>, c: char)
    ensures
        0 <= first_at(s, c) <= s.len(),
        first_at(s, c) < s.len() ==> s[first_at(s, c)] == c,
    decreases s.len(),
{
    if s.len() > 0 && s[0] != c {
        lemma_first_at(s.drop_first(), c);
    }
}

/// The entries of a list that are not empty: commas part them, and white
/// space around them does not count.
pub open spec fn entries_of(s: Seq<char>) -> Seq<Seq<char>>
    decreases s.len(),
    via entries_shrink
{
    let at = first_at(s, ',');
    let entry = trimmed(s.take(at));
    let front = if entry.len() > 0 {
        seq![entry]
    } else {
        Seq::empty()
    };
    if at < s.len() {
        front + entries_of(s.skip(at + 1))
    } else {
        front
    }
}

#[via_fn]
proof fn entries_shrink(s: Seq<char>) {
    lemma_first_at(s, ',');
}

/// The two parts of an entry, which the first equals sign parts.
pub open spec fn halves_of(s: Seq<char>) -> Option<(Seq<char>, Seq<char>)> {
    let at = first_at(s, '=');
    if at < s.len() {
        Some((trimmed(s.take(at)), trimmed(s.skip(at + 1))))
    } else {
        None
    }
}

/// A text without the white space around it.
fn trim(s: &str) -> (r: &str)
    ensures
        r@ == trimmed(s@),
{
    let n: usize = s.unicode_len();
    let mut from: usize = 0;
    assert(s@.skip(0) =~= s@);
    while from < n && is_white_space(s.get_char(from))
        invariant
            n == s@.len(),
            from <= n,
            trimmed(s@) == trimmed(s@.skip(from as int)),
        decreases n - from,
    {
        assert(s@.skip(from as int).drop_first() =~= s@.skip(from + 1));
        from = from + 1;
    }
    let mut to: usize = n;
    assert(s@.subrange(from as int, to as int) =~= s@.skip(from as int));
    while from < to && is_white_space(s.get_char(to - 1))
        invariant
            n == s@.len(),
            from <= to <= n,
            from < n ==> !white_space(s@[from as int]),
            trimmed(s@) == trimmed(s@.subrange(from as int, to as int)),
        decreases to - from,
    {
        let ghost rest = s@.subrange(from as int, to as int);
        assert(rest.drop_last() =~= s@.subrange(from as int, to - 1));
        assert(rest.last() == s@[to - 1]);
        assert(rest[0] == s@[from as int]);
        to = to - 1;
    }
    proof {
        let rest = s@.subrange(from as int, to as int);
        if rest.len() > 0 {
            assert(rest[0] == s@[from as int]);
            assert(rest.last() == s@[to - 1]);
        }
    }
    s.substring_char(from, to)
}

/// Where a character first occurs in a text from some place on.
fn find(s: &str, from: usize, c: char) -> (r: usize)
    requires
        from <= s@.len() <= usize::MAX,
    ensures
        r == from + first_at(s@.skip(from as int), c),
        from <= r <= s@.len(),
{
    let n: usize = s.unicode_len();
    let mut i: usize = from;
    proof {
        lemma_first_at(s@.skip(from as int), c);
    }
    while i < n && s.get_char(i) != c
        invariant
            n == s@.len(),
            from <= i <= n,
            from + first_at(s@.skip(from as int), c) == i + first_at(s@.skip(i as int), c),
        decreases n - i,
    {
        assert(s@.skip(i as int).drop_first() =~= s@.skip(i + 1));
        i = i + 1;
    }
    i
}

/// The entries of a list.
pub fn list_entries(raw: &str) -> (r: Vec<String>)
    ensures
        r@.len() == entries_of(raw@).len(),
        forall|i: int| 0 <= i < r@.len() ==> (#[trigger] r@[i])@ == entries_of(raw@)[i],
{
    let n: usize = raw.unicode_len();
    let mut out: Vec<String> = Vec::new();
    let mut from: usize = 0;
    assert(raw@.skip(0) =~= raw@);
    loop
        invariant
            n == raw@.len(),
            from <= n,
            out@.len() + entries_of(raw@.skip(from as int)).len() == entries_of(raw@).len(),
            forall|i: int| 0 <= i < out@.len() ==> (#[trigger] out@[i])@ == entries_of(raw@)[i],
            entries_of(raw@).skip(out@.len() as int) =~= entries_of(raw@.skip(from as int)),
        decreases n - from,
    {
        let at: usize = find(raw, from, ',');
        let entry = trim(raw.substring_char(from, at));
        let ghost s = raw@.skip(from as int);
        let ghost before = out@;
        proof {
            assert(s.take(at - from) =~= raw@.subrange(from as int, at as int));
            if at < n {
                assert(s.skip(at - from + 1) =~= raw@.skip(at + 1));
            }
            assert(entries_of(s) == (if entry@.len() > 0 {
                seq![entry@]
            } else {
                Seq::empty()
            }) + (if at < n {
                entries_of(raw@.skip(at + 1))
            } else {
                Seq::empty()
            }));
        }
        if entry.unicode_len() > 0 {
            assert(entries_of(s)[0] == entry@);
            assert(entries_of(raw@)[before.len() as int] == entries_of(raw@).skip(
                before.len() as int,
            )[0]);
            out.push(entry.to_string());
        }
        proof {
            if at < n {
                let rest = entries_of(raw@.skip(at + 1));
                assert(rest =~= entries_of(s).skip(out@.len() - before.len()));
                assert(entries_of(raw@).skip(out@.len() as int) =~= rest);
            }
        }
        if at >= n {
            return out;
        }
        from = at + 1;
    }
}

/// The two parts of an entry that gives a host and where it can be reached.
pub fn split_entry(entry: &str) -> (r: Option<(String, String)>)
    ensures
        match halves_of(entry@) {
            Some((a, b)) => r matches Some((x, y)) && x@ == a && y@ == b,
            None => r is None,
        },
{
    let n: usize = entry.unicode_len();
    assert(entry@.skip(0) =~= entry@);
    let at: usize = find(entry, 0, '=');
    if at >= n {
        return None;
    }
    assert(entry@.take(at as int) =~= entry@.subrange(0, at as int));
    assert(entry@.skip(at + 1) =~= entry@.subrange(at + 1, n as int));
    Some(
        (
            trim(entry.substring_char(0, at)).to_string(),
            trim(entry.substring_char(at + 1, n)).to_string(),
        ),
    )
}

/// The cipher that a name stands for: AES-GCM unless ChaChaPoly is named.
pub fn cipher_named(name: &str) -> (r: Cipher)
    ensures
        r == (if name@ == "chachapoly"@ {
            Cipher::ChaChaPoly
        } else {
            Cipher::AesGcm
        }),
{
    if name.to_string() == "chachapoly".to_string() {
        Cipher::ChaChaPoly
    } else {
        Cipher::AesGcm
    }
}

/// Rules that let every packet through.
pub fn allow_any(assigned: Vec<IpNet>) -> (r: RuleSet)
    ensures
        forall|packet: Packet, incoming: bool, remote: PeerIdentity| #[trigger]
            r.admits(packet, incoming, remote),
{
    let mut b = RuleSetBuilder::new(assigned, false, true);
    let _ = b.add_rule(
        true,
        Protocol::Any,
        PortSpec::Any,
        Vec::new(),
        None,
        None,
        LocalCidrSpec::Any,
        None,
        None,
    );
    let _ = b.add_rule(
        false,
        Protocol::Any,
        PortSpec::Any,
        Vec::new(),
        None,
        None,
        LocalCidrSpec::Any,
        None,
        None,
    );
    b.build()
}

} // verus!
