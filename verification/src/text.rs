//! Text for people: numbers in words, and bytes as characters.

use vstd::prelude::*;
use vstd::utf8;

verus! {

/// The digit for a value below sixteen.
pub open spec fn digit(d: nat) -> char {
    if d < 10 {
        ('0' as nat + d) as char
    } else {
        ('a' as nat + (d - 10)) as char
    }
}

/// Values below sixteen with the same digit are the same.
pub proof fn lemma_digit_tells_values_apart(a: nat, b: nat)
    requires
        a < 16,
        b < 16,
        digit(a) == digit(b),
    ensures
        a == b,
{
    assert(digit(a) as nat == if a < 10 {
        48 + a
    } else {
        87 + a
    });
    assert(digit(b) as nat == if b < 10 {
        48 + b
    } else {
        87 + b
    });
}

/// A number in a base of at most sixteen, without leading zeros.
pub open spec fn digits(v: nat, base: nat) -> Seq<char>
    decreases v,
{
    if base < 2 || v < base {
        seq![digit(v)]
    } else {
        proof {
            assert(v / base < v) by (nonlinear_arith)
                requires
                    2 <= base <= v,
            ;
        }
        digits(v / base, base).push(digit(v % base))
    }
}

/// `format!` with `{:#x}`: a byte in lower-case hexadecimal behind `0x`.
#[verifier::external_body]
pub(crate) fn hex_of_u8(v: u8) -> (r: String)
    ensures
        r@ == "0x"@ + digits(v as nat, 16),
{
    format!("{v:#x}")
}

/// `format!` with `{}`: a number in decimal.
#[verifier::external_body]
pub(crate) fn decimal_of_usize(v: usize) -> (r: String)
    ensures
        r@ == digits(v as nat, 10),
{
    format!("{v}")
}

/// A string in quotes, with the characters escaped that need to be.
pub uninterp spec fn debug_text(s: Seq<char>) -> Seq<char>;

/// `format!` with `{:?}`: a string in quotes, with the characters escaped
/// that need to be.
#[verifier::external_body]
pub(crate) fn debug_of_str(s: &str) -> (r: String)
    ensures
        r@ == debug_text(s@),
{
    format!("{s:?}")
}

/// `String::from_utf8`: the text that bytes encode, if they are valid UTF-8.
#[verifier::external_body]
pub(crate) fn string_from_utf8(b: Vec<u8>) -> (r: Option<String>)
    ensures
        r is Some == utf8::valid_utf8(b@),
        r matches Some(s) ==> s@ == utf8::decode_utf8(b@),
{
    String::from_utf8(b).ok()
}

/// Two texts, one after the other.
pub fn join(a: String, b: &str) -> (r: String)
    ensures
        r@ == a@ + b@,
{
    a.concat(b)
}

/// A copy of a list of strings.
pub fn clone_strings(v: &Vec<String>) -> (r: Vec<String>)
    ensures
        r@.len() == v@.len(),
        forall|i: int| 0 <= i < v@.len() ==> (#[trigger] r@[i])@ == v@[i]@,
{
    let mut r: Vec<String> = Vec::new();
    let mut i: usize = 0;
    while i < v.len()
        invariant
            i <= v@.len(),
            r@.len() == i,
            forall|j: int| 0 <= j < i ==> (#[trigger] r@[j])@ == v@[j]@,
        decreases v.len() - i,
    {
        r.push(v[i].clone());
        i = i + 1;
    }
    r
}

/// The digits are those of decimal numbers, and the letters from `a` on.
pub proof fn digits_are_ascii(d: nat)
    requires
        d < 16,
    ensures
        d < 10 ==> digit(d) as u32 == 48 + d,
        d >= 10 ==> digit(d) as u32 == 97 + (d - 10),
{
}

/// A number below the base is one digit, and each further digit counts one for
/// what counted as many as the base before.
pub proof fn numbers_are_written_digit_by_digit(v: nat, d: nat, base: nat)
    requires
        2 <= base <= 16,
        d < base,
    ensures
        digits(d, base) == seq![digit(d)],
        v > 0 ==> digits(base * v + d, base) == digits(v, base).push(digit(d)),
{
    if v > 0 {
        let n = base * v + d;
        assert(n >= base) by (nonlinear_arith)
            requires
                v > 0,
                n == base * v + d,
        ;
        assert(n == v * base + d) by (nonlinear_arith)
            requires
                n == base * v + d,
        ;
        vstd::arithmetic::div_mod::lemma_fundamental_div_mod_converse(
            n as int,
            base as int,
            v as int,
            d as int,
        );
    }
}

} // verus!
