//! Numbers as bytes.

use vstd::prelude::*;

verus! {

/// 256 to the power `n`.
pub open spec fn pow256(n: nat) -> nat
    decreases n,
{
    if n == 0 {
        1
    } else {
        256 * pow256((n - 1) as nat)
    }
}

/// The number that bytes spell, the most significant one first.
pub open spec fn be_value(b: Seq<u8>) -> nat
    decreases b.len(),
{
    if b.len() == 0 {
        0
    } else {
        256 * be_value(b.drop_last()) + b.last() as nat
    }
}

/// The `n` least significant bytes of a number, the most significant first.
pub open spec fn be_bytes(v: nat, n: nat) -> Seq<u8>
    decreases n,
{
    if n == 0 {
        Seq::empty()
    } else {
        be_bytes(v / 256, (n - 1) as nat).push((v % 256) as u8)
    }
}

/// The `n` least significant bytes of a number, the least significant first.
pub open spec fn le_bytes(v: nat, n: nat) -> Seq<u8> {
    be_bytes(v, n).reverse()
}

pub proof fn lemma_be_bytes_len(v: nat, n: nat)
    ensures
        be_bytes(v, n).len() == n,
    decreases n,
{
    if n > 0 {
        lemma_be_bytes_len(v / 256, (n - 1) as nat);
    }
}

/// A number that fits in `n` bytes is read back from them.
pub proof fn be_bytes_round_trips(v: nat, n: nat)
    requires
        v < pow256(n),
    ensures
        be_bytes(v, n).len() == n,
        be_value(be_bytes(v, n)) == v,
    decreases n,
{
    if n > 0 {
        let shorter = be_bytes(v / 256, (n - 1) as nat);
        be_bytes_round_trips(v / 256, (n - 1) as nat);
        assert(be_bytes(v, n).drop_last() =~= shorter);
        assert(be_bytes(v, n).last() == (v % 256) as u8);
    }
}

/// The number that `n` bytes spell is below 256 to the power `n`.
pub proof fn lemma_be_value_bound(b: Seq<u8>)
    ensures
        be_value(b) < pow256(b.len()),
    decreases b.len(),
{
    if b.len() > 0 {
        lemma_be_value_bound(b.drop_last());
    }
}

/// Bytes are those of the number they spell.
pub proof fn be_value_round_trips(b: Seq<u8>)
    ensures
        be_bytes(be_value(b), b.len()) == b,
    decreases b.len(),
{
    if b.len() > 0 {
        be_value_round_trips(b.drop_last());
        let v = be_value(b);
        assert(v / 256 == be_value(b.drop_last()));
        assert(v % 256 == b.last() as nat);
        assert(be_bytes(v, b.len()) =~= b.drop_last().push(b.last()));
        assert(b.drop_last().push(b.last()) =~= b);
    } else {
        assert(be_bytes(be_value(b), b.len()) =~= b);
    }
}

/// The number that four bytes from a place on spell.
pub open spec fn four_at(b: Seq<u8>, at: int) -> int {
    0x100_0000 * b[at] + 0x1_0000 * b[at + 1] + 0x100 * b[at + 2] + b[at + 3]
}

/// Two bytes spell 256 times the first and the second.
pub proof fn two_bytes_spell_a_number(b: Seq<u8>)
    requires
        b.len() == 2,
    ensures
        be_value(b) == 256 * b[0] + b[1],
{
    reveal_with_fuel(be_value, 3);
    assert(b.drop_last().drop_last() =~= Seq::<u8>::empty());
}

/// Of four bytes each counts 256 times as much as the next.
pub proof fn four_bytes_spell_a_number(b: Seq<u8>)
    requires
        b.len() == 4,
    ensures
        be_value(b) == four_at(b, 0),
{
    reveal_with_fuel(be_value, 5);
    let b3 = b.drop_last();
    let b2 = b3.drop_last();
    let b1 = b2.drop_last();
    assert(b1.drop_last() =~= Seq::<u8>::empty());
}

/// Of eight bytes the first four spell the upper half.
pub proof fn eight_bytes_spell_a_number(b: Seq<u8>)
    requires
        b.len() == 8,
    ensures
        be_value(b) == 0x1_0000_0000 * four_at(b, 0) + four_at(b, 4),
{
    let (x, y) = (b.subrange(0, 4), b.subrange(4, 8));
    four_bytes_spell_a_number(x);
    four_bytes_spell_a_number(y);
    appended_bytes_spell_a_number(x, y);
    lemma_pow256_values();
    let (v, p) = (be_value(x) as int, pow256(y.len()) as int);
    assert(v * p == 0x1_0000_0000 * v) by (nonlinear_arith)
        requires
            p == 0x1_0000_0000,
    ;
    assert(four_at(x, 0) == four_at(b, 0) && four_at(y, 0) == four_at(b, 4));
    assert(x + y =~= b);
}

/// Bytes in front of others count for more than those.
pub proof fn appended_bytes_spell_a_number(a: Seq<u8>, b: Seq<u8>)
    ensures
        be_value(a + b) == be_value(a) * pow256(b.len()) + be_value(b),
    decreases b.len(),
{
    let x = be_value(a) as int;
    if b.len() == 0 {
        assert(a + b =~= a);
        let p = pow256(b.len()) as int;
        assert(x * p == x) by (nonlinear_arith)
            requires
                p == 1,
        ;
    } else {
        appended_bytes_spell_a_number(a, b.drop_last());
        assert((a + b).drop_last() =~= a + b.drop_last());
        let p = pow256((b.len() - 1) as nat) as int;
        assert(256 * (x * p) == x * (256 * p)) by (nonlinear_arith);
    }
}

/// The bytes of a number, the most significant first: each is what is left of
/// the number once the bytes behind it are taken off.
pub proof fn bytes_of_a_number(v: nat, n: nat, i: int)
    requires
        0 <= i < n,
    ensures
        be_bytes(v, n).len() == n,
        be_bytes(v, n)[i] == (v / pow256((n - 1 - i) as nat)) % 256,
        le_bytes(v, n).len() == n,
        le_bytes(v, n)[n - 1 - i] == (v / pow256((n - 1 - i) as nat)) % 256,
    decreases n,
{
    lemma_be_bytes_len(v, n);
    if i == n - 1 {
        assert(v / 1 == v);
    } else {
        let p = pow256((n - 2 - i) as nat) as int;
        lemma_pow256_positive((n - 2 - i) as nat);
        lemma_be_bytes_len(v / 256, (n - 1) as nat);
        bytes_of_a_number(v / 256, (n - 1) as nat, i);
        vstd::arithmetic::div_mod::lemma_div_denominator(v as int, 256, p);
    }
}

proof fn lemma_pow256_positive(n: nat)
    ensures
        pow256(n) > 0,
    decreases n,
{
    if n > 0 {
        lemma_pow256_positive((n - 1) as nat);
    }
}

pub proof fn lemma_pow256_increases(a: nat, b: nat)
    requires
        a <= b,
    ensures
        pow256(a) <= pow256(b),
    decreases b,
{
    if a < b {
        lemma_pow256_increases(a, (b - 1) as nat);
    }
}

pub proof fn lemma_pow256_values()
    ensures
        pow256(0) == 1,
        pow256(1) == 0x100,
        pow256(2) == 0x1_0000,
        pow256(3) == 0x100_0000,
        pow256(4) == 0x1_0000_0000,
        pow256(5) == 0x100_0000_0000,
        pow256(6) == 0x1_0000_0000_0000,
        pow256(7) == 0x100_0000_0000_0000,
        pow256(8) == 0x1_0000_0000_0000_0000,
        pow256(16) == 0x1_0000_0000_0000_0000_0000_0000_0000_0000,
{
    reveal_with_fuel(pow256, 17);
}

/// Appends the `n` least significant bytes of `v`, the most significant first.
pub fn push_be(out: &mut Vec<u8>, v: u128, n: usize)
    ensures
        final(out)@ == old(out)@ + be_bytes(v as nat, n as nat),
    decreases n,
{
    if n > 0 {
        push_be(out, v / 256, n - 1);
        out.push((v % 256) as u8);
        assert(out@ =~= old(out)@ + be_bytes(v as nat, n as nat));
    } else {
        assert(out@ =~= old(out)@ + be_bytes(v as nat, 0));
    }
}

/// The number that up to sixteen bytes spell, the most significant one first.
pub fn read_be(b: &[u8]) -> (r: u128)
    requires
        b@.len() <= 16,
    ensures
        r as nat == be_value(b@),
{
    let mut v: u128 = 0;
    let mut i: usize = 0;
    proof {
        lemma_pow256_values();
    }
    while i < b.len()
        invariant
            i <= b@.len() <= 16,
            v as nat == be_value(b@.take(i as int)),
        decreases b.len() - i,
    {
        proof {
            let next = b@.take(i + 1);
            assert(next.drop_last() =~= b@.take(i as int));
            lemma_be_value_bound(next);
            lemma_pow256_increases((i + 1) as nat, 16);
            lemma_pow256_values();
            assert(next.last() == b@[i as int]);
        }
        v = v * 256 + b[i] as u128;
        i = i + 1;
    }
    assert(b@.take(i as int) =~= b@);
    v
}

/// Appends a slice.
pub fn push_all(out: &mut Vec<u8>, b: &[u8])
    ensures
        final(out)@ == old(out)@ + b@,
{
    out.extend_from_slice(b);
    assert(out@ =~= old(out)@ + b@);
}

/// A copy of a slice.
pub fn to_vec(b: &[u8]) -> (r: Vec<u8>)
    ensures
        r@ == b@,
{
    let mut r: Vec<u8> = Vec::new();
    push_all(&mut r, b);
    assert(r@ =~= b@);
    r
}

/// Bytes as an array, if there are as many as it takes.
pub fn to_key(b: &[u8]) -> (r: Option<[u8; 32]>)
    ensures
        r is Some == (b@.len() == 32),
        r matches Some(a) ==> a@ == b@,
{
    if b.len() != 32 {
        return None;
    }
    let mut a: [u8; 32] = [0u8;32];
    let mut i: usize = 0;
    while i < 32
        invariant
            i <= 32,
            b@.len() == 32,
            forall|j: int| 0 <= j < i ==> a@[j] == b@[j],
        decreases 32 - i,
    {
        a[i] = b[i];
        i = i + 1;
    }
    assert(a@ =~= b@);
    Some(a)
}

} // verus!
