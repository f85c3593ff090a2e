//! Big-endian numbers and byte sequences.

use vstd::prelude::*;

verus! {

/// The number that the bytes denote, most significant byte first.
pub open spec fn be_value(s: Seq<u8>) -> nat
    decreases s.len(),
{
    if s.len() == 0 {
        0
    } else {
        be_value(s.drop_last()) * 256 + s.last() as nat
    }
}

/// The lowest `len` bytes of `n`, most significant byte first.
pub open spec fn be_bytes(n: nat, len: nat) -> Seq<u8>
    decreases len,
{
    if len == 0 {
        Seq::empty()
    } else {
        be_bytes(n / 256, (len - 1) as nat).push((n % 256) as u8)
    }
}

/// 256 to the power `len`.
pub open spec fn pow256(len: nat) -> nat
    decreases len,
{
    if len == 0 {
        1
    } else {
        pow256((len - 1) as nat) * 256
    }
}

/// The two bytes at `i` as a number.
pub open spec fn be16(s: Seq<u8>, i: int) -> nat {
    (s[i] as nat) * 256 + s[i + 1] as nat
}

pub proof fn lemma_be_bytes_len(n: nat, len: nat)
    ensures
        be_bytes(n, len).len() == len,
    decreases len,
{
    if len > 0 {
        lemma_be_bytes_len(n / 256, (len - 1) as nat);
    }
}

/// Writing a number that fits and reading it back gives the number.
pub proof fn lemma_be_round_trip(n: nat, len: nat)
    requires
        n < pow256(len),
    ensures
        be_bytes(n, len).len() == len,
        be_value(be_bytes(n, len)) == n,
    decreases len,
{
    if len > 0 {
        lemma_be_round_trip(n / 256, (len - 1) as nat);
        assert(be_bytes(n, len).drop_last() == be_bytes(n / 256, (len - 1) as nat));
    }
}

pub proof fn lemma_be_value_bound(s: Seq<u8>)
    ensures
        be_value(s) < pow256(s.len()),
    decreases s.len(),
{
    if s.len() > 0 {
        lemma_be_value_bound(s.drop_last());
    }
}

/// Reading bytes as a number and writing it gives the bytes.
pub proof fn lemma_be_bytes_of_value(s: Seq<u8>)
    ensures
        be_bytes(be_value(s), s.len()) == s,
    decreases s.len(),
{
    if s.len() > 0 {
        let t = s.drop_last();
        lemma_be_bytes_of_value(t);
        let v = be_value(t) * 256 + s.last() as nat;
        assert(v / 256 == be_value(t));
        assert(v % 256 == s.last() as nat);
        assert(s == t.push(s.last()));
    }
}

pub proof fn lemma_pow256()
    ensures
        pow256(1) == 0x100,
        pow256(2) == 0x1_0000,
        pow256(3) == 0x100_0000,
        pow256(4) == 0x1_0000_0000,
        pow256(8) == 0x1_0000_0000_0000_0000,
        pow256(16) == 0x1_0000_0000_0000_0000_0000_0000_0000_0000,
{
    reveal_with_fuel(pow256, 17);
}

pub proof fn lemma_pow256_step(len: nat)
    ensures
        pow256(len + 1) == pow256(len) * 256,
        pow256(len) >= 1,
    decreases len,
{
    if len > 0 {
        lemma_pow256_step((len - 1) as nat);
    }
}

pub proof fn lemma_pow256_le(a: nat, b: nat)
    requires
        a <= b,
    ensures
        pow256(a) <= pow256(b),
    decreases b,
{
    if a < b {
        lemma_pow256_step((b - 1) as nat);
        lemma_pow256_le(a, (b - 1) as nat);
    }
}

/// Reads at most sixteen bytes as a number.
pub fn read_be(s: &[u8]) -> (r: u128)
    requires
        s@.len() <= 16,
    ensures
        r == be_value(s@),
{
    let mut value: u128 = 0;
    let mut i: usize = 0;
    while i < s.len()
        invariant
            i <= s@.len() <= 16,
            value == be_value(s@.take(i as int)),
        decreases s@.len() - i,
    {
        assert(s@.take(i + 1).drop_last() == s@.take(i as int));
        proof {
            lemma_be_value_bound(s@.take(i + 1));
            lemma_pow256();
            lemma_pow256_le((i + 1) as nat, 16);
        }
        value = value * 256 + s[i] as u128;
        i = i + 1;
    }
    assert(s@.take(i as int) == s@);
    value
}

/// Appends the lowest `len` bytes of a number.
pub fn push_be(out: &mut Vec<u8>, n: u128, len: usize)
    ensures
        final(out)@ == old(out)@ + be_bytes(n as nat, len as nat),
    decreases len,
{
    if len > 0 {
        push_be(out, n / 256, len - 1);
        out.push((n % 256) as u8);
    }
    assert(out@ == old(out)@ + be_bytes(n as nat, len as nat));
}

/// The two bytes at `i` as a number.
pub fn read_u16(s: &[u8], i: usize) -> (r: u16)
    requires
        i + 1 < s@.len(),
    ensures
        r == be16(s@, i as int),
{
    s[i] as u16 * 256 + s[i + 1] as u16
}

/// Appends all bytes of a slice.
pub fn push_all(out: &mut Vec<u8>, s: &[u8])
    ensures
        final(out)@ == old(out)@ + s@,
{
    let mut i: usize = 0;
    let ghost start = out@;
    while i < s.len()
        invariant
            i <= s@.len(),
            out@ == start + s@.take(i as int),
        decreases s@.len() - i,
    {
        out.push(s[i]);
        i = i + 1;
        assert(s@.take(i as int) == s@.take(i - 1).push(s@[i - 1]));
    }
    assert(s@.take(i as int) == s@);
}

/// The bytes of a slice.
pub fn to_bytes(s: &[u8]) -> (r: Vec<u8>)
    ensures
        r@ == s@,
{
    let mut out: Vec<u8> = Vec::new();
    push_all(&mut out, s);
    assert(out@ == s@);
    out
}

/// Two bytes that were written are read back.
pub proof fn lemma_be16(n: nat)
    requires
        n <= 65535,
    ensures
        be_bytes(n, 2) == seq![(n / 256) as u8, (n % 256) as u8],
        be16(be_bytes(n, 2), 0) == n,
{
    reveal_with_fuel(be_bytes, 3);
    assert(n / 256 % 256 == n / 256);
    assert(be_bytes(n, 2) =~= seq![(n / 256) as u8, (n % 256) as u8]);
}

/// The first byte of a number is its highest.
pub proof fn law_first_byte_is_the_highest(first: u8, rest: Seq<u8>)
    ensures
        be_value(seq![first] + rest) == first * pow256(rest.len()) + be_value(rest),
        be_value(seq![first]) == first,
    decreases rest.len(),
{
    let s = seq![first] + rest;
    assert(seq![first].drop_last() =~= Seq::<u8>::empty());
    assert(be_value(seq![first].drop_last()) == 0);
    if rest.len() == 0 {
        assert(s =~= seq![first]);
    } else {
        let front = rest.drop_last();
        law_first_byte_is_the_highest(first, front);
        assert(s.drop_last() =~= seq![first] + front);
        lemma_pow256_step(front.len());
        let p = pow256(front.len());
        assert((first * p + be_value(front)) * 256 == first * (p * 256) + be_value(front) * 256)
            by (nonlinear_arith);
    }
}

/// A number is written in as many bytes as were asked for, and read back from them; so are the
/// two bytes of a port.
pub proof fn law_numbers_are_read_back(n: nat, len: nat)
    requires
        n < pow256(len),
    ensures
        be_bytes(n, len).len() == len,
        be_value(be_bytes(n, len)) == n,
        n <= 65535 ==> be_bytes(n, 2) == seq![(n / 256) as u8, (n % 256) as u8],
        n <= 65535 ==> be16(be_bytes(n, 2), 0) == n,
{
    lemma_be_round_trip(n, len);
    if n <= 65535 {
        lemma_be16(n);
    }
}

} // verus!
