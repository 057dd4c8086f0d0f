//! Little-endian numbers and fixed-width fields, as mathematics.

use vstd::prelude::*;

verus! {

/// The number whose little-endian digits, in base 256, are `s`.
pub open spec fn le_nat(s: Seq<u8>) -> nat
    decreases s.len(),
{
    if s.len() == 0 {
        0
    } else {
        s[0] as nat + 256 * le_nat(s.drop_first())
    }
}

/// The `n` least significant digits of `v` in base 256, least significant first.
pub open spec fn le_bytes(v: nat, n: nat) -> Seq<u8>
    decreases n,
{
    if n == 0 {
        Seq::empty()
    } else {
        seq![(v % 256) as u8] + le_bytes(v / 256, (n - 1) as nat)
    }
}

/// How many values `n` bytes can take.
pub open spec fn pow256(n: nat) -> nat
    decreases n,
{
    if n == 0 {
        1
    } else {
        256 * pow256((n - 1) as nat)
    }
}

/// The 64-bit pattern `n` read as a number in two's complement.
pub open spec fn signed_64(n: nat) -> int {
    if n < 0x8000_0000_0000_0000 {
        n as int
    } else {
        n - 0x1_0000_0000_0000_0000
    }
}

/// How many bytes of `s` lie at or after `pos`.
pub open spec fn remaining(s: Seq<u8>, pos: nat) -> nat {
    if pos <= s.len() {
        (s.len() - pos) as nat
    } else {
        0
    }
}

/// The bytes of `s` at and after `pos`.
pub open spec fn bytes_from(s: Seq<u8>, pos: nat) -> Seq<u8> {
    if pos <= s.len() {
        s.skip(pos as int)
    } else {
        Seq::empty()
    }
}

/// The byte of `s` at `pos`.
pub open spec fn byte_at(s: Seq<u8>, pos: nat) -> u8 {
    s[pos as int]
}

/// The `n` bytes of `s` at `pos`.
pub open spec fn bytes_at(s: Seq<u8>, pos: nat, n: nat) -> Seq<u8> {
    bytes_from(s, pos).take(n as int)
}

/// The little-endian number in the `n` bytes of `s` at `pos`.
pub open spec fn field(s: Seq<u8>, pos: nat, n: nat) -> nat {
    le_nat(bytes_at(s, pos, n))
}

/// A number of `n` bytes is below 256 to the power of `n`.
pub proof fn lemma_le_nat_bound(s: Seq<u8>)
    ensures
        le_nat(s) < pow256(s.len()),
    decreases s.len(),
{
    if s.len() > 0 {
        lemma_le_nat_bound(s.drop_first());
    }
}

/// The bounds of the field widths that the events use.
pub proof fn lemma_pow256_values()
    ensures
        pow256(1) == 0x100,
        pow256(2) == 0x1_0000,
        pow256(3) == 0x100_0000,
        pow256(4) == 0x1_0000_0000,
        pow256(7) == 0x100_0000_0000_0000,
        pow256(8) == 0x1_0000_0000_0000_0000,
{
    reveal_with_fuel(pow256, 9);
}

/// What was written as `n` little-endian bytes reads back as the same number.
pub proof fn lemma_le_round_trip(v: nat, n: nat)
    requires
        v < pow256(n),
    ensures
        le_bytes(v, n).len() == n,
        le_nat(le_bytes(v, n)) == v,
    decreases n,
{
    if n > 0 {
        let rest = le_bytes(v / 256, (n - 1) as nat);
        lemma_le_round_trip(v / 256, (n - 1) as nat);
        assert(le_bytes(v, n).drop_first() =~= rest);
    }
}

/// Bytes that are appended behind a field do not change it.
pub proof fn lemma_appended_bytes(s: Seq<u8>, x: Seq<u8>, pos: nat, n: nat)
    requires
        n <= remaining(s, pos),
        pos <= s.len(),
    ensures
        remaining(s + x, pos) == remaining(s, pos) + x.len(),
        bytes_at(s + x, pos, n) == bytes_at(s, pos, n),
        field(s + x, pos, n) == field(s, pos, n),
        n > 0 ==> byte_at(s + x, pos) == byte_at(s, pos),
{
    assert(bytes_at(s + x, pos, n) =~= bytes_at(s, pos, n));
}

/// The middle one of three parts is found by the length of the first, and the last of two
/// likewise.
pub proof fn lemma_part(a: Seq<u8>, m: Seq<u8>, b: Seq<u8>)
    ensures
        bytes_at(a + m + b, a.len(), m.len()) == m,
        bytes_from(a + m, a.len()) == m,
{
    assert(bytes_at(a + m + b, a.len(), m.len()) =~= m);
    assert(bytes_from(a + m, a.len()) =~= m);
}

/// Buffers that hold the same bytes from two positions on hold the same further behind, too.
pub proof fn lemma_same_bytes_behind(s: Seq<u8>, p: nat, t: Seq<u8>, q: nat, k: nat)
    requires
        bytes_from(s, p) == bytes_from(t, q),
    ensures
        bytes_from(s, p + k) == bytes_from(t, q + k),
        remaining(s, p + k) == remaining(t, q + k),
        remaining(s, p + k) > 0 ==> byte_at(s, p + k) == byte_at(t, q + k),
{
    let b = bytes_from(s, p);
    assert(b.len() == remaining(s, p) && b.len() == remaining(t, q));
    if k < b.len() {
        assert(bytes_from(s, p + k) =~= b.skip(k as int));
        assert(bytes_from(t, q + k) =~= b.skip(k as int));
        assert(byte_at(s, p + k) == b[k as int]);
        assert(byte_at(t, q + k) == b[k as int]);
    } else {
        assert(bytes_from(s, p + k) =~= Seq::empty());
        assert(bytes_from(t, q + k) =~= Seq::empty());
    }
}

/// A seven-byte number is its lower six bytes and the seventh, which weighs 2^48.
pub(crate) proof fn lemma_le_nat_7(s: Seq<u8>)
    requires
        s.len() == 7,
    ensures
        le_nat(s) == le_nat(s.take(6)) + 0x1_0000_0000_0000 * s[6],
        le_nat(s.take(6)) < 0x1_0000_0000_0000,
{
    lemma_le_nat_bound(s.take(6));
    reveal_with_fuel(pow256, 8);
    lemma_le_nat_split(s, 6);
    assert(s.skip(6) =~= seq![s[6]]);
    reveal_with_fuel(le_nat, 2);
}

/// Cutting the digits in two cuts the number in two.
pub(crate) proof fn lemma_le_nat_split(s: Seq<u8>, k: nat)
    requires
        k <= s.len(),
    ensures
        le_nat(s) == le_nat(s.take(k as int)) + pow256(k) * le_nat(s.skip(k as int)),
    decreases k,
{
    if k == 0 {
        assert(s.skip(0) =~= s);
        assert(s.take(0) =~= Seq::empty());
        let x = le_nat(s);
        assert(1 * x == x) by (nonlinear_arith);
    } else {
        let t = s.drop_first();
        let j = (k - 1) as nat;
        lemma_le_nat_split(t, j);
        assert(s.take(k as int).drop_first() =~= t.take(j as int));
        assert(s.skip(k as int) =~= t.skip(j as int));
        let x = le_nat(t.skip(j as int));
        let p = pow256(j);
        assert(256 * (p * x) == (256 * p) * x) by (nonlinear_arith);
    }
}

} // verus!
