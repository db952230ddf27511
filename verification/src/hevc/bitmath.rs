//! Bit-level vocabulary shared by the bitstream reader and writer: the bit
//! view of a byte string, the value of a run of bits, and the lemmas that
//! connect shifts and masks to division.

use vstd::prelude::*;
use vstd::arithmetic::div_mod::{lemma_div_denominator, lemma_mod_breakdown, lemma_div_pos_is_pos};

verus! {

/// `2^n`.
pub open spec fn two_to(n: nat) -> nat
    decreases n,
{
    if n == 0 {
        1
    } else {
        2 * two_to((n - 1) as nat)
    }
}

/// Bit `k` (0 = most significant) of a byte.
pub open spec fn byte_bit(b: u8, k: int) -> bool {
    (b as nat / two_to((7 - k) as nat)) % 2 == 1
}

/// The bits of a byte string, most significant bit of each byte first.
pub open spec fn bits_of(data: Seq<u8>) -> Seq<bool> {
    Seq::new((data.len() * 8) as nat, |i: int| byte_bit(data[i / 8], i % 8))
}

/// The unsigned value of a run of bits read most significant first.
pub open spec fn seq_val(s: Seq<bool>) -> nat
    decreases s.len(),
{
    if s.len() == 0 {
        0
    } else {
        2 * seq_val(s.drop_last()) + if s.last() {
            1nat
        } else {
            0nat
        }
    }
}

/// The low `n` bits of `v`, most significant first.
pub open spec fn be_bits(v: nat, n: nat) -> Seq<bool> {
    Seq::new(n, |i: int| (v / two_to((n - 1 - i) as nat)) % 2 == 1)
}

/// `n` zero bits.
pub open spec fn zero_bits(n: nat) -> Seq<bool> {
    Seq::new(n, |i: int| false)
}

pub proof fn lemma_two_to_pos(n: nat)
    ensures
        two_to(n) > 0,
    decreases n,
{
    if n > 0 {
        lemma_two_to_pos((n - 1) as nat);
    }
}

pub proof fn lemma_two_to_adds(a: nat, b: nat)
    ensures
        two_to(a + b) == two_to(a) * two_to(b),
    decreases b,
{
    if b > 0 {
        let b1 = (b - 1) as nat;
        lemma_two_to_adds(a, b1);
        assert(a + b1 == (a + b - 1) as nat);
        assert(two_to(a + b) == 2 * two_to(a + b1));
        let (x, y) = (two_to(a), two_to(b1));
        assert(x * (2 * y) == 2 * (x * y)) by (nonlinear_arith);
        assert(two_to(b) == 2 * y);
        assert(two_to(a + b) == 2 * (x * y));
    } else {
        assert(two_to(a) * 1 == two_to(a));
    }
}

pub proof fn lemma_two_to_monotone(a: nat, b: nat)
    requires
        a <= b,
    ensures
        two_to(a) <= two_to(b),
    decreases b,
{
    if a < b {
        lemma_two_to_monotone(a, (b - 1) as nat);
        lemma_two_to_pos((b - 1) as nat);
    }
}

pub proof fn lemma_two_to_small()
    ensures
        two_to(0) == 1,
        two_to(1) == 2,
        two_to(7) == 128,
        two_to(8) == 256,
        two_to(16) == 65536,
        two_to(31) == 0x8000_0000,
        two_to(32) == 0x1_0000_0000,
{
    reveal_with_fuel(two_to, 33);
}

/// A right shift of a `u32` is a division by a power of two.
pub proof fn lemma_shr_u32(v: u32, s: u32)
    requires
        s < 32,
    ensures
        (v >> s) as nat == v as nat / two_to(s as nat),
    decreases s,
{
    if s == 0 {
        assert(v >> 0u32 == v) by (bit_vector);
        assert(two_to(0) == 1);
        assert(v as nat / 1 == v as nat);
    } else {
        let t = (s - 1) as u32;
        lemma_shr_u32(v, t);
        assert(v >> s == (v >> t) >> 1u32) by (bit_vector)
            requires
                s < 32,
                t == s - 1,
        ;
        let x = v >> t;
        assert(x >> 1u32 == x / 2) by (bit_vector);
        lemma_two_to_pos(t as nat);
        lemma_div_denominator(v as int, two_to(t as nat) as int, 2);
        assert(two_to(s as nat) == two_to(t as nat) * 2);
        assert((x / 2) as nat == x as nat / 2);
        assert((v >> s) as nat == (v as nat / two_to(t as nat)) / 2);
    }
}

/// A right shift of a byte is a division by a power of two.
pub proof fn lemma_shr_u8(v: u8, s: u8)
    requires
        s < 8,
    ensures
        (v >> s) as nat == v as nat / two_to(s as nat),
    decreases s,
{
    if s == 0 {
        assert(v >> 0u8 == v) by (bit_vector);
        assert(two_to(0) == 1);
        assert(v as nat / 1 == v as nat);
    } else {
        let t = (s - 1) as u8;
        lemma_shr_u8(v, t);
        assert(v >> s == (v >> t) >> 1u8) by (bit_vector)
            requires
                s < 8,
                t == s - 1,
        ;
        let x = v >> t;
        assert(x >> 1u8 == x / 2) by (bit_vector);
        lemma_two_to_pos(t as nat);
        lemma_div_denominator(v as int, two_to(t as nat) as int, 2);
        assert(two_to(s as nat) == two_to(t as nat) * 2);
        assert((x / 2) as nat == x as nat / 2);
        assert((v >> s) as nat == (v as nat / two_to(t as nat)) / 2);
    }
}

/// The bit of a `u32` extracted with a shift and a mask.
pub proof fn lemma_bit_u32(v: u32, s: u32)
    requires
        s < 32,
    ensures
        ((v >> s) & 1u32) as nat == (v as nat / two_to(s as nat)) % 2,
{
    lemma_shr_u32(v, s);
    let x = v >> s;
    assert(x & 1u32 == x % 2) by (bit_vector);
}

/// The bit of a byte extracted with a shift and a mask.
pub proof fn lemma_bit_u8(v: u8, s: u8)
    requires
        s < 8,
    ensures
        ((v >> s) & 1u8) as nat == (v as nat / two_to(s as nat)) % 2,
{
    lemma_shr_u8(v, s);
    let x = v >> s;
    assert(x & 1u8 == x % 2) by (bit_vector);
}

/// Appending a bit doubles the value and adds the bit.
pub proof fn lemma_seq_val_push(s: Seq<bool>, b: bool)
    ensures
        seq_val(s.push(b)) == 2 * seq_val(s) + if b {
            1nat
        } else {
            0nat
        },
{
    assert(s.push(b).drop_last() =~= s);
}

/// A run of `n` bits holds a value below `2^n`.
pub proof fn lemma_seq_val_bound(s: Seq<bool>)
    ensures
        seq_val(s) < two_to(s.len()),
    decreases s.len(),
{
    if s.len() > 0 {
        lemma_seq_val_bound(s.drop_last());
    }
}

/// The value of a concatenation.
pub proof fn lemma_seq_val_concat(a: Seq<bool>, b: Seq<bool>)
    ensures
        seq_val(a + b) == seq_val(a) * two_to(b.len()) + seq_val(b),
    decreases b.len(),
{
    if b.len() == 0 {
        assert(a + b =~= a);
        assert(seq_val(b) == 0);
        assert(two_to(0) == 1);
        assert(seq_val(a) * 1 == seq_val(a));
    } else {
        let b0 = b.drop_last();
        lemma_seq_val_concat(a, b0);
        assert((a + b).drop_last() =~= a + b0);
        assert((a + b).last() == b.last());
        let t = two_to(b0.len());
        assert(two_to(b.len()) == 2 * t);
        let x = seq_val(a);
        assert(x * (2 * t) == 2 * (x * t)) by (nonlinear_arith);
        let l: nat = if b.last() { 1 } else { 0 };
        assert(seq_val(a + b) == 2 * seq_val(a + b0) + l);
        assert(seq_val(b) == 2 * seq_val(b0) + l);
    }
}

/// Leading zero bits do not change a value.
pub proof fn lemma_seq_val_zeros(n: nat)
    ensures
        seq_val(zero_bits(n)) == 0,
    decreases n,
{
    if n > 0 {
        lemma_seq_val_zeros((n - 1) as nat);
        assert(zero_bits(n).drop_last() =~= zero_bits((n - 1) as nat));
    }
}

/// The low `n` bits of `v`, read back, are `v mod 2^n`.
pub proof fn lemma_be_bits_val(v: nat, n: nat)
    ensures
        seq_val(be_bits(v, n)) == v % two_to(n),
    decreases n,
{
    if n == 0 {
        assert(v % 1 == 0);
        assert(be_bits(v, 0) =~= Seq::<bool>::empty());
    } else {
        let m = (n - 1) as nat;
        lemma_be_bits_val(v / 2, m);
        assert forall|i: int| 0 <= i < m implies be_bits(v, n).drop_last()[i] == be_bits(
            v / 2,
            m,
        )[i] by {
            lemma_two_to_pos((m - 1 - i) as nat);
            lemma_div_denominator(v as int, 2, two_to((m - 1 - i) as nat) as int);
            assert(two_to((n - 1 - i) as nat) == 2 * two_to((m - 1 - i) as nat));
        }
        assert(be_bits(v, n).drop_last() =~= be_bits(v / 2, m));
        assert(be_bits(v, n).last() == ((v / two_to(0)) % 2 == 1));
        lemma_two_to_pos(m);
        lemma_mod_breakdown(v as int, 2, two_to(m) as int);
        assert(two_to(n) == 2 * two_to(m));
        assert(two_to(0) == 1);
        assert(v / 1 == v);
        let l: nat = if be_bits(v, n).last() { 1 } else { 0 };
        assert(l == v % 2);
        assert(seq_val(be_bits(v, n)) == 2 * seq_val(be_bits(v / 2, m)) + l);
    }
}

/// Bits `1 ..` of the `n + 1` low bits of `v` are its `n` low bits.
pub proof fn lemma_be_bits_tail(v: nat, n: nat)
    ensures
        be_bits(v, n + 1).subrange(1, n + 1 as int) =~= be_bits(v, n),
{
}

/// A value below `2^n` survives a trip through its low `n` bits.
pub proof fn lemma_be_bits_round_trip(v: nat, n: nat)
    requires
        v < two_to(n),
    ensures
        seq_val(be_bits(v, n)) == v,
{
    lemma_be_bits_val(v, n);
    lemma_two_to_pos(n);
    vstd::arithmetic::div_mod::lemma_small_mod(v, two_to(n));
}

} // verus!
