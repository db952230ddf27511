//! What the encoder writes, the decoder reads back: the interval the
//! encoder's state stands for, and the decoder's offset within it.

use vstd::prelude::*;

use super::ctx::NUM_CTX;
use super::encoder::{EncModel, bypass_m, decision_m, put_bit_m, renorm_m, terminate_m};
use super::ctx::INIT_VALUES;
use super::engine::{decide, init_context, lps_of, pack, renorm, renorm_measure, renorm_shift, stream_bit, stream_value};
use super::tables::{RANGE_TAB_LPS, TRANS_IDX_LPS, TRANS_IDX_MPS, lemma_tables};
use crate::hevc::bitmath::{bits_of, lemma_two_to_pos, two_to};

verus! {

/// The number a sequence of 0/1 entries spells, most significant first.
pub open spec fn bits_val(s: Seq<u8>) -> int
    decreases s.len(),
{
    if s.len() == 0 {
        0
    } else {
        2 * bits_val(s.drop_last()) + s.last() as int
    }
}

/// How many times the encoder's interval has been doubled: the bits it has
/// settled (the first of them, always 0, is not written) and those still
/// outstanding.
pub open spec fn enc_scale(m: EncModel) -> int {
    (if m.2 {
        0int
    } else {
        1int
    }) + m.4.len() + m.3
}

/// The low end of the encoder's interval at its full precision, in units
/// of `2^-(enc_scale + 10)`: the written bits, the outstanding ones (each
/// a pending half), and `ivlLow`.
pub open spec fn enc_low(m: EncModel) -> int {
    bits_val(m.4) * two_to((m.3 + 10) as nat) + 512 * (two_to(m.3 as nat) - 1) + m.0
}

/// The encoder's registers are in range, and before its first bit is
/// settled the interval lies in the lower half.
pub open spec fn enc_ok(m: EncModel) -> bool {
    &&& 0 <= m.0
    &&& 2 <= m.1 <= 510
    &&& m.0 + m.1 <= 1024
    &&& 0 <= m.3
    &&& m.2 ==> m.4.len() == 0 && m.0 + m.1 <= 512
}

/// Appending `k` copies of `c` to `s`.
pub proof fn lemma_val_run(s: Seq<u8>, c: u8, k: nat)
    ensures
        bits_val(s + Seq::new(k, |i: int| c)) == bits_val(s) * two_to(k) + c * (two_to(k) - 1),
    decreases k,
{
    if k == 0 {
        assert(s + Seq::new(0, |i: int| c) =~= s);
        assert(two_to(0) == 1);
        assert(bits_val(s) * 1 + c * (1 - 1) == bits_val(s)) by (nonlinear_arith);
    } else {
        let k1 = (k - 1) as nat;
        lemma_val_run(s, c, k1);
        let x = s + Seq::new(k1, |i: int| c);
        let y = s + Seq::new(k, |i: int| c);
        assert(y.drop_last() =~= x);
        assert(y.last() == c);
        assert(bits_val(y) == 2 * bits_val(x) + c);
        assert(two_to(k) == 2 * two_to(k1));
        let (v, p) = (bits_val(s), two_to(k1) as int);
        assert(2 * (v * p + c * (p - 1)) + c == v * (2 * p) + c * (2 * p - 1)) by (nonlinear_arith);
    }
}

/// `bits_val` of a sequence with one more entry.
proof fn lemma_val_push(s: Seq<u8>, b: u8)
    ensures
        bits_val(s.push(b)) == 2 * bits_val(s) + b,
{
    assert(s.push(b).drop_last() =~= s);
}

/// One step of `RenormE` doubles the full-precision low and the scale
/// grows by one.
proof fn lemma_renorm_step(m: EncModel)
    requires
        enc_ok(m),
        m.1 < 256,
    ensures
        ({
            let m1 = if m.0 < 256 {
                super::encoder::put_bit_m(m, 0)
            } else if m.0 >= 512 {
                super::encoder::put_bit_m((m.0 - 512, m.1, m.2, m.3, m.4, m.5), 1)
            } else {
                (m.0 - 256, m.1, m.2, m.3 + 1, m.4, m.5)
            };
            let m2 = (m1.0 * 2, m1.1 * 2, m1.2, m1.3, m1.4, m1.5);
            &&& enc_ok(m2)
            &&& enc_low(m2) == 2 * enc_low(m)
            &&& enc_scale(m2) == enc_scale(m) + 1
            &&& m2.1 == 2 * m.1
            &&& m2.5 == m.5
        }),
{
    let (l, r, f, k, e) = (m.0, m.1, m.2, m.3 as nat, m.4);
    let p = two_to(k) as int;
    lemma_two_to_pos(k);
    crate::hevc::bitmath::lemma_two_to_adds(k, 10);
    crate::hevc::bitmath::lemma_two_to_adds(k, 11);
    crate::hevc::bitmath::lemma_two_to_adds(k, 1);
    crate::hevc::bitmath::lemma_two_to_small();
    assert(two_to(10) == 1024 && two_to(11) == 2048) by {
        reveal_with_fuel(two_to, 12);
    }
    let v = bits_val(e);
    if l < 256 {
        let base = if f { e } else { e.push(0u8) };
        lemma_val_run(base, 1u8, k);
        if !f {
            lemma_val_push(e, 0u8);
            assert(((2 * v) * p + (p - 1)) * 1024 + 2 * l == 2 * (v * (p * 1024) + 512 * (p - 1) + l)) by (nonlinear_arith);
        } else {
            assert(bits_val(e) == 0);
            assert(base.len() == 0);
            assert(bits_val(base) == 0);
            assert((0 * p + (p - 1)) * 1024 + 2 * l == 2 * (0 * (p * 1024) + 512 * (p - 1) + l)) by (nonlinear_arith);
        }
    } else if l >= 512 {
        lemma_val_run(e.push(1u8), 0u8, k);
        lemma_val_push(e, 1u8);
        assert(((2 * v + 1) * p + 0 * (p - 1)) * 1024 + 2 * (l - 512) == 2 * (v * (p * 1024) + 512 * (p - 1) + l)) by (nonlinear_arith);
    } else {
        assert(v * (2 * p * 1024) + 512 * (2 * p - 1) + 2 * (l - 256) == 2 * (v * (p * 1024) + 512 * (p - 1) + l)) by (nonlinear_arith);
    }
}

/// `RenormE` scales the full-precision low by the doublings it makes, and
/// leaves a range of at least 256.
pub proof fn lemma_renorm_enc(m: EncModel)
    requires
        enc_ok(m),
    ensures
        enc_ok(renorm_m(m)),
        enc_low(renorm_m(m)) == enc_low(m) * two_to(renorm_shift(m.1)),
        enc_scale(renorm_m(m)) == enc_scale(m) + renorm_shift(m.1),
        renorm_m(m).1 == m.1 * two_to(renorm_shift(m.1)),
        renorm_m(m).1 >= 256,
        renorm_m(m).5 == m.5,
    decreases renorm_measure(m.1),
{
    if m.1 < 256 {
        lemma_renorm_step(m);
        let m1 = if m.0 < 256 {
            super::encoder::put_bit_m(m, 0)
        } else if m.0 >= 512 {
            super::encoder::put_bit_m((m.0 - 512, m.1, m.2, m.3, m.4, m.5), 1)
        } else {
            (m.0 - 256, m.1, m.2, m.3 + 1, m.4, m.5)
        };
        let m2 = (m1.0 * 2, m1.1 * 2, m1.2, m1.3, m1.4, m1.5);
        assert(renorm_m(m) == renorm_m(m2));
        lemma_renorm_enc(m2);
        let d = renorm_shift(m2.1);
        assert(renorm_shift(m.1) == d + 1);
        let q = two_to(d) as int;
        assert(two_to((d + 1) as nat) == 2 * q);
        assert((2 * enc_low(m)) * q == enc_low(m) * (2 * q)) by (nonlinear_arith);
        assert((2 * m.1) * q == m.1 * (2 * q)) by (nonlinear_arith);
    } else {
        assert(renorm_shift(m.1) == 0);
        assert(two_to(0) == 1);
    }
}


/// `EncodeBypass` doubles the full-precision low and adds the range for a 1.
proof fn lemma_bypass_enc(m: EncModel, bin: int)
    requires
        enc_ok(m),
        bin == 0 || bin == 1,
    ensures
        enc_ok(bypass_m(m, bin)),
        enc_low(bypass_m(m, bin)) == 2 * enc_low(m) + bin * m.1,
        enc_scale(bypass_m(m, bin)) == enc_scale(m) + 1,
        bypass_m(m, bin).1 == m.1,
        bypass_m(m, bin).5 == m.5,
{
    let (l, r, f, k, e) = (m.0, m.1, m.2, m.3 as nat, m.4);
    let p = two_to(k) as int;
    lemma_two_to_pos(k);
    crate::hevc::bitmath::lemma_two_to_adds(k, 10);
    crate::hevc::bitmath::lemma_two_to_adds(k, 11);
    crate::hevc::bitmath::lemma_two_to_adds(k, 1);
    crate::hevc::bitmath::lemma_two_to_small();
    assert(two_to(10) == 1024 && two_to(11) == 2048) by {
        reveal_with_fuel(two_to, 12);
    }
    let v = bits_val(e);
    let low = 2 * l + bin * r;
    assert(bin * r == if bin == 1 { r } else { 0 });
    if low >= 1024 {
        lemma_val_run(e.push(1u8), 0u8, k);
        lemma_val_push(e, 1u8);
        assert(((2 * v + 1) * p + 0 * (p - 1)) * 1024 + (low - 1024) == 2 * (v * (p * 1024) + 512 * (p - 1) + l) + bin
            * r) by (nonlinear_arith)
            requires
                low == 2 * l + bin * r,
        ;
    } else if low < 512 {
        let base = if f { e } else { e.push(0u8) };
        lemma_val_run(base, 1u8, k);
        if !f {
            lemma_val_push(e, 0u8);
            assert(((2 * v) * p + (p - 1)) * 1024 + low == 2 * (v * (p * 1024) + 512 * (p - 1) + l) + bin * r)
                by (nonlinear_arith)
                requires
                    low == 2 * l + bin * r,
            ;
        } else {
            assert(bits_val(base) == 0);
            assert((0 * p + (p - 1)) * 1024 + low == 2 * (0 * (p * 1024) + 512 * (p - 1) + l) + bin * r)
                by (nonlinear_arith)
                requires
                    low == 2 * l + bin * r,
            ;
        }
    } else {
        assert(v * (2 * p * 1024) + 512 * (2 * p - 1) + (low - 512) == 2 * (v * (p * 1024) + 512 * (p - 1) + l) + bin
            * r) by (nonlinear_arith)
            requires
                low == 2 * l + bin * r,
        ;
    }
}

/// A bin operation of the arithmetic coder: a context-coded bin with its
/// context index, a bypass bin, or a terminating bin.
pub enum BinOp {
    Decision(int, int),
    Bypass(int),
    Terminate(int),
}

/// The bin an operation codes.
pub open spec fn op_bin(op: BinOp) -> int {
    match op {
        BinOp::Decision(_, b) => b,
        BinOp::Bypass(b) => b,
        BinOp::Terminate(b) => b,
    }
}

/// An operation before the last: a 0 or 1 with a context index in range,
/// or a terminating bin of 0.
pub open spec fn op_fine(op: BinOp) -> bool {
    match op {
        BinOp::Decision(i, b) => 0 <= i < NUM_CTX && (b == 0 || b == 1),
        BinOp::Bypass(b) => b == 0 || b == 1,
        BinOp::Terminate(b) => b == 0,
    }
}

/// A sequence of operations a slice segment codes: fine operations, ending
/// with a terminating 1.
pub open spec fn ops_ok(ops: Seq<BinOp>) -> bool {
    &&& ops.len() >= 1
    &&& ops.last() == BinOp::Terminate(1)
    &&& forall|j: int| 0 <= j < ops.len() - 1 ==> op_fine(#[trigger] ops[j])
}

/// The encoder's state after one operation.
pub open spec fn enc_step(m: EncModel, op: BinOp) -> EncModel {
    match op {
        BinOp::Decision(i, b) => decision_m(m, i, b),
        BinOp::Bypass(b) => bypass_m(m, b),
        BinOp::Terminate(b) => terminate_m(m, b),
    }
}

/// The encoder's state after a sequence of operations.
pub open spec fn enc_run(m: EncModel, ops: Seq<BinOp>) -> EncModel
    decreases ops.len(),
{
    if ops.len() == 0 {
        m
    } else {
        enc_run(enc_step(m, ops[0]), ops.drop_first())
    }
}

/// The first `j` stream bits as a number.
pub open spec fn prefix_val(data: Seq<u8>, j: int) -> int {
    stream_value(data, 0, j as nat)
}

/// `prefix_val` over `j + d` bits is `prefix_val` over `j` bits shifted by
/// `d`, plus less than `2^d`.
proof fn lemma_prefix_shift(data: Seq<u8>, j: nat, d: nat)
    ensures
        prefix_val(data, j as int) * two_to(d) <= prefix_val(data, (j + d) as int),
        prefix_val(data, (j + d) as int) < (prefix_val(data, j as int) + 1) * two_to(d),
    decreases d,
{
    if d == 0 {
        assert(two_to(0) == 1);
        assert(prefix_val(data, j as int) * 1 == prefix_val(data, j as int)) by (nonlinear_arith);
    } else {
        let d1 = (d - 1) as nat;
        lemma_prefix_shift(data, j, d1);
        let (x, y, q) = (prefix_val(data, j as int), prefix_val(data, (j + d1) as int), two_to(d1) as int);
        let b = stream_bit(data, (j + d1) as int);
        assert(prefix_val(data, (j + d) as int) == 2 * y + b);
        assert(two_to(d) == 2 * q);
        assert(0 <= b <= 1);
        assert(x * (2 * q) <= 2 * y + b && 2 * y + b < (x + 1) * (2 * q)) by (nonlinear_arith)
            requires
                x * q <= y,
                y < (x + 1) * q,
                0 <= b <= 1,
        ;
    }
}

/// An interval scaled by `2^d` and narrowed to `[lo2, lo2 + r2)` locates
/// the shorter prefix in the original interval `[lo, lo + r)`.
proof fn lemma_locate(data: Seq<u8>, j: nat, d: nat, lo: int, r: int, lo2: int, r2: int)
    requires
        lo * two_to(d) <= lo2,
        lo2 + r2 <= (lo + r) * two_to(d),
        lo2 <= prefix_val(data, (j + d) as int) < lo2 + r2,
    ensures
        lo <= prefix_val(data, j as int) < lo + r,
{
    lemma_prefix_shift(data, j, d);
    lemma_two_to_pos(d);
    let (x, q, y) = (prefix_val(data, j as int), two_to(d) as int, prefix_val(data, (j + d) as int));
    assert(lo <= x && x < lo + r) by (nonlinear_arith)
        requires
            q > 0,
            x * q <= y,
            y < (x + 1) * q,
            lo * q <= y,
            y < (lo + r) * q,
    ;
}


/// The stream `data` carries the bits `bits`, then zero bits.
pub open spec fn carries(data: Seq<u8>, bits: Seq<u8>) -> bool {
    forall|i: int| 0 <= i ==> #[trigger] stream_bit(data, i) == if i < bits.len() {
        bits[i] as int
    } else {
        0
    }
}

/// The first `j` stream bits are the first `j` carried bits.
proof fn lemma_prefix_bits(data: Seq<u8>, bits: Seq<u8>, j: nat)
    requires
        carries(data, bits),
        j <= bits.len(),
    ensures
        prefix_val(data, j as int) == bits_val(bits.subrange(0, j as int)),
    decreases j,
{
    if j == 0 {
        assert(bits.subrange(0, 0) =~= Seq::<u8>::empty());
    } else {
        let j1 = (j - 1) as nat;
        lemma_prefix_bits(data, bits, j1);
        assert(bits.subrange(0, j as int).drop_last() =~= bits.subrange(0, j1 as int));
        assert(stream_bit(data, j1 as int) == bits[j1 as int] as int);
    }
}

/// Past the carried bits the stream is zeros: each further bit doubles
/// the prefix.
proof fn lemma_prefix_zeros(data: Seq<u8>, bits: Seq<u8>, d: nat)
    requires
        carries(data, bits),
    ensures
        prefix_val(data, (bits.len() + d) as int) == bits_val(bits) * two_to(d),
    decreases d,
{
    if d == 0 {
        lemma_prefix_bits(data, bits, bits.len());
        assert(bits.subrange(0, bits.len() as int) =~= bits);
        assert(two_to(0) == 1);
        assert(bits_val(bits) * 1 == bits_val(bits)) by (nonlinear_arith);
    } else {
        let d1 = (d - 1) as nat;
        lemma_prefix_zeros(data, bits, d1);
        assert(stream_bit(data, (bits.len() + d1) as int) == 0);
        assert(two_to(d) == 2 * two_to(d1));
        let (v, q) = (bits_val(bits), two_to(d1) as int);
        assert(2 * (v * q) == v * (2 * q)) by (nonlinear_arith);
    }
}

/// `EncodeTerminate` of a 1 and the flush leave a stream whose value, as
/// far as the decoder has read, lies in the top two of the interval: the
/// decoder's terminating bin is 1.
proof fn lemma_flush(m: EncModel, data: Seq<u8>)
    requires
        enc_ok(m),
        m.1 >= 256,
        carries(data, terminate_m(m, 1).4),
    ensures
        enc_low(m) + m.1 - 2 <= prefix_val(data, enc_scale(m) + 9) < enc_low(m) + m.1,
{
    let m1 = (m.0 + m.1 - 2, 2, m.2, m.3, m.4, m.5);
    assert(enc_ok(m1));
    lemma_renorm_enc(m1);
    let m2 = renorm_m(m1);
    assert(renorm_shift(2) == 7) by {
        reveal_with_fuel(renorm_shift, 8);
    }
    crate::hevc::bitmath::lemma_two_to_small();
    let (l2, k2, f2, e2) = (m2.0, m2.3 as nat, m2.2, m2.4);
    let p = two_to(k2) as int;
    lemma_two_to_pos(k2);
    crate::hevc::bitmath::lemma_two_to_adds(k2, 10);
    crate::hevc::bitmath::lemma_two_to_adds(k2, 1);
    assert(two_to(10) == 1024) by {
        reveal_with_fuel(two_to, 11);
    }
    let v2 = bits_val(e2);
    let fl1 = enc_low(m1);
    // ivlLow after the seven doublings is a multiple of 128.
    assert(l2 == 128 * (fl1 - 8 * (v2 * p) - 4 * (p - 1))) by (nonlinear_arith)
        requires
            fl1 * 128 == v2 * (p * 1024) + 512 * (p - 1) + l2,
    ;
    let b9 = (l2 / 512) % 2;
    let b8 = (l2 / 256) % 2;
    let rem = l2 % 256;
    assert(l2 == 512 * b9 + 256 * b8 + rem && (rem == 0 || rem == 128) && 0 <= b9 <= 1 && 0 <= b8 <= 1) by (nonlinear_arith)
        requires
            0 <= l2 < 1024,
            l2 % 128 == 0,
            b9 == (l2 / 512) % 2,
            b8 == (l2 / 256) % 2,
            rem == l2 % 256,
    ;
    let m3 = put_bit_m(m2, b9 as u8);
    let ef = m3.4.push(b8 as u8).push(1u8);
    assert(terminate_m(m, 1).4 == ef);
    let n2 = enc_scale(m2);
    let e3 = m3.4;
    let v3 = bits_val(e3);
    if f2 {
        assert(b9 == 0);
        assert(e3 == Seq::<u8>::empty() + Seq::new(k2, |i: int| (1 - 0) as u8));
        lemma_val_run(Seq::<u8>::empty(), 1u8, k2);
        assert(bits_val(Seq::<u8>::empty()) == 0);
        assert(0 * p + 1 * (p - 1) == p - 1) by (nonlinear_arith);
        assert(v3 == p - 1);
    } else {
        assert(e3 == e2.push(b9 as u8) + Seq::new(k2, |i: int| (1 - b9) as u8));
        lemma_val_run(e2.push(b9 as u8), (1 - b9) as u8, k2);
        lemma_val_push(e2, b9 as u8);
        assert(v3 == (2 * v2 + b9) * p + (1 - b9) * (p - 1));
    }
    assert(e3.len() == n2);
    lemma_val_push(e3, b8 as u8);
    lemma_val_push(e3.push(b8 as u8), 1u8);
    lemma_prefix_zeros(data, ef, 7);
    assert(ef.len() + 7 == n2 + 9);
    let x2 = prefix_val(data, n2 + 9);
    assert(x2 == (4 * v3 + 2 * b8 + 1) * 128);
    assert(enc_low(m2) == v2 * (p * 1024) + 512 * (p - 1) + l2);
    assert(enc_low(m2) <= x2 < enc_low(m2) + 256) by (nonlinear_arith)
        requires
            x2 == (4 * v3 + 2 * b8 + 1) * 128,
            f2 ==> v2 == 0 && b9 == 0 && v3 == p - 1,
            !f2 ==> v3 == (2 * v2 + b9) * p + (1 - b9) * (p - 1),
            enc_low(m2) == v2 * (p * 1024) + 512 * (p - 1) + l2,
            l2 == 512 * b9 + 256 * b8 + rem,
            rem == 0 || rem == 128,
            0 <= b9 <= 1,
    ;
    assert(enc_low(m2) == fl1 * 128);
    assert(two_to(7) == 128);
    assert(fl1 * 128 <= enc_low(m2) && enc_low(m2) + 256 <= (fl1 + 2) * 128) by (nonlinear_arith)
        requires
            enc_low(m2) == fl1 * 128,
    ;
    lemma_locate(data, (enc_scale(m) + 9) as nat, 7, fl1, 2, enc_low(m2), 256);
}


/// The decoder's state as the contracts of `Cabac` see it: `ivlCurrRange`,
/// `ivlOffset`, the next bit position and the context variables.
pub type DecModel = (int, int, int, Seq<u8>);

/// What `Cabac::decision`, `Cabac::bypass` and `Cabac::terminate` give for
/// an operation, from their contracts: the bin and the next state.
pub open spec fn dec_step(data: Seq<u8>, st: DecModel, op: BinOp) -> (int, DecModel) {
    match op {
        BinOp::Decision(i, _) => {
            let (bin, s, rng, off) = decide(st.3[i], st.0, st.1);
            let (r2, o2, p2) = renorm(data, rng, off, st.2);
            (bin as int, (r2, o2, p2, st.3.update(i, s)))
        },
        BinOp::Bypass(_) => {
            let t = 2 * st.1 + stream_bit(data, st.2);
            if t >= st.0 {
                (1, (st.0, t - st.0, st.2 + 1, st.3))
            } else {
                (0, (st.0, t, st.2 + 1, st.3))
            }
        },
        BinOp::Terminate(_) => {
            let rng = st.0 - 2;
            if st.1 >= rng {
                (1, st)
            } else {
                let (r2, o2, p2) = renorm(data, rng, st.1, st.2);
                (0, (r2, o2, p2, st.3))
            }
        },
    }
}

/// The bins the decoder reads for a sequence of operations.
pub open spec fn dec_run(data: Seq<u8>, st: DecModel, ops: Seq<BinOp>) -> Seq<int>
    decreases ops.len(),
{
    if ops.len() == 0 {
        Seq::empty()
    } else {
        let (b, st2) = dec_step(data, st, ops[0]);
        seq![b] + dec_run(data, st2, ops.drop_first())
    }
}

/// The decoder is in step with the encoder over `data`: the same range and
/// contexts, reading at the encoder's scale, its offset the stream's value
/// there less the encoder's low.
pub open spec fn in_step(m: EncModel, st: DecModel, data: Seq<u8>) -> bool {
    &&& st.0 == m.1
    &&& st.3 == m.5
    &&& st.2 == enc_scale(m) + 9
    &&& st.1 == prefix_val(data, st.2) - enc_low(m)
}

/// Every context variable holds one of the 64 states.
pub open spec fn ctx_ok(m: EncModel) -> bool {
    &&& m.5.len() == NUM_CTX
    &&& forall|i: int| 0 <= i < NUM_CTX ==> #[trigger] m.5[i] < 128
}

/// `RenormE` and `RenormD` keep the decoder in step.
proof fn lemma_renorm_pair(m: EncModel, data: Seq<u8>)
    requires
        enc_ok(m),
        enc_scale(m) >= 0,
    ensures
        renorm(data, m.1, prefix_val(data, enc_scale(m) + 9) - enc_low(m), enc_scale(m) + 9) == (
            renorm_m(m).1,
            prefix_val(data, enc_scale(renorm_m(m)) + 9) - enc_low(renorm_m(m)),
            enc_scale(renorm_m(m)) + 9,
        ),
    decreases renorm_measure(m.1),
{
    if m.1 < 256 {
        lemma_renorm_step(m);
        let m1 = if m.0 < 256 {
            put_bit_m(m, 0)
        } else if m.0 >= 512 {
            put_bit_m((m.0 - 512, m.1, m.2, m.3, m.4, m.5), 1)
        } else {
            (m.0 - 256, m.1, m.2, m.3 + 1, m.4, m.5)
        };
        let m2 = (m1.0 * 2, m1.1 * 2, m1.2, m1.3, m1.4, m1.5);
        assert(renorm_m(m) == renorm_m(m2));
        let pos = enc_scale(m) + 9;
        assert(prefix_val(data, pos + 1) == 2 * prefix_val(data, pos) + stream_bit(data, pos));
        lemma_renorm_pair(m2, data);
    }
}


/// The operations after the first of a sequence that is fine are fine.
proof fn lemma_rest_ok(ops: Seq<BinOp>)
    requires
        ops_ok(ops),
        ops.len() >= 2,
    ensures
        ops_ok(ops.drop_first()),
        op_fine(ops[0]),
{
    assert(op_fine(ops[0]));
    let rest = ops.drop_first();
    assert forall|j: int| 0 <= j < rest.len() - 1 implies op_fine(#[trigger] rest[j]) by {
        assert(rest[j] == ops[j + 1]);
    }
}

/// The context-coded step of the encoder: the interval it narrows to
/// before renormalisation, and that it stays well formed.
proof fn lemma_decision_enc(m: EncModel, i: int, b: int)
    requires
        enc_ok(m),
        m.1 >= 256,
        ctx_ok(m),
        0 <= i < NUM_CTX,
        b == 0 || b == 1,
    ensures
        ({
            let s = m.5[i];
            let lps = lps_of(s, m.1);
            let rest = m.1 - lps;
            let mps = (s % 2) as int;
            let state = (s / 2) as int;
            let m1 = if b != mps {
                (m.0 + rest, lps, m.2, m.3, m.4, m.5.update(i, pack(TRANS_IDX_LPS[state] as int, if state == 0 { 1 - mps } else { mps })))
            } else {
                (m.0, rest, m.2, m.3, m.4, m.5.update(i, pack(TRANS_IDX_MPS[state] as int, mps)))
            };
            &&& 2 <= lps <= 240
            &&& rest >= 16
            &&& enc_ok(m1)
            &&& ctx_ok(m1)
            &&& decision_m(m, i, b) == renorm_m(m1)
            &&& enc_scale(m1) == enc_scale(m)
            &&& enc_low(m1) == enc_low(m) + if b != mps { rest } else { 0 }
        }),
{
    lemma_tables();
    let s = m.5[i];
    assert(s < 128);
    assert((s / 2) < 64);
    assert(0 <= (m.1 / 64) % 4 < 4);
}

/// The encoder's interval after the operations from `m` on holds the
/// value of the stream it writes: at its scale, the stream lies between
/// its low end and its low end plus its range.
proof fn lemma_future(m: EncModel, ops: Seq<BinOp>, data: Seq<u8>)
    requires
        enc_ok(m),
        m.1 >= 256,
        ctx_ok(m),
        enc_scale(m) >= 0,
        ops_ok(ops),
        carries(data, enc_run(m, ops).4),
    ensures
        enc_low(m) <= prefix_val(data, enc_scale(m) + 9) < enc_low(m) + m.1,
    decreases ops.len(),
{
    let op = ops[0];
    let rest = ops.drop_first();
    let (fl, r, n) = (enc_low(m), m.1, enc_scale(m));
    if ops.len() == 1 {
        assert(op == ops.last());
        assert(enc_run(m, ops) == enc_run(enc_step(m, op), rest));
        assert(enc_run(m, ops) == terminate_m(m, 1));
        lemma_flush(m, data);
    } else {
        lemma_rest_ok(ops);
        let m2 = enc_step(m, op);
        assert(enc_run(m, ops) == enc_run(m2, rest));
        match op {
            BinOp::Decision(i, b) => {
                lemma_decision_enc(m, i, b);
                let s = m.5[i];
                let lps = lps_of(s, m.1);
                let rest_r = m.1 - lps;
                let mps = (s % 2) as int;
                let state = (s / 2) as int;
                let m1 = if b != mps {
                    (m.0 + rest_r, lps, m.2, m.3, m.4, m.5.update(i, pack(TRANS_IDX_LPS[state] as int, if state == 0 { 1 - mps } else { mps })))
                } else {
                    (m.0, rest_r, m.2, m.3, m.4, m.5.update(i, pack(TRANS_IDX_MPS[state] as int, mps)))
                };
                lemma_renorm_enc(m1);
                lemma_future(m2, rest, data);
                let d = renorm_shift(m1.1);
                let q = two_to(d) as int;
                lemma_two_to_pos(d);
                let a = enc_low(m1) - fl;
                assert(fl * q <= enc_low(m1) * q && enc_low(m1) * q + m1.1 * q <= (fl + r) * q) by (nonlinear_arith)
                    requires
                        q > 0,
                        0 <= a,
                        enc_low(m1) == fl + a,
                        a + m1.1 <= r,
                ;
                lemma_locate(data, (n + 9) as nat, d, fl, r, enc_low(m2), m2.1);
            },
            BinOp::Bypass(b) => {
                lemma_bypass_enc(m, b);
                lemma_future(m2, rest, data);
                crate::hevc::bitmath::lemma_two_to_small();
                assert(b * r == if b == 1 { r } else { 0 });
                lemma_locate(data, (n + 9) as nat, 1, fl, r, enc_low(m2), m2.1);
            },
            BinOp::Terminate(b) => {
                let m1 = (m.0, m.1 - 2, m.2, m.3, m.4, m.5);
                assert(enc_ok(m1));
                lemma_renorm_enc(m1);
                assert(m2 == renorm_m(m1));
                lemma_future(m2, rest, data);
                let d = renorm_shift(m1.1);
                let q = two_to(d) as int;
                lemma_two_to_pos(d);
                assert(fl * q <= fl * q && fl * q + (r - 2) * q <= (fl + r) * q) by (nonlinear_arith)
                    requires
                        q > 0,
                ;
                lemma_locate(data, (n + 9) as nat, d, fl, r, enc_low(m2), m2.1);
            },
        }
    }
}


/// Every position the decoder moves to while stepping through `ops` is at
/// most `lim`.
pub open spec fn dec_within(data: Seq<u8>, st: DecModel, ops: Seq<BinOp>, lim: int) -> bool
    decreases ops.len(),
{
    if ops.len() == 0 {
        true
    } else {
        let (b, st2) = dec_step(data, st, ops[0]);
        st2.2 <= lim && dec_within(data, st2, ops.drop_first(), lim)
    }
}

/// The encoder writes at least as many bits as its scale plus nine by the
/// end of the operations.
proof fn lemma_len(m: EncModel, ops: Seq<BinOp>)
    requires
        enc_ok(m),
        m.1 >= 256,
        ctx_ok(m),
        enc_scale(m) >= 0,
        ops_ok(ops),
    ensures
        enc_scale(m) + 9 <= enc_run(m, ops).4.len(),
    decreases ops.len(),
{
    let op = ops[0];
    let rest = ops.drop_first();
    if ops.len() == 1 {
        assert(op == ops.last());
        assert(enc_run(m, ops) == enc_run(enc_step(m, op), rest));
        let m1 = (m.0 + m.1 - 2, 2, m.2, m.3, m.4, m.5);
        lemma_renorm_enc(m1);
        assert(renorm_shift(2) == 7) by {
            reveal_with_fuel(renorm_shift, 8);
        }
        let m2 = renorm_m(m1);
        let b9 = ((m2.0 / 512) % 2) as u8;
        let m3 = put_bit_m(m2, b9);
        assert(m3.4.len() == enc_scale(m2));
    } else {
        lemma_rest_ok(ops);
        let m2 = enc_step(m, op);
        assert(enc_run(m, ops) == enc_run(m2, rest));
        match op {
            BinOp::Decision(i, b) => {
                lemma_decision_enc(m, i, b);
                let s = m.5[i];
                let lps = lps_of(s, m.1);
                let rest_r = m.1 - lps;
                let mps = (s % 2) as int;
                let state = (s / 2) as int;
                let m1 = if b != mps {
                    (m.0 + rest_r, lps, m.2, m.3, m.4, m.5.update(i, pack(TRANS_IDX_LPS[state] as int, if state == 0 { 1 - mps } else { mps })))
                } else {
                    (m.0, rest_r, m.2, m.3, m.4, m.5.update(i, pack(TRANS_IDX_MPS[state] as int, mps)))
                };
                lemma_renorm_enc(m1);
            },
            BinOp::Bypass(b) => {
                lemma_bypass_enc(m, b);
            },
            BinOp::Terminate(b) => {
                let m1 = (m.0, m.1 - 2, m.2, m.3, m.4, m.5);
                lemma_renorm_enc(m1);
            },
        }
        lemma_len(m2, rest);
    }
}

/// The bins a sequence of operations codes.
pub open spec fn op_bins(ops: Seq<BinOp>) -> Seq<int> {
    Seq::new(ops.len(), |j: int| op_bin(ops[j]))
}

/// A decoder in step with the encoder, reading the stream the encoder
/// writes for `ops`, reads back every bin of `ops`.
proof fn lemma_sim(m: EncModel, st: DecModel, ops: Seq<BinOp>, data: Seq<u8>)
    requires
        enc_ok(m),
        m.1 >= 256,
        ctx_ok(m),
        enc_scale(m) >= 0,
        ops_ok(ops),
        carries(data, enc_run(m, ops).4),
        in_step(m, st, data),
    ensures
        dec_run(data, st, ops) == op_bins(ops),
        dec_within(data, st, ops, enc_run(m, ops).4.len() as int),
    decreases ops.len(),
{
    let op = ops[0];
    let rest = ops.drop_first();
    let (fl, r, n) = (enc_low(m), m.1, enc_scale(m));
    let x = prefix_val(data, n + 9);
    assert(op_bins(ops) =~= seq![op_bin(op)] + op_bins(rest));
    if ops.len() == 1 {
        assert(op == ops.last());
        assert(enc_run(m, ops) == enc_run(enc_step(m, op), rest));
        assert(enc_run(m, ops) == terminate_m(m, 1));
        lemma_flush(m, data);
        assert(dec_step(data, st, op) == (1int, st));
        lemma_len(m, ops);
        assert(dec_within(data, st, rest, enc_run(m, ops).4.len() as int));
        assert(dec_run(data, st, rest) =~= Seq::<int>::empty());
        assert(op_bins(rest) =~= Seq::<int>::empty());
    } else {
        lemma_rest_ok(ops);
        let m2 = enc_step(m, op);
        assert(enc_run(m, ops) == enc_run(m2, rest));
        match op {
            BinOp::Decision(i, b) => {
                lemma_decision_enc(m, i, b);
                let s = m.5[i];
                let lps = lps_of(s, m.1);
                let rest_r = m.1 - lps;
                let mps = (s % 2) as int;
                let state = (s / 2) as int;
                let m1 = if b != mps {
                    (m.0 + rest_r, lps, m.2, m.3, m.4, m.5.update(i, pack(TRANS_IDX_LPS[state] as int, if state == 0 { 1 - mps } else { mps })))
                } else {
                    (m.0, rest_r, m.2, m.3, m.4, m.5.update(i, pack(TRANS_IDX_MPS[state] as int, mps)))
                };
                lemma_renorm_enc(m1);
                lemma_future(m2, rest, data);
                let d = renorm_shift(m1.1);
                let q = two_to(d) as int;
                lemma_two_to_pos(d);
                assert(enc_low(m1) * q <= enc_low(m2) && enc_low(m2) + m2.1 <= (enc_low(m1) + m1.1) * q) by (nonlinear_arith)
                    requires
                        enc_low(m2) == enc_low(m1) * q,
                        m2.1 == m1.1 * q,
                ;
                lemma_locate(data, (n + 9) as nat, d, enc_low(m1), m1.1, enc_low(m2), m2.1);
                lemma_renorm_pair(m1, data);
                let (bin, s2, rng, off) = decide(st.3[i], st.0, st.1);
                assert(st.3[i] == s);
                assert(rng == m1.1 && off == x - enc_low(m1) && s2 == m1.5[i] && bin as int == b);
                assert(st.3.update(i, s2) =~= m1.5);
                let st2 = (m2.1, prefix_val(data, enc_scale(m2) + 9) - enc_low(m2), enc_scale(m2) + 9, m2.5);
                assert(dec_step(data, st, op) == (b, st2));
                lemma_sim(m2, st2, rest, data);
                lemma_len(m2, rest);
                assert(dec_within(data, st, ops, enc_run(m, ops).4.len() as int));
            },
            BinOp::Bypass(b) => {
                lemma_bypass_enc(m, b);
                lemma_future(m2, rest, data);
                assert(b * r == if b == 1 { r } else { 0 });
                assert(prefix_val(data, n + 10) == 2 * x + stream_bit(data, n + 9));
                let st2 = (m2.1, prefix_val(data, enc_scale(m2) + 9) - enc_low(m2), enc_scale(m2) + 9, m2.5);
                assert(dec_step(data, st, op) == (b, st2));
                lemma_sim(m2, st2, rest, data);
                lemma_len(m2, rest);
                assert(dec_within(data, st, ops, enc_run(m, ops).4.len() as int));
            },
            BinOp::Terminate(b) => {
                let m1 = (m.0, m.1 - 2, m.2, m.3, m.4, m.5);
                assert(enc_ok(m1));
                lemma_renorm_enc(m1);
                assert(m2 == renorm_m(m1));
                lemma_future(m2, rest, data);
                let d = renorm_shift(m1.1);
                let q = two_to(d) as int;
                lemma_two_to_pos(d);
                assert(fl * q <= enc_low(m2) && enc_low(m2) + m2.1 <= (fl + (r - 2)) * q) by (nonlinear_arith)
                    requires
                        enc_low(m2) == fl * q,
                        m2.1 == (r - 2) * q,
                ;
                lemma_locate(data, (n + 9) as nat, d, fl, r - 2, enc_low(m2), m2.1);
                lemma_renorm_pair(m1, data);
                let st2 = (m2.1, prefix_val(data, enc_scale(m2) + 9) - enc_low(m2), enc_scale(m2) + 9, m2.5);
                assert(dec_step(data, st, op) == (0int, st2));
                lemma_sim(m2, st2, rest, data);
                lemma_len(m2, rest);
                assert(dec_within(data, st, ops, enc_run(m, ops).4.len() as int));
            },
        }
    }
}


/// The encoder's state as `Enc::new(qp)` returns it.
pub open spec fn fresh_enc(qp: int) -> EncModel {
    (0, 510, true, 0, Seq::empty(), Seq::new(NUM_CTX as nat, |i: int| init_context(INIT_VALUES[i], qp)))
}

/// The decoder's state as `Cabac::new(data, 0, qp)` returns it.
pub open spec fn fresh_dec(data: Seq<u8>, qp: int) -> DecModel {
    (510, stream_value(data, 0, 9), 9, Seq::new(NUM_CTX as nat, |i: int| init_context(INIT_VALUES[i], qp)))
}

/// Bytes as `Enc::finish` returns them carry the encoder's bits: its
/// contract says so of the bit view.
pub proof fn lemma_finish_carries(out: Seq<u8>, bits: Seq<u8>)
    requires
        out.len() * 8 >= bits.len(),
        forall|i: int| 0 <= i < bits.len() ==> #[trigger] bits[i] <= 1,
        forall|i: int| 0 <= i < bits_of(out).len() ==> #[trigger] bits_of(out)[i] == (i < bits.len() && bits[i] == 1),
    ensures
        carries(out, bits),
{
    assert forall|i: int| 0 <= i implies #[trigger] stream_bit(out, i) == if i < bits.len() {
        bits[i] as int
    } else {
        0
    } by {
        if i < out.len() * 8 {
            assert(bits_of(out)[i] == (i < bits.len() && bits[i] == 1));
        }
    }
}

/// What the encoder writes, the decoder reads back (clause 9.3.4): for a
/// sequence of context-coded, bypass and terminating bins ending with a
/// terminating 1, coded by an encoder fresh at slice QP `qp`, a decoder
/// fresh at the same QP over the bytes written gets past its
/// initialisation (`ivlOffset` below 510) and, stepping through the same
/// operations, reads back every bin in order, never moving past the bits
/// the encoder wrote.
pub proof fn lemma_round_trip(qp: int, ops: Seq<BinOp>, data: Seq<u8>)
    requires
        ops_ok(ops),
        carries(data, enc_run(fresh_enc(qp), ops).4),
    ensures
        stream_value(data, 0, 9) < 510,
        dec_run(data, fresh_dec(data, qp), ops) == op_bins(ops),
        dec_within(data, fresh_dec(data, qp), ops, enc_run(fresh_enc(qp), ops).4.len() as int),
{
    let m = fresh_enc(qp);
    assert forall|i: int| 0 <= i < NUM_CTX implies #[trigger] m.5[i] < 128 by {
        let init = INIT_VALUES[i];
        let q = if qp < 0 { 0 } else if qp > 51 { 51 } else { qp };
        let slope = (init / 16) * 5 - 45;
        let offset = (init % 16) * 8 - 16;
        let raw = (slope * q) / 16 + offset;
        let pre = if raw < 1 { 1 } else if raw > 126 { 126 } else { raw };
        assert(1 <= pre <= 126);
        assert(init_context(init, qp) == if pre > 63 { pack(pre - 64, 1) } else { pack(63 - pre, 0) });
    }
    assert(bits_val(Seq::<u8>::empty()) == 0);
    assert(two_to(0) == 1 && two_to(10) == 1024) by {
        reveal_with_fuel(two_to, 11);
    }
    assert(enc_low(m) == 0);
    assert(enc_scale(m) == 0);
    lemma_future(m, ops, data);
    lemma_sim(m, fresh_dec(data, qp), ops, data);
}

} // verus!
