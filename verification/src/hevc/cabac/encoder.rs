//! A CABAC *encoder* (clause 9.3.4.4), the counterpart of [`super::Cabac`].
//!
//! It lets the tests and benchmarks generate conforming bitstreams: the
//! decoder is checked by encoding known bin sequences and decoding them back.

use vstd::prelude::*;

use super::ctx::NUM_CTX;
use super::ctx::INIT_VALUES;
use super::engine::{init_context, initial_contexts};
use super::tables::{RANGE_TAB_LPS, TRANS_IDX_LPS, TRANS_IDX_MPS, lemma_tables};
use crate::hevc::bitmath::{bits_of, byte_bit, lemma_bit_u8, lemma_two_to_pos};

verus! {

/// How much one encoding step may add to the count of outstanding bits.
pub const STEP_GROWTH: u32 = 16;

/// The encoder as the contracts see it: `ivlLow`, `ivlCurrRange`,
/// `firstBitFlag`, `bitsOutstanding`, the bits written so far and the
/// context variables.
pub type EncModel = (int, int, bool, int, Seq<u8>, Seq<u8>);

/// `PutBit(b)` (clause 9.3.4.4): `b` written unless it is the first bit,
/// then the outstanding bits, each the opposite of `b`.
pub open spec fn put_bit_m(m: EncModel, b: u8) -> EncModel {
    let bits1 = if m.2 {
        m.4
    } else {
        m.4.push(b)
    };
    (m.0, m.1, false, 0, bits1 + Seq::new(m.3 as nat, |i: int| (1 - b) as u8), m.5)
}

/// `RenormE`: while the range is below 256, a bit is settled (0 from the
/// lower half, 1 from the upper) or left outstanding, and the interval is
/// doubled.
pub open spec fn renorm_m(m: EncModel) -> EncModel
    decreases (if 0 < m.1 < 256 {
        256 - m.1
    } else {
        0
    }),
{
    if m.1 <= 0 || m.1 >= 256 {
        m
    } else {
        let m1 = if m.0 < 256 {
            put_bit_m(m, 0)
        } else if m.0 >= 512 {
            put_bit_m((m.0 - 512, m.1, m.2, m.3, m.4, m.5), 1)
        } else {
            (m.0 - 256, m.1, m.2, m.3 + 1, m.4, m.5)
        };
        renorm_m((m1.0 * 2, m1.1 * 2, m1.2, m1.3, m1.4, m1.5))
    }
}

/// `EncodeDecision` (clause 9.3.4.4.2) of `bin` with context `idx`: the
/// range split by `rangeTabLps`, the context's state moved by
/// `transIdxLps` or `transIdxMps` (the most probable symbol flipping at
/// state 0), then `RenormE`.
pub open spec fn decision_m(m: EncModel, idx: int, bin: int) -> EncModel {
    let s = m.5[idx] as int;
    let (state, mps) = (s / 2, s % 2);
    let lps = RANGE_TAB_LPS[state][(m.1 / 64) % 4] as int;
    let r1 = m.1 - lps;
    if bin != mps {
        let nm = if state == 0 {
            1 - mps
        } else {
            mps
        };
        renorm_m((m.0 + r1, lps, m.2, m.3, m.4, m.5.update(idx, (2 * TRANS_IDX_LPS[state] + nm) as u8)))
    } else {
        renorm_m((m.0, r1, m.2, m.3, m.4, m.5.update(idx, (2 * TRANS_IDX_MPS[state] + mps) as u8)))
    }
}

/// `EncodeBypass` (clause 9.3.4.4.4) of `bin`.
pub open spec fn bypass_m(m: EncModel, bin: int) -> EncModel {
    let low = 2 * m.0 + if bin != 0 {
        m.1
    } else {
        0
    };
    if low >= 1024 {
        put_bit_m((low - 1024, m.1, m.2, m.3, m.4, m.5), 1)
    } else if low < 512 {
        put_bit_m((low, m.1, m.2, m.3, m.4, m.5), 0)
    } else {
        (low - 512, m.1, m.2, m.3 + 1, m.4, m.5)
    }
}

/// `EncodeTerminate` (clause 9.3.4.4.5) of `bin`: the range less 2; for a
/// 1, the interval moved to its top 2, renormalised, and `EncodeFlush`'s
/// last bits written (bit 9 of `ivlLow` by `PutBit`, then bit 8 and a
/// stop bit 1).
pub open spec fn terminate_m(m: EncModel, bin: int) -> EncModel {
    let r = m.1 - 2;
    if bin != 0 {
        let m2 = renorm_m((m.0 + r, 2, m.2, m.3, m.4, m.5));
        let m3 = put_bit_m(m2, ((m2.0 / 512) % 2) as u8);
        (m3.0, m3.1, m3.2, m3.3, m3.4.push(((m2.0 / 256) % 2) as u8).push(1), m3.5)
    } else {
        renorm_m((m.0, r, m.2, m.3, m.4, m.5))
    }
}

/// Arithmetic encoder from clause 9.3.4.4.
pub struct Enc {
    low: u32,
    range: u32,
    first: bool,
    outstanding: u32,
    bits: Vec<u8>,
    ctx: [u8; NUM_CTX],
}

impl Enc {
    /// The encoder's state.
    pub closed spec fn model(&self) -> EncModel {
        (self.low as int, self.range as int, self.first, self.outstanding as int, self.bits@, self.ctx@)
    }

    /// The emitted bits and the outstanding count are those of the model.
    pub proof fn lemma_model(&self)
        ensures
            self.emitted() == self.model().4,
            self.pending() == self.model().3,
    {
    }

    /// The bits emitted so far, as 0 or 1 each.
    pub closed spec fn emitted(&self) -> Seq<u8> {
        self.bits@
    }

    /// Bits whose value still depends on a carry.
    pub closed spec fn pending(&self) -> nat {
        self.outstanding as nat
    }

    /// The encoder's interval is well formed: `256 <= range <= 510`,
    /// `low + range <= 1024`, every emitted entry is one bit, and every
    /// context holds one of the 64 states.
    pub closed spec fn wf(&self) -> bool {
        &&& 256 <= self.range <= 510
        &&& self.low + self.range <= 1024
        &&& forall|i: int| 0 <= i < self.bits@.len() ==> #[trigger] self.bits@[i] <= 1
        &&& forall|i: int| 0 <= i < NUM_CTX ==> #[trigger] self.ctx[i] < 128
    }

    /// A fresh encoder with contexts initialised for slice QP `qp`.
    pub fn new(qp: i32) -> (r: Enc)
        ensures
            r.wf(),
            r.pending() == 0,
            r.emitted() == Seq::<u8>::empty(),
            r.model().0 == 0 && r.model().1 == 510 && r.model().2,
            r.model().5.len() == NUM_CTX,
            forall|i: int| 0 <= i < NUM_CTX ==> #[trigger] r.model().5[i] == init_context(INIT_VALUES[i], qp as int),
    {
        Enc {
            low: 0,
            range: 510,
            first: true,
            outstanding: 0,
            bits: Vec::new(),
            ctx: initial_contexts(qp),
        }
    }

    fn put_bit(&mut self, b: u8)
        requires
            old(self).wf_but_range(),
            b <= 1,
        ensures
            final(self).wf_but_range(),
            final(self).outstanding == 0,
            final(self).low == old(self).low,
            final(self).range == old(self).range,
            final(self).ctx == old(self).ctx,
            final(self).bits@.len() <= old(self).bits@.len() + 1 + old(self).outstanding,
            final(self).model() == put_bit_m(old(self).model(), b),
    {
        if self.first {
            self.first = false;
        } else {
            self.bits.push(b);
        }
        let ghost base = self.bits@;
        proof {
            assert(base == if old(self).first {
                old(self).bits@
            } else {
                old(self).bits@.push(b)
            });
            assert(base =~= base + Seq::new(0, |i: int| (1 - b) as u8));
        }
        while self.outstanding > 0
            invariant
                self.wf_but_range(),
                b <= 1,
                !self.first,
                self.outstanding <= old(self).outstanding,
                self.bits@ == base + Seq::new((old(self).outstanding - self.outstanding) as nat, |i: int| (1 - b) as u8),
                base == if old(self).first {
                    old(self).bits@
                } else {
                    old(self).bits@.push(b)
                },
                self.low == old(self).low,
                self.range == old(self).range,
                self.ctx == old(self).ctx,
                self.bits@.len() + self.outstanding <= old(self).bits@.len() + 1 + old(
                    self,
                ).outstanding,
            decreases self.outstanding,
        {
            let ghost k = (old(self).outstanding - self.outstanding) as nat;
            self.bits.push(1 - b);
            self.outstanding -= 1;
            proof {
                assert((base + Seq::new(k, |i: int| (1 - b) as u8)).push((1 - b) as u8) =~= base + Seq::new(
                    k + 1,
                    |i: int| (1 - b) as u8,
                ));
            }
        }
    }

    /// `RenormE`, with the interval invariant held except for `range`.
    fn renorm(&mut self)
        requires
            old(self).wf_but_range(),
            old(self).outstanding + 8 <= u32::MAX,
        ensures
            final(self).wf(),
            final(self).ctx == old(self).ctx,
            final(self).outstanding <= old(self).outstanding + 8,
            final(self).bits@.len() + final(self).outstanding <= old(self).bits@.len() + old(self).outstanding + 8,
            final(self).model() == renorm_m(old(self).model()),
    {
        proof {
            lemma_renorm_left(self.range);
        }
        while self.range < 256
            invariant
                self.wf_but_range(),
                renorm_m(self.model()) == renorm_m(old(self).model()),
                self.ctx == old(self).ctx,
                self.outstanding + renorm_left(self.range) <= old(self).outstanding + 8,
                self.bits@.len() + self.outstanding + renorm_left(self.range) <= old(self).bits@.len() + old(
                    self,
                ).outstanding + 8,
                old(self).outstanding + 8 <= u32::MAX,
            decreases renorm_left(self.range),
        {
            proof {
                lemma_renorm_left(self.range);
            }
            let ghost m0 = self.model();
            if self.low < 256 {
                self.put_bit(0);
            } else if self.low >= 512 {
                self.low -= 512;
                self.put_bit(1);
            } else {
                self.low -= 256;
                self.outstanding += 1;
            }
            self.range = self.range * 2;
            self.low = self.low * 2;
            proof {
                let m1 = if m0.0 < 256 {
                    put_bit_m(m0, 0)
                } else if m0.0 >= 512 {
                    put_bit_m((m0.0 - 512, m0.1, m0.2, m0.3, m0.4, m0.5), 1)
                } else {
                    (m0.0 - 256, m0.1, m0.2, m0.3 + 1, m0.4, m0.5)
                };
                assert(self.model() == (m1.0 * 2, m1.1 * 2, m1.2, m1.3, m1.4, m1.5));
            }
        }
    }

    /// The interval invariant, allowing a range below 256 that renormalisation
    /// is about to double.
    pub closed spec fn wf_but_range(&self) -> bool {
        &&& 2 <= self.range <= 510
        &&& self.low + self.range <= 1024
        &&& forall|i: int| 0 <= i < self.bits@.len() ==> #[trigger] self.bits@[i] <= 1
        &&& forall|i: int| 0 <= i < NUM_CTX ==> #[trigger] self.ctx[i] < 128
    }

    /// Encodes `bin` with context variable `idx`.
    pub fn decision(&mut self, idx: usize, bin: u32)
        requires
            old(self).wf(),
            idx < NUM_CTX,
            old(self).pending() + STEP_GROWTH <= u32::MAX,
        ensures
            final(self).wf(),
            final(self).pending() <= old(self).pending() + STEP_GROWTH,
            final(self).emitted().len() + final(self).pending() <= old(self).emitted().len() + old(
                self,
            ).pending() + STEP_GROWTH,
            final(self).model() == decision_m(old(self).model(), idx as int, bin as int),
    {
        proof {
            lemma_tables();
        }
        let s = self.ctx[idx];
        let state = (s >> 1) as usize;
        let mps = (s & 1) as u32;
        let q = ((self.range >> 6) & 3) as usize;
        proof {
            assert((s >> 1u8 == s / 2) && (s & 1u8 == s % 2)) by (bit_vector);
            let rg = self.range;
            assert((rg >> 6u32) & 3u32 == (rg / 64) % 4) by (bit_vector);
        }
        let lps = RANGE_TAB_LPS[state][q] as u32;
        self.range -= lps;
        if bin != mps {
            self.low += self.range;
            self.range = lps;
            let new_mps = if state == 0 {
                1 - mps
            } else {
                mps
            };
            let t = TRANS_IDX_LPS[state];
            proof {
                let nm = new_mps as u8;
                assert((t << 1u8) | nm < 128 && (t << 1u8) | nm == 2 * t + nm) by (bit_vector)
                    requires
                        t < 64,
                        nm <= 1,
                ;
            }
            self.ctx[idx] = (t << 1) | new_mps as u8;
        } else {
            let t = TRANS_IDX_MPS[state];
            proof {
                let nm = mps as u8;
                assert((t << 1u8) | nm < 128 && (t << 1u8) | nm == 2 * t + nm) by (bit_vector)
                    requires
                        t < 64,
                        nm <= 1,
                ;
            }
            self.ctx[idx] = (t << 1) | mps as u8;
        }
        self.renorm();
    }

    /// Encodes `bin` with the equiprobable model.
    pub fn bypass(&mut self, bin: u32)
        requires
            old(self).wf(),
            old(self).pending() + STEP_GROWTH <= u32::MAX,
        ensures
            final(self).wf(),
            final(self).pending() <= old(self).pending() + STEP_GROWTH,
            final(self).emitted().len() + final(self).pending() <= old(self).emitted().len() + old(
                self,
            ).pending() + STEP_GROWTH,
            final(self).model() == bypass_m(old(self).model(), bin as int),
    {
        let ghost m0 = self.model();
        self.low = self.low * 2;
        if bin != 0 {
            self.low += self.range;
        }
        if self.low >= 1024 {
            self.low -= 1024;
            self.put_bit(1);
        } else if self.low < 512 {
            self.put_bit(0);
        } else {
            self.low -= 512;
            self.outstanding += 1;
        }
    }

    /// Encodes `end_of_slice_segment_flag` (or another terminating bin).
    pub fn terminate(&mut self, bin: u32)
        requires
            old(self).wf(),
            old(self).pending() + STEP_GROWTH <= u32::MAX,
        ensures
            final(self).wf(),
            final(self).pending() <= old(self).pending() + STEP_GROWTH,
            final(self).emitted().len() + final(self).pending() <= old(self).emitted().len() + old(
                self,
            ).pending() + STEP_GROWTH,
            final(self).model() == terminate_m(old(self).model(), bin as int),
    {
        self.range -= 2;
        if bin != 0 {
            self.low += self.range;
            self.range = 2;
            self.renorm();
            let top = ((self.low >> 9) & 1) as u8;
            proof {
                let l = self.low;
                assert((l >> 9u32) & 1u32 <= 1) by (bit_vector);
            }
            self.put_bit(top);
            let tail = ((self.low >> 7) & 3) | 1;
            proof {
                let l = self.low;
                assert(((l >> 7u32) & 3u32) | 1u32 <= 3) by (bit_vector);
                let t = tail;
                assert(((t >> 1u32) & 1u32 <= 1) && (t & 1u32 <= 1)) by (bit_vector);
                assert((((l >> 7u32) & 3u32) | 1u32) & 1u32 == 1 && ((((l >> 7u32) & 3u32) | 1u32) >> 1u32) & 1u32
                    == (l / 256) % 2) by (bit_vector);
                assert((l >> 9u32) & 1u32 == (l / 512) % 2) by (bit_vector);
            }
            self.bits.push(((tail >> 1) & 1) as u8);
            self.bits.push((tail & 1) as u8);
        } else {
            self.renorm();
        }
    }

    /// Flushes the emitted bits into bytes, most significant bit first, the
    /// last byte padded with zero bits.
    pub fn finish(self) -> (out: Vec<u8>)
        requires
            self.wf(),
            self.emitted().len() + 8 <= usize::MAX,
        ensures
            out@.len() * 8 >= self.emitted().len(),
            out@.len() * 8 < self.emitted().len() + 8,
            forall|i: int|
                0 <= i < bits_of(out@).len() ==> #[trigger] bits_of(out@)[i] == (i < self.emitted().len()
                    && self.emitted()[i] == 1),
    {
        let ghost em = self.bits@;
        let mut bits = self.bits;
        while bits.len() % 8 != 0
            invariant
                em.len() <= bits@.len(),
                em.len() % 8 == 0 ==> bits@.len() == em.len(),
                em.len() + 8 <= usize::MAX,
                bits@.len() <= (em.len() / 8) * 8 + 8,
                forall|i: int| 0 <= i < bits@.len() ==> #[trigger] bits@[i] <= 1,
                forall|i: int| 0 <= i < em.len() ==> #[trigger] bits@[i] == em[i],
                forall|i: int| em.len() <= i < bits@.len() ==> #[trigger] bits@[i] == 0,
            decreases (em.len() / 8) * 8 + 8 - bits@.len(),
        {
            bits.push(0);
        }
        assert(bits@.len() < em.len() + 8);
        let nbytes = bits.len() / 8;
        let mut out: Vec<u8> = Vec::new();
        let mut j: usize = 0;
        while j < nbytes
            invariant
                nbytes * 8 == bits@.len(),
                bits@.len() <= usize::MAX,
                j <= nbytes,
                out@.len() == j,
                forall|i: int| 0 <= i < bits@.len() ==> #[trigger] bits@[i] <= 1,
                forall|i: int|
                    0 <= i < j * 8 ==> #[trigger] byte_bit(out@[i / 8], i % 8) == (bits@[i] == 1),
            decreases nbytes - j,
        {
            let mut byte: u8 = 0;
            let mut k: usize = 0;
            proof {
                assert forall|t: int| 0 <= t < 8 implies !#[trigger] byte_bit(0u8, t) by {
                    lemma_two_to_pos((7 - t) as nat);
                }
                assert((j + 1) * 8 <= nbytes * 8) by (nonlinear_arith)
                    requires
                        j < nbytes,
                ;
            }
            while k < 8
                invariant
                    bits@.len() <= usize::MAX,
                    k <= 8,
                    j < nbytes,
                    (j + 1) * 8 <= nbytes * 8,
                    nbytes * 8 == bits@.len(),
                    forall|i: int| 0 <= i < bits@.len() ==> #[trigger] bits@[i] <= 1,
                    forall|t: int|
                        0 <= t < k ==> #[trigger] byte_bit(byte, t) == (bits@[j * 8 + t] == 1),
                    forall|t: int| k <= t < 8 ==> !#[trigger] byte_bit(byte, t),
                decreases 8 - k,
            {
                assert(j * 8 + k < nbytes * 8) by (nonlinear_arith)
                    requires
                        (j + 1) * 8 <= nbytes * 8,
                        k < 8,
                ;
                let b = bits[j * 8 + k];
                let kk = k as u8;
                let nb = byte | (b << (7 - kk));
                proof {
                    assert(!byte_bit(byte, k as int));
                    lemma_bit_u8(byte, (7 - kk) as u8);
                    assert forall|t: int| 0 <= t < 8 implies #[trigger] byte_bit(nb, t) == if t
                        == k {
                        b == 1
                    } else {
                        byte_bit(byte, t)
                    } by {
                        let tt = t as u8;
                        lemma_bit_u8(byte, (7 - tt) as u8);
                        lemma_bit_u8(nb, (7 - tt) as u8);
                        lemma_bit_u8(byte, (7 - kk) as u8);
                        assert(((byte | (b << (7 - kk) as u8)) >> (7 - tt) as u8) & 1u8 == if tt
                            == kk {
                            b
                        } else {
                            (byte >> (7 - tt) as u8) & 1u8
                        }) by (bit_vector)
                            requires
                                b <= 1,
                                kk < 8,
                                tt < 8,
                                (byte >> (7 - kk) as u8) & 1u8 == 0u8,
                        ;
                    }
                }
                byte = nb;
                k += 1;
            }
            out.push(byte);
            proof {
                assert forall|i: int| 0 <= i < (j + 1) * 8 implies #[trigger] byte_bit(
                    out@[i / 8],
                    i % 8,
                ) == (bits@[i] == 1) by {
                    if i >= j * 8 {
                        assert(i / 8 == j);
                        assert(i == j * 8 + i % 8);
                    }
                }
            }
            j += 1;
        }
        out
    }
}

/// Doublings left before a range reaches 256.
pub open spec fn renorm_left(range: u32) -> nat
    decreases (if 0 < range < 256 {
        256 - range
    } else {
        0
    }),
{
    if range == 0 || range >= 256 {
        0
    } else {
        1 + renorm_left((range * 2) as u32)
    }
}

/// A range of at least 2 is renormalised in at most seven doublings.
pub proof fn lemma_renorm_left(r: u32)
    ensures
        r >= 128 ==> renorm_left(r) <= 1,
        r >= 64 ==> renorm_left(r) <= 2,
        r >= 32 ==> renorm_left(r) <= 3,
        r >= 16 ==> renorm_left(r) <= 4,
        r >= 8 ==> renorm_left(r) <= 5,
        r >= 4 ==> renorm_left(r) <= 6,
        r >= 2 ==> renorm_left(r) <= 7,
    decreases (if 0 < r < 256 {
        256 - r
    } else {
        0
    }),
{
    if 0 < r < 256 {
        lemma_renorm_left((r * 2) as u32);
    }
}

} // verus!
