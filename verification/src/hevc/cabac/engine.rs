//! The CABAC arithmetic decoding engine (clause 9.3.4.3).

use vstd::prelude::*;

use super::ctx::{INIT_VALUES, NUM_CTX};
use super::tables::{RANGE_TAB_LPS, TRANS_IDX_LPS, TRANS_IDX_MPS, lemma_tables};
use crate::hevc::bitmath::{byte_bit, lemma_bit_u8};
use crate::hevc::error::{Error, Result};

verus! {

/// Number of zero bytes the engine may synthesise past the end of a substream.
///
/// The nine-bit prefetch of `initialization` plus renormalisation legitimately
/// reads a little past the last meaningful byte of a slice segment.
pub const OVERREAD_SLACK: usize = 16;

/// Bit `i` of a substream, with zero bits past its end.
pub open spec fn stream_bit(data: Seq<u8>, i: int) -> int {
    if 0 <= i < data.len() * 8 && byte_bit(data[i / 8], i % 8) {
        1
    } else {
        0
    }
}

/// The first bit position the engine refuses to read.
pub open spec fn read_limit(data: Seq<u8>) -> int {
    (data.len() + OVERREAD_SLACK) * 8
}

/// `n` stream bits from `pos` as an unsigned number, most significant first.
pub open spec fn stream_value(data: Seq<u8>, pos: int, n: nat) -> int
    decreases n,
{
    if n == 0 {
        0
    } else {
        2 * stream_value(data, pos, (n - 1) as nat) + stream_bit(data, pos + n - 1)
    }
}

/// How far a range is below 256, for the termination of renormalisation.
pub open spec fn renorm_measure(range: int) -> nat {
    if 0 < range < 256 {
        (256 - range) as nat
    } else {
        0
    }
}

/// Doublings renormalisation applies to a range of `range`.
pub open spec fn renorm_shift(range: int) -> nat
    decreases renorm_measure(range),
{
    if range <= 0 || range >= 256 {
        0
    } else {
        1 + renorm_shift(2 * range)
    }
}

/// `RenormD`: doubles the range and shifts a stream bit into the offset
/// until the range is at least 256. Yields `(range, offset, pos)`.
pub open spec fn renorm(data: Seq<u8>, range: int, offset: int, pos: int) -> (int, int, int)
    decreases renorm_measure(range),
{
    if range <= 0 || range >= 256 {
        (range, offset, pos)
    } else {
        renorm(data, 2 * range, 2 * offset + stream_bit(data, pos), pos + 1)
    }
}

/// The packed context a valid state index and most probable symbol make.
pub open spec fn pack(state: int, mps: int) -> u8 {
    (2 * state + mps) as u8
}

/// `rangeTabLps` for a packed context and the current range.
pub open spec fn lps_of(s: u8, range: int) -> int {
    RANGE_TAB_LPS[(s / 2) as int][(range / 64) % 4] as int
}

/// `DecodeDecision` before renormalisation: the bin, the updated context,
/// and the range and offset it leaves.
pub open spec fn decide(s: u8, range: int, offset: int) -> (u32, u8, int, int) {
    let state = s / 2;
    let mps = s % 2;
    let lps = lps_of(s, range);
    let rest = range - lps;
    if offset >= rest {
        (
            (1 - mps) as u32,
            pack(
                TRANS_IDX_LPS[state as int] as int,
                if state == 0 {
                    1 - mps
                } else {
                    mps as int
                },
            ),
            lps,
            offset - rest,
        )
    } else {
        (mps as u32, pack(TRANS_IDX_MPS[state as int] as int, mps as int), rest, offset)
    }
}

/// The packed context `initialization` gives a context with initialisation
/// value `init` at slice QP `qp` (clause 9.3.2.2).
pub open spec fn init_context(init: u8, qp: int) -> u8 {
    let q = if qp < 0 {
        0
    } else if qp > 51 {
        51
    } else {
        qp
    };
    let slope = (init / 16) * 5 - 45;
    let offset = (init % 16) * 8 - 16;
    let raw = (slope * q) / 16 + offset;
    let pre = if raw < 1 {
        1
    } else if raw > 126 {
        126
    } else {
        raw
    };
    if pre > 63 {
        pack(pre - 64, 1)
    } else {
        pack(63 - pre, 0)
    }
}

/// Derives every context variable from `SliceQpY` (clause 9.3.2.2).
///
/// Each entry is packed as `pStateIdx << 1 | valMps`.
pub fn initial_contexts(qp: i32) -> (out: [u8; NUM_CTX])
    ensures
        forall|i: int| 0 <= i < NUM_CTX ==> #[trigger] out[i] == init_context(INIT_VALUES[i], qp as int),
        forall|i: int| 0 <= i < NUM_CTX ==> #[trigger] out[i] < 126,
{
    let q: i32 = if qp < 0 {
        0
    } else if qp > 51 {
        51
    } else {
        qp
    };
    let mut out = [0u8; NUM_CTX];
    let mut i: usize = 0;
    while i < NUM_CTX
        invariant
            0 <= q <= 51,
            q == (if qp < 0 {
                0
            } else if qp > 51 {
                51
            } else {
                qp
            }),
            i <= NUM_CTX,
            forall|j: int| 0 <= j < i ==> #[trigger] out[j] == init_context(INIT_VALUES[j], qp as int),
            forall|j: int| 0 <= j < i ==> #[trigger] out[j] < 126,
        decreases NUM_CTX - i,
    {
        let init = INIT_VALUES[i];
        let slope = (init >> 4) as i32 * 5 - 45;
        let offset = ((init & 15) as i32) * 8 - 16;
        proof {
            assert((init >> 4u8 == init / 16) && (init & 15u8 == init % 16)) by (bit_vector);
            assert(-45 <= slope <= 30);
            assert(-45 * 51 <= slope * q <= 30 * 51) by (nonlinear_arith)
                requires
                    -45 <= slope <= 30,
                    0 <= q <= 51,
            ;
            let m = (slope * q) as i32;
            assert(m >> 4i32 == m / 16) by (bit_vector);
        }
        let raw = ((slope * q) >> 4) + offset;
        let pre = if raw < 1 {
            1
        } else if raw > 126 {
            126
        } else {
            raw
        };
        let mps: u8 = if pre > 63 {
            1
        } else {
            0
        };
        let state = if mps == 1 {
            pre - 64
        } else {
            63 - pre
        };
        proof {
            let st = state as u8;
            assert((st << 1u8) | mps == 2 * st + mps) by (bit_vector)
                requires
                    st < 64,
                    mps <= 1,
            ;
        }
        out[i] = ((state as u8) << 1) | mps;
        i += 1;
    }
    out
}

/// Arithmetic decoder plus the flat array of context variables.
///
/// Context variables are packed as `pStateIdx << 1 | valMps`.
#[derive(Clone)]
pub struct Cabac<'a> {
    data: &'a [u8],
    /// Next bit to read, counted from the first bit of `data`.
    pos: usize,
    range: u32,
    offset: u32,
    /// `pStateIdx << 1 | valMps` for every context variable.
    pub ctx: [u8; NUM_CTX],
}

impl<'a> Cabac<'a> {
    /// The substream being decoded.
    pub closed spec fn spec_data(&self) -> Seq<u8> {
        self.data@
    }

    /// The next bit to read.
    pub closed spec fn spec_pos(&self) -> int {
        self.pos as int
    }

    /// `ivlCurrRange`.
    pub closed spec fn spec_range(&self) -> int {
        self.range as int
    }

    /// `ivlOffset`.
    pub closed spec fn spec_offset(&self) -> int {
        self.offset as int
    }

    /// The context variables.
    pub closed spec fn spec_ctx(&self) -> Seq<u8> {
        self.ctx@
    }

    /// Positions and contexts are in range.
    pub closed spec fn wf(&self) -> bool {
        &&& read_limit(self.data@) + 64 <= usize::MAX
        &&& self.pos <= read_limit(self.data@)
        &&& self.range <= 510
        &&& self.offset < 1024
        &&& forall|i: int| 0 <= i < NUM_CTX ==> #[trigger] self.ctx[i] < 128
    }

    /// A well-formed engine's position lies within the readable bits.
    pub proof fn lemma_pos_in_stream(&self)
        requires
            self.wf(),
        ensures
            0 <= self.spec_pos() <= read_limit(self.spec_data()),
    {
    }

    /// The arithmetic decoder is between bins: `256 <= range <= 510` and
    /// `offset < range`.
    pub open spec fn engine_ok(&self) -> bool {
        &&& 256 <= self.spec_range() <= 510
        &&& 0 <= self.spec_offset() < self.spec_range()
    }

    /// What every decoding step keeps.
    pub open spec fn same_stream(&self, other: &Self) -> bool {
        &&& self.wf()
        &&& self.spec_data() == other.spec_data()
    }

    /// Creates an engine over `data` starting at byte `byte_off`.
    ///
    /// `qp` is `SliceQpY`, used to initialise the context variables.
    pub fn new(data: &'a [u8], byte_off: usize, qp: i32) -> (r: Result<Cabac<'a>>)
        requires
            (data@.len() + OVERREAD_SLACK) * 8 + 64 <= usize::MAX,
        ensures
            r is Ok <==> byte_off * 8 + 9 <= read_limit(data@) && stream_value(
                data@,
                byte_off * 8,
                9,
            ) < 510,
            r matches Err(e) ==> (e is Truncated <==> byte_off * 8 + 9 > read_limit(data@)) && (
            e is Truncated || e == Error::InvalidData("CABAC ivlOffset is 510 or 511")),
            r matches Ok(c) ==> {
                &&& c.wf()
                &&& c.engine_ok()
                &&& c.spec_data() == data@
                &&& c.spec_range() == 510
                &&& c.spec_offset() == stream_value(data@, byte_off * 8, 9)
                &&& c.spec_pos() == byte_off * 8 + 9
                &&& c.spec_ctx().len() == NUM_CTX
                &&& forall|i: int|
                    0 <= i < NUM_CTX ==> #[trigger] c.spec_ctx()[i] == init_context(
                        INIT_VALUES[i],
                        qp as int,
                    )
            },
    {
        if byte_off > (data.len() + OVERREAD_SLACK) {
            return Err(Error::Truncated);
        }
        let mut c = Cabac { data, pos: byte_off * 8, range: 510, offset: 0, ctx: [0;NUM_CTX] };
        c.init_contexts(qp);
        match c.init_engine() {
            Ok(()) => Ok(c),
            Err(e) => Err(e),
        }
    }

    /// Resets the context variables from the initialisation table (9.3.2.2).
    pub fn init_contexts(&mut self, qp: i32)
        requires
            old(self).wf(),
        ensures
            final(self).wf(),
            final(self).spec_data() == old(self).spec_data(),
            final(self).spec_pos() == old(self).spec_pos(),
            final(self).spec_range() == old(self).spec_range(),
            final(self).spec_offset() == old(self).spec_offset(),
            forall|i: int|
                0 <= i < NUM_CTX ==> #[trigger] final(self).spec_ctx()[i] == init_context(
                    INIT_VALUES[i],
                    qp as int,
                ),
    {
        self.ctx = initial_contexts(qp);
    }

    /// Restarts the arithmetic decoder at the current byte position (9.3.2.5).
    pub fn init_engine(&mut self) -> (r: Result<()>)
        requires
            old(self).wf(),
        ensures
            final(self).same_stream(old(self)),
            final(self).spec_ctx() == old(self).spec_ctx(),
            ({
                let p = (old(self).spec_pos() + 7) / 8 * 8;
                &&& r is Ok <==> p + 9 <= read_limit(old(self).spec_data()) && stream_value(
                    old(self).spec_data(),
                    p,
                    9,
                ) < 510
                &&& r matches Err(e) ==> (e is Truncated <==> p + 9 > read_limit(
                    old(self).spec_data(),
                )) && (e is Truncated || e == Error::InvalidData("CABAC ivlOffset is 510 or 511"))
                &&& r is Ok ==> {
                    &&& final(self).engine_ok()
                    &&& final(self).spec_range() == 510
                    &&& final(self).spec_offset() == stream_value(old(self).spec_data(), p, 9)
                    &&& final(self).spec_pos() == p + 9
                }
            }),
    {
        self.pos = (self.pos + 7) / 8 * 8;
        self.range = 510;
        let v = self.read_bits(9);
        match v {
            Err(e) => {
                self.offset = 0;
                Err(e)
            },
            Ok(v) => {
                if v >= 510 {
                    self.offset = 0;
                    return Err(Error::InvalidData("CABAC ivlOffset is 510 or 511"));
                }
                self.offset = v;
                Ok(())
            },
        }
    }

    /// Repositions the engine at byte `byte_off` and restarts it.
    pub fn restart_at(&mut self, byte_off: usize) -> (r: Result<()>)
        requires
            old(self).wf(),
        ensures
            final(self).same_stream(old(self)),
            final(self).spec_ctx() == old(self).spec_ctx(),
            r is Ok <==> byte_off * 8 + 9 <= read_limit(old(self).spec_data()) && stream_value(
                old(self).spec_data(),
                byte_off * 8,
                9,
            ) < 510,
            r is Ok ==> {
                &&& final(self).engine_ok()
                &&& final(self).spec_range() == 510
                &&& final(self).spec_offset() == stream_value(
                    old(self).spec_data(),
                    byte_off * 8,
                    9,
                )
                &&& final(self).spec_pos() == byte_off * 8 + 9
            },
            r matches Err(e) ==> e is Truncated || e == Error::InvalidData("CABAC ivlOffset is 510 or 511"),
    {
        if byte_off > self.data.len() + OVERREAD_SLACK {
            return Err(Error::Truncated);
        }
        self.pos = byte_off * 8;
        self.init_engine()
    }

    /// Next byte boundary at or after the current position.
    ///
    /// `DecodeTerminate` consumes no bit when it returns 1 and the last bit it
    /// shifted in is the stop bit, so this is where the next substream starts.
    pub fn aligned_pos(&self) -> (r: usize)
        requires
            self.wf(),
        ensures
            r == (self.spec_pos() + 7) / 8,
    {
        (self.pos + 7) / 8
    }

    /// Reads one bit, synthesising zero bits a little past the end.
    fn read_bit(&mut self) -> (r: Result<u32>)
        requires
            old(self).wf(),
        ensures
            final(self).same_stream(old(self)),
            final(self).spec_ctx() == old(self).spec_ctx(),
            final(self).spec_range() == old(self).spec_range(),
            final(self).spec_offset() == old(self).spec_offset(),
            old(self).spec_pos() < read_limit(old(self).spec_data()) ==> r == Ok::<u32, Error>(
                stream_bit(old(self).spec_data(), old(self).spec_pos()) as u32,
            ) && final(self).spec_pos() == old(self).spec_pos() + 1,
            old(self).spec_pos() >= read_limit(old(self).spec_data()) ==> r == Err::<u32, Error>(
                Error::Truncated,
            ) && final(self).spec_pos() == old(self).spec_pos(),
    {
        let byte_idx = self.pos / 8;
        let b = if byte_idx < self.data.len() {
            self.data[byte_idx]
        } else {
            if byte_idx >= self.data.len() + OVERREAD_SLACK {
                return Err(Error::Truncated);
            }
            0
        };
        let off = (self.pos % 8) as u8;
        let bit = (b >> (7 - off)) & 1;
        proof {
            lemma_bit_u8(b, (7 - off) as u8);
            if byte_idx >= self.data@.len() {
                assert(b == 0);
                assert((0u8 >> (7 - off) as u8) & 1u8 == 0u8) by (bit_vector);
            }
        }
        self.pos += 1;
        Ok(bit as u32)
    }

    /// Reads `n` raw bits as an unsigned number, most significant first.
    fn read_bits(&mut self, n: u32) -> (r: Result<u32>)
        requires
            old(self).wf(),
            n <= 32,
        ensures
            final(self).same_stream(old(self)),
            final(self).spec_ctx() == old(self).spec_ctx(),
            final(self).spec_range() == old(self).spec_range(),
            final(self).spec_offset() == old(self).spec_offset(),
            r is Ok <==> old(self).spec_pos() + n <= read_limit(old(self).spec_data()),
            r matches Ok(v) ==> v as int == stream_value(
                old(self).spec_data(),
                old(self).spec_pos(),
                n as nat,
            ) && final(self).spec_pos() == old(self).spec_pos() + n,
            r matches Err(e) ==> e is Truncated,
    {
        let ghost p0 = self.spec_pos();
        let ghost d = self.spec_data();
        let mut v: u32 = 0;
        let mut k: u32 = 0;
        while k < n
            invariant
                self.same_stream(old(self)),
                self.spec_ctx() == old(self).spec_ctx(),
                self.spec_range() == old(self).spec_range(),
                self.spec_offset() == old(self).spec_offset(),
                d == old(self).spec_data(),
                p0 == old(self).spec_pos(),
                k <= n <= 32,
                self.spec_pos() == p0 + k,
                p0 + k <= read_limit(d),
                v as int == stream_value(d, p0, k as nat),
                v as int <= 0xffff_ffff,
                0 <= v < crate::hevc::bitmath::two_to(k as nat),
            decreases n - k,
        {
            let b = match self.read_bit() {
                Err(e) => {
                    return Err(e);
                },
                Ok(b) => b,
            };
            proof {
                crate::hevc::bitmath::lemma_two_to_monotone(k as nat, 31);
                crate::hevc::bitmath::lemma_two_to_small();
            }
            v = v * 2 + b;
            k += 1;
        }
        Ok(v)
    }

    /// `DecodeDecision`: decodes one bin with context variable `ctx_idx`.
    pub fn decision(&mut self, ctx_idx: usize) -> (r: Result<u32>)
        requires
            old(self).wf(),
            old(self).engine_ok(),
            ctx_idx < NUM_CTX,
        ensures
            final(self).same_stream(old(self)),
            ({
                let (bin, s, rng, off) = decide(
                    old(self).spec_ctx()[ctx_idx as int],
                    old(self).spec_range(),
                    old(self).spec_offset(),
                );
                let (rng2, off2, pos2) = renorm(
                    old(self).spec_data(),
                    rng,
                    off,
                    old(self).spec_pos(),
                );
                &&& final(self).spec_ctx() == old(self).spec_ctx().update(ctx_idx as int, s)
                &&& r is Ok <==> old(self).spec_pos() + renorm_shift(rng) <= read_limit(
                    old(self).spec_data(),
                )
                &&& r matches Err(e) ==> e is Truncated
                &&& r matches Ok(b) ==> {
                    &&& b == bin
                    &&& final(self).engine_ok()
                    &&& final(self).spec_range() == rng2
                    &&& final(self).spec_offset() == off2
                    &&& final(self).spec_pos() == pos2
                }
            }),
    {
        proof {
            lemma_tables();
        }
        let s = self.ctx[ctx_idx];
        let state = (s >> 1) as usize;
        let mps = (s & 1) as u32;
        let q = ((self.range >> 6) & 3) as usize;
        proof {
            assert((s >> 1u8 == s / 2) && (s & 1u8 == s % 2)) by (bit_vector);
            let rg = self.range;
            assert((rg >> 6u32) & 3u32 == (rg / 64) % 4) by (bit_vector);
        }
        let lps = RANGE_TAB_LPS[state][q] as u32;
        self.range -= lps;
        let bin;
        if self.offset >= self.range {
            bin = 1 - mps;
            self.offset -= self.range;
            self.range = lps;
            let new_mps = if state == 0 {
                1 - mps
            } else {
                mps
            };
            let t = TRANS_IDX_LPS[state];
            proof {
                let nm = new_mps as u8;
                assert((t << 1u8) | nm == 2 * t + nm) by (bit_vector)
                    requires
                        t < 64,
                        nm <= 1,
                ;
            }
            self.ctx[ctx_idx] = (t << 1) | new_mps as u8;
        } else {
            bin = mps;
            let t = TRANS_IDX_MPS[state];
            proof {
                let nm = mps as u8;
                assert((t << 1u8) | nm == 2 * t + nm) by (bit_vector)
                    requires
                        t < 64,
                        nm <= 1,
                ;
            }
            self.ctx[ctx_idx] = (t << 1) | mps as u8;
        }
        match self.renormalize() {
            Ok(()) => Ok(bin),
            Err(e) => Err(e),
        }
    }

    /// `RenormD` on the engine's own range, offset and position.
    fn renormalize(&mut self) -> (r: Result<()>)
        requires
            old(self).wf(),
            0 < old(self).spec_range() <= 510,
            0 <= old(self).spec_offset() < old(self).spec_range(),
        ensures
            final(self).same_stream(old(self)),
            final(self).spec_ctx() == old(self).spec_ctx(),
            r is Ok <==> old(self).spec_pos() + renorm_shift(old(self).spec_range()) <= read_limit(
                old(self).spec_data(),
            ),
            r matches Err(e) ==> e is Truncated,
            r is Ok ==> {
                let (rng2, off2, pos2) = renorm(
                    old(self).spec_data(),
                    old(self).spec_range(),
                    old(self).spec_offset(),
                    old(self).spec_pos(),
                );
                &&& final(self).engine_ok()
                &&& final(self).spec_range() == rng2
                &&& final(self).spec_offset() == off2
                &&& final(self).spec_pos() == pos2
            },
    {
        let ghost d = self.spec_data();
        let ghost target = renorm(d, self.range as int, self.offset as int, self.pos as int);
        let ghost need = self.pos + renorm_shift(self.range as int);
        while self.range < 256
            invariant
                self.same_stream(old(self)),
                self.spec_ctx() == old(self).spec_ctx(),
                d == old(self).spec_data(),
                0 < self.range <= 510,
                self.offset < self.range,
                renorm(d, self.range as int, self.offset as int, self.pos as int) == target,
                self.pos + renorm_shift(self.range as int) == need,
                need == old(self).spec_pos() + renorm_shift(old(self).spec_range()),
                target == renorm(
                    old(self).spec_data(),
                    old(self).spec_range(),
                    old(self).spec_offset(),
                    old(self).spec_pos(),
                ),
            decreases renorm_measure(self.range as int),
        {
            self.range = self.range * 2;
            let b = match self.read_bit() {
                Err(e) => {
                    return Err(e);
                },
                Ok(b) => b,
            };
            self.offset = self.offset * 2 + b;
        }
        Ok(())
    }

    /// `DecodeBypass`: decodes one bin with the equiprobable model.
    pub fn bypass(&mut self) -> (r: Result<u32>)
        requires
            old(self).wf(),
            old(self).engine_ok(),
        ensures
            final(self).same_stream(old(self)),
            final(self).spec_ctx() == old(self).spec_ctx(),
            final(self).spec_range() == old(self).spec_range(),
            r is Ok <==> old(self).spec_pos() < read_limit(old(self).spec_data()),
            r matches Err(e) ==> e is Truncated,
            r matches Ok(b) ==> {
                let t = 2 * old(self).spec_offset() + stream_bit(
                    old(self).spec_data(),
                    old(self).spec_pos(),
                );
                &&& final(self).engine_ok()
                &&& final(self).spec_pos() == old(self).spec_pos() + 1
                &&& b == (if t >= old(self).spec_range() {
                    1u32
                } else {
                    0u32
                })
                &&& final(self).spec_offset() == if t >= old(self).spec_range() {
                    t - old(self).spec_range()
                } else {
                    t
                }
            },
    {
        let b = match self.read_bit() {
            Err(e) => {
                return Err(e);
            },
            Ok(b) => b,
        };
        self.offset = self.offset * 2 + b;
        if self.offset >= self.range {
            self.offset -= self.range;
            Ok(1)
        } else {
            Ok(0)
        }
    }

    /// Decodes `n` bypass bins as an unsigned integer, most significant first.
    pub fn bypass_bits(&mut self, n: u32) -> (r: Result<u32>)
        requires
            old(self).wf(),
            old(self).engine_ok(),
            n <= 32,
        ensures
            final(self).same_stream(old(self)),
            final(self).spec_ctx() == old(self).spec_ctx(),
            final(self).spec_range() == old(self).spec_range(),
            r is Ok <==> old(self).spec_pos() + n <= read_limit(old(self).spec_data()),
            r matches Err(e) ==> e is Truncated,
            r matches Ok(v) ==> final(self).engine_ok() && final(self).spec_pos() == old(
                self,
            ).spec_pos() + n && v as int == bypass_value(
                old(self).spec_data(),
                old(self).spec_range(),
                old(self).spec_offset(),
                old(self).spec_pos(),
                n as nat,
            ).0 && final(self).spec_offset() == bypass_value(
                old(self).spec_data(),
                old(self).spec_range(),
                old(self).spec_offset(),
                old(self).spec_pos(),
                n as nat,
            ).1,
    {
        let ghost d = self.spec_data();
        let ghost p0 = self.spec_pos();
        let ghost o0 = self.spec_offset();
        let mut v: u32 = 0;
        let mut k: u32 = 0;
        while k < n
            invariant
                self.same_stream(old(self)),
                self.spec_ctx() == old(self).spec_ctx(),
                self.spec_range() == old(self).spec_range(),
                self.engine_ok(),
                d == old(self).spec_data(),
                p0 == old(self).spec_pos(),
                o0 == old(self).spec_offset(),
                k <= n <= 32,
                self.spec_pos() == p0 + k,
                p0 + k <= read_limit(d),
                (v as int, self.spec_offset()) == bypass_value(
                    d,
                    self.spec_range(),
                    o0,
                    p0,
                    k as nat,
                ),
                0 <= v < crate::hevc::bitmath::two_to(k as nat),
            decreases n - k,
        {
            let b = match self.bypass() {
                Err(e) => {
                    return Err(e);
                },
                Ok(b) => b,
            };
            proof {
                crate::hevc::bitmath::lemma_two_to_monotone(k as nat, 31);
                crate::hevc::bitmath::lemma_two_to_small();
            }
            v = v * 2 + b;
            k += 1;
        }
        Ok(v)
    }

    /// `DecodeTerminate`: decodes `end_of_slice_segment_flag` and `pcm_flag`.
    ///
    /// After a 1 the engine is left as the terminating bin found it, which is
    /// no longer a state bins can be decoded from: the caller aligns and
    /// restarts it, or stops.
    pub fn terminate(&mut self) -> (r: Result<u32>)
        requires
            old(self).wf(),
            old(self).engine_ok(),
        ensures
            final(self).same_stream(old(self)),
            final(self).spec_ctx() == old(self).spec_ctx(),
            ({
                let rng = old(self).spec_range() - 2;
                let (rng2, off2, pos2) = renorm(
                    old(self).spec_data(),
                    rng,
                    old(self).spec_offset(),
                    old(self).spec_pos(),
                );
                &&& old(self).spec_offset() >= rng ==> r == Ok::<u32, Error>(1)
                    && final(self).spec_pos() == old(self).spec_pos()
                &&& old(self).spec_offset() < rng ==> {
                    &&& r is Ok <==> old(self).spec_pos() + renorm_shift(rng) <= read_limit(
                        old(self).spec_data(),
                    )
                    &&& r matches Err(e) ==> e is Truncated
                    &&& r matches Ok(b) ==> {
                        &&& b == 0
                        &&& final(self).engine_ok()
                        &&& final(self).spec_range() == rng2
                        &&& final(self).spec_offset() == off2
                        &&& final(self).spec_pos() == pos2
                    }
                }
            }),
    {
        self.range -= 2;
        if self.offset >= self.range {
            Ok(1)
        } else {
            match self.renormalize() {
                Ok(()) => Ok(0),
                Err(e) => Err(e),
            }
        }
    }

    /// Aligns to the next byte boundary after `DecodeTerminate` returned 1.
    ///
    /// Used before reading PCM samples, which are not arithmetically coded.
    pub fn align_after_terminate(&mut self)
        requires
            old(self).wf(),
        ensures
            final(self).same_stream(old(self)),
            final(self).spec_ctx() == old(self).spec_ctx(),
            final(self).spec_range() == old(self).spec_range(),
            final(self).spec_offset() == old(self).spec_offset(),
            final(self).spec_pos() == (old(self).spec_pos() + 7) / 8 * 8,
    {
        self.pos = (self.pos + 7) / 8 * 8;
    }

    /// Reads `n` raw bits directly from the substream (PCM sample data).
    pub fn raw_bits(&mut self, n: u32) -> (r: Result<u32>)
        requires
            old(self).wf(),
            n <= 32,
        ensures
            final(self).same_stream(old(self)),
            final(self).spec_ctx() == old(self).spec_ctx(),
            final(self).spec_range() == old(self).spec_range(),
            final(self).spec_offset() == old(self).spec_offset(),
            r is Ok <==> old(self).spec_pos() + n <= read_limit(old(self).spec_data()),
            r matches Ok(v) ==> v as int == stream_value(
                old(self).spec_data(),
                old(self).spec_pos(),
                n as nat,
            ) && final(self).spec_pos() == old(self).spec_pos() + n,
            r matches Err(e) ==> e is Truncated,
    {
        self.read_bits(n)
    }
}

/// `n` bypass bins decoded from offset `offset` at `pos`: their value, most
/// significant first, and the offset they leave.
pub open spec fn bypass_value(data: Seq<u8>, range: int, offset: int, pos: int, n: nat) -> (
    int,
    int,
)
    decreases n,
{
    if n == 0 {
        (0, offset)
    } else {
        let (v, o) = bypass_value(data, range, offset, pos, (n - 1) as nat);
        let t = 2 * o + stream_bit(data, pos + n - 1);
        if t >= range {
            (2 * v + 1, t - range)
        } else {
            (2 * v, t)
        }
    }
}

} // verus!
