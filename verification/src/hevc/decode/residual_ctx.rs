//! Context index derivations for residual coding (clauses 9.3.4.2.3 to .2.7).

use vstd::prelude::*;

use crate::hevc::cabac::engine::{Cabac, bypass_value, decide, read_limit, renorm, renorm_shift};
use vstd::arithmetic::power2::pow2;
use crate::hevc::cabac::{NUM_CTX, off};
use crate::hevc::error::{Error, Result};

verus! {

/// `ctxIdxMap` for `sig_coeff_flag` in a 4x4 transform block (Table 9-39).
pub const SIG_MAP_4X4: [u8; 16] = [0, 1, 4, 5, 2, 3, 4, 5, 6, 6, 8, 8, 7, 7, 8, 8];

/// `scanIdx` of clause 7.4.9.11: mode-dependent scans for 4x4 blocks, 8x8
/// luma, and 8x8 chroma in 4:4:4; vertical for modes 6 to 14, horizontal
/// for 22 to 30, diagonal otherwise.
pub open spec fn scan_idx_of(cat: u8, log2_size: usize, c_idx: usize, pred_mode: u8) -> usize {
    let mode_dependent = log2_size == 2 || (log2_size == 3 && c_idx == 0) || (log2_size == 3 && cat
        == 3);
    if !mode_dependent {
        0
    } else if 6 <= pred_mode <= 14 {
        2
    } else if 22 <= pred_mode <= 30 {
        1
    } else {
        0
    }
}

/// Derives `scanIdx` (clause 7.4.9.11): 0 diagonal, 1 horizontal, 2 vertical.
///
/// `cat` is `ChromaArrayType`.
pub fn scan_index(cat: u8, log2_size: usize, c_idx: usize, pred_mode: u8) -> (r: usize)
    ensures
        r == scan_idx_of(cat, log2_size, c_idx, pred_mode),
{
    let mode_dependent = log2_size == 2 || (log2_size == 3 && c_idx == 0) || (log2_size == 3 && cat
        == 3);
    if !mode_dependent {
        return 0;
    }
    if 6 <= pred_mode && pred_mode <= 14 {
        2
    } else if 22 <= pred_mode && pred_mode <= 30 {
        1
    } else {
        0
    }
}

/// The scan order of a block (clause 7.4.9.11): 4x4 blocks of any
/// component and 8x8 luma blocks, whatever the chroma format, and 8x8
/// chroma blocks in 4:4:4, follow the intra mode: vertical (2) for the
/// near-horizontal modes 6 to 14, horizontal (1) for the near-vertical
/// modes 22 to 30, diagonal (0) for every other mode; 8x8 chroma outside
/// 4:4:4 and every block of 16x16 or more is scanned diagonally.
pub proof fn lemma_scan_orders(cat: u8, log2_size: usize, c_idx: usize, pred_mode: u8)
    ensures
        (log2_size == 2 || (log2_size == 3 && (c_idx == 0 || cat == 3))) ==> {
            &&& 6 <= pred_mode <= 14 ==> scan_idx_of(cat, log2_size, c_idx, pred_mode) == 2
            &&& 22 <= pred_mode <= 30 ==> scan_idx_of(cat, log2_size, c_idx, pred_mode) == 1
            &&& !(6 <= pred_mode <= 14) && !(22 <= pred_mode <= 30) ==> scan_idx_of(cat, log2_size, c_idx, pred_mode)
                == 0
        },
        log2_size == 3 && c_idx != 0 && cat != 3 ==> scan_idx_of(cat, log2_size, c_idx, pred_mode) == 0,
        log2_size >= 4 || log2_size < 2 ==> scan_idx_of(cat, log2_size, c_idx, pred_mode) == 0,
{
}

/// `sigCtx` of clause 9.3.4.2.5 before the chroma offset: from the 4x4
/// map, zero at DC, or from the neighbouring coded sub-block flags `prev`
/// and the position in the sub-block, then offset by block size, sub-block
/// and scan.
pub open spec fn sig_ctx_base(
    csbf: Seq<u8>,
    log2_size: usize,
    c_idx: usize,
    xc: usize,
    yc: usize,
    xs: usize,
    ys: usize,
    sb_n: usize,
    scan_idx: usize,
) -> int {
    if log2_size == 2 {
        SIG_MAP_4X4@[yc * 4 + xc] as int
    } else if xc + yc == 0 {
        0
    } else {
        let right = if xs + 1 < sb_n {
            csbf[ys * sb_n + xs + 1] as int
        } else {
            0
        };
        let below = if ys + 1 < sb_n {
            csbf[(ys + 1) * sb_n + xs] as int
        } else {
            0
        };
        let prev = right + 2 * below;
        let (xp, yp) = (xc % 4, yc % 4);
        let base: int = if prev == 0 {
            if xp + yp == 0 {
                2
            } else if xp + yp < 3 {
                1
            } else {
                0
            }
        } else if prev == 1 {
            if yp == 0 {
                2
            } else if yp == 1 {
                1
            } else {
                0
            }
        } else if prev == 2 {
            if xp == 0 {
                2
            } else if xp == 1 {
                1
            } else {
                0
            }
        } else {
            2
        };
        if c_idx == 0 {
            base + (if xs + ys > 0 {
                3int
            } else {
                0
            }) + if log2_size == 3 {
                if scan_idx == 0 {
                    9int
                } else {
                    15
                }
            } else {
                21
            }
        } else {
            base + if log2_size == 3 {
                9int
            } else {
                12
            }
        }
    }
}

/// `ctxInc` for `sig_coeff_flag`, clause 9.3.4.2.5: the transform-skip
/// contexts 42 and 43 when they are in use, else `sigCtx`, plus 27 for
/// chroma.
pub open spec fn sig_ctx_of(
    csbf: Seq<u8>,
    log2_size: usize,
    c_idx: usize,
    xc: usize,
    yc: usize,
    xs: usize,
    ys: usize,
    sb_n: usize,
    scan_idx: usize,
    ts_ctx: bool,
) -> int {
    if ts_ctx {
        if c_idx == 0 {
            42
        } else {
            43
        }
    } else {
        sig_ctx_base(csbf, log2_size, c_idx, xc, yc, xs, ys, sb_n, scan_idx) + if c_idx > 0 {
            27int
        } else {
            0
        }
    }
}

/// Derives `ctxInc` for `sig_coeff_flag` (clause 9.3.4.2.5).
///
/// `csbf` holds the coded sub-block flags of the block, `sb_n` sub-blocks a
/// side.
pub fn sig_ctx(
    csbf: &[u8],
    log2_size: usize,
    c_idx: usize,
    xc: usize,
    yc: usize,
    xs: usize,
    ys: usize,
    sb_n: usize,
    scan_idx: usize,
    ts_ctx: bool,
) -> (r: usize)
    requires
        !ts_ctx && log2_size == 2 ==> xc < 4 && yc < 4,
        !ts_ctx && log2_size != 2 && xc + yc != 0 && xs + 1 < sb_n ==> ys * sb_n + xs + 1 < csbf@.len(),
        !ts_ctx && log2_size != 2 && xc + yc != 0 && ys + 1 < sb_n ==> (ys + 1) * sb_n + xs < csbf@.len(),
    ensures
        r == sig_ctx_of(csbf@, log2_size, c_idx, xc, yc, xs, ys, sb_n, scan_idx, ts_ctx),
        r <= 43,
{
    if ts_ctx {
        return if c_idx == 0 {
            42
        } else {
            43
        };
    }
    let mut sig: usize = if log2_size == 2 {
        SIG_MAP_4X4[yc * 4 + xc] as usize
    } else if xc == 0 && yc == 0 {
        0
    } else {
        // The slice's length bounds the neighbour indices below.
        let _len = csbf.len();
        let mut prev = 0usize;
        if sb_n > 0 && xs < sb_n - 1 {
            prev += csbf[ys * sb_n + xs + 1] as usize;
        }
        if sb_n > 0 && ys < sb_n - 1 {
            prev += 2 * (csbf[(ys + 1) * sb_n + xs] as usize);
        }
        let xp = xc % 4;
        let yp = yc % 4;
        let base: usize = if prev == 0 {
            if xp + yp == 0 {
                2
            } else if xp + yp < 3 {
                1
            } else {
                0
            }
        } else if prev == 1 {
            if yp == 0 {
                2
            } else if yp == 1 {
                1
            } else {
                0
            }
        } else if prev == 2 {
            if xp == 0 {
                2
            } else if xp == 1 {
                1
            } else {
                0
            }
        } else {
            2
        };
        let mut v = base;
        if c_idx == 0 {
            if xs > 0 || ys > 0 {
                v += 3;
            }
            v += if log2_size == 3 {
                if scan_idx == 0 {
                    9
                } else {
                    15
                }
            } else {
                21
            };
        } else {
            v += if log2_size == 3 {
                9
            } else {
                12
            };
        }
        v
    };
    if c_idx > 0 {
        sig += 27;
    }
    sig
}

/// `coeff_abs_level_remaining` from its prefix `p` (the number of leading
/// one bins) and suffix, clause 9.3.3.11: a Rice code below 3, an
/// Exp-Golomb style escape from 3 on.
pub open spec fn remaining_value(p: int, rice: int, suffix: int) -> int {
    let k = vstd::arithmetic::power2::pow2(rice as nat) as int;
    if p < 3 {
        p * k + suffix
    } else {
        suffix + (vstd::arithmetic::power2::pow2((p - 3) as nat) + 2) * k
    }
}

/// The number of suffix bins for prefix `p`.
pub open spec fn suffix_len(p: int, rice: int) -> int {
    if p < 3 {
        rice
    } else {
        p - 3 + rice
    }
}

/// The prefix of `coeff_abs_level_remaining`: the run of one bins read
/// from decoder state `st` after `p` ones, up to the first zero bin or to
/// 25 ones. Whether the stream held the bins, the run's length and the
/// state after its last bin.
pub open spec fn ones_run(data: Seq<u8>, st: (Seq<u8>, int, int, int), p: int) -> (bool, int, (
    Seq<u8>,
    int,
    int,
    int,
))
    decreases 25 - p,
{
    if p >= 25 {
        (true, p, st)
    } else {
        let (ok, b, s1) = bypass_run(data, st, 1);
        if !ok {
            (false, p, s1)
        } else if b == 1 {
            ones_run(data, s1, p + 1)
        } else {
            (true, p, s1)
        }
    }
}

/// `coeff_abs_level_remaining` read from decoder state `st`: the outcome
/// (0 read, 1 the stream ended, 2 a prefix of 25 ones, 3 a suffix of more
/// than 32 bins or a value above `u32::MAX`), the value and the state after
/// it.
pub open spec fn remaining_syntax(data: Seq<u8>, st: (Seq<u8>, int, int, int), rice: int) -> (int, int, (
    Seq<u8>,
    int,
    int,
    int,
)) {
    let (ok1, p, s1) = ones_run(data, st, 0);
    let (ok2, suffix, s2) = bypass_run(data, s1, suffix_len(p, rice) as nat);
    if !ok1 {
        (1, 0, s1)
    } else if p >= 25 {
        (2, 0, s1)
    } else if suffix_len(p, rice) > 32 {
        (3, 0, s1)
    } else if !ok2 {
        (1, 0, s2)
    } else if remaining_value(p, rice, suffix) > u32::MAX {
        (3, 0, s2)
    } else {
        (0, remaining_value(p, rice, suffix), s2)
    }
}

/// Decodes `coeff_abs_level_remaining` (clause 9.3.3.11): a prefix of one
/// bins closed by a zero, then `suffix_len` bins of suffix.
///
/// A prefix of 25 one bins is refused as invalid; a value that does not fit
/// in 32 bits, or whose suffix is longer than 32 bins, as unsupported.
pub fn read_remaining(cab: &mut Cabac, rice: u32) -> (r: Result<u32>)
    requires
        old(cab).wf(),
        old(cab).engine_ok(),
        rice <= 31,
    ensures
        final(cab).same_stream(old(cab)),
        ({
            let (outcome, value, st) = remaining_syntax(old(cab).spec_data(), state_of(old(cab)), rice as int);
            &&& r is Ok <==> outcome == 0
            &&& r matches Err(e) ==> (e is Truncated <==> outcome == 1) && (e is InvalidData <==> outcome == 2)
            &&& r matches Err(e) ==> (outcome == 3 <==> e == Error::Unsupported("coeff_abs_level_remaining above 32 bits"))
            &&& r matches Ok(v) ==> v as int == value && state_of(final(cab)) == st && final(cab).engine_ok()
        }),
{
    let ghost (data, rng, off0, pos0) = (cab.spec_data(), cab.spec_range(), cab.spec_offset(), cab.spec_pos());
    let ghost c0 = *cab;
    let mut prefix: u32 = 0;
    proof {
        vstd::arithmetic::power2::lemma2_to64();
    }
    loop
        invariant_except_break
            ones_run(data, state_of(&c0), 0) == ones_run(data, state_of(cab), prefix as int),
        invariant
            c0 == *old(cab),
            cab.same_stream(&c0),
            cab.wf(),
            cab.engine_ok(),
            cab.spec_ctx() == c0.spec_ctx(),
            cab.spec_range() == rng,
            rng == c0.spec_range(),
            data == c0.spec_data(),
            off0 == c0.spec_offset(),
            pos0 == c0.spec_pos(),
            prefix <= 24,
        ensures
            cab.same_stream(&c0),
            cab.wf(),
            cab.engine_ok(),
            cab.spec_ctx() == c0.spec_ctx(),
            cab.spec_range() == rng,
            prefix <= 24,
            ones_run(data, state_of(&c0), 0) == (true, prefix as int, state_of(cab)),
        decreases 25 - prefix,
    {
        proof {
            reveal_with_fuel(bypass_value, 2);
        }
        let b = match cab.bypass() {
            Ok(b) => b,
            Err(e) => {
                return Err(e);
            },
        };
        if b != 1 {
            break;
        }
        prefix += 1;
        if prefix > 24 {
            proof {
                assert(ones_run(data, state_of(cab), 25) == (true, 25int, state_of(cab)));
            }
            return Err(Error::InvalidData("coeff_abs_level_remaining prefix too long"));
        }
    }
    let ghost off1 = cab.spec_offset();
    let ghost pos1 = cab.spec_pos();
    let slen: u32 = if prefix < 3 {
        rice
    } else {
        prefix - 3 + rice
    };
    if slen > 32 {
        return Err(Error::Unsupported("coeff_abs_level_remaining above 32 bits"));
    }
    let suffix = match cab.bypass_bits(slen) {
        Ok(v) => v,
        Err(e) => {
            return Err(e);
        },
    };
    proof {
        vstd::arithmetic::power2::lemma2_to64();
        vstd::arithmetic::power2::lemma2_to64_rest();
        lemma_bypass_bound(data, rng, off1, pos1, slen as nat);
        vstd::arithmetic::power2::lemma_pow2_pos(rice as nat);
        if rice < 31 {
            vstd::arithmetic::power2::lemma_pow2_strictly_increases(rice as nat, 31);
        }
        if slen < 32 {
            vstd::arithmetic::power2::lemma_pow2_strictly_increases(slen as nat, 32);
        }
    }
    let value: u64 = if prefix < 3 {
        proof {
            assert((prefix as int) * vstd::arithmetic::power2::pow2(rice as nat) <= 0x1_0000_0000) by (nonlinear_arith)
                requires
                    prefix <= 2,
                    vstd::arithmetic::power2::pow2(rice as nat) <= 0x8000_0000,
            ;
            vstd::bits::lemma_u64_shl_is_mul(prefix as u64, rice as u64);
        }
        ((prefix as u64) << rice) + suffix as u64
    } else {
        let extra = prefix - 3;
        proof {
            vstd::arithmetic::power2::lemma_pow2_pos(extra as nat);
            vstd::arithmetic::power2::lemma_pow2_adds(extra as nat, rice as nat);
            if extra + rice < 32 {
                vstd::arithmetic::power2::lemma_pow2_strictly_increases((extra + rice) as nat, 32);
            }
            vstd::bits::lemma_u64_shl_is_mul(1, extra as u64);
            let (pe, pr) = (vstd::arithmetic::power2::pow2(extra as nat) as int, vstd::arithmetic::power2::pow2(rice as nat) as int);
            assert((pe + 2) * pr <= 0x1_0000_0000 + 0x1_0000_0000) by (nonlinear_arith)
                requires
                    pe * pr <= 0x1_0000_0000,
                    pr <= 0x8000_0000,
                    pe >= 1,
            ;
            vstd::bits::lemma_u64_shl_is_mul(((1u64 << extra) + 2) as u64, rice as u64);
        }
        suffix as u64 + (((1u64 << extra) + 2) << rice)
    };
    if value > 0xffff_ffffu64 {
        return Err(Error::Unsupported("coeff_abs_level_remaining above 32 bits"));
    }
    Ok(value as u32)
}

/// `n` bypass bins give a value below `2^n`.
pub proof fn lemma_bypass_bound(data: Seq<u8>, range: int, offset: int, pos: int, n: nat)
    ensures
        0 <= bypass_value(data, range, offset, pos, n).0 < vstd::arithmetic::power2::pow2(n),
    decreases n,
{
    if n > 0 {
        lemma_bypass_bound(data, range, offset, pos, (n - 1) as nat);
        vstd::arithmetic::power2::lemma_pow2_unfold(n);
    } else {
        vstd::arithmetic::power2::lemma2_to64();
    }
}

/// `n` bypass-coded bins read as an unsigned number from decoder state
/// `st` on `data`: whether the stream held them, the number, and the state
/// after them.
pub open spec fn bypass_run(data: Seq<u8>, st: (Seq<u8>, int, int, int), n: nat) -> (bool, int, (
    Seq<u8>,
    int,
    int,
    int,
)) {
    let (v, o) = bypass_value(data, st.1, st.2, st.3, n);
    (st.3 + n <= read_limit(data), v, (st.0, st.1, o, st.3 + n))
}

/// The decoder state a syntax element is read from: context variables,
/// range, offset and bit position.
pub type DecState = (Seq<u8>, int, int, int);

/// The arithmetic decoder as the contracts below see it: the context
/// variables, `ivlCurrRange`, `ivlOffset` and the next bit to read.
pub open spec fn state_of(c: &Cabac) -> (Seq<u8>, int, int, int) {
    (c.spec_ctx(), c.spec_range(), c.spec_offset(), c.spec_pos())
}

/// One `DecodeDecision` with context variable `k` from decoder state `st`
/// on `data`: whether the stream holds the bits its renormalisation reads,
/// the bin, and the state after it.
pub open spec fn decision_step(data: Seq<u8>, st: (Seq<u8>, int, int, int), k: int) -> (bool, u32, (
    Seq<u8>,
    int,
    int,
    int,
)) {
    let (bin, s, rng, off) = decide(st.0[k], st.1, st.2);
    let (rng2, off2, pos2) = renorm(data, rng, off, st.3);
    (st.3 + renorm_shift(rng) <= read_limit(data), bin, (st.0.update(k, s), rng2, off2, pos2))
}

/// A truncated unary prefix of at most `c_max` context-coded bins, bin `v`
/// using context `base + v / 2^shift`, read from state `st` after `v` ones:
/// whether the stream held it, its value, and the state after it.
pub open spec fn tu_prefix(
    data: Seq<u8>,
    st: (Seq<u8>, int, int, int),
    base: int,
    shift: nat,
    c_max: int,
    v: int,
) -> (bool, int, (Seq<u8>, int, int, int))
    decreases c_max - v,
{
    if v >= c_max {
        (true, v, st)
    } else {
        let (ok, bin, st2) = decision_step(data, st, base + v / pow2(shift) as int);
        if !ok {
            (false, v, st2)
        } else if bin == 0 {
            (true, v, st2)
        } else {
            tu_prefix(data, st2, base, shift, c_max, v + 1)
        }
    }
}

/// The column (or row) a `last_sig_coeff_x_prefix` (or `_y`) of `prefix`
/// gives, with its suffix read from state `st` (clause 7.4.9.11): the prefix
/// itself up to 3, else `2^(prefix/2 - 1) * (2 + prefix % 2)` plus the
/// `prefix/2 - 1` bypass-coded suffix bins. Also whether the stream held
/// the suffix, and the state after it.
pub open spec fn suffix_step(data: Seq<u8>, st: (Seq<u8>, int, int, int), prefix: int) -> (bool, int, (
    Seq<u8>,
    int,
    int,
    int,
)) {
    if prefix <= 3 {
        (true, prefix, st)
    } else {
        let n = (prefix / 2 - 1) as nat;
        let (v, off) = bypass_value(data, st.1, st.2, st.3, n);
        (st.3 + n <= read_limit(data), pow2(n) * (2 + prefix % 2) + v, (st.0, st.1, off, st.3 + n))
    }
}

/// The context offset and shift of the last position prefixes of a
/// `2^log2_size` block of component `c_idx` (clause 9.3.4.2.3).
pub open spec fn last_ctx(log2_size: int, c_idx: int) -> (int, nat) {
    if c_idx == 0 {
        (3 * (log2_size - 2) + (log2_size - 1) / 4, ((log2_size + 1) / 4) as nat)
    } else {
        (15, (log2_size - 2) as nat)
    }
}

/// The last significant coefficient position syntax of a `2^log2_size`
/// block read from state `st`: the x prefix, the y prefix, the x suffix and
/// the y suffix. Whether the stream held all of it, the column and row,
/// and the state after it.
pub open spec fn last_position_of(data: Seq<u8>, st: (Seq<u8>, int, int, int), log2_size: int, c_idx: int) -> (
    bool,
    int,
    int,
    DecState,
) {
    let (co, sh) = last_ctx(log2_size, c_idx);
    let c_max = 2 * log2_size - 1;
    let (okx, px, s1) = tu_prefix(data, st, off::LAST_X + co, sh, c_max, 0);
    let (oky, py, s2) = tu_prefix(data, s1, off::LAST_Y + co, sh, c_max, 0);
    let (oksx, x, s3) = suffix_step(data, s2, px);
    let (oksy, y, s4) = suffix_step(data, s3, py);
    (okx && oky && oksx && oksy, x, y, s4)
}

/// The context-coded prefix of `last_sig_coeff_x_prefix` (or `_y`), a
/// truncated unary code of at most `c_max` bins whose context index grows
/// by one every `2^ctx_shift` bins from `base`.
fn last_prefix(cab: &mut Cabac, base: usize, ctx_shift: usize, c_max: usize) -> (r: Result<usize>)
    requires
        old(cab).wf(),
        old(cab).engine_ok(),
        c_max <= 9,
        ctx_shift <= 3,
        base + 9 <= NUM_CTX,
    ensures
        final(cab).same_stream(old(cab)),
        ({
            let (ok, v, st) = tu_prefix(old(cab).spec_data(), state_of(old(cab)), base as int, ctx_shift as nat, c_max as int, 0);
            &&& r is Ok <==> ok
            &&& r matches Ok(x) ==> x == v && state_of(final(cab)) == st && final(cab).engine_ok() && x <= c_max
            &&& r matches Err(e) ==> e is Truncated
        }),
{
    let ghost c0 = *cab;
    let mut v: usize = 0;
    while v < c_max
        invariant_except_break
            tu_prefix(c0.spec_data(), state_of(&c0), base as int, ctx_shift as nat, c_max as int, 0) == tu_prefix(
                c0.spec_data(),
                state_of(cab),
                base as int,
                ctx_shift as nat,
                c_max as int,
                v as int,
            ),
        invariant
            v <= c_max,
            cab.same_stream(&c0),
            c0 == *old(cab),
            cab.engine_ok(),
            c_max <= 9,
            ctx_shift <= 3,
            base + 9 <= NUM_CTX,
        ensures
            v <= c_max,
            tu_prefix(c0.spec_data(), state_of(&c0), base as int, ctx_shift as nat, c_max as int, 0) == (
            true,
            v as int,
            state_of(cab),
        ),
        decreases c_max - v,
    {
        proof {
            vstd::bits::lemma_usize_shr_is_div(v, ctx_shift);
            vstd::arithmetic::power2::lemma_pow2_pos(ctx_shift as nat);
            assert(v as int / pow2(ctx_shift as nat) as int <= v) by (nonlinear_arith)
                requires
                    pow2(ctx_shift as nat) >= 1,
            ;
        }
        let ctx = base + (v >> ctx_shift);
        let bin = match cab.decision(ctx) {
            Ok(b) => b,
            Err(e) => {
                return Err(e);
            },
        };
        if bin == 0 {
            break;
        }
        v += 1;
    }
    Ok(v)
}

/// Decodes `last_sig_coeff_x/y_prefix` and their suffixes (clause 9.3.3.10),
/// giving the column and row of the last significant coefficient of a
/// `2^log2_size` square block.
pub fn last_position(cab: &mut Cabac, log2_size: usize, c_idx: usize) -> (r: Result<(usize, usize)>)
    requires
        old(cab).wf(),
        old(cab).engine_ok(),
        2 <= log2_size <= 5,
    ensures
        final(cab).same_stream(old(cab)),
        ({
            let (ok, x, y, st) = last_position_of(old(cab).spec_data(), state_of(old(cab)), log2_size as int, c_idx as int);
            &&& r is Ok <==> ok
            &&& r matches Ok((rx, ry)) ==> rx == x && ry == y && state_of(final(cab)) == st && final(cab).engine_ok()
            &&& r matches Err(e) ==> e is Truncated
        }),
        r matches Ok((x, y)) ==> x < pow2(log2_size as nat) && y < pow2(log2_size as nat),
{
    proof {
        vstd::arithmetic::power2::lemma2_to64();
        vstd::bits::lemma_usize_shr_is_div((log2_size - 1) as usize, 2);
        vstd::bits::lemma_usize_shr_is_div((log2_size + 1) as usize, 2);
    }
    let (ctx_offset, ctx_shift) = if c_idx == 0 {
        (3 * (log2_size - 2) + ((log2_size - 1) >> 2), (log2_size + 1) >> 2)
    } else {
        (15, log2_size - 2)
    };
    let c_max = 2 * log2_size - 1;
    let px = match last_prefix(cab, off::LAST_X + ctx_offset, ctx_shift, c_max) {
        Ok(v) => v,
        Err(e) => {
            return Err(e);
        },
    };
    let py = match last_prefix(cab, off::LAST_Y + ctx_offset, ctx_shift, c_max) {
        Ok(v) => v,
        Err(e) => {
            return Err(e);
        },
    };
    let x = match last_suffix(cab, px, log2_size) {
        Ok(v) => v,
        Err(e) => {
            return Err(e);
        },
    };
    let y = match last_suffix(cab, py, log2_size) {
        Ok(v) => v,
        Err(e) => {
            return Err(e);
        },
    };
    Ok((x, y))
}

/// The position a prefix gives, reading its bypass-coded suffix when the
/// prefix is above 3.
fn last_suffix(cab: &mut Cabac, prefix: usize, log2_size: usize) -> (r: Result<usize>)
    requires
        old(cab).wf(),
        old(cab).engine_ok(),
        2 <= log2_size <= 5,
        prefix <= 2 * log2_size - 1,
    ensures
        final(cab).same_stream(old(cab)),
        ({
            let (ok, v, st) = suffix_step(old(cab).spec_data(), state_of(old(cab)), prefix as int);
            &&& r is Ok <==> ok
            &&& r matches Ok(x) ==> x == v && state_of(final(cab)) == st && final(cab).engine_ok()
            &&& r matches Err(e) ==> e is Truncated
        }),
        r matches Ok(v) ==> v < pow2(log2_size as nat),
{
    proof {
        vstd::arithmetic::power2::lemma2_to64();
        if log2_size > 2 {
            vstd::arithmetic::power2::lemma_pow2_strictly_increases(2, log2_size as nat);
        }
    }
    if prefix <= 3 {
        return Ok(prefix);
    }
    proof {
        vstd::bits::lemma_usize_shr_is_div(prefix, 1);
        assert(prefix & 1 == prefix % 2) by (bit_vector);
    }
    let bits = (prefix >> 1) - 1;
    let ghost off1 = cab.spec_offset();
    let ghost pos1 = cab.spec_pos();
    let suffix = match cab.bypass_bits(bits as u32) {
        Ok(v) => v as usize,
        Err(e) => {
            return Err(e);
        },
    };
    proof {
        lemma_bypass_bound(cab.spec_data(), cab.spec_range(), off1, pos1, bits as nat);
        vstd::arithmetic::power2::lemma_pow2_pos(bits as nat);
        vstd::bits::lemma_usize_shl_is_mul(1, bits);
        vstd::arithmetic::power2::lemma_pow2_adds(bits as nat, 2);
        assert(log2_size as nat == bits + 2 || log2_size as nat == bits + 3 || log2_size as nat > bits + 3);
        if log2_size > bits + 2 {
            vstd::arithmetic::power2::lemma_pow2_strictly_increases((bits + 2) as nat, log2_size as nat);
        }
        assert(pow2(bits as nat) * (2 + prefix % 2) + pow2(bits as nat) <= pow2((bits + 2) as nat))
            by (nonlinear_arith)
            requires
                pow2((bits + 2) as nat) == pow2(bits as nat) * 4,
                prefix % 2 <= 1,
                pow2(bits as nat) >= 1,
        ;
    }
    Ok(((1usize << bits) * (2 + (prefix & 1))) + suffix)
}

} // verus!
