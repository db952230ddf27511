//! Quantization syntax of transform units (clause 7.3.8.14):
//! `cu_qp_delta_abs` with its sign, and the chroma QP offsets.

use vstd::prelude::*;

use super::residual_ctx::{DecState, bypass_run, decision_step, state_of};
use crate::hevc::cabac::engine::{Cabac, bypass_value};
use crate::hevc::cabac::off;
use crate::hevc::error::Result;
use crate::hevc::ps::Pps;
use vstd::arithmetic::power2::pow2;

verus! {

/// The prefix of `cu_qp_delta_abs` read from state `st` after `v` ones: a
/// truncated unary code of at most five context-coded bins, the first with
/// context `CU_QP_DELTA`, the others with the next one.
pub open spec fn qp_prefix(data: Seq<u8>, st: DecState, v: int) -> (bool, int, DecState)
    decreases 5 - v,
{
    if v >= 5 {
        (true, v, st)
    } else {
        let (ok, bin, s1) = decision_step(data, st, off::CU_QP_DELTA + if v > 0 {
            1int
        } else {
            0
        });
        if !ok {
            (false, v, s1)
        } else if bin == 0 {
            (true, v, s1)
        } else {
            qp_prefix(data, s1, v + 1)
        }
    }
}

/// The run of one bins that opens the order-0 Exp-Golomb suffix, read
/// after `k` ones: a bin is read, and the run goes on while it is one and
/// fewer than 24 ones were counted before it.
pub open spec fn eg_ones(data: Seq<u8>, st: DecState, k: int) -> (bool, int, DecState)
    decreases 24 - k,
{
    let (ok, b, s1) = bypass_run(data, st, 1);
    if !ok {
        (false, k, s1)
    } else if b == 1 && k < 24 {
        eg_ones(data, s1, k + 1)
    } else {
        (true, k, s1)
    }
}

/// `cu_qp_delta_abs` and `cu_qp_delta_sign_flag` read from state `st`
/// (clauses 9.3.3.10 and 7.4.9.14): a prefix of up to five, then from five
/// on an order-0 Exp-Golomb suffix, then a sign bin when the magnitude is
/// not zero. Whether the stream held them, `CuQpDeltaVal` and the state
/// after it.
pub open spec fn qp_delta_syntax(data: Seq<u8>, st: DecState) -> (bool, int, DecState) {
    let (ok1, prefix, s1) = qp_prefix(data, st, 0);
    let (ok2, v, s2) = if prefix == 5 {
        let (oka, k, sa) = eg_ones(data, s1, 0);
        let (okb, bits, sb) = bypass_run(data, sa, k as nat);
        (oka && okb, 5 + pow2(k as nat) - 1 + bits, sb)
    } else {
        (true, prefix, s1)
    };
    if !ok1 {
        (false, 0, s1)
    } else if !ok2 {
        (false, 0, s2)
    } else if v == 0 {
        (true, 0, s2)
    } else {
        let (ok3, sign, s3) = bypass_run(data, s2, 1);
        (ok3, if sign == 1 {
            -v
        } else {
            v
        }, s3)
    }
}

/// Parses `cu_qp_delta_abs` and `cu_qp_delta_sign_flag`, giving
/// `CuQpDeltaVal`.
pub fn read_qp_delta(cab: &mut Cabac) -> (r: Result<i32>)
    requires
        old(cab).wf(),
        old(cab).engine_ok(),
    ensures
        final(cab).same_stream(old(cab)),
        ({
            let (ok, v, st) = qp_delta_syntax(old(cab).spec_data(), state_of(old(cab)));
            &&& r is Ok <==> ok
            &&& r matches Err(e) ==> e is Truncated
            &&& r matches Ok(d) ==> d == v && state_of(final(cab)) == st && final(cab).engine_ok()
        }),
{
    let ghost c0 = *cab;
    let ghost data = c0.spec_data();
    let mut prefix: u32 = 0;
    while prefix < 5
        invariant_except_break
            qp_prefix(data, state_of(&c0), 0) == qp_prefix(data, state_of(cab), prefix as int),
        invariant
            prefix <= 5,
            cab.same_stream(&c0),
            c0 == *old(cab),
            data == c0.spec_data(),
            cab.wf(),
            cab.engine_ok(),
        ensures
            prefix <= 5,
            qp_prefix(data, state_of(&c0), 0) == (true, prefix as int, state_of(cab)),
        decreases 5 - prefix,
    {
        let ctx = off::CU_QP_DELTA + if prefix > 0 {
            1
        } else {
            0
        };
        let bin = match cab.decision(ctx) {
            Ok(b) => b,
            Err(e) => {
                return Err(e);
            },
        };
        if bin == 0 {
            break;
        }
        prefix += 1;
    }
    let ghost s1 = state_of(cab);
    let mut v = prefix;
    if prefix == 5 {
        let mut k: u32 = 0;
        loop
            invariant_except_break
                eg_ones(data, s1, 0) == eg_ones(data, state_of(cab), k as int),
            invariant
                k <= 24,
                qp_prefix(data, state_of(&c0), 0) == (true, 5int, s1),
                cab.same_stream(&c0),
                c0 == *old(cab),
                data == c0.spec_data(),
                cab.wf(),
                cab.engine_ok(),
            ensures
                k <= 24,
                eg_ones(data, s1, 0) == (true, k as int, state_of(cab)),
            decreases 24 - k,
        {
            proof {
                reveal_with_fuel(bypass_value, 2);
            }
            let b = match cab.bypass() {
                Ok(b) => b,
                Err(e) => {
                    return Err(e);
                },
            };
            if !(b == 1 && k < 24) {
                break;
            }
            k += 1;
        }
        let ghost sa = state_of(cab);
        let bits = match cab.bypass_bits(k) {
            Ok(b) => b,
            Err(e) => {
                return Err(e);
            },
        };
        proof {
            vstd::arithmetic::power2::lemma2_to64();
            vstd::arithmetic::power2::lemma_pow2_pos(k as nat);
            if k < 24 {
                vstd::arithmetic::power2::lemma_pow2_strictly_increases(k as nat, 24);
            }
            vstd::bits::lemma_u32_shl_is_mul(1, k);
            super::residual_ctx::lemma_bypass_bound(data, sa.1, sa.2, sa.3, k as nat);
        }
        v = 5 + (1u32 << k) - 1 + bits;
    }
    if v == 0 {
        return Ok(0);
    }
    proof {
        reveal_with_fuel(bypass_value, 2);
    }
    let sign = match cab.bypass() {
        Ok(b) => b,
        Err(e) => {
            return Err(e);
        },
    };
    Ok(
        if sign == 1 {
            -(v as i32)
        } else {
            v as i32
        },
    )
}

/// `cu_chroma_qp_offset_idx` read from state `st` after `idx` ones: a
/// truncated unary code of context-coded bins capped at `cap`.
pub open spec fn cqo_idx_syntax(data: Seq<u8>, st: DecState, idx: int, cap: int) -> (bool, int, DecState)
    decreases cap - idx,
{
    if idx >= cap {
        (true, idx, st)
    } else {
        let (ok, bin, s1) = decision_step(data, st, off::CHROMA_QP_IDX as int);
        if !ok {
            (false, idx, s1)
        } else if bin == 0 {
            (true, idx, s1)
        } else {
            cqo_idx_syntax(data, s1, idx + 1, cap)
        }
    }
}

/// Entry `i` of `l`, or 0 past its end.
pub open spec fn entry_or_zero(l: Seq<i32>, i: int) -> i32 {
    if 0 <= i < l.len() {
        l[i]
    } else {
        0
    }
}

/// `cu_chroma_qp_offset_flag`, then when it is set
/// `cu_chroma_qp_offset_idx` (up to one less than the number of list
/// entries), read from state `st`: whether the stream held them,
/// `CuQpOffsetCb`, `CuQpOffsetCr` and the state after them.
pub open spec fn chroma_qp_offset_syntax(data: Seq<u8>, st: DecState, cb: Seq<i32>, cr: Seq<i32>) -> (
    bool,
    i32,
    i32,
    DecState,
) {
    let (ok1, flag, s1) = decision_step(data, st, off::CHROMA_QP_FLAG as int);
    if !ok1 {
        (false, 0, 0, s1)
    } else if flag == 0 {
        (true, 0, 0, s1)
    } else {
        let (ok2, idx, s2) = cqo_idx_syntax(data, s1, 0, cb.len() - 1);
        (ok2, entry_or_zero(cb, idx), entry_or_zero(cr, idx), s2)
    }
}

/// Parses `cu_chroma_qp_offset_flag` and `cu_chroma_qp_offset_idx`,
/// marking the offsets of the quantization group coded and setting
/// `CuQpOffsetCb` and `CuQpOffsetCr` from the lists of `pps`.
pub fn read_chroma_qp_offset(cab: &mut Cabac, pps: &Pps, cqo_coded: &mut bool, cqo_cb: &mut i32, cqo_cr: &mut i32) -> (r: Result<()>)
    requires
        old(cab).wf(),
        old(cab).engine_ok(),
    ensures
        final(cab).same_stream(old(cab)),
        *final(cqo_coded),
        ({
            let (ok, cb, cr, st) = chroma_qp_offset_syntax(
                old(cab).spec_data(),
                state_of(old(cab)),
                pps.cb_qp_offset_list@,
                pps.cr_qp_offset_list@,
            );
            &&& r is Ok <==> ok
            &&& r matches Err(e) ==> e is Truncated
            &&& r is Ok ==> *final(cqo_cb) == cb && *final(cqo_cr) == cr && state_of(final(cab)) == st
                && final(cab).engine_ok()
        }),
{
    *cqo_coded = true;
    let flag = match cab.decision(off::CHROMA_QP_FLAG) {
        Ok(b) => b,
        Err(e) => {
            return Err(e);
        },
    };
    if flag == 0 {
        *cqo_cb = 0;
        *cqo_cr = 0;
        return Ok(());
    }
    let ghost c0 = *cab;
    let ghost data = c0.spec_data();
    let len = pps.cb_qp_offset_list.len();
    let mut idx: usize = 0;
    while idx + 1 < len
        invariant_except_break
            cqo_idx_syntax(data, state_of(&c0), 0, len - 1) == cqo_idx_syntax(data, state_of(cab), idx as int, len - 1),
        invariant
            len == pps.cb_qp_offset_list@.len(),
            idx < len || idx == 0,
            *cqo_coded,
            c0.same_stream(old(cab)),
            data == old(cab).spec_data(),
            chroma_qp_offset_syntax(data, state_of(old(cab)), pps.cb_qp_offset_list@, pps.cr_qp_offset_list@) == ({
                let (ok2, i2, s2) = cqo_idx_syntax(data, state_of(&c0), 0, len - 1);
                (ok2, entry_or_zero(pps.cb_qp_offset_list@, i2), entry_or_zero(pps.cr_qp_offset_list@, i2), s2)
            }),
            cab.same_stream(&c0),
            data == c0.spec_data(),
            cab.wf(),
            cab.engine_ok(),
        ensures
            cqo_idx_syntax(data, state_of(&c0), 0, len - 1) == (true, idx as int, state_of(cab)),
        decreases len - idx,
    {
        let bin = match cab.decision(off::CHROMA_QP_IDX) {
            Ok(b) => b,
            Err(e) => {
                return Err(e);
            },
        };
        if bin == 0 {
            break;
        }
        idx += 1;
    }
    *cqo_cb = if idx < pps.cb_qp_offset_list.len() {
        pps.cb_qp_offset_list[idx]
    } else {
        0
    };
    *cqo_cr = if idx < pps.cr_qp_offset_list.len() {
        pps.cr_qp_offset_list[idx]
    } else {
        0
    };
    Ok(())
}


/// `split_transform_flag` when it is not read (clause 7.4.9.8): `None`
/// when the flag is in the stream (the size is above the minimum and at
/// most the maximum, the depth is below `max_depth`, and the first level of
/// an NxN intra unit is not being split), else `Some` of the inferred
/// value, which is 1 for a block larger than the maximum transform size or
/// for the first level of an NxN intra unit.
pub fn split_transform_inferred(log2_size: u8, depth: u8, max_log2_tb: u8, min_log2_tb: u8, max_depth: u8, intra_split: bool) -> (r: Option<bool>)
    ensures
        r is None <==> (log2_size <= max_log2_tb && log2_size > min_log2_tb && depth < max_depth && !(intra_split
            && depth == 0)),
        r matches Some(v) ==> v == (log2_size > max_log2_tb || (intra_split && depth == 0)),
{
    if log2_size <= max_log2_tb && log2_size > min_log2_tb && depth < max_depth && !(intra_split && depth == 0) {
        None
    } else {
        Some(log2_size > max_log2_tb || (intra_split && depth == 0))
    }
}

} // verus!
