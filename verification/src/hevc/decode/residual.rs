//! Residual coding syntax (clause 7.3.8.11): the transform skip flag, the
//! last significant position, and the coded sub-block and significance
//! flags of each sub-block before its levels.

use vstd::prelude::*;

use super::residual_ctx::{
    DecState, decision_step, last_position, last_position_of, scan_idx_of, scan_index, sig_ctx, sig_ctx_of,
    state_of,
};
use super::residual_levels::{decode_levels, levels_syntax};
use crate::hevc::cabac::engine::Cabac;
use crate::hevc::cabac::off;
use crate::hevc::error::{Error, Result};
use crate::hevc::ps::{Pps, Sps};
use crate::hevc::scan::{scan_order, scan_pos, sub_scan};
use vstd::arithmetic::power2::pow2;

verus! {

/// Column and row in the block of scan position `g`: position `g % 16` of
/// sub-block `g / 16` of the sub-block scan over `2^sb_log2` sub-blocks a
/// side.
pub open spec fn coeff_pos(sb_log2: nat, scan_idx: int, g: int) -> (int, int) {
    let (xs, ys) = scan_pos(sb_log2, scan_idx, g / 16);
    let (px, py) = scan_pos(2, scan_idx, g % 16);
    (4 * xs + px, 4 * ys + py)
}

/// The highest scan position from `g` down that lies at column `x`, row
/// `y`, or -1.
#[verifier::opaque]
pub open spec fn find_last(sb_log2: nat, scan_idx: int, x: int, y: int, g: int) -> int
    decreases g + 1,
{
    if g < 0 {
        -1
    } else if coeff_pos(sb_log2, scan_idx, g) == (x, y) {
        g
    } else {
        find_last(sb_log2, scan_idx, x, y, g - 1)
    }
}

/// `sig_coeff_flag` of scan positions `m` down to 0 of sub-block (`xs`,
/// `ys`), read from state `st` into `flags`: each read with its context,
/// but for the first position while `infer` holds (the sub-block's flag
/// was read and no position has been found significant yet), which is then
/// inferred significant.
pub open spec fn sig_walk(
    data: Seq<u8>,
    st: DecState,
    m: int,
    flags: Seq<bool>,
    infer: bool,
    csbf: Seq<u8>,
    log2_size: usize,
    c_idx: usize,
    xs: usize,
    ys: usize,
    sb_n: usize,
    scan_idx: usize,
    ts_ctx: bool,
) -> (bool, Seq<bool>, DecState)
    decreases m + 1,
{
    if m < 0 {
        (true, flags, st)
    } else if m > 0 || !infer {
        let (px, py) = scan_pos(2, scan_idx as int, m);
        let ctx = sig_ctx_of(csbf, log2_size, c_idx, (4 * xs + px) as usize, (4 * ys + py) as usize, xs, ys, sb_n, scan_idx, ts_ctx);
        let (ok, b, s1) = decision_step(data, st, off::SIG + ctx);
        let (ok2, f2, s2) = sig_walk(
            data,
            s1,
            m - 1,
            if b != 0 {
                flags.update(m, true)
            } else {
                flags
            },
            infer && b == 0,
            csbf,
            log2_size,
            c_idx,
            xs,
            ys,
            sb_n,
            scan_idx,
            ts_ctx,
        );
        (ok && ok2, f2, s2)
    } else {
        sig_walk(data, st, m - 1, flags.update(m, true), infer, csbf, log2_size, c_idx, xs, ys, sb_n, scan_idx, ts_ctx)
    }
}

/// The significance flags of sub-block `i` before its `sig_coeff_flag`s
/// are read: only the last significant position `last_pos`, in the
/// sub-block `last_sb` that holds it.
pub open spec fn initial_flags(i: int, last_sb: int, last_pos: int) -> Seq<bool> {
    Seq::new(16, |m: int| i == last_sb && m == last_pos)
}

/// The set positions of `flags` from `m` down to 0, highest first.
pub open spec fn set_positions(flags: Seq<bool>, m: int) -> Seq<u8>
    decreases m + 1,
{
    if m < 0 {
        Seq::empty()
    } else if flags[m] {
        seq![m as u8] + set_positions(flags, m - 1)
    } else {
        set_positions(flags, m - 1)
    }
}

/// `ctxInc` of `coded_sub_block_flag` (clause 9.3.4.2.4): whether the
/// sub-block to the right or the one below is coded, plus 2 for chroma.
pub open spec fn csbf_ctx(csbf: Seq<u8>, sb_n: int, xs: int, ys: int, c_idx: int) -> int {
    let right = if xs + 1 < sb_n {
        csbf[ys * sb_n + xs + 1] as int
    } else {
        0
    };
    let below = if ys + 1 < sb_n {
        csbf[(ys + 1) * sb_n + xs] as int
    } else {
        0
    };
    (if right + below < 1 {
        right + below
    } else {
        1
    }) + if c_idx > 0 {
        2int
    } else {
        0
    }
}

/// The fixed inputs of the sub-block walk of one transform block.
pub struct BlockCoding {
    /// `log2TrafoSize`.
    pub log2_size: usize,
    /// The colour component.
    pub c_idx: usize,
    /// `scanIdx`.
    pub scan_idx: usize,
    /// Whether `sig_coeff_flag` uses the transform-skip contexts.
    pub ts_ctx: bool,
    /// `sbType`, selecting the Rice statistic.
    pub sb_type: usize,
    /// `cu_transquant_bypass_flag`.
    pub tq_bypass: bool,
    /// `sign_data_hiding_enabled_flag`.
    pub sign_data_hiding: bool,
    /// `persistent_rice_adaptation_enabled_flag`.
    pub persistent_rice: bool,
}

/// Sub-block `i` of a block whose last significant coefficient is position
/// `last_pos` of sub-block `last_sb`, read from state `st`: its
/// `coded_sub_block_flag` (read between the first and the last sub-block,
/// else set), then, when it is coded, its significance flags and levels.
/// The outcome (0 read, 1 the stream ended, 2 an invalid remainder, 3 a
/// Rice parameter this decoder does not read), the coded sub-block flags,
/// the coefficients, the Rice statistics, `greater1Ctx` and the state.
#[verifier::opaque]
pub open spec fn sb_step(
    data: Seq<u8>,
    st: DecState,
    i: int,
    last_sb: int,
    last_pos: int,
    b: BlockCoding,
    csbf: Seq<u8>,
    coeffs: Seq<i32>,
    stat: Seq<i32>,
    c1: int,
) -> (int, Seq<u8>, Seq<i32>, Seq<i32>, int, DecState) {
    let sb_log2 = (b.log2_size - 2) as nat;
    let sb_n = pow2(sb_log2) as int;
    let (xs, ys) = scan_pos(sb_log2, b.scan_idx as int, i);
    let infer = 0 < i < last_sb;
    let (ok1, coded, s1) = if infer {
        let (ok, bin, s) = decision_step(data, st, off::CSBF + csbf_ctx(csbf, sb_n, xs, ys, b.c_idx as int));
        (ok, bin != 0, s)
    } else {
        (true, true, st)
    };
    let csbf1 = csbf.update(ys * sb_n + xs, if coded {
        1u8
    } else {
        0u8
    });
    if !ok1 {
        (1, csbf1, coeffs, stat, c1, s1)
    } else if !coded {
        (0, csbf1, coeffs, stat, c1, s1)
    } else {
        let (ok2, flags, s2) = sig_walk(
            data,
            s1,
            if i == last_sb {
                last_pos - 1
            } else {
                15
            },
            initial_flags(i as int, last_sb as int, last_pos as int),
            infer,
            csbf1,
            b.log2_size,
            b.c_idx,
            xs as usize,
            ys as usize,
            sb_n as usize,
            b.scan_idx,
            b.ts_ctx,
        );
        let (out3, c1n, coeffs3, stat3, s3) = levels_syntax(
            data,
            s2,
            coeffs,
            stat,
            b.tq_bypass,
            b.sign_data_hiding,
            b.persistent_rice,
            set_positions(flags, 15),
            i,
            b.c_idx as int,
            c1,
            b.sb_type as int,
            b.log2_size as int,
            b.scan_idx as int,
            xs,
            ys,
        );
        if !ok2 {
            (1, csbf1, coeffs, stat, c1, s2)
        } else {
            (out3, csbf1, coeffs3, stat3, c1n, s3)
        }
    }
}

/// The sub-blocks from index `i` down to 0, each as `sb_step`, stopping
/// at the first that is not read.
#[verifier::opaque]
pub open spec fn sb_walk(
    data: Seq<u8>,
    st: DecState,
    i: int,
    last_sb: int,
    last_pos: int,
    b: BlockCoding,
    csbf: Seq<u8>,
    coeffs: Seq<i32>,
    stat: Seq<i32>,
    c1: int,
) -> (int, Seq<u8>, Seq<i32>, Seq<i32>, int, DecState)
    decreases i + 1,
{
    if i < 0 {
        (0, csbf, coeffs, stat, c1, st)
    } else {
        let (out, csbf1, coeffs1, stat1, c1n, s1) = sb_step(data, st, i, last_sb, last_pos, b, csbf, coeffs, stat, c1);
        if out != 0 {
            (out, csbf1, coeffs1, stat1, c1n, s1)
        } else {
            sb_walk(data, s1, i - 1, last_sb, last_pos, b, csbf1, coeffs1, stat1, c1n)
        }
    }
}

/// `s` with its first `n` entries replaced by `v`.
pub open spec fn fill_prefix<T>(s: Seq<T>, n: int, v: T) -> Seq<T> {
    Seq::new(s.len(), |j: int| if j < n {
        v
    } else {
        s[j]
    })
}

/// The inputs of one `residual_coding()` that are not syntax: the tools
/// the parameter sets enable, `ChromaArrayType`, the coding unit's
/// transquant bypass, the block's size, component and intra mode.
pub open spec fn block_coding_of(sps: &Sps, pps: &Pps, tq_bypass: bool, log2_size: usize, c_idx: usize, scan_idx: usize, ts: bool) -> BlockCoding {
    BlockCoding {
        log2_size,
        c_idx,
        scan_idx,
        ts_ctx: sps.transform_skip_context && (ts || tq_bypass),
        sb_type: ((if c_idx == 0 {
            0int
        } else {
            2
        }) + (if ts || tq_bypass {
            1int
        } else {
            0
        })) as usize,
        tq_bypass,
        sign_data_hiding: pps.sign_data_hiding,
        persistent_rice: sps.persistent_rice,
    }
}

/// The head of `residual_coding()` read from state `st`:
/// `transform_skip_flag` when transform skip may apply, then the last
/// significant position, its column and row exchanged in a vertical scan.
/// Whether the stream held it, the flag, the column, the row and the
/// state after them.
#[verifier::opaque]
pub open spec fn head_syntax(
    data: Seq<u8>,
    st: DecState,
    pps: &Pps,
    cat: u8,
    tq_bypass: bool,
    log2_size: usize,
    c_idx: usize,
    pred_mode: u8,
) -> (bool, bool, int, int, DecState) {
    let (ok1, ts, s1) = if pps.transform_skip && !tq_bypass && log2_size <= pps.log2_max_transform_skip {
        let (ok, bin, s) = decision_step(data, st, if c_idx == 0 {
            off::TS_LUMA as int
        } else {
            off::TS_CHROMA as int
        });
        (ok, bin != 0, s)
    } else {
        (true, false, st)
    };
    let (ok2, x0, y0, s2) = last_position_of(data, s1, log2_size as int, c_idx as int);
    let (lx, ly) = if scan_idx_of(cat, log2_size, c_idx, pred_mode) == 2 {
        (y0, x0)
    } else {
        (x0, y0)
    };
    (ok1 && ok2, ts, lx, ly, if !ok1 {
        s1
    } else {
        s2
    })
}

/// One `residual_coding()` of a `2^log2_size` block read from state `st`
/// (clause 7.3.8.11): the block's coefficients cleared, then its head, and
/// the sub-blocks from the one holding the last significant position down
/// to the first. The
/// outcome (0 read, 1 the stream ended, 2 invalid data, 3 a Rice parameter
/// this decoder does not read), `transform_skip_flag`, the coded sub-block
/// flags, the coefficients, the Rice statistics and the state.
pub open spec fn residual_syntax(
    data: Seq<u8>,
    st: DecState,
    sps: &Sps,
    pps: &Pps,
    cat: u8,
    tq_bypass: bool,
    coeffs: Seq<i32>,
    csbf: Seq<u8>,
    stat: Seq<i32>,
    log2_size: usize,
    c_idx: usize,
    pred_mode: u8,
) -> (int, bool, Seq<u8>, Seq<i32>, Seq<i32>, DecState) {
    let n = pow2(log2_size as nat) as int;
    let cleared = fill_prefix(coeffs, n * n, 0i32);
    let (ok, ts, lx, ly, s2) = head_syntax(data, st, pps, cat, tq_bypass, log2_size, c_idx, pred_mode);
    let scan_idx = scan_idx_of(cat, log2_size, c_idx, pred_mode);
    let sb_log2 = (log2_size - 2) as nat;
    let sb_n = pow2(sb_log2) as int;
    let g = find_last(sb_log2, scan_idx as int, lx, ly, sb_n * sb_n * 16 - 1);
    let csbf0 = fill_prefix(csbf, sb_n * sb_n, 0u8);
    let b = block_coding_of(sps, pps, tq_bypass, log2_size, c_idx, scan_idx, ts);
    let (out, csbf4, coeffs4, stat4, c1, s4) = sb_walk(data, s2, g / 16, g / 16, g % 16, b, csbf0, cleared, stat, 1);
    if !ok {
        (1, ts, csbf, cleared, stat, s2)
    } else if lx >= n || ly >= n || g < 0 {
        (2, ts, csbf, cleared, stat, s2)
    } else {
        (out, ts, csbf4, coeffs4, stat4, s4)
    }
}

/// Finds the sub-block and position of the scan that hold column `x`, row
/// `y`, searching from the last position down.
fn find_last_pos(sb_scan: &Vec<[u8; 2]>, pos_scan: &[[u8; 2]; 16], sb_log2: usize, scan_idx: usize, x: usize, y: usize) -> (r: Result<(usize, usize)>)
    requires
        sb_log2 <= 3,
        scan_idx <= 2,
        sb_scan@.len() == pow2(sb_log2 as nat) * pow2(sb_log2 as nat),
        forall|i: int| 0 <= i < sb_scan@.len() ==> (#[trigger] sb_scan@[i][0] as int, sb_scan@[i][1] as int) == scan_pos(sb_log2 as nat, scan_idx as int, i),
        forall|i: int| 0 <= i < 16 ==> (#[trigger] pos_scan@[i][0] as int, pos_scan@[i][1] as int) == scan_pos(2, scan_idx as int, i),
    ensures
        ({
            let g = find_last(sb_log2 as nat, scan_idx as int, x as int, y as int, sb_scan@.len() * 16 - 1);
            &&& r is Ok <==> g >= 0
            &&& r matches Err(e) ==> e is InvalidData
            &&& r matches Ok((sb, p)) ==> sb == g / 16 && p == g % 16 && p < 16 && sb < sb_scan@.len()
        }),
{
    proof {
        reveal(find_last);
        vstd::arithmetic::power2::lemma2_to64();
        vstd::arithmetic::power2::lemma_pow2_pos(sb_log2 as nat);
        assert(pow2(sb_log2 as nat) * pow2(sb_log2 as nat) >= 1) by (nonlinear_arith)
            requires
                pow2(sb_log2 as nat) >= 1,
        ;
    }
    let ghost total = sb_scan@.len() * 16;
    let mut last_sb = sb_scan.len() - 1;
    let mut last_pos: usize = 15;
    loop
        invariant
            sb_scan@.len() >= 1,
            total == sb_scan@.len() * 16,
            last_sb < sb_scan@.len(),
            last_pos < 16,
            sb_log2 <= 3,
            scan_idx <= 2,
            forall|i: int| 0 <= i < sb_scan@.len() ==> (#[trigger] sb_scan@[i][0] as int, sb_scan@[i][1] as int) == scan_pos(sb_log2 as nat, scan_idx as int, i),
            forall|i: int| 0 <= i < 16 ==> (#[trigger] pos_scan@[i][0] as int, pos_scan@[i][1] as int) == scan_pos(2, scan_idx as int, i),
            find_last(sb_log2 as nat, scan_idx as int, x as int, y as int, total - 1) == find_last(
                sb_log2 as nat,
                scan_idx as int,
                x as int,
                y as int,
                last_sb * 16 + last_pos,
            ),
        decreases last_sb * 16 + last_pos,
    {
        let p = sb_scan[last_sb];
        let q = pos_scan[last_pos];
        proof {
            reveal(find_last);
            let g = last_sb * 16 + last_pos;
            assert(g / 16 == last_sb && g % 16 == last_pos as int);
        }
        if (p[0] as usize) * 4 + q[0] as usize == x && (p[1] as usize) * 4 + q[1] as usize == y {
            return Ok((last_sb, last_pos));
        }
        if last_pos == 0 {
            if last_sb == 0 {
                proof {
                    assert(find_last(sb_log2 as nat, scan_idx as int, x as int, y as int, -1) == -1);
                }
                return Err(Error::InvalidData("last coefficient not found in scan"));
            }
            last_pos = 16;
            last_sb -= 1;
        }
        last_pos -= 1;
    }
}

/// The set positions of `flags`, highest first.
fn positions(flags: &[bool; 16]) -> (v: Vec<u8>)
    ensures
        v@ == set_positions(flags@, 15),
        v@.len() <= 16,
{
    let mut v: Vec<u8> = Vec::new();
    let mut m: usize = 16;
    while m > 0
        invariant
            m <= 16,
            v@ + set_positions(flags@, m - 1) == set_positions(flags@, 15),
            v@.len() <= 16 - m,
        decreases m,
    {
        m -= 1;
        proof {
            assert(set_positions(flags@, m as int) == if flags@[m as int] {
                seq![m as u8] + set_positions(flags@, m - 1)
            } else {
                set_positions(flags@, m - 1)
            });
        }
        if flags[m] {
            proof {
                assert(v@.push(m as u8) + set_positions(flags@, m - 1) =~= v@ + (seq![m as u8] + set_positions(flags@, m - 1)));
            }
            v.push(m as u8);
        }
    }
    proof {
        assert(set_positions(flags@, -1) == Seq::<u8>::empty());
        assert(v@ + Seq::<u8>::empty() =~= v@);
    }
    v
}

/// Reads the `sig_coeff_flag`s of sub-block `i` at (`xs`, `ys`), from
/// position `last_pos - 1` down when it is the sub-block `last_sb` of the
/// last coefficient (whose own flag is set), else from 15; `infer` when the
/// sub-block's flag was read, so that its DC flag may be inferred.
fn read_sig_flags(
    cab: &mut Cabac,
    csbf: &[u8; 64],
    pos_scan: &[[u8; 2]; 16],
    b: &BlockCoding,
    xs: usize,
    ys: usize,
    sb_n: usize,
    i: usize,
    last_sb: usize,
    last_pos: usize,
    infer: bool,
) -> (r: Result<[bool; 16]>)
    requires
        old(cab).wf(),
        old(cab).engine_ok(),
        2 <= b.log2_size <= 5,
        b.scan_idx <= 2,
        sb_n == pow2((b.log2_size - 2) as nat),
        xs < sb_n,
        ys < sb_n,
        last_pos < 16,
        forall|j: int| 0 <= j < 16 ==> (#[trigger] pos_scan@[j][0] as int, pos_scan@[j][1] as int) == scan_pos(2, b.scan_idx as int, j),
        forall|j: int| 0 <= j < 16 ==> #[trigger] pos_scan@[j][0] < 4 && pos_scan@[j][1] < 4,
    ensures
        final(cab).same_stream(old(cab)),
        ({
            let (ok, flags, st) = sig_walk(
                old(cab).spec_data(),
                state_of(old(cab)),
                if i == last_sb {
                    last_pos - 1
                } else {
                    15
                },
                initial_flags(i as int, last_sb as int, last_pos as int),
                infer,
                csbf@,
                b.log2_size,
                b.c_idx,
                xs,
                ys,
                sb_n,
                b.scan_idx,
                b.ts_ctx,
            );
            &&& r is Ok <==> ok
            &&& r matches Err(e) ==> e is Truncated
            &&& r matches Ok(f) ==> f@ == flags && state_of(final(cab)) == st && final(cab).engine_ok()
        }),
{
    let ghost c0 = *cab;
    let ghost data = c0.spec_data();
    proof {
        vstd::arithmetic::power2::lemma2_to64();
        if b.log2_size < 5 {
            vstd::arithmetic::power2::lemma_pow2_strictly_increases((b.log2_size - 2) as nat, 3);
        }
        assert(ys * sb_n + xs < sb_n * sb_n <= 64) by (nonlinear_arith)
            requires
                xs < sb_n,
                ys < sb_n,
                sb_n <= 8,
        ;
    }
    let mut sig = [false; 16];
    let first: i32 = if i == last_sb {
        sig[last_pos] = true;
        last_pos as i32 - 1
    } else {
        15
    };
    proof {
        assert(sig@ =~= initial_flags(i as int, last_sb as int, last_pos as int));
    }
    let ghost first_s = first as int;
    let ghost sig0 = sig@;
    let mut infer_dc = infer;
    let mut m: i32 = first;
    while m >= 0
        invariant
            -1 <= m <= 15,
            cab.same_stream(&c0),
            c0 == *old(cab),
            data == c0.spec_data(),
            cab.wf(),
            cab.engine_ok(),
            2 <= b.log2_size <= 5,
            b.scan_idx <= 2,
            sb_n == pow2((b.log2_size - 2) as nat),
            sb_n <= 8,
            xs < sb_n,
            ys < sb_n,
            ys * sb_n + xs < sb_n * sb_n <= 64,
            forall|j: int| 0 <= j < 16 ==> (#[trigger] pos_scan@[j][0] as int, pos_scan@[j][1] as int) == scan_pos(2, b.scan_idx as int, j),
            forall|j: int| 0 <= j < 16 ==> #[trigger] pos_scan@[j][0] < 4 && pos_scan@[j][1] < 4,
            first_s == if i == last_sb {
                last_pos - 1
            } else {
                15
            },
            sig0 == initial_flags(i as int, last_sb as int, last_pos as int),
            sig_walk(data, state_of(&c0), first_s, sig0, infer, csbf@, b.log2_size, b.c_idx, xs, ys, sb_n, b.scan_idx, b.ts_ctx)
                == sig_walk(data, state_of(cab), m as int, sig@, infer_dc, csbf@, b.log2_size, b.c_idx, xs, ys, sb_n, b.scan_idx, b.ts_ctx),
        decreases m + 1,
    {
        let mu = m as usize;
        if mu > 0 || !infer_dc {
            let xc = xs * 4 + pos_scan[mu][0] as usize;
            let yc = ys * 4 + pos_scan[mu][1] as usize;
            proof {
                assert(xs + 1 < sb_n ==> ys * sb_n + xs + 1 < 64) by (nonlinear_arith)
                    requires
                        ys * sb_n + xs < sb_n * sb_n <= 64,
                        ys < sb_n,
                ;
                assert(ys + 1 < sb_n ==> (ys + 1) * sb_n + xs < 64) by (nonlinear_arith)
                    requires
                        ys * sb_n + xs < sb_n * sb_n <= 64,
                        xs < sb_n,
                        sb_n <= 8,
                ;
                vstd::arithmetic::power2::lemma2_to64();
                if b.log2_size == 2 {
                    assert(sb_n == 1);
                }
            }
            let ctx = sig_ctx(csbf, b.log2_size, b.c_idx, xc, yc, xs, ys, sb_n, b.scan_idx, b.ts_ctx);
            let bin = match cab.decision(off::SIG + ctx) {
                Ok(v) => v,
                Err(e) => {
                    return Err(e);
                },
            };
            if bin != 0 {
                sig[mu] = true;
                infer_dc = false;
            }
        } else {
            sig[mu] = true;
        }
        m -= 1;
    }
    Ok(sig)
}

/// Reads sub-block `i` of the sub-block scan, as `sb_step`.
#[verifier::spinoff_prover]
#[verifier::rlimit(60)]
fn read_sub_block(
    cab: &mut Cabac,
    coeffs: &mut [i32; 1024],
    csbf: &mut [u8; 64],
    stat_coeff: &mut [i32; 4],
    c1: &mut i32,
    b: &BlockCoding,
    sb_scan: &Vec<[u8; 2]>,
    pos_scan: &[[u8; 2]; 16],
    sb_n: usize,
    i: usize,
    last_sb: usize,
    last_pos: usize,
) -> (r: Result<()>)
    requires
        old(cab).wf(),
        old(cab).engine_ok(),
        2 <= b.log2_size <= 5,
        b.c_idx <= 2,
        b.scan_idx <= 2,
        b.sb_type < 4,
        sb_n == pow2((b.log2_size - 2) as nat),
        sb_scan@.len() == sb_n * sb_n,
        forall|j: int|
            0 <= j < sb_scan@.len() ==> (#[trigger] sb_scan@[j][0] as int, sb_scan@[j][1] as int) == scan_pos(
                (b.log2_size - 2) as nat,
                b.scan_idx as int,
                j,
            ),
        forall|j: int| 0 <= j < sb_scan@.len() ==> #[trigger] sb_scan@[j][0] < sb_n && sb_scan@[j][1] < sb_n,
        forall|j: int| 0 <= j < 16 ==> (#[trigger] pos_scan@[j][0] as int, pos_scan@[j][1] as int) == scan_pos(2, b.scan_idx as int, j),
        forall|j: int| 0 <= j < 16 ==> #[trigger] pos_scan@[j][0] < 4 && pos_scan@[j][1] < 4,
        i <= last_sb < sb_scan@.len(),
        last_pos < 16,
        b.persistent_rice ==> forall|t: int| 0 <= t < 4 ==> 0 <= #[trigger] old(stat_coeff)[t],
    ensures
        final(cab).same_stream(old(cab)),
        ({
            let (out, cs, cf, sf, c1f, st) = sb_step(
                old(cab).spec_data(),
                state_of(old(cab)),
                i as int,
                last_sb as int,
                last_pos as int,
                *b,
                old(csbf)@,
                old(coeffs)@,
                old(stat_coeff)@,
                *old(c1) as int,
            );
            &&& r is Ok <==> out == 0
            &&& r matches Err(e) ==> (e is Truncated <==> out == 1) && (e is InvalidData <==> out == 2) && (e is Unsupported
                <==> out == 3)
            &&& r is Ok ==> {
                &&& final(csbf)@ == cs
                &&& final(coeffs)@ == cf
                &&& final(stat_coeff)@ == sf
                &&& *final(c1) == c1f
                &&& state_of(final(cab)) == st
                &&& final(cab).engine_ok()
                &&& b.persistent_rice ==> forall|t: int| 0 <= t < 4 ==> 0 <= #[trigger] final(stat_coeff)[t]
            }
        }),
{
    proof {
        reveal(sb_step);
    }
    proof {
        vstd::arithmetic::power2::lemma2_to64();
        if b.log2_size < 5 {
            vstd::arithmetic::power2::lemma_pow2_strictly_increases((b.log2_size - 2) as nat, 3);
        }
    }
    let ghost c0 = *cab;
    let xs = sb_scan[i][0] as usize;
    let ys = sb_scan[i][1] as usize;
    proof {
        assert(scan_pos((b.log2_size - 2) as nat, b.scan_idx as int, i as int) == (xs as int, ys as int));
        assert(ys * sb_n + xs < sb_n * sb_n <= 64) by (nonlinear_arith)
            requires
                xs < sb_n,
                ys < sb_n,
                sb_n <= 8,
        ;
        assert(xs + 1 < sb_n ==> ys * sb_n + xs + 1 < sb_n * sb_n) by (nonlinear_arith)
            requires
                xs < sb_n,
                ys < sb_n,
        ;
        assert(ys + 1 < sb_n ==> (ys + 1) * sb_n + xs < sb_n * sb_n) by (nonlinear_arith)
            requires
                xs < sb_n,
                ys < sb_n,
        ;
    }
    let infer = i < last_sb && i > 0;
    let coded = if infer {
        let mut c: usize = 0;
        if xs + 1 < sb_n {
            c += csbf[ys * sb_n + xs + 1] as usize;
        }
        if ys + 1 < sb_n {
            c += csbf[(ys + 1) * sb_n + xs] as usize;
        }
        let ctx = off::CSBF + (if c < 1 {
            c
        } else {
            1
        }) + if b.c_idx > 0 {
            2
        } else {
            0
        };
        proof {
            assert(ctx == off::CSBF + csbf_ctx(csbf@, sb_n as int, xs as int, ys as int, b.c_idx as int));
        }
        match cab.decision(ctx) {
            Ok(v) => v != 0,
            Err(e) => {
                return Err(e);
            },
        }
    } else {
        true
    };
    csbf[ys * sb_n + xs] = if coded {
        1
    } else {
        0
    };
    assert(csbf@ == old(csbf)@.update(ys * sb_n + xs, if coded {
        1u8
    } else {
        0u8
    }));
    if coded {
        let flags = match read_sig_flags(cab, csbf, pos_scan, b, xs, ys, sb_n, i, last_sb, last_pos, infer) {
            Ok(f) => f,
            Err(e) => {
                return Err(e);
            },
        };
        let sig = positions(&flags);
        proof {
            vstd::arithmetic::power2::lemma_pow2_pos((b.log2_size - 2) as nat);
        }
        match decode_levels(
            cab,
            coeffs,
            stat_coeff,
            b.tq_bypass,
            b.sign_data_hiding,
            b.persistent_rice,
            sig.as_slice(),
            i,
            b.c_idx,
            c1,
            b.sb_type,
            b.log2_size,
            b.scan_idx,
            xs,
            ys,
        ) {
            Ok(()) => {},
            Err(e) => {
                return Err(e);
            },
        }
    }
    Ok(())
}

/// Reads the sub-blocks from `last_sb` (holding the last significant
/// coefficient at position `last_pos`) down to the first, as `sb_walk`.
fn walk_sub_blocks(
    cab: &mut Cabac,
    coeffs: &mut [i32; 1024],
    csbf: &mut [u8; 64],
    stat_coeff: &mut [i32; 4],
    b: &BlockCoding,
    sb_scan: &Vec<[u8; 2]>,
    pos_scan: &[[u8; 2]; 16],
    sb_n: usize,
    last_sb: usize,
    last_pos: usize,
) -> (r: Result<()>)
    requires
        old(cab).wf(),
        old(cab).engine_ok(),
        2 <= b.log2_size <= 5,
        b.c_idx <= 2,
        b.scan_idx <= 2,
        b.sb_type < 4,
        sb_n == pow2((b.log2_size - 2) as nat),
        sb_scan@.len() == sb_n * sb_n,
        forall|j: int|
            0 <= j < sb_scan@.len() ==> (#[trigger] sb_scan@[j][0] as int, sb_scan@[j][1] as int) == scan_pos(
                (b.log2_size - 2) as nat,
                b.scan_idx as int,
                j,
            ),
        forall|j: int| 0 <= j < sb_scan@.len() ==> #[trigger] sb_scan@[j][0] < sb_n && sb_scan@[j][1] < sb_n,
        forall|j: int| 0 <= j < 16 ==> (#[trigger] pos_scan@[j][0] as int, pos_scan@[j][1] as int) == scan_pos(2, b.scan_idx as int, j),
        forall|j: int| 0 <= j < 16 ==> #[trigger] pos_scan@[j][0] < 4 && pos_scan@[j][1] < 4,
        last_sb < sb_scan@.len(),
        last_pos < 16,
        b.persistent_rice ==> forall|t: int| 0 <= t < 4 ==> 0 <= #[trigger] old(stat_coeff)[t],
    ensures
        final(cab).same_stream(old(cab)),
        ({
            let (out, cs, cf, sf, c1f, st) = sb_walk(
                old(cab).spec_data(),
                state_of(old(cab)),
                last_sb as int,
                last_sb as int,
                last_pos as int,
                *b,
                old(csbf)@,
                old(coeffs)@,
                old(stat_coeff)@,
                1,
            );
            &&& r is Ok <==> out == 0
            &&& r matches Err(e) ==> (e is Truncated <==> out == 1) && (e is InvalidData <==> out == 2) && (e is Unsupported
                <==> out == 3)
            &&& r is Ok ==> {
                &&& final(csbf)@ == cs
                &&& final(coeffs)@ == cf
                &&& final(stat_coeff)@ == sf
                &&& state_of(final(cab)) == st
                &&& final(cab).engine_ok()
            }
        }),
{
    proof {
        reveal(sb_walk);
    }
    let ghost c0 = *cab;
    let ghost data = c0.spec_data();
    let ghost csbf0 = csbf@;
    let ghost coeffs0 = coeffs@;
    let ghost stat0 = stat_coeff@;
    proof {
        vstd::arithmetic::power2::lemma2_to64();
        if b.log2_size < 5 {
            vstd::arithmetic::power2::lemma_pow2_strictly_increases((b.log2_size - 2) as nat, 3);
        }
    }
    proof {
        assert(sb_n * sb_n <= 64) by (nonlinear_arith)
            requires
                sb_n <= 8,
        ;
    }
    let mut c1: i32 = 1;
    let mut k: usize = last_sb + 1;
    while k > 0
        invariant
            k <= last_sb + 1,
            last_sb < sb_scan@.len(),
            last_pos < 16,
            cab.same_stream(&c0),
            c0 == *old(cab),
            data == c0.spec_data(),
            csbf0 == old(csbf)@,
            coeffs0 == old(coeffs)@,
            stat0 == old(stat_coeff)@,
            cab.wf(),
            cab.engine_ok(),
            2 <= b.log2_size <= 5,
            b.c_idx <= 2,
            b.scan_idx <= 2,
            b.sb_type < 4,
            sb_n == pow2((b.log2_size - 2) as nat),
            1 <= sb_n <= 8,
            sb_scan@.len() == sb_n * sb_n,
            forall|j: int|
                0 <= j < sb_scan@.len() ==> (#[trigger] sb_scan@[j][0] as int, sb_scan@[j][1] as int) == scan_pos(
                    (b.log2_size - 2) as nat,
                    b.scan_idx as int,
                    j,
                ),
            forall|j: int| 0 <= j < sb_scan@.len() ==> #[trigger] sb_scan@[j][0] < sb_n && sb_scan@[j][1] < sb_n,
            forall|j: int| 0 <= j < 16 ==> (#[trigger] pos_scan@[j][0] as int, pos_scan@[j][1] as int) == scan_pos(2, b.scan_idx as int, j),
            forall|j: int| 0 <= j < 16 ==> #[trigger] pos_scan@[j][0] < 4 && pos_scan@[j][1] < 4,
            b.persistent_rice ==> forall|t: int| 0 <= t < 4 ==> 0 <= #[trigger] stat_coeff[t],
            sb_walk(data, state_of(&c0), last_sb as int, last_sb as int, last_pos as int, *b, csbf0, coeffs0, stat0, 1)
                == sb_walk(
                data,
                state_of(cab),
                k - 1,
                last_sb as int,
                last_pos as int,
                *b,
                csbf@,
                coeffs@,
                stat_coeff@,
                c1 as int,
            ),
        decreases k,
    {
        proof {
            reveal(sb_walk);
        }
        let i = k - 1;
        match read_sub_block(cab, coeffs, csbf, stat_coeff, &mut c1, b, sb_scan, pos_scan, sb_n, i, last_sb, last_pos) {
            Ok(()) => {},
            Err(e) => {
                return Err(e);
            },
        }
        k = i;
    }
    Ok(())
}

/// Reads the head of `residual_coding()`: `transform_skip_flag` and the
/// last significant position, as `head_syntax`.
fn read_head(
    cab: &mut Cabac,
    pps: &Pps,
    cat: u8,
    tq_bypass: bool,
    log2_size: usize,
    c_idx: usize,
    pred_mode: u8,
) -> (r: Result<(bool, usize, usize)>)
    requires
        old(cab).wf(),
        old(cab).engine_ok(),
        2 <= log2_size <= 5,
    ensures
        final(cab).same_stream(old(cab)),
        ({
            let (ok, ts, lx, ly, st) = head_syntax(old(cab).spec_data(), state_of(old(cab)), pps, cat, tq_bypass, log2_size, c_idx, pred_mode);
            &&& r is Ok <==> ok
            &&& r matches Err(e) ==> e is Truncated
            &&& r matches Ok((t, x, y)) ==> t == ts && x == lx && y == ly && state_of(final(cab)) == st && final(cab).engine_ok()
        }),
{
    proof {
        reveal(head_syntax);
    }
    let mut ts = false;
    if pps.transform_skip && !tq_bypass && log2_size <= pps.log2_max_transform_skip {
        let ctx = if c_idx == 0 {
            off::TS_LUMA
        } else {
            off::TS_CHROMA
        };
        ts = match cab.decision(ctx) {
            Ok(v) => v != 0,
            Err(e) => {
                return Err(e);
            },
        };
    }
    let (x0, y0) = match last_position(cab, log2_size, c_idx) {
        Ok(p) => p,
        Err(e) => {
            return Err(e);
        },
    };
    if scan_index(cat, log2_size, c_idx, pred_mode) == 2 {
        Ok((ts, y0, x0))
    } else {
        Ok((ts, x0, y0))
    }
}

/// Parses one `residual_coding()` (clause 7.3.8.11) of a `2^log2_size`
/// block of component `c_idx` into `coeffs` and reports
/// `transform_skip_flag`.
///
/// `cat` is `ChromaArrayType`, `tq_bypass` the coding unit's
/// `cu_transquant_bypass_flag` and `pred_mode` the intra mode that selects
/// the scan; `csbf` receives the coded sub-block flags and `stat_coeff`
/// carries the Rice statistics.
#[verifier::spinoff_prover]
#[verifier::rlimit(80)]
pub fn residual_coding(
    cab: &mut Cabac,
    sps: &Sps,
    pps: &Pps,
    cat: u8,
    tq_bypass: bool,
    coeffs: &mut [i32; 1024],
    csbf: &mut [u8; 64],
    stat_coeff: &mut [i32; 4],
    log2_size: usize,
    c_idx: usize,
    pred_mode: u8,
) -> (r: Result<bool>)
    requires
        old(cab).wf(),
        old(cab).engine_ok(),
        2 <= log2_size <= 5,
        c_idx <= 2,
        sps.persistent_rice ==> forall|t: int| 0 <= t < 4 ==> 0 <= #[trigger] old(stat_coeff)[t],
    ensures
        final(cab).same_stream(old(cab)),
        ({
            let (out, ts, cs, cf, sf, st) = residual_syntax(
                old(cab).spec_data(),
                state_of(old(cab)),
                sps,
                pps,
                cat,
                tq_bypass,
                old(coeffs)@,
                old(csbf)@,
                old(stat_coeff)@,
                log2_size,
                c_idx,
                pred_mode,
            );
            &&& r is Ok <==> out == 0
            &&& r matches Err(e) ==> (e is Truncated <==> out == 1) && (e is InvalidData <==> out == 2) && (e is Unsupported
                <==> out == 3)
            &&& r matches Ok(t) ==> {
                &&& t == ts
                &&& final(csbf)@ == cs
                &&& final(coeffs)@ == cf
                &&& final(stat_coeff)@ == sf
                &&& state_of(final(cab)) == st
                &&& final(cab).engine_ok()
            }
        }),
{
    proof {
        vstd::arithmetic::power2::lemma2_to64();
        vstd::bits::lemma_usize_shl_is_mul(1, log2_size);
        vstd::bits::lemma_usize_shl_is_mul(1, (log2_size - 2) as usize);
        vstd::arithmetic::power2::lemma_pow2_adds(2, (log2_size - 2) as nat);
        if log2_size < 5 {
            vstd::arithmetic::power2::lemma_pow2_strictly_increases(log2_size as nat, 5);
            vstd::arithmetic::power2::lemma_pow2_strictly_increases((log2_size - 2) as nat, 3);
        }
    }
    let ghost c0 = *cab;
    let n: usize = 1usize << log2_size;
    proof {
        assert(n * n <= 1024) by (nonlinear_arith)
            requires
                n <= 32,
        ;
    }
    let nn = n * n;
    let mut j: usize = 0;
    while j < nn
        invariant
            nn <= 1024,
            j <= nn,
            forall|k: int| 0 <= k < 1024 ==> #[trigger] coeffs@[k] == if k < j {
                0i32
            } else {
                old(coeffs)@[k]
            },
        decreases nn - j,
    {
        coeffs[j] = 0;
        j += 1;
    }
    proof {
        assert(coeffs@ =~= fill_prefix(old(coeffs)@, (n * n) as int, 0i32));
    }
    let (ts, last_x, last_y) = match read_head(cab, pps, cat, tq_bypass, log2_size, c_idx, pred_mode) {
        Ok(h) => h,
        Err(e) => {
            return Err(e);
        },
    };
    let scan_idx = scan_index(cat, log2_size, c_idx, pred_mode);
    if last_x >= n || last_y >= n {
        return Err(Error::InvalidData("last significant coefficient outside block"));
    }
    let sb_log2 = log2_size - 2;
    let sb_scan = scan_order(sb_log2, scan_idx);
    let pos_scan = sub_scan(scan_idx);
    let sb_n: usize = 1usize << sb_log2;
    let (last_sb, last_pos) = match find_last_pos(&sb_scan, &pos_scan, sb_log2, scan_idx, last_x, last_y) {
        Ok(p) => p,
        Err(e) => {
            return Err(e);
        },
    };
    proof {
        assert(sb_n * sb_n <= 64) by (nonlinear_arith)
            requires
                sb_n <= 8,
        ;
    }
    let sbs = sb_n * sb_n;
    let mut j: usize = 0;
    while j < sbs
        invariant
            sbs <= 64,
            j <= sbs,
            forall|k: int| 0 <= k < 64 ==> #[trigger] csbf@[k] == if k < j {
                0u8
            } else {
                old(csbf)@[k]
            },
        decreases sbs - j,
    {
        csbf[j] = 0;
        j += 1;
    }
    proof {
        assert(csbf@ =~= fill_prefix(old(csbf)@, (sb_n * sb_n) as int, 0u8));
    }
    let ts_ctx = sps.transform_skip_context && (ts || tq_bypass);
    let sb_type: usize = (if c_idx == 0 {
        0
    } else {
        2
    }) + if ts || tq_bypass {
        1
    } else {
        0
    };
    let b = BlockCoding {
        log2_size,
        c_idx,
        scan_idx,
        ts_ctx,
        sb_type,
        tq_bypass,
        sign_data_hiding: pps.sign_data_hiding,
        persistent_rice: sps.persistent_rice,
    };
    match walk_sub_blocks(cab, coeffs, csbf, stat_coeff, &b, &sb_scan, &pos_scan, sb_n, last_sb, last_pos) {
        Ok(()) => {},
        Err(e) => {
            return Err(e);
        },
    }
    Ok(ts)
}

} // verus!
