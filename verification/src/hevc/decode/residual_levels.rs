//! Level, sign and remainder decoding for one 4x4 residual sub-block
//! (clause 7.3.8.11), with the persistent Rice parameter statistics of
//! clause 9.3.3.11.

use vstd::prelude::*;

use super::residual_ctx::{DecState, bypass_run, decision_step, read_remaining, remaining_syntax, state_of};
use crate::hevc::cabac::engine::{Cabac, bypass_value};
use crate::hevc::cabac::off;
use crate::hevc::error::{Error, Result};
use crate::hevc::scan::{scan_pos, sub_scan};
use vstd::arithmetic::power2::pow2;

verus! {

/// The `StatCoeff` update of clause 9.3.3.11 for statistic `s` after a
/// first `coeff_abs_level_remaining` of `rem`: up by one when `rem` reaches
/// `3 << (s / 4)`, down by one (not below 0) when twice `rem` is under
/// `1 << (s / 4)`, else unchanged.
pub open spec fn stat_after(s: int, rem: int) -> int {
    let k = vstd::arithmetic::power2::pow2((s / 4) as nat);
    if rem >= 3 * k {
        s + 1
    } else if 2 * rem < k && s > 0 {
        s - 1
    } else {
        s
    }
}

/// Applies the `StatCoeff` update of clause 9.3.3.11 to the statistic of
/// sub-block type `sb_type`.
pub fn update_stat(stat_coeff: &mut [i32; 4], sb_type: usize, rem: u32)
    requires
        sb_type < 4,
        0 <= old(stat_coeff)[sb_type as int] <= 240,
    ensures
        final(stat_coeff)@ == old(stat_coeff)@.update(
            sb_type as int,
            stat_after(old(stat_coeff)[sb_type as int] as int, rem as int) as i32,
        ),
{
    let s = stat_coeff[sb_type];
    let sh = (s / 4) as u64;
    proof {
        vstd::arithmetic::power2::lemma_pow2_pos(sh as nat);
        vstd::arithmetic::power2::lemma_pow2_strictly_increases(sh as nat, 61);
        vstd::arithmetic::power2::lemma2_to64_rest();
        vstd::bits::lemma_u64_shl_is_mul(1, sh);
        vstd::bits::lemma_u64_shl_is_mul(3, sh);
    }
    let k3 = (3u64 << sh) as i64;
    let k1 = (1u64 << sh) as i64;
    if rem as i64 >= k3 {
        stat_coeff[sb_type] = s + 1;
    } else if 2 * (rem as i64) < k1 && s > 0 {
        stat_coeff[sb_type] = s - 1;
    }
}

/// `coeff_abs_level_greater1_flag` of the scan positions `k` to `n - 1`
/// of a sub-block, read from state `st` starting with `greater1Ctx` `c1`,
/// each with context `base + Min(c1, 3)`: the flags, and `greater1Ctx`
/// after them (0 once a flag is set, else counting up to 3).
pub open spec fn gt1_syntax(data: Seq<u8>, st: DecState, base: int, k: int, n: int, c1: int) -> (
    bool,
    Seq<bool>,
    int,
    DecState,
)
    decreases n - k,
{
    if k >= n {
        (true, Seq::empty(), c1, st)
    } else {
        let (ok, bin, s1) = decision_step(data, st, base + if c1 < 3 {
            c1
        } else {
            3
        });
        let c1n = if bin != 0 {
            0
        } else if 0 < c1 < 3 {
            c1 + 1
        } else {
            c1
        };
        let (ok2, rest, c1f, s2) = gt1_syntax(data, s1, base, k + 1, n, c1n);
        (ok && ok2, seq![bin != 0] + rest, c1f, s2)
    }
}

/// The first index from `k` on at which `f` is set, or -1.
pub open spec fn first_set(f: Seq<bool>, k: int) -> int
    decreases f.len() - k,
{
    if k >= f.len() {
        -1
    } else if f[k] {
        k
    } else {
        first_set(f, k + 1)
    }
}

/// `coeff_sign_flag` of scan positions `k` to `n - 1`, one bypass bin each
/// but for the last position when its sign is hidden (read as positive).
pub open spec fn sign_bins(data: Seq<u8>, st: DecState, k: int, n: int, hide: bool) -> (bool, Seq<bool>, DecState)
    decreases n - k,
{
    if k >= n {
        (true, Seq::empty(), st)
    } else {
        let (ok, neg, s1) = if hide && k == n - 1 {
            (true, false, st)
        } else {
            let (o, b, s) = bypass_run(data, st, 1);
            (o, b == 1, s)
        };
        let (ok2, rest, s2) = sign_bins(data, s1, k + 1, n, hide);
        (ok && ok2, seq![neg] + rest, s2)
    }
}

/// `v` clamped into `lo ..= hi`.
pub open spec fn clamp_to(v: int, lo: int, hi: int) -> int {
    if v < lo {
        lo
    } else if v > hi {
        hi
    } else {
        v
    }
}

/// The base level of the coefficient at scan position `k` of a sub-block:
/// one, plus its greater1 flag, plus the greater2 flag at the first
/// position whose greater1 flag is set.
pub open spec fn base_level(gt1: Seq<bool>, last: int, gt2: bool, k: int) -> int {
    1 + (if k < gt1.len() && gt1[k] {
        1int
    } else {
        0
    }) + (if k == last && gt2 {
        1int
    } else {
        0
    })
}

/// The base level from which `coeff_abs_level_remaining` is coded at scan
/// position `k`.
pub open spec fn level_threshold(last: int, k: int) -> int {
    if k < 8 {
        if k == last {
            3
        } else {
            2
        }
    } else {
        1
    }
}

/// The next Rice parameter after a level: one more, at most 4, when the
/// level exceeds `3 << rice`.
pub open spec fn next_rice(rice: int, level: int) -> int {
    if level > 3 * pow2(rice as nat) {
        if rice + 1 < 4 {
            rice + 1
        } else {
            4
        }
    } else {
        rice
    }
}

/// The remainders and values of scan positions `k` to `sig.len() - 1` of a
/// sub-block whose positions `sig` (highest first) are significant, read
/// from state `st` with Rice parameter `rice`; `first` while no remainder
/// has been read, `sum` the sum of the levels before `k`. Each value, its
/// sign from `signs` and, when `hide`, the last one's from the parity of
/// the sum, is clamped to 16 bits and stored in `coeffs` at its position
/// in the block `width` wide, sub-block (`xs`, `ys`) in scan `scan_idx`;
/// the first remainder updates `stat` when `persistent`. The outcome (0
/// read, 1 the stream ended, 2 an invalid remainder), the coefficients,
/// the statistics and the state.
pub open spec fn level_walk(
    data: Seq<u8>,
    st: DecState,
    k: int,
    sig: Seq<u8>,
    gt1: Seq<bool>,
    last: int,
    gt2: bool,
    signs: Seq<bool>,
    hide: bool,
    persistent: bool,
    sb_type: int,
    width: int,
    xs: int,
    ys: int,
    scan_idx: int,
    rice: int,
    first: bool,
    sum: int,
    coeffs: Seq<i32>,
    stat: Seq<i32>,
) -> (int, Seq<i32>, Seq<i32>, DecState)
    decreases sig.len() - k,
{
    if k >= sig.len() || k < 0 {
        (0, coeffs, stat, st)
    } else {
        let num = sig.len() as int;
        let b = base_level(gt1, last, gt2, k);
        let coded = b == level_threshold(last, k);
        let (outcome, rem, s1) = if coded {
            remaining_syntax(data, st, rice)
        } else {
            (0, 0, st)
        };
        let stat1 = if coded && first && persistent {
            stat.update(sb_type, stat_after(stat[sb_type] as int, rem) as i32)
        } else {
            stat
        };
        let level = b + rem;
        let sum1 = sum + level;
        let v0 = if signs[k] {
            -level
        } else {
            level
        };
        let v = if hide && k == num - 1 && sum1 % 2 == 1 {
            -v0
        } else {
            v0
        };
        let (sx, sy) = scan_pos(2, scan_idx, (sig[k] % 16) as int);
        let idx = (ys * 4 + sy) * width + xs * 4 + sx;
        let coeffs1 = coeffs.update(idx, clamp_to(v, -32768, 32767) as i32);
        if outcome != 0 {
            (outcome, coeffs, stat, s1)
        } else {
            level_walk(
                data,
                s1,
                k + 1,
                sig,
                gt1,
                last,
                gt2,
                signs,
                hide,
                persistent,
                sb_type,
                width,
                xs,
                ys,
                scan_idx,
                next_rice(rice, level),
                first && !coded,
                sum1,
                coeffs1,
                stat1,
            )
        }
    }
}

/// The greater1, greater2, sign and remainder syntax of one sub-block, in
/// that order, and the `greater1Ctx` it leaves: the outcome (0 read, 1 the
/// stream ended, 2 an invalid remainder, 3 a persistent Rice parameter
/// above 31 or a remainder that does not fit in 32 bits, which this decoder
/// does not read), `greater1Ctx`, the
/// coefficients, the statistics and the state. `i` is the sub-block's index in the
/// sub-block scan, `c1` the `greater1Ctx` the previous sub-block left.
#[verifier::opaque]
pub open spec fn levels_syntax(
    data: Seq<u8>,
    st: DecState,
    coeffs: Seq<i32>,
    stat: Seq<i32>,
    tq_bypass: bool,
    sign_data_hiding: bool,
    persistent: bool,
    sig: Seq<u8>,
    i: int,
    c_idx: int,
    c1: int,
    sb_type: int,
    log2_size: int,
    scan_idx: int,
    xs: int,
    ys: int,
) -> (int, int, Seq<i32>, Seq<i32>, DecState) {
    let ctx_set = (if i > 0 && c_idx == 0 {
        2int
    } else {
        0
    }) + (if c1 == 0 {
        1int
    } else {
        0
    });
    let num = sig.len() as int;
    if num == 0 {
        (0, 1, coeffs, stat, st)
    } else {
        let base = off::GT1 + ctx_set * 4 + if c_idx > 0 {
            16int
        } else {
            0
        };
        let n8 = if num < 8 {
            num
        } else {
            8
        };
        let (ok1, gt1, c1f, s1) = gt1_syntax(data, st, base, 0, n8, 1);
        let last = first_set(gt1, 0);
        let (ok2, g2, s2) = if last >= 0 {
            decision_step(data, s1, off::GT2 + ctx_set + if c_idx > 0 {
                4int
            } else {
                0
            })
        } else {
            (true, 0u32, s1)
        };
        let hide = sign_data_hiding && sig[0] - sig[num - 1] > 3 && !tq_bypass;
        let (ok3, signs, s3) = sign_bins(data, s2, 0, num, hide);
        let rice = if persistent {
            stat[sb_type] / 4
        } else {
            0
        };
        let too_wide = rice > 31;
        let (out4, coeffs4, stat4, s4) = level_walk(
            data,
            s3,
            0,
            sig,
            gt1,
            last,
            g2 != 0,
            signs,
            hide,
            persistent,
            sb_type,
            pow2(log2_size as nat) as int,
            xs,
            ys,
            scan_idx,
            rice,
            true,
            0,
            coeffs,
            stat,
        );
        if !ok1 {
            (1, c1f, coeffs, stat, s1)
        } else if !ok2 {
            (1, c1f, coeffs, stat, s2)
        } else if !ok3 {
            (1, c1f, coeffs, stat, s3)
        } else if too_wide {
            (3, c1f, coeffs, stat, s3)
        } else {
            (out4, c1f, coeffs4, stat4, s4)
        }
    }
}

/// The greater1 flags read from position `k` on number `n - k`.
proof fn lemma_gt1_len(data: Seq<u8>, st: DecState, base: int, k: int, n: int, c1: int)
    requires
        0 <= k <= n,
    ensures
        gt1_syntax(data, st, base, k, n, c1).1.len() == n - k,
    decreases n - k,
{
    if k < n {
        let (ok, bin, s1) = decision_step(data, st, base + if c1 < 3 {
            c1
        } else {
            3
        });
        let c1n = if bin != 0 {
            0
        } else if 0 < c1 < 3 {
            c1 + 1
        } else {
            c1
        };
        lemma_gt1_len(data, s1, base, k + 1, n, c1n);
    }
}

/// The sign flags read from position `k` on number `n - k`.
proof fn lemma_signs_len(data: Seq<u8>, st: DecState, k: int, n: int, hide: bool)
    requires
        0 <= k <= n,
    ensures
        sign_bins(data, st, k, n, hide).1.len() == n - k,
    decreases n - k,
{
    if k < n {
        let (ok, neg, s1) = if hide && k == n - 1 {
            (true, false, st)
        } else {
            let (o, b, s) = bypass_run(data, st, 1);
            (o, b == 1, s)
        };
        lemma_signs_len(data, s1, k + 1, n, hide);
    }
}

/// `first_set` finds the first set flag from `k` on, or none.
proof fn lemma_first_set(f: Seq<bool>, k: int, j: int)
    requires
        0 <= k <= f.len(),
        forall|i: int| k <= i < j && i < f.len() ==> !#[trigger] f[i],
        j == f.len() || (k <= j < f.len() && f[j]),
    ensures
        first_set(f, k) == if j == f.len() {
            -1
        } else {
            j
        },
    decreases f.len() - k,
{
    if k < f.len() && k < j {
        lemma_first_set(f, k + 1, j);
    }
}

/// Reads the greater1 flags of the first `n` significant positions of a
/// sub-block with contexts from `base`, starting with `greater1Ctx` 1;
/// returns the flags, the first position whose flag is set (`usize::MAX`
/// when none is) and `greater1Ctx` after them.
fn read_gt1(cab: &mut Cabac, base: usize, n: usize) -> (r: Result<([bool; 8], usize, i32)>)
    requires
        old(cab).wf(),
        old(cab).engine_ok(),
        n <= 8,
        base + 3 < crate::hevc::cabac::NUM_CTX,
    ensures
        final(cab).same_stream(old(cab)),
        ({
            let (ok, flags, c1f, st) = gt1_syntax(old(cab).spec_data(), state_of(old(cab)), base as int, 0, n as int, 1);
            &&& flags.len() == n
            &&& r is Ok <==> ok
            &&& r matches Err(e) ==> e is Truncated
            &&& r matches Ok((f, last, c1)) ==> {
                &&& forall|k: int| 0 <= k < n ==> #[trigger] f@[k] == flags[k]
                &&& forall|k: int| n <= k < 8 ==> !#[trigger] f@[k]
                &&& (if last == usize::MAX {
                    -1
                } else {
                    last as int
                }) == first_set(flags, 0)
                &&& (last == usize::MAX || last < n)
                &&& c1 == c1f
                &&& 0 <= c1 <= 3
                &&& state_of(final(cab)) == st
                &&& final(cab).engine_ok()
            }
        }),
{
    let ghost c0 = *cab;
    proof {
        lemma_gt1_len(c0.spec_data(), state_of(&c0), base as int, 0, n as int, 1);
    }
    let mut f = [false; 8];
    let mut last = usize::MAX;
    let mut c1: i32 = 1;
    let mut k: usize = 0;
    while k < n
        invariant
            k <= n <= 8,
            base + 3 < crate::hevc::cabac::NUM_CTX,
            cab.same_stream(&c0),
            c0 == *old(cab),
            cab.wf(),
            cab.engine_ok(),
            0 <= c1 <= 3,
            forall|j: int| k <= j < 8 ==> !#[trigger] f@[j],
            last == usize::MAX ==> forall|j: int| 0 <= j < k ==> !#[trigger] f@[j],
            last != usize::MAX ==> last < k && f@[last as int] && forall|j: int| 0 <= j < last ==> !#[trigger] f@[j],
            ({
                let (ok0, all, c1f0, end0) = gt1_syntax(c0.spec_data(), state_of(&c0), base as int, 0, n as int, 1);
                let (ok, rest, c1f, end) = gt1_syntax(c0.spec_data(), state_of(cab), base as int, k as int, n as int, c1 as int);
                &&& ok0 == ok
                &&& end0 == end
                &&& c1f0 == c1f
                &&& all.len() == n
                &&& rest.len() == n - k
                &&& forall|j: int| 0 <= j < k ==> #[trigger] all[j] == f@[j]
                &&& forall|j: int| k <= j < n ==> #[trigger] all[j] == rest[j - k]
            }),
        decreases n - k,
    {
        let ghost st = state_of(cab);
        let ghost c1_before = c1 as int;
        let ctx = base + if c1 < 3 {
            c1 as usize
        } else {
            3
        };
        let bin = match cab.decision(ctx) {
            Ok(b) => b,
            Err(e) => {
                return Err(e);
            },
        };
        if bin != 0 {
            f[k] = true;
            c1 = 0;
            if last == usize::MAX {
                last = k;
            }
        } else if c1 > 0 && c1 < 3 {
            c1 += 1;
        }
        proof {
            let (ok, rest, c1f, end) = gt1_syntax(c0.spec_data(), st, base as int, k as int, n as int, c1_before);
            let (ok3, rest3, c1f3, end3) = gt1_syntax(c0.spec_data(), state_of(cab), base as int, k + 1, n as int, c1 as int);
            lemma_gt1_len(c0.spec_data(), state_of(cab), base as int, k + 1, n as int, c1 as int);
            assert(rest == seq![bin != 0] + rest3);
            assert(rest[0] == (bin != 0));
            assert forall|j: int| k + 1 <= j < n implies #[trigger] rest[j - k] == rest3[j - (k + 1)] by {}
        }
        k += 1;
    }
    proof {
        let all = gt1_syntax(c0.spec_data(), state_of(&c0), base as int, 0, n as int, 1).1;
        if last == usize::MAX {
            lemma_first_set(all, 0, n as int);
        } else {
            lemma_first_set(all, 0, last as int);
        }
    }
    Ok((f, last, c1))
}

/// Reads the sign flags of `n` significant positions, the last one's
/// omitted when `hide`.
fn read_signs(cab: &mut Cabac, n: usize, hide: bool) -> (r: Result<[bool; 16]>)
    requires
        old(cab).wf(),
        old(cab).engine_ok(),
        1 <= n <= 16,
    ensures
        final(cab).same_stream(old(cab)),
        ({
            let (ok, signs, st) = sign_bins(old(cab).spec_data(), state_of(old(cab)), 0, n as int, hide);
            &&& signs.len() == n
            &&& r is Ok <==> ok
            &&& r matches Err(e) ==> e is Truncated
            &&& r matches Ok(sg) ==> {
                &&& forall|k: int| 0 <= k < n ==> #[trigger] sg@[k] == signs[k]
                &&& state_of(final(cab)) == st
                &&& final(cab).engine_ok()
            }
        }),
{
    let ghost c0 = *cab;
    proof {
        lemma_signs_len(c0.spec_data(), state_of(&c0), 0, n as int, hide);
    }
    let mut sg = [false; 16];
    let mut k: usize = 0;
    while k < n
        invariant
            1 <= n <= 16,
            k <= n,
            cab.same_stream(&c0),
            c0 == *old(cab),
            cab.wf(),
            cab.engine_ok(),
            ({
                let (ok0, all, end0) = sign_bins(c0.spec_data(), state_of(&c0), 0, n as int, hide);
                let (ok, rest, end) = sign_bins(c0.spec_data(), state_of(cab), k as int, n as int, hide);
                &&& ok0 == ok
                &&& end0 == end
                &&& all.len() == n
                &&& rest.len() == n - k
                &&& forall|j: int| 0 <= j < k ==> #[trigger] all[j] == sg@[j]
                &&& forall|j: int| k <= j < n ==> #[trigger] all[j] == rest[j - k]
            }),
        decreases n - k,
    {
        let ghost st = state_of(cab);
        let neg = if hide && k == n - 1 {
            false
        } else {
            proof {
                reveal_with_fuel(bypass_value, 2);
            }
            match cab.bypass() {
                Ok(b) => b == 1,
                Err(e) => {
                    return Err(e);
                },
            }
        };
        sg[k] = neg;
        proof {
            let (ok, rest, end) = sign_bins(c0.spec_data(), st, k as int, n as int, hide);
            let (ok3, rest3, end3) = sign_bins(c0.spec_data(), state_of(cab), k + 1, n as int, hide);
            lemma_signs_len(c0.spec_data(), state_of(cab), k + 1, n as int, hide);
            assert(rest == seq![neg] + rest3);
            assert(rest[0] == neg);
            assert forall|j: int| k + 1 <= j < n implies #[trigger] rest[j - k] == rest3[j - (k + 1)] by {}
        }
        k += 1;
    }
    Ok(sg)
}

/// Reads the remainders of the significant positions `sig` of a sub-block
/// and stores their values in `coeffs`, as `level_walk` from position 0
/// with Rice parameter `rice`; `gt1` and `signs` hold the flags read
/// before, `gt1_s` and `signs_s` the same flags as the syntax lists them.
#[verifier::spinoff_prover]
#[verifier::rlimit(40)]
fn walk_levels(
    cab: &mut Cabac,
    coeffs: &mut [i32; 1024],
    stat_coeff: &mut [i32; 4],
    sig: &[u8],
    gt1: &[bool; 8],
    last_gt1: usize,
    gt2: bool,
    signs: &[bool; 16],
    hide: bool,
    persistent_rice: bool,
    sb_type: usize,
    log2_size: usize,
    scan_idx: usize,
    xs: usize,
    ys: usize,
    init_rice: u32,
    Ghost(gt1_s): Ghost<Seq<bool>>,
    Ghost(signs_s): Ghost<Seq<bool>>,
) -> (r: Result<()>)
    requires
        old(cab).wf(),
        old(cab).engine_ok(),
        1 <= sig@.len() <= 16,
        sb_type < 4,
        scan_idx <= 2,
        2 <= log2_size <= 5,
        xs < pow2((log2_size - 2) as nat),
        ys < pow2((log2_size - 2) as nat),
        init_rice <= 31,
        persistent_rice ==> 0 <= old(stat_coeff)[sb_type as int] <= 127,
        gt1_s.len() <= 8,
        forall|j: int| 0 <= j < gt1_s.len() ==> #[trigger] gt1@[j] == gt1_s[j],
        forall|j: int| gt1_s.len() <= j < 8 ==> !#[trigger] gt1@[j],
        last_gt1 == usize::MAX || last_gt1 < 8,
        signs_s.len() == sig@.len(),
        forall|j: int| 0 <= j < sig@.len() ==> #[trigger] signs@[j] == signs_s[j],
    ensures
        final(cab).same_stream(old(cab)),
        ({
            let (outcome, cf, sf, st) = level_walk(
                old(cab).spec_data(),
                state_of(old(cab)),
                0,
                sig@,
                gt1_s,
                if last_gt1 == usize::MAX {
                    -1
                } else {
                    last_gt1 as int
                },
                gt2,
                signs_s,
                hide,
                persistent_rice,
                sb_type as int,
                pow2(log2_size as nat) as int,
                xs as int,
                ys as int,
                scan_idx as int,
                init_rice as int,
                true,
                0,
                old(coeffs)@,
                old(stat_coeff)@,
            );
            &&& r is Ok <==> outcome == 0
            &&& r matches Err(e) ==> (e is Truncated <==> outcome == 1) && (e is InvalidData <==> outcome == 2) && (
            e is Unsupported <==> outcome == 3)
            &&& r matches Err(e) ==> e is Truncated || e is InvalidData || e is Unsupported
            &&& r is Ok ==> {
                &&& forall|t: int| 0 <= t < 4 && 0 <= old(stat_coeff)[t] ==> 0 <= #[trigger] final(stat_coeff)[t]
                &&& final(coeffs)@ == cf
                &&& final(stat_coeff)@ == sf
                &&& state_of(final(cab)) == st
                &&& final(cab).engine_ok()
            }
        }),
{
    let ghost c0 = *cab;
    let ghost data = c0.spec_data();
    let ghost s3 = state_of(cab);
    let ghost rice0 = init_rice as int;
    let ghost last_s: int = if last_gt1 == usize::MAX {
        -1
    } else {
        last_gt1 as int
    };
    let ghost coeffs0 = coeffs@;
    let ghost stat0 = stat_coeff@;
    let num = sig.len();
    let pos_scan = sub_scan(scan_idx);
    let n: usize = 1usize << log2_size;
    proof {
        vstd::arithmetic::power2::lemma2_to64();
        vstd::bits::lemma_usize_shl_is_mul(1, log2_size);
        vstd::arithmetic::power2::lemma_pow2_adds(2, (log2_size - 2) as nat);
        if log2_size < 5 {
            vstd::arithmetic::power2::lemma_pow2_strictly_increases(log2_size as nat, 5);
        }
    }
    let mut rice = init_rice;
    let mut first_rem = true;
    let mut sum_abs: i64 = 0;
    let mut k: usize = 0;
    while k < num
        invariant
            k <= num,
            num == sig@.len(),
            1 <= num <= 16,
            n == pow2(log2_size as nat),
            n == 4 * pow2((log2_size - 2) as nat),
            4 <= n <= 32,
            2 <= log2_size <= 5,
            xs < pow2((log2_size - 2) as nat),
            ys < pow2((log2_size - 2) as nat),
            sb_type < 4,
            scan_idx <= 2,
            rice <= 31,
            0 <= sum_abs <= k * 0x1_0000_0004,
            cab.same_stream(&c0),
            c0 == *old(cab),
            data == c0.spec_data(),
            s3 == state_of(old(cab)),
            coeffs0 == old(coeffs)@,
            stat0 == old(stat_coeff)@,
            rice0 == init_rice,
            cab.wf(),
            cab.engine_ok(),
            gt1_s.len() <= 8,
            forall|j: int| 0 <= j < gt1_s.len() ==> #[trigger] gt1@[j] == gt1_s[j],
            forall|j: int| gt1_s.len() <= j < 8 ==> !#[trigger] gt1@[j],
            last_gt1 == usize::MAX || last_gt1 < 8,
            last_s == if last_gt1 == usize::MAX {
                -1
            } else {
                last_gt1 as int
            },
            signs_s.len() == num,
            forall|j: int| 0 <= j < num ==> #[trigger] signs@[j] == signs_s[j],
            forall|j: int| 0 <= j < 16 ==> (#[trigger] pos_scan@[j][0] as int, pos_scan@[j][1] as int) == scan_pos(2, scan_idx as int, j),
            forall|j: int| 0 <= j < 16 ==> #[trigger] pos_scan@[j][0] < 4 && pos_scan@[j][1] < 4,
            persistent_rice && first_rem ==> 0 <= stat_coeff[sb_type as int] <= 127,
            forall|t: int| 0 <= t < 4 && 0 <= stat0[t] ==> 0 <= #[trigger] stat_coeff[t],
            level_walk(
                data,
                s3,
                0,
                sig@,
                gt1_s,
                last_s,
                gt2,
                signs_s,
                hide,
                persistent_rice,
                sb_type as int,
                n as int,
                xs as int,
                ys as int,
                scan_idx as int,
                rice0,
                true,
                0,
                coeffs0,
                stat0,
            ) == level_walk(
                data,
                state_of(cab),
                k as int,
                sig@,
                gt1_s,
                last_s,
                gt2,
                signs_s,
                hide,
                persistent_rice,
                sb_type as int,
                n as int,
                xs as int,
                ys as int,
                scan_idx as int,
                rice as int,
                first_rem,
                sum_abs as int,
                coeffs@,
                stat_coeff@,
            ),
        decreases num - k,
    {
        let ghost st = state_of(cab);
        let ghost rice_k = rice as int;
        let ghost first_k = first_rem;
        let ghost sum_k = sum_abs as int;
        let ghost coeffs_k = coeffs@;
        let ghost stat_k = stat_coeff@;
        let m = (sig[k] & 15) as usize;
        proof {
            let sk = sig@[k as int];
            assert(sk & 15u8 == sk % 16) by (bit_vector);
        }
        let g1 = k < 8 && gt1[k];
        let base_level: i64 = 1 + (if g1 {
            1
        } else {
            0
        }) + (if k == last_gt1 && gt2 {
            1
        } else {
            0
        });
        let threshold: i64 = if k < 8 {
            if k == last_gt1 {
                3
            } else {
                2
            }
        } else {
            1
        };
        assert(base_level == self::base_level(gt1_s, last_s, gt2, k as int));
        assert(threshold == level_threshold(last_s, k as int));
        let mut level = base_level;
        let ghost mut rem_s: int = 0;
        if base_level == threshold {
            let rem = match read_remaining(cab, rice) {
                Ok(v) => v,
                Err(e) => {
                    proof {
                        let (o, rv, s1) = remaining_syntax(data, st, rice as int);
                        assert(o != 0);
                        assert(level_walk(
                            data,
                            st,
                            k as int,
                            sig@,
                            gt1_s,
                            last_s,
                            gt2,
                            signs_s,
                            hide,
                            persistent_rice,
                            sb_type as int,
                            n as int,
                            xs as int,
                            ys as int,
                            scan_idx as int,
                            rice as int,
                            first_rem,
                            sum_abs as int,
                            coeffs@,
                            stat_coeff@,
                        ).0 == o);
                    }
                    return Err(e);
                },
            };
            proof {
                rem_s = rem as int;
            }
            if first_rem && persistent_rice {
                update_stat(stat_coeff, sb_type, rem);
            }
            first_rem = false;
            level += rem as i64;
        }
        assert(base_level != threshold ==> state_of(cab) == st);
        proof {
            vstd::arithmetic::power2::lemma2_to64();
            vstd::arithmetic::power2::lemma_pow2_pos(rice as nat);
            if rice < 31 {
                vstd::arithmetic::power2::lemma_pow2_strictly_increases(rice as nat, 31);
            }
            vstd::bits::lemma_u64_shl_is_mul(3, rice as u64);
        }
        if level > (3u64 << rice) as i64 {
            rice = if rice + 1 < 4 {
                rice + 1
            } else {
                4
            };
        }
        sum_abs += level;
        let mut v = level;
        if signs[k] {
            v = -v;
        }
        if hide && k == num - 1 && sum_abs % 2 == 1 {
            v = -v;
        }
        let xc = xs * 4 + pos_scan[m][0] as usize;
        let yc = ys * 4 + pos_scan[m][1] as usize;
        proof {
            assert(yc * n + xc < n * n) by (nonlinear_arith)
                requires
                    yc < n,
                    xc < n,
            ;
            assert(n * n <= 1024) by (nonlinear_arith)
                requires
                    n <= 32,
            ;
        }
        let clamped: i32 = if v < -32768 {
            -32768
        } else if v > 32767 {
            32767
        } else {
            v as i32
        };
        coeffs[yc * n + xc] = clamped;
        proof {
            assert(level == base_level + rem_s);
            assert(rice == next_rice(rice_k, level as int));
            assert(coeffs@ == coeffs_k.update(
                (ys * 4 + scan_pos(2, scan_idx as int, (sig@[k as int] % 16) as int).1) * n + xs * 4 + scan_pos(2, scan_idx as int, (sig@[k as int] % 16) as int).0,
                clamp_to(v as int, -32768, 32767) as i32,
            ));
        }
        k += 1;
    }
    Ok(())
}

/// Decodes the greater1, greater2, sign and remainder bins of one
/// sub-block into `coeffs`.
///
/// `sig` lists the significant scan positions of the sub-block, highest
/// first, which is the order every one of these syntax elements is coded
/// in; `i` is the sub-block's index in the sub-block scan and (`xs`, `ys`)
/// its position, `c1` carries `greater1Ctx` from one sub-block to the
/// next, `sb_type` selects the Rice statistic in `stat_coeff`.
#[verifier::spinoff_prover]
#[verifier::rlimit(80)]
pub fn decode_levels(
    cab: &mut Cabac,
    coeffs: &mut [i32; 1024],
    stat_coeff: &mut [i32; 4],
    tq_bypass: bool,
    sign_data_hiding: bool,
    persistent_rice: bool,
    sig: &[u8],
    i: usize,
    c_idx: usize,
    c1: &mut i32,
    sb_type: usize,
    log2_size: usize,
    scan_idx: usize,
    xs: usize,
    ys: usize,
) -> (r: Result<()>)
    requires
        old(cab).wf(),
        old(cab).engine_ok(),
        sig@.len() <= 16,
        c_idx <= 2,
        sb_type < 4,
        scan_idx <= 2,
        2 <= log2_size <= 5,
        xs < pow2((log2_size - 2) as nat),
        ys < pow2((log2_size - 2) as nat),
        persistent_rice ==> 0 <= old(stat_coeff)[sb_type as int],
    ensures
        final(cab).same_stream(old(cab)),
        ({
            let (outcome, c1f, cf, sf, st) = levels_syntax(
                old(cab).spec_data(),
                state_of(old(cab)),
                old(coeffs)@,
                old(stat_coeff)@,
                tq_bypass,
                sign_data_hiding,
                persistent_rice,
                sig@,
                i as int,
                c_idx as int,
                *old(c1) as int,
                sb_type as int,
                log2_size as int,
                scan_idx as int,
                xs as int,
                ys as int,
            );
            &&& r is Ok <==> outcome == 0
            &&& r matches Err(e) ==> (e is Truncated <==> outcome == 1) && (e is InvalidData <==> outcome == 2) && (
            e is Unsupported <==> outcome == 3)
            &&& r is Ok ==> {
                &&& forall|t: int| 0 <= t < 4 && 0 <= old(stat_coeff)[t] ==> 0 <= #[trigger] final(stat_coeff)[t]
                &&& *final(c1) == c1f
                &&& final(coeffs)@ == cf
                &&& final(stat_coeff)@ == sf
                &&& state_of(final(cab)) == st
                &&& final(cab).engine_ok()
            }
        }),
{
    proof {
        reveal(levels_syntax);
    }
    let ghost c0 = *cab;
    let ghost data = c0.spec_data();
    let mut ctx_set: usize = if i > 0 && c_idx == 0 {
        2
    } else {
        0
    };
    if *c1 == 0 {
        ctx_set += 1;
    }
    *c1 = 1;
    let num = sig.len();
    if num == 0 {
        return Ok(());
    }
    let base = crate::hevc::cabac::off::GT1 + ctx_set * 4 + if c_idx > 0 {
        16
    } else {
        0
    };
    let n8 = if num < 8 {
        num
    } else {
        8
    };
    let (gt1, last_gt1, c1_out) = match read_gt1(cab, base, n8) {
        Ok(v) => v,
        Err(e) => {
            return Err(e);
        },
    };
    let ghost s1 = state_of(cab);
    let ghost gt1_s = gt1_syntax(data, state_of(&c0), base as int, 0, n8 as int, 1).1;
    let sign_hidden = (sig[0] as i32) - (sig[num - 1] as i32) > 3 && !tq_bypass;
    let mut gt2 = false;
    if last_gt1 != usize::MAX {
        let ctx = off::GT2 + ctx_set + if c_idx > 0 {
            4
        } else {
            0
        };
        gt2 = match cab.decision(ctx) {
            Ok(b) => b != 0,
            Err(e) => {
                return Err(e);
            },
        };
    }
    let hide = sign_data_hiding && sign_hidden;
    let ghost s2 = state_of(cab);
    let signs = match read_signs(cab, num, hide) {
        Ok(v) => v,
        Err(e) => {
            return Err(e);
        },
    };
    let ghost signs_s = sign_bins(data, s2, 0, num as int, hide).1;
    let rice: u32 = if persistent_rice {
        (stat_coeff[sb_type] / 4) as u32
    } else {
        0
    };
    if rice > 31 {
        return Err(Error::Unsupported("persistent Rice parameter above 31"));
    }
    match walk_levels(
        cab,
        coeffs,
        stat_coeff,
        sig,
        &gt1,
        last_gt1,
        gt2,
        &signs,
        hide,
        persistent_rice,
        sb_type,
        log2_size,
        scan_idx,
        xs,
        ys,
        rice,
        Ghost(gt1_s),
        Ghost(signs_s),
    ) {
        Ok(()) => {},
        Err(e) => {
            return Err(e);
        },
    }
    *c1 = c1_out;
    Ok(())
}

/// The Rice statistic moves by at most one per update and never falls
/// below zero from a non-negative value; the Rice parameter after a level
/// never exceeds the larger of its old value and 4, and stays put for a
/// level up to `3 << rice`.
pub proof fn lemma_rice_adaptation(s: int, rem: int, rice: int, level: int)
    requires
        0 <= s,
        0 <= rem,
        0 <= rice,
    ensures
        s - 1 <= stat_after(s, rem) <= s + 1,
        0 <= stat_after(s, rem),
        next_rice(rice, level) <= if rice > 4 {
            rice
        } else {
            4
        },
        level <= 3 * pow2(rice as nat) ==> next_rice(rice, level) == rice,
{
}

} // verus!
