//! Intra sample prediction: the planar, DC and angular predictors of
//! clauses 8.4.4.2.5 and 8.4.4.2.6.

use vstd::prelude::*;

use super::Refs;

verus! {

/// `intraPredAngle` indexed by `predModeIntra - 2`, for modes 2 to 34.
pub const ANG: [i32; 33] = [
    32, 26, 21, 17, 13, 9, 5, 2, 0, -2, -5, -9, -13, -17, -21, -26, -32, -26, -21, -17, -13, -9,
    -5, -2, 0, 2, 5, 9, 13, 17, 21, 26, 32,
];

/// `invAngle` indexed by `predModeIntra - 11`, for the modes 11 to 25 that
/// have a negative `intraPredAngle`.
pub const INV: [i32; 15] = [
    -4096, -1638, -910, -630, -482, -390, -315, -256, -315, -390, -482, -630, -910, -1638, -4096,
];

/// The angles of Table 8-5: `intraPredAngle` runs from 32 at mode 2 down
/// through 0 at the pure horizontal mode 10 to -32 at the diagonal mode 18,
/// then back up through 0 at the pure vertical mode 26 to 32 at mode 34, so
/// mode `m` and its mirror `36 - m` share an angle; the angle is negative
/// for exactly the modes 11 to 25, and for those `invAngle` is
/// `8192 / intraPredAngle` rounded to the nearest integer.
pub proof fn lemma_angle_tables()
    ensures
        ANG@[0] == 32 && ANG@[8] == 0 && ANG@[16] == -32 && ANG@[24] == 0 && ANG@[32] == 32,
        forall|m: int| 2 <= m < 18 ==> #[trigger] ANG@[m - 2] > ANG@[m - 1],
        forall|m: int| 2 <= m <= 34 ==> #[trigger] ANG@[m - 2] == ANG@[34 - m],
        forall|m: int| 2 <= m <= 34 ==> (#[trigger] ANG@[m - 2] < 0 <==> 11 <= m <= 25),
        forall|m: int|
            11 <= m <= 25 ==> ANG@[m - 2] <= 2 * (#[trigger] INV@[m - 11] * ANG@[m - 2] - 8192) <= -ANG@[m - 2],
{
    assert forall|m: int|
        11 <= m <= 25 implies ANG@[m - 2] <= 2 * (#[trigger] INV@[m - 11] * ANG@[m - 2] - 8192) <= -ANG@[m - 2] by {
        let (i, a) = (INV@[m - 11] as int, ANG@[m - 2] as int);
        if m == 11 {
            assert(i == -4096 && a == -2);
            assert(i * a == 8192) by (nonlinear_arith)
                requires
                    i == -4096,
                    a == -2,
            ;
        } else if m == 12 {
            assert(i == -1638 && a == -5);
            assert(i * a == 8190) by (nonlinear_arith)
                requires
                    i == -1638,
                    a == -5,
            ;
        } else if m == 13 {
            assert(i == -910 && a == -9);
            assert(i * a == 8190) by (nonlinear_arith)
                requires
                    i == -910,
                    a == -9,
            ;
        } else if m == 14 {
            assert(i == -630 && a == -13);
            assert(i * a == 8190) by (nonlinear_arith)
                requires
                    i == -630,
                    a == -13,
            ;
        } else if m == 15 {
            assert(i == -482 && a == -17);
            assert(i * a == 8194) by (nonlinear_arith)
                requires
                    i == -482,
                    a == -17,
            ;
        } else if m == 16 {
            assert(i == -390 && a == -21);
            assert(i * a == 8190) by (nonlinear_arith)
                requires
                    i == -390,
                    a == -21,
            ;
        } else if m == 17 {
            assert(i == -315 && a == -26);
            assert(i * a == 8190) by (nonlinear_arith)
                requires
                    i == -315,
                    a == -26,
            ;
        } else if m == 18 {
            assert(i == -256 && a == -32);
            assert(i * a == 8192) by (nonlinear_arith)
                requires
                    i == -256,
                    a == -32,
            ;
        } else if m == 19 {
            assert(i == -315 && a == -26);
            assert(i * a == 8190) by (nonlinear_arith)
                requires
                    i == -315,
                    a == -26,
            ;
        } else if m == 20 {
            assert(i == -390 && a == -21);
            assert(i * a == 8190) by (nonlinear_arith)
                requires
                    i == -390,
                    a == -21,
            ;
        } else if m == 21 {
            assert(i == -482 && a == -17);
            assert(i * a == 8194) by (nonlinear_arith)
                requires
                    i == -482,
                    a == -17,
            ;
        } else if m == 22 {
            assert(i == -630 && a == -13);
            assert(i * a == 8190) by (nonlinear_arith)
                requires
                    i == -630,
                    a == -13,
            ;
        } else if m == 23 {
            assert(i == -910 && a == -9);
            assert(i * a == 8190) by (nonlinear_arith)
                requires
                    i == -910,
                    a == -9,
            ;
        } else if m == 24 {
            assert(i == -1638 && a == -5);
            assert(i * a == 8190) by (nonlinear_arith)
                requires
                    i == -1638,
                    a == -5,
            ;
        } else {
            assert(i == -4096 && a == -2);
            assert(i * a == 8192) by (nonlinear_arith)
                requires
                    i == -4096,
                    a == -2,
            ;
        }
    }
}

/// Whether `n` is a transform block size: 4, 8, 16 or 32.
pub open spec fn block_size(n: int) -> bool {
    n == 4 || n == 8 || n == 16 || n == 32
}

/// `p[x][y]` of clause 8.4.4.2: the left column for `x == -1`, the top row
/// otherwise.
pub open spec fn p_at(r: Refs, x: int, y: int) -> int {
    if x < 0 {
        r.left_of(y) as int
    } else {
        r.top_of(x) as int
    }
}

/// Planar prediction, clause 8.4.4.2.5.
pub open spec fn planar_at(r: Refs, x: int, y: int) -> int {
    let n = r.n as int;
    ((n - 1 - x) * p_at(r, -1, y) + (x + 1) * p_at(r, n, -1) + (n - 1 - y) * p_at(r, x, -1) + (y + 1)
        * p_at(r, -1, n) + n) / (2 * n)
}

/// The sum of the first `k` top and left references.
pub open spec fn edge_sum(r: Refs, k: int) -> int
    decreases k,
{
    if k <= 0 {
        0
    } else {
        edge_sum(r, k - 1) + p_at(r, k - 1, -1) + p_at(r, -1, k - 1)
    }
}

/// `dcVal` of clause 8.4.4.2.6.
pub open spec fn dc_value(r: Refs) -> int {
    let n = r.n as int;
    (edge_sum(r, n) + n) / (2 * n)
}

/// DC prediction with the luma boundary smoothing, clause 8.4.4.2.6.
pub open spec fn dc_at(r: Refs, c_idx: int, x: int, y: int) -> int {
    let n = r.n as int;
    let d = dc_value(r);
    if c_idx == 0 && n < 32 && x == 0 && y == 0 {
        (p_at(r, -1, 0) + 2 * d + p_at(r, 0, -1) + 2) / 4
    } else if c_idx == 0 && n < 32 && y == 0 {
        (p_at(r, x, -1) + 3 * d + 2) / 4
    } else if c_idx == 0 && n < 32 && x == 0 {
        (p_at(r, -1, y) + 3 * d + 2) / 4
    } else {
        d
    }
}

/// The main reference of an angular mode, `ref[i]` for `i` in `0..=2n`:
/// the top row for vertical modes, the left column for horizontal ones.
pub open spec fn main_ref(r: Refs, vert: bool, i: int) -> int {
    if vert {
        p_at(r, i - 1, -1)
    } else {
        p_at(r, -1, i - 1)
    }
}

/// The side reference projected onto the main one for a negative angle.
pub open spec fn side_ref(r: Refs, vert: bool, i: int) -> int {
    if vert {
        p_at(r, -1, i - 1)
    } else {
        p_at(r, i - 1, -1)
    }
}

/// `ref[i]` of clause 8.4.4.2.6 for mode `mode`, and zero where the clause
/// leaves it undefined.
pub open spec fn ref_at(r: Refs, mode: int, i: int) -> int {
    let n = r.n as int;
    let a = ANG@[mode - 2] as int;
    let vert = mode >= 18;
    let lim = (n * a) / 32;
    if 0 <= i <= n {
        main_ref(r, vert, i)
    } else if a < 0 && lim < -1 && lim <= i <= -1 {
        side_ref(r, vert, (i * INV@[mode - 11] + 128) / 256)
    } else if a >= 0 && n + 1 <= i <= 2 * n {
        main_ref(r, vert, i)
    } else {
        0
    }
}

/// Angular prediction for modes 2 to 34, clause 8.4.4.2.6, before the
/// boundary filter.
pub open spec fn angular_raw(r: Refs, mode: int, x: int, y: int) -> int {
    let a = ANG@[mode - 2] as int;
    let vert = mode >= 18;
    let (m, k) = if vert {
        (y, x)
    } else {
        (x, y)
    };
    let t = (m + 1) * a;
    let (idx, f) = (t / 32, t % 32);
    if f == 0 {
        ref_at(r, mode, k + idx + 1)
    } else {
        ((32 - f) * ref_at(r, mode, k + idx + 1) + f * ref_at(r, mode, k + idx + 2) + 16) / 32
    }
}

/// `Clip1` to `0..=hi`.
pub open spec fn clip_to(v: int, hi: int) -> int {
    if v < 0 {
        0
    } else if v > hi {
        hi
    } else {
        v
    }
}

/// Angular prediction with the boundary filter the pure vertical and pure
/// horizontal luma modes apply below 32x32.
pub open spec fn angular_at(r: Refs, mode: int, c_idx: int, bd: int, x: int, y: int) -> int {
    let n = r.n as int;
    let hi = vstd::arithmetic::power2::pow2(bd as nat) - 1;
    let c = p_at(r, -1, -1);
    if c_idx == 0 && n < 32 && mode == 26 && x == 0 {
        clip_to(p_at(r, 0, -1) + (p_at(r, -1, y) - c) / 2, hi)
    } else if c_idx == 0 && n < 32 && mode == 10 && y == 0 {
        clip_to(p_at(r, -1, 0) + (p_at(r, x, -1) - c) / 2, hi)
    } else {
        angular_raw(r, mode, x, y)
    }
}

/// `predSamples[x][y]` of clauses 8.4.4.2.5 and 8.4.4.2.6: planar for mode
/// 0, angular for 2 to 34, DC otherwise.
pub open spec fn pred_at(r: Refs, mode: u8, c_idx: usize, bd: u8, x: int, y: int) -> int {
    if mode == 0 {
        planar_at(r, x, y)
    } else if 2 <= mode <= 34 {
        angular_at(r, mode as int, c_idx as int, bd as int, x, y)
    } else {
        dc_at(r, c_idx as int, x, y)
    }
}

/// Whether entry `k` of an output `st` wide is in the `n` by `n` block.
pub open spec fn in_block(k: int, st: int, n: int) -> bool {
    st > 0 && k % st < n && k / st < n
}

/// Entry `k` of the output after predicting an `n` by `n` block.
pub open spec fn predicted(r: Refs, mode: u8, c_idx: usize, bd: u8, st: int, old: Seq<u16>, k: int) -> u16 {
    if in_block(k, st, r.n as int) {
        pred_at(r, mode, c_idx, bd, k % st, k / st) as u16
    } else {
        old[k]
    }
}

/// The entries of an output `st` wide before `(x, y)` in raster order that
/// lie in the `n` by `n` block hold `f`; the rest hold `old`.
pub open spec fn block_upto(f: spec_fn(int, int) -> u16, st: int, n: int, old: Seq<u16>, cur: Seq<u16>, x: int, y: int) -> bool {
    &&& cur.len() == old.len()
    &&& forall|k: int|
        0 <= k < old.len() ==> #[trigger] cur[k] == if in_block(k, st, n) && (k / st < y || (k / st == y
            && k % st < x)) {
            f(k % st, k / st)
        } else {
            old[k]
        }
}

/// Writing `f(x, y)` at `(x, y)` moves the fill on by one sample.
proof fn lemma_block_step(
    f: spec_fn(int, int) -> u16,
    st: int,
    n: int,
    old: Seq<u16>,
    cur: Seq<u16>,
    x: int,
    y: int,
)
    requires
        0 <= x < n,
        0 <= y < n,
        n <= st,
        y * st + x < old.len(),
        block_upto(f, st, n, old, cur, x, y),
    ensures
        block_upto(f, st, n, old, cur.update(y * st + x, f(x, y)), x + 1, y),
{
    let idx = y * st + x;
    vstd::arithmetic::div_mod::lemma_fundamental_div_mod_converse(idx, st, y, x);
    let next = cur.update(idx, f(x, y));
    assert forall|k: int| 0 <= k < old.len() implies #[trigger] next[k] == if in_block(k, st, n) && (k / st < y || (k
        / st == y && k % st < x + 1)) {
        f(k % st, k / st)
    } else {
        old[k]
    } by {
        if k != idx && k / st == y && k % st == x {
            vstd::arithmetic::div_mod::lemma_fundamental_div_mod(k, st);
            assert(st * y == y * st) by (nonlinear_arith);
            assert(false);
        }
    }
}

/// A finished row moves the fill to the next row.
proof fn lemma_block_row(f: spec_fn(int, int) -> u16, st: int, n: int, old: Seq<u16>, cur: Seq<u16>, y: int)
    requires
        block_upto(f, st, n, old, cur, n, y),
    ensures
        block_upto(f, st, n, old, cur, 0, y + 1),
{
}

/// A finished block is filled with `f`.
proof fn lemma_block_done(f: spec_fn(int, int) -> u16, st: int, n: int, old: Seq<u16>, cur: Seq<u16>)
    requires
        block_upto(f, st, n, old, cur, 0, n),
    ensures
        forall|k: int|
            0 <= k < old.len() ==> #[trigger] cur[k] == if in_block(k, st, n) {
                f(k % st, k / st)
            } else {
                old[k]
            },
{
}

/// The last entry of an `n` by `n` block at stride `st` lies in the output.
proof fn lemma_block_index(x: int, y: int, n: int, st: int, len: int)
    requires
        0 <= x < n,
        0 <= y < n,
        n <= st,
        (n - 1) * st + n <= len,
    ensures
        0 <= y * st + x < len,
{
    assert(y * st <= (n - 1) * st) by (nonlinear_arith)
        requires
            0 <= y <= n - 1,
            0 <= st,
    ;
}

/// `log2(n) + 1` for a block size: the shift that divides by `2n`.
fn block_shift(n: usize) -> (r: u32)
    requires
        block_size(n as int),
    ensures
        vstd::arithmetic::power2::pow2(r as nat) == 2 * n,
        3 <= r <= 6,
{
    proof {
        vstd::arithmetic::power2::lemma2_to64();
    }
    if n == 4 {
        3
    } else if n == 8 {
        4
    } else if n == 16 {
        5
    } else {
        6
    }
}

/// Shifting right by `log2(n) + 1` divides by `2n`.
proof fn lemma_div_2n(v: u32, sh: u32, n: int)
    requires
        vstd::arithmetic::power2::pow2(sh as nat) == 2 * n,
        sh < 32,
    ensures
        (v >> sh) as int == v as int / (2 * n),
{
    vstd::bits::lemma_u32_shr_is_div(v, sh);
}

/// Planar prediction, clause 8.4.4.2.5.
fn planar(r: &Refs, out: &mut [u16], st: usize)
    requires
        block_size(r.n as int),
        r.n <= st,
        (r.n - 1) * st + r.n <= old(out)@.len(),
    ensures
        final(out)@.len() == old(out)@.len(),
        forall|k: int|
            0 <= k < old(out)@.len() ==> #[trigger] final(out)@[k] == if in_block(k, st as int, r.n as int) {
                planar_at(*r, k % (st as int), k / (st as int)) as u16
            } else {
                old(out)@[k]
            },
{
    let ghost f = |x: int, y: int| planar_at(*r, x, y) as u16;
    let ghost o0 = out@;
    let n = r.n;
    let sh = block_shift(n);
    let tn = r.top(n as isize) as u32;
    let ln = r.left(n as isize) as u32;
    let len = out.len();
    let mut y: usize = 0;
    while y < n
        invariant
            n == r.n,
            block_size(n as int),
            n <= st,
            (n - 1) * st + n <= len,
            len == o0.len(),
            vstd::arithmetic::power2::pow2(sh as nat) == 2 * n,
            sh < 32,
            tn == r.top_of(n as int),
            ln == r.left_of(n as int),
            y <= n,
            f == (|x: int, y: int| planar_at(*r, x, y) as u16),
            block_upto(f, st as int, n as int, o0, out@, 0, y as int),
        decreases n - y,
    {
        let l = r.left(y as isize) as u32;
        let mut x: usize = 0;
        while x < n
            invariant
                n == r.n,
                block_size(n as int),
                n <= st,
                (n - 1) * st + n <= len,
                len == o0.len(),
                vstd::arithmetic::power2::pow2(sh as nat) == 2 * n,
                sh < 32,
                tn == r.top_of(n as int),
                ln == r.left_of(n as int),
                l == r.left_of(y as int),
                y < n,
                x <= n,
                f == (|x: int, y: int| planar_at(*r, x, y) as u16),
                block_upto(f, st as int, n as int, o0, out@, x as int, y as int),
            decreases n - x,
        {
            let t = r.top(x as isize) as u32;
            proof {
                assert((n - 1 - x) * l <= 32 * 0xffff && (x + 1) * tn <= 32 * 0xffff && (n - 1 - y) * t
                    <= 32 * 0xffff && (y + 1) * ln <= 32 * 0xffff) by (nonlinear_arith)
                    requires
                        x < n <= 32,
                        y < n,
                        l <= 0xffff,
                        tn <= 0xffff,
                        t <= 0xffff,
                        ln <= 0xffff,
                ;
                lemma_block_index(x as int, y as int, n as int, st as int, len as int);
            }
            let v = ((n as u32 - 1 - x as u32) * l + (x as u32 + 1) * tn + (n as u32 - 1 - y as u32) * t + (y as u32
                + 1) * ln + n as u32);
            proof {
                lemma_div_2n(v, sh, n as int);
                assert(v <= 2 * n * 0xffff + n) by (nonlinear_arith)
                    requires
                        v == (n - 1 - x) * l + (x + 1) * tn + (n - 1 - y) * t + (y + 1) * ln + n,
                        x < n,
                        y < n,
                        l <= 0xffff,
                        tn <= 0xffff,
                        t <= 0xffff,
                        ln <= 0xffff,
                ;
                assert(v as int / (2 * n) <= 0xffff) by (nonlinear_arith)
                    requires
                        v <= 2 * n * 0xffff + n,
                        n >= 1,
                ;
                assert((v >> sh) as int == planar_at(*r, x as int, y as int));
                assert(f(x as int, y as int) == (v >> sh) as u16);
                lemma_block_step(f, st as int, n as int, o0, out@, x as int, y as int);
            }
            out[y * st + x] = (v >> sh) as u16;
            x += 1;
        }
        proof {
            lemma_block_row(f, st as int, n as int, o0, out@, y as int);
        }
        y += 1;
    }
    proof {
        lemma_block_done(f, st as int, n as int, o0, out@);
    }
}

/// `dcVal`, from the sum of the top and left references.
fn dc_val(r: &Refs) -> (d: u32)
    requires
        block_size(r.n as int),
    ensures
        d == dc_value(*r),
        d <= 0xffff,
{
    let n = r.n;
    let sh = block_shift(n);
    let mut sum: u32 = n as u32;
    let mut i: usize = 0;
    while i < n
        invariant
            n == r.n,
            block_size(n as int),
            i <= n,
            sum == n + edge_sum(*r, i as int),
            sum <= n + i * 2 * 0xffff,
        decreases n - i,
    {
        let t = r.top(i as isize) as u32;
        let l = r.left(i as isize) as u32;
        sum = sum + t + l;
        i += 1;
    }
    proof {
        lemma_div_2n(sum, sh, n as int);
        assert(sum as int / (2 * n) <= 0xffff) by (nonlinear_arith)
            requires
                sum <= n + n * 2 * 0xffff,
                n >= 1,
        ;
    }
    sum >> sh
}

/// DC prediction with the luma boundary smoothing, clause 8.4.4.2.6.
fn dc(r: &Refs, c_idx: usize, out: &mut [u16], st: usize)
    requires
        block_size(r.n as int),
        r.n <= st,
        (r.n - 1) * st + r.n <= old(out)@.len(),
    ensures
        final(out)@.len() == old(out)@.len(),
        forall|k: int|
            0 <= k < old(out)@.len() ==> #[trigger] final(out)@[k] == if in_block(k, st as int, r.n as int) {
                dc_at(*r, c_idx as int, k % (st as int), k / (st as int)) as u16
            } else {
                old(out)@[k]
            },
{
    let ghost f = |x: int, y: int| dc_at(*r, c_idx as int, x, y) as u16;
    let ghost o0 = out@;
    let n = r.n;
    let d = dc_val(r);
    let smooth = c_idx == 0 && n < 32;
    let len = out.len();
    let mut y: usize = 0;
    while y < n
        invariant
            n == r.n,
            block_size(n as int),
            n <= st,
            (n - 1) * st + n <= len,
            len == o0.len(),
            d == dc_value(*r),
            d <= 0xffff,
            smooth == (c_idx == 0 && n < 32),
            y <= n,
            f == (|x: int, y: int| dc_at(*r, c_idx as int, x, y) as u16),
            block_upto(f, st as int, n as int, o0, out@, 0, y as int),
        decreases n - y,
    {
        let mut x: usize = 0;
        while x < n
            invariant
                n == r.n,
                block_size(n as int),
                n <= st,
                (n - 1) * st + n <= len,
                len == o0.len(),
                d == dc_value(*r),
                d <= 0xffff,
                smooth == (c_idx == 0 && n < 32),
                y < n,
                x <= n,
                f == (|x: int, y: int| dc_at(*r, c_idx as int, x, y) as u16),
                block_upto(f, st as int, n as int, o0, out@, x as int, y as int),
            decreases n - x,
        {
            let v: u32 = if smooth && x == 0 && y == 0 {
                (r.left(0) as u32 + 2 * d + r.top(0) as u32 + 2) >> 2
            } else if smooth && y == 0 {
                (r.top(x as isize) as u32 + 3 * d + 2) >> 2
            } else if smooth && x == 0 {
                (r.left(y as isize) as u32 + 3 * d + 2) >> 2
            } else {
                d
            };
            proof {
                vstd::arithmetic::power2::lemma2_to64();
                vstd::bits::lemma_u32_shr_is_div((r.left_of(0) as u32 + 2 * d + r.top_of(0) as u32 + 2) as u32, 2);
                vstd::bits::lemma_u32_shr_is_div((r.top_of(x as int) as u32 + 3 * d + 2) as u32, 2);
                vstd::bits::lemma_u32_shr_is_div((r.left_of(y as int) as u32 + 3 * d + 2) as u32, 2);
                assert(v as int == dc_at(*r, c_idx as int, x as int, y as int));
                assert(v <= 0xffff);
                assert(f(x as int, y as int) == v as u16);
                lemma_block_index(x as int, y as int, n as int, st as int, len as int);
                lemma_block_step(f, st as int, n as int, o0, out@, x as int, y as int);
            }
            out[y * st + x] = v as u16;
            x += 1;
        }
        proof {
            lemma_block_row(f, st as int, n as int, o0, out@, y as int);
        }
        y += 1;
    }
    proof {
        lemma_block_done(f, st as int, n as int, o0, out@);
    }
}

/// Arithmetic shifts and the low-bit mask of an `i32` as floor division
/// and its remainder.
proof fn lemma_i32_shifts(v: i32)
    ensures
        (v >> 1u32) == v as int / 2,
        (v >> 5u32) == v as int / 32,
        (v & 31i32) == v as int % 32,
        (v >> 8u32) == v as int / 256,
{
    assert((v >> 1u32) as int == v as int / 2 && (v >> 5u32) as int == v as int / 32 && (v & 31i32) as int
        == v as int % 32 && (v >> 8u32) as int == v as int / 256) by (bit_vector);
}

/// The side reference an angular mode with a negative angle projects lies
/// within the references: its index `(x * invAngle + 128) >> 8` is between
/// zero and `2n`.
proof fn lemma_side_index(n: i32, a: i32, inv: i32, x: i32)
    requires
        n == 4 || n == 8 || n == 16 || n == 32,
        (a == -2 && inv == -4096) || (a == -5 && inv == -1638) || (a == -9 && inv == -910) || (a == -13
            && inv == -630) || (a == -17 && inv == -482) || (a == -21 && inv == -390) || (a == -26 && inv
            == -315) || (a == -32 && inv == -256),
        (n * a) / 32 < -1,
        (n * a) / 32 <= x <= -1,
    ensures
        0 <= (x * inv + 128) / 256 <= 2 * n,
{
    assert(0 <= (x * inv + 128) / 256 <= 2 * n) by (nonlinear_arith)
        requires
            n == 4 || n == 8 || n == 16 || n == 32,
            (a == -2 && inv == -4096) || (a == -5 && inv == -1638) || (a == -9 && inv == -910) || (a
                == -13 && inv == -630) || (a == -17 && inv == -482) || (a == -21 && inv == -390) || (a
                == -26 && inv == -315) || (a == -32 && inv == -256),
            (n * a) / 32 <= x <= -1,
            (n * a) / 32 < -1,
    ;
}

/// The main reference for index `i`, read from the references.
fn main_at(r: &Refs, vert: bool, i: usize) -> (v: i32)
    requires
        block_size(r.n as int),
        i <= 2 * r.n,
    ensures
        v == main_ref(*r, vert, i as int),
        0 <= v <= 0xffff,
{
    if vert {
        r.top(i as isize - 1) as i32
    } else {
        r.left(i as isize - 1) as i32
    }
}

/// The side reference for index `i`, read from the references.
fn side_at(r: &Refs, vert: bool, i: i32) -> (v: i32)
    requires
        block_size(r.n as int),
        0 <= i <= 2 * r.n,
    ensures
        v == side_ref(*r, vert, i as int),
        0 <= v <= 0xffff,
{
    if vert {
        r.left(i as isize - 1) as i32
    } else {
        r.top(i as isize - 1) as i32
    }
}

/// `ref[i]` of an angular mode, at offset 32 of a 98-entry array.
fn build_refs(r: &Refs, mode: u8) -> (rf: [i32; 98])
    requires
        block_size(r.n as int),
        2 <= mode <= 34,
    ensures
        forall|j: int| 0 <= j < 98 ==> #[trigger] rf@[j] == ref_at(*r, mode as int, j - 32),
        forall|j: int| 0 <= j < 98 ==> 0 <= #[trigger] rf@[j] <= 0xffff,
{
    let n = r.n;
    let a = ANG[(mode - 2) as usize];
    let vert = mode >= 18;
    let mut rf = [0i32; 98];
    let mut i: usize = 0;
    while i <= n
        invariant
            n == r.n,
            block_size(n as int),
            i <= n + 1,
            forall|j: int| 0 <= j < 98 ==> #[trigger] rf@[j] == if 0 <= j - 32 < i {
                main_ref(*r, vert, j - 32)
            } else {
                0
            },
            forall|j: int| 0 <= j < 98 ==> 0 <= #[trigger] rf@[j] <= 0xffff,
        decreases n + 1 - i,
    {
        rf[32 + i] = main_at(r, vert, i);
        i += 1;
    }
    let ni = n as i32;
    proof {
        lemma_angles(mode as int);
    }
    let na = ni * a;
    proof {
        lemma_i32_shifts(na);
    }
    let lim = na >> 5;
    if a < 0 {
        if lim < -1 {
            let inv = INV[(mode - 11) as usize];
            proof {
                assert(11 <= mode <= 25);
            }
            let mut x: i32 = -1;
            while x >= lim
                invariant
                    n == r.n,
                    block_size(n as int),
                    ni == n,
                    a == ANG@[mode - 2],
                    a < 0,
                    11 <= mode <= 25,
                    inv == INV@[mode - 11],
                    lim == (ni * a) as int / 32,
                    lim < -1,
                    lim - 1 <= x <= -1,
                    vert == (mode >= 18),
                    forall|j: int| 0 <= j < 98 ==> #[trigger] rf@[j] == if 0 <= j - 32 <= n {
                        main_ref(*r, vert, j - 32)
                    } else if x < j - 32 <= -1 {
                        side_ref(*r, vert, ((j - 32) * inv + 128) / 256)
                    } else {
                        0
                    },
                    forall|j: int| 0 <= j < 98 ==> 0 <= #[trigger] rf@[j] <= 0xffff,
                decreases x - lim + 1,
            {
                proof {
                    lemma_side_index(ni, a, inv, x);
                }
                let xi = x * inv + 128;
                proof {
                    lemma_i32_shifts(xi);
                }
                let idx = xi >> 8;
                rf[(32 + x) as usize] = side_at(r, vert, idx);
                x -= 1;
            }
        }
    } else {
        let mut i: usize = n + 1;
        while i <= 2 * n
            invariant
                n == r.n,
                block_size(n as int),
                n + 1 <= i <= 2 * n + 1,
                a >= 0,
                forall|j: int| 0 <= j < 98 ==> #[trigger] rf@[j] == if 0 <= j - 32 < i {
                    main_ref(*r, vert, j - 32)
                } else {
                    0
                },
                forall|j: int| 0 <= j < 98 ==> 0 <= #[trigger] rf@[j] <= 0xffff,
            decreases 2 * n + 1 - i,
        {
            rf[32 + i] = main_at(r, vert, i);
            i += 1;
        }
    }
    rf
}

/// The angle table's range and sign, and the pairing of the negative angles
/// with their inverse angles.
proof fn lemma_angles(mode: int)
    requires
        2 <= mode <= 34,
    ensures
        -32 <= ANG@[mode - 2] <= 32,
        ANG@[mode - 2] < 0 <==> 11 <= mode <= 25,
        11 <= mode <= 25 ==> ({
            let (a, inv) = (ANG@[mode - 2], INV@[mode - 11]);
            (a == -2 && inv == -4096) || (a == -5 && inv == -1638) || (a == -9 && inv == -910) || (a
                == -13 && inv == -630) || (a == -17 && inv == -482) || (a == -21 && inv == -390) || (a
                == -26 && inv == -315) || (a == -32 && inv == -256)
        }),
{
    if mode == 2 {} else if mode == 3 {} else if mode == 4 {} else if mode == 5 {} else if mode == 6 {}
    else if mode == 7 {} else if mode == 8 {} else if mode == 9 {} else if mode == 10 {}
    else if mode == 11 {} else if mode == 12 {} else if mode == 13 {} else if mode == 14 {}
    else if mode == 15 {} else if mode == 16 {} else if mode == 17 {} else if mode == 18 {}
    else if mode == 19 {} else if mode == 20 {} else if mode == 21 {} else if mode == 22 {}
    else if mode == 23 {} else if mode == 24 {} else if mode == 25 {} else if mode == 26 {}
    else if mode == 27 {} else if mode == 28 {} else if mode == 29 {} else if mode == 30 {}
    else if mode == 31 {} else if mode == 32 {} else if mode == 33 {} else {}
}

/// One angular sample before the boundary filter, from the built reference.
fn angular_sample(r: &Refs, mode: u8, rf: &[i32; 98], x: usize, y: usize) -> (v: i32)
    requires
        block_size(r.n as int),
        2 <= mode <= 34,
        x < r.n,
        y < r.n,
        forall|j: int| 0 <= j < 98 ==> #[trigger] rf@[j] == ref_at(*r, mode as int, j - 32),
        forall|j: int| 0 <= j < 98 ==> 0 <= #[trigger] rf@[j] <= 0xffff,
    ensures
        v == angular_raw(*r, mode as int, x as int, y as int),
        0 <= v <= 0xffff,
{
    proof {
        lemma_angles(mode as int);
    }
    let n = r.n;
    let a = ANG[(mode - 2) as usize];
    let vert = mode >= 18;
    let (m, k) = if vert {
        (y, x)
    } else {
        (x, y)
    };
    proof {
        assert(-32 * n <= (m + 1) * a <= 32 * n) by (nonlinear_arith)
            requires
                m < n,
                -32 <= a <= 32,
        ;
    }
    let t = (m as i32 + 1) * a;
    proof {
        lemma_i32_shifts(t);
    }
    let idx = t >> 5;
    let f = t & 31;
    let b = (32 + k as i32 + idx + 1) as usize;
    let v0 = rf[b];
    if f == 0 {
        v0
    } else {
        let v1 = rf[b + 1];
        proof {
            assert(0 <= (32 - f) * v0 <= 32 * 0xffff && 0 <= f * v1 <= 32 * 0xffff) by (nonlinear_arith)
                requires
                    0 < f < 32,
                    0 <= v0 <= 0xffff,
                    0 <= v1 <= 0xffff,
            ;
        }
        let w = (32 - f) * v0 + f * v1 + 16;
        proof {
            lemma_i32_shifts(w);
            assert(w <= 32 * 0xffff + 16) by (nonlinear_arith)
                requires
                    w == (32 - f) * v0 + f * v1 + 16,
                    0 < f < 32,
                    0 <= v0 <= 0xffff,
                    0 <= v1 <= 0xffff,
            ;
            assert(w >= 0) by (nonlinear_arith)
                requires
                    w == (32 - f) * v0 + f * v1 + 16,
                    0 < f < 32,
                    0 <= v0,
                    0 <= v1,
            ;
        }
        w >> 5
    }
}

/// Angular prediction for modes 2 to 34, clause 8.4.4.2.6.
fn angular(r: &Refs, mode: u8, c_idx: usize, bd: u8, out: &mut [u16], st: usize)
    requires
        block_size(r.n as int),
        2 <= mode <= 34,
        r.n <= st,
        (r.n - 1) * st + r.n <= old(out)@.len(),
        c_idx == 0 && r.n < 32 && (mode == 26 || mode == 10) ==> bd <= 30,
    ensures
        final(out)@.len() == old(out)@.len(),
        forall|k: int|
            0 <= k < old(out)@.len() ==> #[trigger] final(out)@[k] == if in_block(k, st as int, r.n as int) {
                angular_at(*r, mode as int, c_idx as int, bd as int, k % (st as int), k / (st as int)) as u16
            } else {
                old(out)@[k]
            },
{
    let ghost f = |x: int, y: int| angular_at(*r, mode as int, c_idx as int, bd as int, x, y) as u16;
    let ghost o0 = out@;
    let n = r.n;
    let rf = build_refs(r, mode);
    let edge_fix = c_idx == 0 && n < 32 && (mode == 26 || mode == 10);
    let hi: i32 = if edge_fix {
        super::super::filter::sao::max_sample(bd)
    } else {
        0
    };
    let len = out.len();
    let mut y: usize = 0;
    while y < n
        invariant
            n == r.n,
            block_size(n as int),
            2 <= mode <= 34,
            n <= st,
            (n - 1) * st + n <= len,
            len == o0.len(),
            forall|j: int| 0 <= j < 98 ==> #[trigger] rf@[j] == ref_at(*r, mode as int, j - 32),
            forall|j: int| 0 <= j < 98 ==> 0 <= #[trigger] rf@[j] <= 0xffff,
            edge_fix == (c_idx == 0 && n < 32 && (mode == 26 || mode == 10)),
            edge_fix ==> hi == vstd::arithmetic::power2::pow2(bd as nat) - 1 && hi >= 0,
            y <= n,
            f == (|x: int, y: int| angular_at(*r, mode as int, c_idx as int, bd as int, x, y) as u16),
            block_upto(f, st as int, n as int, o0, out@, 0, y as int),
        decreases n - y,
    {
        let mut x: usize = 0;
        while x < n
            invariant
                n == r.n,
                block_size(n as int),
                2 <= mode <= 34,
                n <= st,
                (n - 1) * st + n <= len,
                len == o0.len(),
                forall|j: int| 0 <= j < 98 ==> #[trigger] rf@[j] == ref_at(*r, mode as int, j - 32),
                forall|j: int| 0 <= j < 98 ==> 0 <= #[trigger] rf@[j] <= 0xffff,
                edge_fix == (c_idx == 0 && n < 32 && (mode == 26 || mode == 10)),
                edge_fix ==> hi == vstd::arithmetic::power2::pow2(bd as nat) - 1 && hi >= 0,
                y < n,
                x <= n,
                f == (|x: int, y: int| angular_at(*r, mode as int, c_idx as int, bd as int, x, y) as u16),
                block_upto(f, st as int, n as int, o0, out@, x as int, y as int),
            decreases n - x,
        {
            let v: i32 = if edge_fix && mode == 26 && x == 0 {
                let c = r.top(-1) as i32;
                let dlt = r.left(y as isize) as i32 - c;
                proof {
                    lemma_i32_shifts(dlt);
                }
                let u = r.top(0) as i32 + (dlt >> 1);
                if u < 0 {
                    0
                } else if u > hi {
                    hi
                } else {
                    u
                }
            } else if edge_fix && mode == 10 && y == 0 {
                let c = r.top(-1) as i32;
                let dlt = r.top(x as isize) as i32 - c;
                proof {
                    lemma_i32_shifts(dlt);
                }
                let u = r.left(0) as i32 + (dlt >> 1);
                if u < 0 {
                    0
                } else if u > hi {
                    hi
                } else {
                    u
                }
            } else {
                angular_sample(r, mode, &rf, x, y)
            };
            proof {
                assert(v as int == angular_at(*r, mode as int, c_idx as int, bd as int, x as int, y as int));
                assert(f(x as int, y as int) == v as u16);
                lemma_block_index(x as int, y as int, n as int, st as int, len as int);
                lemma_block_step(f, st as int, n as int, o0, out@, x as int, y as int);
            }
            out[y * st + x] = v as u16;
            x += 1;
        }
        proof {
            lemma_block_row(f, st as int, n as int, o0, out@, y as int);
        }
        y += 1;
    }
    proof {
        lemma_block_done(f, st as int, n as int, o0, out@);
    }
}

/// Produces the nTbS x nTbS prediction block (clauses 8.4.4.2.5 to 8.4.4.2.6).
///
/// `out` receives predSamples[x][y] at `out[y * out_stride + x]`. It is left
/// untouched when `r.n` is not 4, 8, 16 or 32.
pub fn predict(r: &Refs, mode: u8, c_idx: usize, bit_depth: u8, out: &mut [u16], out_stride: usize)
    requires
        block_size(r.n as int) ==> r.n <= out_stride && (r.n - 1) * out_stride + r.n <= old(out)@.len(),
        block_size(r.n as int) && c_idx == 0 && r.n < 32 && (mode == 26 || mode == 10) ==> bit_depth <= 30,
    ensures
        final(out)@.len() == old(out)@.len(),
        forall|k: int|
            0 <= k < old(out)@.len() ==> #[trigger] final(out)@[k] == if block_size(r.n as int) {
                predicted(*r, mode, c_idx, bit_depth, out_stride as int, old(out)@, k)
            } else {
                old(out)@[k]
            },
{
    let n = r.n;
    if !(n == 4 || n == 8 || n == 16 || n == 32) {
        return;
    }
    if mode == 0 {
        planar(r, out, out_stride);
    } else if 2 <= mode && mode <= 34 {
        angular(r, mode, c_idx, bit_depth, out, out_stride);
    } else {
        dc(r, c_idx, out, out_stride);
    }
}

/// The first `k` top and left references add up to `2 * k * v` when all
/// of them are `v`.
proof fn lemma_edge_sum_flat(r: Refs, v: u16, k: int)
    requires
        block_size(r.n as int),
        0 <= k <= r.n,
        forall|j: int| 0 <= j < 4 * r.n + 1 ==> #[trigger] r.buf@[j] == v,
    ensures
        edge_sum(r, k) == 2 * k * v,
    decreases k,
{
    if k > 0 {
        lemma_edge_sum_flat(r, v, k - 1);
        assert(r.top_of(k - 1) == v && r.left_of(k - 1) == v);
        assert(2 * (k - 1) * v + 2 * v == 2 * k * v) by (nonlinear_arith);
    }
}

/// A flat neighbourhood predicts a flat block: with every meaningful
/// reference sample equal to `v`, planar and DC prediction give `v` at every
/// position of the block, the DC boundary smoothing included.
pub proof fn lemma_flat_prediction(r: Refs, mode: u8, c_idx: usize, bd: u8, v: u16, x: int, y: int)
    requires
        block_size(r.n as int),
        mode < 2 || mode > 34,
        0 <= x < r.n,
        0 <= y < r.n,
        forall|j: int| 0 <= j < 4 * r.n + 1 ==> #[trigger] r.buf@[j] == v,
    ensures
        pred_at(r, mode, c_idx, bd, x, y) == v,
{
    let n = r.n as int;
    if mode == 0 {
        assert(r.left_of(y) == v && r.top_of(n) == v && r.top_of(x) == v && r.left_of(n) == v);
        assert(((n - 1 - x) * v + (x + 1) * v + (n - 1 - y) * v + (y + 1) * v + n) / (2 * n) == v)
            by (nonlinear_arith)
            requires
                n >= 4,
        ;
    } else {
        lemma_edge_sum_flat(r, v, n);
        assert((2 * n * v + n) / (2 * n) == v) by (nonlinear_arith)
            requires
                n >= 4,
        ;
        assert(r.left_of(0) == v && r.top_of(0) == v && r.left_of(y) == v && r.top_of(x) == v);
    }
}

/// The pure vertical mode 26 copies the top edge down the block and the
/// pure horizontal mode 10 copies the left edge across it, except where the
/// luma boundary filter of blocks below 32x32 applies (the first column for
/// vertical, the first row for horizontal).
pub proof fn lemma_pure_directions_copy_the_edge(r: Refs, c_idx: usize, bd: u8, x: int, y: int)
    requires
        block_size(r.n as int),
        0 <= x < r.n,
        0 <= y < r.n,
    ensures
        !(c_idx == 0 && r.n < 32 && x == 0) ==> pred_at(r, 26, c_idx, bd, x, y) == r.top_of(x),
        !(c_idx == 0 && r.n < 32 && y == 0) ==> pred_at(r, 10, c_idx, bd, x, y) == r.left_of(y),
{
    assert(ANG@[24] == 0 && ANG@[8] == 0);
    assert((y + 1) * 0 == 0 && (x + 1) * 0 == 0);
    assert(ref_at(r, 26, x + 1) == r.top_of(x));
    assert(ref_at(r, 10, y + 1) == r.left_of(y));
    assert(angular_raw(r, 26, x, y) == r.top_of(x));
    assert(angular_raw(r, 10, x, y) == r.left_of(y));
}

} // verus!
