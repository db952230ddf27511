//! Tile geometry and the raster, tile and z-scan address conversions (6.5).

use vstd::prelude::*;

use crate::hevc::error::{Error, Result};
use crate::hevc::ps::{Pps, Sps, ceil_pow2, div_ceil_pow2};
use vstd::arithmetic::power2::pow2;

verus! {

/// The sum of the first `k` entries of `s`.
pub open spec fn seq_sum(s: Seq<usize>, k: int) -> int
    decreases k,
{
    if k <= 0 {
        0
    } else {
        seq_sum(s, k - 1) + s[k - 1]
    }
}

/// The uniform split of `total` into `n` parts of clause 6.5.1: part `i` is
/// `((i + 1) * total) / n - (i * total) / n`.
pub open spec fn uniform_part(total: int, n: int, i: int) -> int {
    ((i + 1) * total) / n - (i * total) / n
}

/// `colWidth` or `rowHeight` of clause 6.5.1 before the zero-size check:
/// uniform parts, or the signalled sizes completed by what remains, when
/// the list has one entry per part but the last and leaves a remainder.
pub open spec fn split_of(total: usize, n: usize, uniform: bool, explicit: Seq<usize>) -> Option<Seq<usize>> {
    if uniform {
        Some(Seq::new(n as nat, |i: int| uniform_part(total as int, n as int, i) as usize))
    } else if explicit.len() + 1 != n {
        None
    } else if seq_sum(explicit, explicit.len() as int) >= total {
        None
    } else {
        Some(explicit.push((total - seq_sum(explicit, explicit.len() as int)) as usize))
    }
}

/// `colWidth` or `rowHeight` of clause 6.5.1: the split, unless a part is
/// empty.
pub open spec fn spacing_of(total: usize, n: usize, uniform: bool, explicit: Seq<usize>) -> Option<Seq<usize>> {
    match split_of(total, n, uniform, explicit) {
        None => None,
        Some(s) => if s.contains(0) {
            None
        } else {
            Some(s)
        },
    }
}

/// The uniform parts are never negative, and the first `k` add up to
/// `(k * total) / n`, so all `n` add up to the whole.
proof fn lemma_uniform_parts(total: int, n: int, k: int)
    requires
        total >= 0,
        n >= 1,
        n * total <= usize::MAX,
        0 <= k <= n,
    ensures
        forall|i: int| 0 <= i < n ==> 0 <= #[trigger] uniform_part(total, n, i) <= usize::MAX,
        (k * total) / n == seq_sum(Seq::new(n as nat, |i: int| uniform_part(total, n, i) as usize), k),
    decreases k,
{
    assert forall|i: int| 0 <= i < n implies 0 <= #[trigger] uniform_part(total, n, i) <= usize::MAX by {
        assert(0 <= i * total <= (i + 1) * total <= n * total) by (nonlinear_arith)
            requires
                total >= 0,
                0 <= i < n,
        ;
        vstd::arithmetic::div_mod::lemma_div_is_ordered(i * total, (i + 1) * total, n);
        vstd::arithmetic::div_mod::lemma_div_pos_is_pos(i * total, n);
        vstd::arithmetic::div_mod::lemma_div_is_ordered((i + 1) * total, n * total, n);
        vstd::arithmetic::div_mod::lemma_div_multiples_vanish(total, n);
    }
    if k > 0 {
        lemma_uniform_parts(total, n, k - 1);
    } else {
        assert((0 * total) / n == 0) by (nonlinear_arith)
            requires
                n >= 1,
        ;
    }
}

/// Derives `colWidth` / `rowHeight` (clause 6.5.1).
fn spacing(total: usize, n: usize, uniform: bool, explicit: &[usize]) -> (r: Result<Vec<usize>>)
    requires
        uniform ==> n * total <= usize::MAX,
        !uniform && explicit@.len() + 1 == n ==> seq_sum(explicit@, explicit@.len() as int) <= usize::MAX,
    ensures
        r matches Ok(v) ==> spacing_of(total, n, uniform, explicit@) == Some(v@),
        r is Err ==> spacing_of(total, n, uniform, explicit@) is None,
        r matches Err(e) ==> e is InvalidData,
{
    let mut out: Vec<usize> = Vec::new();
    if uniform {
        let mut i: usize = 0;
        while i < n
            invariant
                i <= n,
                n * total <= usize::MAX,
                uniform,
                out@ =~= Seq::new(i as nat, |j: int| uniform_part(total as int, n as int, j) as usize),
            decreases n - i,
        {
            proof {
                assert((i + 1) * total <= n * total && i * total <= (i + 1) * total) by (nonlinear_arith)
                    requires
                        i < n,
                ;
                lemma_uniform_parts(total as int, n as int, 0);
                assert(0 <= uniform_part(total as int, n as int, i as int));
            }
            out.push(((i + 1) * total) / n - (i * total) / n);
            i += 1;
        }
    } else {
        if n == 0 || explicit.len() != n - 1 {
            return Err(Error::InvalidData("tile spacing list has the wrong length"));
        }
        let mut used: usize = 0;
        let mut i: usize = 0;
        while i < explicit.len()
            invariant
                i <= explicit@.len(),
                explicit@.len() + 1 == n,
                seq_sum(explicit@, explicit@.len() as int) <= usize::MAX,
                used == seq_sum(explicit@, i as int),
                out@ == explicit@.subrange(0, i as int),
            decreases explicit@.len() - i,
        {
            proof {
                lemma_sum_monotone(explicit@, i + 1, explicit@.len() as int);
            }
            out.push(explicit[i]);
            used += explicit[i];
            i += 1;
        }
        if used >= total {
            return Err(Error::InvalidData("explicit tile spacing exceeds the picture"));
        }
        out.push(total - used);
        proof {
            assert(explicit@.subrange(0, explicit@.len() as int) =~= explicit@);
        }
    }
    proof {
        assert(split_of(total, n, uniform, explicit@) == Some(out@));
    }
    let ghost split = out@;
    let mut k: usize = 0;
    while k < out.len()
        invariant
            k <= out@.len(),
            out@ == split,
            split_of(total, n, uniform, explicit@) == Some(split),
            forall|j: int| 0 <= j < k ==> #[trigger] split[j] != 0,
        decreases out@.len() - k,
    {
        if out[k] == 0 {
            proof {
                assert(split[k as int] == 0);
                assert(split.contains(0));
            }
            return Err(Error::InvalidData("zero-sized tile"));
        }
        k += 1;
    }
    Ok(out)
}

/// Partial sums of sizes grow with the number of terms.
proof fn lemma_sum_monotone(s: Seq<usize>, a: int, b: int)
    requires
        0 <= a <= b <= s.len(),
    ensures
        seq_sum(s, a) <= seq_sum(s, b),
    decreases b - a,
{
    if a < b {
        lemma_sum_monotone(s, a, b - 1);
    }
}

/// The tile column (or row) holding CTB column `t`: the last `i` below
/// `k + 1` whose boundary `seq_sum(w, i)` is at or before `t`, and 0 if none.
pub open spec fn tile_index(w: Seq<usize>, k: int, t: int) -> int
    decreases k,
{
    if k <= 0 {
        0
    } else if t >= seq_sum(w, k) {
        k
    } else {
        tile_index(w, k - 1, t)
    }
}

/// `CtbAddrRsToTs` of clause 6.5.1 for raster address `rs`: the CTBs of
/// earlier tile rows, then of earlier tiles of this tile row, then the
/// position inside the tile in raster order.
pub open spec fn ts_at(cw: Seq<usize>, rh: Seq<usize>, w: int, rs: int) -> int {
    let (tbx, tby) = (rs % w, rs / w);
    let tx = tile_index(cw, cw.len() - 1, tbx);
    let ty = tile_index(rh, rh.len() - 1, tby);
    w * seq_sum(rh, ty) + rh[ty] * seq_sum(cw, tx) + (tby - seq_sum(rh, ty)) * cw[tx] + tbx - seq_sum(cw, tx)
}

/// `TileId` of clause 6.5.1 for raster address `rs`: tiles are numbered in
/// raster order.
pub open spec fn tile_at(cw: Seq<usize>, rh: Seq<usize>, w: int, rs: int) -> int {
    let (tbx, tby) = (rs % w, rs / w);
    tile_index(rh, rh.len() - 1, tby) * cw.len() + tile_index(cw, cw.len() - 1, tbx)
}

/// Sizes are positive and add up to `total`.
pub open spec fn partition(w: Seq<usize>, total: int) -> bool {
    &&& w.len() >= 1
    &&& seq_sum(w, w.len() as int) == total
    &&& forall|i: int| 0 <= i < w.len() ==> #[trigger] w[i] > 0
}

/// A position below the total lies in the part `tile_index` names.
proof fn lemma_tile_index(w: Seq<usize>, total: int, k: int, t: int)
    requires
        partition(w, total),
        0 <= k < w.len(),
        0 <= t < seq_sum(w, k + 1),
    ensures
        0 <= tile_index(w, k, t) <= k,
        seq_sum(w, tile_index(w, k, t)) <= t < seq_sum(w, tile_index(w, k, t) + 1),
    decreases k,
{
    if k > 0 && t < seq_sum(w, k) {
        lemma_tile_index(w, total, k - 1, t);
    }
}

/// Partial sums of positive sizes strictly grow.
proof fn lemma_sum_strict(w: Seq<usize>, a: int, b: int)
    requires
        0 <= a < b <= w.len(),
        forall|i: int| 0 <= i < w.len() ==> #[trigger] w[i] > 0,
    ensures
        seq_sum(w, a) < seq_sum(w, b),
    decreases b - a,
{
    if a + 1 < b {
        lemma_sum_strict(w, a, b - 1);
    }
}

/// A raster address lands in a tile, inside it, and its tile-scan address
/// lies between the CTBs of the tiles before and those of the tiles after.
proof fn lemma_ts_range(cw: Seq<usize>, rh: Seq<usize>, w: int, h: int, rs: int)
    requires
        partition(cw, w),
        partition(rh, h),
        0 <= rs < w * h,
    ensures
        ({
            let (tbx, tby) = (rs % w, rs / w);
            let tx = tile_index(cw, cw.len() - 1, tbx);
            let ty = tile_index(rh, rh.len() - 1, tby);
            let base = w * seq_sum(rh, ty) + rh[ty] * seq_sum(cw, tx);
            &&& 0 <= tx < cw.len()
            &&& 0 <= ty < rh.len()
            &&& seq_sum(cw, tx) <= tbx < seq_sum(cw, tx + 1)
            &&& seq_sum(rh, ty) <= tby < seq_sum(rh, ty + 1)
            &&& base <= ts_at(cw, rh, w, rs) < base + rh[ty] * cw[tx]
            &&& base + rh[ty] * cw[tx] <= w * h
            &&& 0 <= base
            &&& 0 <= ts_at(cw, rh, w, rs) < w * h
        }),
{
    let (tbx, tby) = (rs % w, rs / w);
    lemma_sum_strict(cw, 0, cw.len() as int);
    lemma_sum_strict(rh, 0, rh.len() as int);
    vstd::arithmetic::div_mod::lemma_fundamental_div_mod(rs, w);
    assert(0 <= tby < h) by (nonlinear_arith)
        requires
            rs == w * tby + tbx,
            0 <= tbx < w,
            0 <= rs < w * h,
    ;
    lemma_tile_index(cw, w, cw.len() - 1, tbx);
    lemma_tile_index(rh, h, rh.len() - 1, tby);
    let tx = tile_index(cw, cw.len() - 1, tbx);
    let ty = tile_index(rh, rh.len() - 1, tby);
    let (cx, cy) = (seq_sum(cw, tx), seq_sum(rh, ty));
    let (wx, hy) = (cw[tx] as int, rh[ty] as int);
    lemma_sum_monotone(cw, 0, tx);
    lemma_sum_monotone(rh, 0, ty);
    assert(0 <= w * cy + hy * cx) by (nonlinear_arith)
        requires
            cx >= 0,
            cy >= 0,
            w >= 0,
            hy >= 0,
    ;
    lemma_sum_monotone(cw, tx + 1, cw.len() as int);
    lemma_sum_monotone(rh, ty + 1, rh.len() as int);
    let local = (tby - cy) * wx + tbx - cx;
    assert(0 <= local < hy * wx) by (nonlinear_arith)
        requires
            local == (tby - cy) * wx + tbx - cx,
            0 <= tby - cy < hy,
            0 <= tbx - cx < wx,
    ;
    assert(w * cy + hy * cx + hy * wx <= w * h) by (nonlinear_arith)
        requires
            cx + wx <= w,
            cy + hy <= h,
            hy >= 0,
            w >= 0,
    ;
}

/// Distinct raster addresses have distinct tile-scan addresses.
proof fn lemma_ts_injective(cw: Seq<usize>, rh: Seq<usize>, w: int, h: int, r1: int, r2: int)
    requires
        partition(cw, w),
        partition(rh, h),
        0 <= r1 < w * h,
        0 <= r2 < w * h,
        ts_at(cw, rh, w, r1) == ts_at(cw, rh, w, r2),
    ensures
        r1 == r2,
{
    lemma_ts_range(cw, rh, w, h, r1);
    lemma_ts_range(cw, rh, w, h, r2);
    lemma_sum_strict(cw, 0, cw.len() as int);
    let (x1, y1) = (r1 % w, r1 / w);
    let (x2, y2) = (r2 % w, r2 / w);
    let (tx1, ty1) = (tile_index(cw, cw.len() - 1, x1), tile_index(rh, rh.len() - 1, y1));
    let (tx2, ty2) = (tile_index(cw, cw.len() - 1, x2), tile_index(rh, rh.len() - 1, y2));
    if ty1 != ty2 || tx1 != tx2 {
        if ty1 < ty2 || (ty1 == ty2 && tx1 < tx2) {
            lemma_tile_order(cw, rh, w, h, tx1, ty1, tx2, ty2);
        } else {
            lemma_tile_order(cw, rh, w, h, tx2, ty2, tx1, ty1);
        }
    } else {
        let (cx, cy, wx) = (seq_sum(cw, tx1), seq_sum(rh, ty1), cw[tx1] as int);
        vstd::arithmetic::div_mod::lemma_fundamental_div_mod_converse(
            (y1 - cy) * wx + x1 - cx,
            wx,
            y1 - cy,
            x1 - cx,
        );
        vstd::arithmetic::div_mod::lemma_fundamental_div_mod_converse(
            (y2 - cy) * wx + x2 - cx,
            wx,
            y2 - cy,
            x2 - cx,
        );
        vstd::arithmetic::div_mod::lemma_fundamental_div_mod(r1, w);
        vstd::arithmetic::div_mod::lemma_fundamental_div_mod(r2, w);
    }
}

/// An earlier tile's CTBs all come before a later tile's in the tile scan.
proof fn lemma_tile_order(cw: Seq<usize>, rh: Seq<usize>, w: int, h: int, tx1: int, ty1: int, tx2: int, ty2: int)
    requires
        partition(cw, w),
        partition(rh, h),
        0 <= tx1 < cw.len(),
        0 <= tx2 < cw.len(),
        0 <= ty1 < rh.len(),
        0 <= ty2 < rh.len(),
        ty1 < ty2 || (ty1 == ty2 && tx1 < tx2),
    ensures
        w * seq_sum(rh, ty1) + rh[ty1] * seq_sum(cw, tx1) + rh[ty1] * cw[tx1] <= w * seq_sum(rh, ty2)
            + rh[ty2] * seq_sum(cw, tx2),
{
    lemma_sum_monotone(cw, tx1 + 1, cw.len() as int);
    lemma_sum_strict(cw, 0, cw.len() as int);
    let (c1, c1n) = (seq_sum(cw, tx1), seq_sum(cw, tx1 + 1));
    let (r1, r1n, r2) = (seq_sum(rh, ty1), seq_sum(rh, ty1 + 1), seq_sum(rh, ty2));
    let (h1, c2) = (rh[ty1] as int, seq_sum(cw, tx2));
    assert(c2 >= 0) by {
        lemma_sum_monotone(cw, 0, tx2);
    }
    if ty1 < ty2 {
        lemma_sum_monotone(rh, ty1 + 1, ty2);
        assert(w * r1 + h1 * c1 + h1 * cw[tx1] <= w * r2 + rh[ty2] * c2) by (nonlinear_arith)
            requires
                c1 + cw[tx1] == c1n,
                c1n <= w,
                r1 + h1 == r1n,
                r1n <= r2,
                h1 >= 0,
                c2 >= 0,
                rh[ty2] >= 0,
                w >= 0,
        ;
    } else {
        lemma_sum_monotone(cw, tx1 + 1, tx2);
        assert(h1 * c1 + h1 * cw[tx1] <= h1 * c2) by (nonlinear_arith)
            requires
                c1 + cw[tx1] == c1n,
                c1n <= c2,
                h1 >= 0,
        ;
    }
}

/// Adding an entry at the end leaves the earlier partial sums alone.
proof fn lemma_sum_push(s: Seq<usize>, v: usize, k: int)
    requires
        0 <= k <= s.len(),
    ensures
        seq_sum(s.push(v), k) == seq_sum(s, k),
    decreases k,
{
    if k > 0 {
        lemma_sum_push(s, v, k - 1);
    }
}

/// Accepted sizes split the whole.
proof fn lemma_spacing_partition(total: usize, n: usize, uniform: bool, explicit: Seq<usize>)
    requires
        n >= 1,
        uniform ==> n * total <= usize::MAX,
        spacing_of(total, n, uniform, explicit) is Some,
    ensures
        partition(spacing_of(total, n, uniform, explicit)->0, total as int),
        (spacing_of(total, n, uniform, explicit)->0).len() == n,
{
    let s = spacing_of(total, n, uniform, explicit)->0;
    if uniform {
        lemma_uniform_parts(total as int, n as int, n as int);
        vstd::arithmetic::div_mod::lemma_div_multiples_vanish(total as int, n as int);
        assert(s =~= Seq::new(n as nat, |i: int| uniform_part(total as int, n as int, i) as usize));
        assert(seq_sum(s, n as int) == total);
    } else {
        let used = seq_sum(explicit, explicit.len() as int);
        lemma_sum_push(explicit, (total - used) as usize, explicit.len() as int);
        assert(used < total);
        lemma_sum_monotone(explicit, 0, explicit.len() as int);
        assert(s =~= explicit.push((total - used) as usize));
        assert(s[explicit.len() as int] == total - used);
        assert(seq_sum(s, explicit.len() as int) == used);
        assert(seq_sum(s, n as int) == seq_sum(s, explicit.len() as int) + s[explicit.len() as int]);
        assert(seq_sum(s, n as int) == total);
    }
    assert forall|i: int| 0 <= i < s.len() implies #[trigger] s[i] > 0 by {
        if s[i] == 0 {
            assert(s.contains(0));
        }
    }
}

/// Every tile-scan address below the CTB count is reached: the scan is a
/// one-to-one map of the picture onto itself.
proof fn lemma_ts_onto(cw: Seq<usize>, rh: Seq<usize>, w: int, h: int, t: int)
    requires
        partition(cw, w),
        partition(rh, h),
        0 <= t < w * h,
    ensures
        exists|r: int| 0 <= r < w * h && ts_at(cw, rh, w, r) == t,
{
    let dom = vstd::set_lib::set_int_range(0, w * h);
    let f = |r: int| ts_at(cw, rh, w, r);
    vstd::set_lib::lemma_int_range(0, w * h);
    let img = dom.map(f);
    assert forall|a: int, b: int| dom.contains(a) && dom.contains(b) && #[trigger] f(a) == #[trigger] f(b) implies a == b by {
        lemma_ts_injective(cw, rh, w, h, a, b);
    }
    vstd::set_lib::lemma_map_size(dom, img, f);
    assert forall|u: int| img.contains(u) implies dom.contains(u) by {
        let r = choose|r: int| dom.contains(r) && u == f(r);
        lemma_ts_range(cw, rh, w, h, r);
    }
    vstd::set_lib::lemma_subset_equality(img, dom);
    assert(img.contains(t));
}

/// The interleaved low `n` bits of `x` and `y`, those of `x` in the even
/// places: the z-order of a block inside a square `2^n` blocks across.
pub open spec fn zinter(x: int, y: int, n: nat) -> int
    decreases n,
{
    if n == 0 {
        0
    } else {
        x % 2 + 2 * (y % 2) + 4 * zinter(x / 2, y / 2, (n - 1) as nat)
    }
}

/// `MinTbAddrZs` of clause 6.5.2 for the minimum transform block `(x, y)`,
/// where a coding tree block is `2^shift` of them across: the tile-scan
/// address of its CTB scaled by the blocks per CTB, plus its z-order
/// inside the CTB.
pub open spec fn zscan_at(cw: Seq<usize>, rh: Seq<usize>, w: int, shift: nat, x: int, y: int) -> int {
    let p = pow2(shift) as int;
    ts_at(cw, rh, w, w * (y / p) + x / p) * pow2(2 * shift) + zinter(x, y, shift)
}

/// The z-order of a block inside a square `2^n` blocks across is below the
/// block count.
proof fn lemma_zinter_bound(x: int, y: int, n: nat)
    requires
        x >= 0,
        y >= 0,
    ensures
        0 <= zinter(x, y, n) < pow2(2 * n),
    decreases n,
{
    vstd::arithmetic::power2::lemma2_to64();
    if n > 0 {
        lemma_zinter_bound(x / 2, y / 2, (n - 1) as nat);
        vstd::arithmetic::power2::lemma_pow2_adds(2, (2 * (n - 1)) as nat);
    }
}

/// A block inside the picture, counted in blocks `2^m` across, lies in a
/// coding tree block `2^(m + s)` across that is inside the picture too.
proof fn lemma_block_in_ctb(v: int, total: int, m: nat, s: nat)
    requires
        0 <= v < ceil_pow2(total, m),
        total >= 0,
    ensures
        0 <= v / (pow2(s) as int) < ceil_pow2(total, m + s),
{
    let (a, b) = (pow2(m) as int, pow2(s) as int);
    vstd::arithmetic::power2::lemma_pow2_pos(m);
    vstd::arithmetic::power2::lemma_pow2_pos(s);
    vstd::arithmetic::power2::lemma_pow2_adds(m, s);
    let c = a * b;
    assert(c > 0) by (nonlinear_arith)
        requires
            a > 0,
            b > 0,
            c == a * b,
    ;
    let (n1, q) = ((total + a - 1) / a, v / b);
    let n2 = (total + c - 1) / c;
    vstd::arithmetic::div_mod::lemma_fundamental_div_mod(total + a - 1, a);
    vstd::arithmetic::div_mod::lemma_fundamental_div_mod(v, b);
    vstd::arithmetic::div_mod::lemma_fundamental_div_mod(total + c - 1, c);
    vstd::arithmetic::div_mod::lemma_div_pos_is_pos(v, b);
    assert(a * v <= total - 1) by (nonlinear_arith)
        requires
            v < n1,
            total + a - 1 == a * n1 + (total + a - 1) % a,
            (total + a - 1) % a < a,
            a > 0,
    ;
    assert(q < n2) by (nonlinear_arith)
        requires
            a * v <= total - 1,
            v == b * q + v % b,
            v % b >= 0,
            c == a * b,
            a > 0,
            total + c - 1 == c * n2 + (total + c - 1) % c,
            (total + c - 1) % c < c,
    ;
}

/// Precomputed addressing tables for one picture.
#[derive(Debug)]
pub struct Geometry {
    /// `PicWidthInCtbsY`.
    pub w_ctbs: usize,
    /// `PicHeightInCtbsY`.
    pub h_ctbs: usize,
    /// `PicSizeInCtbsY`.
    pub size_ctbs: usize,
    /// `CtbLog2SizeY`.
    pub ctb_log2: usize,
    /// `colWidth[i]` in CTBs.
    pub col_width: Vec<usize>,
    /// `rowHeight[j]` in CTBs.
    pub row_height: Vec<usize>,
    /// `CtbAddrRsToTs[]`.
    pub rs_to_ts: Vec<u32>,
    /// `CtbAddrTsToRs[]`.
    pub ts_to_rs: Vec<u32>,
    /// `TileId[]`, indexed by CTB *raster* address.
    pub tile_id: Vec<u16>,
    /// `MinTbAddrZs[]`, indexed by `y * min_tb_w + x` in minimum transform blocks.
    pub zs: Vec<u32>,
    /// Picture width in minimum transform blocks.
    pub min_tb_w: usize,
    /// Picture height in minimum transform blocks.
    pub min_tb_h: usize,
    /// `MinTbLog2SizeY`.
    pub min_tb_log2: usize,
}

/// The tile layout a parameter set pair asks for is possible: no more
/// tile columns or rows than CTB columns or rows, and a column width and
/// a row height list that split the picture into non-empty tiles.
pub open spec fn layout_ok(sps: &Sps, pps: &Pps) -> bool {
    let w = ceil_pow2(sps.width as int, sps.log2_ctb as nat);
    let h = ceil_pow2(sps.height as int, sps.log2_ctb as nat);
    &&& pps.num_tile_cols <= w
    &&& pps.num_tile_rows <= h
    &&& spacing_of(w as usize, pps.num_tile_cols, pps.uniform_spacing, pps.column_widths@) is Some
    &&& spacing_of(h as usize, pps.num_tile_rows, pps.uniform_spacing, pps.row_heights@) is Some
}

/// The tables for a parameter set pair fit the integer types that hold
/// them: CTB and block counts in `usize`, z-scan addresses in `u32`, and
/// the sums that split the picture into tiles.
pub open spec fn geometry_fits(sps: &Sps, pps: &Pps) -> bool {
    let w = ceil_pow2(sps.width as int, sps.log2_ctb as nat);
    let h = ceil_pow2(sps.height as int, sps.log2_ctb as nat);
    let bw = ceil_pow2(sps.width as int, sps.log2_min_tb as nat);
    let bh = ceil_pow2(sps.height as int, sps.log2_min_tb as nat);
    let shift = (sps.log2_ctb - sps.log2_min_tb) as nat;
    let (cols, rows) = (pps.num_tile_cols as int, pps.num_tile_rows as int);
    let (cl, rl) = (pps.column_widths@, pps.row_heights@);
    &&& w * h <= usize::MAX
    &&& w * h * pow2(2 * shift) <= u32::MAX + 1
    &&& bw * bh <= usize::MAX
    &&& pps.uniform_spacing && cols <= w ==> cols * w <= usize::MAX
    &&& pps.uniform_spacing && rows <= h ==> rows * h <= usize::MAX
    &&& !pps.uniform_spacing && cl.len() + 1 == cols ==> seq_sum(cl, cl.len() as int) <= usize::MAX
    &&& !pps.uniform_spacing && rl.len() + 1 == rows ==> seq_sum(rl, rl.len() as int) <= usize::MAX
}

impl Geometry {
    /// The tables of clause 6.5 for a CTB grid split into tiles by
    /// `col_width` and `row_height`: raster to tile scan and back, tile ids
    /// in raster order, and z-scan addresses of the minimum transform
    /// blocks, indexed `y * min_tb_w + x`.
    pub open spec fn tables_ok(&self) -> bool {
        let (w, h) = (self.w_ctbs as int, self.h_ctbs as int);
        let (cw, rh) = (self.col_width@, self.row_height@);
        let bw = self.min_tb_w as int;
        let shift = (self.ctb_log2 - self.min_tb_log2) as nat;
        &&& self.size_ctbs == w * h
        &&& partition(cw, w)
        &&& partition(rh, h)
        &&& self.rs_to_ts@.len() == w * h
        &&& self.ts_to_rs@.len() == w * h
        &&& self.tile_id@.len() == w * h
        &&& forall|rs: int| 0 <= rs < w * h ==> #[trigger] self.rs_to_ts@[rs] == ts_at(cw, rh, w, rs)
        &&& forall|rs: int| 0 <= rs < w * h ==> #[trigger] self.tile_id@[rs] == tile_at(cw, rh, w, rs) as u16
        &&& forall|ts: int| 0 <= ts < w * h ==> {
            let rs = #[trigger] self.ts_to_rs@[ts] as int;
            0 <= rs < w * h && ts_at(cw, rh, w, rs) == ts
        }
        &&& self.zs@.len() == bw * self.min_tb_h
        &&& forall|k: int| 0 <= k < self.zs@.len() ==> #[trigger] self.zs@[k] == zscan_at(cw, rh, w, shift, k % bw, k / bw)
    }

    /// Builds the addressing tables for the given parameter set pair.
    pub fn new(sps: &Sps, pps: &Pps) -> (r: Result<Geometry>)
        requires
            sps.log2_min_tb <= sps.log2_ctb < usize::BITS,
            pps.num_tile_cols >= 1,
            pps.num_tile_rows >= 1,
            geometry_fits(sps, pps),
        ensures
            match r {
                Ok(g) => {
                    &&& layout_ok(sps, pps)
                    &&& g.w_ctbs == ceil_pow2(sps.width as int, sps.log2_ctb as nat)
                    &&& g.h_ctbs == ceil_pow2(sps.height as int, sps.log2_ctb as nat)
                    &&& g.ctb_log2 == sps.log2_ctb
                    &&& g.min_tb_log2 == sps.log2_min_tb
                    &&& g.min_tb_w == ceil_pow2(sps.width as int, sps.log2_min_tb as nat)
                    &&& g.min_tb_h == ceil_pow2(sps.height as int, sps.log2_min_tb as nat)
                    &&& spacing_of(g.w_ctbs, pps.num_tile_cols, pps.uniform_spacing, pps.column_widths@) == Some(g.col_width@)
                    &&& spacing_of(g.h_ctbs, pps.num_tile_rows, pps.uniform_spacing, pps.row_heights@) == Some(g.row_height@)
                    &&& g.tables_ok()
                },
                Err(e) => !layout_ok(sps, pps) && e is InvalidData,
            },
    {
        let w_ctbs = sps.width_in_ctbs();
        let h_ctbs = sps.height_in_ctbs();
        let size_ctbs = w_ctbs * h_ctbs;
        let cols = pps.num_tile_cols;
        let rows = pps.num_tile_rows;
        if cols > w_ctbs || rows > h_ctbs {
            return Err(Error::InvalidData("more tiles than coding tree blocks"));
        }
        let col_width = match spacing(w_ctbs, cols, pps.uniform_spacing, pps.column_widths.as_slice()) {
            Ok(v) => v,
            Err(e) => return Err(e),
        };
        let row_height = match spacing(h_ctbs, rows, pps.uniform_spacing, pps.row_heights.as_slice()) {
            Ok(v) => v,
            Err(e) => return Err(e),
        };
        let ghost (cw, rh) = (col_width@, row_height@);
        proof {
            lemma_spacing_partition(w_ctbs, cols, pps.uniform_spacing, pps.column_widths@);
            lemma_spacing_partition(h_ctbs, rows, pps.uniform_spacing, pps.row_heights@);
        }
        let col_bd = boundaries(&col_width);
        let row_bd = boundaries(&row_height);
        let mut rs_to_ts = vec![0u32; size_ctbs];
        let mut ts_to_rs = vec![0u32; size_ctbs];
        let mut tile_id = vec![0u16; size_ctbs];
        let ghost (w, h) = (w_ctbs as int, h_ctbs as int);
        proof {
            let q = pow2(2 * (sps.log2_ctb - sps.log2_min_tb) as nat) as int;
            vstd::arithmetic::power2::lemma_pow2_pos(2 * (sps.log2_ctb - sps.log2_min_tb) as nat);
            assert(w * h <= u32::MAX + 1) by (nonlinear_arith)
                requires
                    w * h * q <= u32::MAX + 1,
                    q >= 1,
                    w >= 0,
                    h >= 0,
            ;
        }
        let mut rs: usize = 0;
        while rs < size_ctbs
            invariant
                size_ctbs == w * h,
                w == w_ctbs,
                h == h_ctbs,
                cols <= w,
                rows <= h,
                w * h <= u32::MAX + 1,
                partition(cw, w),
                partition(rh, h),
                col_width@ == cw,
                row_height@ == rh,
                cw.len() == cols,
                rh.len() == rows,
                col_bd@.len() == cols + 1,
                row_bd@.len() == rows + 1,
                forall|i: int| 0 <= i <= cols ==> #[trigger] col_bd@[i] == seq_sum(cw, i),
                forall|j: int| 0 <= j <= rows ==> #[trigger] row_bd@[j] == seq_sum(rh, j),
                rs <= size_ctbs,
                rs_to_ts@.len() == size_ctbs,
                ts_to_rs@.len() == size_ctbs,
                tile_id@.len() == size_ctbs,
                forall|r: int| 0 <= r < rs ==> #[trigger] rs_to_ts@[r] == ts_at(cw, rh, w, r),
                forall|r: int| 0 <= r < rs ==> #[trigger] tile_id@[r] == tile_at(cw, rh, w, r) as u16,
                forall|r: int| 0 <= r < rs ==> ts_to_rs@[#[trigger] ts_at(cw, rh, w, r)] == r,
            decreases size_ctbs - rs,
        {
            let tbx = rs % w_ctbs;
            let tby = rs / w_ctbs;
            let tx = last_boundary(&col_bd, cols, tbx, Ghost(cw));
            let ty = last_boundary(&row_bd, rows, tby, Ghost(rh));
            proof {
                lemma_ts_range(cw, rh, w, h, rs as int);
                lemma_sum_monotone(cw, 0, tx as int);
                lemma_sum_monotone(rh, 0, ty as int);
                let (cx, cy) = (seq_sum(cw, tx as int), seq_sum(rh, ty as int));
                assert(0 <= w * cy && 0 <= rh[ty as int] * cx && (tby - cy) * cw[tx as int] >= 0)
                    by (nonlinear_arith)
                    requires
                        cx >= 0,
                        cy >= 0,
                        w >= 0,
                        tby >= cy,
                {
                }
                assert(ty * cols + tx < rows * cols <= h * w) by (nonlinear_arith)
                    requires
                        0 <= ty < rows,
                        0 <= tx < cols,
                        rows <= h,
                        cols <= w,
                ;
                vstd::arithmetic::div_mod::lemma_fundamental_div_mod(rs as int, w);
            }
            let ts = w_ctbs * row_bd[ty] + row_height[ty] * col_bd[tx] + (tby - row_bd[ty]) * col_width[tx]
                + (tbx - col_bd[tx]);
            rs_to_ts.set(rs, ts as u32);
            proof {
                assert forall|r: int| 0 <= r < rs implies 0 <= #[trigger] ts_at(cw, rh, w, r) < w * h && ts_at(
                    cw,
                    rh,
                    w,
                    r,
                ) != ts by {
                    lemma_ts_range(cw, rh, w, h, r);
                    if ts_at(cw, rh, w, r) == ts {
                        lemma_ts_injective(cw, rh, w, h, r, rs as int);
                    }
                }
            }
            ts_to_rs.set(ts, rs as u32);
            tile_id.set(rs, (ty * cols + tx) as u16);
            proof {
                assert(ts_to_rs@[ts_at(cw, rh, w, rs as int)] == rs);
            }
            rs += 1;
        }
        proof {
            assert forall|t: int| 0 <= t < w * h implies {
                let r = #[trigger] ts_to_rs@[t] as int;
                0 <= r < w * h && ts_at(cw, rh, w, r) == t
            } by {
                lemma_ts_onto(cw, rh, w, h, t);
                let r = choose|r: int| 0 <= r < w * h && ts_at(cw, rh, w, r) == t;
                assert(ts_to_rs@[ts_at(cw, rh, w, r)] == r);
            }
        }
        let min_tb_log2 = sps.log2_min_tb;
        let min_tb_w = div_ceil_pow2(sps.width, min_tb_log2);
        let min_tb_h = div_ceil_pow2(sps.height, min_tb_log2);
        let shift = sps.log2_ctb - min_tb_log2;
        let zs = z_table(&rs_to_ts, w_ctbs, h_ctbs, min_tb_w, min_tb_h, shift, Ghost(cw), Ghost(rh), Ghost(sps.width as int), Ghost(sps.height as int), Ghost(min_tb_log2 as nat));
        Ok(Geometry {
            w_ctbs,
            h_ctbs,
            size_ctbs,
            ctb_log2: sps.log2_ctb,
            col_width,
            row_height,
            rs_to_ts,
            ts_to_rs,
            tile_id,
            zs,
            min_tb_w,
            min_tb_h,
            min_tb_log2,
        })
    }

    /// `MinTbAddrZs` of the minimum transform block covering luma position
    /// `(x, y)`, or `u32::MAX` outside the block grid.
    pub open spec fn z_at(&self, x: int, y: int) -> u32 {
        let p = pow2(self.min_tb_log2 as nat) as int;
        let (xi, yi) = (x / p, y / p);
        if xi >= self.min_tb_w || yi >= self.min_tb_h {
            u32::MAX
        } else {
            self.zs@[yi * self.min_tb_w + xi]
        }
    }

    /// The raster address of the coding tree block covering luma position
    /// `(x, y)`.
    pub open spec fn ctb_rs_at(&self, x: int, y: int) -> int {
        let p = pow2(self.ctb_log2 as nat) as int;
        (y / p) * self.w_ctbs + x / p
    }

    /// `MinTbAddrZs` for luma position `(x, y)`, or `u32::MAX` outside the picture.
    pub fn z(&self, x: usize, y: usize) -> (r: u32)
        requires
            self.min_tb_log2 < usize::BITS,
            self.zs@.len() == self.min_tb_w * self.min_tb_h,
        ensures
            r == self.z_at(x as int, y as int),
    {
        proof {
            vstd::bits::lemma_usize_shr_is_div(x, self.min_tb_log2);
            vstd::bits::lemma_usize_shr_is_div(y, self.min_tb_log2);
        }
        let xi = x >> self.min_tb_log2;
        let yi = y >> self.min_tb_log2;
        if xi >= self.min_tb_w || yi >= self.min_tb_h {
            return u32::MAX;
        }
        let n = self.zs.len();
        proof {
            assert(yi * self.min_tb_w + xi < n) by (nonlinear_arith)
                requires
                    yi < self.min_tb_h,
                    xi < self.min_tb_w,
                    n == self.min_tb_w * self.min_tb_h,
            ;
        }
        self.zs[yi * self.min_tb_w + xi]
    }

    /// CTB raster address covering luma position `(x, y)`.
    pub fn ctb_rs(&self, x: usize, y: usize) -> (r: usize)
        requires
            self.ctb_log2 < usize::BITS,
            self.ctb_rs_at(x as int, y as int) <= usize::MAX,
        ensures
            r == self.ctb_rs_at(x as int, y as int),
    {
        proof {
            vstd::bits::lemma_usize_shr_is_div(x, self.ctb_log2);
            vstd::bits::lemma_usize_shr_is_div(y, self.ctb_log2);
        }
        (y >> self.ctb_log2) * self.w_ctbs + (x >> self.ctb_log2)
    }
}

/// The running sums of `sizes`: entry `i` is where part `i` starts.
fn boundaries(sizes: &Vec<usize>) -> (bd: Vec<usize>)
    requires
        seq_sum(sizes@, sizes@.len() as int) <= usize::MAX,
    ensures
        bd@.len() == sizes@.len() + 1,
        forall|i: int| 0 <= i <= sizes@.len() ==> #[trigger] bd@[i] == seq_sum(sizes@, i),
{
    let mut bd: Vec<usize> = Vec::new();
    bd.push(0);
    let mut i: usize = 0;
    while i < sizes.len()
        invariant
            i <= sizes@.len(),
            seq_sum(sizes@, sizes@.len() as int) <= usize::MAX,
            bd@.len() == i + 1,
            forall|k: int| 0 <= k <= i ==> #[trigger] bd@[k] == seq_sum(sizes@, k),
        decreases sizes@.len() - i,
    {
        proof {
            lemma_sum_monotone(sizes@, i + 1, sizes@.len() as int);
        }
        let next = bd[i] + sizes[i];
        bd.push(next);
        i += 1;
    }
    bd
}

/// The last part, among the first `n`, that starts at or before `t`, or the
/// first part if none does.
fn last_boundary(bd: &Vec<usize>, n: usize, t: usize, Ghost(sizes): Ghost<Seq<usize>>) -> (i: usize)
    requires
        n >= 1,
        bd@.len() == n + 1,
        forall|k: int| 0 <= k <= n ==> #[trigger] bd@[k] == seq_sum(sizes, k),
    ensures
        i == tile_index(sizes, n - 1, t as int),
        i < n,
{
    let mut i = n - 1;
    while i > 0 && t < bd[i]
        invariant
            i < n,
            bd@.len() == n + 1,
            forall|k: int| 0 <= k <= n ==> #[trigger] bd@[k] == seq_sum(sizes, k),
            tile_index(sizes, n - 1, t as int) == tile_index(sizes, i as int, t as int),
        decreases i,
    {
        i -= 1;
    }
    i
}

/// `MinTbAddrZs` for one block: the tile-scan address `ts` of its CTB
/// scaled by the `4^shift` blocks of a CTB, plus the interleaved low `shift`
/// bits of `x` and `y`.
fn z_entry(ts: u32, x: usize, y: usize, shift: usize) -> (v: u32)
    requires
        (ts + 1) * pow2(2 * shift as nat) <= u32::MAX + 1,
    ensures
        v == ts * pow2(2 * shift as nat) + zinter(x as int, y as int, shift as nat),
{
    let mut low: u64 = 0;
    let mut mm: u64 = 1;
    let mut xs = x;
    let mut ys = y;
    let mut i: usize = 0;
    proof {
        vstd::arithmetic::power2::lemma2_to64();
        assert(pow2(2 * shift as nat) <= u32::MAX + 1) by (nonlinear_arith)
            requires
                (ts + 1) * pow2(2 * shift as nat) <= u32::MAX + 1,
                ts >= 0,
        ;
    }
    while i < shift
        invariant
            i <= shift,
            mm == pow2(2 * i as nat),
            pow2(2 * shift as nat) <= u32::MAX + 1,
            low < mm,
            low + mm * zinter(xs as int, ys as int, (shift - i) as nat) == zinter(x as int, y as int, shift as nat),
        decreases shift - i,
    {
        proof {
            vstd::arithmetic::power2::lemma2_to64();
            vstd::arithmetic::power2::lemma_pow2_adds(2 * i as nat, 2);
            vstd::arithmetic::power2::lemma_pow2_strictly_increases(2 * i as nat, 2 * shift as nat);
            if i + 1 < shift {
                vstd::arithmetic::power2::lemma_pow2_strictly_increases((2 * i + 2) as nat, 2 * shift as nat);
            }
            let k = (shift - i) as nat;
            let z1 = zinter(xs as int / 2, ys as int / 2, (k - 1) as nat);
            assert(zinter(xs as int, ys as int, k) == xs % 2 + 2 * (ys % 2) + 4 * z1);
            assert(low + mm * (xs % 2) + 2 * mm * (ys % 2) + 4 * mm * z1 == low + mm * (xs % 2 + 2 * (ys % 2)
                + 4 * z1)) by (nonlinear_arith);
            assert(low + mm * (xs % 2) + 2 * mm * (ys % 2) < 4 * mm) by (nonlinear_arith)
                requires
                    low < mm,
                    xs % 2 <= 1,
                    ys % 2 <= 1,
            ;
        }
        let ghost (low0, mm0, xs0, ys0) = (low as int, mm as int, xs as int, ys as int);
        if xs % 2 == 1 {
            low = low + mm;
        }
        if ys % 2 == 1 {
            low = low + 2 * mm;
        }
        xs = xs / 2;
        ys = ys / 2;
        mm = mm * 4;
        i += 1;
        proof {
            let (bx, by) = (xs0 % 2, ys0 % 2);
            assert(low == low0 + mm0 * bx + 2 * mm0 * by) by (nonlinear_arith)
                requires
                    bx == 0 || bx == 1,
                    by == 0 || by == 1,
                    low == low0 + (if bx == 1 { mm0 } else { 0 }) + (if by == 1 { 2 * mm0 } else { 0 }),
            ;
            assert(mm * zinter(xs as int, ys as int, (shift - i) as nat) == 4 * mm0 * zinter(
                xs0 / 2,
                ys0 / 2,
                (shift - i) as nat,
            )) by (nonlinear_arith)
                requires
                    mm == mm0 * 4,
                    xs == xs0 / 2,
                    ys == ys0 / 2,
            ;
        }
    }
    proof {
        assert(ts * mm + low < u32::MAX + 1) by (nonlinear_arith)
            requires
                (ts + 1) * mm <= u32::MAX + 1,
                low < mm,
        ;
    }
    let v = (ts as u64) * mm + low;
    v as u32
}

/// The z-scan table of a picture `bw` x `bh` minimum transform blocks
/// across, whose CTBs are `2^shift` blocks across, from the raster to tile
/// scan table of its `w` x `h` CTBs.
fn z_table(
    rs_to_ts: &Vec<u32>,
    w_ctbs: usize,
    h_ctbs: usize,
    bw: usize,
    bh: usize,
    shift: usize,
    Ghost(cw): Ghost<Seq<usize>>,
    Ghost(rh): Ghost<Seq<usize>>,
    Ghost(width): Ghost<int>,
    Ghost(height): Ghost<int>,
    Ghost(m): Ghost<nat>,
) -> (zs: Vec<u32>)
    requires
        width >= 0,
        height >= 0,
        shift < usize::BITS,
        bw == ceil_pow2(width, m),
        bh == ceil_pow2(height, m),
        w_ctbs == ceil_pow2(width, m + shift as nat),
        h_ctbs == ceil_pow2(height, m + shift as nat),
        bw * bh <= usize::MAX,
        w_ctbs * h_ctbs <= usize::MAX,
        w_ctbs * h_ctbs * pow2(2 * shift as nat) <= u32::MAX + 1,
        partition(cw, w_ctbs as int),
        partition(rh, h_ctbs as int),
        rs_to_ts@.len() == w_ctbs * h_ctbs,
        forall|rs: int| 0 <= rs < w_ctbs * h_ctbs ==> #[trigger] rs_to_ts@[rs] == ts_at(cw, rh, w_ctbs as int, rs),
    ensures
        zs@.len() == bw * bh,
        forall|k: int| 0 <= k < zs@.len() ==> #[trigger] zs@[k] == zscan_at(cw, rh, w_ctbs as int, shift as nat, k % bw as int, k / bw as int),
{
    let mut zs: Vec<u32> = Vec::new();
    let ghost p = pow2(shift as nat) as int;
    let mut y: usize = 0;
    while y < bh
        invariant
            y <= bh,
            zs@.len() == y * bw,
            width >= 0,
            height >= 0,
            shift < usize::BITS,
            p == pow2(shift as nat),
            bw == ceil_pow2(width, m),
            bh == ceil_pow2(height, m),
            w_ctbs == ceil_pow2(width, m + shift as nat),
            h_ctbs == ceil_pow2(height, m + shift as nat),
            bw * bh <= usize::MAX,
            w_ctbs * h_ctbs <= usize::MAX,
            partition(cw, w_ctbs as int),
            partition(rh, h_ctbs as int),
            w_ctbs * h_ctbs * pow2(2 * shift as nat) <= u32::MAX + 1,
            rs_to_ts@.len() == w_ctbs * h_ctbs,
            forall|rs: int| 0 <= rs < w_ctbs * h_ctbs ==> #[trigger] rs_to_ts@[rs] == ts_at(cw, rh, w_ctbs as int, rs),
            forall|k: int| 0 <= k < zs@.len() ==> #[trigger] zs@[k] == zscan_at(cw, rh, w_ctbs as int, shift as nat, k % bw as int, k / bw as int),
        decreases bh - y,
    {
        proof {
            lemma_block_in_ctb(y as int, height, m, shift as nat);
            vstd::bits::lemma_usize_shr_is_div(y, shift);
        }
        let cy = y >> shift;
        let mut x: usize = 0;
        while x < bw
            invariant
                y < bh,
                x <= bw,
                cy == y as int / p,
                cy < h_ctbs,
                zs@.len() == y * bw + x,
                width >= 0,
                height >= 0,
                shift < usize::BITS,
                p == pow2(shift as nat),
                bw == ceil_pow2(width, m),
                bh == ceil_pow2(height, m),
                w_ctbs == ceil_pow2(width, m + shift as nat),
                h_ctbs == ceil_pow2(height, m + shift as nat),
                bw * bh <= usize::MAX,
                w_ctbs * h_ctbs <= usize::MAX,
                partition(cw, w_ctbs as int),
                partition(rh, h_ctbs as int),
                w_ctbs * h_ctbs * pow2(2 * shift as nat) <= u32::MAX + 1,
                rs_to_ts@.len() == w_ctbs * h_ctbs,
                forall|rs: int| 0 <= rs < w_ctbs * h_ctbs ==> #[trigger] rs_to_ts@[rs] == ts_at(cw, rh, w_ctbs as int, rs),
                forall|k: int| 0 <= k < zs@.len() ==> #[trigger] zs@[k] == zscan_at(cw, rh, w_ctbs as int, shift as nat, k % bw as int, k / bw as int),
            decreases bw - x,
        {
            proof {
                lemma_block_in_ctb(x as int, width, m, shift as nat);
                vstd::bits::lemma_usize_shr_is_div(x, shift);
            }
            let cx = x >> shift;
            proof {
                assert(w_ctbs * cy + cx < w_ctbs * h_ctbs) by (nonlinear_arith)
                    requires
                        cy < h_ctbs,
                        cx < w_ctbs,
                ;
                assert(y * bw + x < bw * bh) by (nonlinear_arith)
                    requires
                        y < bh,
                        x < bw,
                ;
            }
            let ctb = w_ctbs * cy + cx;
            let ts = rs_to_ts[ctb];
            proof {
                lemma_ts_range(cw, rh, w_ctbs as int, h_ctbs as int, ctb as int);
                assert((ts + 1) * pow2(2 * shift as nat) <= u32::MAX + 1) by (nonlinear_arith)
                    requires
                        ts + 1 <= w_ctbs * h_ctbs,
                        w_ctbs * h_ctbs * pow2(2 * shift as nat) <= u32::MAX + 1,
                ;
            }
            let v = z_entry(ts, x, y, shift);
            proof {
                let k = y * bw + x;
                vstd::arithmetic::div_mod::lemma_fundamental_div_mod_converse(k as int, bw as int, y as int, x as int);
            }
            zs.push(v);
            x += 1;
        }
        proof {
            assert(zs@.len() == (y + 1) * bw) by (nonlinear_arith)
                requires
                    zs@.len() == y * bw + bw,
            ;
        }
        y += 1;
    }
    proof {
        assert(zs@.len() == bw * bh) by (nonlinear_arith)
            requires
                zs@.len() == bh * bw,
        ;
    }
    zs
}

/// The raster and tile scans are inverse: each maps the CTBs of the
/// picture one to one onto themselves and undoes the other.
pub proof fn lemma_scans_inverse(g: &Geometry)
    requires
        g.tables_ok(),
    ensures
        forall|rs: int| 0 <= rs < g.size_ctbs ==> {
            let ts = #[trigger] g.rs_to_ts@[rs] as int;
            0 <= ts < g.size_ctbs && g.ts_to_rs@[ts] == rs
        },
        forall|ts: int| 0 <= ts < g.size_ctbs ==> {
            let rs = #[trigger] g.ts_to_rs@[ts] as int;
            0 <= rs < g.size_ctbs && g.rs_to_ts@[rs] == ts
        },
{
    let (w, h) = (g.w_ctbs as int, g.h_ctbs as int);
    let (cw, rh) = (g.col_width@, g.row_height@);
    assert forall|rs: int| 0 <= rs < g.size_ctbs implies {
        let ts = #[trigger] g.rs_to_ts@[rs] as int;
        0 <= ts < g.size_ctbs && g.ts_to_rs@[ts] == rs
    } by {
        lemma_ts_range(cw, rh, w, h, rs);
        let ts = ts_at(cw, rh, w, rs);
        let back = g.ts_to_rs@[ts] as int;
        lemma_ts_injective(cw, rh, w, h, back, rs);
    }
}

/// The first tile-scan address of tile column `tx`, tile row `ty`: the
/// CTBs of the tile rows above, then of the tiles to its left in its row.
pub open spec fn tile_base(cw: Seq<usize>, rh: Seq<usize>, w: int, tx: int, ty: int) -> int {
    w * seq_sum(rh, ty) + rh[ty] * seq_sum(cw, tx)
}

/// The tile column holding the CTB at raster address `rs`.
pub open spec fn ctb_tile_col(cw: Seq<usize>, w: int, rs: int) -> int {
    tile_index(cw, cw.len() - 1, rs % w)
}

/// The tile row holding the CTB at raster address `rs`.
pub open spec fn ctb_tile_row(rh: Seq<usize>, w: int, rs: int) -> int {
    tile_index(rh, rh.len() - 1, rs / w)
}

/// The CTB at raster address `rs` lies in one tile: its `TileId` is that
/// tile's number in raster order as a 16-bit value (the number itself when
/// there are at most 65536 tiles), below the tile count, and its tile-scan
/// address is the tile's first address plus its raster position inside the
/// tile.
pub open spec fn ctb_in_tile(g: &Geometry, rs: int) -> bool {
    let (w, cw, rh) = (g.w_ctbs as int, g.col_width@, g.row_height@);
    let (tx, ty) = (ctb_tile_col(cw, w, rs), ctb_tile_row(rh, w, rs));
    &&& 0 <= tx < cw.len()
    &&& 0 <= ty < rh.len()
    &&& seq_sum(cw, tx) <= rs % w < seq_sum(cw, tx + 1)
    &&& seq_sum(rh, ty) <= rs / w < seq_sum(rh, ty + 1)
    &&& g.tile_id@[rs] == (ty * cw.len() + tx) as u16
    &&& cw.len() * rh.len() <= 0x10000 ==> g.tile_id@[rs] == ty * cw.len() + tx
    &&& g.tile_id@[rs] < cw.len() * rh.len()
    &&& g.rs_to_ts@[rs] == tile_base(cw, rh, w, tx, ty) + (rs / w - seq_sum(rh, ty)) * cw[tx] + (rs % w - seq_sum(cw, tx))
}

/// Tiles in the tile scan: every CTB lies in one tile (`ctb_in_tile`), and
/// the addresses of one tile are consecutive: every address from the
/// tile's first up to its size on belongs to a CTB of that tile.
pub proof fn lemma_tiles(g: &Geometry)
    requires
        g.tables_ok(),
    ensures
        forall|rs: int| 0 <= rs < g.size_ctbs ==> #[trigger] ctb_in_tile(g, rs),
        forall|tx: int, ty: int, ts: int|
            #![trigger g.ts_to_rs@[ts], tile_base(g.col_width@, g.row_height@, g.w_ctbs as int, tx, ty)]
            0 <= tx < g.col_width@.len() && 0 <= ty < g.row_height@.len() && tile_base(
                g.col_width@,
                g.row_height@,
                g.w_ctbs as int,
                tx,
                ty,
            ) <= ts < tile_base(g.col_width@, g.row_height@, g.w_ctbs as int, tx, ty) + g.col_width@[tx]
                * g.row_height@[ty] ==> {
                let rs = g.ts_to_rs@[ts] as int;
                &&& 0 <= rs < g.size_ctbs
                &&& ctb_tile_col(g.col_width@, g.w_ctbs as int, rs) == tx
                &&& ctb_tile_row(g.row_height@, g.w_ctbs as int, rs) == ty
            },
{
    let (w, h) = (g.w_ctbs as int, g.h_ctbs as int);
    let (cw, rh) = (g.col_width@, g.row_height@);
    assert forall|rs: int| 0 <= rs < g.size_ctbs implies #[trigger] ctb_in_tile(g, rs) by {
        lemma_ts_range(cw, rh, w, h, rs);
        let (tx, ty) = (ctb_tile_col(cw, w, rs), ctb_tile_row(rh, w, rs));
        let (nc, nr) = (cw.len() as int, rh.len() as int);
        assert(ty * nc + tx < nc * nr) by (nonlinear_arith)
            requires
                0 <= tx < nc,
                0 <= ty < nr,
        ;
        assert(0 <= ty * nc + tx) by (nonlinear_arith)
            requires
                0 <= tx,
                0 <= ty,
                0 <= nc,
        ;
        assert(tile_at(cw, rh, w, rs) == ty * nc + tx);
        let t = ty * nc + tx;
        assert(g.tile_id@[rs] == t as u16);
        if t >= 0x10000 {
            assert((t as u16) < 0x10000);
        } else {
            assert(t as u16 == t);
        }
    }
    assert forall|tx: int, ty: int, ts: int|
        #![trigger g.ts_to_rs@[ts], tile_base(cw, rh, w, tx, ty)]
        0 <= tx < cw.len() && 0 <= ty < rh.len() && tile_base(cw, rh, w, tx, ty) <= ts < tile_base(cw, rh, w, tx, ty)
            + cw[tx] * rh[ty] implies {
        let rs = g.ts_to_rs@[ts] as int;
        &&& 0 <= rs < g.size_ctbs
        &&& ctb_tile_col(cw, w, rs) == tx
        &&& ctb_tile_row(rh, w, rs) == ty
    } by {
        assert(tile_base(cw, rh, w, tx, ty) + cw[tx] * rh[ty] <= w * h) by {
            let r0 = seq_sum(rh, ty) * w + seq_sum(cw, tx);
            lemma_sum_monotone(cw, 0, tx);
            lemma_sum_monotone(rh, 0, ty);
            lemma_sum_strict(cw, tx, tx + 1);
            lemma_sum_strict(rh, ty, ty + 1);
            lemma_sum_monotone(cw, tx + 1, cw.len() as int);
            lemma_sum_monotone(rh, ty + 1, rh.len() as int);
            let (cx, cy, wx, hy) = (seq_sum(cw, tx), seq_sum(rh, ty), cw[tx] as int, rh[ty] as int);
            assert(w * cy + hy * cx + wx * hy <= w * h) by (nonlinear_arith)
                requires
                    cx + wx <= w,
                    cy + hy <= h,
                    hy >= 0,
                    w >= 0,
            ;
        }
        assert(cw[tx] * rh[ty] == rh[ty] * cw[tx]) by (nonlinear_arith);
        assert(0 <= ts < w * h) by {
            lemma_sum_monotone(cw, 0, tx);
            lemma_sum_monotone(rh, 0, ty);
            let (cx, cy, hy) = (seq_sum(cw, tx), seq_sum(rh, ty), rh[ty] as int);
            assert(0 <= w * cy + hy * cx) by (nonlinear_arith)
                requires
                    cx >= 0,
                    cy >= 0,
                    w >= 0,
                    hy >= 0,
            ;
        }
        let rs = g.ts_to_rs@[ts] as int;
        assert(0 <= rs < w * h);
        lemma_ts_range(cw, rh, w, h, rs);
        let (tx2, ty2) = (ctb_tile_col(cw, w, rs), ctb_tile_row(rh, w, rs));
        if ty < ty2 || (ty == ty2 && tx < tx2) {
            lemma_tile_order(cw, rh, w, h, tx, ty, tx2, ty2);
        } else if ty2 < ty || (ty == ty2 && tx2 < tx) {
            lemma_tile_order(cw, rh, w, h, tx2, ty2, tx, ty);
        }
    }
}

} // verus!
