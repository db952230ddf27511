//! Reference sample substitution (clause 8.4.4.2.2).

use vstd::prelude::*;

use super::geom::Geometry;
use super::state::{available, available_at};
use crate::hevc::intra::Refs;
use crate::hevc::picture::{Picture, Plane};
use crate::hevc::ps::Sps;
use vstd::arithmetic::power2::pow2;

verus! {

/// Some entry below `total` is available.
pub open spec fn any_available(avail: Seq<bool>, total: int) -> bool {
    exists|i: int| 0 <= i < total && #[trigger] avail[i]
}

/// The first available entry at or after `k`, or `total` when there is none.
pub open spec fn first_available(avail: Seq<bool>, k: int, total: int) -> int
    decreases total - k,
{
    if k >= total {
        total
    } else if avail[k] {
        k
    } else {
        first_available(avail, k + 1, total)
    }
}

/// Entry `j` of the reference samples after substitution: the mid-grey
/// value `2^(bd - 1)` everywhere when no sample is available; otherwise an
/// available sample keeps its value, an unavailable first entry takes the
/// first available one, and any other unavailable entry copies the entry
/// before it.
pub open spec fn substituted(buf: Seq<u16>, avail: Seq<bool>, total: int, bd: int, j: int) -> int
    decreases j,
{
    if !any_available(avail, total) {
        pow2((bd - 1) as nat) as int
    } else if avail[j] {
        buf[j] as int
    } else if j <= 0 {
        buf[first_available(avail, 0, total)] as int
    } else {
        substituted(buf, avail, total, bd, j - 1)
    }
}

/// `first_available` names an available entry, and none before it is.
proof fn lemma_first_available(avail: Seq<bool>, k: int, total: int)
    requires
        0 <= k <= total,
    ensures
        k <= first_available(avail, k, total) <= total,
        forall|i: int| k <= i < first_available(avail, k, total) ==> !#[trigger] avail[i],
        first_available(avail, k, total) < total ==> avail[first_available(avail, k, total)],
        (exists|i: int| k <= i < total && #[trigger] avail[i]) ==> first_available(avail, k, total) < total,
    decreases total - k,
{
    if k < total && !avail[k] {
        lemma_first_available(avail, k + 1, total);
    }
}

/// Reference sample substitution (clause 8.4.4.2.2): fills every entry
/// below `total` that `avail` marks unavailable.
pub fn substitute(r: &mut Refs, avail: &[bool; 129], total: usize, bit_depth: u8)
    requires
        total <= 129,
        !any_available(avail@, total as int) ==> 1 <= bit_depth <= 16,
    ensures
        final(r).n == old(r).n,
        forall|j: int| 0 <= j < total ==> #[trigger] final(r).buf@[j] as int == substituted(
            old(r).buf@,
            avail@,
            total as int,
            bit_depth as int,
            j,
        ),
        forall|j: int| total <= j < 129 ==> #[trigger] final(r).buf@[j] == old(r).buf@[j],
{
    let ghost old_buf = r.buf@;
    let mut first: usize = 0;
    while first < total && !avail[first]
        invariant
            first <= total <= 129,
            forall|i: int| 0 <= i < first ==> !#[trigger] avail@[i],
        decreases total - first,
    {
        first += 1;
    }
    proof {
        lemma_first_available(avail@, 0, total as int);
    }
    if first == total {
        proof {
            assert(!any_available(avail@, total as int));
            vstd::bits::lemma_u16_pow2_no_overflow((bit_depth - 1) as nat);
            vstd::bits::lemma_u16_shl_is_mul(1, (bit_depth - 1) as u16);
            vstd::arithmetic::power2::lemma2_to64();
        }
        let mid = 1u16 << (bit_depth - 1);
        let mut j: usize = 0;
        while j < total
            invariant
                j <= total <= 129,
                !any_available(avail@, total as int),
                mid == pow2((bit_depth - 1) as nat),
                r.n == old(r).n,
                forall|k: int| 0 <= k < j ==> #[trigger] r.buf@[k] == mid,
                forall|k: int| j <= k < 129 ==> #[trigger] r.buf@[k] == old_buf[k],
            decreases total - j,
        {
            r.buf[j] = mid;
            j += 1;
        }
        return;
    }
    proof {
        assert(avail@[first as int]);
        assert(any_available(avail@, total as int));
        assert(first_available(avail@, 0, total as int) == first);
    }
    if !avail[0] {
        r.buf[0] = r.buf[first];
    }
    let mut last = r.buf[0];
    let mut j: usize = 0;
    while j < total
        invariant
            j <= total <= 129,
            any_available(avail@, total as int),
            first_available(avail@, 0, total as int) == first,
            first < total,
            r.n == old(r).n,
            r.buf@[0] as int == substituted(old_buf, avail@, total as int, bit_depth as int, 0),
            j == 0 ==> last == r.buf@[0],
            j > 0 ==> last as int == substituted(old_buf, avail@, total as int, bit_depth as int, j - 1),
            forall|k: int| 0 <= k < j ==> #[trigger] r.buf@[k] as int == substituted(
                old_buf,
                avail@,
                total as int,
                bit_depth as int,
                k,
            ),
            forall|k: int| 1 <= k < 129 && (k >= j || k >= total) ==> #[trigger] r.buf@[k] == old_buf[k],
        decreases total - j,
    {
        if avail[j] {
            last = r.buf[j];
        } else {
            r.buf[j] = last;
        }
        j += 1;
    }
}

/// The neighbour that entry `i` of a reference set for a block `n` wide
/// stands for, relative to the block's top left sample: `p[-1][2n-1]` up to
/// the corner `p[-1][-1]` for `i <= 2n`, then `p[0][-1]` to `p[2n-1][-1]`.
pub open spec fn ref_offset(n: int, i: int) -> (int, int) {
    if i <= 2 * n {
        (-1, 2 * n - 1 - i)
    } else {
        (i - 2 * n - 1, -1)
    }
}

/// The plane of component `c_idx`.
pub open spec fn plane_of(pic: &Picture, c_idx: usize) -> Plane {
    if c_idx == 0 {
        pic.y
    } else if c_idx == 1 {
        pic.cb
    } else {
        pic.cr
    }
}

/// The chroma subsampling factors that map component `c_idx` to luma.
pub open spec fn scale_of(sps: &Sps, c_idx: usize) -> (int, int) {
    if c_idx == 0 {
        (1, 1)
    } else {
        (sps.sub_w as int, sps.sub_h as int)
    }
}

/// Whether reference entry `i` of the block at `(x, y)` of component
/// `c_idx` is available: inside the plane, and its luma position available
/// to the block's (clause 6.4.1).
pub open spec fn ref_available(
    pic: &Picture,
    geo: &Geometry,
    slice_addr: Seq<u32>,
    sps: &Sps,
    x: int,
    y: int,
    n: int,
    c_idx: usize,
    i: int,
) -> bool {
    let pl = plane_of(pic, c_idx);
    let (sw, sh) = scale_of(sps, c_idx);
    let (cx, cy) = ref_offset(n, i);
    let (nx, ny) = (x + cx, y + cy);
    &&& 0 <= nx < pl.width
    &&& 0 <= ny < pl.height
    &&& available_at(geo, slice_addr, sps.width as int, sps.height as int, x * sw, y * sh, nx * sw, ny * sh)
}

/// The samples gathered before substitution: the neighbour's sample where
/// it is available, zero elsewhere.
pub open spec fn gathered(
    pic: &Picture,
    geo: &Geometry,
    slice_addr: Seq<u32>,
    sps: &Sps,
    x: int,
    y: int,
    n: int,
    c_idx: usize,
) -> Seq<u16> {
    Seq::new(
        129,
        |i: int|
            if i < 4 * n + 1 && ref_available(pic, geo, slice_addr, sps, x, y, n, c_idx, i) {
                let (cx, cy) = ref_offset(n, i);
                plane_of(pic, c_idx).sample(x + cx, y + cy)
            } else {
                0
            },
    )
}

/// Collects the neighbouring samples of a transform block and substitutes
/// the unavailable ones (clauses 8.4.4.2.1 and 8.4.4.2.2).
///
/// `x` and `y` are in the coordinates of component `c_idx`, `n` is `nTbS`,
/// and `slice_addr` holds the slice address of every coding tree block.
pub fn gather_refs(
    pic: &Picture,
    geo: &Geometry,
    slice_addr: &[u32],
    sps: &Sps,
    x: usize,
    y: usize,
    n: usize,
    c_idx: usize,
) -> (r: Refs)
    requires
        pic.wf(),
        geo.tables_ok(),
        geo.ctb_log2 < usize::BITS,
        geo.min_tb_log2 < usize::BITS,
        sps.width <= geo.w_ctbs * pow2(geo.ctb_log2 as nat),
        sps.height <= geo.h_ctbs * pow2(geo.ctb_log2 as nat),
        slice_addr@.len() == geo.size_ctbs,
        n <= 32,
        c_idx <= 2,
        c_idx != 0 ==> 1 <= sps.sub_w <= 2 && 1 <= sps.sub_h <= 2,
        x <= 0x1000_0000,
        y <= 0x1000_0000,
        ({
            let (sw, sh) = scale_of(sps, c_idx);
            0 <= geo.ctb_rs_at(x * sw, y * sh) < geo.size_ctbs
        }),
        1 <= (if c_idx == 0 { sps.bit_depth_y } else { sps.bit_depth_c }) <= 16,
    ensures
        r.n == n,
        forall|i: int|
            0 <= i < 4 * n + 1 ==> #[trigger] r.buf@[i] as int == substituted(
                gathered(pic, geo, slice_addr@, sps, x as int, y as int, n as int, c_idx),
                Seq::new(129, |k: int| k < 4 * n + 1 && ref_available(pic, geo, slice_addr@, sps, x as int, y as int, n as int, c_idx, k)),
                4 * n + 1,
                (if c_idx == 0 { sps.bit_depth_y } else { sps.bit_depth_c }) as int,
                i,
            ),
        forall|i: int| 4 * n + 1 <= i < 129 ==> #[trigger] r.buf@[i] == 0,
{
    let (sw, sh) = if c_idx == 0 {
        (1usize, 1usize)
    } else {
        (sps.sub_w, sps.sub_h)
    };
    let plane = if c_idx == 0 {
        &pic.y
    } else if c_idx == 1 {
        &pic.cb
    } else {
        &pic.cr
    };
    let bit_depth = if c_idx == 0 {
        sps.bit_depth_y
    } else {
        sps.bit_depth_c
    };
    proof {
        assert(x * sw <= 0x2000_0000 && y * sh <= 0x2000_0000) by (nonlinear_arith)
            requires
                x <= 0x1000_0000,
                y <= 0x1000_0000,
                sw <= 2,
                sh <= 2,
        ;
    }
    let (xc, yc) = (x * sw, y * sh);
    let total = 4 * n + 1;
    let mut r = Refs::new(n);
    let mut avail = [false; 129];
    let ghost want = gathered(pic, geo, slice_addr@, sps, x as int, y as int, n as int, c_idx);
    let ghost okay = Seq::new(129, |k: int| k < 4 * n + 1 && ref_available(pic, geo, slice_addr@, sps, x as int, y as int, n as int, c_idx, k));
    let mut i: usize = 0;
    while i < total
        invariant
            i <= total == 4 * n + 1,
            n <= 32,
            r.n == n,
            *plane == plane_of(pic, c_idx),
            (sw as int, sh as int) == scale_of(sps, c_idx),
            xc == x * sw,
            yc == y * sh,
            sw <= 2,
            sh <= 2,
            x <= 0x1000_0000,
            y <= 0x1000_0000,
            plane.wf(),
            geo.tables_ok(),
            geo.ctb_log2 < usize::BITS,
            geo.min_tb_log2 < usize::BITS,
            sps.width <= geo.w_ctbs * pow2(geo.ctb_log2 as nat),
            sps.height <= geo.h_ctbs * pow2(geo.ctb_log2 as nat),
            slice_addr@.len() == geo.size_ctbs,
            0 <= geo.ctb_rs_at(xc as int, yc as int) < geo.size_ctbs,
            want == gathered(pic, geo, slice_addr@, sps, x as int, y as int, n as int, c_idx),
            okay == Seq::new(129, |k: int| k < 4 * n + 1 && ref_available(pic, geo, slice_addr@, sps, x as int, y as int, n as int, c_idx, k)),
            forall|k: int| 0 <= k < i ==> #[trigger] avail@[k] == okay[k],
            forall|k: int| i <= k < 129 ==> !#[trigger] avail@[k],
            forall|k: int| 0 <= k < i && okay[k] ==> #[trigger] r.buf@[k] == want[k],
            forall|k: int| i <= k < 129 ==> #[trigger] r.buf@[k] == 0,
        decreases total - i,
    {
        let (cx, cy): (isize, isize) = if i <= 2 * n {
            (-1, (2 * n) as isize - 1 - i as isize)
        } else {
            ((i - 2 * n - 1) as isize, -1)
        };
        let nx = x as isize + cx;
        let ny = y as isize + cy;
        if nx < 0 || ny < 0 || nx as usize >= plane.width || ny as usize >= plane.height {
            i += 1;
            continue;
        }
        proof {
            assert((x + cx) * sw <= 0x2000_0100 && (y + cy) * sh <= 0x2000_0100) by (nonlinear_arith)
                requires
                    0 <= x + cx <= 0x1000_0080,
                    0 <= y + cy <= 0x1000_0080,
                    0 <= sw <= 2,
                    0 <= sh <= 2,
            ;
        }
        let lx = (x as isize + cx) * sw as isize;
        let ly = (y as isize + cy) * sh as isize;
        if !available(geo, slice_addr, sps.width, sps.height, xc, yc, lx, ly) {
            i += 1;
            continue;
        }
        proof {
            assert(plane.index_of(nx as int, ny as int) < plane.data@.len()) by (nonlinear_arith)
                requires
                    0 <= nx < plane.width,
                    0 <= ny < plane.height,
                    plane.stride >= plane.width,
                    plane.stride * plane.height <= plane.data@.len(),
            ;
        }
        avail[i] = true;
        r.buf[i] = plane.at(nx as usize, ny as usize);
        i += 1;
    }
    proof {
        assert(avail@ =~= okay);
    }
    let ghost raw = r.buf@;
    substitute(&mut r, &avail, total, bit_depth);
    proof {
        assert forall|j: int| 0 <= j < total implies #[trigger] substituted(raw, okay, total as int, bit_depth as int, j)
            == substituted(want, okay, total as int, bit_depth as int, j) by {
            lemma_substituted_available_only(raw, want, okay, total as int, bit_depth as int, j);
        }
    }
    r
}

/// Substitution reads a reference entry only where it is available, so two
/// sample sets that agree there substitute alike.
proof fn lemma_substituted_available_only(a: Seq<u16>, b: Seq<u16>, avail: Seq<bool>, total: int, bd: int, j: int)
    requires
        0 <= j < total,
        forall|k: int| 0 <= k < total && avail[k] ==> #[trigger] a[k] == b[k],
    ensures
        substituted(a, avail, total, bd, j) == substituted(b, avail, total, bd, j),
    decreases j,
{
    lemma_first_available(avail, 0, total);
    if j > 0 {
        lemma_substituted_available_only(a, b, avail, total, bd, j - 1);
    }
}

} // verus!
