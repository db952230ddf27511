//! Substreams of a slice segment: where each starts, when the CTU loop
//! moves into a new one, and which context state the new one begins with
//! (clauses 7.3.8.1 and 9.3.1).

use vstd::prelude::*;

use super::geom::Geometry;
use crate::hevc::error::{Error, Result};
use crate::hevc::nal::{Rbsp, spec_nal_to_rbsp, spec_rbsp_to_nal};

verus! {

/// The sum of the first `j` entries of `s`.
pub open spec fn prefix_sum(s: Seq<u32>, j: int) -> int
    decreases j,
{
    if j <= 0 {
        0
    } else {
        prefix_sum(s, j - 1) + s[j - 1]
    }
}

/// The payload offsets where the substreams of a slice segment start: the
/// first at `data_offset`, each next one `entry_points[j]` NAL unit bytes
/// after the one before, mapped back to a payload offset.
pub fn substream_starts(data_offset: usize, entry_points: &[u32], rbsp: &Rbsp) -> (starts: Vec<usize>)
    requires
        data_offset + 2 + rbsp.epb@.len() <= usize::MAX,
        spec_rbsp_to_nal(rbsp.epb@, data_offset as int) + prefix_sum(entry_points@, entry_points@.len() as int)
            <= usize::MAX,
    ensures
        starts@.len() == entry_points@.len() + 1,
        starts@[0] == data_offset,
        forall|j: int|
            0 < j <= entry_points@.len() ==> #[trigger] starts@[j] as int == spec_nal_to_rbsp(
                rbsp.epb@,
                spec_rbsp_to_nal(rbsp.epb@, data_offset as int) + prefix_sum(entry_points@, j),
            ),
{
    let mut starts: Vec<usize> = Vec::new();
    starts.push(data_offset);
    let base: usize = rbsp.rbsp_to_nal(data_offset);
    let mut nal_off = base;
    let mut j: usize = 0;
    while j < entry_points.len()
        invariant
            j <= entry_points@.len(),
            base as int == spec_rbsp_to_nal(rbsp.epb@, data_offset as int),
            base + prefix_sum(entry_points@, entry_points@.len() as int) <= usize::MAX,
            nal_off == base + prefix_sum(entry_points@, j as int),
            starts@.len() == j + 1,
            starts@[0] == data_offset,
            forall|k: int|
                0 < k <= j ==> #[trigger] starts@[k] as int == spec_nal_to_rbsp(
                    rbsp.epb@,
                    base + prefix_sum(entry_points@, k),
                ),
        decreases entry_points@.len() - j,
    {
        proof {
            lemma_prefix_sum_mono(entry_points@, j as int + 1, entry_points@.len() as int);
        }
        nal_off = nal_off + entry_points[j] as usize;
        starts.push(rbsp.nal_to_rbsp(nal_off));
        j += 1;
    }
    starts
}

/// Prefix sums of unsigned entries grow with the prefix.
proof fn lemma_prefix_sum_mono(s: Seq<u32>, a: int, b: int)
    requires
        0 <= a <= b <= s.len(),
    ensures
        prefix_sum(s, a) <= prefix_sum(s, b),
    decreases b - a,
{
    if a < b {
        lemma_prefix_sum_mono(s, a, b - 1);
    }
}

/// Whether a wavefront row starting at CTB `rs` takes the contexts saved
/// after the second CTB of the row above (`saved_row` is the row they were
/// saved in): only when that row is the one just above, and its second CTB
/// (its first when the picture is one CTB wide) lies in the same tile and
/// slice. Otherwise the contexts are initialised afresh.
pub fn wpp_takes_saved(
    saved_row: Option<usize>,
    rs: usize,
    w_ctbs: usize,
    tile_id: &[u16],
    slice_addr: &[u32],
    slice_address: u32,
) -> (r: bool)
    requires
        w_ctbs > 0,
        rs < tile_id@.len(),
        rs < slice_addr@.len(),
        rs / w_ctbs > 0 ==> (rs / w_ctbs - 1) * w_ctbs + 1 < tile_id@.len() && (rs / w_ctbs - 1) * w_ctbs + 1
            < slice_addr@.len(),
    ensures
        ({
            let row = rs / w_ctbs;
            let ar = (row - 1) * w_ctbs + if w_ctbs > 1 { 1int } else { 0int };
            r == (row > 0 && saved_row == Some((row - 1) as usize) && tile_id@[ar] == tile_id@[rs as int] && slice_addr@[ar]
                == slice_address)
        }),
{
    let row: usize = rs / w_ctbs;
    let _n: usize = tile_id.len();
    if row > 0 {
        if let Some(sr) = saved_row {
            proof {
                assert(0 <= (row - 1) * w_ctbs <= rs) by (nonlinear_arith)
                    requires
                        row == rs / w_ctbs,
                        row > 0,
                        w_ctbs > 0,
                ;
            }
            let above_right: usize = (row - 1) * w_ctbs + if w_ctbs > 1 { 1 } else { 0 };
            if sr == row - 1 && tile_id[above_right] == tile_id[rs] && slice_addr[above_right] == slice_address {
                return true;
            }
        }
    }
    false
}

/// After the CTB at tile-scan address `ts` that did not end the slice
/// segment: the next CTB's raster address, and whether it starts a new
/// substream because it begins a new tile or, with wavefronts, a new CTB
/// row. A slice segment that runs past the last CTB is refused.
pub fn next_ctb(geo: &Geometry, ts: usize, wpp: bool) -> (r: Result<(usize, bool, bool)>)
    requires
        geo.tables_ok(),
        ts < geo.size_ctbs,
    ensures
        ts + 1 >= geo.size_ctbs ==> r == Err::<(usize, bool, bool), Error>(
            Error::InvalidData("slice runs past the end of the picture"),
        ),
        ts + 1 < geo.size_ctbs ==> ({
            let rs = geo.ts_to_rs@[ts as int] as int;
            let next = geo.ts_to_rs@[ts + 1] as int;
            r == Ok::<(usize, bool, bool), Error>(
                (
                    next as usize,
                    geo.tile_id@[next] != geo.tile_id@[rs],
                    wpp && next % geo.w_ctbs as int == 0,
                ),
            )
        }),
{
    if ts + 1 >= geo.size_ctbs {
        return Err(Error::InvalidData("slice runs past the end of the picture"));
    }
    let rs: usize = geo.ts_to_rs[ts] as usize;
    let next: usize = geo.ts_to_rs[ts + 1] as usize;
    proof {
        assert(geo.w_ctbs > 0) by (nonlinear_arith)
            requires
                geo.size_ctbs == geo.w_ctbs * geo.h_ctbs,
                ts < geo.size_ctbs,
        ;
        assert(0 <= rs < geo.size_ctbs);
        assert(0 <= next < geo.size_ctbs);
    }
    let new_tile = geo.tile_id[next] != geo.tile_id[rs];
    let new_row = wpp && next % geo.w_ctbs == 0;
    Ok((next, new_tile, new_row))
}

} // verus!
