//! The `grid` derived item: a picture stored as a mosaic of coded tiles.
//!
//! macOS begins tiling above 512 pixels on a side, so an ordinary iPhone
//! photograph is a grid, not a single coded picture. A 4032x3024 photograph is
//! 8 columns by 6 rows of 512x512 tiles; the last column and row overhang the
//! declared output size and are cropped away here.

pub mod mosaic;

use vstd::prelude::*;

use crate::error::{Error, Result};
use crate::hevc::frame::{ChromaFormat, Frame};
use mosaic::{PlaneKind, mosaic_ok, mosaic_sample, plane_size, sample};
use crate::reader::{Reader, be_value};
pub use mosaic::Mosaic;

verus! {

/// The parsed payload of a `grid` item.
#[derive(Debug, Clone, Copy, PartialEq, Eq, Structural)]
pub struct Grid {
    /// Tiles down.
    pub rows: u32,
    /// Tiles across.
    pub columns: u32,
    /// Width of the composed image after cropping.
    pub output_width: u32,
    /// Height of the composed image after cropping.
    pub output_height: u32,
}

impl Grid {
    /// How many tiles the `dimg` reference must list.
    pub fn tile_count(&self) -> (r: u64)
        ensures
            r == self.rows * self.columns,
    {
        proof {
            assert(self.rows * self.columns <= 0xffff_ffff * 0xffff_ffff) by (nonlinear_arith)
                requires
                    self.rows <= 0xffff_ffff,
                    self.columns <= 0xffff_ffff,
            ;
        }
        self.rows as u64 * self.columns as u64
    }
}

/// The grid a well-formed `grid` payload describes: rows and columns stored
/// minus one, then the output size in 16 bits, or 32 when bit 0 of the flags
/// is set.
pub open spec fn grid_of(p: Seq<u8>) -> Grid {
    let wide = p[1] % 2 == 1;
    Grid {
        rows: (p[2] + 1) as u32,
        columns: (p[3] + 1) as u32,
        output_width: if wide {
            be_value(p.subrange(4, 8)) as u32
        } else {
            be_value(p.subrange(4, 6)) as u32
        },
        output_height: if wide {
            be_value(p.subrange(8, 12)) as u32
        } else {
            be_value(p.subrange(6, 8)) as u32
        },
    }
}

/// Bytes a `grid` payload with these flags occupies.
pub open spec fn grid_len(p: Seq<u8>) -> int {
    if p[1] % 2 == 1 {
        12
    } else {
        8
    }
}

/// Parse a `grid` item payload.
///
/// The two dimensions are 16-bit unless bit 0 of `flags` is set, in which case
/// they are 32-bit.
pub fn parse(data: &[u8]) -> (r: Result<Grid>)
    ensures
        data@.len() < 1 ==> r matches Err(Error::Truncated(_)),
        data@.len() >= 1 && data@[0] != 0 ==> r == Err::<Grid, Error>(Error::Unsupported("grid version above 0")),
        data@.len() >= 1 && data@[0] == 0 ==> {
            &&& data@.len() < 2 ==> (r matches Err(Error::Truncated(_)))
            &&& data@.len() >= 2 && data@.len() < grid_len(data@) ==> (r matches Err(
                Error::Truncated(_),
            ))
            &&& data@.len() >= 2 && data@.len() >= grid_len(data@) ==> {
                let g = grid_of(data@);
                &&& (g.output_width == 0 || g.output_height == 0) ==> r == Err::<Grid, Error>(
                    Error::Malformed("grid declares a zero output dimension"),
                )
                &&& (g.output_width != 0 && g.output_height != 0) ==> r == Ok::<Grid, Error>(g)
            }
        },
{
    let mut r = Reader::new(data);
    let version = match r.u8("grid version") {
        Ok(v) => v,
        Err(e) => {
            return Err(e);
        },
    };
    if version != 0 {
        return Err(Error::Unsupported("grid version above 0"));
    }
    let flags = match r.u8("grid flags") {
        Ok(v) => v,
        Err(e) => {
            return Err(e);
        },
    };
    proof {
        assert(flags & 1u8 == flags % 2) by (bit_vector);
    }
    let rows_m1 = match r.u8("grid rows") {
        Ok(v) => v,
        Err(e) => {
            return Err(e);
        },
    };
    let cols_m1 = match r.u8("grid columns") {
        Ok(v) => v,
        Err(e) => {
            return Err(e);
        },
    };
    let rows = rows_m1 as u32 + 1;
    let columns = cols_m1 as u32 + 1;
    let ghost r4 = r;
    let (output_width, output_height) = if flags & 1 != 0 {
        let w = match r.u32("grid output width") {
            Ok(v) => v,
            Err(e) => {
                return Err(e);
            },
        };
        let h = match r.u32("grid output height") {
            Ok(v) => v,
            Err(e) => {
                return Err(e);
            },
        };
        proof {
            assert(r4.ahead(4) =~= data@.subrange(4, 8));
            assert(data@.subrange(8, 12) =~= data@.subrange(8, 12));
        }
        (w, h)
    } else {
        let w = match r.u16("grid output width") {
            Ok(v) => v,
            Err(e) => {
                return Err(e);
            },
        };
        let h = match r.u16("grid output height") {
            Ok(v) => v,
            Err(e) => {
                return Err(e);
            },
        };
        proof {
            assert(r4.ahead(2) =~= data@.subrange(4, 6));
        }
        (w as u32, h as u32)
    };
    if output_width == 0 || output_height == 0 {
        return Err(Error::Malformed("grid declares a zero output dimension"));
    }
    Ok(Grid { rows, columns, output_width, output_height })
}

/// Check that a `dimg` tile list matches what the grid asked for.
pub fn check_tiles(grid: &Grid, tiles: &[u32]) -> (r: Result<()>)
    ensures
        r is Ok <==> tiles@.len() == grid.rows * grid.columns,
        r matches Err(e) ==> e is Malformed,
{
    if tiles.len() as u64 != grid.tile_count() {
        return Err(
            Error::Malformed("the grid's tile count disagrees with the length of its dimg reference"),
        );
    }
    Ok(())
}

/// Refuse a picture of more than `max_pixels` pixels.
pub fn check_pixels(width: u32, height: u32, max_pixels: u64) -> (r: Result<()>)
    ensures
        r is Ok <==> width * height <= max_pixels,
        r matches Err(e) ==> e == (Error::PixelLimit { pixels: (width * height) as u64, max_pixels }),
{
    proof {
        assert(width * height <= 0xffff_ffff * 0xffff_ffff) by (nonlinear_arith)
            requires
                width <= 0xffff_ffff,
                height <= 0xffff_ffff,
        ;
    }
    let pixels = width as u64 * height as u64;
    if pixels > max_pixels {
        return Err(Error::PixelLimit { pixels, max_pixels });
    }
    Ok(())
}

/// `f` is the picture `tiles` compose under `grid`: the output size, the
/// tiles' pixel format, tightly packed planes, and every sample of every
/// plane taken from the tile that covers it.
pub open spec fn composed(grid: Grid, tiles: Seq<Frame>, f: Frame) -> bool {
    let t0 = tiles[0];
    let (w, h) = (grid.output_width as int, grid.output_height as int);
    let (cw, ch) = t0.chroma.spec_chroma_size(grid.output_width, grid.output_height);
    let (tcw, tch) = t0.chroma.spec_chroma_size(t0.width, t0.height);
    let columns = grid.columns as int;
    &&& f.width == grid.output_width
    &&& f.height == grid.output_height
    &&& f.bit_depth == t0.bit_depth
    &&& f.chroma == t0.chroma
    &&& f.y_stride == grid.output_width
    &&& f.c_stride == cw
    &&& f.y@.len() == w * h
    &&& f.cb@.len() == cw * ch
    &&& f.cr@.len() == cw * ch
    &&& forall|x: int, y: int|
        0 <= x < w && 0 <= y < h ==> #[trigger] sample(f, PlaneKind::Luma, x, y) == mosaic_sample(
            tiles,
            columns,
            t0.width as int,
            t0.height as int,
            PlaneKind::Luma,
            x,
            y,
        )
    &&& forall|x: int, y: int|
        0 <= x < cw && 0 <= y < ch ==> #[trigger] sample(f, PlaneKind::Cb, x, y) == mosaic_sample(
            tiles,
            columns,
            tcw as int,
            tch as int,
            PlaneKind::Cb,
            x,
            y,
        )
    &&& forall|x: int, y: int|
        0 <= x < cw && 0 <= y < ch ==> #[trigger] sample(f, PlaneKind::Cr, x, y) == mosaic_sample(
            tiles,
            columns,
            tcw as int,
            tch as int,
            PlaneKind::Cr,
            x,
            y,
        )
}

/// Compose decoded tiles into one frame, cropped to the grid's output size.
///
/// Tiles are laid out row-major in the order the `dimg` reference listed them,
/// which is the order the caller must pass them in.
///
/// This is [`Mosaic`] run over every row into a fresh frame. A grid with a
/// zero output width has no rows to cut the luma plane into, and is not
/// accepted; `parse` never yields one.
pub fn compose(grid: &Grid, tiles: &[Frame], max_pixels: u64) -> (r: Result<Frame>)
    requires
        grid.output_width > 0,
    ensures
        !mosaic_ok(*grid, tiles@) ==> (r matches Err(e) && (e is Malformed || e is Unsupported)),
        mosaic_ok(*grid, tiles@) && grid.output_width * grid.output_height > max_pixels ==> r
            == Err::<Frame, Error>(
            Error::PixelLimit {
                pixels: (grid.output_width * grid.output_height) as u64,
                max_pixels,
            },
        ),
        mosaic_ok(*grid, tiles@) && grid.output_width * grid.output_height <= max_pixels ==> (r matches Ok(
            f,
        ) && composed(*grid, tiles@, f)),
{
    let mosaic = match Mosaic::new(grid, tiles) {
        Ok(m) => m,
        Err(e) => {
            return Err(e);
        },
    };
    if let Err(e) = check_pixels(mosaic.width(), mosaic.height(), max_pixels) {
        return Err(e);
    }
    let (w, h) = (mosaic.width() as usize, mosaic.height() as usize);
    let (cw, ch) = mosaic.chroma_size();
    let (cw, ch) = (cw as usize, ch as usize);
    let y = match mosaic.fill_plane(PlaneKind::Luma, w, h) {
        Some(p) => p,
        None => {
            return Err(Error::Malformed("grid tile is shorter than the row it must supply"));
        },
    };
    let (cb, cr) = if cw > 0 {
        let cb = match mosaic.fill_plane(PlaneKind::Cb, cw, ch) {
            Some(p) => p,
            None => {
                return Err(Error::Malformed("grid tile is shorter than the row it must supply"));
            },
        };
        let cr = match mosaic.fill_plane(PlaneKind::Cr, cw, ch) {
            Some(p) => p,
            None => {
                return Err(Error::Malformed("grid tile is shorter than the row it must supply"));
            },
        };
        (cb, cr)
    } else {
        (Vec::new(), Vec::new())
    };
    let f = Frame {
        width: mosaic.width(),
        height: mosaic.height(),
        bit_depth: mosaic.bit_depth(),
        chroma: mosaic.chroma(),
        y,
        cb,
        cr,
        y_stride: mosaic.width(),
        c_stride: cw as u32,
    };
    proof {
        let t0 = tiles@[0];
        let (tcw, tch) = t0.chroma.spec_chroma_size(t0.width, t0.height);
        let columns = grid.columns as int;
        assert forall|x: int, yy: int| 0 <= x < w && 0 <= yy < h implies #[trigger] sample(
            f,
            PlaneKind::Luma,
            x,
            yy,
        ) == mosaic_sample(
            tiles@,
            columns,
            t0.width as int,
            t0.height as int,
            PlaneKind::Luma,
            x,
            yy,
        ) by {
            assert(mosaic::at(f.y@, w as int, x, yy) == f.y@[yy * w + x]);
        }
        if cw > 0 {
            assert forall|x: int, yy: int| 0 <= x < cw && 0 <= yy < ch implies #[trigger] sample(
                f,
                PlaneKind::Cb,
                x,
                yy,
            ) == mosaic_sample(tiles@, columns, tcw as int, tch as int, PlaneKind::Cb, x, yy) by {
                assert(mosaic::at(f.cb@, cw as int, x, yy) == f.cb@[yy * cw + x]);
            }
            assert forall|x: int, yy: int| 0 <= x < cw && 0 <= yy < ch implies #[trigger] sample(
                f,
                PlaneKind::Cr,
                x,
                yy,
            ) == mosaic_sample(tiles@, columns, tcw as int, tch as int, PlaneKind::Cr, x, yy) by {
                assert(mosaic::at(f.cr@, cw as int, x, yy) == f.cr@[yy * cw + x]);
            }
        }
    }
    Ok(f)
}

} // verus!
