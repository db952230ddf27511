//! A grid's decoded tiles read as one picture, a row at a time.
//!
//! [`Mosaic`] does the checks once and then answers "row `y` of the picture"
//! by copying that row's segments out of the tiles that hold them into a
//! buffer the caller is about to read anyway. [`crate::grid::compose`] is
//! exactly that, run over every row into a fresh frame, so the two cannot
//! disagree about a sample.

use vstd::prelude::*;

use crate::error::{Error, Result};
use crate::grid::Grid;
use crate::hevc::frame::{ChromaFormat, Frame};

verus! {

/// Which plane of a frame a row is read from.
#[derive(Debug, Clone, Copy, PartialEq, Eq, Structural)]
pub enum PlaneKind {
    /// The luma plane.
    Luma,
    /// The Cb plane.
    Cb,
    /// The Cr plane.
    Cr,
}

/// The samples and stride of one plane of a frame.
pub open spec fn plane_of(f: Frame, k: PlaneKind) -> (Seq<u16>, int) {
    match k {
        PlaneKind::Luma => (f.y@, f.y_stride as int),
        PlaneKind::Cb => (f.cb@, f.c_stride as int),
        PlaneKind::Cr => (f.cr@, f.c_stride as int),
    }
}

/// Sample `(x, y)` of one plane of a frame.
pub open spec fn sample(f: Frame, k: PlaneKind, x: int, y: int) -> u16 {
    let (s, stride) = plane_of(f, k);
    s[y * stride + x]
}

/// The size of one plane of a frame of the given luma size.
pub open spec fn plane_size(chroma: ChromaFormat, k: PlaneKind, w: u32, h: u32) -> (u32, u32) {
    if k == PlaneKind::Luma {
        (w, h)
    } else {
        chroma.spec_chroma_size(w, h)
    }
}

/// Sample `(x, y)` of one plane of the picture the tiles compose, tiles
/// being `tw` by `th` samples in that plane and laid out `columns` across.
pub open spec fn mosaic_sample(
    tiles: Seq<Frame>,
    columns: int,
    tw: int,
    th: int,
    k: PlaneKind,
    x: int,
    y: int,
) -> u16 {
    sample(tiles[(y / th) * columns + x / tw], k, x % tw, y % th)
}

/// `tiles`, in `dimg` order, can form `grid`: as many as it asks for, all
/// valid, all of the first one's size and format, together at least as large
/// as the output, and starting on chroma samples unless monochrome.
pub open spec fn mosaic_ok(grid: Grid, tiles: Seq<Frame>) -> bool {
    &&& tiles.len() == grid.rows * grid.columns
    &&& tiles.len() > 0
    &&& forall|i: int| 0 <= i < tiles.len() ==> #[trigger] tiles[i].valid()
    &&& forall|i: int|
        #![trigger tiles[i]]
        0 <= i < tiles.len() ==> tiles[i].width == tiles[0].width && tiles[i].height
            == tiles[0].height && tiles[i].chroma == tiles[0].chroma && tiles[i].bit_depth
            == tiles[0].bit_depth
    &&& tiles[0].width * grid.columns >= grid.output_width
    &&& tiles[0].height * grid.rows >= grid.output_height
    &&& tiles[0].chroma != ChromaFormat::Monochrome ==> {
        &&& (grid.columns == 1 || tiles[0].width as int % two_to_shift(tiles[0].chroma.spec_x_shift()) == 0)
        &&& (grid.rows == 1 || tiles[0].height as int % two_to_shift(tiles[0].chroma.spec_y_shift()) == 0)
    }
}

/// `2^s` for a chroma shift.
pub open spec fn two_to_shift(s: u32) -> int {
    if s == 0 {
        1
    } else {
        2
    }
}

/// Decoded tiles, checked once, readable as rows of the composed picture.
#[derive(Debug, Clone, Copy)]
pub struct Mosaic<'a> {
    grid: Grid,
    tiles: &'a [Frame],
    tile_w: u32,
    tile_h: u32,
    chroma: ChromaFormat,
    bit_depth: u8,
}

impl<'a> Mosaic<'a> {
    /// The grid.
    pub closed spec fn spec_grid(&self) -> Grid {
        self.grid
    }

    /// The tiles.
    pub closed spec fn spec_tiles(&self) -> Seq<Frame> {
        self.tiles@
    }

    /// The checks `new` made still describe the fields.
    pub closed spec fn wf(&self) -> bool {
        &&& mosaic_ok(self.grid, self.tiles@)
        &&& self.tile_w == self.tiles@[0].width
        &&& self.tile_h == self.tiles@[0].height
        &&& self.chroma == self.tiles@[0].chroma
        &&& self.bit_depth == self.tiles@[0].bit_depth
    }

    /// Check that `tiles`, in `dimg` order, can form `grid`.
    ///
    /// Every tile must be valid, the same size and the same pixel format;
    /// together they must cover the declared output; and, unless the picture
    /// is monochrome, every tile must start on a chroma sample, or the mosaic
    /// could not be reassembled without resampling.
    pub fn new(grid: &Grid, tiles: &'a [Frame]) -> (r: Result<Mosaic<'a>>)
        ensures
            r is Ok <==> mosaic_ok(*grid, tiles@),
            r matches Ok(m) ==> m.wf() && m.spec_grid() == *grid && m.spec_tiles() == tiles@,
            r matches Err(e) ==> e is Malformed || e is Unsupported,
    {
        if tiles.len() as u64 != grid.tile_count() {
            return Err(
                Error::Malformed("the grid's tile count disagrees with the number of decoded tiles"),
            );
        }
        if tiles.len() == 0 {
            return Err(Error::Malformed("grid has no tiles"));
        }
        let first = &tiles[0];
        let (tile_w, tile_h) = (first.width, first.height);
        let (chroma, bit_depth) = (first.chroma, first.bit_depth);
        let mut i: usize = 0;
        while i < tiles.len()
            invariant
                i <= tiles@.len(),
                tiles@.len() > 0,
                tile_w == tiles@[0].width,
                tile_h == tiles@[0].height,
                chroma == tiles@[0].chroma,
                bit_depth == tiles@[0].bit_depth,
                forall|j: int| 0 <= j < i ==> #[trigger] tiles@[j].valid(),
                forall|j: int|
                    #![trigger tiles@[j]]
                    0 <= j < i ==> tiles@[j].width == tile_w && tiles@[j].height == tile_h
                        && tiles@[j].chroma == chroma && tiles@[j].bit_depth == bit_depth,
            decreases tiles@.len() - i,
        {
            let t = &tiles[i];
            if let Err(e) = t.validate() {
                return Err(e);
            }
            if t.width != tile_w || t.height != tile_h {
                return Err(Error::Malformed("grid tiles are not all the same size"));
            }
            if t.chroma != chroma || t.bit_depth != bit_depth {
                return Err(Error::Malformed("grid tiles do not share a pixel format"));
            }
            i += 1;
        }
        proof {
            assert(tile_w * grid.columns <= 0xffff_ffff * 0xffff_ffff) by (nonlinear_arith)
                requires
                    tile_w <= 0xffff_ffff,
                    grid.columns <= 0xffff_ffff,
            ;
            assert(tile_h * grid.rows <= 0xffff_ffff * 0xffff_ffff) by (nonlinear_arith)
                requires
                    tile_h <= 0xffff_ffff,
                    grid.rows <= 0xffff_ffff,
            ;
        }
        let canvas_w = tile_w as u64 * grid.columns as u64;
        let canvas_h = tile_h as u64 * grid.rows as u64;
        if canvas_w < grid.output_width as u64 || canvas_h < grid.output_height as u64 {
            return Err(Error::Malformed("grid tiles do not cover the declared output size"));
        }
        let (xs, ys) = (chroma.x_shift(), chroma.y_shift());
        let x_sited = grid.columns == 1 || (xs == 0 || tile_w % 2 == 0);
        let y_sited = grid.rows == 1 || (ys == 0 || tile_h % 2 == 0);
        if chroma != ChromaFormat::Monochrome && !(x_sited && y_sited) {
            return Err(Error::Unsupported("grid tile origin is not on a chroma sample"));
        }
        Ok(Mosaic { grid: *grid, tiles, tile_w, tile_h, chroma, bit_depth })
    }

    /// Width of the composed picture.
    pub fn width(&self) -> (r: u32)
        ensures
            r == self.spec_grid().output_width,
    {
        self.grid.output_width
    }

    /// Height of the composed picture.
    pub fn height(&self) -> (r: u32)
        ensures
            r == self.spec_grid().output_height,
    {
        self.grid.output_height
    }

    /// Chroma sampling, shared by every tile.
    pub fn chroma(&self) -> (r: ChromaFormat)
        requires
            self.wf(),
        ensures
            r == self.spec_tiles()[0].chroma,
    {
        self.chroma
    }

    /// Bit depth, shared by every tile.
    pub fn bit_depth(&self) -> (r: u8)
        requires
            self.wf(),
        ensures
            r == self.spec_tiles()[0].bit_depth,
    {
        self.bit_depth
    }

    /// Size of each chroma plane of the composed picture.
    pub fn chroma_size(&self) -> (r: (u32, u32))
        requires
            self.wf(),
        ensures
            r == self.spec_tiles()[0].chroma.spec_chroma_size(
                self.spec_grid().output_width,
                self.spec_grid().output_height,
            ),
    {
        self.chroma.chroma_size(self.grid.output_width, self.grid.output_height)
    }

    /// What a row request leaves in `dst`: the first `columns * tile width`
    /// samples (or all of `dst`, if shorter) are row `y` of the composed
    /// plane, and the rest of `dst` is untouched.
    pub open spec fn row_written(&self, k: PlaneKind, y: int, old_dst: Seq<u16>, dst: Seq<u16>) -> bool {
        let t0 = self.spec_tiles()[0];
        let (tw, th) = plane_size(t0.chroma, k, t0.width, t0.height);
        let filled = if old_dst.len() < self.spec_grid().columns * tw {
            old_dst.len() as int
        } else {
            (self.spec_grid().columns * tw) as int
        };
        &&& dst.len() == old_dst.len()
        &&& forall|i: int|
            0 <= i < filled ==> #[trigger] dst[i] == mosaic_sample(
                self.spec_tiles(),
                self.spec_grid().columns as int,
                tw as int,
                th as int,
                k,
                i,
                y,
            )
        &&& forall|i: int| filled <= i < dst.len() ==> #[trigger] dst[i] == old_dst[i]
    }

    /// Copy luma row `y` into `dst`, which is [`width`](Mosaic::width) long.
    ///
    /// `None` means the row does not exist.
    pub fn luma_row(&self, y: usize, dst: &mut [u16]) -> (r: Option<()>)
        requires
            self.wf(),
        ensures
            r is Some <==> y < self.spec_grid().output_height,
            r is Some ==> self.row_written(PlaneKind::Luma, y as int, old(dst)@, final(dst)@),
            r is None ==> final(dst)@ == old(dst)@,
    {
        proof {
            assert(self.spec_tiles()[0].valid());
        }
        let rows = self.height() as usize;
        self.stitch(y, rows, self.tile_w as usize, self.tile_h as usize, dst, PlaneKind::Luma)
    }

    /// Copy row `r` of the Cb plane (`cr` false) or the Cr plane (`cr` true)
    /// into `dst`, which is the chroma width long.
    pub fn chroma_row(&self, cr: bool, r: usize, dst: &mut [u16]) -> (res: Option<()>)
        requires
            self.wf(),
        ensures
            ({
                let k = if cr {
                    PlaneKind::Cr
                } else {
                    PlaneKind::Cb
                };
                let t0 = self.spec_tiles()[0];
                let (tcw, tch) = t0.chroma.spec_chroma_size(t0.width, t0.height);
                let rows = t0.chroma.spec_chroma_size(
                    self.spec_grid().output_width,
                    self.spec_grid().output_height,
                ).1;
                &&& res is Some <==> r < rows && tcw > 0 && tch > 0
                &&& res is Some ==> self.row_written(k, r as int, old(dst)@, final(dst)@)
                &&& res is None ==> final(dst)@ == old(dst)@
            }),
    {
        proof {
            assert(self.spec_tiles()[0].valid());
        }
        let (tcw, tch) = self.chroma.chroma_size(self.tile_w, self.tile_h);
        let rows = self.chroma_size().1 as usize;
        let k = if cr {
            PlaneKind::Cr
        } else {
            PlaneKind::Cb
        };
        self.stitch(r, rows, tcw as usize, tch as usize, dst, k)
    }

    /// Assemble row `y` of a plane `rows` tall from the tiles across it,
    /// clipping the last tile at the picture's edge.
    fn stitch(
        &self,
        y: usize,
        rows: usize,
        tile_w: usize,
        tile_h: usize,
        dst: &mut [u16],
        k: PlaneKind,
    ) -> (r: Option<()>)
        requires
            self.wf(),
            (tile_w as u32, tile_h as u32) == plane_size(
                self.spec_tiles()[0].chroma,
                k,
                self.spec_tiles()[0].width,
                self.spec_tiles()[0].height,
            ),
            rows == plane_size(
                self.spec_tiles()[0].chroma,
                k,
                self.spec_grid().output_width,
                self.spec_grid().output_height,
            ).1,
            tile_w <= u32::MAX,
            tile_h <= u32::MAX,
            k != PlaneKind::Luma ==> self.spec_tiles()[0].chroma != ChromaFormat::Monochrome || (
            tile_w == 0 && tile_h == 0),
        ensures
            r is Some <==> y < rows && tile_w > 0 && tile_h > 0,
            r is Some ==> self.row_written(k, y as int, old(dst)@, final(dst)@),
            r is None ==> final(dst)@ == old(dst)@,
    {
        if y >= rows || tile_w == 0 || tile_h == 0 {
            return None;
        }
        proof {
            self.lemma_rows_in_tiles(k, y as int);
        }
        let (row, local) = (y / tile_h, y % tile_h);
        let columns = self.grid.columns as usize;
        let ntiles = self.tiles.len();
        proof {
            assert(row * columns < ntiles) by (nonlinear_arith)
                requires
                    row < self.spec_grid().rows,
                    columns == self.spec_grid().columns,
                    ntiles > 0,
                    ntiles == self.spec_grid().rows * self.spec_grid().columns,
            ;
        }
        let first = row * columns;
        let dlen = dst.len();
        let ghost old_dst = dst@;
        let ghost filled = if old_dst.len() < columns * tile_w {
            old_dst.len() as int
        } else {
            (columns * tile_w) as int
        };
        let mut x: usize = 0;
        let mut col: usize = 0;
        while col < columns
            invariant_except_break
                x == col * tile_w,
            invariant
                self.wf(),
                col <= columns,
                columns == self.spec_grid().columns,
                first == row * columns,
                row < self.spec_grid().rows,
                local < tile_h,
                ntiles == self.spec_tiles().len(),
                tile_w <= u32::MAX,
                tile_h <= u32::MAX,
                dlen == dst@.len(),
                row == y as int / tile_h as int,
                local == y as int % tile_h as int,
                tile_w > 0,
                tile_h > 0,
                (tile_w as u32, tile_h as u32) == plane_size(
                    self.spec_tiles()[0].chroma,
                    k,
                    self.spec_tiles()[0].width,
                    self.spec_tiles()[0].height,
                ),
                k != PlaneKind::Luma ==> self.spec_tiles()[0].chroma != ChromaFormat::Monochrome,
                x <= dst@.len(),
                x <= filled,
                dst@.len() == old_dst.len(),
                filled == (if old_dst.len() < columns * tile_w {
                    old_dst.len() as int
                } else {
                    (columns * tile_w) as int
                }),
                forall|i: int|
                    0 <= i < x ==> #[trigger] dst@[i] == mosaic_sample(
                        self.spec_tiles(),
                        columns as int,
                        tile_w as int,
                        tile_h as int,
                        k,
                        i,
                        y as int,
                    ),
                forall|i: int| x <= i < dst@.len() ==> #[trigger] dst@[i] == old_dst[i],
            ensures
                x == filled,
                forall|i: int|
                    0 <= i < x ==> #[trigger] dst@[i] == mosaic_sample(
                        self.spec_tiles(),
                        columns as int,
                        tile_w as int,
                        tile_h as int,
                        k,
                        i,
                        y as int,
                    ),
                forall|i: int| x <= i < dst@.len() ==> #[trigger] dst@[i] == old_dst[i],
                dst@.len() == old_dst.len(),
            decreases columns - col,
        {
            if x == dst.len() {
                break;
            }
            let n = if tile_w < dst.len() - x {
                tile_w
            } else {
                dst.len() - x
            };
            proof {
                assert(first + col < self.spec_tiles().len()) by (nonlinear_arith)
                    requires
                        first == row * columns,
                        col < columns,
                        row < self.spec_grid().rows,
                        self.spec_tiles().len() == self.spec_grid().rows * self.spec_grid().columns,
                        columns == self.spec_grid().columns,
                ;
            }
            let tile = &self.tiles[first + col];
            proof {
                self.lemma_tile_plane(first + col, k, local as int, tile_w as int);
            }
            let (samples, stride) = match k {
                PlaneKind::Luma => (&tile.y, tile.y_stride as usize),
                PlaneKind::Cb => (&tile.cb, tile.c_stride as usize),
                PlaneKind::Cr => (&tile.cr, tile.c_stride as usize),
            };
            let slen = samples.len();
            let s = local * stride;
            let mut j: usize = 0;
            while j < n
                invariant
                    j <= n <= tile_w,
                    x + n <= dst@.len(),
                    dlen == dst@.len(),
                    slen == samples@.len(),
                    x == col * tile_w,
                    s + tile_w <= samples@.len(),
                    s == local * stride,
                    dst@.len() == old_dst.len(),
                    (samples@, stride as int) == plane_of(self.spec_tiles()[first + col], k),
                    forall|i: int|
                        0 <= i < x ==> #[trigger] dst@[i] == mosaic_sample(
                            self.spec_tiles(),
                            columns as int,
                            tile_w as int,
                            tile_h as int,
                            k,
                            i,
                            y as int,
                        ),
                    forall|i: int| 0 <= i < j ==> #[trigger] dst@[x + i] == samples@[s + i],
                    forall|i: int| x + j <= i < dst@.len() ==> #[trigger] dst@[i] == old_dst[i],
                decreases n - j,
            {
                dst[x + j] = samples[s + j];
                j += 1;
            }
            proof {
                assert forall|i: int| x <= i < x + n implies #[trigger] dst@[i] == mosaic_sample(
                    self.spec_tiles(),
                    columns as int,
                    tile_w as int,
                    tile_h as int,
                    k,
                    i,
                    y as int,
                ) by {
                    assert(dst@[x + (i - x)] == samples@[s + (i - x)]);
                    assert(i / tile_w as int == col as int) by (nonlinear_arith)
                        requires
                            x == col * tile_w,
                            x <= i < x + n,
                            n <= tile_w,
                    ;
                    assert(i % tile_w as int == i - x) by (nonlinear_arith)
                        requires
                            x == col * tile_w,
                            x <= i < x + n,
                            n <= tile_w,
                    ;
                }
                assert(x + n <= filled) by (nonlinear_arith)
                    requires
                        x == col * tile_w,
                        col < columns,
                        n <= tile_w,
                        x + n <= old_dst.len(),
                        filled == (if old_dst.len() < columns * tile_w {
                            old_dst.len() as int
                        } else {
                            (columns * tile_w) as int
                        }),
                ;
            }
            x += n;
            col += 1;
            proof {
                if n == tile_w {
                    assert(x == col * tile_w) by (nonlinear_arith)
                        requires
                            x == (col - 1) * tile_w + tile_w,
                    ;
                }
            }
            if n < tile_w {
                proof {
                    assert(x == dst@.len());
                }
                break;
            }
        }
        proof {
            assert(self.row_written(k, y as int, old_dst, dst@));
        }
        Some(())
    }

    /// The picture a plane of `w` by `h` samples holds, row-major and tightly
    /// packed, is that plane of the composed picture.
    pub open spec fn plane_holds(&self, k: PlaneKind, v: Seq<u16>, w: int, h: int) -> bool {
        let t0 = self.spec_tiles()[0];
        let (tw, th) = plane_size(t0.chroma, k, t0.width, t0.height);
        &&& v.len() == w * h
        &&& forall|x: int, y: int|
            0 <= x < w && 0 <= y < h ==> #[trigger] at(v, w, x, y) == mosaic_sample(
                self.spec_tiles(),
                self.spec_grid().columns as int,
                tw as int,
                th as int,
                k,
                x,
                y,
            )
    }

    /// Read a whole plane of the composed picture, `w` by `h` samples, row by
    /// row. `None` would mean a row the checks of [`Mosaic::new`] promised
    /// could not be supplied; it never comes.
    pub(crate) fn fill_plane(&self, k: PlaneKind, w: usize, h: usize) -> (r: Option<Vec<u16>>)
        requires
            self.wf(),
            w <= u32::MAX,
            h <= u32::MAX,
            (w as u32, h as u32) == plane_size(
                self.spec_tiles()[0].chroma,
                k,
                self.spec_grid().output_width,
                self.spec_grid().output_height,
            ),
            k != PlaneKind::Luma ==> self.spec_tiles()[0].chroma != ChromaFormat::Monochrome,
        ensures
            r matches Some(v) && self.plane_holds(k, v@, w as int, h as int),
    {
        proof {
            assert(self.spec_tiles()[0].valid());
            self.lemma_plane_covered(k);
            assert(w * h <= 0xffff_ffff * 0xffff_ffff) by (nonlinear_arith)
                requires
                    w <= 0xffff_ffff,
                    h <= 0xffff_ffff,
            ;
        }
        let ghost t0 = self.spec_tiles()[0];
        let ghost tw = plane_size(t0.chroma, k, t0.width, t0.height).0 as int;
        let ghost th = plane_size(t0.chroma, k, t0.width, t0.height).1 as int;
        let ghost columns = self.spec_grid().columns as int;
        let mut out: Vec<u16> = Vec::new();
        let mut row: Vec<u16> = vec![0u16; w];
        let mut y: usize = 0;
        while y < h
            invariant
                self.wf(),
                y <= h,
                row@.len() == w,
                w <= u32::MAX,
                h <= u32::MAX,
                t0 == self.spec_tiles()[0],
                columns == self.spec_grid().columns,
                (tw, th) == (plane_size(t0.chroma, k, t0.width, t0.height).0 as int, plane_size(
                    t0.chroma,
                    k,
                    t0.width,
                    t0.height,
                ).1 as int),
                (w as u32, h as u32) == plane_size(
                    t0.chroma,
                    k,
                    self.spec_grid().output_width,
                    self.spec_grid().output_height,
                ),
                k != PlaneKind::Luma ==> t0.chroma != ChromaFormat::Monochrome,
                t0.valid(),
                columns * tw >= w,
                out@.len() == y * w,
                forall|x: int, yy: int|
                    0 <= x < w && 0 <= yy < y ==> #[trigger] at(out@, w as int, x, yy)
                        == mosaic_sample(self.spec_tiles(), columns, tw, th, k, x, yy),
            decreases h - y,
        {
            let got = match k {
                PlaneKind::Luma => self.luma_row(y, row.as_mut_slice()),
                PlaneKind::Cb => self.chroma_row(false, y, row.as_mut_slice()),
                PlaneKind::Cr => self.chroma_row(true, y, row.as_mut_slice()),
            };
            if got.is_none() {
                return None;
            }
            let ghost base = out@;
            proof {
                lemma_row_start(y as int, w as int, h as int);
            }
            let mut j: usize = 0;
            while j < w
                invariant
                    j <= w,
                    row@.len() == w,
                    out@.len() == y * w + j,
                    y < h,
                    y * w + w <= w * h,
                    base.len() == y * w,
                    forall|i: int| 0 <= i < base.len() ==> #[trigger] out@[i] == base[i],
                    forall|i: int| 0 <= i < j ==> #[trigger] out@[y * w + i] == row@[i],
                decreases w - j,
            {
                out.push(row[j]);
                j += 1;
            }
            proof {
                assert forall|x: int, yy: int|
                    0 <= x < w && 0 <= yy < y + 1 implies #[trigger] at(out@, w as int, x, yy)
                    == mosaic_sample(self.spec_tiles(), columns, tw, th, k, x, yy) by {
                    lemma_row_index(x, yy, w as int, y as int);
                    if yy < y {
                        assert(at(base, w as int, x, yy) == mosaic_sample(
                            self.spec_tiles(),
                            columns,
                            tw,
                            th,
                            k,
                            x,
                            yy,
                        ));
                    } else {
                        assert(out@[y * w + x] == row@[x]);
                    }
                }
                assert(out@.len() == (y + 1) * w) by (nonlinear_arith)
                    requires
                        out@.len() == y * w + w,
                ;
            }
            y += 1;
        }
        proof {
            assert(out@.len() == w * h) by (nonlinear_arith)
                requires
                    out@.len() == h * w,
            ;
        }
        Some(out)
    }

    /// The tiles across a plane cover its width.
    proof fn lemma_plane_covered(&self, k: PlaneKind)
        requires
            self.wf(),
        ensures
            ({
                let t0 = self.spec_tiles()[0];
                let tw = plane_size(t0.chroma, k, t0.width, t0.height).0;
                let w = plane_size(
                    t0.chroma,
                    k,
                    self.spec_grid().output_width,
                    self.spec_grid().output_height,
                ).0;
                self.spec_grid().columns * tw >= w
            }),
    {
        let t0 = self.spec_tiles()[0];
        let g = self.spec_grid();
        let c = g.columns as int;
        let tw0 = t0.width as int;
        let ow = g.output_width as int;
        assert(t0.width * g.columns >= g.output_width);
        assert(c * tw0 >= ow) by (nonlinear_arith)
            requires
                tw0 * c >= ow,
        ;
        if k != PlaneKind::Luma && t0.chroma != ChromaFormat::Monochrome
            && t0.chroma.spec_x_shift() == 1 {
            assert(c * ((tw0 + 1) / 2) >= (ow + 1) / 2) by (nonlinear_arith)
                requires
                    c * tw0 >= ow,
                    c >= 0,
                    tw0 >= 0,
                    ow >= 0,
            ;
        }
    }

    /// The tile row holding row `y` exists.
    proof fn lemma_rows_in_tiles(&self, k: PlaneKind, y: int)
        requires
            self.wf(),
            ({
                let t0 = self.spec_tiles()[0];
                let (tw, th) = plane_size(t0.chroma, k, t0.width, t0.height);
                let rows = plane_size(
                    t0.chroma,
                    k,
                    self.spec_grid().output_width,
                    self.spec_grid().output_height,
                ).1;
                0 <= y < rows && th > 0
            }),
        ensures
            ({
                let t0 = self.spec_tiles()[0];
                let th = plane_size(t0.chroma, k, t0.width, t0.height).1;
                y / (th as int) < self.spec_grid().rows
            }),
    {
        let t0 = self.spec_tiles()[0];
        let g = self.spec_grid();
        let th = plane_size(t0.chroma, k, t0.width, t0.height).1 as int;
        let rows = plane_size(t0.chroma, k, g.output_width, g.output_height).1 as int;
        let H = t0.height as int;
        let R = g.rows as int;
        assert(H * R >= g.output_height);
        if R == 0 {
            assert(g.rows * g.columns == 0) by (nonlinear_arith)
                requires
                    g.rows == 0,
            ;
        }
        if k == PlaneKind::Luma || t0.chroma.spec_y_shift() == 0 {
            assert(th == H && rows <= g.output_height);
            assert(y < th * R);
        } else {
            assert(th == (H + 1) / 2);
            assert(rows == (g.output_height + 1) / 2);
            if R == 1 {
                assert(H * R == H) by (nonlinear_arith)
                    requires
                        R == 1,
                ;
                assert(rows <= th);
            } else {
                assert(H % 2 == 0);
                assert(th * R * 2 == H * R) by (nonlinear_arith)
                    requires
                        th == (H + 1) / 2,
                        H % 2 == 0,
                ;
            }
            assert(y < th * R) by (nonlinear_arith)
                requires
                    y < rows,
                    rows == (g.output_height + 1) / 2,
                    g.output_height <= H * R,
                    R == 1 ==> rows <= th,
                    R != 1 ==> th * R * 2 == H * R,
                    R >= 1,
            ;
        }
        assert(y / th < R) by (nonlinear_arith)
            requires
                0 <= y < th * R,
                th > 0,
        ;
    }

    /// Row `local` of a tile's plane holds at least `tw` samples.
    proof fn lemma_tile_plane(&self, t: int, k: PlaneKind, local: int, tw: int)
        requires
            self.wf(),
            0 <= t < self.spec_tiles().len(),
            ({
                let t0 = self.spec_tiles()[0];
                let (w, h) = plane_size(t0.chroma, k, t0.width, t0.height);
                &&& tw == w
                &&& 0 <= local < h
            }),
            k != PlaneKind::Luma ==> self.spec_tiles()[0].chroma != ChromaFormat::Monochrome,
        ensures
            ({
                let (s, stride) = plane_of(self.spec_tiles()[t], k);
                &&& stride >= tw
                &&& local * stride + tw <= s.len()
            }),
    {
        let f = self.spec_tiles()[t];
        assert(f.valid());
        let (s, stride) = plane_of(f, k);
        let h = plane_size(f.chroma, k, f.width, f.height).1 as int;
        assert(stride >= tw);
        assert(s.len() >= stride * h);
        assert(local * stride + tw <= stride * h) by (nonlinear_arith)
            requires
                0 <= local < h,
                stride >= tw,
                tw >= 0,
        ;
    }
}

/// Sample `(x, y)` of a row-major plane `w` samples wide.
pub open spec fn at(v: Seq<u16>, w: int, x: int, y: int) -> u16 {
    v[y * w + x]
}

/// Row `y` of a `w` by `h` plane starts inside it, and the row after it
/// does not start past the end.
proof fn lemma_row_start(y: int, w: int, h: int)
    requires
        0 <= y < h,
        0 <= w,
    ensures
        y * w + w <= w * h,
{
    assert(y * w + w <= w * h) by (nonlinear_arith)
        requires
            0 <= y < h,
            0 <= w,
    ;
}

/// Sample `x` of row `yy` sits before row `y` when `yy < y`, and at offset
/// `x` of row `y` when `yy == y`.
proof fn lemma_row_index(x: int, yy: int, w: int, y: int)
    requires
        0 <= x < w,
        0 <= yy <= y,
    ensures
        yy < y ==> yy * w + x < y * w,
        yy == y ==> yy * w + x == y * w + x,
{
    if yy < y {
        assert(yy * w + x < y * w) by (nonlinear_arith)
            requires
                0 <= x < w,
                0 <= yy < y,
        ;
    }
}

} // verus!
