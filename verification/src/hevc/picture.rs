//! Reconstructed picture storage and per-block side information.

pub mod edge;
pub mod flags;

use vstd::prelude::*;

use crate::hevc::error::{Error, Result};

verus! {

/// The largest number of samples a plane may hold.
pub const MAX_PLANE_SAMPLES: usize = 0x4000_0000;

/// A single colour plane of `u16` samples with an explicit stride.
#[derive(Debug, Clone)]
pub struct Plane {
    /// Sample storage, `stride * height` entries.
    pub data: Vec<u16>,
    /// Distance between vertically adjacent samples, in samples.
    pub stride: usize,
    /// Plane width in samples.
    pub width: usize,
    /// Plane height in samples.
    pub height: usize,
}

impl Plane {
    /// Every sample `(x, y)` inside the plane lies inside `data`.
    pub open spec fn wf(&self) -> bool {
        &&& self.stride >= self.width
        &&& self.stride * self.height <= self.data@.len()
    }

    /// The index of sample `(x, y)`.
    pub open spec fn index_of(&self, x: int, y: int) -> int {
        y * self.stride + x
    }

    /// Sample `(x, y)`.
    pub open spec fn sample(&self, x: int, y: int) -> u16 {
        self.data@[self.index_of(x, y)]
    }

    /// Allocates a zeroed plane with `stride == width`.
    ///
    /// A plane of more than 2^30 samples is refused as too large.
    pub fn new(width: usize, height: usize) -> (r: Result<Plane>)
        ensures
            width * height > MAX_PLANE_SAMPLES <==> r is Err,
            r is Err ==> r == Err::<Plane, Error>(Error::TooLarge),
            r matches Ok(p) ==> {
                &&& p.width == width
                &&& p.height == height
                &&& p.stride == width
                &&& p.data@.len() == width * height
                &&& forall|i: int| 0 <= i < p.data@.len() ==> #[trigger] p.data@[i] == 0
                &&& p.wf()
            },
    {
        let n = match width.checked_mul(height) {
            Some(n) => n,
            None => {
                return Err(Error::TooLarge);
            },
        };
        if n > MAX_PLANE_SAMPLES {
            return Err(Error::TooLarge);
        }
        Ok(Plane { data: vec![0u16; n], stride: width, width, height })
    }

    /// `v` clamped to `0 ..= n - 1`.
    pub open spec fn clamped(v: int, n: int) -> int {
        if v < n {
            v
        } else {
            n - 1
        }
    }

    /// Sample at `(x, y)`, clamped to the plane.
    pub fn at(&self, x: usize, y: usize) -> (r: u16)
        requires
            self.wf(),
            self.width > 0,
            self.height > 0,
        ensures
            r == self.sample(Self::clamped(x as int, self.width as int), Self::clamped(y as int, self.height as int)),
            x < self.width && y < self.height ==> r == self.sample(x as int, y as int),
    {
        let _len = self.data.len();
        let cx = if x < self.width {
            x
        } else {
            self.width - 1
        };
        let cy = if y < self.height {
            y
        } else {
            self.height - 1
        };
        proof {
            assert(cy * self.stride + cx < self.stride * self.height) by (nonlinear_arith)
                requires
                    cx < self.width <= self.stride,
                    cy < self.height,
            ;
        }
        self.data[cy * self.stride + cx]
    }

    /// Writes the sample at `(x, y)`.
    pub fn put(&mut self, x: usize, y: usize, v: u16)
        requires
            old(self).index_of(x as int, y as int) < old(self).data@.len(),
        ensures
            final(self).data@ == old(self).data@.update(old(self).index_of(x as int, y as int), v),
            final(self).stride == old(self).stride,
            final(self).width == old(self).width,
            final(self).height == old(self).height,
    {
        let _len = self.data.len();
        let i = y * self.stride + x;
        self.data.set(i, v);
    }
}

/// `ceil(v / d)`.
pub open spec fn ceil_div(v: int, d: int) -> int {
    (v + d - 1) / d
}

/// The picture being reconstructed, plus the side information later stages need.
#[derive(Debug)]
pub struct Picture {
    /// Luma plane.
    pub y: Plane,
    /// Cb plane; zero sized for monochrome.
    pub cb: Plane,
    /// Cr plane; zero sized for monochrome.
    pub cr: Plane,
    /// Width of the minimum-transform-block grid.
    pub min4_w: usize,
    /// Height of the minimum-transform-block grid.
    pub min4_h: usize,
    /// `IntraPredModeY` per 4x4 luma block.
    pub intra_mode: Vec<u8>,
    /// `QpY` per 4x4 luma block.
    pub qp_y: Vec<i8>,
    /// Per-4x4 coding unit flags, see [`flags`].
    pub cu_flags: Vec<u8>,
    /// `CtDepth` per 4x4 luma block, used for `split_cu_flag` contexts.
    pub ct_depth: Vec<u8>,
    /// Width of the 8x8 deblocking grid.
    pub min8_w: usize,
    /// Height of the 8x8 deblocking grid.
    pub min8_h: usize,
    /// Per-8x8 edge flags, see [`edge`].
    pub edges: Vec<u8>,
}

/// Cell `(c, r)` of a row-major grid `w` cells wide.
pub open spec fn cell(v: Seq<u8>, w: int, c: int, r: int) -> u8 {
    v[r * w + c]
}

/// The end of a block side that starts at `p`, is `size` long and is
/// clipped to a picture `extent` long.
pub open spec fn side_end(p: int, size: int, extent: int) -> int {
    if p + size < extent {
        p + size
    } else {
        extent
    }
}

/// Whether `Picture::mark_edge` marks cell `(c, r)` of the 8x8 grid with a
/// vertical edge for a block at `(x, y)` of `size` samples in a picture
/// `width` by `height`: the block starts inside the picture, its left side
/// is on the grid, the cell is in its column, and its row meets the part of
/// the side inside the picture.
pub open spec fn ver_marked(
    x: int,
    y: int,
    size: int,
    kind: u8,
    width: int,
    height: int,
    c: int,
    r: int,
) -> bool {
    &&& x < width && y < height
    &&& kind & edge::VER != 0
    &&& x % 8 == 0
    &&& c == x / 8
    &&& r >= y / 8
    &&& r * 8 + y % 8 < side_end(y, size, height)
}

/// Whether `Picture::mark_edge` marks cell `(c, r)` with a horizontal edge.
pub open spec fn hor_marked(
    x: int,
    y: int,
    size: int,
    kind: u8,
    width: int,
    height: int,
    c: int,
    r: int,
) -> bool {
    &&& x < width && y < height
    &&& kind & edge::HOR != 0
    &&& y % 8 == 0
    &&& r == y / 8
    &&& c >= x / 8
    &&& c * 8 + x % 8 < side_end(x, size, width)
}

/// The flags `Picture::mark_edge` adds to cell `(c, r)`.
pub open spec fn edge_mask(
    x: int,
    y: int,
    size: int,
    kind: u8,
    width: int,
    height: int,
    c: int,
    r: int,
) -> u8 {
    (if ver_marked(x, y, size, kind, width, height, c, r) {
        edge::VER
    } else {
        0u8
    }) | (if hor_marked(x, y, size, kind, width, height, c, r) {
        edge::HOR
    } else {
        0u8
    })
}

/// Index of entry `(x0 + b, y0 + a)` of a row-major array `w` wide.
pub open spec fn fill_index(w: int, x0: int, y0: int, a: int, b: int) -> int {
    (y0 + a) * w + x0 + b
}

/// Whether index `t` is one of the first `j` rows of an `n` by `n` square at
/// `(x0, y0)`, or one of the first `i` entries of row `j`.
pub open spec fn fill_before(t: int, w: int, x0: int, y0: int, n: int, j: int, i: int) -> bool {
    exists|a: int, b: int|
        0 <= a && 0 <= b < n && (a < j || (a == j && b < i)) && t == #[trigger] fill_index(
            w,
            x0,
            y0,
            a,
            b,
        )
}

/// Whether `Picture::fill4` writes index `t` of its array.
pub open spec fn in_fill(t: int, w: int, x0: int, y0: int, n: int) -> bool {
    fill_before(t, w, x0, y0, n, n, 0)
}

impl Picture {
    /// The planes and side-information arrays have the sizes their grids say.
    pub open spec fn wf(&self) -> bool {
        &&& self.y.wf()
        &&& self.cb.wf()
        &&& self.cr.wf()
        &&& self.min4_w == ceil_div(self.y.width as int, 4)
        &&& self.min4_h == ceil_div(self.y.height as int, 4)
        &&& self.intra_mode@.len() == self.min4_w * self.min4_h
        &&& self.qp_y@.len() == self.min4_w * self.min4_h
        &&& self.cu_flags@.len() == self.min4_w * self.min4_h
        &&& self.ct_depth@.len() == self.min4_w * self.min4_h
        &&& self.min8_w == ceil_div(self.y.width as int, 8)
        &&& self.min8_h == ceil_div(self.y.height as int, 8)
        &&& self.edges@.len() == self.min8_w * self.min8_h
    }

    /// Allocates all planes and side-information arrays for one picture.
    ///
    /// The chroma planes are `width / sub_w` by `height / sub_h`, or empty
    /// when either factor is zero (monochrome).
    pub fn new(width: usize, height: usize, sub_w: usize, sub_h: usize) -> (r: Result<Picture>)
        ensures
            ({
                let (cw, ch) = if sub_w == 0 || sub_h == 0 {
                    (0int, 0int)
                } else {
                    ((width / sub_w) as int, (height / sub_h) as int)
                };
                &&& (width * height > MAX_PLANE_SAMPLES || cw * ch > MAX_PLANE_SAMPLES)
                    <==> r == Err::<Picture, Error>(Error::TooLarge)
                &&& r is Err ==> r == Err::<Picture, Error>(Error::TooLarge)
                &&& r matches Ok(p) ==> {
                    &&& p.min4_w == ceil_div(width as int, 4) && p.min4_h == ceil_div(height as int, 4)
                    &&& p.min8_w == ceil_div(width as int, 8) && p.min8_h == ceil_div(height as int, 8)
                    &&& p.intra_mode@.len() == p.min4_w * p.min4_h
                    &&& p.qp_y@.len() == p.min4_w * p.min4_h
                    &&& p.cu_flags@.len() == p.min4_w * p.min4_h
                    &&& p.ct_depth@.len() == p.min4_w * p.min4_h
                    &&& p.edges@.len() == p.min8_w * p.min8_h
                    &&& p.wf()
                    &&& p.y.width == width && p.y.height == height && p.y.stride == width
                    &&& p.cb.width == cw && p.cb.height == ch && p.cb.stride == cw
                    &&& p.cr.width == cw && p.cr.height == ch && p.cr.stride == cw
                    &&& p.y.data@.len() == width * height
                    &&& p.cb.data@.len() == cw * ch
                    &&& p.cr.data@.len() == cw * ch
                    &&& forall|i: int| 0 <= i < p.y.data@.len() ==> #[trigger] p.y.data@[i] == 0
                    &&& forall|i: int| 0 <= i < p.cb.data@.len() ==> #[trigger] p.cb.data@[i] == 0
                    &&& forall|i: int| 0 <= i < p.cr.data@.len() ==> #[trigger] p.cr.data@[i] == 0
                    &&& forall|i: int|
                        0 <= i < p.intra_mode@.len() ==> #[trigger] p.intra_mode@[i] == 1
                    &&& forall|i: int| 0 <= i < p.qp_y@.len() ==> #[trigger] p.qp_y@[i] == 0
                    &&& forall|i: int| 0 <= i < p.cu_flags@.len() ==> #[trigger] p.cu_flags@[i] == 0
                    &&& forall|i: int| 0 <= i < p.ct_depth@.len() ==> #[trigger] p.ct_depth@[i] == 0
                    &&& forall|i: int| 0 <= i < p.edges@.len() ==> #[trigger] p.edges@[i] == 0
                }
            }),
    {
        let y = match Plane::new(width, height) {
            Ok(p) => p,
            Err(e) => {
                return Err(e);
            },
        };
        let (cw, ch) = if sub_w == 0 || sub_h == 0 {
            (0, 0)
        } else {
            (width / sub_w, height / sub_h)
        };
        let cb = match Plane::new(cw, ch) {
            Ok(p) => p,
            Err(e) => {
                return Err(e);
            },
        };
        let cr = match Plane::new(cw, ch) {
            Ok(p) => p,
            Err(e) => {
                return Err(e);
            },
        };
        let min4_w = width / 4 + if width % 4 == 0 {
            0
        } else {
            1
        };
        let min4_h = height / 4 + if height % 4 == 0 {
            0
        } else {
            1
        };
        let min8_w = width / 8 + if width % 8 == 0 {
            0
        } else {
            1
        };
        let min8_h = height / 8 + if height % 8 == 0 {
            0
        } else {
            1
        };
        proof {
            lemma_grid_fits(width as int, height as int, 4);
            lemma_grid_fits(width as int, height as int, 8);
        }
        let n4 = min4_w * min4_h;
        Ok(
            Picture {
                y,
                cb,
                cr,
                min4_w,
                min4_h,
                intra_mode: vec![1u8; n4],
                qp_y: vec![0i8; n4],
                cu_flags: vec![0u8; n4],
                ct_depth: vec![0u8; n4],
                min8_w,
                min8_h,
                edges: vec![0u8; min8_w * min8_h],
            },
        )
    }

    /// Index into the 4x4 side-information arrays for luma position `(x, y)`,
    /// clamped to the last block in each direction.
    pub open spec fn idx4_of(&self, x: int, y: int) -> int {
        let xi = if x / 4 < self.min4_w - 1 {
            x / 4
        } else {
            self.min4_w - 1
        };
        let yi = if y / 4 < self.min4_h - 1 {
            y / 4
        } else {
            self.min4_h - 1
        };
        yi * self.min4_w + xi
    }

    /// Index into the 4x4 side-information arrays for luma position `(x, y)`.
    ///
    /// Positions outside the picture clamp to the last block so that callers
    /// never index out of bounds.
    pub fn idx4(&self, x: usize, y: usize) -> (r: usize)
        requires
            self.min4_w > 0,
            self.min4_h > 0,
            self.min4_w * self.min4_h <= usize::MAX,
        ensures
            r == self.idx4_of(x as int, y as int),
            r < self.min4_w * self.min4_h,
    {
        let xi = if (x >> 2) < self.min4_w - 1 {
            x >> 2
        } else {
            self.min4_w - 1
        };
        let yi = if (y >> 2) < self.min4_h - 1 {
            y >> 2
        } else {
            self.min4_h - 1
        };
        proof {
            lemma_usize_bits(x);
            lemma_usize_bits(y);
            assert(yi * self.min4_w + xi < self.min4_w * self.min4_h) by (nonlinear_arith)
                requires
                    yi < self.min4_h,
                    xi < self.min4_w,
            ;
        }
        yi * self.min4_w + xi
    }

    /// Everything but the intra mode array is as it was.
    pub open spec fn same_but_modes(&self, other: &Picture) -> bool {
        &&& self.y == other.y
        &&& self.cb == other.cb
        &&& self.cr == other.cr
        &&& self.min4_w == other.min4_w
        &&& self.min4_h == other.min4_h
        &&& self.qp_y == other.qp_y
        &&& self.cu_flags == other.cu_flags
        &&& self.ct_depth == other.ct_depth
        &&& self.min8_w == other.min8_w
        &&& self.min8_h == other.min8_h
        &&& self.edges == other.edges
    }

    /// Everything but the edge flags is as it was.
    pub open spec fn same_but_edges(&self, other: &Picture) -> bool {
        &&& self.y == other.y
        &&& self.cb == other.cb
        &&& self.cr == other.cr
        &&& self.min4_w == other.min4_w
        &&& self.min4_h == other.min4_h
        &&& self.intra_mode == other.intra_mode
        &&& self.qp_y == other.qp_y
        &&& self.cu_flags == other.cu_flags
        &&& self.ct_depth == other.ct_depth
        &&& self.min8_w == other.min8_w
        &&& self.min8_h == other.min8_h
    }

    /// Records the deblocking boundaries of a `size` x `size` block at `(x, y)`.
    ///
    /// Only boundaries that fall on the 8x8 luma grid are filtered, so an edge
    /// at an odd multiple of four samples is not recorded. The whole extent of
    /// each boundary is marked, not just the corner it starts at.
    pub fn mark_edge(&mut self, x: usize, y: usize, size: usize, kind: u8)
        requires
            old(self).wf(),
            x < old(self).y.width && y < old(self).y.height && kind & edge::VER != 0 && x % 8
                == 0 ==> y + size <= usize::MAX,
            x < old(self).y.width && y < old(self).y.height && kind & edge::HOR != 0 && y % 8
                == 0 ==> x + size <= usize::MAX,
        ensures
            final(self).wf(),
            final(self).same_but_edges(old(self)),
            final(self).edges@.len() == old(self).edges@.len(),
            forall|c: int, r: int|
                0 <= c < old(self).min8_w && 0 <= r < old(self).min8_h ==> #[trigger] cell(
                    final(self).edges@,
                    old(self).min8_w as int,
                    c,
                    r,
                ) == cell(old(self).edges@, old(self).min8_w as int, c, r) | edge_mask(
                    x as int,
                    y as int,
                    size as int,
                    kind,
                    old(self).y.width as int,
                    old(self).y.height as int,
                    c,
                    r,
                ),
    {
        let ghost e0 = self.edges@;
        let ghost w8 = self.min8_w as int;
        let ghost (wd, ht) = (self.y.width as int, self.y.height as int);
        if x >= self.y.width || y >= self.y.height {
            proof {
                assert forall|c: int, r: int|
                    0 <= c < w8 && 0 <= r < self.min8_h implies #[trigger] cell(self.edges@, w8, c, r)
                    == cell(e0, w8, c, r) | edge_mask(x as int, y as int, size as int, kind, wd, ht, c, r) by {
                    let v = cell(e0, w8, c, r);
                    lemma_u8_or();
                    lemma_u8_or();
                }
            }
            return;
        }
        proof {
            lemma_usize_bits(x);
            lemma_usize_bits(y);
            lemma_usize_bits(x);
            lemma_usize_bits(y);
            assert forall|c: int, r: int|
                0 <= c < w8 && 0 <= r < self.min8_h implies #[trigger] cell(self.edges@, w8, c, r)
                == cell(e0, w8, c, r) | 0u8 by {
                let v = cell(e0, w8, c, r);
                lemma_u8_or();
            }
        }
        let elen = self.edges.len();
        if kind & edge::VER != 0 && x & 7 == 0 {
            let col = x >> 3;
            let lim = if y + size < self.y.height {
                y + size
            } else {
                self.y.height
            };
            let mut yy = y;
            while yy < lim
                invariant_except_break
                    forall|c: int, r: int|
                        0 <= c < w8 && 0 <= r < self.min8_h ==> #[trigger] cell(self.edges@, w8, c, r)
                            == cell(e0, w8, c, r) | (if c == col && y / 8 <= r < yy / 8 {
                            edge::VER
                        } else {
                            0u8
                        }),
                invariant
                    self.wf(),
                    self.same_but_edges(old(self)),
                    self.edges@.len() == e0.len(),
                    elen == e0.len(),
                    w8 == self.min8_w,
                    wd == self.y.width,
                    ht == self.y.height,
                    x < wd,
                    y < ht,
                    kind & edge::VER != 0,
                    x % 8 == 0,
                    col == x / 8,
                    lim == side_end(y as int, size as int, ht),
                    lim <= ht,
                    y <= yy,
                    yy == y || yy < lim,
                    yy % 8 == y % 8,
                ensures
                    self.wf(),
                    self.same_but_edges(old(self)),
                    self.edges@.len() == e0.len(),
                    forall|c: int, r: int|
                        0 <= c < w8 && 0 <= r < self.min8_h ==> #[trigger] cell(self.edges@, w8, c, r)
                            == cell(e0, w8, c, r) | (if ver_marked(
                            x as int,
                            y as int,
                            size as int,
                            kind,
                            wd,
                            ht,
                            c,
                            r,
                        ) {
                            edge::VER
                        } else {
                            0u8
                        }),
                decreases lim - yy,
            {
                proof {
                    lemma_usize_bits(yy);
                    lemma_cell_in_grid(x as int, yy as int, wd, ht, 8);
                }
                let i = (yy >> 3) * self.min8_w + col;
                let ghost before = self.edges@;
                let old_v = self.edges[i];
                self.edges.set(i, old_v | edge::VER);
                proof {
                    let ry = yy as int / 8;
                    assert forall|c: int, r: int|
                        0 <= c < w8 && 0 <= r < self.min8_h implies #[trigger] cell(self.edges@, w8, c, r)
                        == cell(e0, w8, c, r) | (if c == col && y / 8 <= r < (yy + 8) / 8 {
                        edge::VER
                    } else {
                        0u8
                    }) by {
                        lemma_cell_index(c, r, col as int, ry, w8, self.min8_h as int);
                        assert((yy + 8) / 8 == ry + 1);
                        let v = cell(e0, w8, c, r);
                        assert(cell(before, w8, c, r) == v | (if c == col && y / 8 <= r < yy / 8 {
                            edge::VER
                        } else {
                            0u8
                        }));
                        lemma_u8_or();
                        if c == col && r == ry {
                            assert(r * w8 + c == i);
                            assert(cell(self.edges@, w8, c, r) == old_v | 1u8);
                        } else {
                            assert(r * w8 + c != i);
                            assert(0 <= r * w8 + c < w8 * self.min8_h) by (nonlinear_arith)
                                requires
                                    0 <= c < w8,
                                    0 <= r < self.min8_h,
                            ;
                            assert(cell(self.edges@, w8, c, r) == cell(before, w8, c, r));
                        }
                    }
                }
                if lim - yy <= 8 {
                    proof {
                        assert forall|c: int, r: int|
                            0 <= c < w8 && 0 <= r < self.min8_h implies (c == col && y / 8 <= r < (yy
                            + 8) / 8) == ver_marked(x as int, y as int, size as int, kind, wd, ht, c, r) by {
                        }
                    }
                    break;
                }
                yy += 8;
            }
            proof {
                if yy == y && lim <= y {
                    assert forall|c: int, r: int|
                        0 <= c < w8 && 0 <= r < self.min8_h implies !ver_marked(
                        x as int,
                        y as int,
                        size as int,
                        kind,
                        wd,
                        ht,
                        c,
                        r,
                    ) by {}
                }
            }
        } else {
            proof {
                assert forall|c: int, r: int|
                    0 <= c < w8 && 0 <= r < self.min8_h implies #[trigger] cell(self.edges@, w8, c, r)
                    == cell(e0, w8, c, r) | (if ver_marked(
                    x as int,
                    y as int,
                    size as int,
                    kind,
                    wd,
                    ht,
                    c,
                    r,
                ) {
                    edge::VER
                } else {
                    0u8
                }) by {
                    let v = cell(e0, w8, c, r);
                    lemma_u8_or();
                }
            }
        }
        let ghost e1 = self.edges@;
        if kind & edge::HOR != 0 && y & 7 == 0 {
            let ry = y >> 3;
            proof {
                lemma_cell_in_grid(x as int, y as int, wd, ht, 8);
                assert forall|c: int, r: int|
                    0 <= c < w8 && 0 <= r < self.min8_h implies #[trigger] cell(self.edges@, w8, c, r)
                    == cell(e1, w8, c, r) | 0u8 by {
                    let v = cell(e1, w8, c, r);
                    lemma_u8_or();
                }
            }
            let row = ry * self.min8_w;
            let lim = if x + size < self.y.width {
                x + size
            } else {
                self.y.width
            };
            let mut xx = x;
            while xx < lim
                invariant_except_break
                    forall|c: int, r: int|
                        0 <= c < w8 && 0 <= r < self.min8_h ==> #[trigger] cell(self.edges@, w8, c, r)
                            == cell(e1, w8, c, r) | (if r == ry && x / 8 <= c < xx / 8 {
                            edge::HOR
                        } else {
                            0u8
                        }),
                invariant
                    self.wf(),
                    self.same_but_edges(old(self)),
                    self.edges@.len() == e0.len(),
                    elen == e0.len(),
                    w8 == self.min8_w,
                    wd == self.y.width,
                    ht == self.y.height,
                    x < wd,
                    y < ht,
                    kind & edge::HOR != 0,
                    y % 8 == 0,
                    ry == y / 8,
                    row == ry * w8,
                    lim == side_end(x as int, size as int, wd),
                    lim <= wd,
                    x <= xx,
                    xx == x || xx < lim,
                    xx % 8 == x % 8,
                ensures
                    self.wf(),
                    self.same_but_edges(old(self)),
                    self.edges@.len() == e0.len(),
                    forall|c: int, r: int|
                        0 <= c < w8 && 0 <= r < self.min8_h ==> #[trigger] cell(self.edges@, w8, c, r)
                            == cell(e1, w8, c, r) | (if hor_marked(
                            x as int,
                            y as int,
                            size as int,
                            kind,
                            wd,
                            ht,
                            c,
                            r,
                        ) {
                            edge::HOR
                        } else {
                            0u8
                        }),
                decreases lim - xx,
            {
                proof {
                    lemma_usize_bits(xx);
                    lemma_cell_in_grid(xx as int, y as int, wd, ht, 8);
                }
                let i = row + (xx >> 3);
                let ghost before = self.edges@;
                let old_v = self.edges[i];
                self.edges.set(i, old_v | edge::HOR);
                proof {
                    let cx = xx as int / 8;
                    assert forall|c: int, r: int|
                        0 <= c < w8 && 0 <= r < self.min8_h implies #[trigger] cell(self.edges@, w8, c, r)
                        == cell(e1, w8, c, r) | (if r == ry && x / 8 <= c < (xx + 8) / 8 {
                        edge::HOR
                    } else {
                        0u8
                    }) by {
                        lemma_cell_index(c, r, cx, ry as int, w8, self.min8_h as int);
                        assert((xx + 8) / 8 == cx + 1);
                        let v = cell(e1, w8, c, r);
                        assert(cell(before, w8, c, r) == v | (if r == ry && x / 8 <= c < xx / 8 {
                            edge::HOR
                        } else {
                            0u8
                        }));
                        lemma_u8_or();
                        if c == cx && r == ry {
                            assert(r * w8 + c == i);
                            assert(cell(self.edges@, w8, c, r) == old_v | 2u8);
                        } else {
                            assert(r * w8 + c != i);
                            assert(0 <= r * w8 + c < w8 * self.min8_h) by (nonlinear_arith)
                                requires
                                    0 <= c < w8,
                                    0 <= r < self.min8_h,
                            ;
                            assert(cell(self.edges@, w8, c, r) == cell(before, w8, c, r));
                        }
                    }
                }
                if lim - xx <= 8 {
                    proof {
                        assert forall|c: int, r: int|
                            0 <= c < w8 && 0 <= r < self.min8_h implies (r == ry && x / 8 <= c < (xx
                            + 8) / 8) == hor_marked(x as int, y as int, size as int, kind, wd, ht, c, r) by {
                        }
                    }
                    break;
                }
                xx += 8;
            }
            proof {
                if xx == x && lim <= x {
                    assert forall|c: int, r: int|
                        0 <= c < w8 && 0 <= r < self.min8_h implies !hor_marked(
                        x as int,
                        y as int,
                        size as int,
                        kind,
                        wd,
                        ht,
                        c,
                        r,
                    ) by {}
                }
            }
        } else {
            proof {
                assert forall|c: int, r: int|
                    0 <= c < w8 && 0 <= r < self.min8_h implies #[trigger] cell(self.edges@, w8, c, r)
                    == cell(e1, w8, c, r) | (if hor_marked(
                    x as int,
                    y as int,
                    size as int,
                    kind,
                    wd,
                    ht,
                    c,
                    r,
                ) {
                    edge::HOR
                } else {
                    0u8
                }) by {
                    let v = cell(e1, w8, c, r);
                    lemma_u8_or();
                }
            }
        }
        proof {
            assert forall|c: int, r: int|
                0 <= c < w8 && 0 <= r < self.min8_h implies #[trigger] cell(self.edges@, w8, c, r)
                == cell(e0, w8, c, r) | edge_mask(x as int, y as int, size as int, kind, wd, ht, c, r) by {
                let v = cell(e0, w8, c, r);
                let a = if ver_marked(x as int, y as int, size as int, kind, wd, ht, c, r) {
                    edge::VER
                } else {
                    0u8
                };
                let b = if hor_marked(x as int, y as int, size as int, kind, wd, ht, c, r) {
                    edge::HOR
                } else {
                    0u8
                };
                assert(cell(e1, w8, c, r) == v | a);
                lemma_u8_or();
                assert((v | a) | b == v | (a | b));
            }
        }
    }


    /// Fills a rectangular region of a per-4x4 array with `value`: the
    /// `size / 4` by `size / 4` blocks from block `(x / 4, y / 4)` of an
    /// array `w` blocks wide. Indices past the end of `arr` are skipped.
    pub fn fill4<T: Copy>(arr: &mut [T], w: usize, x: usize, y: usize, size: usize, value: T)
        requires
            size / 4 > 0 ==> (y / 4 + size / 4 - 1) * w + x / 4 + size / 4 - 1 <= usize::MAX,
        ensures
            final(arr)@.len() == old(arr)@.len(),
            forall|t: int|
                0 <= t < old(arr)@.len() ==> #[trigger] final(arr)@[t] == if in_fill(
                    t,
                    w as int,
                    (x / 4) as int,
                    (y / 4) as int,
                    (size / 4) as int,
                ) {
                    value
                } else {
                    old(arr)@[t]
                },
    {
        let x0 = x >> 2;
        let y0 = y >> 2;
        let n = size >> 2;
        proof {
            lemma_usize_bits(x);
            lemma_usize_bits(y);
            lemma_usize_bits(size);
        }
        let ghost a0 = arr@;
        let ghost (wi, xi, yi, ni) = (w as int, x0 as int, y0 as int, n as int);
        let len = arr.len();
        let mut j: usize = 0;
        while j < n
            invariant
                j <= n,
                n == ni,
                wi == w,
                xi == x0,
                yi == y0,
                len == arr@.len(),
                arr@.len() == a0.len(),
                n > 0 ==> (y0 + n - 1) * w + x0 + n - 1 <= usize::MAX,
                y0 <= usize::MAX / 4,
                n <= usize::MAX / 4,
                forall|t: int|
                    0 <= t < a0.len() ==> #[trigger] arr@[t] == if fill_before(t, wi, xi, yi, ni, j as int, 0) {
                        value
                    } else {
                        a0[t]
                    },
            decreases n - j,
        {
            proof {
                assert((y0 + j) * w + x0 + n - 1 <= usize::MAX) by (nonlinear_arith)
                    requires
                        j < n,
                        (y0 + n - 1) * w + x0 + n - 1 <= usize::MAX,
                ;
            }
            let row = (y0 + j) * w;
            let mut i: usize = 0;
            while i < n
                invariant
                    i <= n,
                    j < n,
                    n == ni,
                    wi == w,
                    xi == x0,
                    yi == y0,
                    row == (y0 + j) * w,
                    row + x0 + n - 1 <= usize::MAX,
                    len == arr@.len(),
                    arr@.len() == a0.len(),
                    forall|t: int|
                        0 <= t < a0.len() ==> #[trigger] arr@[t] == if fill_before(
                            t,
                            wi,
                            xi,
                            yi,
                            ni,
                            j as int,
                            i as int,
                        ) {
                            value
                        } else {
                            a0[t]
                        },
                decreases n - i,
            {
                let idx = row + x0 + i;
                let ghost before = arr@;
                if idx < len {
                    arr[idx] = value;
                }
                proof {
                    assert(idx == fill_index(wi, xi, yi, j as int, i as int));
                    assert forall|t: int| 0 <= t < a0.len() implies #[trigger] arr@[t] == if fill_before(
                        t,
                        wi,
                        xi,
                        yi,
                        ni,
                        j as int,
                        i + 1,
                    ) {
                        value
                    } else {
                        a0[t]
                    } by {
                        if t == idx {
                            assert(fill_before(t, wi, xi, yi, ni, j as int, i + 1));
                        } else {
                            if fill_before(t, wi, xi, yi, ni, j as int, i + 1) {
                                let (a, b) = choose|a: int, b: int|
                                    0 <= a && 0 <= b < ni && (a < j || (a == j && b < i + 1)) && t
                                        == #[trigger] fill_index(wi, xi, yi, a, b);
                                assert(fill_before(t, wi, xi, yi, ni, j as int, i as int));
                            }
                            if fill_before(t, wi, xi, yi, ni, j as int, i as int) {
                                let (a, b) = choose|a: int, b: int|
                                    0 <= a && 0 <= b < ni && (a < j || (a == j && b < i)) && t
                                        == #[trigger] fill_index(wi, xi, yi, a, b);
                                assert(fill_before(t, wi, xi, yi, ni, j as int, i + 1));
                            }
                        }
                    }
                }
                i += 1;
            }
            proof {
                assert forall|t: int| 0 <= t < a0.len() implies #[trigger] arr@[t] == if fill_before(
                    t,
                    wi,
                    xi,
                    yi,
                    ni,
                    j + 1,
                    0,
                ) {
                    value
                } else {
                    a0[t]
                } by {
                    if fill_before(t, wi, xi, yi, ni, j + 1, 0) {
                        let (a, b) = choose|a: int, b: int|
                            0 <= a && 0 <= b < ni && (a < j + 1 || (a == j + 1 && b < 0)) && t
                                == #[trigger] fill_index(wi, xi, yi, a, b);
                        assert(fill_before(t, wi, xi, yi, ni, j as int, ni));
                    }
                    if fill_before(t, wi, xi, yi, ni, j as int, ni) {
                        let (a, b) = choose|a: int, b: int|
                            0 <= a && 0 <= b < ni && (a < j || (a == j && b < ni)) && t
                                == #[trigger] fill_index(wi, xi, yi, a, b);
                        assert(fill_before(t, wi, xi, yi, ni, j + 1, 0));
                    }
                }
            }
            j += 1;
        }
    }

}

/// A grid of `ceil(w / d)` by `ceil(h / d)` cells, for `d` of 4 or 8, holds
/// no more cells than there are samples, and so fits in memory if the
/// samples did.
proof fn lemma_grid_fits(w: int, h: int, d: int)
    requires
        w >= 0,
        h >= 0,
        d == 4 || d == 8,
        w * h <= MAX_PLANE_SAMPLES,
    ensures
        ceil_div(w, d) * ceil_div(h, d) <= MAX_PLANE_SAMPLES,
        ceil_div(w, d) == w / d + if w % d == 0 {
            0int
        } else {
            1int
        },
        ceil_div(h, d) == h / d + if h % d == 0 {
            0int
        } else {
            1int
        },
{
    let (a, b) = (ceil_div(w, d), ceil_div(h, d));
    assert(0 <= a <= w) by (nonlinear_arith)
        requires
            a == (w + d - 1) / d,
            d == 4 || d == 8,
            w >= 0,
    ;
    assert(0 <= b <= h) by (nonlinear_arith)
        requires
            b == (h + d - 1) / d,
            d == 4 || d == 8,
            h >= 0,
    ;
    assert(a * b <= w * h) by (nonlinear_arith)
        requires
            0 <= a <= w,
            0 <= b <= h,
    ;
}


/// Cell `(x / d, y / d)` of a `ceil(w / d)` by `ceil(h / d)` grid exists
/// for a sample `(x, y)` inside a `w` by `h` picture, and its index fits.
proof fn lemma_cell_in_grid(x: int, y: int, w: int, h: int, d: int)
    requires
        0 <= x < w,
        0 <= y < h,
        d == 4 || d == 8,
    ensures
        x / d < ceil_div(w, d),
        y / d < ceil_div(h, d),
        (y / d) * ceil_div(w, d) + x / d < ceil_div(w, d) * ceil_div(h, d),
{
    let (cw, ch) = (ceil_div(w, d), ceil_div(h, d));
    assert(x / d < cw && y / d < ch) by (nonlinear_arith)
        requires
            0 <= x < w,
            0 <= y < h,
            cw == (w + d - 1) / d,
            ch == (h + d - 1) / d,
            d == 4 || d == 8,
    ;
    assert((y / d) * cw + x / d < cw * ch) by (nonlinear_arith)
        requires
            0 <= x / d < cw,
            0 <= y / d < ch,
    ;
}

/// Distinct cells of a grid `w` wide have distinct indices.
proof fn lemma_cell_index(c: int, r: int, c2: int, r2: int, w: int, h: int)
    requires
        0 <= c < w,
        0 <= c2 < w,
        0 <= r,
        0 <= r2,
    ensures
        (r * w + c == r2 * w + c2) <==> (c == c2 && r == r2),
{
    if r * w + c == r2 * w + c2 {
        if r < r2 {
            assert(r * w + c < r2 * w + c2) by (nonlinear_arith)
                requires
                    r < r2,
                    0 <= c < w,
                    0 <= c2,
            ;
        } else if r > r2 {
            assert(r * w + c > r2 * w + c2) by (nonlinear_arith)
                requires
                    r > r2,
                    0 <= c2 < w,
                    0 <= c,
            ;
        }
    }
}

/// Or-ing in nothing changes nothing, and or-ing groups freely.
proof fn lemma_u8_or()
    ensures
        forall|v: u8| #[trigger] (v | 0u8) == v,
        forall|v: u8, a: u8, b: u8| #[trigger] ((v | a) | b) == v | (a | b),
{
    assert forall|v: u8| #[trigger] (v | 0u8) == v by {
        assert(v | 0u8 == v) by (bit_vector);
    }
    assert forall|v: u8, a: u8, b: u8| #[trigger] ((v | a) | b) == v | (a | b) by {
        assert((v | a) | b == v | (a | b)) by (bit_vector);
    }
}

/// A position's 4x4 and 8x8 block and its offset in the 8x8 block, by shifts
/// and masks.
proof fn lemma_usize_bits(x: usize)
    ensures
        x >> 2 == x / 4,
        x >> 3 == x / 8,
        x & 7 == x % 8,
{
    assert(x >> 2 == x / 4 && x >> 3 == x / 8 && x & 7 == x % 8) by (bit_vector);
}

} // verus!
