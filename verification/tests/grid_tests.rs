//! Grid descriptors, tile stitching and composition.

use heic_rs::error::Error;
use heic_rs::grid::{self, Grid, compose};
use heic_rs::grid::mosaic::Mosaic;
use heic_rs::hevc::{ChromaFormat, Frame};

/// A tile `w` x `h` whose luma sample at `(x, y)` is `base + 10 * y + x` and
/// whose chroma samples are `base + 1` (Cb) and `base + 2` (Cr).
fn tile(w: u32, h: u32, chroma: ChromaFormat, base: u16) -> Frame {
    let (cw, ch) = chroma.chroma_size(w, h);
    let mut y = Vec::new();
    for r in 0..h {
        for c in 0..w {
            y.push(base + 10 * r as u16 + c as u16);
        }
    }
    Frame {
        width: w,
        height: h,
        bit_depth: 8,
        chroma,
        y,
        cb: vec![base + 1; (cw * ch) as usize],
        cr: vec![base + 2; (cw * ch) as usize],
        y_stride: w,
        c_stride: cw,
    }
}

#[test]
fn grid_descriptor_with_sixteen_bit_dimensions() {
    let g = grid::parse(&[0, 0, 1, 2, 0x01, 0x00, 0x00, 0xc0]).expect("grid");
    assert_eq!(g, Grid { rows: 2, columns: 3, output_width: 256, output_height: 192 });
    assert_eq!(g.tile_count(), 6);
}

#[test]
fn grid_descriptor_with_thirty_two_bit_dimensions() {
    let g = grid::parse(&[0, 1, 0, 0, 0, 1, 0, 0, 0, 0, 0, 2]).expect("grid");
    assert_eq!(g, Grid { rows: 1, columns: 1, output_width: 65536, output_height: 2 });
}

#[test]
fn bad_grid_descriptors_are_refused() {
    assert!(matches!(grid::parse(&[1, 0, 0, 0, 0, 1, 0, 1]), Err(Error::Unsupported(_))));
    assert!(matches!(grid::parse(&[0, 0, 0, 0, 0, 1]), Err(Error::Truncated(_))));
    assert!(matches!(grid::parse(&[0, 0, 0, 0, 0, 0, 0, 1]), Err(Error::Malformed(_))));
    assert!(matches!(grid::parse(&[]), Err(Error::Truncated(_))));
}

#[test]
fn tile_lists_must_match_the_grid() {
    let g = Grid { rows: 2, columns: 2, output_width: 8, output_height: 8 };
    assert_eq!(grid::check_tiles(&g, &[1, 2, 3, 4]), Ok(()));
    assert!(matches!(grid::check_tiles(&g, &[1, 2, 3]), Err(Error::Malformed(_))));
}

#[test]
fn the_pixel_ceiling_is_enforced() {
    assert_eq!(grid::check_pixels(100, 100, 10_000), Ok(()));
    assert_eq!(
        grid::check_pixels(100, 101, 10_000),
        Err(Error::PixelLimit { pixels: 10_100, max_pixels: 10_000 })
    );
    assert_eq!(grid::check_pixels(u32::MAX, u32::MAX, u64::MAX), Ok(()));
}

#[test]
fn mosaic_rows_are_stitched_across_tiles_and_cropped() {
    let tiles = vec![
        tile(4, 2, ChromaFormat::Yuv420, 0),
        tile(4, 2, ChromaFormat::Yuv420, 100),
        tile(4, 2, ChromaFormat::Yuv420, 200),
        tile(4, 2, ChromaFormat::Yuv420, 300),
    ];
    let g = Grid { rows: 2, columns: 2, output_width: 6, output_height: 3 };
    let m = Mosaic::new(&g, &tiles).expect("mosaic");
    assert_eq!((m.width(), m.height(), m.bit_depth()), (6, 3, 8));
    assert_eq!(m.chroma_size(), (3, 2));
    let mut row = [0u16; 6];
    assert_eq!(m.luma_row(1, &mut row), Some(()));
    assert_eq!(row, [10, 11, 12, 13, 110, 111]);
    assert_eq!(m.luma_row(2, &mut row), Some(()));
    assert_eq!(row, [200, 201, 202, 203, 300, 301]);
    assert_eq!(m.luma_row(3, &mut row), None);
    let mut crow = [0u16; 3];
    assert_eq!(m.chroma_row(true, 1, &mut crow), Some(()));
    assert_eq!(crow, [202, 202, 302]);
}

#[test]
fn mosaics_refuse_inconsistent_tiles() {
    let g = Grid { rows: 1, columns: 2, output_width: 8, output_height: 2 };
    let tiles = vec![tile(4, 2, ChromaFormat::Yuv420, 0), tile(2, 2, ChromaFormat::Yuv420, 0)];
    assert!(matches!(Mosaic::new(&g, &tiles).map(|m| m.width()), Err(Error::Malformed(_))));
    let tiles = vec![tile(4, 2, ChromaFormat::Yuv420, 0), tile(4, 2, ChromaFormat::Yuv444, 0)];
    assert!(matches!(Mosaic::new(&g, &tiles).map(|m| m.width()), Err(Error::Malformed(_))));
    let tiles = vec![tile(4, 2, ChromaFormat::Yuv420, 0)];
    assert!(matches!(Mosaic::new(&g, &tiles).map(|m| m.width()), Err(Error::Malformed(_))));
    // Odd-width 4:2:0 tiles would put the second tile's origin between chroma samples.
    let tiles = vec![tile(3, 2, ChromaFormat::Yuv420, 0), tile(3, 2, ChromaFormat::Yuv420, 0)];
    let g = Grid { rows: 1, columns: 2, output_width: 6, output_height: 2 };
    assert!(matches!(Mosaic::new(&g, &tiles).map(|m| m.width()), Err(Error::Unsupported(_))));
    // Tiles that do not cover the output.
    let tiles = vec![tile(4, 2, ChromaFormat::Yuv420, 0), tile(4, 2, ChromaFormat::Yuv420, 0)];
    let g = Grid { rows: 1, columns: 2, output_width: 9, output_height: 2 };
    assert!(matches!(Mosaic::new(&g, &tiles).map(|m| m.width()), Err(Error::Malformed(_))));
}

#[test]
fn compose_places_every_tile_on_the_canvas() {
    let tiles = vec![tile(2, 2, ChromaFormat::Monochrome, 0), tile(2, 2, ChromaFormat::Monochrome, 50)];
    let g = Grid { rows: 1, columns: 2, output_width: 3, output_height: 2 };
    let f = compose(&g, &tiles, 1_000).expect("compose");
    assert_eq!((f.width, f.height, f.y_stride, f.c_stride), (3, 2, 3, 0));
    assert_eq!(f.y, vec![0, 1, 50, 10, 11, 60]);
    assert!(f.cb.is_empty() && f.cr.is_empty());
    assert_eq!(f.validate(), Ok(()));
    assert!(matches!(compose(&g, &tiles, 5), Err(Error::PixelLimit { pixels: 6, max_pixels: 5 })));
}

#[test]
fn compose_stitches_chroma_planes_too() {
    let tiles = vec![tile(2, 2, ChromaFormat::Yuv422, 0), tile(2, 2, ChromaFormat::Yuv422, 40)];
    let g = Grid { rows: 1, columns: 2, output_width: 4, output_height: 2 };
    let f = compose(&g, &tiles, 1_000).expect("compose");
    assert_eq!((f.c_stride, f.cb.len()), (2, 4));
    assert_eq!(f.cb, vec![1, 41, 1, 41]);
    assert_eq!(f.cr, vec![2, 42, 2, 42]);
}

#[test]
fn chroma_formats_name_their_subsampling() {
    assert_eq!(ChromaFormat::from_idc(0), Some(ChromaFormat::Monochrome));
    assert_eq!(ChromaFormat::from_idc(2), Some(ChromaFormat::Yuv422));
    assert_eq!(ChromaFormat::from_idc(4), None);
    assert_eq!((ChromaFormat::Yuv420.x_shift(), ChromaFormat::Yuv420.y_shift()), (1, 1));
    assert_eq!((ChromaFormat::Yuv422.x_shift(), ChromaFormat::Yuv422.y_shift()), (1, 0));
    assert_eq!(ChromaFormat::Yuv420.chroma_size(5, 3), (3, 2));
    assert_eq!(ChromaFormat::Yuv444.chroma_size(5, 3), (5, 3));
    assert_eq!(ChromaFormat::Monochrome.chroma_size(5, 3), (0, 0));
}

#[test]
fn frames_too_small_for_their_geometry_are_refused() {
    let mut f = tile(4, 2, ChromaFormat::Yuv420, 0);
    assert_eq!(f.validate(), Ok(()));
    f.cr.pop();
    assert!(matches!(f.validate(), Err(Error::Malformed(_))));
    let mut f = tile(4, 2, ChromaFormat::Yuv420, 0);
    f.y_stride = 3;
    assert!(matches!(f.validate(), Err(Error::Malformed(_))));
    let mut f = tile(4, 2, ChromaFormat::Monochrome, 0);
    f.width = 0;
    assert!(matches!(f.validate(), Err(Error::Malformed(_))));
}
