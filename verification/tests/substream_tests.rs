//! Substream starts, tile and row boundaries, and wavefront context reuse.

use heic_rs::hevc::decode::geom::Geometry;
use heic_rs::hevc::decode::substreams::{next_ctb, substream_starts, wpp_takes_saved};
use heic_rs::hevc::error::Error;
use heic_rs::hevc::nal::Rbsp;
use heic_rs::hevc::ps::{Pps, Sps};

#[test]
fn entry_points_count_nal_bytes_across_removed_escapes() {
    // The payload lost the byte at NAL offset 6.
    let r = Rbsp { data: vec![0; 20], epb: vec![6] };
    let starts = substream_starts(1, &[4, 5], &r);
    // Payload 1 is NAL 3; NAL 7 and 12 are payload 4 and 9.
    assert_eq!(starts, vec![1, 4, 9]);
    assert_eq!(substream_starts(0, &[], &r), vec![0]);
}

#[test]
fn tiles_and_rows_start_new_substreams() {
    let s = Sps { width: 256, height: 128, sub_w: 2, sub_h: 2, bit_depth_y: 8, bit_depth_c: 8, log2_ctb: 5, log2_min_tb: 2, ..Default::default() };
    let p = Pps { tiles_enabled: true, num_tile_cols: 2, num_tile_rows: 1, uniform_spacing: true, ..Default::default() };
    let g = Geometry::new(&s, &p).expect("geometry");
    // Tile 0 is columns 0..4: after its last CTB (ts 15, raster 27) comes raster 4.
    assert_eq!(next_ctb(&g, 15, false), Ok((4, true, false)));
    assert_eq!(next_ctb(&g, 0, false), Ok((1, false, false)));
    // Inside a tile, the next row starts a substream only with wavefronts.
    assert_eq!(next_ctb(&g, 3, false), Ok((8, false, false)));
    assert_eq!(next_ctb(&g, 3, true), Ok((8, false, true)));
    assert_eq!(
        next_ctb(&g, 31, false),
        Err(Error::InvalidData("slice runs past the end of the picture"))
    );
}

#[test]
fn wavefront_rows_take_the_contexts_from_above_when_they_can() {
    let tile = vec![0u16; 8];
    let slice = vec![7u32; 8];
    // Row 1 of a 4-wide picture starts at raster 4; CTB 1 is above right.
    assert!(wpp_takes_saved(Some(0), 4, 4, &tile, &slice, 7));
    assert!(!wpp_takes_saved(None, 4, 4, &tile, &slice, 7));
    assert!(!wpp_takes_saved(Some(0), 4, 4, &tile, &slice, 8));
    assert!(!wpp_takes_saved(Some(0), 0, 4, &tile, &slice, 7));
    let mut other = tile.clone();
    other[1] = 1;
    assert!(!wpp_takes_saved(Some(0), 4, 4, &other, &slice, 7));
}
