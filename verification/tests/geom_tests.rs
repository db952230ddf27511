//! Tile geometry and the z-scan address table.

use heic_rs::hevc::decode::geom::Geometry;
use heic_rs::hevc::ps::{Pps, Sps};

fn sps(width: usize, height: usize, log2_ctb: usize) -> Sps {
    Sps { width, height, sub_w: 2, sub_h: 2, bit_depth_y: 8, bit_depth_c: 8, log2_ctb, log2_min_tb: 2, ..Default::default() }
}

#[test]
fn without_tiles_the_scans_are_the_identity() {
    let s = sps(256, 128, 5);
    let p = Pps { num_tile_cols: 1, num_tile_rows: 1, uniform_spacing: true, ..Default::default() };
    let g = Geometry::new(&s, &p).expect("geometry");
    assert_eq!((g.w_ctbs, g.h_ctbs), (8, 4));
    for rs in 0..g.size_ctbs {
        assert_eq!(g.rs_to_ts[rs] as usize, rs);
        assert_eq!(g.ts_to_rs[rs] as usize, rs);
        assert_eq!(g.tile_id[rs], 0);
    }
}

#[test]
fn uniform_tiles_reorder_the_tile_scan() {
    let s = sps(256, 128, 5); // 8x4 coding tree blocks
    let p = Pps {
        tiles_enabled: true,
        num_tile_cols: 2,
        num_tile_rows: 2,
        uniform_spacing: true,
        ..Default::default()
    };
    let g = Geometry::new(&s, &p).expect("geometry");
    assert_eq!(g.col_width, vec![4, 4]);
    assert_eq!(g.row_height, vec![2, 2]);
    // The first tile holds the top left 4x2 block of CTBs in raster order.
    assert_eq!(g.rs_to_ts[0], 0);
    assert_eq!(g.rs_to_ts[3], 3);
    assert_eq!(g.rs_to_ts[8], 4); // second CTB row, still tile 0
    assert_eq!(g.rs_to_ts[4], 8); // first CTB of tile 1
    assert_eq!(g.tile_id[4], 1);
    assert_eq!(g.tile_id[16], 2);
    assert_eq!(g.tile_id[20], 3);
    for ts in 0..g.size_ctbs {
        assert_eq!(g.rs_to_ts[g.ts_to_rs[ts] as usize] as usize, ts);
    }
}

#[test]
fn explicit_tile_spacing_uses_the_signalled_widths() {
    let s = sps(256, 128, 5);
    let p = Pps {
        tiles_enabled: true,
        num_tile_cols: 3,
        num_tile_rows: 1,
        uniform_spacing: false,
        column_widths: vec![1, 5],
        ..Default::default()
    };
    let g = Geometry::new(&s, &p).expect("geometry");
    assert_eq!(g.col_width, vec![1, 5, 2]);
    assert_eq!(g.tile_id[0], 0);
    assert_eq!(g.tile_id[1], 1);
    assert_eq!(g.tile_id[6], 2);
}

#[test]
fn z_scan_addresses_increase_along_the_quad_tree_order() {
    let s = sps(64, 64, 6); // one 64x64 coding tree block
    let p = Pps { num_tile_cols: 1, num_tile_rows: 1, uniform_spacing: true, ..Default::default() };
    let g = Geometry::new(&s, &p).expect("geometry");
    // Within one CTB the z order visits quadrants top left, top right,
    // bottom left, bottom right.
    assert_eq!(g.z(0, 0), 0);
    assert_eq!(g.z(4, 0), 1);
    assert_eq!(g.z(0, 4), 2);
    assert_eq!(g.z(4, 4), 3);
    assert_eq!(g.z(32, 0), 64);
    assert_eq!(g.z(0, 32), 128);
    assert_eq!(g.z(32, 32), 192);
    let mut seen = vec![false; 256];
    for y in (0..64).step_by(4) {
        for x in (0..64).step_by(4) {
            let z = g.z(x, y) as usize;
            assert!(!seen[z]);
            seen[z] = true;
        }
    }
}

#[test]
fn degenerate_tile_configurations_are_rejected() {
    let s = sps(64, 64, 5); // 2x2 coding tree blocks
    let p = Pps {
        tiles_enabled: true,
        num_tile_cols: 4,
        num_tile_rows: 1,
        uniform_spacing: true,
        ..Default::default()
    };
    assert!(Geometry::new(&s, &p).is_err());
}

#[test]
fn explicit_spacing_that_fills_the_picture_is_rejected() {
    let s = sps(256, 128, 5); // 8 CTB columns
    let p = Pps {
        tiles_enabled: true,
        num_tile_cols: 2,
        num_tile_rows: 1,
        uniform_spacing: false,
        column_widths: vec![8],
        ..Default::default()
    };
    assert!(Geometry::new(&s, &p).is_err());
    let p = Pps { column_widths: vec![1, 1], ..p };
    assert!(Geometry::new(&s, &p).is_err());
}

#[test]
fn positions_outside_the_picture_have_no_z_address() {
    let s = sps(60, 40, 5);
    let p = Pps { num_tile_cols: 1, num_tile_rows: 1, uniform_spacing: true, ..Default::default() };
    let g = Geometry::new(&s, &p).expect("geometry");
    assert_eq!((g.min_tb_w, g.min_tb_h), (15, 10));
    assert_eq!(g.z(60, 0), u32::MAX);
    assert_eq!(g.z(0, 40), u32::MAX);
    assert_eq!(g.ctb_rs(40, 33), 3);
    // The block at (8, 8) in 4x4 units is in the second CTB, after its 64 blocks.
    assert_eq!(g.z(32, 0), 64);
}

#[test]
fn uneven_uniform_tiles_split_as_the_formula_says() {
    let s = sps(320, 64, 5); // 10x2 coding tree blocks
    let p = Pps { num_tile_cols: 3, num_tile_rows: 1, uniform_spacing: true, ..Default::default() };
    let g = Geometry::new(&s, &p).expect("geometry");
    assert_eq!(g.col_width, vec![3, 3, 4]);
    assert_eq!(g.row_height, vec![2]);
}
