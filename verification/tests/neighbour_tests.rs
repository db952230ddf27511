//! Neighbour availability and reference sample gathering.

use heic_rs::hevc::decode::geom::Geometry;
use heic_rs::hevc::decode::refs::gather_refs;
use heic_rs::hevc::decode::state::{QpGroup, available, qp_chroma, qp_luma, set_qp_delta, start_qg, store_qp};
use heic_rs::hevc::picture::Picture;
use heic_rs::hevc::ps::{Pps, Sps};

fn setup(w: usize, h: usize) -> (Sps, Geometry, Picture) {
    let sps = Sps { width: w, height: h, sub_w: 2, sub_h: 2, bit_depth_y: 8, bit_depth_c: 8, log2_ctb: 4, log2_min_tb: 2, ..Default::default() };
    let pps = Pps { num_tile_cols: 1, num_tile_rows: 1, uniform_spacing: true, ..Default::default() };
    let geo = Geometry::new(&sps, &pps).expect("geometry");
    let mut pic = Picture::new(w, h, 2, 2).expect("picture");
    for y in 0..h {
        for x in 0..w {
            pic.y.put(x, y, (10 * y + x) as u16);
        }
    }
    (sps, geo, pic)
}

#[test]
fn blocks_later_in_z_order_are_not_available() {
    let (_, geo, _) = setup(16, 16);
    let slices = vec![0u32];
    assert!(available(&geo, &slices, 16, 16, 4, 4, 3, 4)); // left: earlier
    assert!(available(&geo, &slices, 16, 16, 4, 4, 4, 3)); // above: earlier
    assert!(!available(&geo, &slices, 16, 16, 4, 4, 3, 8)); // below left: later
    assert!(!available(&geo, &slices, 16, 16, 4, 4, 8, 3)); // above right: later
    assert!(!available(&geo, &slices, 16, 16, 4, 4, -1, 4)); // outside
    assert!(!available(&geo, &slices, 16, 16, 4, 4, 4, 16)); // outside
}

#[test]
fn blocks_of_another_slice_are_not_available() {
    let (_, geo, _) = setup(32, 16);
    assert!(available(&geo, &[0, 0], 32, 16, 16, 0, 15, 0));
    assert!(!available(&geo, &[0, 1], 32, 16, 16, 0, 15, 0));
}

#[test]
fn gathered_references_substitute_what_is_unavailable() {
    let (sps, geo, pic) = setup(16, 16);
    let r = gather_refs(&pic, &geo, &[0], &sps, 4, 4, 4, 0);
    assert_eq!(r.n, 4);
    assert_eq!(&r.buf[..17], &[73, 73, 73, 73, 73, 63, 53, 43, 33, 34, 35, 36, 37, 37, 37, 37, 37]);
    assert!(r.buf[17..].iter().all(|&v| v == 0));
}

#[test]
fn a_block_at_the_picture_corner_gets_mid_grey() {
    let (sps, geo, pic) = setup(16, 16);
    let r = gather_refs(&pic, &geo, &[0], &sps, 0, 0, 4, 0);
    assert!(r.buf[..17].iter().all(|&v| v == 128));
}

#[test]
fn qp_deltas_wrap_into_the_legal_range() {
    assert_eq!(set_qp_delta(30, 5, 0), 35);
    assert_eq!(set_qp_delta(50, 5, 0), 3);
    assert_eq!(set_qp_delta(-10, -5, 12), 49);
    assert_eq!(set_qp_delta(26, 0, 12), 26);
    assert_eq!(qp_luma(26, 12), 38);
}

#[test]
fn chroma_qps_add_the_offsets_and_map_through_the_table() {
    assert_eq!(qp_chroma(30, 2, 1, 0, 0, 1), 32);
    assert_eq!(qp_chroma(-20, 0, 0, 0, 12, 1), 0);
    assert_eq!(qp_chroma(60, 0, 0, 0, 0, 1), 51);
    assert_eq!(qp_chroma(40, 0, 0, 0, 0, 3), 40);
}

#[test]
fn the_predicted_qp_averages_the_neighbours() {
    let (sps, geo, mut pic) = setup(16, 16);
    pic.qp_y[4] = 30; // block left of (4, 4)
    pic.qp_y[1] = 33; // block above (4, 4)
    let mut qg = QpGroup { qp_pred: 0, qp_y: 0, qp_delta_coded: true };
    start_qg(&pic, &geo, &[0], &sps, 4, 4, false, 26, 20, 12, &mut qg);
    assert_eq!((qg.qp_pred, qg.qp_y, qg.qp_delta_coded), (32, 32, false));
    // The first group of the picture has no neighbours: the slice QP twice.
    start_qg(&pic, &geo, &[0], &sps, 0, 0, true, 26, 20, 12, &mut qg);
    assert_eq!((qg.qp_pred, qg.qp_y), (26, 26));
    start_qg(&pic, &geo, &[0], &sps, 0, 0, false, 26, -5, 12, &mut qg);
    assert_eq!((qg.qp_pred, qg.qp_y), (-5, -5));
    // A prediction below -QpBdOffsetY wraps into range.
    start_qg(&pic, &geo, &[0], &sps, 0, 0, false, 26, -20, 12, &mut qg);
    assert_eq!((qg.qp_pred, qg.qp_y), (-20, 44));
}

#[test]
fn stored_qps_cover_the_coding_unit() {
    let (_, _, mut pic) = setup(16, 16);
    store_qp(&mut pic, 4, 4, 8, 200);
    for (i, &v) in pic.qp_y.iter().enumerate() {
        let inside = [5usize, 6, 9, 10].contains(&i);
        assert_eq!(v, if inside { 127 } else { 0 }, "block {i}");
    }
}
