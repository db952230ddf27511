//! Picture buffers, their side information and the small decoding helpers
//! that work on them.

use heic_rs::hevc::cabac::{Cabac, off};
use heic_rs::hevc::cabac::encoder::Enc;
use heic_rs::hevc::decode::residual_ctx::{SIG_MAP_4X4, last_position, read_remaining, scan_index, sig_ctx};
use heic_rs::hevc::error::Error;
use heic_rs::hevc::filter::sao::clip3_i32;
use heic_rs::hevc::filter::{CtbFilter, FilterInfo, chroma_qp_from_luma};
use heic_rs::hevc::picture::{MAX_PLANE_SAMPLES, Picture, Plane, edge};
use heic_rs::hevc::decode::crop::crop;
use heic_rs::hevc::ChromaFormat;

#[test]
fn pictures_size_their_planes_and_block_arrays() {
    let p = Picture::new(20, 10, 2, 2).expect("picture");
    assert_eq!((p.y.width, p.y.height, p.y.stride), (20, 10, 20));
    assert_eq!((p.cb.width, p.cb.height), (10, 5));
    assert_eq!((p.min4_w, p.min4_h, p.min8_w, p.min8_h), (5, 3, 3, 2));
    assert_eq!(p.intra_mode, vec![1u8; 15]);
    assert_eq!(p.edges, vec![0u8; 6]);
    let m = Picture::new(8, 8, 0, 0).expect("monochrome");
    assert_eq!((m.cb.width, m.cb.height, m.cr.data.len()), (0, 0, 0));
    assert_eq!(Picture::new(MAX_PLANE_SAMPLES + 1, 1, 0, 0).map(|p| p.min4_w), Err(Error::TooLarge));
}

#[test]
fn planes_store_and_return_samples() {
    let mut pl = Plane::new(3, 2).expect("plane");
    pl.put(2, 1, 77);
    assert_eq!(pl.at(2, 1), 77);
    assert_eq!(pl.data, vec![0, 0, 0, 0, 0, 77]);
}

#[test]
fn block_indices_clamp_to_the_last_block() {
    let p = Picture::new(20, 10, 2, 2).expect("picture");
    assert_eq!(p.idx4(0, 0), 0);
    assert_eq!(p.idx4(7, 5), 6);
    assert_eq!(p.idx4(100, 100), 14);
}

#[test]
fn edges_are_marked_on_the_eight_sample_grid_only() {
    let mut p = Picture::new(32, 16, 0, 0).expect("picture");
    p.mark_edge(8, 0, 16, edge::VER);
    p.mark_edge(4, 0, 16, edge::VER); // off the 8x8 grid: ignored
    p.mark_edge(0, 8, 32, edge::HOR);
    p.mark_edge(40, 0, 8, edge::VER); // outside the picture: ignored
    assert_eq!(p.edges, vec![0, 1, 0, 0, 2, 3, 2, 2]);
}

#[test]
fn fill4_covers_the_block_and_skips_what_lies_past_the_end() {
    let mut arr = vec![0u8; 12];
    Picture::fill4(&mut arr, 4, 4, 0, 8, 9);
    assert_eq!(arr, vec![0, 9, 9, 0, 0, 9, 9, 0, 0, 0, 0, 0]);
    let mut arr = vec![0u8; 6];
    Picture::fill4(&mut arr, 3, 4, 4, 8, 5);
    assert_eq!(arr, vec![0, 0, 0, 0, 5, 5]);
}

#[test]
fn chroma_qp_follows_the_mapping_table() {
    assert_eq!(chroma_qp_from_luma(29, 1), 29);
    assert_eq!(chroma_qp_from_luma(30, 1), 29);
    assert_eq!(chroma_qp_from_luma(35, 1), 33);
    assert_eq!(chroma_qp_from_luma(43, 1), 37);
    assert_eq!(chroma_qp_from_luma(44, 1), 38);
    assert_eq!(chroma_qp_from_luma(57, 1), 51);
    assert_eq!(chroma_qp_from_luma(-5, 1), -5);
    assert_eq!(chroma_qp_from_luma(57, 3), 51);
    assert_eq!(chroma_qp_from_luma(40, 2), 40);
}

#[test]
fn clip3_bounds_a_value() {
    assert_eq!(clip3_i32(0, 255, -4), 0);
    assert_eq!(clip3_i32(0, 255, 300), 255);
    assert_eq!(clip3_i32(0, 255, 17), 17);
}

fn two_ctb_info(across_tiles: bool, across_slices: bool) -> FilterInfo {
    FilterInfo {
        bit_depth_y: 8,
        bit_depth_c: 8,
        chroma_array_type: 1,
        sub_w: 2,
        sub_h: 2,
        ctb_log2: 4,
        pic_w_ctbs: 2,
        pic_h_ctbs: 1,
        pcm_loop_filter_disabled: false,
        across_tiles,
        sao_enabled: false,
        ctb: vec![CtbFilter::default(), CtbFilter { across_slices, ..CtbFilter::default() }],
        tile_id: vec![0, 1],
        slice_addr: vec![0, 1],
    }
}

#[test]
fn filters_cross_tile_and_slice_boundaries_only_when_allowed() {
    assert!(two_ctb_info(true, true).may_cross(0, 1));
    assert!(!two_ctb_info(false, true).may_cross(0, 1));
    assert!(!two_ctb_info(true, false).may_cross(0, 1));
    assert!(two_ctb_info(false, false).may_cross(1, 1));
    assert_eq!(two_ctb_info(true, true).ctb_of(17, 3), 1);
    assert_eq!(two_ctb_info(true, true).ctb_of(15, 15), 0);
}

#[test]
fn scan_order_depends_on_the_mode_for_small_blocks() {
    assert_eq!(scan_index(1, 2, 0, 10), 2); // near horizontal prediction: vertical scan
    assert_eq!(scan_index(1, 2, 0, 26), 1); // near vertical prediction: horizontal scan
    assert_eq!(scan_index(1, 2, 0, 18), 0);
    assert_eq!(scan_index(1, 4, 0, 10), 0); // large blocks: diagonal
    assert_eq!(scan_index(1, 3, 1, 10), 0); // 8x8 chroma in 4:2:0
    assert_eq!(scan_index(3, 3, 1, 26), 1); // 8x8 chroma in 4:4:4
}

#[test]
fn significance_contexts_follow_the_derivation() {
    assert_eq!(SIG_MAP_4X4[9], 6);
    assert_eq!(sig_ctx(&[], 2, 0, 1, 2, 0, 0, 1, 0, false), 6);
    assert_eq!(sig_ctx(&[], 2, 1, 3, 3, 0, 0, 1, 0, false), 35);
    assert_eq!(sig_ctx(&[], 4, 1, 3, 3, 0, 0, 4, 0, true), 43);
    assert_eq!(sig_ctx(&[0; 4], 3, 0, 0, 0, 0, 0, 2, 0, false), 0);
    assert_eq!(sig_ctx(&[0; 4], 3, 0, 1, 0, 0, 0, 2, 0, false), 10);
    let mut csbf = [0u8; 16];
    csbf[6] = 1;
    assert_eq!(sig_ctx(&csbf, 4, 0, 5, 4, 1, 1, 4, 0, false), 26);
    let csbf = [0u8, 0, 1, 0];
    assert_eq!(sig_ctx(&csbf, 3, 1, 2, 2, 0, 0, 2, 0, false), 36);
}

#[test]
fn remaining_levels_decode_prefix_and_suffix() {
    let mut enc = Enc::new(26);
    // rice 0: prefix 2 then no suffix -> 2.
    for b in [1u32, 1, 0] {
        enc.bypass(b);
    }
    // rice 0: prefix 4, one suffix bit 1 -> 1 + ((1 << 1) + 2) = 5.
    for b in [1u32, 1, 1, 1, 0, 1] {
        enc.bypass(b);
    }
    // rice 2: prefix 1, suffix 0b11 -> (1 << 2) + 3 = 7.
    for b in [1u32, 0, 1, 1] {
        enc.bypass(b);
    }
    enc.terminate(1);
    let data = enc.finish();
    let mut c = Cabac::new(&data, 0, 26).expect("engine");
    assert_eq!(read_remaining(&mut c, 0), Ok(2));
    assert_eq!(read_remaining(&mut c, 0), Ok(5));
    assert_eq!(read_remaining(&mut c, 2), Ok(7));
    assert_eq!(c.terminate(), Ok(1));
}

#[test]
fn last_position_reads_prefixes_then_suffixes() {
    let mut enc = Enc::new(30);
    // 4x4 luma: contexts step by one bin, at most three bins each.
    for (v, b) in [1u32, 1, 0].iter().enumerate() {
        enc.decision(off::LAST_X + v, *b);
    }
    for (v, b) in [1u32, 1, 1].iter().enumerate() {
        enc.decision(off::LAST_Y + v, *b);
    }
    // 16x16 luma: offset 6, one context per two bins, at most seven bins.
    for (v, b) in [1u32, 1, 1, 1, 1, 0].iter().enumerate() {
        enc.decision(off::LAST_X + 6 + (v >> 1), *b);
    }
    enc.decision(off::LAST_Y + 6, 0);
    // Prefix 5 has a one-bin suffix: 2 * (2 + 1) + 1 = 7.
    enc.bypass(1);
    enc.terminate(1);
    let data = enc.finish();
    let mut c = Cabac::new(&data, 0, 30).expect("engine");
    assert_eq!(last_position(&mut c, 2, 0), Ok((2, 3)));
    assert_eq!(last_position(&mut c, 4, 0), Ok((7, 0)));
    assert_eq!(c.terminate(), Ok(1));
}

#[test]
fn sample_reads_are_clamped_to_the_plane() {
    let mut p = Plane::new(3, 2).expect("plane");
    for y in 0..2 {
        for x in 0..3 {
            p.put(x, y, (10 * y + x) as u16);
        }
    }
    assert_eq!(p.at(1, 1), 11);
    assert_eq!(p.at(3, 0), 2);
    assert_eq!(p.at(7, 9), 12);
    assert_eq!(p.at(0, 5), 10);
}

#[test]
fn crop_cuts_the_conformance_window() {
    let mut p = Picture::new(8, 4, 2, 2).expect("picture");
    for (i, s) in p.y.data.iter_mut().enumerate() {
        *s = i as u16;
    }
    for (i, s) in p.cb.data.iter_mut().enumerate() {
        *s = 100 + i as u16;
    }
    for (i, s) in p.cr.data.iter_mut().enumerate() {
        *s = 200 + i as u16;
    }
    // Two columns off the left, two off the right, two rows off the top.
    let f = crop(&p, 8, 4, [2, 2, 2, 0], 8, 1, 2, 2);
    assert_eq!((f.width, f.height, f.y_stride, f.c_stride), (4, 2, 4, 2));
    assert_eq!(f.chroma, ChromaFormat::Yuv420);
    assert_eq!(f.y, vec![18, 19, 20, 21, 26, 27, 28, 29]);
    // Chroma row 1, columns 1 and 2 of a 4-wide plane.
    assert_eq!(f.cb, vec![105, 106]);
    assert_eq!(f.cr, vec![205, 206]);
}

#[test]
fn crop_keeps_one_sample_and_no_chroma_when_monochrome() {
    let p = Picture::new(4, 4, 0, 0).expect("picture");
    let f = crop(&p, 4, 4, [2, 2, 0, 9], 10, 0, 0, 0);
    assert_eq!((f.width, f.height, f.c_stride), (1, 1, 0));
    assert_eq!(f.chroma, ChromaFormat::Monochrome);
    assert_eq!(f.y, vec![0]);
    assert!(f.cb.is_empty() && f.cr.is_empty());
}
