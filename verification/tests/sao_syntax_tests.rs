//! Parsing of the per-CTB sample adaptive offset parameters.

use heic_rs::hevc::cabac::encoder::Enc;
use heic_rs::hevc::cabac::{Cabac, off};
use heic_rs::hevc::decode::geom::Geometry;
use heic_rs::hevc::decode::sao_syn::sao;
use heic_rs::hevc::filter::{CtbFilter, FilterInfo, SaoCtb};
use heic_rs::hevc::ps::{Pps, Sps};

fn sps(bit_depth: u8) -> Sps {
    Sps {
        width: 32,
        height: 16,
        sub_w: 2,
        sub_h: 2,
        bit_depth_y: bit_depth,
        bit_depth_c: bit_depth,
        log2_ctb: 4,
        log2_min_tb: 2,
        ..Default::default()
    }
}

fn pps(scale: u32) -> Pps {
    Pps {
        num_tile_cols: 1,
        num_tile_rows: 1,
        uniform_spacing: true,
        sao_offset_scale_luma: scale,
        sao_offset_scale_chroma: scale,
        ..Default::default()
    }
}

/// Two 16x16 CTBs side by side, in the slices `slices`, each starting with
/// SAO parameters `s` for every component.
fn info(slices: [u32; 2], s: SaoCtb) -> FilterInfo {
    let cf = CtbFilter { sao: [s; 3], ..CtbFilter::default() };
    FilterInfo {
        bit_depth_y: 8,
        bit_depth_c: 8,
        chroma_array_type: 1,
        sub_w: 2,
        sub_h: 2,
        ctb_log2: 4,
        pic_w_ctbs: 2,
        pic_h_ctbs: 1,
        pcm_loop_filter_disabled: false,
        across_tiles: true,
        sao_enabled: true,
        ctb: vec![cf, cf],
        tile_id: vec![0, 0],
        slice_addr: slices.to_vec(),
    }
}

/// A truncated unary magnitude capped at `cap`.
fn unary(enc: &mut Enc, v: u32, cap: u32) {
    for _ in 0..v {
        enc.bypass(1);
    }
    if v < cap {
        enc.bypass(0);
    }
}

fn off_params() -> SaoCtb {
    SaoCtb { type_idx: 0, eo_class: 0, band_position: 0, offsets: [0; 4] }
}

#[test]
fn band_and_edge_offsets_are_parsed_and_merged_to_the_right() {
    let sps = sps(8);
    let pps = pps(0);
    let geo = Geometry::new(&sps, &pps).expect("geometry");
    let mut enc = Enc::new(26);
    // Luma: band offset, magnitudes 3, 0, 7 (the cap), 1.
    enc.decision(off::SAO_TYPE, 1);
    enc.bypass(0);
    for a in [3u32, 0, 7, 1] {
        unary(&mut enc, a, 7);
    }
    // Signs of the non-zero magnitudes: -, +, -.
    for b in [1u32, 0, 1] {
        enc.bypass(b);
    }
    // Band position 12.
    for b in [0u32, 1, 1, 0, 0] {
        enc.bypass(b);
    }
    // Cb: edge offset, magnitudes 2, 1, 0, 4, class 3.
    enc.decision(off::SAO_TYPE, 1);
    enc.bypass(1);
    for a in [2u32, 1, 0, 4] {
        unary(&mut enc, a, 7);
    }
    enc.bypass(1);
    enc.bypass(1);
    // Cr: Cb's type and class, magnitudes 0, 0, 1, 1.
    for a in [0u32, 0, 1, 1] {
        unary(&mut enc, a, 7);
    }
    // Second CTB: merge with the left one.
    enc.decision(off::SAO_MERGE, 1);
    enc.terminate(1);
    let data = enc.finish();
    let mut cab = Cabac::new(&data, 0, 26).expect("engine");
    let mut fi = info([0, 0], off_params());
    assert_eq!(sao(&mut cab, &mut fi, &geo, &sps, &pps, true, true, 1, 0), Ok(()));
    let y = SaoCtb { type_idx: 1, eo_class: 0, band_position: 12, offsets: [-3, 0, 7, -1] };
    let cb = SaoCtb { type_idx: 2, eo_class: 3, band_position: 0, offsets: [2, 1, 0, -4] };
    let cr = SaoCtb { type_idx: 2, eo_class: 3, band_position: 0, offsets: [0, 0, -1, -1] };
    assert_eq!(fi.ctb[0].sao, [y, cb, cr]);
    assert_eq!(sao(&mut cab, &mut fi, &geo, &sps, &pps, true, true, 1, 1), Ok(()));
    assert_eq!(fi.ctb[1].sao, [y, cb, cr]);
    assert_eq!(cab.terminate(), Ok(1));
}

#[test]
fn no_merge_across_slices_and_disabled_components_are_switched_off() {
    let sps = sps(8);
    let pps = pps(0);
    let geo = Geometry::new(&sps, &pps).expect("geometry");
    let start = SaoCtb { type_idx: 2, eo_class: 1, band_position: 0, offsets: [1, 1, -1, -1] };
    let mut enc = Enc::new(26);
    // Second CTB, in its own slice: no merge flag; luma SAO not applied.
    enc.decision(off::SAO_TYPE, 0);
    enc.terminate(1);
    let data = enc.finish();
    let mut cab = Cabac::new(&data, 0, 26).expect("engine");
    let mut fi = info([0, 1], start);
    assert_eq!(sao(&mut cab, &mut fi, &geo, &sps, &pps, true, false, 1, 1), Ok(()));
    assert_eq!(fi.ctb[1].sao, [off_params(); 3]);
    assert_eq!(fi.ctb[0].sao, [start; 3]);
    assert_eq!(cab.terminate(), Ok(1));
}

#[test]
fn monochrome_pictures_leave_the_chroma_entries_alone() {
    let sps = sps(9);
    let pps = pps(1);
    let geo = Geometry::new(&sps, &pps).expect("geometry");
    let start = SaoCtb { type_idx: 1, eo_class: 0, band_position: 3, offsets: [1, 2, 3, 4] };
    let mut enc = Enc::new(26);
    // Luma: edge offset; 9-bit samples cap magnitudes at 15; class 1.
    enc.decision(off::SAO_TYPE, 1);
    enc.bypass(1);
    for a in [15u32, 4, 0, 2] {
        unary(&mut enc, a, 15);
    }
    enc.bypass(0);
    enc.bypass(1);
    enc.terminate(1);
    let data = enc.finish();
    let mut cab = Cabac::new(&data, 0, 26).expect("engine");
    let mut fi = info([0, 0], start);
    fi.chroma_array_type = 0;
    assert_eq!(sao(&mut cab, &mut fi, &geo, &sps, &pps, true, true, 0, 0), Ok(()));
    // Magnitudes are scaled by 2^1.
    let y = SaoCtb { type_idx: 2, eo_class: 1, band_position: 0, offsets: [30, 8, 0, -4] };
    assert_eq!(fi.ctb[0].sao, [y, start, start]);
    assert_eq!(cab.terminate(), Ok(1));
}
