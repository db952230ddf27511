//! Row sources for the colour pass and the fixed-point channel steps.

use heic_rs::color::chroma::pick_slot;
use heic_rs::color::depth_ok;
use heic_rs::color::fixed::{AlphaScale, Coeffs, sample_max, shift_for};
use heic_rs::color::source::Source;
use heic_rs::error::Error;
use heic_rs::grid::{Grid, Mosaic};
use heic_rs::hevc::{ChromaFormat, Frame};
use heic_rs::color::kernel::{alpha, row_identity, row_luma, row_matrix};

fn frame(w: u32, h: u32, base: u16) -> Frame {
    let (cw, ch) = ChromaFormat::Yuv420.chroma_size(w, h);
    Frame {
        width: w,
        height: h,
        bit_depth: 8,
        chroma: ChromaFormat::Yuv420,
        y: (0..w * h).map(|i| base + i as u16).collect(),
        cb: (0..cw * ch).map(|i| base + 100 + i as u16).collect(),
        cr: (0..cw * ch).map(|i| base + 200 + i as u16).collect(),
        y_stride: w,
        c_stride: cw,
    }
}

#[test]
fn a_frame_answers_with_slices_of_its_planes() {
    let f = frame(4, 4, 0);
    let s = Source::Frame(&f);
    assert_eq!((s.width(), s.height(), s.bit_depth()), (4, 4, 8));
    assert_eq!(s.chroma(), ChromaFormat::Yuv420);
    assert_eq!(s.stitch_len(), 0);
    let mut buf = [0u16; 0];
    assert_eq!(s.luma(2, &mut buf), Some(&[8u16, 9, 10, 11][..]));
    assert_eq!(s.luma(4, &mut buf), None);
    let rows = s.chroma_rows(0, 1, &mut buf).expect("rows");
    assert_eq!(rows, [&[100u16, 101][..], &[102, 103][..], &[200, 201][..], &[202, 203][..]]);
    assert!(s.chroma_rows(0, 2, &mut buf).is_none());
}

#[test]
fn a_mosaic_assembles_rows_in_the_scratch_buffer() {
    let tiles = vec![frame(2, 2, 0), frame(2, 2, 1000)];
    let g = Grid { rows: 1, columns: 2, output_width: 4, output_height: 2 };
    let m = Mosaic::new(&g, &tiles).expect("mosaic");
    let s = Source::Mosaic(&m);
    assert_eq!((s.width(), s.height()), (4, 2));
    assert_eq!(s.stitch_len(), 4 + 4 * 2);
    let mut buf = vec![0u16; s.stitch_len()];
    assert_eq!(s.luma(1, &mut buf), Some(&[2u16, 3, 1002, 1003][..]));
    assert_eq!(s.luma(2, &mut buf), None);
    let rows = s.chroma_rows(0, 0, &mut buf).expect("rows");
    assert_eq!(rows, [&[100u16, 1100][..], &[100, 1100][..], &[200, 1200][..], &[200, 1200][..]]);
    let mut short = [0u16; 3];
    assert_eq!(s.luma(0, &mut short), None);
    assert!(s.chroma_rows(0, 0, &mut short).is_none());
}

#[test]
fn fixed_point_channels_round_and_clamp() {
    let c = Coeffs {
        shift: 16,
        round: 1 << 15,
        max_out: 255,
        y_offset: 16,
        c_offset: 128,
        ky: 0,
        rv: 0,
        gu: 0,
        gv: 0,
        bu: 0,
    };
    assert_eq!(c.finish(100 << 16), 100);
    assert_eq!(c.finish((100 << 16) + (1 << 15)), 101);
    assert_eq!(c.finish((100 << 16) + (1 << 15) - 1), 100);
    assert_eq!(c.finish(-5 << 16), 0);
    assert_eq!(c.finish(300 << 16), 255);
    assert_eq!((shift_for(true), shift_for(false)), (13, 16));
}

#[test]
fn alpha_samples_rescale_to_the_output_depth() {
    // Ten-bit alpha onto eight-bit output: gain 255 * 2^14 / 1023, rounded.
    let gain = ((255.0f64 * 16384.0 / 1023.0) + 0.5) as i32;
    let a = AlphaScale { gain, max_in: sample_max(10), max_out: 255 };
    assert_eq!(a.apply(0), 0);
    assert_eq!(a.apply(1023), 255);
    assert_eq!(a.apply(2000), 255); // overruns the declared depth
    assert_eq!(a.apply(512), 128);
    assert_eq!(sample_max(8), 255);
    assert_eq!(sample_max(16), 65535);
}

#[test]
fn only_eight_to_sixteen_bit_samples_are_converted() {
    assert_eq!(depth_ok(8), Ok(()));
    assert_eq!(depth_ok(16), Ok(()));
    assert!(matches!(depth_ok(7), Err(Error::Unsupported(_))));
    assert!(matches!(depth_ok(17), Err(Error::Unsupported(_))));
}

fn unit_coeffs(max_out: i32) -> Coeffs {
    Coeffs {
        shift: 16,
        round: 1 << 15,
        max_out,
        y_offset: 0,
        c_offset: 128,
        ky: 1 << 16,
        rv: 1 << 16,
        gu: -(1 << 16),
        gv: 0,
        bu: 2 << 16,
    }
}

#[test]
fn grey_rows_repeat_luma_and_clamp() {
    let c = unit_coeffs(255);
    let mut dst = [7u8; 7];
    row_luma::<3, false, false>(&mut dst, &[10, 300], &c);
    assert_eq!(dst, [10, 10, 10, 255, 255, 255, 7]);
    let mut dst = [0u8; 8];
    row_luma::<4, true, false>(&mut dst, &[20, 30, 40], &c);
    assert_eq!(dst, [20, 20, 20, 255, 30, 30, 30, 255]);
    let c16 = unit_coeffs(65535);
    let mut dst = [0u8; 6];
    row_luma::<6, false, true>(&mut dst, &[0x1234], &c16);
    let px = 0x1234u16.to_ne_bytes();
    assert_eq!(dst, [px[0], px[1], px[0], px[1], px[0], px[1]]);
}

#[test]
fn matrix_and_identity_rows() {
    let c = unit_coeffs(255);
    let mut dst = [0u8; 4];
    row_matrix::<4, false, false>(&mut dst, &[100], &[130], &[120], &c);
    // V = -8 and U = 2: red 92, green 98, blue 104, alpha opaque.
    assert_eq!(dst, [92, 98, 104, 255]);
    let mut dst = [0u8; 3];
    row_identity::<3, true, false>(&mut dst, &[1], &[2], &[3], &c);
    // Green from luma, blue from Cb, red from Cr, stored blue first.
    assert_eq!(dst, [2, 1, 3]);
}

fn alpha_plane(width: u32, height: u32, stride: u32, y: Vec<u16>) -> Frame {
    Frame {
        width,
        height,
        bit_depth: 8,
        chroma: ChromaFormat::Monochrome,
        y,
        cb: Vec::new(),
        cr: Vec::new(),
        y_stride: stride,
        c_stride: 0,
    }
}

#[test]
fn alpha_fills_the_last_channel_and_clamps() {
    let s = AlphaScale { gain: 1 << 14, max_in: 255, max_out: 255 };
    let plane = alpha_plane(2, 2, 3, vec![10, 300, 7, 40, 50, 7]);
    let mut out = [0xAAu8; 16];
    alpha(&mut out, &plane, 2, 2, 4, &s);
    let mut want = [0xAAu8; 16];
    want[3] = 10;
    want[7] = 255;
    want[11] = 40;
    want[15] = 50;
    assert_eq!(out, want);
}

#[test]
fn alpha_stops_where_the_plane_or_the_output_ends() {
    let s = AlphaScale { gain: 1 << 14, max_in: 255, max_out: 255 };
    // The plane holds one sample of the second row.
    let plane = alpha_plane(2, 2, 3, vec![1, 2, 0, 3]);
    let mut out = [0u8; 8];
    alpha(&mut out, &plane, 2, 2, 2, &s);
    assert_eq!(out, [0, 1, 0, 2, 0, 3, 0, 0]);
    // The output holds one row.
    let mut out = [0u8; 12];
    alpha(&mut out, &plane, 2, 2, 4, &s);
    assert_eq!(out, [0, 0, 0, 1, 0, 0, 0, 2, 0, 0, 0, 0]);
}

#[test]
fn alpha_wide_pixels_take_sixteen_bits() {
    let s = AlphaScale { gain: 1 << 14, max_in: 65535, max_out: 65535 };
    let plane = alpha_plane(1, 1, 1, vec![0x1234]);
    let mut out = [9u8; 8];
    alpha(&mut out, &plane, 1, 1, 8, &s);
    let b = 0x1234u16.to_ne_bytes();
    assert_eq!(out, [9, 9, 9, 9, 9, 9, b[0], b[1]]);
}

#[test]
fn chroma_rows_find_their_slot_or_evict_the_farthest() {
    assert_eq!(pick_slot(&[None, None, None], 4), (2, false));
    assert_eq!(pick_slot(&[Some(4), None, Some(4)], 4), (0, true));
    assert_eq!(pick_slot(&[Some(3), Some(5), None], 4), (2, false));
    assert_eq!(pick_slot(&[Some(3), Some(5), Some(4)], 4), (2, true));
    // Rows 1 and 7 are both three away from 4: the later slot goes.
    assert_eq!(pick_slot(&[Some(1), Some(7), Some(5)], 4), (1, false));
}
