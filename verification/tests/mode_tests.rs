//! Most probable modes, the luma and chroma mode derivations and reference
//! sample substitution.

use heic_rs::hevc::cabac::encoder::Enc;
use heic_rs::hevc::cabac::{Cabac, off};
use heic_rs::hevc::decode::geom::Geometry;
use heic_rs::hevc::decode::mode::{
    DC, PLANAR, VER, candidates, chroma_mode, derive_chroma_mode, derive_luma_mode, luma_mode,
};
use heic_rs::hevc::picture::Picture;
use heic_rs::hevc::ps::{Pps, Sps};
use heic_rs::hevc::decode::refs::substitute;
use heic_rs::hevc::intra::Refs;

#[test]
fn equal_non_angular_neighbours_give_planar_dc_vertical() {
    assert_eq!(candidates(0, 0), [PLANAR, DC, VER]);
    assert_eq!(candidates(1, 1), [PLANAR, DC, VER]);
}

#[test]
fn equal_angular_neighbours_give_the_mode_and_its_neighbours() {
    assert_eq!(candidates(10, 10), [10, 9, 11]);
    assert_eq!(candidates(2, 2), [2, 33, 3]);
    assert_eq!(candidates(34, 34), [34, 33, 3]);
}

#[test]
fn different_neighbours_are_completed_by_the_first_unused_default() {
    assert_eq!(candidates(10, 20), [10, 20, PLANAR]);
    assert_eq!(candidates(0, 20), [0, 20, DC]);
    assert_eq!(candidates(0, 1), [0, 1, VER]);
}

#[test]
fn most_probable_mode_index_picks_a_candidate() {
    let c = [10u8, 20, 0];
    assert_eq!(derive_luma_mode(true, 0, c), 10);
    assert_eq!(derive_luma_mode(true, 1, c), 20);
    assert_eq!(derive_luma_mode(true, 2, c), 0);
}

#[test]
fn remaining_modes_skip_the_candidates() {
    let c = [10u8, 20, 0];
    // Sorted candidates 0, 10, 20: code 0 is mode 1, code 8 is mode 9,
    // code 9 steps past 10 to 11, code 31 is mode 34.
    assert_eq!(derive_luma_mode(false, 0, c), 1);
    assert_eq!(derive_luma_mode(false, 8, c), 9);
    assert_eq!(derive_luma_mode(false, 9, c), 11);
    assert_eq!(derive_luma_mode(false, 31, c), 34);
    // Every code names a different mode outside the list.
    let mut seen = [false; 35];
    for sel in 0..32u32 {
        let m = derive_luma_mode(false, sel, c) as usize;
        assert!(!c.contains(&(m as u8)) && !seen[m]);
        seen[m] = true;
    }
}

#[test]
fn chroma_modes_follow_the_luma_mode_and_avoid_repeating_it() {
    assert_eq!(derive_chroma_mode(0, 10, 1), 0);
    assert_eq!(derive_chroma_mode(1, 10, 1), 26);
    assert_eq!(derive_chroma_mode(2, 10, 1), 34); // horizontal repeats luma
    assert_eq!(derive_chroma_mode(3, 10, 1), 1);
    assert_eq!(derive_chroma_mode(4, 17, 1), 17);
    // 4:2:2 maps the result through Table 8-3.
    assert_eq!(derive_chroma_mode(4, 17, 2), 22);
    assert_eq!(derive_chroma_mode(1, 10, 2), 34);
}

fn refs_from(n: usize, vals: &[u16]) -> Refs {
    let mut r = Refs::new(n);
    r.buf[..vals.len()].copy_from_slice(vals);
    r
}

#[test]
fn nothing_available_fills_mid_grey() {
    let mut r = refs_from(4, &[7; 17]);
    substitute(&mut r, &[false; 129], 17, 10);
    assert!(r.buf[..17].iter().all(|&v| v == 512));
    assert_eq!(r.buf[17], 0);
}

#[test]
fn unavailable_samples_copy_the_previous_one() {
    let vals: Vec<u16> = (0..17).map(|i| 100 + i).collect();
    let mut r = refs_from(4, &vals);
    let mut avail = [false; 129];
    for i in [3usize, 4, 9] {
        avail[i] = true;
    }
    substitute(&mut r, &avail, 17, 8);
    // Entries before the first available one take its value; the others
    // repeat the last available value below them.
    assert_eq!(&r.buf[..17], &[103, 103, 103, 103, 104, 104, 104, 104, 104, 109, 109, 109, 109, 109, 109, 109, 109]);
}

#[test]
fn fully_available_references_are_left_alone() {
    let vals: Vec<u16> = (0..33).map(|i| 3 * i).collect();
    let mut r = refs_from(8, &vals);
    substitute(&mut r, &[true; 129], 33, 8);
    assert_eq!(&r.buf[..33], &vals[..]);
}

#[test]
fn luma_modes_are_parsed_derived_and_recorded() {
    let sps = Sps { width: 16, height: 16, sub_w: 2, sub_h: 2, bit_depth_y: 8, bit_depth_c: 8, log2_ctb: 4, log2_min_tb: 2, ..Default::default() };
    let pps = Pps { num_tile_cols: 1, num_tile_rows: 1, uniform_spacing: true, ..Default::default() };
    let geo = Geometry::new(&sps, &pps).expect("geometry");
    let mut pic = Picture::new(16, 16, 2, 2).expect("picture");
    let mut enc = Enc::new(26);
    // Coding unit at (0, 0): most probable mode 0.
    enc.decision(off::PREV_INTRA, 1);
    enc.bypass(0);
    // Coding unit at (8, 0): remaining mode code 3.
    enc.decision(off::PREV_INTRA, 0);
    for b in [0u32, 0, 0, 1, 1] {
        enc.bypass(b);
    }
    // Coding unit at (0, 8), split into four blocks.
    for b in [1u32, 1, 0, 1] {
        enc.decision(off::PREV_INTRA, b);
    }
    for b in [1u32, 0, 0, 0, 0, 0, 0, 0, 1, 1] {
        enc.bypass(b);
    }
    enc.terminate(1);
    let data = enc.finish();
    let mut cab = Cabac::new(&data, 0, 26).expect("engine");
    let slices = [0u32];
    let mut my = [0u8; 4];
    assert_eq!(luma_mode(&mut cab, &mut pic, &geo, &slices, &sps, false, 0, 0, 3, &mut my), Ok(()));
    // No neighbours: the list is planar, DC, vertical.
    assert_eq!(my[0], PLANAR);
    assert_eq!(luma_mode(&mut cab, &mut pic, &geo, &slices, &sps, false, 8, 0, 3, &mut my), Ok(()));
    // Left is planar, above is outside the CTB row: list 0, 1, 26; code 3 is mode 5.
    assert_eq!(my[0], 5);
    assert_eq!(luma_mode(&mut cab, &mut pic, &geo, &slices, &sps, true, 0, 8, 3, &mut my), Ok(()));
    assert_eq!(my, [0, 0, 2, 1]);
    assert_eq!(pic.intra_mode[0], 0);
    assert_eq!(pic.intra_mode[2], 5);
    assert_eq!(pic.intra_mode[3 * 4 + 0], 2);
    assert_eq!(pic.intra_mode[3 * 4 + 1], 1);
    assert_eq!(cab.terminate(), Ok(1));
}

#[test]
fn chroma_modes_are_parsed_per_block() {
    let mut enc = Enc::new(30);
    // 4:2:0, one block: flag then code 2 (horizontal).
    enc.decision(off::INTRA_CHROMA, 1);
    enc.bypass(1);
    enc.bypass(0);
    // 4:4:4 split: luma, code 1, code 3, luma.
    enc.decision(off::INTRA_CHROMA, 0);
    enc.decision(off::INTRA_CHROMA, 1);
    enc.bypass(0);
    enc.bypass(1);
    enc.decision(off::INTRA_CHROMA, 1);
    enc.bypass(1);
    enc.bypass(1);
    enc.decision(off::INTRA_CHROMA, 0);
    // 4:2:2: the luma mode through Table 8-3.
    enc.decision(off::INTRA_CHROMA, 0);
    enc.terminate(1);
    let data = enc.finish();
    let mut cab = Cabac::new(&data, 0, 30).expect("engine");
    let mut mc = [0u8; 4];
    assert_eq!(chroma_mode(&mut cab, 1, false, &[26, 0, 0, 0], &mut mc), Ok(()));
    assert_eq!(mc, [10, 10, 10, 10]);
    assert_eq!(chroma_mode(&mut cab, 3, true, &[0, 26, 10, 1], &mut mc), Ok(()));
    assert_eq!(mc, [0, 34, 1, 1]);
    let mut untouched = [7u8; 4];
    assert_eq!(chroma_mode(&mut cab, 0, false, &[0; 4], &mut untouched), Ok(()));
    assert_eq!(untouched, [7; 4]);
    assert_eq!(chroma_mode(&mut cab, 2, false, &[17, 0, 0, 0], &mut mc), Ok(()));
    assert_eq!(mc, [22, 22, 22, 22]);
    assert_eq!(cab.terminate(), Ok(1));
}

#[test]
fn without_chroma_no_bin_is_read() {
    let mut enc = Enc::new(26);
    enc.bypass(1);
    enc.bypass(0);
    enc.terminate(1);
    let data = enc.finish();
    let mut cab = Cabac::new(&data, 0, 26).expect("engine");
    let mut mode_c = [9u8; 4];
    assert_eq!(chroma_mode(&mut cab, 0, false, &[0; 4], &mut mode_c), Ok(()));
    assert_eq!(mode_c, [9; 4]);
    // The bins after the call are still the first ones written.
    assert_eq!(cab.bypass(), Ok(1));
    assert_eq!(cab.bypass(), Ok(0));
    assert_eq!(cab.terminate(), Ok(1));
}
