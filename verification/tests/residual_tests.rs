//! The `residual_coding()` syntax of whole transform blocks.

use heic_rs::hevc::cabac::encoder::Enc;
use heic_rs::hevc::cabac::{Cabac, off};
use heic_rs::hevc::decode::residual::residual_coding;
use heic_rs::hevc::error::Error;
use heic_rs::hevc::ps::{Pps, Sps};

fn finish(mut enc: Enc) -> Vec<u8> {
    enc.terminate(1);
    enc.finish()
}

#[test]
fn a_diagonal_4x4_block_is_parsed_into_place() {
    let mut enc = Enc::new(30);
    // Last position (1, 1): both prefixes 1.
    enc.decision(off::LAST_X, 1);
    enc.decision(off::LAST_X + 1, 0);
    enc.decision(off::LAST_Y, 1);
    enc.decision(off::LAST_Y + 1, 0);
    // Scan positions 3..0 are (0, 2), (1, 0), (0, 1), (0, 0); the second
    // and the last are significant.
    enc.decision(off::SIG + 6, 0);
    enc.decision(off::SIG + 1, 1);
    enc.decision(off::SIG + 2, 0);
    enc.decision(off::SIG, 1);
    // No greater1 flag set, so no greater2 flag.
    enc.decision(off::GT1 + 1, 0);
    enc.decision(off::GT1 + 2, 0);
    enc.decision(off::GT1 + 3, 0);
    // Signs: the last position negative.
    for b in [1u32, 0, 0] {
        enc.bypass(b);
    }
    let data = finish(enc);
    let mut cab = Cabac::new(&data, 0, 30).expect("engine");
    let sps = Sps::default();
    let pps = Pps::default();
    let mut coeffs = [9i32; 1024];
    let mut csbf = [7u8; 64];
    let mut stat = [0i32; 4];
    let r = residual_coding(&mut cab, &sps, &pps, 1, false, &mut coeffs, &mut csbf, &mut stat, 2, 0, 0);
    assert_eq!(r, Ok(false));
    let mut expect = [0i32; 16];
    expect[0] = 1;
    expect[1] = 1;
    expect[5] = -1;
    assert_eq!(coeffs[..16], expect);
    assert_eq!(coeffs[16], 9);
    assert_eq!(csbf[0], 1);
    assert_eq!(csbf[1], 7);
    assert_eq!(cab.terminate(), Ok(1));
}

#[test]
fn a_vertical_scan_swaps_the_last_position_and_transform_skip_is_read() {
    let mut enc = Enc::new(30);
    enc.decision(off::TS_LUMA, 1);
    // Read as column 0, row 2; the vertical scan takes it as column 2, row 0.
    enc.decision(off::LAST_X, 0);
    enc.decision(off::LAST_Y, 1);
    enc.decision(off::LAST_Y + 1, 1);
    enc.decision(off::LAST_Y + 2, 0);
    // Vertical scan positions 7..0 are (1, 3), (1, 2), (1, 1), (1, 0),
    // (0, 3), (0, 2), (0, 1), (0, 0); none significant.
    for ctx in [7usize, 6, 3, 1, 7, 6, 2, 0] {
        enc.decision(off::SIG + ctx, 0);
    }
    // One greater1 flag set and its greater2 flag clear: level 2.
    enc.decision(off::GT1 + 1, 1);
    enc.decision(off::GT2, 0);
    enc.bypass(0);
    let data = finish(enc);
    let mut cab = Cabac::new(&data, 0, 30).expect("engine");
    let sps = Sps::default();
    let pps = Pps { transform_skip: true, log2_max_transform_skip: 2, ..Default::default() };
    let mut coeffs = [0i32; 1024];
    let mut csbf = [0u8; 64];
    let mut stat = [0i32; 4];
    let r = residual_coding(&mut cab, &sps, &pps, 1, false, &mut coeffs, &mut csbf, &mut stat, 2, 0, 10);
    assert_eq!(r, Ok(true));
    let mut expect = [0i32; 16];
    expect[2] = 2;
    assert_eq!(coeffs[..16], expect);
    assert_eq!(cab.terminate(), Ok(1));
}

#[test]
fn a_persistent_rice_parameter_above_thirty_one_is_unsupported() {
    let mut enc = Enc::new(30);
    // Last position (0, 0).
    enc.decision(off::LAST_X, 0);
    enc.decision(off::LAST_Y, 0);
    enc.decision(off::GT1 + 1, 0);
    enc.bypass(0);
    let data = finish(enc);
    let mut cab = Cabac::new(&data, 0, 30).expect("engine");
    let sps = Sps { persistent_rice: true, ..Default::default() };
    let pps = Pps::default();
    let mut coeffs = [0i32; 1024];
    let mut csbf = [0u8; 64];
    let mut stat = [128i32, 0, 0, 0];
    let r = residual_coding(&mut cab, &sps, &pps, 1, false, &mut coeffs, &mut csbf, &mut stat, 2, 0, 0);
    assert_eq!(r, Err(Error::Unsupported("persistent Rice parameter above 31")));
}
