//! Scan orders, coefficient remainders and the level syntax of a residual
//! sub-block.

use heic_rs::hevc::cabac::encoder::Enc;
use heic_rs::hevc::cabac::{Cabac, off};
use heic_rs::hevc::decode::residual_ctx::read_remaining;
use heic_rs::hevc::decode::residual_levels::{decode_levels, update_stat};
use heic_rs::hevc::error::Error;
use heic_rs::hevc::scan::{scan_order, sub_scan};

#[test]
fn diagonal_scan_of_a_4x4_block() {
    let expect: [[u8; 2]; 16] = [
        [0, 0], [0, 1], [1, 0], [0, 2], [1, 1], [2, 0], [0, 3], [1, 2],
        [2, 1], [3, 0], [1, 3], [2, 2], [3, 1], [2, 3], [3, 2], [3, 3],
    ];
    assert_eq!(sub_scan(0), expect);
}

#[test]
fn horizontal_and_vertical_scans() {
    let h = sub_scan(1);
    let v = sub_scan(2);
    for i in 0..16u8 {
        assert_eq!(h[i as usize], [i % 4, i / 4]);
        assert_eq!(v[i as usize], [i / 4, i % 4]);
    }
}

#[test]
fn larger_diagonal_scans_cover_the_block_once() {
    for log2 in 0..4usize {
        let n = 1usize << log2;
        let s = scan_order(log2, 0);
        assert_eq!(s.len(), n * n);
        let mut seen = vec![false; n * n];
        for (i, p) in s.iter().enumerate() {
            let (x, y) = (p[0] as usize, p[1] as usize);
            assert!(x < n && y < n && !seen[y * n + x]);
            seen[y * n + x] = true;
            if i > 0 {
                let q = s[i - 1];
                let (px, py) = (q[0] as usize, q[1] as usize);
                assert!(px + py < x + y || (px + py == x + y && px < x));
            }
        }
    }
    assert_eq!(scan_order(1, 0), vec![[0, 0], [0, 1], [1, 0], [1, 1]]);
    assert_eq!(scan_order(3, 0)[..4], [[0, 0], [0, 1], [1, 0], [0, 2]]);
    assert_eq!(scan_order(3, 0)[63], [7, 7]);
}

fn engine(enc: Enc) -> Vec<u8> {
    let mut enc = enc;
    enc.terminate(1);
    enc.finish()
}

#[test]
fn remainders_use_a_rice_code_then_an_escape() {
    let mut enc = Enc::new(26);
    // Prefix 2 with rice 1: 1 1 0 and one suffix bin 1 -> 2 * 2 + 1 = 5.
    for b in [1u32, 1, 0, 1] {
        enc.bypass(b);
    }
    // Prefix 4 with rice 0: 1 1 1 1 0 and one suffix bin 0 -> (2 + 2) = 4.
    for b in [1u32, 1, 1, 1, 0, 0] {
        enc.bypass(b);
    }
    // Prefix 0 with rice 2: 0 and suffix 1 1 -> 3.
    for b in [0u32, 1, 1] {
        enc.bypass(b);
    }
    let data = engine(enc);
    let mut cab = Cabac::new(&data, 0, 26).expect("engine");
    assert_eq!(read_remaining(&mut cab, 1), Ok(5));
    assert_eq!(read_remaining(&mut cab, 0), Ok(4));
    assert_eq!(read_remaining(&mut cab, 2), Ok(3));
    assert_eq!(cab.terminate(), Ok(1));
}

#[test]
fn a_prefix_of_25_ones_is_invalid() {
    let mut enc = Enc::new(26);
    for _ in 0..25 {
        enc.bypass(1);
    }
    let data = engine(enc);
    let mut cab = Cabac::new(&data, 0, 26).expect("engine");
    assert!(matches!(read_remaining(&mut cab, 0), Err(Error::InvalidData(_))));
}

#[test]
fn rice_statistics_move_by_one() {
    let mut s = [4i32, 0, 8, 0];
    update_stat(&mut s, 0, 6);
    assert_eq!(s, [5, 0, 8, 0]);
    update_stat(&mut s, 2, 1);
    assert_eq!(s, [5, 0, 7, 0]);
    update_stat(&mut s, 1, 0);
    assert_eq!(s, [5, 0, 7, 0]);
    update_stat(&mut s, 0, 3);
    assert_eq!(s, [5, 0, 7, 0]);
}

/// Greater1 flags 0 1 0 0 (contexts from greater1Ctx 1), greater2 flag 1.
fn flags(enc: &mut Enc) {
    let base = off::GT1;
    enc.decision(base + 1, 0);
    enc.decision(base + 2, 1);
    enc.decision(base, 0);
    enc.decision(base, 0);
    enc.decision(off::GT2, 1);
}

#[test]
fn levels_signs_and_remainders_fill_the_block() {
    let mut enc = Enc::new(26);
    flags(&mut enc);
    for b in [0u32, 1, 0, 1] {
        enc.bypass(b);
    }
    // The second position reaches its threshold: remainder 2 (prefix 1 1 0).
    for b in [1u32, 1, 0] {
        enc.bypass(b);
    }
    let data = engine(enc);
    let mut cab = Cabac::new(&data, 0, 26).expect("engine");
    let mut coeffs = [0i32; 1024];
    let mut stat = [0i32; 4];
    let mut c1 = 1;
    let sig = [15u8, 9, 3, 0];
    let r = decode_levels(&mut cab, &mut coeffs, &mut stat, false, false, false, &sig, 0, 0, &mut c1, 0, 2, 0, 0, 0);
    assert_eq!(r, Ok(()));
    // Diagonal positions 15, 9, 3 and 0 are (3, 3), (3, 0), (0, 2), (0, 0).
    let mut expect = [0i32; 16];
    expect[15] = 1;
    expect[3] = -5;
    expect[8] = 1;
    expect[0] = -1;
    assert_eq!(coeffs[..16], expect);
    assert!(coeffs[16..].iter().all(|&c| c == 0));
    assert_eq!(c1, 0);
    assert_eq!(stat, [0; 4]);
    assert_eq!(cab.terminate(), Ok(1));
}

#[test]
fn a_hidden_sign_follows_the_parity_of_the_levels() {
    let mut enc = Enc::new(26);
    flags(&mut enc);
    // Three signs read; the fourth is hidden.
    for b in [0u32, 1, 0] {
        enc.bypass(b);
    }
    // Remainder 3 (prefix 1 1 1 0): the levels sum to 1 + 6 + 1 + 1 = 9.
    for b in [1u32, 1, 1, 0] {
        enc.bypass(b);
    }
    let data = engine(enc);
    let mut cab = Cabac::new(&data, 0, 26).expect("engine");
    let mut coeffs = [0i32; 1024];
    let mut stat = [0i32; 4];
    let mut c1 = 1;
    let sig = [15u8, 9, 3, 0];
    let r = decode_levels(&mut cab, &mut coeffs, &mut stat, false, true, false, &sig, 0, 0, &mut c1, 0, 2, 0, 0, 0);
    assert_eq!(r, Ok(()));
    assert_eq!((coeffs[15], coeffs[3], coeffs[8], coeffs[0]), (1, -6, 1, -1));
    assert_eq!(cab.terminate(), Ok(1));
}

#[test]
fn persistent_rice_starts_from_the_statistic_and_updates_it() {
    let mut enc = Enc::new(26);
    flags(&mut enc);
    for b in [0u32, 1, 0, 1] {
        enc.bypass(b);
    }
    // Rice 1 from StatCoeff 4: remainder 7 is prefix 1 1 1 0, suffix 1.
    for b in [1u32, 1, 1, 0, 1] {
        enc.bypass(b);
    }
    let data = engine(enc);
    let mut cab = Cabac::new(&data, 0, 26).expect("engine");
    let mut coeffs = [0i32; 1024];
    let mut stat = [4i32, 0, 0, 0];
    let mut c1 = 1;
    let sig = [15u8, 9, 3, 0];
    let r = decode_levels(&mut cab, &mut coeffs, &mut stat, false, false, true, &sig, 0, 0, &mut c1, 0, 2, 0, 0, 0);
    assert_eq!(r, Ok(()));
    assert_eq!(coeffs[3], -10);
    assert_eq!(stat, [5, 0, 0, 0]);
    assert_eq!(cab.terminate(), Ok(1));
}

#[test]
fn an_empty_sub_block_resets_the_greater1_context() {
    let data = engine(Enc::new(26));
    let mut cab = Cabac::new(&data, 0, 26).expect("engine");
    let mut coeffs = [7i32; 1024];
    let mut stat = [0i32; 4];
    let mut c1 = 0;
    let r = decode_levels(&mut cab, &mut coeffs, &mut stat, false, false, false, &[], 1, 0, &mut c1, 0, 3, 1, 1, 1);
    assert_eq!(r, Ok(()));
    assert_eq!(c1, 1);
    assert!(coeffs.iter().all(|&c| c == 7));
    assert_eq!(cab.terminate(), Ok(1));
}

#[test]
fn a_wide_persistent_rice_parameter_is_decoded() {
    let mut enc = Enc::new(26);
    flags(&mut enc);
    for b in [0u32, 1, 0, 1] {
        enc.bypass(b);
    }
    // Rice 5 from StatCoeff 20: remainder 7 is prefix 0, suffix 0 0 1 1 1.
    for b in [0u32, 0, 0, 1, 1, 1] {
        enc.bypass(b);
    }
    let data = engine(enc);
    let mut cab = Cabac::new(&data, 0, 26).expect("engine");
    let mut coeffs = [0i32; 1024];
    let mut stat = [20i32, 0, 0, 0];
    let mut c1 = 1;
    let sig = [15u8, 9, 3, 0];
    let r = decode_levels(&mut cab, &mut coeffs, &mut stat, false, false, true, &sig, 0, 0, &mut c1, 0, 2, 0, 0, 0);
    assert_eq!(r, Ok(()));
    assert_eq!(coeffs[3], -10);
    // Twice 7 is below 1 << 5: the statistic falls by one.
    assert_eq!(stat, [19, 0, 0, 0]);
    assert_eq!(cab.terminate(), Ok(1));
}

#[test]
fn wide_rice_remainders_are_read_while_they_fit() {
    let mut enc = Enc::new(26);
    // Rice 31, prefix 0: 0 then 31 ones -> 2^31 - 1.
    enc.bypass(0);
    for _ in 0..31 {
        enc.bypass(1);
    }
    // Rice 12, prefix 3: 1 1 1 0, then 12 suffix bins 0 .. 0 1 -> 1 + 3 << 12.
    for b in [1u32, 1, 1, 0] {
        enc.bypass(b);
    }
    for k in 0..12 {
        enc.bypass(if k == 11 { 1 } else { 0 });
    }
    let data = engine(enc);
    let mut cab = Cabac::new(&data, 0, 26).expect("engine");
    assert_eq!(read_remaining(&mut cab, 31), Ok(0x7fff_ffff));
    assert_eq!(read_remaining(&mut cab, 12), Ok(1 + (3 << 12)));
    assert_eq!(cab.terminate(), Ok(1));
}

#[test]
fn remainders_beyond_32_bits_are_unsupported() {
    let mut enc = Enc::new(26);
    // Rice 31, prefix 2: 2 << 31 does not fit.
    for b in [1u32, 1, 0] {
        enc.bypass(b);
    }
    for _ in 0..31 {
        enc.bypass(0);
    }
    let data = engine(enc);
    let mut cab = Cabac::new(&data, 0, 26).expect("engine");
    assert_eq!(
        read_remaining(&mut cab, 31),
        Err(Error::Unsupported("coeff_abs_level_remaining above 32 bits"))
    );
    // Rice 31, prefix 5: 33 suffix bins are more than 32.
    let mut enc = Enc::new(26);
    for b in [1u32, 1, 1, 1, 1, 0] {
        enc.bypass(b);
    }
    let data = engine(enc);
    let mut cab = Cabac::new(&data, 0, 26).expect("engine");
    assert_eq!(
        read_remaining(&mut cab, 31),
        Err(Error::Unsupported("coeff_abs_level_remaining above 32 bits"))
    );
}
