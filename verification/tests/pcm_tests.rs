//! Raw PCM samples between two runs of the arithmetic decoder.

use heic_rs::hevc::cabac::encoder::Enc;
use heic_rs::hevc::cabac::Cabac;
use heic_rs::hevc::decode::ctu::read_pcm;
use heic_rs::hevc::picture::Picture;
use heic_rs::hevc::ps::Sps;

/// A stream whose only bin is a terminating 1, followed by `raw` and two
/// zero bytes to restart the decoder on.
fn stream(raw: &[u8]) -> Vec<u8> {
    let mut enc = Enc::new(26);
    enc.terminate(1);
    let mut data = enc.finish();
    data.extend_from_slice(raw);
    data.extend_from_slice(&[0, 0, 0]);
    data
}

#[test]
fn pcm_luma_samples_fill_the_block() {
    let raw: Vec<u8> = (1..=16).collect();
    let data = stream(&raw);
    let mut cab = Cabac::new(&data, 0, 26).expect("engine");
    assert_eq!(cab.terminate(), Ok(1));
    let mut pic = Picture::new(8, 8, 0, 0).expect("picture");
    let sps = Sps { bit_depth_y: 8, pcm_bit_depth_y: 8, ..Default::default() };
    assert_eq!(read_pcm(&mut cab, &mut pic, &sps, 0, 4, 0, 4), Ok(()));
    for y in 0..8 {
        for x in 0..8 {
            let expect = if x >= 4 && y < 4 { (y * 4 + (x - 4) + 1) as u16 } else { 0 };
            assert_eq!(pic.y.at(x, y), expect, "({x}, {y})");
        }
    }
}

#[test]
fn pcm_chroma_follows_luma_and_is_shifted_to_the_bit_depth() {
    let mut raw: Vec<u8> = vec![10; 16];
    raw.extend_from_slice(&[1, 2, 3, 4]);
    raw.extend_from_slice(&[5, 6, 7, 8]);
    let data = stream(&raw);
    let mut cab = Cabac::new(&data, 0, 26).expect("engine");
    assert_eq!(cab.terminate(), Ok(1));
    let mut pic = Picture::new(4, 4, 2, 2).expect("picture");
    let sps = Sps {
        sub_w: 2,
        sub_h: 2,
        bit_depth_y: 10,
        bit_depth_c: 10,
        pcm_bit_depth_y: 8,
        pcm_bit_depth_c: 8,
        ..Default::default()
    };
    assert_eq!(read_pcm(&mut cab, &mut pic, &sps, 1, 0, 0, 4), Ok(()));
    assert!(pic.y.data.iter().all(|&v| v == 40));
    assert_eq!(pic.cb.data, vec![4, 8, 12, 16]);
    assert_eq!(pic.cr.data, vec![20, 24, 28, 32]);
}
