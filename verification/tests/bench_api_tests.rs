//! The benchmark hooks.

use heic_rs::hevc::bench_api::{BENCH_SEED, SPLIT_CU_CTX, decode_bins, encode_bins, filter_and_predict, ramp_refs};
use heic_rs::hevc::intra::{filter_refs, predict};

#[test]
fn ramp_references_follow_the_formula() {
    let r = ramp_refs(8);
    assert_eq!(r.n, 8);
    for i in 0..33 {
        assert_eq!(r.buf[i] as usize, (i * 7 + 13) & 0xff);
    }
    assert!(r.buf[33..].iter().all(|&v| v == 0));
    let big = ramp_refs(32);
    assert_eq!(big.buf[128], ((128 * 7 + 13) & 0xff) as u16);
}

#[test]
fn filter_and_predict_is_filtering_then_prediction() {
    for n in [4usize, 8, 16, 32] {
        let r = ramp_refs(n);
        for mode in 0u8..=34 {
            let mut a = vec![0u16; n * n];
            filter_and_predict(&r, mode, 8, &mut a, n);
            let f = filter_refs(&r, mode, 0, 8, 1, true, false);
            let mut b = vec![0u16; n * n];
            predict(&f, mode, 0, 8, &mut b, n);
            assert_eq!(a, b, "n={n} mode={mode}");
        }
    }
}

#[test]
fn the_split_flag_context_has_an_index() {
    assert_eq!(SPLIT_CU_CTX, 2);
}

#[test]
fn encoded_bench_bins_decode_to_their_sum() {
    for n in [0usize, 1, 100, 5000] {
        for qp in [0, 26, 51] {
            let data = encode_bins(n, qp);
            let mut s = BENCH_SEED;
            let mut want = 0u32;
            for _ in 0..n {
                s ^= s << 13;
                s ^= s >> 17;
                s ^= s << 5;
                want += (s >> 4) & 1;
            }
            assert_eq!(decode_bins(&data, n, qp), Ok(want), "n={n} qp={qp}");
            assert!(data.len() * 8 < 16 * (n + 1) + 8);
        }
    }
}

#[test]
fn decoding_more_bins_than_were_coded_runs_out_of_stream() {
    let data = encode_bins(8, 26);
    assert!(decode_bins(&data, 100_000, 26).is_err());
}
