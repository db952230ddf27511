//! `cu_qp_delta_abs` with its sign, and the chroma QP offset syntax.

use heic_rs::hevc::cabac::encoder::Enc;
use heic_rs::hevc::cabac::{Cabac, off};
use heic_rs::hevc::decode::tu::{read_chroma_qp_offset, read_qp_delta};
use heic_rs::hevc::ps::Pps;

fn finish(mut enc: Enc) -> Vec<u8> {
    enc.terminate(1);
    enc.finish()
}

#[test]
fn qp_deltas_from_prefix_suffix_and_sign() {
    let mut enc = Enc::new(26);
    // Zero: one clear prefix bin, no sign.
    enc.decision(off::CU_QP_DELTA, 0);
    // Three, negative.
    enc.decision(off::CU_QP_DELTA, 1);
    enc.decision(off::CU_QP_DELTA + 1, 1);
    enc.decision(off::CU_QP_DELTA + 1, 1);
    enc.decision(off::CU_QP_DELTA + 1, 0);
    enc.bypass(1);
    // Five prefix ones, Exp-Golomb 1 1 0 then 1 0: 5 + 3 + 2 = 10, positive.
    enc.decision(off::CU_QP_DELTA, 1);
    for _ in 0..4 {
        enc.decision(off::CU_QP_DELTA + 1, 1);
    }
    for b in [1u32, 1, 0, 1, 0, 0] {
        enc.bypass(b);
    }
    let data = finish(enc);
    let mut cab = Cabac::new(&data, 0, 26).expect("engine");
    assert_eq!(read_qp_delta(&mut cab), Ok(0));
    assert_eq!(read_qp_delta(&mut cab), Ok(-3));
    assert_eq!(read_qp_delta(&mut cab), Ok(10));
    assert_eq!(cab.terminate(), Ok(1));
}

#[test]
fn chroma_qp_offsets_come_from_the_lists() {
    let mut enc = Enc::new(26);
    enc.decision(off::CHROMA_QP_FLAG, 0);
    enc.decision(off::CHROMA_QP_FLAG, 1);
    enc.decision(off::CHROMA_QP_IDX, 1);
    enc.decision(off::CHROMA_QP_IDX, 0);
    // The index stops at the last entry without a closing bin.
    enc.decision(off::CHROMA_QP_FLAG, 1);
    enc.decision(off::CHROMA_QP_IDX, 1);
    enc.decision(off::CHROMA_QP_IDX, 1);
    let data = finish(enc);
    let mut cab = Cabac::new(&data, 0, 26).expect("engine");
    let pps = Pps { cb_qp_offset_list: vec![1, -2, 3], cr_qp_offset_list: vec![4, 5, -6], ..Default::default() };
    let (mut coded, mut cb, mut cr) = (false, 9, 9);
    assert_eq!(read_chroma_qp_offset(&mut cab, &pps, &mut coded, &mut cb, &mut cr), Ok(()));
    assert!(coded);
    assert_eq!((cb, cr), (0, 0));
    assert_eq!(read_chroma_qp_offset(&mut cab, &pps, &mut coded, &mut cb, &mut cr), Ok(()));
    assert_eq!((cb, cr), (-2, 5));
    assert_eq!(read_chroma_qp_offset(&mut cab, &pps, &mut coded, &mut cb, &mut cr), Ok(()));
    assert_eq!((cb, cr), (3, -6));
    assert_eq!(cab.terminate(), Ok(1));
}
