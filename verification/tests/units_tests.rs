//! Picking a picture's slices from its NAL units.

use heic_rs::hevc::decode::units::{check_covered, slice_pps_id, vcl_units};
use heic_rs::hevc::error::Error;
use heic_rs::hevc::nal::NalHeader;

#[test]
fn only_layer_zero_vcl_units_are_kept() {
    let vps: &[u8] = &[0x40, 0x01, 0x0c];
    let idr: &[u8] = &[0x26, 0x01, 0xaa, 0, 0, 3, 1];
    let layer1: &[u8] = &[0x26, 0x09, 0x55];
    let units = vcl_units(&[vps, idr, layer1]).expect("one slice");
    assert_eq!(units.len(), 1);
    assert_eq!(units[0].0, NalHeader { nal_unit_type: 19, layer_id: 0, temporal_id: 0 });
    assert_eq!(units[0].1.data, vec![0xaa, 0, 0, 1]);
    assert_eq!(units[0].1.epb, vec![5]);
}

#[test]
fn missing_slices_and_inter_pictures_are_refused() {
    assert_eq!(vcl_units(&[]).unwrap_err(), Error::NoSlices);
    let vps: &[u8] = &[0x40, 0x01];
    assert_eq!(vcl_units(&[vps]).unwrap_err(), Error::NoSlices);
    let trail: &[u8] = &[0x02, 0x01, 0x80];
    assert_eq!(
        vcl_units(&[vps, trail]).unwrap_err(),
        Error::Unsupported("non-IRAP picture (inter prediction)")
    );
    let bad: &[u8] = &[0x80, 0x01];
    assert_eq!(vcl_units(&[bad]).unwrap_err(), Error::InvalidData("forbidden_zero_bit set"));
}

#[test]
fn the_pps_id_follows_the_leading_flags() {
    let idr = NalHeader { nal_unit_type: 19, layer_id: 0, temporal_id: 0 };
    let trail = NalHeader { nal_unit_type: 1, layer_id: 0, temporal_id: 0 };
    assert_eq!(slice_pps_id(&idr, &[0xa0]), Ok(0));
    assert_eq!(slice_pps_id(&idr, &[0xd0]), Ok(1));
    assert_eq!(slice_pps_id(&trail, &[0xb0]), Ok(2));
    assert_eq!(slice_pps_id(&idr, &[]), Err(Error::Truncated));
}

#[test]
fn uncovered_ctbs_are_reported() {
    assert_eq!(check_covered(&[0, 0, 3]), Ok(()));
    assert_eq!(
        check_covered(&[0, u32::MAX, 3]),
        Err(Error::InvalidData("picture is not fully covered by slices"))
    );
}
