//! The byte reader, the box walker and the `ftyp` brand choice.

use heic_rs::boxes::{BoxIter, MAX_BOX_SIZE};
use heic_rs::error::Error;
use heic_rs::ftyp::{self, Brand};
use heic_rs::reader::Reader;

/// A box of type `t` around `payload`, with a 32-bit size field.
fn bx(t: &[u8; 4], payload: &[u8]) -> Vec<u8> {
    let mut v = ((8 + payload.len()) as u32).to_be_bytes().to_vec();
    v.extend_from_slice(t);
    v.extend_from_slice(payload);
    v
}

#[test]
fn reader_reads_big_endian_fields_in_order() {
    let data = [0x01u8, 0x02, 0x03, 0x04, 0x05, 0x06, 0x07, b'f', b't', b'y', b'p', 0xaa];
    let mut r = Reader::new(&data);
    assert_eq!(r.u8("a"), Ok(0x01));
    assert_eq!(r.u16("b"), Ok(0x0203));
    assert_eq!(r.u32("c"), Ok(0x0405_0607));
    assert_eq!(r.fourcc("d"), Ok(*b"ftyp"));
    assert_eq!(r.position(), 11);
    assert_eq!(r.remaining(), 1);
    assert_eq!(r.u16("e"), Err(Error::Truncated("e")));
    assert_eq!(r.take(1, "f"), Ok(&[0xaau8][..]));
    assert_eq!(r.remaining(), 0);
}

#[test]
fn reader_reads_sixty_four_bit_fields_and_full_box_headers() {
    let data = [0u8, 0, 0, 1, 0, 0, 0, 2, 3, 0x12, 0x34, 0x56];
    let mut r = Reader::new(&data);
    assert_eq!(r.u64("size"), Ok(0x0000_0001_0000_0002));
    assert_eq!(r.full_box("fb"), Ok((3, 0x12_3456)));
    assert_eq!(r.u8("past"), Err(Error::Truncated("past")));
}

#[test]
fn box_walker_visits_each_box_once() {
    let mut data = bx(b"ftyp", b"heic\0\0\0\0mif1");
    data.extend(bx(b"meta", &[1, 2, 3]));
    data.extend(bx(b"mdat", &[]));
    let mut it = BoxIter::new(&data);
    let a = it.next_item().expect("first").expect("ok");
    assert!(a.is(b"ftyp"));
    assert_eq!(a.offset, 0);
    assert_eq!(a.payload.len(), 12);
    let b = it.next_item().expect("second").expect("ok");
    assert!(b.is(b"meta"));
    assert_eq!(b.payload, &[1, 2, 3]);
    assert_eq!(b.offset, 20);
    let c = it.next_item().expect("third").expect("ok");
    assert!(c.is(b"mdat") && c.payload.is_empty());
    assert!(it.next_item().is_none());
}

#[test]
fn size_zero_runs_to_the_end_and_size_one_reads_a_large_size() {
    let mut data = vec![0u8, 0, 0, 0];
    data.extend_from_slice(b"mdat");
    data.extend_from_slice(&[9, 9, 9]);
    let b = BoxIter::new(&data).require(b"mdat", "mdat").expect("mdat");
    assert_eq!(b.payload, &[9, 9, 9]);

    let mut data = vec![0u8, 0, 0, 1];
    data.extend_from_slice(b"free");
    data.extend_from_slice(&18u64.to_be_bytes());
    data.extend_from_slice(&[7, 7]);
    let b = BoxIter::new(&data).require(b"free", "free").expect("free");
    assert_eq!(b.payload, &[7, 7]);
}

#[test]
fn malformed_and_oversized_boxes_are_reported() {
    // A declared size smaller than the header.
    let mut data = 4u32.to_be_bytes().to_vec();
    data.extend_from_slice(b"free");
    assert!(matches!(BoxIter::new(&data).next_item(), Some(Err(Error::Malformed(_)))));
    // A body running past the end of the data.
    let mut data = 20u32.to_be_bytes().to_vec();
    data.extend_from_slice(b"free");
    assert!(matches!(BoxIter::new(&data).next_item(), Some(Err(Error::Truncated(_)))));
    // A size above the ceiling.
    let mut data = vec![0u8, 0, 0, 1];
    data.extend_from_slice(b"mdat");
    data.extend_from_slice(&(MAX_BOX_SIZE + 1).to_be_bytes());
    assert_eq!(
        BoxIter::new(&data).next_item().map(|r| r.map(|b| b.offset)),
        Some(Err(Error::BoxTooLarge { boxtype: *b"mdat", size: MAX_BOX_SIZE + 1 }))
    );
}

#[test]
fn uuid_boxes_carry_their_extended_type() {
    let mut payload = [0x11u8; 16].to_vec();
    payload.extend_from_slice(&[5, 6]);
    let data = bx(b"uuid", &payload);
    let b = BoxIter::new(&data).require(b"uuid", "uuid").expect("uuid");
    assert_eq!(b.uuid, Some([0x11; 16]));
    assert_eq!(b.payload, &[5, 6]);
    // Too short to hold the extended type.
    let data = bx(b"uuid", &[1, 2, 3]);
    assert!(BoxIter::new(&data).next_item().expect("item").is_err());
}

#[test]
fn find_and_require_report_a_missing_box() {
    let data = bx(b"free", &[]);
    assert_eq!(BoxIter::new(&data).find(b"meta").map(|b| b.is_some()), Ok(false));
    assert_eq!(
        BoxIter::new(&data).require(b"meta", "meta").map(|b| b.offset),
        Err(Error::MissingBox("meta"))
    );
}

#[test]
fn nested_boxes_are_reached_through_children_and_full_box() {
    let inner = bx(b"hdlr", &[0, 0, 0, 1, b'p', b'i', b'c', b't']);
    let outer = bx(b"meta", &[&[0u8, 0, 0, 0][..], &inner[..]].concat());
    let meta = BoxIter::new(&outer).require(b"meta", "meta").expect("meta");
    let (version, flags, mut r) = meta.full_box("meta").expect("full box");
    assert_eq!((version, flags), (0, 0));
    let rest = r.take(r.remaining(), "children").expect("children");
    let hdlr = BoxIter::new(rest).require(b"hdlr", "hdlr").expect("hdlr");
    let (v, f, mut hr) = hdlr.full_box("hdlr").expect("hdlr header");
    assert_eq!((v, f), (0, 1));
    assert_eq!(hr.fourcc("handler"), Ok(*b"pict"));
    assert!(meta.children().next_item().is_some());
}

#[test]
fn brands_round_trip_through_their_codes() {
    for b in [Brand::Heic, Brand::Heix, Brand::Heim, Brand::Heis, Brand::Hevc, Brand::Mif1, Brand::Msf1, Brand::Avif] {
        assert_eq!(Brand::from_fourcc(&b.fourcc()), Some(b));
    }
    assert_eq!(Brand::from_fourcc(b"avis"), Some(Brand::Avif));
    assert_eq!(Brand::from_fourcc(b"jpeg"), None);
    assert!(Brand::Heic.is_decodable());
    assert!(!Brand::Avif.is_decodable());
}

#[test]
fn ftyp_picks_the_major_brand_and_counts_compatible_ones() {
    let data = bx(b"ftyp", b"heic\0\0\0\x05mif1heicjunk");
    let ft = ftyp::parse(&data).expect("ftyp");
    assert_eq!(ft.major, Brand::Heic);
    assert_eq!(ft.effective, Brand::Heic);
    assert_eq!(ft.minor_version, 5);
    assert_eq!(ft.compatible_count, 3);
}

#[test]
fn an_unknown_major_brand_falls_back_to_the_first_known_compatible_one() {
    let data = bx(b"ftyp", b"XXXX\0\0\0\0junkmif1heic");
    let ft = ftyp::parse(&data).expect("ftyp");
    assert_eq!(ft.major, Brand::Mif1);
    assert_eq!(ft.effective, Brand::Mif1);
    let data = bx(b"ftyp", b"XXXX\0\0\0\0junk");
    assert!(matches!(ftyp::parse(&data).map(|f| f.major), Err(Error::Unsupported(_))));
}

#[test]
fn avif_files_are_recognised_and_refused() {
    let data = bx(b"ftyp", b"mif1\0\0\0\0avif");
    assert!(matches!(ftyp::parse(&data).map(|f| f.major), Err(Error::Unsupported(_))));
    let data = bx(b"free", &[]);
    assert_eq!(ftyp::parse(&data).map(|f| f.major), Err(Error::MissingBox("ftyp")));
}

#[test]
fn box_errors_name_the_field_the_data_ends_in() {
    assert_eq!(BoxIter::new(&[0, 0, 0]).next_item().map(|r| r.map(|b| b.offset)), Some(Err(Error::Truncated("box size"))));
    assert_eq!(BoxIter::new(&[0, 0, 0, 9, b'f']).next_item().map(|r| r.map(|b| b.offset)), Some(Err(Error::Truncated("box type"))));
    let mut data = vec![0u8, 0, 0, 1];
    data.extend_from_slice(b"free");
    data.extend_from_slice(&[0, 0]);
    assert_eq!(BoxIter::new(&data).next_item().map(|r| r.map(|b| b.offset)), Some(Err(Error::Truncated("box largesize"))));
    let mut data = 30u32.to_be_bytes().to_vec();
    data.extend_from_slice(b"uuid");
    data.extend_from_slice(&[0; 4]);
    assert_eq!(BoxIter::new(&data).next_item().map(|r| r.map(|b| b.offset)), Some(Err(Error::Truncated("uuid"))));
    let mut data = 20u32.to_be_bytes().to_vec();
    data.extend_from_slice(b"free");
    assert_eq!(BoxIter::new(&data).next_item().map(|r| r.map(|b| b.offset)), Some(Err(Error::Truncated("box body"))));
}
