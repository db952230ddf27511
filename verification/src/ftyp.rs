//! The `ftyp` box and the brands this crate recognises.

use vstd::prelude::*;

use crate::boxes::{BoxIter, find_from, box_total, header_len};
use crate::error::{Error, Result};
use crate::reader::be_value;

verus! {

/// A file's declared family.
#[derive(Debug, Clone, Copy, PartialEq, Eq, Structural)]
#[non_exhaustive]
pub enum Brand {
    /// `heic`: HEVC-coded still image, the ordinary iPhone photograph.
    Heic,
    /// `heix`: HEVC still image with extended profiles (10-bit and up).
    Heix,
    /// `heim`: HEVC multiview still image.
    Heim,
    /// `heis`: HEVC scalable still image.
    Heis,
    /// `hevc`: HEVC image sequence.
    Hevc,
    /// `mif1`: the generic HEIF image file brand.
    Mif1,
    /// `msf1`: the generic HEIF image sequence brand.
    Msf1,
    /// `avif`: AV1 in the HEIF container. Recognised, not decoded.
    Avif,
}

/// `heic`.
pub const HEIC: [u8; 4] = [0x68, 0x65, 0x69, 0x63];
/// `heix`.
pub const HEIX: [u8; 4] = [0x68, 0x65, 0x69, 0x78];
/// `heim`.
pub const HEIM: [u8; 4] = [0x68, 0x65, 0x69, 0x6d];
/// `heis`.
pub const HEIS: [u8; 4] = [0x68, 0x65, 0x69, 0x73];
/// `hevc`.
pub const HEVC: [u8; 4] = [0x68, 0x65, 0x76, 0x63];
/// `mif1`.
pub const MIF1: [u8; 4] = [0x6d, 0x69, 0x66, 0x31];
/// `msf1`.
pub const MSF1: [u8; 4] = [0x6d, 0x73, 0x66, 0x31];
/// `avif`.
pub const AVIF: [u8; 4] = [0x61, 0x76, 0x69, 0x66];
/// `avis`, the AVIF image sequence brand.
pub const AVIS: [u8; 4] = [0x61, 0x76, 0x69, 0x73];
/// `ftyp`.
pub const FTYP: [u8; 4] = [0x66, 0x74, 0x79, 0x70];

/// The brand a four-character code names, if any.
pub open spec fn brand_of(code: Seq<u8>) -> Option<Brand> {
    if code == HEIC@ {
        Some(Brand::Heic)
    } else if code == HEIX@ {
        Some(Brand::Heix)
    } else if code == HEIM@ {
        Some(Brand::Heim)
    } else if code == HEIS@ {
        Some(Brand::Heis)
    } else if code == HEVC@ {
        Some(Brand::Hevc)
    } else if code == MIF1@ {
        Some(Brand::Mif1)
    } else if code == MSF1@ {
        Some(Brand::Msf1)
    } else if code == AVIF@ || code == AVIS@ {
        Some(Brand::Avif)
    } else {
        None
    }
}

/// The four ASCII characters `a b c d` as bytes.
pub open spec fn ascii4(a: char, b: char, c: char, d: char) -> Seq<u8> {
    seq![a as u8, b as u8, c as u8, d as u8]
}

/// Each brand is named by exactly its own four ASCII characters: `heic`,
/// `heix`, `heim`, `heis`, `hevc`, `mif1`, `msf1`, and `avif` or `avis` for
/// AVIF; every other code names no brand.
pub proof fn lemma_brand_codes(code: Seq<u8>)
    ensures
        brand_of(code) == Some(Brand::Heic) <==> code == ascii4('h', 'e', 'i', 'c'),
        brand_of(code) == Some(Brand::Heix) <==> code == ascii4('h', 'e', 'i', 'x'),
        brand_of(code) == Some(Brand::Heim) <==> code == ascii4('h', 'e', 'i', 'm'),
        brand_of(code) == Some(Brand::Heis) <==> code == ascii4('h', 'e', 'i', 's'),
        brand_of(code) == Some(Brand::Hevc) <==> code == ascii4('h', 'e', 'v', 'c'),
        brand_of(code) == Some(Brand::Mif1) <==> code == ascii4('m', 'i', 'f', '1'),
        brand_of(code) == Some(Brand::Msf1) <==> code == ascii4('m', 's', 'f', '1'),
        brand_of(code) == Some(Brand::Avif) <==> code == ascii4('a', 'v', 'i', 'f') || code == ascii4('a', 'v', 'i', 's'),
{
    assert(HEIC@ =~= ascii4('h', 'e', 'i', 'c'));
    assert(HEIX@ =~= ascii4('h', 'e', 'i', 'x'));
    assert(HEIM@ =~= ascii4('h', 'e', 'i', 'm'));
    assert(HEIS@ =~= ascii4('h', 'e', 'i', 's'));
    assert(HEVC@ =~= ascii4('h', 'e', 'v', 'c'));
    assert(MIF1@ =~= ascii4('m', 'i', 'f', '1'));
    assert(MSF1@ =~= ascii4('m', 's', 'f', '1'));
    assert(AVIF@ =~= ascii4('a', 'v', 'i', 'f'));
    assert(AVIS@ =~= ascii4('a', 'v', 'i', 's'));
}

/// Four bytes compared element by element.
fn same4(a: &[u8; 4], b: &[u8; 4]) -> (r: bool)
    ensures
        r == (a@ == b@),
{
    let r = a[0] == b[0] && a[1] == b[1] && a[2] == b[2] && a[3] == b[3];
    proof {
        if r {
            assert(a@ =~= b@);
        }
    }
    r
}

impl Brand {
    /// Map a four-character code onto a known brand.
    pub fn from_fourcc(code: &[u8; 4]) -> (r: Option<Brand>)
        ensures
            r == brand_of(code@),
    {
        if same4(code, &HEIC) {
            Some(Brand::Heic)
        } else if same4(code, &HEIX) {
            Some(Brand::Heix)
        } else if same4(code, &HEIM) {
            Some(Brand::Heim)
        } else if same4(code, &HEIS) {
            Some(Brand::Heis)
        } else if same4(code, &HEVC) {
            Some(Brand::Hevc)
        } else if same4(code, &MIF1) {
            Some(Brand::Mif1)
        } else if same4(code, &MSF1) {
            Some(Brand::Msf1)
        } else if same4(code, &AVIF) || same4(code, &AVIS) {
            Some(Brand::Avif)
        } else {
            None
        }
    }

    /// The four-character code for this brand.
    pub fn fourcc(self) -> (r: [u8; 4])
        ensures
            brand_of(r@) == Some(self),
    {
        match self {
            Brand::Heic => HEIC,
            Brand::Heix => HEIX,
            Brand::Heim => HEIM,
            Brand::Heis => HEIS,
            Brand::Hevc => HEVC,
            Brand::Mif1 => MIF1,
            Brand::Msf1 => MSF1,
            Brand::Avif => AVIF,
        }
    }

    /// True when this crate can attempt to decode files of this brand.
    pub fn is_decodable(self) -> (r: bool)
        ensures
            r == (self != Brand::Avif),
    {
        !matches!(self, Brand::Avif)
    }
}

/// The parsed `ftyp` box.
#[derive(Debug, Clone, Copy, PartialEq, Eq)]
pub struct FileType {
    /// The brand the writer considers definitive.
    pub major: Brand,
    /// The brand this crate chose to work with, drawn from the major brand or
    /// from the compatible list.
    pub effective: Brand,
    /// Version of the major brand, as written.
    pub minor_version: u32,
    /// How many compatible brands were listed, recognised or not.
    pub compatible_count: usize,
}

/// Compatible brand `k` of an `ftyp` payload.
pub open spec fn compatible(p: Seq<u8>, k: int) -> Seq<u8> {
    p.subrange(8 + 4 * k, 12 + 4 * k)
}

/// Number of whole compatible brands an `ftyp` payload lists.
pub open spec fn compatible_len(p: Seq<u8>) -> int {
    (p.len() - 8) / 4
}

/// The first recognised compatible brand from entry `k` on.
pub open spec fn first_known(p: Seq<u8>, k: int) -> Option<Brand>
    decreases compatible_len(p) - k,
{
    if k < 0 || k >= compatible_len(p) {
        None
    } else if brand_of(compatible(p, k)) is Some {
        brand_of(compatible(p, k))
    } else {
        first_known(p, k + 1)
    }
}

/// Some compatible brand from entry `k` on is AVIF.
pub open spec fn lists_avif(p: Seq<u8>, k: int) -> bool
    decreases compatible_len(p) - k,
{
    if k < 0 || k >= compatible_len(p) {
        false
    } else {
        brand_of(compatible(p, k)) == Some(Brand::Avif) || lists_avif(p, k + 1)
    }
}

/// The brand a payload's major slot or, failing that, its compatible list
/// names.
pub open spec fn declared_major(p: Seq<u8>) -> Option<Brand> {
    if brand_of(p.subrange(0, 4)) is Some {
        brand_of(p.subrange(0, 4))
    } else {
        first_known(p, 0)
    }
}

/// The brand a payload is read as: AVIF if it is marked AVIF anywhere.
pub open spec fn effective_brand(p: Seq<u8>) -> Brand {
    if declared_major(p) == Some(Brand::Avif) || lists_avif(p, 0) {
        Brand::Avif
    } else {
        declared_major(p).unwrap()
    }
}

/// Parse the `ftyp` box at the head of the file.
///
/// AVIF is recognised and rejected by name rather than being allowed to fail
/// deeper in as a confusing codec error.
pub fn parse(data: &[u8]) -> (r: Result<FileType>)
    ensures
        ({
            let f = find_from(data@, 0, FTYP@);
            &&& f == Some(-1int) ==> r is Err
            &&& f is None ==> r == Err::<FileType, Error>(Error::MissingBox("ftyp"))
            &&& f is Some && f.unwrap() >= 0 ==> {
                let s = f.unwrap();
                let p = data@.subrange(s + header_len(data@, s), s + box_total(data@, s));
                &&& p.len() < 8 ==> (r matches Err(Error::Truncated(_)))
                &&& p.len() >= 8 && declared_major(p) is None ==> r == Err::<FileType, Error>(
                    Error::Unsupported("the file's brand is not a HEIF brand this crate recognises"),
                )
                &&& p.len() >= 8 && declared_major(p) is Some && effective_brand(p) == Brand::Avif
                    ==> r == Err::<FileType, Error>(
                    Error::Unsupported(
                        "this is an AVIF file (AV1 in the HEIF container); heic-rs decodes HEVC-coded HEIC/HEIF only",
                    ),
                )
                &&& p.len() >= 8 && declared_major(p) is Some && effective_brand(p) != Brand::Avif
                    ==> r == Ok::<FileType, Error>(
                    FileType {
                        major: declared_major(p).unwrap(),
                        effective: effective_brand(p),
                        minor_version: be_value(p.subrange(4, 8)) as u32,
                        compatible_count: compatible_len(p) as usize,
                    },
                )
            }
        }),
{
    let ftyp = match BoxIter::new(data).require(&FTYP, "ftyp") {
        Ok(b) => b,
        Err(e) => {
            return Err(e);
        },
    };
    let ghost p = ftyp.payload@;
    let _ = ftyp.payload.len();
    let mut r = ftyp.reader();
    let major_code = match r.fourcc("ftyp major brand") {
        Ok(c) => c,
        Err(e) => {
            return Err(e);
        },
    };
    let minor_version = match r.u32("ftyp minor version") {
        Ok(v) => v,
        Err(e) => {
            return Err(e);
        },
    };
    let major = Brand::from_fourcc(&major_code);
    let mut compatible_count: usize = 0;
    let mut fallback: Option<Brand> = None;
    let mut saw_avif = false;
    while r.remaining() >= 4
        invariant
            r.wf(),
            r.spec_data() == p,
            p.len() >= 8,
            p.len() <= usize::MAX,
            r.spec_pos() == 8 + 4 * compatible_count,
            compatible_count <= compatible_len(p),
            fallback is Some ==> first_known(p, 0) == fallback,
            fallback is None ==> first_known(p, 0) == first_known(p, compatible_count as int),
            lists_avif(p, 0) == (saw_avif || lists_avif(p, compatible_count as int)),
        decreases p.len() - r.spec_pos(),
    {
        let ghost k = compatible_count as int;
        let code = match r.fourcc("ftyp compatible brand") {
            Ok(c) => c,
            Err(e) => {
                return Err(e);
            },
        };
        assert(compatible_count + 1 <= compatible_len(p));
        compatible_count += 1;
        let b = Brand::from_fourcc(&code);
        match b {
            Some(b) => {
                saw_avif = saw_avif || b == Brand::Avif;
                if fallback.is_none() {
                    fallback = Some(b);
                }
            },
            None => {},
        }
    }
    let major = match major {
        Some(b) => b,
        None => match fallback {
            Some(b) => b,
            None => {
                return Err(
                    Error::Unsupported("the file's brand is not a HEIF brand this crate recognises"),
                );
            },
        },
    };
    let effective = if major == Brand::Avif || saw_avif {
        Brand::Avif
    } else {
        major
    };
    if !effective.is_decodable() {
        return Err(
            Error::Unsupported(
                "this is an AVIF file (AV1 in the HEIF container); heic-rs decodes HEVC-coded HEIC/HEIF only",
            ),
        );
    }
    Ok(FileType { major, effective, minor_version, compatible_count })
}


/// `first_known` from entry `k` on is the first recognised entry at or
/// after `k`, and nothing when there is none.
proof fn lemma_first_known(p: Seq<u8>, k: int, k0: int)
    requires
        0 <= k,
    ensures
        k <= k0 < compatible_len(p) && brand_of(compatible(p, k0)) is Some && (forall|j: int|
            k <= j < k0 ==> #[trigger] brand_of(compatible(p, j)) is None) ==> first_known(p, k) == brand_of(
            compatible(p, k0),
        ),
        (forall|j: int| k <= j < compatible_len(p) ==> #[trigger] brand_of(compatible(p, j)) is None)
            ==> first_known(p, k) is None,
    decreases compatible_len(p) - k,
{
    if k < compatible_len(p) {
        lemma_first_known(p, k + 1, k0);
    }
}

/// `lists_avif` from entry `k` on holds exactly when some entry at or after
/// `k` is an AVIF brand.
proof fn lemma_lists_avif(p: Seq<u8>, k: int)
    requires
        0 <= k,
    ensures
        lists_avif(p, k) <==> exists|j: int|
            k <= j < compatible_len(p) && #[trigger] brand_of(compatible(p, j)) == Some(Brand::Avif),
    decreases compatible_len(p) - k,
{
    if k < compatible_len(p) {
        lemma_lists_avif(p, k + 1);
        if lists_avif(p, k + 1) {
            let j = choose|j: int|
                k + 1 <= j < compatible_len(p) && #[trigger] brand_of(compatible(p, j)) == Some(Brand::Avif);
            assert(k <= j < compatible_len(p) && brand_of(compatible(p, j)) == Some(Brand::Avif));
        }
    }
}

/// How an `ftyp` payload (major brand, minor version, then four-byte
/// compatible brands) names its brand: a recognised major brand is the
/// major brand whatever the list holds; an unrecognised one gives way to
/// the first recognised entry of the list, and when there is none the file
/// names no brand; the brand the file is read as is AVIF when the major
/// brand or any entry of the list is AVIF, and otherwise the major brand.
pub proof fn lemma_brand_choice(p: Seq<u8>, k0: int)
    requires
        p.len() >= 8,
    ensures
        brand_of(p.subrange(0, 4)) is Some ==> declared_major(p) == brand_of(p.subrange(0, 4)),
        brand_of(p.subrange(0, 4)) is None && 0 <= k0 < compatible_len(p) && brand_of(compatible(p, k0)) is Some
            && (forall|j: int| 0 <= j < k0 ==> #[trigger] brand_of(compatible(p, j)) is None) ==> declared_major(p)
            == brand_of(compatible(p, k0)),
        brand_of(p.subrange(0, 4)) is None && (forall|j: int|
            0 <= j < compatible_len(p) ==> #[trigger] brand_of(compatible(p, j)) is None) ==> declared_major(p) is None,
        0 <= k0 < compatible_len(p) && brand_of(compatible(p, k0)) == Some(Brand::Avif) ==> effective_brand(p)
            == Brand::Avif,
        declared_major(p) == Some(Brand::Avif) ==> effective_brand(p) == Brand::Avif,
        declared_major(p) is Some && declared_major(p) != Some(Brand::Avif) && (forall|j: int|
            0 <= j < compatible_len(p) ==> #[trigger] brand_of(compatible(p, j)) != Some(Brand::Avif))
            ==> effective_brand(p) == declared_major(p).unwrap(),
{
    lemma_first_known(p, 0, k0);
    lemma_lists_avif(p, 0);
    if 0 <= k0 < compatible_len(p) && brand_of(compatible(p, k0)) == Some(Brand::Avif) {
        assert(lists_avif(p, 0));
    }
}

} // verus!
