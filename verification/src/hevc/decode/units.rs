//! Picking a still picture's slices out of its NAL units, and the checks a
//! picture's slices must pass as a whole.

use vstd::prelude::*;

use crate::hevc::bitmath::bits_of;
use crate::hevc::bits::{BitReader, ue_ok, ue_value};
use crate::hevc::error::{Error, Result};
use crate::hevc::nal::{NalHeader, Rbsp, header_of, unescape};
use crate::hevc::nal::unit_type;

verus! {

/// What `NalHeader::parse` gives for the bytes `nal`.
pub open spec fn header_result(nal: Seq<u8>) -> Result<NalHeader> {
    if nal.len() < 2 {
        Err(Error::Truncated)
    } else if nal[0] >= 128 {
        Err(Error::InvalidData("forbidden_zero_bit set"))
    } else if nal[1] % 8 == 0 {
        Err(Error::InvalidData("nuh_temporal_id_plus1 is zero"))
    } else {
        Ok(header_of(nal[0], nal[1]))
    }
}

/// An intra random access point NAL unit type.
pub open spec fn irap(h: NalHeader) -> bool {
    unit_type::BLA_W_LP <= h.nal_unit_type <= unit_type::RSV_IRAP_VCL23
}

/// The slices of a picture from NAL unit `i` on, after `acc`: each unit's
/// header is parsed (its error stops everything), units that are not VCL
/// or not of layer 0 are skipped, a VCL unit that is not an intra random
/// access point is refused, and the rest are kept with their payloads.
pub open spec fn select_from(
    units: Seq<Seq<u8>>,
    i: int,
    acc: Seq<(NalHeader, Seq<u8>, Seq<u32>)>,
) -> Result<Seq<(NalHeader, Seq<u8>, Seq<u32>)>>
    decreases units.len() - i,
{
    if i < 0 || i >= units.len() {
        Ok(acc)
    } else {
        match header_result(units[i]) {
            Err(e) => Err(e),
            Ok(h) => if h.nal_unit_type >= 32 || h.layer_id != 0 {
                select_from(units, i + 1, acc)
            } else if !irap(h) {
                Err(Error::Unsupported("non-IRAP picture (inter prediction)"))
            } else {
                select_from(units, i + 1, acc.push((h, unescape(units[i]).0, unescape(units[i]).1)))
            },
        }
    }
}

/// The NAL units as byte sequences.
pub open spec fn unit_views(slices: Seq<&[u8]>) -> Seq<Seq<u8>> {
    Seq::new(slices.len(), |i: int| slices[i]@)
}

/// The slices of a still picture among its NAL units: the VCL units of
/// layer 0, each an intra random access point, with their headers and
/// payloads. `NoSlices` when there are no units or none of them is such a
/// slice; a header's error, or `Unsupported` for a VCL unit that is not an
/// intra random access point, from the first unit that has one.
pub fn vcl_units(slices: &[&[u8]]) -> (r: Result<Vec<(NalHeader, Rbsp)>>)
    ensures
        slices@.len() == 0 ==> r == Err::<Vec<(NalHeader, Rbsp)>, Error>(Error::NoSlices),
        slices@.len() > 0 ==> match select_from(unit_views(slices@), 0, Seq::empty()) {
            Err(e) => r == Err::<Vec<(NalHeader, Rbsp)>, Error>(e),
            Ok(v) => if v.len() == 0 {
                r == Err::<Vec<(NalHeader, Rbsp)>, Error>(Error::NoSlices)
            } else {
                &&& r is Ok
                &&& r->Ok_0@.len() == v.len()
                &&& forall|k: int|
                    0 <= k < v.len() ==> {
                        let (h, p) = #[trigger] r->Ok_0@[k];
                        (h, p.data@, p.epb@) == v[k]
                    }
            },
        },
{
    if slices.len() == 0 {
        return Err(Error::NoSlices);
    }
    let ghost units = unit_views(slices@);
    let mut parsed: Vec<(NalHeader, Rbsp)> = Vec::new();
    let ghost mut acc: Seq<(NalHeader, Seq<u8>, Seq<u32>)> = Seq::empty();
    let mut i: usize = 0;
    while i < slices.len()
        invariant
            i <= slices@.len(),
            units == unit_views(slices@),
            select_from(units, i as int, acc) == select_from(units, 0, Seq::empty()),
            parsed@.len() == acc.len(),
            forall|k: int|
                0 <= k < acc.len() ==> {
                    let (h, p) = #[trigger] parsed@[k];
                    (h, p.data@, p.epb@) == acc[k]
                },
        decreases slices@.len() - i,
    {
        let nal = slices[i];
        assert(units[i as int] == nal@);
        let h = match NalHeader::parse(nal) {
            Ok(h) => h,
            Err(e) => {
                return Err(e);
            },
        };
        if !h.is_vcl() || h.layer_id != 0 {
            i += 1;
            continue;
        }
        if !h.is_irap() {
            return Err(Error::Unsupported("non-IRAP picture (inter prediction)"));
        }
        let p = match Rbsp::from_nal(nal) {
            Ok(p) => p,
            Err(e) => {
                return Err(e);
            },
        };
        let ghost item = (h, p.data@, p.epb@);
        parsed.push((h, p));
        proof {
            acc = acc.push(item);
        }
        i += 1;
    }
    if parsed.len() == 0 {
        return Err(Error::NoSlices);
    }
    Ok(parsed)
}

/// The `slice_pic_parameter_set_id` at the start of a slice payload: after
/// `first_slice_segment_in_pic_flag`, and `no_output_of_prior_pics_flag`
/// for an intra random access point.
pub open spec fn pps_id_pos(h: NalHeader) -> int {
    if irap(h) {
        2
    } else {
        1
    }
}

/// The PPS id a slice names: the `ue(v)` after the first one or two flags
/// of its payload. `Truncated` when the payload ends before the flags; else
/// an error exactly when the `ue(v)` does not decode.
pub fn slice_pps_id(h: &NalHeader, payload: &[u8]) -> (r: Result<u32>)
    requires
        payload@.len() * 8 <= usize::MAX,
    ensures
        ({
            let b = bits_of(payload@);
            let p = pps_id_pos(*h);
            &&& p > b.len() ==> r == Err::<u32, Error>(Error::Truncated)
            &&& p <= b.len() ==> (r is Ok <==> ue_ok(b, p))
            &&& p <= b.len() ==> (r matches Ok(v) ==> v as nat == ue_value(b, p))
            &&& r matches Err(e) ==> (e is Truncated || e is InvalidData)
        }),
{
    let mut rd = BitReader::new(payload);
    match rd.u1() {
        Ok(_) => {},
        Err(e) => {
            return Err(e);
        },
    }
    if h.is_irap() {
        match rd.u1() {
            Ok(_) => {},
            Err(e) => {
                return Err(e);
            },
        }
    }
    rd.ue()
}

/// A picture must be covered by its slices: every CTB has a slice address,
/// and `u32::MAX` marks one that has none.
pub fn check_covered(slice_addr: &[u32]) -> (r: Result<()>)
    ensures
        r is Ok <==> forall|k: int| 0 <= k < slice_addr@.len() ==> slice_addr@[k] != u32::MAX,
        r is Err ==> r == Err::<(), Error>(Error::InvalidData("picture is not fully covered by slices")),
{
    let mut k: usize = 0;
    while k < slice_addr.len()
        invariant
            k <= slice_addr@.len(),
            forall|j: int| 0 <= j < k ==> slice_addr@[j] != u32::MAX,
        decreases slice_addr@.len() - k,
    {
        if slice_addr[k] == u32::MAX {
            return Err(Error::InvalidData("picture is not fully covered by slices"));
        }
        k += 1;
    }
    Ok(())
}

} // verus!
