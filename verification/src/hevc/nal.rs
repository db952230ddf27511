//! NAL unit layer: Annex-B splitting, NAL headers and emulation prevention.

pub mod unit_type;

use vstd::prelude::*;

use crate::hevc::error::{Error, Result};

verus! {

/// Parsed two-byte NAL unit header (clause 7.3.1.2).
#[derive(Debug, Clone, Copy, PartialEq, Eq)]
pub struct NalHeader {
    /// `nal_unit_type`.
    pub nal_unit_type: u8,
    /// `nuh_layer_id`.
    pub layer_id: u8,
    /// `nuh_temporal_id_plus1 - 1`.
    pub temporal_id: u8,
}

/// The header two bytes describe, when they are a valid header.
pub open spec fn header_of(b0: u8, b1: u8) -> NalHeader {
    NalHeader {
        nal_unit_type: ((b0 / 2) % 64) as u8,
        layer_id: ((b0 % 2) * 32 + b1 / 8) as u8,
        temporal_id: (b1 % 8 - 1) as u8,
    }
}

impl NalHeader {
    /// Parses the header from the first two bytes of a NAL unit.
    pub fn parse(nal: &[u8]) -> (r: Result<NalHeader>)
        ensures
            nal@.len() < 2 ==> r == Err::<NalHeader, Error>(Error::Truncated),
            nal@.len() >= 2 && nal@[0] >= 128 ==> r == Err::<NalHeader, Error>(
                Error::InvalidData("forbidden_zero_bit set"),
            ),
            nal@.len() >= 2 && nal@[0] < 128 && nal@[1] % 8 == 0 ==> r == Err::<NalHeader, Error>(
                Error::InvalidData("nuh_temporal_id_plus1 is zero"),
            ),
            nal@.len() >= 2 && nal@[0] < 128 && nal@[1] % 8 != 0 ==> r == Ok::<NalHeader, Error>(
                header_of(nal@[0], nal@[1]),
            ),
    {
        if nal.len() < 2 {
            return Err(Error::Truncated);
        }
        let (b0, b1) = (nal[0], nal[1]);
        proof {
            assert((b0 & 0x80 == 0 <==> b0 < 128) && (b1 & 0x07 == b1 % 8) && ((b0 >> 1u8) & 0x3f == (b0 / 2) % 64) && (((b0 & 1) << 5u8) | (b1 >> 3u8) == (b0 % 2) * 32 + b1 / 8)) by (bit_vector);
        }
        if b0 & 0x80 != 0 {
            return Err(Error::InvalidData("forbidden_zero_bit set"));
        }
        let tid_plus1 = b1 & 0x07;
        if tid_plus1 == 0 {
            return Err(Error::InvalidData("nuh_temporal_id_plus1 is zero"));
        }
        Ok(
            NalHeader {
                nal_unit_type: (b0 >> 1) & 0x3f,
                layer_id: ((b0 & 1) << 5) | (b1 >> 3),
                temporal_id: tid_plus1 - 1,
            },
        )
    }

    /// True for a VCL NAL unit type.
    pub fn is_vcl(&self) -> (r: bool)
        ensures
            r == (self.nal_unit_type < 32),
    {
        self.nal_unit_type < 32
    }

    /// True for an intra random access point picture.
    pub fn is_irap(&self) -> (r: bool)
        ensures
            r == (unit_type::BLA_W_LP <= self.nal_unit_type <= unit_type::RSV_IRAP_VCL23),
    {
        unit_type::BLA_W_LP <= self.nal_unit_type && self.nal_unit_type <= unit_type::RSV_IRAP_VCL23
    }
}

/// Emulation prevention removal from byte `i` on, with `zeros` zero bytes
/// just kept and `out` / `epb` produced so far: a `0x03` that follows two
/// zero bytes is dropped and its offset recorded; every other byte is kept.
pub open spec fn unescape_from(
    nal: Seq<u8>,
    i: int,
    zeros: nat,
    out: Seq<u8>,
    epb: Seq<u32>,
) -> (Seq<u8>, Seq<u32>)
    decreases nal.len() - i,
{
    if i < 0 || i >= nal.len() {
        (out, epb)
    } else if zeros >= 2 && nal[i] == 3 {
        unescape_from(nal, i + 1, 0, out, epb.push(i as u32))
    } else {
        unescape_from(
            nal,
            i + 1,
            if nal[i] == 0 {
                zeros + 1
            } else {
                0
            },
            out.push(nal[i]),
            epb,
        )
    }
}

/// The payload of a NAL unit after its two-byte header, with emulation
/// prevention bytes removed, and the NAL-unit offsets of those bytes.
pub open spec fn unescape(nal: Seq<u8>) -> (Seq<u8>, Seq<u32>) {
    unescape_from(nal, 2, 0, Seq::empty(), Seq::empty())
}

/// How many leading `epb` entries `rbsp_to_nal` steps over from entry `j`,
/// for a payload offset whose NAL offset before any step is `base`.
pub open spec fn rbsp_steps(epb: Seq<u32>, base: int, j: int) -> int
    decreases epb.len() - j,
{
    if j < 0 || j >= epb.len() || epb[j] > base + j {
        j
    } else {
        rbsp_steps(epb, base, j + 1)
    }
}

/// How many leading `epb` entries lie before NAL offset `n`, from entry `j`.
pub open spec fn nal_steps(epb: Seq<u32>, n: int, j: int) -> int
    decreases epb.len() - j,
{
    if j < 0 || j >= epb.len() || epb[j] >= n {
        j
    } else {
        nal_steps(epb, n, j + 1)
    }
}

/// The NAL unit offset of payload offset `off`.
pub open spec fn spec_rbsp_to_nal(epb: Seq<u32>, off: int) -> int {
    off + 2 + rbsp_steps(epb, off + 2, 0)
}

/// The payload offset of NAL unit offset `off`, clamped at zero.
pub open spec fn spec_nal_to_rbsp(epb: Seq<u32>, off: int) -> int {
    let r = off - 2 - nal_steps(epb, off, 0);
    if r < 0 {
        0
    } else {
        r
    }
}

/// A NAL unit with emulation prevention bytes removed.
///
/// `epb` records the *original* NAL-unit byte offsets at which a `0x03` byte
/// was dropped, which is what `entry_point_offset_minus1` counts in.
#[derive(Debug, Clone, Default)]
pub struct Rbsp {
    /// The de-escaped payload, starting after the two-byte NAL header.
    pub data: Vec<u8>,
    /// Offsets (within the whole NAL unit) of removed `0x03` bytes.
    pub epb: Vec<u32>,
}

impl Rbsp {
    /// Strips the two-byte header and all emulation prevention bytes.
    pub fn from_nal(nal: &[u8]) -> (r: Result<Rbsp>)
        ensures
            nal@.len() < 2 <==> r is Err,
            r matches Err(e) ==> e is Truncated,
            r matches Ok(p) ==> (p.data@, p.epb@) == unescape(nal@),
    {
        if nal.len() < 2 {
            return Err(Error::Truncated);
        }
        let mut out: Vec<u8> = Vec::new();
        let mut epb: Vec<u32> = Vec::new();
        let mut zeros: usize = 0;
        let mut i: usize = 2;
        while i < nal.len()
            invariant
                2 <= i <= nal@.len(),
                zeros <= i,
                unescape_from(nal@, i as int, zeros as nat, out@, epb@) == unescape(nal@),
            decreases nal@.len() - i,
        {
            let b = nal[i];
            if zeros >= 2 && b == 0x03 {
                epb.push(i as u32);
                zeros = 0;
                i += 1;
                continue;
            }
            zeros = if b == 0 {
                zeros + 1
            } else {
                0
            };
            out.push(b);
            i += 1;
        }
        Ok(Rbsp { data: out, epb })
    }

    /// Converts a payload offset (RBSP bytes) to a NAL unit offset.
    pub fn rbsp_to_nal(&self, rbsp_off: usize) -> (r: usize)
        requires
            rbsp_off + 2 + self.epb@.len() <= usize::MAX,
        ensures
            r as int == spec_rbsp_to_nal(self.epb@, rbsp_off as int),
    {
        let mut nal_off = rbsp_off + 2;
        let mut j: usize = 0;
        while j < self.epb.len()
            invariant
                j <= self.epb@.len(),
                rbsp_off + 2 + self.epb@.len() <= usize::MAX,
                nal_off == rbsp_off + 2 + j,
                rbsp_steps(self.epb@, rbsp_off + 2, j as int) == rbsp_steps(
                    self.epb@,
                    rbsp_off + 2,
                    0,
                ),
            ensures
                nal_off == rbsp_off + 2 + j,
                rbsp_steps(self.epb@, rbsp_off + 2, 0) == j,
            decreases self.epb@.len() - j,
        {
            if (self.epb[j] as usize) <= nal_off {
                nal_off += 1;
                j += 1;
            } else {
                break;
            }
        }
        nal_off
    }

    /// Converts a NAL unit offset to a payload offset (RBSP bytes).
    pub fn nal_to_rbsp(&self, nal_off: usize) -> (r: usize)
        ensures
            r as int == spec_nal_to_rbsp(self.epb@, nal_off as int),
    {
        let mut removed: usize = 0;
        while removed < self.epb.len()
            invariant
                removed <= self.epb@.len(),
                nal_steps(self.epb@, nal_off as int, removed as int) == nal_steps(
                    self.epb@,
                    nal_off as int,
                    0,
                ),
            ensures
                nal_steps(self.epb@, nal_off as int, 0) == removed,
            decreases self.epb@.len() - removed,
        {
            if (self.epb[removed] as usize) < nal_off {
                removed += 1;
            } else {
                break;
            }
        }
        if nal_off >= 2 && nal_off - 2 >= removed {
            nal_off - 2 - removed
        } else {
            0
        }
    }
}

/// What `rbsp_steps` stepped over.
proof fn lemma_rbsp_steps(epb: Seq<u32>, base: int, j: int)
    requires
        0 <= j <= epb.len(),
    ensures
        j <= rbsp_steps(epb, base, j) <= epb.len(),
        forall|i: int| j <= i < rbsp_steps(epb, base, j) ==> epb[i] <= base + i,
        rbsp_steps(epb, base, j) < epb.len() ==> epb[rbsp_steps(epb, base, j)] > base
            + rbsp_steps(epb, base, j),
    decreases epb.len() - j,
{
    if j < epb.len() && epb[j] <= base + j {
        lemma_rbsp_steps(epb, base, j + 1);
    }
}

/// `nal_steps` stops at the first entry at or beyond `n`.
proof fn lemma_nal_steps(epb: Seq<u32>, n: int, j: int, k: int)
    requires
        0 <= j <= k <= epb.len(),
        forall|i: int| j <= i < k ==> epb[i] < n,
        k < epb.len() ==> epb[k] >= n,
    ensures
        nal_steps(epb, n, j) == k,
    decreases k - j,
{
    if j < k {
        lemma_nal_steps(epb, n, j + 1, k);
    }
}

/// Mapping a payload offset to its NAL unit offset and back is the identity.
pub proof fn lemma_offsets_round_trip(epb: Seq<u32>, off: int)
    requires
        0 <= off,
    ensures
        spec_nal_to_rbsp(epb, spec_rbsp_to_nal(epb, off)) == off,
{
    let base = off + 2;
    lemma_rbsp_steps(epb, base, 0);
    let k = rbsp_steps(epb, base, 0);
    lemma_nal_steps(epb, base + k, 0, k);
}

/// The position just after the first start code at or after `i`, or -1.
pub open spec fn first_start(s: Seq<u8>, i: int) -> int
    decreases s.len() - i,
{
    if i < 0 || i + 3 > s.len() {
        -1
    } else if is_start_code(s, i) {
        i + 3
    } else {
        first_start(s, i + 1)
    }
}

/// The units of `s` from a unit that began at `cur`, scanning for the next
/// start code from `i`: each unit ends where the next start code begins,
/// less one zero byte that belongs to a four-byte start code; empty units
/// are left out, and the last runs to the end of `s`.
pub open spec fn units_from(s: Seq<u8>, cur: int, i: int) -> Seq<Seq<u8>>
    decreases s.len() - i,
{
    if i < 0 || i + 3 > s.len() {
        if 0 <= cur < s.len() {
            seq![s.subrange(cur, s.len() as int)]
        } else {
            Seq::empty()
        }
    } else if is_start_code(s, i) {
        let end = if i > cur && s[i - 1] == 0 {
            i - 1
        } else {
            i
        };
        let head = if end > cur {
            seq![s.subrange(cur, end)]
        } else {
            Seq::<Seq<u8>>::empty()
        };
        head + units_from(s, i + 3, i + 3)
    } else {
        units_from(s, cur, i + 1)
    }
}

/// The NAL units of an Annex-B stream: none before its first start code,
/// then those between consecutive start codes, in order.
pub open spec fn annexb_units(s: Seq<u8>) -> Seq<Seq<u8>> {
    let f = first_start(s, 0);
    if f < 0 {
        Seq::empty()
    } else {
        units_from(s, f, f)
    }
}

/// Splits an Annex-B byte stream into NAL units, dropping the start codes.
///
/// A unit runs from just after one `00 00 01` start code to just before the
/// next; a zero byte immediately before a start code belongs to that start
/// code, so four-byte start codes are handled too. Empty units are dropped.
pub fn split_annexb(stream: &[u8]) -> (out: Vec<&[u8]>)
    ensures
        out@.len() == annexb_units(stream@).len(),
        forall|k: int| 0 <= k < out@.len() ==> #[trigger] out@[k]@ == annexb_units(stream@)[k],
        (forall|i: int| 0 <= i && i + 3 <= stream@.len() ==> !is_start_code(stream@, i)) ==> out@.len()
            == 0,
{
    let mut out: Vec<&[u8]> = Vec::new();
    let n = stream.len();
    let mut i: usize = 0;
    let mut start: Option<usize> = None;
    while n >= 3 && i <= n - 3
        invariant_except_break
            start is None,
            first_start(stream@, 0) == first_start(stream@, i as int),
        invariant
            n == stream@.len(),
            i <= n,
            start is None ==> forall|j: int| 0 <= j < i ==> !is_start_code(stream@, j),
            start matches Some(s) ==> s == i && 3 <= s <= n && is_start_code(stream@, s - 3),
        ensures
            start is None ==> forall|j: int| 0 <= j && j + 3 <= n ==> !is_start_code(stream@, j),
            start is None ==> first_start(stream@, 0) == -1,
            start matches Some(s) ==> s == i && 3 <= s <= n && is_start_code(stream@, s - 3),
            start matches Some(s) ==> first_start(stream@, 0) == s,
        decreases n - i,
    {
        if stream[i] == 0 && stream[i + 1] == 0 && stream[i + 2] == 1 {
            start = Some(i + 3);
            i += 3;
            break;
        }
        i += 1;
    }
    let mut cur = match start {
        Some(s) => s,
        None => {
            return out;
        },
    };
    let ghost mut done: Seq<Seq<u8>> = Seq::empty();
    while n >= 3 && i <= n - 3
        invariant
            n == stream@.len(),
            3 <= cur <= i <= n,
            out@.len() == done.len(),
            forall|k: int| 0 <= k < out@.len() ==> #[trigger] out@[k]@ == done[k],
            done + units_from(stream@, cur as int, i as int) == annexb_units(stream@),
            is_start_code(stream@, cur - 3),
        decreases n - i,
    {
        if stream[i] == 0 && stream[i + 1] == 0 && stream[i + 2] == 1 {
            let mut end = i;
            if end > cur && stream[end - 1] == 0 {
                end -= 1;
            }
            let ghost rest = units_from(stream@, (i + 3) as int, (i + 3) as int);
            proof {
                assert(is_start_code(stream@, i as int));
            }
            if end > cur {
                let unit = &stream[cur..end];
                proof {
                    assert(unit@ == stream@.subrange(cur as int, end as int));
                    assert(done + units_from(stream@, cur as int, i as int) == done + (seq![unit@] + rest));
                    assert(done + (seq![unit@] + rest) =~= done.push(unit@) + rest);
                    done = done.push(unit@);
                }
                out.push(unit);
            } else {
                proof {
                    assert(units_from(stream@, cur as int, i as int) =~= rest);
                }
            }
            cur = i + 3;
            i += 3;
        } else {
            i += 1;
        }
    }
    proof {
        assert(units_from(stream@, cur as int, i as int) == if cur < n {
            seq![stream@.subrange(cur as int, n as int)]
        } else {
            Seq::<Seq<u8>>::empty()
        });
    }
    if cur < n {
        let unit = &stream[cur..n];
        proof {
            assert(unit@ == stream@.subrange(cur as int, n as int));
            assert(done + seq![unit@] =~= done.push(unit@));
            done = done.push(unit@);
        }
        out.push(unit);
    } else {
        proof {
            assert(done + Seq::<Seq<u8>>::empty() =~= done);
        }
    }
    out
}

/// A three-byte start code `00 00 01` begins at `i`.
pub open spec fn is_start_code(s: Seq<u8>, i: int) -> bool {
    0 <= i && i + 3 <= s.len() && s[i] == 0 && s[i + 1] == 0 && s[i + 2] == 1
}

/// Removing emulation prevention never lengthens the payload, and each
/// recorded offset lies inside the NAL unit.
pub proof fn lemma_unescape_shape(nal: Seq<u8>)
    requires
        nal.len() >= 2,
        nal.len() <= u32::MAX,
    ensures
        unescape(nal).0.len() + unescape(nal).1.len() == nal.len() - 2,
        forall|k: int|
            0 <= k < unescape(nal).1.len() ==> 2 <= unescape(nal).1[k] < nal.len() && nal[unescape(
                nal,
            ).1[k] as int] == 3,
{
    lemma_unescape_from_shape(nal, 2, 0, Seq::empty(), Seq::empty());
}

proof fn lemma_unescape_from_shape(nal: Seq<u8>, i: int, zeros: nat, out: Seq<u8>, epb: Seq<u32>)
    requires
        2 <= i <= nal.len(),
        nal.len() <= u32::MAX,
        out.len() + epb.len() == i - 2,
        forall|k: int| 0 <= k < epb.len() ==> 2 <= epb[k] < i && nal[epb[k] as int] == 3,
    ensures
        unescape_from(nal, i, zeros, out, epb).0.len() + unescape_from(nal, i, zeros, out, epb).1.len()
            == nal.len() - 2,
        forall|k: int|
            0 <= k < unescape_from(nal, i, zeros, out, epb).1.len() ==> 2 <= unescape_from(
                nal,
                i,
                zeros,
                out,
                epb,
            ).1[k] < nal.len() && nal[unescape_from(nal, i, zeros, out, epb).1[k] as int] == 3,
    decreases nal.len() - i,
{
    if i < nal.len() {
        if zeros >= 2 && nal[i] == 3 {
            lemma_unescape_from_shape(nal, i + 1, 0, out, epb.push(i as u32));
        } else {
            lemma_unescape_from_shape(
                nal,
                i + 1,
                if nal[i] == 0 {
                    zeros + 1
                } else {
                    0
                },
                out.push(nal[i]),
                epb,
            );
        }
    }
}


/// `rbsp_steps` over `epb` with one more entry `e` appended: the walk is
/// unchanged unless it stepped over every old entry and `e` too is stepped
/// over.
proof fn lemma_steps_push(epb: Seq<u32>, e: u32, base: int, j: int)
    requires
        0 <= j <= epb.len(),
    ensures
        rbsp_steps(epb.push(e), base, j) == if rbsp_steps(epb, base, j) == epb.len() && e <= base
            + epb.len() {
            epb.len() + 1int
        } else {
            rbsp_steps(epb, base, j)
        },
    decreases epb.len() - j,
{
    let s = epb.push(e);
    if j < epb.len() {
        assert(s[j] == epb[j]);
        if epb[j] <= base + j {
            lemma_steps_push(epb, e, base, j + 1);
        }
    } else {
        assert(s[j] == e);
        if e <= base + j {
            assert(rbsp_steps(s, base, j + 1) == j + 1);
        }
    }
}

/// The walk steps over every entry from `j` when each lies at or before the
/// offset it is compared with.
proof fn lemma_steps_all(epb: Seq<u32>, base: int, j: int)
    requires
        0 <= j <= epb.len(),
        forall|t: int| j <= t < epb.len() ==> epb[t] <= base + t,
    ensures
        rbsp_steps(epb, base, j) == epb.len(),
    decreases epb.len() - j,
{
    if j < epb.len() {
        lemma_steps_all(epb, base, j + 1);
    }
}

/// Every payload byte produced from byte `i` on sits in the NAL unit at the
/// offset `spec_rbsp_to_nal` gives it.
proof fn lemma_unescape_from_map(nal: Seq<u8>, i: int, zeros: nat, out: Seq<u8>, epb: Seq<u32>)
    requires
        2 <= i <= nal.len(),
        nal.len() <= u32::MAX,
        out.len() + epb.len() == i - 2,
        forall|a: int, b: int| 0 <= a < b < epb.len() ==> epb[a] < epb[b],
        forall|k: int| 0 <= k < epb.len() ==> epb[k] < i,
        forall|off: int|
            0 <= off < out.len() ==> #[trigger] spec_rbsp_to_nal(epb, off) < i && nal[spec_rbsp_to_nal(epb, off)] == out[off],
    ensures
        forall|off: int|
            0 <= off < unescape_from(nal, i, zeros, out, epb).0.len() ==> 0 <= #[trigger] spec_rbsp_to_nal(
                unescape_from(nal, i, zeros, out, epb).1,
                off,
            ) < nal.len() && nal[spec_rbsp_to_nal(unescape_from(nal, i, zeros, out, epb).1, off)]
                == unescape_from(nal, i, zeros, out, epb).0[off],
    decreases nal.len() - i,
{
    if i >= nal.len() {
        assert(unescape_from(nal, i, zeros, out, epb) == (out, epb));
        assert forall|off: int| 0 <= off < out.len() implies 0 <= #[trigger] spec_rbsp_to_nal(epb, off) < nal.len()
            && nal[spec_rbsp_to_nal(epb, off)] == out[off] by {
            lemma_rbsp_steps(epb, off + 2, 0);
        }
    } else if zeros >= 2 && nal[i] == 3 {
        let e2 = epb.push(i as u32);
        assert forall|off: int| 0 <= off < out.len() implies #[trigger] spec_rbsp_to_nal(e2, off) < i + 1
            && nal[spec_rbsp_to_nal(e2, off)] == out[off] by {
            lemma_steps_push(epb, i as u32, off + 2, 0);
            lemma_rbsp_steps(epb, off + 2, 0);
            assert(spec_rbsp_to_nal(epb, off) < i);
        }
        lemma_unescape_from_map(nal, i + 1, 0, out, e2);
        assert(unescape_from(nal, i, zeros, out, epb) == unescape_from(nal, i + 1, 0, out, e2));
    } else {
        let o2 = out.push(nal[i]);
        let z2: nat = if nal[i] == 0 {
            zeros + 1
        } else {
            0
        };
        assert forall|off: int| 0 <= off < o2.len() implies #[trigger] spec_rbsp_to_nal(epb, off) < i + 1
            && nal[spec_rbsp_to_nal(epb, off)] == o2[off] by {
            if off == out.len() {
                assert forall|t: int| 0 <= t < epb.len() implies epb[t] <= off + 2 + t by {
                    lemma_sorted_below(epb, i, t);
                }
                lemma_steps_all(epb, off + 2, 0);
            } else {
                assert(o2[off] == out[off]);
            }
        }
        lemma_unescape_from_map(nal, i + 1, z2, o2, epb);
        assert(unescape_from(nal, i, zeros, out, epb) == unescape_from(nal, i + 1, z2, o2, epb));
    }
}

/// A strictly increasing sequence below `i` has entry `t` at most
/// `i - len + t`.
proof fn lemma_sorted_below(epb: Seq<u32>, i: int, t: int)
    requires
        0 <= t < epb.len(),
        forall|a: int, b: int| 0 <= a < b < epb.len() ==> epb[a] < epb[b],
        forall|k: int| 0 <= k < epb.len() ==> epb[k] < i,
    ensures
        epb[t] <= i - epb.len() + t,
    decreases epb.len() - t,
{
    if t + 1 < epb.len() {
        lemma_sorted_below(epb, i, t + 1);
        assert(epb[t] < epb[t + 1]);
    }
}

/// Each payload byte of a NAL unit is the NAL byte at the offset
/// `rbsp_to_nal` maps it to.
pub proof fn lemma_payload_bytes(nal: Seq<u8>, off: int)
    requires
        nal.len() <= u32::MAX,
        0 <= off < unescape(nal).0.len(),
    ensures
        0 <= spec_rbsp_to_nal(unescape(nal).1, off) < nal.len(),
        nal[spec_rbsp_to_nal(unescape(nal).1, off)] == unescape(nal).0[off],
{
    if nal.len() < 2 {
        assert(unescape(nal).0 == Seq::<u8>::empty());
    } else {
        lemma_unescape_from_map(nal, 2, 0, Seq::empty(), Seq::empty());
        assert(0 <= spec_rbsp_to_nal(unescape(nal).1, off) < nal.len());
    }
}

} // verus!
