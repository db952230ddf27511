//! The fixed-point form of the colour matrix: the integer steps that are
//! applied per sample once the coefficients have been derived.

use vstd::prelude::*;

verus! {

/// Fractional bits the matrix carries, chosen so that the widest product a
/// 12-bit sample can make still fits in an `i32`.
pub fn shift_for(wide: bool) -> (r: u32)
    ensures
        r == if wide { 13u32 } else { 16u32 },
{
    if wide {
        13
    } else {
        16
    }
}

/// Fractional bits used when rescaling an alpha sample to the output depth.
pub const ALPHA_SHIFT: u32 = 14;

/// Half a least significant bit at [`ALPHA_SHIFT`] fractional bits.
pub const ALPHA_HALF: i32 = 8192;

/// The largest sample a given bit depth can hold.
pub fn sample_max(depth: u8) -> (r: i32)
    requires
        depth < 32,
    ensures
        r == vstd::arithmetic::power2::pow2(depth as nat) - 1,
{
    proof {
        vstd::bits::lemma_u32_pow2_no_overflow(depth as nat);
        vstd::bits::lemma_u32_shl_is_mul(1, depth as u32);
        if depth < 31 {
            vstd::arithmetic::power2::lemma_pow2_strictly_increases(depth as nat, 31);
        }
        vstd::arithmetic::power2::lemma2_to64();
    }
    ((1u32 << depth) - 1) as i32
}

/// `v` clamped into `lo ..= hi`.
pub open spec fn clamp(v: int, lo: int, hi: int) -> int {
    if v < lo {
        lo
    } else if v > hi {
        hi
    } else {
        v
    }
}

/// One matrix, one range and one output depth, reduced to integers.
///
/// Each `k*` field is its real coefficient times `1 << shift`, already folded
/// together with the sample scaling and the output maximum, so a channel is
/// one multiply-accumulate, one rounded shift and one clamp.
#[derive(Debug, Clone, Copy)]
pub struct Coeffs {
    /// Fractional bits in `ky` and the four chroma gains.
    pub shift: u32,
    /// Half a least significant bit, added before the shift.
    pub round: i32,
    /// The largest value a channel may take: 255 or 65535.
    pub max_out: i32,
    /// Subtracted from a luma sample before scaling.
    pub y_offset: i32,
    /// Subtracted from a chroma sample before scaling.
    pub c_offset: i32,
    /// Luma gain, also the gain the identity matrix uses on all three planes.
    pub ky: i32,
    /// Cr's contribution to red.
    pub rv: i32,
    /// Cb's contribution to green.
    pub gu: i32,
    /// Cr's contribution to green.
    pub gv: i32,
    /// Cb's contribution to blue.
    pub bu: i32,
}

impl Coeffs {
    /// Round an accumulated channel and clamp it into the output range.
    pub fn finish(&self, acc: i32) -> (r: i32)
        requires
            self.shift < 32,
            self.max_out >= 0,
            i32::MIN <= acc + self.round <= i32::MAX,
        ensures
            r == clamp((((acc + self.round) as i32) >> self.shift) as int, 0, self.max_out as int),
    {
        let v = (acc + self.round) >> self.shift;
        if v < 0 {
            0
        } else if v > self.max_out {
            self.max_out
        } else {
            v
        }
    }
}

/// How an auxiliary alpha plane's samples map onto the output depth.
#[derive(Debug, Clone, Copy)]
pub struct AlphaScale {
    /// The output maximum over the input maximum, times `1 << ALPHA_SHIFT`.
    pub gain: i32,
    /// The largest sample the alpha plane's depth can hold.
    pub max_in: i32,
    /// The largest value an output channel may take.
    pub max_out: i32,
}

impl AlphaScale {
    /// Rescale one sample, clamping a plane that overruns its declared depth.
    pub fn apply(&self, v: u16) -> (r: i32)
        requires
            0 <= self.max_in,
            0 <= self.gain,
            self.max_out >= 0,
            self.max_in * self.gain + ALPHA_HALF <= i32::MAX,
        ensures
            ({
                let vin = if v < self.max_in { v as int } else { self.max_in as int };
                r == clamp((((vin * self.gain + ALPHA_HALF) as i32) >> ALPHA_SHIFT) as int, 0, self.max_out as int)
            }),
    {
        let v = if (v as i32) < self.max_in { v as i32 } else { self.max_in };
        proof {
            assert(0 <= v * self.gain <= self.max_in * self.gain) by (nonlinear_arith)
                requires
                    0 <= v <= self.max_in,
                    0 <= self.gain,
            ;
        }
        let s = (v * self.gain + ALPHA_HALF) >> ALPHA_SHIFT;
        if s < 0 {
            0
        } else if s > self.max_out {
            self.max_out
        } else {
            s
        }
    }
}

} // verus!
