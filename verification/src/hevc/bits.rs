//! RBSP bit reader: `u(n)`, `ue(v)`, `se(v)`, alignment and `more_rbsp_data`,
//! and the bit writer that produces the same codes.
//!
//! The reader operates on a byte slice that has already had emulation
//! prevention bytes removed. Both sides are specified over the bit view
//! [`bits_of`] of their bytes, so that what one writes and the other reads can
//! be compared directly.

use vstd::prelude::*;

use crate::hevc::bitmath::{
    be_bits, bits_of, byte_bit, lemma_be_bits_round_trip, lemma_be_bits_tail, lemma_be_bits_val,
    lemma_bit_u8, lemma_bit_u32, lemma_shr_u32, lemma_seq_val_bound, lemma_seq_val_push, lemma_two_to_monotone, lemma_two_to_pos,
    lemma_two_to_small, seq_val, two_to, zero_bits,
};
use crate::hevc::error::{Error, Result};

verus! {

/// Number of consecutive zero bits of `b` starting at `pos`.
pub open spec fn zero_run(b: Seq<bool>, pos: int) -> nat
    decreases b.len() - pos,
{
    if pos < 0 || pos >= b.len() || b[pos] {
        0
    } else {
        1 + zero_run(b, pos + 1)
    }
}

/// `ue(v)` at `pos` decodes: its prefix is short enough and the whole code
/// lies inside `b`.
pub open spec fn ue_ok(b: Seq<bool>, pos: int) -> bool {
    let z = zero_run(b, pos);
    z < 32 && pos + 2 * z + 1 <= b.len()
}

/// The value of the `ue(v)` code at `pos`: `2^z - 1` plus the `z` bits
/// after the marker bit, `z` being the length of the zero prefix.
pub open spec fn ue_value(b: Seq<bool>, pos: int) -> nat {
    let z = zero_run(b, pos);
    (two_to(z) - 1 + seq_val(b.subrange(pos + z + 1, pos + 2 * z + 1))) as nat
}

/// Where the `ue(v)` code at `pos` ends.
pub open spec fn ue_next(b: Seq<bool>, pos: int) -> int {
    pos + 2 * zero_run(b, pos) + 1
}

/// The signed value `se(v)` maps the code number `k` to.
pub open spec fn se_of(k: nat) -> int {
    if k % 2 == 1 {
        ((k + 1) / 2) as int
    } else {
        -((k / 2) as int)
    }
}

/// The code number `se(v)` uses for the signed value `v`.
pub open spec fn se_index(v: int) -> nat {
    if v > 0 {
        (2 * v - 1) as nat
    } else {
        (-2 * v) as nat
    }
}

/// Number of significant bits of `c`.
pub open spec fn bit_len(c: nat) -> nat
    decreases c,
{
    if c == 0 {
        0
    } else {
        1 + bit_len(c / 2)
    }
}

/// The Exp-Golomb code word of `v`: as many zero bits as `v + 1` has bits
/// after its leading one, then `v + 1` itself.
pub open spec fn ue_code(v: nat) -> Seq<bool> {
    let z = (bit_len(v + 1) - 1) as nat;
    zero_bits(z) + be_bits(v + 1, z + 1)
}

/// `stop` is the position of the last set bit of `b`, or 0 when none is set.
pub open spec fn is_stop_bit(b: Seq<bool>, stop: int) -> bool {
    ||| (stop == 0 && forall|i: int| 0 <= i < b.len() ==> !b[i])
    ||| (0 <= stop < b.len() && b[stop] && forall|i: int| stop < i < b.len() ==> !b[i])
}

/// Big-endian MSB-first bit reader over an RBSP.
#[derive(Clone, Debug)]
pub struct BitReader<'a> {
    data: &'a [u8],
    /// Next bit to read, counted from the first bit of `data`.
    pos: usize,
    /// Total number of bits in `data`.
    end: usize,
    /// Bit position of the `rbsp_stop_one_bit`, or `0` when the RBSP is empty.
    stop: usize,
}

impl<'a> BitReader<'a> {
    /// The bits being read.
    pub closed spec fn bits(&self) -> Seq<bool> {
        bits_of(self.data@)
    }

    /// The next bit to read.
    pub closed spec fn spec_pos(&self) -> int {
        self.pos as int
    }

    /// The recorded position of the stop bit.
    pub closed spec fn spec_stop(&self) -> int {
        self.stop as int
    }

    /// The reader's fields agree with its data.
    pub closed spec fn wf(&self) -> bool {
        &&& self.end == self.data@.len() * 8
        &&& self.pos <= self.end
        &&& is_stop_bit(bits_of(self.data@), self.stop as int)
    }

    /// What every reading method keeps.
    pub open spec fn same_source(&self, other: &Self) -> bool {
        &&& self.wf()
        &&& self.bits() == other.bits()
        &&& self.spec_stop() == other.spec_stop()
    }

    /// Creates a reader positioned at the first bit of `data`.
    pub fn new(data: &'a [u8]) -> (r: Self)
        requires
            data@.len() * 8 <= usize::MAX,
        ensures
            r.wf(),
            r.bits() == bits_of(data@),
            r.spec_pos() == 0,
            is_stop_bit(bits_of(data@), r.spec_stop()),
    {
        let mut last = data.len();
        while last > 0 && data[last - 1] == 0
            invariant
                last <= data@.len(),
                forall|k: int| last <= k < data@.len() ==> data@[k] == 0,
            decreases last,
        {
            last -= 1;
        }
        let ghost b = bits_of(data@);
        let stop = if last == 0 {
            proof {
                assert forall|i: int| 0 <= i < b.len() implies !b[i] by {
                    assert(data@[i / 8] == 0);
                    lemma_two_to_pos((7 - i % 8) as nat);
                }
            }
            0
        } else {
            let byte = data[last - 1];
            let tz = byte.trailing_zeros();
            proof {
                vstd::std_specs::bits::axiom_u8_trailing_zeros(byte);
            }
            let s = (last - 1) * 8 + (7 - tz as usize);
            proof {
                lemma_bit_u8(byte, tz as u8);
                assert(b[s as int] == byte_bit(byte, 7 - tz as int));
                assert forall|i: int| s < i < b.len() implies !b[i] by {
                    if i / 8 == last - 1 {
                        let k = i % 8;
                        let j = (7 - k) as u8;
                        assert(j < tz);
                        lemma_bit_u8(byte, j);
                        assert((byte >> j) & 1u8 == 0u8);
                    } else {
                        assert(data@[i / 8] == 0);
                        lemma_two_to_pos((7 - i % 8) as nat);
                    }
                }
            }
            s
        };
        BitReader { data, pos: 0, end: data.len() * 8, stop }
    }

    /// Bit `i` of the data as `0` or `1`.
    fn bit_at(&self, i: usize) -> (r: u32)
        requires
            self.wf(),
            i < self.bits().len(),
        ensures
            r == if self.bits()[i as int] {
                1u32
            } else {
                0u32
            },
    {
        let byte = self.data[i / 8];
        let off = (i % 8) as u8;
        let b = (byte >> (7 - off)) & 1;
        proof {
            lemma_bit_u8(byte, (7 - off) as u8);
        }
        b as u32
    }

    /// Reads a single bit.
    pub fn u1(&mut self) -> (r: Result<u32>)
        requires
            old(self).wf(),
        ensures
            final(self).same_source(old(self)),
            old(self).spec_pos() >= old(self).bits().len() ==> r == Err::<u32, Error>(
                Error::Truncated,
            ) && final(self).spec_pos() == old(self).spec_pos(),
            old(self).spec_pos() < old(self).bits().len() ==> r == Ok::<u32, Error>(
                if old(self).bits()[old(self).spec_pos()] {
                    1u32
                } else {
                    0u32
                },
            ) && final(self).spec_pos() == old(self).spec_pos() + 1,
    {
        if self.pos >= self.end {
            return Err(Error::Truncated);
        }
        let bit = self.bit_at(self.pos);
        self.pos += 1;
        Ok(bit)
    }

    /// Reads `n` bits (`n <= 32`) as an unsigned integer, `u(n)`.
    pub fn u(&mut self, n: u32) -> (r: Result<u32>)
        requires
            old(self).wf(),
        ensures
            final(self).same_source(old(self)),
            n == 0 ==> r == Ok::<u32, Error>(0) && final(self).spec_pos() == old(self).spec_pos(),
            n > 32 ==> r matches Err(Error::InvalidData(_)),
            0 < n <= 32 && old(self).spec_pos() + n > old(self).bits().len() ==> r == Err::<
                u32,
                Error,
            >(Error::Truncated),
            0 < n <= 32 && old(self).spec_pos() + n <= old(self).bits().len() ==> {
                &&& r matches Ok(v) && v as nat == seq_val(
                    old(self).bits().subrange(old(self).spec_pos(), old(self).spec_pos() + n),
                )
                &&& final(self).spec_pos() == old(self).spec_pos() + n
            },
            r is Err ==> final(self).spec_pos() == old(self).spec_pos(),
    {
        if n == 0 {
            return Ok(0);
        }
        if n > 32 {
            return Err(Error::InvalidData("u(n) with n > 32"));
        }
        if n as usize > self.end - self.pos {
            return Err(Error::Truncated);
        }
        let ghost b = self.bits();
        let ghost p0 = self.pos as int;
        let mut v: u32 = 0;
        let mut k: u32 = 0;
        while k < n
            invariant
                self.wf(),
                self.bits() == b,
                self.spec_stop() == old(self).spec_stop(),
                p0 == old(self).spec_pos(),
                b == old(self).bits(),
                k <= n <= 32,
                p0 + n <= b.len(),
                self.pos == p0 + k,
                v as nat == seq_val(b.subrange(p0, p0 + k)),
            decreases n - k,
        {
            let bit = self.bit_at(self.pos);
            proof {
                let s = b.subrange(p0, p0 + k);
                assert(b.subrange(p0, p0 + k + 1) =~= s.push(b[p0 + k]));
                lemma_seq_val_push(s, b[p0 + k]);
                lemma_seq_val_bound(s);
                lemma_two_to_monotone(k as nat, 31);
                lemma_two_to_small();
            }
            v = v * 2 + bit;
            self.pos += 1;
            k += 1;
        }
        Ok(v)
    }

    /// Reads an unsigned Exp-Golomb code, `ue(v)`.
    pub fn ue(&mut self) -> (r: Result<u32>)
        requires
            old(self).wf(),
        ensures
            final(self).same_source(old(self)),
            r is Ok <==> ue_ok(old(self).bits(), old(self).spec_pos()),
            r matches Ok(v) ==> {
                &&& v as nat == ue_value(old(self).bits(), old(self).spec_pos())
                &&& final(self).spec_pos() == ue_next(old(self).bits(), old(self).spec_pos())
                &&& v < u32::MAX
            },
            r matches Err(e) ==> {
                &&& (e is InvalidData <==> zero_run(old(self).bits(), old(self).spec_pos()) >= 32)
                &&& (e is InvalidData || e is Truncated)
            },
    {
        let ghost b = self.bits();
        let ghost p0 = self.pos as int;
        let mut zeros: u32 = 0;
        loop
            invariant_except_break
                self.same_source(old(self)),
                b == old(self).bits(),
                p0 == old(self).spec_pos(),
                zeros <= 31,
                self.spec_pos() == p0 + zeros,
                zero_run(b, p0) == zeros + zero_run(b, self.spec_pos()),
            ensures
                self.same_source(old(self)),
                zeros <= 31,
                self.spec_pos() == p0 + zeros + 1,
                zero_run(b, p0) == zeros,
                self.spec_pos() <= b.len(),
            decreases 32 - zeros,
        {
            let ghost here = self.spec_pos();
            match self.u1() {
                Err(e) => {
                    return Err(e);
                },
                Ok(bit) => {
                    if bit == 1 {
                        break ;
                    }
                },
            }
            zeros += 1;
            if zeros > 31 {
                return Err(Error::InvalidData("ue(v) prefix too long"));
            }
        }
        if zeros == 0 {
            proof {
                assert(b.subrange(p0 + 1, p0 + 1) =~= Seq::<bool>::empty());
                assert(two_to(0) == 1);
            }
            return Ok(0);
        }
        let rest = match self.u(zeros) {
            Err(e) => {
                return Err(e);
            },
            Ok(v) => v,
        };
        proof {
            lemma_shl1(zeros);
            lemma_seq_val_bound(b.subrange(p0 + zeros + 1, p0 + 2 * zeros + 1));
            lemma_two_to_monotone((zeros + 1) as nat, 32);
            lemma_two_to_small();
            assert(two_to((zeros + 1) as nat) == 2 * two_to(zeros as nat));
        }
        Ok((1u32 << zeros) - 1 + rest)
    }

    /// Reads a signed Exp-Golomb code, `se(v)`.
    pub fn se(&mut self) -> (r: Result<i32>)
        requires
            old(self).wf(),
        ensures
            final(self).same_source(old(self)),
            r is Ok <==> ue_ok(old(self).bits(), old(self).spec_pos()),
            r matches Ok(v) ==> {
                &&& v as int == se_of(ue_value(old(self).bits(), old(self).spec_pos()))
                &&& final(self).spec_pos() == ue_next(old(self).bits(), old(self).spec_pos())
            },
            r matches Err(e) ==> (e is InvalidData || e is Truncated),
    {
        let k = match self.ue() {
            Err(e) => {
                return Err(e);
            },
            Ok(k) => k,
        };
        proof {
            let k1 = (k + 1) as u32;
            assert((k1 >> 1u32 == k1 / 2) && (k & 1u32 == k % 2)) by (bit_vector);
        }
        let mag = ((k + 1) >> 1) as i32;
        Ok(
            if k & 1 == 1 {
                mag
            } else {
                -mag
            },
        )
    }

    /// Skips `n` bits.
    pub fn skip(&mut self, n: usize) -> (r: Result<()>)
        requires
            old(self).wf(),
        ensures
            final(self).same_source(old(self)),
            r is Ok <==> old(self).spec_pos() + n <= old(self).bits().len(),
            r is Ok ==> final(self).spec_pos() == old(self).spec_pos() + n,
            r matches Err(e) ==> e is Truncated && final(self).spec_pos() == old(self).spec_pos(),
    {
        if n > self.end - self.pos {
            return Err(Error::Truncated);
        }
        self.pos += n;
        Ok(())
    }

    /// Advances to the next byte boundary.
    pub fn byte_align(&mut self)
        requires
            old(self).wf(),
        ensures
            final(self).same_source(old(self)),
            final(self).spec_pos() % 8 == 0,
            old(self).spec_pos() <= final(self).spec_pos() < old(self).spec_pos() + 8,
    {
        let r = self.pos % 8;
        if r != 0 {
            self.pos = self.pos + (8 - r);
        }
    }

    /// True when the current position is byte aligned.
    pub fn is_aligned(&self) -> (r: bool)
        ensures
            r == (self.spec_pos() % 8 == 0),
    {
        self.pos % 8 == 0
    }

    /// `more_rbsp_data()` from clause 7.2 of the specification: true while a
    /// set bit lies beyond the current position.
    pub fn more_rbsp_data(&self) -> (r: bool)
        requires
            self.wf(),
        ensures
            r == (self.spec_pos() < self.spec_stop()),
            r <==> exists|i: int| self.spec_pos() < i < self.bits().len() && self.bits()[i],
    {
        proof {
            let b = self.bits();
            if self.pos < self.stop {
                assert(b[self.stop as int]);
            } else {
                assert forall|i: int| self.spec_pos() < i < b.len() && b[i] implies false by {
                    assert(i > self.stop);
                }
            }
        }
        self.pos < self.stop
    }

    /// Current position rounded up to a whole number of bytes.
    pub fn byte_pos(&self) -> (r: usize)
        requires
            self.wf(),
        ensures
            r as int == (self.spec_pos() + 7) / 8,
    {
        (self.pos + 7) / 8
    }
}

/// `1 << z` is `2^z`.
pub proof fn lemma_shl1(z: u32)
    requires
        z < 32,
    ensures
        (1u32 << z) as nat == two_to(z as nat),
    decreases z,
{
    if z == 0 {
        assert(1u32 << 0u32 == 1u32) by (bit_vector);
    } else {
        let y = (z - 1) as u32;
        lemma_shl1(y);
        assert(1u32 << z == (1u32 << y) * 2) by (bit_vector)
            requires
                z < 32,
                y == z - 1,
        ;
    }
}

/// A zero-bit prefix of length `z` followed by a one has run length `z`.
pub proof fn lemma_zero_run(b: Seq<bool>, pos: int, z: nat)
    requires
        0 <= pos,
        pos + z < b.len(),
        forall|i: int| pos <= i < pos + z ==> !b[i],
        b[pos + z],
    ensures
        zero_run(b, pos) == z,
    decreases z,
{
    if z > 0 {
        lemma_zero_run(b, pos + 1, (z - 1) as nat);
    }
}

/// `bit_len(c)` brackets `c` between consecutive powers of two.
pub proof fn lemma_bit_len(c: nat)
    requires
        c > 0,
    ensures
        bit_len(c) >= 1,
        two_to((bit_len(c) - 1) as nat) <= c < two_to(bit_len(c)),
    decreases c,
{
    if c > 1 {
        lemma_bit_len(c / 2);
        let l = bit_len(c / 2);
        assert(two_to(l) == 2 * two_to((l - 1) as nat));
        assert(two_to(l + 1) == 2 * two_to(l));
        assert(bit_len(c) == l + 1);
    } else {
        assert(bit_len(1) == 1 + bit_len(0));
        assert(two_to(1) == 2 * two_to(0));
    }
}

/// The only `n` with `2^(n-1) <= c < 2^n` is `bit_len(c)`.
pub proof fn lemma_bit_len_unique(c: nat, n: nat)
    requires
        n >= 1,
        two_to((n - 1) as nat) <= c < two_to(n),
    ensures
        bit_len(c) == n,
{
    lemma_bit_len(c);
    let m = bit_len(c);
    if m < n {
        lemma_two_to_monotone(m, (n - 1) as nat);
    } else if m > n {
        lemma_two_to_monotone(n, (m - 1) as nat);
    }
}

/// Reading `ue(v)` where the writer put `ue_code(v)` gives back `v` and stops
/// exactly at the end of the code word.
pub proof fn lemma_ue_round_trip(b: Seq<bool>, pos: int, v: nat)
    requires
        v < u32::MAX,
        0 <= pos,
        pos + ue_code(v).len() <= b.len(),
        b.subrange(pos, pos + ue_code(v).len()) == ue_code(v),
    ensures
        ue_ok(b, pos),
        ue_value(b, pos) == v,
        ue_next(b, pos) == pos + ue_code(v).len(),
{
    let c = v + 1;
    lemma_bit_len(c);
    let z = (bit_len(c) - 1) as nat;
    lemma_two_to_small();
    if z >= 32 {
        lemma_two_to_monotone(32, z);
    }
    let code = ue_code(v);
    assert(code.len() == 2 * z + 1);
    assert forall|i: int| pos <= i < pos + z implies !b[i] by {
        assert(b[i] == b.subrange(pos, pos + code.len())[i - pos]);
    }
    assert(b[pos + z] == code[z as int]);
    lemma_two_to_pos(z);
    vstd::arithmetic::div_mod::lemma_fundamental_div_mod_converse(
        c as int,
        two_to(z) as int,
        1,
        c - two_to(z),
    );
    assert(code[z as int] == ((c / two_to(z)) % 2 == 1));
    lemma_zero_run(b, pos, z);
    let tail = b.subrange(pos + z + 1, pos + 2 * z + 1);
    assert forall|j: int| 0 <= j < z implies tail[j] == be_bits(c, z + 1)[j + 1] by {
        assert(tail[j] == b[pos + z + 1 + j]);
        assert(b[pos + z + 1 + j] == b.subrange(pos, pos + code.len())[z + 1 + j]);
        assert(code[z + 1 + j] == be_bits(c, z + 1)[j + 1]);
    }
    assert(tail =~= be_bits(c, z + 1).subrange(1, z + 1 as int));
    lemma_be_bits_tail(c, z);
    lemma_be_bits_val(c, z);
}

/// Reading `se(v)` where the writer put the code word of `v` gives back `v`.
pub proof fn lemma_se_round_trip(b: Seq<bool>, pos: int, v: int)
    requires
        i32::MIN < v <= i32::MAX,
        0 <= pos,
        pos + ue_code(se_index(v)).len() <= b.len(),
        b.subrange(pos, pos + ue_code(se_index(v)).len()) == ue_code(se_index(v)),
    ensures
        ue_ok(b, pos),
        se_of(ue_value(b, pos)) == v,
        ue_next(b, pos) == pos + ue_code(se_index(v)).len(),
{
    lemma_ue_round_trip(b, pos, se_index(v));
}

/// Reading `u(n)` where the writer put the low `n` bits of `v` gives back `v`.
pub proof fn lemma_u_round_trip(b: Seq<bool>, pos: int, v: nat, n: nat)
    requires
        v < two_to(n),
        0 <= pos,
        pos + n <= b.len(),
        b.subrange(pos, pos + n) == be_bits(v, n),
    ensures
        seq_val(b.subrange(pos, pos + n)) == v,
{
    lemma_be_bits_round_trip(v, n);
}


/// Setting bit `k` of a byte whose bit `k` is clear changes only that bit.
proof fn lemma_set_bit(b: u8, x: u8, k: u8, j: u8)
    requires
        x <= 1,
        k < 8,
        j < 8,
        (b >> (7 - k) as u8) & 1u8 == 0u8,
    ensures
        ((b | (x << (7 - k) as u8)) >> (7 - j) as u8) & 1u8 == if j == k {
            x
        } else {
            (b >> (7 - j) as u8) & 1u8
        },
{
    assert(((b | (x << (7 - k) as u8)) >> (7 - j) as u8) & 1u8 == if j == k {
        x
    } else {
        (b >> (7 - j) as u8) & 1u8
    }) by (bit_vector)
        requires
            x <= 1,
            k < 8,
            j < 8,
            (b >> (7 - k) as u8) & 1u8 == 0u8,
    ;
}

/// The bit view after setting bit `k` of byte `idx`.
proof fn lemma_bits_set(old_bytes: Seq<u8>, idx: int, k: u8, x: u8, new_bytes: Seq<u8>)
    requires
        0 <= idx < old_bytes.len(),
        k < 8,
        x <= 1,
        !byte_bit(old_bytes[idx], k as int),
        new_bytes == old_bytes.update(idx, old_bytes[idx] | (x << (7 - k) as u8)),
    ensures
        bits_of(new_bytes).len() == bits_of(old_bytes).len(),
        forall|j: int|
            0 <= j < bits_of(old_bytes).len() ==> bits_of(new_bytes)[j] == if j == idx * 8 + k {
                x == 1
            } else {
                bits_of(old_bytes)[j]
            },
{
    let ob = old_bytes[idx];
    let nb = new_bytes[idx];
    lemma_bit_u8(ob, (7 - k) as u8);
    assert forall|j: int|
        0 <= j < bits_of(old_bytes).len() implies bits_of(new_bytes)[j] == if j == idx * 8 + k {
        x == 1
    } else {
        bits_of(old_bytes)[j]
    } by {
        if j / 8 == idx {
            let jj = (j % 8) as u8;
            lemma_set_bit(ob, x, k, jj);
            lemma_bit_u8(ob, (7 - jj) as u8);
            lemma_bit_u8(nb, (7 - jj) as u8);
        }
    }
}

/// Writes bits MSB-first: the encoder side of [`BitReader`].
#[derive(Debug)]
pub struct BitWriter {
    /// The bytes written so far; the last one is padded with zero bits.
    pub bytes: Vec<u8>,
    nbits: usize,
}

impl BitWriter {
    /// The bits written so far.
    pub closed spec fn written(&self) -> Seq<bool> {
        bits_of(self.bytes@).subrange(0, self.nbits as int)
    }

    /// The byte buffer holds exactly the bits written plus zero padding.
    pub closed spec fn wf(&self) -> bool {
        &&& self.bytes@.len() == (self.nbits + 7) / 8
        &&& self.nbits <= self.bytes@.len() * 8
        &&& forall|i: int| self.nbits <= i < bits_of(self.bytes@).len() ==> !bits_of(self.bytes@)[i]
    }

    /// The byte buffer.
    pub closed spec fn spec_bytes(&self) -> Seq<u8> {
        self.bytes@
    }

    /// The written bits are the first bits of the byte buffer, and nothing
    /// but zero bits follows them.
    pub proof fn lemma_bytes(&self)
        requires
            self.wf(),
        ensures
            bits_of(self.spec_bytes()).len() >= self.written().len(),
            bits_of(self.spec_bytes()).subrange(0, self.written().len() as int) == self.written(),
            bits_of(self.spec_bytes()).len() < self.written().len() + 8,
            forall|i: int|
                self.written().len() <= i < bits_of(self.spec_bytes()).len() ==> !bits_of(
                    self.spec_bytes(),
                )[i],
    {
    }

    /// An empty writer.
    pub fn new() -> (r: BitWriter)
        ensures
            r.wf(),
            r.written() == Seq::<bool>::empty(),
    {
        let r = BitWriter { bytes: Vec::new(), nbits: 0 };
        assert(r.written() =~= Seq::<bool>::empty());
        r
    }

    /// Appends the low `n` bits of `v`.
    pub fn put(&mut self, v: u32, n: u32)
        requires
            old(self).wf(),
            n <= 32,
            old(self).written().len() + n + 8 <= usize::MAX,
        ensures
            final(self).wf(),
            final(self).written() == old(self).written() + be_bits(v as nat, n as nat),
    {
        let ghost start = self.written();
        let ghost code = be_bits(v as nat, n as nat);
        let mut i = n;
        while i > 0
            invariant
                self.wf(),
                i <= n <= 32,
                self.nbits == start.len() + (n - i),
                start.len() + n + 8 <= usize::MAX,
                self.written() == start + code.subrange(0, (n - i) as int),
                start == old(self).written(),
                code == be_bits(v as nat, n as nat),
            decreases i,
        {
            i -= 1;
            let ghost before = self.written();
            if self.nbits % 8 == 0 {
                let ghost ob = self.bytes@;
                self.bytes.push(0);
                proof {
                    assert forall|j: int| 0 <= j < bits_of(ob).len() implies bits_of(self.bytes@)[j]
                        == bits_of(ob)[j] by {
                        assert(self.bytes@[j / 8] == ob[j / 8]);
                    }
                    assert forall|j: int|
                        bits_of(ob).len() <= j < bits_of(self.bytes@).len() implies !bits_of(
                        self.bytes@,
                    )[j] by {
                        assert(self.bytes@[j / 8] == 0);
                        lemma_two_to_pos((7 - j % 8) as nat);
                    }
                    assert(self.written() =~= before);
                }
            }
            let bit = ((v >> i) & 1) as u8;
            proof {
                lemma_bit_u32(v, i);
            }
            let idx = self.nbits / 8;
            let k = (self.nbits % 8) as u8;
            let ob = self.bytes[idx];
            let ghost old_bytes = self.bytes@;
            let nb = ob | (bit << (7 - k));
            self.bytes.set(idx, nb);
            proof {
                assert(bits_of(old_bytes)[self.nbits as int] == byte_bit(ob, k as int));
                lemma_bits_set(old_bytes, idx as int, k, bit, self.bytes@);
                assert(code[(n - 1 - i) as int] == ((v as nat / two_to(i as nat)) % 2 == 1));
            }
            self.nbits += 1;
            proof {
                assert(self.written() =~= before.push(code[(n - 1 - i) as int]));
                assert(code.subrange(0, (n - i) as int) =~= code.subrange(0, (n - i - 1) as int).push(
                    code[(n - 1 - i) as int],
                ));
            }
        }
        proof {
            assert(code.subrange(0, n as int) =~= code);
        }
    }

    /// Appends an unsigned Exp-Golomb code.
    pub fn ue(&mut self, v: u32)
        requires
            old(self).wf(),
            v < u32::MAX,
            old(self).written().len() + 80 <= usize::MAX,
        ensures
            final(self).wf(),
            final(self).written() == old(self).written() + ue_code(v as nat),
    {
        let c = v + 1;
        let lz = c.leading_zeros();
        proof {
            vstd::std_specs::bits::axiom_u32_leading_zeros(c);
        }
        let n = 32 - lz;
        proof {
            let z = (n - 1) as u32;
            lemma_bit_u32(c, z);
            lemma_two_to_pos(z as nat);
            if lz > 0 {
                lemma_shr_u32(c, n);
                lemma_two_to_pos(n as nat);
                vstd::arithmetic::div_mod::lemma_fundamental_div_mod(c as int, two_to(n as nat) as int);
                vstd::arithmetic::div_mod::lemma_mod_pos_bound(c as int, two_to(n as nat) as int);
            } else {
                lemma_two_to_small();
            }
            if c < two_to(z as nat) {
                vstd::arithmetic::div_mod::lemma_basic_div(c as int, two_to(z as nat) as int);
            }
            lemma_bit_len_unique(c as nat, n as nat);
            assert(be_bits(0, z as nat) =~= zero_bits(z as nat)) by {
                assert forall|i: int| 0 <= i < z implies !#[trigger] be_bits(0, z as nat)[i] by {
                    lemma_two_to_pos((z - 1 - i) as nat);
                }
            }
        }
        self.put(0, n - 1);
        self.put(c, n);
        proof {
            let (a, z, cc) = (old(self).written(), zero_bits((n - 1) as nat), be_bits(c as nat, n as nat));
            assert(a + z + cc =~= a + (z + cc));
        }
    }

    /// Appends a signed Exp-Golomb code.
    pub fn se(&mut self, v: i32)
        requires
            old(self).wf(),
            v > i32::MIN,
            old(self).written().len() + 80 <= usize::MAX,
        ensures
            final(self).wf(),
            final(self).written() == old(self).written() + ue_code(se_index(v as int)),
    {
        let k = if v > 0 {
            (v as u32) * 2 - 1
        } else {
            ((-v) as u32) * 2
        };
        self.ue(k);
    }

    /// Appends the RBSP trailing bits: a one, then zeros to the next byte
    /// boundary.
    #[verifier::spinoff_prover]
    #[verifier::rlimit(40)]
    pub fn rbsp_trailing(&mut self)
        requires
            old(self).wf(),
            old(self).written().len() + 80 <= usize::MAX,
        ensures
            final(self).wf(),
            final(self).written().len() % 8 == 0,
            final(self).written().len() <= old(self).written().len() + 8,
            final(self).written() == old(self).written() + seq![true] + zero_bits(
                (final(self).written().len() - old(self).written().len() - 1) as nat,
            ),
    {
        let ghost start = self.written();
        self.put(1, 1);
        proof {
            lemma_two_to_small();
            assert(1nat / 1nat == 1nat);
            assert(be_bits(1, 1) =~= seq![true]);
            assert(self.written().len() == self.nbits);
        }
        while self.nbits % 8 != 0
            invariant
                self.wf(),
                start.len() + 1 <= self.nbits <= start.len() + 8,
                start.len() + 80 <= usize::MAX,
                self.written() == start + seq![true] + zero_bits((self.nbits - start.len() - 1) as nat),
                start.len() % 8 == 0 ==> self.nbits <= start.len() + 8,
                self.nbits <= (start.len() / 8) * 8 + 8,
            decreases start.len() + 8 - self.nbits,
        {
            let ghost before = self.written();
            let ghost k = (self.nbits - start.len() - 1) as nat;
            self.put(0, 1);
            proof {
                lemma_two_to_small();
                assert(0nat / 1nat == 0nat);
                assert(be_bits(0, 1) =~= seq![false]);
                assert(zero_bits(k + 1) =~= zero_bits(k).push(false));
                assert(self.written().len() == self.nbits);
                assert(self.written() =~= start + seq![true] + zero_bits(k + 1));
            }
        }
    }

    /// Number of bits written so far.
    pub fn len_bits(&self) -> (r: usize)
        requires
            self.wf(),
        ensures
            r == self.written().len(),
    {
        self.nbits
    }
}

impl Default for BitWriter {
    fn default() -> (r: BitWriter)
        ensures
            r.wf(),
            r.written() == Seq::<bool>::empty(),
    {
        BitWriter::new()
    }
}


/// The bits a reader over a writer's bytes sees from `p` are the written
/// ones, as far as the writer wrote.
proof fn lemma_reader_sees_written(w: BitWriter, r: BitReader, p: int, n: int)
    requires
        w.wf(),
        r.bits() == bits_of(w.spec_bytes()),
        0 <= p,
        0 <= n,
        p + n <= w.written().len(),
    ensures
        p + n <= r.bits().len(),
        r.bits().subrange(p, p + n) == w.written().subrange(p, p + n),
{
    w.lemma_bytes();
    let b = r.bits();
    let wr = w.written();
    let bs = b.subrange(p, p + n);
    let ws = wr.subrange(p, p + n);
    assert forall|k: int| 0 <= k < n implies #[trigger] bs[k] == ws[k] by {
        assert(b.subrange(0, wr.len() as int)[p + k] == b[p + k]);
    }
    assert(bs =~= ws);
}

/// A field written with `BitWriter::put` is read back by `BitReader::u`: a
/// reader over the writer's bytes, positioned at the field's first bit,
/// finds the `n` bits there and their value is `v`.
pub proof fn lemma_put_then_u(w: BitWriter, r: BitReader, v: nat, n: nat)
    requires
        w.wf(),
        r.wf(),
        r.bits() == bits_of(w.spec_bytes()),
        0 < n <= 32,
        v < two_to(n),
        r.spec_pos() + n <= w.written().len(),
        w.written().subrange(r.spec_pos(), r.spec_pos() + n) == be_bits(v, n),
    ensures
        r.spec_pos() + n <= r.bits().len(),
        seq_val(r.bits().subrange(r.spec_pos(), r.spec_pos() + n)) == v,
{
    lemma_reader_sees_written(w, r, r.spec_pos(), n as int);
    lemma_u_round_trip(r.bits(), r.spec_pos(), v, n);
}

/// A code written with `BitWriter::ue` is read back by `BitReader::ue`, which
/// ends exactly after it.
pub proof fn lemma_ue_then_ue(w: BitWriter, r: BitReader, v: nat)
    requires
        w.wf(),
        r.wf(),
        r.bits() == bits_of(w.spec_bytes()),
        v < u32::MAX,
        r.spec_pos() + ue_code(v).len() <= w.written().len(),
        w.written().subrange(r.spec_pos(), r.spec_pos() + ue_code(v).len()) == ue_code(v),
    ensures
        ue_ok(r.bits(), r.spec_pos()),
        ue_value(r.bits(), r.spec_pos()) == v,
        ue_next(r.bits(), r.spec_pos()) == r.spec_pos() + ue_code(v).len(),
{
    lemma_reader_sees_written(w, r, r.spec_pos(), ue_code(v).len() as int);
    lemma_ue_round_trip(r.bits(), r.spec_pos(), v);
}

/// A code written with `BitWriter::se` is read back by `BitReader::se`: the
/// code number maps back to `v`, and the read ends exactly after the code.
pub proof fn lemma_se_then_se(w: BitWriter, r: BitReader, v: int)
    requires
        w.wf(),
        r.wf(),
        r.bits() == bits_of(w.spec_bytes()),
        i32::MIN < v <= i32::MAX,
        r.spec_pos() + ue_code(se_index(v)).len() <= w.written().len(),
        w.written().subrange(r.spec_pos(), r.spec_pos() + ue_code(se_index(v)).len()) == ue_code(se_index(v)),
    ensures
        ue_ok(r.bits(), r.spec_pos()),
        se_of(ue_value(r.bits(), r.spec_pos())) == v,
        ue_next(r.bits(), r.spec_pos()) == r.spec_pos() + ue_code(se_index(v)).len(),
{
    lemma_reader_sees_written(w, r, r.spec_pos(), ue_code(se_index(v)).len() as int);
    lemma_se_round_trip(r.bits(), r.spec_pos(), v);
}


/// The bits of fixed-width fields `(value, width)` written one after the
/// other.
pub open spec fn fields_bits(fs: Seq<(nat, nat)>) -> Seq<bool>
    decreases fs.len(),
{
    if fs.len() == 0 {
        Seq::empty()
    } else {
        be_bits(fs[0].0, fs[0].1) + fields_bits(fs.drop_first())
    }
}

/// Every field is 1 to 32 bits wide and its value fits its width.
pub open spec fn fields_ok(fs: Seq<(nat, nat)>) -> bool {
    forall|i: int| 0 <= i < fs.len() ==> 0 < (#[trigger] fs[i]).1 <= 32 && fs[i].0 < two_to(fs[i].1)
}

/// Successive `u(n)` reads from `pos` of `b` find each field in turn: the
/// bits are there and their value is the field's.
pub open spec fn reads_fields(b: Seq<bool>, pos: int, fs: Seq<(nat, nat)>) -> bool
    decreases fs.len(),
{
    fs.len() == 0 || (pos + fs[0].1 <= b.len() && seq_val(b.subrange(pos, pos + fs[0].1)) == fs[0].0 && reads_fields(
        b,
        pos + fs[0].1,
        fs.drop_first(),
    ))
}

/// Fields written with successive `BitWriter::put` calls are read back by
/// successive `BitReader::u` calls of the same widths: a reader over the
/// writer's bytes, positioned at the first field, finds every field's value
/// in order.
pub proof fn lemma_puts_then_us(w: BitWriter, r: BitReader, fs: Seq<(nat, nat)>)
    requires
        w.wf(),
        r.wf(),
        r.bits() == bits_of(w.spec_bytes()),
        fields_ok(fs),
        r.spec_pos() + fields_bits(fs).len() <= w.written().len(),
        w.written().subrange(r.spec_pos(), r.spec_pos() + fields_bits(fs).len()) == fields_bits(fs),
    ensures
        reads_fields(r.bits(), r.spec_pos(), fs),
{
    lemma_fields_from(w, r, r.spec_pos(), fs);
}

proof fn lemma_fields_from(w: BitWriter, r: BitReader, p: int, fs: Seq<(nat, nat)>)
    requires
        w.wf(),
        r.bits() == bits_of(w.spec_bytes()),
        fields_ok(fs),
        0 <= p,
        p + fields_bits(fs).len() <= w.written().len(),
        w.written().subrange(p, p + fields_bits(fs).len()) == fields_bits(fs),
    ensures
        reads_fields(r.bits(), p, fs),
    decreases fs.len(),
{
    if fs.len() > 0 {
        let (v, n) = fs[0];
        assert(0 < fs[0].1 <= 32);
        let rest = fs.drop_first();
        let head = be_bits(v, n);
        let all = fields_bits(fs);
        assert(all == head + fields_bits(rest));
        let wr = w.written();
        assert(wr.subrange(p, p + n) =~= all.subrange(0, n as int));
        assert(all.subrange(0, n as int) =~= head);
        lemma_reader_sees_written(w, r, p, n as int);
        lemma_u_round_trip(r.bits(), p, v, n);
        assert forall|i: int| 0 <= i < rest.len() implies 0 < (#[trigger] rest[i]).1 <= 32 && rest[i].0 < two_to(rest[i].1) by {
            assert(rest[i] == fs[i + 1]);
        }
        assert(wr.subrange(p + n, p + n + fields_bits(rest).len()) =~= all.subrange(n as int, all.len() as int));
        assert(all.subrange(n as int, all.len() as int) =~= fields_bits(rest));
        lemma_fields_from(w, r, p + n, rest);
    }
}

/// The bits of `se(v)` codes written one after the other.
pub open spec fn ses_bits(vs: Seq<int>) -> Seq<bool>
    decreases vs.len(),
{
    if vs.len() == 0 {
        Seq::empty()
    } else {
        ue_code(se_index(vs[0])) + ses_bits(vs.drop_first())
    }
}

/// Successive `se(v)` reads from `pos` of `b` decode and give `vs` in turn.
pub open spec fn reads_ses(b: Seq<bool>, pos: int, vs: Seq<int>) -> bool
    decreases vs.len(),
{
    vs.len() == 0 || (ue_ok(b, pos) && se_of(ue_value(b, pos)) == vs[0] && reads_ses(b, ue_next(b, pos), vs.drop_first()))
}

/// Values written with successive `BitWriter::se` calls are read back by
/// successive `BitReader::se` calls: a reader over the writer's bytes,
/// positioned at the first code, decodes every value in order.
pub proof fn lemma_ses_then_ses(w: BitWriter, r: BitReader, vs: Seq<int>)
    requires
        w.wf(),
        r.wf(),
        r.bits() == bits_of(w.spec_bytes()),
        forall|i: int| 0 <= i < vs.len() ==> i32::MIN < #[trigger] vs[i] <= i32::MAX,
        r.spec_pos() + ses_bits(vs).len() <= w.written().len(),
        w.written().subrange(r.spec_pos(), r.spec_pos() + ses_bits(vs).len()) == ses_bits(vs),
    ensures
        reads_ses(r.bits(), r.spec_pos(), vs),
{
    lemma_ses_from(w, r, r.spec_pos(), vs);
}

proof fn lemma_ses_from(w: BitWriter, r: BitReader, p: int, vs: Seq<int>)
    requires
        w.wf(),
        r.bits() == bits_of(w.spec_bytes()),
        forall|i: int| 0 <= i < vs.len() ==> i32::MIN < #[trigger] vs[i] <= i32::MAX,
        0 <= p,
        p + ses_bits(vs).len() <= w.written().len(),
        w.written().subrange(p, p + ses_bits(vs).len()) == ses_bits(vs),
    ensures
        reads_ses(r.bits(), p, vs),
    decreases vs.len(),
{
    if vs.len() > 0 {
        let v = vs[0];
        assert(i32::MIN < vs[0] <= i32::MAX);
        let rest = vs.drop_first();
        let head = ue_code(se_index(v));
        let n = head.len() as int;
        let all = ses_bits(vs);
        assert(all == head + ses_bits(rest));
        let wr = w.written();
        assert(wr.subrange(p, p + n) =~= all.subrange(0, n));
        assert(all.subrange(0, n) =~= head);
        lemma_reader_sees_written(w, r, p, n);
        lemma_se_round_trip(r.bits(), p, v);
        assert forall|i: int| 0 <= i < rest.len() implies i32::MIN < #[trigger] rest[i] <= i32::MAX by {
            assert(rest[i] == vs[i + 1]);
        }
        assert(wr.subrange(p + n, p + n + ses_bits(rest).len()) =~= all.subrange(n, all.len() as int));
        assert(all.subrange(n, all.len() as int) =~= ses_bits(rest));
        lemma_ses_from(w, r, p + n, rest);
    }
}

} // verus!
