//! A bounds-checked big-endian cursor over a byte slice.

use vstd::prelude::*;

use crate::error::{Error, Result};

verus! {

/// The unsigned big-endian value of a byte string.
pub open spec fn be_value(s: Seq<u8>) -> nat
    decreases s.len(),
{
    if s.len() == 0 {
        0
    } else {
        be_value(s.drop_last()) * 256 + s.last() as nat
    }
}

/// A cursor that reads big-endian fields and reports running out of bytes
/// as [`Error::Truncated`], naming what was being read.
#[derive(Debug, Clone)]
pub struct Reader<'a> {
    data: &'a [u8],
    pos: usize,
}

impl<'a> Reader<'a> {
    /// The bytes being read.
    pub closed spec fn spec_data(&self) -> Seq<u8> {
        self.data@
    }

    /// The next byte to read.
    pub closed spec fn spec_pos(&self) -> int {
        self.pos as int
    }

    /// The position lies inside the data.
    pub closed spec fn wf(&self) -> bool {
        self.pos <= self.data@.len()
    }

    /// The `n` bytes from the position, when there are that many.
    pub open spec fn ahead(&self, n: int) -> Seq<u8> {
        self.spec_data().subrange(self.spec_pos(), self.spec_pos() + n)
    }

    /// A step that consumed `n` bytes, or failed without moving.
    pub open spec fn stepped(&self, old: &Self, n: int, ok: bool) -> bool {
        &&& self.wf()
        &&& self.spec_data() == old.spec_data()
        &&& ok <==> old.spec_pos() + n <= old.spec_data().len()
        &&& ok ==> self.spec_pos() == old.spec_pos() + n
        &&& !ok ==> self.spec_pos() == old.spec_pos()
    }

    /// A reader positioned at the first byte of `data`.
    pub fn new(data: &'a [u8]) -> (r: Reader<'a>)
        ensures
            r.wf(),
            r.spec_data() == data@,
            r.spec_pos() == 0,
    {
        Reader { data, pos: 0 }
    }

    /// Bytes consumed so far.
    pub fn position(&self) -> (r: usize)
        ensures
            r == self.spec_pos(),
    {
        self.pos
    }

    /// Bytes left to read.
    pub fn remaining(&self) -> (r: usize)
        requires
            self.wf(),
        ensures
            r == self.spec_data().len() - self.spec_pos(),
    {
        self.data.len() - self.pos
    }

    /// The next `n` bytes.
    pub fn take(&mut self, n: usize, what: &'static str) -> (r: Result<&'a [u8]>)
        requires
            old(self).wf(),
        ensures
            final(self).stepped(old(self), n as int, r is Ok),
            r matches Ok(b) ==> b@ == old(self).ahead(n as int),
            r matches Err(e) ==> e == Error::Truncated(what),
    {
        if n > self.data.len() - self.pos {
            return Err(Error::Truncated(what));
        }
        let s = &self.data[self.pos..self.pos + n];
        self.pos += n;
        Ok(s)
    }

    /// One byte.
    pub fn u8(&mut self, what: &'static str) -> (r: Result<u8>)
        requires
            old(self).wf(),
        ensures
            final(self).stepped(old(self), 1, r is Ok),
            r matches Ok(v) ==> v == old(self).spec_data()[old(self).spec_pos()],
            r matches Err(e) ==> e == Error::Truncated(what),
    {
        if self.pos >= self.data.len() {
            return Err(Error::Truncated(what));
        }
        let v = self.data[self.pos];
        self.pos += 1;
        Ok(v)
    }

    /// A big-endian `u16`.
    pub fn u16(&mut self, what: &'static str) -> (r: Result<u16>)
        requires
            old(self).wf(),
        ensures
            final(self).stepped(old(self), 2, r is Ok),
            r matches Ok(v) ==> v as nat == be_value(old(self).ahead(2)),
            r matches Err(e) ==> e == Error::Truncated(what),
    {
        let b = match self.take(2, what) {
            Ok(b) => b,
            Err(e) => {
                return Err(e);
            },
        };
        proof {
            reveal_with_fuel(be_value, 3);
            assert(b@.drop_last().drop_last() =~= Seq::<u8>::empty());
        }
        Ok(b[0] as u16 * 256 + b[1] as u16)
    }

    /// A big-endian `u32`.
    pub fn u32(&mut self, what: &'static str) -> (r: Result<u32>)
        requires
            old(self).wf(),
        ensures
            final(self).stepped(old(self), 4, r is Ok),
            r matches Ok(v) ==> v as nat == be_value(old(self).ahead(4)),
            r matches Err(e) ==> e == Error::Truncated(what),
    {
        let b = match self.take(4, what) {
            Ok(b) => b,
            Err(e) => {
                return Err(e);
            },
        };
        proof {
            reveal_with_fuel(be_value, 5);
            assert(b@.drop_last().drop_last().drop_last().drop_last() =~= Seq::<u8>::empty());
        }
        Ok(((b[0] as u32 * 256 + b[1] as u32) * 256 + b[2] as u32) * 256 + b[3] as u32)
    }

    /// A big-endian `u64`.
    pub fn u64(&mut self, what: &'static str) -> (r: Result<u64>)
        requires
            old(self).wf(),
        ensures
            final(self).stepped(old(self), 8, r is Ok),
            r matches Ok(v) ==> v as nat == be_value(old(self).ahead(8)),
            r matches Err(e) ==> e == Error::Truncated(what),
    {
        let b = match self.take(8, what) {
            Ok(b) => b,
            Err(e) => {
                return Err(e);
            },
        };
        let mut v: u64 = 0;
        let mut i: usize = 0;
        while i < 8
            invariant
                b@.len() == 8,
                i <= 8,
                v as nat == be_value(b@.subrange(0, i as int)),
                v < crate::hevc::bitmath::two_to((8 * i) as nat),
            decreases 8 - i,
        {
            proof {
                assert(b@.subrange(0, i + 1).drop_last() =~= b@.subrange(0, i as int));
                crate::hevc::bitmath::lemma_two_to_monotone((8 * i + 8) as nat, 64);
                crate::hevc::bitmath::lemma_two_to_adds((8 * i) as nat, 8);
                crate::hevc::bitmath::lemma_two_to_small();
                crate::hevc::bitmath::lemma_two_to_adds(32, 32);
                assert(crate::hevc::bitmath::two_to(64) == 0x1_0000_0000_0000_0000);
            }
            v = v * 256 + b[i] as u64;
            i += 1;
        }
        proof {
            assert(b@.subrange(0, 8) =~= b@);
        }
        Ok(v)
    }

    /// A four-character code.
    pub fn fourcc(&mut self, what: &'static str) -> (r: Result<[u8; 4]>)
        requires
            old(self).wf(),
        ensures
            final(self).stepped(old(self), 4, r is Ok),
            r matches Ok(c) ==> c@ == old(self).ahead(4),
            r matches Err(e) ==> e == Error::Truncated(what),
    {
        let b = match self.take(4, what) {
            Ok(b) => b,
            Err(e) => {
                return Err(e);
            },
        };
        let c = [b[0], b[1], b[2], b[3]];
        assert(c@ =~= b@);
        Ok(c)
    }

    /// The version byte and 24-bit flags that open a `FullBox`.
    pub fn full_box(&mut self, what: &'static str) -> (r: Result<(u8, u32)>)
        requires
            old(self).wf(),
        ensures
            final(self).stepped(old(self), 4, r is Ok),
            r matches Ok((version, flags)) ==> {
                &&& version == old(self).ahead(4)[0]
                &&& flags as nat == be_value(old(self).ahead(4).subrange(1, 4))
            },
            r matches Err(e) ==> e == Error::Truncated(what),
    {
        let b = match self.take(4, what) {
            Ok(b) => b,
            Err(e) => {
                return Err(e);
            },
        };
        proof {
            reveal_with_fuel(be_value, 4);
            let t = b@.subrange(1, 4);
            assert(t.drop_last().drop_last().drop_last() =~= Seq::<u8>::empty());
        }
        Ok((b[0], (b[1] as u32 * 256 + b[2] as u32) * 256 + b[3] as u32))
    }
}

} // verus!
