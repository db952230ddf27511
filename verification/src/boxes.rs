//! ISOBMFF box traversal (ISO/IEC 14496-12).
//!
//! [`BoxIter`] walks a byte slice as a sequence of boxes. It cannot run off
//! the end of its slice, and it refuses a box whose declared size does not fit
//! inside its parent instead of trusting the file and allocating.

use vstd::prelude::*;

use crate::error::{Error, Result};
use crate::reader::{Reader, be_value};

verus! {

/// The largest box payload this crate will look at, 1 GiB.
///
/// A HEIF still image has no legitimate reason to carry a single box larger
/// than this, and refusing early keeps a hostile 64-bit `largesize` from
/// becoming an allocation.
pub const MAX_BOX_SIZE: u64 = 0x4000_0000;

/// The 32-bit size field of the box at `s`.
pub open spec fn size_field(d: Seq<u8>, s: int) -> nat {
    be_value(d.subrange(s, s + 4))
}

/// The type field of the box at `s`.
pub open spec fn type_field(d: Seq<u8>, s: int) -> Seq<u8> {
    d.subrange(s + 4, s + 8)
}

/// The box at `s` is a `uuid` box.
pub open spec fn is_uuid(d: Seq<u8>, s: int) -> bool {
    type_field(d, s) == seq![0x75u8, 0x75u8, 0x69u8, 0x64u8]
}

/// Length of the size and type fields, with the 64-bit size when present.
pub open spec fn size_len(d: Seq<u8>, s: int) -> int {
    if size_field(d, s) == 1 {
        16
    } else {
        8
    }
}

/// Length of the whole header, extended type included.
pub open spec fn header_len(d: Seq<u8>, s: int) -> int {
    size_len(d, s) + if is_uuid(d, s) {
        16int
    } else {
        0
    }
}

/// The declared size of the box at `s`: the 64-bit size when the 32-bit one
/// is 1, the rest of the data when it is 0.
pub open spec fn box_total(d: Seq<u8>, s: int) -> int {
    let n = size_field(d, s);
    if n == 1 {
        be_value(d.subrange(s + 8, s + 16)) as int
    } else if n == 0 {
        d.len() - s
    } else {
        n as int
    }
}

/// Every header field of the box at `s` lies inside the data.
pub open spec fn header_readable(d: Seq<u8>, s: int) -> bool {
    &&& 0 <= s
    &&& s + 8 <= d.len()
    &&& s + header_len(d, s) <= d.len()
}

/// The box at `s` is well formed: its header is readable, its size covers
/// its header, is at most [`MAX_BOX_SIZE`], and fits in the data.
pub open spec fn box_ok(d: Seq<u8>, s: int) -> bool {
    &&& header_readable(d, s)
    &&& box_total(d, s) >= header_len(d, s)
    &&& box_total(d, s) <= MAX_BOX_SIZE
    &&& s + box_total(d, s) <= d.len()
}

/// The size of the box at `s` is above [`MAX_BOX_SIZE`], with its header
/// readable and covered by that size.
pub open spec fn box_too_large(d: Seq<u8>, s: int) -> bool {
    header_readable(d, s) && box_total(d, s) >= header_len(d, s) && box_total(d, s) > MAX_BOX_SIZE
}

/// The error for a box at `s` that is not well formed and not too large:
/// the field the data ends in (the size, the type, the 64-bit size, the
/// `uuid`), a size smaller than the header, or a body that runs past the
/// end of the data.
pub open spec fn box_error(d: Seq<u8>, s: int) -> Error {
    if s + 4 > d.len() {
        Error::Truncated("box size")
    } else if s + 8 > d.len() {
        Error::Truncated("box type")
    } else if size_field(d, s) == 1 && s + 16 > d.len() {
        Error::Truncated("box largesize")
    } else if s + header_len(d, s) > d.len() {
        Error::Truncated("uuid")
    } else if box_total(d, s) < header_len(d, s) {
        Error::Malformed("box size is smaller than its own header")
    } else {
        Error::Truncated("box body")
    }
}

/// One box: its type, its payload, and the `uuid` if the type was `uuid`.
#[derive(Debug, Clone, Copy)]
pub struct BoxHeader<'a> {
    /// The four-character box type.
    pub boxtype: [u8; 4],
    /// The box contents, with the header (and any `uuid`) already removed.
    pub payload: &'a [u8],
    /// The extended type, present only when `boxtype` is `uuid`.
    pub uuid: Option<[u8; 16]>,
    /// Offset of the box header from the start of the slice being walked.
    pub offset: usize,
}

impl<'a> BoxHeader<'a> {
    /// This header is the box at `s` of `d`.
    pub open spec fn describes(&self, d: Seq<u8>, s: int) -> bool {
        &&& box_ok(d, s)
        &&& self.offset == s
        &&& self.boxtype@ == type_field(d, s)
        &&& self.payload@ == d.subrange(s + header_len(d, s), s + box_total(d, s))
        &&& if is_uuid(d, s) {
            self.uuid matches Some(u) && u@ == d.subrange(s + size_len(d, s), s + size_len(d, s) + 16)
        } else {
            self.uuid is None
        }
    }

    /// True when this box has the given four-character type.
    pub fn is(&self, code: &[u8; 4]) -> (r: bool)
        ensures
            r == (self.boxtype@ == code@),
    {
        let r = self.boxtype[0] == code[0] && self.boxtype[1] == code[1] && self.boxtype[2]
            == code[2] && self.boxtype[3] == code[3];
        proof {
            if r {
                assert(self.boxtype@ =~= code@);
            }
        }
        r
    }

    /// A reader over the payload.
    pub fn reader(&self) -> (r: Reader<'a>)
        ensures
            r.wf(),
            r.spec_data() == self.payload@,
            r.spec_pos() == 0,
    {
        Reader::new(self.payload)
    }

    /// Walk this box's payload as a sequence of child boxes.
    pub fn children(&self) -> (r: BoxIter<'a>)
        ensures
            r.spec_data() == self.payload@,
            r.spec_pos() == 0,
            !r.spec_done(),
    {
        BoxIter::new(self.payload)
    }

    /// Read the payload as a `FullBox`, returning version, flags and a reader
    /// positioned just after them.
    pub fn full_box(&self, what: &'static str) -> (r: Result<(u8, u32, Reader<'a>)>)
        ensures
            r is Ok <==> self.payload@.len() >= 4,
            r matches Err(e) ==> e == Error::Truncated(what),
            r matches Ok((version, flags, rd)) ==> {
                &&& version == self.payload@[0]
                &&& flags as nat == be_value(self.payload@.subrange(1, 4))
                &&& rd.wf()
                &&& rd.spec_data() == self.payload@
                &&& rd.spec_pos() == 4
            },
    {
        let mut r = self.reader();
        let ghost r0 = r;
        match r.full_box(what) {
            Ok((version, flags)) => {
                proof {
                    assert(r0.ahead(4).subrange(1, 4) =~= self.payload@.subrange(1, 4));
                }
                Ok((version, flags, r))
            },
            Err(e) => Err(e),
        }
    }
}

/// An iterator over the boxes in a slice.
///
/// Iteration stops at the first structural error, yielding it once.
#[derive(Debug, Clone)]
pub struct BoxIter<'a> {
    data: &'a [u8],
    pos: usize,
    done: bool,
}

/// The start of the first box of type `code` among the boxes from `s` on,
/// or `None` when the boxes end first; `Some(-1)` when a malformed box comes
/// first.
pub open spec fn find_from(d: Seq<u8>, s: int, code: Seq<u8>) -> Option<int>
    decreases d.len() - s,
{
    if s < 0 || s >= d.len() {
        None
    } else if !box_ok(d, s) {
        Some(-1)
    } else if type_field(d, s) == code {
        Some(s)
    } else if box_total(d, s) <= 0 {
        None
    } else {
        find_from(d, s + box_total(d, s), code)
    }
}

impl<'a> BoxIter<'a> {
    /// The slice being walked.
    pub closed spec fn spec_data(&self) -> Seq<u8> {
        self.data@
    }

    /// Where the next box starts.
    pub closed spec fn spec_pos(&self) -> int {
        self.pos as int
    }

    /// Iteration has ended.
    pub closed spec fn spec_done(&self) -> bool {
        self.done
    }

    /// Walk `data` as a sequence of boxes.
    pub fn new(data: &'a [u8]) -> (r: Self)
        ensures
            r.spec_data() == data@,
            r.spec_pos() == 0,
            !r.spec_done(),
    {
        BoxIter { data, pos: 0, done: false }
    }

    /// Decodes the box at the current position and moves past it.
    fn next_box(&mut self) -> (r: Result<Option<BoxHeader<'a>>>)
        requires
            old(self).spec_pos() <= old(self).spec_data().len(),
        ensures
            final(self).spec_data() == old(self).spec_data(),
            final(self).spec_done() == old(self).spec_done(),
            final(self).spec_pos() <= final(self).spec_data().len(),
            old(self).spec_pos() >= old(self).spec_data().len() ==> r matches Ok(None),
            old(self).spec_pos() < old(self).spec_data().len() ==> {
                let (d, s) = (old(self).spec_data(), old(self).spec_pos());
                &&& r is Ok <==> box_ok(d, s)
                &&& r matches Ok(Some(b)) ==> (b.describes(d, s) && final(self).spec_pos() == s
                    + box_total(d, s))
                &&& r matches Ok(None) ==> false
                &&& r matches Err(e) ==> {
                    &&& box_too_large(d, s) ==> e == Error::BoxTooLarge {
                        boxtype: e->boxtype,
                        size: box_total(d, s) as u64,
                    } && e->boxtype@ == type_field(d, s)
                    &&& !box_too_large(d, s) ==> e == box_error(d, s)
                }
            },
    {
        if self.pos >= self.data.len() {
            return Ok(None);
        }
        let start = self.pos;
        let ghost d = self.data@;
        let rest = &self.data[start..self.data.len()];
        let mut r = Reader::new(rest);
        proof {
            assert(rest@ == d.subrange(start as int, d.len() as int));
        }
        let size32 = match r.u32("box size") {
            Ok(v) => v,
            Err(e) => {
                return Err(e);
            },
        };
        proof {
            assert(r.spec_data().subrange(0, 4) =~= d.subrange(start as int, start + 4));
        }
        let boxtype = match r.fourcc("box type") {
            Ok(v) => v,
            Err(e) => {
                return Err(e);
            },
        };
        proof {
            assert(r.spec_data().subrange(4, 8) =~= d.subrange(start + 4, start + 8));
        }
        let total: u64 = if size32 == 1 {
            match r.u64("box largesize") {
                Ok(v) => {
                    proof {
                        assert(r.spec_data().subrange(8, 16) =~= d.subrange(start + 8, start + 16));
                    }
                    v
                },
                Err(e) => {
                    return Err(e);
                },
            }
        } else if size32 == 0 {
            (self.data.len() - start) as u64
        } else {
            size32 as u64
        };
        let size_len = r.position();
        let is_uuid = boxtype[0] == 0x75u8 && boxtype[1] == 0x75u8 && boxtype[2] == 0x69u8 && boxtype[3]
            == 0x64u8;
        proof {
            if is_uuid {
                assert(boxtype@ =~= seq![0x75u8, 0x75u8, 0x69u8, 0x64u8]);
            } else {
                assert(boxtype@ != seq![0x75u8, 0x75u8, 0x69u8, 0x64u8]);
            }
        }
        let uuid = if is_uuid {
            match r.take(16, "uuid") {
                Ok(b) => {
                    let mut u = [0u8;16];
                    let mut k: usize = 0;
                    while k < 16
                        invariant
                            k <= 16,
                            b@.len() == 16,
                            forall|t: int| 0 <= t < k ==> u@[t] == b@[t],
                        decreases 16 - k,
                    {
                        u[k] = b[k];
                        k += 1;
                    }
                    proof {
                        assert(u@ =~= b@);
                        assert(b@ =~= d.subrange(start + size_len, start + size_len + 16));
                    }
                    Some(u)
                },
                Err(e) => {
                    return Err(e);
                },
            }
        } else {
            None
        };
        let header_len = r.position();
        if total < header_len as u64 {
            return Err(Error::Malformed("box size is smaller than its own header"));
        }
        if total > MAX_BOX_SIZE {
            return Err(Error::BoxTooLarge { boxtype, size: total });
        }
        let total = total as usize;
        if total > self.data.len() - start {
            return Err(Error::Truncated("box body"));
        }
        let end = start + total;
        let payload = &self.data[start + header_len..end];
        self.pos = end;
        Ok(Some(BoxHeader { boxtype, payload, uuid, offset: start }))
    }

    /// The next box, or the error that ends the walk; `None` once the walk
    /// is over.
    pub fn next_item(&mut self) -> (r: Option<Result<BoxHeader<'a>>>)
        requires
            old(self).spec_pos() <= old(self).spec_data().len(),
        ensures
            final(self).spec_data() == old(self).spec_data(),
            final(self).spec_pos() <= final(self).spec_data().len(),
            old(self).spec_done() ==> r is None && final(self).spec_done(),
            !old(self).spec_done() ==> {
                let (d, s) = (old(self).spec_data(), old(self).spec_pos());
                &&& s >= d.len() ==> r is None && final(self).spec_done()
                &&& s < d.len() && box_ok(d, s) ==> (r matches Some(Ok(b)) && b.describes(d, s)
                    && final(self).spec_pos() == s + box_total(d, s) && !final(self).spec_done())
                &&& s < d.len() && !box_ok(d, s) ==> (r matches Some(Err(_))
                    && final(self).spec_done())
                &&& r matches Some(Err(e)) ==> {
                    &&& box_too_large(d, s) ==> e == Error::BoxTooLarge {
                        boxtype: e->boxtype,
                        size: box_total(d, s) as u64,
                    } && e->boxtype@ == type_field(d, s)
                    &&& !box_too_large(d, s) ==> e == box_error(d, s)
                }
            },
    {
        if self.done {
            return None;
        }
        match self.next_box() {
            Ok(Some(b)) => Some(Ok(b)),
            Ok(None) => {
                self.done = true;
                None
            },
            Err(e) => {
                self.done = true;
                Some(Err(e))
            },
        }
    }

    /// Find the first child box with the given type.
    pub fn find(self, code: &[u8; 4]) -> (r: Result<Option<BoxHeader<'a>>>)
        requires
            self.spec_pos() <= self.spec_data().len(),
        ensures
            self.spec_done() ==> r matches Ok(None),
            !self.spec_done() ==> {
                let f = find_from(self.spec_data(), self.spec_pos(), code@);
                &&& r is Err <==> f == Some(-1int)
                &&& r matches Ok(None) ==> f is None
                &&& r matches Ok(Some(b)) ==> f == Some(b.offset as int) && b.describes(
                    self.spec_data(),
                    b.offset as int,
                ) && b.boxtype@ == code@
            },
    {
        let mut it = self;
        let ghost d = it.spec_data();
        let ghost start_done = it.spec_done();
        loop
            invariant
                it.spec_data() == d,
                it.spec_pos() <= d.len(),
                start_done ==> it.spec_done(),
                !start_done && !it.spec_done() ==> find_from(d, it.spec_pos(), code@) == find_from(
                    d,
                    self.spec_pos(),
                    code@,
                ),
                !start_done && it.spec_done() ==> find_from(d, self.spec_pos(), code@) is None,
                d == self.spec_data(),
                start_done == self.spec_done(),
            decreases d.len() - it.spec_pos() + if it.spec_done() {
                0int
            } else {
                1
            },
        {
            let ghost s = it.spec_pos();
            match it.next_item() {
                None => {
                    return Ok(None);
                },
                Some(Err(e)) => {
                    return Err(e);
                },
                Some(Ok(b)) => {
                    if b.is(code) {
                        return Ok(Some(b));
                    }
                    proof {
                        assert(box_total(d, s) >= 8);
                    }
                },
            }
        }
    }

    /// Find the first child box with the given type, or report it missing.
    pub fn require(self, code: &[u8; 4], name: &'static str) -> (r: Result<BoxHeader<'a>>)
        requires
            self.spec_pos() <= self.spec_data().len(),
        ensures
            self.spec_done() ==> r == Err::<BoxHeader<'a>, Error>(Error::MissingBox(name)),
            !self.spec_done() ==> {
                let f = find_from(self.spec_data(), self.spec_pos(), code@);
                &&& r matches Err(e) ==> (f == Some(-1int) || (f is None && e == Error::MissingBox(
                    name,
                )))
                &&& f is None ==> r == Err::<BoxHeader<'a>, Error>(Error::MissingBox(name))
                &&& r matches Ok(b) ==> f == Some(b.offset as int) && b.describes(
                    self.spec_data(),
                    b.offset as int,
                ) && b.boxtype@ == code@
                &&& (f matches Some(k) && k >= 0) ==> r is Ok
            },
    {
        match self.find(code) {
            Ok(Some(b)) => Ok(b),
            Ok(None) => Err(Error::MissingBox(name)),
            Err(e) => Err(e),
        }
    }
}

} // verus!
