//! Intra prediction (clause 8.4.4.2).

pub mod pred;
pub mod smooth;

pub use pred::predict;
pub use smooth::filter_refs;

use vstd::prelude::*;


verus! {

/// Neighbouring reference samples for one transform block.
///
/// Storage follows the usual flattened convention: index `2n` holds the corner
/// sample `p[-1][-1]`, indices `2n+1 ..= 4n` hold `p[0][-1] ..= p[2n-1][-1]`
/// and indices `2n-1 ..= 0` hold `p[-1][0] ..= p[-1][2n-1]`.
#[derive(Clone, Debug)]
pub struct Refs {
    /// Flattened reference samples; only `4 * n + 1` entries are meaningful.
    pub buf: [u16; 129],
    /// Transform block size in samples, one of 4, 8, 16 or 32.
    pub n: usize,
}

impl Refs {
    /// The index of `p[-1][y]`.
    pub open spec fn left_index(&self, y: int) -> int {
        2 * self.n - 1 - y
    }

    /// The index of `p[x][-1]`.
    pub open spec fn top_index(&self, x: int) -> int {
        2 * self.n + 1 + x
    }

    /// `p[-1][y]`.
    pub open spec fn left_of(&self, y: int) -> u16 {
        self.buf@[self.left_index(y)]
    }

    /// `p[x][-1]`.
    pub open spec fn top_of(&self, x: int) -> u16 {
        self.buf@[self.top_index(x)]
    }

    /// An all-zero reference set for a block of `n` samples a side.
    pub fn new(n: usize) -> (r: Refs)
        ensures
            r.n == n,
            forall|i: int| 0 <= i < 129 ==> #[trigger] r.buf@[i] == 0,
    {
        Refs { buf: [0u16; 129], n }
    }

    /// `p[-1][y]` for `y` in `-1 ..= 2n-1`.
    pub fn left(&self, y: isize) -> (r: u16)
        requires
            self.n <= 64,
            0 <= self.left_index(y as int) < 129,
        ensures
            r == self.left_of(y as int),
    {
        self.buf[(2 * self.n as isize - 1 - y) as usize]
    }

    /// `p[x][-1]` for `x` in `-1 ..= 2n-1`.
    pub fn top(&self, x: isize) -> (r: u16)
        requires
            self.n <= 64,
            0 <= self.top_index(x as int) < 129,
        ensures
            r == self.top_of(x as int),
    {
        self.buf[(2 * self.n as isize + 1 + x) as usize]
    }

    /// Writes `p[-1][y]`.
    pub fn set_left(&mut self, y: isize, v: u16)
        requires
            old(self).n <= 64,
            0 <= old(self).left_index(y as int) < 129,
        ensures
            final(self).n == old(self).n,
            final(self).buf@ == old(self).buf@.update(old(self).left_index(y as int), v),
    {
        let i = (2 * self.n as isize - 1 - y) as usize;
        self.buf[i] = v;
    }

    /// Writes `p[x][-1]`.
    pub fn set_top(&mut self, x: isize, v: u16)
        requires
            old(self).n <= 64,
            0 <= old(self).top_index(x as int) < 129,
        ensures
            final(self).n == old(self).n,
            final(self).buf@ == old(self).buf@.update(old(self).top_index(x as int), v),
    {
        let i = (2 * self.n as isize + 1 + x) as usize;
        self.buf[i] = v;
    }
}

} // verus!
