//! Which slot of a band's cache of expanded chroma rows a chroma row goes
//! to.
//!
//! In 4:2:0 every chroma row feeds two luma rows, and every luma row blends
//! two chroma rows, so three slots are enough to expand each chroma row
//! once per band.

use vstd::prelude::*;

verus! {

/// How many expanded chroma rows a band keeps.
pub const SLOTS: usize = 3;

/// How far a slot's row is from row `r`: as far as possible when the slot
/// is empty.
pub open spec fn slot_distance(key: Option<usize>, r: usize) -> int {
    match key {
        None => usize::MAX as int,
        Some(k) => if k >= r {
            k - r
        } else {
            r - k
        },
    }
}

/// The slot for chroma row `r`, given the row each slot holds: the first
/// slot already holding `r`, with `true`; else, with `false`, the slot to
/// evict: an empty one, or the one whose row is farthest from `r`, the last
/// of them on a tie.
pub fn pick_slot(keys: &[Option<usize>; SLOTS], r: usize) -> (res: (usize, bool))
    ensures
        res.0 < SLOTS,
        res.1 <==> exists|s: int| 0 <= s < SLOTS && keys@[s] == Some(r),
        res.1 ==> keys@[res.0 as int] == Some(r) && forall|s: int| 0 <= s < res.0 ==> keys@[s] != Some(r),
        !res.1 ==> forall|s: int|
            0 <= s < SLOTS ==> slot_distance(#[trigger] keys@[s], r) <= slot_distance(keys@[res.0 as int], r) && (s
                > res.0 ==> slot_distance(keys@[s], r) < slot_distance(keys@[res.0 as int], r)),
{
    let mut s: usize = 0;
    while s < SLOTS
        invariant
            s <= SLOTS,
            forall|t: int| 0 <= t < s ==> keys@[t] != Some(r),
        decreases SLOTS - s,
    {
        if keys[s] == Some(r) {
            return (s, true);
        }
        s += 1;
    }
    let mut best: usize = 0;
    let mut best_d: usize = distance(keys[0], r);
    let mut t: usize = 1;
    while t < SLOTS
        invariant
            1 <= t <= SLOTS,
            best < t,
            best_d as int == slot_distance(keys@[best as int], r),
            forall|u: int| 0 <= u < t ==> slot_distance(#[trigger] keys@[u], r) <= best_d && (u > best ==> slot_distance(
                keys@[u],
                r,
            ) < best_d),
        decreases SLOTS - t,
    {
        let d: usize = distance(keys[t], r);
        if d >= best_d {
            best = t;
            best_d = d;
        }
        t += 1;
    }
    (best, false)
}

/// `slot_distance` of a slot's row from `r`.
fn distance(key: Option<usize>, r: usize) -> (d: usize)
    ensures
        d as int == slot_distance(key, r),
{
    match key {
        None => usize::MAX,
        Some(k) => if k >= r {
            k - r
        } else {
            r - k
        },
    }
}

} // verus!
