//! Scan orders over square blocks (clauses 6.5.3 to 6.5.5): up-right
//! diagonal, horizontal and vertical.

use vstd::prelude::*;

verus! {

/// First column on anti-diagonal `d` of an `n`x`n` block.
pub open spec fn diag_lo(n: int, d: int) -> int {
    if d < n {
        0
    } else {
        d - n + 1
    }
}

/// Number of positions on anti-diagonal `d` of an `n`x`n` block.
pub open spec fn diag_len(n: int, d: int) -> int {
    if d < n {
        d + 1
    } else {
        2 * n - 1 - d
    }
}

/// Position `i` of the up-right diagonal scan counted from anti-diagonal
/// `d` on: the anti-diagonals `x + y` in increasing order, each walked from
/// its lowest column up (from bottom left to top right).
pub open spec fn diag_from(n: int, d: int, i: int) -> (int, int)
    decreases 2 * n - d,
{
    if d >= 2 * n - 1 || i < 0 {
        (0, 0)
    } else if i < diag_len(n, d) {
        (diag_lo(n, d) + i, d - diag_lo(n, d) - i)
    } else {
        diag_from(n, d + 1, i - diag_len(n, d))
    }
}

/// Positions on anti-diagonals before `d`.
pub open spec fn diag_start(n: int, d: int) -> int
    decreases d,
{
    if d <= 0 {
        0
    } else {
        diag_start(n, d - 1) + diag_len(n, d - 1)
    }
}

/// `ScanOrder[log2][scan_idx][i]` as (column, row): `scan_idx` 0 is the
/// up-right diagonal scan, 1 the horizontal (row by row) and 2 the vertical
/// (column by column) one.
pub open spec fn scan_pos(log2: nat, scan_idx: int, i: int) -> (int, int) {
    let n = vstd::arithmetic::power2::pow2(log2) as int;
    if scan_idx == 1 {
        (i % n, i / n)
    } else if scan_idx == 2 {
        (i / n, i % n)
    } else {
        diag_from(n, 0, i)
    }
}

/// Walking the diagonal scan from anti-diagonal `e` reaches anti-diagonal
/// `d` after the positions in between.
proof fn lemma_diag_skip(n: int, e: int, d: int, k: int)
    requires
        0 <= e <= d < 2 * n - 1,
        0 <= k < diag_len(n, d),
        n >= 1,
    ensures
        diag_from(n, e, diag_start(n, d) - diag_start(n, e) + k) == diag_from(n, d, k),
    decreases d - e,
{
    if e < d {
        lemma_diag_skip(n, e + 1, d, k);
        lemma_diag_start_mono(n, e + 1, d);
    }
}

/// Anti-diagonals are never empty inside the block, so the start offsets
/// grow with `d`.
proof fn lemma_diag_start_mono(n: int, e: int, d: int)
    requires
        0 <= e <= d <= 2 * n - 1,
        n >= 1,
    ensures
        diag_start(n, e) + (d - e) <= diag_start(n, d),
    decreases d - e,
{
    if e < d {
        lemma_diag_start_mono(n, e, d - 1);
    }
}

/// The scan of an `n`x`n` block for `n` up to 8 visits `n * n` positions.
proof fn lemma_diag_total(log2: nat)
    requires
        log2 <= 3,
    ensures
        diag_start(vstd::arithmetic::power2::pow2(log2) as int, 2 * vstd::arithmetic::power2::pow2(log2) - 1)
            == vstd::arithmetic::power2::pow2(log2) * vstd::arithmetic::power2::pow2(log2),
{
    vstd::arithmetic::power2::lemma2_to64();
    reveal_with_fuel(diag_start, 16);
    let n = vstd::arithmetic::power2::pow2(log2) as int;
    assert(diag_start(1, 1) == 1);
    assert(diag_start(2, 3) == 4);
    assert(diag_start(4, 7) == 16);
    assert(diag_start(8, 15) == 64);
    assert(n == 1 || n == 2 || n == 4 || n == 8);
    assert(diag_start(n, 2 * n - 1) == n * n) by (nonlinear_arith)
        requires
            n == 1 || n == 2 || n == 4 || n == 8,
            diag_start(1, 1) == 1,
            diag_start(2, 3) == 4,
            diag_start(4, 7) == 16,
            diag_start(8, 15) == 64,
    ;
}

/// `ScanOrder[log2][scan_idx]` for blocks of up to 8x8 positions, each
/// entry `[column, row]`.
pub fn scan_order(log2: usize, scan_idx: usize) -> (v: Vec<[u8; 2]>)
    requires
        log2 <= 3,
        scan_idx <= 2,
    ensures
        v.len() == vstd::arithmetic::power2::pow2(log2 as nat) * vstd::arithmetic::power2::pow2(log2 as nat),
        forall|i: int|
            0 <= i < v.len() ==> (#[trigger] v@[i][0] as int, v@[i][1] as int) == scan_pos(log2 as nat, scan_idx as int, i),
        forall|i: int|
            0 <= i < v.len() ==> #[trigger] v@[i][0] < vstd::arithmetic::power2::pow2(log2 as nat) && v@[i][1]
                < vstd::arithmetic::power2::pow2(log2 as nat),
{
    proof {
        vstd::arithmetic::power2::lemma2_to64();
        vstd::bits::lemma_usize_shl_is_mul(1, log2);
        lemma_diag_total(log2 as nat);
    }
    let n: usize = 1usize << log2;
    let mut v: Vec<[u8; 2]> = Vec::new();
    proof {
        assert(n * n <= 64) by (nonlinear_arith)
            requires
                1 <= n <= 8,
        ;
    }
    let nn = n * n;
    if scan_idx != 0 {
        let mut i: usize = 0;
        while i < nn
            invariant
                n == vstd::arithmetic::power2::pow2(log2 as nat),
                nn == n * n,
                1 <= n <= 8,
                scan_idx == 1 || scan_idx == 2,
                i <= nn,
                v.len() == i,
                forall|j: int|
                    0 <= j < i ==> (#[trigger] v@[j][0] as int, v@[j][1] as int) == scan_pos(log2 as nat, scan_idx as int, j),
                forall|j: int| 0 <= j < i ==> #[trigger] v@[j][0] < n && v@[j][1] < n,
            decreases nn - i,
        {
            let (x, y) = if scan_idx == 1 {
                (i % n, i / n)
            } else {
                (i / n, i % n)
            };
            proof {
                assert(i / n < n) by (nonlinear_arith)
                    requires
                        i < n * n,
                        n >= 1,
                ;
            }
            v.push([x as u8, y as u8]);
            i += 1;
        }
        return v;
    }
    let mut d: usize = 0;
    while d < 2 * n - 1
        invariant
            n == vstd::arithmetic::power2::pow2(log2 as nat),
            1 <= n <= 8,
            scan_idx == 0,
            d <= 2 * n - 1,
            v.len() == diag_start(n as int, d as int),
            diag_start(n as int, 2 * n - 1) == n * n,
            forall|j: int|
                0 <= j < v.len() ==> (#[trigger] v@[j][0] as int, v@[j][1] as int) == scan_pos(log2 as nat, 0, j),
            forall|j: int| 0 <= j < v.len() ==> #[trigger] v@[j][0] < n && v@[j][1] < n,
        decreases 2 * n - 1 - d,
    {
        let lo = if d < n {
            0
        } else {
            d - n + 1
        };
        let len = if d < n {
            d + 1
        } else {
            2 * n - 1 - d
        };
        let mut k: usize = 0;
        while k < len
            invariant
                n == vstd::arithmetic::power2::pow2(log2 as nat),
                1 <= n <= 8,
                scan_idx == 0,
                d < 2 * n - 1,
                lo == diag_lo(n as int, d as int),
                len == diag_len(n as int, d as int),
                k <= len,
                v.len() == diag_start(n as int, d as int) + k,
                diag_start(n as int, 2 * n - 1) == n * n,
                forall|j: int|
                    0 <= j < v.len() ==> (#[trigger] v@[j][0] as int, v@[j][1] as int) == scan_pos(log2 as nat, 0, j),
                forall|j: int| 0 <= j < v.len() ==> #[trigger] v@[j][0] < n && v@[j][1] < n,
            decreases len - k,
        {
            proof {
                lemma_diag_skip(n as int, 0, d as int, k as int);
            }
            v.push([(lo + k) as u8, (d - lo - k) as u8]);
            k += 1;
        }
        d += 1;
    }
    assert forall|i: int| 0 <= i < v.len() implies #[trigger] v@[i][0] < n && v@[i][1] < n by {}
    v
}

/// `ScanOrder[2][scan_idx]`: the scan of the sixteen positions of a 4x4
/// sub-block, each entry `[column, row]`.
pub fn sub_scan(scan_idx: usize) -> (t: [[u8; 2]; 16])
    requires
        scan_idx <= 2,
    ensures
        forall|i: int| 0 <= i < 16 ==> (#[trigger] t@[i][0] as int, t@[i][1] as int) == scan_pos(2, scan_idx as int, i),
        forall|i: int| 0 <= i < 16 ==> #[trigger] t@[i][0] < 4 && t@[i][1] < 4,
{
    let v = scan_order(2, scan_idx);
    proof {
        vstd::arithmetic::power2::lemma2_to64();
    }
    let mut t = [[0u8; 2]; 16];
    let mut i: usize = 0;
    while i < 16
        invariant
            v.len() == 16,
            scan_idx <= 2,
            i <= 16,
            forall|j: int| 0 <= j < 16 ==> (#[trigger] v@[j][0] as int, v@[j][1] as int) == scan_pos(2, scan_idx as int, j),
            forall|j: int| 0 <= j < 16 ==> #[trigger] v@[j][0] < 4 && v@[j][1] < 4,
            forall|j: int| 0 <= j < i ==> #[trigger] t@[j] == v@[j],
        decreases 16 - i,
    {
        t[i] = v[i];
        i += 1;
    }
    t
}

} // verus!
