//! Bit-packed board for one player-to-move's position on the 7x6 grid.
//!
//! Cell (row, col), with row 0 the bottom row, is bit `row * 7 + col` of a
//! 64-bit mask; one mask holds the mover's stones, one the opponent's.

use vstd::prelude::*;

verus! {

broadcast use vstd::array::group_array_axioms;

/// Bit `i` of mask `m` is set.
pub open spec fn bit_set(m: u64, i: u64) -> bool {
    i < 64 && (m >> i) & 1u64 == 1u64
}

/// Cell (row, col) is occupied in mask `m`, row 0 at the bottom.
pub open spec fn cell_set(m: u64, row: int, col: int) -> bool {
    0 <= row < 6 && 0 <= col < 7 && bit_set(m, (row * 7 + col) as u64)
}

proof fn lemma_bit_zero(j: u64)
    by (bit_vector)
    ensures
        !((0u64 >> j) & 1u64 == 1u64),
{
}

proof fn lemma_bit_or(a: u64, b: u64, j: u64)
    by (bit_vector)
    ensures
        ((a | b) >> j) & 1u64 == 1u64 <==> ((a >> j) & 1u64 == 1u64 || (b >> j) & 1u64 == 1u64),
{
}

proof fn lemma_bit_single(p: u64, j: u64)
    by (bit_vector)
    requires
        p < 64,
        j < 64,
    ensures
        ((1u64 << p) >> j) & 1u64 == 1u64 <==> j == p,
{
}

proof fn lemma_disjoint_after_set(a: u64, b: u64, p: u64)
    by (bit_vector)
    requires
        a & b == 0u64,
        p < 64,
        !((b >> p) & 1u64 == 1u64),
    ensures
        (a | (1u64 << p)) & b == 0u64,
{
}

proof fn lemma_high_zero_after_set(a: u64, p: u64)
    by (bit_vector)
    requires
        a >> 42u64 == 0u64,
        p < 42,
    ensures
        (a | (1u64 << p)) >> 42u64 == 0u64,
{
}

/// A four-cell mask `(1<<p0)|(1<<p1)|(1<<p2)|(1<<p3)` is contained in `b`
/// exactly when all four bits are set in `b`.
proof fn lemma_window_mask_check(b: u64, p0: u64, p1: u64, p2: u64, p3: u64)
    by (bit_vector)
    requires
        p0 < 64,
        p1 < 64,
        p2 < 64,
        p3 < 64,
    ensures
        (b & ((1u64 << p0) | (1u64 << p1) | (1u64 << p2) | (1u64 << p3))) == ((1u64 << p0) | (1u64
            << p1) | (1u64 << p2) | (1u64 << p3)) <==> ((b >> p0) & 1u64 == 1u64 && (b >> p1)
            & 1u64 == 1u64 && (b >> p2) & 1u64 == 1u64 && (b >> p3) & 1u64 == 1u64),
{
}

/// The four alignment directions: right, up, up-right, up-left.
pub open spec fn dir_ok(dr: int, dc: int) -> bool {
    ||| (dr == 0 && dc == 1)
    ||| (dr == 1 && dc == 0)
    ||| (dr == 1 && dc == 1)
    ||| (dr == 1 && dc == -1)
}

/// A four-cell window starting at (r0, c0) in direction (dr, dc) lies on the board.
pub open spec fn window_ok(r0: int, c0: int, dr: int, dc: int) -> bool {
    &&& dir_ok(dr, dc)
    &&& 0 <= r0
    &&& r0 + 3 * dr <= 5
    &&& 0 <= c0 <= 6
    &&& 0 <= c0 + 3 * dc <= 6
}

/// The window contains the cell (row, col).
pub open spec fn window_covers(r0: int, c0: int, dr: int, dc: int, row: int, col: int) -> bool {
    ||| (row == r0 && col == c0)
    ||| (row == r0 + dr && col == c0 + dc)
    ||| (row == r0 + 2 * dr && col == c0 + 2 * dc)
    ||| (row == r0 + 3 * dr && col == c0 + 3 * dc)
}

/// All four cells of the window are occupied in mask `m`.
pub open spec fn window_set(m: u64, r0: int, c0: int, dr: int, dc: int) -> bool {
    &&& cell_set(m, r0, c0)
    &&& cell_set(m, r0 + dr, c0 + dc)
    &&& cell_set(m, r0 + 2 * dr, c0 + 2 * dc)
    &&& cell_set(m, r0 + 3 * dr, c0 + 3 * dc)
}

/// Mask `m` holds four in a row through the cell (row, col).
pub open spec fn win_at(m: u64, row: int, col: int) -> bool {
    exists|r0: int, c0: int, dr: int, dc: int|
        window_ok(r0, c0, dr, dc) && window_covers(r0, c0, dr, dc, row, col) && window_set(
            m,
            r0,
            c0,
            dr,
            dc,
        )
}

/// The bitmask holding exactly the four cells of a window.
pub open spec fn wmask(r0: int, c0: int, dr: int, dc: int) -> u64 {
    (1u64 << ((r0 * 7 + c0) as u64)) | (1u64 << (((r0 + dr) * 7 + (c0 + dc)) as u64)) | (1u64 << ((
    (r0 + 2 * dr) * 7 + (c0 + 2 * dc)) as u64)) | (1u64 << (((r0 + 3 * dr) * 7 + (c0 + 3
        * dc)) as u64))
}

/// Row step of direction `d` (0 right, 1 up, 2 up-right, 3 up-left).
pub open spec fn dir_dr(d: int) -> int {
    if d == 0 {
        0
    } else {
        1
    }
}

/// Column step of direction `d`.
pub open spec fn dir_dc(d: int) -> int {
    if d == 0 {
        1
    } else if d == 1 {
        0
    } else if d == 2 {
        1
    } else {
        -1
    }
}

/// Start row of the window in direction `d` that holds (row, _) at offset `k`.
pub open spec fn start_r(row: int, d: int, k: int) -> int {
    row - k * dir_dr(d)
}

/// Start column of the window in direction `d` that holds (_, col) at offset `k`.
pub open spec fn start_c(col: int, d: int, k: int) -> int {
    col - k * dir_dc(d)
}

/// The window of direction `d` holding (row, col) at offset `k` lies on the board.
pub open spec fn off_ok(row: int, col: int, d: int, k: int) -> bool {
    window_ok(start_r(row, d, k), start_c(col, d, k), dir_dr(d), dir_dc(d))
}

/// How many windows of direction `d` run through (row, col).
pub open spec fn dir_count(row: int, col: int, d: int) -> int {
    (if off_ok(row, col, d, 0) {
        1int
    } else {
        0
    }) + (if off_ok(row, col, d, 1) {
        1int
    } else {
        0
    }) + (if off_ok(row, col, d, 2) {
        1int
    } else {
        0
    }) + (if off_ok(row, col, d, 3) {
        1int
    } else {
        0
    })
}

/// How many four-cell windows run through (row, col); at most 13.
pub open spec fn num_windows_at(row: int, col: int) -> int {
    dir_count(row, col, 0) + dir_count(row, col, 1) + dir_count(row, col, 2) + dir_count(
        row,
        col,
        3,
    )
}

/// The window of direction `d` at offset `k`, if on the board, has its mask in `s`.
pub open spec fn covered(s: Seq<u64>, row: int, col: int, d: int, k: int) -> bool {
    off_ok(row, col, d, k) ==> s.contains(
        wmask(start_r(row, d, k), start_c(col, d, k), dir_dr(d), dir_dc(d)),
    )
}

proof fn lemma_mul_0_3(k: int, x: int)
    by (nonlinear_arith)
    requires
        0 <= k <= 3,
    ensures
        k == 0 ==> k * x == 0,
        k == 1 ==> k * x == x,
        k == 2 ==> k * x == x + x,
        k == 3 ==> k * x == x + x + x,
{
}

/// Setting the bit of cell (rr, cc) in a mask occupies that cell and no other.
proof fn lemma_mask_after_set(prem: u64, setm: u64, rr: int, cc: int)
    requires
        0 <= rr < 6,
        0 <= cc < 7,
        setm == prem | (1u64 << ((rr * 7 + cc) as u64)),
    ensures
        forall|r2: int, c2: int|
            0 <= r2 < 6 && 0 <= c2 < 7 ==> (#[trigger] cell_set(setm, r2, c2) <==> (cell_set(
                prem,
                r2,
                c2,
            ) || (r2 == rr && c2 == cc))),
{
    let pos = ((rr * 7 + cc) as u64);
    assert forall|r2: int, c2: int| 0 <= r2 < 6 && 0 <= c2 < 7 implies (#[trigger] cell_set(
        setm,
        r2,
        c2,
    ) <==> (cell_set(prem, r2, c2) || (r2 == rr && c2 == cc))) by {
        let j = (r2 * 7 + c2) as u64;
        assert(0 <= r2 * 7 + c2 < 42);
        lemma_bit_or(prem, 1u64 << pos, j);
        lemma_bit_single(pos, j);
        if !(r2 == rr && c2 == cc) {
            assert(r2 * 7 + c2 != rr * 7 + cc);
        }
    }
}

fn push_mask(v: &mut Vec<u64>, m: u64)
    ensures
        final(v)@ == old(v)@.push(m),
        forall|x: u64| old(v)@.contains(x) ==> final(v)@.contains(x),
        final(v)@.contains(m),
{
    let ghost pre = v@;
    v.push(m);
    proof {
        assert forall|x: u64| pre.contains(x) implies v@.contains(x) by {
            let i = choose|i: int| 0 <= i < pre.len() && #[trigger] pre[i] == x;
            assert(v@[i] == x);
        }
        assert(v@[v@.len() - 1] == m);
    }
}

/// The mask of the window starting at (r0, c0) in direction `d`.
fn window_mask_exec(r0: usize, c0: usize, d: u8) -> (m: u64)
    requires
        d < 4,
        window_ok(r0 as int, c0 as int, dir_dr(d as int), dir_dc(d as int)),
    ensures
        m == wmask(r0 as int, c0 as int, dir_dr(d as int), dir_dc(d as int)),
{
    let p: u64 = (r0 as u64) * 7 + (c0 as u64);
    if d == 0 {
        (1u64 << p) | (1u64 << (p + 1)) | (1u64 << (p + 2)) | (1u64 << (p + 3))
    } else if d == 1 {
        (1u64 << p) | (1u64 << (p + 7)) | (1u64 << (p + 14)) | (1u64 << (p + 21))
    } else if d == 2 {
        (1u64 << p) | (1u64 << (p + 8)) | (1u64 << (p + 16)) | (1u64 << (p + 24))
    } else {
        (1u64 << p) | (1u64 << (p + 6)) | (1u64 << (p + 12)) | (1u64 << (p + 18))
    }
}

/// The masks of every four-cell window through (row, col), one direction at a
/// time, nearest start first.
#[verifier::rlimit(100)]
pub fn masks_for_cell(row: usize, col: usize) -> (v: Vec<u64>)
    requires
        row < 6,
        col < 7,
    ensures
        forall|i: int|
            0 <= i < v@.len() ==> exists|r0: int, c0: int, dr: int, dc: int|
                #[trigger] window_ok(r0, c0, dr, dc) && window_covers(r0, c0, dr, dc, row as int, col as int)
                    && #[trigger] v@[i] == wmask(r0, c0, dr, dc),
        forall|r0: int, c0: int, dr: int, dc: int|
            window_ok(r0, c0, dr, dc) && window_covers(r0, c0, dr, dc, row as int, col as int)
                ==> v@.contains(wmask(r0, c0, dr, dc)),
        v@.len() == num_windows_at(row as int, col as int),
{
    let mut v: Vec<u64> = Vec::new();
    let ghost ri = row as int;
    let ghost ci = col as int;
    let mut d: u8 = 0;
    while d < 4
        invariant
            row < 6,
            col < 7,
            ri == row as int,
            ci == col as int,
            d <= 4,
            forall|i: int|
                0 <= i < v@.len() ==> exists|r0: int, c0: int, dr: int, dc: int|
                    #[trigger] window_ok(r0, c0, dr, dc) && window_covers(r0, c0, dr, dc, ri, ci) && #[trigger] v@[i]
                        == wmask(r0, c0, dr, dc),
            forall|d2: int, k2: int|
                0 <= d2 < d && 0 <= k2 < 4 ==> #[trigger] covered(v@, ri, ci, d2, k2),
            v@.len() == dir_count(ri, ci, 0) * (if d > 0 {
                1int
            } else {
                0int
            }) + dir_count(ri, ci, 1) * (if d > 1 {
                1int
            } else {
                0int
            }) + dir_count(ri, ci, 2) * (if d > 2 {
                1int
            } else {
                0int
            }) + dir_count(ri, ci, 3) * (if d > 3 {
                1int
            } else {
                0int
            }),
        decreases 4 - d,
    {
        let ghost di = d as int;
        let ghost len0 = v@.len();
        let mut k: usize = 0;
        while k < 4
            invariant
                row < 6,
                col < 7,
                ri == row as int,
                ci == col as int,
                d < 4,
                k <= 4,
                di == d as int,
                forall|i: int|
                    0 <= i < v@.len() ==> exists|r0: int, c0: int, dr: int, dc: int|
                        #[trigger] window_ok(r0, c0, dr, dc) && window_covers(r0, c0, dr, dc, ri, ci) && #[trigger] v@[i]
                            == wmask(r0, c0, dr, dc),
                forall|d2: int, k2: int|
                    0 <= d2 < di && 0 <= k2 < 4 ==> #[trigger] covered(v@, ri, ci, d2, k2),
                forall|k2: int| 0 <= k2 < k ==> #[trigger] covered(v@, ri, ci, di, k2),
                v@.len() == len0 + (if k > 0 && off_ok(ri, ci, di, 0) {
                    1int
                } else {
                    0int
                }) + (if k > 1 && off_ok(ri, ci, di, 1) {
                    1int
                } else {
                    0int
                }) + (if k > 2 && off_ok(ri, ci, di, 2) {
                    1int
                } else {
                    0int
                }) + (if k > 3 && off_ok(ri, ci, di, 3) {
                    1int
                } else {
                    0int
                }),
            decreases 4 - k,
        {
            let ghost ki = k as int;
            let ghost ventry = v@;
            let in_range: bool = if d == 0 {
                col >= k && col - k <= 3
            } else if d == 1 {
                row >= k && row - k <= 2
            } else if d == 2 {
                row >= k && row - k <= 2 && col >= k && col - k <= 3
            } else {
                row >= k && row - k <= 2 && col + k <= 6 && col + k >= 3
            };
            proof {
                lemma_mul_0_3(ki, dir_dr(di));
                lemma_mul_0_3(ki, dir_dc(di));
                assert(in_range == off_ok(ri, ci, di, ki));
            }
            if in_range {
                let r0: usize = if d == 0 {
                    row
                } else {
                    row - k
                };
                let c0: usize = if d == 0 {
                    col - k
                } else if d == 1 {
                    col
                } else if d == 2 {
                    col - k
                } else {
                    col + k
                };
                proof {
                    lemma_mul_0_3(ki, dir_dr(di));
                    lemma_mul_0_3(ki, dir_dc(di));
                    assert(r0 as int == start_r(ri, di, ki) && c0 as int == start_c(ci, di, ki));
                }
                let m = window_mask_exec(r0, c0, d);
                push_mask(&mut v, m);
                proof {
                    assert(covered(v@, ri, ci, di, ki));
                    assert(window_covers(
                        start_r(ri, di, ki),
                        start_c(ci, di, ki),
                        dir_dr(di),
                        dir_dc(di),
                        ri,
                        ci,
                    ));
                    assert(v@[v@.len() - 1] == m);
                }
            }
            proof {
                assert forall|d2: int, k2: int| 0 <= d2 < di && 0 <= k2 < 4 implies #[trigger] covered(
                    v@,
                    ri,
                    ci,
                    d2,
                    k2,
                ) by {
                    assert(covered(ventry, ri, ci, d2, k2));
                    if off_ok(ri, ci, d2, k2) {
                        let w = wmask(
                            start_r(ri, d2, k2),
                            start_c(ci, d2, k2),
                            dir_dr(d2),
                            dir_dc(d2),
                        );
                        assert(ventry.contains(w));
                        assert(v@.contains(w));
                    }
                }
                assert forall|k2: int| 0 <= k2 < ki + 1 implies #[trigger] covered(
                    v@,
                    ri,
                    ci,
                    di,
                    k2,
                ) by {
                    if k2 < ki {
                        assert(covered(ventry, ri, ci, di, k2));
                        if off_ok(ri, ci, di, k2) {
                            let w = wmask(
                                start_r(ri, di, k2),
                                start_c(ci, di, k2),
                                dir_dr(di),
                                dir_dc(di),
                            );
                            assert(ventry.contains(w));
                            assert(v@.contains(w));
                        }
                    } else {
                        assert(covered(v@, ri, ci, di, ki));
                    }
                }
            }
            k = k + 1;
        }
        d = d + 1;
    }
    proof {
        assert forall|r0: int, c0: int, dr: int, dc: int|
            window_ok(r0, c0, dr, dc) && window_covers(r0, c0, dr, dc, ri, ci) implies v@.contains(
            wmask(r0, c0, dr, dc),
        ) by {
            let d2: int = if dr == 0 {
                0
            } else if dc == 0 {
                1
            } else if dc == 1 {
                2
            } else {
                3
            };
            let k2: int = if d2 == 0 {
                ci - c0
            } else {
                ri - r0
            };
            assert(0 <= k2 < 4);
            lemma_mul_0_3(k2, dir_dr(d2));
            lemma_mul_0_3(k2, dir_dc(d2));
            assert(start_r(ri, d2, k2) == r0 && start_c(ci, d2, k2) == c0);
            assert(off_ok(ri, ci, d2, k2));
            assert(covered(v@, ri, ci, d2, k2));
        }
    }
    v
}


/// The first `num_windows_at(row, col)` entries are exactly the masks of the
/// windows through (row, col); the rest of the 13 slots are zero.
pub open spec fn mask_row_ok(s: Seq<u64>, row: int, col: int) -> bool {
    &&& s.len() == 13
    &&& forall|i: int|
        0 <= i < num_windows_at(row, col) ==> exists|r0: int, c0: int, dr: int, dc: int|
            #[trigger] window_ok(r0, c0, dr, dc) && window_covers(r0, c0, dr, dc, row, col)
                && #[trigger] s[i] == wmask(r0, c0, dr, dc)
    &&& forall|r0: int, c0: int, dr: int, dc: int|
        window_ok(r0, c0, dr, dc) && window_covers(r0, c0, dr, dc, row, col) ==> exists|i: int|
            0 <= i < num_windows_at(row, col) && #[trigger] s[i] == wmask(r0, c0, dr, dc)
    &&& forall|i: int| num_windows_at(row, col) <= i < 13 ==> #[trigger] s[i] == 0u64
}

proof fn lemma_num_windows_at_most_13(row: int, col: int)
    requires
        0 <= row < 6,
        0 <= col < 7,
    ensures
        0 <= num_windows_at(row, col) <= 13,
{
    lemma_mul_0_3(0, 1);
    lemma_mul_0_3(1, 1);
    lemma_mul_0_3(2, 1);
    lemma_mul_0_3(3, 1);
    assert(dir_count(row, col, 0) <= 4);
    assert(dir_count(row, col, 1) <= 3);
    assert(dir_count(row, col, 2) <= 3);
    assert(dir_count(row, col, 3) <= 3);
}

/// The table of winning-window masks: for each of the 42 cells, the masks of
/// every four-in-a-row window through that cell, zero-padded to 13 entries.
#[verifier::rlimit(100)]
pub fn generate_winning_masks() -> (table: Vec<[u64; 13]>)
    ensures
        table@.len() == 42,
        forall|p: int| 0 <= p < 42 ==> mask_row_ok(#[trigger] table@[p]@, p / 7, p % 7),
{
    let mut table: Vec<[u64; 13]> = Vec::new();
    let mut p: usize = 0;
    while p < 42
        invariant
            p <= 42,
            table@.len() == p,
            forall|q: int| 0 <= q < p ==> mask_row_ok(#[trigger] table@[q]@, q / 7, q % 7),
        decreases 42 - p,
    {
        let row = p / 7;
        let col = p % 7;
        let mv = masks_for_cell(row, col);
        proof {
            lemma_num_windows_at_most_13(row as int, col as int);
        }
        let mut arr: [u64; 13] = [0u64; 13];
        let mut i: usize = 0;
        while i < mv.len()
            invariant
                i <= mv@.len(),
                mv@.len() <= 13,
                forall|j: int| 0 <= j < i ==> #[trigger] arr[j] == mv@[j],
                forall|j: int| i <= j < 13 ==> #[trigger] arr[j] == 0u64,
            decreases mv@.len() - i,
        {
            arr[i] = mv[i];
            i = i + 1;
        }
        proof {
            let ri = row as int;
            let ci = col as int;
            assert forall|r0: int, c0: int, dr: int, dc: int|
                window_ok(r0, c0, dr, dc) && window_covers(r0, c0, dr, dc, ri, ci) implies exists|
                n: int,
            |
                0 <= n < num_windows_at(ri, ci) && #[trigger] arr@[n] == wmask(r0, c0, dr, dc) by {
                assert(mv@.contains(wmask(r0, c0, dr, dc)));
                let n = choose|n: int|
                    0 <= n < mv@.len() && #[trigger] mv@[n] == wmask(r0, c0, dr, dc);
                assert(arr@[n] == wmask(r0, c0, dr, dc));
            }
            assert(mask_row_ok(arr@, ri, ci));
            assert(ri == p as int / 7 && ci == p as int % 7);
        }
        table.push(arr);
        p = p + 1;
    }
    table
}

/// For each of the 42 cells, how many winning windows run through it.
pub fn generate_mask_counts() -> (counts: [u8; 42])
    ensures
        forall|p: int| 0 <= p < 42 ==> #[trigger] counts[p] as int == num_windows_at(p / 7, p % 7),
{
    let mut counts: [u8; 42] = [0u8; 42];
    let mut p: usize = 0;
    while p < 42
        invariant
            p <= 42,
            forall|q: int| 0 <= q < p ==> #[trigger] counts[q] as int == num_windows_at(q / 7, q % 7),
        decreases 42 - p,
    {
        let row = p / 7;
        let col = p % 7;
        let mv = masks_for_cell(row, col);
        proof {
            lemma_num_windows_at_most_13(row as int, col as int);
        }
        counts[p] = mv.len() as u8;
        p = p + 1;
    }
    counts
}

/// Number of occupied cells of column `c` among the rows below `r`.
pub open spec fn col_stones_below(m: u64, c: int, r: int) -> int
    decreases r,
{
    if r <= 0 {
        0
    } else {
        col_stones_below(m, c, r - 1) + if cell_set(m, r - 1, c) {
            1int
        } else {
            0
        }
    }
}

proof fn lemma_col_stones_prefix(b: BitBoard, c: int, r: int)
    requires
        b.inv(),
        0 <= c < 7,
        0 <= r <= 6,
    ensures
        col_stones_below(b.stones(), c, r) == if r <= b.heights[c] as int {
            r
        } else {
            b.heights[c] as int
        },
    decreases r,
{
    if r > 0 {
        lemma_col_stones_prefix(b, c, r - 1);
        assert(cell_set(b.stones(), r - 1, c) <==> r - 1 < b.heights[c]);
    }
}

/// On a well-formed board each height is a true count: `heights[c]` equals
/// the number of stones standing in column `c`.
pub proof fn lemma_height_counts_stones(b: BitBoard, c: int)
    requires
        b.inv(),
        0 <= c < 7,
    ensures
        col_stones_below(b.stones(), c, 6) == b.heights[c] as int,
{
    lemma_col_stones_prefix(b, c, 6);
}

#[derive(Clone, Copy, Debug)]
pub struct BitBoard {
    /// Stones of the player about to move.
    pub current: u64,
    /// Stones of the other player.
    pub opponent: u64,
    /// Next free row index per column; 6 means the column is full.
    pub heights: [u8; 7],
}

impl BitBoard {
    /// All stones on the board, both players combined.
    pub open spec fn stones(self) -> u64 {
        self.current | self.opponent
    }

    /// Well-formed board: the two masks are disjoint, only the 42 board bits
    /// are used, and each column is a stack: the occupied cells of column `c`
    /// are exactly the rows below `heights[c]`.
    pub open spec fn inv(self) -> bool {
        &&& self.current & self.opponent == 0u64
        &&& self.current >> 42u64 == 0u64
        &&& self.opponent >> 42u64 == 0u64
        &&& forall|c: int| 0 <= c < 7 ==> #[trigger] self.heights[c] <= 6
        &&& forall|r: int, c: int|
            0 <= r < 6 && 0 <= c < 7 ==> (#[trigger] cell_set(self.stones(), r, c) <==> r
                < self.heights[c])
    }

    /// The column can still take a stone.
    pub open spec fn legal(self, col: int) -> bool {
        0 <= col < 7 && self.heights[col] < 6
    }

    /// Total number of stones on the board.
    pub open spec fn total_stones(self) -> int {
        self.heights[0] + self.heights[1] + self.heights[2] + self.heights[3] + self.heights[4]
            + self.heights[5] + self.heights[6]
    }

    pub fn new() -> (b: BitBoard)
        ensures
            b.inv(),
            b.current == 0u64,
            b.opponent == 0u64,
            forall|c: int| 0 <= c < 7 ==> #[trigger] b.heights[c] == 0,
    {
        let b = BitBoard { current: 0, opponent: 0, heights: [0; 7] };
        proof {
            assert forall|r: int, c: int| 0 <= r < 6 && 0 <= c < 7 implies !cell_set(
                b.stones(),
                r,
                c,
            ) by {
                lemma_bit_zero(((r * 7 + c) as u64));
                assert(0u64 | 0u64 == 0u64) by (bit_vector);
            }
            assert(0u64 >> 42u64 == 0u64) by (bit_vector);
            assert(0u64 & 0u64 == 0u64) by (bit_vector);
        }
        b
    }


    /// Encodes the rules engine's 2-D board as seen by `current_player`, who
    /// is about to move: their stones become `current`, the other side's
    /// stones `opponent`, and each height is the column's stone count.
    #[verifier::rlimit(100)]
    pub fn from_board(board: &crate::board::Board, current_player: u8) -> (b: BitBoard)
        requires
            board.inv(),
            current_player == 1 || current_player == 2,
        ensures
            b.inv(),
            forall|r: int, c: int|
                0 <= r < 6 && 0 <= c < 7 ==> (cell_set(b.current, r, c) <==> #[trigger] board.cell(
                    r,
                    c,
                ) == current_player),
            forall|r: int, c: int|
                0 <= r < 6 && 0 <= c < 7 ==> (cell_set(b.opponent, r, c) <==> (#[trigger] board.cell(
                    r,
                    c,
                ) != 0 && board.cell(r, c) != current_player)),
            forall|c: int| 0 <= c < 7 ==> #[trigger] b.heights[c] as int == board.col_height(c),
    {
        let mut current: u64 = 0;
        let mut opponent: u64 = 0;
        let mut heights: [u8; 7] = [0; 7];
        proof {
            assert(0u64 & 0u64 == 0u64) by (bit_vector);
            assert(0u64 >> 42u64 == 0u64) by (bit_vector);
            assert forall|j: u64| j < 64 implies !bit_set(0u64, j) by {
                lemma_bit_zero(j);
            }
        }
        let mut col: usize = 0;
        while col < 7
            invariant
                col <= 7,
                board.inv(),
                current_player == 1 || current_player == 2,
                current & opponent == 0u64,
                current >> 42u64 == 0u64,
                opponent >> 42u64 == 0u64,
                forall|r2: int, c2: int|
                    #![trigger cell_set(current, r2, c2)]
                    #![trigger board.cell(r2, c2)]
                    0 <= r2 < 6 && 0 <= c2 < 7 ==> (cell_set(current, r2, c2) <==> (c2 < col
                        && board.cell(r2, c2) == current_player)),
                forall|r2: int, c2: int|
                    #![trigger cell_set(opponent, r2, c2)]
                    #![trigger board.cell(r2, c2)]
                    0 <= r2 < 6 && 0 <= c2 < 7 ==> (cell_set(opponent, r2, c2) <==> (c2 < col
                        && board.cell(r2, c2) != 0 && board.cell(r2, c2)
                        != current_player)),
                forall|c2: int|
                    0 <= c2 < col ==> #[trigger] heights[c2] as int == board.col_height(c2),
                forall|c2: int| col <= c2 < 7 ==> #[trigger] heights[c2] == 0,
            decreases 7 - col,
        {
            proof {
                crate::board::lemma_column_profile(*board, col as int, 6);
            }
            let ghost hh = board.col_height(col as int);
            let mut row: usize = 0;
            while row < 6
                invariant
                    row <= 6,
                    col < 7,
                    board.inv(),
                    current_player == 1 || current_player == 2,
                    hh == board.col_height(col as int),
                    0 <= hh <= 6,
                    forall|r2: int|
                        0 <= r2 < 6 ==> (#[trigger] board.cell(r2, col as int) != 0 <==> r2 < hh),
                    current & opponent == 0u64,
                    current >> 42u64 == 0u64,
                    opponent >> 42u64 == 0u64,
                    forall|r2: int, c2: int|
                        #![trigger cell_set(current, r2, c2)]
                        #![trigger board.cell(r2, c2)]
                        0 <= r2 < 6 && 0 <= c2 < 7 ==> (cell_set(current, r2, c2) <==> ((c2
                            < col || (c2 == col && r2 < row)) && board.cell(r2, c2)
                            == current_player)),
                    forall|r2: int, c2: int|
                        #![trigger cell_set(opponent, r2, c2)]
                        #![trigger board.cell(r2, c2)]
                        0 <= r2 < 6 && 0 <= c2 < 7 ==> (cell_set(opponent, r2, c2) <==> ((c2
                            < col || (c2 == col && r2 < row)) && board.cell(r2, c2) != 0
                            && board.cell(r2, c2) != current_player)),
                    forall|c2: int|
                        0 <= c2 < col ==> #[trigger] heights[c2] as int == board.col_height(c2),
                    forall|c2: int| col < c2 < 7 ==> #[trigger] heights[c2] == 0,
                    heights[col as int] as int == (if row as int <= hh {
                        row as int
                    } else {
                        hh
                    }),
                decreases 6 - row,
            {
                let v = board.cells[row][col];
                let ghost cpre = current;
                let ghost opre = opponent;
                let ghost rr = row as int;
                let ghost cc = col as int;
                proof {
                    assert(v == board.cell(rr, cc));
                    assert(!cell_set(cpre, rr, cc));
                    assert(!cell_set(opre, rr, cc));
                }
                if v != 0 {
                    let pos: u64 = (row as u64) * 7 + (col as u64);
                    proof {
                        assert(pos == (rr * 7 + cc) as u64);
                    }
                    if v == current_player {
                        current = current | (1u64 << pos);
                        proof {
                            lemma_disjoint_after_set(cpre, opre, pos);
                            let a2 = cpre;
                            let b2 = opre;
                            assert((a2 | (1u64 << pos)) & b2 == 0u64 ==> b2 & (a2 | (1u64 << pos))
                                == 0u64 && (a2 | (1u64 << pos)) & b2 == 0u64) by (bit_vector);
                            lemma_high_zero_after_set(cpre, pos);
                        }
                    } else {
                        opponent = opponent | (1u64 << pos);
                        proof {
                            assert(opre & cpre == 0u64) by (bit_vector)
                                requires
                                    cpre & opre == 0u64,
                            ;
                            lemma_disjoint_after_set(opre, cpre, pos);
                            let a2 = opre;
                            let b2 = cpre;
                            assert((a2 | (1u64 << pos)) & b2 == 0u64 ==> b2 & (a2 | (1u64 << pos))
                                == 0u64) by (bit_vector);
                            lemma_high_zero_after_set(opre, pos);
                        }
                    }
                    heights[col] = (row + 1) as u8;
                    proof {
                        if v == current_player {
                            lemma_mask_after_set(cpre, current, rr, cc);
                        } else {
                            lemma_mask_after_set(opre, opponent, rr, cc);
                        }
                    }
                }
                proof {
                    assert(forall|r2: int, c2: int|
                        0 <= r2 < 6 && 0 <= c2 < 7 ==> (cell_set(current, r2, c2) <==> ((c2 < cc
                            || (c2 == cc && r2 < rr + 1)) && #[trigger] board.cell(r2, c2)
                            == current_player)));
                    assert(forall|r2: int, c2: int|
                        0 <= r2 < 6 && 0 <= c2 < 7 ==> (cell_set(opponent, r2, c2) <==> ((c2 < cc
                            || (c2 == cc && r2 < rr + 1)) && #[trigger] board.cell(r2, c2) != 0
                            && board.cell(r2, c2) != current_player)));
                }
                row = row + 1;
            }
            col = col + 1;
        }
        let b = BitBoard { current, opponent, heights };
        proof {
            assert forall|r2: int, c2: int| 0 <= r2 < 6 && 0 <= c2 < 7 implies (cell_set(
                b.stones(),
                r2,
                c2,
            ) <==> r2 < b.heights[c2]) by {
                crate::board::lemma_column_profile(*board, c2, 6);
                let j = (r2 * 7 + c2) as u64;
                lemma_bit_or(b.current, b.opponent, j);
                assert(cell_set(b.stones(), r2, c2) <==> (cell_set(b.current, r2, c2) || cell_set(
                    b.opponent,
                    r2,
                    c2,
                )));
                assert(cell_set(b.current, r2, c2) <==> board.cell(r2, c2) == current_player);
                assert(cell_set(b.opponent, r2, c2) <==> (board.cell(r2, c2) != 0 && board.cell(
                    r2,
                    c2,
                ) != current_player));
                assert(board.cell(r2, c2) != 0 <==> r2 < board.col_height(c2));
                assert(b.heights[c2] as int == board.col_height(c2));
            }
            assert forall|c2: int| 0 <= c2 < 7 implies #[trigger] b.heights[c2] <= 6 by {
                crate::board::lemma_column_profile(*board, c2, 6);
            }
        }
        b
    }

    pub fn is_valid_move(&self, col: usize) -> (r: bool)
        requires
            col < 7,
        ensures
            r == self.legal(col as int),
    {
        self.heights[col] < 6
    }

    /// The board after a legal move in `col`: the mover's stone is placed at
    /// the column's height and the two roles swap, so the result is seen from
    /// the next mover's perspective.
    pub open spec fn moved(self, col: int) -> BitBoard {
        BitBoard {
            current: self.opponent,
            opponent: self.current | (1u64 << ((self.heights[col] * 7 + col) as u64)),
            heights: vstd::array::spec_array_update(
                self.heights,
                col,
                (self.heights[col] + 1) as u8,
            ),
        }
    }

    pub fn make_move(&mut self, col: usize) -> (r: bool)
        requires
            old(self).inv(),
            col < 7,
        ensures
            final(self).inv(),
            r == old(self).legal(col as int),
            r ==> *final(self) == old(self).moved(col as int),
            !r ==> *final(self) == *old(self),
            r ==> final(self).total_stones() == old(self).total_stones() + 1,
    {
        if self.heights[col] >= 6 {
            return false;
        }
        let row = self.heights[col];
        let pos: u64 = (row as u64) * 7 + (col as u64);
        let ghost pre = *self;
        proof {
            assert(!cell_set(pre.stones(), row as int, col as int));
            assert(pos == (row as int * 7 + col as int) as u64);
            lemma_bit_or(pre.current, pre.opponent, pos);
            // the target cell is free in both masks
            assert(!bit_set(pre.current, pos) && !bit_set(pre.opponent, pos));
        }
        self.current = self.current | (1u64 << pos);
        self.heights[col] = row + 1;
        core::mem::swap(&mut self.current, &mut self.opponent);
        proof {
            let post = *self;
            assert(post.opponent == pre.current | (1u64 << pos));
            assert(post.heights@ == pre.heights@.update(col as int, (row + 1) as u8));
            assert(post.heights == vstd::array::spec_array_update(
                pre.heights,
                col as int,
                (row + 1) as u8,
            ));
            assert(*self == pre.moved(col as int));
            // invariant preservation
            lemma_disjoint_after_set(pre.current, pre.opponent, pos);
            let a = pre.current;
            let b = pre.opponent;
            assert(b & (a | (1u64 << pos)) == 0u64) by (bit_vector)
                requires
                    (a | (1u64 << pos)) & b == 0u64,
            ;
            assert(post.current & post.opponent == 0u64);
            lemma_high_zero_after_set(pre.current, pos);
            assert forall|r2: int, c2: int| 0 <= r2 < 6 && 0 <= c2 < 7 implies (cell_set(
                post.stones(),
                r2,
                c2,
            ) <==> r2 < post.heights[c2]) by {
                let j = (r2 * 7 + c2) as u64;
                assert(0 <= r2 * 7 + c2 < 42);
                lemma_bit_or(post.current, post.opponent, j);
                lemma_bit_or(pre.current, pre.opponent, j);
                lemma_bit_or(pre.current, 1u64 << pos, j);
                lemma_bit_single(pos, j);
                assert(bit_set(post.stones(), j) <==> (bit_set(pre.stones(), j) || j == pos));
                assert(cell_set(pre.stones(), r2, c2) <==> r2 < pre.heights[c2]);
                assert(cell_set(post.stones(), r2, c2) <==> (cell_set(pre.stones(), r2, c2) || j
                    == pos));
                if c2 == col {
                    assert(post.heights[c2] == row + 1);
                    assert(j == pos <==> r2 == row as int);
                } else {
                    assert(post.heights[c2] == pre.heights[c2]);
                    assert(r2 * 7 + c2 != row as int * 7 + col as int);
                    assert(j != pos);
                }
            }
        }
        true
    }


    /// Placing the mover's next stone in `col` would complete four in a row.
    pub open spec fn would_win(self, col: int) -> bool {
        win_at(
            self.current | (1u64 << ((self.heights[col] * 7 + col) as u64)),
            self.heights[col] as int,
            col,
        )
    }

    /// Tests, without mutating the board, whether the mover's next stone in
    /// `col` completes four in a row, by checking only the windows through
    /// the landing cell.
    #[verifier::rlimit(40)]
    pub fn is_winning_move(&self, col: usize) -> (r: bool)
        requires
            self.inv(),
            col < 7,
            self.heights[col as int] < 6,
        ensures
            r == self.would_win(col as int),
    {
        let row: usize = self.heights[col] as usize;
        let pos: u64 = (row as u64) * 7 + (col as u64);
        let b: u64 = self.current | (1u64 << pos);
        let masks = masks_for_cell(row, col);
        let ghost ri = row as int;
        let ghost ci = col as int;
        let mut i: usize = 0;
        while i < masks.len()
            invariant
                i <= masks@.len(),
                row < 6,
                col < 7,
                ri == row as int,
                ci == col as int,
                row as int == self.heights[ci] as int,
                pos == (ri * 7 + ci) as u64,
                b == self.current | (1u64 << pos),
                forall|n: int|
                    0 <= n < masks@.len() ==> exists|r0: int, c0: int, dr: int, dc: int|
                        #[trigger] window_ok(r0, c0, dr, dc) && window_covers(
                            r0,
                            c0,
                            dr,
                            dc,
                            ri,
                            ci,
                        ) && #[trigger] masks@[n] == wmask(r0, c0, dr, dc),
                forall|r0: int, c0: int, dr: int, dc: int|
                    window_ok(r0, c0, dr, dc) && window_covers(r0, c0, dr, dc, ri, ci)
                        ==> masks@.contains(wmask(r0, c0, dr, dc)),
                forall|j: int| 0 <= j < i ==> b & #[trigger] masks@[j] != masks@[j],
            decreases masks@.len() - i,
        {
            if b & masks[i] == masks[i] {
                proof {
                    let (r0, c0, dr, dc) = choose|r0: int, c0: int, dr: int, dc: int|
                        #[trigger] window_ok(r0, c0, dr, dc) && window_covers(
                            r0,
                            c0,
                            dr,
                            dc,
                            ri,
                            ci,
                        ) && masks@[i as int] == wmask(r0, c0, dr, dc);
                    let p0 = ((r0 * 7 + c0)) as u64;
                    let p1 = (((r0 + dr) * 7 + (c0 + dc))) as u64;
                    let p2 = (((r0 + 2 * dr) * 7 + (c0 + 2 * dc))) as u64;
                    let p3 = (((r0 + 3 * dr) * 7 + (c0 + 3 * dc))) as u64;
                    assert(0 <= r0 * 7 + c0 < 42);
                    assert(0 <= (r0 + dr) * 7 + (c0 + dc) < 42);
                    assert(0 <= (r0 + 2 * dr) * 7 + (c0 + 2 * dc) < 42);
                    assert(0 <= (r0 + 3 * dr) * 7 + (c0 + 3 * dc) < 42);
                    lemma_window_mask_check(b, p0, p1, p2, p3);
                    assert(window_set(b, r0, c0, dr, dc));
                    assert(win_at(b, ri, ci));
                }
                return true;
            }
            i = i + 1;
        }
        proof {
            if win_at(b, ri, ci) {
                let (r0, c0, dr, dc) = choose|r0: int, c0: int, dr: int, dc: int|
                    #[trigger] window_ok(r0, c0, dr, dc) && window_covers(r0, c0, dr, dc, ri, ci)
                        && window_set(b, r0, c0, dr, dc);
                assert(masks@.contains(wmask(r0, c0, dr, dc)));
                let j = choose|j: int|
                    0 <= j < masks@.len() && #[trigger] masks@[j] == wmask(r0, c0, dr, dc);
                let p0 = ((r0 * 7 + c0)) as u64;
                let p1 = (((r0 + dr) * 7 + (c0 + dc))) as u64;
                let p2 = (((r0 + 2 * dr) * 7 + (c0 + 2 * dc))) as u64;
                let p3 = (((r0 + 3 * dr) * 7 + (c0 + 3 * dc))) as u64;
                assert(0 <= r0 * 7 + c0 < 42);
                assert(0 <= (r0 + dr) * 7 + (c0 + dc) < 42);
                assert(0 <= (r0 + 2 * dr) * 7 + (c0 + 2 * dc) < 42);
                assert(0 <= (r0 + 3 * dr) * 7 + (c0 + 3 * dc) < 42);
                lemma_window_mask_check(b, p0, p1, p2, p3);
                assert(b & masks@[j] == masks@[j]);
                assert(false);
            }
        }
        false
    }

    pub fn is_full(&self) -> (r: bool)
        ensures
            r == !(exists|c: int| 0 <= c < 7 && self.heights[c] < 6),
    {
        let mut c: usize = 0;
        while c < 7
            invariant
                c <= 7,
                forall|k: int| 0 <= k < c ==> !(#[trigger] self.heights[k] < 6),
            decreases 7 - c,
        {
            if self.heights[c] < 6 {
                return false;
            }
            c = c + 1;
        }
        true
    }

    /// The playable columns in ascending order.
    pub fn get_valid_moves(&self) -> (v: Vec<usize>)
        ensures
            forall|i: int| 0 <= i < v@.len() ==> self.legal(#[trigger] v@[i] as int),
            forall|i: int, j: int| 0 <= i < j < v@.len() ==> v@[i] < v@[j],
            forall|c: int| 0 <= c < 7 && self.heights[c] < 6 ==> v@.contains(c as usize),
    {
        let mut v: Vec<usize> = Vec::new();
        let mut c: usize = 0;
        while c < 7
            invariant
                c <= 7,
                forall|i: int| 0 <= i < v@.len() ==> self.legal(#[trigger] v@[i] as int),
                forall|i: int| 0 <= i < v@.len() ==> v@[i] < c,
                forall|i: int, j: int| 0 <= i < j < v@.len() ==> v@[i] < v@[j],
                forall|k: int| 0 <= k < c && self.heights[k] < 6 ==> v@.contains(k as usize),
            decreases 7 - c,
        {
            if self.heights[c] < 6 {
                let ghost pre = v@;
                v.push(c);
                assert forall|k: int| 0 <= k < c + 1 && self.heights[k] < 6 implies v@.contains(
                    k as usize,
                ) by {
                    if k < c {
                        let i = choose|i: int| 0 <= i < pre.len() && #[trigger] pre[i] == k as usize;
                        assert(v@[i] == k as usize);
                    } else {
                        assert(v@[v@.len() - 1] == c as usize);
                    }
                }
            }
            c = c + 1;
        }
        v
    }
}

} // verus!
