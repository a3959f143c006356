//! The rules engine's two-dimensional board: 6 rows of 7 cells, row 0 at the
//! bottom; a cell holds 0 when empty, else the occupant's identity (1 or 2).

use vstd::prelude::*;

verus! {

broadcast use vstd::array::group_array_axioms;

#[derive(Clone)]
pub struct Board {
    pub cells: [[u8; 7]; 6],
}

impl Board {
    /// The occupant of cell (r, c); 0 when empty.
    pub open spec fn cell(self, r: int, c: int) -> u8 {
        self.cells[r][c]
    }

    /// Number of stones in column `c` among the rows below `r`.
    pub open spec fn stones_below(self, c: int, r: int) -> int
        decreases r,
    {
        if r <= 0 {
            0
        } else {
            self.stones_below(c, r - 1) + if self.cell(r - 1, c) != 0 {
                1int
            } else {
                0
            }
        }
    }

    /// Number of stones in column `c`.
    pub open spec fn col_height(self, c: int) -> int {
        self.stones_below(c, 6)
    }

    /// Well-formed board: cells hold 0, 1 or 2, and stones rest on stones
    /// (an occupied cell has an occupied cell below it).
    pub open spec fn inv(self) -> bool {
        &&& forall|r: int, c: int|
            0 <= r < 6 && 0 <= c < 7 ==> (#[trigger] self.cell(r, c) == 0 || self.cell(r, c) == 1
                || self.cell(r, c) == 2)
        &&& forall|r: int, c: int|
            1 <= r < 6 && 0 <= c < 7 && #[trigger] self.cell(r, c) != 0 ==> self.cell(r - 1, c)
                != 0
    }

    /// Column `col` can take another stone.
    pub open spec fn can_play_spec(self, col: int) -> bool {
        0 <= col < 7 && self.cell(5, col) == 0
    }

    pub fn new() -> (b: Board)
        ensures
            b.inv(),
            forall|r: int, c: int| 0 <= r < 6 && 0 <= c < 7 ==> #[trigger] b.cell(r, c) == 0,
    {
        Board { cells: [[0u8; 7]; 6] }
    }

    pub fn get_player_number(&self, row: usize, col: usize) -> (p: u8)
        requires
            row < 6,
            col < 7,
        ensures
            p == self.cell(row as int, col as int),
    {
        self.cells[row][col]
    }

    pub fn can_play_column(&self, col: usize) -> (r: bool)
        ensures
            r == self.can_play_spec(col as int),
    {
        col < 7 && self.cells[5][col] == 0
    }

    pub fn is_full(&self) -> (r: bool)
        ensures
            r == !(exists|c: int| 0 <= c < 7 && self.can_play_spec(c)),
    {
        let mut c: usize = 0;
        while c < 7
            invariant
                c <= 7,
                forall|k: int| 0 <= k < c ==> !self.can_play_spec(k),
            decreases 7 - c,
        {
            if self.cells[5][c] == 0 {
                assert(self.can_play_spec(c as int));
                return false;
            }
            c = c + 1;
        }
        true
    }

    /// Drops a stone of `player_number` into `col`: it lands on the lowest
    /// empty row. Returns the landing cell, or None when the column is full.
    pub fn make_move(&mut self, col: usize, player_number: u8) -> (r: Option<(usize, usize)>)
        requires
            old(self).inv(),
            player_number == 1 || player_number == 2,
        ensures
            final(self).inv(),
            !old(self).can_play_spec(col as int) ==> r is None && *final(self) == *old(self),
            old(self).can_play_spec(col as int) ==> {
                let h = old(self).col_height(col as int);
                &&& r == Some(((h as usize), col))
                &&& 0 <= h < 6
                &&& final(self).cell(h, col as int) == player_number
                &&& forall|r2: int, c2: int|
                    0 <= r2 < 6 && 0 <= c2 < 7 && !(r2 == h && c2 == col as int)
                        ==> final(self).cell(r2, c2) == old(self).cell(r2, c2)
            },
    {
        if !self.can_play_column(col) {
            return None;
        }
        proof {
            lemma_column_profile(*self, col as int, 6);
        }
        let ghost pre = *self;
        let ghost h = pre.col_height(col as int);
        let mut row: usize = 0;
        while row < 6
            invariant
                row <= 6,
                *self == pre,
                pre == *old(self),
                pre.inv(),
                col < 7,
                pre.can_play_spec(col as int),
                h == pre.col_height(col as int),
                0 <= h < 6,
                player_number == 1 || player_number == 2,
                forall|r2: int| 0 <= r2 < 6 ==> (pre.cell(r2, col as int) != 0 <==> r2 < h),
                forall|r2: int| 0 <= r2 < row ==> pre.cell(r2, col as int) != 0,
            decreases 6 - row,
        {
            if self.cells[row][col] == 0 {
                proof {
                    assert(pre.cell(row as int, col as int) == 0);
                    if (row as int) > h {
                        assert(0 <= h < row as int);
                        assert(pre.cell(h, col as int) != 0);
                        assert(h < h);
                    }
                    assert(row as int == h);
                }
                let mut line = self.cells[row];
                line[col] = player_number;
                self.cells[row] = line;
                proof {
                    let post = *self;
                    assert forall|r2: int, c2: int|
                        0 <= r2 < 6 && 0 <= c2 < 7 && !(r2 == h && c2 == col as int) implies post.cell(
                        r2,
                        c2,
                    ) == pre.cell(r2, c2) by {}
                    assert(post.cell(h, col as int) == player_number);
                    assert forall|r2: int, c2: int|
                        0 <= r2 < 6 && 0 <= c2 < 7 implies (#[trigger] post.cell(r2, c2) == 0
                        || post.cell(r2, c2) == 1 || post.cell(r2, c2) == 2) by {
                        if !(r2 == h && c2 == col as int) {
                            assert(post.cell(r2, c2) == pre.cell(r2, c2));
                        }
                    }
                    assert forall|r2: int, c2: int|
                        1 <= r2 < 6 && 0 <= c2 < 7 && #[trigger] post.cell(r2, c2)
                            != 0 implies post.cell(r2 - 1, c2) != 0 by {
                        if c2 == col as int {
                            if r2 == h {
                                if h > 0 {
                                    assert(pre.cell(h - 1, col as int) != 0);
                                }
                            }
                        }
                    }
                }
                return Some((row, col));
            }
            row = row + 1;
        }
        proof {
            assert(pre.cell(5, col as int) != 0);
            assert(false);
        }
        None
    }

    /// Four in a row of `p` somewhere in row `row`.
    pub open spec fn row_win_at(self, row: int, p: u8) -> bool {
        exists|c0: int|
            0 <= c0 <= 3 && #[trigger] self.cell(row, c0) == p && self.cell(row, c0 + 1) == p
                && self.cell(row, c0 + 2) == p && self.cell(row, c0 + 3) == p
    }

    /// Four in a row of `p` somewhere in column `col`.
    pub open spec fn col_win_at(self, col: int, p: u8) -> bool {
        exists|r0: int|
            0 <= r0 <= 2 && #[trigger] self.cell(r0, col) == p && self.cell(r0 + 1, col) == p
                && self.cell(r0 + 2, col) == p && self.cell(r0 + 3, col) == p
    }

    /// Four in a row of `p` on some rising diagonal, anywhere on the board.
    pub open spec fn diag_rise_win(self, p: u8) -> bool {
        exists|r0: int, c0: int|
            0 <= r0 <= 2 && 0 <= c0 <= 3 && #[trigger] self.cell(r0, c0) == p && self.cell(
                r0 + 1,
                c0 + 1,
            ) == p && self.cell(r0 + 2, c0 + 2) == p && self.cell(r0 + 3, c0 + 3) == p
    }

    /// Four in a row of `p` on some falling diagonal, anywhere on the board.
    pub open spec fn diag_fall_win(self, p: u8) -> bool {
        exists|r0: int, c0: int|
            0 <= r0 <= 2 && 3 <= c0 <= 6 && #[trigger] self.cell(r0, c0) == p && self.cell(
                r0 + 1,
                c0 - 1,
            ) == p && self.cell(r0 + 2, c0 - 2) == p && self.cell(r0 + 3, c0 - 3) == p
    }

    /// What `check_win(row, col)` reports: the cell's occupant has four in a
    /// row in that cell's row, in that cell's column, or on any diagonal.
    pub open spec fn win_through(self, row: int, col: int) -> bool {
        let p = self.cell(row, col);
        &&& p != 0
        &&& (self.row_win_at(row, p) || self.col_win_at(col, p) || self.diag_rise_win(p)
            || self.diag_fall_win(p))
    }

    /// Checks, after a stone landed on (row, col), whether that stone's owner
    /// has four in a row through the cell's row or column or on any diagonal.
    pub fn check_win(&self, row: usize, col: usize) -> (r: bool)
        requires
            row < 6,
            col < 7,
        ensures
            r == self.win_through(row as int, col as int),
    {
        let p = self.cells[row][col];
        if p == 0 {
            return false;
        }
        // horizontal, in this row
        let mut c0: usize = 0;
        while c0 < 4
            invariant
                c0 <= 4,
                row < 6,
                col < 7,
                p == self.cell(row as int, col as int),
                p != 0,
                forall|k: int|
                    0 <= k < c0 ==> !(#[trigger] self.cell(row as int, k) == p && self.cell(
                        row as int,
                        k + 1,
                    ) == p && self.cell(row as int, k + 2) == p && self.cell(row as int, k + 3)
                        == p),
            decreases 4 - c0,
        {
            if self.cells[row][c0] == p && self.cells[row][c0 + 1] == p && self.cells[row][c0 + 2]
                == p && self.cells[row][c0 + 3] == p {
                proof {
                    assert(self.cell(row as int, c0 as int) == p);
                    assert(self.row_win_at(row as int, p));
                }
                return true;
            }
            c0 = c0 + 1;
        }
        // vertical, in this column
        let mut r0: usize = 0;
        while r0 < 3
            invariant
                r0 <= 3,
                row < 6,
                col < 7,
                p == self.cell(row as int, col as int),
                p != 0,
                forall|k: int|
                    0 <= k < r0 ==> !(#[trigger] self.cell(k, col as int) == p && self.cell(
                        k + 1,
                        col as int,
                    ) == p && self.cell(k + 2, col as int) == p && self.cell(k + 3, col as int)
                        == p),
            decreases 3 - r0,
        {
            if self.cells[r0][col] == p && self.cells[r0 + 1][col] == p && self.cells[r0 + 2][col]
                == p && self.cells[r0 + 3][col] == p {
                proof {
                    assert(self.cell(r0 as int, col as int) == p);
                    assert(self.col_win_at(col as int, p));
                }
                return true;
            }
            r0 = r0 + 1;
        }
        // rising diagonals, whole board
        let mut r0: usize = 0;
        while r0 < 3
            invariant
                r0 <= 3,
                row < 6,
                col < 7,
                p == self.cell(row as int, col as int),
                p != 0,
                forall|kr: int, kc: int|
                    0 <= kr < r0 && 0 <= kc <= 3 ==> !(#[trigger] self.cell(kr, kc) == p
                        && self.cell(kr + 1, kc + 1) == p && self.cell(kr + 2, kc + 2) == p
                        && self.cell(kr + 3, kc + 3) == p),
            decreases 3 - r0,
        {
            let mut c0: usize = 0;
            while c0 < 4
                invariant
                    r0 < 3,
                    c0 <= 4,
                    row < 6,
                    col < 7,
                    p == self.cell(row as int, col as int),
                    p != 0,
                    forall|kr: int, kc: int|
                        0 <= kr < r0 && 0 <= kc <= 3 ==> !(#[trigger] self.cell(kr, kc) == p
                            && self.cell(kr + 1, kc + 1) == p && self.cell(kr + 2, kc + 2) == p
                            && self.cell(kr + 3, kc + 3) == p),
                    forall|kc: int|
                        0 <= kc < c0 ==> !(#[trigger] self.cell(r0 as int, kc) == p && self.cell(
                            r0 as int + 1,
                            kc + 1,
                        ) == p && self.cell(r0 as int + 2, kc + 2) == p && self.cell(
                            r0 as int + 3,
                            kc + 3,
                        ) == p),
                decreases 4 - c0,
            {
                if self.cells[r0][c0] == p && self.cells[r0 + 1][c0 + 1] == p && self.cells[r0
                    + 2][c0 + 2] == p && self.cells[r0 + 3][c0 + 3] == p {
                    proof {
                        assert(self.cell(r0 as int, c0 as int) == p);
                        assert(self.diag_rise_win(p));
                    }
                    return true;
                }
                c0 = c0 + 1;
            }
            r0 = r0 + 1;
        }
        // falling diagonals, whole board
        let mut r0: usize = 0;
        while r0 < 3
            invariant
                r0 <= 3,
                row < 6,
                col < 7,
                p == self.cell(row as int, col as int),
                p != 0,
                forall|kr: int, kc: int|
                    0 <= kr < r0 && 3 <= kc <= 6 ==> !(#[trigger] self.cell(kr, kc) == p
                        && self.cell(kr + 1, kc - 1) == p && self.cell(kr + 2, kc - 2) == p
                        && self.cell(kr + 3, kc - 3) == p),
            decreases 3 - r0,
        {
            let mut c0: usize = 3;
            while c0 < 7
                invariant
                    r0 < 3,
                    3 <= c0 <= 7,
                    row < 6,
                    col < 7,
                    p == self.cell(row as int, col as int),
                    p != 0,
                    forall|kr: int, kc: int|
                        0 <= kr < r0 && 3 <= kc <= 6 ==> !(#[trigger] self.cell(kr, kc) == p
                            && self.cell(kr + 1, kc - 1) == p && self.cell(kr + 2, kc - 2) == p
                            && self.cell(kr + 3, kc - 3) == p),
                    forall|kc: int|
                        3 <= kc < c0 ==> !(#[trigger] self.cell(r0 as int, kc) == p && self.cell(
                            r0 as int + 1,
                            kc - 1,
                        ) == p && self.cell(r0 as int + 2, kc - 2) == p && self.cell(
                            r0 as int + 3,
                            kc - 3,
                        ) == p),
                decreases 7 - c0,
            {
                if self.cells[r0][c0] == p && self.cells[r0 + 1][c0 - 1] == p && self.cells[r0
                    + 2][c0 - 2] == p && self.cells[r0 + 3][c0 - 3] == p {
                    proof {
                        assert(self.cell(r0 as int, c0 as int) == p);
                        assert(self.diag_fall_win(p));
                    }
                    return true;
                }
                c0 = c0 + 1;
            }
            r0 = r0 + 1;
        }
        false
    }
}

/// In a well-formed column the occupied cells below `r` form a prefix whose
/// length `stones_below` reports.
pub proof fn lemma_column_profile(b: Board, c: int, r: int)
    requires
        b.inv(),
        0 <= c < 7,
        0 <= r <= 6,
    ensures
        0 <= b.stones_below(c, r) <= r,
        forall|r2: int| 0 <= r2 < r ==> (b.cell(r2, c) != 0 <==> r2 < b.stones_below(c, r)),
    decreases r,
{
    if r > 0 {
        lemma_column_profile(b, c, r - 1);
        if b.cell(r - 1, c) != 0 {
            if r >= 2 {
                assert(b.cell(r - 2, c) != 0);
            }
            assert(b.stones_below(c, r - 1) == r - 1);
        }
    }
}

/// On a well-formed board a column can take a stone exactly when it holds
/// fewer than six.
pub proof fn lemma_can_play_height(b: Board, c: int)
    requires
        b.inv(),
        0 <= c < 7,
    ensures
        b.can_play_spec(c) <==> b.col_height(c) < 6,
{
    lemma_column_profile(b, c, 6);
}

} // verus!
