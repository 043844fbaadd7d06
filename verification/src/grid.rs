//! The 9×9 board, its cages (killer mode) and the render data derived from them.
use vstd::prelude::*;
use crate::rules::{in_board, is_board, is_complete_valid, is_peer, placement_ok};

verus! {

/// A sudoku board; 0 marks an empty cell.
#[derive(Clone, Copy, Debug, PartialEq, Eq)]
pub struct Grid {
    cells: [[u8; 9]; 9],
}

impl View for Grid {
    type V = Seq<Seq<u8>>;

    closed spec fn view(&self) -> Seq<Seq<u8>> {
        Seq::new(9, |r: int| self.cells@[r]@)
    }
}

impl Grid {
    /// Every grid is a 9×9 board.
    pub proof fn lemma_is_board(&self)
        ensures
            is_board(self@),
    {
    }

    /// The board with every cell empty.
    pub fn empty() -> (g: Self)
        ensures
            is_board(g@),
            forall|r: int, c: int| in_board(r, c) ==> #[trigger] g@[r][c] == 0,
    {
        Grid { cells: [[0u8; 9]; 9] }
    }

    /// The cells, row by row.
    pub fn cells(&self) -> (cells: &[[u8; 9]; 9])
        ensures
            forall|r: int, c: int| in_board(r, c) ==> #[trigger] cells[r][c] == self@[r][c],
    {
        &self.cells
    }

    /// The digit at (row, col), 0 when empty.
    pub fn get(&self, row: usize, col: usize) -> (v: u8)
        requires
            row < 9,
            col < 9,
        ensures
            v == self@[row as int][col as int],
    {
        self.cells[row][col]
    }

    /// Put `val` at (row, col).
    pub fn set(&mut self, row: usize, col: usize, val: u8)
        requires
            row < 9,
            col < 9,
        ensures
            final(self)@ == old(self)@.update(
                row as int,
                old(self)@[row as int].update(col as int, val),
            ),
    {
        self.cells[row][col] = val;
        assert(self@ =~= old(self)@.update(
            row as int,
            old(self)@[row as int].update(col as int, val),
        ));
    }

    /// Check if placing `val` at (row, col) conflicts with any existing value
    /// in the same row, column, or 3×3 box. Does not check the cell itself.
    pub fn is_valid_placement(&self, row: usize, col: usize, val: u8) -> (ok: bool)
        requires
            row < 9,
            col < 9,
        ensures
            ok == placement_ok(self@, row as int, col as int, val),
    {
        let ghost g = self@;
        // Check row
        let mut c: usize = 0;
        while c < 9
            invariant
                c <= 9,
                row < 9,
                col < 9,
                g == self@,
                forall|c2: int| 0 <= c2 < c && c2 != col ==> g[row as int][c2] != val,
            decreases 9 - c,
        {
            if c != col && self.cells[row][c] == val {
                assert(is_peer(row as int, col as int, row as int, c as int));
                assert(in_board(row as int, c as int));
                return false;
            }
            c += 1;
        }
        // Check column
        let mut r: usize = 0;
        while r < 9
            invariant
                r <= 9,
                row < 9,
                col < 9,
                g == self@,
                forall|r2: int| 0 <= r2 < r && r2 != row ==> g[r2][col as int] != val,
            decreases 9 - r,
        {
            if r != row && self.cells[r][col] == val {
                assert(is_peer(row as int, col as int, r as int, col as int));
                assert(in_board(r as int, col as int));
                return false;
            }
            r += 1;
        }
        // Check 3x3 box
        let box_r = (row / 3) * 3;
        let box_c = (col / 3) * 3;
        let mut r: usize = box_r;
        while r < box_r + 3
            invariant
                box_r == (row / 3) * 3,
                box_c == (col / 3) * 3,
                box_r <= r <= box_r + 3,
                row < 9,
                col < 9,
                g == self@,
                forall|r2: int, c2: int|
                    box_r <= r2 < r && box_c <= c2 < box_c + 3 && !(r2 == row && c2 == col)
                        ==> g[r2][c2] != val,
            decreases box_r + 3 - r,
        {
            let mut c: usize = box_c;
            while c < box_c + 3
                invariant
                    box_r == (row / 3) * 3,
                    box_c == (col / 3) * 3,
                    box_r <= r < box_r + 3,
                    box_c <= c <= box_c + 3,
                    row < 9,
                    col < 9,
                    g == self@,
                    forall|r2: int, c2: int|
                        box_r <= r2 < r && box_c <= c2 < box_c + 3 && !(r2 == row && c2 == col)
                            ==> g[r2][c2] != val,
                    forall|c2: int|
                        box_c <= c2 < c && !(r == row && c2 == col) ==> g[r as int][c2] != val,
                decreases box_c + 3 - c,
            {
                if (r != row || c != col) && self.cells[r][c] == val {
                    assert(is_peer(row as int, col as int, r as int, c as int));
                    assert(in_board(r as int, c as int));
                    return false;
                }
                c += 1;
            }
            r += 1;
        }
        assert forall|r2: int, c2: int|
            in_board(r2, c2) && is_peer(row as int, col as int, r2, c2) implies g[r2][c2] != val by {
            if r2 != row && c2 != col {
                assert(box_r <= r2 < box_r + 3);
                assert(box_c <= c2 < box_c + 3);
            }
        }
        true
    }

    /// Returns the set of valid candidate values for an empty cell, in
    /// increasing order. Returns empty vec if the cell is already filled.
    pub fn candidates(&self, row: usize, col: usize) -> (res: Vec<u8>)
        requires
            row < 9,
            col < 9,
        ensures
            self@[row as int][col as int] != 0 ==> res@.len() == 0,
            self@[row as int][col as int] == 0 ==> {
                &&& forall|i: int|
                    0 <= i < res@.len() ==> 1 <= #[trigger] res@[i] <= 9 && placement_ok(
                        self@,
                        row as int,
                        col as int,
                        res@[i],
                    )
                &&& forall|i: int, j: int| 0 <= i < j < res@.len() ==> res@[i] < res@[j]
                &&& forall|v: u8|
                    1 <= v <= 9 && placement_ok(self@, row as int, col as int, v)
                        ==> #[trigger] res@.contains(v)
            },
    {
        let mut res: Vec<u8> = Vec::new();
        if self.cells[row][col] != 0 {
            return res;
        }
        let mut v: u8 = 1;
        while v <= 9
            invariant
                1 <= v <= 10,
                row < 9,
                col < 9,
                self@[row as int][col as int] == 0,
                forall|i: int|
                    0 <= i < res@.len() ==> 1 <= #[trigger] res@[i] < v && placement_ok(
                        self@,
                        row as int,
                        col as int,
                        res@[i],
                    ),
                forall|i: int, j: int| 0 <= i < j < res@.len() ==> res@[i] < res@[j],
                forall|w: u8|
                    1 <= w < v && placement_ok(self@, row as int, col as int, w)
                        ==> #[trigger] res@.contains(w),
            decreases 10 - v,
        {
            let ghost prev = res@;
            if self.is_valid_placement(row, col, v) {
                res.push(v);
                assert(res@[res@.len() - 1] == v);
            }
            proof {
                assert forall|w: u8|
                    1 <= w < v + 1 && placement_ok(self@, row as int, col as int, w)
                        implies #[trigger] res@.contains(w) by {
                    if w == v {
                        assert(res@[res@.len() - 1] == v);
                    } else {
                        assert(prev.contains(w));
                        let k = choose|k: int| 0 <= k < prev.len() && prev[k] == w;
                        assert(res@[k] == w);
                    }
                }
            }
            v += 1;
        }
        res
    }

    /// Check if the grid is completely filled with a valid solution.
    pub fn is_complete_and_valid(&self) -> (ok: bool)
        ensures
            ok == is_complete_valid(self@),
    {
        let ghost g = self@;
        // Rows
        let mut r: usize = 0;
        while r < 9
            invariant
                r <= 9,
                g == self@,
                forall|r2: int, c2: int| 0 <= r2 < r && 0 <= c2 < 9 ==> 1 <= #[trigger] g[r2][c2] <= 9,
                forall|r2: int, c1: int, c2: int|
                    0 <= r2 < r && 0 <= c1 < 9 && 0 <= c2 < 9 && c1 != c2 ==> #[trigger] g[r2][c1]
                        != #[trigger] g[r2][c2],
            decreases 9 - r,
        {
            let mut seen = [false; 10];
            let mut c: usize = 0;
            while c < 9
                invariant
                    r < 9,
                    c <= 9,
                    g == self@,
                    forall|v: int| 0 <= v < 10 ==> (#[trigger] seen@[v] <==> exists|c2: int|
                        0 <= c2 < c && g[r as int][c2] == v),
                    forall|c2: int| 0 <= c2 < c ==> 1 <= #[trigger] g[r as int][c2] <= 9,
                    forall|c1: int, c2: int|
                        0 <= c1 < c && 0 <= c2 < c && c1 != c2 ==> #[trigger] g[r as int][c1]
                            != #[trigger] g[r as int][c2],
                    forall|r2: int, c2: int| 0 <= r2 < r && 0 <= c2 < 9 ==> 1 <= #[trigger] g[r2][c2] <= 9,
                    forall|r2: int, c1: int, c2: int|
                        0 <= r2 < r && 0 <= c1 < 9 && 0 <= c2 < 9 && c1 != c2 ==> #[trigger] g[r2][c1]
                            != #[trigger] g[r2][c2],
                decreases 9 - c,
            {
                let v = self.cells[r][c] as usize;
                if v == 0 || v > 9 {
                    assert(in_board(r as int, c as int));
                    assert(!(1 <= g[r as int][c as int] <= 9));
                    return false;
                }
                if seen[v] {
                    proof {
                        let c2 = choose|c2: int| 0 <= c2 < c && g[r as int][c2] == v;
                        assert(in_board(r as int, c2) && in_board(r as int, c as int));
                        assert(is_peer(r as int, c2, r as int, c as int));
                    }
                    return false;
                }
                assert(g[r as int][c as int] == v);
                seen[v] = true;
                c += 1;
            }
            r += 1;
        }
        // Columns
        let mut c: usize = 0;
        while c < 9
            invariant
                c <= 9,
                g == self@,
                forall|r2: int, c2: int| 0 <= r2 < 9 && 0 <= c2 < 9 ==> 1 <= #[trigger] g[r2][c2] <= 9,
                forall|r2: int, c1: int, c2: int|
                    0 <= r2 < 9 && 0 <= c1 < 9 && 0 <= c2 < 9 && c1 != c2 ==> #[trigger] g[r2][c1]
                        != #[trigger] g[r2][c2],
                forall|c2: int, r1: int, r2: int|
                    0 <= c2 < c && 0 <= r1 < 9 && 0 <= r2 < 9 && r1 != r2 ==> #[trigger] g[r1][c2]
                        != #[trigger] g[r2][c2],
            decreases 9 - c,
        {
            let mut seen = [false; 10];
            let mut r: usize = 0;
            while r < 9
                invariant
                    c < 9,
                    r <= 9,
                    g == self@,
                    forall|v: int| 0 <= v < 10 ==> (#[trigger] seen@[v] <==> exists|r2: int|
                        0 <= r2 < r && g[r2][c as int] == v),
                    forall|r1: int, r2: int|
                        0 <= r1 < r && 0 <= r2 < r && r1 != r2 ==> #[trigger] g[r1][c as int]
                            != #[trigger] g[r2][c as int],
                    forall|r2: int, c2: int| 0 <= r2 < 9 && 0 <= c2 < 9 ==> 1 <= #[trigger] g[r2][c2] <= 9,
                    forall|r2: int, c1: int, c2: int|
                        0 <= r2 < 9 && 0 <= c1 < 9 && 0 <= c2 < 9 && c1 != c2 ==> #[trigger] g[r2][c1]
                            != #[trigger] g[r2][c2],
                    forall|c2: int, r1: int, r2: int|
                        0 <= c2 < c && 0 <= r1 < 9 && 0 <= r2 < 9 && r1 != r2 ==> #[trigger] g[r1][c2]
                            != #[trigger] g[r2][c2],
                decreases 9 - r,
            {
                let v = self.cells[r][c] as usize;
                assert(1 <= g[r as int][c as int] <= 9);
                if seen[v] {
                    proof {
                        let r2 = choose|r2: int| 0 <= r2 < r && g[r2][c as int] == v;
                        assert(in_board(r2, c as int) && in_board(r as int, c as int));
                        assert(is_peer(r2, c as int, r as int, c as int));
                    }
                    return false;
                }
                seen[v] = true;
                r += 1;
            }
            c += 1;
        }
        // Boxes
        let mut box_r: usize = 0;
        while box_r < 9
            invariant
                box_r <= 9,
                box_r % 3 == 0,
                g == self@,
                forall|r2: int, c2: int| 0 <= r2 < 9 && 0 <= c2 < 9 ==> 1 <= #[trigger] g[r2][c2] <= 9,
                forall|r2: int, c1: int, c2: int|
                    0 <= r2 < 9 && 0 <= c1 < 9 && 0 <= c2 < 9 && c1 != c2 ==> #[trigger] g[r2][c1]
                        != #[trigger] g[r2][c2],
                forall|c2: int, r1: int, r2: int|
                    0 <= c2 < 9 && 0 <= r1 < 9 && 0 <= r2 < 9 && r1 != r2 ==> #[trigger] g[r1][c2]
                        != #[trigger] g[r2][c2],
                forall|r1: int, c1: int, r2: int, c2: int|
                    in_board(r1, c1) && in_board(r2, c2) && r1 / 3 == r2 / 3 && c1 / 3 == c2 / 3
                        && r1 < box_r && !(r1 == r2 && c1 == c2) ==> #[trigger] g[r1][c1]
                        != #[trigger] g[r2][c2],
            decreases 9 - box_r,
        {
            let mut box_c: usize = 0;
            while box_c < 9
                invariant
                    box_r < 9,
                    box_r % 3 == 0,
                    box_c <= 9,
                    box_c % 3 == 0,
                    g == self@,
                    forall|r2: int, c2: int| 0 <= r2 < 9 && 0 <= c2 < 9 ==> 1 <= #[trigger] g[r2][c2] <= 9,
                    forall|r1: int, c1: int, r2: int, c2: int|
                        in_board(r1, c1) && in_board(r2, c2) && r1 / 3 == r2 / 3 && c1 / 3 == c2
                            / 3 && (r1 < box_r || (r1 / 3 == box_r / 3 && c1 < box_c)) && !(r1
                            == r2 && c1 == c2) ==> #[trigger] g[r1][c1] != #[trigger] g[r2][c2],
                decreases 9 - box_c,
            {
                let mut seen = [false; 10];
                let mut r: usize = box_r;
                while r < box_r + 3
                    invariant
                        box_r < 9,
                        box_r % 3 == 0,
                        box_c < 9,
                        box_c % 3 == 0,
                        box_r <= r <= box_r + 3,
                        g == self@,
                        forall|v: int| 0 <= v < 10 ==> (#[trigger] seen@[v] <==> exists|r2: int, c2: int|
                            box_r <= r2 < r && box_c <= c2 < box_c + 3 && g[r2][c2] == v),
                        forall|r1: int, c1: int, r2: int, c2: int|
                            box_r <= r1 < r && box_c <= c1 < box_c + 3 && box_r <= r2 < r && box_c
                                <= c2 < box_c + 3 && !(r1 == r2 && c1 == c2) ==> #[trigger] g[r1][c1]
                                != #[trigger] g[r2][c2],
                        forall|r2: int, c2: int| 0 <= r2 < 9 && 0 <= c2 < 9 ==> 1 <= #[trigger] g[r2][c2] <= 9,
                        forall|r1: int, c1: int, r2: int, c2: int|
                            in_board(r1, c1) && in_board(r2, c2) && r1 / 3 == r2 / 3 && c1 / 3 == c2
                                / 3 && (r1 < box_r || (r1 / 3 == box_r / 3 && c1 < box_c)) && !(r1
                                == r2 && c1 == c2) ==> #[trigger] g[r1][c1] != #[trigger] g[r2][c2],
                    decreases box_r + 3 - r,
                {
                    let mut c: usize = box_c;
                    while c < box_c + 3
                        invariant
                            box_r < 9,
                            box_r % 3 == 0,
                            box_c < 9,
                            box_c % 3 == 0,
                            box_r <= r < box_r + 3,
                            box_c <= c <= box_c + 3,
                            g == self@,
                            forall|v: int| 0 <= v < 10 ==> (#[trigger] seen@[v] <==> exists|r2: int, c2: int|
                                ((box_r <= r2 < r && box_c <= c2 < box_c + 3) || (r2 == r && box_c <= c2 < c))
                                    && g[r2][c2] == v),
                            forall|r1: int, c1: int, r2: int, c2: int|
                                ((box_r <= r1 < r && box_c <= c1 < box_c + 3) || (r1 == r && box_c <= c1 < c))
                                    && ((box_r <= r2 < r && box_c <= c2 < box_c + 3) || (r2 == r && box_c <= c2 < c))
                                    && !(r1 == r2 && c1 == c2) ==> #[trigger] g[r1][c1] != #[trigger] g[r2][c2],
                            forall|r2: int, c2: int| 0 <= r2 < 9 && 0 <= c2 < 9 ==> 1 <= #[trigger] g[r2][c2] <= 9,
                            forall|r1: int, c1: int, r2: int, c2: int|
                                in_board(r1, c1) && in_board(r2, c2) && r1 / 3 == r2 / 3 && c1 / 3
                                    == c2 / 3 && (r1 < box_r || (r1 / 3 == box_r / 3 && c1 < box_c))
                                    && !(r1 == r2 && c1 == c2) ==> #[trigger] g[r1][c1]
                                    != #[trigger] g[r2][c2],
                        decreases box_c + 3 - c,
                    {
                        let v = self.cells[r][c] as usize;
                        assert(1 <= g[r as int][c as int] <= 9);
                        if seen[v] {
                            proof {
                                let (r2, c2) = choose|r2: int, c2: int|
                                    ((box_r <= r2 < r && box_c <= c2 < box_c + 3) || (r2 == r && box_c <= c2 < c))
                                        && g[r2][c2] == v;
                                assert(in_board(r2, c2) && in_board(r as int, c as int));
                                assert(is_peer(r2, c2, r as int, c as int));
                            }
                            return false;
                        }
                        seen[v] = true;
                        c += 1;
                    }
                    r += 1;
                }
                proof {
                    assert forall|r1: int, c1: int, r2: int, c2: int|
                        in_board(r1, c1) && in_board(r2, c2) && r1 / 3 == r2 / 3 && c1 / 3 == c2 / 3
                            && (r1 < box_r || (r1 / 3 == box_r / 3 && c1 < box_c + 3)) && !(r1 == r2
                            && c1 == c2) implies #[trigger] g[r1][c1] != #[trigger] g[r2][c2] by {
                        if !(r1 < box_r || (r1 / 3 == box_r / 3 && c1 < box_c)) {
                            assert(box_r <= r1 < box_r + 3 && box_c <= c1 < box_c + 3);
                            assert(box_r <= r2 < box_r + 3 && box_c <= c2 < box_c + 3);
                        }
                    }
                }
                box_c += 3;
            }
            box_r += 3;
        }
        assert forall|r1: int, c1: int, r2: int, c2: int|
            in_board(r1, c1) && in_board(r2, c2) && is_peer(r1, c1, r2, c2) implies #[trigger] g[r1][c1]
            != #[trigger] g[r2][c2] by {
            if r1 == r2 {
            } else if c1 == c2 {
            } else {
                assert(r1 / 3 == r2 / 3 && c1 / 3 == c2 / 3);
            }
        }
        true
    }
}

/// A killer-sudoku cage: a group of cells whose digits sum to `sum`.
pub struct Cage {
    pub cells: Vec<(usize, usize)>,
    pub sum: u8,
}

/// The cell lies on the board.
pub open spec fn cell_in_board(p: (usize, usize)) -> bool {
    p.0 < 9 && p.1 < 9
}

/// The digit of `g` at cell `p`.
pub open spec fn digit_at(g: Seq<Seq<u8>>, p: (usize, usize)) -> u8 {
    g[p.0 as int][p.1 as int]
}

/// Sum of the digits of `g` over the cells.
pub open spec fn cells_sum(g: Seq<Seq<u8>>, cells: Seq<(usize, usize)>) -> int
    decreases cells.len(),
{
    if cells.len() == 0 {
        0
    } else {
        cells_sum(g, cells.drop_last()) + digit_at(g, cells.last())
    }
}

/// Cell `p` belongs to one of the cages.
pub open spec fn in_some_cage(cages: Seq<Cage>, p: (usize, usize)) -> bool {
    exists|j: int, k: int| 0 <= j < cages.len() && 0 <= k < cages[j].cells@.len() && #[trigger] cages[j].cells@[k] == p
}

/// No cell lies in two different cages.
pub open spec fn cages_disjoint(cages: Seq<Cage>) -> bool {
    forall|j1: int, j2: int, k1: int, k2: int|
        0 <= j1 < cages.len() && 0 <= j2 < cages.len() && j1 != j2 && 0 <= k1 < cages[j1].cells@.len() && 0 <= k2
            < cages[j2].cells@.len() ==> #[trigger] cages[j1].cells@[k1] != #[trigger] cages[j2].cells@[k2]
}

/// Which cage each cell belongs to, a colour per cage, and the cell that shows
/// each cage's sum.
pub struct CageRenderInfo {
    pub cage_map: [[usize; 9]; 9],
    pub cage_colors: Vec<u8>,
    pub label_cells: Vec<(usize, usize)>,
}

/// The cells of each cage.
pub open spec fn cage_cells(cages: Seq<Cage>) -> Seq<Seq<(usize, usize)>> {
    Seq::new(cages.len(), |i: int| cages[i].cells@)
}

/// The last of the first `n` cages that holds (r, c), or 0 if none does.
pub open spec fn owner_upto(cs: Seq<Seq<(usize, usize)>>, r: int, c: int, n: int) -> int
    decreases n,
{
    if n <= 0 {
        0
    } else if cs[n - 1].contains((r as usize, c as usize)) {
        n - 1
    } else {
        owner_upto(cs, r, c, n - 1)
    }
}

/// The cage a cell is drawn with: the last cage that holds it, or 0.
pub open spec fn owner(cs: Seq<Seq<(usize, usize)>>, r: int, c: int) -> int {
    owner_upto(cs, r, c, cs.len() as int)
}

/// Cell (r, c) and its right (dir 0) or lower (dir 1) neighbour lie in cages `i` and `j`.
pub open spec fn pair_at(m: Seq<Seq<usize>>, i: int, j: int, r: int, c: int, dir: int) -> bool {
    if dir == 0 {
        c + 1 < 9 && ((m[r][c] == i && m[r][c + 1] == j) || (m[r][c] == j && m[r][c + 1] == i))
    } else {
        r + 1 < 9 && ((m[r][c] == i && m[r + 1][c] == j) || (m[r][c] == j && m[r + 1][c] == i))
    }
}

/// Some cell before (r, c) in reading order pairs cages `i` and `j` with a neighbour.
pub open spec fn pair_before(m: Seq<Seq<usize>>, i: int, j: int, r: int, c: int) -> bool {
    exists|r2: int, c2: int, dir: int|
        #![trigger pair_at(m, i, j, r2, c2, dir)]
        in_board(r2, c2) && (r2 < r || (r2 == r && c2 < c)) && 0 <= dir < 2 && pair_at(m, i, j, r2, c2, dir)
}

/// Cages `i` and `j` (i != j) hold two orthogonally neighbouring cells of the map.
pub open spec fn map_adjacent(m: Seq<Seq<usize>>, i: int, j: int) -> bool {
    i != j && pair_before(m, i, j, 9, 0)
}

/// Colour `k` is not taken by any lower-numbered cage adjacent to cage `i`.
pub open spec fn color_free(m: Seq<Seq<usize>>, colors: Seq<u8>, i: int, k: int) -> bool {
    forall|j: int| 0 <= j < i && map_adjacent(m, i, j) ==> colors[j] != k
}

/// Greedy colouring: each cage takes the smallest of the six colours that no
/// lower-numbered neighbour holds, or colour 0 when all six are taken.
pub open spec fn greedy_colored(m: Seq<Seq<usize>>, colors: Seq<u8>) -> bool {
    forall|i: int|
        0 <= i < colors.len() ==> {
            ||| (colors[i] < 6 && color_free(m, colors, i, colors[i] as int) && forall|k: int|
                0 <= k < colors[i] ==> !color_free(m, colors, i, k))
            ||| (colors[i] == 0 && forall|k: int| 0 <= k < 6 ==> !color_free(m, colors, i, k))
        }
}

/// Two neighbouring cages get different colours, unless all six colours were
/// already taken by the lower-numbered neighbours of the later one.
pub proof fn lemma_neighbours_differ(m: Seq<Seq<usize>>, colors: Seq<u8>, i: int, j: int)
    requires
        greedy_colored(m, colors),
        0 <= j < i < colors.len(),
        map_adjacent(m, i, j),
        exists|k: int| 0 <= k < 6 && color_free(m, colors, i, k),
    ensures
        colors[i] != colors[j],
{
    let k = choose|k: int| 0 <= k < 6 && color_free(m, colors, i, k);
    if colors[i] == 0 && forall|k2: int| 0 <= k2 < 6 ==> !color_free(m, colors, i, k2) {
        assert(!color_free(m, colors, i, k));
    }
    assert(colors[i] < 6 && color_free(m, colors, i, colors[i] as int));
}

/// `a` comes no later than `b` in reading order.
pub open spec fn cell_le(a: (usize, usize), b: (usize, usize)) -> bool {
    a.0 < b.0 || (a.0 == b.0 && a.1 <= b.1)
}

/// The cage map as nested sequences.
pub open spec fn map_view(m: [[usize; 9]; 9]) -> Seq<Seq<usize>> {
    Seq::new(9, |r: int| m@[r]@)
}

/// Assign each cell to its cage, colour the cages so that neighbours differ
/// where six colours allow it, and pick the top-left cell of each cage for its label.
pub fn compute_cage_render_info(cages: &[Cage]) -> (info: CageRenderInfo)
    requires
        forall|i: int| 0 <= i < cages@.len() ==> #[trigger] cages@[i].cells@.len() > 0,
        forall|i: int, k: int|
            0 <= i < cages@.len() && 0 <= k < cages@[i].cells@.len() ==> #[trigger] cages@[i].cells@[k].0
                < 9 && cages@[i].cells@[k].1 < 9,
    ensures
        forall|r: int, c: int|
            in_board(r, c) ==> #[trigger] info.cage_map[r][c] == owner(cage_cells(cages@), r, c),
        info.cage_colors@.len() == cages@.len(),
        greedy_colored(map_view(info.cage_map), info.cage_colors@),
        info.label_cells@.len() == cages@.len(),
        forall|i: int|
            0 <= i < cages@.len() ==> cages@[i].cells@.contains(#[trigger] info.label_cells@[i])
                && forall|k: int|
                0 <= k < cages@[i].cells@.len() ==> cell_le(info.label_cells@[i], cages@[i].cells@[k]),
{
    let num_cages = cages.len();
    let ghost cs = cage_cells(cages@);

    // Build cage_map: cell -> cage index
    let mut cage_map = [[0usize; 9]; 9];
    let mut i: usize = 0;
    while i < num_cages
        invariant
            num_cages == cages@.len(),
            i <= num_cages,
            cs == cage_cells(cages@),
            forall|i2: int, k: int|
                0 <= i2 < cages@.len() && 0 <= k < cages@[i2].cells@.len() ==> #[trigger] cages@[i2].cells@[k].0
                    < 9 && cages@[i2].cells@[k].1 < 9,
            forall|r: int, c: int| in_board(r, c) ==> #[trigger] cage_map[r][c] == owner_upto(cs, r, c, i as int),
        decreases num_cages - i,
    {
        let cells = &cages[i].cells;
        let mut k: usize = 0;
        while k < cells.len()
            invariant
                num_cages == cages@.len(),
                i < num_cages,
                cells@ == cages@[i as int].cells@,
                k <= cells@.len(),
                cs == cage_cells(cages@),
                forall|i2: int, k2: int|
                    0 <= i2 < cages@.len() && 0 <= k2 < cages@[i2].cells@.len() ==> #[trigger] cages@[i2].cells@[k2].0
                        < 9 && cages@[i2].cells@[k2].1 < 9,
                forall|r: int, c: int|
                    in_board(r, c) ==> #[trigger] cage_map[r][c] == if cells@.subrange(0, k as int).contains(
                        (r as usize, c as usize),
                    ) {
                        i as int
                    } else {
                        owner_upto(cs, r, c, i as int)
                    },
            decreases cells@.len() - k,
        {
            let (r, c) = cells[k];
            assert(r < 9 && c < 9) by {
                assert(cages@[i as int].cells@[k as int].0 < 9);
            }
            let ghost prev = cage_map;
            cage_map[r][c] = i;
            proof {
                assert forall|r2: int, c2: int| in_board(r2, c2) implies #[trigger] cage_map[r2][c2] == if cells@.subrange(0, k + 1).contains(
                    (r2 as usize, c2 as usize),
                ) {
                    i as int
                } else {
                    owner_upto(cs, r2, c2, i as int)
                } by {
                    let p = (r2 as usize, c2 as usize);
                    let s0 = cells@.subrange(0, k as int);
                    let s1 = cells@.subrange(0, k + 1);
                    assert(s1 =~= s0.push(cells@[k as int]));
                    if r2 != r || c2 != c {
                        assert(cage_map[r2][c2] == prev[r2][c2]);
                        assert(p != cells@[k as int]);
                        if s1.contains(p) {
                            let j = choose|j: int| 0 <= j < s1.len() && s1[j] == p;
                            assert(s0[j] == p);
                        }
                        if s0.contains(p) {
                            let j = choose|j: int| 0 <= j < s0.len() && s0[j] == p;
                            assert(s1[j] == p);
                        }
                    } else {
                        assert(s1[k as int] == p);
                    }
                }
            }
            k += 1;
        }
        proof {
            assert(cells@.subrange(0, cells@.len() as int) =~= cells@);
            assert forall|r: int, c: int| in_board(r, c) implies #[trigger] cage_map[r][c] == owner_upto(cs, r, c, i + 1) by {
                assert(cs[i as int] == cells@);
            }
        }
        i += 1;
    }

    // Greedy graph colouring: each cage takes the first colour that no
    // already-coloured neighbouring cage holds.
    let ghost m = map_view(cage_map);
    let mut cage_colors: Vec<u8> = Vec::new();
    let mut i: usize = 0;
    while i < num_cages
        invariant
            num_cages == cages@.len(),
            i <= num_cages,
            m == map_view(cage_map),
            cage_colors@.len() == i,
            forall|j: int| 0 <= j < i ==> #[trigger] cage_colors@[j] < 6,
            greedy_colored(m, cage_colors@),
        decreases num_cages - i,
    {
        let used = neighbour_colors(&cage_map, &cage_colors, i);
        let mut color: usize = 0;
        while color < 6 && used[color]
            invariant
                color <= 6,
                used@.len() == 6,
                forall|k: int| 0 <= k < color ==> used@[k],
            decreases 6 - color,
        {
            color += 1;
        }
        let chosen: u8 = if color < 6 { color as u8 } else { 0 };
        let ghost before = cage_colors@;
        cage_colors.push(chosen);
        proof {
            assert forall|j: int, k: int| 0 <= j < i && 0 <= k < 6 implies (#[trigger] color_free(m, cage_colors@, j, k) <==> color_free(m, before, j, k)) by {
                assert forall|j2: int| 0 <= j2 < j implies cage_colors@[j2] == before[j2] by {}
            }
            assert forall|k: int| 0 <= k < 6 implies (#[trigger] color_free(m, cage_colors@, i as int, k) <==> !used@[k]) by {
                assert forall|j2: int| 0 <= j2 < i implies cage_colors@[j2] == before[j2] by {}
            }
            assert forall|j: int| 0 <= j < i + 1 implies {
                ||| (cage_colors@[j] < 6 && color_free(m, cage_colors@, j, cage_colors@[j] as int) && forall|k: int|
                    0 <= k < cage_colors@[j] ==> !color_free(m, cage_colors@, j, k))
                ||| (cage_colors@[j] == 0 && forall|k: int| 0 <= k < 6 ==> !color_free(m, cage_colors@, j, k))
            } by {
                if j < i {
                    assert(cage_colors@[j] == before[j]);
                    assert(before[j] < 6);
                }
            }
        }
        i += 1;
    }

    // Find label cell per cage: top-left (min by row then col)
    let mut label_cells: Vec<(usize, usize)> = Vec::new();
    let mut i: usize = 0;
    while i < num_cages
        invariant
            num_cages == cages@.len(),
            i <= num_cages,
            label_cells@.len() == i,
            forall|i2: int| 0 <= i2 < cages@.len() ==> #[trigger] cages@[i2].cells@.len() > 0,
            forall|i2: int|
                0 <= i2 < i ==> cages@[i2].cells@.contains(#[trigger] label_cells@[i2])
                    && forall|k: int| 0 <= k < cages@[i2].cells@.len() ==> cell_le(label_cells@[i2], cages@[i2].cells@[k]),
        decreases num_cages - i,
    {
        let cells = &cages[i].cells;
        assert(cells@.len() > 0);
        let mut best = cells[0];
        let mut k: usize = 1;
        while k < cells.len()
            invariant
                1 <= k <= cells@.len(),
                cells@.contains(best),
                forall|k2: int| 0 <= k2 < k ==> cell_le(best, #[trigger] cells@[k2]),
            decreases cells@.len() - k,
        {
            let cand = cells[k];
            if cand.0 < best.0 || (cand.0 == best.0 && cand.1 < best.1) {
                best = cand;
            }
            k += 1;
        }
        let ghost before = label_cells@;
        label_cells.push(best);
        proof {
            assert forall|i2: int| 0 <= i2 < i + 1 implies cages@[i2].cells@.contains(#[trigger] label_cells@[i2])
                && forall|k: int| 0 <= k < cages@[i2].cells@.len() ==> cell_le(label_cells@[i2], cages@[i2].cells@[k]) by {
                if i2 < i {
                    assert(label_cells@[i2] == before[i2]);
                }
            }
        }
        i += 1;
    }

    CageRenderInfo { cage_map, cage_colors, label_cells }
}

/// Colours held by the cages below `i` that neighbour cage `i` on the map.
fn neighbour_colors(cage_map: &[[usize; 9]; 9], colors: &Vec<u8>, i: usize) -> (used: [bool; 6])
    requires
        colors@.len() == i,
        forall|j: int| 0 <= j < i ==> #[trigger] colors@[j] < 6,
    ensures
        forall|k: int| 0 <= k < 6 ==> (#[trigger] used@[k] <==> !color_free(map_view(*cage_map), colors@, i as int, k)),
{
    let ghost m = map_view(*cage_map);
    let mut used = [false; 6];
    let mut r: usize = 0;
    while r < 9
        invariant
            r <= 9,
            m == map_view(*cage_map),
            colors@.len() == i,
            forall|j: int| 0 <= j < i ==> #[trigger] colors@[j] < 6,
            forall|k: int| 0 <= k < 6 ==> (#[trigger] used@[k] <==> exists|j: int| 0 <= j < i && colors@[j] == k && pair_before(m, i as int, j, r as int, 0)),
        decreases 9 - r,
    {
        let mut c: usize = 0;
        while c < 9
            invariant
                r < 9,
                c <= 9,
                m == map_view(*cage_map),
                colors@.len() == i,
                forall|j: int| 0 <= j < i ==> #[trigger] colors@[j] < 6,
                forall|k: int| 0 <= k < 6 ==> (#[trigger] used@[k] <==> exists|j: int| 0 <= j < i && colors@[j] == k && pair_before(m, i as int, j, r as int, c as int)),
            decreases 9 - c,
        {
            let ci = cage_map[r][c];
            let mut dir: usize = 0;
            while dir < 2
                invariant
                    r < 9,
                    c < 9,
                    dir <= 2,
                    ci == m[r as int][c as int],
                    m == map_view(*cage_map),
                    colors@.len() == i,
                    forall|j: int| 0 <= j < i ==> #[trigger] colors@[j] < 6,
                    forall|k: int| 0 <= k < 6 ==> (#[trigger] used@[k] <==> exists|j: int| 0 <= j < i && colors@[j] == k && (pair_before(m, i as int, j, r as int, c as int)
                        || (dir > 0 && pair_at(m, i as int, j, r as int, c as int, 0))
                        || (dir > 1 && pair_at(m, i as int, j, r as int, c as int, 1)))),
                decreases 2 - dir,
            {
                let (nr, nc) = if dir == 0 { (r, c + 1) } else { (r + 1, c) };
                if nr < 9 && nc < 9 {
                    let ni = cage_map[nr][nc];
                    if ci != ni {
                        if ci == i && ni < i {
                            used[colors[ni] as usize] = true;
                        } else if ni == i && ci < i {
                            used[colors[ci] as usize] = true;
                        }
                    }
                }
                dir += 1;
            }
            c += 1;
        }
        r += 1;
    }
    used
}

/// Classic sudoku, or killer sudoku with cages.
#[derive(Clone, Copy, Debug, PartialEq, Eq, Structural)]
pub enum GameMode {
    Classic,
    Killer,
}

impl Default for GameMode {
    fn default() -> (m: Self)
        ensures
            m == GameMode::Classic,
    {
        GameMode::Classic
    }
}

impl GameMode {
    /// The other mode.
    pub open spec fn next_spec(self) -> Self {
        match self {
            GameMode::Classic => GameMode::Killer,
            GameMode::Killer => GameMode::Classic,
        }
    }

    /// The other mode.
    pub fn next(self) -> (n: Self)
        ensures
            n == self.next_spec(),
    {
        match self {
            GameMode::Classic => GameMode::Killer,
            GameMode::Killer => GameMode::Classic,
        }
    }

    /// The name of the mode.
    pub open spec fn name_spec(self) -> &'static str {
        match self {
            GameMode::Classic => "Classic",
            GameMode::Killer => "Killer",
        }
    }

    /// The name shown to the player.
    pub fn name(self) -> (s: &'static str)
        ensures
            s@ == self.name_spec()@,
    {
        match self {
            GameMode::Classic => "Classic",
            GameMode::Killer => "Killer",
        }
    }
}

/// A generated puzzle: the board shown to the player, which cells are givens,
/// the cages of a killer puzzle, and the solution it was made from.
pub struct PuzzleState {
    pub grid: Grid,
    pub givens: [[bool; 9]; 9],
    pub cages: Option<Vec<Cage>>,
    pub solution: Grid,
}

} // verus!
