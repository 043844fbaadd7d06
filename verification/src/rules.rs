//! The rules of sudoku, stated over 9×9 sequences of digits (0 = empty).
use vstd::prelude::*;
use vstd::set_lib::*;
use vstd::relations::injective_on;

verus! {

/// A 9×9 board of digits.
pub open spec fn is_board(g: Seq<Seq<u8>>) -> bool {
    g.len() == 9 && forall|r: int| 0 <= r < 9 ==> #[trigger] g[r].len() == 9
}

/// (r, c) is a cell of the board.
pub open spec fn in_board(r: int, c: int) -> bool {
    0 <= r < 9 && 0 <= c < 9
}

/// Two cells share a row, a column or a 3×3 box.
pub open spec fn same_unit(r1: int, c1: int, r2: int, c2: int) -> bool {
    r1 == r2 || c1 == c2 || (r1 / 3 == r2 / 3 && c1 / 3 == c2 / 3)
}

/// Two distinct cells that share a unit.
pub open spec fn is_peer(r1: int, c1: int, r2: int, c2: int) -> bool {
    !(r1 == r2 && c1 == c2) && same_unit(r1, c1, r2, c2)
}

/// No peer of (row, col) holds `val`.
pub open spec fn placement_ok(g: Seq<Seq<u8>>, row: int, col: int, val: u8) -> bool {
    forall|r: int, c: int| in_board(r, c) && is_peer(row, col, r, c) ==> g[r][c] != val
}

/// Every cell holds a digit 1..=9 and no two peers hold the same digit.
pub open spec fn is_complete_valid(g: Seq<Seq<u8>>) -> bool {
    &&& is_board(g)
    &&& forall|r: int, c: int| in_board(r, c) ==> 1 <= #[trigger] g[r][c] <= 9
    &&& forall|r1: int, c1: int, r2: int, c2: int|
        in_board(r1, c1) && in_board(r2, c2) && is_peer(r1, c1, r2, c2) ==> #[trigger] g[r1][c1]
            != #[trigger] g[r2][c2]
}

/// `s` agrees with every filled cell of `g`.
pub open spec fn extends(s: Seq<Seq<u8>>, g: Seq<Seq<u8>>) -> bool {
    forall|r: int, c: int| in_board(r, c) && g[r][c] != 0 ==> #[trigger] s[r][c] == g[r][c]
}

/// `s` is a solution of the puzzle `g`.
pub open spec fn is_solution_of(g: Seq<Seq<u8>>, s: Seq<Seq<u8>>) -> bool {
    is_complete_valid(s) && extends(s, g)
}

/// Every cell holds a value 0..=9.
pub open spec fn digits_in_range(g: Seq<Seq<u8>>) -> bool {
    is_board(g) && forall|r: int, c: int| in_board(r, c) ==> #[trigger] g[r][c] <= 9
}

/// Row, column of the i-th cell (0..9) of unit u (0..27): rows, then columns, then boxes.
pub open spec fn unit_row(u: int, i: int) -> int {
    if u < 9 {
        u
    } else if u < 18 {
        i
    } else {
        3 * ((u - 18) / 3) + i / 3
    }
}

pub open spec fn unit_col(u: int, i: int) -> int {
    if u < 9 {
        i
    } else if u < 18 {
        u - 9
    } else {
        3 * ((u - 18) % 3) + i % 3
    }
}

/// Cell (r, c) belongs to unit u (0..27): rows, then columns, then boxes.
pub open spec fn in_unit(u: int, r: int, c: int) -> bool {
    &&& in_board(r, c)
    &&& if u < 9 {
        r == u
    } else if u < 18 {
        c == u - 9
    } else {
        r / 3 == (u - 18) / 3 && c / 3 == (u - 18) % 3
    }
}

/// Nine distinct digits in 1..=9 take every digit.
pub proof fn lemma_nine_distinct_digits_cover(f: spec_fn(int) -> int, d: int)
    requires
        1 <= d <= 9,
        forall|i: int| 0 <= i < 9 ==> 1 <= #[trigger] f(i) <= 9,
        forall|i: int, j: int| 0 <= i < 9 && 0 <= j < 9 && i != j ==> #[trigger] f(i) != #[trigger] f(j),
    ensures
        exists|i: int| 0 <= i < 9 && #[trigger] f(i) == d,
{
    if !(exists|i: int| 0 <= i < 9 && #[trigger] f(i) == d) {
        let x = set_int_range(0, 9);
        let y = x.map(f);
        lemma_int_range(0, 9);
        assert(injective_on(f, x));
        lemma_map_size(x, y, f);
        let z = set_int_range(1, 10).remove(d);
        lemma_int_range(1, 10);
        assert(y.subset_of(z)) by {
            assert forall|v: int| y.contains(v) implies z.contains(v) by {
                let i = choose|i: int| x.contains(i) && f(i) == v;
            }
        }
        lemma_len_subset(y, z);
    }
}

/// In a complete valid board, every row, column and box holds every digit.
pub proof fn lemma_unit_has_digit(s: Seq<Seq<u8>>, u: int, d: int)
    requires
        is_complete_valid(s),
        0 <= u < 27,
        1 <= d <= 9,
    ensures
        exists|i: int| 0 <= i < 9 && #[trigger] s[unit_row(u, i)][unit_col(u, i)] == d,
{
    let f = |i: int| s[unit_row(u, i)][unit_col(u, i)] as int;
    assert forall|i: int| 0 <= i < 9 implies 1 <= #[trigger] f(i) <= 9 by {
        assert(in_board(unit_row(u, i), unit_col(u, i)));
    }
    assert forall|i: int, j: int| 0 <= i < 9 && 0 <= j < 9 && i != j implies #[trigger] f(i)
        != #[trigger] f(j) by {
        assert(in_board(unit_row(u, i), unit_col(u, i)));
        assert(in_board(unit_row(u, j), unit_col(u, j)));
        assert(is_peer(unit_row(u, i), unit_col(u, i), unit_row(u, j), unit_col(u, j)));
    }
    lemma_nine_distinct_digits_cover(f, d);
}

} // verus!
