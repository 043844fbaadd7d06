//! Solution counting by constraint propagation (naked and hidden singles)
//! with backtracking on the cell with the fewest candidates.
use vstd::prelude::*;
use vstd::set_lib::lemma_set_disjoint_lens;
use crate::digits::{
    ALL_DIGITS, count_digits, has_digit, lemma_popcount_only_digits, lemma_all_digits, lemma_bit_test, lemma_clear_digit,
    lemma_clear_digit_decreases, lemma_lowest_digit, lemma_only_digits, lemma_only_digits_and,
    lemma_single_digit, only_digits,
};
use crate::grid::Grid;
use crate::rules::{
    digits_in_range, in_board, in_unit, is_board, is_complete_valid, is_peer, is_solution_of,
    lemma_unit_has_digit, unit_col, unit_row,
};
use crate::tally::{
    cand_sum, count_empty, keeps, lemma_cand_sum_update, lemma_count_empty_bounds, lemma_count_empty_update,
    lemma_and_sub, lemma_empty_mask, lemma_keeps_trans, lemma_lacks_kept, lemma_shrinks_refl, lemma_shrinks_trans,
    shrinks, sub_mask,
};

verus! {

spec fn idx(r: int, c: int) -> int {
    9 * r + c
}

/// The smaller of `a` and `b`.
pub open spec fn min(a: int, b: int) -> int {
    if a < b {
        a
    } else {
        b
    }
}

/// Propagation state: placed digits and the remaining candidates of each
/// cell, both stored row-major (cell (r, c) at index 9 * r + c).
#[derive(Clone, Copy)]
struct CpState {
    cells: [u8; 81],
    candidates: [u16; 81],
    empty_count: u8,
}

impl CpState {
    spec fn wf(&self) -> bool {
        &&& forall|k: int| 0 <= k < 81 ==> #[trigger] self.cells@[k] <= 9
        &&& forall|k: int| 0 <= k < 81 && #[trigger] self.cells@[k] != 0 ==> self.candidates@[k] == 0
        &&& forall|k: int| 0 <= k < 81 ==> only_digits(#[trigger] self.candidates@[k])
        &&& self.empty_count == count_empty(self.cells@, 81)
    }

    spec fn cell(&self, r: int, c: int) -> u8 {
        self.cells@[9 * r + c]
    }

    spec fn cand(&self, r: int, c: int) -> u16 {
        self.candidates@[9 * r + c]
    }

    spec fn measure(&self) -> nat {
        cand_sum(self.candidates@, 81)
    }

    /// The board `s` agrees with cell (r, c): the placed digit, or one of its candidates.
    spec fn cell_ok(&self, s: Seq<Seq<u8>>, r: int, c: int) -> bool {
        if self.cell(r, c) != 0 {
            s[r][c] == self.cell(r, c)
        } else {
            has_digit(self.cand(r as int, c as int), s[r][c])
        }
    }

    spec fn consistent(&self, s: Seq<Seq<u8>>) -> bool {
        &&& is_board(s)
        &&& forall|r: int, c: int| in_board(r, c) ==> #[trigger] self.cell_ok(s, r, c)
    }

    /// `s` holds every digit placed in the state.
    spec fn agrees(&self, s: Seq<Seq<u8>>) -> bool {
        forall|r: int, c: int| in_board(r, c) && self.cell(r, c) != 0 ==> #[trigger] s[r][c] == self.cell(r, c)
    }

    /// No peer of (row, col) holds `d` as a candidate.
    spec fn peers_lack(&self, row: int, col: int, d: u8) -> bool {
        forall|r: int, c: int| in_board(r, c) && is_peer(row, col, r, c) ==> !has_digit(#[trigger] self.cand(r, c), d)
    }

    /// Digit `d` is placed in unit `u`.
    spec fn unit_settled(&self, u: int, d: u8) -> bool {
        exists|r: int, c: int| in_unit(u, r, c) && #[trigger] self.cell(r, c) == d
    }

    /// Two cells of unit `u` hold `d` as a candidate.
    spec fn unit_two(&self, u: int, d: u8) -> bool {
        exists|r1: int, c1: int, r2: int, c2: int|
            in_unit(u, r1, c1) && in_unit(u, r2, c2) && !(r1 == r2 && c1 == c2)
                && has_digit(#[trigger] self.cand(r1, c1), d) && has_digit(#[trigger] self.cand(r2, c2), d)
    }

    /// Eliminate digit `d` from candidates of all peers of (row, col).
    fn eliminate_from_peers(&mut self, row: usize, col: usize, d: u8) -> (res: bool)
        requires
            old(self).wf(),
            row < 9,
            col < 9,
            1 <= d <= 9,
        ensures
            res ==> final(self).wf(),
            keeps(old(self).cells@, final(self).cells@),
            shrinks(old(self).candidates@, final(self).candidates@),
            res ==> final(self).measure() <= old(self).measure(),
            res ==> final(self).empty_count <= old(self).empty_count,
            res ==> forall|s: Seq<Seq<u8>>|
                is_complete_valid(s) && old(self).consistent(s) && s[row as int][col as int] == d
                    ==> final(self).consistent(s),
            !res ==> forall|s: Seq<Seq<u8>>|
                is_complete_valid(s) && old(self).consistent(s) ==> s[row as int][col as int] != d,
            res ==> final(self).peers_lack(row as int, col as int, d),
            old(self).peers_lack(row as int, col as int, d) ==> res && *final(self) == *old(self),
        decreases old(self).measure(), 1nat,
    {
        let bit = 1u16 << d;
        let ghost start = *self;
        proof {
            lemma_shrinks_refl(start.candidates@);
        }
        // Row peers
        let mut c: usize = 0;
        while c < 9
            invariant
                c <= 9,
                row < 9,
                col < 9,
                1 <= d <= 9,
                bit == 1u16 << d,
                start == *old(self),
                self.wf(),
                self.measure() <= start.measure(),
                self.empty_count <= start.empty_count,
                forall|s: Seq<Seq<u8>>|
                    is_complete_valid(s) && start.consistent(s) && s[row as int][col as int] == d
                        ==> self.consistent(s),
                keeps(start.cells@, self.cells@),
                shrinks(start.candidates@, self.candidates@),
                start.peers_lack(row as int, col as int, d) ==> *self == start,
                forall|c2: int| 0 <= c2 < c && c2 != col ==> !has_digit(#[trigger] self.cand(row as int, c2), d),
            decreases 9 - c,
        {
            if c != col {
                let ghost before = *self;
                proof {
                    assert(in_board(row as int, c as int));
                    assert(is_peer(row as int, col as int, row as int, c as int));
                    if start.peers_lack(row as int, col as int, d) {
                        assert(!has_digit(before.cand(row as int, c as int), d));
                    }
                }
                let ok = self.eliminate(row, c, d, bit);
                proof {
                    lemma_keeps_trans(start.cells@, before.cells@, self.cells@);
                    lemma_shrinks_trans(start.candidates@, before.candidates@, self.candidates@);
                    lemma_lacks_kept(before.candidates@, self.candidates@, d);
                }
                if !ok {
                    proof {
                        assert forall|s: Seq<Seq<u8>>|
                            is_complete_valid(s) && start.consistent(s) implies s[row as int][col
                            as int] != d by {
                            if s[row as int][col as int] == d {
                                assert(before.consistent(s));
                                assert(s[row as int][c as int] == d);
                            }
                        }
                    }
                    return false;
                }
                proof {
                    assert forall|s: Seq<Seq<u8>>|
                        is_complete_valid(s) && start.consistent(s) && s[row as int][col as int]
                            == d implies self.consistent(s) by {
                        assert(before.consistent(s));
                        assert(s[row as int][c as int] != d);
                    }
                    assert forall|c2: int| 0 <= c2 < c + 1 && c2 != col implies !has_digit(#[trigger] self.cand(row as int, c2), d) by {
                        if c2 < c {
                            assert(!has_digit(before.cand(row as int, c2), d));
                        }
                    }
                }
            }
            c += 1;
        }
        // Column peers
        let mut r: usize = 0;
        while r < 9
            invariant
                r <= 9,
                row < 9,
                col < 9,
                1 <= d <= 9,
                bit == 1u16 << d,
                start == *old(self),
                self.wf(),
                self.measure() <= start.measure(),
                self.empty_count <= start.empty_count,
                forall|s: Seq<Seq<u8>>|
                    is_complete_valid(s) && start.consistent(s) && s[row as int][col as int] == d
                        ==> self.consistent(s),
                keeps(start.cells@, self.cells@),
                shrinks(start.candidates@, self.candidates@),
                start.peers_lack(row as int, col as int, d) ==> *self == start,
                forall|c2: int| 0 <= c2 < 9 && c2 != col ==> !has_digit(#[trigger] self.cand(row as int, c2), d),
                forall|r2: int| 0 <= r2 < r && r2 != row ==> !has_digit(#[trigger] self.cand(r2, col as int), d),
            decreases 9 - r,
        {
            if r != row {
                let ghost before = *self;
                proof {
                    assert(in_board(r as int, col as int));
                    assert(is_peer(row as int, col as int, r as int, col as int));
                    if start.peers_lack(row as int, col as int, d) {
                        assert(!has_digit(before.cand(r as int, col as int), d));
                    }
                }
                let ok = self.eliminate(r, col, d, bit);
                proof {
                    lemma_keeps_trans(start.cells@, before.cells@, self.cells@);
                    lemma_shrinks_trans(start.candidates@, before.candidates@, self.candidates@);
                    lemma_lacks_kept(before.candidates@, self.candidates@, d);
                }
                if !ok {
                    proof {
                        assert forall|s: Seq<Seq<u8>>|
                            is_complete_valid(s) && start.consistent(s) implies s[row as int][col
                            as int] != d by {
                            if s[row as int][col as int] == d {
                                assert(before.consistent(s));
                                assert(s[r as int][col as int] == d);
                            }
                        }
                    }
                    return false;
                }
                proof {
                    assert forall|s: Seq<Seq<u8>>|
                        is_complete_valid(s) && start.consistent(s) && s[row as int][col as int]
                            == d implies self.consistent(s) by {
                        assert(before.consistent(s));
                        assert(s[r as int][col as int] != d);
                    }
                    assert forall|c2: int| 0 <= c2 < 9 && c2 != col implies !has_digit(#[trigger] self.cand(row as int, c2), d) by {
                        assert(!has_digit(before.cand(row as int, c2), d));
                    }
                    assert forall|r2: int| 0 <= r2 < r + 1 && r2 != row implies !has_digit(#[trigger] self.cand(r2, col as int), d) by {
                        if r2 < r {
                            assert(!has_digit(before.cand(r2, col as int), d));
                        }
                    }
                }
            }
            r += 1;
        }
        // Box peers
        let br = (row / 3) * 3;
        let bc = (col / 3) * 3;
        let mut r: usize = br;
        while r < br + 3
            invariant
                br == (row / 3) * 3,
                bc == (col / 3) * 3,
                br <= r <= br + 3,
                row < 9,
                col < 9,
                1 <= d <= 9,
                bit == 1u16 << d,
                start == *old(self),
                self.wf(),
                self.measure() <= start.measure(),
                self.empty_count <= start.empty_count,
                forall|s: Seq<Seq<u8>>|
                    is_complete_valid(s) && start.consistent(s) && s[row as int][col as int] == d
                        ==> self.consistent(s),
                keeps(start.cells@, self.cells@),
                shrinks(start.candidates@, self.candidates@),
                start.peers_lack(row as int, col as int, d) ==> *self == start,
                forall|c2: int| 0 <= c2 < 9 && c2 != col ==> !has_digit(#[trigger] self.cand(row as int, c2), d),
                forall|r2: int| 0 <= r2 < 9 && r2 != row ==> !has_digit(#[trigger] self.cand(r2, col as int), d),
                forall|r2: int, c2: int| br <= r2 < r && bc <= c2 < bc + 3 && !(r2 == row && c2 == col)
                    ==> !has_digit(#[trigger] self.cand(r2, c2), d),
            decreases br + 3 - r,
        {
            let mut c: usize = bc;
            while c < bc + 3
                invariant
                    br == (row / 3) * 3,
                    bc == (col / 3) * 3,
                    br <= r < br + 3,
                    bc <= c <= bc + 3,
                    row < 9,
                    col < 9,
                    1 <= d <= 9,
                    bit == 1u16 << d,
                    start == *old(self),
                    self.wf(),
                    self.measure() <= start.measure(),
                    self.empty_count <= start.empty_count,
                    forall|s: Seq<Seq<u8>>|
                        is_complete_valid(s) && start.consistent(s) && s[row as int][col as int]
                            == d ==> self.consistent(s),
                    keeps(start.cells@, self.cells@),
                    shrinks(start.candidates@, self.candidates@),
                    start.peers_lack(row as int, col as int, d) ==> *self == start,
                    forall|c2: int| 0 <= c2 < 9 && c2 != col ==> !has_digit(#[trigger] self.cand(row as int, c2), d),
                    forall|r2: int| 0 <= r2 < 9 && r2 != row ==> !has_digit(#[trigger] self.cand(r2, col as int), d),
                    forall|r2: int, c2: int|
                        ((br <= r2 < r && bc <= c2 < bc + 3) || (r2 == r && bc <= c2 < c)) && !(r2 == row && c2 == col)
                            ==> !has_digit(#[trigger] self.cand(r2, c2), d),
                decreases bc + 3 - c,
            {
                if r != row || c != col {
                    let ghost before = *self;
                    proof {
                        assert(in_board(r as int, c as int));
                        assert(is_peer(row as int, col as int, r as int, c as int));
                        if start.peers_lack(row as int, col as int, d) {
                            assert(!has_digit(before.cand(r as int, c as int), d));
                        }
                    }
                    let ok = self.eliminate(r, c, d, bit);
                    proof {
                        lemma_keeps_trans(start.cells@, before.cells@, self.cells@);
                        lemma_shrinks_trans(start.candidates@, before.candidates@, self.candidates@);
                        lemma_lacks_kept(before.candidates@, self.candidates@, d);
                    }
                    if !ok {
                        proof {
                            assert forall|s: Seq<Seq<u8>>|
                                is_complete_valid(s) && start.consistent(s) implies s[row
                                as int][col as int] != d by {
                                if s[row as int][col as int] == d {
                                    assert(before.consistent(s));
                                    assert(s[r as int][c as int] == d);
                                }
                            }
                        }
                        return false;
                    }
                    proof {
                        assert forall|s: Seq<Seq<u8>>|
                            is_complete_valid(s) && start.consistent(s) && s[row as int][col
                                as int] == d implies self.consistent(s) by {
                            assert(before.consistent(s));
                            assert(s[r as int][c as int] != d);
                        }
                        assert forall|c2: int| 0 <= c2 < 9 && c2 != col implies !has_digit(#[trigger] self.cand(row as int, c2), d) by {
                            assert(!has_digit(before.cand(row as int, c2), d));
                        }
                        assert forall|r2: int| 0 <= r2 < 9 && r2 != row implies !has_digit(#[trigger] self.cand(r2, col as int), d) by {
                            assert(!has_digit(before.cand(r2, col as int), d));
                        }
                        assert forall|r2: int, c2: int|
                            ((br <= r2 < r && bc <= c2 < bc + 3) || (r2 == r && bc <= c2 < c + 1)) && !(r2 == row && c2 == col)
                                implies !has_digit(#[trigger] self.cand(r2, c2), d) by {
                            if !(r2 == r && c2 == c) {
                                assert(!has_digit(before.cand(r2, c2), d));
                            }
                        }
                    }
                }
                c += 1;
            }
            r += 1;
        }
        proof {
            assert forall|r2: int, c2: int| in_board(r2, c2) && is_peer(row as int, col as int, r2, c2)
                implies !has_digit(#[trigger] self.cand(r2, c2), d) by {
                if r2 != row && c2 != col {
                    assert(br <= r2 < br + 3 && bc <= c2 < bc + 3);
                }
            }
        }
        true
    }

    /// Eliminate digit `d` (with precomputed `bit`) from cell (row, col).
    /// Returns false on contradiction.
    fn eliminate(&mut self, row: usize, col: usize, d: u8, bit: u16) -> (res: bool)
        requires
            old(self).wf(),
            row < 9,
            col < 9,
            1 <= d <= 9,
            bit == 1u16 << d,
        ensures
            res ==> final(self).wf(),
            keeps(old(self).cells@, final(self).cells@),
            shrinks(old(self).candidates@, final(self).candidates@),
            res ==> final(self).measure() <= old(self).measure(),
            res ==> final(self).empty_count <= old(self).empty_count,
            res ==> forall|s: Seq<Seq<u8>>|
                is_complete_valid(s) && old(self).consistent(s) && s[row as int][col as int] != d
                    ==> final(self).consistent(s),
            !res ==> forall|s: Seq<Seq<u8>>|
                is_complete_valid(s) && old(self).consistent(s) ==> s[row as int][col as int] == d,
            res ==> !has_digit(final(self).cand(row as int, col as int), d),
            !has_digit(old(self).cand(row as int, col as int), d) ==> res && *final(self) == *old(self),
        decreases old(self).measure(), 0nat,
    {
        let k = row * 9 + col;
        let cands = self.candidates[k];
        proof {
            lemma_bit_test(cands, d);
            lemma_shrinks_refl(self.candidates@);
        }
        if cands & bit == 0 {
            return true;
        }
        let ghost start = *self;
        let remaining = cands & !bit;
        self.candidates[k] = remaining;
        proof {
            lemma_clear_digit_decreases(cands, d);
            lemma_clear_digit(cands, d, d);
            lemma_and_sub(cands, !bit);
            lemma_cand_sum_update(start.candidates@, k as int, remaining, 81);
            lemma_only_digits_and(cands, !bit);
            assert(start.cells@[k as int] == 0);
            assert(self.cells@ == start.cells@);
            assert forall|k2: int| 0 <= k2 < 81 implies only_digits(#[trigger] self.candidates@[k2]) by {
                if k2 != k {
                    assert(self.candidates@[k2] == start.candidates@[k2]);
                }
            }
            assert forall|k2: int| 0 <= k2 < 81 implies #[trigger] sub_mask(self.candidates@[k2], start.candidates@[k2]) by {
                if k2 != k {
                    assert(self.candidates@[k2] == start.candidates@[k2]);
                    assert(sub_mask(start.candidates@[k2], start.candidates@[k2]));
                }
            }
            assert(!has_digit(self.cand(row as int, col as int), d));
            assert forall|s: Seq<Seq<u8>>|
                is_complete_valid(s) && start.consistent(s) && s[row as int][col as int] != d
                    implies self.consistent(s) by {
                assert forall|r: int, c: int| in_board(r, c) implies #[trigger] self.cell_ok(s, r, c) by {
                    assert(start.cell_ok(s, r, c));
                    if r == row && c == col {
                        assert(1 <= s[r][c] <= 9);
                        lemma_clear_digit(cands, d, s[r][c]);
                    } else {
                        assert(9 * r + c != k);
                    }
                }
            }
        }
        if remaining == 0 {
            proof {
                assert forall|s: Seq<Seq<u8>>|
                    is_complete_valid(s) && start.consistent(s) implies s[row as int][col as int]
                    == d by {
                    assert(start.cell_ok(s, row as int, col as int));
                    assert(1 <= s[row as int][col as int] <= 9);
                    lemma_clear_digit(cands, d, s[row as int][col as int]);
                    lemma_all_digits(s[row as int][col as int]);
                }
            }
            return false;
        }
        // Naked single: exactly one candidate remains
        if remaining & (remaining - 1) == 0 {
            let sole = remaining.trailing_zeros() as u8;
            let ghost mid = *self;
            proof {
                lemma_lowest_digit(remaining);
            }
            let ok = self.place(row, col, sole);
            proof {
                lemma_keeps_trans(start.cells@, mid.cells@, self.cells@);
                lemma_shrinks_trans(start.candidates@, mid.candidates@, self.candidates@);
                lemma_lacks_kept(mid.candidates@, self.candidates@, d);
            }
            if !ok {
                proof {
                    assert forall|s: Seq<Seq<u8>>|
                        is_complete_valid(s) && start.consistent(s) implies s[row as int][col as int]
                        == d by {
                        if s[row as int][col as int] != d {
                            assert(mid.consistent(s));
                            assert(mid.cell_ok(s, row as int, col as int));
                            lemma_single_digit(remaining, sole, s[row as int][col as int]);
                        }
                    }
                }
                return false;
            }
            proof {
                assert forall|s: Seq<Seq<u8>>|
                    is_complete_valid(s) && start.consistent(s) && s[row as int][col as int] != d
                        implies self.consistent(s) by {
                    assert(mid.consistent(s));
                    assert(mid.cell_ok(s, row as int, col as int));
                    assert(1 <= s[row as int][col as int] <= 9);
                    lemma_single_digit(remaining, sole, s[row as int][col as int]);
                }
            }
        }
        // Hidden single: check each unit containing (row, col) for digit d
        let ghost s1 = *self;
        let ok = self.check_hidden_single_row(row, d, bit);
        proof {
            lemma_keeps_trans(start.cells@, s1.cells@, self.cells@);
            lemma_shrinks_trans(start.candidates@, s1.candidates@, self.candidates@);
            lemma_lacks_kept(s1.candidates@, self.candidates@, d);
        }
        if !ok {
            return false;
        }
        let ghost s2 = *self;
        let ok = self.check_hidden_single_col(col, d, bit);
        proof {
            lemma_keeps_trans(start.cells@, s2.cells@, self.cells@);
            lemma_shrinks_trans(start.candidates@, s2.candidates@, self.candidates@);
            lemma_lacks_kept(s2.candidates@, self.candidates@, d);
        }
        if !ok {
            return false;
        }
        let ghost s3 = *self;
        let ok = self.check_hidden_single_box(row, col, d, bit);
        proof {
            lemma_keeps_trans(start.cells@, s3.cells@, self.cells@);
            lemma_shrinks_trans(start.candidates@, s3.candidates@, self.candidates@);
            lemma_lacks_kept(s3.candidates@, self.candidates@, d);
        }
        if !ok {
            return false;
        }
        true
    }

    fn check_hidden_single_row(&mut self, row: usize, d: u8, bit: u16) -> (res: bool)
        requires
            old(self).wf(),
            row < 9,
            1 <= d <= 9,
            bit == 1u16 << d,
        ensures
            res ==> final(self).wf(),
            keeps(old(self).cells@, final(self).cells@),
            shrinks(old(self).candidates@, final(self).candidates@),
            res ==> final(self).measure() <= old(self).measure(),
            res ==> final(self).empty_count <= old(self).empty_count,
            res ==> forall|s: Seq<Seq<u8>>|
                is_complete_valid(s) && old(self).consistent(s) ==> final(self).consistent(s),
            !res ==> forall|s: Seq<Seq<u8>>| is_complete_valid(s) ==> !old(self).consistent(s),
            res ==> final(self).unit_settled(row as int, d)
                || (*final(self) == *old(self) && old(self).unit_two(row as int, d)),
        decreases old(self).measure(), 1nat,
    {
        proof {
            lemma_shrinks_refl(self.candidates@);
        }
        let mut c: usize = 0;
        while c < 9
            invariant
                c <= 9,
                row < 9,
                forall|c2: int| 0 <= c2 < c ==> #[trigger] self.cell(row as int, c2) != d,
                *self == *old(self),
                old(self).wf(),
            decreases 9 - c,
        {
            if self.cells[row * 9 + c] == d {
                proof {
                    lemma_shrinks_refl(self.candidates@);
                    assert(in_unit(row as int, row as int, c as int));
                    assert(self.cell(row as int, c as int) == d);
                }
                return true;
            }
            c += 1;
        }
        let mut count: u8 = 0;
        let mut last_col: usize = 0;
        let mut c: usize = 0;
        while c < 9
            invariant
                c <= 9,
                row < 9,
                1 <= d <= 9,
                bit == 1u16 << d,
                count <= 1,
                count == 0 ==> forall|c2: int| 0 <= c2 < c ==> !has_digit(#[trigger] self.cand(row as int, c2), d),
                count == 1 ==> last_col < c && has_digit(self.cand(row as int, last_col as int), d)
                    && forall|c2: int| 0 <= c2 < c && c2 != last_col ==> !has_digit(#[trigger] self.cand(row as int, c2), d),
                *self == *old(self),
                old(self).wf(),
            decreases 9 - c,
        {
            proof {
                lemma_bit_test(self.cand(row as int, c as int), d);
            }
            if self.candidates[row * 9 + c] & bit != 0 {
                let ghost prev = last_col;
                count += 1;
                last_col = c;
                if count > 1 {
                    proof {
                        lemma_shrinks_refl(self.candidates@);
                        assert(in_unit(row as int, row as int, prev as int));
                        assert(in_unit(row as int, row as int, c as int));
                        assert(has_digit(self.cand(row as int, prev as int), d));
                        assert(has_digit(self.cand(row as int, c as int), d));
                    }
                    return true;
                }
            }
            c += 1;
        }
        if count == 0 {
            proof {
                assert forall|s: Seq<Seq<u8>>| is_complete_valid(s) implies !self.consistent(s) by {
                    if self.consistent(s) {
                        lemma_unit_has_digit(s, row as int, d as int);
                        let i = choose|i: int| 0 <= i < 9 && #[trigger] s[unit_row(row as int, i)][unit_col(row as int, i)] == d;
                        assert(self.cell_ok(s, row as int, i));
                    }
                }
            }
            return false;
        }
        let ghost start = *self;
        proof {
            assert forall|s: Seq<Seq<u8>>| is_complete_valid(s) && start.consistent(s) implies s[row as int][last_col as int] == d by {
                lemma_unit_has_digit(s, row as int, d as int);
                let i = choose|i: int| 0 <= i < 9 && #[trigger] s[unit_row(row as int, i)][unit_col(row as int, i)] == d;
                assert(start.cell_ok(s, row as int, i));
            }
        }
        let res = self.place(row, last_col, d);
        proof {
            if res {
                assert(in_unit(row as int, row as int, last_col as int));
                assert(self.cell(row as int, last_col as int) == d);
            }
        }
        res
    }

    fn check_hidden_single_col(&mut self, col: usize, d: u8, bit: u16) -> (res: bool)
        requires
            old(self).wf(),
            col < 9,
            1 <= d <= 9,
            bit == 1u16 << d,
        ensures
            res ==> final(self).wf(),
            keeps(old(self).cells@, final(self).cells@),
            shrinks(old(self).candidates@, final(self).candidates@),
            res ==> final(self).measure() <= old(self).measure(),
            res ==> final(self).empty_count <= old(self).empty_count,
            res ==> forall|s: Seq<Seq<u8>>|
                is_complete_valid(s) && old(self).consistent(s) ==> final(self).consistent(s),
            !res ==> forall|s: Seq<Seq<u8>>| is_complete_valid(s) ==> !old(self).consistent(s),
            res ==> final(self).unit_settled(9 + col as int, d)
                || (*final(self) == *old(self) && old(self).unit_two(9 + col as int, d)),
        decreases old(self).measure(), 1nat,
    {
        proof {
            lemma_shrinks_refl(self.candidates@);
        }
        let mut r: usize = 0;
        while r < 9
            invariant
                r <= 9,
                col < 9,
                forall|r2: int| 0 <= r2 < r ==> #[trigger] self.cell(r2, col as int) != d,
                *self == *old(self),
                old(self).wf(),
            decreases 9 - r,
        {
            if self.cells[r * 9 + col] == d {
                proof {
                    lemma_shrinks_refl(self.candidates@);
                    assert(in_unit(9 + col as int, r as int, col as int));
                    assert(self.cell(r as int, col as int) == d);
                }
                return true;
            }
            r += 1;
        }
        let mut count: u8 = 0;
        let mut last_row: usize = 0;
        let mut r: usize = 0;
        while r < 9
            invariant
                r <= 9,
                col < 9,
                1 <= d <= 9,
                bit == 1u16 << d,
                count <= 1,
                count == 0 ==> forall|r2: int| 0 <= r2 < r ==> !has_digit(#[trigger] self.cand(r2, col as int), d),
                count == 1 ==> last_row < r && has_digit(self.cand(last_row as int, col as int), d)
                    && forall|r2: int| 0 <= r2 < r && r2 != last_row ==> !has_digit(#[trigger] self.cand(r2, col as int), d),
                *self == *old(self),
                old(self).wf(),
            decreases 9 - r,
        {
            proof {
                lemma_bit_test(self.cand(r as int, col as int), d);
            }
            if self.candidates[r * 9 + col] & bit != 0 {
                let ghost prev = last_row;
                count += 1;
                last_row = r;
                if count > 1 {
                    proof {
                        lemma_shrinks_refl(self.candidates@);
                        assert(in_unit(9 + col as int, prev as int, col as int));
                        assert(in_unit(9 + col as int, r as int, col as int));
                        assert(has_digit(self.cand(prev as int, col as int), d));
                        assert(has_digit(self.cand(r as int, col as int), d));
                    }
                    return true;
                }
            }
            r += 1;
        }
        if count == 0 {
            proof {
                assert forall|s: Seq<Seq<u8>>| is_complete_valid(s) implies !self.consistent(s) by {
                    if self.consistent(s) {
                        lemma_unit_has_digit(s, 9 + col as int, d as int);
                        let i = choose|i: int| 0 <= i < 9 && #[trigger] s[unit_row(9 + col as int, i)][unit_col(9 + col as int, i)] == d;
                        assert(self.cell_ok(s, i, col as int));
                    }
                }
            }
            return false;
        }
        let ghost start = *self;
        proof {
            assert forall|s: Seq<Seq<u8>>| is_complete_valid(s) && start.consistent(s) implies s[last_row as int][col as int] == d by {
                lemma_unit_has_digit(s, 9 + col as int, d as int);
                let i = choose|i: int| 0 <= i < 9 && #[trigger] s[unit_row(9 + col as int, i)][unit_col(9 + col as int, i)] == d;
                assert(start.cell_ok(s, i, col as int));
            }
        }
        let res = self.place(last_row, col, d);
        proof {
            if res {
                assert(in_unit(9 + col as int, last_row as int, col as int));
                assert(self.cell(last_row as int, col as int) == d);
            }
        }
        res
    }

    fn check_hidden_single_box(&mut self, row: usize, col: usize, d: u8, bit: u16) -> (res: bool)
        requires
            old(self).wf(),
            row < 9,
            col < 9,
            1 <= d <= 9,
            bit == 1u16 << d,
        ensures
            res ==> final(self).wf(),
            keeps(old(self).cells@, final(self).cells@),
            shrinks(old(self).candidates@, final(self).candidates@),
            res ==> final(self).measure() <= old(self).measure(),
            res ==> final(self).empty_count <= old(self).empty_count,
            res ==> forall|s: Seq<Seq<u8>>|
                is_complete_valid(s) && old(self).consistent(s) ==> final(self).consistent(s),
            !res ==> forall|s: Seq<Seq<u8>>| is_complete_valid(s) ==> !old(self).consistent(s),
            res ==> final(self).unit_settled(18 + 3 * (row as int / 3) + col as int / 3, d)
                || (*final(self) == *old(self) && old(self).unit_two(18 + 3 * (row as int / 3) + col as int / 3, d)),
        decreases old(self).measure(), 1nat,
    {
        let br = (row / 3) * 3;
        let bc = (col / 3) * 3;
        let ghost u = 18 + 3 * (row as int / 3) + col as int / 3;
        proof {
            lemma_shrinks_refl(self.candidates@);
            assert forall|r2: int, c2: int| br <= r2 < br + 3 && bc <= c2 < bc + 3 implies #[trigger] in_unit(u, r2, c2) by {
                assert((u - 18) / 3 == row / 3 && (u - 18) % 3 == col / 3);
            }
        }
        let mut r: usize = br;
        while r < br + 3
            invariant
                br == (row / 3) * 3,
                bc == (col / 3) * 3,
                forall|r2: int, c2: int| br <= r2 < br + 3 && bc <= c2 < bc + 3 ==> #[trigger] in_unit(u, r2, c2),
                br <= r <= br + 3,
                row < 9,
                col < 9,
                forall|r2: int, c2: int| br <= r2 < r && bc <= c2 < bc + 3 ==> #[trigger] self.cell(r2, c2) != d,
                *self == *old(self),
                old(self).wf(),
            decreases br + 3 - r,
        {
            let mut c: usize = bc;
            while c < bc + 3
                invariant
                    br == (row / 3) * 3,
                    bc == (col / 3) * 3,
                    forall|r2: int, c2: int| br <= r2 < br + 3 && bc <= c2 < bc + 3 ==> #[trigger] in_unit(u, r2, c2),
                    br <= r < br + 3,
                    bc <= c <= bc + 3,
                    row < 9,
                    col < 9,
                    forall|r2: int, c2: int| br <= r2 < r && bc <= c2 < bc + 3 ==> #[trigger] self.cell(r2, c2) != d,
                    forall|c2: int| bc <= c2 < c ==> #[trigger] self.cell(r as int, c2) != d,
                    *self == *old(self),
                    old(self).wf(),
                decreases bc + 3 - c,
            {
                if self.cells[r * 9 + c] == d {
                    proof {
                        lemma_shrinks_refl(self.candidates@);
                        assert(in_unit(u, r as int, c as int));
                        assert(self.cell(r as int, c as int) == d);
                    }
                    return true;
                }
                c += 1;
            }
            r += 1;
        }
        let mut count: u8 = 0;
        let mut last_r: usize = 0;
        let mut last_c: usize = 0;
        let mut r: usize = br;
        while r < br + 3
            invariant
                br == (row / 3) * 3,
                bc == (col / 3) * 3,
                forall|r2: int, c2: int| br <= r2 < br + 3 && bc <= c2 < bc + 3 ==> #[trigger] in_unit(u, r2, c2),
                br <= r <= br + 3,
                row < 9,
                col < 9,
                1 <= d <= 9,
                bit == 1u16 << d,
                count <= 1,
                count == 0 ==> forall|r2: int, c2: int| br <= r2 < r && bc <= c2 < bc + 3 ==> !has_digit(#[trigger] self.cand(r2, c2), d),
                count == 1 ==> br <= last_r < r && bc <= last_c < bc + 3 && has_digit(self.cand(last_r as int, last_c as int), d)
                    && forall|r2: int, c2: int| br <= r2 < r && bc <= c2 < bc + 3 && !(r2 == last_r && c2 == last_c) ==> !has_digit(#[trigger] self.cand(r2, c2), d),
                *self == *old(self),
                old(self).wf(),
            decreases br + 3 - r,
        {
            let mut c: usize = bc;
            while c < bc + 3
                invariant
                    br == (row / 3) * 3,
                    bc == (col / 3) * 3,
                    forall|r2: int, c2: int| br <= r2 < br + 3 && bc <= c2 < bc + 3 ==> #[trigger] in_unit(u, r2, c2),
                    br <= r < br + 3,
                    bc <= c <= bc + 3,
                    row < 9,
                    col < 9,
                    1 <= d <= 9,
                    bit == 1u16 << d,
                    count <= 1,
                    count == 0 ==> forall|r2: int, c2: int| ((br <= r2 < r && bc <= c2 < bc + 3) || (r2 == r && bc <= c2 < c)) ==> !has_digit(#[trigger] self.cand(r2, c2), d),
                    count == 1 ==> ((br <= last_r < r && bc <= last_c < bc + 3) || (last_r == r && bc <= last_c < c)) && has_digit(self.cand(last_r as int, last_c as int), d)
                        && forall|r2: int, c2: int| ((br <= r2 < r && bc <= c2 < bc + 3) || (r2 == r && bc <= c2 < c)) && !(r2 == last_r && c2 == last_c) ==> !has_digit(#[trigger] self.cand(r2, c2), d),
                    *self == *old(self),
                    old(self).wf(),
                decreases bc + 3 - c,
            {
                proof {
                    lemma_bit_test(self.cand(r as int, c as int), d);
                }
                if self.candidates[r * 9 + c] & bit != 0 {
                    let ghost (pr, pc) = (last_r, last_c);
                    count += 1;
                    last_r = r;
                    last_c = c;
                    if count > 1 {
                        proof {
                            lemma_shrinks_refl(self.candidates@);
                            assert(in_unit(u, pr as int, pc as int));
                            assert(in_unit(u, r as int, c as int));
                            assert(has_digit(self.cand(pr as int, pc as int), d));
                            assert(has_digit(self.cand(r as int, c as int), d));
                        }
                        return true;
                    }
                }
                c += 1;
            }
            r += 1;
        }
        proof {
            assert forall|i: int| 0 <= i < 9 implies br <= #[trigger] unit_row(u, i) < br + 3 && bc <= unit_col(u, i) < bc + 3 by {
            }
        }
        if count == 0 {
            proof {
                assert forall|s: Seq<Seq<u8>>| is_complete_valid(s) implies !self.consistent(s) by {
                    if self.consistent(s) {
                        lemma_unit_has_digit(s, u, d as int);
                        let i = choose|i: int| 0 <= i < 9 && #[trigger] s[unit_row(u, i)][unit_col(u, i)] == d;
                        assert(self.cell_ok(s, unit_row(u, i), unit_col(u, i)));
                    }
                }
            }
            return false;
        }
        let ghost start = *self;
        proof {
            assert forall|s: Seq<Seq<u8>>| is_complete_valid(s) && start.consistent(s) implies s[last_r as int][last_c as int] == d by {
                lemma_unit_has_digit(s, u, d as int);
                let i = choose|i: int| 0 <= i < 9 && #[trigger] s[unit_row(u, i)][unit_col(u, i)] == d;
                assert(start.cell_ok(s, unit_row(u, i), unit_col(u, i)));
            }
        }
        let res = self.place(last_r, last_c, d);
        proof {
            if res {
                assert(in_unit(u, last_r as int, last_c as int));
                assert(self.cell(last_r as int, last_c as int) == d);
            }
        }
        res
    }

    /// Place digit `d` in cell (row, col) and propagate. Returns false on contradiction.
    fn place(&mut self, row: usize, col: usize, d: u8) -> (res: bool)
        requires
            old(self).wf(),
            row < 9,
            col < 9,
            old(self).cells@[9 * row + col] == 0 ==> has_digit(old(self).candidates@[9 * row + col], d),
        ensures
            res ==> final(self).wf(),
            keeps(old(self).cells@, final(self).cells@),
            shrinks(old(self).candidates@, final(self).candidates@),
            res ==> final(self).measure() <= old(self).measure(),
            res ==> final(self).empty_count <= old(self).empty_count,
            res && old(self).cells@[9 * row + col] == 0 ==> final(self).empty_count < old(self).empty_count,
            res ==> forall|s: Seq<Seq<u8>>|
                is_complete_valid(s) && old(self).consistent(s) && s[row as int][col as int] == d
                    ==> final(self).consistent(s),
            !res ==> forall|s: Seq<Seq<u8>>|
                is_complete_valid(s) && old(self).consistent(s) ==> s[row as int][col as int] != d,
            res ==> final(self).cells@[9 * row + col] == d,
            old(self).cells@[9 * row + col] != 0
                ==> res == (old(self).cells@[9 * row + col] == d) && *final(self) == *old(self),
        decreases old(self).measure(), 0nat,
    {
        let k = row * 9 + col;
        proof {
            lemma_shrinks_refl(self.candidates@);
        }
        if self.cells[k] != 0 {
            proof {
                assert forall|s: Seq<Seq<u8>>| is_complete_valid(s) && old(self).consistent(s) implies s[row as int][col as int] == self.cells@[k as int] by {
                    assert(old(self).cell_ok(s, row as int, col as int));
                }
            }
            return self.cells[k] == d;
        }
        let ghost start = *self;
        proof {
            lemma_only_digits(start.candidates@[k as int], d);
            lemma_count_empty_bounds(start.cells@, 81);
            lemma_count_empty_update(start.cells@, k as int, d, 81);
            lemma_cand_sum_update(start.candidates@, k as int, 0, 81);
            lemma_all_digits(d);
            assert(start.candidates@[k as int] != 0);
            assert(count_empty(start.cells@, 81) >= 1);
        }
        self.cells[k] = d;
        self.empty_count -= 1;
        self.candidates[k] = 0;
        proof {
            assert forall|k2: int| 0 <= k2 < 81 implies only_digits(#[trigger] self.candidates@[k2]) by {
                if k2 != k {
                    assert(self.candidates@[k2] == start.candidates@[k2]);
                }
            }
            assert forall|k2: int| 0 <= k2 < 81 implies #[trigger] self.cells@[k2] <= 9 by {
                if k2 != k {
                    assert(self.cells@[k2] == start.cells@[k2]);
                }
            }
            assert forall|k2: int| 0 <= k2 < 81 && #[trigger] self.cells@[k2] != 0 implies self.candidates@[k2] == 0 by {
                if k2 != k {
                    assert(self.cells@[k2] == start.cells@[k2]);
                }
            }
            assert forall|k2: int| 0 <= k2 < 81 && start.cells@[k2] != 0 implies #[trigger] self.cells@[k2] == start.cells@[k2] by {
                assert(k2 != k);
            }
            assert forall|k2: int| 0 <= k2 < 81 implies #[trigger] sub_mask(self.candidates@[k2], start.candidates@[k2]) by {
                if k2 == k {
                    lemma_empty_mask(start.candidates@[k2], d);
                } else {
                    assert(self.candidates@[k2] == start.candidates@[k2]);
                    assert(sub_mask(start.candidates@[k2], start.candidates@[k2]));
                }
            }
            assert forall|s: Seq<Seq<u8>>|
                is_complete_valid(s) && start.consistent(s) && s[row as int][col as int] == d
                    implies self.consistent(s) by {
                assert forall|r: int, c: int| in_board(r, c) implies #[trigger] self.cell_ok(s, r, c) by {
                    assert(start.cell_ok(s, r, c));
                    if !(r == row && c == col) {
                        assert(9 * r + c != k);
                    }
                }
            }
        }
        let ghost mid = *self;
        let res = self.eliminate_from_peers(row, col, d);
        proof {
            lemma_keeps_trans(start.cells@, mid.cells@, self.cells@);
            lemma_shrinks_trans(start.candidates@, mid.candidates@, self.candidates@);
            assert(mid.cells@[k as int] == d);
            if !res {
                assert forall|s: Seq<Seq<u8>>| is_complete_valid(s) && start.consistent(s) implies s[row as int][col as int] != d by {
                    if s[row as int][col as int] == d {
                        assert(mid.consistent(s));
                    }
                }
            }
        }
        res
    }

    /// Copy the grid's cells; empty cells start with all nine candidates.
    fn load(grid: &Grid) -> (state: CpState)
        requires
            digits_in_range(grid@),
        ensures
            state.wf(),
            forall|k: int| 0 <= k < 81 ==> #[trigger] state.cells@[k] == grid@[k / 9][k % 9],
            forall|s: Seq<Seq<u8>>| is_solution_of(grid@, s) ==> state.consistent(s),
    {
        let mut state = CpState { cells: [0u8; 81], candidates: [ALL_DIGITS; 81], empty_count: 0 };
        let ghost g = grid@;
        // Copy cells, count empties, zero candidates for filled cells
        let mut r: usize = 0;
        while r < 9
            invariant
                r <= 9,
                g == grid@,
                digits_in_range(g),
                state.empty_count == count_empty(state.cells@, 9 * r),
                state.empty_count <= 9 * r,
                forall|k: int| 0 <= k < 9 * r ==> #[trigger] state.cells@[k] == g[k / 9][k % 9],
                forall|k: int| 0 <= k < 9 * r ==> #[trigger] state.candidates@[k] == (if g[k / 9][k % 9] == 0 { ALL_DIGITS } else { 0u16 }),
                forall|k: int| 9 * r <= k < 81 ==> #[trigger] state.cells@[k] == 0,
                forall|k: int| 9 * r <= k < 81 ==> #[trigger] state.candidates@[k] == ALL_DIGITS,
            decreases 9 - r,
        {
            let mut c: usize = 0;
            while c < 9
                invariant
                    r < 9,
                    c <= 9,
                    g == grid@,
                    digits_in_range(g),
                    state.empty_count == count_empty(state.cells@, 9 * r + c),
                    state.empty_count <= 9 * r + c,
                    forall|k: int| 0 <= k < 9 * r + c ==> #[trigger] state.cells@[k] == g[k / 9][k % 9],
                    forall|k: int| 0 <= k < 9 * r + c ==> #[trigger] state.candidates@[k] == (if g[k / 9][k % 9] == 0 { ALL_DIGITS } else { 0u16 }),
                    forall|k: int| 9 * r + c <= k < 81 ==> #[trigger] state.cells@[k] == 0,
                    forall|k: int| 9 * r + c <= k < 81 ==> #[trigger] state.candidates@[k] == ALL_DIGITS,
                decreases 9 - c,
            {
                let v = grid.get(r, c);
                let ghost k0 = 9 * r + c;
                let ghost before = state;
                assert(k0 / 9 == r && k0 % 9 == c);
                if v == 0 {
                    state.empty_count += 1;
                } else {
                    state.cells[r * 9 + c] = v;
                    state.candidates[r * 9 + c] = 0;
                    proof {
                        lemma_count_empty_update(before.cells@, k0, v, k0);
                    }
                }
                proof {
                    assert(before.cells@[k0] == 0);
                    assert forall|k: int| 0 <= k < k0 + 1 implies #[trigger] state.cells@[k] == g[k / 9][k % 9] by {
                        if k < k0 {
                            assert(before.cells@[k] == g[k / 9][k % 9]);
                        }
                    }
                    assert forall|k: int| 0 <= k < k0 + 1 implies #[trigger] state.candidates@[k] == (if g[k / 9][k % 9] == 0 { ALL_DIGITS } else { 0u16 }) by {
                        if k < k0 {
                            assert(before.candidates@[k] == (if g[k / 9][k % 9] == 0 { ALL_DIGITS } else { 0u16 }));
                        }
                    }
                    assert forall|k: int| k0 + 1 <= k < 81 implies #[trigger] state.cells@[k] == 0 by {
                        assert(before.cells@[k] == 0);
                    }
                    assert forall|k: int| k0 + 1 <= k < 81 implies #[trigger] state.candidates@[k] == ALL_DIGITS by {
                        assert(before.candidates@[k] == ALL_DIGITS);
                    }
                    assert(state.cells@[k0] == v);
                    assert(count_empty(state.cells@, k0 + 1) == count_empty(state.cells@, k0) + if v == 0 { 1nat } else { 0nat });
                }
                c += 1;
            }
            r += 1;
        }
        proof {
            assert forall|k: int| 0 <= k < 81 implies #[trigger] state.cells@[k] <= 9 && (state.cells@[k] != 0 ==> state.candidates@[k] == 0)
                && only_digits(state.candidates@[k]) by {
                assert(in_board(k / 9, k % 9));
                assert(g[k / 9][k % 9] <= 9);
                assert(state.candidates@[k] == (if g[k / 9][k % 9] == 0 { ALL_DIGITS } else { 0u16 }));
                lemma_all_digits(0);
            }
            assert forall|k: int| 0 <= k < 81 implies only_digits(#[trigger] state.candidates@[k]) by {
                assert(state.cells@[k] <= 9);
            }
            assert forall|k: int| 0 <= k < 81 && #[trigger] state.cells@[k] != 0 implies state.candidates@[k] == 0 by {
                assert(state.cells@[k] <= 9);
            }
            assert forall|s: Seq<Seq<u8>>| is_solution_of(g, s) implies state.consistent(s) by {
                assert forall|r2: int, c2: int| in_board(r2, c2) implies #[trigger] state.cell_ok(s, r2, c2) by {
                    let k = 9 * r2 + c2;
                    assert(k / 9 == r2 && k % 9 == c2);
                    assert(state.cells@[k] == g[r2][c2]);
                    assert(state.candidates@[k] == (if g[k / 9][k % 9] == 0 { ALL_DIGITS } else { 0u16 }));
                    assert(1 <= s[r2][c2] <= 9);
                    lemma_all_digits(s[r2][c2]);
                }
            }
        }
        state
    }

    fn from_grid(grid: &Grid) -> (res: Option<CpState>)
        requires
            digits_in_range(grid@),
        ensures
            res matches Some(st) ==> st.wf() && forall|s: Seq<Seq<u8>>| is_solution_of(grid@, s) ==> st.consistent(s),
            res is None ==> forall|s: Seq<Seq<u8>>| !is_solution_of(grid@, s),
            res matches Some(st) ==> forall|r: int, c: int| in_board(r, c) && grid@[r][c] != 0 ==> #[trigger] st.cell(r, c) == grid@[r][c],
    {
        let ghost g = grid@;
        let mut state = CpState::load(grid);
        let ghost loaded = state;
        // Propagate constraints from filled cells
        let mut r: usize = 0;
        while r < 9
            invariant
                r <= 9,
                g == grid@,
                digits_in_range(g),
                state.wf(),
                forall|s: Seq<Seq<u8>>| is_solution_of(g, s) ==> state.consistent(s),
                keeps(loaded.cells@, state.cells@),
                forall|k: int| 0 <= k < 81 ==> #[trigger] loaded.cells@[k] == g[k / 9][k % 9],
            decreases 9 - r,
        {
            let mut c: usize = 0;
            while c < 9
                invariant
                    r < 9,
                    c <= 9,
                    g == grid@,
                    digits_in_range(g),
                    state.wf(),
                    forall|s: Seq<Seq<u8>>| is_solution_of(g, s) ==> state.consistent(s),
                    keeps(loaded.cells@, state.cells@),
                    forall|k: int| 0 <= k < 81 ==> #[trigger] loaded.cells@[k] == g[k / 9][k % 9],
                decreases 9 - c,
            {
                let v = grid.get(r, c);
                if v != 0 {
                    // Eliminate this digit from all peers
                    let ghost before = state;
                    proof {
                        assert(in_board(r as int, c as int));
                    }
                    if !state.eliminate_from_peers(r, c, v) {
                        proof {
                            assert forall|s: Seq<Seq<u8>>| !is_solution_of(g, s) by {
                                if is_solution_of(g, s) {
                                    assert(before.consistent(s));
                                    assert(s[r as int][c as int] == g[r as int][c as int]);
                                }
                            }
                        }
                        return None;
                    }
                    proof {
                        lemma_keeps_trans(loaded.cells@, before.cells@, state.cells@);
                        assert forall|s: Seq<Seq<u8>>| is_solution_of(g, s) implies state.consistent(s) by {
                            assert(before.consistent(s));
                            assert(s[r as int][c as int] == g[r as int][c as int]);
                        }
                    }
                }
                c += 1;
            }
            r += 1;
        }
        proof {
            assert forall|r: int, c: int| in_board(r, c) && g[r][c] != 0 implies #[trigger] state.cell(r, c) == g[r][c] by {
                assert(loaded.cells@[9 * r + c] == g[(9 * r + c) / 9][(9 * r + c) % 9]);
                assert((9 * r + c) / 9 == r && (9 * r + c) % 9 == c);
            }
        }
        Some(state)
    }
}

/// `n` is at least the number of solutions of `g` (where that is below `limit`):
/// for any finite set of solutions of `g`, `n` reaches its size or `limit`.
pub open spec fn counts_all_solutions(g: Seq<Seq<u8>>, limit: int, n: int) -> bool {
    forall|sols: Set<Seq<Seq<u8>>>|
        sols.finite() && (forall|s: Seq<Seq<u8>>| #[trigger] sols.contains(s) ==> is_solution_of(g, s))
            ==> n >= min(sols.len() as int, limit)
}

/// `sols` is a finite set of solutions of `g`.
pub open spec fn solutions_in(g: Seq<Seq<u8>>, sols: Set<Seq<Seq<u8>>>) -> bool {
    sols.finite() && forall|s: Seq<Seq<u8>>| #[trigger] sols.contains(s) ==> is_solution_of(g, s)
}

/// `n` distinct solutions of `g` exist.
pub open spec fn has_solutions(g: Seq<Seq<u8>>, n: int) -> bool {
    exists|sols: Set<Seq<Seq<u8>>>| #[trigger] solutions_in(g, sols) && sols.len() == n
}

/// The count is exact: below the limit, no finite set of solutions is larger
/// than the count.
pub proof fn lemma_count_exact(g: Seq<Seq<u8>>, limit: int, n: int)
    requires
        counts_all_solutions(g, limit, n),
        n < limit,
    ensures
        forall|sols: Set<Seq<Seq<u8>>>| #[trigger] solutions_in(g, sols) ==> sols.len() <= n,
{
    assert forall|sols: Set<Seq<Seq<u8>>>| #[trigger] solutions_in(g, sols) implies sols.len() <= n by {
        assert(n >= min(sols.len() as int, limit));
    }
}

/// A grid with exactly one solution counts 1 (with a positive limit).
pub proof fn lemma_unique_counts_one(g: Seq<Seq<u8>>, limit: int, n: int, s0: Seq<Seq<u8>>)
    requires
        limit >= 1,
        counts_all_solutions(g, limit, n),
        has_solutions(g, n),
        is_solution_of(g, s0),
        forall|s: Seq<Seq<u8>>| is_solution_of(g, s) ==> s == s0,
    ensures
        n == 1,
{
    broadcast use vstd::set::group_set_axioms;
    let one = Set::<Seq<Seq<u8>>>::empty().insert(s0);
    assert(one.len() == 1);
    assert(forall|s: Seq<Seq<u8>>| #[trigger] one.contains(s) ==> is_solution_of(g, s));
    assert(n >= min(one.len() as int, limit));
    let sols = choose|sols: Set<Seq<Seq<u8>>>| #[trigger] solutions_in(g, sols) && sols.len() == n;
    assert(sols.subset_of(one));
    vstd::set_lib::lemma_len_subset(sols, one);
}

/// A grid without solutions counts 0.
pub proof fn lemma_unsolvable_counts_zero(g: Seq<Seq<u8>>, n: int)
    requires
        has_solutions(g, n),
        forall|s: Seq<Seq<u8>>| !is_solution_of(g, s),
    ensures
        n == 0,
{
    let sols = choose|sols: Set<Seq<Seq<u8>>>| #[trigger] solutions_in(g, sols) && sols.len() == n;
    assert forall|s: Seq<Seq<u8>>| !sols.contains(s) by {
        if sols.contains(s) {
            assert(is_solution_of(g, s));
        }
    }
    lemma_no_member_empty(sols);
}

/// A count of 0 (with a positive limit) means the grid has no solution.
pub proof fn lemma_count_zero_means_unsolvable(g: Seq<Seq<u8>>, limit: int)
    requires
        limit >= 1,
        counts_all_solutions(g, limit, 0),
    ensures
        forall|s: Seq<Seq<u8>>| !is_solution_of(g, s),
{
    broadcast use vstd::set::group_set_axioms;
    assert forall|s: Seq<Seq<u8>>| !is_solution_of(g, s) by {
        if is_solution_of(g, s) {
            let sols = Set::<Seq<Seq<u8>>>::empty().insert(s);
            assert(sols.finite());
            assert(sols.len() == 1);
            assert(forall|t: Seq<Seq<u8>>| #[trigger] sols.contains(t) ==> is_solution_of(g, t));
            assert(0 >= min(sols.len() as int, limit));
        }
    }
}

/// A count of at most 1 with a limit of at least 2 means the grid has at most
/// one solution.
pub proof fn lemma_count_one_means_unique(g: Seq<Seq<u8>>, limit: int, n: int)
    requires
        limit >= 2,
        n <= 1,
        counts_all_solutions(g, limit, n),
    ensures
        forall|s1: Seq<Seq<u8>>, s2: Seq<Seq<u8>>| is_solution_of(g, s1) && is_solution_of(g, s2) ==> s1 == s2,
{
    broadcast use vstd::set::group_set_axioms;
    assert forall|s1: Seq<Seq<u8>>, s2: Seq<Seq<u8>>| is_solution_of(g, s1) && is_solution_of(g, s2) implies s1 == s2 by {
        if s1 != s2 {
            let sols = Set::<Seq<Seq<u8>>>::empty().insert(s1).insert(s2);
            assert(sols.finite());
            assert(Set::<Seq<Seq<u8>>>::empty().insert(s1).len() == 1);
            assert(!Set::<Seq<Seq<u8>>>::empty().insert(s1).contains(s2));
            assert(sols.len() == 2);
            assert(forall|t: Seq<Seq<u8>>| #[trigger] sols.contains(t) ==> is_solution_of(g, t));
            assert(n >= min(sols.len() as int, limit));
        }
    }
}

/// Count solutions for the given grid, stopping early once `limit` is reached.
/// Returns the smaller of `limit` and the number of solutions: every solution
/// is counted (up to `limit`), and `n` distinct solutions exist.
pub fn count_solutions(grid: &Grid, limit: usize) -> (n: usize)
    requires
        digits_in_range(grid@),
    ensures
        n <= limit,
        counts_all_solutions(grid@, limit as int, n as int),
        has_solutions(grid@, n as int),
{
    let state = match CpState::from_grid(grid) {
        Some(state) => state,
        None => {
            proof {
                assert forall|sols: Set<Seq<Seq<u8>>>|
                    sols.finite() && (forall|s: Seq<Seq<u8>>| #[trigger] sols.contains(s) ==> is_solution_of(grid@, s))
                        implies 0 >= min(sols.len() as int, limit as int) by {
                    lemma_no_member_empty(sols);
                }
                let e = Set::<Seq<Seq<u8>>>::empty();
                assert(solutions_in(grid@, e) && e.len() == 0);
            }
            return 0;
        },
    };
    let mut count: usize = 0;
    solve_recursive_cp(&state, &mut count, limit);
    proof {
        assert forall|sols: Set<Seq<Seq<u8>>>|
            sols.finite() && (forall|s: Seq<Seq<u8>>| #[trigger] sols.contains(s) ==> is_solution_of(grid@, s))
                implies count >= min(sols.len() as int, limit as int) by {
            assert forall|s: Seq<Seq<u8>>| #[trigger] sols.contains(s) implies is_complete_valid(s) && state.consistent(s) by {
            }
        }
        let k: int = count as int;
        let f = choose|f: Set<Seq<Seq<u8>>>| #[trigger] found_among(state, f, k);
        assert forall|s: Seq<Seq<u8>>| #[trigger] f.contains(s) implies is_solution_of(grid@, s) by {
            assert(state.agrees(s));
            assert forall|r: int, c: int| in_board(r, c) && grid@[r][c] != 0 implies #[trigger] s[r][c] == grid@[r][c] by {
                assert(state.cell(r, c) == grid@[r][c]);
            }
        }
        assert(solutions_in(grid@, f) && f.len() == count);
    }
    count
}

proof fn lemma_no_member_empty<A>(s: Set<A>)
    requires
        s.finite(),
        forall|a: A| !s.contains(a),
    ensures
        s.len() == 0,
{
    if s.len() != 0 {
        let a = s.choose();
        vstd::set_lib::lemma_set_empty_equivalency_len(s);
    }
}

/// Find empty cell with fewest candidates (MRV heuristic).
fn find_mrv_cell(state: &CpState) -> (res: Option<(usize, usize)>)
    requires
        state.wf(),
    ensures
        res matches Some((r, c)) ==> r < 9 && c < 9 && state.cell(r as int, c as int) == 0 && state.cand(r as int, c as int) != 0,
        res is None ==> forall|r: int, c: int| in_board(r, c) && state.cell(r, c) == 0 ==> #[trigger] state.cand(r, c) == 0,
{
    let mut best: Option<(usize, usize)> = None;
    let mut best_count: u32 = 10;
    let mut r: usize = 0;
    while r < 9
        invariant
            r <= 9,
            best matches Some((br, bc)) ==> br < 9 && bc < 9 && state.cell(br as int, bc as int) == 0 && state.cand(br as int, bc as int) != 0,
            best is None ==> forall|r2: int, c2: int| in_board(r2, c2) && r2 < r && state.cell(r2, c2) == 0 ==> #[trigger] state.cand(r2, c2) == 0,
            best is None ==> best_count == 10,
            state.wf(),
        decreases 9 - r,
    {
        let mut c: usize = 0;
        while c < 9
            invariant
                r < 9,
                c <= 9,
                best matches Some((br, bc)) ==> br < 9 && bc < 9 && state.cell(br as int, bc as int) == 0 && state.cand(br as int, bc as int) != 0,
                best is None ==> forall|r2: int, c2: int| in_board(r2, c2) && (r2 < r || (r2 == r && c2 < c)) && state.cell(r2, c2) == 0 ==> #[trigger] state.cand(r2, c2) == 0,
                best is None ==> best_count == 10,
                state.wf(),
            decreases 9 - c,
        {
            let cands = state.candidates[r * 9 + c];
            if state.cells[r * 9 + c] == 0 && cands != 0 {
                proof {
                    lemma_popcount_only_digits(cands);
                }
                let n = count_digits(cands);
                if n < best_count {
                    best_count = n;
                    best = Some((r, c));
                    if n == 2 {
                        return best; // can't do better than 2
                    }
                }
            }
            c += 1;
        }
        r += 1;
    }
    best
}

/// `found` is a finite set of `n` complete valid boards that agree with `state`.
spec fn found_among(state: CpState, found: Set<Seq<Seq<u8>>>, n: int) -> bool {
    &&& found.finite()
    &&& found.len() == n
    &&& forall|s: Seq<Seq<u8>>| #[trigger] found.contains(s) ==> is_complete_valid(s) && state.agrees(s)
}

/// `n` distinct complete valid boards agree with `state`.
spec fn witnessed(state: CpState, n: int) -> bool {
    exists|f: Set<Seq<Seq<u8>>>| #[trigger] found_among(state, f, n)
}

/// The state's placed digits as a grid.
fn state_board(state: &CpState) -> (g: Grid)
    ensures
        is_board(g@),
        forall|r: int, c: int| in_board(r, c) ==> #[trigger] g@[r][c] == state.cell(r, c),
{
    let mut g = Grid::empty();
    let mut r: usize = 0;
    while r < 9
        invariant
            r <= 9,
            is_board(g@),
            forall|r2: int, c2: int| in_board(r2, c2) && r2 < r ==> #[trigger] g@[r2][c2] == state.cell(r2, c2),
        decreases 9 - r,
    {
        let mut c: usize = 0;
        while c < 9
            invariant
                r < 9,
                c <= 9,
                is_board(g@),
                forall|r2: int, c2: int| in_board(r2, c2) && (r2 < r || (r2 == r && c2 < c))
                    ==> #[trigger] g@[r2][c2] == state.cell(r2, c2),
            decreases 9 - c,
        {
            g.set(r, c, state.cells[r * 9 + c]);
            proof {
                g.lemma_is_board();
            }
            c += 1;
        }
        r += 1;
    }
    g
}

fn solve_recursive_cp(state: &CpState, count: &mut usize, limit: usize)
    requires
        state.wf(),
        *old(count) <= limit,
    ensures
        *old(count) <= *final(count) <= limit,
        forall|sols: Set<Seq<Seq<u8>>>|
            sols.finite() && (forall|s: Seq<Seq<u8>>| #[trigger] sols.contains(s) ==> is_complete_valid(s) && state.consistent(s))
                ==> *final(count) >= min(*old(count) + sols.len(), limit as int),
        witnessed(*state, *final(count) - *old(count)),
    decreases state.empty_count,
{
    if *count >= limit {
        proof {
            assert(found_among(*state, Set::<Seq<Seq<u8>>>::empty(), 0));
        }
        return;
    }

    if state.empty_count == 0 {
        // Every cell is placed: count the board if it is a solution.
        let board = state_board(state);
        let ok = board.is_complete_and_valid();
        proof {
            broadcast use vstd::set::group_set_axioms;
            lemma_count_empty_bounds(state.cells@, 81);
            assert forall|sols: Set<Seq<Seq<u8>>>|
                sols.finite() && (forall|s: Seq<Seq<u8>>| #[trigger] sols.contains(s) ==> is_complete_valid(s) && state.consistent(s))
                    implies sols.len() <= 1 && (!ok ==> sols.len() == 0) by {
                lemma_at_most_one_completion(*state, sols);
                if !ok {
                    assert forall|s: Seq<Seq<u8>>| !sols.contains(s) by {
                        if sols.contains(s) {
                            assert(board@ =~~= s) by {
                                assert forall|r: int| 0 <= r < 9 implies board@[r] =~= s[r] by {
                                    assert forall|c: int| 0 <= c < 9 implies board@[r][c] == s[r][c] by {
                                        assert(in_board(r, c));
                                        assert(state.cell_ok(s, r, c));
                                    }
                                }
                            }
                        }
                    }
                    lemma_no_member_empty(sols);
                }
            }
            if ok {
                let f = Set::<Seq<Seq<u8>>>::empty().insert(board@);
                assert(f.len() == 1);
                assert(found_among(*state, f, 1));
            } else {
                assert(found_among(*state, Set::<Seq<Seq<u8>>>::empty(), 0));
            }
        }
        if ok {
            *count += 1;
        }
        return;
    }

    let (row, col) = match find_mrv_cell(state) {
        Some(cell) => cell,
        None => {
            proof {
                lemma_count_empty_bounds(state.cells@, 81);
                let k = choose|k: int| 0 <= k < 81 && state.cells@[k] == 0;
                let (r, c) = (k / 9, k % 9);
                assert(in_board(r, c) && 9 * r + c == k);
                assert(state.cand(r, c) == 0);
                assert forall|sols: Set<Seq<Seq<u8>>>|
                    sols.finite() && (forall|s: Seq<Seq<u8>>| #[trigger] sols.contains(s) ==> is_complete_valid(s) && state.consistent(s))
                        implies sols.len() == 0 by {
                    assert forall|s: Seq<Seq<u8>>| !sols.contains(s) by {
                        if sols.contains(s) {
                            assert(state.cell_ok(s, r, c));
                            lemma_all_digits(s[r][c]);
                        }
                    }
                    lemma_no_member_empty(sols);
                }
                assert(found_among(*state, Set::<Seq<Seq<u8>>>::empty(), 0));
            }
            return;  // no empty cell with candidates: contradiction
        },
    };

    let ghost count0 = *count;
    let ghost orig = state.cand(row as int, col as int);
    let mut cands = state.candidates[row * 9 + col];
    proof {
        assert forall|sols: Set<Seq<Seq<u8>>>|
            sols.finite() && (forall|s: Seq<Seq<u8>>| #[trigger] sols.contains(s) ==> is_complete_valid(s) && state.consistent(s))
                implies sols.filter(|s: Seq<Seq<u8>>| !has_digit(cands, s[row as int][col as int])).len() == 0 by {
            let f = sols.filter(|s: Seq<Seq<u8>>| !has_digit(cands, s[row as int][col as int]));
            assert forall|s: Seq<Seq<u8>>| !f.contains(s) by {
                if f.contains(s) {
                    assert(state.cell_ok(s, row as int, col as int));
                }
            }
            sols.lemma_len_filter(|s: Seq<Seq<u8>>| !has_digit(cands, s[row as int][col as int]));
            lemma_no_member_empty(f);
        }
    }
    let ghost mut acc = Set::<Seq<Seq<u8>>>::empty();
    proof {
        assert(found_among(*state, acc, 0));
    }
    while cands != 0
        invariant
            state.wf(),
            row < 9,
            col < 9,
            state.cell(row as int, col as int) == 0,
            orig == state.cand(row as int, col as int),
            forall|e: u8| has_digit(cands, e) ==> has_digit(orig, e),
            count0 <= *count <= limit,
            count0 == *old(count),
            forall|sols: Set<Seq<Seq<u8>>>|
                sols.finite() && (forall|s: Seq<Seq<u8>>| #[trigger] sols.contains(s) ==> is_complete_valid(s) && state.consistent(s))
                    ==> *count >= min(count0 + sols.filter(|s: Seq<Seq<u8>>| !has_digit(cands, s[row as int][col as int])).len(), limit as int),
            found_among(*state, acc, *count - count0),
            forall|s: Seq<Seq<u8>>| #[trigger] acc.contains(s) ==> !has_digit(cands, s[row as int][col as int]),
        decreases cands,
    {
        let d = cands.trailing_zeros() as u8;
        proof {
            lemma_lowest_digit(cands);
            lemma_only_digits(orig, d);
        }
        let bit = 1u16 << d;
        let ghost prev = cands;
        cands &= !bit;
        proof {
            lemma_clear_digit_decreases(prev, d);
            assert forall|e: u8| has_digit(cands, e) implies has_digit(orig, e) by {
                lemma_clear_digit(prev, d, e);
            }
        }

        let mut branch = state.clone();
        let ghost count_mid = *count;
        if branch.place(row, col, d) {
            solve_recursive_cp(&branch, count, limit);
            proof {
                broadcast use vstd::set::group_set_axioms;
                let kd: int = *count - count_mid;
                let fd = choose|f: Set<Seq<Seq<u8>>>| #[trigger] found_among(branch, f, kd);
                assert(in_board(row as int, col as int));
                assert(branch.cell(row as int, col as int) == d);
                assert forall|s: Seq<Seq<u8>>| #[trigger] fd.contains(s) implies s[row as int][col as int] == d
                    && state.agrees(s) && is_complete_valid(s) by {
                    assert(branch.agrees(s));
                    assert forall|r: int, c: int| in_board(r, c) && state.cell(r, c) != 0 implies #[trigger] s[r][c] == state.cell(r, c) by {
                        assert(branch.cells@[9 * r + c] == state.cells@[9 * r + c]);
                    }
                }
                assert(acc.disjoint(fd)) by {
                    assert forall|s: Seq<Seq<u8>>| acc.contains(s) implies !fd.contains(s) by {
                        assert(!has_digit(prev, s[row as int][col as int]));
                    }
                }
                lemma_set_disjoint_lens(acc, fd);
                let acc2 = acc + fd;
                assert forall|s: Seq<Seq<u8>>| #[trigger] acc2.contains(s) implies !has_digit(cands, s[row as int][col as int]) by {
                    assert(is_complete_valid(s));
                    assert(1 <= s[row as int][col as int] <= 9);
                    lemma_clear_digit(prev, d, s[row as int][col as int]);
                    if acc.contains(s) {
                        assert(!has_digit(prev, s[row as int][col as int]));
                    }
                }
                assert(found_among(*state, acc2, *count - count0));
                acc = acc2;
            }
            proof {
                assert forall|sols: Set<Seq<Seq<u8>>>|
                    sols.finite() && (forall|s: Seq<Seq<u8>>| #[trigger] sols.contains(s) ==> is_complete_valid(s) && state.consistent(s))
                        implies *count >= min(count0 + sols.filter(|s: Seq<Seq<u8>>| !has_digit(cands, s[row as int][col as int])).len(), limit as int) by {
                    let a = sols.filter(|s: Seq<Seq<u8>>| !has_digit(prev, s[row as int][col as int]));
                    let b = sols.filter(|s: Seq<Seq<u8>>| s[row as int][col as int] == d);
                    let a2 = sols.filter(|s: Seq<Seq<u8>>| !has_digit(cands, s[row as int][col as int]));
                    sols.lemma_len_filter(|s: Seq<Seq<u8>>| !has_digit(prev, s[row as int][col as int]));
                    sols.lemma_len_filter(|s: Seq<Seq<u8>>| s[row as int][col as int] == d);
                    assert forall|s: Seq<Seq<u8>>| #[trigger] b.contains(s) implies is_complete_valid(s) && branch.consistent(s) by {
                    }
                    assert(a2 =~= a + b) by {
                        assert forall|s: Seq<Seq<u8>>| #[trigger] a2.contains(s) == (a + b).contains(s) by {
                            if sols.contains(s) {
                                assert(state.cell_ok(s, row as int, col as int));
                                lemma_clear_digit(prev, d, s[row as int][col as int]);
                            }
                        }
                    }
                    assert(a.disjoint(b));
                    lemma_set_disjoint_lens(a, b);
                }
            }
            if *count >= limit {
                return;
            }
        } else {
            proof {
                assert forall|s: Seq<Seq<u8>>| #[trigger] acc.contains(s) implies !has_digit(cands, s[row as int][col as int]) by {
                    assert(is_complete_valid(s));
                    assert(in_board(row as int, col as int));
                    assert(1 <= s[row as int][col as int] <= 9);
                    lemma_clear_digit(prev, d, s[row as int][col as int]);
                    assert(!has_digit(prev, s[row as int][col as int]));
                }
            }
            proof {
                assert forall|sols: Set<Seq<Seq<u8>>>|
                    sols.finite() && (forall|s: Seq<Seq<u8>>| #[trigger] sols.contains(s) ==> is_complete_valid(s) && state.consistent(s))
                        implies *count >= min(count0 + sols.filter(|s: Seq<Seq<u8>>| !has_digit(cands, s[row as int][col as int])).len(), limit as int) by {
                    let a = sols.filter(|s: Seq<Seq<u8>>| !has_digit(prev, s[row as int][col as int]));
                    let a2 = sols.filter(|s: Seq<Seq<u8>>| !has_digit(cands, s[row as int][col as int]));
                    assert(a2 =~= a) by {
                        assert forall|s: Seq<Seq<u8>>| #[trigger] a2.contains(s) == a.contains(s) by {
                            if sols.contains(s) {
                                assert(state.cell_ok(s, row as int, col as int));
                                lemma_clear_digit(prev, d, s[row as int][col as int]);
                            }
                        }
                    }
                }
            }
        }
    }
    proof {
        assert forall|sols: Set<Seq<Seq<u8>>>|
            sols.finite() && (forall|s: Seq<Seq<u8>>| #[trigger] sols.contains(s) ==> is_complete_valid(s) && state.consistent(s))
                implies *count >= min(count0 + sols.len(), limit as int) by {
            assert(sols.filter(|s: Seq<Seq<u8>>| !has_digit(cands, s[row as int][col as int])) =~= sols) by {
                assert forall|s: Seq<Seq<u8>>| sols.contains(s) implies !has_digit(cands, s[row as int][col as int]) by {
                    lemma_all_digits(s[row as int][col as int]);
                }
            }
        }
    }
}

/// A board with every cell placed is agreed with by at most one complete board.
proof fn lemma_at_most_one_completion(state: CpState, sols: Set<Seq<Seq<u8>>>)
    requires
        state.wf(),
        forall|k: int| 0 <= k < 81 ==> state.cells@[k] != 0,
        sols.finite(),
        forall|s: Seq<Seq<u8>>| #[trigger] sols.contains(s) ==> is_complete_valid(s) && state.consistent(s),
    ensures
        sols.len() <= 1,
{
    if sols.len() > 1 {
        let a = sols.choose();
        vstd::set_lib::lemma_set_empty_equivalency_len(sols);
        assert(sols.contains(a));
        let rest = sols.remove(a);
        assert(rest.len() > 0);
        vstd::set_lib::lemma_set_empty_equivalency_len(rest);
        let b = rest.choose();
        assert(rest.contains(b));
        assert(a =~~= b) by {
            assert forall|r: int| 0 <= r < 9 implies a[r] =~= b[r] by {
                assert forall|c: int| 0 <= c < 9 implies a[r][c] == b[r][c] by {
                    assert(in_board(r, c));
                    assert(state.cell_ok(a, r, c));
                    assert(state.cell_ok(b, r, c));
                }
            }
        }
    }
}

} // verus!
