//! Killer sudoku solution counting: row, column and box propagation together
//! with cage sums and digit combinations, under a budget of search nodes.
use vstd::prelude::*;
use vstd::set_lib::lemma_set_disjoint_lens;
use crate::digits::{
    ALL_DIGITS, count_digits, digit_sum, has_digit, lemma_all_digits, lemma_bit_test, lemma_bits_below_bounds,
    lemma_clear_digit, lemma_clear_digit_decreases, lemma_lowest_digit, lemma_only_digits, lemma_only_digits_and,
    lemma_popcount_only_digits, lemma_single_digit, only_digits, popcount,
};
use crate::grid::{Cage, Grid, cell_in_board, cells_sum, digit_at, in_some_cage};
use crate::killer::{
    all_sel, bit_set, cage_combos, cage_ok, empty_sel, filled_sel, is_combo, is_killer_solution_of, is_partition,
    largest_n_sum, lemma_largest_sum_ge, lemma_mask_ext, lemma_mask_ops, lemma_popcount_zero,
    lemma_has_bit, lemma_same_members, lemma_sel_all_sum, lemma_sel_count_bounds, lemma_sel_mask, lemma_sel_one, lemma_sel_same,
    lemma_sel_split, lemma_smallest_sum_le, lemma_subset_count, lemma_zero_weight, lists_combos, sel_count,
    largest_sum, sel_mask, sel_sum, smallest_n_sum, smallest_sum, val,
};
use crate::rules::{
    digits_in_range, in_board, in_unit, is_board, is_complete_valid, is_peer, lemma_unit_has_digit,
    unit_col, unit_row,
};
use crate::solver::min;
use crate::tally::{
    keeps, lemma_keeps_trans, cand_sum, count_empty, lemma_cand_sum_update, lemma_count_empty_bounds, lemma_count_empty_update,
    lemma_and_sub, lemma_empty_mask, lemma_lacks_kept, lemma_shrinks_refl, lemma_shrinks_trans, shrinks, sub_mask,
};

verus! {

/// Immutable cage topology — created once, shared by reference across branches.
pub struct CageInfo {
    cells: Vec<Vec<(usize, usize)>>,
    sums: Vec<u8>,
    cell_cage: [usize; 81],
    combos: Vec<Vec<u16>>,
}

impl CageInfo {
    spec fn n(&self) -> int {
        self.cells@.len() as int
    }

    spec fn cage(&self, ci: int) -> Seq<(usize, usize)> {
        self.cells@[ci]@
    }

    spec fn owner_of(&self, r: int, c: int) -> int {
        self.cell_cage@[9 * r + c] as int
    }

    /// The cage data describes `cages`, which split the board.
    spec fn describes(&self, cages: Seq<Cage>) -> bool {
        &&& self.cells@.len() == cages.len()
        &&& self.sums@.len() == cages.len()
        &&& self.combos@.len() == cages.len()
        &&& forall|ci: int| 0 <= ci < cages.len() ==> #[trigger] self.cells@[ci]@ == cages[ci].cells@
        &&& forall|ci: int| 0 <= ci < cages.len() ==> #[trigger] self.sums@[ci] == cages[ci].sum
        &&& is_partition(cages)
        &&& forall|r: int, c: int| in_board(r, c) ==> 0 <= #[trigger] self.owner_of(r, c) < cages.len()
            && self.cage(self.owner_of(r, c)).contains((r as usize, c as usize))
        &&& forall|ci: int| 0 <= ci < cages.len() ==> #[trigger] lists_combos(self.combos@[ci]@, self.cage(ci).len() as int, self.sums@[ci] as int)
    }

    spec fn owner_at(&self, p: (usize, usize)) -> int {
        self.cell_cage@[9 * p.0 + p.1] as int
    }

    /// Every cell of the board lies in exactly one cage, recorded in `cell_cage`,
    /// and each cage lists its digit combinations.
    spec fn shaped(&self) -> bool {
        &&& self.sums@.len() == self.n()
        &&& self.combos@.len() == self.n()
        &&& forall|ci: int, k: int| 0 <= ci < self.n() && 0 <= k < self.cage(ci).len()
            ==> cell_in_board(#[trigger] self.cage(ci)[k]) && self.owner_at(self.cage(ci)[k]) == ci
        &&& forall|ci: int, k1: int, k2: int| 0 <= ci < self.n() && 0 <= k1 < self.cage(ci).len()
            && 0 <= k2 < self.cage(ci).len() && k1 != k2 ==> #[trigger] self.cage(ci)[k1] != #[trigger] self.cage(ci)[k2]
        &&& forall|r: int, c: int| in_board(r, c) ==> 0 <= #[trigger] self.owner_of(r, c) < self.n()
            && self.cage(self.owner_of(r, c)).contains((r as usize, c as usize))
        &&& forall|ci: int| 0 <= ci < self.n() ==> #[trigger] lists_combos(self.combos@[ci]@, self.cage(ci).len() as int, self.sums@[ci] as int)
    }

    /// Shaped, and every cage has between one and nine cells.
    spec fn valid(&self) -> bool {
        &&& self.shaped()
        &&& forall|ci: int| 0 <= ci < self.n() ==> 1 <= #[trigger] self.cage(ci).len() <= 9
    }

    proof fn lemma_shaped(&self, cages: Seq<Cage>)
        requires
            self.describes(cages),
        ensures
            self.shaped(),
            self.n() == cages.len(),
    {
        assert forall|ci: int, k: int| 0 <= ci < self.n() && 0 <= k < self.cage(ci).len()
            implies cell_in_board(#[trigger] self.cage(ci)[k]) && self.owner_at(self.cage(ci)[k]) == ci by {
            let p = self.cage(ci)[k];
            assert(self.cells@[ci]@ == cages[ci].cells@);
            assert(cages[ci].cells@[k] == p);
            assert(cell_in_board(p));
            let (r, c) = (p.0 as int, p.1 as int);
            assert(in_board(r, c));
            let cj = self.owner_of(r, c);
            assert(self.cage(cj).contains((r as usize, c as usize)));
            let k2 = choose|k2: int| 0 <= k2 < self.cage(cj).len() && self.cage(cj)[k2] == (r as usize, c as usize);
            assert(self.cells@[cj]@ == cages[cj].cells@);
            assert(cages[cj].cells@[k2] == p);
            assert(self.owner_at(p) == cj);
        }
        assert forall|ci: int, k1: int, k2: int| 0 <= ci < self.n() && 0 <= k1 < self.cage(ci).len()
            && 0 <= k2 < self.cage(ci).len() && k1 != k2 implies #[trigger] self.cage(ci)[k1] != #[trigger] self.cage(ci)[k2] by {
            assert(self.cells@[ci]@ == cages[ci].cells@);
            assert(cages[ci].cells@[k1] == self.cage(ci)[k1]);
            assert(cages[ci].cells@[k2] == self.cage(ci)[k2]);
        }
        assert forall|ci: int| 0 <= ci < self.n() implies #[trigger] lists_combos(self.combos@[ci]@, self.cage(ci).len() as int, self.sums@[ci] as int) by {
            assert(lists_combos(self.combos@[ci]@, self.cage(ci).len() as int, self.sums@[ci] as int));
        }
    }

    spec fn no_empty_cage(&self) -> bool {
        forall|ci: int| 0 <= ci < self.n() ==> #[trigger] self.cage(ci).len() > 0
    }

    spec fn holds(&self, s: Seq<Seq<u8>>) -> bool {
        forall|ci: int| 0 <= ci < self.n() ==> cage_ok(#[trigger] self.cage(ci), self.sums@[ci] as int, s)
    }

    fn from_cages(cages: &[Cage]) -> (info: CageInfo)
        requires
            is_partition(cages@),
        ensures
            info.describes(cages@),
    {
        let mut cell_cage = [0usize; 81];
        let mut cells: Vec<Vec<(usize, usize)>> = Vec::new();
        let mut sums: Vec<u8> = Vec::new();
        let mut combos: Vec<Vec<u16>> = Vec::new();
        let mut i: usize = 0;
        while i < cages.len()
            invariant
                i <= cages@.len(),
                is_partition(cages@),
                cells@.len() == i,
                sums@.len() == i,
                combos@.len() == i,
                forall|ci: int| 0 <= ci < i ==> #[trigger] cells@[ci]@ == cages@[ci].cells@,
                forall|ci: int| 0 <= ci < i ==> #[trigger] sums@[ci] == cages@[ci].sum,
                forall|ci: int| 0 <= ci < i ==> #[trigger] lists_combos(combos@[ci]@, cells@[ci]@.len() as int, sums@[ci] as int),
                forall|r: int, c: int| in_board(r, c) && #[trigger] in_some_cage(cages@.subrange(0, i as int), (r as usize, c as usize))
                    ==> cell_cage@[9 * r + c] < i && cages@[cell_cage@[9 * r + c] as int].cells@.contains((r as usize, c as usize)),
            decreases cages@.len() - i,
        {
            let cage_cells = &cages[i].cells;
            let mut copy: Vec<(usize, usize)> = Vec::new();
            let mut k: usize = 0;
            while k < cage_cells.len()
                invariant
                    i < cages@.len(),
                    k <= cage_cells@.len(),
                    cage_cells@ == cages@[i as int].cells@,
                    is_partition(cages@),
                    copy@ == cage_cells@.subrange(0, k as int),
                    forall|r: int, c: int| in_board(r, c) && #[trigger] in_some_cage(cages@.subrange(0, i as int), (r as usize, c as usize))
                        && !cage_cells@.subrange(0, k as int).contains((r as usize, c as usize))
                        ==> cell_cage@[9 * r + c] < i && cages@[cell_cage@[9 * r + c] as int].cells@.contains((r as usize, c as usize)),
                    forall|r: int, c: int| in_board(r, c) && cage_cells@.subrange(0, k as int).contains((r as usize, c as usize))
                        ==> #[trigger] cell_cage@[9 * r + c] == i,
                decreases cage_cells@.len() - k,
            {
                let (r, c) = cage_cells[k];
                proof {
                    assert(cell_in_board(cages@[i as int].cells@[k as int]));
                }
                let ghost before = cell_cage@;
                cell_cage[r * 9 + c] = i;
                copy.push((r, c));
                proof {
                    let s0 = cage_cells@.subrange(0, k as int);
                    let s1 = cage_cells@.subrange(0, k + 1);
                    assert(s1 =~= s0.push((r, c)));
                    assert forall|r2: int, c2: int| in_board(r2, c2) && #[trigger] in_some_cage(cages@.subrange(0, i as int), (r2 as usize, c2 as usize))
                        && !s1.contains((r2 as usize, c2 as usize))
                        implies cell_cage@[9 * r2 + c2] < i && cages@[cell_cage@[9 * r2 + c2] as int].cells@.contains((r2 as usize, c2 as usize)) by {
                        if s0.contains((r2 as usize, c2 as usize)) {
                            let j = choose|j: int| 0 <= j < s0.len() && s0[j] == (r2 as usize, c2 as usize);
                            assert(s1[j] == s0[j]);
                        }
                        assert((r2 as usize, c2 as usize) != (r, c));
                        assert(9 * r2 + c2 != 9 * r + c);
                        assert(cell_cage@[9 * r2 + c2] == before[9 * r2 + c2]);
                    }
                    assert forall|r2: int, c2: int| in_board(r2, c2) && s1.contains((r2 as usize, c2 as usize))
                        implies #[trigger] cell_cage@[9 * r2 + c2] == i by {
                        if (r2 as usize, c2 as usize) != (r, c) {
                            let j = choose|j: int| 0 <= j < s1.len() && s1[j] == (r2 as usize, c2 as usize);
                            assert(s0[j] == s1[j]);
                            assert(9 * r2 + c2 != 9 * r + c);
                        }
                    }
                }
                k += 1;
            }
            proof {
                assert(cage_cells@.subrange(0, cage_cells@.len() as int) =~= cage_cells@);
            }
            let list = match cage_combos(copy.len(), cages[i].sum) {
                Some(list) => list,
                None => Vec::new(),
            };
            let ghost cells0 = cells@;
            let ghost sums0 = sums@;
            let ghost combos0 = combos@;
            cells.push(copy);
            sums.push(cages[i].sum);
            combos.push(list);
            proof {
                assert forall|ci: int| 0 <= ci < i + 1 implies #[trigger] lists_combos(combos@[ci]@, cells@[ci]@.len() as int, sums@[ci] as int) by {
                    if ci < i {
                        assert(combos@[ci] == combos0[ci]);
                        assert(cells@[ci] == cells0[ci]);
                        assert(sums@[ci] == sums0[ci]);
                    }
                }
                assert forall|ci: int| 0 <= ci < i + 1 implies #[trigger] cells@[ci]@ == cages@[ci].cells@ by {
                    if ci < i {
                        assert(cells@[ci] == cells0[ci]);
                    }
                }
                assert forall|r: int, c: int| in_board(r, c) && #[trigger] in_some_cage(cages@.subrange(0, i + 1), (r as usize, c as usize))
                    implies cell_cage@[9 * r + c] < i + 1 && cages@[cell_cage@[9 * r + c] as int].cells@.contains((r as usize, c as usize)) by {
                    let p = (r as usize, c as usize);
                    let sub = cages@.subrange(0, i + 1);
                    let (j, k2) = choose|j: int, k2: int| 0 <= j < sub.len() && 0 <= k2 < sub[j].cells@.len() && #[trigger] sub[j].cells@[k2] == p;
                    if cage_cells@.contains(p) {
                        assert(cell_cage@[9 * r + c] == i);
                    } else {
                        assert(j < i);
                        assert(cages@.subrange(0, i as int)[j].cells@[k2] == p);
                        assert(in_some_cage(cages@.subrange(0, i as int), p));
                    }
                }
            }
            i += 1;
        }
        let info = CageInfo { cells, sums, cell_cage, combos };
        proof {
            assert(cages@.subrange(0, cages@.len() as int) =~= cages@);
            assert forall|r: int, c: int| in_board(r, c) implies 0 <= #[trigger] info.owner_of(r, c) < cages@.len()
                && info.cage(info.owner_of(r, c)).contains((r as usize, c as usize)) by {
                assert(in_some_cage(cages@, (r as usize, c as usize)));
            }
        }
        info
    }

    fn num_cages(&self) -> (n: usize)
        ensures
            n == self.n(),
    {
        self.cells.len()
    }
}


/// `s` solves the cages and the sudoku rules.
spec fn ksol(info: &CageInfo, s: Seq<Seq<u8>>) -> bool {
    is_complete_valid(s) && info.holds(s)
}

/// Candidates of cell `p` in a row-major candidate array.
spec fn cand_at(cands: Seq<u16>, p: (usize, usize)) -> u16 {
    cands[9 * p.0 + p.1]
}

/// Combination `m` holds every digit `placed` in its cage and as many others
/// as the cage has empty cells.
spec fn combo_fits(m: u16, placed: u16, remaining: u8) -> bool {
    m & placed == placed && popcount(m & !placed) == remaining
}

/// Candidates removed from a cell stay removed.
proof fn lemma_bits_kept(a: Seq<u16>, b: Seq<u16>)
    requires
        shrinks(a, b),
    ensures
        forall|k: int, x: int| 0 <= k < 81 && #[trigger] bit_set(b[k], x) ==> bit_set(a[k], x),
{
    assert forall|k: int, x: int| 0 <= k < 81 && #[trigger] bit_set(b[k], x) implies bit_set(a[k], x) by {
        assert(sub_mask(b[k], a[k]));
        lemma_mask_ops(b[k], a[k], x);
    }
}

/// The digits still open to the empty cells among the first `n` of `list`:
/// their candidates, less the digits `placed` in the cage.
spec fn open_digits(cells: Seq<u8>, cands: Seq<u16>, list: Seq<(usize, usize)>, placed: u16, n: int) -> u16
    decreases n,
{
    if n <= 0 {
        0u16
    } else {
        let prev = open_digits(cells, cands, list, placed, n - 1);
        if val(cells, list[n - 1]) == 0 {
            prev | (cand_at(cands, list[n - 1]) & !placed)
        } else {
            prev
        }
    }
}

/// Per-cage mutable state — cheap to copy (no heap allocations).
#[derive(Clone, Copy)]
struct KillerCageState {
    placed_mask: u16,
    placed_sum: u8,
    remaining: u8,
}

/// The bounds every cage state keeps: at least as many cells remaining as
/// the cage has empty cells, and a placed sum that leaves room for them.
spec fn cage_wf(cells: Seq<u8>, states: Seq<KillerCageState>, info: &CageInfo) -> bool {
    &&& states.len() == info.n()
    &&& forall|ci: int| 0 <= ci < info.n() ==> #[trigger] states[ci].remaining >= sel_count(info.cage(ci).len() as int, empty_sel(cells, info.cage(ci)))
    &&& forall|ci: int| 0 <= ci < info.n() ==> #[trigger] states[ci].placed_sum + 9 * states[ci].remaining <= 9 * info.cage(ci).len()
}

/// The cage state records the digits of `s` on the filled cells of the cage,
/// their sum, and the number of empty cells.
spec fn state_matches(cs: KillerCageState, cells: Seq<u8>, list: Seq<(usize, usize)>, s: Seq<Seq<u8>>) -> bool {
    &&& cs.placed_mask == sel_mask(s, list, list.len() as int, filled_sel(cells, list))
    &&& cs.placed_sum == sel_sum(s, list, list.len() as int, filled_sel(cells, list))
    &&& cs.remaining == sel_count(list.len() as int, empty_sel(cells, list))
}

spec fn cages_match(cells: Seq<u8>, states: Seq<KillerCageState>, info: &CageInfo, s: Seq<Seq<u8>>) -> bool {
    forall|ci: int| 0 <= ci < info.n() ==> #[trigger] state_matches(states[ci], cells, info.cage(ci), s)
}

/// Propagation state: placed digits and remaining candidates (row-major, cell
/// (r, c) at index 9 * r + c) and one state per cage.
struct KillerCpState {
    cells: [u8; 81],
    candidates: [u16; 81],
    empty_count: u8,
    cage_states: Vec<KillerCageState>,
}

impl KillerCpState {
    spec fn wf(&self, info: &CageInfo) -> bool {
        &&& forall|k: int| 0 <= k < 81 ==> #[trigger] self.cells@[k] <= 9
        &&& forall|k: int| 0 <= k < 81 && #[trigger] self.cells@[k] != 0 ==> self.candidates@[k] == 0
        &&& forall|k: int| 0 <= k < 81 ==> only_digits(#[trigger] self.candidates@[k])
        &&& self.empty_count == count_empty(self.cells@, 81)
        &&& cage_wf(self.cells@, self.cage_states@, info)
    }

    spec fn cell(&self, r: int, c: int) -> u8 {
        self.cells@[9 * r + c]
    }

    spec fn cand(&self, r: int, c: int) -> u16 {
        self.candidates@[9 * r + c]
    }

    spec fn measure(&self) -> nat {
        cand_sum(self.candidates@, 81)
    }

    /// The board `s` agrees with cell (r, c): the placed digit, or one of its candidates.
    spec fn cell_ok(&self, s: Seq<Seq<u8>>, r: int, c: int) -> bool {
        if self.cell(r, c) != 0 {
            s[r][c] == self.cell(r, c)
        } else {
            has_digit(self.cand(r as int, c as int), s[r][c])
        }
    }

    spec fn consistent(&self, info: &CageInfo, s: Seq<Seq<u8>>) -> bool {
        &&& is_board(s)
        &&& forall|r: int, c: int| in_board(r, c) ==> #[trigger] self.cell_ok(s, r, c)
        &&& cages_match(self.cells@, self.cage_states@, info, s)
    }

    /// A copy of the state for a search branch.
    fn duplicate(&self) -> (res: KillerCpState)
        ensures
            res.cells@ == self.cells@,
            res.candidates@ == self.candidates@,
            res.empty_count == self.empty_count,
            res.cage_states@ == self.cage_states@,
    {
        let mut cage_states: Vec<KillerCageState> = Vec::new();
        let mut i: usize = 0;
        while i < self.cage_states.len()
            invariant
                i <= self.cage_states@.len(),
                cage_states@ == self.cage_states@.subrange(0, i as int),
            decreases self.cage_states@.len() - i,
        {
            cage_states.push(self.cage_states[i]);
            i += 1;
            proof {
                assert(cage_states@ =~= self.cage_states@.subrange(0, i as int));
            }
        }
        proof {
            assert(cage_states@ =~= self.cage_states@);
        }
        KillerCpState { cells: self.cells, candidates: self.candidates, empty_count: self.empty_count, cage_states }
    }

    /// `s` holds every digit placed in the state.
    spec fn agrees(&self, s: Seq<Seq<u8>>) -> bool {
        forall|r: int, c: int| in_board(r, c) && self.cell(r, c) != 0 ==> #[trigger] s[r][c] == self.cell(r, c)
    }

    /// No peer of (row, col) holds `d` as a candidate.
    spec fn peers_lack(&self, row: int, col: int, d: u8) -> bool {
        forall|r: int, c: int| in_board(r, c) && is_peer(row, col, r, c) ==> !has_digit(#[trigger] self.cand(r, c), d)
    }

    /// Digit `d` is placed in unit `u`.
    spec fn unit_settled(&self, u: int, d: u8) -> bool {
        exists|r: int, c: int| in_unit(u, r, c) && #[trigger] self.cell(r, c) == d
    }

    /// Two cells of unit `u` hold `d` as a candidate.
    spec fn unit_two(&self, u: int, d: u8) -> bool {
        exists|r1: int, c1: int, r2: int, c2: int|
            in_unit(u, r1, c1) && in_unit(u, r2, c2) && !(r1 == r2 && c1 == c2)
                && has_digit(#[trigger] self.cand(r1, c1), d) && has_digit(#[trigger] self.cand(r2, c2), d)
    }

    /// Eliminate digit `d` from candidates of all peers of (row, col).
    fn eliminate_from_peers(&mut self, row: usize, col: usize, d: u8, info: &CageInfo) -> (res: bool)
        requires
            info.valid(),
            old(self).wf(info),
            row < 9,
            col < 9,
            1 <= d <= 9,
        ensures
            res ==> final(self).wf(info),
            keeps(old(self).cells@, final(self).cells@),
            shrinks(old(self).candidates@, final(self).candidates@),
            res ==> final(self).measure() <= old(self).measure(),
            res ==> final(self).empty_count <= old(self).empty_count,
            res ==> forall|s: Seq<Seq<u8>>|
                ksol(info, s) && old(self).consistent(info, s) && s[row as int][col as int] == d
                    ==> final(self).consistent(info, s),
            !res ==> forall|s: Seq<Seq<u8>>|
                ksol(info, s) && old(self).consistent(info, s) ==> s[row as int][col as int] != d,
            res ==> final(self).peers_lack(row as int, col as int, d),
            old(self).peers_lack(row as int, col as int, d) ==> res && *final(self) == *old(self),
        decreases old(self).measure(), 1nat,
    {
        let bit = 1u16 << d;
        let ghost start = *self;
        proof {
            lemma_shrinks_refl(start.candidates@);
        }
        // Row peers
        let mut c: usize = 0;
        while c < 9
            invariant
                c <= 9,
                row < 9,
                col < 9,
                1 <= d <= 9,
                bit == 1u16 << d,
                start == *old(self),
                self.wf(info),
                info.valid(),
                self.measure() <= start.measure(),
                self.empty_count <= start.empty_count,
                forall|s: Seq<Seq<u8>>|
                    ksol(info, s) && start.consistent(info, s) && s[row as int][col as int] == d
                        ==> self.consistent(info, s),
                keeps(start.cells@, self.cells@),
                shrinks(start.candidates@, self.candidates@),
                start.peers_lack(row as int, col as int, d) ==> *self == start,
                forall|c2: int| 0 <= c2 < c && c2 != col ==> !has_digit(#[trigger] self.cand(row as int, c2), d),
            decreases 9 - c,
        {
            if c != col {
                let ghost before = *self;
                proof {
                    assert(in_board(row as int, c as int));
                    assert(is_peer(row as int, col as int, row as int, c as int));
                    if start.peers_lack(row as int, col as int, d) {
                        assert(!has_digit(before.cand(row as int, c as int), d));
                    }
                }
                let ok = self.eliminate(row, c, d, bit, info);
                proof {
                    lemma_keeps_trans(start.cells@, before.cells@, self.cells@);
                    lemma_shrinks_trans(start.candidates@, before.candidates@, self.candidates@);
                    lemma_lacks_kept(before.candidates@, self.candidates@, d);
                }
                if !ok {
                    proof {
                        assert forall|s: Seq<Seq<u8>>|
                            ksol(info, s) && start.consistent(info, s) implies s[row as int][col
                            as int] != d by {
                            if s[row as int][col as int] == d {
                                assert(before.consistent(info, s));
                                assert(s[row as int][c as int] == d);
                            }
                        }
                    }
                    return false;
                }
                proof {
                    assert forall|s: Seq<Seq<u8>>|
                        ksol(info, s) && start.consistent(info, s) && s[row as int][col as int]
                            == d implies self.consistent(info, s) by {
                        assert(before.consistent(info, s));
                        assert(s[row as int][c as int] != d);
                    }
                    assert forall|c2: int| 0 <= c2 < c + 1 && c2 != col implies !has_digit(#[trigger] self.cand(row as int, c2), d) by {
                        if c2 < c {
                            assert(!has_digit(before.cand(row as int, c2), d));
                        }
                    }
                }
            }
            c += 1;
        }
        // Column peers
        let mut r: usize = 0;
        while r < 9
            invariant
                r <= 9,
                row < 9,
                col < 9,
                1 <= d <= 9,
                bit == 1u16 << d,
                start == *old(self),
                self.wf(info),
                info.valid(),
                self.measure() <= start.measure(),
                self.empty_count <= start.empty_count,
                forall|s: Seq<Seq<u8>>|
                    ksol(info, s) && start.consistent(info, s) && s[row as int][col as int] == d
                        ==> self.consistent(info, s),
                keeps(start.cells@, self.cells@),
                shrinks(start.candidates@, self.candidates@),
                start.peers_lack(row as int, col as int, d) ==> *self == start,
                forall|c2: int| 0 <= c2 < 9 && c2 != col ==> !has_digit(#[trigger] self.cand(row as int, c2), d),
                forall|r2: int| 0 <= r2 < r && r2 != row ==> !has_digit(#[trigger] self.cand(r2, col as int), d),
            decreases 9 - r,
        {
            if r != row {
                let ghost before = *self;
                proof {
                    assert(in_board(r as int, col as int));
                    assert(is_peer(row as int, col as int, r as int, col as int));
                    if start.peers_lack(row as int, col as int, d) {
                        assert(!has_digit(before.cand(r as int, col as int), d));
                    }
                }
                let ok = self.eliminate(r, col, d, bit, info);
                proof {
                    lemma_keeps_trans(start.cells@, before.cells@, self.cells@);
                    lemma_shrinks_trans(start.candidates@, before.candidates@, self.candidates@);
                    lemma_lacks_kept(before.candidates@, self.candidates@, d);
                }
                if !ok {
                    proof {
                        assert forall|s: Seq<Seq<u8>>|
                            ksol(info, s) && start.consistent(info, s) implies s[row as int][col
                            as int] != d by {
                            if s[row as int][col as int] == d {
                                assert(before.consistent(info, s));
                                assert(s[r as int][col as int] == d);
                            }
                        }
                    }
                    return false;
                }
                proof {
                    assert forall|s: Seq<Seq<u8>>|
                        ksol(info, s) && start.consistent(info, s) && s[row as int][col as int]
                            == d implies self.consistent(info, s) by {
                        assert(before.consistent(info, s));
                        assert(s[r as int][col as int] != d);
                    }
                    assert forall|c2: int| 0 <= c2 < 9 && c2 != col implies !has_digit(#[trigger] self.cand(row as int, c2), d) by {
                        assert(!has_digit(before.cand(row as int, c2), d));
                    }
                    assert forall|r2: int| 0 <= r2 < r + 1 && r2 != row implies !has_digit(#[trigger] self.cand(r2, col as int), d) by {
                        if r2 < r {
                            assert(!has_digit(before.cand(r2, col as int), d));
                        }
                    }
                }
            }
            r += 1;
        }
        // Box peers
        let br = (row / 3) * 3;
        let bc = (col / 3) * 3;
        let mut r: usize = br;
        while r < br + 3
            invariant
                br == (row / 3) * 3,
                bc == (col / 3) * 3,
                br <= r <= br + 3,
                row < 9,
                col < 9,
                1 <= d <= 9,
                bit == 1u16 << d,
                start == *old(self),
                self.wf(info),
                info.valid(),
                self.measure() <= start.measure(),
                self.empty_count <= start.empty_count,
                forall|s: Seq<Seq<u8>>|
                    ksol(info, s) && start.consistent(info, s) && s[row as int][col as int] == d
                        ==> self.consistent(info, s),
                keeps(start.cells@, self.cells@),
                shrinks(start.candidates@, self.candidates@),
                start.peers_lack(row as int, col as int, d) ==> *self == start,
                forall|c2: int| 0 <= c2 < 9 && c2 != col ==> !has_digit(#[trigger] self.cand(row as int, c2), d),
                forall|r2: int| 0 <= r2 < 9 && r2 != row ==> !has_digit(#[trigger] self.cand(r2, col as int), d),
                forall|r2: int, c2: int| br <= r2 < r && bc <= c2 < bc + 3 && !(r2 == row && c2 == col)
                    ==> !has_digit(#[trigger] self.cand(r2, c2), d),
            decreases br + 3 - r,
        {
            let mut c: usize = bc;
            while c < bc + 3
                invariant
                    br == (row / 3) * 3,
                    bc == (col / 3) * 3,
                    br <= r < br + 3,
                    bc <= c <= bc + 3,
                    row < 9,
                    col < 9,
                    1 <= d <= 9,
                    bit == 1u16 << d,
                    start == *old(self),
                    self.wf(info),
                    info.valid(),
                    self.measure() <= start.measure(),
                    self.empty_count <= start.empty_count,
                    forall|s: Seq<Seq<u8>>|
                        ksol(info, s) && start.consistent(info, s) && s[row as int][col as int]
                            == d ==> self.consistent(info, s),
                    keeps(start.cells@, self.cells@),
                    shrinks(start.candidates@, self.candidates@),
                    start.peers_lack(row as int, col as int, d) ==> *self == start,
                    forall|c2: int| 0 <= c2 < 9 && c2 != col ==> !has_digit(#[trigger] self.cand(row as int, c2), d),
                    forall|r2: int| 0 <= r2 < 9 && r2 != row ==> !has_digit(#[trigger] self.cand(r2, col as int), d),
                    forall|r2: int, c2: int|
                        ((br <= r2 < r && bc <= c2 < bc + 3) || (r2 == r && bc <= c2 < c)) && !(r2 == row && c2 == col)
                            ==> !has_digit(#[trigger] self.cand(r2, c2), d),
                decreases bc + 3 - c,
            {
                if r != row || c != col {
                    let ghost before = *self;
                    proof {
                        assert(in_board(r as int, c as int));
                        assert(is_peer(row as int, col as int, r as int, c as int));
                        if start.peers_lack(row as int, col as int, d) {
                            assert(!has_digit(before.cand(r as int, c as int), d));
                        }
                    }
                    let ok = self.eliminate(r, c, d, bit, info);
                    proof {
                        lemma_keeps_trans(start.cells@, before.cells@, self.cells@);
                        lemma_shrinks_trans(start.candidates@, before.candidates@, self.candidates@);
                        lemma_lacks_kept(before.candidates@, self.candidates@, d);
                    }
                    if !ok {
                        proof {
                            assert forall|s: Seq<Seq<u8>>|
                                ksol(info, s) && start.consistent(info, s) implies s[row
                                as int][col as int] != d by {
                                if s[row as int][col as int] == d {
                                    assert(before.consistent(info, s));
                                    assert(s[r as int][c as int] == d);
                                }
                            }
                        }
                        return false;
                    }
                    proof {
                        assert forall|s: Seq<Seq<u8>>|
                            ksol(info, s) && start.consistent(info, s) && s[row as int][col
                                as int] == d implies self.consistent(info, s) by {
                            assert(before.consistent(info, s));
                            assert(s[r as int][c as int] != d);
                        }
                        assert forall|c2: int| 0 <= c2 < 9 && c2 != col implies !has_digit(#[trigger] self.cand(row as int, c2), d) by {
                            assert(!has_digit(before.cand(row as int, c2), d));
                        }
                        assert forall|r2: int| 0 <= r2 < 9 && r2 != row implies !has_digit(#[trigger] self.cand(r2, col as int), d) by {
                            assert(!has_digit(before.cand(r2, col as int), d));
                        }
                        assert forall|r2: int, c2: int|
                            ((br <= r2 < r && bc <= c2 < bc + 3) || (r2 == r && bc <= c2 < c + 1)) && !(r2 == row && c2 == col)
                                implies !has_digit(#[trigger] self.cand(r2, c2), d) by {
                            if !(r2 == r && c2 == c) {
                                assert(!has_digit(before.cand(r2, c2), d));
                            }
                        }
                    }
                }
                c += 1;
            }
            r += 1;
        }
        proof {
            assert forall|r2: int, c2: int| in_board(r2, c2) && is_peer(row as int, col as int, r2, c2)
                implies !has_digit(#[trigger] self.cand(r2, c2), d) by {
                if r2 != row && c2 != col {
                    assert(br <= r2 < br + 3 && bc <= c2 < bc + 3);
                }
            }
        }
        true
    }

    /// Eliminate digit `d` (with precomputed `bit`) from cell (row, col).
    /// Returns false on contradiction.
    fn eliminate(&mut self, row: usize, col: usize, d: u8, bit: u16, info: &CageInfo) -> (res: bool)
        requires
            info.valid(),
            old(self).wf(info),
            row < 9,
            col < 9,
            1 <= d <= 9,
            bit == 1u16 << d,
        ensures
            res ==> final(self).wf(info),
            keeps(old(self).cells@, final(self).cells@),
            shrinks(old(self).candidates@, final(self).candidates@),
            res ==> final(self).measure() <= old(self).measure(),
            res ==> final(self).empty_count <= old(self).empty_count,
            res ==> forall|s: Seq<Seq<u8>>|
                ksol(info, s) && old(self).consistent(info, s) && s[row as int][col as int] != d
                    ==> final(self).consistent(info, s),
            !res ==> forall|s: Seq<Seq<u8>>|
                ksol(info, s) && old(self).consistent(info, s) ==> s[row as int][col as int] == d,
            res ==> !has_digit(final(self).cand(row as int, col as int), d),
            !has_digit(old(self).cand(row as int, col as int), d) ==> res && *final(self) == *old(self),
        decreases old(self).measure(), 0nat,
    {
        let k = row * 9 + col;
        let cands = self.candidates[k];
        proof {
            lemma_bit_test(cands, d);
            lemma_shrinks_refl(self.candidates@);
        }
        if cands & bit == 0 {
            return true;
        }
        let ghost start = *self;
        let remaining = cands & !bit;
        self.candidates[k] = remaining;
        proof {
            lemma_clear_digit_decreases(cands, d);
            lemma_clear_digit(cands, d, d);
            lemma_and_sub(cands, !bit);
            lemma_cand_sum_update(start.candidates@, k as int, remaining, 81);
            lemma_only_digits_and(cands, !bit);
            assert(start.cells@[k as int] == 0);
            assert(self.cells@ == start.cells@);
            assert forall|k2: int| 0 <= k2 < 81 implies only_digits(#[trigger] self.candidates@[k2]) by {
                if k2 != k {
                    assert(self.candidates@[k2] == start.candidates@[k2]);
                }
            }
            assert forall|k2: int| 0 <= k2 < 81 implies #[trigger] sub_mask(self.candidates@[k2], start.candidates@[k2]) by {
                if k2 != k {
                    assert(self.candidates@[k2] == start.candidates@[k2]);
                    assert(sub_mask(start.candidates@[k2], start.candidates@[k2]));
                }
            }
            assert(!has_digit(self.cand(row as int, col as int), d));
            assert forall|s: Seq<Seq<u8>>|
                ksol(info, s) && start.consistent(info, s) && s[row as int][col as int] != d
                    implies self.consistent(info, s) by {
                assert forall|r: int, c: int| in_board(r, c) implies #[trigger] self.cell_ok(s, r, c) by {
                    assert(start.cell_ok(s, r, c));
                    if r == row && c == col {
                        assert(1 <= s[r][c] <= 9);
                        lemma_clear_digit(cands, d, s[r][c]);
                    } else {
                        assert(9 * r + c != k);
                    }
                }
            }
        }
        if remaining == 0 {
            proof {
                assert forall|s: Seq<Seq<u8>>|
                    ksol(info, s) && start.consistent(info, s) implies s[row as int][col as int]
                    == d by {
                    assert(start.cell_ok(s, row as int, col as int));
                    assert(1 <= s[row as int][col as int] <= 9);
                    lemma_clear_digit(cands, d, s[row as int][col as int]);
                    lemma_all_digits(s[row as int][col as int]);
                }
            }
            return false;
        }
        // Naked single: exactly one candidate remains
        if remaining & (remaining - 1) == 0 {
            let sole = remaining.trailing_zeros() as u8;
            let ghost mid = *self;
            proof {
                lemma_lowest_digit(remaining);
            }
            let ok = self.place(row, col, sole, info);
            proof {
                lemma_keeps_trans(start.cells@, mid.cells@, self.cells@);
                lemma_shrinks_trans(start.candidates@, mid.candidates@, self.candidates@);
                lemma_lacks_kept(mid.candidates@, self.candidates@, d);
            }
            if !ok {
                proof {
                    assert forall|s: Seq<Seq<u8>>|
                        ksol(info, s) && start.consistent(info, s) implies s[row as int][col as int]
                        == d by {
                        if s[row as int][col as int] != d {
                            assert(mid.consistent(info, s));
                            assert(mid.cell_ok(s, row as int, col as int));
                            lemma_single_digit(remaining, sole, s[row as int][col as int]);
                        }
                    }
                }
                return false;
            }
            proof {
                assert forall|s: Seq<Seq<u8>>|
                    ksol(info, s) && start.consistent(info, s) && s[row as int][col as int] != d
                        implies self.consistent(info, s) by {
                    assert(mid.consistent(info, s));
                    assert(mid.cell_ok(s, row as int, col as int));
                    assert(1 <= s[row as int][col as int] <= 9);
                    lemma_single_digit(remaining, sole, s[row as int][col as int]);
                }
            }
        }
        // Hidden single: check each unit containing (row, col) for digit d
        let ghost s1 = *self;
        let ok = self.check_hidden_single_row(row, d, bit, info);
        proof {
            lemma_keeps_trans(start.cells@, s1.cells@, self.cells@);
            lemma_shrinks_trans(start.candidates@, s1.candidates@, self.candidates@);
            lemma_lacks_kept(s1.candidates@, self.candidates@, d);
        }
        if !ok {
            return false;
        }
        let ghost s2 = *self;
        let ok = self.check_hidden_single_col(col, d, bit, info);
        proof {
            lemma_keeps_trans(start.cells@, s2.cells@, self.cells@);
            lemma_shrinks_trans(start.candidates@, s2.candidates@, self.candidates@);
            lemma_lacks_kept(s2.candidates@, self.candidates@, d);
        }
        if !ok {
            return false;
        }
        let ghost s3 = *self;
        let ok = self.check_hidden_single_box(row, col, d, bit, info);
        proof {
            lemma_keeps_trans(start.cells@, s3.cells@, self.cells@);
            lemma_shrinks_trans(start.candidates@, s3.candidates@, self.candidates@);
            lemma_lacks_kept(s3.candidates@, self.candidates@, d);
        }
        if !ok {
            return false;
        }
        true
    }

    fn check_hidden_single_row(&mut self, row: usize, d: u8, bit: u16, info: &CageInfo) -> (res: bool)
        requires
            info.valid(),
            old(self).wf(info),
            row < 9,
            1 <= d <= 9,
            bit == 1u16 << d,
        ensures
            res ==> final(self).wf(info),
            keeps(old(self).cells@, final(self).cells@),
            shrinks(old(self).candidates@, final(self).candidates@),
            res ==> final(self).measure() <= old(self).measure(),
            res ==> final(self).empty_count <= old(self).empty_count,
            res ==> forall|s: Seq<Seq<u8>>|
                ksol(info, s) && old(self).consistent(info, s) ==> final(self).consistent(info, s),
            !res ==> forall|s: Seq<Seq<u8>>| ksol(info, s) ==> !old(self).consistent(info, s),
            res ==> final(self).unit_settled(row as int, d)
                || (*final(self) == *old(self) && old(self).unit_two(row as int, d)),
        decreases old(self).measure(), 1nat,
    {
        proof {
            lemma_shrinks_refl(self.candidates@);
        }
        let mut c: usize = 0;
        while c < 9
            invariant
                c <= 9,
                row < 9,
                forall|c2: int| 0 <= c2 < c ==> #[trigger] self.cell(row as int, c2) != d,
                *self == *old(self),
                old(self).wf(info),
                info.valid(),
            decreases 9 - c,
        {
            if self.cells[row * 9 + c] == d {
                proof {
                    lemma_shrinks_refl(self.candidates@);
                    assert(in_unit(row as int, row as int, c as int));
                    assert(self.cell(row as int, c as int) == d);
                }
                return true;
            }
            c += 1;
        }
        let mut count: u8 = 0;
        let mut last_col: usize = 0;
        let mut c: usize = 0;
        while c < 9
            invariant
                c <= 9,
                row < 9,
                1 <= d <= 9,
                bit == 1u16 << d,
                count <= 1,
                count == 0 ==> forall|c2: int| 0 <= c2 < c ==> !has_digit(#[trigger] self.cand(row as int, c2), d),
                count == 1 ==> last_col < c && has_digit(self.cand(row as int, last_col as int), d)
                    && forall|c2: int| 0 <= c2 < c && c2 != last_col ==> !has_digit(#[trigger] self.cand(row as int, c2), d),
                *self == *old(self),
                old(self).wf(info),
                info.valid(),
            decreases 9 - c,
        {
            proof {
                lemma_bit_test(self.cand(row as int, c as int), d);
            }
            if self.candidates[row * 9 + c] & bit != 0 {
                let ghost prev = last_col;
                count += 1;
                last_col = c;
                if count > 1 {
                    proof {
                        lemma_shrinks_refl(self.candidates@);
                        assert(in_unit(row as int, row as int, prev as int));
                        assert(in_unit(row as int, row as int, c as int));
                        assert(has_digit(self.cand(row as int, prev as int), d));
                        assert(has_digit(self.cand(row as int, c as int), d));
                    }
                    return true;
                }
            }
            c += 1;
        }
        if count == 0 {
            proof {
                assert forall|s: Seq<Seq<u8>>| ksol(info, s) implies !self.consistent(info, s) by {
                    if self.consistent(info, s) {
                        lemma_unit_has_digit(s, row as int, d as int);
                        let i = choose|i: int| 0 <= i < 9 && #[trigger] s[unit_row(row as int, i)][unit_col(row as int, i)] == d;
                        assert(self.cell_ok(s, row as int, i));
                    }
                }
            }
            return false;
        }
        let ghost start = *self;
        proof {
            assert forall|s: Seq<Seq<u8>>| ksol(info, s) && start.consistent(info, s) implies s[row as int][last_col as int] == d by {
                lemma_unit_has_digit(s, row as int, d as int);
                let i = choose|i: int| 0 <= i < 9 && #[trigger] s[unit_row(row as int, i)][unit_col(row as int, i)] == d;
                assert(start.cell_ok(s, row as int, i));
            }
        }
        let res = self.place(row, last_col, d, info);
        proof {
            if res {
                assert(in_unit(row as int, row as int, last_col as int));
                assert(self.cell(row as int, last_col as int) == d);
            }
        }
        res
    }

    fn check_hidden_single_col(&mut self, col: usize, d: u8, bit: u16, info: &CageInfo) -> (res: bool)
        requires
            info.valid(),
            old(self).wf(info),
            col < 9,
            1 <= d <= 9,
            bit == 1u16 << d,
        ensures
            res ==> final(self).wf(info),
            keeps(old(self).cells@, final(self).cells@),
            shrinks(old(self).candidates@, final(self).candidates@),
            res ==> final(self).measure() <= old(self).measure(),
            res ==> final(self).empty_count <= old(self).empty_count,
            res ==> forall|s: Seq<Seq<u8>>|
                ksol(info, s) && old(self).consistent(info, s) ==> final(self).consistent(info, s),
            !res ==> forall|s: Seq<Seq<u8>>| ksol(info, s) ==> !old(self).consistent(info, s),
            res ==> final(self).unit_settled(9 + col as int, d)
                || (*final(self) == *old(self) && old(self).unit_two(9 + col as int, d)),
        decreases old(self).measure(), 1nat,
    {
        proof {
            lemma_shrinks_refl(self.candidates@);
        }
        let mut r: usize = 0;
        while r < 9
            invariant
                r <= 9,
                col < 9,
                forall|r2: int| 0 <= r2 < r ==> #[trigger] self.cell(r2, col as int) != d,
                *self == *old(self),
                old(self).wf(info),
                info.valid(),
            decreases 9 - r,
        {
            if self.cells[r * 9 + col] == d {
                proof {
                    lemma_shrinks_refl(self.candidates@);
                    assert(in_unit(9 + col as int, r as int, col as int));
                    assert(self.cell(r as int, col as int) == d);
                }
                return true;
            }
            r += 1;
        }
        let mut count: u8 = 0;
        let mut last_row: usize = 0;
        let mut r: usize = 0;
        while r < 9
            invariant
                r <= 9,
                col < 9,
                1 <= d <= 9,
                bit == 1u16 << d,
                count <= 1,
                count == 0 ==> forall|r2: int| 0 <= r2 < r ==> !has_digit(#[trigger] self.cand(r2, col as int), d),
                count == 1 ==> last_row < r && has_digit(self.cand(last_row as int, col as int), d)
                    && forall|r2: int| 0 <= r2 < r && r2 != last_row ==> !has_digit(#[trigger] self.cand(r2, col as int), d),
                *self == *old(self),
                old(self).wf(info),
                info.valid(),
            decreases 9 - r,
        {
            proof {
                lemma_bit_test(self.cand(r as int, col as int), d);
            }
            if self.candidates[r * 9 + col] & bit != 0 {
                let ghost prev = last_row;
                count += 1;
                last_row = r;
                if count > 1 {
                    proof {
                        lemma_shrinks_refl(self.candidates@);
                        assert(in_unit(9 + col as int, prev as int, col as int));
                        assert(in_unit(9 + col as int, r as int, col as int));
                        assert(has_digit(self.cand(prev as int, col as int), d));
                        assert(has_digit(self.cand(r as int, col as int), d));
                    }
                    return true;
                }
            }
            r += 1;
        }
        if count == 0 {
            proof {
                assert forall|s: Seq<Seq<u8>>| ksol(info, s) implies !self.consistent(info, s) by {
                    if self.consistent(info, s) {
                        lemma_unit_has_digit(s, 9 + col as int, d as int);
                        let i = choose|i: int| 0 <= i < 9 && #[trigger] s[unit_row(9 + col as int, i)][unit_col(9 + col as int, i)] == d;
                        assert(self.cell_ok(s, i, col as int));
                    }
                }
            }
            return false;
        }
        let ghost start = *self;
        proof {
            assert forall|s: Seq<Seq<u8>>| ksol(info, s) && start.consistent(info, s) implies s[last_row as int][col as int] == d by {
                lemma_unit_has_digit(s, 9 + col as int, d as int);
                let i = choose|i: int| 0 <= i < 9 && #[trigger] s[unit_row(9 + col as int, i)][unit_col(9 + col as int, i)] == d;
                assert(start.cell_ok(s, i, col as int));
            }
        }
        let res = self.place(last_row, col, d, info);
        proof {
            if res {
                assert(in_unit(9 + col as int, last_row as int, col as int));
                assert(self.cell(last_row as int, col as int) == d);
            }
        }
        res
    }

    fn check_hidden_single_box(&mut self, row: usize, col: usize, d: u8, bit: u16, info: &CageInfo) -> (res: bool)
        requires
            info.valid(),
            old(self).wf(info),
            row < 9,
            col < 9,
            1 <= d <= 9,
            bit == 1u16 << d,
        ensures
            res ==> final(self).wf(info),
            keeps(old(self).cells@, final(self).cells@),
            shrinks(old(self).candidates@, final(self).candidates@),
            res ==> final(self).measure() <= old(self).measure(),
            res ==> final(self).empty_count <= old(self).empty_count,
            res ==> forall|s: Seq<Seq<u8>>|
                ksol(info, s) && old(self).consistent(info, s) ==> final(self).consistent(info, s),
            !res ==> forall|s: Seq<Seq<u8>>| ksol(info, s) ==> !old(self).consistent(info, s),
            res ==> final(self).unit_settled(18 + 3 * (row as int / 3) + col as int / 3, d)
                || (*final(self) == *old(self) && old(self).unit_two(18 + 3 * (row as int / 3) + col as int / 3, d)),
        decreases old(self).measure(), 1nat,
    {
        let br = (row / 3) * 3;
        let bc = (col / 3) * 3;
        let ghost u = 18 + 3 * (row as int / 3) + col as int / 3;
        proof {
            lemma_shrinks_refl(self.candidates@);
            assert forall|r2: int, c2: int| br <= r2 < br + 3 && bc <= c2 < bc + 3 implies #[trigger] in_unit(u, r2, c2) by {
                assert((u - 18) / 3 == row / 3 && (u - 18) % 3 == col / 3);
            }
        }
        let mut r: usize = br;
        while r < br + 3
            invariant
                br == (row / 3) * 3,
                bc == (col / 3) * 3,
                forall|r2: int, c2: int| br <= r2 < br + 3 && bc <= c2 < bc + 3 ==> #[trigger] in_unit(u, r2, c2),
                br <= r <= br + 3,
                row < 9,
                col < 9,
                forall|r2: int, c2: int| br <= r2 < r && bc <= c2 < bc + 3 ==> #[trigger] self.cell(r2, c2) != d,
                *self == *old(self),
                old(self).wf(info),
                info.valid(),
            decreases br + 3 - r,
        {
            let mut c: usize = bc;
            while c < bc + 3
                invariant
                    br == (row / 3) * 3,
                    bc == (col / 3) * 3,
                    forall|r2: int, c2: int| br <= r2 < br + 3 && bc <= c2 < bc + 3 ==> #[trigger] in_unit(u, r2, c2),
                    br <= r < br + 3,
                    bc <= c <= bc + 3,
                    row < 9,
                    col < 9,
                    forall|r2: int, c2: int| br <= r2 < r && bc <= c2 < bc + 3 ==> #[trigger] self.cell(r2, c2) != d,
                    forall|c2: int| bc <= c2 < c ==> #[trigger] self.cell(r as int, c2) != d,
                    *self == *old(self),
                    old(self).wf(info),
                    info.valid(),
                decreases bc + 3 - c,
            {
                if self.cells[r * 9 + c] == d {
                    proof {
                        lemma_shrinks_refl(self.candidates@);
                        assert(in_unit(u, r as int, c as int));
                        assert(self.cell(r as int, c as int) == d);
                    }
                    return true;
                }
                c += 1;
            }
            r += 1;
        }
        let mut count: u8 = 0;
        let mut last_r: usize = 0;
        let mut last_c: usize = 0;
        let mut r: usize = br;
        while r < br + 3
            invariant
                br == (row / 3) * 3,
                bc == (col / 3) * 3,
                forall|r2: int, c2: int| br <= r2 < br + 3 && bc <= c2 < bc + 3 ==> #[trigger] in_unit(u, r2, c2),
                br <= r <= br + 3,
                row < 9,
                col < 9,
                1 <= d <= 9,
                bit == 1u16 << d,
                count <= 1,
                count == 0 ==> forall|r2: int, c2: int| br <= r2 < r && bc <= c2 < bc + 3 ==> !has_digit(#[trigger] self.cand(r2, c2), d),
                count == 1 ==> br <= last_r < r && bc <= last_c < bc + 3 && has_digit(self.cand(last_r as int, last_c as int), d)
                    && forall|r2: int, c2: int| br <= r2 < r && bc <= c2 < bc + 3 && !(r2 == last_r && c2 == last_c) ==> !has_digit(#[trigger] self.cand(r2, c2), d),
                *self == *old(self),
                old(self).wf(info),
                info.valid(),
            decreases br + 3 - r,
        {
            let mut c: usize = bc;
            while c < bc + 3
                invariant
                    br == (row / 3) * 3,
                    bc == (col / 3) * 3,
                    forall|r2: int, c2: int| br <= r2 < br + 3 && bc <= c2 < bc + 3 ==> #[trigger] in_unit(u, r2, c2),
                    br <= r < br + 3,
                    bc <= c <= bc + 3,
                    row < 9,
                    col < 9,
                    1 <= d <= 9,
                    bit == 1u16 << d,
                    count <= 1,
                    count == 0 ==> forall|r2: int, c2: int| ((br <= r2 < r && bc <= c2 < bc + 3) || (r2 == r && bc <= c2 < c)) ==> !has_digit(#[trigger] self.cand(r2, c2), d),
                    count == 1 ==> ((br <= last_r < r && bc <= last_c < bc + 3) || (last_r == r && bc <= last_c < c)) && has_digit(self.cand(last_r as int, last_c as int), d)
                        && forall|r2: int, c2: int| ((br <= r2 < r && bc <= c2 < bc + 3) || (r2 == r && bc <= c2 < c)) && !(r2 == last_r && c2 == last_c) ==> !has_digit(#[trigger] self.cand(r2, c2), d),
                    *self == *old(self),
                    old(self).wf(info),
                    info.valid(),
                decreases bc + 3 - c,
            {
                proof {
                    lemma_bit_test(self.cand(r as int, c as int), d);
                }
                if self.candidates[r * 9 + c] & bit != 0 {
                    let ghost (pr, pc) = (last_r, last_c);
                    count += 1;
                    last_r = r;
                    last_c = c;
                    if count > 1 {
                        proof {
                            lemma_shrinks_refl(self.candidates@);
                            assert(in_unit(u, pr as int, pc as int));
                            assert(in_unit(u, r as int, c as int));
                            assert(has_digit(self.cand(pr as int, pc as int), d));
                            assert(has_digit(self.cand(r as int, c as int), d));
                        }
                        return true;
                    }
                }
                c += 1;
            }
            r += 1;
        }
        proof {
            assert forall|i: int| 0 <= i < 9 implies br <= #[trigger] unit_row(u, i) < br + 3 && bc <= unit_col(u, i) < bc + 3 by {
            }
        }
        if count == 0 {
            proof {
                assert forall|s: Seq<Seq<u8>>| ksol(info, s) implies !self.consistent(info, s) by {
                    if self.consistent(info, s) {
                        lemma_unit_has_digit(s, u, d as int);
                        let i = choose|i: int| 0 <= i < 9 && #[trigger] s[unit_row(u, i)][unit_col(u, i)] == d;
                        assert(self.cell_ok(s, unit_row(u, i), unit_col(u, i)));
                    }
                }
            }
            return false;
        }
        let ghost start = *self;
        proof {
            assert forall|s: Seq<Seq<u8>>| ksol(info, s) && start.consistent(info, s) implies s[last_r as int][last_c as int] == d by {
                lemma_unit_has_digit(s, u, d as int);
                let i = choose|i: int| 0 <= i < 9 && #[trigger] s[unit_row(u, i)][unit_col(u, i)] == d;
                assert(start.cell_ok(s, unit_row(u, i), unit_col(u, i)));
            }
        }
        let res = self.place(last_r, last_c, d, info);
        proof {
            if res {
                assert(in_unit(u, last_r as int, last_c as int));
                assert(self.cell(last_r as int, last_c as int) == d);
            }
        }
        res
    }

    /// Place digit `d` in cell (row, col), record it in its cage and propagate.
    /// Returns false on contradiction.
    fn place(&mut self, row: usize, col: usize, d: u8, info: &CageInfo) -> (res: bool)
        requires
            info.valid(),
            old(self).wf(info),
            row < 9,
            col < 9,
            old(self).cells@[9 * row + col] == 0 ==> has_digit(old(self).candidates@[9 * row + col], d),
        ensures
            res ==> final(self).wf(info),
            keeps(old(self).cells@, final(self).cells@),
            res ==> final(self).measure() <= old(self).measure(),
            res ==> final(self).empty_count <= old(self).empty_count,
            res && old(self).cells@[9 * row + col] == 0 ==> final(self).empty_count < old(self).empty_count,
            res ==> forall|s: Seq<Seq<u8>>|
                ksol(info, s) && old(self).consistent(info, s) && s[row as int][col as int] == d
                    ==> final(self).consistent(info, s),
            !res ==> forall|s: Seq<Seq<u8>>|
                ksol(info, s) && old(self).consistent(info, s) ==> s[row as int][col as int] != d,
            shrinks(old(self).candidates@, final(self).candidates@),
            res ==> final(self).cells@[9 * row + col] == d,
            old(self).cells@[9 * row + col] != 0
                ==> res == (old(self).cells@[9 * row + col] == d) && *final(self) == *old(self),
        decreases old(self).measure(), 0nat,
    {
        let k = row * 9 + col;
        proof {
            lemma_shrinks_refl(self.candidates@);
        }
        if self.cells[k] != 0 {
            proof {
                assert forall|s: Seq<Seq<u8>>| ksol(info, s) && old(self).consistent(info, s) implies s[row as int][col as int] == self.cells@[k as int] by {
                    assert(old(self).cell_ok(s, row as int, col as int));
                }
            }
            return self.cells[k] == d;
        }
        let ghost start = *self;
        let ci = info.cell_cage[k];
        let ghost list = info.cage(ci as int);
        let ghost n = list.len() as int;
        proof {
            lemma_only_digits(start.candidates@[k as int], d);
            lemma_count_empty_bounds(start.cells@, 81);
            lemma_count_empty_update(start.cells@, k as int, d, 81);
            lemma_cand_sum_update(start.candidates@, k as int, 0, 81);
            lemma_all_digits(d);
            assert(start.candidates@[k as int] != 0);
            assert(count_empty(start.cells@, 81) >= 1);
            assert(in_board(row as int, col as int));
            assert(info.owner_of(row as int, col as int) == ci);
            assert(list.contains((row, col)));
        }
        let ghost j = choose|j: int| 0 <= j < n && list[j] == (row, col);
        self.cells[k] = d;
        self.empty_count -= 1;
        self.candidates[k] = 0;
        let ghost cells1 = self.cells@;
        proof {
            assert(cells1 == start.cells@.update(k as int, d));
            // Only position j of cage ci changes; no other cage holds the cell.
            assert forall|cj: int, k2: int| 0 <= cj < info.n() && 0 <= k2 < info.cage(cj).len() && !(cj == ci && k2 == j)
                implies #[trigger] val(cells1, info.cage(cj)[k2]) == val(start.cells@, info.cage(cj)[k2]) by {
                let p = info.cage(cj)[k2];
                assert(cell_in_board(p));
                assert(info.owner_at(p) == cj);
                if cj == ci {
                    assert(p != list[j]);
                } else {
                    assert(p != (row, col));
                }
                assert(9 * p.0 + p.1 != k);
            }
            let esel0 = empty_sel(start.cells@, list);
            let esel1 = empty_sel(cells1, list);
            assert(val(start.cells@, list[j]) == 0);
            assert(val(cells1, list[j]) == d);
            assert forall|k2: int| 0 <= k2 < n && k2 != j implies #[trigger] esel1(k2) == esel0(k2) by {
                assert(val(cells1, list[k2]) == val(start.cells@, list[k2]));
            }
            lemma_sel_one(Seq::empty(), list, n, esel1, esel0, j);
            lemma_sel_count_bounds(n, esel0, j);
            assert(start.cage_states@[ci as int].remaining >= 1);
            assert(start.cage_states@[ci as int].placed_sum + 9 * start.cage_states@[ci as int].remaining <= 9 * n);
            assert(n <= 9);
        }
        let mut cs = self.cage_states[ci];
        cs.placed_mask |= 1u16 << d;
        cs.placed_sum += d;
        cs.remaining = cs.remaining.saturating_sub(1);
        self.cage_states.set(ci, cs);
        proof {
            assert forall|k2: int| 0 <= k2 < 81 implies only_digits(#[trigger] self.candidates@[k2]) by {
                if k2 != k {
                    assert(self.candidates@[k2] == start.candidates@[k2]);
                }
            }
            assert forall|k2: int| 0 <= k2 < 81 implies #[trigger] self.cells@[k2] <= 9 by {
                if k2 != k {
                    assert(self.cells@[k2] == start.cells@[k2]);
                }
            }
            assert forall|k2: int| 0 <= k2 < 81 && #[trigger] self.cells@[k2] != 0 implies self.candidates@[k2] == 0 by {
                if k2 != k {
                    assert(self.cells@[k2] == start.cells@[k2]);
                }
            }
            assert forall|cj: int| 0 <= cj < info.n() implies #[trigger] self.cage_states@[cj].remaining
                >= sel_count(info.cage(cj).len() as int, empty_sel(self.cells@, info.cage(cj)))
                && self.cage_states@[cj].placed_sum + 9 * self.cage_states@[cj].remaining <= 9 * info.cage(cj).len() by {
                if cj != ci {
                    assert forall|k2: int| 0 <= k2 < info.cage(cj).len() implies
                        #[trigger] empty_sel(cells1, info.cage(cj))(k2) == empty_sel(start.cells@, info.cage(cj))(k2) by {
                        assert(val(cells1, info.cage(cj)[k2]) == val(start.cells@, info.cage(cj)[k2]));
                    }
                    lemma_sel_same(Seq::empty(), info.cage(cj), info.cage(cj).len() as int,
                        empty_sel(cells1, info.cage(cj)), empty_sel(start.cells@, info.cage(cj)));
                    assert(self.cage_states@[cj] == start.cage_states@[cj]);
                }
            }
            assert forall|s: Seq<Seq<u8>>|
                ksol(info, s) && start.consistent(info, s) && s[row as int][col as int] == d
                    implies self.consistent(info, s) by {
                assert forall|r: int, c: int| in_board(r, c) implies #[trigger] self.cell_ok(s, r, c) by {
                    assert(start.cell_ok(s, r, c));
                    if !(r == row && c == col) {
                        assert(9 * r + c != k);
                    }
                }
                assert forall|cj: int| 0 <= cj < info.n() implies #[trigger] state_matches(self.cage_states@[cj], self.cells@, info.cage(cj), s) by {
                    let l = info.cage(cj);
                    assert(state_matches(start.cage_states@[cj], start.cells@, l, s));
                    if cj != ci {
                        assert forall|k2: int| 0 <= k2 < l.len() implies
                            #[trigger] empty_sel(cells1, l)(k2) == empty_sel(start.cells@, l)(k2)
                            && filled_sel(cells1, l)(k2) == filled_sel(start.cells@, l)(k2) by {
                            assert(val(cells1, l[k2]) == val(start.cells@, l[k2]));
                        }
                        lemma_sel_same(s, l, l.len() as int, empty_sel(cells1, l), empty_sel(start.cells@, l));
                        lemma_sel_same(s, l, l.len() as int, filled_sel(cells1, l), filled_sel(start.cells@, l));
                        assert(self.cage_states@[cj] == start.cage_states@[cj]);
                    } else {
                        let f0 = filled_sel(start.cells@, l);
                        let f1 = filled_sel(cells1, l);
                        assert forall|k2: int| 0 <= k2 < n && k2 != j implies #[trigger] f0(k2) == f1(k2) by {
                            assert(val(cells1, l[k2]) == val(start.cells@, l[k2]));
                        }
                        assert(digit_at(s, l[j]) == d);
                        lemma_sel_one(s, l, n, f0, f1, j);
                        lemma_sel_one(s, l, n, empty_sel(cells1, l), empty_sel(start.cells@, l), j);
                    }
                }
            }
        }
        let ghost mid = *self;
        proof {
            assert(mid.measure() < start.measure());
            assert forall|k2: int| 0 <= k2 < 81 implies #[trigger] sub_mask(mid.candidates@[k2], start.candidates@[k2]) by {
                if k2 == k {
                    lemma_empty_mask(start.candidates@[k2], d);
                } else {
                    assert(mid.candidates@[k2] == start.candidates@[k2]);
                    assert(sub_mask(start.candidates@[k2], start.candidates@[k2]));
                }
            }
        }
        let ok = self.eliminate_from_peers(row, col, d, info);
        proof {
            lemma_shrinks_trans(start.candidates@, mid.candidates@, self.candidates@);
            assert(mid.cells@[k as int] == d);
        }
        if !ok {
            proof {
                assert forall|s: Seq<Seq<u8>>| ksol(info, s) && start.consistent(info, s) implies s[row as int][col as int] != d by {
                    if s[row as int][col as int] == d {
                        assert(mid.consistent(info, s));
                    }
                }
            }
            return false;
        }
        let ghost mid2 = *self;
        let cs = self.cage_states[ci];
        if cs.remaining == 0 {
            // All cells filled — verify sum
            if cs.placed_sum != info.sums[ci] {
                proof {
                    assert forall|s: Seq<Seq<u8>>| ksol(info, s) && start.consistent(info, s) implies s[row as int][col as int] != d by {
                        if s[row as int][col as int] == d {
                            assert(mid2.consistent(info, s));
                            lemma_cage_sets(&mid2, info, s, ci as int);
                            lemma_popcount_zero(sel_mask(s, list, n, empty_sel(mid2.cells@, list)));
                            lemma_zero_weight(16);
                        }
                    }
                }
                return false;
            }
        } else {
            // Sum-range pruning: check if remaining sum is achievable
            if !self.check_sum_range(ci, info) {
                proof {
                    assert forall|s: Seq<Seq<u8>>| ksol(info, s) && start.consistent(info, s) implies s[row as int][col as int] != d by {
                        if s[row as int][col as int] == d {
                            assert(mid2.consistent(info, s));
                        }
                    }
                }
                return false;
            }
            // Eliminate placed digit from other unfilled cage cells
            let bit = 1u16 << d;
            let cage = &info.cells[ci];
            let mut i: usize = 0;
            while i < cage.len()
                invariant
                    i <= cage@.len(),
                    cage@ == list,
                    list == info.cage(ci as int),
                    n == list.len(),
                    0 <= j < n,
                    list[j] == (row, col),
                    ci < info.n(),
                    k == 9 * row + col,
                    row < 9,
                    col < 9,
                    1 <= d <= 9,
                    bit == 1u16 << d,
                    self.cells@[k as int] == d,
                    start.cells@[k as int] == 0,
                    info.valid(),
                    start == *old(self),
                    self.wf(info),
                    keeps(start.cells@, self.cells@),
                    shrinks(start.candidates@, self.candidates@),
                    self.measure() < start.measure(),
                    self.empty_count < start.empty_count,
                    forall|s: Seq<Seq<u8>>|
                        ksol(info, s) && start.consistent(info, s) && s[row as int][col as int] == d
                            ==> self.consistent(info, s),
                decreases cage@.len() - i,
            {
                let (cr, cc) = cage[i];
                proof {
                    assert(cell_in_board(list[i as int]));
                    lemma_bit_test(self.candidates@[cr * 9 + cc], d);
                }
                if self.cells[cr * 9 + cc] == 0 && self.candidates[cr * 9 + cc] & bit != 0 {
                    let ghost before = *self;
                    proof {
                        assert(i != j);
                        assert forall|s: Seq<Seq<u8>>| ksol(info, s) && start.consistent(info, s) && s[row as int][col as int] == d
                            implies s[cr as int][cc as int] != d by {
                            assert(cage_ok(list, info.sums@[ci as int] as int, s));
                            assert(digit_at(s, list[i as int]) != digit_at(s, list[j]));
                        }
                    }
                    let ok = self.eliminate(cr, cc, d, bit, info);
                    proof {
                        lemma_keeps_trans(start.cells@, before.cells@, self.cells@);
                        lemma_shrinks_trans(start.candidates@, before.candidates@, self.candidates@);
                    }
                    if !ok {
                        proof {
                            assert forall|s: Seq<Seq<u8>>| ksol(info, s) && start.consistent(info, s) implies s[row as int][col as int] != d by {
                                if s[row as int][col as int] == d {
                                    assert(before.consistent(info, s));
                                }
                            }
                        }
                        return false;
                    }
                }
                i += 1;
            }
            // Combination pruning: filter valid combos, intersect with candidates
            let ghost before = *self;
            let ok = self.prune_cage_combos(ci, info);
            proof {
                lemma_shrinks_trans(start.candidates@, before.candidates@, self.candidates@);
            }
            if !ok {
                proof {
                    assert forall|s: Seq<Seq<u8>>| ksol(info, s) && start.consistent(info, s) implies s[row as int][col as int] != d by {
                        if s[row as int][col as int] == d {
                            assert(before.consistent(info, s));
                        }
                    }
                }
                return false;
            }
        }
        true
    }

    /// The sum cage `ci` still needs lies between the smallest and the
    /// largest sum of as many distinct digits open to its empty cells as it
    /// has empty cells.
    spec fn sum_in_reach(&self, info: &CageInfo, ci: int) -> bool {
        let cs = self.cage_states@[ci];
        let list = info.cage(ci);
        let open = open_digits(self.cells@, self.candidates@, list, cs.placed_mask, list.len() as int);
        let rest = info.sums@[ci].wrapping_sub(cs.placed_sum);
        &&& popcount(open) >= cs.remaining
        &&& smallest_sum(open, cs.remaining as int) <= rest <= largest_sum(open, cs.remaining as int)
    }

    /// Check if the remaining sum for a cage is achievable given available digits.
    fn check_sum_range(&self, ci: usize, info: &CageInfo) -> (res: bool)
        requires
            info.valid(),
            self.wf(info),
            ci < info.n(),
        ensures
            res == self.sum_in_reach(info, ci as int),
            !res ==> forall|s: Seq<Seq<u8>>| ksol(info, s) ==> !self.consistent(info, s),
    {
        let cs = self.cage_states[ci];
        let remaining_sum = info.sums[ci].wrapping_sub(cs.placed_sum);
        let remaining_count = cs.remaining as u32;
        let ghost list = info.cage(ci as int);

        // Collect available digits across unfilled cells, excluding already-placed digits
        let mut available: u16 = 0;
        let cage = &info.cells[ci];
        let mut i: usize = 0;
        while i < cage.len()
            invariant
                i <= cage@.len(),
                cage@ == list,
                list == info.cage(ci as int),
                ci < info.n(),
                info.valid(),
                forall|k: int, x: int| 0 <= k < i && val(self.cells@, list[k]) == 0
                    && #[trigger] bit_set(cand_at(self.candidates@, list[k]) & !cs.placed_mask, x) ==> bit_set(available, x),
                cs == self.cage_states@[ci as int],
                available == open_digits(self.cells@, self.candidates@, list, cs.placed_mask, i as int),
            decreases cage@.len() - i,
        {
            let (r, c) = cage[i];
            proof {
                assert(cell_in_board(list[i as int]));
            }
            if self.cells[r * 9 + c] == 0 {
                let ghost prev = available;
                available |= self.candidates[r * 9 + c] & !cs.placed_mask;
                proof {
                    assert forall|k: int, x: int| 0 <= k < i + 1 && val(self.cells@, list[k]) == 0
                        && #[trigger] bit_set(cand_at(self.candidates@, list[k]) & !cs.placed_mask, x) implies bit_set(available, x) by {
                        lemma_mask_ops(prev, self.candidates@[r * 9 + c] & !cs.placed_mask, x);
                    }
                }
            }
            i += 1;
        }
        let n_available = count_digits(available);
        proof {
            assert forall|s: Seq<Seq<u8>>| ksol(info, s) && self.consistent(info, s) implies ({
                let t = sel_mask(s, list, list.len() as int, empty_sel(self.cells@, list));
                &&& popcount(t) == remaining_count
                &&& digit_sum(t) == remaining_sum
                &&& forall|x: int| 0 <= x < 16 && bit_set(t, x) ==> bit_set(available, x)
            }) by {
                lemma_cage_sets(self, info, s, ci as int);
                let t = sel_mask(s, list, list.len() as int, empty_sel(self.cells@, list));
                assert forall|x: int| 0 <= x < 16 && bit_set(t, x) implies bit_set(available, x) by {
                    let k = choose|k: int| 0 <= k < list.len() && val(self.cells@, list[k]) == 0 && digit_at(s, list[k]) == x;
                    let dg = digit_at(s, list[k]);
                    lemma_has_bit(cand_at(self.candidates@, list[k]), dg);
                    lemma_mask_ops(cand_at(self.candidates@, list[k]), cs.placed_mask, x);
                    assert(bit_set(cand_at(self.candidates@, list[k]) & !cs.placed_mask, x));
                }
                lemma_bits_below_bounds(t, 16);
            }
        }
        if n_available < remaining_count {
            proof {
                assert forall|s: Seq<Seq<u8>>| ksol(info, s) implies !self.consistent(info, s) by {
                    if self.consistent(info, s) {
                        let t = sel_mask(s, list, list.len() as int, empty_sel(self.cells@, list));
                        lemma_subset_count(t, available, 16);
                    }
                }
            }
            return false;
        }

        let min_sum = smallest_n_sum(available, remaining_count);
        let max_sum = largest_n_sum(available, remaining_count);
        proof {
            assert forall|s: Seq<Seq<u8>>| ksol(info, s) && self.consistent(info, s) implies remaining_sum >= min_sum && remaining_sum <= max_sum by {
                let t = sel_mask(s, list, list.len() as int, empty_sel(self.cells@, list));
                lemma_smallest_sum_le(available, t, remaining_count as int);
                lemma_largest_sum_ge(available, t, remaining_count as int);
            }
        }
        remaining_sum >= min_sum && remaining_sum <= max_sum
    }

    /// Some combination of cage `ci` still fits its placed digits.
    spec fn some_combo_fits(&self, info: &CageInfo, ci: int) -> bool {
        let cs = self.cage_states@[ci];
        exists|j: int| 0 <= j < info.combos@[ci]@.len()
            && #[trigger] combo_fits(info.combos@[ci]@[j], cs.placed_mask, cs.remaining)
    }

    /// Digit `x` is one that a fitting combination of cage `ci` adds to its
    /// placed digits.
    spec fn open_to_combos(&self, info: &CageInfo, ci: int, x: int) -> bool {
        let cs = self.cage_states@[ci];
        exists|j: int| 0 <= j < info.combos@[ci]@.len()
            && combo_fits(info.combos@[ci]@[j], cs.placed_mask, cs.remaining)
            && #[trigger] bit_set(info.combos@[ci]@[j] & !cs.placed_mask, x)
    }

    /// Filter cage combinations to those compatible with already-placed digits,
    /// then restrict unfilled cell candidates to the union of remaining digits.
    fn prune_cage_combos(&mut self, ci: usize, info: &CageInfo) -> (res: bool)
        requires
            info.valid(),
            old(self).wf(info),
            ci < info.n(),
        ensures
            res ==> final(self).wf(info),
            keeps(old(self).cells@, final(self).cells@),
            res ==> final(self).measure() <= old(self).measure(),
            res ==> final(self).empty_count <= old(self).empty_count,
            res ==> forall|s: Seq<Seq<u8>>|
                ksol(info, s) && old(self).consistent(info, s) ==> final(self).consistent(info, s),
            !res ==> forall|s: Seq<Seq<u8>>| ksol(info, s) ==> !old(self).consistent(info, s),
            shrinks(old(self).candidates@, final(self).candidates@),
            old(self).cage_states@[ci as int].remaining > 0 && !old(self).some_combo_fits(info, ci as int) ==> !res,
            res ==> forall|k: int, x: int|
                0 <= k < info.cage(ci as int).len() && val(final(self).cells@, info.cage(ci as int)[k]) == 0
                    && #[trigger] bit_set(cand_at(final(self).candidates@, info.cage(ci as int)[k]), x)
                    ==> old(self).open_to_combos(info, ci as int, x),
        decreases old(self).measure(), 1nat,
    {
        proof {
            lemma_shrinks_refl(self.candidates@);
        }
        let cs = self.cage_states[ci];
        let combos = &info.combos[ci];
        let ghost list = info.cage(ci as int);
        let ghost n = list.len() as int;
        let placed = cs.placed_mask;
        let remaining_count = cs.remaining as u32;

        // A combo is valid if it contains all placed digits and the remaining
        // digits (combo & !placed) have the right count.
        let mut valid_remaining: u16 = 0;
        let mut i: usize = 0;
        proof {
            assert forall|x: int| #[trigger] bit_set(valid_remaining, x) implies old(self).open_to_combos(info, ci as int, x) by {
                crate::killer::lemma_zero_bit(x as u16);
            }
        }
        while i < combos.len()
            invariant
                i <= combos@.len(),
                combos@ == info.combos@[ci as int]@,
                *self == *old(self),
                cs == old(self).cage_states@[ci as int],
                placed == cs.placed_mask,
                remaining_count == cs.remaining,
                forall|j: int, x: int| 0 <= j < i && combos@[j] & placed == placed && popcount(combos@[j] & !placed) == remaining_count
                    && #[trigger] bit_set(combos@[j] & !placed, x) ==> bit_set(valid_remaining, x),
                forall|x: int| #[trigger] bit_set(valid_remaining, x) ==> old(self).open_to_combos(info, ci as int, x),
                (forall|j: int| 0 <= j < i ==> !#[trigger] combo_fits(combos@[j], placed, cs.remaining)) ==> valid_remaining == 0,
            decreases combos@.len() - i,
        {
            let combo = combos[i];
            if combo & placed == placed {
                let rest = combo & !placed;
                if count_digits(rest) == remaining_count {
                    let ghost prev = valid_remaining;
                    valid_remaining |= rest;
                    proof {
                        assert(combo_fits(combos@[i as int], placed, cs.remaining));
                        assert forall|j: int, x: int| 0 <= j < i + 1 && combos@[j] & placed == placed && popcount(combos@[j] & !placed) == remaining_count
                            && #[trigger] bit_set(combos@[j] & !placed, x) implies bit_set(valid_remaining, x) by {
                            lemma_mask_ops(prev, rest, x);
                        }
                        assert forall|x: int| #[trigger] bit_set(valid_remaining, x) implies old(self).open_to_combos(info, ci as int, x) by {
                            lemma_mask_ops(prev, rest, x);
                            if !bit_set(prev, x) {
                                assert(bit_set(combos@[i as int] & !placed, x));
                            }
                        }
                    }
                }
            }
            i += 1;
        }
        let ghost start = *self;
        proof {
            assert forall|s: Seq<Seq<u8>>| ksol(info, s) && start.consistent(info, s) implies
                forall|k: int| 0 <= k < n && val(start.cells@, list[k]) == 0 ==> #[trigger] bit_set(valid_remaining, digit_at(s, list[k]) as int) by {
                lemma_cage_sets(&start, info, s, ci as int);
                let t = sel_mask(s, list, n, empty_sel(start.cells@, list));
                let dm = sel_mask(s, list, n, all_sel());
                assert(info.shaped());
                assert(lists_combos(info.combos@[ci as int]@, n, info.sums@[ci as int] as int));
                assert(combos@.contains(dm));
                let j = choose|j: int| 0 <= j < combos@.len() && combos@[j] == dm;
                assert forall|x: int| 0 <= x < 16 implies (bit_set(dm & placed, x) <==> bit_set(placed, x)) by {
                    lemma_mask_ops(dm, placed, x);
                }
                lemma_mask_ext(dm & placed, placed);
                assert forall|x: int| 0 <= x < 16 implies (bit_set(dm & !placed, x) <==> bit_set(t, x)) by {
                    lemma_mask_ops(dm, placed, x);
                    if bit_set(t, x) {
                        let k = choose|k: int| 0 <= k < n && val(start.cells@, list[k]) == 0 && digit_at(s, list[k]) == x;
                    }
                }
                lemma_same_members(dm & !placed, t, 16);
                assert forall|k: int| 0 <= k < n && val(start.cells@, list[k]) == 0 implies #[trigger] bit_set(valid_remaining, digit_at(s, list[k]) as int) by {
                    let x = digit_at(s, list[k]) as int;
                    lemma_mask_ops(dm, placed, x);
                    assert(bit_set(combos@[j] & !placed, x));
                }
            }
        }
        if valid_remaining == 0 && remaining_count > 0 {
            proof {
                assert forall|s: Seq<Seq<u8>>| ksol(info, s) implies !start.consistent(info, s) by {
                    if start.consistent(info, s) {
                        lemma_cage_sets(&start, info, s, ci as int);
                        let t = sel_mask(s, list, n, empty_sel(start.cells@, list));
                        if t == 0 {
                            lemma_zero_weight(16);
                        }
                        assert(t != 0);
                        assert forall|x: int| 0 <= x < 16 implies !bit_set(t, x) by {
                            if bit_set(t, x) {
                                let k = choose|k: int| 0 <= k < n && val(start.cells@, list[k]) == 0 && digit_at(s, list[k]) == x;
                                assert(bit_set(valid_remaining, digit_at(s, list[k]) as int));
                                let y = x as u16;
                                crate::killer::lemma_zero_bit(y);
                            }
                        }
                        assert forall|x: int| 0 <= x < 16 implies (bit_set(t, x) <==> bit_set(0u16, x)) by {
                            let y = x as u16;
                            crate::killer::lemma_zero_bit(y);
                        }
                        lemma_mask_ext(t, 0u16);
                    }
                }
            }
            return false;
        }

        let cage = &info.cells[ci];
        let mut i: usize = 0;
        while i < cage.len()
            invariant
                i <= cage@.len(),
                cage@ == list,
                list == info.cage(ci as int),
                n == list.len(),
                ci < info.n(),
                info.valid(),
                start == *old(self),
                self.wf(info),
                keeps(start.cells@, self.cells@),
                shrinks(start.candidates@, self.candidates@),
                self.measure() <= start.measure(),
                self.empty_count <= start.empty_count,
                forall|s: Seq<Seq<u8>>| ksol(info, s) && start.consistent(info, s) ==> self.consistent(info, s),
                forall|s: Seq<Seq<u8>>| ksol(info, s) && start.consistent(info, s) ==>
                    forall|k: int| 0 <= k < n && val(start.cells@, list[k]) == 0 ==> #[trigger] bit_set(valid_remaining, digit_at(s, list[k]) as int),
                forall|x: int| #[trigger] bit_set(valid_remaining, x) ==> start.open_to_combos(info, ci as int, x),
                forall|k: int, x: int| 0 <= k < i && val(self.cells@, list[k]) == 0
                    && #[trigger] bit_set(cand_at(self.candidates@, list[k]), x) ==> bit_set(valid_remaining, x),
            decreases cage@.len() - i,
        {
            let (cr, cc) = cage[i];
            let ghost p = list[i as int];
            proof {
                assert(cell_in_board(p));
            }
            if self.cells[cr * 9 + cc] == 0 {
                let old_cands = self.candidates[cr * 9 + cc];
                let restricted = old_cands & valid_remaining;
                proof {
                    assert(val(start.cells@, p) == 0) by {
                        if val(start.cells@, p) != 0 {
                            assert(self.cells@[9 * p.0 + p.1] == start.cells@[9 * p.0 + p.1]);
                        }
                    }
                    assert forall|s: Seq<Seq<u8>>| ksol(info, s) && start.consistent(info, s) implies
                        bit_set(restricted, s[cr as int][cc as int] as int)
                        && bit_set(valid_remaining, s[cr as int][cc as int] as int)
                        && has_digit(old_cands, s[cr as int][cc as int]) by {
                        assert(self.consistent(info, s));
                        assert(in_board(cr as int, cc as int));
                        assert(self.cell_ok(s, cr as int, cc as int));
                        assert(bit_set(valid_remaining, digit_at(s, list[i as int]) as int));
                        lemma_has_bit(old_cands, s[cr as int][cc as int]);
                        lemma_mask_ops(old_cands, valid_remaining, s[cr as int][cc as int] as int);
                    }
                }
                if restricted == 0 {
                    proof {
                        assert forall|s: Seq<Seq<u8>>| ksol(info, s) implies !start.consistent(info, s) by {
                            if start.consistent(info, s) {
                                let y = s[cr as int][cc as int] as u16;
                                assert(bit_set(restricted, y as int));
                                crate::killer::lemma_zero_bit(y);
                            }
                        }
                    }
                    return false;
                }
                // Eliminate bits that are no longer valid
                let removed = old_cands & !restricted;
                let mut bits = removed;
                proof {
                    lemma_only_digits_and(old_cands, !restricted);
                    assert forall|x: int| #[trigger] bit_set(removed, x) implies !bit_set(valid_remaining, x) by {
                        lemma_mask_ops(old_cands, restricted, x);
                        lemma_mask_ops(old_cands, valid_remaining, x);
                    }
                    assert forall|x: int| #[trigger] bit_set(self.candidates@[cr * 9 + cc], x)
                        implies bit_set(valid_remaining, x) || bit_set(bits, x) by {
                        lemma_mask_ops(old_cands, restricted, x);
                        lemma_mask_ops(old_cands, valid_remaining, x);
                    }
                }
                while bits != 0
                    invariant
                        i < cage@.len(),
                        cage@ == list,
                        list == info.cage(ci as int),
                        n == list.len(),
                        ci < info.n(),
                        cr < 9,
                        cc < 9,
                        only_digits(bits),
                        forall|x: int| #[trigger] bit_set(bits, x) ==> !bit_set(valid_remaining, x),
                        info.valid(),
                        start == *old(self),
                        self.wf(info),
                        keeps(start.cells@, self.cells@),
                        shrinks(start.candidates@, self.candidates@),
                        self.measure() <= start.measure(),
                        self.empty_count <= start.empty_count,
                        forall|s: Seq<Seq<u8>>| ksol(info, s) && start.consistent(info, s) ==> self.consistent(info, s),
                        forall|s: Seq<Seq<u8>>| ksol(info, s) && start.consistent(info, s) ==>
                            bit_set(valid_remaining, s[cr as int][cc as int] as int),
                        forall|s: Seq<Seq<u8>>| ksol(info, s) && start.consistent(info, s) ==>
                            forall|k: int| 0 <= k < n && val(start.cells@, list[k]) == 0 ==> #[trigger] bit_set(valid_remaining, digit_at(s, list[k]) as int),
                        forall|x: int| #[trigger] bit_set(valid_remaining, x) ==> start.open_to_combos(info, ci as int, x),
                        forall|k: int, x: int| 0 <= k < i && val(self.cells@, list[k]) == 0
                            && #[trigger] bit_set(cand_at(self.candidates@, list[k]), x) ==> bit_set(valid_remaining, x),
                        p == list[i as int],
                        (cr, cc) == p,
                        forall|x: int| #[trigger] bit_set(self.candidates@[cr * 9 + cc], x)
                            ==> bit_set(valid_remaining, x) || bit_set(bits, x),
                    decreases bits,
                {
                    let digit = bits.trailing_zeros() as u8;
                    proof {
                        lemma_lowest_digit(bits);
                        lemma_only_digits(bits, digit);
                        lemma_has_bit(bits, digit);
                    }
                    let bit = 1u16 << digit;
                    let ghost prev = bits;
                    bits &= !bit;
                    proof {
                        lemma_clear_digit_decreases(prev, digit);
                        lemma_only_digits_and(prev, !bit);
                        assert forall|x: int| #[trigger] bit_set(bits, x) implies !bit_set(valid_remaining, x) by {
                            lemma_mask_ops(prev, bit, x);
                        }
                    }
                    let ghost before = *self;
                    let ok = self.eliminate(cr, cc, digit, bit, info);
                    proof {
                        lemma_keeps_trans(start.cells@, before.cells@, self.cells@);
                        lemma_shrinks_trans(start.candidates@, before.candidates@, self.candidates@);
                    }
                    if !ok {
                        proof {
                            assert forall|s: Seq<Seq<u8>>| ksol(info, s) implies !start.consistent(info, s) by {
                                if start.consistent(info, s) {
                                    assert(before.consistent(info, s));
                                    assert(s[cr as int][cc as int] == digit);
                                }
                            }
                        }
                        return false;
                    }
                    proof {
                        assert forall|s: Seq<Seq<u8>>| ksol(info, s) && start.consistent(info, s) implies self.consistent(info, s) by {
                            assert(before.consistent(info, s));
                            assert(s[cr as int][cc as int] != digit);
                        }
                        lemma_bits_kept(before.candidates@, self.candidates@);
                        assert forall|k: int, x: int| 0 <= k < i && val(self.cells@, list[k]) == 0
                            && #[trigger] bit_set(cand_at(self.candidates@, list[k]), x) implies bit_set(valid_remaining, x) by {
                            assert(cell_in_board(list[k]));
                            let q = list[k];
                            assert(bit_set(before.candidates@[9 * q.0 + q.1], x));
                            if before.cells@[9 * q.0 + q.1] != 0 {
                                assert(self.cells@[9 * q.0 + q.1] == before.cells@[9 * q.0 + q.1]);
                            }
                            assert(val(before.cells@, list[k]) == 0);
                            assert(bit_set(cand_at(before.candidates@, list[k]), x));
                        }
                        assert forall|x: int| #[trigger] bit_set(self.candidates@[cr * 9 + cc], x)
                            implies bit_set(valid_remaining, x) || bit_set(bits, x) by {
                            assert(bit_set(before.candidates@[cr * 9 + cc], x));
                            let e = x as u8;
                            lemma_has_bit(self.candidates@[cr * 9 + cc], e);
                            lemma_has_bit(bits, e);
                            lemma_has_bit(prev, e);
                            lemma_clear_digit(prev, digit, e);
                            assert(self.cand(cr as int, cc as int) == self.candidates@[cr * 9 + cc]);
                        }
                    }
                }
                proof {
                    assert forall|k: int, x: int| 0 <= k < i + 1 && val(self.cells@, list[k]) == 0
                        && #[trigger] bit_set(cand_at(self.candidates@, list[k]), x) implies bit_set(valid_remaining, x) by {
                        if k == i {
                            crate::killer::lemma_zero_bit(x as u16);
                            assert(bit_set(self.candidates@[cr * 9 + cc], x));
                        }
                    }
                }
            } else {
                proof {
                    assert forall|k: int, x: int| 0 <= k < i + 1 && val(self.cells@, list[k]) == 0
                        && #[trigger] bit_set(cand_at(self.candidates@, list[k]), x) implies bit_set(valid_remaining, x) by {
                        if k == i {
                            assert(val(self.cells@, list[k]) != 0);
                        }
                    }
                }
            }
            i += 1;
        }
        true
    }
}


/// What a solution consistent with the state says of one cage: the digits
/// of its empty cells (`t`) are candidates, missing from the placed digits
/// (`p`), and make up with them a digit combination of the cage (`d`).
proof fn lemma_cage_sets(st: &KillerCpState, info: &CageInfo, s: Seq<Seq<u8>>, ci: int)
    requires
        info.valid(),
        st.wf(info),
        ksol(info, s),
        st.consistent(info, s),
        0 <= ci < info.n(),
    ensures
        ({
            let list = info.cage(ci);
            let n = list.len() as int;
            let cs = st.cage_states@[ci];
            let t = sel_mask(s, list, n, empty_sel(st.cells@, list));
            let d = sel_mask(s, list, n, all_sel());
            &&& forall|k: int| 0 <= k < n ==> 1 <= #[trigger] digit_at(s, list[k]) <= 9
            &&& forall|k: int| 0 <= k < n && val(st.cells@, list[k]) == 0 ==> {
                &&& bit_set(t, digit_at(s, list[k]) as int)
                &&& !bit_set(cs.placed_mask, digit_at(s, list[k]) as int)
                &&& bit_set(d, digit_at(s, list[k]) as int)
                &&& has_digit(cand_at(st.candidates@, list[k]), digit_at(s, list[k]))
            }
            &&& forall|x: int| #[trigger] bit_set(t, x) ==> exists|k: int| 0 <= k < n && val(st.cells@, list[k]) == 0 && digit_at(s, list[k]) == x
            &&& forall|x: int| #[trigger] bit_set(cs.placed_mask, x) ==> bit_set(d, x)
            &&& forall|x: int| #[trigger] bit_set(d, x) ==> bit_set(cs.placed_mask, x) || bit_set(t, x)
            &&& popcount(t) == cs.remaining
            &&& digit_sum(t) + cs.placed_sum == info.sums@[ci]
            &&& is_combo(d, n, info.sums@[ci] as int)
        }),
{
    let list = info.cage(ci);
    let n = list.len() as int;
    let cs = st.cage_states@[ci];
    let cells = st.cells@;
    let fsel = filled_sel(cells, list);
    let esel = empty_sel(cells, list);
    assert(state_matches(cs, cells, list, s));
    assert(cage_ok(list, info.sums@[ci] as int, s));
    assert forall|k: int| 0 <= k < n implies 1 <= #[trigger] digit_at(s, list[k]) <= 9 by {
        assert(cell_in_board(list[k]));
        assert(in_board(list[k].0 as int, list[k].1 as int));
    }
    lemma_sel_mask(s, list, n, esel);
    lemma_sel_mask(s, list, n, fsel);
    lemma_sel_mask(s, list, n, all_sel());
    let t = sel_mask(s, list, n, esel);
    let d = sel_mask(s, list, n, all_sel());
    assert forall|k: int| 0 <= k < n && val(cells, list[k]) == 0 implies {
        &&& bit_set(t, digit_at(s, list[k]) as int)
        &&& !bit_set(cs.placed_mask, digit_at(s, list[k]) as int)
        &&& bit_set(d, digit_at(s, list[k]) as int)
        &&& has_digit(cand_at(st.candidates@, list[k]), digit_at(s, list[k]))
    } by {
        let x = digit_at(s, list[k]) as int;
        assert(esel(k));
        assert(all_sel()(k));
        if bit_set(cs.placed_mask, x) {
            let k2 = choose|k2: int| 0 <= k2 < n && fsel(k2) && digit_at(s, list[k2]) == x;
            assert(k2 != k);
        }
        let p = list[k];
        assert(cell_in_board(p));
        assert(in_board(p.0 as int, p.1 as int));
        assert(st.cell_ok(s, p.0 as int, p.1 as int));
    }
    assert forall|x: int| #[trigger] bit_set(t, x) implies exists|k: int| 0 <= k < n && val(cells, list[k]) == 0 && digit_at(s, list[k]) == x by {
        let k = choose|k: int| 0 <= k < n && esel(k) && digit_at(s, list[k]) == x;
    }
    assert forall|x: int| #[trigger] bit_set(cs.placed_mask, x) implies bit_set(d, x) by {
        let k = choose|k: int| 0 <= k < n && fsel(k) && digit_at(s, list[k]) == x;
        assert(all_sel()(k));
    }
    assert forall|x: int| #[trigger] bit_set(d, x) implies bit_set(cs.placed_mask, x) || bit_set(t, x) by {
        let k = choose|k: int| 0 <= k < n && all_sel()(k) && digit_at(s, list[k]) == x;
        if val(cells, list[k]) == 0 {
            assert(esel(k));
        } else {
            assert(fsel(k));
        }
    }
    assert forall|k: int| 0 <= k < n implies #[trigger] fsel(k) != esel(k) by {
    }
    lemma_sel_split(s, list, n, fsel, esel);
    lemma_sel_all_sum(s, list, n);
    assert(list.subrange(0, n) =~= list);
    lemma_bits_below_bounds(t, 16);
    lemma_popcount_zero_mask(d);
}

/// A mask with a positive count is not zero.
proof fn lemma_popcount_zero_mask(m: u16)
    ensures
        m == 0 ==> popcount(m) == 0,
{
    if m == 0 {
        lemma_zero_weight(16);
    }
}

/// Every cell of `g` is empty.
pub open spec fn no_givens(g: Seq<Seq<u8>>) -> bool {
    forall|r: int, c: int| in_board(r, c) ==> #[trigger] g[r][c] == 0
}

proof fn lemma_sel_none(s: Seq<Seq<u8>>, list: Seq<(usize, usize)>, n: int, sel: spec_fn(int) -> bool)
    requires
        forall|k: int| 0 <= k < n ==> !#[trigger] sel(k),
    ensures
        sel_mask(s, list, n, sel) == 0,
        sel_count(n, sel) == 0,
        sel_sum(s, list, n, sel) == 0,
    decreases n,
{
    if n > 0 {
        lemma_sel_none(s, list, n - 1, sel);
    }
}

/// The digits of the first `j` combinations.
spec fn combos_union(combos: Seq<u16>, j: int) -> u16
    decreases j,
{
    if j <= 0 {
        0u16
    } else {
        combos_union(combos, j - 1) | combos[j - 1]
    }
}

/// Cell `k` (in reading order) is among the first `i` cells of `list`.
spec fn lists_cell(list: Seq<(usize, usize)>, i: int, k: int) -> bool {
    exists|i2: int| 0 <= i2 < i && #[trigger] list[i2] == ((k / 9) as usize, (k % 9) as usize)
}

/// The candidates an empty cell `k` keeps after the first `n` cages: those
/// digits that, in every one of these cages that holds the cell, belong to
/// some digit combination of the cage.
spec fn start_mask(info: &CageInfo, k: int, n: int) -> u16
    decreases n,
{
    if n <= 0 {
        ALL_DIGITS
    } else {
        let m = start_mask(info, k, n - 1);
        if lists_cell(info.cage(n - 1), info.cage(n - 1).len() as int, k) {
            m & combos_union(info.combos@[n - 1]@, info.combos@[n - 1]@.len() as int)
        } else {
            m
        }
    }
}

impl KillerCpState {
    fn from_grid_with_cages(grid: &Grid, info: &CageInfo) -> (res: Option<KillerCpState>)
        requires
            digits_in_range(grid@),
            info.shaped(),
        ensures
            res matches Some(st) ==> info.valid() && st.wf(info)
                && (no_givens(grid@) ==> forall|s: Seq<Seq<u8>>| ksol(info, s) ==> st.consistent(info, s)),
            res is None ==> (no_givens(grid@) && info.no_empty_cage() ==> forall|s: Seq<Seq<u8>>| !ksol(info, s)),
            res is Some ==> forall|ci: int| 0 <= ci < info.n() ==> #[trigger] info.combos@[ci]@.len() > 0,
            res matches Some(st) ==> forall|r: int, c: int| in_board(r, c) && grid@[r][c] != 0 ==> #[trigger] st.cell(r, c) == grid@[r][c],
            res matches Some(st) ==> st.empty_count <= crate::generator::num_empty(grid@),
            res matches Some(st) ==> (no_givens(grid@) ==> forall|k: int| 0 <= k < 81 ==> #[trigger] st.cells@[k] == 0
                && st.candidates@[k] != 0),
            res matches Some(st) ==> (no_givens(grid@) ==> forall|k: int| 0 <= k < 81 ==> #[trigger] st.candidates@[k]
                == start_mask(info, k, info.n())),
    {
        let ghost g = grid@;
        let mut cage_states: Vec<KillerCageState> = Vec::new();
        let mut i: usize = 0;
        while i < info.num_cages()
            invariant
                i <= info.n(),
                cage_states@.len() == i,
                forall|ci: int| 0 <= ci < i ==> #[trigger] cage_states@[ci] == (KillerCageState {
                    placed_mask: 0, placed_sum: 0, remaining: info.cage(ci).len() as u8 }),
            decreases info.n() - i,
        {
            cage_states.push(KillerCageState { placed_mask: 0, placed_sum: 0, remaining: info.cells[i].len() as u8 });
            i += 1;
        }

        let mut state = KillerCpState { cells: [0u8; 81], candidates: [ALL_DIGITS; 81], empty_count: 0, cage_states };

        // Count empties and copy filled cells
        let mut r: usize = 0;
        while r < 9
            invariant
                r <= 9,
                g == grid@,
                digits_in_range(g),
                state.cage_states@.len() == info.n(),
                forall|ci: int| 0 <= ci < info.n() ==> #[trigger] state.cage_states@[ci] == (KillerCageState {
                    placed_mask: 0, placed_sum: 0, remaining: info.cage(ci).len() as u8 }),
                state.empty_count == count_empty(state.cells@, 9 * r),
                state.empty_count <= 9 * r,
                forall|k: int| 0 <= k < 9 * r ==> #[trigger] state.cells@[k] == g[k / 9][k % 9],
                forall|k: int| 0 <= k < 9 * r ==> #[trigger] state.candidates@[k] == (if g[k / 9][k % 9] == 0 { ALL_DIGITS } else { 0u16 }),
                forall|k: int| 9 * r <= k < 81 ==> #[trigger] state.cells@[k] == 0,
                forall|k: int| 9 * r <= k < 81 ==> #[trigger] state.candidates@[k] == ALL_DIGITS,
            decreases 9 - r,
        {
            let mut c: usize = 0;
            while c < 9
                invariant
                    r < 9,
                    c <= 9,
                    g == grid@,
                    digits_in_range(g),
                    state.cage_states@.len() == info.n(),
                    forall|ci: int| 0 <= ci < info.n() ==> #[trigger] state.cage_states@[ci] == (KillerCageState {
                        placed_mask: 0, placed_sum: 0, remaining: info.cage(ci).len() as u8 }),
                    state.empty_count == count_empty(state.cells@, 9 * r + c),
                    state.empty_count <= 9 * r + c,
                    forall|k: int| 0 <= k < 9 * r + c ==> #[trigger] state.cells@[k] == g[k / 9][k % 9],
                    forall|k: int| 0 <= k < 9 * r + c ==> #[trigger] state.candidates@[k] == (if g[k / 9][k % 9] == 0 { ALL_DIGITS } else { 0u16 }),
                    forall|k: int| 9 * r + c <= k < 81 ==> #[trigger] state.cells@[k] == 0,
                    forall|k: int| 9 * r + c <= k < 81 ==> #[trigger] state.candidates@[k] == ALL_DIGITS,
                decreases 9 - c,
            {
                let v = grid.get(r, c);
                let ghost k0 = 9 * r + c;
                let ghost before = state.cells@;
                let ghost before_c = state.candidates@;
                assert(k0 / 9 == r && k0 % 9 == c);
                if v == 0 {
                    state.empty_count += 1;
                } else {
                    state.cells[r * 9 + c] = v;
                    state.candidates[r * 9 + c] = 0;
                    proof {
                        lemma_count_empty_update(before, k0, v, k0);
                    }
                }
                proof {
                    assert(before[k0] == 0);
                    assert forall|k: int| 0 <= k < k0 + 1 implies #[trigger] state.cells@[k] == g[k / 9][k % 9] by {
                        if k < k0 {
                            assert(before[k] == g[k / 9][k % 9]);
                        }
                    }
                    assert forall|k: int| 0 <= k < k0 + 1 implies #[trigger] state.candidates@[k] == (if g[k / 9][k % 9] == 0 { ALL_DIGITS } else { 0u16 }) by {
                        if k < k0 {
                            assert(before_c[k] == (if g[k / 9][k % 9] == 0 { ALL_DIGITS } else { 0u16 }));
                        }
                    }
                    assert forall|k: int| k0 + 1 <= k < 81 implies #[trigger] state.cells@[k] == 0 by {
                        assert(before[k] == 0);
                    }
                    assert forall|k: int| k0 + 1 <= k < 81 implies #[trigger] state.candidates@[k] == ALL_DIGITS by {
                        assert(before_c[k] == ALL_DIGITS);
                    }
                    assert(state.cells@[k0] == v);
                    assert(count_empty(state.cells@, k0 + 1) == count_empty(state.cells@, k0) + if v == 0 { 1nat } else { 0nat });
                }
                c += 1;
            }
            r += 1;
        }
        let ghost cells0 = state.cells@;
        proof {
            assert forall|k: int| 0 <= k < 81 implies #[trigger] cells0[k] == g[k / 9][k % 9] by {
                assert(state.cells@[k] == g[k / 9][k % 9]);
            }
            assert forall|k: int| 0 <= k < 81 implies #[trigger] state.cells@[k] <= 9 && (state.cells@[k] != 0 ==> state.candidates@[k] == 0)
                && only_digits(state.candidates@[k]) by {
                assert(in_board(k / 9, k % 9));
                assert(g[k / 9][k % 9] <= 9);
                assert(state.candidates@[k] == (if g[k / 9][k % 9] == 0 { ALL_DIGITS } else { 0u16 }));
                lemma_all_digits(0);
            }
            assert forall|k: int| 0 <= k < 81 implies only_digits(#[trigger] state.candidates@[k]) by {
                assert(state.cells@[k] <= 9);
            }
            assert forall|k: int| 0 <= k < 81 && #[trigger] state.cells@[k] != 0 implies state.candidates@[k] == 0 by {
                assert(state.cells@[k] <= 9);
            }
            assert forall|s: Seq<Seq<u8>>| ksol(info, s) && no_givens(g) implies forall|r2: int, c2: int| in_board(r2, c2) ==> #[trigger] state.cell_ok(s, r2, c2) by {
                assert forall|r2: int, c2: int| in_board(r2, c2) implies #[trigger] state.cell_ok(s, r2, c2) by {
                    let k = 9 * r2 + c2;
                    assert(k / 9 == r2 && k % 9 == c2);
                    assert(state.cells@[k] == g[r2][c2]);
                    assert(state.candidates@[k] == (if g[k / 9][k % 9] == 0 { ALL_DIGITS } else { 0u16 }));
                    assert(1 <= s[r2][c2] <= 9);
                    lemma_all_digits(s[r2][c2]);
                }
            }
        }

        // Initial cage candidate pruning: restrict candidates to digits that
        // appear in at least one valid combination for each cage.
        let mut ci: usize = 0;
        while ci < info.num_cages()
            invariant
                ci <= info.n(),
                info.shaped(),
                g == grid@,
                state.cells@ == cells0,
                state.empty_count == count_empty(state.cells@, 81),
                state.cage_states@.len() == info.n(),
                forall|cj: int| 0 <= cj < info.n() ==> #[trigger] state.cage_states@[cj] == (KillerCageState {
                    placed_mask: 0, placed_sum: 0, remaining: info.cage(cj).len() as u8 }),
                forall|k: int| 0 <= k < 81 ==> #[trigger] state.cells@[k] <= 9,
                forall|k: int| 0 <= k < 81 && #[trigger] state.cells@[k] != 0 ==> state.candidates@[k] == 0,
                forall|k: int| 0 <= k < 81 ==> only_digits(#[trigger] state.candidates@[k]),
                forall|cj: int| 0 <= cj < ci ==> 1 <= #[trigger] info.cage(cj).len() <= 9,
                forall|cj: int| 0 <= cj < ci ==> #[trigger] info.combos@[cj]@.len() > 0,
                forall|s: Seq<Seq<u8>>| ksol(info, s) && no_givens(g) ==> forall|r2: int, c2: int| in_board(r2, c2) ==> #[trigger] state.cell_ok(s, r2, c2),
                forall|k: int| 0 <= k < 81 ==> #[trigger] cells0[k] == g[k / 9][k % 9],
                forall|k: int| 0 <= k < 81 ==> #[trigger] state.candidates@[k]
                    == if cells0[k] != 0 { 0u16 } else { start_mask(info, k, ci as int) },
                forall|k: int| 0 <= k < 81 && cells0[k] == 0 ==> #[trigger] state.candidates@[k] != 0,
            decreases info.n() - ci,
        {
            let combos = &info.combos[ci];
            let ghost list = info.cage(ci as int);
            let ghost n = list.len() as int;
            proof {
                assert(lists_combos(combos@, n, info.sums@[ci as int] as int));
            }
            if combos.len() == 0 {
                proof {
                    assert forall|s: Seq<Seq<u8>>| info.no_empty_cage() implies !ksol(info, s) by {
                        assert(info.cage(ci as int).len() > 0);
                        if ksol(info, s) {
                            lemma_solution_combo(info, s, ci as int);
                        }
                    }
                }
                return None;
            }
            proof {
                lemma_combo_len(info, ci as int);
            }
            // Union of all valid combo digits
            let mut valid_digits: u16 = 0;
            let mut j: usize = 0;
            while j < combos.len()
                invariant
                    j <= combos@.len(),
                    1 <= n <= 9,
                    forall|j2: int, x: int| 0 <= j2 < j && #[trigger] bit_set(combos@[j2], x) ==> bit_set(valid_digits, x),
                    valid_digits == combos_union(combos@, j as int),
                decreases combos@.len() - j,
            {
                let ghost prev = valid_digits;
                valid_digits |= combos[j];
                proof {
                    assert forall|j2: int, x: int| 0 <= j2 < j + 1 && #[trigger] bit_set(combos@[j2], x) implies bit_set(valid_digits, x) by {
                        lemma_mask_ops(prev, combos@[j as int], x);
                    }
                }
                j += 1;
            }
            proof {
                assert forall|s: Seq<Seq<u8>>| ksol(info, s) implies forall|k: int| 0 <= k < n ==> #[trigger] bit_set(valid_digits, digit_at(s, list[k]) as int) by {
                    lemma_solution_combo(info, s, ci as int);
                    let dm = sel_mask(s, list, n, all_sel());
                    let j2 = choose|j2: int| 0 <= j2 < combos@.len() && combos@[j2] == dm;
                    assert forall|k: int| 0 <= k < n implies #[trigger] bit_set(valid_digits, digit_at(s, list[k]) as int) by {
                        assert(bit_set(dm, digit_at(s, list[k]) as int));
                        assert(bit_set(combos@[j2], digit_at(s, list[k]) as int));
                    }
                }
            }
            let cage = &info.cells[ci];
            let mut i: usize = 0;
            while i < cage.len()
                invariant
                    i <= cage@.len(),
                    cage@ == list,
                    list == info.cage(ci as int),
                    n == list.len(),
                    ci < info.n(),
                    info.shaped(),
                    g == grid@,
                    state.cells@ == cells0,
                    state.empty_count == count_empty(state.cells@, 81),
                    state.cage_states@.len() == info.n(),
                    forall|cj: int| 0 <= cj < info.n() ==> #[trigger] state.cage_states@[cj] == (KillerCageState {
                        placed_mask: 0, placed_sum: 0, remaining: info.cage(cj).len() as u8 }),
                    forall|k: int| 0 <= k < 81 ==> #[trigger] state.cells@[k] <= 9,
                    forall|k: int| 0 <= k < 81 && #[trigger] state.cells@[k] != 0 ==> state.candidates@[k] == 0,
                    forall|k: int| 0 <= k < 81 ==> only_digits(#[trigger] state.candidates@[k]),
                    forall|s: Seq<Seq<u8>>| ksol(info, s) ==> forall|k: int| 0 <= k < n ==> #[trigger] bit_set(valid_digits, digit_at(s, list[k]) as int),
                    combos@ == info.combos@[ci as int]@,
                    combos@.len() > 0,
                    forall|cj: int| 0 <= cj < ci ==> 1 <= #[trigger] info.cage(cj).len() <= 9,
                    forall|s: Seq<Seq<u8>>| ksol(info, s) && no_givens(g) ==> forall|r2: int, c2: int| in_board(r2, c2) ==> #[trigger] state.cell_ok(s, r2, c2),
                    valid_digits == combos_union(combos@, combos@.len() as int),
                    forall|k: int| 0 <= k < 81 ==> #[trigger] state.candidates@[k]
                        == if cells0[k] != 0 { 0u16 } else if lists_cell(list, i as int, k) { start_mask(info, k, ci as int) & valid_digits }
                            else { start_mask(info, k, ci as int) },
                    forall|k: int| 0 <= k < 81 && cells0[k] == 0 ==> #[trigger] state.candidates@[k] != 0,
                decreases cage@.len() - i,
            {
                let (r, c) = cage[i];
                proof {
                    assert(cell_in_board(list[i as int]));
                }
                let ghost k0 = 9 * r + c;
                let ghost cand_before = state.candidates@;
                proof {
                    assert(k0 / 9 == r && k0 % 9 == c);
                    assert(list[i as int] == ((k0 / 9) as usize, (k0 % 9) as usize));
                }
                if state.cells[r * 9 + c] == 0 {
                    let ghost before = state.candidates@;
                    let ghost st0 = state;
                    state.candidates[r * 9 + c] &= valid_digits;
                    proof {
                        lemma_only_digits_and(before[r * 9 + c], valid_digits);
                        assert forall|k: int| 0 <= k < 81 implies only_digits(#[trigger] state.candidates@[k]) by {
                            if k != r * 9 + c {
                                assert(state.candidates@[k] == before[k]);
                            }
                        }
                        assert forall|k: int| 0 <= k < 81 && #[trigger] state.cells@[k] != 0 implies state.candidates@[k] == 0 by {
                            if k != r * 9 + c {
                                assert(state.candidates@[k] == before[k]);
                            }
                        }
                        assert forall|s: Seq<Seq<u8>>| ksol(info, s) && no_givens(g) implies forall|r2: int, c2: int| in_board(r2, c2) ==> #[trigger] state.cell_ok(s, r2, c2) by {
                            assert forall|r2: int, c2: int| in_board(r2, c2) implies #[trigger] state.cell_ok(s, r2, c2) by {
                                assert(st0.cell_ok(s, r2, c2));
                                if r2 == r && c2 == c {
                                    let x = s[r2][c2];
                                    assert(bit_set(valid_digits, digit_at(s, list[i as int]) as int));
                                    lemma_has_bit(before[r * 9 + c], x);
                                    lemma_has_bit(state.candidates@[r * 9 + c], x);
                                    lemma_mask_ops(before[r * 9 + c], valid_digits, x as int);
                                } else {
                                    assert(9 * r2 + c2 != r * 9 + c);
                                }
                            }
                        }
                    }
                    if state.candidates[r * 9 + c] == 0 {
                        proof {
                            assert forall|s: Seq<Seq<u8>>| no_givens(g) && info.no_empty_cage() implies !ksol(info, s) by {
                                if ksol(info, s) {
                                    assert(in_board(r as int, c as int));
                                    assert(state.cell_ok(s, r as int, c as int));
                                    lemma_all_digits(s[r as int][c as int]);
                                }
                            }
                        }
                        return None;
                    }
                }
                proof {
                    assert forall|k: int| 0 <= k < 81 implies #[trigger] state.candidates@[k]
                        == if cells0[k] != 0 { 0u16 } else if lists_cell(list, i + 1, k) { start_mask(info, k, ci as int) & valid_digits }
                            else { start_mask(info, k, ci as int) } by {
                        assert(k == 9 * (k / 9) + k % 9);
                        if lists_cell(list, i as int, k) {
                            let i2 = choose|i2: int| 0 <= i2 < i && #[trigger] list[i2] == ((k / 9) as usize, (k % 9) as usize);
                            assert(lists_cell(list, i + 1, k));
                        }
                        if k == k0 {
                            assert(lists_cell(list, i + 1, k));
                            if cells0[k] == 0 {
                                let m = start_mask(info, k, ci as int);
                                let v = valid_digits;
                                assert((m & v) & v == m & v) by (bit_vector);
                            }
                        } else {
                            assert(state.candidates@[k] == cand_before[k]);
                            if lists_cell(list, i + 1, k) {
                                let i2 = choose|i2: int| 0 <= i2 < i + 1 && #[trigger] list[i2] == ((k / 9) as usize, (k % 9) as usize);
                                if i2 == i {
                                    assert(k / 9 == r && k % 9 == c);
                                }
                                assert(lists_cell(list, i as int, k));
                            }
                        }
                    }
                }
                i += 1;
            }
            proof {
                lemma_combo_len(info, ci as int);
                assert forall|k: int| 0 <= k < 81 implies #[trigger] state.candidates@[k]
                    == if cells0[k] != 0 { 0u16 } else { start_mask(info, k, ci + 1) } by {
                    assert(list.len() == cage@.len());
                }
            }
            ci += 1;
        }
        proof {
            assert(info.valid());
            assert forall|cj: int| 0 <= cj < info.n() implies #[trigger] state.cage_states@[cj].remaining
                >= sel_count(info.cage(cj).len() as int, empty_sel(state.cells@, info.cage(cj)))
                && state.cage_states@[cj].placed_sum + 9 * state.cage_states@[cj].remaining <= 9 * info.cage(cj).len() by {
                lemma_sel_count_bounds(info.cage(cj).len() as int, empty_sel(state.cells@, info.cage(cj)), 0);
            }
            assert(state.wf(info));
            assert forall|s: Seq<Seq<u8>>| ksol(info, s) && no_givens(g) implies state.consistent(info, s) by {
                assert forall|cj: int| 0 <= cj < info.n() implies #[trigger] state_matches(state.cage_states@[cj], state.cells@, info.cage(cj), s) by {
                    let l = info.cage(cj);
                    assert forall|k: int| 0 <= k < l.len() implies !#[trigger] filled_sel(state.cells@, l)(k) by {
                        let p = l[k];
                        assert(cell_in_board(p));
                        let kk = 9 * p.0 + p.1;
                        assert(kk / 9 == p.0 && kk % 9 == p.1);
                        assert(in_board(p.0 as int, p.1 as int));
                        assert(g[p.0 as int][p.1 as int] == 0);
                    }
                    lemma_sel_none(s, l, l.len() as int, filled_sel(state.cells@, l));
                    assert forall|k: int| 0 <= k < l.len() implies #[trigger] empty_sel(state.cells@, l)(k) == all_sel()(k) by {
                        assert(!filled_sel(state.cells@, l)(k));
                    }
                    lemma_sel_same(s, l, l.len() as int, empty_sel(state.cells@, l), all_sel());
                    lemma_sel_all_sum(s, l, l.len() as int);
                }
            }
        }

        // Propagate constraints from filled cells
        let ghost cand1 = state.candidates@;
        proof {
            if no_givens(g) {
                assert forall|k: int| 0 <= k < 81 implies #[trigger] cells0[k] == 0 by {
                    assert(in_board(k / 9, k % 9));
                }
                assert forall|k: int| 0 <= k < 81 implies #[trigger] cand1[k] == start_mask(info, k, info.n()) by {
                    assert(in_board(k / 9, k % 9));
                }
            }
        }
        let mut r: usize = 0;
        while r < 9
            invariant
                r <= 9,
                g == grid@,
                info.valid(),
                state.wf(info),
                no_givens(g) ==> forall|s: Seq<Seq<u8>>| ksol(info, s) ==> state.consistent(info, s),
                forall|k: int| 0 <= k < 81 ==> #[trigger] cells0[k] == g[k / 9][k % 9],
                keeps(cells0, state.cells@),
                forall|cj: int| 0 <= cj < info.n() ==> #[trigger] info.combos@[cj]@.len() > 0,
                no_givens(g) ==> state.candidates@ == cand1,
                no_givens(g) ==> state.cells@ == cells0,
            decreases 9 - r,
        {
            let mut c: usize = 0;
            while c < 9
                invariant
                    r < 9,
                    c <= 9,
                    g == grid@,
                    info.valid(),
                    state.wf(info),
                    no_givens(g) ==> forall|s: Seq<Seq<u8>>| ksol(info, s) ==> state.consistent(info, s),
                    forall|k: int| 0 <= k < 81 ==> #[trigger] cells0[k] == g[k / 9][k % 9],
                    keeps(cells0, state.cells@),
                    forall|cj: int| 0 <= cj < info.n() ==> #[trigger] info.combos@[cj]@.len() > 0,
                    no_givens(g) ==> state.candidates@ == cand1,
                    no_givens(g) ==> state.cells@ == cells0,
                decreases 9 - c,
            {
                let v = grid.get(r, c);
                if v != 0 {
                    proof {
                        assert(in_board(r as int, c as int));
                        assert(!no_givens(g));
                        let k0 = 9 * r + c;
                        assert(k0 / 9 == r && k0 % 9 == c);
                        assert(cells0[k0] == v);
                        assert(state.cells@[k0] == v);
                    }
                    let ghost before = state.cells@;
                    if !state.place(r, c, v, info) {
                        return None;
                    }
                    proof {
                        lemma_keeps_trans(cells0, before, state.cells@);
                    }
                }
                c += 1;
            }
            r += 1;
        }
        proof {
            assert forall|r: int, c: int| in_board(r, c) && g[r][c] != 0 implies #[trigger] state.cell(r, c) == g[r][c] by {
                assert(cells0[9 * r + c] == g[(9 * r + c) / 9][(9 * r + c) % 9]);
                assert((9 * r + c) / 9 == r && (9 * r + c) % 9 == c);
            }
            assert(cells0 =~= crate::generator::flat(g));
            lemma_keeps_count_empty(cells0, state.cells@, 81);
        }
        Some(state)
    }
}

/// A cage with a digit combination has one to nine cells.
proof fn lemma_combo_len(info: &CageInfo, ci: int)
    requires
        info.shaped(),
        0 <= ci < info.n(),
        info.combos@[ci]@.len() > 0,
    ensures
        1 <= info.cage(ci).len() <= 9,
{
    let m = info.combos@[ci]@[0];
    assert(lists_combos(info.combos@[ci]@, info.cage(ci).len() as int, info.sums@[ci] as int));
    assert(is_combo(m, info.cage(ci).len() as int, info.sums@[ci] as int));
    lemma_popcount_only_digits(m);
    if info.cage(ci).len() == 0 {
        lemma_popcount_zero(m);
    }
}

/// The cells of every cage lie on the board.
pub open spec fn cages_on_board(cages: Seq<Cage>) -> bool {
    forall|ci: int, k: int| 0 <= ci < cages.len() && 0 <= k < cages[ci].cells@.len()
        ==> cell_in_board(#[trigger] cages[ci].cells@[k])
}

/// A complete valid board that fills a non-empty cage on the board gives the
/// cage a digit combination.
proof fn lemma_filled_cage_has_combo(cage: Cage, s: Seq<Seq<u8>>)
    requires
        is_complete_valid(s),
        cage.cells@.len() > 0,
        forall|k: int| 0 <= k < cage.cells@.len() ==> cell_in_board(#[trigger] cage.cells@[k]),
        cage_ok(cage.cells@, cage.sum as int, s),
    ensures
        !no_combination(cage),
{
    let list = cage.cells@;
    let n = list.len() as int;
    assert forall|k: int| 0 <= k < n implies 1 <= #[trigger] digit_at(s, list[k]) <= 9 by {
        assert(cell_in_board(list[k]));
        assert(in_board(list[k].0 as int, list[k].1 as int));
    }
    lemma_sel_mask(s, list, n, all_sel());
    lemma_sel_all_sum(s, list, n);
    assert(list.subrange(0, n) =~= list);
    let dm = sel_mask(s, list, n, all_sel());
    assert forall|k: int| 0 <= k < n implies #[trigger] bit_set(dm, digit_at(s, list[k]) as int) by {
        assert(all_sel()(k));
    }
    assert(dm != 0) by {
        if dm == 0 {
            lemma_zero_weight(16);
            assert(bit_set(dm, digit_at(s, list[0]) as int));
            let y = digit_at(s, list[0]) as u16;
            crate::killer::lemma_zero_bit(y);
        }
    }
    assert(is_combo(dm, n, cage.sum as int));
}

/// A solution's digits on a cage form one of the cage's listed combinations.
proof fn lemma_solution_combo(info: &CageInfo, s: Seq<Seq<u8>>, ci: int)
    requires
        info.shaped(),
        ksol(info, s),
        0 <= ci < info.n(),
        info.cage(ci).len() > 0,
    ensures
        ({
            let list = info.cage(ci);
            let n = list.len() as int;
            let dm = sel_mask(s, list, n, all_sel());
            &&& is_combo(dm, n, info.sums@[ci] as int)
            &&& info.combos@[ci]@.contains(dm)
            &&& forall|k: int| 0 <= k < n ==> #[trigger] bit_set(dm, digit_at(s, list[k]) as int)
        }),
{
    let list = info.cage(ci);
    let n = list.len() as int;
    assert(cage_ok(list, info.sums@[ci] as int, s));
    assert forall|k: int| 0 <= k < n implies 1 <= #[trigger] digit_at(s, list[k]) <= 9 by {
        assert(cell_in_board(list[k]));
        assert(in_board(list[k].0 as int, list[k].1 as int));
    }
    lemma_sel_mask(s, list, n, all_sel());
    lemma_sel_all_sum(s, list, n);
    assert(list.subrange(0, n) =~= list);
    let dm = sel_mask(s, list, n, all_sel());
    assert forall|k: int| 0 <= k < n implies #[trigger] bit_set(dm, digit_at(s, list[k]) as int) by {
        assert(all_sel()(k));
    }
    assert(dm != 0) by {
        if dm == 0 {
            lemma_zero_weight(16);
            if n > 0 {
                assert(bit_set(dm, digit_at(s, list[0]) as int));
                let y = digit_at(s, list[0]) as u16;
                crate::killer::lemma_zero_bit(y);
            }
        }
    }
    assert(lists_combos(info.combos@[ci]@, n, info.sums@[ci] as int));
}

/// Find empty cell with fewest candidates (MRV heuristic).
fn find_mrv_cell_killer(state: &KillerCpState, info: &CageInfo) -> (res: Option<(usize, usize)>)
    requires
        state.wf(info),
    ensures
        res matches Some((r, c)) ==> r < 9 && c < 9 && state.cell(r as int, c as int) == 0 && state.cand(r as int, c as int) != 0,
        res is None ==> forall|r: int, c: int| in_board(r, c) && state.cell(r, c) == 0 ==> #[trigger] state.cand(r, c) == 0,
{
    let mut best: Option<(usize, usize)> = None;
    let mut best_count: u32 = 10;
    let mut r: usize = 0;
    while r < 9
        invariant
            r <= 9,
            best matches Some((br, bc)) ==> br < 9 && bc < 9 && state.cell(br as int, bc as int) == 0 && state.cand(br as int, bc as int) != 0,
            best is None ==> forall|r2: int, c2: int| in_board(r2, c2) && r2 < r && state.cell(r2, c2) == 0 ==> #[trigger] state.cand(r2, c2) == 0,
            best is None ==> best_count == 10,
            state.wf(info),
        decreases 9 - r,
    {
        let mut c: usize = 0;
        while c < 9
            invariant
                r < 9,
                c <= 9,
                best matches Some((br, bc)) ==> br < 9 && bc < 9 && state.cell(br as int, bc as int) == 0 && state.cand(br as int, bc as int) != 0,
                best is None ==> forall|r2: int, c2: int| in_board(r2, c2) && (r2 < r || (r2 == r && c2 < c)) && state.cell(r2, c2) == 0 ==> #[trigger] state.cand(r2, c2) == 0,
                best is None ==> best_count == 10,
                state.wf(info),
            decreases 9 - c,
        {
            let cands = state.candidates[r * 9 + c];
            if state.cells[r * 9 + c] == 0 && cands != 0 {
                proof {
                    lemma_popcount_only_digits(cands);
                }
                let n = count_digits(cands);
                if n < best_count {
                    best_count = n;
                    best = Some((r, c));
                    if n == 2 {
                        return best;
                    }
                }
            }
            c += 1;
        }
        r += 1;
    }
    best
}

/// Every finite set of solutions that agree with `state` is counted, up to
/// `limit`, unless the node budget ran out.
fn solve_recursive_killer(
    state: &KillerCpState,
    info: &CageInfo,
    count: &mut usize,
    limit: usize,
    nodes: &mut u64,
    node_limit: u64,
)
    requires
        info.valid(),
        state.wf(info),
        *old(count) <= limit,
        node_limit != 0 ==> *old(nodes) <= node_limit,
    ensures
        *old(count) <= *final(count) <= limit,
        *old(nodes) <= *final(nodes),
        node_limit != 0 ==> *final(nodes) <= node_limit,
        node_limit == 0 ==> *final(nodes) == *old(nodes),
        *old(count) >= limit || !within_budget(*old(nodes), node_limit)
            ==> *final(count) == *old(count) && *final(nodes) == *old(nodes),
        within_budget(*final(nodes), node_limit) ==> forall|sols: Set<Seq<Seq<u8>>>|
            sols.finite() && (forall|s: Seq<Seq<u8>>| #[trigger] sols.contains(s) ==> ksol(info, s) && state.consistent(info, s))
                ==> *final(count) >= min(*old(count) + sols.len(), limit as int),
        witnessed(*state, info, *final(count) - *old(count)),
        node_limit != 0 ==> *final(nodes) <= *old(nodes) + search_bound(state.empty_count as int),
        node_limit != 0 && *old(nodes) + 1 == node_limit && *old(count) < limit && state.empty_count > 0
            && (exists|k: int| 0 <= k < 81 && state.cells@[k] == 0 && #[trigger] state.candidates@[k] != 0)
            ==> *final(nodes) == node_limit,
    decreases state.empty_count,
{
    proof {
        lemma_search_bound_mono(state.empty_count as int, state.empty_count as int);
    }
    if *count >= limit || (node_limit != 0 && *nodes >= node_limit) {
        proof {
            assert(found_among(*state, info, Set::<Seq<Seq<u8>>>::empty(), 0));
        }
        return;
    }

    if state.empty_count == 0 {
        // Every cell is placed: count the board if it solves the puzzle.
        let board = killer_state_board(state);
        let mut ok = board.is_complete_and_valid();
        let mut ci: usize = 0;
        while ok && ci < info.num_cages()
            invariant
                info.valid(),
                ci <= info.n(),
                is_board(board@),
                ok ==> is_complete_valid(board@),
                ok ==> forall|cj: int| 0 <= cj < ci ==> cage_ok(#[trigger] info.cage(cj), info.sums@[cj] as int, board@),
                !ok ==> !ksol(info, board@),
            decreases info.n() - ci,
        {
            proof {
                assert forall|k: int| 0 <= k < info.cage(ci as int).len() implies cell_in_board(#[trigger] info.cage(ci as int)[k]) by {
                }
                assert forall|r: int, c: int| in_board(r, c) implies #[trigger] board@[r][c] <= 9 by {
                }
            }
            ok = cage_holds(&board, &info.cells[ci], info.sums[ci]);
            proof {
                if !ok {
                    assert(!cage_ok(info.cage(ci as int), info.sums@[ci as int] as int, board@));
                }
            }
            ci += 1;
        }
        proof {
            broadcast use vstd::set::group_set_axioms;
            lemma_count_empty_bounds(state.cells@, 81);
            if ok {
                assert(info.holds(board@));
            }
            assert forall|sols: Set<Seq<Seq<u8>>>|
                sols.finite() && (forall|s: Seq<Seq<u8>>| #[trigger] sols.contains(s) ==> ksol(info, s) && state.consistent(info, s))
                    implies sols.len() <= 1 && (!ok ==> sols.len() == 0) by {
                lemma_at_most_one_completion(state, info, sols);
                if !ok {
                    assert forall|s: Seq<Seq<u8>>| !sols.contains(s) by {
                        if sols.contains(s) {
                            assert(board@ =~~= s) by {
                                assert forall|r: int| 0 <= r < 9 implies board@[r] =~= s[r] by {
                                    assert forall|c: int| 0 <= c < 9 implies board@[r][c] == s[r][c] by {
                                        assert(in_board(r, c));
                                        assert(state.cell_ok(s, r, c));
                                    }
                                }
                            }
                        }
                    }
                    lemma_no_member_empty(sols);
                }
            }
            if ok {
                let f = Set::<Seq<Seq<u8>>>::empty().insert(board@);
                assert(f.len() == 1);
                assert(found_among(*state, info, f, 1));
            } else {
                assert(found_among(*state, info, Set::<Seq<Seq<u8>>>::empty(), 0));
            }
        }
        if ok {
            *count += 1;
        }
        return;
    }

    let (row, col) = match find_mrv_cell_killer(state, info) {
        Some(cell) => cell,
        None => {
            proof {
                lemma_count_empty_bounds(state.cells@, 81);
                let k = choose|k: int| 0 <= k < 81 && state.cells@[k] == 0;
                let (r, c) = (k / 9, k % 9);
                assert(in_board(r, c) && 9 * r + c == k);
                assert(state.cand(r, c) == 0);
                assert forall|sols: Set<Seq<Seq<u8>>>|
                    sols.finite() && (forall|s: Seq<Seq<u8>>| #[trigger] sols.contains(s) ==> ksol(info, s) && state.consistent(info, s))
                        implies sols.len() == 0 by {
                    assert forall|s: Seq<Seq<u8>>| !sols.contains(s) by {
                        if sols.contains(s) {
                            assert(state.cell_ok(s, r, c));
                            lemma_all_digits(s[r][c]);
                        }
                    }
                    lemma_no_member_empty(sols);
                }
                assert(found_among(*state, info, Set::<Seq<Seq<u8>>>::empty(), 0));
                if exists|k: int| 0 <= k < 81 && state.cells@[k] == 0 && #[trigger] state.candidates@[k] != 0 {
                    let k = choose|k: int| 0 <= k < 81 && state.cells@[k] == 0 && #[trigger] state.candidates@[k] != 0;
                    let (r, c) = (k / 9, k % 9);
                    assert(in_board(r, c) && 9 * r + c == k);
                    assert(state.cand(r, c) == 0);
                }
            }
            return;
        },
    };

    let ghost count0 = *count;
    let ghost orig = state.cand(row as int, col as int);
    let mut cands = state.candidates[row * 9 + col];
    let ghost unit: int = 1 + search_bound(state.empty_count - 1);
    proof {
        lemma_search_bound_mono(state.empty_count - 1, state.empty_count - 1);
        lemma_popcount_only_digits(cands);
        lemma_bits_below_bounds(cands, 16);
        assert(popcount(cands) * unit <= 9 * unit) by (nonlinear_arith)
            requires popcount(cands) <= 9, unit >= 1;
    }
    proof {
        assert forall|sols: Set<Seq<Seq<u8>>>|
            sols.finite() && (forall|s: Seq<Seq<u8>>| #[trigger] sols.contains(s) ==> ksol(info, s) && state.consistent(info, s))
                implies sols.filter(|s: Seq<Seq<u8>>| !has_digit(cands, s[row as int][col as int])).len() == 0 by {
            let f = sols.filter(|s: Seq<Seq<u8>>| !has_digit(cands, s[row as int][col as int]));
            assert forall|s: Seq<Seq<u8>>| !f.contains(s) by {
                if f.contains(s) {
                    assert(state.cell_ok(s, row as int, col as int));
                }
            }
            sols.lemma_len_filter(|s: Seq<Seq<u8>>| !has_digit(cands, s[row as int][col as int]));
            lemma_no_member_empty(f);
        }
    }
    let ghost mut acc = Set::<Seq<Seq<u8>>>::empty();
    proof {
        assert(found_among(*state, info, acc, 0));
    }
    while cands != 0
        invariant
            info.valid(),
            state.wf(info),
            row < 9,
            col < 9,
            state.cell(row as int, col as int) == 0,
            orig == state.cand(row as int, col as int),
            forall|e: u8| has_digit(cands, e) ==> has_digit(orig, e),
            count0 <= *count <= limit,
            count0 == *old(count),
            *old(count) < limit,
            within_budget(*old(nodes), node_limit),
            within_budget(*nodes, node_limit),
            *old(nodes) <= *nodes,
            node_limit == 0 ==> *nodes == *old(nodes),
            forall|sols: Set<Seq<Seq<u8>>>|
                sols.finite() && (forall|s: Seq<Seq<u8>>| #[trigger] sols.contains(s) ==> ksol(info, s) && state.consistent(info, s))
                    ==> *count >= min(count0 + sols.filter(|s: Seq<Seq<u8>>| !has_digit(cands, s[row as int][col as int])).len(), limit as int),
            found_among(*state, info, acc, *count - count0),
            forall|s: Seq<Seq<u8>>| #[trigger] acc.contains(s) ==> !has_digit(cands, s[row as int][col as int]),
            state.empty_count >= 1,
            unit == 1 + search_bound(state.empty_count - 1),
            unit >= 1,
            popcount(cands) >= 0,
            node_limit != 0 ==> *nodes + popcount(cands) * unit <= *old(nodes) + search_bound(state.empty_count as int),
            node_limit != 0 && *old(nodes) + 1 == node_limit ==> *nodes == *old(nodes) && cands == orig,
        decreases cands,
    {
        let d = cands.trailing_zeros() as u8;
        proof {
            lemma_lowest_digit(cands);
            lemma_only_digits(orig, d);
        }
        let bit = 1u16 << d;
        let ghost prev = cands;
        let ghost nodes0 = *nodes;
        cands &= !bit;
        proof {
            crate::digits::lemma_shift_cast(prev, d);
            crate::killer::lemma_clear_weight(prev, d as u16, 16);
            lemma_bits_below_bounds(cands, 16);
            assert(popcount(prev) * unit == popcount(cands) * unit + unit) by (nonlinear_arith)
                requires popcount(prev) == popcount(cands) + 1;
            assert(popcount(cands) * unit >= 0) by (nonlinear_arith)
                requires popcount(cands) >= 0, unit >= 1;
            lemma_clear_digit_decreases(prev, d);
            assert forall|e: u8| has_digit(cands, e) implies has_digit(orig, e) by {
                lemma_clear_digit(prev, d, e);
            }
        }

        if node_limit != 0 {
            *nodes += 1;
            if *nodes >= node_limit {
                return;
            }
        }

        let mut branch = state.duplicate();
        proof {
            assert forall|s: Seq<Seq<u8>>| state.consistent(info, s) implies branch.consistent(info, s) by {
                assert forall|r: int, c: int| in_board(r, c) implies #[trigger] branch.cell_ok(s, r, c) by {
                    assert(state.cell_ok(s, r, c));
                }
            }
            assert(branch.wf(info));
        }
        let ghost count_mid = *count;
        let ghost nodes_mid = *nodes;
        if branch.place(row, col, d, info) {
            solve_recursive_killer(&branch, info, count, limit, nodes, node_limit);
            proof {
                assert(state.cells@[9 * row + col] == 0);
                lemma_search_bound_mono(branch.empty_count as int, state.empty_count - 1);
                broadcast use vstd::set::group_set_axioms;
                let kd: int = *count - count_mid;
                let fd = choose|f: Set<Seq<Seq<u8>>>| #[trigger] found_among(branch, info, f, kd);
                assert(in_board(row as int, col as int));
                assert(branch.cell(row as int, col as int) == d);
                assert forall|s: Seq<Seq<u8>>| #[trigger] fd.contains(s) implies s[row as int][col as int] == d
                    && state.agrees(s) && ksol(info, s) by {
                    assert(branch.agrees(s));
                    assert forall|r: int, c: int| in_board(r, c) && state.cell(r, c) != 0 implies #[trigger] s[r][c] == state.cell(r, c) by {
                        assert(branch.cells@[9 * r + c] == state.cells@[9 * r + c]);
                    }
                }
                assert(acc.disjoint(fd)) by {
                    assert forall|s: Seq<Seq<u8>>| acc.contains(s) implies !fd.contains(s) by {
                        assert(!has_digit(prev, s[row as int][col as int]));
                    }
                }
                lemma_set_disjoint_lens(acc, fd);
                let acc2 = acc + fd;
                assert forall|s: Seq<Seq<u8>>| #[trigger] acc2.contains(s) implies !has_digit(cands, s[row as int][col as int]) by {
                    assert(ksol(info, s));
                    assert(1 <= s[row as int][col as int] <= 9);
                    lemma_clear_digit(prev, d, s[row as int][col as int]);
                    if acc.contains(s) {
                        assert(!has_digit(prev, s[row as int][col as int]));
                    }
                }
                assert(found_among(*state, info, acc2, *count - count0));
                acc = acc2;
            }
            proof {
                assert forall|sols: Set<Seq<Seq<u8>>>|
                    within_budget(*nodes, node_limit) && sols.finite() && (forall|s: Seq<Seq<u8>>| #[trigger] sols.contains(s) ==> ksol(info, s) && state.consistent(info, s))
                        implies *count >= min(count0 + sols.filter(|s: Seq<Seq<u8>>| !has_digit(cands, s[row as int][col as int])).len(), limit as int) by {
                    let a = sols.filter(|s: Seq<Seq<u8>>| !has_digit(prev, s[row as int][col as int]));
                    let b = sols.filter(|s: Seq<Seq<u8>>| s[row as int][col as int] == d);
                    let a2 = sols.filter(|s: Seq<Seq<u8>>| !has_digit(cands, s[row as int][col as int]));
                    sols.lemma_len_filter(|s: Seq<Seq<u8>>| !has_digit(prev, s[row as int][col as int]));
                    sols.lemma_len_filter(|s: Seq<Seq<u8>>| s[row as int][col as int] == d);
                    assert forall|s: Seq<Seq<u8>>| #[trigger] b.contains(s) implies ksol(info, s) && branch.consistent(info, s) by {
                    }
                    assert(a2 =~= a + b) by {
                        assert forall|s: Seq<Seq<u8>>| #[trigger] a2.contains(s) == (a + b).contains(s) by {
                            if sols.contains(s) {
                                assert(state.cell_ok(s, row as int, col as int));
                                lemma_clear_digit(prev, d, s[row as int][col as int]);
                            }
                        }
                    }
                    assert(a.disjoint(b));
                    lemma_set_disjoint_lens(a, b);
                }
            }
            if *count >= limit || (node_limit != 0 && *nodes >= node_limit) {
                return;
            }
        } else {
            proof {
                assert forall|s: Seq<Seq<u8>>| #[trigger] acc.contains(s) implies !has_digit(cands, s[row as int][col as int]) by {
                    assert(ksol(info, s));
                    assert(in_board(row as int, col as int));
                    assert(1 <= s[row as int][col as int] <= 9);
                    lemma_clear_digit(prev, d, s[row as int][col as int]);
                    assert(!has_digit(prev, s[row as int][col as int]));
                }
            }
            proof {
                assert forall|sols: Set<Seq<Seq<u8>>>|
                    sols.finite() && (forall|s: Seq<Seq<u8>>| #[trigger] sols.contains(s) ==> ksol(info, s) && state.consistent(info, s))
                        implies *count >= min(count0 + sols.filter(|s: Seq<Seq<u8>>| !has_digit(cands, s[row as int][col as int])).len(), limit as int) by {
                    let a = sols.filter(|s: Seq<Seq<u8>>| !has_digit(prev, s[row as int][col as int]));
                    let a2 = sols.filter(|s: Seq<Seq<u8>>| !has_digit(cands, s[row as int][col as int]));
                    assert(a2 =~= a) by {
                        assert forall|s: Seq<Seq<u8>>| #[trigger] a2.contains(s) == a.contains(s) by {
                            if sols.contains(s) {
                                assert(state.cell_ok(s, row as int, col as int));
                                lemma_clear_digit(prev, d, s[row as int][col as int]);
                            }
                        }
                    }
                }
            }
        }
    }
    proof {
        assert forall|sols: Set<Seq<Seq<u8>>>|
            sols.finite() && (forall|s: Seq<Seq<u8>>| #[trigger] sols.contains(s) ==> ksol(info, s) && state.consistent(info, s))
                implies *count >= min(count0 + sols.len(), limit as int) by {
            assert(sols.filter(|s: Seq<Seq<u8>>| !has_digit(cands, s[row as int][col as int])) =~= sols) by {
                assert forall|s: Seq<Seq<u8>>| sols.contains(s) implies !has_digit(cands, s[row as int][col as int]) by {
                    lemma_all_digits(s[row as int][col as int]);
                }
            }
        }
    }
}

/// An upper bound on the branches a search explores from a state with `e`
/// empty cells: at most nine digits per cell, one cell fewer at each level.
pub open spec fn search_bound(e: int) -> int
    decreases e,
{
    if e <= 0 {
        0
    } else {
        9 * (1 + search_bound(e - 1))
    }
}

/// The bound grows with the number of empty cells.
pub proof fn lemma_search_bound_mono(a: int, b: int)
    requires
        a <= b,
    ensures
        0 <= search_bound(a) <= search_bound(b),
    decreases b,
{
    if b > 0 {
        if a < b {
            lemma_search_bound_mono(a, b - 1);
        } else {
            lemma_search_bound_mono(b - 1, b - 1);
        }
    }
}

/// Filling cells never adds an empty one.
proof fn lemma_keeps_count_empty(a: Seq<u8>, b: Seq<u8>, n: int)
    requires
        keeps(a, b),
        0 <= n <= 81,
    ensures
        count_empty(b, n) <= count_empty(a, n),
    decreases n,
{
    if n > 0 {
        lemma_keeps_count_empty(a, b, n - 1);
    }
}

/// `found` is a finite set of `n` killer solutions that agree with `state`.
spec fn found_among(state: KillerCpState, info: &CageInfo, found: Set<Seq<Seq<u8>>>, n: int) -> bool {
    &&& found.finite()
    &&& found.len() == n
    &&& forall|s: Seq<Seq<u8>>| #[trigger] found.contains(s) ==> ksol(info, s) && state.agrees(s)
}

/// `n` distinct killer solutions agree with `state`.
spec fn witnessed(state: KillerCpState, info: &CageInfo, n: int) -> bool {
    exists|f: Set<Seq<Seq<u8>>>| #[trigger] found_among(state, info, f, n)
}

/// The search may go on: no budget (0), or fewer nodes than the budget.
spec fn within_budget(nodes: u64, node_limit: u64) -> bool {
    node_limit == 0 || nodes < node_limit
}

/// The state's placed digits as a grid.
fn killer_state_board(state: &KillerCpState) -> (g: Grid)
    ensures
        is_board(g@),
        forall|r: int, c: int| in_board(r, c) ==> #[trigger] g@[r][c] == state.cell(r, c),
{
    let mut g = Grid::empty();
    let mut r: usize = 0;
    while r < 9
        invariant
            r <= 9,
            is_board(g@),
            forall|r2: int, c2: int| in_board(r2, c2) && r2 < r ==> #[trigger] g@[r2][c2] == state.cell(r2, c2),
        decreases 9 - r,
    {
        let mut c: usize = 0;
        while c < 9
            invariant
                r < 9,
                c <= 9,
                is_board(g@),
                forall|r2: int, c2: int| in_board(r2, c2) && (r2 < r || (r2 == r && c2 < c))
                    ==> #[trigger] g@[r2][c2] == state.cell(r2, c2),
            decreases 9 - c,
        {
            g.set(r, c, state.cells[r * 9 + c]);
            proof {
                g.lemma_is_board();
            }
            c += 1;
        }
        r += 1;
    }
    g
}

/// Whether the cells of a cage hold distinct digits of `board` adding up to `sum`.
fn cage_holds(board: &Grid, cells: &Vec<(usize, usize)>, sum: u8) -> (ok: bool)
    requires
        cells@.len() <= 9,
        forall|k: int| 0 <= k < cells@.len() ==> cell_in_board(#[trigger] cells@[k]),
        forall|r: int, c: int| in_board(r, c) ==> #[trigger] board@[r][c] <= 9,
    ensures
        ok == cage_ok(cells@, sum as int, board@),
{
    let n = cells.len();
    let mut i: usize = 0;
    while i < n
        invariant
            i <= n,
            n == cells@.len(),
            forall|k: int| 0 <= k < cells@.len() ==> cell_in_board(#[trigger] cells@[k]),
            forall|k1: int, k2: int| 0 <= k1 < i && 0 <= k2 < n && k1 != k2
                ==> digit_at(board@, #[trigger] cells@[k1]) != digit_at(board@, #[trigger] cells@[k2]),
        decreases n - i,
    {
        let mut j: usize = 0;
        while j < n
            invariant
                i < n,
                j <= n,
                n == cells@.len(),
                forall|k: int| 0 <= k < cells@.len() ==> cell_in_board(#[trigger] cells@[k]),
                forall|k1: int, k2: int| 0 <= k1 < i && 0 <= k2 < n && k1 != k2
                    ==> digit_at(board@, #[trigger] cells@[k1]) != digit_at(board@, #[trigger] cells@[k2]),
                forall|k2: int| 0 <= k2 < j && k2 != i ==> digit_at(board@, cells@[i as int]) != digit_at(board@, #[trigger] cells@[k2]),
            decreases n - j,
        {
            let (r1, c1) = cells[i];
            let (r2, c2) = cells[j];
            proof {
                assert(cell_in_board(cells@[i as int]));
                assert(cell_in_board(cells@[j as int]));
            }
            if j != i && board.get(r1, c1) == board.get(r2, c2) {
                proof {
                    assert(digit_at(board@, cells@[i as int]) == digit_at(board@, cells@[j as int]));
                }
                return false;
            }
            j += 1;
        }
        i += 1;
    }
    let mut total: u32 = 0;
    let mut i: usize = 0;
    while i < n
        invariant
            i <= n,
            n == cells@.len(),
            n <= 9,
            forall|k: int| 0 <= k < cells@.len() ==> cell_in_board(#[trigger] cells@[k]),
            forall|r: int, c: int| in_board(r, c) ==> #[trigger] board@[r][c] <= 9,
            total == cells_sum(board@, cells@.subrange(0, i as int)),
            total <= 9 * i,
        decreases n - i,
    {
        let (r, c) = cells[i];
        proof {
            assert(cell_in_board(cells@[i as int]));
            assert(cells@.subrange(0, i + 1).drop_last() =~= cells@.subrange(0, i as int));
            assert(in_board(r as int, c as int));
        }
        total += board.get(r, c) as u32;
        i += 1;
    }
    proof {
        assert(cells@.subrange(0, n as int) =~= cells@);
    }
    total == sum as u32
}

/// A state with every cell placed is agreed with by at most one complete board.
proof fn lemma_at_most_one_completion(state: &KillerCpState, info: &CageInfo, sols: Set<Seq<Seq<u8>>>)
    requires
        state.wf(info),
        forall|k: int| 0 <= k < 81 ==> state.cells@[k] != 0,
        sols.finite(),
        forall|s: Seq<Seq<u8>>| #[trigger] sols.contains(s) ==> ksol(info, s) && state.consistent(info, s),
    ensures
        sols.len() <= 1,
{
    if sols.len() > 1 {
        let a = sols.choose();
        vstd::set_lib::lemma_set_empty_equivalency_len(sols);
        assert(sols.contains(a));
        let rest = sols.remove(a);
        assert(rest.len() > 0);
        vstd::set_lib::lemma_set_empty_equivalency_len(rest);
        let b = rest.choose();
        assert(rest.contains(b));
        assert(a =~~= b) by {
            assert forall|r: int| 0 <= r < 9 implies a[r] =~= b[r] by {
                assert forall|c: int| 0 <= c < 9 implies a[r][c] == b[r][c] by {
                    assert(in_board(r, c));
                    assert(state.cell_ok(a, r, c));
                    assert(state.cell_ok(b, r, c));
                }
            }
        }
    }
}

proof fn lemma_no_member_empty<A>(s: Set<A>)
    requires
        s.finite(),
        forall|a: A| !s.contains(a),
    ensures
        s.len() == 0,
{
    if s.len() != 0 {
        let a = s.choose();
        vstd::set_lib::lemma_set_empty_equivalency_len(s);
    }
}

/// Every cage has at least one cell.
pub open spec fn no_empty_cage(cages: Seq<Cage>) -> bool {
    forall|ci: int| 0 <= ci < cages.len() ==> #[trigger] cages[ci].cells@.len() > 0
}

/// No set of distinct digits has the cage's size and sum.
pub open spec fn no_combination(cage: Cage) -> bool {
    forall|m: u16| !#[trigger] is_combo(m, cage.cells@.len() as int, cage.sum as int)
}

/// Result from count_solutions_killer indicating whether the node limit was hit.
pub enum SolverResult {
    /// Completed within node budget. Value is solution count (capped at `limit`).
    Complete(usize),
    /// Exceeded node budget — result is indeterminate.
    Exhausted,
}

/// `n` is at least the number of solutions of the killer puzzle (where that
/// is below `limit`): for any finite set of its solutions, `n` reaches its
/// size or `limit`.
pub open spec fn counts_all_killer(g: Seq<Seq<u8>>, cages: Seq<Cage>, limit: int, n: int) -> bool {
    forall|sols: Set<Seq<Seq<u8>>>|
        sols.finite() && (forall|s: Seq<Seq<u8>>| #[trigger] sols.contains(s) ==> is_killer_solution_of(g, cages, s))
            ==> n >= min(sols.len() as int, limit)
}

/// `sols` is a finite set of solutions of the killer puzzle.
pub open spec fn killer_solutions_in(g: Seq<Seq<u8>>, cages: Seq<Cage>, sols: Set<Seq<Seq<u8>>>) -> bool {
    sols.finite() && forall|s: Seq<Seq<u8>>| #[trigger] sols.contains(s) ==> is_killer_solution_of(g, cages, s)
}

/// `n` distinct solutions of the killer puzzle exist.
pub open spec fn has_killer_solutions(g: Seq<Seq<u8>>, cages: Seq<Cage>, n: int) -> bool {
    exists|sols: Set<Seq<Seq<u8>>>| #[trigger] killer_solutions_in(g, cages, sols) && sols.len() == n
}

/// Count solutions for a killer sudoku (empty grid + cage constraints).
/// Stops early once `limit` is reached. A completed count is the smaller of
/// `limit` and the number of solutions: `n` distinct solutions exist, and
/// (for an empty grid with no empty cage) every solution is counted.
/// `node_limit` caps the number of backtracking branches explored (0 =
/// unlimited, and then the count always completes); `Exhausted` means the
/// budget ran out. A budget above `search_bound` of the grid's empty cells
/// (the most branches a search can take) always completes; a budget of one
/// branch on an empty grid runs out at the first digit tried, unless the
/// cages alone already leave no solution (a count of 0). A limit of 0, or a cage that no set of distinct digits can
/// fill, gives a completed count of 0.
pub fn count_solutions_killer(grid: &Grid, cages: &[Cage], limit: usize, node_limit: u64) -> (res: SolverResult)
    requires
        digits_in_range(grid@),
        cages_on_board(cages@),
        is_partition(cages@) || exists|ci: int| 0 <= ci < cages@.len() && #[trigger] no_combination(cages@[ci]),
    ensures
        res matches SolverResult::Complete(n) ==> n <= limit
            && (no_givens(grid@) && no_empty_cage(cages@) ==> counts_all_killer(grid@, cages@, limit as int, n as int)),
        limit == 0 ==> (res matches SolverResult::Complete(n) && n == 0),
        (exists|ci: int| 0 <= ci < cages@.len() && #[trigger] no_combination(cages@[ci]))
            ==> (res matches SolverResult::Complete(n) && n == 0),
        res matches SolverResult::Complete(n) ==> has_killer_solutions(grid@, cages@, n as int),
        res is Exhausted ==> node_limit != 0 && limit != 0,
        node_limit != 0 && search_bound(crate::generator::num_empty(grid@) as int) < node_limit ==> res is Complete,
        node_limit == 1 && limit >= 1 && no_givens(grid@) ==> res is Exhausted || (res matches SolverResult::Complete(n) && n == 0),
{
    // A cage that no set of distinct digits fills leaves no solution.
    let mut ci: usize = 0;
    while ci < cages.len()
        invariant
            ci <= cages@.len(),
            forall|cj: int| 0 <= cj < ci ==> !#[trigger] no_combination(cages@[cj]),
            cages_on_board(cages@),
        decreases cages@.len() - ci,
    {
        if cage_combos(cages[ci].cells.len(), cages[ci].sum).is_none() {
            proof {
                assert(no_combination(cages@[ci as int]));
                assert forall|sols: Set<Seq<Seq<u8>>>|
                    no_givens(grid@) && no_empty_cage(cages@) && sols.finite()
                        && (forall|s: Seq<Seq<u8>>| #[trigger] sols.contains(s) ==> is_killer_solution_of(grid@, cages@, s))
                        implies 0 >= min(sols.len() as int, limit as int) by {
                    assert forall|s: Seq<Seq<u8>>| !sols.contains(s) by {
                        if sols.contains(s) {
                            assert(cages@[ci as int].cells@.len() > 0);
                            assert(cage_ok(cages@[ci as int].cells@, cages@[ci as int].sum as int, s));
                            lemma_filled_cage_has_combo(cages@[ci as int], s);
                        }
                    }
                    lemma_no_member_empty(sols);
                }
                let e = Set::<Seq<Seq<u8>>>::empty();
                assert(killer_solutions_in(grid@, cages@, e) && e.len() == 0);
            }
            return SolverResult::Complete(0);
        }
        ci += 1;
    }
    let info = CageInfo::from_cages(cages);
    proof {
        info.lemma_shaped(cages@);
    }
    let state = match KillerCpState::from_grid_with_cages(grid, &info) {
        Some(state) => {
            proof {
                if exists|ci: int| 0 <= ci < cages@.len() && #[trigger] no_combination(cages@[ci]) {
                    let ci = choose|ci: int| 0 <= ci < cages@.len() && #[trigger] no_combination(cages@[ci]);
                    assert(info.combos@[ci]@.len() > 0);
                    assert(lists_combos(info.combos@[ci]@, info.cage(ci).len() as int, info.sums@[ci] as int));
                    assert(info.cells@[ci]@ == cages@[ci].cells@);
                    assert(is_combo(info.combos@[ci]@[0], info.cage(ci).len() as int, info.sums@[ci] as int));
                }
                if no_givens(grid@) {
                    assert(state.cells@[0] == 0 && state.candidates@[0] != 0);
                    lemma_count_empty_bounds(state.cells@, 81);
                }
            }
            state
        },
        None => {
            proof {
                assert forall|sols: Set<Seq<Seq<u8>>>|
                    no_givens(grid@) && no_empty_cage(cages@) && sols.finite() && (forall|s: Seq<Seq<u8>>| #[trigger] sols.contains(s) ==> is_killer_solution_of(grid@, cages@, s))
                        implies 0 >= min(sols.len() as int, limit as int) by {
                    assert(info.no_empty_cage()) by {
                        assert forall|ci: int| 0 <= ci < info.n() implies #[trigger] info.cage(ci).len() > 0 by {
                            assert(info.cells@[ci]@ == cages@[ci].cells@);
                        }
                    }
                    assert forall|s: Seq<Seq<u8>>| !sols.contains(s) by {
                        if sols.contains(s) {
                            lemma_killer_ksol(&info, cages@, grid@, s);
                        }
                    }
                    lemma_no_member_empty(sols);
                }
                let e = Set::<Seq<Seq<u8>>>::empty();
                assert(killer_solutions_in(grid@, cages@, e) && e.len() == 0);
            }
            return SolverResult::Complete(0);
        },
    };
    let mut count: usize = 0;
    let mut nodes: u64 = 0;
    solve_recursive_killer(&state, &info, &mut count, limit, &mut nodes, node_limit);
    proof {
        lemma_search_bound_mono(state.empty_count as int, crate::generator::num_empty(grid@) as int);
    }

    if node_limit != 0 && nodes >= node_limit {
        SolverResult::Exhausted
    } else {
        proof {
            assert forall|sols: Set<Seq<Seq<u8>>>|
                no_givens(grid@) && sols.finite() && (forall|s: Seq<Seq<u8>>| #[trigger] sols.contains(s) ==> is_killer_solution_of(grid@, cages@, s))
                    implies count >= min(sols.len() as int, limit as int) by {
                assert forall|s: Seq<Seq<u8>>| #[trigger] sols.contains(s) implies ksol(&info, s) && state.consistent(&info, s) by {
                    lemma_killer_ksol(&info, cages@, grid@, s);
                }
            }
            let k: int = count as int;
            let f = choose|f: Set<Seq<Seq<u8>>>| #[trigger] found_among(state, &info, f, k);
            assert forall|s: Seq<Seq<u8>>| #[trigger] f.contains(s) implies is_killer_solution_of(grid@, cages@, s) by {
                assert(state.agrees(s));
                assert(ksol(&info, s));
                assert forall|r: int, c: int| in_board(r, c) && grid@[r][c] != 0 implies #[trigger] s[r][c] == grid@[r][c] by {
                    assert(state.cell(r, c) == grid@[r][c]);
                }
                assert forall|ci: int| 0 <= ci < cages@.len() implies cage_ok(#[trigger] cages@[ci].cells@, cages@[ci].sum as int, s) by {
                    assert(info.cells@[ci]@ == cages@[ci].cells@);
                    assert(cage_ok(info.cage(ci), info.sums@[ci] as int, s));
                }
            }
            assert(killer_solutions_in(grid@, cages@, f) && f.len() == count);
        }
        SolverResult::Complete(count)
    }
}

/// A killer solution of the cages is a solution in terms of the cage data.
proof fn lemma_killer_ksol(info: &CageInfo, cages: Seq<Cage>, g: Seq<Seq<u8>>, s: Seq<Seq<u8>>)
    requires
        info.describes(cages),
        is_killer_solution_of(g, cages, s),
    ensures
        ksol(info, s),
{
    assert forall|ci: int| 0 <= ci < info.n() implies cage_ok(#[trigger] info.cage(ci), info.sums@[ci] as int, s) by {
        assert(info.cells@[ci]@ == cages[ci].cells@);
        assert(cage_ok(cages[ci].cells@, cages[ci].sum as int, s));
    }
}

/// A count of 0 (with a positive limit) means the killer puzzle has no solution.
pub proof fn lemma_killer_count_zero_means_unsolvable(g: Seq<Seq<u8>>, cages: Seq<Cage>, limit: int)
    requires
        limit >= 1,
        counts_all_killer(g, cages, limit, 0),
    ensures
        forall|s: Seq<Seq<u8>>| !is_killer_solution_of(g, cages, s),
{
    broadcast use vstd::set::group_set_axioms;
    assert forall|s: Seq<Seq<u8>>| !is_killer_solution_of(g, cages, s) by {
        if is_killer_solution_of(g, cages, s) {
            let sols = Set::<Seq<Seq<u8>>>::empty().insert(s);
            assert(sols.finite());
            assert(sols.len() == 1);
            assert(forall|t: Seq<Seq<u8>>| #[trigger] sols.contains(t) ==> is_killer_solution_of(g, cages, t));
            assert(0 >= min(sols.len() as int, limit));
        }
    }
}

/// A completed killer count is exact: below the limit, no finite set of
/// solutions is larger than the count.
pub proof fn lemma_killer_count_exact(g: Seq<Seq<u8>>, cages: Seq<Cage>, limit: int, n: int)
    requires
        counts_all_killer(g, cages, limit, n),
        n < limit,
    ensures
        forall|sols: Set<Seq<Seq<u8>>>| #[trigger] killer_solutions_in(g, cages, sols) ==> sols.len() <= n,
{
    assert forall|sols: Set<Seq<Seq<u8>>>| #[trigger] killer_solutions_in(g, cages, sols) implies sols.len() <= n by {
        assert(n >= min(sols.len() as int, limit));
    }
}

/// Two completed counts of one killer puzzle under the same limit agree,
/// whatever node budgets they ran under.
pub proof fn lemma_killer_counts_agree(g: Seq<Seq<u8>>, cages: Seq<Cage>, limit: int, n1: int, n2: int)
    requires
        n1 <= limit,
        n2 <= limit,
        counts_all_killer(g, cages, limit, n1),
        counts_all_killer(g, cages, limit, n2),
        has_killer_solutions(g, cages, n1),
        has_killer_solutions(g, cages, n2),
    ensures
        n1 == n2,
{
    let s1 = choose|sols: Set<Seq<Seq<u8>>>| #[trigger] killer_solutions_in(g, cages, sols) && sols.len() == n1;
    let s2 = choose|sols: Set<Seq<Seq<u8>>>| #[trigger] killer_solutions_in(g, cages, sols) && sols.len() == n2;
    assert(n2 >= min(s1.len() as int, limit));
    assert(n1 >= min(s2.len() as int, limit));
}

/// A killer puzzle with exactly one solution counts 1 (with a positive limit).
pub proof fn lemma_killer_unique_counts_one(g: Seq<Seq<u8>>, cages: Seq<Cage>, limit: int, n: int, s0: Seq<Seq<u8>>)
    requires
        limit >= 1,
        counts_all_killer(g, cages, limit, n),
        has_killer_solutions(g, cages, n),
        is_killer_solution_of(g, cages, s0),
        forall|s: Seq<Seq<u8>>| is_killer_solution_of(g, cages, s) ==> s == s0,
    ensures
        n == 1,
{
    broadcast use vstd::set::group_set_axioms;
    let one = Set::<Seq<Seq<u8>>>::empty().insert(s0);
    assert(one.len() == 1);
    assert(forall|s: Seq<Seq<u8>>| #[trigger] one.contains(s) ==> is_killer_solution_of(g, cages, s));
    assert(n >= min(one.len() as int, limit));
    let sols = choose|sols: Set<Seq<Seq<u8>>>| #[trigger] killer_solutions_in(g, cages, sols) && sols.len() == n;
    assert(sols.subset_of(one));
    vstd::set_lib::lemma_len_subset(sols, one);
}

/// A killer puzzle without solutions counts 0.
pub proof fn lemma_killer_unsolvable_counts_zero(g: Seq<Seq<u8>>, cages: Seq<Cage>, n: int)
    requires
        has_killer_solutions(g, cages, n),
        forall|s: Seq<Seq<u8>>| !is_killer_solution_of(g, cages, s),
    ensures
        n == 0,
{
    let sols = choose|sols: Set<Seq<Seq<u8>>>| #[trigger] killer_solutions_in(g, cages, sols) && sols.len() == n;
    assert forall|s: Seq<Seq<u8>>| !sols.contains(s) by {
        if sols.contains(s) {
            assert(is_killer_solution_of(g, cages, s));
        }
    }
    lemma_no_member_empty(sols);
}

/// A count of at most 1 with a limit of at least 2 means the killer puzzle
/// has at most one solution.
pub proof fn lemma_killer_count_one_means_unique(g: Seq<Seq<u8>>, cages: Seq<Cage>, limit: int, n: int)
    requires
        limit >= 2,
        n <= 1,
        counts_all_killer(g, cages, limit, n),
    ensures
        forall|s1: Seq<Seq<u8>>, s2: Seq<Seq<u8>>|
            is_killer_solution_of(g, cages, s1) && is_killer_solution_of(g, cages, s2) ==> s1 == s2,
{
    broadcast use vstd::set::group_set_axioms;
    assert forall|s1: Seq<Seq<u8>>, s2: Seq<Seq<u8>>|
        is_killer_solution_of(g, cages, s1) && is_killer_solution_of(g, cages, s2) implies s1 == s2 by {
        if s1 != s2 {
            let sols = Set::<Seq<Seq<u8>>>::empty().insert(s1).insert(s2);
            assert(sols.finite());
            assert(Set::<Seq<Seq<u8>>>::empty().insert(s1).len() == 1);
            assert(!Set::<Seq<Seq<u8>>>::empty().insert(s1).contains(s2));
            assert(sols.len() == 2);
            assert(forall|t: Seq<Seq<u8>>| #[trigger] sols.contains(t) ==> is_killer_solution_of(g, cages, t));
            assert(n >= min(sols.len() as int, limit));
        }
    }
}

} // verus!
