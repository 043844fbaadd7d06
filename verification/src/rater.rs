//! Difficulty rating: the puzzle is solved with human techniques, easiest
//! first, without cascading; the hardest technique needed (and how often an
//! advanced one was) gives a score from 1 to 10.
use vstd::prelude::*;
use crate::digits::{
    ALL_DIGITS, bit, bits_below, count_digits, has_digit, lemma_all_digits, lemma_bit_test, lemma_bits_below_bounds,
    lemma_clear_digit, lemma_lowest_digit, lemma_only_digits, lemma_popcount_bound,
    lemma_popcount_only_digits, lemma_single_digit, only_digits, popcount,
};
use crate::grid::{Cage, Grid, cages_disjoint, cell_in_board, digit_at, in_some_cage};
use crate::killer::{
    all_sel, bit_set, cage_combos, cage_ok, empty_sel, filled_sel, is_combo, is_partition, lists_combos, lemma_mask_ops,
    lemma_sel_count_bounds, lemma_sel_one, lemma_sel_same, lemma_subset_count, sel_count, sel_mask, sel_sum, val,
};
use crate::rules::{
    digits_in_range, in_board, in_unit, is_board, is_complete_valid, is_peer, lemma_unit_has_digit, unit_col, unit_row,
};
use crate::tally::{
    lemma_and_sub, lemma_shrinks_refl, lemma_shrinks_trans, lemma_sub_mask_trans, shrinks, sub_mask, bits_total, count_empty, lemma_bits_total_bounds, lemma_bits_total_update, lemma_count_empty_bounds,
    lemma_count_empty_update, keeps, lemma_keeps_trans, lemma_lacks_kept, lemma_sub_mask_digit, lemma_empty_mask,
};

verus! {

/// The rating of a puzzle: 1 (easiest) to 10.
pub struct PuzzleRating {
    pub score: u8,
}

/// Solving techniques, from easiest to hardest.
#[derive(Clone, Copy, PartialEq, Eq)]
pub enum Technique {
    NakedSingle,
    HiddenSingle,
    CageCombination,
    NakedPair,
    HiddenPair,
    PointingPair,
    NakedTriple,
    HiddenTriple,
    XWing,
    Swordfish,
    Backtracking,
}

/// Base score of each technique.
pub open spec fn base_of(t: Technique) -> int {
    match t {
        Technique::NakedSingle => 1,
        Technique::HiddenSingle => 2,
        Technique::CageCombination => 3,
        Technique::NakedPair => 4,
        Technique::HiddenPair => 5,
        Technique::PointingPair => 5,
        Technique::NakedTriple => 6,
        Technique::HiddenTriple => 6,
        Technique::XWing => 8,
        Technique::Swordfish => 9,
        Technique::Backtracking => 10,
    }
}

/// Position of each technique in the order from easiest to hardest.
pub open spec fn level_of(t: Technique) -> int {
    match t {
        Technique::NakedSingle => 0,
        Technique::HiddenSingle => 1,
        Technique::CageCombination => 2,
        Technique::NakedPair => 3,
        Technique::HiddenPair => 4,
        Technique::PointingPair => 5,
        Technique::NakedTriple => 6,
        Technique::HiddenTriple => 7,
        Technique::XWing => 8,
        Technique::Swordfish => 9,
        Technique::Backtracking => 10,
    }
}

impl Technique {
    /// The score a puzzle gets when this is the hardest technique it needs.
    pub fn base_score(self) -> (s: u8)
        ensures
            s == base_of(self),
    {
        match self {
            Technique::NakedSingle => 1,
            Technique::HiddenSingle => 2,
            Technique::CageCombination => 3,
            Technique::NakedPair => 4,
            Technique::HiddenPair => 5,
            Technique::PointingPair => 5,
            Technique::NakedTriple => 6,
            Technique::HiddenTriple => 6,
            Technique::XWing => 8,
            Technique::Swordfish => 9,
            Technique::Backtracking => 10,
        }
    }

    /// Position in the order from easiest to hardest.
    pub fn level(self) -> (n: u8)
        ensures
            n == level_of(self),
    {
        match self {
            Technique::NakedSingle => 0,
            Technique::HiddenSingle => 1,
            Technique::CageCombination => 2,
            Technique::NakedPair => 3,
            Technique::HiddenPair => 4,
            Technique::PointingPair => 5,
            Technique::NakedTriple => 6,
            Technique::HiddenTriple => 7,
            Technique::XWing => 8,
            Technique::Swordfish => 9,
            Technique::Backtracking => 10,
        }
    }
}

/// The score for the hardest technique used and the number of uses of
/// advanced techniques: the technique's base score, one more after more than
/// five advanced uses, at most 10.
pub open spec fn score_of(t: Technique, advanced_uses: int) -> int {
    let s = base_of(t) + if advanced_uses > 5 { 1int } else { 0int };
    if s < 10 {
        s
    } else {
        10
    }
}

/// The rating for the hardest technique used and the number of uses of
/// advanced ones (see `score_of`).
pub fn compute_score(max_technique: Technique, advanced_uses: u32) -> (score: u8)
    ensures
        score == score_of(max_technique, advanced_uses as int),
        1 <= score <= 10,
{
    let base = max_technique.base_score();
    let freq_bonus: u8 = if advanced_uses > 5 { 1 } else { 0 };
    let s = base + freq_bonus;
    if s < 10 {
        s
    } else {
        10
    }
}

/// Removing the digits of `old ^ new` from `old` leaves `new`: the counts add up.
proof fn lemma_xor_count(old: u16, new: u16, k: int)
    requires
        sub_mask(new, old),
        0 <= k <= 16,
    ensures
        bits_below(old ^ new, k) + bits_below(new, k) == bits_below(old, k),
    decreases k,
{
    if k > 0 {
        lemma_xor_count(old, new, k - 1);
        let j = (k - 1) as u16;
        assert(new & old == new && j < 16 ==> (((new >> j) & 1u16 == 1u16) ==> ((old >> j) & 1u16 == 1u16))
            && ((((old ^ new) >> j) & 1u16 == 1u16) <==> ((old >> j) & 1u16 == 1u16 && !((new >> j) & 1u16 == 1u16)))) by (bit_vector);
    }
}

/// Shrinking one cell's candidates to `v` lowers the total by the number removed.
proof fn lemma_shrink_cell(c: Seq<u16>, k: int, v: u16)
    requires
        c.len() == 81,
        0 <= k < 81,
        sub_mask(v, c[k]),
    ensures
        bits_total(c.update(k, v), 81) + popcount(c[k] ^ v) == bits_total(c, 81),
        0 <= popcount(c[k] ^ v) <= 16,
        v != c[k] ==> popcount(c[k] ^ v) >= 1,
        shrinks(c, c.update(k, v)),
{
    lemma_bits_total_update(c, k, v, 81);
    lemma_xor_count(c[k], v, 16);
    lemma_popcount_bound(c[k] ^ v);
    let x = c[k];
    if v != x {
        assert(v & x == v && v != x ==> x ^ v != 0) by (bit_vector);
        if popcount(x ^ v) == 0 {
            crate::killer::lemma_popcount_zero(x ^ v);
        }
    }
    lemma_shrinks_refl(c);
    assert forall|k2: int| 0 <= k2 < 81 implies #[trigger] sub_mask(c.update(k, v)[k2], c[k2]) by {
        if k2 != k {
            assert(sub_mask(c[k2], c[k2]));
        }
    }
}

/// Candidates that only shrink never raise the total.
proof fn lemma_shrinks_total(a: Seq<u16>, b: Seq<u16>, n: int)
    requires
        shrinks(a, b),
        0 <= n <= 81,
        a.len() == 81,
        b.len() == 81,
    ensures
        bits_total(b, n) <= bits_total(a, n),
    decreases n,
{
    if n > 0 {
        lemma_shrinks_total(a, b, n - 1);
        assert(sub_mask(b[n - 1], a[n - 1]));
        assert forall|x: int| 0 <= x < 16 && #[trigger] bit_set(b[n - 1], x) implies bit_set(a[n - 1], x) by {
            lemma_mask_ops(b[n - 1], a[n - 1], x);
        }
        lemma_subset_count(b[n - 1], a[n - 1], 16);
    }
}

/// Per-cage state: digits placed so far, their sum, and empty cells left.
#[derive(Clone, Copy)]
struct RaterCageState {
    placed_mask: u16,
    placed_sum: u16,
    remaining: u8,
}

/// Cage topology for rating: cells and sum of each cage, the cage of each
/// cell, and each cage's digit combinations (when it has any).
struct RaterCageInfo {
    cells: Vec<Vec<(usize, usize)>>,
    sums: Vec<u8>,
    cell_cage: [usize; 81],
    combos: Vec<Option<Vec<u16>>>,
}

/// `o` lists every digit combination for `size` cells summing to `sum`, or
/// is `None` when there is none.
pub open spec fn combos_ok(o: Option<Vec<u16>>, size: int, sum: int) -> bool {
    match o {
        Some(v) => lists_combos(v@, size, sum) && v@.len() > 0,
        None => forall|m: u16| !is_combo(m, size, sum),
    }
}

/// Different cells of the board number at most 81.
proof fn lemma_board_cells(cells: Seq<(usize, usize)>)
    requires
        forall|k: int| 0 <= k < cells.len() ==> cell_in_board(#[trigger] cells[k]),
        forall|k1: int, k2: int| 0 <= k1 < cells.len() && 0 <= k2 < cells.len() && k1 != k2
            ==> #[trigger] cells[k1] != #[trigger] cells[k2],
    ensures
        cells.len() <= 81,
{
    let idx = cells.map_values(|p: (usize, usize)| 9 * p.0 as int + p.1 as int);
    assert(idx.no_duplicates()) by {
        assert forall|i: int, j: int| 0 <= i < idx.len() && 0 <= j < idx.len() && i != j implies idx[i] != idx[j] by {
            assert(cell_in_board(cells[i]) && cell_in_board(cells[j]));
            assert(cells[i] != cells[j]);
        }
    }
    idx.unique_seq_to_set();
    vstd::set_lib::lemma_int_range(0, 81);
    assert(idx.to_set().subset_of(vstd::set_lib::set_int_range(0, 81))) by {
        assert forall|x: int| idx.to_set().contains(x) implies vstd::set_lib::set_int_range(0, 81).contains(x) by {
            let i = choose|i: int| 0 <= i < idx.len() && idx[i] == x;
            assert(cell_in_board(cells[i]));
        }
    }
    vstd::set_lib::lemma_len_subset(idx.to_set(), vstd::set_lib::set_int_range(0, 81));
}

/// Cell `k` of cage `j` comes before cell `ki` of cage `ci`.
spec fn listed_before(cages: Seq<Cage>, ci: int, ki: int, j: int, k: int) -> bool {
    0 <= j < cages.len() && 0 <= k < cages[j].cells@.len() && (j < ci || (j == ci && k < ki))
}

/// Whether the cages split the board, each cell in exactly one cage: what the
/// killer rating needs.
pub fn cages_partition_board(cages: &[Cage]) -> (ok: bool)
    ensures
        ok == is_partition(cages@),
{
    let mut covered: Vec<bool> = Vec::new();
    let mut n: usize = 0;
    while n < 81
        invariant
            n <= 81,
            covered@.len() == n,
            forall|x: int| 0 <= x < n ==> !#[trigger] covered@[x],
        decreases 81 - n,
    {
        covered.push(false);
        n += 1;
    }
    let mut ci: usize = 0;
    while ci < cages.len()
        invariant
            ci <= cages@.len(),
            covered@.len() == 81,
            forall|j: int, k: int| #[trigger] listed_before(cages@, ci as int, 0, j, k) ==> cell_in_board(cages@[j].cells@[k]),
            forall|j1: int, k1: int, j2: int, k2: int| #[trigger] listed_before(cages@, ci as int, 0, j1, k1)
                && #[trigger] listed_before(cages@, ci as int, 0, j2, k2) && (j1 != j2 || k1 != k2)
                ==> cages@[j1].cells@[k1] != cages@[j2].cells@[k2],
            forall|x: int| 0 <= x < 81 ==> (#[trigger] covered@[x] <==> exists|j: int, k: int|
                #[trigger] listed_before(cages@, ci as int, 0, j, k) && 9 * cages@[j].cells@[k].0 + cages@[j].cells@[k].1 == x),
        decreases cages@.len() - ci,
    {
        let cells = &cages[ci].cells;
        let mut ki: usize = 0;
        while ki < cells.len()
            invariant
                ci < cages@.len(),
                cells@ == cages@[ci as int].cells@,
                ki <= cells@.len(),
                covered@.len() == 81,
                forall|j: int, k: int| #[trigger] listed_before(cages@, ci as int, ki as int, j, k) ==> cell_in_board(cages@[j].cells@[k]),
                forall|j1: int, k1: int, j2: int, k2: int| #[trigger] listed_before(cages@, ci as int, ki as int, j1, k1)
                    && #[trigger] listed_before(cages@, ci as int, ki as int, j2, k2) && (j1 != j2 || k1 != k2)
                    ==> cages@[j1].cells@[k1] != cages@[j2].cells@[k2],
                forall|x: int| 0 <= x < 81 ==> (#[trigger] covered@[x] <==> exists|j: int, k: int|
                    #[trigger] listed_before(cages@, ci as int, ki as int, j, k) && 9 * cages@[j].cells@[k].0 + cages@[j].cells@[k].1 == x),
            decreases cells@.len() - ki,
        {
            let (r, c) = cells[ki];
            if r >= 9 || c >= 9 {
                proof {
                    assert(!cell_in_board(cages@[ci as int].cells@[ki as int]));
                }
                return false;
            }
            if covered[r * 9 + c] {
                proof {
                    let x = 9 * r + c;
                    assert(covered@[x]);
                    let (j, k) = choose|j: int, k: int| #[trigger] listed_before(cages@, ci as int, ki as int, j, k)
                        && 9 * cages@[j].cells@[k].0 + cages@[j].cells@[k].1 == x;
                    let p = cages@[j].cells@[k];
                    assert(p.0 < 9 && p.1 < 9) by {
                        assert(cell_in_board(cages@[j].cells@[k]));
                    }
                    assert(p == (r, c));
                    if j == ci {
                        assert(k != ki);
                        assert(cages@[ci as int].cells@[k] == cages@[ci as int].cells@[ki as int]);
                    } else {
                        assert(cages@[j].cells@[k] == cages@[ci as int].cells@[ki as int]);
                        assert(!cages_disjoint(cages@));
                    }
                }
                return false;
            }
            let ghost old_cov = covered@;
            covered.set(r * 9 + c, true);
            proof {
                assert forall|j: int, k: int| #[trigger] listed_before(cages@, ci as int, ki + 1, j, k)
                    implies cell_in_board(cages@[j].cells@[k]) by {
                    if !(j == ci && k == ki) {
                        assert(listed_before(cages@, ci as int, ki as int, j, k));
                    }
                }
                assert forall|j1: int, k1: int, j2: int, k2: int| #[trigger] listed_before(cages@, ci as int, ki + 1, j1, k1)
                    && #[trigger] listed_before(cages@, ci as int, ki + 1, j2, k2) && (j1 != j2 || k1 != k2)
                    implies cages@[j1].cells@[k1] != cages@[j2].cells@[k2] by {
                    if j1 == ci && k1 == ki {
                        assert(listed_before(cages@, ci as int, ki as int, j2, k2));
                        let p = cages@[j2].cells@[k2];
                        assert(cell_in_board(p));
                        if p == (r, c) {
                            assert(old_cov[9 * r + c]);
                        }
                    } else if j2 == ci && k2 == ki {
                        assert(listed_before(cages@, ci as int, ki as int, j1, k1));
                        let p = cages@[j1].cells@[k1];
                        assert(cell_in_board(p));
                        if p == (r, c) {
                            assert(old_cov[9 * r + c]);
                        }
                    } else {
                        assert(listed_before(cages@, ci as int, ki as int, j1, k1));
                        assert(listed_before(cages@, ci as int, ki as int, j2, k2));
                    }
                }
                assert forall|x: int| 0 <= x < 81 implies (#[trigger] covered@[x] <==> exists|j: int, k: int|
                    #[trigger] listed_before(cages@, ci as int, ki + 1, j, k) && 9 * cages@[j].cells@[k].0 + cages@[j].cells@[k].1 == x) by {
                    if x == 9 * r + c {
                        assert(listed_before(cages@, ci as int, ki + 1, ci as int, ki as int));
                    } else {
                        if old_cov[x] {
                            let (j, k) = choose|j: int, k: int| #[trigger] listed_before(cages@, ci as int, ki as int, j, k)
                                && 9 * cages@[j].cells@[k].0 + cages@[j].cells@[k].1 == x;
                            assert(listed_before(cages@, ci as int, ki + 1, j, k));
                        }
                        if exists|j: int, k: int| #[trigger] listed_before(cages@, ci as int, ki + 1, j, k)
                            && 9 * cages@[j].cells@[k].0 + cages@[j].cells@[k].1 == x {
                            let (j, k) = choose|j: int, k: int| #[trigger] listed_before(cages@, ci as int, ki + 1, j, k)
                                && 9 * cages@[j].cells@[k].0 + cages@[j].cells@[k].1 == x;
                            assert(!(j == ci && k == ki));
                            assert(listed_before(cages@, ci as int, ki as int, j, k));
                        }
                    }
                }
            }
            ki += 1;
        }
        proof {
            assert(ki == cages@[ci as int].cells@.len());
            assert forall|j: int, k: int| #![trigger listed_before(cages@, ci + 1, 0, j, k)] #![trigger listed_before(cages@, ci as int, ki as int, j, k)]
                listed_before(cages@, ci + 1, 0, j, k) <==> listed_before(cages@, ci as int, ki as int, j, k) by {}
        }
        ci += 1;
    }
    proof {
        assert forall|j: int, k: int| 0 <= j < cages@.len() && 0 <= k < cages@[j].cells@.len()
            implies #[trigger] listed_before(cages@, ci as int, 0, j, k) by {}
    }
    let mut x: usize = 0;
    while x < 81
        invariant
            x <= 81,
            covered@.len() == 81,
            forall|y: int| 0 <= y < x ==> #[trigger] covered@[y],
            ci == cages@.len(),
            forall|y: int| 0 <= y < 81 ==> (#[trigger] covered@[y] <==> exists|j: int, k: int|
                #[trigger] listed_before(cages@, ci as int, 0, j, k) && 9 * cages@[j].cells@[k].0 + cages@[j].cells@[k].1 == y),
            forall|j: int, k: int| #[trigger] listed_before(cages@, ci as int, 0, j, k) ==> cell_in_board(cages@[j].cells@[k]),
        decreases 81 - x,
    {
        if !covered[x] {
            proof {
                let (r, c) = ((x / 9) as int, (x % 9) as int);
                assert(in_board(r, c));
                if in_some_cage(cages@, (r as usize, c as usize)) {
                    let (j, k) = choose|j: int, k: int| 0 <= j < cages@.len() && 0 <= k < cages@[j].cells@.len()
                        && #[trigger] cages@[j].cells@[k] == (r as usize, c as usize);
                    assert(listed_before(cages@, ci as int, 0, j, k));
                    assert(covered@[x as int]);
                }
            }
            return false;
        }
        x += 1;
    }
    proof {
        assert forall|r: int, c: int| in_board(r, c) implies #[trigger] in_some_cage(cages@, (r as usize, c as usize)) by {
            let x = 9 * r + c;
            assert(covered@[x]);
            let (j, k) = choose|j: int, k: int| #[trigger] listed_before(cages@, ci as int, 0, j, k)
                && 9 * cages@[j].cells@[k].0 + cages@[j].cells@[k].1 == x;
            assert(cell_in_board(cages@[j].cells@[k]));
            assert(cages@[j].cells@[k] == (r as usize, c as usize));
        }
        assert forall|j: int, k1: int, k2: int| 0 <= j < cages@.len() && 0 <= k1 < cages@[j].cells@.len()
            && 0 <= k2 < cages@[j].cells@.len() && k1 != k2
            implies #[trigger] cages@[j].cells@[k1] != #[trigger] cages@[j].cells@[k2] by {
            assert(listed_before(cages@, ci as int, 0, j, k1) && listed_before(cages@, ci as int, 0, j, k2));
        }
        assert forall|j1: int, j2: int, k1: int, k2: int|
            0 <= j1 < cages@.len() && 0 <= j2 < cages@.len() && j1 != j2 && 0 <= k1 < cages@[j1].cells@.len() && 0 <= k2
                < cages@[j2].cells@.len() implies #[trigger] cages@[j1].cells@[k1] != #[trigger] cages@[j2].cells@[k2] by {
            assert(listed_before(cages@, ci as int, 0, j1, k1) && listed_before(cages@, ci as int, 0, j2, k2));
        }
        assert forall|j: int, k: int| 0 <= j < cages@.len() && 0 <= k < cages@[j].cells@.len()
            implies cell_in_board(#[trigger] cages@[j].cells@[k]) by {
            assert(listed_before(cages@, ci as int, 0, j, k));
        }
    }
    true
}

impl RaterCageInfo {
    spec fn n(&self) -> int {
        self.cells@.len() as int
    }

    spec fn cage(&self, ci: int) -> Seq<(usize, usize)> {
        self.cells@[ci]@
    }

    spec fn owner_at(&self, p: (usize, usize)) -> int {
        self.cell_cage@[9 * p.0 + p.1] as int
    }

    spec fn owner_of(&self, r: int, c: int) -> int {
        self.cell_cage@[9 * r + c] as int
    }

    /// Each cage's cells lie on the board, differ, and are recorded as the
    /// cage's own; nine times a cage's size fits a byte.
    spec fn shaped(&self) -> bool {
        &&& self.sums@.len() == self.n()
        &&& self.combos@.len() == self.n()
        &&& forall|ci: int, k: int| 0 <= ci < self.n() && 0 <= k < self.cage(ci).len()
            ==> cell_in_board(#[trigger] self.cage(ci)[k]) && self.owner_at(self.cage(ci)[k]) == ci
        &&& forall|ci: int, k1: int, k2: int| 0 <= ci < self.n() && 0 <= k1 < self.cage(ci).len()
            && 0 <= k2 < self.cage(ci).len() && k1 != k2 ==> #[trigger] self.cage(ci)[k1] != #[trigger] self.cage(ci)[k2]
        &&& forall|ci: int| 0 <= ci < self.n() ==> #[trigger] self.cage(ci).len() <= 81
        &&& forall|r: int, c: int| in_board(r, c) ==> 0 <= #[trigger] self.owner_of(r, c) < self.n()
            && self.cage(self.owner_of(r, c)).contains((r as usize, c as usize))
        &&& forall|ci: int| 0 <= ci < self.n() ==> #[trigger] combos_ok(self.combos@[ci], self.cage(ci).len() as int, self.sums@[ci] as int)
    }

    fn from_cages(cages: &[Cage]) -> (info: RaterCageInfo)
        requires
            is_partition(cages@),
        ensures
            info.shaped(),
            info.n() == cages@.len(),
            forall|ci: int| 0 <= ci < cages@.len() ==> #[trigger] info.cage(ci) == cages@[ci].cells@
                && info.sums@[ci] == cages@[ci].sum,
    {
        let mut cell_cage = [0usize; 81];
        let mut cells: Vec<Vec<(usize, usize)>> = Vec::new();
        let mut sums: Vec<u8> = Vec::new();
        let mut combos: Vec<Option<Vec<u16>>> = Vec::new();
        let mut i: usize = 0;
        while i < cages.len()
            invariant
                i <= cages@.len(),
                is_partition(cages@),
                cells@.len() == i,
                sums@.len() == i,
                combos@.len() == i,
                forall|ci: int| 0 <= ci < i ==> #[trigger] cells@[ci]@ == cages@[ci].cells@,
                forall|ci: int| 0 <= ci < i ==> #[trigger] sums@[ci] == cages@[ci].sum,
                forall|ci: int| 0 <= ci < i ==> #[trigger] combos_ok(combos@[ci], cells@[ci]@.len() as int, sums@[ci] as int),
                forall|ci: int, k: int| 0 <= ci < i && 0 <= k < cages@[ci].cells@.len() ==>
                    cell_cage@[9 * (#[trigger] cages@[ci].cells@[k]).0 + cages@[ci].cells@[k].1] == ci,
            decreases cages@.len() - i,
        {
            let cage_cells = &cages[i].cells;
            let mut copy: Vec<(usize, usize)> = Vec::new();
            let mut k: usize = 0;
            while k < cage_cells.len()
                invariant
                    i < cages@.len(),
                    k <= cage_cells@.len(),
                    cage_cells@ == cages@[i as int].cells@,
                    is_partition(cages@),
                    copy@ == cage_cells@.subrange(0, k as int),
                    forall|ci: int, k2: int| 0 <= ci < i && 0 <= k2 < cages@[ci].cells@.len() ==>
                        cell_cage@[9 * (#[trigger] cages@[ci].cells@[k2]).0 + cages@[ci].cells@[k2].1] == ci,
                    forall|k2: int| 0 <= k2 < k ==>
                        cell_cage@[9 * (#[trigger] cage_cells@[k2]).0 + cage_cells@[k2].1] == i,
                decreases cage_cells@.len() - k,
            {
                let (r, c) = cage_cells[k];
                proof {
                    assert(cell_in_board(cages@[i as int].cells@[k as int]));
                }
                let ghost before = cell_cage@;
                cell_cage[r * 9 + c] = i;
                copy.push((r, c));
                proof {
                    assert(copy@ =~= cage_cells@.subrange(0, k + 1));
                    assert forall|ci: int, k2: int| 0 <= ci < i && 0 <= k2 < cages@[ci].cells@.len() implies
                        cell_cage@[9 * (#[trigger] cages@[ci].cells@[k2]).0 + cages@[ci].cells@[k2].1] == ci by {
                        let p = cages@[ci].cells@[k2];
                        assert(p != cages@[i as int].cells@[k as int]);
                        assert(cell_in_board(p));
                        assert(before[9 * p.0 + p.1] == ci);
                    }
                    assert forall|k2: int| 0 <= k2 < k + 1 implies
                        cell_cage@[9 * (#[trigger] cage_cells@[k2]).0 + cage_cells@[k2].1] == i by {
                        if k2 < k {
                            let p = cage_cells@[k2];
                            assert(p != cage_cells@[k as int]);
                            assert(cell_in_board(p));
                            assert(before[9 * p.0 + p.1] == i);
                        }
                    }
                }
                k += 1;
            }
            proof {
                assert(copy@ =~= cage_cells@);
            }
            let list = cage_combos(copy.len(), cages[i].sum);
            let ghost cells0 = cells@;
            let ghost sums0 = sums@;
            let ghost combos0 = combos@;
            proof {
                if list is Some {
                    let m = choose|m: u16| is_combo(m, copy@.len() as int, cages@[i as int].sum as int);
                    assert(list.unwrap()@.contains(m));
                }
                assert(combos_ok(list, copy@.len() as int, cages@[i as int].sum as int));
            }
            cells.push(copy);
            sums.push(cages[i].sum);
            combos.push(list);
            proof {
                assert forall|ci: int| 0 <= ci < i + 1 implies #[trigger] cells@[ci]@ == cages@[ci].cells@ by {
                    if ci < i {
                        assert(cells@[ci] == cells0[ci]);
                    }
                }
                assert forall|ci: int| 0 <= ci < i + 1 implies #[trigger] sums@[ci] == cages@[ci].sum by {
                    if ci < i {
                        assert(sums@[ci] == sums0[ci]);
                    }
                }
                assert forall|ci: int| 0 <= ci < i + 1 implies #[trigger] combos_ok(combos@[ci], cells@[ci]@.len() as int, sums@[ci] as int) by {
                    if ci < i {
                        assert(cells@[ci] == cells0[ci]);
                        assert(sums@[ci] == sums0[ci]);
                        assert(combos@[ci] == combos0[ci]);
                    }
                }
            }
            i += 1;
        }
        let info = RaterCageInfo { cells, sums, cell_cage, combos };
        proof {
            assert forall|ci: int, k: int| 0 <= ci < info.n() && 0 <= k < info.cage(ci).len()
                implies cell_in_board(#[trigger] info.cage(ci)[k]) && info.owner_at(info.cage(ci)[k]) == ci by {
                assert(info.cage(ci) == cages@[ci].cells@);
                assert(cages@[ci].cells@[k] == info.cage(ci)[k]);
            }
            assert forall|ci: int, k1: int, k2: int| 0 <= ci < info.n() && 0 <= k1 < info.cage(ci).len()
                && 0 <= k2 < info.cage(ci).len() && k1 != k2 implies #[trigger] info.cage(ci)[k1] != #[trigger] info.cage(ci)[k2] by {
                assert(info.cage(ci) == cages@[ci].cells@);
                assert(cages@[ci].cells@[k1] == info.cage(ci)[k1]);
                assert(cages@[ci].cells@[k2] == info.cage(ci)[k2]);
            }
            assert forall|ci: int| 0 <= ci < info.n() implies #[trigger] info.cage(ci).len() <= 81 by {
                assert(info.cage(ci) == cages@[ci].cells@);
                lemma_board_cells(cages@[ci].cells@);
            }
            assert forall|ci: int| 0 <= ci < info.n() implies #[trigger] combos_ok(info.combos@[ci], info.cage(ci).len() as int, info.sums@[ci] as int) by {
                assert(combos_ok(combos@[ci], cells@[ci]@.len() as int, sums@[ci] as int));
            }
            assert forall|ci: int| 0 <= ci < cages@.len() implies #[trigger] info.cage(ci) == cages@[ci].cells@
                && info.sums@[ci] == cages@[ci].sum by {
                assert(cells@[ci]@ == cages@[ci].cells@);
                assert(sums@[ci] == cages@[ci].sum);
            }
            assert forall|r: int, c: int| in_board(r, c) implies 0 <= #[trigger] info.owner_of(r, c) < info.n()
                && info.cage(info.owner_of(r, c)).contains((r as usize, c as usize)) by {
                let p = (r as usize, c as usize);
                assert(in_some_cage(cages@, p));
                let (j, k) = choose|j: int, k: int| 0 <= j < cages@.len() && 0 <= k < cages@[j].cells@.len() && #[trigger] cages@[j].cells@[k] == p;
                assert(cell_cage@[9 * p.0 + p.1] == j);
                assert(info.cage(j) == cages@[j].cells@);
                assert(info.cage(j)[k] == p);
            }
        }
        info
    }

    fn num_cages(&self) -> (n: usize)
        ensures
            n == self.n(),
    {
        self.cells.len()
    }
}

/// The cage state counts the empty cells of its cage and leaves room in the
/// sum for them.
spec fn cage_state_ok(cs: RaterCageState, cells: Seq<u8>, list: Seq<(usize, usize)>) -> bool {
    &&& cs.remaining == sel_count(list.len() as int, empty_sel(cells, list))
    &&& cs.placed_sum + 9 * cs.remaining <= 9 * list.len()
    &&& cs.placed_mask == sel_mask(board_of(cells), list, list.len() as int, filled_sel(cells, list))
    &&& cs.placed_sum == sel_sum(board_of(cells), list, list.len() as int, filled_sel(cells, list))
}

/// Rater state — separate from the solver, no automatic cascading.
struct RaterState {
    cells: [u8; 81],
    candidates: [u16; 81],
    empty_count: u8,
    cage_states: Option<Vec<RaterCageState>>,
}

impl RaterState {
    spec fn base_wf(&self) -> bool {
        &&& forall|k: int| 0 <= k < 81 ==> #[trigger] self.cells@[k] <= 9
        &&& forall|k: int| 0 <= k < 81 && #[trigger] self.cells@[k] != 0 ==> self.candidates@[k] == 0
        &&& forall|k: int| 0 <= k < 81 ==> only_digits(#[trigger] self.candidates@[k])
        &&& self.empty_count == count_empty(self.cells@, 81)
    }

    spec fn cage_wf(&self, cage_info: Option<&RaterCageInfo>) -> bool {
        match cage_info {
            None => true,
            Some(info) => {
                &&& info.shaped()
                &&& self.cage_states matches Some(cs) && {
                    &&& cs@.len() == info.n()
                    &&& forall|ci: int| 0 <= ci < info.n() ==> #[trigger] cage_state_ok(cs@[ci], self.cells@, info.cage(ci))
                }
            },
        }
    }

    spec fn measure(&self) -> int {
        bits_total(self.candidates@, 81)
    }

    /// The board `s` agrees with cell (r, c): the placed digit, or one of its candidates.
    spec fn cell_ok(&self, s: Seq<Seq<u8>>, r: int, c: int) -> bool {
        if self.cells@[9 * r + c] != 0 {
            s[r][c] == self.cells@[9 * r + c]
        } else {
            has_digit(self.candidates@[9 * r + c], s[r][c])
        }
    }

    /// `s` agrees with every cell: no deduction so far has ruled it out.
    spec fn consistent(&self, s: Seq<Seq<u8>>) -> bool {
        &&& is_board(s)
        &&& forall|r: int, c: int| in_board(r, c) ==> #[trigger] self.cell_ok(s, r, c)
    }

    /// `self` differs from `start` only in candidates, which shrank by `n` in all.
    spec fn elim_from(&self, start: &RaterState, n: int) -> bool {
        &&& self.base_wf()
        &&& self.cells == start.cells
        &&& self.empty_count == start.empty_count
        &&& self.cage_states == start.cage_states
        &&& shrinks(start.candidates@, self.candidates@)
        &&& n == start.measure() - self.measure()
        &&& 0 <= self.measure()
    }

    /// Replacing one cell's candidates by a subset keeps the state well formed
    /// and lowers the total by the number of candidates removed.
    proof fn lemma_restrict(s0: &RaterState, s1: &RaterState, k: int, v: u16)
        requires
            s0.base_wf(),
            0 <= k < 81,
            s1.cells == s0.cells,
            s1.empty_count == s0.empty_count,
            s1.candidates@ == s0.candidates@.update(k, v),
            sub_mask(v, s0.candidates@[k]),
        ensures
            s1.base_wf(),
            shrinks(s0.candidates@, s1.candidates@),
            s1.measure() + popcount(s0.candidates@[k] ^ v) == s0.measure(),
            0 <= popcount(s0.candidates@[k] ^ v) <= 16,
            v != s0.candidates@[k] ==> popcount(s0.candidates@[k] ^ v) >= 1,
    {
        lemma_shrink_cell(s0.candidates@, k, v);
        let x = s0.candidates@[k];
        assert(v & x == v ==> (x & 0xFC01u16 == 0 ==> v & 0xFC01u16 == 0) && (x == 0 ==> v == 0)) by (bit_vector);
        assert forall|k2: int| 0 <= k2 < 81 implies only_digits(#[trigger] s1.candidates@[k2]) by {
            if k2 != k {
                assert(s1.candidates@[k2] == s0.candidates@[k2]);
            }
        }
        assert forall|k2: int| 0 <= k2 < 81 && #[trigger] s1.cells@[k2] != 0 implies s1.candidates@[k2] == 0 by {
            if k2 != k {
                assert(s1.candidates@[k2] == s0.candidates@[k2]);
            }
        }
    }

    /// Strip candidate bits from peers — NO cascading (no auto-placing singles).
    fn strip_from_peers(&mut self, row: usize, col: usize, d: u8)
        requires
            old(self).base_wf(),
            row < 9,
            col < 9,
            1 <= d <= 9,
        ensures
            final(self).base_wf(),
            final(self).cells == old(self).cells,
            final(self).empty_count == old(self).empty_count,
            final(self).cage_states == old(self).cage_states,
            shrinks(old(self).candidates@, final(self).candidates@),
            forall|s: Seq<Seq<u8>>| is_complete_valid(s) && old(self).consistent(s) && s[row as int][col as int] == d
                ==> final(self).consistent(s),
    {
        let bit = 1u16 << d;
        let ghost start = *self;
        proof {
            lemma_shrinks_refl(start.candidates@);
        }
        let mut c: usize = 0;
        while c < 9
            invariant
                c <= 9,
                row < 9,
                col < 9,
                self.base_wf(),
                bit == 1u16 << d,
                1 <= d <= 9,
                self.cells == start.cells,
                self.empty_count == start.empty_count,
                self.cage_states == start.cage_states,
                shrinks(start.candidates@, self.candidates@),
                forall|s: Seq<Seq<u8>>| is_complete_valid(s) && start.consistent(s) && s[row as int][col as int] == d
                    ==> self.consistent(s),
            decreases 9 - c,
        {
            if c != col {
                let ghost s0 = *self;
                let x = self.candidates[row * 9 + c];
                proof {
                    lemma_and_sub(x, !bit);
                }
                self.candidates[row * 9 + c] = x & !bit;
                proof {
                    RaterState::lemma_restrict(&s0, self, row * 9 + c, x & !bit);
                    assert forall|s: Seq<Seq<u8>>| is_complete_valid(s) && start.consistent(s) && s[row as int][col as int] == d
                        implies self.consistent(s) by {
                        assert(in_board(row as int, c as int));
                        assert(is_peer(row as int, col as int, row as int, c as int));
                        lemma_strip_agreeing(&s0, self, row as int, c as int, d, s);
                    }
                    lemma_shrinks_trans(start.candidates@, s0.candidates@, self.candidates@);
                }
            }
            c += 1;
        }
        let mut r: usize = 0;
        while r < 9
            invariant
                r <= 9,
                row < 9,
                col < 9,
                self.base_wf(),
                bit == 1u16 << d,
                1 <= d <= 9,
                self.cells == start.cells,
                self.empty_count == start.empty_count,
                self.cage_states == start.cage_states,
                shrinks(start.candidates@, self.candidates@),
                forall|s: Seq<Seq<u8>>| is_complete_valid(s) && start.consistent(s) && s[row as int][col as int] == d
                    ==> self.consistent(s),
            decreases 9 - r,
        {
            if r != row {
                let ghost s0 = *self;
                let x = self.candidates[r * 9 + col];
                proof {
                    lemma_and_sub(x, !bit);
                }
                self.candidates[r * 9 + col] = x & !bit;
                proof {
                    RaterState::lemma_restrict(&s0, self, r * 9 + col, x & !bit);
                    assert forall|s: Seq<Seq<u8>>| is_complete_valid(s) && start.consistent(s) && s[row as int][col as int] == d
                        implies self.consistent(s) by {
                        assert(in_board(r as int, col as int));
                        assert(is_peer(row as int, col as int, r as int, col as int));
                        lemma_strip_agreeing(&s0, self, r as int, col as int, d, s);
                    }
                    lemma_shrinks_trans(start.candidates@, s0.candidates@, self.candidates@);
                }
            }
            r += 1;
        }
        let br = (row / 3) * 3;
        let bc = (col / 3) * 3;
        let mut r: usize = br;
        while r < br + 3
            invariant
                br == (row / 3) * 3,
                bc == (col / 3) * 3,
                br <= r <= br + 3,
                row < 9,
                col < 9,
                self.base_wf(),
                bit == 1u16 << d,
                1 <= d <= 9,
                self.cells == start.cells,
                self.empty_count == start.empty_count,
                self.cage_states == start.cage_states,
                shrinks(start.candidates@, self.candidates@),
                forall|s: Seq<Seq<u8>>| is_complete_valid(s) && start.consistent(s) && s[row as int][col as int] == d
                    ==> self.consistent(s),
            decreases br + 3 - r,
        {
            let mut c: usize = bc;
            while c < bc + 3
                invariant
                    br == (row / 3) * 3,
                    bc == (col / 3) * 3,
                    br <= r < br + 3,
                    bc <= c <= bc + 3,
                    row < 9,
                    col < 9,
                    self.base_wf(),
                    bit == 1u16 << d,
                    1 <= d <= 9,
                    self.cells == start.cells,
                    self.empty_count == start.empty_count,
                    self.cage_states == start.cage_states,
                    shrinks(start.candidates@, self.candidates@),
                    forall|s: Seq<Seq<u8>>| is_complete_valid(s) && start.consistent(s) && s[row as int][col as int] == d
                        ==> self.consistent(s),
                decreases bc + 3 - c,
            {
                if r != row || c != col {
                    let ghost s0 = *self;
                    let x = self.candidates[r * 9 + c];
                    proof {
                        lemma_and_sub(x, !bit);
                    }
                    self.candidates[r * 9 + c] = x & !bit;
                    proof {
                        RaterState::lemma_restrict(&s0, self, r * 9 + c, x & !bit);
                        assert forall|s: Seq<Seq<u8>>| is_complete_valid(s) && start.consistent(s) && s[row as int][col as int] == d
                            implies self.consistent(s) by {
                            assert(in_board(r as int, c as int));
                            assert(is_peer(row as int, col as int, r as int, c as int));
                            lemma_strip_agreeing(&s0, self, r as int, c as int, d, s);
                        }
                        lemma_shrinks_trans(start.candidates@, s0.candidates@, self.candidates@);
                    }
                }
                c += 1;
            }
            r += 1;
        }
    }

    /// Place a digit and strip from peers (no cascading).
    fn place(&mut self, row: usize, col: usize, d: u8, cage_info: Option<&RaterCageInfo>)
        requires
            old(self).base_wf(),
            old(self).cage_wf(cage_info),
            row < 9,
            col < 9,
            1 <= d <= 9,
            old(self).cells@[9 * row + col] == 0,
        ensures
            final(self).base_wf(),
            final(self).cage_wf(cage_info),
            final(self).cells@ == old(self).cells@.update(9 * row + col, d),
            final(self).empty_count == old(self).empty_count - 1,
            shrinks(old(self).candidates@, final(self).candidates@),
            final(self).measure() + popcount(old(self).candidates@[9 * row + col]) <= old(self).measure(),
            forall|s: Seq<Seq<u8>>| rsol(cage_info, s) && old(self).consistent(s) && s[row as int][col as int] == d
                ==> final(self).consistent(s),
    {
        let k = row * 9 + col;
        let ghost start = *self;
        proof {
            lemma_count_empty_bounds(start.cells@, 81);
            lemma_count_empty_update(start.cells@, k as int, d, 81);
            assert(count_empty(start.cells@, 81) >= 1);
            let x = start.candidates@[k as int];
            assert(0u16 & x == 0u16 && x ^ 0u16 == x) by (bit_vector);
            lemma_shrink_cell(start.candidates@, k as int, 0);
            lemma_bits_below_bounds(x, 16);
        }
        self.cells[k] = d;
        self.candidates[k] = 0;
        self.empty_count -= 1;
        let ghost mid = *self;
        proof {
            assert forall|k2: int| 0 <= k2 < 81 implies only_digits(#[trigger] self.candidates@[k2]) by {
                if k2 != k {
                    assert(self.candidates@[k2] == start.candidates@[k2]);
                } else {
                    lemma_all_digits(0);
                }
            }
            assert forall|k2: int| 0 <= k2 < 81 implies #[trigger] self.cells@[k2] <= 9 by {
                if k2 != k {
                    assert(self.cells@[k2] == start.cells@[k2]);
                }
            }
            assert forall|k2: int| 0 <= k2 < 81 && #[trigger] self.cells@[k2] != 0 implies self.candidates@[k2] == 0 by {
                if k2 != k {
                    assert(self.cells@[k2] == start.cells@[k2]);
                }
            }
            if let Some(info) = cage_info {
                lemma_place_room(&start, info, row as int, col as int);
            }
            assert forall|s: Seq<Seq<u8>>| rsol(cage_info, s) && start.consistent(s) && s[row as int][col as int] == d
                implies mid.consistent(s) by {
                assert forall|r2: int, c2: int| in_board(r2, c2) implies #[trigger] mid.cell_ok(s, r2, c2) by {
                    assert(start.cell_ok(s, r2, c2));
                    if !(r2 == row && c2 == col) {
                        assert(9 * r2 + c2 != k);
                    }
                }
            }
        }
        self.strip_from_peers(row, col, d);
        let ghost after_strip = *self;
        proof {
            lemma_shrinks_trans(start.candidates@, mid.candidates@, self.candidates@);
            lemma_shrinks_total(mid.candidates@, self.candidates@, 81);
            assert forall|s: Seq<Seq<u8>>| rsol(cage_info, s) && start.consistent(s) && s[row as int][col as int] == d
                implies after_strip.consistent(s) by {
                assert(mid.consistent(s));
            }
        }

        // Update cage state and strip placed digit from cage peers
        if let Some(info) = cage_info {
            let ci = info.cell_cage[k];
            proof {
                assert(in_board(row as int, col as int));
                assert(info.owner_of(row as int, col as int) == ci);
                assert(self.cage_states == start.cage_states);
                assert(self.cage_states matches Some(cs) && cs@.len() == info.n());
            }
            if let Some(cs) = &mut self.cage_states {
                let mut st = cs[ci];
                st.placed_mask |= 1u16 << d;
                st.placed_sum += d as u16;
                st.remaining -= 1;
                cs.set(ci, st);
            }
            proof {
                lemma_place_cages(&start, self, info, row as int, col as int, d);
            }

            // Also strip this digit from other unfilled cells in the same cage
            let bit = 1u16 << d;
            let cage = &info.cells[ci];
            let ghost s1 = *self;
            proof {
                lemma_shrinks_refl(s1.candidates@);
                assert forall|s: Seq<Seq<u8>>| rsol(cage_info, s) && start.consistent(s) && s[row as int][col as int] == d
                    implies s1.consistent(s) by {
                    assert(after_strip.consistent(s));
                    assert forall|r2: int, c2: int| in_board(r2, c2) implies #[trigger] s1.cell_ok(s, r2, c2) by {
                        assert(after_strip.cell_ok(s, r2, c2));
                    }
                }
            }
            let mut i: usize = 0;
            while i < cage.len()
                invariant
                    i <= cage@.len(),
                    cage@ == info.cage(ci as int),
                    cage_info == Some(info),
                    ci < info.n(),
                    info.shaped(),
                    self.base_wf(),
                    self.cage_wf(cage_info),
                    self.cells == s1.cells,
                    self.empty_count == s1.empty_count,
                    shrinks(s1.candidates@, self.candidates@),
                    bit == 1u16 << d,
                    1 <= d <= 9,
                    k == row * 9 + col,
                    row < 9,
                    col < 9,
                    self.cells@[k as int] == d,
                    ci == info.cell_cage@[k as int],
                    forall|s: Seq<Seq<u8>>| rsol(cage_info, s) && s1.consistent(s) && s[row as int][col as int] == d
                        ==> self.consistent(s),
                decreases cage@.len() - i,
            {
                let (cr, cc) = cage[i];
                proof {
                    assert(cell_in_board(cage@[i as int]));
                }
                if self.cells[cr * 9 + cc] == 0 {
                    let ghost s0 = *self;
                    let x = self.candidates[cr * 9 + cc];
                    proof {
                        lemma_and_sub(x, !bit);
                    }
                    self.candidates[cr * 9 + cc] = x & !bit;
                    proof {
                        RaterState::lemma_restrict(&s0, self, cr * 9 + cc, x & !bit);
                        lemma_shrinks_trans(s1.candidates@, s0.candidates@, self.candidates@);
                        assert forall|s: Seq<Seq<u8>>| rsol(cage_info, s) && s1.consistent(s) && s[row as int][col as int] == d
                            implies self.consistent(s) by {
                            let l = info.cage(ci as int);
                            assert(in_board(row as int, col as int));
                            assert(info.owner_of(row as int, col as int) == ci);
                            assert(l.contains((row, col)));
                            let j = choose|j: int| 0 <= j < l.len() && l[j] == (row, col);
                            assert(i != j);
                            assert(digit_at(s, l[i as int]) != digit_at(s, l[j]));
                            assert(in_board(cr as int, cc as int));
                            lemma_strip_agreeing(&s0, self, cr as int, cc as int, d, s);
                        }
                    }
                }
                i += 1;
            }
            proof {
                lemma_shrinks_trans(start.candidates@, s1.candidates@, self.candidates@);
                lemma_shrinks_total(s1.candidates@, self.candidates@, 81);
                assert forall|s: Seq<Seq<u8>>| rsol(cage_info, s) && start.consistent(s) && s[row as int][col as int] == d
                    implies self.consistent(s) by {
                    assert(s1.consistent(s));
                }
            }
        }
    }
}

/// `s` is complete and valid and, with cages, repeats no digit within a cage
/// and gives each cage its sum.
spec fn rsol(cage_info: Option<&RaterCageInfo>, s: Seq<Seq<u8>>) -> bool {
    &&& is_complete_valid(s)
    &&& match cage_info {
        None => true,
        Some(info) => cages_hold(info, s),
    }
}

/// `s` repeats no digit within a cage and gives each cage its sum.
spec fn cages_hold(info: &RaterCageInfo, s: Seq<Seq<u8>>) -> bool {
    &&& forall|ci: int, k1: int, k2: int|
        0 <= ci < info.n() && 0 <= k1 < info.cage(ci).len() && 0 <= k2 < info.cage(ci).len() && k1 != k2
            ==> digit_at(s, #[trigger] info.cage(ci)[k1]) != digit_at(s, #[trigger] info.cage(ci)[k2])
    &&& forall|ci: int| 0 <= ci < info.n() ==> #[trigger] crate::grid::cells_sum(s, info.cage(ci)) == info.sums@[ci]
}

/// Replacing the candidates of cell (r, c) by `v` keeps `s` agreeing when the
/// cell is filled or `v` still holds the digit of `s`.
proof fn lemma_keep_agreeing(s0: &RaterState, s1: &RaterState, r: int, c: int, v: u16, s: Seq<Seq<u8>>)
    requires
        s0.consistent(s),
        in_board(r, c),
        s1.cells == s0.cells,
        s1.candidates@ == s0.candidates@.update(9 * r + c, v),
        s0.cells@[9 * r + c] != 0 || has_digit(v, s[r][c]),
    ensures
        s1.consistent(s),
{
    assert forall|r2: int, c2: int| in_board(r2, c2) implies #[trigger] s1.cell_ok(s, r2, c2) by {
        assert(s0.cell_ok(s, r2, c2));
        if !(r2 == r && c2 == c) {
            assert(9 * r2 + c2 != 9 * r + c);
        }
    }
}

/// Removing digit `d` from cell (r, c) keeps `s` agreeing when `s` puts another digit there.
proof fn lemma_strip_agreeing(s0: &RaterState, s1: &RaterState, r: int, c: int, d: u8, s: Seq<Seq<u8>>)
    requires
        s0.consistent(s),
        in_board(r, c),
        1 <= d <= 9,
        s1.cells == s0.cells,
        s1.candidates@ == s0.candidates@.update(9 * r + c, s0.candidates@[9 * r + c] & !(1u16 << d)),
        s[r][c] != d,
        1 <= s[r][c] <= 9,
    ensures
        s1.consistent(s),
{
    assert(s0.cell_ok(s, r, c));
    crate::digits::lemma_clear_digit(s0.candidates@[9 * r + c], d, s[r][c]);
    lemma_keep_agreeing(s0, s1, r, c, s0.candidates@[9 * r + c] & !(1u16 << d), s);
}

/// Placing into an empty cell finds its cage with a cell left and room in the sum.
proof fn lemma_place_room(start: &RaterState, info: &RaterCageInfo, row: int, col: int)
    requires
        start.base_wf(),
        start.cage_wf(Some(info)),
        0 <= row < 9,
        0 <= col < 9,
        start.cells@[9 * row + col] == 0,
    ensures
        start.cage_states matches Some(cs) && {
            let st = cs@[info.cell_cage@[9 * row + col] as int];
            st.remaining >= 1 && st.placed_sum + 9 <= 729
        },
{
    let ci = info.cell_cage@[9 * row + col] as int;
    assert(in_board(row, col));
    assert(info.owner_of(row, col) == ci);
    let cs = start.cage_states.unwrap();
    let list = info.cage(ci);
    assert(cage_state_ok(cs@[ci], start.cells@, list));
    assert(in_board(row, col));
    assert(info.owner_of(row, col) == ci);
    assert(list.contains((row as usize, col as usize)));
    let j = choose|j: int| 0 <= j < list.len() && list[j] == (row as usize, col as usize);
    assert(empty_sel(start.cells@, list)(j));
    lemma_sel_count_bounds(list.len() as int, empty_sel(start.cells@, list), j);
}

/// The cage states after a placement, with the placing cage's state updated.
proof fn lemma_place_cages(start: &RaterState, now: &RaterState, info: &RaterCageInfo, row: int, col: int, d: u8)
    requires
        start.base_wf(),
        start.cage_wf(Some(info)),
        0 <= row < 9,
        0 <= col < 9,
        1 <= d <= 9,
        start.cells@[9 * row + col] == 0,
        now.cells@ == start.cells@.update(9 * row + col, d),
        start.cage_states matches Some(cs0) && now.cage_states matches Some(cs1) && {
            let ci = info.cell_cage@[9 * row + col] as int;
            let st = cs0@[ci];
            cs1@ == cs0@.update(ci, RaterCageState {
                placed_mask: st.placed_mask | (1u16 << d),
                placed_sum: (st.placed_sum + d) as u16,
                remaining: (st.remaining - 1) as u8,
            })
        },
    ensures
        now.cage_wf(Some(info)),
{
    let k = 9 * row + col;
    let ci = info.cell_cage@[k] as int;
    let cs0 = start.cage_states.unwrap();
    let cs1 = now.cage_states.unwrap();
    assert(in_board(row, col));
    assert(info.owner_of(row, col) == ci);
    let list = info.cage(ci);
    assert(list.contains((row as usize, col as usize)));
    let j = choose|j: int| 0 <= j < list.len() && list[j] == (row as usize, col as usize);
    assert forall|cj: int| 0 <= cj < info.n() implies #[trigger] cage_state_ok(cs1@[cj], now.cells@, info.cage(cj)) by {
        let l = info.cage(cj);
        let n = l.len() as int;
        assert(cage_state_ok(cs0@[cj], start.cells@, l));
        let (b0, b1) = (board_of(start.cells@), board_of(now.cells@));
        if cj == ci {
            assert forall|k2: int| 0 <= k2 < n && k2 != j implies
                #[trigger] empty_sel(now.cells@, l)(k2) == empty_sel(start.cells@, l)(k2)
                && filled_sel(now.cells@, l)(k2) == filled_sel(start.cells@, l)(k2) by {
                let p = l[k2];
                assert(cell_in_board(p));
                assert(p != l[j]);
                assert(9 * p.0 + p.1 != k);
            }
            assert(empty_sel(start.cells@, l)(j));
            assert(!empty_sel(now.cells@, l)(j));
            lemma_sel_one(Seq::empty(), l, n, empty_sel(now.cells@, l), empty_sel(start.cells@, l), j);
            lemma_sel_count_bounds(n, empty_sel(start.cells@, l), j);
            assert forall|k2: int| 0 <= k2 < n && #[trigger] filled_sel(start.cells@, l)(k2) implies
                digit_at(b0, l[k2]) == digit_at(b1, l[k2]) by {
                let p = l[k2];
                assert(cell_in_board(p));
                assert(k2 != j);
                assert(p != l[j]);
                assert(9 * p.0 + p.1 != k);
            }
            lemma_sel_board(b0, b1, l, n, filled_sel(start.cells@, l));
            lemma_sel_one(b1, l, n, filled_sel(start.cells@, l), filled_sel(now.cells@, l), j);
            assert(digit_at(b1, l[j]) == d);
            crate::digits::lemma_shift_cast(1u16, d);
        } else {
            assert forall|k2: int| 0 <= k2 < n implies
                #[trigger] empty_sel(now.cells@, l)(k2) == empty_sel(start.cells@, l)(k2)
                && filled_sel(now.cells@, l)(k2) == filled_sel(start.cells@, l)(k2)
                && digit_at(b0, l[k2]) == digit_at(b1, l[k2]) by {
                let p = l[k2];
                assert(cell_in_board(p));
                assert(info.owner_at(p) == cj);
                assert(9 * p.0 + p.1 != k);
            }
            lemma_sel_same(Seq::empty(), l, n, empty_sel(now.cells@, l), empty_sel(start.cells@, l));
            lemma_sel_same(b1, l, n, filled_sel(now.cells@, l), filled_sel(start.cells@, l));
            lemma_sel_board(b0, b1, l, n, filled_sel(start.cells@, l));
        }
    }
}


/// Cells of `list` already filled, at board positions before `p`.
spec fn done_sel(cells: Seq<u8>, list: Seq<(usize, usize)>, p: int) -> spec_fn(int) -> bool {
    |k: int| val(cells, list[k]) != 0 && 9 * list[k].0 + list[k].1 < p
}

/// The cage states account for the filled cells before board position `p`.
spec fn cages_progress(cs: Seq<RaterCageState>, cells: Seq<u8>, info: &RaterCageInfo, p: int) -> bool {
    &&& cs.len() == info.n()
    &&& forall|ci: int| 0 <= ci < info.n() ==> #[trigger] cs[ci].remaining
        == info.cage(ci).len() - sel_count(info.cage(ci).len() as int, done_sel(cells, info.cage(ci), p))
    &&& forall|ci: int| 0 <= ci < info.n() ==> #[trigger] cs[ci].placed_sum + 9 * cs[ci].remaining <= 9 * info.cage(ci).len()
    &&& forall|ci: int| 0 <= ci < info.n() ==> #[trigger] cs[ci].placed_mask
        == sel_mask(board_of(cells), info.cage(ci), info.cage(ci).len() as int, done_sel(cells, info.cage(ci), p))
    &&& forall|ci: int| 0 <= ci < info.n() ==> #[trigger] cs[ci].placed_sum
        == sel_sum(board_of(cells), info.cage(ci), info.cage(ci).len() as int, done_sel(cells, info.cage(ci), p))
}

/// Accounting for the cell at board position `p` moves the progress on by one.
proof fn lemma_progress_step(cs0: Seq<RaterCageState>, cs1: Seq<RaterCageState>, cells: Seq<u8>, info: &RaterCageInfo, r: int, c: int)
    requires
        info.shaped(),
        in_board(r, c),
        cells.len() == 81,
        cages_progress(cs0, cells, info, 9 * r + c),
        cells[9 * r + c] == 0 ==> cs1 == cs0,
        cells[9 * r + c] != 0 ==> cells[9 * r + c] <= 9 && ({
            let ci = info.owner_of(r, c);
            let st = cs0[ci];
            &&& st.remaining >= 1
            &&& st.placed_sum + 9 <= 729
            &&& cs1 == cs0.update(ci, RaterCageState {
                placed_mask: st.placed_mask | (1u16 << cells[9 * r + c]),
                placed_sum: (st.placed_sum + cells[9 * r + c]) as u16,
                remaining: (st.remaining - 1) as u8,
            })
        }),
    ensures
        cages_progress(cs1, cells, info, 9 * r + c + 1),
{
    let p = 9 * r + c;
    let ci0 = info.owner_of(r, c);
    let list0 = info.cage(ci0);
    assert(list0.contains((r as usize, c as usize)));
    let j = choose|j: int| 0 <= j < list0.len() && list0[j] == (r as usize, c as usize);
    let b = board_of(cells);
    assert forall|ci: int| #![trigger cs1[ci]] 0 <= ci < info.n() implies cs1[ci].remaining
        == info.cage(ci).len() - sel_count(info.cage(ci).len() as int, done_sel(cells, info.cage(ci), p + 1))
        && cs1[ci].placed_sum + 9 * cs1[ci].remaining <= 9 * info.cage(ci).len()
        && cs1[ci].placed_mask == sel_mask(b, info.cage(ci), info.cage(ci).len() as int, done_sel(cells, info.cage(ci), p + 1))
        && cs1[ci].placed_sum == sel_sum(b, info.cage(ci), info.cage(ci).len() as int, done_sel(cells, info.cage(ci), p + 1)) by {
        let l = info.cage(ci);
        let n = l.len() as int;
        assert(cs0[ci].remaining == n - sel_count(n, done_sel(cells, l, p)));
        assert(cs0[ci].placed_sum + 9 * cs0[ci].remaining <= 9 * n);
        assert(cs0[ci].placed_mask == sel_mask(b, l, n, done_sel(cells, l, p)));
        assert(cs0[ci].placed_sum == sel_sum(b, l, n, done_sel(cells, l, p)));
        if cells[p] != 0 && ci == ci0 {
            assert forall|k2: int| 0 <= k2 < n && k2 != j implies
                #[trigger] done_sel(cells, l, p)(k2) == done_sel(cells, l, p + 1)(k2) by {
                let q = l[k2];
                assert(cell_in_board(q));
                assert(q != l[j]);
                assert(9 * q.0 + q.1 != p);
            }
            lemma_sel_one(b, l, n, done_sel(cells, l, p), done_sel(cells, l, p + 1), j);
            assert(digit_at(b, l[j]) == cells[p]);
            crate::digits::lemma_shift_cast(1u16, cells[p]);
        } else {
            assert forall|k2: int| 0 <= k2 < n implies
                #[trigger] done_sel(cells, l, p)(k2) == done_sel(cells, l, p + 1)(k2) by {
                let q = l[k2];
                assert(cell_in_board(q));
                if 9 * q.0 + q.1 == p {
                    assert(q.0 == r && q.1 == c);
                    if cells[p] != 0 {
                        assert(info.owner_at(q) == ci);
                    }
                }
            }
            lemma_sel_same(b, l, n, done_sel(cells, l, p), done_sel(cells, l, p + 1));
            if cells[p] != 0 {
                assert(cs1[ci] == cs0[ci]);
            }
        }
    }
}

/// Once every cell is accounted for, the progress is the cage state invariant.
proof fn lemma_progress_done(cs: Seq<RaterCageState>, cells: Seq<u8>, info: &RaterCageInfo)
    requires
        info.shaped(),
        cells.len() == 81,
        cages_progress(cs, cells, info, 81),
    ensures
        forall|ci: int| 0 <= ci < info.n() ==> #[trigger] cage_state_ok(cs[ci], cells, info.cage(ci)),
{
    assert forall|ci: int| 0 <= ci < info.n() implies #[trigger] cage_state_ok(cs[ci], cells, info.cage(ci)) by {
        let l = info.cage(ci);
        let n = l.len() as int;
        assert(cs[ci].remaining == n - sel_count(n, done_sel(cells, l, 81)));
        assert forall|k: int| 0 <= k < n implies #[trigger] done_sel(cells, l, 81)(k) != empty_sel(cells, l)(k) by {
            assert(cell_in_board(l[k]));
        }
        crate::killer::lemma_sel_split(Seq::empty(), l, n, done_sel(cells, l, 81), empty_sel(cells, l));
        crate::killer::lemma_sel_all_sum(Seq::empty(), l, n);
        assert(l.subrange(0, n) =~= l);
        assert forall|k: int| 0 <= k < n implies #[trigger] done_sel(cells, l, 81)(k) == filled_sel(cells, l)(k) by {
            assert(cell_in_board(l[k]));
        }
        lemma_sel_same(board_of(cells), l, n, done_sel(cells, l, 81), filled_sel(cells, l));
    }
}

impl RaterState {
    fn from_grid(grid: &Grid) -> (state: RaterState)
        requires
            digits_in_range(grid@),
        ensures
            state.base_wf(),
            state.cage_states is None,
            forall|k: int| 0 <= k < 81 ==> #[trigger] state.cells@[k] == grid@[k / 9][k % 9],
            forall|s: Seq<Seq<u8>>| crate::rules::is_solution_of(grid@, s) ==> state.consistent(s),
    {
        let mut state = RaterState { cells: [0u8; 81], candidates: [ALL_DIGITS; 81], empty_count: 0, cage_states: None };
        let ghost g = grid@;
        // Count empties and copy filled cells
        let mut r: usize = 0;
        while r < 9
            invariant
                r <= 9,
                g == grid@,
                digits_in_range(g),
                state.cage_states is None,
                state.empty_count == count_empty(state.cells@, 9 * r),
                state.empty_count <= 9 * r,
                forall|k: int| 0 <= k < 9 * r ==> #[trigger] state.cells@[k] == g[k / 9][k % 9],
                forall|k: int| 0 <= k < 9 * r ==> #[trigger] state.candidates@[k] == (if g[k / 9][k % 9] == 0 { ALL_DIGITS } else { 0u16 }),
                forall|k: int| 9 * r <= k < 81 ==> #[trigger] state.cells@[k] == 0,
                forall|k: int| 9 * r <= k < 81 ==> #[trigger] state.candidates@[k] == ALL_DIGITS,
            decreases 9 - r,
        {
            let mut c: usize = 0;
            while c < 9
                invariant
                    r < 9,
                    c <= 9,
                    g == grid@,
                    digits_in_range(g),
                    state.cage_states is None,
                    state.empty_count == count_empty(state.cells@, 9 * r + c),
                    state.empty_count <= 9 * r + c,
                    forall|k: int| 0 <= k < 9 * r + c ==> #[trigger] state.cells@[k] == g[k / 9][k % 9],
                    forall|k: int| 0 <= k < 9 * r + c ==> #[trigger] state.candidates@[k] == (if g[k / 9][k % 9] == 0 { ALL_DIGITS } else { 0u16 }),
                    forall|k: int| 9 * r + c <= k < 81 ==> #[trigger] state.cells@[k] == 0,
                    forall|k: int| 9 * r + c <= k < 81 ==> #[trigger] state.candidates@[k] == ALL_DIGITS,
                decreases 9 - c,
            {
                let v = grid.get(r, c);
                let ghost k0 = 9 * r + c;
                let ghost before = state.cells@;
                let ghost before_c = state.candidates@;
                assert(k0 / 9 == r && k0 % 9 == c);
                if v == 0 {
                    state.empty_count += 1;
                } else {
                    state.cells[r * 9 + c] = v;
                    state.candidates[r * 9 + c] = 0;
                    proof {
                        lemma_count_empty_update(before, k0, v, k0);
                    }
                }
                proof {
                    assert(before[k0] == 0);
                    assert forall|k: int| 0 <= k < k0 + 1 implies #[trigger] state.cells@[k] == g[k / 9][k % 9] by {
                        if k < k0 {
                            assert(before[k] == g[k / 9][k % 9]);
                        }
                    }
                    assert forall|k: int| 0 <= k < k0 + 1 implies #[trigger] state.candidates@[k] == (if g[k / 9][k % 9] == 0 { ALL_DIGITS } else { 0u16 }) by {
                        if k < k0 {
                            assert(before_c[k] == (if g[k / 9][k % 9] == 0 { ALL_DIGITS } else { 0u16 }));
                        }
                    }
                    assert forall|k: int| k0 + 1 <= k < 81 implies #[trigger] state.cells@[k] == 0 by {
                        assert(before[k] == 0);
                    }
                    assert forall|k: int| k0 + 1 <= k < 81 implies #[trigger] state.candidates@[k] == ALL_DIGITS by {
                        assert(before_c[k] == ALL_DIGITS);
                    }
                    assert(state.cells@[k0] == v);
                    assert(count_empty(state.cells@, k0 + 1) == count_empty(state.cells@, k0) + if v == 0 { 1nat } else { 0nat });
                }
                c += 1;
            }
            r += 1;
        }
        let ghost cells0 = state.cells@;
        proof {
            assert forall|k: int| 0 <= k < 81 implies #[trigger] cells0[k] == g[k / 9][k % 9] by {
                assert(state.cells@[k] == g[k / 9][k % 9]);
            }
            assert forall|k: int| 0 <= k < 81 implies #[trigger] state.cells@[k] <= 9 && (state.cells@[k] != 0 ==> state.candidates@[k] == 0)
                && only_digits(state.candidates@[k]) by {
                assert(in_board(k / 9, k % 9));
                assert(g[k / 9][k % 9] <= 9);
                assert(state.candidates@[k] == (if g[k / 9][k % 9] == 0 { ALL_DIGITS } else { 0u16 }));
                lemma_all_digits(0);
            }
            assert forall|k: int| 0 <= k < 81 implies only_digits(#[trigger] state.candidates@[k]) by {
                assert(state.cells@[k] <= 9);
            }
            assert forall|k: int| 0 <= k < 81 && #[trigger] state.cells@[k] != 0 implies state.candidates@[k] == 0 by {
                assert(state.cells@[k] <= 9);
            }
            assert forall|s: Seq<Seq<u8>>| crate::rules::is_solution_of(g, s) implies state.consistent(s) by {
                assert forall|r2: int, c2: int| in_board(r2, c2) implies #[trigger] state.cell_ok(s, r2, c2) by {
                    let k = 9 * r2 + c2;
                    assert(k / 9 == r2 && k % 9 == c2);
                    assert(state.cells@[k] == g[r2][c2]);
                    assert(state.candidates@[k] == (if g[k / 9][k % 9] == 0 { ALL_DIGITS } else { 0u16 }));
                    assert(1 <= s[r2][c2] <= 9);
                    lemma_all_digits(s[r2][c2]);
                }
            }
        }
        // Strip candidates from peers of filled cells (no cascading)
        let mut r: usize = 0;
        while r < 9
            invariant
                r <= 9,
                g == grid@,
                digits_in_range(g),
                state.base_wf(),
                state.cage_states is None,
                forall|k: int| 0 <= k < 81 ==> #[trigger] state.cells@[k] == g[k / 9][k % 9],
                forall|s: Seq<Seq<u8>>| crate::rules::is_solution_of(g, s) ==> state.consistent(s),
            decreases 9 - r,
        {
            let mut c: usize = 0;
            while c < 9
                invariant
                    r < 9,
                    c <= 9,
                    g == grid@,
                    digits_in_range(g),
                    state.base_wf(),
                    state.cage_states is None,
                    forall|k: int| 0 <= k < 81 ==> #[trigger] state.cells@[k] == g[k / 9][k % 9],
                    forall|s: Seq<Seq<u8>>| crate::rules::is_solution_of(g, s) ==> state.consistent(s),
                decreases 9 - c,
            {
                let v = grid.get(r, c);
                if v != 0 {
                    proof {
                        assert(in_board(r as int, c as int));
                    }
                    state.strip_from_peers(r, c, v);
                    proof {
                        assert forall|s: Seq<Seq<u8>>| crate::rules::is_solution_of(g, s) implies s[r as int][c as int] == v by {
                            assert(in_board(r as int, c as int));
                        }
                    }
                }
                c += 1;
            }
            r += 1;
        }
        state
    }

    fn from_grid_with_cages(grid: &Grid, info: &RaterCageInfo) -> (state: RaterState)
        requires
            digits_in_range(grid@),
            info.shaped(),
        ensures
            state.base_wf(),
            state.cage_wf(Some(info)),
            forall|k: int| 0 <= k < 81 ==> #[trigger] state.cells@[k] == grid@[k / 9][k % 9],
            forall|s: Seq<Seq<u8>>| crate::rules::is_solution_of(grid@, s) && rsol(Some(info), s) ==> state.consistent(s),
    {
        let mut cage_states: Vec<RaterCageState> = Vec::new();
        let mut i: usize = 0;
        while i < info.num_cages()
            invariant
                i <= info.n(),
                info.shaped(),
                cage_states@.len() == i,
                forall|ci: int| 0 <= ci < i ==> #[trigger] cage_states@[ci] == (RaterCageState {
                    placed_mask: 0, placed_sum: 0, remaining: info.cage(ci).len() as u8 }),
            decreases info.n() - i,
        {
            proof {
                assert(info.cage(i as int).len() <= 81);
            }
            cage_states.push(RaterCageState { placed_mask: 0, placed_sum: 0, remaining: info.cells[i].len() as u8 });
            i += 1;
        }
        let ghost cs0 = cage_states@;
        let mut state = RaterState { cells: [0u8; 81], candidates: [ALL_DIGITS; 81], empty_count: 0, cage_states: Some(cage_states) };
        let ghost g = grid@;
        // Count empties and copy filled cells
        let mut r: usize = 0;
        while r < 9
            invariant
                r <= 9,
                g == grid@,
                digits_in_range(g),
                state.cage_states matches Some(cs) && cs@ == cs0,
                state.empty_count == count_empty(state.cells@, 9 * r),
                state.empty_count <= 9 * r,
                forall|k: int| 0 <= k < 9 * r ==> #[trigger] state.cells@[k] == g[k / 9][k % 9],
                forall|k: int| 0 <= k < 9 * r ==> #[trigger] state.candidates@[k] == (if g[k / 9][k % 9] == 0 { ALL_DIGITS } else { 0u16 }),
                forall|k: int| 9 * r <= k < 81 ==> #[trigger] state.cells@[k] == 0,
                forall|k: int| 9 * r <= k < 81 ==> #[trigger] state.candidates@[k] == ALL_DIGITS,
            decreases 9 - r,
        {
            let mut c: usize = 0;
            while c < 9
                invariant
                    r < 9,
                    c <= 9,
                    g == grid@,
                    digits_in_range(g),
                    state.cage_states matches Some(cs) && cs@ == cs0,
                    state.empty_count == count_empty(state.cells@, 9 * r + c),
                    state.empty_count <= 9 * r + c,
                    forall|k: int| 0 <= k < 9 * r + c ==> #[trigger] state.cells@[k] == g[k / 9][k % 9],
                    forall|k: int| 0 <= k < 9 * r + c ==> #[trigger] state.candidates@[k] == (if g[k / 9][k % 9] == 0 { ALL_DIGITS } else { 0u16 }),
                    forall|k: int| 9 * r + c <= k < 81 ==> #[trigger] state.cells@[k] == 0,
                    forall|k: int| 9 * r + c <= k < 81 ==> #[trigger] state.candidates@[k] == ALL_DIGITS,
                decreases 9 - c,
            {
                let v = grid.get(r, c);
                let ghost k0 = 9 * r + c;
                let ghost before = state.cells@;
                let ghost before_c = state.candidates@;
                assert(k0 / 9 == r && k0 % 9 == c);
                if v == 0 {
                    state.empty_count += 1;
                } else {
                    state.cells[r * 9 + c] = v;
                    state.candidates[r * 9 + c] = 0;
                    proof {
                        lemma_count_empty_update(before, k0, v, k0);
                    }
                }
                proof {
                    assert(before[k0] == 0);
                    assert forall|k: int| 0 <= k < k0 + 1 implies #[trigger] state.cells@[k] == g[k / 9][k % 9] by {
                        if k < k0 {
                            assert(before[k] == g[k / 9][k % 9]);
                        }
                    }
                    assert forall|k: int| 0 <= k < k0 + 1 implies #[trigger] state.candidates@[k] == (if g[k / 9][k % 9] == 0 { ALL_DIGITS } else { 0u16 }) by {
                        if k < k0 {
                            assert(before_c[k] == (if g[k / 9][k % 9] == 0 { ALL_DIGITS } else { 0u16 }));
                        }
                    }
                    assert forall|k: int| k0 + 1 <= k < 81 implies #[trigger] state.cells@[k] == 0 by {
                        assert(before[k] == 0);
                    }
                    assert forall|k: int| k0 + 1 <= k < 81 implies #[trigger] state.candidates@[k] == ALL_DIGITS by {
                        assert(before_c[k] == ALL_DIGITS);
                    }
                    assert(state.cells@[k0] == v);
                    assert(count_empty(state.cells@, k0 + 1) == count_empty(state.cells@, k0) + if v == 0 { 1nat } else { 0nat });
                }
                c += 1;
            }
            r += 1;
        }
        let ghost cells0 = state.cells@;
        proof {
            assert forall|k: int| 0 <= k < 81 implies #[trigger] cells0[k] == g[k / 9][k % 9] by {
                assert(state.cells@[k] == g[k / 9][k % 9]);
            }
            assert forall|k: int| 0 <= k < 81 implies #[trigger] state.cells@[k] <= 9 && (state.cells@[k] != 0 ==> state.candidates@[k] == 0)
                && only_digits(state.candidates@[k]) by {
                assert(in_board(k / 9, k % 9));
                assert(g[k / 9][k % 9] <= 9);
                assert(state.candidates@[k] == (if g[k / 9][k % 9] == 0 { ALL_DIGITS } else { 0u16 }));
                lemma_all_digits(0);
            }
            assert forall|k: int| 0 <= k < 81 implies only_digits(#[trigger] state.candidates@[k]) by {
                assert(state.cells@[k] <= 9);
            }
            assert forall|k: int| 0 <= k < 81 && #[trigger] state.cells@[k] != 0 implies state.candidates@[k] == 0 by {
                assert(state.cells@[k] <= 9);
            }
            assert forall|s: Seq<Seq<u8>>| crate::rules::is_solution_of(g, s) implies state.consistent(s) by {
                assert forall|r2: int, c2: int| in_board(r2, c2) implies #[trigger] state.cell_ok(s, r2, c2) by {
                    let k = 9 * r2 + c2;
                    assert(k / 9 == r2 && k % 9 == c2);
                    assert(state.cells@[k] == g[r2][c2]);
                    assert(state.candidates@[k] == (if g[k / 9][k % 9] == 0 { ALL_DIGITS } else { 0u16 }));
                    assert(1 <= s[r2][c2] <= 9);
                    lemma_all_digits(s[r2][c2]);
                }
            }
        }
        let ghost cells0 = state.cells@;

        // Initial cage candidate pruning
        let mut ci: usize = 0;
        while ci < info.num_cages()
            invariant
                ci <= info.n(),
                info.shaped(),
                state.base_wf(),
                state.cells@ == cells0,
                state.cage_states matches Some(cs) && cs@ == cs0,
                forall|k: int| 0 <= k < 81 ==> #[trigger] cells0[k] == g[k / 9][k % 9],
                forall|s: Seq<Seq<u8>>| (crate::rules::is_solution_of(g, s) && rsol(Some(info), s)) ==> state.consistent(s),
            decreases info.n() - ci,
        {
            match &info.combos[ci] {
                Some(combos) => {
                    let mut valid_digits: u16 = 0;
                    let mut j: usize = 0;
                    while j < combos.len()
                        invariant
                            j <= combos@.len(),
                            forall|j2: int, x: int| 0 <= j2 < j && #[trigger] bit_set(combos@[j2], x) ==> bit_set(valid_digits, x),
                        decreases combos@.len() - j,
                    {
                        let ghost prev = valid_digits;
                        valid_digits |= combos[j];
                        proof {
                            assert forall|j2: int, x: int| 0 <= j2 < j + 1 && #[trigger] bit_set(combos@[j2], x) implies bit_set(valid_digits, x) by {
                                lemma_mask_ops(prev, combos@[j as int], x);
                            }
                        }
                        j += 1;
                    }
                    let ghost list = info.cage(ci as int);
                    proof {
                        // Every solution's digit on the cage is in some listed combination.
                        assert forall|s: Seq<Seq<u8>>| (crate::rules::is_solution_of(g, s) && rsol(Some(info), s)) implies
                            forall|k: int| 0 <= k < list.len() ==> #[trigger] bit_set(valid_digits, digit_at(s, list[k]) as int) by {
                            lemma_rater_cage_combo(info, s, ci as int);
                            let dm = sel_mask(s, list, list.len() as int, all_sel());
                            let jj = choose|jj: int| 0 <= jj < combos@.len() && combos@[jj] == dm;
                            assert forall|k: int| 0 <= k < list.len() implies #[trigger] bit_set(valid_digits, digit_at(s, list[k]) as int) by {
                                assert(bit_set(dm, digit_at(s, list[k]) as int));
                                assert(bit_set(combos@[jj], digit_at(s, list[k]) as int));
                            }
                        }
                    }
                    let cage = &info.cells[ci];
                    let mut i: usize = 0;
                    while i < cage.len()
                        invariant
                            i <= cage@.len(),
                            cage@ == info.cage(ci as int),
                            ci < info.n(),
                            info.shaped(),
                            state.base_wf(),
                            state.cells@ == cells0,
                            state.cage_states matches Some(cs) && cs@ == cs0,
                            list == info.cage(ci as int),
                            forall|s: Seq<Seq<u8>>| (crate::rules::is_solution_of(g, s) && rsol(Some(info), s)) ==> state.consistent(s),
                            forall|s: Seq<Seq<u8>>| (crate::rules::is_solution_of(g, s) && rsol(Some(info), s)) ==>
                                forall|k: int| 0 <= k < list.len() ==> #[trigger] bit_set(valid_digits, digit_at(s, list[k]) as int),
                        decreases cage@.len() - i,
                    {
                        let (r, c) = cage[i];
                        proof {
                            assert(cell_in_board(cage@[i as int]));
                        }
                        if state.cells[r * 9 + c] == 0 {
                            let ghost s0 = state;
                            let x = state.candidates[r * 9 + c];
                            proof {
                                lemma_and_sub(x, valid_digits);
                            }
                            state.candidates[r * 9 + c] = x & valid_digits;
                            proof {
                                RaterState::lemma_restrict(&s0, &state, r * 9 + c, x & valid_digits);
                                assert forall|s: Seq<Seq<u8>>| (crate::rules::is_solution_of(g, s) && rsol(Some(info), s)) implies state.consistent(s) by {
                                    assert(s0.consistent(s));
                                    assert(in_board(r as int, c as int));
                                    assert(s0.cell_ok(s, r as int, c as int));
                                    assert(bit_set(valid_digits, digit_at(s, list[i as int]) as int));
                                    crate::killer::lemma_has_bit(valid_digits, s[r as int][c as int]);
                                    lemma_digit_masks(x, valid_digits, s[r as int][c as int]);
                                    lemma_keep_agreeing(&s0, &state, r as int, c as int, x & valid_digits, s);
                                }
                            }
                        }
                        i += 1;
                    }
                },
                None => {},
            }
            ci += 1;
        }
        proof {
            assert(cages_progress(cs0, cells0, info, 0)) by {
                assert forall|cj: int| #![trigger cs0[cj]] 0 <= cj < info.n() implies cs0[cj].remaining
                    == info.cage(cj).len() - sel_count(info.cage(cj).len() as int, done_sel(cells0, info.cage(cj), 0))
                    && cs0[cj].placed_mask == sel_mask(board_of(cells0), info.cage(cj), info.cage(cj).len() as int, done_sel(cells0, info.cage(cj), 0))
                    && cs0[cj].placed_sum == sel_sum(board_of(cells0), info.cage(cj), info.cage(cj).len() as int, done_sel(cells0, info.cage(cj), 0)) by {
                    let l = info.cage(cj);
                    assert forall|k: int| 0 <= k < l.len() implies !#[trigger] done_sel(cells0, l, 0)(k) by {
                        assert(cell_in_board(l[k]));
                    }
                    lemma_sel_none(board_of(cells0), l, l.len() as int, done_sel(cells0, l, 0));
                }
            }
        }

        // Strip candidates from peers of filled cells, and account for them in their cages
        let mut r: usize = 0;
        while r < 9
            invariant
                r <= 9,
                g == grid@,
                digits_in_range(g),
                info.shaped(),
                state.base_wf(),
                state.cells@ == cells0,
                forall|k: int| 0 <= k < 81 ==> #[trigger] cells0[k] == g[k / 9][k % 9],
                state.cage_states matches Some(cs) && cages_progress(cs@, cells0, info, 9 * r),
                forall|s: Seq<Seq<u8>>| (crate::rules::is_solution_of(g, s) && rsol(Some(info), s)) ==> state.consistent(s),
            decreases 9 - r,
        {
            let mut c: usize = 0;
            while c < 9
                invariant
                    r < 9,
                    c <= 9,
                    g == grid@,
                    digits_in_range(g),
                    info.shaped(),
                    state.base_wf(),
                    state.cells@ == cells0,
                    forall|k: int| 0 <= k < 81 ==> #[trigger] cells0[k] == g[k / 9][k % 9],
                    state.cage_states matches Some(cs) && cages_progress(cs@, cells0, info, 9 * r + c),
                    forall|s: Seq<Seq<u8>>| (crate::rules::is_solution_of(g, s) && rsol(Some(info), s)) ==> state.consistent(s),
                decreases 9 - c,
            {
                let v = grid.get(r, c);
                let ghost p = 9 * r + c;
                proof {
                    assert(in_board(r as int, c as int));
                    assert(p / 9 == r && p % 9 == c);
                    assert(cells0[p] == v);
                }
                let ghost csb = state.cage_states.unwrap()@;
                if v != 0 {
                    state.strip_from_peers(r, c, v);
                    proof {
                        assert forall|s: Seq<Seq<u8>>| (crate::rules::is_solution_of(g, s) && rsol(Some(info), s)) implies s[r as int][c as int] == v by {
                            assert(in_board(r as int, c as int));
                        }
                    }
                    let ci = info.cell_cage[r * 9 + c];
                    proof {
                        assert(info.owner_of(r as int, c as int) == ci);
                        let l = info.cage(ci as int);
                        let n = l.len() as int;
                        assert(csb[ci as int].remaining == n - sel_count(n, done_sel(cells0, l, p)));
                        assert(l.contains((r, c)));
                        let j = choose|j: int| 0 <= j < n && l[j] == (r, c);
                        assert(!done_sel(cells0, l, p)(j));
                        lemma_sel_count_not(n, done_sel(cells0, l, p), j);
                        assert(csb[ci as int].placed_sum + 9 * csb[ci as int].remaining <= 9 * n);
                    }
                    let ghost before_cs = state;
                    if let Some(cs) = &mut state.cage_states {
                        let mut st = cs[ci];
                        st.placed_mask |= 1u16 << v;
                        st.placed_sum += v as u16;
                        st.remaining -= 1;
                        cs.set(ci, st);
                    }
                    proof {
                        assert(state.cells == before_cs.cells && state.candidates == before_cs.candidates);
                        assert forall|s: Seq<Seq<u8>>| (crate::rules::is_solution_of(g, s) && rsol(Some(info), s))
                            implies state.consistent(s) by {
                            assert(before_cs.consistent(s));
                            assert forall|r2: int, c2: int| in_board(r2, c2) implies #[trigger] state.cell_ok(s, r2, c2) by {
                                assert(before_cs.cell_ok(s, r2, c2));
                            }
                        }
                    }
                }
                proof {
                    lemma_progress_step(csb, state.cage_states.unwrap()@, cells0, info, r as int, c as int);
                }
                c += 1;
            }
            r += 1;
        }
        proof {
            lemma_progress_done(state.cage_states.unwrap()@, cells0, info);
        }
        state
    }
}

proof fn lemma_sel_none(b: Seq<Seq<u8>>, list: Seq<(usize, usize)>, n: int, sel: spec_fn(int) -> bool)
    requires
        forall|k: int| 0 <= k < n ==> !#[trigger] sel(k),
    ensures
        sel_count(n, sel) == 0,
        sel_mask(b, list, n, sel) == 0,
        sel_sum(b, list, n, sel) == 0,
    decreases n,
{
    if n > 0 {
        lemma_sel_none(b, list, n - 1, sel);
    }
}

/// The board whose cells are those of a row-major cell array.
spec fn board_of(cells: Seq<u8>) -> Seq<Seq<u8>> {
    Seq::new(9, |r: int| Seq::new(9, |c: int| cells[9 * r + c]))
}

/// Two boards that agree on the selected cells give the same digit set and sum.
proof fn lemma_sel_board(b1: Seq<Seq<u8>>, b2: Seq<Seq<u8>>, list: Seq<(usize, usize)>, n: int, sel: spec_fn(int) -> bool)
    requires
        forall|k: int| 0 <= k < n && #[trigger] sel(k) ==> digit_at(b1, list[k]) == digit_at(b2, list[k]),
    ensures
        sel_mask(b1, list, n, sel) == sel_mask(b2, list, n, sel),
        sel_sum(b1, list, n, sel) == sel_sum(b2, list, n, sel),
    decreases n,
{
    if n > 0 {
        lemma_sel_board(b1, b2, list, n - 1, sel);
    }
}

/// A position left out keeps the count below the length.
proof fn lemma_sel_count_not(n: int, sel: spec_fn(int) -> bool, j: int)
    requires
        0 <= j < n,
        !sel(j),
    ensures
        sel_count(n, sel) <= n - 1,
    decreases n,
{
    lemma_sel_count_bounds(n - 1, sel, 0);
    if j < n - 1 {
        lemma_sel_count_not(n - 1, sel, j);
    }
}



/// One more cell shrunk: the state still differs from `start` only in
/// candidates, now by `e` plus the candidates removed.
proof fn lemma_elim_step(start: &RaterState, s0: &RaterState, s1: &RaterState, k: int, v: u16, e: int)
    requires
        s0.elim_from(start, e),
        0 <= k < 81,
        s1.cells == s0.cells,
        s1.empty_count == s0.empty_count,
        s1.cage_states == s0.cage_states,
        s1.candidates@ == s0.candidates@.update(k, v),
        sub_mask(v, s0.candidates@[k]),
    ensures
        s1.elim_from(start, e + popcount(s0.candidates@[k] ^ v)),
        e + popcount(s0.candidates@[k] ^ v) <= start.measure(),
        0 <= popcount(s0.candidates@[k] ^ v) <= 16,
        v != s0.candidates@[k] ==> popcount(s0.candidates@[k] ^ v) >= 1,
{
    RaterState::lemma_restrict(s0, s1, k, v);
    lemma_shrinks_trans(start.candidates@, s0.candidates@, s1.candidates@);
    lemma_bits_total_bounds(s1.candidates@, 81);
}

/// Removing one present digit removes one candidate.
proof fn lemma_one_bit(x: u16, d: u8)
    requires
        d < 16,
        (x >> d) & 1u16 == 1u16,
    ensures
        sub_mask(x & !(1u16 << d), x),
        popcount(x ^ (x & !(1u16 << d))) == 1,
        x & !(1u16 << d) != x,
{
    let y = x & !(1u16 << d);
    lemma_and_sub(x, !(1u16 << d));
    crate::digits::lemma_shift_cast(x, d);
    crate::killer::lemma_clear_bit(x, d as u16, d as u16);
    crate::killer::lemma_clear_weight(x, d as u16, 16);
    lemma_xor_count(x, y, 16);
}

proof fn lemma_elim_refl(s: &RaterState)
    requires
        s.base_wf(),
    ensures
        s.elim_from(s, 0),
        0 <= s.measure() <= 1296,
{
    lemma_shrinks_refl(s.candidates@);
    lemma_bits_total_bounds(s.candidates@, 81);
}

/// Candidates that only shrank, with the same total, did not change.
proof fn lemma_shrinks_equal(a: Seq<u16>, b: Seq<u16>, n: int)
    requires
        shrinks(a, b),
        a.len() == 81,
        b.len() == 81,
        0 <= n <= 81,
        bits_total(b, n) == bits_total(a, n),
    ensures
        forall|k: int| 0 <= k < n ==> #[trigger] b[k] == a[k],
    decreases n,
{
    if n > 0 {
        let (x, y) = (a[n - 1], b[n - 1]);
        assert(sub_mask(y, x));
        lemma_xor_count(x, y, 16);
        lemma_popcount_bound(x ^ y);
        lemma_shrinks_total(a, b, n - 1);
        lemma_shrinks_equal(a, b, n - 1);
        crate::killer::lemma_popcount_zero(x ^ y);
        assert(x ^ y == 0 ==> x == y) by (bit_vector);
    }
}

/// A pass that removed nothing left the state as it was.
proof fn lemma_elim_zero(start: &RaterState, st: &RaterState)
    requires
        st.elim_from(start, 0),
        start.base_wf(),
    ensures
        *st == *start,
{
    lemma_shrinks_equal(start.candidates@, st.candidates@, 81);
    assert(st.candidates =~= start.candidates);
}

proof fn lemma_elim_trans(s0: &RaterState, s1: &RaterState, s2: &RaterState, a: int, b: int)
    requires
        s1.elim_from(s0, a),
        s2.elim_from(s1, b),
    ensures
        s2.elim_from(s0, a + b),
{
    lemma_shrinks_trans(s0.candidates@, s1.candidates@, s2.candidates@);
}

/// The cells of unit `v` (rows 0..9, columns 9..18, boxes 18..27) in order.
spec fn unit_cells(v: int) -> Seq<(usize, usize)> {
    Seq::new(9, |i: int| (unit_row(v, i) as usize, unit_col(v, i) as usize))
}

/// Each entry lists the cells of one row, column or box.
spec fn real_units(units: Seq<Vec<(usize, usize)>>) -> bool {
    forall|u: int| 0 <= u < units.len() ==> #[trigger] is_unit(units[u]@)
}

/// `cells` are the cells of one row, column or box, in order.
spec fn is_unit(cells: Seq<(usize, usize)>) -> bool {
    exists|v: int| 0 <= v < 27 && cells == unit_cells(v)
}

/// The nine rows, each as its cells from left to right.
fn unit_rows() -> (units: Vec<Vec<(usize, usize)>>)
    ensures
        units@.len() == 9,
        forall|u: int| 0 <= u < 9 ==> (#[trigger] units@[u])@.len() == 9,
        forall|u: int, i: int| 0 <= u < 9 && 0 <= i < 9 ==> #[trigger] units@[u]@[i] == (u as usize, i as usize),
    real_units(units@),
{
    let mut units: Vec<Vec<(usize, usize)>> = Vec::new();
    let mut r: usize = 0;
    while r < 9
        invariant
            r <= 9,
            units@.len() == r,
            forall|u: int| 0 <= u < r ==> (#[trigger] units@[u])@.len() == 9,
            forall|u: int, i: int| 0 <= u < r && 0 <= i < 9 ==> #[trigger] units@[u]@[i] == (u as usize, i as usize),
        decreases 9 - r,
    {
        let mut unit: Vec<(usize, usize)> = Vec::new();
        let mut c: usize = 0;
        while c < 9
            invariant
                c <= 9,
                r < 9,
                unit@.len() == c,
                forall|i: int| 0 <= i < c ==> #[trigger] unit@[i] == (r, i as usize),
            decreases 9 - c,
        {
            unit.push((r, c));
            c += 1;
        }
        units.push(unit);
        r += 1;
    }
    proof {
        assert forall|u: int| 0 <= u < units@.len() implies #[trigger] is_unit(units@[u]@) by {
            assert forall|i: int| 0 <= i < 9 implies #[trigger] units@[u]@[i] == unit_cells(0 + u)[i] by {
                assert(0 <= i < 9);
            }
            assert(units@[u]@ =~= unit_cells(0 + u));
            assert(0 <= 0 + u < 27 && units@[u]@ == unit_cells(0 + u));
        }
    }
    units
}

/// The nine columns, each as its cells from top to bottom.
fn unit_cols() -> (units: Vec<Vec<(usize, usize)>>)
    ensures
        units@.len() == 9,
        forall|u: int| 0 <= u < 9 ==> (#[trigger] units@[u])@.len() == 9,
        forall|u: int, i: int| 0 <= u < 9 && 0 <= i < 9 ==> #[trigger] units@[u]@[i] == (i as usize, u as usize),
    real_units(units@),
{
    let mut units: Vec<Vec<(usize, usize)>> = Vec::new();
    let mut c: usize = 0;
    while c < 9
        invariant
            c <= 9,
            units@.len() == c,
            forall|u: int| 0 <= u < c ==> (#[trigger] units@[u])@.len() == 9,
            forall|u: int, i: int| 0 <= u < c && 0 <= i < 9 ==> #[trigger] units@[u]@[i] == (i as usize, u as usize),
        decreases 9 - c,
    {
        let mut unit: Vec<(usize, usize)> = Vec::new();
        let mut r: usize = 0;
        while r < 9
            invariant
                r <= 9,
                c < 9,
                unit@.len() == r,
                forall|i: int| 0 <= i < r ==> #[trigger] unit@[i] == (i as usize, c),
            decreases 9 - r,
        {
            unit.push((r, c));
            r += 1;
        }
        units.push(unit);
        c += 1;
    }
    proof {
        assert forall|u: int| 0 <= u < units@.len() implies #[trigger] is_unit(units@[u]@) by {
            assert forall|i: int| 0 <= i < 9 implies #[trigger] units@[u]@[i] == unit_cells(9 + u)[i] by {
                assert(0 <= i < 9);
            }
            assert(units@[u]@ =~= unit_cells(9 + u));
            assert(0 <= 9 + u < 27 && units@[u]@ == unit_cells(9 + u));
        }
    }
    units
}

/// The nine boxes in reading order, each as its cells in reading order.
fn unit_boxes() -> (units: Vec<Vec<(usize, usize)>>)
    ensures
        units@.len() == 9,
        forall|u: int| 0 <= u < 9 ==> (#[trigger] units@[u])@.len() == 9,
        forall|u: int, i: int| 0 <= u < 9 && 0 <= i < 9 ==> #[trigger] units@[u]@[i]
            == ((3 * (u / 3) + i / 3) as usize, (3 * (u % 3) + i % 3) as usize),
    real_units(units@),
{
    let mut units: Vec<Vec<(usize, usize)>> = Vec::new();
    let mut br: usize = 0;
    while br < 3
        invariant
            br <= 3,
            units@.len() == 3 * br,
            forall|u: int| 0 <= u < 3 * br ==> (#[trigger] units@[u])@.len() == 9,
            forall|u: int, i: int| 0 <= u < 3 * br && 0 <= i < 9 ==> #[trigger] units@[u]@[i]
                == ((3 * (u / 3) + i / 3) as usize, (3 * (u % 3) + i % 3) as usize),
        decreases 3 - br,
    {
        let mut bc: usize = 0;
        while bc < 3
            invariant
                br < 3,
                bc <= 3,
                units@.len() == 3 * br + bc,
                forall|u: int| 0 <= u < 3 * br + bc ==> (#[trigger] units@[u])@.len() == 9,
                forall|u: int, i: int| 0 <= u < 3 * br + bc && 0 <= i < 9 ==> #[trigger] units@[u]@[i]
                    == ((3 * (u / 3) + i / 3) as usize, (3 * (u % 3) + i % 3) as usize),
            decreases 3 - bc,
        {
            let r0 = br * 3;
            let c0 = bc * 3;
            let mut unit: Vec<(usize, usize)> = Vec::new();
            let mut r: usize = r0;
            while r < r0 + 3
                invariant
                    r0 == br * 3,
                    c0 == bc * 3,
                    br < 3,
                    bc < 3,
                    r0 <= r <= r0 + 3,
                    unit@.len() == 3 * (r - r0),
                    forall|i: int| 0 <= i < 3 * (r - r0) ==> #[trigger] unit@[i] == ((r0 + i / 3) as usize, (c0 + i % 3) as usize),
                decreases r0 + 3 - r,
            {
                let mut c: usize = c0;
                while c < c0 + 3
                    invariant
                        r0 == br * 3,
                        c0 == bc * 3,
                        br < 3,
                        bc < 3,
                        r0 <= r < r0 + 3,
                        c0 <= c <= c0 + 3,
                        unit@.len() == 3 * (r - r0) + (c - c0),
                        forall|i: int| 0 <= i < 3 * (r - r0) + (c - c0) ==> #[trigger] unit@[i] == ((r0 + i / 3) as usize, (c0 + i % 3) as usize),
                    decreases c0 + 3 - c,
                {
                    unit.push((r, c));
                    c += 1;
                }
                r += 1;
            }
            let ghost u = 3 * br + bc;
            units.push(unit);
            proof {
                assert(u / 3 == br && u % 3 == bc);
            }
            bc += 1;
        }
        br += 1;
    }
    proof {
        assert forall|u: int| 0 <= u < units@.len() implies #[trigger] is_unit(units@[u]@) by {
            assert forall|i: int| 0 <= i < 9 implies #[trigger] units@[u]@[i] == unit_cells(18 + u)[i] by {
                assert(0 <= i < 9);
            }
            assert(units@[u]@ =~= unit_cells(18 + u));
            assert(0 <= 18 + u < 27 && units@[u]@ == unit_cells(18 + u));
        }
    }
    units
}

/// Every cell of every unit lies on the board.
pub open spec fn units_on_board(units: Seq<Vec<(usize, usize)>>) -> bool {
    forall|u: int, i: int| 0 <= u < units.len() && 0 <= i < units[u]@.len() ==> cell_in_board(#[trigger] units[u]@[i])
}

/// A technique that places digits: `n` placements were made, each into an
/// empty cell, and candidates only shrank.
spec fn placed_from(st: &RaterState, start: &RaterState, cage_info: Option<&RaterCageInfo>, n: int) -> bool {
    &&& st.base_wf()
    &&& st.cage_wf(cage_info)
    &&& n == start.empty_count - st.empty_count
    &&& shrinks(start.candidates@, st.candidates@)
    &&& st.measure() + n <= start.measure()
    &&& 0 <= st.measure()
    &&& forall|s: Seq<Seq<u8>>| rsol(cage_info, s) && start.consistent(s) ==> st.consistent(s)
}

/// `m` holds exactly one digit (a single set bit).
spec fn one_digit(m: u16) -> bool {
    m != 0 && m & ((m - 1) as u16) == 0
}

/// No empty cell of `st` has exactly one candidate.
spec fn no_naked_single(st: &RaterState) -> bool {
    forall|k: int| 0 <= k < 81 && st.cells@[k] == 0 ==> !one_digit(#[trigger] st.candidates@[k])
}

/// Try to find and apply naked singles. Returns number of placements made.
/// Passes over the board repeat until one finds nothing, so no naked single
/// is left; with none to start from, nothing is placed.
fn try_naked_singles(state: &mut RaterState, cage_info: Option<&RaterCageInfo>) -> (count: u32)
    requires
        old(state).base_wf(),
        old(state).cage_wf(cage_info),
    ensures
        placed_from(final(state), old(state), cage_info, count as int),
        no_naked_single(final(state)),
        keeps(old(state).cells@, final(state).cells@),
        count == 0 ==> *final(state) == *old(state),
        no_naked_single(old(state)) ==> count == 0,
{
    let ghost start = *state;
    let mut count: u32 = 0;
    let mut progress = true;
    proof {
        lemma_shrinks_refl(start.candidates@);
        lemma_count_empty_bounds(start.cells@, 81);
        lemma_bits_total_bounds(start.candidates@, 81);
    }
    while progress
        invariant
            placed_from(state, &start, cage_info, count as int),
            keeps(start.cells@, state.cells@),
            count == 0 ==> *state == start,
            no_naked_single(&start) ==> count == 0,
            start.empty_count <= 81,
            !progress ==> no_naked_single(state),
        decreases state.empty_count + if progress { 1int } else { 0int },
    {
        progress = false;
        let ghost pass = *state;
        let mut r: usize = 0;
        while r < 9
            invariant
                r <= 9,
                placed_from(state, &start, cage_info, count as int),
                keeps(start.cells@, state.cells@),
                count == 0 ==> *state == start,
                no_naked_single(&start) ==> count == 0,
                start.empty_count <= 81,
                progress ==> state.empty_count < pass.empty_count,
                !progress ==> state.empty_count == pass.empty_count,
                !progress ==> *state == pass,
                !progress ==> forall|k: int| 0 <= k < 9 * r && state.cells@[k] == 0 ==> !one_digit(#[trigger] state.candidates@[k]),
            decreases 9 - r,
        {
            let mut c: usize = 0;
            while c < 9
                invariant
                    r < 9,
                    c <= 9,
                    placed_from(state, &start, cage_info, count as int),
                    keeps(start.cells@, state.cells@),
                    count == 0 ==> *state == start,
                    no_naked_single(&start) ==> count == 0,
                    start.empty_count <= 81,
                    progress ==> state.empty_count < pass.empty_count,
                    !progress ==> state.empty_count == pass.empty_count,
                    !progress ==> *state == pass,
                    !progress ==> forall|k: int| 0 <= k < 9 * r + c && state.cells@[k] == 0 ==> !one_digit(#[trigger] state.candidates@[k]),
                decreases 9 - c,
            {
                let cands = state.candidates[r * 9 + c];
                if state.cells[r * 9 + c] == 0 && cands != 0 && cands & (cands - 1) == 0 {
                    let d = cands.trailing_zeros() as u8;
                    proof {
                        lemma_lowest_digit(cands);
                        lemma_only_digits(cands, d);
                        lemma_count_empty_bounds(state.cells@, 81);
                        if popcount(cands) == 0 {
                            crate::killer::lemma_popcount_zero(cands);
                        }
                        lemma_popcount_bound(cands);
                    }
                    let ghost s0 = *state;
                    proof {
                        if no_naked_single(&start) {
                            assert(one_digit(state.candidates@[9 * r + c]));
                        }
                        assert forall|s: Seq<Seq<u8>>| rsol(cage_info, s) && s0.consistent(s) implies s[r as int][c as int] == d by {
                            assert(in_board(r as int, c as int));
                            assert(s0.cell_ok(s, r as int, c as int));
                            assert(1 <= s[r as int][c as int] <= 9);
                            lemma_single_digit(cands, d, s[r as int][c as int]);
                        }
                    }
                    state.place(r, c, d, cage_info);
                    proof {
                        lemma_shrinks_trans(start.candidates@, s0.candidates@, state.candidates@);
                        lemma_bits_total_bounds(state.candidates@, 81);
                        lemma_fill_keeps(s0.cells@, 9 * r + c, d);
                        lemma_keeps_trans(start.cells@, s0.cells@, state.cells@);
                    }
                    count += 1;
                    progress = true;
                }
                c += 1;
            }
            r += 1;
        }
    }
    count
}

/// Digit `d` is placed in unit `u`.
spec fn unit_placed(st: &RaterState, u: int, d: u8) -> bool {
    exists|r: int, c: int| in_unit(u, r, c) && #[trigger] st.cells@[9 * r + c] == d
}

/// No cell of unit `u` holds `d` as a candidate.
spec fn unit_lacks(st: &RaterState, u: int, d: u8) -> bool {
    forall|r: int, c: int| in_unit(u, r, c) ==> !has_digit(#[trigger] st.candidates@[9 * r + c], d)
}

/// In unit `u`, digit `d` is placed, or no cell can take it any more.
spec fn settled(st: &RaterState, u: int, d: u8) -> bool {
    unit_placed(st, u, d) || unit_lacks(st, u, d)
}

/// In unit `u`, digit `d` is not placed and exactly one cell holds it as a
/// candidate: a hidden single.
spec fn hidden_single(st: &RaterState, u: int, d: u8) -> bool {
    &&& !unit_placed(st, u, d)
    &&& exists|r: int, c: int| in_unit(u, r, c) && has_digit(#[trigger] st.candidates@[9 * r + c], d)
        && forall|r2: int, c2: int| in_unit(u, r2, c2) && has_digit(#[trigger] st.candidates@[9 * r2 + c2], d)
            ==> r2 == r && c2 == c
}

/// Placed digits stay and candidates only shrink, so what is settled stays settled.
proof fn lemma_settled_kept(a: &RaterState, b: &RaterState)
    requires
        keeps(a.cells@, b.cells@),
        shrinks(a.candidates@, b.candidates@),
    ensures
        forall|u: int, d: u8| 1 <= d <= 9 && #[trigger] settled(a, u, d) ==> settled(b, u, d),
{
    assert forall|u: int, d: u8| 1 <= d <= 9 && #[trigger] settled(a, u, d) implies settled(b, u, d) by {
        if unit_placed(a, u, d) {
            let (r, c) = choose|r: int, c: int| in_unit(u, r, c) && #[trigger] a.cells@[9 * r + c] == d;
            assert(in_board(r, c));
            assert(b.cells@[9 * r + c] == a.cells@[9 * r + c]);
        } else {
            lemma_lacks_kept(a.candidates@, b.candidates@, d);
            assert forall|r: int, c: int| in_unit(u, r, c) implies !has_digit(#[trigger] b.candidates@[9 * r + c], d) by {
                assert(!has_digit(a.candidates@[9 * r + c], d));
            }
        }
    }
}

/// A hidden single of `a` rules out two distinct cells of the unit holding
/// the digit once candidates have only shrunk.
proof fn lemma_hidden_one_cell(a: &RaterState, b: &RaterState, u: int, d: u8, r1: int, c1: int, r2: int, c2: int)
    requires
        shrinks(a.candidates@, b.candidates@),
        hidden_single(a, u, d),
        in_unit(u, r1, c1),
        in_unit(u, r2, c2),
        has_digit(b.candidates@[9 * r1 + c1], d),
        has_digit(b.candidates@[9 * r2 + c2], d),
    ensures
        r1 == r2 && c1 == c2,
{
    assert(sub_mask(b.candidates@[9 * r1 + c1], a.candidates@[9 * r1 + c1]));
    assert(sub_mask(b.candidates@[9 * r2 + c2], a.candidates@[9 * r2 + c2]));
    lemma_sub_mask_digit(b.candidates@[9 * r1 + c1], a.candidates@[9 * r1 + c1], d);
    lemma_sub_mask_digit(b.candidates@[9 * r2 + c2], a.candidates@[9 * r2 + c2], d);
}

/// Setting an empty cell keeps every filled one.
proof fn lemma_fill_keeps(a: Seq<u8>, k: int, d: u8)
    requires
        a.len() == 81,
        0 <= k < 81,
        a[k] == 0,
    ensures
        keeps(a, a.update(k, d)),
{
}

/// No unit has a hidden single for any digit.
spec fn no_hidden_single(st: &RaterState) -> bool {
    forall|u: int, d: u8| 0 <= u < 27 && 1 <= d <= 9 ==> !#[trigger] hidden_single(st, u, d)
}

/// A unit without `d` placed whose only cell holding candidate `d` is
/// (`r`, `c`) has a hidden single.
proof fn lemma_found_hidden(st: &RaterState, u: int, d: u8, bit: u16, r: int, c: int)
    requires
        1 <= d <= 9,
        bit == 1u16 << d,
        forall|r2: int, c2: int| #[trigger] in_unit(u, r2, c2) ==> st.cells@[9 * r2 + c2] != d,
        in_unit(u, r, c),
        st.candidates@[9 * r + c] & bit != 0,
        forall|r2: int, c2: int| in_unit(u, r2, c2) && #[trigger] st.candidates@[9 * r2 + c2] & bit != 0
            ==> r2 == r && c2 == c,
    ensures
        hidden_single(st, u, d),
{
    assert(!unit_placed(st, u, d));
    lemma_bit_test(st.candidates@[9 * r + c], d);
    assert forall|r2: int, c2: int| in_unit(u, r2, c2) && has_digit(#[trigger] st.candidates@[9 * r2 + c2], d)
        implies r2 == r && c2 == c by {
        lemma_bit_test(st.candidates@[9 * r2 + c2], d);
    }
}

/// Try to find and apply hidden singles. Returns number of placements made.
/// Each row, column and box is checked once for each digit: every hidden
/// single of the starting state ends up placed, unless its unit lost the
/// digit altogether; with no hidden single to start from, nothing is placed.
fn try_hidden_singles(state: &mut RaterState, cage_info: Option<&RaterCageInfo>) -> (count: u32)
    requires
        old(state).base_wf(),
        old(state).cage_wf(cage_info),
    ensures
        placed_from(final(state), old(state), cage_info, count as int),
        forall|u: int, d: u8| 0 <= u < 27 && 1 <= d <= 9 && #[trigger] hidden_single(old(state), u, d)
            ==> settled(final(state), u, d),
        keeps(old(state).cells@, final(state).cells@),
        count == 0 ==> *final(state) == *old(state),
        no_hidden_single(old(state)) ==> count == 0,
{
    let ghost start = *state;
    let mut count: u32 = 0;
    proof {
        lemma_shrinks_refl(start.candidates@);
        lemma_count_empty_bounds(start.cells@, 81);
        lemma_bits_total_bounds(start.candidates@, 81);
    }

    // Check rows
    let mut r: usize = 0;
    while r < 9
        invariant
            r <= 9,
            placed_from(state, &start, cage_info, count as int),
            start.empty_count <= 81,
            keeps(start.cells@, state.cells@),
            count == 0 ==> *state == start,
            no_hidden_single(&start) ==> count == 0,
            forall|u: int, d2: u8| 0 <= u < r && 1 <= d2 <= 9 && #[trigger] hidden_single(&start, u, d2)
                ==> settled(state, u, d2),
        decreases 9 - r,
    {
        let mut d: u8 = 1;
        while d <= 9
            invariant
                r < 9,
                1 <= d <= 10,
                placed_from(state, &start, cage_info, count as int),
                start.empty_count <= 81,
                keeps(start.cells@, state.cells@),
                count == 0 ==> *state == start,
                no_hidden_single(&start) ==> count == 0,
                forall|u: int, d2: u8| ((0 <= u < r && 1 <= d2 <= 9) || (u == r && 1 <= d2 < d))
                    && #[trigger] hidden_single(&start, u, d2) ==> settled(state, u, d2),
            decreases 10 - d,
        {
            let bit = 1u16 << d;
            // Skip if already placed in row
            let mut placed = false;
            let mut c: usize = 0;
            while c < 9
                invariant
                    c <= 9,
                    r < 9,
                    !placed ==> forall|c2: int| 0 <= c2 < c ==> #[trigger] state.cells@[9 * r + c2] != d,
                    placed ==> unit_placed(state, r as int, d),
                decreases 9 - c,
            {
                if state.cells[r * 9 + c] == d {
                    proof {
                        assert(in_unit(r as int, r as int, c as int));
                        assert(state.cells@[9 * r + c] == d);
                    }
                    placed = true;
                }
                c += 1;
            }
            if !placed {
                let mut positions: Vec<usize> = Vec::new();
                let mut c: usize = 0;
                while c < 9
                    invariant
                        c <= 9,
                        r < 9,
                        1 <= d <= 9,
                        bit == 1u16 << d,
                        state.base_wf(),
                        forall|i: int| 0 <= i < positions@.len() ==> #[trigger] positions@[i] < 9
                            && state.candidates@[9 * r + positions@[i]] & bit != 0,
                        forall|c2: int| 0 <= c2 < c && state.candidates@[9 * r + c2] & bit != 0
                            ==> #[trigger] positions@.contains(c2 as usize),
                        forall|i: int| 0 <= i < positions@.len() ==> positions@[i] < c,
                        forall|i: int, j: int| 0 <= i < j < positions@.len() ==> positions@[i] < positions@[j],
                    decreases 9 - c,
                {
                    let ghost before = positions@;
                    if state.candidates[r * 9 + c] & bit != 0 {
                        positions.push(c);
                    }
                    proof {
                        assert forall|c2: int| 0 <= c2 < c + 1 && state.candidates@[9 * r + c2] & bit != 0
                            implies #[trigger] positions@.contains(c2 as usize) by {
                            if c2 < c {
                                assert(before.contains(c2 as usize));
                                let j = choose|j: int| 0 <= j < before.len() && before[j] == c2 as usize;
                                assert(positions@[j] == before[j]);
                            } else {
                                assert(positions@[before.len() as int] == c);
                            }
                        }
                    }
                    c += 1;
                }
                if positions.len() == 1 {
                    let c = positions[0];
                    proof {
                        if no_hidden_single(&start) {
                            assert(*state == start);
                            assert forall|r2: int, c2: int| in_unit(r as int, r2, c2) && #[trigger] state.candidates@[9 * r2 + c2] & bit != 0
                                implies r2 == r && c2 == c by {
                                assert(positions@.contains(c2 as usize));
                            }
                            assert(in_unit(r as int, r as int, c as int));
                            lemma_found_hidden(state, r as int, d, bit, r as int, c as int);
                            assert(!hidden_single(&start, r as int, d));
                        }
                        hidden_single_facts(state, r as int, c as int, d, bit);
                        assert forall|s: Seq<Seq<u8>>| rsol(cage_info, s) && state.consistent(s) implies s[r as int][c as int] == d by {
                            lemma_unit_has_digit(s, r as int, d as int);
                            let i = choose|i: int| 0 <= i < 9 && #[trigger] s[unit_row(r as int, i)][unit_col(r as int, i)] == d;
                            assert(in_board(r as int, i));
                            assert(state.cell_ok(s, r as int, i));
                            assert(state.cells@[9 * r + i] != d);
                            lemma_bit_test(state.candidates@[9 * r + i], d);
                            assert(positions@.contains(i as usize));
                        }
                    }
                    let ghost s0 = *state;
                    state.place(r, c, d, cage_info);
                    proof {
                        lemma_shrinks_trans(start.candidates@, s0.candidates@, state.candidates@);
                        lemma_bits_total_bounds(state.candidates@, 81);
                        lemma_fill_keeps(s0.cells@, 9 * r + c, d);
                        lemma_keeps_trans(start.cells@, s0.cells@, state.cells@);
                        lemma_settled_kept(&s0, &*state);
                        assert(in_unit(r as int, r as int, c as int));
                        assert(state.cells@[9 * r + c] == d);
                        assert(settled(state, r as int, d));
                    }
                    count += 1;
                } else {
                    proof {
                        if hidden_single(&start, r as int, d) {
                            if positions@.len() >= 2 {
                                let p0 = positions@[0] as int;
                                let p1 = positions@[1] as int;
                                lemma_bit_test(state.candidates@[9 * r + p0], d);
                                lemma_bit_test(state.candidates@[9 * r + p1], d);
                                assert(in_unit(r as int, r as int, p0));
                                assert(in_unit(r as int, r as int, p1));
                                lemma_hidden_one_cell(&start, &*state, r as int, d, r as int, p0, r as int, p1);
                            }
                            assert forall|r2: int, c2: int| in_unit(r as int, r2, c2)
                                implies !has_digit(#[trigger] state.candidates@[9 * r2 + c2], d) by {
                                lemma_bit_test(state.candidates@[9 * r2 + c2], d);
                                if has_digit(state.candidates@[9 * r2 + c2], d) {
                                    assert(positions@.contains(c2 as usize));
                                }
                            }
                            assert(settled(state, r as int, d));
                        }
                    }
                }
            } else {
                proof {
                    assert(settled(state, r as int, d));
                }
            }
            d += 1;
        }
        r += 1;
    }

    // Check columns
    let mut c: usize = 0;
    while c < 9
        invariant
            c <= 9,
            placed_from(state, &start, cage_info, count as int),
            start.empty_count <= 81,
            keeps(start.cells@, state.cells@),
            count == 0 ==> *state == start,
            no_hidden_single(&start) ==> count == 0,
            forall|u: int, d2: u8| 0 <= u < 9 + c && 1 <= d2 <= 9 && #[trigger] hidden_single(&start, u, d2)
                ==> settled(state, u, d2),
        decreases 9 - c,
    {
        let mut d: u8 = 1;
        while d <= 9
            invariant
                c < 9,
                1 <= d <= 10,
                placed_from(state, &start, cage_info, count as int),
                start.empty_count <= 81,
                keeps(start.cells@, state.cells@),
                count == 0 ==> *state == start,
                no_hidden_single(&start) ==> count == 0,
                forall|u: int, d2: u8| ((0 <= u < 9 + c && 1 <= d2 <= 9) || (u == 9 + c && 1 <= d2 < d))
                    && #[trigger] hidden_single(&start, u, d2) ==> settled(state, u, d2),
            decreases 10 - d,
        {
            let bit = 1u16 << d;
            let mut placed = false;
            let mut r: usize = 0;
            while r < 9
                invariant
                    r <= 9,
                    c < 9,
                    !placed ==> forall|r2: int| 0 <= r2 < r ==> #[trigger] state.cells@[9 * r2 + c] != d,
                    placed ==> unit_placed(state, 9 + c as int, d),
                decreases 9 - r,
            {
                if state.cells[r * 9 + c] == d {
                    proof {
                        assert(in_unit(9 + c as int, r as int, c as int));
                        assert(state.cells@[9 * r + c] == d);
                    }
                    placed = true;
                }
                r += 1;
            }
            if !placed {
                let mut positions: Vec<usize> = Vec::new();
                let mut r: usize = 0;
                while r < 9
                    invariant
                        r <= 9,
                        c < 9,
                        1 <= d <= 9,
                        bit == 1u16 << d,
                        state.base_wf(),
                        forall|i: int| 0 <= i < positions@.len() ==> #[trigger] positions@[i] < 9
                            && state.candidates@[9 * positions@[i] + c] & bit != 0,
                        forall|r2: int| 0 <= r2 < r && state.candidates@[9 * r2 + c] & bit != 0
                            ==> #[trigger] positions@.contains(r2 as usize),
                        forall|i: int| 0 <= i < positions@.len() ==> positions@[i] < r,
                        forall|i: int, j: int| 0 <= i < j < positions@.len() ==> positions@[i] < positions@[j],
                    decreases 9 - r,
                {
                    let ghost before = positions@;
                    if state.candidates[r * 9 + c] & bit != 0 {
                        positions.push(r);
                    }
                    proof {
                        assert forall|r2: int| 0 <= r2 < r + 1 && state.candidates@[9 * r2 + c] & bit != 0
                            implies #[trigger] positions@.contains(r2 as usize) by {
                            if r2 < r {
                                assert(before.contains(r2 as usize));
                                let j = choose|j: int| 0 <= j < before.len() && before[j] == r2 as usize;
                                assert(positions@[j] == before[j]);
                            } else {
                                assert(positions@[before.len() as int] == r);
                            }
                        }
                    }
                    r += 1;
                }
                if positions.len() == 1 {
                    let r = positions[0];
                    proof {
                        if no_hidden_single(&start) {
                            assert(*state == start);
                            assert forall|r2: int, c2: int| in_unit(9 + c as int, r2, c2) && #[trigger] state.candidates@[9 * r2 + c2] & bit != 0
                                implies r2 == r && c2 == c by {
                                assert(positions@.contains(r2 as usize));
                            }
                            assert(in_unit(9 + c as int, r as int, c as int));
                            lemma_found_hidden(state, 9 + c as int, d, bit, r as int, c as int);
                            assert(!hidden_single(&start, 9 + c as int, d));
                        }
                        hidden_single_facts(state, r as int, c as int, d, bit);
                        assert forall|s: Seq<Seq<u8>>| rsol(cage_info, s) && state.consistent(s) implies s[r as int][c as int] == d by {
                            lemma_unit_has_digit(s, 9 + c as int, d as int);
                            let i = choose|i: int| 0 <= i < 9 && #[trigger] s[unit_row(9 + c as int, i)][unit_col(9 + c as int, i)] == d;
                            assert(in_board(i, c as int));
                            assert(state.cell_ok(s, i, c as int));
                            assert(state.cells@[9 * i + c] != d);
                            lemma_bit_test(state.candidates@[9 * i + c], d);
                            assert(positions@.contains(i as usize));
                        }
                    }
                    let ghost s0 = *state;
                    state.place(r, c, d, cage_info);
                    proof {
                        lemma_shrinks_trans(start.candidates@, s0.candidates@, state.candidates@);
                        lemma_bits_total_bounds(state.candidates@, 81);
                        lemma_fill_keeps(s0.cells@, 9 * r + c, d);
                        lemma_keeps_trans(start.cells@, s0.cells@, state.cells@);
                        lemma_settled_kept(&s0, &*state);
                        assert(in_unit(9 + c as int, r as int, c as int));
                        assert(state.cells@[9 * r + c] == d);
                        assert(settled(state, 9 + c as int, d));
                    }
                    count += 1;
                } else {
                    proof {
                        if hidden_single(&start, 9 + c as int, d) {
                            if positions@.len() >= 2 {
                                let p0 = positions@[0] as int;
                                let p1 = positions@[1] as int;
                                lemma_bit_test(state.candidates@[9 * p0 + c], d);
                                lemma_bit_test(state.candidates@[9 * p1 + c], d);
                                assert(in_unit(9 + c as int, p0, c as int));
                                assert(in_unit(9 + c as int, p1, c as int));
                                lemma_hidden_one_cell(&start, &*state, 9 + c as int, d, p0, c as int, p1, c as int);
                            }
                            assert forall|r2: int, c2: int| in_unit(9 + c as int, r2, c2)
                                implies !has_digit(#[trigger] state.candidates@[9 * r2 + c2], d) by {
                                lemma_bit_test(state.candidates@[9 * r2 + c2], d);
                                if has_digit(state.candidates@[9 * r2 + c2], d) {
                                    assert(positions@.contains(r2 as usize));
                                }
                            }
                            assert(settled(state, 9 + c as int, d));
                        }
                    }
                }
            } else {
                proof {
                    assert(settled(state, 9 + c as int, d));
                }
            }
            d += 1;
        }
        c += 1;
    }

    // Check boxes
    let mut br: usize = 0;
    while br < 9
        invariant
            br <= 9,
            br % 3 == 0,
            placed_from(state, &start, cage_info, count as int),
            start.empty_count <= 81,
            keeps(start.cells@, state.cells@),
            count == 0 ==> *state == start,
            no_hidden_single(&start) ==> count == 0,
            forall|u: int, d2: u8| 0 <= u < 18 + br && 1 <= d2 <= 9 && #[trigger] hidden_single(&start, u, d2)
                ==> settled(state, u, d2),
        decreases 9 - br,
    {
        let mut bc: usize = 0;
        while bc < 9
            invariant
                br < 9,
                br % 3 == 0,
                bc <= 9,
                bc % 3 == 0,
                placed_from(state, &start, cage_info, count as int),
                start.empty_count <= 81,
                keeps(start.cells@, state.cells@),
                count == 0 ==> *state == start,
                no_hidden_single(&start) ==> count == 0,
                forall|u: int, d2: u8| 0 <= u < 18 + br + bc / 3 && 1 <= d2 <= 9 && #[trigger] hidden_single(&start, u, d2)
                    ==> settled(state, u, d2),
            decreases 9 - bc,
        {
            let mut d: u8 = 1;
            while d <= 9
                invariant
                    br < 9,
                    br % 3 == 0,
                    bc < 9,
                    bc % 3 == 0,
                    1 <= d <= 10,
                    placed_from(state, &start, cage_info, count as int),
                    start.empty_count <= 81,
                    keeps(start.cells@, state.cells@),
                    count == 0 ==> *state == start,
                    no_hidden_single(&start) ==> count == 0,
                    forall|u: int, d2: u8| ((0 <= u < 18 + br + bc / 3 && 1 <= d2 <= 9) || (u == 18 + br + bc / 3 && 1 <= d2 < d))
                        && #[trigger] hidden_single(&start, u, d2) ==> settled(state, u, d2),
                decreases 10 - d,
            {
                let ghost u = 18 + br + bc / 3;
                proof {
                    assert forall|r2: int, c2: int| #[trigger] in_unit(u, r2, c2) <==> (br <= r2 < br + 3 && bc <= c2 < bc + 3) by {
                        assert((u - 18) / 3 == br / 3 && (u - 18) % 3 == bc / 3);
                    }
                }
                let bit = 1u16 << d;
                let mut already_placed = false;
                let mut positions: Vec<(usize, usize)> = Vec::new();
                let mut r: usize = br;
                while r < br + 3 && !already_placed
                    invariant
                        br <= r <= br + 3,
                        br % 3 == 0,
                        br < 9,
                        bc < 9,
                        bc % 3 == 0,
                        1 <= d <= 9,
                        bit == 1u16 << d,
                        state.base_wf(),
                        forall|i: int| 0 <= i < positions@.len() ==> #[trigger] positions@[i].0 < 9 && positions@[i].1 < 9
                            && state.candidates@[9 * positions@[i].0 + positions@[i].1] & bit != 0,
                        !already_placed ==> forall|r2: int, c2: int| br <= r2 < r && bc <= c2 < bc + 3
                            ==> #[trigger] state.cells@[9 * r2 + c2] != d
                                && (state.candidates@[9 * r2 + c2] & bit != 0 ==> positions@.contains((r2 as usize, c2 as usize))),
                        u == 18 + br + bc / 3,
                        forall|r2: int, c2: int| #[trigger] in_unit(u, r2, c2) <==> (br <= r2 < br + 3 && bc <= c2 < bc + 3),
                        already_placed ==> unit_placed(state, u, d),
                        forall|i: int| 0 <= i < positions@.len() ==> br <= (#[trigger] positions@[i]).0 < r
                            && bc <= positions@[i].1 < bc + 3,
                        forall|i: int, j: int| 0 <= i < j < positions@.len() ==> positions@[i] != positions@[j],
                    decreases br + 3 - r,
                {
                    let mut c: usize = bc;
                    while c < bc + 3 && !already_placed
                        invariant
                            br <= r < br + 3,
                            br % 3 == 0,
                            br < 9,
                            bc < 9,
                            bc % 3 == 0,
                            bc <= c <= bc + 3,
                            1 <= d <= 9,
                            bit == 1u16 << d,
                            state.base_wf(),
                            forall|i: int| 0 <= i < positions@.len() ==> #[trigger] positions@[i].0 < 9 && positions@[i].1 < 9
                                && state.candidates@[9 * positions@[i].0 + positions@[i].1] & bit != 0,
                            !already_placed ==> forall|r2: int, c2: int| ((br <= r2 < r && bc <= c2 < bc + 3) || (r2 == r && bc <= c2 < c))
                                ==> #[trigger] state.cells@[9 * r2 + c2] != d
                                    && (state.candidates@[9 * r2 + c2] & bit != 0 ==> positions@.contains((r2 as usize, c2 as usize))),
                            u == 18 + br + bc / 3,
                            forall|r2: int, c2: int| #[trigger] in_unit(u, r2, c2) <==> (br <= r2 < br + 3 && bc <= c2 < bc + 3),
                            already_placed ==> unit_placed(state, u, d),
                            forall|i: int| 0 <= i < positions@.len() ==> br <= (#[trigger] positions@[i]).0 <= r
                                && bc <= positions@[i].1 < bc + 3
                                && (positions@[i].0 < r || positions@[i].1 < c),
                            forall|i: int, j: int| 0 <= i < j < positions@.len() ==> positions@[i] != positions@[j],
                        decreases bc + 3 - c,
                    {
                        let ghost before = positions@;
                        let ghost old_c = c;
                        proof {
                            assert(forall|r2: int, c2: int| ((br <= r2 < r && bc <= c2 < bc + 3) || (r2 == r && bc <= c2 < old_c))
                                ==> #[trigger] state.cells@[9 * r2 + c2] != d
                                    && (state.candidates@[9 * r2 + c2] & bit != 0 ==> before.contains((r2 as usize, c2 as usize))));
                        }
                        if state.cells[r * 9 + c] == d {
                            proof {
                                assert(in_unit(u, r as int, c as int));
                                assert(state.cells@[9 * r + c] == d);
                            }
                            already_placed = true;
                        } else if state.candidates[r * 9 + c] & bit != 0 {
                            positions.push((r, c));
                        }
                        proof {
                            if !already_placed {
                                assert(state.cells@[9 * r + c] != d);
                                assert(state.candidates@[9 * r + c] & bit != 0 ==> positions@ == before.push((r, c)));
                                assert(state.candidates@[9 * r + c] & bit == 0 ==> positions@ == before);
                                assert forall|r2: int, c2: int| ((br <= r2 < r && bc <= c2 < bc + 3) || (r2 == r && bc <= c2 < c + 1))
                                    implies #[trigger] state.cells@[9 * r2 + c2] != d
                                        && (state.candidates@[9 * r2 + c2] & bit != 0 ==> positions@.contains((r2 as usize, c2 as usize))) by {
                                    if r2 == r && c2 == c {
                                        if state.candidates@[9 * r2 + c2] & bit != 0 {
                                            assert(positions@[before.len() as int] == (r, c));
                                        }
                                    } else {
                                        assert(state.cells@[9 * r2 + c2] != d);
                                        if state.candidates@[9 * r2 + c2] & bit != 0 {
                                            assert(before.contains((r2 as usize, c2 as usize)));
                                            let j = choose|j: int| 0 <= j < before.len() && before[j] == (r2 as usize, c2 as usize);
                                            assert(positions@[j] == before[j]);
                                        }
                                    }
                                }
                            }
                        }
                        c += 1;
                    }
                    proof {
                        if !already_placed {
                            assert(c == bc + 3);
                            assert(forall|r2: int, c2: int| ((br <= r2 < r && bc <= c2 < bc + 3) || (r2 == r && bc <= c2 < c))
                                ==> #[trigger] state.cells@[9 * r2 + c2] != d
                                    && (state.candidates@[9 * r2 + c2] & bit != 0 ==> positions@.contains((r2 as usize, c2 as usize))));
                            assert forall|r2: int, c2: int| br <= r2 < r + 1 && bc <= c2 < bc + 3
                                implies #[trigger] state.cells@[9 * r2 + c2] != d
                                    && (state.candidates@[9 * r2 + c2] & bit != 0 ==> positions@.contains((r2 as usize, c2 as usize))) by {
                                assert((br <= r2 < r && bc <= c2 < bc + 3) || (r2 == r && bc <= c2 < c));
                            }
                        }
                    }
                    r += 1;
                }
                if !already_placed && positions.len() == 1 {
                    let (r, c) = positions[0];
                    if state.cells[r * 9 + c] == 0 {
                        proof {
                            if no_hidden_single(&start) {
                                assert(*state == start);
                                assert forall|r2: int, c2: int| in_unit(u, r2, c2) && #[trigger] state.candidates@[9 * r2 + c2] & bit != 0
                                    implies r2 == r && c2 == c by {
                                    assert(br <= r2 < br + 3 && bc <= c2 < bc + 3);
                                    assert(state.cells@[9 * r2 + c2] != d);
                                    assert(positions@.contains((r2 as usize, c2 as usize)));
                                }
                                assert(in_unit(u, r as int, c as int));
                                lemma_found_hidden(state, u, d, bit, r as int, c as int);
                                assert(!hidden_single(&start, u, d));
                            }
                            hidden_single_facts(state, r as int, c as int, d, bit);
                            let u = 18 + 3 * (br as int / 3) + bc as int / 3;
                            assert forall|i: int| 0 <= i < 9 implies #[trigger] unit_row(u, i) == br + i / 3 && unit_col(u, i) == bc + i % 3 by {
                                assert((u - 18) / 3 == br as int / 3);
                                assert((u - 18) % 3 == bc as int / 3);
                            }
                            assert forall|s: Seq<Seq<u8>>| rsol(cage_info, s) && state.consistent(s) implies s[r as int][c as int] == d by {
                                lemma_unit_has_digit(s, u, d as int);
                                let i = choose|i: int| 0 <= i < 9 && #[trigger] s[unit_row(u, i)][unit_col(u, i)] == d;
                                let (r2, c2) = (br + i / 3, bc + i % 3);
                                assert(unit_row(u, i) == r2 && unit_col(u, i) == c2);
                                assert(in_board(r2, c2));
                                assert(state.cell_ok(s, r2, c2));
                                assert(state.cells@[9 * r2 + c2] != d);
                                lemma_bit_test(state.candidates@[9 * r2 + c2], d);
                                assert(positions@.contains((r2 as usize, c2 as usize)));
                            }
                        }
                        let ghost s0 = *state;
                        state.place(r, c, d, cage_info);
                        proof {
                            lemma_shrinks_trans(start.candidates@, s0.candidates@, state.candidates@);
                            lemma_bits_total_bounds(state.candidates@, 81);
                            lemma_fill_keeps(s0.cells@, 9 * r + c, d);
                            lemma_keeps_trans(start.cells@, s0.cells@, state.cells@);
                            lemma_settled_kept(&s0, &*state);
                            assert(in_unit(u, r as int, c as int));
                            assert(state.cells@[9 * r + c] == d);
                            assert(settled(state, u, d));
                        }
                        count += 1;
                    } else {
                        proof {
                            hidden_single_facts(state, r as int, c as int, d, bit);
                        }
                    }
                } else {
                    proof {
                        if !already_placed && hidden_single(&start, u, d) {
                            if positions@.len() >= 2 {
                                let p0 = positions@[0];
                                let p1 = positions@[1];
                                lemma_bit_test(state.candidates@[9 * p0.0 + p0.1], d);
                                lemma_bit_test(state.candidates@[9 * p1.0 + p1.1], d);
                                assert(in_unit(u, p0.0 as int, p0.1 as int));
                                assert(in_unit(u, p1.0 as int, p1.1 as int));
                                lemma_hidden_one_cell(&start, &*state, u, d, p0.0 as int, p0.1 as int, p1.0 as int, p1.1 as int);
                            }
                            assert forall|r2: int, c2: int| in_unit(u, r2, c2)
                                implies !has_digit(#[trigger] state.candidates@[9 * r2 + c2], d) by {
                                lemma_bit_test(state.candidates@[9 * r2 + c2], d);
                                assert(br <= r2 < br + 3 && bc <= c2 < bc + 3);
                                assert(state.cells@[9 * r2 + c2] != d);
                                if has_digit(state.candidates@[9 * r2 + c2], d) {
                                    assert(positions@.contains((r2 as usize, c2 as usize)));
                                }
                            }
                        }
                        assert(hidden_single(&start, u, d) ==> settled(state, u, d));
                    }
                }
                d += 1;
            }
            bc += 3;
        }
        br += 3;
    }

    count
}

/// A cell holding candidate `d` is empty and leaves room for one more placement.
proof fn hidden_single_facts(state: &RaterState, r: int, c: int, d: u8, bit: u16)
    requires
        state.base_wf(),
        0 <= r < 9,
        0 <= c < 9,
        1 <= d <= 9,
        bit == 1u16 << d,
        state.candidates@[9 * r + c] & bit != 0,
    ensures
        state.cells@[9 * r + c] == 0,
        state.empty_count >= 1,
        popcount(state.candidates@[9 * r + c]) >= 1,
{
    let x = state.candidates@[9 * r + c];
    assert(x & bit != 0 ==> x != 0) by (bit_vector);
    lemma_count_empty_bounds(state.cells@, 81);
    lemma_count_empty_update(state.cells@, 9 * r + c, d, 81);
    if popcount(x) == 0 {
        crate::killer::lemma_popcount_zero(x);
    }
    lemma_popcount_bound(x);
}


/// What a solution agreeing with the state says of one cage: the digits of
/// its empty cells (`t`) are missing from the placed digits and make up with
/// them one of the cage's listed combinations (`d`).
proof fn lemma_rater_cage_sets(st: &RaterState, info: &RaterCageInfo, s: Seq<Seq<u8>>, ci: int)
    requires
        st.base_wf(),
        st.cage_wf(Some(info)),
        rsol(Some(info), s),
        st.consistent(s),
        0 <= ci < info.n(),
        info.cage(ci).len() > 0,
    ensures
        ({
            let list = info.cage(ci);
            let n = list.len() as int;
            let cs = st.cage_states.unwrap()@[ci];
            let t = sel_mask(s, list, n, empty_sel(st.cells@, list));
            let d = sel_mask(s, list, n, all_sel());
            &&& forall|k: int| 0 <= k < n && val(st.cells@, list[k]) == 0 ==> {
                &&& bit_set(t, digit_at(s, list[k]) as int)
                &&& bit_set(d, digit_at(s, list[k]) as int)
                &&& !bit_set(cs.placed_mask, digit_at(s, list[k]) as int)
            }
            &&& forall|x: int| #[trigger] bit_set(t, x) ==> exists|k: int| 0 <= k < n && val(st.cells@, list[k]) == 0 && digit_at(s, list[k]) == x
            &&& forall|x: int| #[trigger] bit_set(cs.placed_mask, x) ==> bit_set(d, x)
            &&& forall|x: int| #[trigger] bit_set(d, x) ==> bit_set(cs.placed_mask, x) || bit_set(t, x)
            &&& popcount(t) == cs.remaining
            &&& info.combos@[ci] matches Some(v) && v@.contains(d)
        }),
{
    let list = info.cage(ci);
    let n = list.len() as int;
    let cs = st.cage_states.unwrap()@[ci];
    let cells = st.cells@;
    let fsel = filled_sel(cells, list);
    let esel = empty_sel(cells, list);
    assert(cage_state_ok(cs, cells, list));
    assert forall|k: int| 0 <= k < n implies 1 <= #[trigger] digit_at(s, list[k]) <= 9 by {
        assert(cell_in_board(list[k]));
        assert(in_board(list[k].0 as int, list[k].1 as int));
    }
    // The placed digits recorded for the cage are those `s` has there.
    assert forall|k: int| 0 <= k < n && #[trigger] fsel(k) implies digit_at(board_of(cells), list[k]) == digit_at(s, list[k]) by {
        let p = list[k];
        assert(cell_in_board(p));
        assert(in_board(p.0 as int, p.1 as int));
        assert(st.cell_ok(s, p.0 as int, p.1 as int));
    }
    lemma_sel_board(board_of(cells), s, list, n, fsel);
    crate::killer::lemma_sel_mask(s, list, n, esel);
    crate::killer::lemma_sel_mask(s, list, n, fsel);
    crate::killer::lemma_sel_mask(s, list, n, all_sel());
    let t = sel_mask(s, list, n, esel);
    let d = sel_mask(s, list, n, all_sel());
    assert forall|k: int| 0 <= k < n && val(cells, list[k]) == 0 implies {
        &&& bit_set(t, digit_at(s, list[k]) as int)
        &&& bit_set(d, digit_at(s, list[k]) as int)
        &&& !bit_set(cs.placed_mask, digit_at(s, list[k]) as int)
    } by {
        let x = digit_at(s, list[k]) as int;
        assert(esel(k));
        assert(all_sel()(k));
        if bit_set(cs.placed_mask, x) {
            let k2 = choose|k2: int| 0 <= k2 < n && fsel(k2) && digit_at(s, list[k2]) == x;
            assert(k2 != k);
        }
    }
    assert forall|x: int| #[trigger] bit_set(t, x) implies exists|k: int| 0 <= k < n && val(cells, list[k]) == 0 && digit_at(s, list[k]) == x by {
        let k = choose|k: int| 0 <= k < n && esel(k) && digit_at(s, list[k]) == x;
    }
    assert forall|x: int| #[trigger] bit_set(cs.placed_mask, x) implies bit_set(d, x) by {
        let k = choose|k: int| 0 <= k < n && fsel(k) && digit_at(s, list[k]) == x;
        assert(all_sel()(k));
    }
    assert forall|x: int| #[trigger] bit_set(d, x) implies bit_set(cs.placed_mask, x) || bit_set(t, x) by {
        let k = choose|k: int| 0 <= k < n && all_sel()(k) && digit_at(s, list[k]) == x;
        if val(cells, list[k]) == 0 {
            assert(esel(k));
        } else {
            assert(fsel(k));
        }
    }
    // The cage's digits form one of its combinations.
    assert(cage_ok(list, info.sums@[ci] as int, s)) by {
        assert(crate::grid::cells_sum(s, list) == info.sums@[ci]);
    }
    crate::killer::lemma_sel_all_sum(s, list, n);
    assert(list.subrange(0, n) =~= list);
    assert(d != 0) by {
        if d == 0 {
            crate::killer::lemma_zero_weight(16);
        }
    }
    assert(is_combo(d, n, info.sums@[ci] as int));
    assert(combos_ok(info.combos@[ci], n, info.sums@[ci] as int));
}

/// A solution's digits on a cage form one of the cage's listed combinations.
proof fn lemma_rater_cage_combo(info: &RaterCageInfo, s: Seq<Seq<u8>>, ci: int)
    requires
        info.shaped(),
        rsol(Some(info), s),
        0 <= ci < info.n(),
        info.combos@[ci] is Some,
    ensures
        ({
            let list = info.cage(ci);
            let dm = sel_mask(s, list, list.len() as int, all_sel());
            &&& info.combos@[ci].unwrap()@.contains(dm)
            &&& forall|k: int| 0 <= k < list.len() ==> #[trigger] bit_set(dm, digit_at(s, list[k]) as int)
        }),
{
    let list = info.cage(ci);
    let n = list.len() as int;
    assert forall|k: int| 0 <= k < n implies 1 <= #[trigger] digit_at(s, list[k]) <= 9 by {
        assert(cell_in_board(list[k]));
        assert(in_board(list[k].0 as int, list[k].1 as int));
    }
    assert(cages_hold(info, s));
    assert forall|k1: int, k2: int| 0 <= k1 < n && 0 <= k2 < n && k1 != k2 implies
        digit_at(s, #[trigger] list[k1]) != digit_at(s, #[trigger] list[k2]) by {
        assert(info.cage(ci)[k1] == list[k1] && info.cage(ci)[k2] == list[k2]);
    }
    crate::killer::lemma_sel_mask(s, list, n, all_sel());
    crate::killer::lemma_sel_all_sum(s, list, n);
    assert(list.subrange(0, n) =~= list);
    let dm = sel_mask(s, list, n, all_sel());
    assert forall|k: int| 0 <= k < n implies #[trigger] bit_set(dm, digit_at(s, list[k]) as int) by {
        assert(all_sel()(k));
    }
    assert(crate::grid::cells_sum(s, list) == info.sums@[ci]);
    assert(combos_ok(info.combos@[ci], n, info.sums@[ci] as int));
    assert(dm != 0 || n == 0) by {
        if dm == 0 {
            crate::killer::lemma_zero_weight(16);
        }
    }
    if n == 0 {
        let v = info.combos@[ci].unwrap()@;
        assert(is_combo(v[0], 0, info.sums@[ci] as int));
        crate::killer::lemma_popcount_zero(v[0]);
    }
}

/// The digits that can still fill a cage's empty cells, over the first `j`
/// combinations: those a combination adds to the placed digits, when it holds
/// them and adds exactly as many digits as there are empty cells.
spec fn combo_rest(combos: Seq<u16>, placed: u16, remaining: int, j: int) -> u16
    decreases j,
{
    if j <= 0 {
        0u16
    } else {
        let prev = combo_rest(combos, placed, remaining, j - 1);
        let c = combos[j - 1];
        if c & placed == placed && popcount(c & !placed) == remaining {
            prev | (c & !placed)
        } else {
            prev
        }
    }
}

/// Cell `k` of cage `ci`, when empty in a cage that still has empty cells and
/// digit combinations, holds only digits those combinations can still give.
spec fn cell_pruned(st: RaterState, info: &RaterCageInfo, ci: int, k: int) -> bool {
    let p = info.cage(ci)[k];
    match (st.cage_states, info.combos@[ci]) {
        (Some(cs), Some(combos)) => ci < cs@.len() && cs@[ci].remaining != 0 && st.cells@[9 * p.0 + p.1] == 0
            ==> st.candidates@[9 * p.0 + p.1] & combo_rest(combos@, cs@[ci].placed_mask, cs@[ci].remaining as int, combos@.len() as int)
                == st.candidates@[9 * p.0 + p.1],
        _ => true,
    }
}

/// No cage has a candidate left that its combinations rule out.
spec fn cages_pruned(st: RaterState, info: &RaterCageInfo) -> bool {
    forall|ci: int, k: int| 0 <= ci < info.n() && 0 <= k < info.cage(ci).len() ==> #[trigger] cell_pruned(st, info, ci, k)
}

/// Try cage combination pruning (killer only). Returns number of candidates eliminated.
/// Nothing is removed exactly when every cage cell already holds only digits
/// that the cage's remaining combinations can give.
fn try_cage_combination_pruning(state: &mut RaterState, cage_info: &RaterCageInfo) -> (eliminated: u32)
    requires
        old(state).base_wf(),
        old(state).cage_wf(Some(cage_info)),
    ensures
        final(state).elim_from(old(state), eliminated as int),
        forall|s: Seq<Seq<u8>>| rsol(Some(cage_info), s) && old(state).consistent(s) ==> final(state).consistent(s),
        eliminated == 0 ==> cages_pruned(*old(state), cage_info),
        cages_pruned(*old(state), cage_info) ==> eliminated == 0,
{
    let ghost start = *state;
    proof {
        lemma_elim_refl(&start);
    }
    let cage_states = match &state.cage_states {
        Some(cs) => cs.clone(),
        None => return 0,
    };
    proof {
        assert(cage_states@.len() == cage_info.n());
        assert forall|i: int| 0 <= i < cage_states@.len() implies cage_states@[i] == start.cage_states.unwrap()@[i] by {
            assert(vstd::pervasive::cloned(start.cage_states.unwrap()@[i], cage_states@[i]));
        }
    }
    let mut eliminated: u32 = 0;
    let n = if cage_states.len() < cage_info.num_cages() { cage_states.len() } else { cage_info.num_cages() };

    let mut ci: usize = 0;
    while ci < n
        invariant
            ci <= n,
            n <= cage_states@.len(),
            n <= cage_info.n(),
            cage_info.shaped(),
            start.base_wf(),
            start.cage_wf(Some(cage_info)),
            forall|i: int| 0 <= i < cage_states@.len() ==> cage_states@[i] == start.cage_states.unwrap()@[i],
            start.measure() <= 1296,
            state.elim_from(&start, eliminated as int),
            forall|s: Seq<Seq<u8>>| rsol(Some(cage_info), s) && start.consistent(s) ==> state.consistent(s),
            eliminated == 0 ==> *state == start,
            cages_pruned(start, cage_info) ==> eliminated == 0,
            n == cage_info.n(),
            start.cage_states matches Some(cs0) && cs0@.len() == cage_info.n(),
            eliminated == 0 ==> forall|cj: int, k: int| 0 <= cj < ci && 0 <= k < cage_info.cage(cj).len()
                ==> #[trigger] cell_pruned(start, cage_info, cj, k),
        decreases n - ci,
    {
        let cs = cage_states[ci];
        if cs.remaining != 0 {
            match &cage_info.combos[ci] {
                Some(combos) => {
                    let placed = cs.placed_mask;
                    let remaining_count = cs.remaining as u32;
                    let ghost list = cage_info.cage(ci as int);

                    let mut valid_remaining: u16 = 0;
                    let mut j: usize = 0;
                    while j < combos.len()
                        invariant
                            j <= combos@.len(),
                            forall|j2: int, x: int| 0 <= j2 < j && combos@[j2] & placed == placed
                                && popcount(combos@[j2] & !placed) == remaining_count
                                && #[trigger] bit_set(combos@[j2] & !placed, x) ==> bit_set(valid_remaining, x),
                            valid_remaining == combo_rest(combos@, placed, remaining_count as int, j as int),
                        decreases combos@.len() - j,
                    {
                        let combo = combos[j];
                        if combo & placed == placed {
                            let rest = combo & !placed;
                            if count_digits(rest) == remaining_count {
                                let ghost prev = valid_remaining;
                                valid_remaining |= rest;
                                proof {
                                    assert forall|j2: int, x: int| 0 <= j2 < j + 1 && combos@[j2] & placed == placed
                                        && popcount(combos@[j2] & !placed) == remaining_count
                                        && #[trigger] bit_set(combos@[j2] & !placed, x) implies bit_set(valid_remaining, x) by {
                                        lemma_mask_ops(prev, rest, x);
                                    }
                                }
                            }
                        }
                        j += 1;
                    }
                    let ghost snap = *state;
                    proof {
                        // Every solution's digit on an empty cell of the cage survives the filter.
                        assert forall|s: Seq<Seq<u8>>| rsol(Some(cage_info), s) && start.consistent(s) implies
                            forall|k: int| 0 <= k < list.len() && val(snap.cells@, list[k]) == 0
                                ==> #[trigger] bit_set(valid_remaining, digit_at(s, list[k]) as int) by {
                            assert(snap.consistent(s));
                            assert(cs == snap.cage_states.unwrap()@[ci as int]);
                            assert(cage_state_ok(cs, snap.cells@, list));
                            assert(list.len() > 0) by {
                                if list.len() == 0 {
                                    assert(sel_count(0, empty_sel(snap.cells@, list)) == 0);
                                }
                            }
                            lemma_rater_cage_sets(&snap, cage_info, s, ci as int);
                            let t = sel_mask(s, list, list.len() as int, empty_sel(snap.cells@, list));
                            let dm = sel_mask(s, list, list.len() as int, all_sel());
                            let jj = choose|jj: int| 0 <= jj < combos@.len() && combos@[jj] == dm;
                            assert forall|x: int| 0 <= x < 16 implies (bit_set(dm & placed, x) <==> bit_set(placed, x)) by {
                                lemma_mask_ops(dm, placed, x);
                            }
                            crate::killer::lemma_mask_ext(dm & placed, placed);
                            assert forall|x: int| 0 <= x < 16 implies (bit_set(dm & !placed, x) <==> bit_set(t, x)) by {
                                lemma_mask_ops(dm, placed, x);
                                if bit_set(t, x) {
                                    let k = choose|k: int| 0 <= k < list.len() && val(snap.cells@, list[k]) == 0 && digit_at(s, list[k]) == x;
                                }
                            }
                            crate::killer::lemma_same_members(dm & !placed, t, 16);
                            assert forall|k: int| 0 <= k < list.len() && val(snap.cells@, list[k]) == 0
                                implies #[trigger] bit_set(valid_remaining, digit_at(s, list[k]) as int) by {
                                let x = digit_at(s, list[k]) as int;
                                lemma_mask_ops(dm, placed, x);
                                assert(bit_set(combos@[jj] & !placed, x));
                            }
                        }
                    }

                    let cage = &cage_info.cells[ci];
                    let mut i: usize = 0;
                    while i < cage.len()
                        invariant
                            i <= cage@.len(),
                            ci < cage_info.n(),
                            cage@ == cage_info.cage(ci as int),
                            list == cage_info.cage(ci as int),
                            cage_info.shaped(),
                            start.base_wf(),
                            start.cage_wf(Some(cage_info)),
                            start.measure() <= 1296,
                            snap.cells == start.cells,
                            state.elim_from(&start, eliminated as int),
                            forall|s: Seq<Seq<u8>>| rsol(Some(cage_info), s) && start.consistent(s) ==> state.consistent(s),
                            forall|s: Seq<Seq<u8>>| rsol(Some(cage_info), s) && start.consistent(s) ==>
                                forall|k: int| 0 <= k < list.len() && val(snap.cells@, list[k]) == 0
                                    ==> #[trigger] bit_set(valid_remaining, digit_at(s, list[k]) as int),
                            eliminated == 0 ==> *state == start,
                            cages_pruned(start, cage_info) ==> eliminated == 0,
                            eliminated == 0 ==> snap == start,
                            start.cage_states matches Some(cs0) && cs0@.len() == cage_info.n() && cs0@[ci as int] == cs,
                            cs.remaining != 0,
                            cage_info.combos@[ci as int] == Some(*combos),
                            valid_remaining == combo_rest(combos@, cs.placed_mask, cs.remaining as int, combos@.len() as int),
                            eliminated == 0 ==> forall|k: int| 0 <= k < i ==> #[trigger] cell_pruned(start, cage_info, ci as int, k),
                        decreases cage@.len() - i,
                    {
                        let (r, c) = cage[i];
                        proof {
                            assert(cell_in_board(cage@[i as int]));
                        }
                        if state.cells[r * 9 + c] == 0 {
                            let old_c = state.candidates[r * 9 + c];
                            let restricted = old_c & valid_remaining;
                            if restricted != old_c {
                                let ghost s0 = *state;
                                proof {
                                    lemma_and_sub(old_c, valid_remaining);
                                    if cages_pruned(start, cage_info) {
                                        assert(cage@[i as int] == (r, c));
                                        assert(cell_pruned(start, cage_info, ci as int, i as int));
                                    }
                                }
                                state.candidates[r * 9 + c] = restricted;
                                let removed = count_digits(old_c ^ restricted);
                                proof {
                                    lemma_elim_step(&start, &s0, state, r * 9 + c, restricted, eliminated as int);
                                    assert forall|s: Seq<Seq<u8>>| rsol(Some(cage_info), s) && start.consistent(s)
                                        implies state.consistent(s) by {
                                        assert(s0.consistent(s));
                                        assert(in_board(r as int, c as int));
                                        assert(s0.cell_ok(s, r as int, c as int));
                                        assert(val(snap.cells@, list[i as int]) == 0);
                                        let x = s[r as int][c as int];
                                        assert(bit_set(valid_remaining, digit_at(s, list[i as int]) as int));
                                        crate::killer::lemma_has_bit(valid_remaining, x);
                                        lemma_digit_masks(old_c, valid_remaining, x);
                                        lemma_keep_agreeing(&s0, state, r as int, c as int, restricted, s);
                                    }
                                }
                                eliminated += removed;
                            }
                        }
                        proof {
                            if eliminated == 0 {
                                assert forall|k: int| 0 <= k < i + 1 implies #[trigger] cell_pruned(start, cage_info, ci as int, k) by {
                                    if k == i {
                                        assert(cage@[k] == (r, c));
                                    }
                                }
                            }
                        }
                        i += 1;
                    }
                },
                None => {},
            }
        }
        ci += 1;
    }

    eliminated
}

/// Digits of `x & !m` and of `x & m`.
proof fn lemma_digit_masks(x: u16, m: u16, e: u8)
    ensures
        has_digit(x & !m, e) == (has_digit(x, e) && !has_digit(m, e)),
        has_digit(x & m, e) == (has_digit(x, e) && has_digit(m, e)),
{
    crate::killer::lemma_has_bit(x & !m, e);
    crate::killer::lemma_has_bit(x & m, e);
    crate::killer::lemma_has_bit(x, e);
    crate::killer::lemma_has_bit(m, e);
    lemma_mask_ops(x, m, e as int);
}

/// Two different cells of a unit are peers.
proof fn lemma_unit_peers(v: int, a: int, b: int)
    requires
        0 <= v < 27,
        0 <= a < 9,
        0 <= b < 9,
        a != b,
    ensures
        in_board(unit_row(v, a), unit_col(v, a)),
        in_board(unit_row(v, b), unit_col(v, b)),
        is_peer(unit_row(v, a), unit_col(v, a), unit_row(v, b), unit_col(v, b)),
{
    if v >= 18 {
        let q = (v - 18) / 3;
        let w = (v - 18) % 3;
        assert(0 <= q < 3 && 0 <= w < 3);
        assert(unit_row(v, a) == 3 * q + a / 3 && unit_col(v, a) == 3 * w + a % 3);
        assert(unit_row(v, b) == 3 * q + b / 3 && unit_col(v, b) == 3 * w + b % 3);
        assert((3 * q + a / 3) / 3 == q && (3 * q + b / 3) / 3 == q);
        assert((3 * w + a % 3) / 3 == w && (3 * w + b % 3) / 3 == w);
        assert(a == 3 * (a / 3) + a % 3 && b == 3 * (b / 3) + b % 3);
    }
}

/// A solution's digits on two different cells of a unit differ.
proof fn lemma_unit_digits_differ(s: Seq<Seq<u8>>, unit: Seq<(usize, usize)>, a: int, b: int)
    requires
        is_complete_valid(s),
        is_unit(unit),
        0 <= a < 9,
        0 <= b < 9,
        a != b,
    ensures
        s[unit[a].0 as int][unit[a].1 as int] != s[unit[b].0 as int][unit[b].1 as int],
{
    let v = choose|v: int| 0 <= v < 27 && unit == unit_cells(v);
    lemma_unit_peers(v, a, b);
}

/// Cell `a` of `unit` is empty with exactly two candidates.
spec fn pair_cell(st: RaterState, unit: Seq<(usize, usize)>, a: int) -> bool {
    st.cells@[9 * unit[a].0 + unit[a].1] == 0 && popcount(st.candidates@[9 * unit[a].0 + unit[a].1]) == 2
}

/// Every empty cell of `unit` other than cells `a` and `b` lacks the
/// candidates of cell `a`.
spec fn pair_cleared(st: RaterState, unit: Seq<(usize, usize)>, a: int, b: int) -> bool {
    forall|k: int| 0 <= k < unit.len() && unit[k] != unit[a] && unit[k] != unit[b]
        && st.cells@[9 * unit[k].0 + unit[k].1] == 0
        ==> #[trigger] st.candidates@[9 * unit[k].0 + unit[k].1] & st.candidates@[9 * unit[a].0 + unit[a].1] == 0
}

/// Wherever two empty cells of `unit` have the same two candidates, no other
/// empty cell of the unit offers either of them.
spec fn naked_pairs_cleared(st: RaterState, unit: Seq<(usize, usize)>) -> bool {
    forall|a: int, b: int| 0 <= a < b < unit.len() && #[trigger] pair_cell(st, unit, a) && #[trigger] pair_cell(st, unit, b)
        && st.candidates@[9 * unit[a].0 + unit[a].1] == st.candidates@[9 * unit[b].0 + unit[b].1]
        ==> pair_cleared(st, unit, a, b)
}

proof fn lemma_mask_kept(x: u16, m: u16)
    requires
        x & !m == x,
    ensures
        x & m == 0,
{
    assert((x & !m == x) ==> (x & m == 0)) by (bit_vector);
}

/// Try naked pairs in all units. Returns number of candidates eliminated.
/// Nothing is removed exactly when no naked pair of a row, column or box has
/// a candidate left to clear.
fn try_naked_pairs(state: &mut RaterState) -> (eliminated: u32)
    requires
        old(state).base_wf(),
    ensures
        final(state).elim_from(old(state), eliminated as int),
        keeps_solutions(old(state), final(state)),
        eliminated == 0 ==> forall|v: int| 0 <= v < 27 ==> #[trigger] naked_pairs_cleared(*old(state), unit_cells(v)),
        (forall|v: int| 0 <= v < 27 ==> #[trigger] naked_pairs_cleared(*old(state), unit_cells(v))) ==> eliminated == 0,
{
    let ghost s0 = *state;
    let mut eliminated: u32 = 0;
    proof {
        lemma_elim_refl(&s0);
    }
    let rows = unit_rows();
    let ghost rs = rows@;
    let a = naked_pairs_in_units(state, rows);
    let ghost s1 = *state;
    let cols = unit_cols();
    let ghost cs = cols@;
    let b = naked_pairs_in_units(state, cols);
    let ghost s2 = *state;
    let boxes = unit_boxes();
    let ghost bs = boxes@;
    let c = naked_pairs_in_units(state, boxes);
    proof {
        if forall|v: int| 0 <= v < 27 ==> #[trigger] naked_pairs_cleared(s0, unit_cells(v)) {
            assert forall|u: int| 0 <= u < rs.len() implies #[trigger] naked_pairs_cleared(s0, rs[u]@) by {
                assert(rs[u]@ =~= unit_cells(u));
            }
            assert(all_pairs_cleared(s0, rs));
            assert forall|u: int| 0 <= u < cs.len() implies #[trigger] naked_pairs_cleared(s1, cs[u]@) by {
                assert(cs[u]@ =~= unit_cells(u + 9));
            }
            assert(all_pairs_cleared(s1, cs));
            assert forall|u: int| 0 <= u < bs.len() implies #[trigger] naked_pairs_cleared(s2, bs[u]@) by {
                assert(bs[u]@ =~= unit_cells(u + 18));
            }
            assert(all_pairs_cleared(s2, bs));
        }
        if a + b + c == 0 {
            assert forall|v: int| 0 <= v < 27 implies #[trigger] naked_pairs_cleared(s0, unit_cells(v)) by {
                if v < 9 {
                    assert(rs[v]@ =~= unit_cells(v));
                } else if v < 18 {
                    assert(cs[v - 9]@ =~= unit_cells(v));
                } else {
                    assert(bs[v - 18]@ =~= unit_cells(v));
                }
            }
        }
        lemma_keeps_chain(&s0, &s1, &s2);
        lemma_keeps_chain(&s0, &s2, state);
        lemma_elim_trans(&s0, &s1, &s2, a as int, b as int);
        lemma_elim_trans(&s0, &s2, state, a + b, c as int);
        lemma_bits_total_bounds(state.candidates@, 81);
    }
    eliminated += a;
    eliminated += b;
    eliminated += c;
    eliminated
}

/// Every unit of `units` has its naked pairs cleared.
spec fn all_pairs_cleared(st: RaterState, units: Seq<Vec<(usize, usize)>>) -> bool {
    forall|u: int| 0 <= u < units.len() ==> #[trigger] naked_pairs_cleared(st, units[u]@)
}

proof fn lemma_mask_free(x: u16, m: u16)
    requires
        x & m == 0,
    ensures
        x & !m == x,
{
    assert((x & m == 0) ==> (x & !m == x)) by (bit_vector);
}

fn naked_pairs_in_units(state: &mut RaterState, units: Vec<Vec<(usize, usize)>>) -> (eliminated: u32)
    requires
        old(state).base_wf(),
        units_on_board(units@),
        real_units(units@),
    ensures
        final(state).elim_from(old(state), eliminated as int),
        keeps_solutions(old(state), final(state)),
        eliminated == 0 ==> *final(state) == *old(state),
        eliminated == 0 ==> forall|u: int| 0 <= u < units@.len() ==> #[trigger] naked_pairs_cleared(*old(state), units@[u]@),
        all_pairs_cleared(*old(state), units@) ==> eliminated == 0,
{
    let ghost start = *state;
    proof {
        lemma_elim_refl(&start);
    }
    let mut eliminated: u32 = 0;
    let mut ui: usize = 0;
    while ui < units.len()
        invariant
            ui <= units@.len(),
            units_on_board(units@),
            real_units(units@),
            start.base_wf(),
            start.measure() <= 1296,
            state.elim_from(&start, eliminated as int),
            all_pairs_cleared(start, units@) ==> eliminated == 0,
            keeps_solutions(&start, state),
            eliminated == 0 ==> *state == start,
            eliminated == 0 ==> forall|u: int| 0 <= u < ui ==> #[trigger] naked_pairs_cleared(start, units@[u]@),
        decreases units@.len() - ui,
    {
        let unit = &units[ui];
        let ghost snap = *state;
        let ghost eu = eliminated;
        proof {
            assert(is_unit(units@[ui as int]@));
        }
        // Find cells with exactly 2 candidates
        let mut pairs: Vec<(usize, usize, u16)> = Vec::new();
        let ghost mut idx: Seq<int> = Seq::empty();
        let mut i: usize = 0;
        while i < unit.len()
            invariant
                i <= unit@.len(),
                unit == units@[ui as int],
                ui < units@.len(),
                units_on_board(units@),
                is_unit(unit@),
                *state == snap,
                all_pairs_cleared(start, units@) ==> eliminated == 0,
                eliminated == eu,
                eu == 0 ==> snap == start,
                idx.len() == pairs@.len(),
                forall|p: int| 0 <= p < pairs@.len() ==> 0 <= #[trigger] idx[p] < i,
                forall|p: int, q: int| 0 <= p < q < pairs@.len() ==> idx[p] < idx[q],
                forall|p: int| 0 <= p < pairs@.len() ==> {
                    let cell = unit@[#[trigger] idx[p]];
                    &&& pairs@[p].0 == cell.0
                    &&& pairs@[p].1 == cell.1
                    &&& snap.cells@[9 * cell.0 + cell.1] == 0
                    &&& pairs@[p].2 == snap.candidates@[9 * cell.0 + cell.1]
                    &&& popcount(pairs@[p].2) == 2
                },
                forall|a: int| 0 <= a < i && #[trigger] pair_cell(snap, unit@, a) ==> exists|p: int| 0 <= p < pairs@.len() && idx[p] == a,
            decreases unit@.len() - i,
        {
            let (r, c) = unit[i];
            proof {
                assert(cell_in_board(units@[ui as int]@[i as int]));
            }
            let ghost ib0 = idx;
            if state.cells[r * 9 + c] == 0 && count_digits(state.candidates[r * 9 + c]) == 2 {
                let ghost (pb, ib) = (pairs@, idx);
                pairs.push((r, c, state.candidates[r * 9 + c]));
                proof {
                    idx = idx.push(i as int);
                    assert forall|p: int| 0 <= p < pairs@.len() implies {
                        let cell = unit@[#[trigger] idx[p]];
                        &&& pairs@[p].0 == cell.0
                        &&& pairs@[p].1 == cell.1
                        &&& snap.cells@[9 * cell.0 + cell.1] == 0
                        &&& pairs@[p].2 == snap.candidates@[9 * cell.0 + cell.1]
                        &&& popcount(pairs@[p].2) == 2
                    } by {
                        if p < pb.len() {
                            assert(pairs@[p] == pb[p] && idx[p] == ib[p]);
                        }
                    }
                }
            }
            proof {
                assert forall|a: int| 0 <= a < i + 1 && #[trigger] pair_cell(snap, unit@, a)
                    implies exists|p: int| 0 <= p < pairs@.len() && idx[p] == a by {
                    if a == i {
                        assert(unit@[a] == (r, c));
                        assert(idx[idx.len() - 1] == a);
                    } else {
                        let p = choose|p: int| 0 <= p < ib0.len() && ib0[p] == a;
                        assert(idx[p] == ib0[p]);
                    }
                }
            }
            i += 1;
        }

        let mut i: usize = 0;
        while i < pairs.len()
            invariant
                i <= pairs@.len(),
                unit == units@[ui as int],
                ui < units@.len(),
                units_on_board(units@),
                real_units(units@),
                is_unit(unit@),
                unit@.len() == 9,
                keeps_solutions(&start, &snap),
                idx.len() == pairs@.len(),
                forall|p: int| 0 <= p < pairs@.len() ==> 0 <= #[trigger] idx[p] < 9,
                forall|p: int, q: int| 0 <= p < q < pairs@.len() ==> idx[p] < idx[q],
                forall|p: int| 0 <= p < pairs@.len() ==> {
                    let cell = unit@[#[trigger] idx[p]];
                    &&& pairs@[p].0 == cell.0
                    &&& pairs@[p].1 == cell.1
                    &&& snap.cells@[9 * cell.0 + cell.1] == 0
                    &&& pairs@[p].2 == snap.candidates@[9 * cell.0 + cell.1]
                    &&& popcount(pairs@[p].2) == 2
                },
                start.base_wf(),
                start.measure() <= 1296,
                state.elim_from(&start, eliminated as int),
                all_pairs_cleared(start, units@) ==> eliminated == 0,
                keeps_solutions(&start, state),
                eu <= eliminated,
                eu == 0 ==> snap == start,
                eliminated == eu ==> *state == snap,
                eliminated == eu ==> forall|p: int, q: int| 0 <= p < q < pairs@.len() && (p < i) && pairs@[p].2 == pairs@[q].2
                    ==> #[trigger] pair_cleared(snap, unit@, idx[p], idx[q]),
            decreases pairs@.len() - i,
        {
            let mut j: usize = i + 1;
            while j < pairs.len()
                invariant
                    i < j <= pairs@.len(),
                    unit == units@[ui as int],
                    ui < units@.len(),
                    units_on_board(units@),
                    real_units(units@),
                    is_unit(unit@),
                    unit@.len() == 9,
                    keeps_solutions(&start, &snap),
                    idx.len() == pairs@.len(),
                    forall|p: int| 0 <= p < pairs@.len() ==> 0 <= #[trigger] idx[p] < 9,
                    forall|p: int, q: int| 0 <= p < q < pairs@.len() ==> idx[p] < idx[q],
                    forall|p: int| 0 <= p < pairs@.len() ==> {
                        let cell = unit@[#[trigger] idx[p]];
                        &&& pairs@[p].0 == cell.0
                        &&& pairs@[p].1 == cell.1
                        &&& snap.cells@[9 * cell.0 + cell.1] == 0
                        &&& pairs@[p].2 == snap.candidates@[9 * cell.0 + cell.1]
                        &&& popcount(pairs@[p].2) == 2
                    },
                    start.base_wf(),
                    start.measure() <= 1296,
                    state.elim_from(&start, eliminated as int),
                    all_pairs_cleared(start, units@) ==> eliminated == 0,
                    keeps_solutions(&start, state),
                    eu <= eliminated,
                    eu == 0 ==> snap == start,
                    eliminated == eu ==> *state == snap,
                    eliminated == eu ==> forall|p: int, q: int| 0 <= p < q < pairs@.len() && (p < i || (p == i && q < j)) && pairs@[p].2 == pairs@[q].2
                        ==> #[trigger] pair_cleared(snap, unit@, idx[p], idx[q]),
                decreases pairs@.len() - j,
            {
                if pairs[i].2 == pairs[j].2 {
                    let mask = pairs[i].2;
                    let ghost (ci, cj) = (unit@[idx[i as int]], unit@[idx[j as int]]);
                    proof {
                        // Every solution puts the two digits of `mask` on the pair's cells, one each.
                        assert forall|s: Seq<Seq<u8>>| is_complete_valid(s) && start.consistent(s) implies
                            forall|e: u8| #[trigger] has_digit(mask, e) ==> e == s[ci.0 as int][ci.1 as int] || e == s[cj.0 as int][cj.1 as int] by {
                            assert(snap.consistent(s));
                            let (ii, jj) = (idx[i as int], idx[j as int]);
                            assert(ii < jj);
                            assert(cell_in_board(units@[ui as int]@[ii]) && cell_in_board(units@[ui as int]@[jj]));
                            assert(snap.cell_ok(s, ci.0 as int, ci.1 as int));
                            assert(snap.cell_ok(s, cj.0 as int, cj.1 as int));
                            let si = s[ci.0 as int][ci.1 as int];
                            let sj = s[cj.0 as int][cj.1 as int];
                            lemma_unit_digits_differ(s, unit@, ii, jj);
                            assert(in_board(ci.0 as int, ci.1 as int) && in_board(cj.0 as int, cj.1 as int));
                            assert(1 <= si <= 9 && 1 <= sj <= 9);
                            crate::killer::lemma_has_bit(mask, si);
                            crate::killer::lemma_has_bit(mask, sj);
                            let xs = seq![si as int, sj as int];
                            assert(crate::killer::distinct_positions(xs));
                            assert forall|e: u8| #[trigger] has_digit(mask, e) implies e == si || e == sj by {
                                crate::killer::lemma_has_bit(mask, e);
                                assert forall|m: int| 0 <= m < xs.len() implies bit_set(mask, #[trigger] xs[m]) by {}
                                crate::killer::lemma_members_listed(mask, xs, e as int);
                            }
                        }
                    }
                    proof {
                        assert(pairs@[i as int].2 == snap.candidates@[9 * ci.0 + ci.1]);
                        assert(pairs@[j as int].2 == snap.candidates@[9 * cj.0 + cj.1]);
                    }
                    // Remove these candidates from all other cells in the unit
                    let mut k: usize = 0;
                    while k < unit.len()
                        invariant
                            k <= unit@.len(),
                            i < j < pairs@.len(),
                            unit == units@[ui as int],
                            ui < units@.len(),
                            units_on_board(units@),
                            is_unit(unit@),
                            unit@.len() == 9,
                            ci == unit@[idx[i as int]],
                            cj == unit@[idx[j as int]],
                            0 <= idx[i as int] < 9,
                            0 <= idx[j as int] < 9,
                            ci.0 == pairs@[i as int].0 && ci.1 == pairs@[i as int].1,
                            cj.0 == pairs@[j as int].0 && cj.1 == pairs@[j as int].1,
                            forall|s: Seq<Seq<u8>>| is_complete_valid(s) && start.consistent(s) ==>
                                forall|e: u8| #[trigger] has_digit(mask, e) ==> e == s[ci.0 as int][ci.1 as int] || e == s[cj.0 as int][cj.1 as int],
                            start.base_wf(),
                            start.measure() <= 1296,
                            state.elim_from(&start, eliminated as int),
                            all_pairs_cleared(start, units@) ==> eliminated == 0,
                            keeps_solutions(&start, state),
                            eu <= eliminated,
                            eu == 0 ==> snap == start,
                            eliminated == eu ==> *state == snap,
                            eliminated == eu ==> forall|p: int, q: int| 0 <= p < q < pairs@.len() && (p < i || (p == i && q < j)) && pairs@[p].2 == pairs@[q].2
                                ==> #[trigger] pair_cleared(snap, unit@, idx[p], idx[q]),
                            mask == pairs@[i as int].2,
                            idx[i as int] < idx[j as int],
                            pair_cell(snap, unit@, idx[i as int]) && pair_cell(snap, unit@, idx[j as int]),
                            snap.candidates@[9 * ci.0 + ci.1] == mask && snap.candidates@[9 * cj.0 + cj.1] == mask,
                            idx.len() == pairs@.len(),
                            eliminated == eu ==> forall|k2: int| 0 <= k2 < k && unit@[k2] != ci && unit@[k2] != cj
                                && snap.cells@[9 * unit@[k2].0 + unit@[k2].1] == 0
                                ==> #[trigger] snap.candidates@[9 * unit@[k2].0 + unit@[k2].1] & mask == 0,
                        decreases unit@.len() - k,
                    {
                        let (r, c) = unit[k];
                        proof {
                            assert(cell_in_board(units@[ui as int]@[k as int]));
                        }
                        if !(r == pairs[i].0 && c == pairs[i].1) && !(r == pairs[j].0 && c == pairs[j].1)
                            && state.cells[r * 9 + c] == 0 {
                            let old_c = state.candidates[r * 9 + c];
                            let new_c = old_c & !mask;
                            if new_c != old_c {
                                let ghost s0 = *state;
                                proof {
                                    lemma_and_sub(old_c, !mask);
                                    if all_pairs_cleared(start, units@) {
                                        assert(eliminated == eu);
                                        assert(snap == start);
                                        assert(naked_pairs_cleared(start, units@[ui as int]@));
                                        assert(naked_pairs_cleared(snap, unit@));
                                        let (ii, jj) = (idx[i as int], idx[j as int]);
                                        assert(idx[i as int] < idx[j as int]);
                                        assert(pair_cell(snap, unit@, ii) && pair_cell(snap, unit@, jj));
                                        assert(pair_cleared(snap, unit@, ii, jj));
                                        assert(unit@[k as int] == (r, c));
                                        assert(old_c & mask == 0);
                                        lemma_mask_free(old_c, mask);
                                    }
                                }
                                state.candidates[r * 9 + c] = new_c;
                                let removed = count_digits(old_c ^ new_c);
                                proof {
                                    lemma_elim_step(&start, &s0, state, r * 9 + c, new_c, eliminated as int);
                                    assert forall|s: Seq<Seq<u8>>| is_complete_valid(s) && start.consistent(s) implies
                                        s0.cells@[9 * r + c] != 0 || has_digit(new_c, s[r as int][c as int]) by {
                                        assert(s0.consistent(s));
                                        assert(in_board(r as int, c as int));
                                        assert(s0.cell_ok(s, r as int, c as int));
                                        let e = s[r as int][c as int];
                                        assert(k != idx[i as int] && k != idx[j as int]);
                                        lemma_unit_digits_differ(s, unit@, k as int, idx[i as int]);
                                        lemma_unit_digits_differ(s, unit@, k as int, idx[j as int]);
                                        lemma_digit_masks(old_c, mask, e);
                                    }
                                    lemma_keeps_restrict(&start, &s0, state, r as int, c as int, new_c);
                                }
                                eliminated += removed;
                            } else {
                                proof {
                                    lemma_mask_kept(old_c, mask);
                                }
                            }
                        }
                        proof {
                            if eliminated == eu {
                                assert forall|k2: int| 0 <= k2 < k + 1 && unit@[k2] != ci && unit@[k2] != cj
                                    && snap.cells@[9 * unit@[k2].0 + unit@[k2].1] == 0
                                    implies #[trigger] snap.candidates@[9 * unit@[k2].0 + unit@[k2].1] & mask == 0 by {
                                    if k2 == k {
                                        assert(unit@[k2] == (r, c));
                                    }
                                }
                            }
                        }
                        k += 1;
                    }
                    proof {
                        if eliminated == eu {
                            assert(pair_cleared(snap, unit@, idx[i as int], idx[j as int]));
                        }
                    }
                }
                j += 1;
            }
            i += 1;
        }
        proof {
            if eliminated == eu {
                assert forall|a: int, b: int| 0 <= a < b < unit@.len() && #[trigger] pair_cell(snap, unit@, a)
                    && #[trigger] pair_cell(snap, unit@, b)
                    && snap.candidates@[9 * unit@[a].0 + unit@[a].1] == snap.candidates@[9 * unit@[b].0 + unit@[b].1]
                    implies pair_cleared(snap, unit@, a, b) by {
                    let p = choose|p: int| 0 <= p < pairs@.len() && idx[p] == a;
                    let q = choose|q: int| 0 <= q < pairs@.len() && idx[q] == b;
                    if q < p {
                        assert(idx[q] < idx[p]);
                    }
                    assert(pairs@[p].2 == pairs@[q].2);
                    assert(pair_cleared(snap, unit@, idx[p], idx[q]));
                }
                assert(naked_pairs_cleared(snap, unit@));
            }
            if eliminated == 0 {
                assert(snap == start);
            }
        }
        ui += 1;
    }
    eliminated
}

/// The first `n` cells of `unit` that are empty and still hold `bit`, in order.
spec fn open_list(st: RaterState, unit: Seq<(usize, usize)>, bit: u16, n: int) -> Seq<(usize, usize)>
    decreases n,
{
    if n <= 0 {
        Seq::empty()
    } else {
        let prev = open_list(st, unit, bit, n - 1);
        let p = unit[n - 1];
        if st.cells@[9 * p.0 + p.1] == 0 && st.candidates@[9 * p.0 + p.1] & bit != 0 {
            prev.push(p)
        } else {
            prev
        }
    }
}

/// Digit `d` is placed in a cell of `unit`.
spec fn unit_holds(st: RaterState, unit: Seq<(usize, usize)>, d: u8) -> bool {
    exists|i: int| 0 <= i < unit.len() && st.cells@[9 * unit[i].0 + unit[i].1] == d
}

/// In `unit`, digits `d1 < d2` are not placed, and the empty cells that can
/// take either are the same two cells.
spec fn hidden_pair_at(st: RaterState, unit: Seq<(usize, usize)>, d1: u8, d2: u8) -> bool {
    &&& 1 <= d1 < d2 <= 9
    &&& !unit_holds(st, unit, d1)
    &&& !unit_holds(st, unit, d2)
    &&& open_list(st, unit, 1u16 << d1, unit.len() as int).len() == 2
    &&& open_list(st, unit, 1u16 << d2, unit.len() as int) == open_list(st, unit, 1u16 << d1, unit.len() as int)
}

/// Both cells of the hidden pair `d1`, `d2` hold no other candidate.
spec fn hidden_pair_cleared(st: RaterState, unit: Seq<(usize, usize)>, d1: u8, d2: u8) -> bool {
    forall|p: int| 0 <= p < 2 ==> {
        let cell = #[trigger] open_list(st, unit, 1u16 << d1, unit.len() as int)[p];
        st.candidates@[9 * cell.0 + cell.1] & ((1u16 << d1) | (1u16 << d2)) == st.candidates@[9 * cell.0 + cell.1]
    }
}

/// Every hidden pair of `unit` has had its cells stripped to the pair.
spec fn hidden_pairs_cleared(st: RaterState, unit: Seq<(usize, usize)>) -> bool {
    forall|d1: u8, d2: u8| #[trigger] hidden_pair_at(st, unit, d1, d2) ==> hidden_pair_cleared(st, unit, d1, d2)
}

/// Try hidden pairs in all units. Returns number of candidates eliminated.
/// Nothing is removed exactly when no hidden pair of a row, column or box has
/// a candidate left to strip.
fn try_hidden_pairs(state: &mut RaterState) -> (eliminated: u32)
    requires
        old(state).base_wf(),
    ensures
        final(state).elim_from(old(state), eliminated as int),
        keeps_solutions(old(state), final(state)),
        eliminated == 0 ==> forall|v: int| 0 <= v < 27 ==> #[trigger] hidden_pairs_cleared(*old(state), unit_cells(v)),
        (forall|v: int| 0 <= v < 27 ==> #[trigger] hidden_pairs_cleared(*old(state), unit_cells(v))) ==> eliminated == 0,
{
    let ghost s0 = *state;
    let mut eliminated: u32 = 0;
    proof {
        lemma_elim_refl(&s0);
    }
    let rows = unit_rows();
    let ghost rs = rows@;
    let a = hidden_pairs_in_units(state, rows);
    let ghost s1 = *state;
    let cols = unit_cols();
    let ghost cs = cols@;
    let b = hidden_pairs_in_units(state, cols);
    let ghost s2 = *state;
    let boxes = unit_boxes();
    let ghost bs = boxes@;
    let c = hidden_pairs_in_units(state, boxes);
    proof {
        if forall|v: int| 0 <= v < 27 ==> #[trigger] hidden_pairs_cleared(s0, unit_cells(v)) {
            assert forall|u: int| 0 <= u < rs.len() implies #[trigger] hidden_pairs_cleared(s0, rs[u]@) by {
                assert(rs[u]@ =~= unit_cells(u));
            }
            assert(all_hidden_pairs_cleared(s0, rs));
            assert forall|u: int| 0 <= u < cs.len() implies #[trigger] hidden_pairs_cleared(s1, cs[u]@) by {
                assert(cs[u]@ =~= unit_cells(u + 9));
            }
            assert(all_hidden_pairs_cleared(s1, cs));
            assert forall|u: int| 0 <= u < bs.len() implies #[trigger] hidden_pairs_cleared(s2, bs[u]@) by {
                assert(bs[u]@ =~= unit_cells(u + 18));
            }
            assert(all_hidden_pairs_cleared(s2, bs));
        }
        if a + b + c == 0 {
            assert forall|v: int| 0 <= v < 27 implies #[trigger] hidden_pairs_cleared(s0, unit_cells(v)) by {
                if v < 9 {
                    assert(rs[v]@ =~= unit_cells(v));
                } else if v < 18 {
                    assert(cs[v - 9]@ =~= unit_cells(v));
                } else {
                    assert(bs[v - 18]@ =~= unit_cells(v));
                }
            }
        }
        lemma_keeps_chain(&s0, &s1, &s2);
        lemma_keeps_chain(&s0, &s2, state);
        lemma_elim_trans(&s0, &s1, &s2, a as int, b as int);
        lemma_elim_trans(&s0, &s2, state, a + b, c as int);
        lemma_bits_total_bounds(state.candidates@, 81);
    }
    eliminated += a;
    eliminated += b;
    eliminated += c;
    eliminated
}

/// The cells of `unit` that are empty and still hold candidate `bit`.
fn cells_with_candidate(state: &RaterState, unit: &Vec<(usize, usize)>, bit: u16) -> (cells: Vec<(usize, usize)>)
    requires
        forall|i: int| 0 <= i < unit@.len() ==> cell_in_board(#[trigger] unit@[i]),
    ensures
        forall|i: int| 0 <= i < cells@.len() ==> cell_in_board(#[trigger] cells@[i]),
        forall|p: int| 0 <= p < cells@.len() ==> state.cells@[9 * (#[trigger] cells@[p]).0 + cells@[p].1] == 0,
        forall|i: int| 0 <= i < unit@.len() && state.cells@[9 * unit@[i].0 + unit@[i].1] == 0
            && state.candidates@[9 * unit@[i].0 + unit@[i].1] & bit != 0 ==> #[trigger] cells@.contains(unit@[i]),
        is_unit(unit@) ==> forall|p: int, q: int| 0 <= p < q < cells@.len() ==> cells@[p] != cells@[q],
        cells@ == open_list(*state, unit@, bit, unit@.len() as int),
{
    let mut cells: Vec<(usize, usize)> = Vec::new();
    let ghost mut idx: Seq<int> = Seq::empty();
    let mut i: usize = 0;
    while i < unit.len()
        invariant
            i <= unit@.len(),
            forall|i2: int| 0 <= i2 < unit@.len() ==> cell_in_board(#[trigger] unit@[i2]),
            idx.len() == cells@.len(),
            forall|i2: int| 0 <= i2 < cells@.len() ==> cell_in_board(#[trigger] cells@[i2]),
            forall|p: int| 0 <= p < cells@.len() ==> 0 <= #[trigger] idx[p] < i && cells@[p] == unit@[idx[p]],
            forall|p: int, q: int| 0 <= p < q < cells@.len() ==> idx[p] < idx[q],
            forall|p: int| 0 <= p < cells@.len() ==> state.cells@[9 * (#[trigger] cells@[p]).0 + cells@[p].1] == 0,
            forall|i2: int| 0 <= i2 < i && state.cells@[9 * unit@[i2].0 + unit@[i2].1] == 0
                && state.candidates@[9 * unit@[i2].0 + unit@[i2].1] & bit != 0 ==> #[trigger] cells@.contains(unit@[i2]),
            cells@ == open_list(*state, unit@, bit, i as int),
        decreases unit@.len() - i,
    {
        let (r, c) = unit[i];
        proof {
            assert(cell_in_board(unit@[i as int]));
        }
        let ghost before = cells@;
        if state.cells[r * 9 + c] == 0 && state.candidates[r * 9 + c] & bit != 0 {
            cells.push((r, c));
            proof {
                idx = idx.push(i as int);
            }
        }
        proof {
            assert forall|i2: int| 0 <= i2 < i + 1 && state.cells@[9 * unit@[i2].0 + unit@[i2].1] == 0
                && state.candidates@[9 * unit@[i2].0 + unit@[i2].1] & bit != 0 implies #[trigger] cells@.contains(unit@[i2]) by {
                if i2 < i {
                    assert(before.contains(unit@[i2]));
                    let j = choose|j: int| 0 <= j < before.len() && before[j] == unit@[i2];
                    assert(cells@[j] == before[j]);
                } else {
                    assert(cells@[before.len() as int] == unit@[i2]);
                }
            }
            assert forall|p: int| 0 <= p < cells@.len() implies state.cells@[9 * (#[trigger] cells@[p]).0 + cells@[p].1] == 0
                && cell_in_board(cells@[p]) by {
                if p < before.len() {
                    assert(cells@[p] == before[p]);
                }
            }
        }
        i += 1;
    }
    proof {
        if is_unit(unit@) {
            let v = choose|v: int| 0 <= v < 27 && unit@ == unit_cells(v);
            assert forall|p: int, q: int| 0 <= p < q < cells@.len() implies cells@[p] != cells@[q] by {
                assert(idx[p] < idx[q]);
                assert(cells@[p] == unit@[idx[p]] && cells@[q] == unit@[idx[q]]);
                lemma_unit_peers(v, idx[p], idx[q]);
            }
        }
    }
    cells
}

/// Some cell of `unit` holds digit `d`.
fn unit_has_digit(state: &RaterState, unit: &Vec<(usize, usize)>, d: u8) -> (found: bool)
    requires
        forall|i: int| 0 <= i < unit@.len() ==> cell_in_board(#[trigger] unit@[i]),
    ensures
        found == exists|i: int| 0 <= i < unit@.len() && state.cells@[9 * unit@[i].0 + unit@[i].1] == d,
{
    let mut i: usize = 0;
    while i < unit.len()
        invariant
            i <= unit@.len(),
            forall|i2: int| 0 <= i2 < unit@.len() ==> cell_in_board(#[trigger] unit@[i2]),
            forall|i2: int| 0 <= i2 < i ==> state.cells@[9 * (#[trigger] unit@[i2]).0 + unit@[i2].1] != d,
        decreases unit@.len() - i,
    {
        let (r, c) = unit[i];
        proof {
            assert(cell_in_board(unit@[i as int]));
        }
        if state.cells[r * 9 + c] == d {
            return true;
        }
        i += 1;
    }
    false
}

/// Every unit of `units` has its hidden pairs stripped.
spec fn all_hidden_pairs_cleared(st: RaterState, units: Seq<Vec<(usize, usize)>>) -> bool {
    forall|u: int| 0 <= u < units.len() ==> #[trigger] hidden_pairs_cleared(st, units[u]@)
}

fn hidden_pairs_in_units(state: &mut RaterState, units: Vec<Vec<(usize, usize)>>) -> (eliminated: u32)
    requires
        old(state).base_wf(),
        units_on_board(units@),
        real_units(units@),
    ensures
        final(state).elim_from(old(state), eliminated as int),
        keeps_solutions(old(state), final(state)),
        eliminated == 0 ==> *final(state) == *old(state),
        eliminated == 0 ==> forall|u: int| 0 <= u < units@.len() ==> #[trigger] hidden_pairs_cleared(*old(state), units@[u]@),
        all_hidden_pairs_cleared(*old(state), units@) ==> eliminated == 0,
{
    let ghost start = *state;
    proof {
        lemma_elim_refl(&start);
    }
    let mut eliminated: u32 = 0;
    let mut ui: usize = 0;
    while ui < units.len()
        invariant
            ui <= units@.len(),
            units_on_board(units@),
            real_units(units@),
            start.base_wf(),
            start.measure() <= 1296,
            state.elim_from(&start, eliminated as int),
            all_hidden_pairs_cleared(start, units@) ==> eliminated == 0,
            keeps_solutions(&start, state),
            eliminated == 0 ==> *state == start,
            eliminated == 0 ==> forall|u: int| 0 <= u < ui ==> #[trigger] hidden_pairs_cleared(start, units@[u]@),
        decreases units@.len() - ui,
    {
        let unit = &units[ui];
        let ghost snap = *state;
        let ghost eu = eliminated;
        proof {
            assert forall|i: int| 0 <= i < unit@.len() implies cell_in_board(#[trigger] unit@[i]) by {
                assert(cell_in_board(units@[ui as int]@[i]));
            }
            assert(is_unit(units@[ui as int]@));
        }
        // For each pair of digits, check if they appear in exactly 2 cells
        let mut d1: u8 = 1;
        while d1 <= 8
            invariant
                1 <= d1 <= 9,
                forall|i: int| 0 <= i < unit@.len() ==> cell_in_board(#[trigger] unit@[i]),
                is_unit(unit@),
                start.base_wf(),
                start.measure() <= 1296,
                state.elim_from(&start, eliminated as int),
                all_hidden_pairs_cleared(start, units@) ==> eliminated == 0,
                keeps_solutions(&start, state),
                eu <= eliminated,
                eu == 0 ==> snap == start,
                ui < units@.len(),
                unit == units@[ui as int],
                snap.cells == start.cells,
                eliminated == eu ==> *state == snap,
                eliminated == eu ==> forall|e1: u8, e2: u8| e1 < d1 && #[trigger] hidden_pair_at(snap, unit@, e1, e2)
                    ==> hidden_pair_cleared(snap, unit@, e1, e2),
            decreases 9 - d1,
        {
            let bit1 = 1u16 << d1;
            // Skip if already placed
            let ghost snap1 = *state;
            if !unit_has_digit(state, unit, d1) {
                let cells1 = cells_with_candidate(state, unit, bit1);
                if cells1.len() == 2 {
                    proof {
                        // Every solution puts `d1` on one of the two cells.
                        assert forall|s: Seq<Seq<u8>>| is_complete_valid(s) && start.consistent(s) implies
                            s[cells1@[0].0 as int][cells1@[0].1 as int] == d1 || s[cells1@[1].0 as int][cells1@[1].1 as int] == d1 by {
                            assert(snap1.consistent(s));
                            lemma_unit_digit_in_cells(&snap1, s, unit@, d1, bit1, cells1@);
                        }
                    }
                    let mut d2: u8 = d1 + 1;
                    while d2 <= 9
                        invariant
                            d1 < d2 <= 10,
                            1 <= d1 <= 8,
                            bit1 == 1u16 << d1,
                            forall|i: int| 0 <= i < unit@.len() ==> cell_in_board(#[trigger] unit@[i]),
                            is_unit(unit@),
                            forall|i: int| 0 <= i < cells1@.len() ==> cell_in_board(#[trigger] cells1@[i]),
                            cells1@.len() == 2,
                            cells1@[0] != cells1@[1],
                            forall|p: int| 0 <= p < cells1@.len() ==> snap1.cells@[9 * (#[trigger] cells1@[p]).0 + cells1@[p].1] == 0,
                            snap1.cells == start.cells,
                            forall|s: Seq<Seq<u8>>| is_complete_valid(s) && start.consistent(s) ==>
                                s[cells1@[0].0 as int][cells1@[0].1 as int] == d1 || s[cells1@[1].0 as int][cells1@[1].1 as int] == d1,
                            start.base_wf(),
                            start.measure() <= 1296,
                            state.elim_from(&start, eliminated as int),
                            all_hidden_pairs_cleared(start, units@) ==> eliminated == 0,
                            keeps_solutions(&start, state),
                            eu <= eliminated,
                            eu == 0 ==> snap == start,
                            ui < units@.len(),
                            unit == units@[ui as int],
                            eliminated == eu ==> *state == snap,
                            eliminated == eu ==> forall|e1: u8, e2: u8| e1 < d1 && #[trigger] hidden_pair_at(snap, unit@, e1, e2)
                                ==> hidden_pair_cleared(snap, unit@, e1, e2),
                            eliminated == eu ==> forall|e2: u8| e2 < d2 && #[trigger] hidden_pair_at(snap, unit@, d1, e2)
                                ==> hidden_pair_cleared(snap, unit@, d1, e2),
                            eliminated == eu ==> cells1@ == open_list(snap, unit@, bit1, unit@.len() as int),
                            snap.cells == start.cells,
                            !unit_holds(snap, unit@, d1),
                        decreases 10 - d2,
                    {
                        let bit2 = 1u16 << d2;
                        let ghost ed2 = eliminated;
                        let ghost snap2 = *state;
                        if !unit_has_digit(state, unit, d2) {
                            let cells2 = cells_with_candidate(state, unit, bit2);
                            if cells2 == cells1 {
                                // Hidden pair found: strip all other candidates from these 2 cells
                                let pair_mask = bit1 | bit2;
                                proof {
                                    // Every solution puts `d1` and `d2` on the two cells, so
                                    // nothing else is there.
                                    assert forall|s: Seq<Seq<u8>>| is_complete_valid(s) && start.consistent(s) implies
                                        has_digit(pair_mask, s[cells1@[0].0 as int][cells1@[0].1 as int])
                                            && has_digit(pair_mask, s[cells1@[1].0 as int][cells1@[1].1 as int]) by {
                                        assert(snap2.consistent(s));
                                        lemma_unit_digit_in_cells(&snap2, s, unit@, d2, bit2, cells2@);
                                        assert(cells2@[0] == cells1@[0] && cells2@[1] == cells1@[1]);
                                        let (p0, p1) = (cells1@[0], cells1@[1]);
                                        assert(cell_in_board(p0) && cell_in_board(p1));
                                        let x0 = s[p0.0 as int][p0.1 as int];
                                        let x1 = s[p1.0 as int][p1.1 as int];
                                        assert(x0 == d1 || x1 == d1);
                                        assert(x0 == d2 || x1 == d2);
                                        assert((x0 == d1 && x1 == d2) || (x0 == d2 && x1 == d1));
                                        lemma_pair_mask(d1, d2, x0);
                                        lemma_pair_mask(d1, d2, x1);
                                    }
                                    if eliminated == eu {
                                        assert(cells2@ == cells1@);
                                        assert(!unit_holds(snap, unit@, d2));
                                        assert(cells2@ == open_list(snap, unit@, 1u16 << d2, unit@.len() as int));
                                        assert(cells1@ == open_list(snap, unit@, 1u16 << d1, unit@.len() as int));
                                        assert(1 <= d1 < d2 <= 9);
                                        assert(hidden_pair_at(snap, unit@, d1, d2));
                                    }
                                }
                                let mut k: usize = 0;
                                while k < cells1.len()
                                    invariant
                                        k <= cells1@.len(),
                                        forall|i: int| 0 <= i < cells1@.len() ==> cell_in_board(#[trigger] cells1@[i]),
                                        cells1@.len() == 2,
                                        forall|p: int| 0 <= p < cells1@.len() ==> snap1.cells@[9 * (#[trigger] cells1@[p]).0 + cells1@[p].1] == 0,
                                        snap1.cells == start.cells,
                                        forall|s: Seq<Seq<u8>>| is_complete_valid(s) && start.consistent(s) ==>
                                            has_digit(pair_mask, s[cells1@[0].0 as int][cells1@[0].1 as int])
                                                && has_digit(pair_mask, s[cells1@[1].0 as int][cells1@[1].1 as int]),
                                        start.base_wf(),
                                        start.measure() <= 1296,
                                        state.elim_from(&start, eliminated as int),
                                        all_hidden_pairs_cleared(start, units@) ==> eliminated == 0,
                                        keeps_solutions(&start, state),
                                        eu <= eliminated,
                                        eu == 0 ==> snap == start,
                                        ui < units@.len(),
                                        unit == units@[ui as int],
                                        snap.cells == start.cells,
                                        eliminated == eu ==> *state == snap,
                                        pair_mask == (1u16 << d1) | (1u16 << d2),
                                        ed2 <= eliminated,
                                        bit1 == 1u16 << d1,
                                        eliminated == eu ==> cells1@ == open_list(snap, unit@, bit1, unit@.len() as int),
                                        eliminated == eu ==> hidden_pair_at(snap, unit@, d1, d2),
                                        eliminated == eu ==> forall|p: int| 0 <= p < k ==> #[trigger] snap.candidates@[9 * cells1@[p].0 + cells1@[p].1] & pair_mask
                                            == snap.candidates@[9 * cells1@[p].0 + cells1@[p].1],
                                    decreases cells1@.len() - k,
                                {
                                    let (r, c) = cells1[k];
                                    proof {
                                        assert(cell_in_board(cells1@[k as int]));
                                    }
                                    let old_c = state.candidates[r * 9 + c];
                                    let new_c = old_c & pair_mask;
                                    if new_c != old_c {
                                        let ghost s0 = *state;
                                        proof {
                                            lemma_and_sub(old_c, pair_mask);
                                            if all_hidden_pairs_cleared(start, units@) {
                                                assert(eliminated == eu);
                                                assert(hidden_pairs_cleared(start, units@[ui as int]@));
                                                assert(hidden_pair_cleared(snap, unit@, d1, d2));
                                                assert(cells1@[k as int] == (r, c));
                                                assert(open_list(snap, unit@, 1u16 << d1, unit@.len() as int)[k as int] == (r, c));
                                            }
                                        }
                                        state.candidates[r * 9 + c] = new_c;
                                        let removed = count_digits(old_c ^ new_c);
                                        proof {
                                            lemma_elim_step(&start, &s0, state, r * 9 + c, new_c, eliminated as int);
                                            assert forall|s: Seq<Seq<u8>>| is_complete_valid(s) && start.consistent(s) implies
                                                s0.cells@[9 * r + c] != 0 || has_digit(new_c, s[r as int][c as int]) by {
                                                assert(s0.consistent(s));
                                                assert(in_board(r as int, c as int));
                                                assert(s0.cell_ok(s, r as int, c as int));
                                                assert(s0.cells@[9 * r + c] == 0);
                                                lemma_digit_masks(old_c, pair_mask, s[r as int][c as int]);
                                            }
                                            lemma_keeps_restrict(&start, &s0, state, r as int, c as int, new_c);
                                        }
                                        eliminated += removed;
                                    }
                                    proof {
                                        if eliminated == eu {
                                            assert(cells1@[k as int] == (r, c));
                                            assert(new_c == old_c);
                                        }
                                    }
                                    k += 1;
                                }
                                proof {
                                    if eliminated == eu {
                                        assert(hidden_pair_cleared(snap, unit@, d1, d2));
                                    }
                                }
                            }
                        }
                        proof {
                            if eliminated == eu {
                                assert forall|e2: u8| e2 < d2 + 1 && #[trigger] hidden_pair_at(snap, unit@, d1, e2)
                                    implies hidden_pair_cleared(snap, unit@, d1, e2) by {
                                    if e2 == d2 {
                                        crate::digits::lemma_shift_cast(0u16, d2);
                                    }
                                }
                            }
                        }
                        d2 += 1;
                    }
                }
            }
            proof {
                if eliminated == eu {
                    assert forall|e1: u8, e2: u8| e1 < d1 + 1 && #[trigger] hidden_pair_at(snap, unit@, e1, e2)
                        implies hidden_pair_cleared(snap, unit@, e1, e2) by {
                    }
                }
            }
            d1 += 1;
        }
        proof {
            if eliminated == eu {
                assert(hidden_pairs_cleared(snap, unit@));
            }
            if eliminated == 0 {
                assert(snap == start);
            }
        }
        ui += 1;
    }
    eliminated
}

/// A unit in which `d` is not placed holds it, in every solution, on one of
/// the listed cells: those of the unit that are empty with candidate `d`.
proof fn lemma_unit_digit_in_cells(snap: &RaterState, s: Seq<Seq<u8>>, unit: Seq<(usize, usize)>, d: u8, bit: u16, cells: Seq<(usize, usize)>)
    requires
        is_complete_valid(s),
        snap.consistent(s),
        is_unit(unit),
        1 <= d <= 9,
        bit == 1u16 << d,
        !(exists|i: int| 0 <= i < unit.len() && snap.cells@[9 * unit[i].0 + unit[i].1] == d),
        forall|i: int| 0 <= i < unit.len() && snap.cells@[9 * unit[i].0 + unit[i].1] == 0
            && snap.candidates@[9 * unit[i].0 + unit[i].1] & bit != 0 ==> #[trigger] cells.contains(unit[i]),
    ensures
        exists|p: int| 0 <= p < cells.len() && s[cells[p].0 as int][cells[p].1 as int] == d,
{
    let v = choose|v: int| 0 <= v < 27 && unit == unit_cells(v);
    lemma_unit_has_digit(s, v, d as int);
    let i = choose|i: int| 0 <= i < 9 && #[trigger] s[unit_row(v, i)][unit_col(v, i)] == d;
    let (r, c) = (unit_row(v, i), unit_col(v, i));
    assert(unit[i] == (r as usize, c as usize));
    assert(in_board(r, c));
    assert(snap.cell_ok(s, r, c));
    assert(snap.cells@[9 * r + c] != d);
    lemma_bit_test(snap.candidates@[9 * r + c], d);
    assert(cells.contains(unit[i]));
    let p = choose|p: int| 0 <= p < cells.len() && cells[p] == unit[i];
}

/// The digits of `1 << d1 | 1 << d2` are `d1` and `d2`.
proof fn lemma_pair_mask(d1: u8, d2: u8, x: u8)
    requires
        1 <= d1 <= 9,
        1 <= d2 <= 9,
        x == d1 || x == d2,
    ensures
        has_digit((1u16 << d1) | (1u16 << d2), x),
{
    crate::killer::lemma_has_bit((1u16 << d1) | (1u16 << d2), x);
    lemma_mask_ops(1u16 << d1, 1u16 << d2, x as int);
    crate::killer::lemma_has_bit(1u16 << d1, x);
    crate::killer::lemma_has_bit(1u16 << d2, x);
    crate::digits::lemma_shift_cast(1u16 << d1, x);
    assert(x < 16 && d1 < 16 ==> ((((1u16 << d1) >> x) & 1u16 == 1u16) <==> x == d1)) by (bit_vector);
    assert(x < 16 && d2 < 16 ==> ((((1u16 << d2) >> x) & 1u16 == 1u16) <==> x == d2)) by (bit_vector);
}

/// Remove candidate `d` from cell `k` when the cell is empty and holds it;
/// the count grows by one for each removal.
proof fn lemma_remove_one(start: &RaterState, s0: &RaterState, s1: &RaterState, k: int, d: u8, e: int)
    requires
        s0.elim_from(start, e),
        0 <= k < 81,
        1 <= d <= 9,
        s0.candidates@[k] & (1u16 << d) != 0,
        s1.cells == s0.cells,
        s1.empty_count == s0.empty_count,
        s1.cage_states == s0.cage_states,
        s1.candidates@ == s0.candidates@.update(k, s0.candidates@[k] & !(1u16 << d)),
    ensures
        s1.elim_from(start, e + 1),
        e + 1 <= start.measure(),
{
    let x = s0.candidates@[k];
    lemma_bit_test(x, d);
    lemma_one_bit(x, d);
    lemma_elim_step(start, s0, s1, k, x & !(1u16 << d), e);
}

/// Every complete valid board that agreed with `start` still agrees with `st`:
/// the deductions in between ruled out no solution.
spec fn keeps_solutions(start: &RaterState, st: &RaterState) -> bool {
    forall|s: Seq<Seq<u8>>| is_complete_valid(s) && start.consistent(s) ==> st.consistent(s)
}

proof fn lemma_keeps_chain(a: &RaterState, b: &RaterState, c: &RaterState)
    requires
        keeps_solutions(a, b),
        keeps_solutions(b, c),
    ensures
        keeps_solutions(a, c),
{
}

/// Removing digit `d` from cell (r, c), which no solution agreeing with
/// `start` puts there, keeps every such solution.
proof fn lemma_keeps_remove(start: &RaterState, s0: &RaterState, s1: &RaterState, r: int, c: int, d: u8)
    requires
        keeps_solutions(start, s0),
        in_board(r, c),
        1 <= d <= 9,
        s1.cells == s0.cells,
        s1.candidates@ == s0.candidates@.update(9 * r + c, s0.candidates@[9 * r + c] & !(1u16 << d)),
        forall|s: Seq<Seq<u8>>| is_complete_valid(s) && start.consistent(s) ==> s[r][c] != d,
    ensures
        keeps_solutions(start, s1),
{
    assert forall|s: Seq<Seq<u8>>| is_complete_valid(s) && start.consistent(s) implies s1.consistent(s) by {
        assert(s0.consistent(s));
        lemma_strip_agreeing(s0, s1, r, c, d, s);
    }
}

/// Replacing the candidates of cell (r, c) by `v`, which still holds the
/// digit of every solution agreeing with `start`, keeps every such solution.
proof fn lemma_keeps_restrict(start: &RaterState, s0: &RaterState, s1: &RaterState, r: int, c: int, v: u16)
    requires
        keeps_solutions(start, s0),
        in_board(r, c),
        s1.cells == s0.cells,
        s1.candidates@ == s0.candidates@.update(9 * r + c, v),
        forall|s: Seq<Seq<u8>>| is_complete_valid(s) && start.consistent(s) ==> s0.cells@[9 * r + c] != 0 || has_digit(v, s[r][c]),
    ensures
        keeps_solutions(start, s1),
{
    assert forall|s: Seq<Seq<u8>>| is_complete_valid(s) && start.consistent(s) implies s1.consistent(s) by {
        assert(s0.consistent(s));
        lemma_keep_agreeing(s0, s1, r, c, v, s);
    }
}

/// Cell (r, c) is empty and still has `d` among its candidates.
spec fn open_cand(st: RaterState, r: int, c: int, d: u8) -> bool {
    st.cells@[9 * r + c] == 0 && has_digit(st.candidates@[9 * r + c], d)
}

/// The box with top-left corner (br, bc) lacks `d`, and the cells that can
/// still take it, at least two, all lie in row `row`.
spec fn box_points_row(st: RaterState, br: int, bc: int, d: u8, row: int) -> bool {
    &&& forall|r: int, c: int| br <= r < br + 3 && bc <= c < bc + 3 ==> #[trigger] st.cells@[9 * r + c] != d
    &&& br <= row < br + 3
    &&& exists|c1: int, c2: int| bc <= c1 < c2 < bc + 3 && #[trigger] open_cand(st, row, c1, d) && #[trigger] open_cand(st, row, c2, d)
    &&& forall|r: int, c: int| br <= r < br + 3 && bc <= c < bc + 3 && #[trigger] open_cand(st, r, c, d) ==> r == row
}

/// The box with top-left corner (br, bc) lacks `d`, and the cells that can
/// still take it, at least two, all lie in column `col`.
spec fn box_points_col(st: RaterState, br: int, bc: int, d: u8, col: int) -> bool {
    &&& forall|r: int, c: int| br <= r < br + 3 && bc <= c < bc + 3 ==> #[trigger] st.cells@[9 * r + c] != d
    &&& bc <= col < bc + 3
    &&& exists|r1: int, r2: int| br <= r1 < r2 < br + 3 && #[trigger] open_cand(st, r1, col, d) && #[trigger] open_cand(st, r2, col, d)
    &&& forall|r: int, c: int| br <= r < br + 3 && bc <= c < bc + 3 && #[trigger] open_cand(st, r, c, d) ==> c == col
}

/// Wherever the box at (br, bc) points for `d`, the rest of that row or
/// column no longer offers `d`.
spec fn pointing_cleared(st: RaterState, br: int, bc: int, d: u8) -> bool {
    &&& forall|row: int| #[trigger] box_points_row(st, br, bc, d, row)
        ==> forall|c: int| 0 <= c < 9 && (c < bc || bc + 3 <= c) ==> !#[trigger] open_cand(st, row, c, d)
    &&& forall|col: int| #[trigger] box_points_col(st, br, bc, d, col)
        ==> forall|r: int| 0 <= r < 9 && (r < br || br + 3 <= r) ==> !#[trigger] open_cand(st, r, col, d)
}

/// The cells of the box open for `d`, as listed, with their bit set.
spec fn listed_open(st: RaterState, br: int, bc: int, d: u8, positions: Seq<(usize, usize)>) -> bool {
    forall|i: int| 0 <= i < positions.len() ==> br <= (#[trigger] positions[i]).0 < br + 3 && bc <= positions[i].1 < bc + 3
        && st.cells@[9 * positions[i].0 + positions[i].1] == 0
        && st.candidates@[9 * positions[i].0 + positions[i].1] & (1u16 << d) != 0
}

proof fn lemma_listed_open(st: RaterState, br: int, bc: int, d: u8, positions: Seq<(usize, usize)>, i: int)
    requires
        d < 16,
        listed_open(st, br, bc, d, positions),
        0 <= i < positions.len(),
    ensures
        open_cand(st, positions[i].0 as int, positions[i].1 as int, d),
{
    let k = 9 * positions[i].0 + positions[i].1;
    lemma_bit_test(st.candidates@[k], d);
}

/// A box that holds `d` points nowhere.
proof fn lemma_points_placed(st: RaterState, br: int, bc: int, d: u8, r0: int, c0: int)
    requires
        br <= r0 < br + 3,
        bc <= c0 < bc + 3,
        st.cells@[9 * r0 + c0] == d,
    ensures
        pointing_cleared(st, br, bc, d),
{
}

/// A box with fewer than two cells open for `d` points nowhere.
proof fn lemma_points_few(st: RaterState, br: int, bc: int, d: u8, positions: Seq<(usize, usize)>)
    requires
        0 <= br <= 6,
        0 <= bc <= 6,
        d < 16,
        positions.len() < 2,
        forall|r: int, c: int| br <= r < br + 3 && bc <= c < bc + 3
            ==> (#[trigger] st.cells@[9 * r + c] == 0 && st.candidates@[9 * r + c] & (1u16 << d) != 0
                ==> positions.contains((r as usize, c as usize))),
    ensures
        pointing_cleared(st, br, bc, d),
{
    assert forall|row: int| !#[trigger] box_points_row(st, br, bc, d, row) by {
        if box_points_row(st, br, bc, d, row) {
            let (c1, c2) = choose|c1: int, c2: int| bc <= c1 < c2 < bc + 3 && #[trigger] open_cand(st, row, c1, d) && #[trigger] open_cand(st, row, c2, d);
            lemma_bit_test(st.candidates@[9 * row + c1], d);
            lemma_bit_test(st.candidates@[9 * row + c2], d);
            assert(st.cells@[9 * row + c1] == 0);
            assert(st.cells@[9 * row + c2] == 0);
            let i = choose|i: int| 0 <= i < positions.len() && positions[i] == (row as usize, c1 as usize);
            let j = choose|j: int| 0 <= j < positions.len() && positions[j] == (row as usize, c2 as usize);
            assert(i == j);
        }
    }
    assert forall|col: int| !#[trigger] box_points_col(st, br, bc, d, col) by {
        if box_points_col(st, br, bc, d, col) {
            let (r1, r2) = choose|r1: int, r2: int| br <= r1 < r2 < br + 3 && #[trigger] open_cand(st, r1, col, d) && #[trigger] open_cand(st, r2, col, d);
            lemma_bit_test(st.candidates@[9 * r1 + col], d);
            lemma_bit_test(st.candidates@[9 * r2 + col], d);
            assert(st.cells@[9 * r1 + col] == 0);
            assert(st.cells@[9 * r2 + col] == 0);
            let i = choose|i: int| 0 <= i < positions.len() && positions[i] == (r1 as usize, col as usize);
            let j = choose|j: int| 0 <= j < positions.len() && positions[j] == (r2 as usize, col as usize);
            assert(i == j);
        }
    }
}

/// Along a row the box can point only at the row of its first open cell, and
/// at none when two of its open cells lie in different rows.
proof fn lemma_points_row_at(st: RaterState, br: int, bc: int, d: u8, positions: Seq<(usize, usize)>, split: Option<int>)
    requires
        d < 16,
        positions.len() >= 1,
        listed_open(st, br, bc, d, positions),
        split matches Some(i2) ==> 0 <= i2 < positions.len() && positions[i2].0 != positions[0].0,
    ensures
        forall|row: int| #[trigger] box_points_row(st, br, bc, d, row) ==> split is None && row == positions[0].0,
{
    lemma_listed_open(st, br, bc, d, positions, 0);
    if let Some(i2) = split {
        lemma_listed_open(st, br, bc, d, positions, i2);
    }
}

/// Along a column the box can point only at the column of its first open
/// cell, and at none when two of its open cells lie in different columns.
proof fn lemma_points_col_at(st: RaterState, br: int, bc: int, d: u8, positions: Seq<(usize, usize)>, split: Option<int>)
    requires
        d < 16,
        positions.len() >= 1,
        listed_open(st, br, bc, d, positions),
        split matches Some(i2) ==> 0 <= i2 < positions.len() && positions[i2].1 != positions[0].1,
    ensures
        forall|col: int| #[trigger] box_points_col(st, br, bc, d, col) ==> split is None && col == positions[0].1,
{
    lemma_listed_open(st, br, bc, d, positions, 0);
    if let Some(i2) = split {
        lemma_listed_open(st, br, bc, d, positions, i2);
    }
}

/// A box without `d` whose open cells for `d`, two or more and all listed,
/// lie in one row points along that row.
proof fn lemma_points_row_holds(st: RaterState, br: int, bc: int, d: u8, positions: Seq<(usize, usize)>, row: int)
    requires
        0 <= br <= 6,
        0 <= bc <= 6,
        d < 16,
        positions.len() >= 2,
        listed_open(st, br, bc, d, positions),
        forall|i: int, j: int| 0 <= i < j < positions.len() ==> positions[i] != positions[j],
        forall|i: int| 0 <= i < positions.len() ==> (#[trigger] positions[i]).0 == row,
        forall|r: int, c: int| br <= r < br + 3 && bc <= c < bc + 3 ==> #[trigger] st.cells@[9 * r + c] != d
            && (st.cells@[9 * r + c] == 0 && st.candidates@[9 * r + c] & (1u16 << d) != 0
                ==> positions.contains((r as usize, c as usize))),
    ensures
        box_points_row(st, br, bc, d, row),
{
    lemma_listed_open(st, br, bc, d, positions, 0);
    lemma_listed_open(st, br, bc, d, positions, 1);
    let (p0, p1) = (positions[0], positions[1]);
    assert(p0 != p1);
    if p0.1 < p1.1 {
        assert(open_cand(st, row, p0.1 as int, d) && open_cand(st, row, p1.1 as int, d));
    } else {
        assert(open_cand(st, row, p1.1 as int, d) && open_cand(st, row, p0.1 as int, d));
    }
    assert forall|r: int, c: int| br <= r < br + 3 && bc <= c < bc + 3 && #[trigger] open_cand(st, r, c, d) implies r == row by {
        lemma_bit_test(st.candidates@[9 * r + c], d);
        assert(st.cells@[9 * r + c] != d);
        let i = choose|i: int| 0 <= i < positions.len() && positions[i] == (r as usize, c as usize);
        assert(positions[i].0 == row);
    }
}

/// A box without `d` whose open cells for `d`, two or more and all listed,
/// lie in one column points along that column.
proof fn lemma_points_col_holds(st: RaterState, br: int, bc: int, d: u8, positions: Seq<(usize, usize)>, col: int)
    requires
        0 <= br <= 6,
        0 <= bc <= 6,
        d < 16,
        positions.len() >= 2,
        listed_open(st, br, bc, d, positions),
        forall|i: int, j: int| 0 <= i < j < positions.len() ==> positions[i] != positions[j],
        forall|i: int| 0 <= i < positions.len() ==> (#[trigger] positions[i]).1 == col,
        forall|r: int, c: int| br <= r < br + 3 && bc <= c < bc + 3 ==> #[trigger] st.cells@[9 * r + c] != d
            && (st.cells@[9 * r + c] == 0 && st.candidates@[9 * r + c] & (1u16 << d) != 0
                ==> positions.contains((r as usize, c as usize))),
    ensures
        box_points_col(st, br, bc, d, col),
{
    lemma_listed_open(st, br, bc, d, positions, 0);
    lemma_listed_open(st, br, bc, d, positions, 1);
    let (p0, p1) = (positions[0], positions[1]);
    assert(p0 != p1);
    if p0.0 < p1.0 {
        assert(open_cand(st, p0.0 as int, col, d) && open_cand(st, p1.0 as int, col, d));
    } else {
        assert(open_cand(st, p1.0 as int, col, d) && open_cand(st, p0.0 as int, col, d));
    }
    assert forall|r: int, c: int| br <= r < br + 3 && bc <= c < bc + 3 && #[trigger] open_cand(st, r, c, d) implies c == col by {
        lemma_bit_test(st.candidates@[9 * r + c], d);
        assert(st.cells@[9 * r + c] != d);
        let i = choose|i: int| 0 <= i < positions.len() && positions[i] == (r as usize, c as usize);
        assert(positions[i].1 == col);
    }
}

/// Every box has its pointing cleared for every digit.
spec fn all_pointing_cleared(st: RaterState) -> bool {
    forall|br: int, bc: int, d: u8| 0 <= br < 9 && br % 3 == 0 && 0 <= bc < 9 && bc % 3 == 0
        && 1 <= d <= 9 ==> #[trigger] pointing_cleared(st, br, bc, d)
}

/// Try pointing pairs/triples. Returns number of candidates eliminated.
/// Nothing is removed exactly when no box points along a row or column at a
/// candidate outside it.
fn try_pointing_pairs(state: &mut RaterState) -> (eliminated: u32)
    requires
        old(state).base_wf(),
    ensures
        final(state).elim_from(old(state), eliminated as int),
        keeps_solutions(old(state), final(state)),
        eliminated == 0 ==> forall|br: int, bc: int, d: u8| 0 <= br < 9 && br % 3 == 0 && 0 <= bc < 9 && bc % 3 == 0 && 1 <= d <= 9
            ==> #[trigger] pointing_cleared(*old(state), br, bc, d),
        all_pointing_cleared(*old(state)) ==> eliminated == 0,
{
    let ghost start = *state;
    proof {
        lemma_elim_refl(&start);
    }
    let mut eliminated: u32 = 0;

    let mut br: usize = 0;
    while br < 9
        invariant
            br <= 9,
            br % 3 == 0,
            start.base_wf(),
            start.measure() <= 1296,
            state.elim_from(&start, eliminated as int),
            all_pointing_cleared(start) ==> eliminated == 0,
            keeps_solutions(&start, state),
            eliminated == 0 ==> *state == start,
            eliminated == 0 ==> forall|br2: int, bc2: int, d2: u8| 0 <= br2 < br && br2 % 3 == 0 && 0 <= bc2 < 9 && bc2 % 3 == 0 && 1 <= d2 <= 9
                ==> #[trigger] pointing_cleared(start, br2, bc2, d2),
        decreases 9 - br,
    {
        let mut bc: usize = 0;
        while bc < 9
            invariant
                br < 9,
                br % 3 == 0,
                bc <= 9,
                bc % 3 == 0,
                start.base_wf(),
                start.measure() <= 1296,
                state.elim_from(&start, eliminated as int),
                all_pointing_cleared(start) ==> eliminated == 0,
                keeps_solutions(&start, state),
                eliminated == 0 ==> *state == start,
                eliminated == 0 ==> forall|br2: int, bc2: int, d2: u8| 0 <= br2 < br && br2 % 3 == 0 && 0 <= bc2 < 9 && bc2 % 3 == 0 && 1 <= d2 <= 9
                    ==> #[trigger] pointing_cleared(start, br2, bc2, d2),
                eliminated == 0 ==> forall|bc2: int, d2: u8| 0 <= bc2 < bc && bc2 % 3 == 0 && 1 <= d2 <= 9
                    ==> #[trigger] pointing_cleared(start, br as int, bc2, d2),
            decreases 9 - bc,
        {
            let mut d: u8 = 1;
            while d <= 9
                invariant
                    br < 9,
                    br % 3 == 0,
                    bc < 9,
                    bc % 3 == 0,
                    1 <= d <= 10,
                    start.base_wf(),
                    start.measure() <= 1296,
                    state.elim_from(&start, eliminated as int),
                    all_pointing_cleared(start) ==> eliminated == 0,
                    keeps_solutions(&start, state),
                    eliminated == 0 ==> *state == start,
                    eliminated == 0 ==> forall|br2: int, bc2: int, d2: u8| 0 <= br2 < br && br2 % 3 == 0 && 0 <= bc2 < 9 && bc2 % 3 == 0 && 1 <= d2 <= 9
                        ==> #[trigger] pointing_cleared(start, br2, bc2, d2),
                    eliminated == 0 ==> forall|bc2: int, d2: u8| 0 <= bc2 < bc && bc2 % 3 == 0 && 1 <= d2 <= 9
                        ==> #[trigger] pointing_cleared(start, br as int, bc2, d2),
                    eliminated == 0 ==> forall|d2: u8| 1 <= d2 < d ==> #[trigger] pointing_cleared(start, br as int, bc as int, d2),
                decreases 10 - d,
            {
                let bit = 1u16 << d;

                // Skip if already placed in box
                let mut placed = false;
                let mut positions: Vec<(usize, usize)> = Vec::new();
                let ghost snap = *state;
                let ghost e0 = eliminated;
                let mut r: usize = br;
                while r < br + 3 && !placed
                    invariant
                        br <= r <= br + 3,
                        br % 3 == 0,
                        br < 9,
                        bc < 9,
                        bc % 3 == 0,
                        *state == snap,
                        bit == 1u16 << d,
                        listed_open(snap, br as int, bc as int, d, positions@),
                        placed ==> exists|r2: int, c2: int| br <= r2 < br + 3 && bc <= c2 < bc + 3 && #[trigger] snap.cells@[9 * r2 + c2] == d,
                        forall|i: int| 0 <= i < positions@.len() ==> br <= (#[trigger] positions@[i]).0 < br + 3
                            && bc <= positions@[i].1 < bc + 3,
                        forall|i: int| 0 <= i < positions@.len() ==> (#[trigger] positions@[i]).0 < r,
                        forall|i: int, j: int| 0 <= i < j < positions@.len() ==> positions@[i] != positions@[j],
                        !placed ==> forall|r2: int, c2: int| br <= r2 < r && bc <= c2 < bc + 3
                            ==> #[trigger] snap.cells@[9 * r2 + c2] != d
                                && (snap.cells@[9 * r2 + c2] == 0 && snap.candidates@[9 * r2 + c2] & bit != 0
                                    ==> positions@.contains((r2 as usize, c2 as usize))),
                    decreases br + 3 - r,
                {
                    let mut c: usize = bc;
                    while c < bc + 3 && !placed
                        invariant
                            br <= r < br + 3,
                            br % 3 == 0,
                            br < 9,
                            bc < 9,
                            bc % 3 == 0,
                            bc <= c <= bc + 3,
                            *state == snap,
                            bit == 1u16 << d,
                            listed_open(snap, br as int, bc as int, d, positions@),
                            placed ==> exists|r2: int, c2: int| br <= r2 < br + 3 && bc <= c2 < bc + 3 && #[trigger] snap.cells@[9 * r2 + c2] == d,
                            forall|i: int| 0 <= i < positions@.len() ==> br <= (#[trigger] positions@[i]).0 < br + 3
                                && bc <= positions@[i].1 < bc + 3,
                            forall|i: int| 0 <= i < positions@.len() ==> (#[trigger] positions@[i]).0 <= r
                                && (positions@[i].0 < r || positions@[i].1 < c),
                            forall|i: int, j: int| 0 <= i < j < positions@.len() ==> positions@[i] != positions@[j],
                            !placed ==> forall|r2: int, c2: int| ((br <= r2 < r && bc <= c2 < bc + 3) || (r2 == r && bc <= c2 < c))
                                ==> #[trigger] snap.cells@[9 * r2 + c2] != d
                                    && (snap.cells@[9 * r2 + c2] == 0 && snap.candidates@[9 * r2 + c2] & bit != 0
                                        ==> positions@.contains((r2 as usize, c2 as usize))),
                        decreases bc + 3 - c,
                    {
                        let ghost before = positions@;
                        let ghost old_c = c;
                        proof {
                            assert(forall|r2: int, c2: int| ((br <= r2 < r && bc <= c2 < bc + 3) || (r2 == r && bc <= c2 < old_c))
                                ==> #[trigger] snap.cells@[9 * r2 + c2] != d
                                    && (snap.cells@[9 * r2 + c2] == 0 && snap.candidates@[9 * r2 + c2] & bit != 0
                                        ==> before.contains((r2 as usize, c2 as usize))));
                        }
                        if state.cells[r * 9 + c] == d {
                            placed = true;
                        } else if state.cells[r * 9 + c] == 0 && state.candidates[r * 9 + c] & bit != 0 {
                            positions.push((r, c));
                        }
                        proof {
                            if placed {
                                assert(snap.cells@[9 * (r as int) + (c as int)] == d);
                            }
                            if positions@.len() > before.len() {
                                assert(positions@ == before.push((r, c)));
                            }
                            if !placed {
                                assert forall|r2: int, c2: int| ((br <= r2 < r && bc <= c2 < bc + 3) || (r2 == r && bc <= c2 < c + 1))
                                    implies #[trigger] snap.cells@[9 * r2 + c2] != d
                                        && (snap.cells@[9 * r2 + c2] == 0 && snap.candidates@[9 * r2 + c2] & bit != 0
                                            ==> positions@.contains((r2 as usize, c2 as usize))) by {
                                    if r2 == r && c2 == c {
                                        if snap.cells@[9 * r2 + c2] == 0 && snap.candidates@[9 * r2 + c2] & bit != 0 {
                                            assert(positions@[before.len() as int] == (r, c));
                                        }
                                    } else {
                                        assert(snap.cells@[9 * r2 + c2] != d);
                                        if snap.cells@[9 * r2 + c2] == 0 && snap.candidates@[9 * r2 + c2] & bit != 0 {
                                            assert(before.contains((r2 as usize, c2 as usize)));
                                            let j = choose|j: int| 0 <= j < before.len() && before[j] == (r2 as usize, c2 as usize);
                                            assert(positions@[j] == before[j]);
                                        }
                                    }
                                }
                            }
                        }
                        c += 1;
                    }
                    proof {
                        if !placed {
                            assert(c == bc + 3);
                            assert(forall|r2: int, c2: int| ((br <= r2 < r && bc <= c2 < bc + 3) || (r2 == r && bc <= c2 < c))
                                ==> #[trigger] snap.cells@[9 * r2 + c2] != d
                                    && (snap.cells@[9 * r2 + c2] == 0 && snap.candidates@[9 * r2 + c2] & bit != 0
                                        ==> positions@.contains((r2 as usize, c2 as usize))));
                            assert forall|r2: int, c2: int| br <= r2 < r + 1 && bc <= c2 < bc + 3
                                implies #[trigger] snap.cells@[9 * r2 + c2] != d
                                    && (snap.cells@[9 * r2 + c2] == 0 && snap.candidates@[9 * r2 + c2] & bit != 0
                                        ==> positions@.contains((r2 as usize, c2 as usize))) by {
                                assert((br <= r2 < r && bc <= c2 < bc + 3) || (r2 == r && bc <= c2 < c));
                            }
                        }
                    }
                    r += 1;
                }
                proof {
                    if !placed {
                        // Every solution puts `d` somewhere in the box, on one of the positions.
                        let u = 18 + 3 * (br as int / 3) + bc as int / 3;
                        assert forall|i: int| 0 <= i < 9 implies #[trigger] unit_row(u, i) == br + i / 3 && unit_col(u, i) == bc + i % 3 by {
                            assert((u - 18) / 3 == br as int / 3);
                            assert((u - 18) % 3 == bc as int / 3);
                        }
                        assert forall|s: Seq<Seq<u8>>| is_complete_valid(s) && start.consistent(s) implies
                            exists|p: int| 0 <= p < positions@.len() && s[positions@[p].0 as int][positions@[p].1 as int] == d by {
                            assert(snap.consistent(s));
                            lemma_unit_has_digit(s, u, d as int);
                            let i = choose|i: int| 0 <= i < 9 && #[trigger] s[unit_row(u, i)][unit_col(u, i)] == d;
                            let (r2, c2) = (br + i / 3, bc + i % 3);
                            assert(unit_row(u, i) == r2 && unit_col(u, i) == c2);
                            assert(in_board(r2, c2));
                            assert(snap.cell_ok(s, r2, c2));
                            assert(snap.cells@[9 * r2 + c2] != d);
                            lemma_bit_test(snap.candidates@[9 * r2 + c2], d);
                            assert(positions@.contains((r2 as usize, c2 as usize)));
                            let p = choose|p: int| 0 <= p < positions@.len() && positions@[p] == (r2 as usize, c2 as usize);
                        }
                    }
                }
                if !placed && positions.len() >= 2 {
                    // Check if all positions are in the same row
                    let mut same_row = true;
                    let mut i: usize = 0;
                    while i < positions.len()
                        invariant
                            i <= positions@.len(),
                            positions@.len() >= 2,
                            same_row ==> forall|i2: int| 0 <= i2 < i ==> (#[trigger] positions@[i2]).0 == positions@[0].0,
                            !same_row ==> exists|i2: int| 0 <= i2 < i && (#[trigger] positions@[i2]).0 != positions@[0].0,
                        decreases positions@.len() - i,
                    {
                        if positions[i].0 != positions[0].0 {
                            same_row = false;
                        }
                        i += 1;
                    }
                    if same_row {
                        let row = positions[0].0;
                        proof {
                            lemma_points_row_holds(snap, br as int, bc as int, d, positions@, row as int);
                        }
                        let mut c: usize = 0;
                        while c < 9
                            invariant
                                c <= 9,
                                row < 9,
                                bc < 9,
                                bc % 3 == 0,
                                forall|i2: int| 0 <= i2 < positions@.len() ==> (#[trigger] positions@[i2]).0 == row
                                    && bc <= positions@[i2].1 < bc + 3,
                                forall|s: Seq<Seq<u8>>| is_complete_valid(s) && start.consistent(s) ==>
                                    exists|p: int| 0 <= p < positions@.len() && s[positions@[p].0 as int][positions@[p].1 as int] == d,
                                1 <= d <= 9,
                                bit == 1u16 << d,
                                start.base_wf(),
                                start.measure() <= 1296,
                                state.elim_from(&start, eliminated as int),
                                all_pointing_cleared(start) ==> eliminated == 0,
                                keeps_solutions(&start, state),
                                e0 <= eliminated,
                                e0 == 0 ==> snap == start,
                                eliminated == e0 ==> *state == snap,
                                eliminated == e0 ==> forall|c2: int| 0 <= c2 < c && c2 / 3 != bc / 3 ==> !#[trigger] open_cand(snap, row as int, c2, d),
                                br < 9,
                                br % 3 == 0,
                                box_points_row(snap, br as int, bc as int, d, row as int),
                            decreases 9 - c,
                        {
                            if c / 3 != bc / 3 && state.cells[row * 9 + c] == 0 && state.candidates[row * 9 + c] & bit != 0 {
                                let ghost s0 = *state;
                                proof {
                                    if all_pointing_cleared(start) {
                                        assert(pointing_cleared(start, br as int, bc as int, d));
                                        lemma_bit_test(snap.candidates@[9 * (row as int) + (c as int)], d);
                                        assert(open_cand(snap, row as int, c as int, d));
                                    }
                                }
                                state.candidates[row * 9 + c] &= !bit;
                                proof {
                                    lemma_remove_one(&start, &s0, state, row * 9 + c, d, eliminated as int);
                                    assert forall|s: Seq<Seq<u8>>| is_complete_valid(s) && start.consistent(s) implies s[row as int][c as int] != d by {
                                        let p = choose|p: int| 0 <= p < positions@.len() && s[positions@[p].0 as int][positions@[p].1 as int] == d;
                                        let c2 = positions@[p].1 as int;
                                        assert(c2 / 3 != c as int / 3);
                                        assert(in_board(row as int, c2) && in_board(row as int, c as int));
                                        assert(is_peer(row as int, c2, row as int, c as int));
                                    }
                                    lemma_keeps_remove(&start, &s0, state, row as int, c as int, d);
                                }
                                eliminated += 1;
                            }
                            proof {
                                if eliminated == e0 {
                                    lemma_bit_test(snap.candidates@[9 * (row as int) + (c as int)], d);
                                }
                            }
                            c += 1;
                        }
                        proof {
                            assert(eliminated == e0 ==> forall|c2: int| 0 <= c2 < 9 && (c2 < bc || bc + 3 <= c2)
                                ==> !#[trigger] open_cand(snap, positions@[0].0 as int, c2, d)) by {
                                if eliminated == e0 {
                                    assert forall|c2: int| 0 <= c2 < 9 && (c2 < bc || bc + 3 <= c2)
                                        implies !#[trigger] open_cand(snap, positions@[0].0 as int, c2, d) by {
                                        assert(c2 / 3 != bc / 3);
                                    }
                                }
                            }
                        }
                    }
                    let ghost e1 = eliminated;
                    proof {
                        let split: Option<int> = if same_row {
                            None
                        } else {
                            Some(choose|i2: int| 0 <= i2 < positions@.len() && (#[trigger] positions@[i2]).0 != positions@[0].0)
                        };
                        lemma_points_row_at(snap, br as int, bc as int, d, positions@, split);
                        assert(e0 <= e1);
                    }

                    // Check if all positions are in the same col
                    let mut same_col = true;
                    let mut i: usize = 0;
                    while i < positions.len()
                        invariant
                            i <= positions@.len(),
                            positions@.len() >= 2,
                            same_col ==> forall|i2: int| 0 <= i2 < i ==> (#[trigger] positions@[i2]).1 == positions@[0].1,
                            !same_col ==> exists|i2: int| 0 <= i2 < i && (#[trigger] positions@[i2]).1 != positions@[0].1,
                        decreases positions@.len() - i,
                    {
                        if positions[i].1 != positions[0].1 {
                            same_col = false;
                        }
                        i += 1;
                    }
                    if same_col {
                        let col = positions[0].1;
                        proof {
                            lemma_points_col_holds(snap, br as int, bc as int, d, positions@, col as int);
                        }
                        let mut r: usize = 0;
                        while r < 9
                            invariant
                                r <= 9,
                                col < 9,
                                br < 9,
                                br % 3 == 0,
                                forall|i2: int| 0 <= i2 < positions@.len() ==> (#[trigger] positions@[i2]).1 == col
                                    && br <= positions@[i2].0 < br + 3,
                                forall|s: Seq<Seq<u8>>| is_complete_valid(s) && start.consistent(s) ==>
                                    exists|p: int| 0 <= p < positions@.len() && s[positions@[p].0 as int][positions@[p].1 as int] == d,
                                1 <= d <= 9,
                                bit == 1u16 << d,
                                start.base_wf(),
                                start.measure() <= 1296,
                                state.elim_from(&start, eliminated as int),
                                all_pointing_cleared(start) ==> eliminated == 0,
                                keeps_solutions(&start, state),
                                e0 <= e1,
                                e1 <= eliminated,
                                e0 == 0 ==> snap == start,
                                eliminated == e0 ==> *state == snap,
                                eliminated == e0 ==> forall|r2: int| 0 <= r2 < r && r2 / 3 != br / 3 ==> !#[trigger] open_cand(snap, r2, col as int, d),
                                bc < 9,
                                bc % 3 == 0,
                                box_points_col(snap, br as int, bc as int, d, col as int),
                            decreases 9 - r,
                        {
                            if r / 3 != br / 3 && state.cells[r * 9 + col] == 0 && state.candidates[r * 9 + col] & bit != 0 {
                                let ghost s0 = *state;
                                proof {
                                    if all_pointing_cleared(start) {
                                        assert(pointing_cleared(start, br as int, bc as int, d));
                                        lemma_bit_test(snap.candidates@[9 * (r as int) + (col as int)], d);
                                        assert(open_cand(snap, r as int, col as int, d));
                                    }
                                }
                                state.candidates[r * 9 + col] &= !bit;
                                proof {
                                    lemma_remove_one(&start, &s0, state, r * 9 + col, d, eliminated as int);
                                    assert forall|s: Seq<Seq<u8>>| is_complete_valid(s) && start.consistent(s) implies s[r as int][col as int] != d by {
                                        let p = choose|p: int| 0 <= p < positions@.len() && s[positions@[p].0 as int][positions@[p].1 as int] == d;
                                        let r2 = positions@[p].0 as int;
                                        assert(r2 / 3 != r as int / 3);
                                        assert(in_board(r2, col as int) && in_board(r as int, col as int));
                                        assert(is_peer(r2, col as int, r as int, col as int));
                                    }
                                    lemma_keeps_remove(&start, &s0, state, r as int, col as int, d);
                                }
                                eliminated += 1;
                            }
                            proof {
                                if eliminated == e0 {
                                    lemma_bit_test(snap.candidates@[9 * (r as int) + (col as int)], d);
                                }
                            }
                            r += 1;
                        }
                        proof {
                            assert(eliminated == e0 ==> forall|r2: int| 0 <= r2 < 9 && (r2 < br || br + 3 <= r2)
                                ==> !#[trigger] open_cand(snap, r2, positions@[0].1 as int, d)) by {
                                if eliminated == e0 {
                                    assert forall|r2: int| 0 <= r2 < 9 && (r2 < br || br + 3 <= r2)
                                        implies !#[trigger] open_cand(snap, r2, positions@[0].1 as int, d) by {
                                        assert(r2 / 3 != br / 3);
                                    }
                                }
                            }
                        }
                    }
                    proof {
                        let split: Option<int> = if same_col {
                            None
                        } else {
                            Some(choose|i2: int| 0 <= i2 < positions@.len() && (#[trigger] positions@[i2]).1 != positions@[0].1)
                        };
                        lemma_points_col_at(snap, br as int, bc as int, d, positions@, split);
                        assert(e1 <= eliminated);
                        assert(eliminated == e0 ==> pointing_cleared(snap, br as int, bc as int, d));
                    }
                }
                proof {
                    if placed {
                        let (r0, c0) = choose|r2: int, c2: int| br <= r2 < br + 3 && bc <= c2 < bc + 3 && #[trigger] snap.cells@[9 * r2 + c2] == d;
                        lemma_points_placed(snap, br as int, bc as int, d, r0, c0);
                    } else if positions@.len() < 2 {
                        lemma_points_few(snap, br as int, bc as int, d, positions@);
                    }
                    assert(e0 <= eliminated);
                    assert(eliminated == e0 ==> pointing_cleared(snap, br as int, bc as int, d));
                }
                d += 1;
            }
            bc += 3;
        }
        br += 3;
    }

    eliminated
}

/// Cell `a` of `unit` is empty with two or three candidates.
spec fn triple_cell(st: RaterState, unit: Seq<(usize, usize)>, a: int) -> bool {
    st.cells@[9 * unit[a].0 + unit[a].1] == 0
        && 2 <= popcount(st.candidates@[9 * unit[a].0 + unit[a].1]) <= 3
}

/// The candidates of cells `a`, `b` and `c` of `unit`, together.
spec fn triple_mask(st: RaterState, unit: Seq<(usize, usize)>, a: int, b: int, c: int) -> u16 {
    st.candidates@[9 * unit[a].0 + unit[a].1] | st.candidates@[9 * unit[b].0 + unit[b].1]
        | st.candidates@[9 * unit[c].0 + unit[c].1]
}

/// Every empty cell of `unit` other than cells `a`, `b` and `c` lacks their
/// candidates.
spec fn triple_cleared(st: RaterState, unit: Seq<(usize, usize)>, a: int, b: int, c: int) -> bool {
    forall|k: int| 0 <= k < unit.len() && unit[k] != unit[a] && unit[k] != unit[b] && unit[k] != unit[c]
        && st.cells@[9 * unit[k].0 + unit[k].1] == 0
        ==> #[trigger] st.candidates@[9 * unit[k].0 + unit[k].1] & triple_mask(st, unit, a, b, c) == 0
}

/// Wherever three empty cells of `unit` share three candidates between them,
/// no other empty cell of the unit offers any of them.
spec fn naked_triples_cleared(st: RaterState, unit: Seq<(usize, usize)>) -> bool {
    forall|a: int, b: int, c: int| 0 <= a < b < c < unit.len() && #[trigger] triple_cell(st, unit, a)
        && #[trigger] triple_cell(st, unit, b) && #[trigger] triple_cell(st, unit, c)
        && popcount(triple_mask(st, unit, a, b, c)) == 3
        ==> triple_cleared(st, unit, a, b, c)
}

/// Try naked triples in all units. Returns number of candidates eliminated.
/// Nothing is removed exactly when no naked triple of a row, column or box
/// has a candidate left to clear.
fn try_naked_triples(state: &mut RaterState) -> (eliminated: u32)
    requires
        old(state).base_wf(),
    ensures
        final(state).elim_from(old(state), eliminated as int),
        keeps_solutions(old(state), final(state)),
        eliminated == 0 ==> forall|v: int| 0 <= v < 27 ==> #[trigger] naked_triples_cleared(*old(state), unit_cells(v)),
        (forall|v: int| 0 <= v < 27 ==> #[trigger] naked_triples_cleared(*old(state), unit_cells(v))) ==> eliminated == 0,
{
    let ghost s0 = *state;
    let mut eliminated: u32 = 0;
    proof {
        lemma_elim_refl(&s0);
    }
    let rows = unit_rows();
    let ghost rs = rows@;
    let a = naked_triples_in_units(state, rows);
    let ghost s1 = *state;
    let cols = unit_cols();
    let ghost cs = cols@;
    let b = naked_triples_in_units(state, cols);
    let ghost s2 = *state;
    let boxes = unit_boxes();
    let ghost bs = boxes@;
    let c = naked_triples_in_units(state, boxes);
    proof {
        if forall|v: int| 0 <= v < 27 ==> #[trigger] naked_triples_cleared(s0, unit_cells(v)) {
            assert forall|u: int| 0 <= u < rs.len() implies #[trigger] naked_triples_cleared(s0, rs[u]@) by {
                assert(rs[u]@ =~= unit_cells(u));
            }
            assert(all_triples_cleared(s0, rs));
            assert forall|u: int| 0 <= u < cs.len() implies #[trigger] naked_triples_cleared(s1, cs[u]@) by {
                assert(cs[u]@ =~= unit_cells(u + 9));
            }
            assert(all_triples_cleared(s1, cs));
            assert forall|u: int| 0 <= u < bs.len() implies #[trigger] naked_triples_cleared(s2, bs[u]@) by {
                assert(bs[u]@ =~= unit_cells(u + 18));
            }
            assert(all_triples_cleared(s2, bs));
        }
        if a + b + c == 0 {
            assert forall|v: int| 0 <= v < 27 implies #[trigger] naked_triples_cleared(s0, unit_cells(v)) by {
                if v < 9 {
                    assert(rs[v]@ =~= unit_cells(v));
                } else if v < 18 {
                    assert(cs[v - 9]@ =~= unit_cells(v));
                } else {
                    assert(bs[v - 18]@ =~= unit_cells(v));
                }
            }
        }
        lemma_keeps_chain(&s0, &s1, &s2);
        lemma_keeps_chain(&s0, &s2, state);
        lemma_elim_trans(&s0, &s1, &s2, a as int, b as int);
        lemma_elim_trans(&s0, &s2, state, a + b, c as int);
        lemma_bits_total_bounds(state.candidates@, 81);
    }
    eliminated += a;
    eliminated += b;
    eliminated += c;
    eliminated
}

/// Every unit of `units` has its naked triples cleared.
spec fn all_triples_cleared(st: RaterState, units: Seq<Vec<(usize, usize)>>) -> bool {
    forall|u: int| 0 <= u < units.len() ==> #[trigger] naked_triples_cleared(st, units[u]@)
}

#[verifier::rlimit(80)]
fn naked_triples_in_units(state: &mut RaterState, units: Vec<Vec<(usize, usize)>>) -> (eliminated: u32)
    requires
        old(state).base_wf(),
        units_on_board(units@),
        real_units(units@),
    ensures
        final(state).elim_from(old(state), eliminated as int),
        keeps_solutions(old(state), final(state)),
        eliminated == 0 ==> *final(state) == *old(state),
        eliminated == 0 ==> forall|u: int| 0 <= u < units@.len() ==> #[trigger] naked_triples_cleared(*old(state), units@[u]@),
        all_triples_cleared(*old(state), units@) ==> eliminated == 0,
{
    let ghost start = *state;
    proof {
        lemma_elim_refl(&start);
    }
    let mut eliminated: u32 = 0;
    let mut ui: usize = 0;
    while ui < units.len()
        invariant
            ui <= units@.len(),
            units_on_board(units@),
            real_units(units@),
            start.base_wf(),
            start.measure() <= 1296,
            state.elim_from(&start, eliminated as int),
            all_triples_cleared(start, units@) ==> eliminated == 0,
            keeps_solutions(&start, state),
            eliminated == 0 ==> *state == start,
            eliminated == 0 ==> forall|u: int| 0 <= u < ui ==> #[trigger] naked_triples_cleared(start, units@[u]@),
        decreases units@.len() - ui,
    {
        let unit = &units[ui];
        let ghost snap = *state;
        let ghost eu = eliminated;
        proof {
            assert(is_unit(units@[ui as int]@));
        }
        let mut unfilled: Vec<(usize, usize, u16)> = Vec::new();
        let ghost mut idx: Seq<int> = Seq::empty();
        let mut i: usize = 0;
        while i < unit.len()
            invariant
                i <= unit@.len(),
                unit == units@[ui as int],
                ui < units@.len(),
                units_on_board(units@),
                is_unit(unit@),
                *state == snap,
                all_triples_cleared(start, units@) ==> eliminated == 0,
                eliminated == eu,
                eu == 0 ==> snap == start,
                idx.len() == unfilled@.len(),
                forall|p: int| 0 <= p < unfilled@.len() ==> 2 <= popcount(#[trigger] unfilled@[p].2) <= 3,
                forall|p: int| 0 <= p < unfilled@.len() ==> 0 <= #[trigger] idx[p] < i,
                forall|p: int, q: int| 0 <= p < q < unfilled@.len() ==> idx[p] < idx[q],
                forall|p: int| 0 <= p < unfilled@.len() ==> {
                    let cell = unit@[#[trigger] idx[p]];
                    &&& unfilled@[p].0 == cell.0
                    &&& unfilled@[p].1 == cell.1
                    &&& snap.cells@[9 * cell.0 + cell.1] == 0
                    &&& unfilled@[p].2 == snap.candidates@[9 * cell.0 + cell.1]
                },
                forall|a: int| 0 <= a < i && #[trigger] triple_cell(snap, unit@, a) ==> exists|p: int| 0 <= p < unfilled@.len() && idx[p] == a,
            decreases unit@.len() - i,
        {
            let (r, c) = unit[i];
            proof {
                assert(cell_in_board(units@[ui as int]@[i as int]));
            }
            let ghost ib0 = idx;
            if state.cells[r * 9 + c] == 0 {
                let n = count_digits(state.candidates[r * 9 + c]);
                if 2 <= n && n <= 3 {
                    let ghost (pb, ib) = (unfilled@, idx);
                    unfilled.push((r, c, state.candidates[r * 9 + c]));
                    proof {
                        idx = idx.push(i as int);
                        assert forall|p: int| 0 <= p < unfilled@.len() implies {
                            let cell = unit@[#[trigger] idx[p]];
                            &&& unfilled@[p].0 == cell.0
                            &&& unfilled@[p].1 == cell.1
                            &&& snap.cells@[9 * cell.0 + cell.1] == 0
                            &&& unfilled@[p].2 == snap.candidates@[9 * cell.0 + cell.1]
                        } by {
                            if p < pb.len() {
                                assert(unfilled@[p] == pb[p] && idx[p] == ib[p]);
                            }
                        }
                    }
                }
            }
            proof {
                assert forall|a: int| 0 <= a < i + 1 && #[trigger] triple_cell(snap, unit@, a)
                    implies exists|p: int| 0 <= p < unfilled@.len() && idx[p] == a by {
                    if a == i {
                        assert(unit@[a] == (r, c));
                        assert(idx[idx.len() - 1] == a);
                    } else {
                        let p = choose|p: int| 0 <= p < ib0.len() && ib0[p] == a;
                        assert(idx[p] == ib0[p]);
                    }
                }
            }
            i += 1;
        }

        let mut i: usize = 0;
        while i < unfilled.len()
            invariant
                i <= unfilled@.len(),
                unit == units@[ui as int],
                ui < units@.len(),
                units_on_board(units@),
                real_units(units@),
                is_unit(unit@),
                unit@.len() == 9,
                keeps_solutions(&start, &snap),
                idx.len() == unfilled@.len(),
                forall|p: int| 0 <= p < unfilled@.len() ==> 2 <= popcount(#[trigger] unfilled@[p].2) <= 3,
                forall|p: int| 0 <= p < unfilled@.len() ==> 0 <= #[trigger] idx[p] < 9,
                forall|p: int, q: int| 0 <= p < q < unfilled@.len() ==> idx[p] < idx[q],
                forall|p: int| 0 <= p < unfilled@.len() ==> {
                    let cell = unit@[#[trigger] idx[p]];
                    &&& unfilled@[p].0 == cell.0
                    &&& unfilled@[p].1 == cell.1
                    &&& snap.cells@[9 * cell.0 + cell.1] == 0
                    &&& unfilled@[p].2 == snap.candidates@[9 * cell.0 + cell.1]
                },
                start.base_wf(),
                start.measure() <= 1296,
                state.elim_from(&start, eliminated as int),
                all_triples_cleared(start, units@) ==> eliminated == 0,
                keeps_solutions(&start, state),
                eu <= eliminated,
                eu == 0 ==> snap == start,
                eliminated == eu ==> *state == snap,
                eliminated == eu ==> forall|p: int, q: int, w: int| 0 <= p < q < w < unfilled@.len() && (p < i)
                    && popcount(unfilled@[p].2 | unfilled@[q].2 | unfilled@[w].2) == 3
                    ==> #[trigger] triple_cleared(snap, unit@, idx[p], idx[q], idx[w]),
            decreases unfilled@.len() - i,
        {
            let mut j: usize = i + 1;
            while j < unfilled.len()
                invariant
                    i < j <= unfilled@.len(),
                    unit == units@[ui as int],
                    ui < units@.len(),
                    units_on_board(units@),
                    real_units(units@),
                    is_unit(unit@),
                    unit@.len() == 9,
                    keeps_solutions(&start, &snap),
                    idx.len() == unfilled@.len(),
                    forall|p: int| 0 <= p < unfilled@.len() ==> 2 <= popcount(#[trigger] unfilled@[p].2) <= 3,
                    forall|p: int| 0 <= p < unfilled@.len() ==> 0 <= #[trigger] idx[p] < 9,
                    forall|p: int, q: int| 0 <= p < q < unfilled@.len() ==> idx[p] < idx[q],
                    forall|p: int| 0 <= p < unfilled@.len() ==> {
                        let cell = unit@[#[trigger] idx[p]];
                        &&& unfilled@[p].0 == cell.0
                        &&& unfilled@[p].1 == cell.1
                        &&& snap.cells@[9 * cell.0 + cell.1] == 0
                        &&& unfilled@[p].2 == snap.candidates@[9 * cell.0 + cell.1]
                    },
                    start.base_wf(),
                    start.measure() <= 1296,
                    state.elim_from(&start, eliminated as int),
                    all_triples_cleared(start, units@) ==> eliminated == 0,
                    keeps_solutions(&start, state),
                    eu <= eliminated,
                    eu == 0 ==> snap == start,
                    eliminated == eu ==> *state == snap,
                    eliminated == eu ==> forall|p: int, q: int, w: int| 0 <= p < q < w < unfilled@.len() && (p < i || (p == i && q < j))
                        && popcount(unfilled@[p].2 | unfilled@[q].2 | unfilled@[w].2) == 3
                        ==> #[trigger] triple_cleared(snap, unit@, idx[p], idx[q], idx[w]),
                decreases unfilled@.len() - j,
            {
                let mut k: usize = j + 1;
                while k < unfilled.len()
                    invariant
                        i < j < k <= unfilled@.len(),
                        unit == units@[ui as int],
                        ui < units@.len(),
                        units_on_board(units@),
                        real_units(units@),
                        is_unit(unit@),
                        unit@.len() == 9,
                        keeps_solutions(&start, &snap),
                        idx.len() == unfilled@.len(),
                        forall|p: int| 0 <= p < unfilled@.len() ==> 2 <= popcount(#[trigger] unfilled@[p].2) <= 3,
                        forall|p: int| 0 <= p < unfilled@.len() ==> 0 <= #[trigger] idx[p] < 9,
                        forall|p: int, q: int| 0 <= p < q < unfilled@.len() ==> idx[p] < idx[q],
                        forall|p: int| 0 <= p < unfilled@.len() ==> {
                            let cell = unit@[#[trigger] idx[p]];
                            &&& unfilled@[p].0 == cell.0
                            &&& unfilled@[p].1 == cell.1
                            &&& snap.cells@[9 * cell.0 + cell.1] == 0
                            &&& unfilled@[p].2 == snap.candidates@[9 * cell.0 + cell.1]
                        },
                        start.base_wf(),
                        start.measure() <= 1296,
                        state.elim_from(&start, eliminated as int),
                        all_triples_cleared(start, units@) ==> eliminated == 0,
                        keeps_solutions(&start, state),
                        eu <= eliminated,
                        eu == 0 ==> snap == start,
                        eliminated == eu ==> *state == snap,
                        eliminated == eu ==> forall|p: int, q: int, w: int| 0 <= p < q < w < unfilled@.len() && (p < i || (p == i && (q < j || (q == j && w < k))))
                            && popcount(unfilled@[p].2 | unfilled@[q].2 | unfilled@[w].2) == 3
                            ==> #[trigger] triple_cleared(snap, unit@, idx[p], idx[q], idx[w]),
                    decreases unfilled@.len() - k,
                {
                    let union = unfilled[i].2 | unfilled[j].2 | unfilled[k].2;
                    if count_digits(union) == 3 {
                        let t0 = (unfilled[i].0, unfilled[i].1);
                        let t1 = (unfilled[j].0, unfilled[j].1);
                        let t2 = (unfilled[k].0, unfilled[k].1);
                        let ghost (ii, jj, kk) = (idx[i as int], idx[j as int], idx[k as int]);
                        proof {
                            // Every solution puts the three digits of `union` on the triple's cells.
                            assert forall|s: Seq<Seq<u8>>| is_complete_valid(s) && start.consistent(s) implies
                                forall|e: u8| #[trigger] has_digit(union, e) ==> e == s[t0.0 as int][t0.1 as int]
                                    || e == s[t1.0 as int][t1.1 as int] || e == s[t2.0 as int][t2.1 as int] by {
                                assert(snap.consistent(s));
                                assert(ii < jj && jj < kk);
                                assert(cell_in_board(units@[ui as int]@[ii]) && cell_in_board(units@[ui as int]@[jj])
                                    && cell_in_board(units@[ui as int]@[kk]));
                                assert(snap.cell_ok(s, t0.0 as int, t0.1 as int));
                                assert(snap.cell_ok(s, t1.0 as int, t1.1 as int));
                                assert(snap.cell_ok(s, t2.0 as int, t2.1 as int));
                                let s0d = s[t0.0 as int][t0.1 as int];
                                let s1d = s[t1.0 as int][t1.1 as int];
                                let s2d = s[t2.0 as int][t2.1 as int];
                                lemma_unit_digits_differ(s, unit@, ii, jj);
                                lemma_unit_digits_differ(s, unit@, ii, kk);
                                lemma_unit_digits_differ(s, unit@, jj, kk);
                                assert(in_board(t0.0 as int, t0.1 as int) && in_board(t1.0 as int, t1.1 as int)
                                    && in_board(t2.0 as int, t2.1 as int));
                                let (m0, m1, m2) = (unfilled@[i as int].2, unfilled@[j as int].2, unfilled@[k as int].2);
                                crate::killer::lemma_has_bit(m0, s0d);
                                crate::killer::lemma_has_bit(m1, s1d);
                                crate::killer::lemma_has_bit(m2, s2d);
                                let xs = seq![s0d as int, s1d as int, s2d as int];
                                assert forall|m: int| 0 <= m < xs.len() implies bit_set(union, #[trigger] xs[m]) by {
                                    lemma_mask_ops(m0 | m1, m2, xs[m]);
                                    lemma_mask_ops(m0, m1, xs[m]);
                                }
                                assert(crate::killer::distinct_positions(xs));
                                assert forall|e: u8| #[trigger] has_digit(union, e) implies e == s0d || e == s1d || e == s2d by {
                                    crate::killer::lemma_has_bit(union, e);
                                    crate::killer::lemma_members_listed(union, xs, e as int);
                                }
                            }
                        }
                        proof {
                            assert(idx[i as int] < idx[j as int] && idx[j as int] < idx[k as int]);
                        }
                        let mut m: usize = 0;
                        while m < unit.len()
                            invariant
                                m <= unit@.len(),
                                i < j < k < unfilled@.len(),
                                unit == units@[ui as int],
                                ui < units@.len(),
                                units_on_board(units@),
                                is_unit(unit@),
                                unit@.len() == 9,
                                ii == idx[i as int] && jj == idx[j as int] && kk == idx[k as int],
                                ii < jj && jj < kk,
                                popcount(union) == 3,
                                0 <= ii < 9 && 0 <= jj < 9 && 0 <= kk < 9,
                                t0.0 == unit@[ii].0 && t0.1 == unit@[ii].1,
                                t1.0 == unit@[jj].0 && t1.1 == unit@[jj].1,
                                t2.0 == unit@[kk].0 && t2.1 == unit@[kk].1,
                                forall|s: Seq<Seq<u8>>| is_complete_valid(s) && start.consistent(s) ==>
                                    forall|e: u8| #[trigger] has_digit(union, e) ==> e == s[t0.0 as int][t0.1 as int]
                                        || e == s[t1.0 as int][t1.1 as int] || e == s[t2.0 as int][t2.1 as int],
                                start.base_wf(),
                                start.measure() <= 1296,
                                state.elim_from(&start, eliminated as int),
                                all_triples_cleared(start, units@) ==> eliminated == 0,
                                keeps_solutions(&start, state),
                                eu <= eliminated,
                                eu == 0 ==> snap == start,
                                eliminated == eu ==> *state == snap,
                                eliminated == eu ==> forall|p: int, q: int, w: int| 0 <= p < q < w < unfilled@.len() && (p < i || (p == i && (q < j || (q == j && w < k))))
                                    && popcount(unfilled@[p].2 | unfilled@[q].2 | unfilled@[w].2) == 3
                                    ==> #[trigger] triple_cleared(snap, unit@, idx[p], idx[q], idx[w]),
                                union == unfilled@[i as int].2 | unfilled@[j as int].2 | unfilled@[k as int].2,
                                idx.len() == unfilled@.len(),
                                forall|p: int| 0 <= p < unfilled@.len() ==> 2 <= popcount(#[trigger] unfilled@[p].2) <= 3,
                                forall|p: int| 0 <= p < unfilled@.len() ==> {
                                    let cell = unit@[#[trigger] idx[p]];
                                    &&& unfilled@[p].0 == cell.0
                                    &&& unfilled@[p].1 == cell.1
                                    &&& snap.cells@[9 * cell.0 + cell.1] == 0
                                    &&& unfilled@[p].2 == snap.candidates@[9 * cell.0 + cell.1]
                                },
                                eliminated == eu ==> forall|m2: int| 0 <= m2 < m && unit@[m2] != unit@[ii] && unit@[m2] != unit@[jj] && unit@[m2] != unit@[kk]
                                    && snap.cells@[9 * unit@[m2].0 + unit@[m2].1] == 0
                                    ==> #[trigger] snap.candidates@[9 * unit@[m2].0 + unit@[m2].1] & union == 0,
                            decreases unit@.len() - m,
                        {
                            let (r, c) = unit[m];
                            proof {
                                assert(cell_in_board(units@[ui as int]@[m as int]));
                            }
                            let in_triple = (r == t0.0 && c == t0.1) || (r == t1.0 && c == t1.1) || (r == t2.0 && c == t2.1);
                            if state.cells[r * 9 + c] == 0 && !in_triple {
                                let old_c = state.candidates[r * 9 + c];
                                let new_c = old_c & !union;
                                if new_c != old_c {
                                    let ghost s0 = *state;
                                    proof {
                                        lemma_and_sub(old_c, !union);
                                        if all_triples_cleared(start, units@) {
                                            assert(eliminated == eu);
                                            assert(snap == start);
                                            assert(naked_triples_cleared(start, units@[ui as int]@));
                                            assert(triple_cell(snap, unit@, ii) && triple_cell(snap, unit@, jj) && triple_cell(snap, unit@, kk));
                                            assert(triple_mask(snap, unit@, ii, jj, kk) == union);
                                            assert(triple_cleared(snap, unit@, ii, jj, kk));
                                            assert(unit@[m as int] == (r, c));
                                            assert(old_c & union == 0);
                                            lemma_mask_free(old_c, union);
                                        }
                                    }
                                    state.candidates[r * 9 + c] = new_c;
                                    let removed = count_digits(old_c ^ new_c);
                                    proof {
                                        lemma_elim_step(&start, &s0, state, r * 9 + c, new_c, eliminated as int);
                                        assert forall|s: Seq<Seq<u8>>| is_complete_valid(s) && start.consistent(s) implies
                                            s0.cells@[9 * r + c] != 0 || has_digit(new_c, s[r as int][c as int]) by {
                                            assert(s0.consistent(s));
                                            assert(in_board(r as int, c as int));
                                            assert(s0.cell_ok(s, r as int, c as int));
                                            let e = s[r as int][c as int];
                                            assert(m != ii && m != jj && m != kk);
                                            lemma_unit_digits_differ(s, unit@, m as int, ii);
                                            lemma_unit_digits_differ(s, unit@, m as int, jj);
                                            lemma_unit_digits_differ(s, unit@, m as int, kk);
                                            lemma_digit_masks(old_c, union, e);
                                        }
                                        lemma_keeps_restrict(&start, &s0, state, r as int, c as int, new_c);
                                    }
                                    eliminated += removed;
                                } else {
                                    proof {
                                        lemma_mask_kept(old_c, union);
                                    }
                                }
                            }
                            proof {
                                if eliminated == eu {
                                    assert forall|m2: int| 0 <= m2 < m + 1 && unit@[m2] != unit@[ii] && unit@[m2] != unit@[jj]
                                        && unit@[m2] != unit@[kk] && snap.cells@[9 * unit@[m2].0 + unit@[m2].1] == 0
                                        implies #[trigger] snap.candidates@[9 * unit@[m2].0 + unit@[m2].1] & union == 0 by {
                                        if m2 == m {
                                            assert(unit@[m2] == (r, c));
                                        }
                                    }
                                }
                            }
                            m += 1;
                        }
                        proof {
                            if eliminated == eu {
                                assert(triple_mask(snap, unit@, ii, jj, kk) == union);
                                assert(triple_cleared(snap, unit@, idx[i as int], idx[j as int], idx[k as int]));
                            }
                        }
                    }
                    k += 1;
                }
                j += 1;
            }
            i += 1;
        }
        proof {
            if eliminated == eu {
                assert forall|a: int, b: int, c: int| 0 <= a < b < c < unit@.len() && #[trigger] triple_cell(snap, unit@, a)
                    && #[trigger] triple_cell(snap, unit@, b) && #[trigger] triple_cell(snap, unit@, c)
                    && popcount(triple_mask(snap, unit@, a, b, c)) == 3
                    implies triple_cleared(snap, unit@, a, b, c) by {
                    let p = choose|p: int| 0 <= p < unfilled@.len() && idx[p] == a;
                    let q = choose|q: int| 0 <= q < unfilled@.len() && idx[q] == b;
                    let w = choose|w: int| 0 <= w < unfilled@.len() && idx[w] == c;
                    if q < p {
                        assert(idx[q] < idx[p]);
                    }
                    if w < q {
                        assert(idx[w] < idx[q]);
                    }
                    assert(unfilled@[p].2 | unfilled@[q].2 | unfilled@[w].2 == triple_mask(snap, unit@, a, b, c));
                    assert(triple_cleared(snap, unit@, idx[p], idx[q], idx[w]));
                }
                assert(naked_triples_cleared(snap, unit@));
            }
            if eliminated == 0 {
                assert(snap == start);
            }
        }
        ui += 1;
    }
    eliminated
}

/// Three different cells `x`, `y`, `z` are exactly the cells listed by
/// `l1`, `l2` and `l3` together.
spec fn covers3(l1: Seq<(usize, usize)>, l2: Seq<(usize, usize)>, l3: Seq<(usize, usize)>,
    x: (usize, usize), y: (usize, usize), z: (usize, usize)) -> bool {
    &&& x != y && x != z && y != z
    &&& forall|w: (usize, usize)| (l1.contains(w) || l2.contains(w) || l3.contains(w)) <==> (w == x || w == y || w == z)
}

/// The digits `d1`, `d2`, `d3` as a set.
spec fn digit_mask3(d1: u8, d2: u8, d3: u8) -> u16 {
    (1u16 << d1) | (1u16 << d2) | (1u16 << d3)
}

/// Cells `x`, `y`, `z` hold no candidate outside `mask`.
spec fn stripped3(st: RaterState, mask: u16, x: (usize, usize), y: (usize, usize), z: (usize, usize)) -> bool {
    &&& st.candidates@[9 * x.0 + x.1] & mask == st.candidates@[9 * x.0 + x.1]
    &&& st.candidates@[9 * y.0 + y.1] & mask == st.candidates@[9 * y.0 + y.1]
    &&& st.candidates@[9 * z.0 + z.1] & mask == st.candidates@[9 * z.0 + z.1]
}

/// In `unit`, digits `d1 < d2 < d3` are not placed, each can go in two or
/// three empty cells, and together exactly in the three cells `x`, `y`, `z`.
spec fn hidden_triple_at(st: RaterState, unit: Seq<(usize, usize)>, d1: u8, d2: u8, d3: u8,
    x: (usize, usize), y: (usize, usize), z: (usize, usize)) -> bool {
    &&& 1 <= d1 < d2 < d3 <= 9
    &&& !unit_holds(st, unit, d1) && !unit_holds(st, unit, d2) && !unit_holds(st, unit, d3)
    &&& 2 <= open_list(st, unit, 1u16 << d1, unit.len() as int).len() <= 3
    &&& 2 <= open_list(st, unit, 1u16 << d2, unit.len() as int).len() <= 3
    &&& 2 <= open_list(st, unit, 1u16 << d3, unit.len() as int).len() <= 3
    &&& covers3(open_list(st, unit, 1u16 << d1, unit.len() as int), open_list(st, unit, 1u16 << d2, unit.len() as int),
        open_list(st, unit, 1u16 << d3, unit.len() as int), x, y, z)
}

/// Every hidden triple of `unit` has had its cells stripped to its digits.
spec fn hidden_triples_cleared(st: RaterState, unit: Seq<(usize, usize)>) -> bool {
    forall|d1: u8, d2: u8, d3: u8, x: (usize, usize), y: (usize, usize), z: (usize, usize)|
        #[trigger] hidden_triple_at(st, unit, d1, d2, d3, x, y, z) ==> stripped3(st, digit_mask3(d1, d2, d3), x, y, z)
}

/// A list of different cells that holds exactly three different cells has length three.
proof fn lemma_three_cells(u: Seq<(usize, usize)>, x: (usize, usize), y: (usize, usize), z: (usize, usize))
    requires
        forall|p: int, q: int| 0 <= p < q < u.len() ==> u[p] != u[q],
        x != y && x != z && y != z,
        forall|w: (usize, usize)| u.contains(w) <==> (w == x || w == y || w == z),
    ensures
        u.len() == 3,
{
    broadcast use vstd::set::group_set_axioms;
    assert(u.no_duplicates()) by {
        assert forall|p: int, q: int| 0 <= p < u.len() && 0 <= q < u.len() && p != q implies u[p] != u[q] by {
            if q < p {
                assert(u[q] != u[p]);
            }
        }
    }
    u.unique_seq_to_set();
    let t = Set::<(usize, usize)>::empty().insert(x).insert(y).insert(z);
    assert(u.to_set() =~= t) by {
        assert forall|w: (usize, usize)| u.to_set().contains(w) <==> t.contains(w) by {
            if u.contains(w) {
                let i = choose|i: int| 0 <= i < u.len() && u[i] == w;
            }
        }
    }
    assert(Set::<(usize, usize)>::empty().insert(x).len() == 1);
    assert(Set::<(usize, usize)>::empty().insert(x).insert(y).len() == 2);
}

/// Try hidden triples in all units. Returns number of candidates eliminated.
/// Nothing is removed exactly when no hidden triple of a row, column or box
/// has a candidate left to strip.
fn try_hidden_triples(state: &mut RaterState) -> (eliminated: u32)
    requires
        old(state).base_wf(),
    ensures
        final(state).elim_from(old(state), eliminated as int),
        keeps_solutions(old(state), final(state)),
        eliminated == 0 ==> forall|v: int| 0 <= v < 27 ==> #[trigger] hidden_triples_cleared(*old(state), unit_cells(v)),
        (forall|v: int| 0 <= v < 27 ==> #[trigger] hidden_triples_cleared(*old(state), unit_cells(v))) ==> eliminated == 0,
{
    let ghost s0 = *state;
    let mut eliminated: u32 = 0;
    proof {
        lemma_elim_refl(&s0);
    }
    let rows = unit_rows();
    let ghost rs = rows@;
    let a = hidden_triples_in_units(state, rows);
    let ghost s1 = *state;
    let cols = unit_cols();
    let ghost cs = cols@;
    let b = hidden_triples_in_units(state, cols);
    let ghost s2 = *state;
    let boxes = unit_boxes();
    let ghost bs = boxes@;
    let c = hidden_triples_in_units(state, boxes);
    proof {
        if forall|v: int| 0 <= v < 27 ==> #[trigger] hidden_triples_cleared(s0, unit_cells(v)) {
            assert forall|u: int| 0 <= u < rs.len() implies #[trigger] hidden_triples_cleared(s0, rs[u]@) by {
                assert(rs[u]@ =~= unit_cells(u));
            }
            assert(all_hidden_triples_cleared(s0, rs));
            assert forall|u: int| 0 <= u < cs.len() implies #[trigger] hidden_triples_cleared(s1, cs[u]@) by {
                assert(cs[u]@ =~= unit_cells(u + 9));
            }
            assert(all_hidden_triples_cleared(s1, cs));
            assert forall|u: int| 0 <= u < bs.len() implies #[trigger] hidden_triples_cleared(s2, bs[u]@) by {
                assert(bs[u]@ =~= unit_cells(u + 18));
            }
            assert(all_hidden_triples_cleared(s2, bs));
        }
        if a + b + c == 0 {
            assert forall|v: int| 0 <= v < 27 implies #[trigger] hidden_triples_cleared(s0, unit_cells(v)) by {
                if v < 9 {
                    assert(rs[v]@ =~= unit_cells(v));
                } else if v < 18 {
                    assert(cs[v - 9]@ =~= unit_cells(v));
                } else {
                    assert(bs[v - 18]@ =~= unit_cells(v));
                }
            }
        }
        lemma_keeps_chain(&s0, &s1, &s2);
        lemma_keeps_chain(&s0, &s2, state);
        lemma_elim_trans(&s0, &s1, &s2, a as int, b as int);
        lemma_elim_trans(&s0, &s2, state, a + b, c as int);
        lemma_bits_total_bounds(state.candidates@, 81);
    }
    eliminated += a;
    eliminated += b;
    eliminated += c;
    eliminated
}

/// Append the cells of `cells` that `union_cells` does not hold yet.
fn add_new_cells(union_cells: &mut Vec<(usize, usize)>, cells: &Vec<(usize, usize)>)
    requires
        forall|i: int| 0 <= i < old(union_cells)@.len() ==> cell_in_board(#[trigger] old(union_cells)@[i]),
        forall|i: int| 0 <= i < cells@.len() ==> cell_in_board(#[trigger] cells@[i]),
    ensures
        forall|i: int| 0 <= i < final(union_cells)@.len() ==> cell_in_board(#[trigger] final(union_cells)@[i]),
        forall|x: (usize, usize)| #[trigger] final(union_cells)@.contains(x) <==> old(union_cells)@.contains(x) || cells@.contains(x),
        (forall|p: int, q: int| 0 <= p < q < old(union_cells)@.len() ==> old(union_cells)@[p] != old(union_cells)@[q])
            ==> forall|p: int, q: int| 0 <= p < q < final(union_cells)@.len() ==> final(union_cells)@[p] != final(union_cells)@[q],
{
    let ghost start = union_cells@;
    let ghost start_distinct = forall|p: int, q: int| 0 <= p < q < start.len() ==> start[p] != start[q];
    let mut i: usize = 0;
    while i < cells.len()
        invariant
            i <= cells@.len(),
            forall|i2: int| 0 <= i2 < union_cells@.len() ==> cell_in_board(#[trigger] union_cells@[i2]),
            forall|i2: int| 0 <= i2 < cells@.len() ==> cell_in_board(#[trigger] cells@[i2]),
            forall|x: (usize, usize)| #[trigger] union_cells@.contains(x) <==> start.contains(x) || cells@.subrange(0, i as int).contains(x),
            start_distinct == (forall|p: int, q: int| 0 <= p < q < start.len() ==> start[p] != start[q]),
            start_distinct ==> forall|p: int, q: int| 0 <= p < q < union_cells@.len() ==> union_cells@[p] != union_cells@[q],
        decreases cells@.len() - i,
    {
        let cell = cells[i];
        let mut present = false;
        let mut j: usize = 0;
        while j < union_cells.len()
            invariant
                j <= union_cells@.len(),
                present == exists|j2: int| 0 <= j2 < j && union_cells@[j2] == cell,
            decreases union_cells@.len() - j,
        {
            if union_cells[j].0 == cell.0 && union_cells[j].1 == cell.1 {
                present = true;
            }
            j += 1;
        }
        let ghost before = union_cells@;
        if !present {
            proof {
                assert(cell_in_board(cells@[i as int]));
            }
            union_cells.push(cell);
        }
        proof {
            let s0 = cells@.subrange(0, i as int);
            let s1 = cells@.subrange(0, i + 1);
            assert(s1 =~= s0.push(cell));
            assert forall|x: (usize, usize)| #[trigger] union_cells@.contains(x) <==> start.contains(x) || s1.contains(x) by {
                if s1.contains(x) && x != cell {
                    let k = choose|k: int| 0 <= k < s1.len() && s1[k] == x;
                    assert(k < i);
                    assert(s0[k] == x);
                }
                if s0.contains(x) {
                    let k = choose|k: int| 0 <= k < s0.len() && s0[k] == x;
                    assert(s1[k] == x);
                }
                if x == cell {
                    assert(s1[i as int] == cell);
                    if present {
                        let j2 = choose|j2: int| 0 <= j2 < before.len() && before[j2] == cell;
                        assert(before.contains(cell));
                    } else {
                        assert(union_cells@[before.len() as int] == cell);
                    }
                }
                if union_cells@.contains(x) && !present {
                    let k = choose|k: int| 0 <= k < union_cells@.len() && union_cells@[k] == x;
                    if k < before.len() {
                        assert(before[k] == x);
                        assert(before.contains(x));
                    }
                }
                if before.contains(x) && !present {
                    let k = choose|k: int| 0 <= k < before.len() && before[k] == x;
                    assert(union_cells@[k] == x);
                }
            }
            if start_distinct && !present {
                assert forall|p: int, q: int| 0 <= p < q < union_cells@.len() implies union_cells@[p] != union_cells@[q] by {
                    if q == before.len() {
                        assert(union_cells@[p] == before[p]);
                        if before[p] == cell {
                            assert(exists|j2: int| 0 <= j2 < before.len() && before[j2] == cell);
                        }
                    } else {
                        assert(union_cells@[p] == before[p] && union_cells@[q] == before[q]);
                    }
                }
            }
        }
        i += 1;
    }
    proof {
        assert(cells@.subrange(0, cells@.len() as int) =~= cells@);
    }
}

/// Three different items of a three-item list with no repeats are all of it.
proof fn lemma_three_cover<T>(u: Seq<T>, a: T, b: T, c: T)
    requires
        u.len() == 3,
        forall|p: int, q: int| 0 <= p < q < u.len() ==> u[p] != u[q],
        u.contains(a),
        u.contains(b),
        u.contains(c),
        a != b,
        a != c,
        b != c,
    ensures
        forall|m: int| 0 <= m < 3 ==> u[m] == a || u[m] == b || u[m] == c,
{
    let ia = choose|i: int| 0 <= i < u.len() && u[i] == a;
    let ib = choose|i: int| 0 <= i < u.len() && u[i] == b;
    let ic = choose|i: int| 0 <= i < u.len() && u[i] == c;
    assert(ia != ib && ia != ic && ib != ic);
}

/// The digits of a single-digit mask.
proof fn lemma_single_bit(d: u8, x: u8)
    requires
        d < 16,
        x < 16,
    ensures
        has_digit(1u16 << d, x) <==> x == d,
{
    assert(x < 16 && d < 16 ==> ((((1u16 << d) >> x) & 1u16 == 1u16) <==> x == d)) by (bit_vector);
}

/// Every unit of `units` has its hidden triples stripped.
spec fn all_hidden_triples_cleared(st: RaterState, units: Seq<Vec<(usize, usize)>>) -> bool {
    forall|u: int| 0 <= u < units.len() ==> #[trigger] hidden_triples_cleared(st, units[u]@)
}

fn hidden_triples_in_units(state: &mut RaterState, units: Vec<Vec<(usize, usize)>>) -> (eliminated: u32)
    requires
        old(state).base_wf(),
        units_on_board(units@),
        real_units(units@),
    ensures
        final(state).elim_from(old(state), eliminated as int),
        keeps_solutions(old(state), final(state)),
        eliminated == 0 ==> *final(state) == *old(state),
        eliminated == 0 ==> forall|u: int| 0 <= u < units@.len() ==> #[trigger] hidden_triples_cleared(*old(state), units@[u]@),
        all_hidden_triples_cleared(*old(state), units@) ==> eliminated == 0,
{
    let ghost start = *state;
    proof {
        lemma_elim_refl(&start);
    }
    let mut eliminated: u32 = 0;
    let mut ui: usize = 0;
    while ui < units.len()
        invariant
            ui <= units@.len(),
            units_on_board(units@),
            real_units(units@),
            start.base_wf(),
            start.measure() <= 1296,
            state.elim_from(&start, eliminated as int),
            all_hidden_triples_cleared(start, units@) ==> eliminated == 0,
            keeps_solutions(&start, state),
            eliminated == 0 ==> *state == start,
            eliminated == 0 ==> forall|u: int| 0 <= u < ui ==> #[trigger] hidden_triples_cleared(start, units@[u]@),
        decreases units@.len() - ui,
    {
        let unit = &units[ui];
        let ghost snap = *state;
        let ghost eu = eliminated;
        proof {
            assert forall|i: int| 0 <= i < unit@.len() implies cell_in_board(#[trigger] unit@[i]) by {
                assert(cell_in_board(units@[ui as int]@[i]));
            }
            assert(is_unit(units@[ui as int]@));
        }
        // Collect unplaced digits and their candidate cells
        let mut digit_cells: Vec<(u8, Vec<(usize, usize)>)> = Vec::new();
        let mut d: u8 = 1;
        while d <= 9
            invariant
                1 <= d <= 10,
                *state == snap,
                is_unit(unit@),
                forall|i: int| 0 <= i < unit@.len() ==> cell_in_board(#[trigger] unit@[i]),
                forall|p: int| 0 <= p < digit_cells@.len() ==> digit_entry_ok(&snap, unit@, #[trigger] digit_cells@[p]),
                forall|p: int| 0 <= p < digit_cells@.len() ==> 2 <= (#[trigger] digit_cells@[p]).1@.len() <= 3,
                forall|p: int| 0 <= p < digit_cells@.len() ==> (#[trigger] digit_cells@[p]).0 < d,
                forall|p: int, q: int| 0 <= p < q < digit_cells@.len() ==> digit_cells@[p].0 < digit_cells@[q].0,
                forall|p: int| 0 <= p < digit_cells@.len() ==> (#[trigger] digit_cells@[p]).1@
                    == open_list(snap, unit@, 1u16 << digit_cells@[p].0, unit@.len() as int),
                forall|e: u8| 1 <= e < d && !unit_holds(snap, unit@, e) && 2 <= #[trigger] open_list(snap, unit@, 1u16 << e, unit@.len() as int).len() <= 3
                    ==> exists|p: int| 0 <= p < digit_cells@.len() && digit_cells@[p].0 == e,
            decreases 10 - d,
        {
            let ghost dc0 = digit_cells@;
            if !unit_has_digit(state, unit, d) {
                let bit = 1u16 << d;
                let cells = cells_with_candidate(state, unit, bit);
                if cells.len() >= 2 && cells.len() <= 3 {
                    let ghost before = digit_cells@;
                    digit_cells.push((d, cells));
                    proof {
                        assert forall|p: int| 0 <= p < digit_cells@.len() implies 2 <= (#[trigger] digit_cells@[p]).1@.len() <= 3 by {
                            if p < before.len() {
                                assert(digit_cells@[p] == before[p]);
                            }
                        }
                        assert forall|p: int| 0 <= p < digit_cells@.len() implies digit_entry_ok(&snap, unit@, #[trigger] digit_cells@[p]) by {
                            if p < before.len() {
                                assert(digit_cells@[p] == before[p]);
                            }
                        }
                    }
                }
            }
            proof {
                assert forall|p: int| 0 <= p < digit_cells@.len() implies (#[trigger] digit_cells@[p]).1@
                    == open_list(snap, unit@, 1u16 << digit_cells@[p].0, unit@.len() as int) by {
                    if p < dc0.len() {
                        assert(digit_cells@[p] == dc0[p]);
                    }
                }
                assert forall|e: u8| 1 <= e < d + 1 && !unit_holds(snap, unit@, e)
                    && 2 <= #[trigger] open_list(snap, unit@, 1u16 << e, unit@.len() as int).len() <= 3
                    implies exists|p: int| 0 <= p < digit_cells@.len() && digit_cells@[p].0 == e by {
                    if e < d {
                        let p = choose|p: int| 0 <= p < dc0.len() && dc0[p].0 == e;
                        assert(digit_cells@[p] == dc0[p]);
                    } else {
                        assert(digit_cells@[dc0.len() as int].0 == e);
                    }
                }
            }
            d += 1;
        }

        let mut i: usize = 0;
        while i < digit_cells.len()
            invariant
                i <= digit_cells@.len(),
                is_unit(unit@),
                snap.cells == start.cells,
                keeps_solutions(&start, &snap),
                forall|p: int| 0 <= p < digit_cells@.len() ==> digit_entry_ok(&snap, unit@, #[trigger] digit_cells@[p]),
                forall|p: int| 0 <= p < digit_cells@.len() ==> 2 <= (#[trigger] digit_cells@[p]).1@.len() <= 3,
                forall|p: int, q: int| 0 <= p < q < digit_cells@.len() ==> digit_cells@[p].0 < digit_cells@[q].0,
                start.base_wf(),
                start.measure() <= 1296,
                state.elim_from(&start, eliminated as int),
                all_hidden_triples_cleared(start, units@) ==> eliminated == 0,
                keeps_solutions(&start, state),
                eu <= eliminated,
                eu == 0 ==> snap == start,
                ui < units@.len(),
                unit == units@[ui as int],
                eliminated == eu ==> *state == snap,
                forall|p: int| 0 <= p < digit_cells@.len() ==> (#[trigger] digit_cells@[p]).1@
                    == open_list(snap, unit@, 1u16 << digit_cells@[p].0, unit@.len() as int),
                eliminated == eu ==> forall|p: int, q: int, r: int, x: (usize, usize), y: (usize, usize), z: (usize, usize)|
                    0 <= p < q < r < digit_cells@.len() && (p < i)
                    && #[trigger] covers3(digit_cells@[p].1@, digit_cells@[q].1@, digit_cells@[r].1@, x, y, z)
                    ==> stripped3(snap, digit_mask3(digit_cells@[p].0, digit_cells@[q].0, digit_cells@[r].0), x, y, z),
            decreases digit_cells@.len() - i,
        {
            let mut j: usize = i + 1;
            while j < digit_cells.len()
                invariant
                    i < j <= digit_cells@.len(),
                    is_unit(unit@),
                    snap.cells == start.cells,
                    keeps_solutions(&start, &snap),
                    forall|p: int| 0 <= p < digit_cells@.len() ==> digit_entry_ok(&snap, unit@, #[trigger] digit_cells@[p]),
                    forall|p: int| 0 <= p < digit_cells@.len() ==> 2 <= (#[trigger] digit_cells@[p]).1@.len() <= 3,
                    forall|p: int, q: int| 0 <= p < q < digit_cells@.len() ==> digit_cells@[p].0 < digit_cells@[q].0,
                    start.base_wf(),
                    start.measure() <= 1296,
                    state.elim_from(&start, eliminated as int),
                    all_hidden_triples_cleared(start, units@) ==> eliminated == 0,
                    keeps_solutions(&start, state),
                    eu <= eliminated,
                    eu == 0 ==> snap == start,
                    ui < units@.len(),
                    unit == units@[ui as int],
                    eliminated == eu ==> *state == snap,
                    forall|p: int| 0 <= p < digit_cells@.len() ==> (#[trigger] digit_cells@[p]).1@
                        == open_list(snap, unit@, 1u16 << digit_cells@[p].0, unit@.len() as int),
                    eliminated == eu ==> forall|p: int, q: int, r: int, x: (usize, usize), y: (usize, usize), z: (usize, usize)|
                        0 <= p < q < r < digit_cells@.len() && (p < i || (p == i && q < j))
                        && #[trigger] covers3(digit_cells@[p].1@, digit_cells@[q].1@, digit_cells@[r].1@, x, y, z)
                        ==> stripped3(snap, digit_mask3(digit_cells@[p].0, digit_cells@[q].0, digit_cells@[r].0), x, y, z),
                decreases digit_cells@.len() - j,
            {
                let mut k: usize = j + 1;
                while k < digit_cells.len()
                    invariant
                        i < j < k <= digit_cells@.len(),
                        is_unit(unit@),
                        snap.cells == start.cells,
                        keeps_solutions(&start, &snap),
                        forall|p: int| 0 <= p < digit_cells@.len() ==> digit_entry_ok(&snap, unit@, #[trigger] digit_cells@[p]),
                        forall|p: int| 0 <= p < digit_cells@.len() ==> 2 <= (#[trigger] digit_cells@[p]).1@.len() <= 3,
                        forall|p: int, q: int| 0 <= p < q < digit_cells@.len() ==> digit_cells@[p].0 < digit_cells@[q].0,
                        start.base_wf(),
                        start.measure() <= 1296,
                        state.elim_from(&start, eliminated as int),
                        all_hidden_triples_cleared(start, units@) ==> eliminated == 0,
                        keeps_solutions(&start, state),
                        eu <= eliminated,
                        eu == 0 ==> snap == start,
                        ui < units@.len(),
                        unit == units@[ui as int],
                        eliminated == eu ==> *state == snap,
                        forall|p: int| 0 <= p < digit_cells@.len() ==> (#[trigger] digit_cells@[p]).1@
                            == open_list(snap, unit@, 1u16 << digit_cells@[p].0, unit@.len() as int),
                        eliminated == eu ==> forall|p: int, q: int, r: int, x: (usize, usize), y: (usize, usize), z: (usize, usize)|
                            0 <= p < q < r < digit_cells@.len() && (p < i || (p == i && (q < j || (q == j && r < k))))
                            && #[trigger] covers3(digit_cells@[p].1@, digit_cells@[q].1@, digit_cells@[r].1@, x, y, z)
                            ==> stripped3(snap, digit_mask3(digit_cells@[p].0, digit_cells@[q].0, digit_cells@[r].0), x, y, z),
                    decreases digit_cells@.len() - k,
                {
                    // Union of cells for these 3 digits
                    let ghost ek = eliminated;
                    let mut union_cells: Vec<(usize, usize)> = Vec::new();
                    let ghost (ea, eb, ec) = (digit_cells@[i as int], digit_cells@[j as int], digit_cells@[k as int]);
                    proof {
                        assert(digit_entry_ok(&snap, unit@, ea));
                        assert(digit_entry_ok(&snap, unit@, eb));
                        assert(digit_entry_ok(&snap, unit@, ec));
                    }
                    add_new_cells(&mut union_cells, &digit_cells[i].1);
                    add_new_cells(&mut union_cells, &digit_cells[j].1);
                    add_new_cells(&mut union_cells, &digit_cells[k].1);
                    if union_cells.len() == 3 {
                        let triple_mask = (1u16 << digit_cells[i].0) | (1u16 << digit_cells[j].0) | (1u16 << digit_cells[k].0);
                        proof {
                            let (x, y, z) = (union_cells@[0], union_cells@[1], union_cells@[2]);
                            assert(x != y && x != z && y != z);
                            assert forall|w: (usize, usize)| (ea.1@.contains(w) || eb.1@.contains(w) || ec.1@.contains(w))
                                <==> (w == x || w == y || w == z) by {
                                if w == x || w == y || w == z {
                                    assert(union_cells@.contains(w));
                                }
                                if union_cells@.contains(w) {
                                    let q = choose|q: int| 0 <= q < union_cells@.len() && union_cells@[q] == w;
                                }
                            }
                            assert(ea.0 < eb.0 && eb.0 < ec.0);
                            assert(2 <= ea.1@.len() <= 3 && 2 <= eb.1@.len() <= 3 && 2 <= ec.1@.len() <= 3);
                            assert(hidden_triple_at(snap, unit@, ea.0, eb.0, ec.0, x, y, z));
                            // Every solution puts the three digits on three different cells
                            // of the union, which are then all of it.
                            assert forall|s: Seq<Seq<u8>>| is_complete_valid(s) && start.consistent(s) implies
                                forall|m: int| 0 <= m < 3 ==> #[trigger] has_digit(triple_mask, s[union_cells@[m].0 as int][union_cells@[m].1 as int]) by {
                                assert(snap.consistent(s));
                                lemma_unit_digit_in_cells(&snap, s, unit@, ea.0, 1u16 << ea.0, ea.1@);
                                lemma_unit_digit_in_cells(&snap, s, unit@, eb.0, 1u16 << eb.0, eb.1@);
                                lemma_unit_digit_in_cells(&snap, s, unit@, ec.0, 1u16 << ec.0, ec.1@);
                                let pa = choose|p: int| 0 <= p < ea.1@.len() && s[ea.1@[p].0 as int][ea.1@[p].1 as int] == ea.0;
                                let pb = choose|p: int| 0 <= p < eb.1@.len() && s[eb.1@[p].0 as int][eb.1@[p].1 as int] == eb.0;
                                let pc = choose|p: int| 0 <= p < ec.1@.len() && s[ec.1@[p].0 as int][ec.1@[p].1 as int] == ec.0;
                                let (xa, xb, xc) = (ea.1@[pa], eb.1@[pb], ec.1@[pc]);
                                assert(ea.1@.contains(xa) && eb.1@.contains(xb) && ec.1@.contains(xc));
                                assert(union_cells@.contains(xa) && union_cells@.contains(xb) && union_cells@.contains(xc));
                                assert(ea.0 < eb.0 && eb.0 < ec.0);
                                lemma_three_cover(union_cells@, xa, xb, xc);
                                assert forall|m: int| 0 <= m < 3 implies #[trigger] has_digit(triple_mask, s[union_cells@[m].0 as int][union_cells@[m].1 as int]) by {
                                    let x = s[union_cells@[m].0 as int][union_cells@[m].1 as int];
                                    assert(x == ea.0 || x == eb.0 || x == ec.0);
                                    lemma_single_bit(ea.0, x);
                                    lemma_single_bit(eb.0, x);
                                    lemma_single_bit(ec.0, x);
                                    crate::killer::lemma_has_bit(triple_mask, x);
                                    crate::killer::lemma_has_bit(1u16 << ea.0, x);
                                    crate::killer::lemma_has_bit(1u16 << eb.0, x);
                                    crate::killer::lemma_has_bit(1u16 << ec.0, x);
                                    lemma_mask_ops((1u16 << ea.0) | (1u16 << eb.0), 1u16 << ec.0, x as int);
                                    lemma_mask_ops(1u16 << ea.0, 1u16 << eb.0, x as int);
                                }
                            }
                        }
                        let mut m: usize = 0;
                        while m < union_cells.len()
                            invariant
                                m <= union_cells@.len(),
                                union_cells@.len() == 3,
                                forall|i2: int| 0 <= i2 < union_cells@.len() ==> cell_in_board(#[trigger] union_cells@[i2]),
                                forall|x: (usize, usize)| #[trigger] union_cells@.contains(x) ==>
                                    ea.1@.contains(x) || eb.1@.contains(x) || ec.1@.contains(x),
                                digit_entry_ok(&snap, unit@, ea),
                                digit_entry_ok(&snap, unit@, eb),
                                digit_entry_ok(&snap, unit@, ec),
                                snap.cells == start.cells,
                                forall|s: Seq<Seq<u8>>| is_complete_valid(s) && start.consistent(s) ==>
                                    forall|m2: int| 0 <= m2 < 3 ==> #[trigger] has_digit(triple_mask, s[union_cells@[m2].0 as int][union_cells@[m2].1 as int]),
                                start.base_wf(),
                                start.measure() <= 1296,
                                state.elim_from(&start, eliminated as int),
                                all_hidden_triples_cleared(start, units@) ==> eliminated == 0,
                                keeps_solutions(&start, state),
                                eu <= ek,
                                ek <= eliminated,
                                eu == 0 ==> snap == start,
                                ui < units@.len(),
                                unit == units@[ui as int],
                                hidden_triple_at(snap, unit@, ea.0, eb.0, ec.0, union_cells@[0], union_cells@[1], union_cells@[2]),
                                eliminated == eu ==> *state == snap,
                                triple_mask == digit_mask3(ea.0, eb.0, ec.0),
                                eliminated == eu ==> forall|m2: int| 0 <= m2 < m ==> #[trigger] snap.candidates@[9 * union_cells@[m2].0 + union_cells@[m2].1] & triple_mask
                                    == snap.candidates@[9 * union_cells@[m2].0 + union_cells@[m2].1],
                            decreases union_cells@.len() - m,
                        {
                            let (r, c) = union_cells[m];
                            proof {
                                assert(cell_in_board(union_cells@[m as int]));
                            }
                            let old_c = state.candidates[r * 9 + c];
                            let new_c = old_c & triple_mask;
                            if new_c != old_c {
                                let ghost s0 = *state;
                                proof {
                                    lemma_and_sub(old_c, triple_mask);
                                    if all_hidden_triples_cleared(start, units@) {
                                        assert(eliminated == eu);
                                        assert(snap == start);
                                        assert(hidden_triples_cleared(start, units@[ui as int]@));
                                        assert(stripped3(snap, digit_mask3(ea.0, eb.0, ec.0), union_cells@[0], union_cells@[1], union_cells@[2]));
                                        assert(union_cells@[m as int] == (r, c));
                                    }
                                }
                                state.candidates[r * 9 + c] = new_c;
                                let removed = count_digits(old_c ^ new_c);
                                proof {
                                    lemma_elim_step(&start, &s0, state, r * 9 + c, new_c, eliminated as int);
                                    let cell = union_cells@[m as int];
                                    assert(union_cells@.contains(cell));
                                    assert(snap.cells@[9 * cell.0 + cell.1] == 0) by {
                                        if ea.1@.contains(cell) {
                                            let q = choose|q: int| 0 <= q < ea.1@.len() && ea.1@[q] == cell;
                                        } else if eb.1@.contains(cell) {
                                            let q = choose|q: int| 0 <= q < eb.1@.len() && eb.1@[q] == cell;
                                        } else {
                                            let q = choose|q: int| 0 <= q < ec.1@.len() && ec.1@[q] == cell;
                                        }
                                    }
                                    assert forall|s: Seq<Seq<u8>>| is_complete_valid(s) && start.consistent(s) implies
                                        s0.cells@[9 * r + c] != 0 || has_digit(new_c, s[r as int][c as int]) by {
                                        assert(s0.consistent(s));
                                        assert(in_board(r as int, c as int));
                                        assert(s0.cell_ok(s, r as int, c as int));
                                        assert(has_digit(triple_mask, s[union_cells@[m as int].0 as int][union_cells@[m as int].1 as int]));
                                        lemma_digit_masks(old_c, triple_mask, s[r as int][c as int]);
                                    }
                                    lemma_keeps_restrict(&start, &s0, state, r as int, c as int, new_c);
                                }
                                eliminated += removed;
                            }
                            proof {
                                if eliminated == eu {
                                    assert(union_cells@[m as int] == (r, c));
                                    assert(new_c == old_c);
                                }
                            }
                            m += 1;
                        }
                    }
                    proof {
                        if eliminated == eu {
                            assert(ek == eu);
                            assert forall|p: int, q: int, r: int, x: (usize, usize), y: (usize, usize), z: (usize, usize)|
                                0 <= p < q < r < digit_cells@.len() && (p < i || (p == i && (q < j || (q == j && r < k + 1))))
                                && #[trigger] covers3(digit_cells@[p].1@, digit_cells@[q].1@, digit_cells@[r].1@, x, y, z)
                                implies stripped3(snap, digit_mask3(digit_cells@[p].0, digit_cells@[q].0, digit_cells@[r].0), x, y, z) by {
                                if p == i && q == j && r == k {
                                    lemma_three_cells(union_cells@, x, y, z);
                                    assert(union_cells@.contains(x) && union_cells@.contains(y) && union_cells@.contains(z));
                                    let mx = choose|m2: int| 0 <= m2 < union_cells@.len() && union_cells@[m2] == x;
                                    let my = choose|m2: int| 0 <= m2 < union_cells@.len() && union_cells@[m2] == y;
                                    let mz = choose|m2: int| 0 <= m2 < union_cells@.len() && union_cells@[m2] == z;
                                }
                            }
                        }
                    }
                    k += 1;
                }
                j += 1;
            }
            i += 1;
        }
        proof {
            if eliminated == eu {
                assert forall|d1: u8, d2: u8, d3: u8, x: (usize, usize), y: (usize, usize), z: (usize, usize)|
                    #[trigger] hidden_triple_at(snap, unit@, d1, d2, d3, x, y, z)
                    implies stripped3(snap, digit_mask3(d1, d2, d3), x, y, z) by {
                    assert(2 <= open_list(snap, unit@, 1u16 << d1, unit@.len() as int).len() <= 3);
                    assert(2 <= open_list(snap, unit@, 1u16 << d2, unit@.len() as int).len() <= 3);
                    assert(2 <= open_list(snap, unit@, 1u16 << d3, unit@.len() as int).len() <= 3);
                    let p = choose|p: int| 0 <= p < digit_cells@.len() && digit_cells@[p].0 == d1;
                    let q = choose|q: int| 0 <= q < digit_cells@.len() && digit_cells@[q].0 == d2;
                    let r = choose|r: int| 0 <= r < digit_cells@.len() && digit_cells@[r].0 == d3;
                    if q < p {
                        assert(digit_cells@[q].0 < digit_cells@[p].0);
                    }
                    if r < q {
                        assert(digit_cells@[r].0 < digit_cells@[q].0);
                    }
                    assert(digit_cells@[p].1@ == open_list(snap, unit@, 1u16 << d1, unit@.len() as int));
                    assert(digit_cells@[q].1@ == open_list(snap, unit@, 1u16 << d2, unit@.len() as int));
                    assert(digit_cells@[r].1@ == open_list(snap, unit@, 1u16 << d3, unit@.len() as int));
                    assert(covers3(digit_cells@[p].1@, digit_cells@[q].1@, digit_cells@[r].1@, x, y, z));
                }
                assert(hidden_triples_cleared(snap, unit@));
            }
            if eliminated == 0 {
                assert(snap == start);
            }
        }
        ui += 1;
    }
    eliminated
}

/// An entry of the hidden-triple search: a digit not placed in the unit and
/// exactly the unit's empty cells that hold it as a candidate, listed once each.
spec fn digit_entry_ok(snap: &RaterState, unit: Seq<(usize, usize)>, entry: (u8, Vec<(usize, usize)>)) -> bool {
    let (d, cells) = entry;
    &&& 1 <= d <= 9
    &&& !(exists|i: int| 0 <= i < unit.len() && snap.cells@[9 * unit[i].0 + unit[i].1] == d)
    &&& forall|i: int| 0 <= i < cells@.len() ==> cell_in_board(#[trigger] cells@[i])
    &&& forall|p: int| 0 <= p < cells@.len() ==> snap.cells@[9 * (#[trigger] cells@[p]).0 + cells@[p].1] == 0
    &&& forall|i: int| 0 <= i < unit.len() && snap.cells@[9 * unit[i].0 + unit[i].1] == 0
        && snap.candidates@[9 * unit[i].0 + unit[i].1] & (1u16 << d) != 0 ==> #[trigger] cells@.contains(unit[i])
}


/// Cell `b` of line `a`: row `a` when reading rows, else column `a`.
spec fn line_cell(by_rows: bool, a: int, b: int) -> int {
    if by_rows {
        9 * a + b
    } else {
        9 * b + a
    }
}

/// Number of positions among the first `n` of line `a` that are empty and
/// hold `bit` as a candidate.
spec fn line_count(st: RaterState, bit: u16, by_rows: bool, a: int, n: int) -> nat
    decreases n,
{
    if n <= 0 {
        0
    } else {
        line_count(st, bit, by_rows, a, n - 1) + if st.cells@[line_cell(by_rows, a, n - 1)] == 0
            && st.candidates@[line_cell(by_rows, a, n - 1)] & bit != 0 {
            1nat
        } else {
            0nat
        }
    }
}

/// `lines` lists, in increasing order, the lines of `st` in which digit `d`
/// is not placed and has between `lo` and `hi` candidate positions, each with
/// those positions in increasing order.
spec fn lines_exact(st: RaterState, lines: Seq<(usize, Vec<usize>)>, d: u8, bit: u16, by_rows: bool, lo: int, hi: int) -> bool {
    &&& forall|p: int| 0 <= p < lines.len() ==> (#[trigger] lines[p]).0 < 9 && lo <= lines[p].1@.len() <= hi
        && forall|i: int| 0 <= i < lines[p].1@.len() ==> #[trigger] lines[p].1@[i] < 9
    &&& forall|p: int| 0 <= p < lines.len() ==> (#[trigger] lines[p]).1@.len() == line_count(st, bit, by_rows, lines[p].0 as int, 9)
    &&& forall|p: int, b: int| 0 <= p < lines.len() && 0 <= b < 9
        ==> #[trigger] st.cells@[line_cell(by_rows, lines[p].0 as int, b)] != d
    &&& forall|p: int, b: int| 0 <= p < lines.len() && 0 <= b < 9
        ==> (st.cells@[line_cell(by_rows, lines[p].0 as int, b)] == 0
            && st.candidates@[line_cell(by_rows, lines[p].0 as int, b)] & bit != 0
            <==> #[trigger] lines[p].1@.contains(b as usize))
    &&& forall|p: int, q: int| 0 <= p < q < lines.len() ==> lines[p].0 < lines[q].0
    &&& forall|p: int, i: int, j: int| 0 <= p < lines.len() && 0 <= i < j < lines[p].1@.len()
        ==> lines[p].1@[i] < lines[p].1@[j]
    &&& forall|a: int| 0 <= a < 9 && (forall|b: int| 0 <= b < 9 ==> st.cells@[line_cell(by_rows, a, b)] != d)
        && lo <= #[trigger] line_count(st, bit, by_rows, a, 9) <= hi
        ==> exists|p: int| 0 <= p < lines.len() && (#[trigger] lines[p]).0 == a
}

/// The digit `s` puts at position `b` of line `a`.
spec fn line_digit(s: Seq<Seq<u8>>, by_rows: bool, a: int, b: int) -> u8 {
    if by_rows {
        s[a][b]
    } else {
        s[b][a]
    }
}

/// A line in which `d` is not placed holds it, in every solution, at one of
/// its candidate positions.
proof fn lemma_line_has_digit(snap: &RaterState, s: Seq<Seq<u8>>, lines: Seq<(usize, Vec<usize>)>, p: int, d: u8, bit: u16, by_rows: bool, lo: int, hi: int)
    requires
        is_complete_valid(s),
        snap.consistent(s),
        lines_exact(*snap, lines, d, bit, by_rows, lo, hi),
        0 <= p < lines.len(),
        1 <= d <= 9,
        bit == 1u16 << d,
    ensures
        exists|b: int| 0 <= b < 9 && lines[p].1@.contains(b as usize) && line_digit(s, by_rows, lines[p].0 as int, b) == d,
{
    let a = lines[p].0 as int;
    let u = if by_rows { a } else { 9 + a };
    lemma_unit_has_digit(s, u, d as int);
    let i = choose|i: int| 0 <= i < 9 && #[trigger] s[unit_row(u, i)][unit_col(u, i)] == d;
    let (r, c) = if by_rows { (a, i) } else { (i, a) };
    assert(unit_row(u, i) == r && unit_col(u, i) == c);
    assert(in_board(r, c));
    assert(line_cell(by_rows, a, i) == 9 * r + c);
    assert(snap.cell_ok(s, r, c));
    assert(snap.cells@[line_cell(by_rows, a, i)] != d);
    lemma_bit_test(snap.candidates@[9 * r + c], d);
    assert(lines[p].1@.contains(i as usize));
    assert(line_digit(s, by_rows, a, i) == d);
}

/// Lines (rows or columns) in which digit `d` is not placed and has between
/// `lo` and `hi` candidate positions, each with those positions in order.
/// `by_rows` reads rows; otherwise columns.
fn line_positions(state: &RaterState, d: u8, bit: u16, by_rows: bool, lo: usize, hi: usize) -> (lines: Vec<(usize, Vec<usize>)>)
    requires
        1 <= d <= 9,
    ensures
        lines_exact(*state, lines@, d, bit, by_rows, lo as int, hi as int),
{
    let mut lines: Vec<(usize, Vec<usize>)> = Vec::new();
    let mut a: usize = 0;
    while a < 9
        invariant
            a <= 9,
            forall|p: int| 0 <= p < lines@.len() ==> (#[trigger] lines@[p]).0 < a && lo <= lines@[p].1@.len() <= hi
                && forall|i: int| 0 <= i < lines@[p].1@.len() ==> #[trigger] lines@[p].1@[i] < 9,
            forall|p: int| 0 <= p < lines@.len() ==> (#[trigger] lines@[p]).1@.len() == line_count(*state, bit, by_rows, lines@[p].0 as int, 9),
            forall|p: int, b: int| 0 <= p < lines@.len() && 0 <= b < 9
                ==> #[trigger] state.cells@[line_cell(by_rows, lines@[p].0 as int, b)] != d,
            forall|p: int, b: int| 0 <= p < lines@.len() && 0 <= b < 9
                ==> (state.cells@[line_cell(by_rows, lines@[p].0 as int, b)] == 0
                    && state.candidates@[line_cell(by_rows, lines@[p].0 as int, b)] & bit != 0
                    <==> #[trigger] lines@[p].1@.contains(b as usize)),
            forall|p: int, q: int| 0 <= p < q < lines@.len() ==> lines@[p].0 < lines@[q].0,
            forall|p: int, i: int, j: int| 0 <= p < lines@.len() && 0 <= i < j < lines@[p].1@.len()
                ==> lines@[p].1@[i] < lines@[p].1@[j],
            forall|a2: int| 0 <= a2 < a && (forall|b: int| 0 <= b < 9 ==> state.cells@[line_cell(by_rows, a2, b)] != d)
                && lo <= #[trigger] line_count(*state, bit, by_rows, a2, 9) <= hi
                ==> exists|p: int| 0 <= p < lines@.len() && (#[trigger] lines@[p]).0 == a2,
        decreases 9 - a,
    {
        let ghost lines0 = lines@;
        let mut placed = false;
        let mut b: usize = 0;
        while b < 9
            invariant
                a < 9,
                b <= 9,
                !placed ==> forall|b2: int| 0 <= b2 < b ==> #[trigger] state.cells@[line_cell(by_rows, a as int, b2)] != d,
                placed ==> exists|b2: int| 0 <= b2 < 9 && #[trigger] state.cells@[line_cell(by_rows, a as int, b2)] == d,
            decreases 9 - b,
        {
            let k = if by_rows { a * 9 + b } else { b * 9 + a };
            if state.cells[k] == d {
                placed = true;
                assert(state.cells@[line_cell(by_rows, a as int, b as int)] == d);
            }
            b += 1;
        }
        if !placed {
            let mut found: Vec<usize> = Vec::new();
            let mut b: usize = 0;
            while b < 9
                invariant
                    a < 9,
                    b <= 9,
                    forall|i: int| 0 <= i < found@.len() ==> #[trigger] found@[i] < b,
                    forall|i: int, j: int| 0 <= i < j < found@.len() ==> found@[i] < found@[j],
                    forall|b2: int| 0 <= b2 < b ==> (state.cells@[line_cell(by_rows, a as int, b2)] == 0
                        && state.candidates@[line_cell(by_rows, a as int, b2)] & bit != 0
                        <==> #[trigger] found@.contains(b2 as usize)),
                    found@.len() == line_count(*state, bit, by_rows, a as int, b as int),
                decreases 9 - b,
            {
                let k = if by_rows { a * 9 + b } else { b * 9 + a };
                let ghost before = found@;
                if state.cells[k] == 0 && state.candidates[k] & bit != 0 {
                    found.push(b);
                }
                proof {
                    assert forall|b2: int| 0 <= b2 < b + 1 implies (state.cells@[line_cell(by_rows, a as int, b2)] == 0
                        && state.candidates@[line_cell(by_rows, a as int, b2)] & bit != 0
                        <==> #[trigger] found@.contains(b2 as usize)) by {
                        if found@.contains(b2 as usize) {
                            let j = choose|j: int| 0 <= j < found@.len() && found@[j] == b2 as usize;
                            if j < before.len() {
                                assert(before[j] == found@[j]);
                                assert(before.contains(b2 as usize));
                            }
                        }
                        if b2 < b && before.contains(b2 as usize) {
                            let j = choose|j: int| 0 <= j < before.len() && before[j] == b2 as usize;
                            assert(found@[j] == before[j]);
                        }
                        if b2 == b && state.cells@[line_cell(by_rows, a as int, b2)] == 0
                            && state.candidates@[line_cell(by_rows, a as int, b2)] & bit != 0 {
                            assert(found@[before.len() as int] == b);
                        }
                        if b2 < b && !before.contains(b2 as usize) && found@.contains(b2 as usize) {
                            let j = choose|j: int| 0 <= j < found@.len() && found@[j] == b2 as usize;
                            assert(j == before.len());
                        }
                    }
                }
                b += 1;
            }
            if found.len() >= lo && found.len() <= hi {
                let ghost before = lines@;
                lines.push((a, found));
                proof {
                    assert forall|p: int| 0 <= p < lines@.len() implies (#[trigger] lines@[p]).1@.len()
                        == line_count(*state, bit, by_rows, lines@[p].0 as int, 9) by {
                        if p < before.len() {
                            assert(lines@[p] == before[p]);
                        }
                    }
                    assert forall|p: int, b2: int| 0 <= p < lines@.len() && 0 <= b2 < 9
                        implies #[trigger] state.cells@[line_cell(by_rows, lines@[p].0 as int, b2)] != d by {
                        if p < before.len() {
                            assert(lines@[p] == before[p]);
                        }
                    }
                    assert forall|p: int, b2: int| 0 <= p < lines@.len() && 0 <= b2 < 9
                        implies (state.cells@[line_cell(by_rows, lines@[p].0 as int, b2)] == 0
                            && state.candidates@[line_cell(by_rows, lines@[p].0 as int, b2)] & bit != 0
                            <==> #[trigger] lines@[p].1@.contains(b2 as usize)) by {
                        if p < before.len() {
                            assert(lines@[p] == before[p]);
                        }
                    }
                    assert(lines@[before.len() as int].0 == a);
                }
            }
            proof {
                assert forall|a2: int| 0 <= a2 < a + 1 && (forall|b: int| 0 <= b < 9 ==> state.cells@[line_cell(by_rows, a2, b)] != d)
                    && lo <= #[trigger] line_count(*state, bit, by_rows, a2, 9) <= hi
                    implies exists|p: int| 0 <= p < lines@.len() && (#[trigger] lines@[p]).0 == a2 by {
                    if a2 < a {
                        let p = choose|p: int| 0 <= p < lines0.len() && (#[trigger] lines0[p]).0 == a2;
                        assert(lines@[p] == lines0[p]);
                    } else {
                        assert(lines@[lines0.len() as int].0 == a);
                    }
                }
            }
        } else {
            proof {
                assert forall|a2: int| 0 <= a2 < a + 1 && (forall|b: int| 0 <= b < 9 ==> state.cells@[line_cell(by_rows, a2, b)] != d)
                    && lo <= #[trigger] line_count(*state, bit, by_rows, a2, 9) <= hi
                    implies exists|p: int| 0 <= p < lines@.len() && (#[trigger] lines@[p]).0 == a2 by {
                    if a2 == a {
                        let b2 = choose|b2: int| 0 <= b2 < 9 && #[trigger] state.cells@[line_cell(by_rows, a as int, b2)] == d;
                        assert(state.cells@[line_cell(by_rows, a2, b2)] != d);
                    }
                }
            }
        }
        a += 1;
    }
    proof {
        assert(lines_exact(*state, lines@, d, bit, by_rows, lo as int, hi as int));
    }
    lines
}

/// Rows `l1 < l2` of `st` form an X-wing for digit `d`: in each, `d` is not
/// placed and is a candidate of exactly the two columns `b1 < b2`.
spec fn row_x_wing(st: RaterState, d: u8, l1: int, l2: int, b1: int, b2: int) -> bool {
    &&& 0 <= l1 < l2 < 9
    &&& 0 <= b1 < b2 < 9
    &&& forall|l: int, b: int| (l == l1 || l == l2) && 0 <= b < 9 ==> #[trigger] st.cells@[9 * l + b] != d
        && ((st.cells@[9 * l + b] == 0 && has_digit(st.candidates@[9 * l + b], d)) <==> (b == b1 || b == b2))
}

/// No row but `l1` and `l2` holds `d` as a candidate in columns `b1` and `b2`.
spec fn x_wing_cleared(st: RaterState, d: u8, l1: int, l2: int, b1: int, b2: int) -> bool {
    forall|x: int| 0 <= x < 9 && x != l1 && x != l2
        ==> !has_digit(#[trigger] st.candidates@[9 * x + b1], d) && !has_digit(st.candidates@[9 * x + b2], d)
}

/// The columns are cleared when every other row lacks the digit in both.
proof fn lemma_cleared_intro(st: RaterState, d: u8, l1: int, l2: int, b1: int, b2: int)
    requires
        forall|x: int| 0 <= x < 9 && x != l1 && x != l2
            ==> !has_digit(#[trigger] st.candidates@[9 * x + b1], d) && !has_digit(st.candidates@[9 * x + b2], d),
    ensures
        x_wing_cleared(st, d, l1, l2, b1, b2),
{
}

/// Candidates only shrank, so cleared columns stay cleared.
proof fn lemma_cleared_kept(a: RaterState, b: RaterState)
    requires
        shrinks(a.candidates@, b.candidates@),
    ensures
        forall|d: u8, l1: int, l2: int, b1: int, b2: int| 0 <= b1 < 9 && 0 <= b2 < 9
            && #[trigger] x_wing_cleared(a, d, l1, l2, b1, b2) ==> x_wing_cleared(b, d, l1, l2, b1, b2),
{
    assert forall|d: u8, l1: int, l2: int, b1: int, b2: int| 0 <= b1 < 9 && 0 <= b2 < 9
        && #[trigger] x_wing_cleared(a, d, l1, l2, b1, b2) implies x_wing_cleared(b, d, l1, l2, b1, b2) by {
        lemma_lacks_kept(a.candidates@, b.candidates@, d);
        assert forall|x: int| 0 <= x < 9 && x != l1 && x != l2 implies !has_digit(#[trigger] b.candidates@[9 * x + b1], d)
            && !has_digit(b.candidates@[9 * x + b2], d) by {
            assert(!has_digit(a.candidates@[9 * x + b1], d));
            assert(!has_digit(a.candidates@[9 * x + b2], d));
        }
    }
}

/// Clearing digit `d` from one cell keeps the other digits and shrinks the cell.
proof fn lemma_clear_one(a: Seq<u16>, b: Seq<u16>, k: int, d: u8)
    requires
        a.len() == 81,
        0 <= k < 81,
        1 <= d <= 9,
        b == a.update(k, a[k] & !(1u16 << d)),
    ensures
        forall|k2: int, e: u8| 0 <= k2 < 81 && e != d ==> (#[trigger] has_digit(b[k2], e) <==> has_digit(a[k2], e)),
        shrinks(a, b),
        !has_digit(b[k], d),
{
    lemma_and_sub(a[k], !(1u16 << d));
    lemma_clear_digit(a[k], d, d);
    assert forall|k2: int, e: u8| 0 <= k2 < 81 && e != d implies (#[trigger] has_digit(b[k2], e) <==> has_digit(a[k2], e)) by {
        if k2 == k && e < 16 {
            lemma_clear_digit(a[k], d, e);
        }
    }
    assert forall|k2: int| 0 <= k2 < 81 implies #[trigger] sub_mask(b[k2], a[k2]) by {
        if k2 != k {
            let x = a[k2];
            assert(x & x == x) by (bit_vector);
        }
    }
}

/// The two rows of an X-wing of `start` are listed, with the same two
/// columns, among the lines found in `snap` (which has `start`'s placed
/// digits and the same candidates for `d`).
proof fn lemma_x_wing_lines(start: RaterState, snap: RaterState, lines: Seq<(usize, Vec<usize>)>, d: u8, bit: u16,
    l1: int, l2: int, b1: int, b2: int)
    requires
        1 <= d <= 9,
        bit == 1u16 << d,
        row_x_wing(start, d, l1, l2, b1, b2),
        snap.cells == start.cells,
        forall|k: int| 0 <= k < 81 ==> (has_digit(#[trigger] snap.candidates@[k], d) <==> has_digit(start.candidates@[k], d)),
        lines_exact(snap, lines, d, bit, true, 2, 2),
    ensures
        exists|p: int, q: int| 0 <= p < q < lines.len() && (#[trigger] lines[p]).0 == l1 && (#[trigger] lines[q]).0 == l2
            && lines[p].1@ == lines[q].1@ && lines[p].1@[0] == b1 && lines[p].1@[1] == b2,
{
    assert forall|l: int, b: int| (l == l1 || l == l2) && 0 <= b < 9 implies
        (snap.cells@[line_cell(true, l, b)] == 0 && snap.candidates@[line_cell(true, l, b)] & bit != 0) <==> (b == b1 || b == b2) by {
        lemma_bit_test(snap.candidates@[9 * l + b], d);
        assert(start.cells@[9 * l + b] != d);
        assert(has_digit(snap.candidates@[9 * l + b], d) <==> has_digit(start.candidates@[9 * l + b], d));
    }
    assert forall|l: int| l == l1 || l == l2 implies #[trigger] line_count(snap, bit, true, l, 9) == 2
        && (forall|b: int| 0 <= b < 9 ==> snap.cells@[line_cell(true, l, b)] != d) by {
        reveal_with_fuel(line_count, 10);
        assert forall|b: int| 0 <= b < 9 implies snap.cells@[line_cell(true, l, b)] != d by {
            assert(start.cells@[9 * l + b] != d);
        }
        assert(line_count(snap, bit, true, l, 9) == 2) by {
            assert forall|b: int| 0 <= b < 9 implies ((snap.cells@[line_cell(true, l, b)] == 0
                && snap.candidates@[line_cell(true, l, b)] & bit != 0) <==> (b == b1 || b == b2)) by {}
        }
    }
    assert(line_count(snap, bit, true, l1, 9) == 2);
    assert(line_count(snap, bit, true, l2, 9) == 2);
    let p = choose|p: int| 0 <= p < lines.len() && (#[trigger] lines[p]).0 == l1;
    let q = choose|q: int| 0 <= q < lines.len() && (#[trigger] lines[q]).0 == l2;
    if q < p {
        assert(lines[q].0 < lines[p].0);
    }
    assert forall|x: int| x == p || x == q implies (#[trigger] lines[x]).1@ =~= seq![b1 as usize, b2 as usize] by {
        let v = lines[x].1@;
        assert(v.len() == 2);
        assert(v.contains(b1 as usize));
        assert(v.contains(b2 as usize));
        assert(v[0] < v[1]);
        assert(v[0] < 9 && v[1] < 9);
        let i1 = choose|i: int| 0 <= i < v.len() && v[i] == b1 as usize;
        let i2 = choose|i: int| 0 <= i < v.len() && v[i] == b2 as usize;
        assert(i1 != i2);
        assert(i1 == 0 && i2 == 1);
    }
    assert(lines[p].1@ == lines[q].1@);
}

/// Columns `l1 < l2` of `st` form an X-wing for digit `d`: in each, `d` is
/// not placed and is a candidate of exactly the two rows `b1 < b2`.
spec fn col_x_wing(st: RaterState, d: u8, l1: int, l2: int, b1: int, b2: int) -> bool {
    &&& 0 <= l1 < l2 < 9
    &&& 0 <= b1 < b2 < 9
    &&& forall|l: int, b: int| (l == l1 || l == l2) && 0 <= b < 9 ==> #[trigger] st.cells@[9 * b + l] != d
        && ((st.cells@[9 * b + l] == 0 && has_digit(st.candidates@[9 * b + l], d)) <==> (b == b1 || b == b2))
}

/// No column but `l1` and `l2` holds `d` as a candidate in rows `b1` and `b2`.
spec fn col_x_wing_cleared(st: RaterState, d: u8, l1: int, l2: int, b1: int, b2: int) -> bool {
    forall|x: int| 0 <= x < 9 && x != l1 && x != l2
        ==> !has_digit(#[trigger] st.candidates@[9 * b1 + x], d) && !has_digit(st.candidates@[9 * b2 + x], d)
}

/// The two columns of an X-wing of `snap` are listed, with the same two rows,
/// among the lines found in `snap`.
proof fn lemma_col_x_wing_lines(snap: RaterState, lines: Seq<(usize, Vec<usize>)>, d: u8, bit: u16,
    l1: int, l2: int, b1: int, b2: int)
    requires
        1 <= d <= 9,
        bit == 1u16 << d,
        col_x_wing(snap, d, l1, l2, b1, b2),
        lines_exact(snap, lines, d, bit, false, 2, 2),
    ensures
        exists|p: int, q: int| 0 <= p < q < lines.len() && (#[trigger] lines[p]).0 == l1 && (#[trigger] lines[q]).0 == l2
            && lines[p].1@ == lines[q].1@ && lines[p].1@[0] == b1 && lines[p].1@[1] == b2,
{
    assert forall|l: int, b: int| (l == l1 || l == l2) && 0 <= b < 9 implies
        (snap.cells@[line_cell(false, l, b)] == 0 && snap.candidates@[line_cell(false, l, b)] & bit != 0) <==> (b == b1 || b == b2) by {
        lemma_bit_test(snap.candidates@[9 * b + l], d);
        assert(snap.cells@[9 * b + l] != d);
    }
    assert forall|l: int| l == l1 || l == l2 implies #[trigger] line_count(snap, bit, false, l, 9) == 2
        && (forall|b: int| 0 <= b < 9 ==> snap.cells@[line_cell(false, l, b)] != d) by {
        reveal_with_fuel(line_count, 10);
        assert forall|b: int| 0 <= b < 9 implies snap.cells@[line_cell(false, l, b)] != d by {
            assert(snap.cells@[9 * b + l] != d);
        }
        assert(line_count(snap, bit, false, l, 9) == 2) by {
            assert forall|b: int| 0 <= b < 9 implies ((snap.cells@[line_cell(false, l, b)] == 0
                && snap.candidates@[line_cell(false, l, b)] & bit != 0) <==> (b == b1 || b == b2)) by {}
        }
    }
    assert(line_count(snap, bit, false, l1, 9) == 2);
    assert(line_count(snap, bit, false, l2, 9) == 2);
    let p = choose|p: int| 0 <= p < lines.len() && (#[trigger] lines[p]).0 == l1;
    let q = choose|q: int| 0 <= q < lines.len() && (#[trigger] lines[q]).0 == l2;
    if q < p {
        assert(lines[q].0 < lines[p].0);
    }
    assert forall|x: int| x == p || x == q implies (#[trigger] lines[x]).1@ =~= seq![b1 as usize, b2 as usize] by {
        let v = lines[x].1@;
        assert(v.len() == 2);
        assert(v.contains(b1 as usize));
        assert(v.contains(b2 as usize));
        assert(v[0] < v[1]);
        assert(v[0] < 9 && v[1] < 9);
        let i1 = choose|i: int| 0 <= i < v.len() && v[i] == b1 as usize;
        let i2 = choose|i: int| 0 <= i < v.len() && v[i] == b2 as usize;
        assert(i1 != i2);
        assert(i1 == 0 && i2 == 1);
    }
    assert(lines[p].1@ == lines[q].1@);
}

/// Every X-wing in rows and in columns has its positions cleared.
spec fn x_wings_cleared(s: RaterState) -> bool {
    &&& forall|d: u8, l1: int, l2: int, b1: int, b2: int| 1 <= d <= 9
        && #[trigger] row_x_wing(s, d, l1, l2, b1, b2) ==> x_wing_cleared(s, d, l1, l2, b1, b2)
    &&& forall|d: u8, l1: int, l2: int, b1: int, b2: int| 1 <= d <= 9
        && #[trigger] col_x_wing(s, d, l1, l2, b1, b2) ==> col_x_wing_cleared(s, d, l1, l2, b1, b2)
}

/// Two listed lines with the same two positions for `d` form an X-wing.
proof fn lemma_lines_x_wing(snap: RaterState, lines: Seq<(usize, Vec<usize>)>, d: u8, bit: u16, by_rows: bool, i: int, j: int)
    requires
        1 <= d <= 9,
        bit == 1u16 << d,
        lines_exact(snap, lines, d, bit, by_rows, 2, 2),
        0 <= i < j < lines.len(),
        lines[i].1@ == lines[j].1@,
    ensures
        by_rows ==> row_x_wing(snap, d, lines[i].0 as int, lines[j].0 as int, lines[i].1@[0] as int, lines[i].1@[1] as int),
        !by_rows ==> col_x_wing(snap, d, lines[i].0 as int, lines[j].0 as int, lines[i].1@[0] as int, lines[i].1@[1] as int),
{
    let ps = lines[i].1@;
    assert(lines[i].0 < lines[j].0);
    assert(lines[i].0 < 9 && lines[j].0 < 9 && ps.len() == 2);
    assert(ps[0] < ps[1] && ps[1] < 9);
    let (l1, l2, b1, b2) = (lines[i].0 as int, lines[j].0 as int, ps[0] as int, ps[1] as int);
    assert forall|l: int, b: int| (l == l1 || l == l2) && 0 <= b < 9 implies
        snap.cells@[line_cell(by_rows, l, b)] != d
        && ((snap.cells@[line_cell(by_rows, l, b)] == 0 && has_digit(snap.candidates@[line_cell(by_rows, l, b)], d)) <==> (b == b1 || b == b2)) by {
        let p = if l == l1 { i } else { j };
        assert(lines[p].0 == l);
        assert(snap.cells@[line_cell(by_rows, lines[p].0 as int, b)] != d);
        lemma_bit_test(snap.candidates@[line_cell(by_rows, l, b)], d);
        assert(lines[p].1@ == ps);
        assert((snap.cells@[line_cell(by_rows, lines[p].0 as int, b)] == 0
            && snap.candidates@[line_cell(by_rows, lines[p].0 as int, b)] & bit != 0) <==> lines[p].1@.contains(b as usize));
        if ps.contains(b as usize) {
            let k = choose|k: int| 0 <= k < ps.len() && ps[k] == b as usize;
        }
        if b == b1 {
            assert(ps[0] == b as usize);
        }
        if b == b2 {
            assert(ps[1] == b as usize);
        }
    }
    if by_rows {
        assert forall|l: int, b: int| (l == l1 || l == l2) && 0 <= b < 9 implies #[trigger] snap.cells@[9 * l + b] != d
            && ((snap.cells@[9 * l + b] == 0 && has_digit(snap.candidates@[9 * l + b], d)) <==> (b == b1 || b == b2)) by {
            assert(line_cell(by_rows, l, b) == 9 * l + b);
        }
    } else {
        assert forall|l: int, b: int| (l == l1 || l == l2) && 0 <= b < 9 implies #[trigger] snap.cells@[9 * b + l] != d
            && ((snap.cells@[9 * b + l] == 0 && has_digit(snap.candidates@[9 * b + l], d)) <==> (b == b1 || b == b2)) by {
            assert(line_cell(by_rows, l, b) == 9 * b + l);
        }
    }
}

/// Try X-Wing technique. Returns number of candidates eliminated.
/// Every X-wing in rows of the starting state is applied: its digit is
/// cleared from its two columns in every other row. When nothing is removed,
/// no X-wing in columns had anything left to clear, and with no X-wing in
/// rows or columns left to clear, nothing is removed.
#[verifier::spinoff_prover]
fn try_x_wing(state: &mut RaterState) -> (eliminated: u32)
    requires
        old(state).base_wf(),
    ensures
        final(state).elim_from(old(state), eliminated as int),
        keeps_solutions(old(state), final(state)),
        forall|d: u8, l1: int, l2: int, b1: int, b2: int| 1 <= d <= 9 && #[trigger] row_x_wing(*old(state), d, l1, l2, b1, b2)
            ==> x_wing_cleared(*final(state), d, l1, l2, b1, b2),
        eliminated == 0 ==> forall|d: u8, l1: int, l2: int, b1: int, b2: int| 1 <= d <= 9
            && #[trigger] col_x_wing(*old(state), d, l1, l2, b1, b2) ==> col_x_wing_cleared(*old(state), d, l1, l2, b1, b2),
        x_wings_cleared(*old(state)) ==> eliminated == 0,
{
    let ghost start = *state;
    proof {
        lemma_elim_refl(&start);
    }
    let mut eliminated: u32 = 0;

    let mut d: u8 = 1;
    while d <= 9
        invariant
            1 <= d <= 10,
            start.base_wf(),
            start.measure() <= 1296,
            state.elim_from(&start, eliminated as int),
            x_wings_cleared(start) ==> eliminated == 0,
            keeps_solutions(&start, state),
            forall|k: int, e: u8| 0 <= k < 81 && d <= e ==> (#[trigger] has_digit(state.candidates@[k], e) <==> has_digit(start.candidates@[k], e)),
            forall|d2: u8, l1: int, l2: int, b1: int, b2: int| 1 <= d2 < d && #[trigger] row_x_wing(start, d2, l1, l2, b1, b2)
                ==> x_wing_cleared(*state, d2, l1, l2, b1, b2),
            eliminated == 0 ==> *state == start,
            eliminated == 0 ==> forall|d2: u8, l1: int, l2: int, b1: int, b2: int| 1 <= d2 < d
                && #[trigger] col_x_wing(start, d2, l1, l2, b1, b2) ==> col_x_wing_cleared(start, d2, l1, l2, b1, b2),
        decreases 10 - d,
    {
        let bit = 1u16 << d;

        // X-Wing in rows: find 2 rows where digit appears in exactly 2 columns, same columns;
        // then X-Wing in columns: 2 columns where it appears in exactly 2 rows, same rows
        let mut pass: usize = 0;
        while pass < 2
            invariant
                pass <= 2,
                1 <= d <= 9,
                bit == 1u16 << d,
                start.base_wf(),
                start.measure() <= 1296,
                state.elim_from(&start, eliminated as int),
                x_wings_cleared(start) ==> eliminated == 0,
                keeps_solutions(&start, state),
                pass == 0 ==> forall|k: int, e: u8| 0 <= k < 81 && d <= e ==> (#[trigger] has_digit(state.candidates@[k], e) <==> has_digit(start.candidates@[k], e)),
                forall|k: int, e: u8| 0 <= k < 81 && d < e ==> (#[trigger] has_digit(state.candidates@[k], e) <==> has_digit(start.candidates@[k], e)),
                forall|d2: u8, l1: int, l2: int, b1: int, b2: int| (1 <= d2 < d || (d2 == d && pass >= 1)) && #[trigger] row_x_wing(start, d2, l1, l2, b1, b2)
                ==> x_wing_cleared(*state, d2, l1, l2, b1, b2),
                eliminated == 0 ==> *state == start,
                eliminated == 0 ==> forall|d2: u8, l1: int, l2: int, b1: int, b2: int| (1 <= d2 < d || (d2 == d && pass >= 2))
                    && #[trigger] col_x_wing(start, d2, l1, l2, b1, b2) ==> col_x_wing_cleared(start, d2, l1, l2, b1, b2),
            decreases 2 - pass,
        {
            let by_rows = pass == 0;
            let ghost snap = *state;
            let ghost ep = eliminated;
            proof {
                lemma_shrinks_refl(snap.candidates@);
            }
            let positions = line_positions(state, d, bit, by_rows, 2, 2);
            let mut i: usize = 0;
            while i < positions.len()
                invariant
                    1 <= d <= 9,
                    bit == 1u16 << d,
                    i <= positions@.len(),
                    lines_exact(snap, positions@, d, bit, by_rows, 2, 2),
                    keeps_solutions(&start, &snap),
                    start.base_wf(),
                    start.measure() <= 1296,
                    state.elim_from(&start, eliminated as int),
                    x_wings_cleared(start) ==> eliminated == 0,
                    keeps_solutions(&start, state),
                    forall|k: int, e: u8| 0 <= k < 81 && d < e ==> (#[trigger] has_digit(state.candidates@[k], e) <==> has_digit(start.candidates@[k], e)),
                    shrinks(snap.candidates@, state.candidates@),
                    by_rows ==> forall|p: int, q: int| 0 <= p < q < positions@.len() && p < i
                            && positions@[p].1@ == positions@[q].1@
                            ==> #[trigger] x_wing_cleared(*state, d, positions@[p].0 as int, positions@[q].0 as int,
                                positions@[p].1@[0] as int, positions@[p].1@[1] as int),
                    ep <= eliminated,
                    ep == 0 ==> snap == start,
                    eliminated == ep ==> *state == snap,
                    !by_rows && eliminated == ep ==> forall|p: int, q: int| 0 <= p < q < positions@.len() && p < i
                            && positions@[p].1@ == positions@[q].1@
                            ==> #[trigger] col_x_wing_cleared(*state, d, positions@[p].0 as int, positions@[q].0 as int,
                                positions@[p].1@[0] as int, positions@[p].1@[1] as int),
                decreases positions@.len() - i,
            {
                let mut j: usize = i + 1;
                while j < positions.len()
                    invariant
                        1 <= d <= 9,
                        bit == 1u16 << d,
                        i < j <= positions@.len(),
                        lines_exact(snap, positions@, d, bit, by_rows, 2, 2),
                        keeps_solutions(&start, &snap),
                        start.base_wf(),
                        start.measure() <= 1296,
                        state.elim_from(&start, eliminated as int),
                        x_wings_cleared(start) ==> eliminated == 0,
                        keeps_solutions(&start, state),
                        forall|k: int, e: u8| 0 <= k < 81 && d < e ==> (#[trigger] has_digit(state.candidates@[k], e) <==> has_digit(start.candidates@[k], e)),
                        shrinks(snap.candidates@, state.candidates@),
                        by_rows ==> forall|p: int, q: int| 0 <= p < q < positions@.len() && (p < i || (p == i && q < j))
                            && positions@[p].1@ == positions@[q].1@
                            ==> #[trigger] x_wing_cleared(*state, d, positions@[p].0 as int, positions@[q].0 as int,
                                positions@[p].1@[0] as int, positions@[p].1@[1] as int),
                        ep <= eliminated,
                        ep == 0 ==> snap == start,
                        eliminated == ep ==> *state == snap,
                        !by_rows && eliminated == ep ==> forall|p: int, q: int| 0 <= p < q < positions@.len() && (p < i || (p == i && q < j))
                            && positions@[p].1@ == positions@[q].1@
                            ==> #[trigger] col_x_wing_cleared(*state, d, positions@[p].0 as int, positions@[q].0 as int,
                                positions@[p].1@[0] as int, positions@[p].1@[1] as int),
                    decreases positions@.len() - j,
                {
                    if positions[i].1 == positions[j].1 {
                        let l1 = positions[i].0;
                        let l2 = positions[j].0;
                        let p1 = positions[i].1[0];
                        let p2 = positions[i].1[1];
                        let both = [p1, p2];
                        proof {
                            // Every solution puts `d` on both lines, at the two positions, once each.
                            assert forall|s: Seq<Seq<u8>>| is_complete_valid(s) && start.consistent(s) implies
                                line_digit(s, by_rows, l1 as int, p1 as int) == d && line_digit(s, by_rows, l2 as int, p2 as int) == d
                                || line_digit(s, by_rows, l1 as int, p2 as int) == d && line_digit(s, by_rows, l2 as int, p1 as int) == d by {
                                assert(snap.consistent(s));
                                lemma_line_has_digit(&snap, s, positions@, i as int, d, bit, by_rows, 2, 2);
                                lemma_line_has_digit(&snap, s, positions@, j as int, d, bit, by_rows, 2, 2);
                                let b1 = choose|b: int| 0 <= b < 9 && positions@[i as int].1@.contains(b as usize)
                                    && line_digit(s, by_rows, l1 as int, b) == d;
                                let b2 = choose|b: int| 0 <= b < 9 && positions@[j as int].1@.contains(b as usize)
                                    && line_digit(s, by_rows, l2 as int, b) == d;
                                let k2 = choose|k: int| 0 <= k < positions@[j as int].1@.len() && positions@[j as int].1@[k] == b2 as usize;
                                assert(positions@[i as int].1@[k2] == positions@[j as int].1@[k2]);
                                assert(positions@[i as int].1@.contains(b2 as usize));
                                assert(l1 < l2);
                                if b1 == b2 {
                                    if by_rows {
                                        assert(in_board(l1 as int, b1) && in_board(l2 as int, b1));
                                        assert(is_peer(l1 as int, b1, l2 as int, b1));
                                    } else {
                                        assert(in_board(b1, l1 as int) && in_board(b1, l2 as int));
                                        assert(is_peer(b1, l1 as int, b1, l2 as int));
                                    }
                                }
                            }
                        }
                        // Eliminate digit from these positions in all other lines
                        let ghost xsnap = *state;
                        let ghost ex = eliminated;
                        proof {
                            assert(positions@[i as int].1@.len() == 2 && positions@[j as int].1@.len() == 2);
                            assert(positions@[i as int].1@[0] == positions@[j as int].1@[0]);
                            assert(positions@[i as int].1@[1] == positions@[j as int].1@[1]);
                            assert(positions@[i as int].1@ =~= positions@[j as int].1@);
                            lemma_lines_x_wing(snap, positions@, d, bit, by_rows, i as int, j as int);
                            lemma_shrinks_refl(xsnap.candidates@);
                        }
                        let mut x: usize = 0;
                        while x < 9
                            invariant
                                x <= 9,
                                1 <= d <= 9,
                                bit == 1u16 << d,
                                l1 < 9,
                                l2 < 9,
                                p1 < 9,
                                p2 < 9,
                                both@ == seq![p1, p2],
                                forall|s: Seq<Seq<u8>>| is_complete_valid(s) && start.consistent(s) ==>
                                    line_digit(s, by_rows, l1 as int, p1 as int) == d && line_digit(s, by_rows, l2 as int, p2 as int) == d
                                    || line_digit(s, by_rows, l1 as int, p2 as int) == d && line_digit(s, by_rows, l2 as int, p1 as int) == d,
                                start.base_wf(),
                                start.measure() <= 1296,
                                state.elim_from(&start, eliminated as int),
                                x_wings_cleared(start) ==> eliminated == 0,
                                keeps_solutions(&start, state),
                                forall|k: int, e: u8| 0 <= k < 81 && d < e ==> (#[trigger] has_digit(state.candidates@[k], e) <==> has_digit(start.candidates@[k], e)),
                                shrinks(snap.candidates@, state.candidates@),
                                shrinks(xsnap.candidates@, state.candidates@),
                                by_rows ==> forall|x2: int| 0 <= x2 < x && x2 != l1 && x2 != l2
                                    ==> !has_digit(#[trigger] state.candidates@[9 * x2 + p1], d) && !has_digit(state.candidates@[9 * x2 + p2], d),
                                ex <= eliminated,
                                ep <= ex,
                                ex == ep ==> xsnap == snap,
                                ep == 0 ==> snap == start,
                                by_rows ==> row_x_wing(snap, d, l1 as int, l2 as int, p1 as int, p2 as int),
                                !by_rows ==> col_x_wing(snap, d, l1 as int, l2 as int, p1 as int, p2 as int),
                                eliminated == ex ==> *state == xsnap,
                                !by_rows && eliminated == ex ==> forall|x2: int| 0 <= x2 < x && x2 != l1 && x2 != l2
                                    ==> !has_digit(#[trigger] state.candidates@[9 * p1 + x2], d) && !has_digit(state.candidates@[9 * p2 + x2], d),
                            decreases 9 - x,
                        {
                            if x != l1 && x != l2 {
                                let mut t: usize = 0;
                                while t < 2
                                    invariant
                                        t <= 2,
                                        x < 9,
                                        x != l1,
                                        x != l2,
                                        1 <= d <= 9,
                                        bit == 1u16 << d,
                                        l1 < 9,
                                        l2 < 9,
                                        p1 < 9,
                                        p2 < 9,
                                        both@ == seq![p1, p2],
                                        forall|s: Seq<Seq<u8>>| is_complete_valid(s) && start.consistent(s) ==>
                                            line_digit(s, by_rows, l1 as int, p1 as int) == d && line_digit(s, by_rows, l2 as int, p2 as int) == d
                                            || line_digit(s, by_rows, l1 as int, p2 as int) == d && line_digit(s, by_rows, l2 as int, p1 as int) == d,
                                        start.base_wf(),
                                        start.measure() <= 1296,
                                        state.elim_from(&start, eliminated as int),
                                        x_wings_cleared(start) ==> eliminated == 0,
                                        keeps_solutions(&start, state),
                                        forall|k: int, e: u8| 0 <= k < 81 && d < e ==> (#[trigger] has_digit(state.candidates@[k], e) <==> has_digit(start.candidates@[k], e)),
                                        shrinks(snap.candidates@, state.candidates@),
                                        shrinks(xsnap.candidates@, state.candidates@),
                                        by_rows ==> forall|x2: int| 0 <= x2 < x && x2 != l1 && x2 != l2
                                            ==> !has_digit(#[trigger] state.candidates@[9 * x2 + p1], d) && !has_digit(state.candidates@[9 * x2 + p2], d),
                                        by_rows ==> forall|t2: int| 0 <= t2 < t ==> !has_digit(#[trigger] state.candidates@[9 * x + both@[t2]], d),
                                        ex <= eliminated,
                                        ep <= ex,
                                        ex == ep ==> xsnap == snap,
                                        ep == 0 ==> snap == start,
                                        by_rows ==> row_x_wing(snap, d, l1 as int, l2 as int, p1 as int, p2 as int),
                                        !by_rows ==> col_x_wing(snap, d, l1 as int, l2 as int, p1 as int, p2 as int),
                                        eliminated == ex ==> *state == xsnap,
                                        !by_rows && eliminated == ex ==> forall|x2: int| 0 <= x2 < x && x2 != l1 && x2 != l2
                                            ==> !has_digit(#[trigger] state.candidates@[9 * p1 + x2], d) && !has_digit(state.candidates@[9 * p2 + x2], d),
                                        !by_rows && eliminated == ex ==> forall|t2: int| 0 <= t2 < t ==> !has_digit(#[trigger] state.candidates@[9 * both@[t2] + x], d),
                                    decreases 2 - t,
                                {
                                    let y = both[t];
                                    let (r, c) = if by_rows { (x, y) } else { (y, x) };
                                    if state.cells[r * 9 + c] == 0 && state.candidates[r * 9 + c] & bit != 0 {
                                        let ghost s0 = *state;
                                        proof {
                                            if x_wings_cleared(start) {
                                                assert(eliminated == ex && ex == ep);
                                                assert(*state == start);
                                                lemma_bit_test(state.candidates@[r * 9 + c], d);
                                                assert(y == p1 || y == p2);
                                                if by_rows {
                                                    assert(x_wing_cleared(start, d, l1 as int, l2 as int, p1 as int, p2 as int));
                                                    assert(!has_digit(start.candidates@[9 * x + p1], d));
                                                } else {
                                                    assert(col_x_wing_cleared(start, d, l1 as int, l2 as int, p1 as int, p2 as int));
                                                    assert(!has_digit(start.candidates@[9 * p1 + x], d));
                                                }
                                            }
                                        }
                                        state.candidates[r * 9 + c] &= !bit;
                                        proof {
                                            lemma_remove_one(&start, &s0, state, r * 9 + c, d, eliminated as int);
                                            assert forall|s: Seq<Seq<u8>>| is_complete_valid(s) && start.consistent(s) implies s[r as int][c as int] != d by {
                                                // The other solution cell of `d` on position `y` lies on line l1 or l2.
                                                let l = if line_digit(s, by_rows, l1 as int, y as int) == d { l1 } else { l2 };
                                                assert(line_digit(s, by_rows, l as int, y as int) == d);
                                                if by_rows {
                                                    assert(in_board(l as int, y as int) && in_board(x as int, y as int));
                                                    assert(is_peer(l as int, y as int, x as int, y as int));
                                                } else {
                                                    assert(in_board(y as int, l as int) && in_board(y as int, x as int));
                                                    assert(is_peer(y as int, l as int, y as int, x as int));
                                                }
                                            }
                                            lemma_keeps_remove(&start, &s0, state, r as int, c as int, d);
                                            lemma_clear_one(s0.candidates@, state.candidates@, r * 9 + c, d);
                                            lemma_shrinks_trans(snap.candidates@, s0.candidates@, state.candidates@);
                                            lemma_shrinks_trans(xsnap.candidates@, s0.candidates@, state.candidates@);
                                            lemma_lacks_kept(s0.candidates@, state.candidates@, d);
                                            if by_rows {
                                                assert forall|x2: int| 0 <= x2 < x && x2 != l1 && x2 != l2
                                                    implies !has_digit(#[trigger] state.candidates@[9 * x2 + p1], d) && !has_digit(state.candidates@[9 * x2 + p2], d) by {
                                                    assert(state.candidates@[9 * x2 + p1] == s0.candidates@[9 * x2 + p1]);
                                                    assert(state.candidates@[9 * x2 + p2] == s0.candidates@[9 * x2 + p2]);
                                                }
                                            }
                                        }
                                        eliminated += 1;
                                    } else {
                                        proof {
                                            lemma_bit_test(state.candidates@[r * 9 + c], d);
                                            if state.cells@[r * 9 + c] != 0 {
                                                lemma_empty_mask(0u16, d);
                                            }
                                        }
                                    }
                                    proof {
                                        if !by_rows && eliminated == ex {
                                            assert(r == y && c == x);
                                            assert(!has_digit(state.candidates@[9 * both@[t as int] + x], d));
                                        }
                                    }
                                    proof {
                                        if by_rows {
                                            assert(r == x && c == y);
                                            assert(!has_digit(state.candidates@[9 * x + both@[t as int]], d));
                                        }
                                    }
                                    t += 1;
                                }
                                proof {
                                    if !by_rows && eliminated == ex {
                                        assert(!has_digit(state.candidates@[9 * both@[0] + x], d));
                                        assert(!has_digit(state.candidates@[9 * both@[1] + x], d));
                                        assert(both@[0] == p1 && both@[1] == p2);
                                        assert forall|x2: int| 0 <= x2 < x + 1 && x2 != l1 && x2 != l2
                                            implies !has_digit(#[trigger] state.candidates@[9 * p1 + x2], d)
                                                && !has_digit(state.candidates@[9 * p2 + x2], d) by {
                                        }
                                    }
                                }
                                proof {
                                    if by_rows {
                                        assert(!has_digit(state.candidates@[9 * x + both@[0]], d));
                                        assert(!has_digit(state.candidates@[9 * x + both@[1]], d));
                                        assert forall|x2: int| 0 <= x2 < x + 1 && x2 != l1 && x2 != l2
                                            implies !has_digit(#[trigger] state.candidates@[9 * x2 + p1], d)
                                                && !has_digit(state.candidates@[9 * x2 + p2], d) by {
                                            if x2 == x {
                                                assert(state.candidates@[9 * x2 + p1] == state.candidates@[9 * x + both@[0]]);
                                                assert(state.candidates@[9 * x2 + p2] == state.candidates@[9 * x + both@[1]]);
                                            }
                                        }
                                    }
                                }
                            }
                            proof {
                                if !by_rows && eliminated == ex {
                                    assert forall|x2: int| 0 <= x2 < x + 1 && x2 != l1 && x2 != l2
                                        implies !has_digit(#[trigger] state.candidates@[9 * p1 + x2], d)
                                            && !has_digit(state.candidates@[9 * p2 + x2], d) by {
                                        if x2 < x {
                                            assert(!has_digit(state.candidates@[9 * p1 + x2], d));
                                        }
                                    }
                                }
                            }
                            proof {
                                if by_rows {
                                    assert forall|x2: int| 0 <= x2 < x + 1 && x2 != l1 && x2 != l2
                                        implies !has_digit(#[trigger] state.candidates@[9 * x2 + p1], d)
                                            && !has_digit(state.candidates@[9 * x2 + p2], d) by {
                                        if x2 < x {
                                            assert(!has_digit(state.candidates@[9 * x2 + p1], d));
                                        }
                                    }
                                }
                            }
                            x += 1;
                        }
                        proof {
                            if !by_rows && eliminated == ep {
                                let cur = *state;
                                assert(col_x_wing_cleared(cur, d, l1 as int, l2 as int, p1 as int, p2 as int));
                                assert forall|pp: int, qq: int| 0 <= pp < qq < positions@.len() && (pp < i || (pp == i && qq < j + 1))
                                    && positions@[pp].1@ == positions@[qq].1@
                                    implies #[trigger] col_x_wing_cleared(*state, d, positions@[pp].0 as int, positions@[qq].0 as int,
                                        positions@[pp].1@[0] as int, positions@[pp].1@[1] as int) by {
                                    if pp == i && qq == j {
                                        assert(cur == *state);
                                    }
                                }
                            }
                        }
                        proof {
                            lemma_cleared_kept(xsnap, *state);
                            if by_rows {
                                let cur = *state;
                                assert forall|x2: int| 0 <= x2 < 9 && x2 != l1 && x2 != l2
                                    implies !has_digit(#[trigger] cur.candidates@[9 * x2 + p1 as int], d)
                                        && !has_digit(cur.candidates@[9 * x2 + p2 as int], d) by {
                                    assert(!has_digit(state.candidates@[9 * x2 + p1], d));
                                    assert(!has_digit(state.candidates@[9 * x2 + p2], d));
                                }
                                lemma_cleared_intro(cur, d, l1 as int, l2 as int, p1 as int, p2 as int);
                                assert forall|pp: int, qq: int| 0 <= pp < qq < positions@.len() && (pp < i || (pp == i && qq < j + 1))
                                    && positions@[pp].1@ == positions@[qq].1@
                                    implies #[trigger] x_wing_cleared(*state, d, positions@[pp].0 as int, positions@[qq].0 as int,
                                        positions@[pp].1@[0] as int, positions@[pp].1@[1] as int) by {
                                    if pp == i && qq == j {
                                        assert(cur == *state);
                                    } else {
                                        assert(positions@[pp].1@.len() == 2);
                                        assert(positions@[pp].1@[0] < 9 && positions@[pp].1@[1] < 9);
                                        assert(x_wing_cleared(xsnap, d, positions@[pp].0 as int, positions@[qq].0 as int,
                                            positions@[pp].1@[0] as int, positions@[pp].1@[1] as int));
                                    }
                                }
                            }
                        }
                    }
                    j += 1;
                }
                i += 1;
            }
            proof {
                if !by_rows && eliminated == ep {
                    assert forall|l1: int, l2: int, b1: int, b2: int| #[trigger] col_x_wing(snap, d, l1, l2, b1, b2)
                        implies col_x_wing_cleared(snap, d, l1, l2, b1, b2) by {
                        lemma_col_x_wing_lines(snap, positions@, d, bit, l1, l2, b1, b2);
                        let (p, q) = choose|p: int, q: int| 0 <= p < q < positions@.len() && (#[trigger] positions@[p]).0 == l1
                            && (#[trigger] positions@[q]).0 == l2 && positions@[p].1@ == positions@[q].1@
                            && positions@[p].1@[0] == b1 && positions@[p].1@[1] == b2;
                        assert(col_x_wing_cleared(*state, d, positions@[p].0 as int, positions@[q].0 as int,
                            positions@[p].1@[0] as int, positions@[p].1@[1] as int));
                    }
                }
                assert(ep <= eliminated);
                if eliminated == 0 {
                    assert(snap == start);
                }
            }
            proof {
                lemma_cleared_kept(snap, *state);
                if by_rows {
                    assert forall|l1: int, l2: int, b1: int, b2: int| #[trigger] row_x_wing(start, d, l1, l2, b1, b2)
                        implies x_wing_cleared(*state, d, l1, l2, b1, b2) by {
                        assert forall|k: int| 0 <= k < 81 implies (has_digit(#[trigger] snap.candidates@[k], d)
                            <==> has_digit(start.candidates@[k], d)) by {}
                        lemma_x_wing_lines(start, snap, positions@, d, bit, l1, l2, b1, b2);
                        let (p, q) = choose|p: int, q: int| 0 <= p < q < positions@.len() && (#[trigger] positions@[p]).0 == l1
                            && (#[trigger] positions@[q]).0 == l2 && positions@[p].1@ == positions@[q].1@
                            && positions@[p].1@[0] == b1 && positions@[p].1@[1] == b2;
                        assert(x_wing_cleared(*state, d, positions@[p].0 as int, positions@[q].0 as int,
                            positions@[p].1@[0] as int, positions@[p].1@[1] as int));
                    }
                }
                assert forall|d2: u8, l1: int, l2: int, b1: int, b2: int|
                    (1 <= d2 < d || (d2 == d && pass + 1 >= 1)) && #[trigger] row_x_wing(start, d2, l1, l2, b1, b2)
                    implies x_wing_cleared(*state, d2, l1, l2, b1, b2) by {
                    if d2 < d || pass >= 1 {
                        assert(x_wing_cleared(snap, d2, l1, l2, b1, b2));
                    }
                }
            }
            pass += 1;
        }
        d += 1;
    }

    eliminated
}

/// The set of positions (bits 0..9) listed by three lines.
fn position_set(a: &Vec<usize>, b: &Vec<usize>, c: &Vec<usize>) -> (set: u16)
    requires
        forall|i: int| 0 <= i < a@.len() ==> #[trigger] a@[i] < 9,
        forall|i: int| 0 <= i < b@.len() ==> #[trigger] b@[i] < 9,
        forall|i: int| 0 <= i < c@.len() ==> #[trigger] c@[i] < 9,
    ensures
        forall|x: int| #[trigger] bit_set(set, x) <==> 0 <= x < 9
            && (a@.contains(x as usize) || b@.contains(x as usize) || c@.contains(x as usize)),
{
    let mut set = 0u16;
    proof {
        assert forall|x: int| !#[trigger] bit_set(0u16, x) by {
            if 0 <= x < 16 {
                crate::killer::lemma_zero_bit(x as u16);
            }
        }
    }
    let mut i: usize = 0;
    while i < a.len()
        invariant
            i <= a@.len(),
            forall|i2: int| 0 <= i2 < a@.len() ==> #[trigger] a@[i2] < 9,
            forall|x: int| #[trigger] bit_set(set, x) <==> 0 <= x < 9 && exists|i2: int| 0 <= i2 < i && a@[i2] == x as usize,
        decreases a@.len() - i,
    {
        let ghost prev = set;
        proof {
            crate::digits::lemma_shift_usize(a[i as int]);
        }
        set |= 1u16 << a[i];
        proof {
            assert forall|x: int| #[trigger] bit_set(set, x) <==> 0 <= x < 9 && exists|i2: int| 0 <= i2 < i + 1 && a@[i2] == x as usize by {
                crate::killer::lemma_set_member(prev, a@[i as int] as u16, x);
                if exists|i2: int| 0 <= i2 < i + 1 && a@[i2] == x as usize {
                    let i2 = choose|i2: int| 0 <= i2 < i + 1 && a@[i2] == x as usize;
                    if i2 < i {
                        assert(exists|i3: int| 0 <= i3 < i && a@[i3] == x as usize);
                    }
                }
            }
        }
        i += 1;
    }
    let ghost after_a = set;
    let mut i: usize = 0;
    while i < b.len()
        invariant
            i <= b@.len(),
            forall|i2: int| 0 <= i2 < b@.len() ==> #[trigger] b@[i2] < 9,
            forall|x: int| #[trigger] bit_set(set, x) <==> bit_set(after_a, x) || (0 <= x < 9 && exists|i2: int| 0 <= i2 < i && b@[i2] == x as usize),
        decreases b@.len() - i,
    {
        let ghost prev = set;
        proof {
            crate::digits::lemma_shift_usize(b[i as int]);
        }
        set |= 1u16 << b[i];
        proof {
            assert forall|x: int| #[trigger] bit_set(set, x) <==> bit_set(after_a, x) || (0 <= x < 9 && exists|i2: int| 0 <= i2 < i + 1 && b@[i2] == x as usize) by {
                crate::killer::lemma_set_member(prev, b@[i as int] as u16, x);
                if exists|i2: int| 0 <= i2 < i + 1 && b@[i2] == x as usize {
                    let i2 = choose|i2: int| 0 <= i2 < i + 1 && b@[i2] == x as usize;
                    if i2 < i {
                        assert(exists|i3: int| 0 <= i3 < i && b@[i3] == x as usize);
                    }
                }
            }
        }
        i += 1;
    }
    let ghost after_b = set;
    let mut i: usize = 0;
    while i < c.len()
        invariant
            i <= c@.len(),
            forall|i2: int| 0 <= i2 < c@.len() ==> #[trigger] c@[i2] < 9,
            forall|x: int| #[trigger] bit_set(set, x) <==> bit_set(after_b, x) || (0 <= x < 9 && exists|i2: int| 0 <= i2 < i && c@[i2] == x as usize),
        decreases c@.len() - i,
    {
        let ghost prev = set;
        proof {
            crate::digits::lemma_shift_usize(c[i as int]);
        }
        set |= 1u16 << c[i];
        proof {
            assert forall|x: int| #[trigger] bit_set(set, x) <==> bit_set(after_b, x) || (0 <= x < 9 && exists|i2: int| 0 <= i2 < i + 1 && c@[i2] == x as usize) by {
                crate::killer::lemma_set_member(prev, c@[i as int] as u16, x);
                if exists|i2: int| 0 <= i2 < i + 1 && c@[i2] == x as usize {
                    let i2 = choose|i2: int| 0 <= i2 < i + 1 && c@[i2] == x as usize;
                    if i2 < i {
                        assert(exists|i3: int| 0 <= i3 < i && c@[i3] == x as usize);
                    }
                }
            }
        }
        i += 1;
    }
    proof {
        assert forall|x: int| #[trigger] bit_set(set, x) <==> 0 <= x < 9
            && (a@.contains(x as usize) || b@.contains(x as usize) || c@.contains(x as usize)) by {
            if a@.contains(x as usize) && 0 <= x < 9 {
                let i2 = choose|i2: int| 0 <= i2 < a@.len() && a@[i2] == x as usize;
                assert(bit_set(after_a, x));
            }
            if b@.contains(x as usize) && 0 <= x < 9 {
                let i2 = choose|i2: int| 0 <= i2 < b@.len() && b@[i2] == x as usize;
                assert(bit_set(after_b, x));
            }
            if c@.contains(x as usize) && 0 <= x < 9 {
                let i2 = choose|i2: int| 0 <= i2 < c@.len() && c@[i2] == x as usize;
            }
            if bit_set(after_a, x) {
                let i2 = choose|i2: int| 0 <= i2 < a@.len() && a@[i2] == x as usize;
                assert(a@.contains(x as usize));
            }
            if bit_set(after_b, x) && !bit_set(after_a, x) {
                let i2 = choose|i2: int| 0 <= i2 < b@.len() && b@[i2] == x as usize;
                assert(b@.contains(x as usize));
            }
            if bit_set(set, x) && !bit_set(after_b, x) {
                let i2 = choose|i2: int| 0 <= i2 < c@.len() && c@[i2] == x as usize;
                assert(c@.contains(x as usize));
            }
        }
    }
    set
}

/// Rows `l1 < l2 < l3` of `st` form a swordfish for digit `d` on columns
/// `b1 < b2 < b3`: in each row `d` is not placed and has two or three
/// candidate cells, all in these columns, and each of the three columns is a
/// candidate column of one of the rows.
spec fn row_swordfish(st: RaterState, d: u8, l1: int, l2: int, l3: int, b1: int, b2: int, b3: int) -> bool {
    &&& 0 <= l1 < l2 < l3 < 9
    &&& 0 <= b1 < b2 < b3 < 9
    &&& forall|l: int| (l == l1 || l == l2 || l == l3) ==> 2 <= #[trigger] line_count(st, 1u16 << d, true, l, 9) <= 3
    &&& forall|l: int, b: int| (l == l1 || l == l2 || l == l3) && 0 <= b < 9 ==> #[trigger] st.cells@[9 * l + b] != d
        && (st.cells@[9 * l + b] == 0 && has_digit(st.candidates@[9 * l + b], d) ==> (b == b1 || b == b2 || b == b3))
    &&& column_used(st, d, l1, l2, l3, b1)
    &&& column_used(st, d, l1, l2, l3, b2)
    &&& column_used(st, d, l1, l2, l3, b3)
}

/// One of rows `l1`, `l2`, `l3` has an empty cell in column `b` holding `d`.
spec fn column_used(st: RaterState, d: u8, l1: int, l2: int, l3: int, b: int) -> bool {
    exists|l: int| (l == l1 || l == l2 || l == l3) && #[trigger] st.cells@[9 * l + b] == 0
        && has_digit(st.candidates@[9 * l + b], d)
}

/// No row but `l1`, `l2` and `l3` holds `d` as a candidate in columns `b1`, `b2`, `b3`.
spec fn swordfish_cleared(st: RaterState, d: u8, l1: int, l2: int, l3: int, b1: int, b2: int, b3: int) -> bool {
    forall|y: int, b: int| 0 <= y < 9 && y != l1 && y != l2 && y != l3 && (b == b1 || b == b2 || b == b3)
        ==> !has_digit(#[trigger] st.candidates@[9 * y + b], d)
}

/// Position `x` is listed by one of three lines.
spec fn listed3(a: Seq<usize>, b: Seq<usize>, c: Seq<usize>, x: int) -> bool {
    a.contains(x as usize) || b.contains(x as usize) || c.contains(x as usize)
}

/// The columns are cleared when every other row lacks the digit in each.
proof fn lemma_swordfish_cleared_intro(st: RaterState, d: u8, l1: int, l2: int, l3: int, b1: int, b2: int, b3: int)
    requires
        forall|y: int, b: int| 0 <= y < 9 && y != l1 && y != l2 && y != l3 && (b == b1 || b == b2 || b == b3)
            ==> !has_digit(#[trigger] st.candidates@[9 * y + b], d),
    ensures
        swordfish_cleared(st, d, l1, l2, l3, b1, b2, b3),
{
}

/// Candidates only shrank, so cleared columns stay cleared.
proof fn lemma_swordfish_cleared_kept(a: RaterState, b: RaterState)
    requires
        shrinks(a.candidates@, b.candidates@),
    ensures
        forall|d: u8, l1: int, l2: int, l3: int, b1: int, b2: int, b3: int| 0 <= b1 < 9 && 0 <= b2 < 9 && 0 <= b3 < 9
            && #[trigger] swordfish_cleared(a, d, l1, l2, l3, b1, b2, b3) ==> swordfish_cleared(b, d, l1, l2, l3, b1, b2, b3),
{
    assert forall|d: u8, l1: int, l2: int, l3: int, b1: int, b2: int, b3: int| 0 <= b1 < 9 && 0 <= b2 < 9 && 0 <= b3 < 9
        && #[trigger] swordfish_cleared(a, d, l1, l2, l3, b1, b2, b3) implies swordfish_cleared(b, d, l1, l2, l3, b1, b2, b3) by {
        lemma_lacks_kept(a.candidates@, b.candidates@, d);
        assert forall|y: int, x: int| 0 <= y < 9 && y != l1 && y != l2 && y != l3 && (x == b1 || x == b2 || x == b3)
            implies !has_digit(#[trigger] b.candidates@[9 * y + x], d) by {
            assert(!has_digit(a.candidates@[9 * y + x], d));
        }
    }
}

/// Equal placed digits and equal candidates for `bit` give equal line counts.
proof fn lemma_line_count_same(a: RaterState, b: RaterState, bit: u16, l: int, n: int)
    requires
        a.cells == b.cells,
        forall|k: int| 0 <= k < 81 ==> ((#[trigger] a.candidates@[k] & bit != 0) <==> (b.candidates@[k] & bit != 0)),
        0 <= l < 9,
        n <= 9,
    ensures
        line_count(a, bit, true, l, n) == line_count(b, bit, true, l, n),
    decreases n,
{
    if n > 0 {
        lemma_line_count_same(a, b, bit, l, n - 1);
        assert(a.candidates@[line_cell(true, l, n - 1)] & bit != 0 <==> b.candidates@[line_cell(true, l, n - 1)] & bit != 0);
    }
}

/// The three rows of a swordfish of `start` are listed, in order, among the
/// lines found in `snap`, and together they list exactly its three columns.
proof fn lemma_swordfish_lines(start: RaterState, snap: RaterState, lines: Seq<(usize, Vec<usize>)>, d: u8, bit: u16,
    l1: int, l2: int, l3: int, b1: int, b2: int, b3: int)
    requires
        1 <= d <= 9,
        bit == 1u16 << d,
        row_swordfish(start, d, l1, l2, l3, b1, b2, b3),
        snap.cells == start.cells,
        forall|k: int| 0 <= k < 81 ==> (has_digit(#[trigger] snap.candidates@[k], d) <==> has_digit(start.candidates@[k], d)),
        lines_exact(snap, lines, d, bit, true, 2, 3),
    ensures
        exists|p: int, q: int, r: int| 0 <= p < q < r < lines.len() && (#[trigger] lines[p]).0 == l1
            && (#[trigger] lines[q]).0 == l2 && (#[trigger] lines[r]).0 == l3
            && forall|x: int| 0 <= x < 9 ==> (listed3(lines[p].1@, lines[q].1@, lines[r].1@, x) <==> (x == b1 || x == b2 || x == b3)),
{
    assert forall|k: int| 0 <= k < 81 implies ((#[trigger] snap.candidates@[k] & bit != 0) <==> (start.candidates@[k] & bit != 0)) by {
        lemma_bit_test(snap.candidates@[k], d);
        lemma_bit_test(start.candidates@[k], d);
        assert(has_digit(snap.candidates@[k], d) <==> has_digit(start.candidates@[k], d));
    }
    assert forall|l: int| l == l1 || l == l2 || l == l3 implies 2 <= #[trigger] line_count(snap, bit, true, l, 9) <= 3
        && (forall|b: int| 0 <= b < 9 ==> snap.cells@[line_cell(true, l, b)] != d) by {
        lemma_line_count_same(snap, start, bit, l, 9);
        assert(2 <= line_count(start, 1u16 << d, true, l, 9) <= 3);
        assert forall|b: int| 0 <= b < 9 implies snap.cells@[line_cell(true, l, b)] != d by {
            assert(start.cells@[9 * l + b] != d);
        }
    }
    assert(2 <= line_count(snap, bit, true, l1, 9) <= 3);
    assert(2 <= line_count(snap, bit, true, l2, 9) <= 3);
    assert(2 <= line_count(snap, bit, true, l3, 9) <= 3);
    let p = choose|p: int| 0 <= p < lines.len() && (#[trigger] lines[p]).0 == l1;
    let q = choose|q: int| 0 <= q < lines.len() && (#[trigger] lines[q]).0 == l2;
    let r = choose|r: int| 0 <= r < lines.len() && (#[trigger] lines[r]).0 == l3;
    if q < p {
        assert(lines[q].0 < lines[p].0);
    }
    if r < q {
        assert(lines[r].0 < lines[q].0);
    }
    assert forall|x: int| 0 <= x < 9 implies (listed3(lines[p].1@, lines[q].1@, lines[r].1@, x) <==> (x == b1 || x == b2 || x == b3)) by {
        assert forall|z: int| z == p || z == q || z == r implies ((#[trigger] lines[z]).1@.contains(x as usize)
            <==> (start.cells@[9 * lines[z].0 + x] == 0 && has_digit(start.candidates@[9 * lines[z].0 + x], d))) by {
            lemma_bit_test(snap.candidates@[9 * lines[z].0 + x], d);
            assert(has_digit(snap.candidates@[9 * lines[z].0 + x], d) <==> has_digit(start.candidates@[9 * lines[z].0 + x], d));
            assert(line_cell(true, lines[z].0 as int, x) == 9 * lines[z].0 + x);
        }
        assert(start.cells@[9 * l1 + x] != d);
        assert(start.cells@[9 * l2 + x] != d);
        assert(start.cells@[9 * l3 + x] != d);
        if x == b1 || x == b2 || x == b3 {
            assert(column_used(start, d, l1, l2, l3, x));
            let l = choose|l: int| (l == l1 || l == l2 || l == l3)
                && #[trigger] start.cells@[9 * l + x] == 0 && has_digit(start.candidates@[9 * l + x], d);
        }
    }
}

/// Columns `l1 < l2 < l3` of `st` form a swordfish for digit `d` on rows
/// `b1 < b2 < b3`: in each column `d` is not placed and has two or three
/// candidate cells, all in these rows, and each of the three rows is a
/// candidate row of one of the columns.
spec fn col_swordfish(st: RaterState, d: u8, l1: int, l2: int, l3: int, b1: int, b2: int, b3: int) -> bool {
    &&& 0 <= l1 < l2 < l3 < 9
    &&& 0 <= b1 < b2 < b3 < 9
    &&& forall|l: int| (l == l1 || l == l2 || l == l3) ==> 2 <= #[trigger] line_count(st, 1u16 << d, false, l, 9) <= 3
    &&& forall|l: int, b: int| (l == l1 || l == l2 || l == l3) && 0 <= b < 9 ==> #[trigger] st.cells@[9 * b + l] != d
        && (st.cells@[9 * b + l] == 0 && has_digit(st.candidates@[9 * b + l], d) ==> (b == b1 || b == b2 || b == b3))
    &&& row_used(st, d, l1, l2, l3, b1)
    &&& row_used(st, d, l1, l2, l3, b2)
    &&& row_used(st, d, l1, l2, l3, b3)
}

/// One of columns `l1`, `l2`, `l3` has an empty cell in row `b` holding `d`.
spec fn row_used(st: RaterState, d: u8, l1: int, l2: int, l3: int, b: int) -> bool {
    exists|l: int| (l == l1 || l == l2 || l == l3) && #[trigger] st.cells@[9 * b + l] == 0
        && has_digit(st.candidates@[9 * b + l], d)
}

/// No column but `l1`, `l2` and `l3` holds `d` as a candidate in rows `b1`, `b2`, `b3`.
spec fn col_swordfish_cleared(st: RaterState, d: u8, l1: int, l2: int, l3: int, b1: int, b2: int, b3: int) -> bool {
    forall|y: int, b: int| 0 <= y < 9 && y != l1 && y != l2 && y != l3 && (b == b1 || b == b2 || b == b3)
        ==> !has_digit(#[trigger] st.candidates@[9 * b + y], d)
}

/// The three columns of a swordfish of `snap` are listed, in order, among
/// the lines found in `snap`, and together they list exactly its three rows.
proof fn lemma_col_swordfish_lines(snap: RaterState, lines: Seq<(usize, Vec<usize>)>, d: u8, bit: u16,
    l1: int, l2: int, l3: int, b1: int, b2: int, b3: int)
    requires
        1 <= d <= 9,
        bit == 1u16 << d,
        col_swordfish(snap, d, l1, l2, l3, b1, b2, b3),
        lines_exact(snap, lines, d, bit, false, 2, 3),
    ensures
        exists|p: int, q: int, r: int| 0 <= p < q < r < lines.len() && (#[trigger] lines[p]).0 == l1
            && (#[trigger] lines[q]).0 == l2 && (#[trigger] lines[r]).0 == l3
            && forall|x: int| 0 <= x < 9 ==> (listed3(lines[p].1@, lines[q].1@, lines[r].1@, x) <==> (x == b1 || x == b2 || x == b3)),
{
    assert forall|l: int| l == l1 || l == l2 || l == l3 implies 2 <= #[trigger] line_count(snap, bit, false, l, 9) <= 3
        && (forall|b: int| 0 <= b < 9 ==> snap.cells@[line_cell(false, l, b)] != d) by {
        assert forall|b: int| 0 <= b < 9 implies snap.cells@[line_cell(false, l, b)] != d by {
            assert(snap.cells@[9 * b + l] != d);
        }
    }
    assert(2 <= line_count(snap, bit, false, l1, 9) <= 3);
    assert(2 <= line_count(snap, bit, false, l2, 9) <= 3);
    assert(2 <= line_count(snap, bit, false, l3, 9) <= 3);
    let p = choose|p: int| 0 <= p < lines.len() && (#[trigger] lines[p]).0 == l1;
    let q = choose|q: int| 0 <= q < lines.len() && (#[trigger] lines[q]).0 == l2;
    let r = choose|r: int| 0 <= r < lines.len() && (#[trigger] lines[r]).0 == l3;
    if q < p {
        assert(lines[q].0 < lines[p].0);
    }
    if r < q {
        assert(lines[r].0 < lines[q].0);
    }
    assert forall|x: int| 0 <= x < 9 implies (listed3(lines[p].1@, lines[q].1@, lines[r].1@, x) <==> (x == b1 || x == b2 || x == b3)) by {
        assert forall|z: int| z == p || z == q || z == r implies ((#[trigger] lines[z]).1@.contains(x as usize)
            <==> (snap.cells@[9 * x + lines[z].0] == 0 && has_digit(snap.candidates@[9 * x + lines[z].0], d))) by {
            lemma_bit_test(snap.candidates@[9 * x + lines[z].0], d);
            assert(line_cell(false, lines[z].0 as int, x) == 9 * x + lines[z].0);
        }
        assert(snap.cells@[9 * x + l1] != d);
        assert(snap.cells@[9 * x + l2] != d);
        assert(snap.cells@[9 * x + l3] != d);
        if x == b1 || x == b2 || x == b3 {
            assert(row_used(snap, d, l1, l2, l3, x));
            let l = choose|l: int| (l == l1 || l == l2 || l == l3)
                && #[trigger] snap.cells@[9 * x + l] == 0 && has_digit(snap.candidates@[9 * x + l], d);
        }
    }
}

/// A three-member set of positions made of three lines' positions, the
/// first with two positions in order, as its three members in order.
proof fn lemma_three_members(cross: u16, a: Seq<usize>, b: Seq<usize>, c: Seq<usize>) -> (t: (int, int, int))
    requires
        forall|x: int| #[trigger] bit_set(cross, x) <==> 0 <= x < 9 && listed3(a, b, c, x),
        popcount(cross) == 3,
        a.len() >= 2,
        a[0] < a[1] < 9,
    ensures
        0 <= t.0 < t.1 < t.2 < 9,
        forall|x: int| #[trigger] bit_set(cross, x) <==> (x == t.0 || x == t.1 || x == t.2),
{
    let (e1, e2) = (a[0] as int, a[1] as int);
    assert(a.contains(e1 as usize) && a.contains(e2 as usize));
    assert(bit_set(cross, e1) && bit_set(cross, e2));
    if exists|x: int| #[trigger] bit_set(cross, x) && x != e1 && x != e2 {
        let e3 = choose|x: int| #[trigger] bit_set(cross, x) && x != e1 && x != e2;
        let xs = seq![e1, e2, e3];
        assert(crate::killer::distinct_positions(xs));
        assert forall|i: int| 0 <= i < xs.len() implies bit_set(cross, #[trigger] xs[i]) by {}
        assert forall|x: int| #[trigger] bit_set(cross, x) implies (x == e1 || x == e2 || x == e3) by {
            crate::killer::lemma_members_listed(cross, xs, x);
            let i = choose|i: int| 0 <= i < xs.len() && xs[i] == x;
        }
        if e3 < e1 {
            (e3, e1, e2)
        } else if e3 < e2 {
            (e1, e3, e2)
        } else {
            (e1, e2, e3)
        }
    } else {
        let xs = seq![e1, e2];
        assert(crate::killer::distinct_positions(xs));
        crate::killer::lemma_mask_of(xs);
        assert forall|x: int| 0 <= x < 16 implies (bit_set(cross, x) <==> bit_set(crate::killer::mask_of(xs), x)) by {
            if bit_set(cross, x) {
                assert(x == e1 || x == e2);
                if x == e1 {
                    assert(xs[0] == x);
                } else {
                    assert(xs[1] == x);
                }
                assert(xs.contains(x));
            }
            if bit_set(crate::killer::mask_of(xs), x) {
                assert(xs.contains(x));
                let i = choose|i: int| 0 <= i < xs.len() && xs[i] == x;
                assert(x == e1 || x == e2);
            }
        }
        crate::killer::lemma_mask_ext(cross, crate::killer::mask_of(xs));
        (e1, e2, e2)
    }
}

/// Three listed lines whose positions for `d` together are exactly
/// `b1 < b2 < b3` form a swordfish.
proof fn lemma_lines_swordfish(snap: RaterState, lines: Seq<(usize, Vec<usize>)>, d: u8, bit: u16, by_rows: bool,
    i: int, j: int, k: int, b1: int, b2: int, b3: int)
    requires
        1 <= d <= 9,
        bit == 1u16 << d,
        lines_exact(snap, lines, d, bit, by_rows, 2, 3),
        0 <= i < j < k < lines.len(),
        0 <= b1 < b2 < b3 < 9,
        forall|x: int| 0 <= x < 9 ==> (listed3(lines[i].1@, lines[j].1@, lines[k].1@, x) <==> (x == b1 || x == b2 || x == b3)),
    ensures
        by_rows ==> row_swordfish(snap, d, lines[i].0 as int, lines[j].0 as int, lines[k].0 as int, b1, b2, b3),
        !by_rows ==> col_swordfish(snap, d, lines[i].0 as int, lines[j].0 as int, lines[k].0 as int, b1, b2, b3),
{
    let (l1, l2, l3) = (lines[i].0 as int, lines[j].0 as int, lines[k].0 as int);
    assert(lines[i].0 < lines[j].0 && lines[j].0 < lines[k].0 && lines[k].0 < 9);
    assert forall|l: int| l == l1 || l == l2 || l == l3 implies 2 <= #[trigger] line_count(snap, 1u16 << d, by_rows, l, 9) <= 3 by {
        let p = if l == l1 { i } else if l == l2 { j } else { k };
        assert(lines[p].0 == l);
        assert(lines[p].1@.len() == line_count(snap, bit, by_rows, lines[p].0 as int, 9));
    }
    assert forall|l: int, b: int| (l == l1 || l == l2 || l == l3) && 0 <= b < 9 implies
        snap.cells@[line_cell(by_rows, l, b)] != d
        && (snap.cells@[line_cell(by_rows, l, b)] == 0 && has_digit(snap.candidates@[line_cell(by_rows, l, b)], d)
            ==> (b == b1 || b == b2 || b == b3)) by {
        let p = if l == l1 { i } else if l == l2 { j } else { k };
        assert(lines[p].0 == l);
        assert(snap.cells@[line_cell(by_rows, lines[p].0 as int, b)] != d);
        lemma_bit_test(snap.candidates@[line_cell(by_rows, l, b)], d);
        if snap.cells@[line_cell(by_rows, l, b)] == 0 && has_digit(snap.candidates@[line_cell(by_rows, l, b)], d) {
            assert(lines[p].1@.contains(b as usize));
            assert(listed3(lines[i].1@, lines[j].1@, lines[k].1@, b));
        }
    }
    assert forall|b: int| 0 <= b < 9 && #[trigger] listed3(lines[i].1@, lines[j].1@, lines[k].1@, b) implies exists|l: int| (l == l1 || l == l2 || l == l3)
        && #[trigger] snap.cells@[line_cell(by_rows, l, b)] == 0 && has_digit(snap.candidates@[line_cell(by_rows, l, b)], d) by {
        let p = if lines[i].1@.contains(b as usize) { i } else if lines[j].1@.contains(b as usize) { j } else { k };
        assert(lines[p].1@.contains(b as usize));
        let l = lines[p].0 as int;
        assert(snap.cells@[line_cell(by_rows, lines[p].0 as int, b)] == 0
            && snap.candidates@[line_cell(by_rows, lines[p].0 as int, b)] & bit != 0);
        lemma_bit_test(snap.candidates@[line_cell(by_rows, l, b)], d);
    }
    if by_rows {
        assert forall|l: int| (l == l1 || l == l2 || l == l3) implies 2 <= #[trigger] line_count(snap, 1u16 << d, true, l, 9) <= 3 by {
            assert(2 <= line_count(snap, 1u16 << d, by_rows, l, 9) <= 3);
        }
        assert forall|l: int, b: int| (l == l1 || l == l2 || l == l3) && 0 <= b < 9 implies #[trigger] snap.cells@[9 * l + b] != d
            && (snap.cells@[9 * l + b] == 0 && has_digit(snap.candidates@[9 * l + b], d) ==> (b == b1 || b == b2 || b == b3)) by {
            assert(line_cell(by_rows, l, b) == 9 * l + b);
        }
        assert forall|b: int| b == b1 || b == b2 || b == b3 implies #[trigger] column_used(snap, d, l1, l2, l3, b) by {
            assert(listed3(lines[i].1@, lines[j].1@, lines[k].1@, b));
            let l = choose|l: int| (l == l1 || l == l2 || l == l3)
                && #[trigger] snap.cells@[line_cell(by_rows, l, b)] == 0 && has_digit(snap.candidates@[line_cell(by_rows, l, b)], d);
            assert(line_cell(by_rows, l, b) == 9 * l + b);
        }
        assert(column_used(snap, d, l1, l2, l3, b1));
        assert(column_used(snap, d, l1, l2, l3, b2));
        assert(column_used(snap, d, l1, l2, l3, b3));
    } else {
        assert forall|l: int| (l == l1 || l == l2 || l == l3) implies 2 <= #[trigger] line_count(snap, 1u16 << d, false, l, 9) <= 3 by {
            assert(2 <= line_count(snap, 1u16 << d, by_rows, l, 9) <= 3);
        }
        assert forall|l: int, b: int| (l == l1 || l == l2 || l == l3) && 0 <= b < 9 implies #[trigger] snap.cells@[9 * b + l] != d
            && (snap.cells@[9 * b + l] == 0 && has_digit(snap.candidates@[9 * b + l], d) ==> (b == b1 || b == b2 || b == b3)) by {
            assert(line_cell(by_rows, l, b) == 9 * b + l);
        }
        assert forall|b: int| b == b1 || b == b2 || b == b3 implies #[trigger] row_used(snap, d, l1, l2, l3, b) by {
            assert(listed3(lines[i].1@, lines[j].1@, lines[k].1@, b));
            let l = choose|l: int| (l == l1 || l == l2 || l == l3)
                && #[trigger] snap.cells@[line_cell(by_rows, l, b)] == 0 && has_digit(snap.candidates@[line_cell(by_rows, l, b)], d);
            assert(line_cell(by_rows, l, b) == 9 * b + l);
        }
        assert(row_used(snap, d, l1, l2, l3, b1));
        assert(row_used(snap, d, l1, l2, l3, b2));
        assert(row_used(snap, d, l1, l2, l3, b3));
    }
}

/// Three listed lines whose positions for `d` together make a three-member
/// set form a swordfish on those three positions.
proof fn lemma_swordfish_found(snap: RaterState, lines: Seq<(usize, Vec<usize>)>, d: u8, bit: u16, by_rows: bool,
    i: int, j: int, k: int, cross: u16) -> (t: (int, int, int))
    requires
        1 <= d <= 9,
        bit == 1u16 << d,
        lines_exact(snap, lines, d, bit, by_rows, 2, 3),
        0 <= i < j < k < lines.len(),
        forall|x: int| #[trigger] bit_set(cross, x) <==> 0 <= x < 9
            && (lines[i].1@.contains(x as usize) || lines[j].1@.contains(x as usize) || lines[k].1@.contains(x as usize)),
        popcount(cross) == 3,
    ensures
        forall|x: int| #[trigger] bit_set(cross, x) <==> (x == t.0 || x == t.1 || x == t.2),
        by_rows ==> row_swordfish(snap, d, lines[i].0 as int, lines[j].0 as int, lines[k].0 as int, t.0, t.1, t.2),
        !by_rows ==> col_swordfish(snap, d, lines[i].0 as int, lines[j].0 as int, lines[k].0 as int, t.0, t.1, t.2),
{
    assert(lines[i].1@.len() >= 2);
    assert(lines[i].1@[0] < lines[i].1@[1]);
    assert(lines[i].1@[1] < 9);
    let t = lemma_three_members(cross, lines[i].1@, lines[j].1@, lines[k].1@);
    assert forall|x: int| 0 <= x < 9 implies (listed3(lines[i].1@, lines[j].1@, lines[k].1@, x)
        <==> (x == t.0 || x == t.1 || x == t.2)) by {
        assert(bit_set(cross, x) <==> (x == t.0 || x == t.1 || x == t.2));
    }
    lemma_lines_swordfish(snap, lines, d, bit, by_rows, i, j, k, t.0, t.1, t.2);
    t
}

/// Every swordfish in rows and in columns has its positions cleared.
spec fn swordfishes_cleared(s: RaterState) -> bool {
    &&& forall|d: u8, l1: int, l2: int, l3: int, b1: int, b2: int, b3: int| 1 <= d <= 9
        && #[trigger] row_swordfish(s, d, l1, l2, l3, b1, b2, b3) ==> swordfish_cleared(s, d, l1, l2, l3, b1, b2, b3)
    &&& forall|d: u8, l1: int, l2: int, l3: int, b1: int, b2: int, b3: int| 1 <= d <= 9
        && #[trigger] col_swordfish(s, d, l1, l2, l3, b1, b2, b3) ==> col_swordfish_cleared(s, d, l1, l2, l3, b1, b2, b3)
}

/// Try Swordfish technique. Returns number of candidates eliminated.
/// Every swordfish in rows of the starting state is applied: its digit is
/// cleared from its three columns in every other row. When nothing is
/// removed, no swordfish in columns had anything left to clear, and with no
/// swordfish in rows or columns left to clear, nothing is removed.
#[verifier::spinoff_prover]
#[verifier::rlimit(100)]
fn try_swordfish(state: &mut RaterState) -> (eliminated: u32)
    requires
        old(state).base_wf(),
    ensures
        final(state).elim_from(old(state), eliminated as int),
        keeps_solutions(old(state), final(state)),
        forall|d: u8, l1: int, l2: int, l3: int, b1: int, b2: int, b3: int|
            1 <= d <= 9 && #[trigger] row_swordfish(*old(state), d, l1, l2, l3, b1, b2, b3)
            ==> swordfish_cleared(*final(state), d, l1, l2, l3, b1, b2, b3),
        eliminated == 0 ==> forall|d: u8, l1: int, l2: int, l3: int, b1: int, b2: int, b3: int|
            1 <= d <= 9 && #[trigger] col_swordfish(*old(state), d, l1, l2, l3, b1, b2, b3)
            ==> col_swordfish_cleared(*old(state), d, l1, l2, l3, b1, b2, b3),
        swordfishes_cleared(*old(state)) ==> eliminated == 0,
{
    let ghost start = *state;
    proof {
        lemma_elim_refl(&start);
    }
    let mut eliminated: u32 = 0;

    let mut d: u8 = 1;
    while d <= 9
        invariant
            1 <= d <= 10,
            start.base_wf(),
            start.measure() <= 1296,
            state.elim_from(&start, eliminated as int),
            swordfishes_cleared(start) ==> eliminated == 0,
            keeps_solutions(&start, state),
            forall|k: int, e: u8| 0 <= k < 81 && d <= e ==> (#[trigger] has_digit(state.candidates@[k], e) <==> has_digit(start.candidates@[k], e)),
            forall|d2: u8, l1: int, l2: int, l3: int, b1: int, b2: int, b3: int| 1 <= d2 < d
                && #[trigger] row_swordfish(start, d2, l1, l2, l3, b1, b2, b3) ==> swordfish_cleared(*state, d2, l1, l2, l3, b1, b2, b3),
            eliminated == 0 ==> *state == start,
            eliminated == 0 ==> forall|d2: u8, l1: int, l2: int, l3: int, b1: int, b2: int, b3: int| 1 <= d2 < d
                && #[trigger] col_swordfish(start, d2, l1, l2, l3, b1, b2, b3) ==> col_swordfish_cleared(start, d2, l1, l2, l3, b1, b2, b3),
        decreases 10 - d,
    {
        let bit = 1u16 << d;

        // Swordfish in rows (`by_rows`), then in columns
        let mut pass: usize = 0;
        while pass < 2
            invariant
                pass <= 2,
                1 <= d <= 9,
                bit == 1u16 << d,
                start.base_wf(),
                start.measure() <= 1296,
                state.elim_from(&start, eliminated as int),
                swordfishes_cleared(start) ==> eliminated == 0,
                keeps_solutions(&start, state),
                pass == 0 ==> forall|k: int, e: u8| 0 <= k < 81 && d <= e ==> (#[trigger] has_digit(state.candidates@[k], e) <==> has_digit(start.candidates@[k], e)),
                forall|k: int, e: u8| 0 <= k < 81 && d < e ==> (#[trigger] has_digit(state.candidates@[k], e) <==> has_digit(start.candidates@[k], e)),
                forall|d2: u8, l1: int, l2: int, l3: int, b1: int, b2: int, b3: int| (1 <= d2 < d || (d2 == d && pass >= 1))
                && #[trigger] row_swordfish(start, d2, l1, l2, l3, b1, b2, b3) ==> swordfish_cleared(*state, d2, l1, l2, l3, b1, b2, b3),
                eliminated == 0 ==> *state == start,
                eliminated == 0 ==> forall|d2: u8, l1: int, l2: int, l3: int, b1: int, b2: int, b3: int| (1 <= d2 < d || (d2 == d && pass >= 2))
                    && #[trigger] col_swordfish(start, d2, l1, l2, l3, b1, b2, b3) ==> col_swordfish_cleared(start, d2, l1, l2, l3, b1, b2, b3),
            decreases 2 - pass,
        {
            let by_rows = pass == 0;
            let ghost snap = *state;
            let ghost ep = eliminated;
            proof {
                lemma_shrinks_refl(snap.candidates@);
            }
            let positions = line_positions(state, d, bit, by_rows, 2, 3);
            let mut i: usize = 0;
            while i < positions.len()
                invariant
                    1 <= d <= 9,
                    bit == 1u16 << d,
                    i <= positions@.len(),
                    lines_exact(snap, positions@, d, bit, by_rows, 2, 3),
                    keeps_solutions(&start, &snap),
                    start.base_wf(),
                    start.measure() <= 1296,
                    state.elim_from(&start, eliminated as int),
                    swordfishes_cleared(start) ==> eliminated == 0,
                    keeps_solutions(&start, state),
                    forall|k: int, e: u8| 0 <= k < 81 && d < e ==> (#[trigger] has_digit(state.candidates@[k], e) <==> has_digit(start.candidates@[k], e)),
                    shrinks(snap.candidates@, state.candidates@),
                    by_rows ==> forall|p: int, q: int, r: int, b1: int, b2: int, b3: int| 0 <= p < q < r < positions@.len() && (p < i)
                            && 0 <= b1 < b2 && b2 < b3 && b3 < 9
                            && (forall|x: int| 0 <= x < 9 ==> (listed3(positions@[p].1@, positions@[q].1@, positions@[r].1@, x)
                                <==> (x == b1 || x == b2 || x == b3)))
                            ==> #[trigger] swordfish_cleared(*state, d, positions@[p].0 as int, positions@[q].0 as int,
                                positions@[r].0 as int, b1, b2, b3),
                    ep <= eliminated,
                    ep == 0 ==> snap == start,
                    eliminated == ep ==> *state == snap,
                    !by_rows && eliminated == ep ==> forall|p: int, q: int, r: int, b1: int, b2: int, b3: int| 0 <= p < q < r < positions@.len() && (p < i)
                            && 0 <= b1 < b2 && b2 < b3 && b3 < 9
                            && (forall|x: int| 0 <= x < 9 ==> (listed3(positions@[p].1@, positions@[q].1@, positions@[r].1@, x)
                                <==> (x == b1 || x == b2 || x == b3)))
                            ==> #[trigger] col_swordfish_cleared(*state, d, positions@[p].0 as int, positions@[q].0 as int,
                                positions@[r].0 as int, b1, b2, b3),
                decreases positions@.len() - i,
            {
                let mut j: usize = i + 1;
                while j < positions.len()
                    invariant
                        1 <= d <= 9,
                        bit == 1u16 << d,
                        i < j <= positions@.len(),
                        lines_exact(snap, positions@, d, bit, by_rows, 2, 3),
                        keeps_solutions(&start, &snap),
                        start.base_wf(),
                        start.measure() <= 1296,
                        state.elim_from(&start, eliminated as int),
                        swordfishes_cleared(start) ==> eliminated == 0,
                        keeps_solutions(&start, state),
                        forall|k: int, e: u8| 0 <= k < 81 && d < e ==> (#[trigger] has_digit(state.candidates@[k], e) <==> has_digit(start.candidates@[k], e)),
                        shrinks(snap.candidates@, state.candidates@),
                        by_rows ==> forall|p: int, q: int, r: int, b1: int, b2: int, b3: int| 0 <= p < q < r < positions@.len() && (p < i || (p == i && q < j))
                            && 0 <= b1 < b2 && b2 < b3 && b3 < 9
                            && (forall|x: int| 0 <= x < 9 ==> (listed3(positions@[p].1@, positions@[q].1@, positions@[r].1@, x)
                                <==> (x == b1 || x == b2 || x == b3)))
                            ==> #[trigger] swordfish_cleared(*state, d, positions@[p].0 as int, positions@[q].0 as int,
                                positions@[r].0 as int, b1, b2, b3),
                        ep <= eliminated,
                        ep == 0 ==> snap == start,
                        eliminated == ep ==> *state == snap,
                        !by_rows && eliminated == ep ==> forall|p: int, q: int, r: int, b1: int, b2: int, b3: int| 0 <= p < q < r < positions@.len() && (p < i || (p == i && q < j))
                                && 0 <= b1 < b2 && b2 < b3 && b3 < 9
                                && (forall|x: int| 0 <= x < 9 ==> (listed3(positions@[p].1@, positions@[q].1@, positions@[r].1@, x)
                                    <==> (x == b1 || x == b2 || x == b3)))
                                ==> #[trigger] col_swordfish_cleared(*state, d, positions@[p].0 as int, positions@[q].0 as int,
                                    positions@[r].0 as int, b1, b2, b3),
                    decreases positions@.len() - j,
                {
                    let mut k: usize = j + 1;
                    while k < positions.len()
                        invariant
                            1 <= d <= 9,
                            bit == 1u16 << d,
                            i < j < k <= positions@.len(),
                            lines_exact(snap, positions@, d, bit, by_rows, 2, 3),
                            keeps_solutions(&start, &snap),
                            start.base_wf(),
                            start.measure() <= 1296,
                            state.elim_from(&start, eliminated as int),
                            swordfishes_cleared(start) ==> eliminated == 0,
                            keeps_solutions(&start, state),
                            forall|k: int, e: u8| 0 <= k < 81 && d < e ==> (#[trigger] has_digit(state.candidates@[k], e) <==> has_digit(start.candidates@[k], e)),
                            shrinks(snap.candidates@, state.candidates@),
                            by_rows ==> forall|p: int, q: int, r: int, b1: int, b2: int, b3: int| 0 <= p < q < r < positions@.len() && (p < i || (p == i && (q < j || (q == j && r < k))))
                            && 0 <= b1 < b2 && b2 < b3 && b3 < 9
                            && (forall|x: int| 0 <= x < 9 ==> (listed3(positions@[p].1@, positions@[q].1@, positions@[r].1@, x)
                                <==> (x == b1 || x == b2 || x == b3)))
                            ==> #[trigger] swordfish_cleared(*state, d, positions@[p].0 as int, positions@[q].0 as int,
                                positions@[r].0 as int, b1, b2, b3),
                            ep <= eliminated,
                            ep == 0 ==> snap == start,
                            eliminated == ep ==> *state == snap,
                            !by_rows && eliminated == ep ==> forall|p: int, q: int, r: int, b1: int, b2: int, b3: int| 0 <= p < q < r < positions@.len() && (p < i || (p == i && (q < j || (q == j && r < k))))
                                    && 0 <= b1 < b2 && b2 < b3 && b3 < 9
                                    && (forall|x: int| 0 <= x < 9 ==> (listed3(positions@[p].1@, positions@[q].1@, positions@[r].1@, x)
                                        <==> (x == b1 || x == b2 || x == b3)))
                                    ==> #[trigger] col_swordfish_cleared(*state, d, positions@[p].0 as int, positions@[q].0 as int,
                                        positions@[r].0 as int, b1, b2, b3),
                        decreases positions@.len() - k,
                    {
                        let cross_set = position_set(&positions[i].1, &positions[j].1, &positions[k].1);
                        if count_digits(cross_set) == 3 {
                            let l1 = positions[i].0;
                            let l2 = positions[j].0;
                            let l3 = positions[k].0;
                            let ghost mut sb: (int, int, int) = (0, 0, 0);
                            proof {
                                sb = lemma_swordfish_found(snap, positions@, d, bit, by_rows, i as int, j as int, k as int, cross_set);
                            }
                            proof {
                                // Every solution puts `d` on the three lines at three different
                                // positions of the set, which has no other member.
                                assert forall|s: Seq<Seq<u8>>| is_complete_valid(s) && start.consistent(s) implies
                                    forall|x: int| #[trigger] bit_set(cross_set, x) ==>
                                        line_digit(s, by_rows, l1 as int, x) == d || line_digit(s, by_rows, l2 as int, x) == d
                                            || line_digit(s, by_rows, l3 as int, x) == d by {
                                    assert(snap.consistent(s));
                                    lemma_line_has_digit(&snap, s, positions@, i as int, d, bit, by_rows, 2, 3);
                                    lemma_line_has_digit(&snap, s, positions@, j as int, d, bit, by_rows, 2, 3);
                                    lemma_line_has_digit(&snap, s, positions@, k as int, d, bit, by_rows, 2, 3);
                                    let b1 = choose|b: int| 0 <= b < 9 && positions@[i as int].1@.contains(b as usize)
                                        && line_digit(s, by_rows, l1 as int, b) == d;
                                    let b2 = choose|b: int| 0 <= b < 9 && positions@[j as int].1@.contains(b as usize)
                                        && line_digit(s, by_rows, l2 as int, b) == d;
                                    let b3 = choose|b: int| 0 <= b < 9 && positions@[k as int].1@.contains(b as usize)
                                        && line_digit(s, by_rows, l3 as int, b) == d;
                                    assert(bit_set(cross_set, b1) && bit_set(cross_set, b2) && bit_set(cross_set, b3));
                                    assert(l1 < l2 && l2 < l3);
                                    lemma_distinct_positions(s, by_rows, l1 as int, l2 as int, b1, b2, d);
                                    lemma_distinct_positions(s, by_rows, l1 as int, l3 as int, b1, b3, d);
                                    lemma_distinct_positions(s, by_rows, l2 as int, l3 as int, b2, b3, d);
                                    let xs = seq![b1, b2, b3];
                                    assert(crate::killer::distinct_positions(xs));
                                    assert forall|x: int| #[trigger] bit_set(cross_set, x) implies
                                        line_digit(s, by_rows, l1 as int, x) == d || line_digit(s, by_rows, l2 as int, x) == d
                                            || line_digit(s, by_rows, l3 as int, x) == d by {
                                        assert forall|m: int| 0 <= m < xs.len() implies bit_set(cross_set, #[trigger] xs[m]) by {
                                        }
                                        crate::killer::lemma_members_listed(cross_set, xs, x);
                                        assert(x == b1 || x == b2 || x == b3);
                                    }
                                }
                            }
                            let ghost xsnap = *state;
                            let ghost ex = eliminated;
                            proof {
                                lemma_shrinks_refl(xsnap.candidates@);
                            }
                            let mut x: usize = 0;
                            while x < 9
                                invariant
                                    x <= 9,
                                    1 <= d <= 9,
                                    bit == 1u16 << d,
                                    l1 < 9,
                                    l2 < 9,
                                    l3 < 9,
                                    forall|s: Seq<Seq<u8>>| is_complete_valid(s) && start.consistent(s) ==>
                                        forall|x2: int| #[trigger] bit_set(cross_set, x2) ==>
                                            line_digit(s, by_rows, l1 as int, x2) == d || line_digit(s, by_rows, l2 as int, x2) == d
                                                || line_digit(s, by_rows, l3 as int, x2) == d,
                                    start.base_wf(),
                                    start.measure() <= 1296,
                                    state.elim_from(&start, eliminated as int),
                                    swordfishes_cleared(start) ==> eliminated == 0,
                                    keeps_solutions(&start, state),
                                    forall|k: int, e: u8| 0 <= k < 81 && d < e ==> (#[trigger] has_digit(state.candidates@[k], e) <==> has_digit(start.candidates@[k], e)),
                                    shrinks(snap.candidates@, state.candidates@),
                                    shrinks(xsnap.candidates@, state.candidates@),
                                    by_rows ==> forall|x2: int, y2: int| 0 <= x2 < x && 0 <= y2 < 9 && y2 != l1 && y2 != l2 && y2 != l3
                                        && bit_set(cross_set, x2) ==> !has_digit(#[trigger] state.candidates@[9 * y2 + x2], d),
                                    ep <= ex,
                                    ex <= eliminated,
                                    ex == ep ==> xsnap == snap,
                                    ep == 0 ==> snap == start,
                                    by_rows ==> row_swordfish(snap, d, l1 as int, l2 as int, l3 as int, sb.0, sb.1, sb.2),
                                    !by_rows ==> col_swordfish(snap, d, l1 as int, l2 as int, l3 as int, sb.0, sb.1, sb.2),
                                    forall|x2: int| #[trigger] bit_set(cross_set, x2) <==> (x2 == sb.0 || x2 == sb.1 || x2 == sb.2),
                                    eliminated == ex ==> *state == xsnap,
                                    !by_rows && eliminated == ex ==> forall|x2: int, y2: int| 0 <= x2 < x && 0 <= y2 < 9 && y2 != l1 && y2 != l2 && y2 != l3
                                        && bit_set(cross_set, x2) ==> !has_digit(#[trigger] state.candidates@[9 * x2 + y2], d),
                                decreases 9 - x,
                            {
                                proof {
                                    crate::digits::lemma_shift_usize(x);
                                    crate::digits::lemma_shift_cast(cross_set, x as u8);
                                    lemma_bit_test(cross_set, x as u8);
                                }
                                if cross_set & (1u16 << x) != 0 {
                                    let mut y: usize = 0;
                                    while y < 9
                                        invariant
                                            y <= 9,
                                            x < 9,
                                            bit_set(cross_set, x as int),
                                            1 <= d <= 9,
                                            bit == 1u16 << d,
                                            l1 < 9,
                                            l2 < 9,
                                            l3 < 9,
                                            forall|s: Seq<Seq<u8>>| is_complete_valid(s) && start.consistent(s) ==>
                                                forall|x2: int| #[trigger] bit_set(cross_set, x2) ==>
                                                    line_digit(s, by_rows, l1 as int, x2) == d || line_digit(s, by_rows, l2 as int, x2) == d
                                                        || line_digit(s, by_rows, l3 as int, x2) == d,
                                            start.base_wf(),
                                            start.measure() <= 1296,
                                            state.elim_from(&start, eliminated as int),
                                            swordfishes_cleared(start) ==> eliminated == 0,
                                            keeps_solutions(&start, state),
                                            forall|k: int, e: u8| 0 <= k < 81 && d < e ==> (#[trigger] has_digit(state.candidates@[k], e) <==> has_digit(start.candidates@[k], e)),
                                            shrinks(snap.candidates@, state.candidates@),
                                            shrinks(xsnap.candidates@, state.candidates@),
                                            by_rows ==> forall|x2: int, y2: int| 0 <= x2 < x && 0 <= y2 < 9 && y2 != l1 && y2 != l2 && y2 != l3
                                                && bit_set(cross_set, x2) ==> !has_digit(#[trigger] state.candidates@[9 * y2 + x2], d),
                                            by_rows ==> forall|y2: int| 0 <= y2 < y && y2 != l1 && y2 != l2 && y2 != l3
                                                ==> !has_digit(#[trigger] state.candidates@[9 * y2 + x], d),
                                            ep <= ex,
                                            ex <= eliminated,
                                            ex == ep ==> xsnap == snap,
                                            ep == 0 ==> snap == start,
                                            by_rows ==> row_swordfish(snap, d, l1 as int, l2 as int, l3 as int, sb.0, sb.1, sb.2),
                                            !by_rows ==> col_swordfish(snap, d, l1 as int, l2 as int, l3 as int, sb.0, sb.1, sb.2),
                                            forall|x2: int| #[trigger] bit_set(cross_set, x2) <==> (x2 == sb.0 || x2 == sb.1 || x2 == sb.2),
                                            eliminated == ex ==> *state == xsnap,
                                            !by_rows && eliminated == ex ==> forall|x2: int, y2: int| 0 <= x2 < x && 0 <= y2 < 9 && y2 != l1 && y2 != l2 && y2 != l3
                                                && bit_set(cross_set, x2) ==> !has_digit(#[trigger] state.candidates@[9 * x2 + y2], d),
                                            !by_rows && eliminated == ex ==> forall|y2: int| 0 <= y2 < y && y2 != l1 && y2 != l2 && y2 != l3
                                                ==> !has_digit(#[trigger] state.candidates@[9 * x + y2], d),
                                        decreases 9 - y,
                                    {
                                        // cell on line y, position x
                                        let cell = if by_rows { y * 9 + x } else { x * 9 + y };
                                        if y != l1 && y != l2 && y != l3 && state.cells[cell] == 0
                                            && state.candidates[cell] & bit != 0 {
                                            let ghost s0 = *state;
                                            proof {
                                                if swordfishes_cleared(start) {
                                                    assert(eliminated == ex && ex == ep);
                                                    assert(*state == start);
                                                    lemma_bit_test(state.candidates@[cell as int], d);
                                                    assert(x == sb.0 || x == sb.1 || x == sb.2);
                                                    if by_rows {
                                                        assert(swordfish_cleared(start, d, l1 as int, l2 as int, l3 as int, sb.0, sb.1, sb.2));
                                                        assert(!has_digit(start.candidates@[9 * y + x], d));
                                                    } else {
                                                        assert(col_swordfish_cleared(start, d, l1 as int, l2 as int, l3 as int, sb.0, sb.1, sb.2));
                                                        assert(!has_digit(start.candidates@[9 * x + y], d));
                                                    }
                                                }
                                            }
                                            state.candidates[cell] &= !bit;
                                            let ghost (r, c) = if by_rows { (y as int, x as int) } else { (x as int, y as int) };
                                            proof {
                                                assert(cell == 9 * r + c);
                                                lemma_remove_one(&start, &s0, state, cell as int, d, eliminated as int);
                                                assert forall|s: Seq<Seq<u8>>| is_complete_valid(s) && start.consistent(s) implies s[r][c] != d by {
                                                    assert(bit_set(cross_set, x as int));
                                                    let l = if line_digit(s, by_rows, l1 as int, x as int) == d {
                                                        l1
                                                    } else if line_digit(s, by_rows, l2 as int, x as int) == d {
                                                        l2
                                                    } else {
                                                        l3
                                                    };
                                                    assert(line_digit(s, by_rows, l as int, x as int) == d);
                                                    if by_rows {
                                                        assert(in_board(l as int, x as int) && in_board(y as int, x as int));
                                                        assert(is_peer(l as int, x as int, y as int, x as int));
                                                    } else {
                                                        assert(in_board(x as int, l as int) && in_board(x as int, y as int));
                                                        assert(is_peer(x as int, l as int, x as int, y as int));
                                                    }
                                                }
                                                lemma_keeps_remove(&start, &s0, state, r, c, d);
                                                lemma_clear_one(s0.candidates@, state.candidates@, cell as int, d);
                                                lemma_shrinks_trans(snap.candidates@, s0.candidates@, state.candidates@);
                                                lemma_shrinks_trans(xsnap.candidates@, s0.candidates@, state.candidates@);
                                                lemma_lacks_kept(s0.candidates@, state.candidates@, d);
                                            }
                                            eliminated += 1;
                                        } else {
                                            proof {
                                                lemma_bit_test(state.candidates@[cell as int], d);
                                                if state.cells@[cell as int] != 0 {
                                                    lemma_empty_mask(0u16, d);
                                                }
                                            }
                                        }
                                        proof {
                                            if !by_rows && eliminated == ex {
                                                assert(cell == 9 * x + y);
                                                assert forall|y2: int| 0 <= y2 < y + 1 && y2 != l1 && y2 != l2 && y2 != l3
                                                    implies !has_digit(#[trigger] state.candidates@[9 * x + y2], d) by {
                                                }
                                            }
                                        }
                                        proof {
                                            if by_rows {
                                                assert(cell == 9 * y + x);
                                                assert forall|y2: int| 0 <= y2 < y + 1 && y2 != l1 && y2 != l2 && y2 != l3
                                                    implies !has_digit(#[trigger] state.candidates@[9 * y2 + x], d) by {
                                                }
                                            }
                                        }
                                        y += 1;
                                    }
                                    proof {
                                        if !by_rows && eliminated == ex {
                                            assert forall|x2: int, y2: int| 0 <= x2 < x + 1 && 0 <= y2 < 9 && y2 != l1 && y2 != l2 && y2 != l3
                                                && bit_set(cross_set, x2) implies !has_digit(#[trigger] state.candidates@[9 * x2 + y2], d) by {
                                                if x2 == x {
                                                    if bit_set(cross_set, x as int) {
                                                        assert(!has_digit(state.candidates@[9 * x + y2], d));
                                                    }
                                                }
                                            }
                                        }
                                    }
                                    proof {
                                        if by_rows {
                                            assert forall|x2: int, y2: int| 0 <= x2 < x + 1 && 0 <= y2 < 9 && y2 != l1 && y2 != l2 && y2 != l3
                                                && bit_set(cross_set, x2) implies !has_digit(#[trigger] state.candidates@[9 * y2 + x2], d) by {
                                                if x2 == x {
                                                    assert(!has_digit(state.candidates@[9 * y2 + x], d));
                                                }
                                            }
                                        }
                                    }
                                } else {
                                    proof {
                                        if !by_rows && eliminated == ex {
                                            assert forall|x2: int, y2: int| 0 <= x2 < x + 1 && 0 <= y2 < 9 && y2 != l1 && y2 != l2 && y2 != l3
                                                && bit_set(cross_set, x2) implies !has_digit(#[trigger] state.candidates@[9 * x2 + y2], d) by {
                                                if x2 == x {
                                                    if bit_set(cross_set, x as int) {
                                                        assert(!has_digit(state.candidates@[9 * x + y2], d));
                                                    }
                                                }
                                            }
                                        }
                                    }
                                    proof {
                                        if by_rows {
                                            assert forall|x2: int, y2: int| 0 <= x2 < x + 1 && 0 <= y2 < 9 && y2 != l1 && y2 != l2 && y2 != l3
                                                && bit_set(cross_set, x2) implies !has_digit(#[trigger] state.candidates@[9 * y2 + x2], d) by {
                                                if x2 == x {
                                                    assert(!bit_set(cross_set, x as int));
                                                }
                                            }
                                        }
                                    }
                                }
                                x += 1;
                            }
                            proof {
                                if !by_rows && eliminated == ep {
                                    assert forall|pp: int, qq: int, rr: int, b1: int, b2: int, b3: int|
                                        0 <= pp < qq < rr < positions@.len() && (pp < i || (pp == i && (qq < j || (qq == j && rr < k + 1))))
                                        && 0 <= b1 < b2 && b2 < b3 && b3 < 9
                                        && (forall|x3: int| 0 <= x3 < 9 ==> (listed3(positions@[pp].1@, positions@[qq].1@, positions@[rr].1@, x3)
                                            <==> (x3 == b1 || x3 == b2 || x3 == b3)))
                                        implies #[trigger] col_swordfish_cleared(*state, d, positions@[pp].0 as int, positions@[qq].0 as int,
                                            positions@[rr].0 as int, b1, b2, b3) by {
                                        if pp == i && qq == j && rr == k {
                                            assert(listed3(positions@[pp].1@, positions@[qq].1@, positions@[rr].1@, b1));
                                            assert(listed3(positions@[pp].1@, positions@[qq].1@, positions@[rr].1@, b2));
                                            assert(listed3(positions@[pp].1@, positions@[qq].1@, positions@[rr].1@, b3));
                                            assert(bit_set(cross_set, b1) && bit_set(cross_set, b2) && bit_set(cross_set, b3));
                                            assert forall|y: int, b: int| 0 <= y < 9 && y != l1 && y != l2 && y != l3 && (b == b1 || b == b2 || b == b3)
                                                implies !has_digit(#[trigger] state.candidates@[9 * b + y], d) by {
                                                assert(bit_set(cross_set, b));
                                            }
                                        } else {
                                            assert(*state == xsnap);
                                            assert(col_swordfish_cleared(xsnap, d, positions@[pp].0 as int, positions@[qq].0 as int,
                                                positions@[rr].0 as int, b1, b2, b3));
                                        }
                                    }
                                }
                            }
                            proof {
                                lemma_swordfish_cleared_kept(xsnap, *state);
                                if by_rows {
                                    assert forall|pp: int, qq: int, rr: int, b1: int, b2: int, b3: int|
                                        0 <= pp < qq < rr < positions@.len() && (pp < i || (pp == i && (qq < j || (qq == j && rr < k + 1))))
                                        && 0 <= b1 < b2 && b2 < b3 && b3 < 9
                                        && (forall|x3: int| 0 <= x3 < 9 ==> (listed3(positions@[pp].1@, positions@[qq].1@, positions@[rr].1@, x3)
                                            <==> (x3 == b1 || x3 == b2 || x3 == b3)))
                                        implies #[trigger] swordfish_cleared(*state, d, positions@[pp].0 as int, positions@[qq].0 as int,
                                            positions@[rr].0 as int, b1, b2, b3) by {
                                        if pp == i && qq == j && rr == k {
                                            assert(listed3(positions@[pp].1@, positions@[qq].1@, positions@[rr].1@, b1));
                                            assert(listed3(positions@[pp].1@, positions@[qq].1@, positions@[rr].1@, b2));
                                            assert(listed3(positions@[pp].1@, positions@[qq].1@, positions@[rr].1@, b3));
                                            assert(bit_set(cross_set, b1) && bit_set(cross_set, b2) && bit_set(cross_set, b3));
                                            lemma_swordfish_cleared_intro(*state, d, l1 as int, l2 as int, l3 as int, b1, b2, b3);
                                        } else {
                                            assert(swordfish_cleared(xsnap, d, positions@[pp].0 as int, positions@[qq].0 as int,
                                                positions@[rr].0 as int, b1, b2, b3));
                                        }
                                    }
                                }
                            }
                        } else {
                            proof {
                                if !by_rows && eliminated == ep {
                                    assert forall|pp: int, qq: int, rr: int, b1: int, b2: int, b3: int|
                                        0 <= pp < qq < rr < positions@.len() && (pp < i || (pp == i && (qq < j || (qq == j && rr < k + 1))))
                                        && 0 <= b1 < b2 && b2 < b3 && b3 < 9
                                        && (forall|x3: int| 0 <= x3 < 9 ==> (listed3(positions@[pp].1@, positions@[qq].1@, positions@[rr].1@, x3)
                                            <==> (x3 == b1 || x3 == b2 || x3 == b3)))
                                        implies #[trigger] col_swordfish_cleared(*state, d, positions@[pp].0 as int, positions@[qq].0 as int,
                                            positions@[rr].0 as int, b1, b2, b3) by {
                                        if pp == i && qq == j && rr == k {
                                            let xs = seq![b1, b2, b3];
                                            assert(crate::killer::distinct_positions(xs));
                                            crate::killer::lemma_mask_of(xs);
                                            assert forall|x3: int| 0 <= x3 < 16 implies (bit_set(cross_set, x3)
                                                <==> bit_set(crate::killer::mask_of(xs), x3)) by {
                                                if 0 <= x3 < 9 {
                                                    assert(listed3(positions@[pp].1@, positions@[qq].1@, positions@[rr].1@, x3)
                                                        <==> (x3 == b1 || x3 == b2 || x3 == b3));
                                                }
                                                assert(xs.contains(x3) <==> (x3 == b1 || x3 == b2 || x3 == b3)) by {
                                                    if x3 == b1 { assert(xs[0] == b1); }
                                                    if x3 == b2 { assert(xs[1] == b2); }
                                                    if x3 == b3 { assert(xs[2] == b3); }
                                                }
                                            }
                                            crate::killer::lemma_mask_ext(cross_set, crate::killer::mask_of(xs));
                                        }
                                    }
                                }
                            }
                            proof {
                                if by_rows {
                                    assert forall|pp: int, qq: int, rr: int, b1: int, b2: int, b3: int|
                                        0 <= pp < qq < rr < positions@.len() && (pp < i || (pp == i && (qq < j || (qq == j && rr < k + 1))))
                                        && 0 <= b1 < b2 && b2 < b3 && b3 < 9
                                        && (forall|x3: int| 0 <= x3 < 9 ==> (listed3(positions@[pp].1@, positions@[qq].1@, positions@[rr].1@, x3)
                                            <==> (x3 == b1 || x3 == b2 || x3 == b3)))
                                        implies #[trigger] swordfish_cleared(*state, d, positions@[pp].0 as int, positions@[qq].0 as int,
                                            positions@[rr].0 as int, b1, b2, b3) by {
                                        if pp == i && qq == j && rr == k {
                                            let xs = seq![b1, b2, b3];
                                            assert(crate::killer::distinct_positions(xs));
                                            crate::killer::lemma_mask_of(xs);
                                            assert forall|x3: int| 0 <= x3 < 16 implies (bit_set(cross_set, x3)
                                                <==> bit_set(crate::killer::mask_of(xs), x3)) by {
                                                if 0 <= x3 < 9 {
                                                    assert(listed3(positions@[pp].1@, positions@[qq].1@, positions@[rr].1@, x3)
                                                        <==> (x3 == b1 || x3 == b2 || x3 == b3));
                                                }
                                                assert(xs.contains(x3) <==> (x3 == b1 || x3 == b2 || x3 == b3)) by {
                                                    if x3 == b1 { assert(xs[0] == b1); }
                                                    if x3 == b2 { assert(xs[1] == b2); }
                                                    if x3 == b3 { assert(xs[2] == b3); }
                                                }
                                            }
                                            crate::killer::lemma_mask_ext(cross_set, crate::killer::mask_of(xs));
                                        }
                                    }
                                }
                            }
                        }
                        k += 1;
                    }
                    j += 1;
                }
                i += 1;
            }
            proof {
                if !by_rows && eliminated == ep {
                    assert forall|l1: int, l2: int, l3: int, b1: int, b2: int, b3: int|
                        #[trigger] col_swordfish(snap, d, l1, l2, l3, b1, b2, b3)
                        implies col_swordfish_cleared(snap, d, l1, l2, l3, b1, b2, b3) by {
                        lemma_col_swordfish_lines(snap, positions@, d, bit, l1, l2, l3, b1, b2, b3);
                        let (pp, qq, rr) = choose|pp: int, qq: int, rr: int| 0 <= pp < qq < rr < positions@.len()
                            && (#[trigger] positions@[pp]).0 == l1 && (#[trigger] positions@[qq]).0 == l2
                            && (#[trigger] positions@[rr]).0 == l3
                            && forall|x: int| 0 <= x < 9 ==> (listed3(positions@[pp].1@, positions@[qq].1@, positions@[rr].1@, x)
                                <==> (x == b1 || x == b2 || x == b3));
                        assert(col_swordfish_cleared(*state, d, positions@[pp].0 as int, positions@[qq].0 as int,
                            positions@[rr].0 as int, b1, b2, b3));
                    }
                }
                assert(ep <= eliminated);
                if eliminated == 0 {
                    assert(snap == start);
                }
            }
            proof {
                lemma_swordfish_cleared_kept(snap, *state);
                if by_rows {
                    assert forall|l1: int, l2: int, l3: int, b1: int, b2: int, b3: int|
                        #[trigger] row_swordfish(start, d, l1, l2, l3, b1, b2, b3)
                        implies swordfish_cleared(*state, d, l1, l2, l3, b1, b2, b3) by {
                        assert forall|k2: int| 0 <= k2 < 81 implies (has_digit(#[trigger] snap.candidates@[k2], d)
                            <==> has_digit(start.candidates@[k2], d)) by {}
                        lemma_swordfish_lines(start, snap, positions@, d, bit, l1, l2, l3, b1, b2, b3);
                        let (pp, qq, rr) = choose|pp: int, qq: int, rr: int| 0 <= pp < qq < rr < positions@.len()
                            && (#[trigger] positions@[pp]).0 == l1 && (#[trigger] positions@[qq]).0 == l2
                            && (#[trigger] positions@[rr]).0 == l3
                            && forall|x: int| 0 <= x < 9 ==> (listed3(positions@[pp].1@, positions@[qq].1@, positions@[rr].1@, x)
                                <==> (x == b1 || x == b2 || x == b3));
                        assert(swordfish_cleared(*state, d, positions@[pp].0 as int, positions@[qq].0 as int,
                            positions@[rr].0 as int, b1, b2, b3));
                    }
                }
                assert forall|d2: u8, l1: int, l2: int, l3: int, b1: int, b2: int, b3: int|
                    (1 <= d2 < d || (d2 == d && pass + 1 >= 1)) && #[trigger] row_swordfish(start, d2, l1, l2, l3, b1, b2, b3)
                    implies swordfish_cleared(*state, d2, l1, l2, l3, b1, b2, b3) by {
                    if d2 < d || pass >= 1 {
                        assert(swordfish_cleared(snap, d2, l1, l2, l3, b1, b2, b3));
                    }
                }
            }
            pass += 1;
        }
        d += 1;
    }

    eliminated
}

/// A digit sits at different positions of two different lines.
proof fn lemma_distinct_positions(s: Seq<Seq<u8>>, by_rows: bool, la: int, lb: int, pa: int, pb: int, d: u8)
    requires
        is_complete_valid(s),
        0 <= la < lb < 9,
        0 <= pa < 9,
        0 <= pb < 9,
        line_digit(s, by_rows, la, pa) == d,
        line_digit(s, by_rows, lb, pb) == d,
    ensures
        pa != pb,
{
    if pa == pb {
        if by_rows {
            assert(in_board(la, pa) && in_board(lb, pa));
            assert(is_peer(la, pa, lb, pa));
        } else {
            assert(in_board(pa, la) && in_board(pa, lb));
            assert(is_peer(pa, la, pa, lb));
        }
    }
}

fn find_mrv_cell(state: &RaterState) -> (res: Option<(usize, usize)>)
    requires
        state.base_wf(),
    ensures
        res matches Some((r, c)) ==> r < 9 && c < 9 && state.cells@[9 * r + c] == 0 && state.candidates@[9 * r + c] != 0,
        res matches Some((r, c)) ==> forall|k: int| 0 <= k < 81 && state.cells@[k] == 0 && #[trigger] state.candidates@[k] != 0
            ==> popcount(state.candidates@[9 * r + c]) <= popcount(state.candidates@[k])
                || popcount(state.candidates@[9 * r + c]) == 2,
        res is None ==> forall|k: int| 0 <= k < 81 && state.cells@[k] == 0 ==> #[trigger] state.candidates@[k] == 0,
{
    let mut best: Option<(usize, usize)> = None;
    let mut best_count: u32 = 10;
    let mut r: usize = 0;
    while r < 9
        invariant
            r <= 9,
            state.base_wf(),
            best matches Some((br, bc)) ==> br < 9 && bc < 9 && state.cells@[9 * br + bc] == 0 && state.candidates@[9 * br + bc] != 0
                && best_count == popcount(state.candidates@[9 * br + bc]),
            best is None ==> best_count == 10,
            best is None ==> forall|k: int| 0 <= k < 9 * r && state.cells@[k] == 0 ==> #[trigger] state.candidates@[k] == 0,
            forall|k: int| 0 <= k < 9 * r && state.cells@[k] == 0 && #[trigger] state.candidates@[k] != 0
                ==> best_count <= popcount(state.candidates@[k]),
        decreases 9 - r,
    {
        let mut c: usize = 0;
        while c < 9
            invariant
                r < 9,
                c <= 9,
                state.base_wf(),
                best matches Some((br, bc)) ==> br < 9 && bc < 9 && state.cells@[9 * br + bc] == 0 && state.candidates@[9 * br + bc] != 0
                    && best_count == popcount(state.candidates@[9 * br + bc]),
                best is None ==> best_count == 10,
                best is None ==> forall|k: int| 0 <= k < 9 * r + c && state.cells@[k] == 0 ==> #[trigger] state.candidates@[k] == 0,
                forall|k: int| 0 <= k < 9 * r + c && state.cells@[k] == 0 && #[trigger] state.candidates@[k] != 0
                    ==> best_count <= popcount(state.candidates@[k]),
            decreases 9 - c,
        {
            let cands = state.candidates[r * 9 + c];
            if state.cells[r * 9 + c] == 0 && cands != 0 {
                proof {
                    lemma_popcount_only_digits(cands);
                }
                let n = count_digits(cands);
                if n < best_count {
                    best_count = n;
                    best = Some((r, c));
                    if n == 2 {
                        return best;
                    }
                }
            }
            c += 1;
        }
        r += 1;
    }
    best
}

/// The cage data, when there is any, by value.
spec fn owned(cage_info: Option<&RaterCageInfo>) -> Option<RaterCageInfo> {
    match cage_info {
        Some(i) => Some(*i),
        None => None,
    }
}

/// Nothing is left on `s` for the techniques easier than `t` whose fixed
/// point is stated: all of them (naked and hidden singles, cage
/// combinations when there are cages, naked and hidden pairs and triples,
/// pointing, X-wings and swordfishes in rows and in columns).
spec fn stuck_below(t: Technique, s: RaterState, info: Option<RaterCageInfo>) -> bool {
    &&& level_of(t) > 0 ==> no_naked_single(&s)
    &&& level_of(t) > 1 ==> forall|u: int, d: u8| 0 <= u < 27 && 1 <= d <= 9 ==> !#[trigger] hidden_single(&s, u, d)
    &&& level_of(t) > 2 ==> (info matches Some(i) ==> cages_pruned(s, &i))
    &&& level_of(t) > 3 ==> forall|v: int| 0 <= v < 27 ==> #[trigger] naked_pairs_cleared(s, unit_cells(v))
    &&& level_of(t) > 4 ==> forall|v: int| 0 <= v < 27 ==> #[trigger] hidden_pairs_cleared(s, unit_cells(v))
    &&& level_of(t) > 5 ==> forall|br: int, bc: int, d: u8| 0 <= br < 9 && br % 3 == 0 && 0 <= bc < 9 && bc % 3 == 0
        && 1 <= d <= 9 ==> #[trigger] pointing_cleared(s, br, bc, d)
    &&& level_of(t) > 6 ==> forall|v: int| 0 <= v < 27 ==> #[trigger] naked_triples_cleared(s, unit_cells(v))
    &&& level_of(t) > 7 ==> forall|v: int| 0 <= v < 27 ==> #[trigger] hidden_triples_cleared(s, unit_cells(v))
    &&& level_of(t) > 8 ==> forall|d: u8, l1: int, l2: int, b1: int, b2: int| 1 <= d <= 9
        && #[trigger] row_x_wing(s, d, l1, l2, b1, b2) ==> x_wing_cleared(s, d, l1, l2, b1, b2)
    &&& level_of(t) > 8 ==> forall|d: u8, l1: int, l2: int, b1: int, b2: int| 1 <= d <= 9
        && #[trigger] col_x_wing(s, d, l1, l2, b1, b2) ==> col_x_wing_cleared(s, d, l1, l2, b1, b2)
    &&& level_of(t) > 9 ==> forall|d: u8, l1: int, l2: int, l3: int, b1: int, b2: int, b3: int| 1 <= d <= 9
        && #[trigger] row_swordfish(s, d, l1, l2, l3, b1, b2, b3) ==> swordfish_cleared(s, d, l1, l2, l3, b1, b2, b3)
    &&& level_of(t) > 9 ==> forall|d: u8, l1: int, l2: int, l3: int, b1: int, b2: int, b3: int| 1 <= d <= 9
        && #[trigger] col_swordfish(s, d, l1, l2, l3, b1, b2, b3) ==> col_swordfish_cleared(s, d, l1, l2, l3, b1, b2, b3)
}

/// Technique `t` has something to do on `s`: a naked single, a hidden
/// single, a cage cell holding a candidate that no combination left gives, a
/// naked pair, hidden pair, pointing box, naked or hidden triple, X-wing or
/// swordfish with a candidate left to clear. A guess can always be made.
spec fn open_for(t: Technique, s: RaterState, info: Option<RaterCageInfo>) -> bool {
    match t {
        Technique::NakedSingle => !no_naked_single(&s),
        Technique::HiddenSingle => !no_hidden_single(&s),
        Technique::CageCombination => info matches Some(i) && !cages_pruned(s, &i),
        Technique::NakedPair => !forall|v: int| 0 <= v < 27 ==> #[trigger] naked_pairs_cleared(s, unit_cells(v)),
        Technique::HiddenPair => !forall|v: int| 0 <= v < 27 ==> #[trigger] hidden_pairs_cleared(s, unit_cells(v)),
        Technique::PointingPair => !all_pointing_cleared(s),
        Technique::NakedTriple => !forall|v: int| 0 <= v < 27 ==> #[trigger] naked_triples_cleared(s, unit_cells(v)),
        Technique::HiddenTriple => !forall|v: int| 0 <= v < 27 ==> #[trigger] hidden_triples_cleared(s, unit_cells(v)),
        Technique::XWing => !x_wings_cleared(s),
        Technique::Swordfish => !swordfishes_cleared(s),
        Technique::Backtracking => true,
    }
}

/// One pass of the rating: `a` still had empty cells and nothing left for
/// the easier techniques, and technique `t` (a guess, for `Backtracking`),
/// which had something to do on `a`, made progress, filling cells or
/// removing candidates, to reach `b`.
spec fn rating_step(t: Technique, a: RaterState, b: RaterState, info: Option<RaterCageInfo>) -> bool {
    &&& a.empty_count > 0
    &&& stuck_below(t, a, info)
    &&& open_for(t, a, info)
    &&& b != a
    &&& keeps(a.cells@, b.cells@)
    &&& shrinks(a.candidates@, b.candidates@)
}

/// Pass `i` of a run.
spec fn rating_step_at(ts: Seq<Technique>, sts: Seq<RaterState>, i: int, info: Option<RaterCageInfo>) -> bool {
    rating_step(ts[i], sts[i], sts[i + 1], info)
}

/// The passes `ts`, through the states `sts`, lead from `start` to `fin`.
spec fn rating_run(ts: Seq<Technique>, sts: Seq<RaterState>, start: RaterState, fin: RaterState, info: Option<RaterCageInfo>) -> bool {
    &&& sts.len() == ts.len() + 1
    &&& sts[0] == start
    &&& sts[ts.len() as int] == fin
    &&& forall|i: int| 0 <= i < ts.len() ==> #[trigger] rating_step_at(ts, sts, i, info)
}

/// The hardest technique among `ts` (naked singles when there is none).
spec fn hardest(ts: Seq<Technique>) -> Technique
    decreases ts.len(),
{
    if ts.len() == 0 {
        Technique::NakedSingle
    } else {
        let h = hardest(ts.drop_last());
        if level_of(ts.last()) > level_of(h) {
            ts.last()
        } else {
            h
        }
    }
}

/// Number of passes in `ts` that used naked pairs or a harder technique.
spec fn advanced_steps(ts: Seq<Technique>) -> int
    decreases ts.len(),
{
    if ts.len() == 0 {
        0
    } else {
        advanced_steps(ts.drop_last()) + if level_of(ts.last()) >= 3 { 1int } else { 0int }
    }
}

/// The passes of a run, with a final guess that found no cell to make when
/// it ended at a dead end.
spec fn passes(ts: Seq<Technique>, dead_end: bool) -> Seq<Technique> {
    if dead_end {
        ts.push(Technique::Backtracking)
    } else {
        ts
    }
}

/// A run extended by one pass.
proof fn lemma_run_push(ts: Seq<Technique>, sts: Seq<RaterState>, start: RaterState, t: Technique, b: RaterState,
    info: Option<RaterCageInfo>)
    requires
        rating_run(ts, sts, start, sts[ts.len() as int], info),
        rating_step(t, sts[ts.len() as int], b, info),
    ensures
        rating_run(ts.push(t), sts.push(b), start, b, info),
        hardest(ts.push(t)) == (if level_of(t) > level_of(hardest(ts)) { t } else { hardest(ts) }),
        advanced_steps(ts.push(t)) == advanced_steps(ts) + if level_of(t) >= 3 { 1int } else { 0int },
{
    let (ts2, sts2) = (ts.push(t), sts.push(b));
    assert(ts2.drop_last() =~= ts);
    assert forall|i: int| 0 <= i < ts2.len() implies #[trigger] rating_step_at(ts2, sts2, i, info) by {
        if i < ts.len() {
            assert(rating_step_at(ts, sts, i, info));
            assert(ts2[i] == ts[i] && sts2[i] == sts[i] && sts2[i + 1] == sts[i + 1]);
        } else {
            assert(ts2[i] == t && sts2[i] == sts[ts.len() as int] && sts2[i + 1] == b);
        }
    }
}

/// A state in which every hidden single is settled has none left.
proof fn lemma_no_hidden_single(s: &RaterState)
    requires
        forall|u: int, d: u8| 0 <= u < 27 && 1 <= d <= 9 && #[trigger] hidden_single(s, u, d) ==> settled(s, u, d),
    ensures
        forall|u: int, d: u8| 0 <= u < 27 && 1 <= d <= 9 ==> !#[trigger] hidden_single(s, u, d),
{
    assert forall|u: int, d: u8| 0 <= u < 27 && 1 <= d <= 9 implies !#[trigger] hidden_single(s, u, d) by {
        if hidden_single(s, u, d) {
            assert(settled(s, u, d));
            let (r, c) = choose|r: int, c: int| in_unit(u, r, c) && has_digit(#[trigger] s.candidates@[9 * r + c], d)
                && forall|r2: int, c2: int| in_unit(u, r2, c2) && has_digit(#[trigger] s.candidates@[9 * r2 + c2], d)
                    ==> r2 == r && c2 == c;
            assert(!unit_lacks(s, u, d));
        }
    }
}

/// The technique of a pass is the easiest one with something to do: where
/// every technique easier than `t2` has nothing left on `a` and `t2` has
/// something to do, a pass from `a` is labelled `t2`.
proof fn lemma_pass_is_easiest_open(t: Technique, t2: Technique, a: RaterState, b: RaterState, info: Option<RaterCageInfo>)
    requires
        rating_step(t, a, b, info),
        stuck_below(t2, a, info),
        open_for(t2, a, info),
    ensures
        t == t2,
{
    assert(level_of(t) == level_of(t2));
}

/// A state has at most one label for its pass.
proof fn lemma_pass_label_unique(t1: Technique, t2: Technique, a: RaterState, b1: RaterState, b2: RaterState,
    info: Option<RaterCageInfo>)
    requires
        rating_step(t1, a, b1, info),
        rating_step(t2, a, b2, info),
    ensures
        t1 == t2,
{
    lemma_pass_is_easiest_open(t1, t2, a, b1, info);
}

/// The hardest technique of a list is at least as hard as each of them.
proof fn lemma_hardest_dominates(ts: Seq<Technique>, i: int)
    requires
        0 <= i < ts.len(),
    ensures
        level_of(hardest(ts)) >= level_of(ts[i]),
    decreases ts.len(),
{
    if i < ts.len() - 1 {
        lemma_hardest_dominates(ts.drop_last(), i);
        assert(ts.drop_last()[i] == ts[i]);
    }
}

/// The score of a rating run is at least the base score of the technique of
/// each of its passes: a run with a naked-pair pass scores at least 4, one
/// with an X-wing pass at least 8.
proof fn lemma_score_covers_passes(ts: Seq<Technique>, sts: Seq<RaterState>, start: RaterState, fin: RaterState,
    info: Option<RaterCageInfo>, dead_end: bool, i: int)
    requires
        rating_run(ts, sts, start, fin, info),
        0 <= i < ts.len(),
    ensures
        score_of(hardest(passes(ts, dead_end)), advanced_steps(passes(ts, dead_end))) >= base_of(ts[i]),
{
    let ps = passes(ts, dead_end);
    assert(ps[i] == ts[i]);
    lemma_hardest_dominates(ps, i);
}

/// Solve with techniques from easiest to hardest (guessing as a last resort)
/// and score the hardest one needed.
/// The run is a sequence of passes, each labelled with the technique that
/// made it: the easiest one that had something to do on the state it started
/// from, or a guess once none had; the score is that of the hardest pass and
/// the number of advanced ones. The run ends with every cell filled
/// or with an empty cell that has no candidate left.
#[verifier::rlimit(80)]
fn solve_and_rate(state: &mut RaterState, cage_info: Option<&RaterCageInfo>) -> (rating: PuzzleRating)
    requires
        old(state).base_wf(),
        old(state).cage_wf(cage_info),
    ensures
        1 <= rating.score <= 10,
        old(state).empty_count == 0 ==> rating.score == 1,
        rating.score < 10 ==> forall|s: Seq<Seq<u8>>| rsol(cage_info, s) && old(state).consistent(s) ==> final(state).consistent(s),
        rating.score < 10 ==> final(state).base_wf() && final(state).empty_count == 0,
        exists|ts: Seq<Technique>, sts: Seq<RaterState>, dead_end: bool| {
            &&& rating_run(ts, sts, *old(state), *final(state), owned(cage_info))
            &&& dead_end ==> final(state).empty_count > 0 && stuck_below(Technique::Backtracking, *final(state), owned(cage_info))
                && exists|k: int| 0 <= k < 81 && final(state).cells@[k] == 0 && #[trigger] final(state).candidates@[k] == 0
            &&& !dead_end ==> final(state).empty_count == 0
            &&& rating.score == score_of(hardest(passes(ts, dead_end)), advanced_steps(passes(ts, dead_end)))
        },
        final(state).base_wf(),
        keeps(old(state).cells@, final(state).cells@),
        final(state).empty_count == 0
            || exists|k: int| 0 <= k < 81 && final(state).cells@[k] == 0 && #[trigger] final(state).candidates@[k] == 0,
{
    let ghost start = *state;
    let mut max_technique = Technique::NakedSingle;
    let mut advanced_uses: u32 = 0;
    let ghost mut ts: Seq<Technique> = Seq::empty();
    let ghost mut sts: Seq<RaterState> = seq![start];
    let ghost mut dead_end = false;
    proof {
        lemma_bits_total_bounds(start.candidates@, 81);
    }

    loop
        invariant_except_break
            advanced_uses + state.measure() <= start.measure(),
            max_technique == hardest(ts),
            advanced_uses == advanced_steps(ts),
            !dead_end,
        invariant
            state.base_wf(),
            state.cage_wf(cage_info),
            start.measure() <= 1296,
            start.empty_count == 0 ==> max_technique == Technique::NakedSingle && advanced_uses == 0,
            start.empty_count == 0 ==> state.empty_count == 0,
            max_technique != Technique::Backtracking ==> forall|s: Seq<Seq<u8>>| rsol(cage_info, s) && start.consistent(s) ==> state.consistent(s),
            rating_run(ts, sts, start, *state, owned(cage_info)),
            keeps(start.cells@, state.cells@),
        ensures
            start.empty_count == 0 ==> max_technique == Technique::NakedSingle && advanced_uses == 0,
            max_technique != Technique::Backtracking ==> forall|s: Seq<Seq<u8>>| rsol(cage_info, s) && start.consistent(s) ==> state.consistent(s),
            max_technique != Technique::Backtracking ==> state.empty_count == 0,
            state.base_wf(),
            rating_run(ts, sts, start, *state, owned(cage_info)),
            max_technique == hardest(passes(ts, dead_end)),
            advanced_uses == advanced_steps(passes(ts, dead_end)),
            dead_end ==> state.empty_count > 0 && stuck_below(Technique::Backtracking, *state, owned(cage_info))
                && exists|k: int| 0 <= k < 81 && state.cells@[k] == 0 && #[trigger] state.candidates@[k] == 0,
            !dead_end ==> state.empty_count == 0,
            keeps(start.cells@, state.cells@),
            state.empty_count == 0 || exists|k: int| 0 <= k < 81 && state.cells@[k] == 0 && #[trigger] state.candidates@[k] == 0,
        decreases state.measure(),
    {
        proof {
            lemma_bits_total_bounds(state.candidates@, 81);
        }
        if state.empty_count == 0 {
            break;
        }
        let ghost s_it = *state;

        // Try techniques from easiest to hardest
        let placed = try_naked_singles(state, cage_info);
        proof {
            lemma_bits_total_bounds(state.candidates@, 81);
        }
        if placed > 0 {
            // NakedSingle is already the minimum — no update needed
            proof {
                lemma_run_push(ts, sts, start, Technique::NakedSingle, *state, owned(cage_info));
                lemma_keeps_trans(start.cells@, s_it.cells@, state.cells@);
                ts = ts.push(Technique::NakedSingle);
                sts = sts.push(*state);
            }
            continue;
        }
        let placed = try_hidden_singles(state, cage_info);
        proof {
            lemma_bits_total_bounds(state.candidates@, 81);
        }
        if placed > 0 {
            if max_technique.level() < Technique::HiddenSingle.level() {
                max_technique = Technique::HiddenSingle;
            }
            proof {
                lemma_run_push(ts, sts, start, Technique::HiddenSingle, *state, owned(cage_info));
                lemma_keeps_trans(start.cells@, s_it.cells@, state.cells@);
                ts = ts.push(Technique::HiddenSingle);
                sts = sts.push(*state);
            }
            continue;
        }
        proof {
            lemma_no_hidden_single(&s_it);
        }
        if let Some(ci) = cage_info {
            let ghost s0 = *state;
            let e = try_cage_combination_pruning(state, ci);
            if e > 0 {
                if max_technique.level() < Technique::CageCombination.level() {
                    max_technique = Technique::CageCombination;
                }
                proof {
                    lemma_run_push(ts, sts, start, Technique::CageCombination, *state, owned(cage_info));
                    ts = ts.push(Technique::CageCombination);
                    sts = sts.push(*state);
                }
                continue;
            }
            proof {
                lemma_elim_zero(&s0, state);
            }
        }
        let e = try_naked_pairs(state);
        if e > 0 {
            if max_technique.level() < Technique::NakedPair.level() {
                max_technique = Technique::NakedPair;
            }
            advanced_uses += 1;
            proof {
                lemma_run_push(ts, sts, start, Technique::NakedPair, *state, owned(cage_info));
                ts = ts.push(Technique::NakedPair);
                sts = sts.push(*state);
            }
            continue;
        }
        proof {
            lemma_elim_zero(&s_it, state);
        }
        let e = try_hidden_pairs(state);
        if e > 0 {
            if max_technique.level() < Technique::HiddenPair.level() {
                max_technique = Technique::HiddenPair;
            }
            advanced_uses += 1;
            proof {
                lemma_run_push(ts, sts, start, Technique::HiddenPair, *state, owned(cage_info));
                ts = ts.push(Technique::HiddenPair);
                sts = sts.push(*state);
            }
            continue;
        }
        proof {
            lemma_elim_zero(&s_it, state);
        }
        let e = try_pointing_pairs(state);
        if e > 0 {
            if max_technique.level() < Technique::PointingPair.level() {
                max_technique = Technique::PointingPair;
            }
            advanced_uses += 1;
            proof {
                lemma_run_push(ts, sts, start, Technique::PointingPair, *state, owned(cage_info));
                ts = ts.push(Technique::PointingPair);
                sts = sts.push(*state);
            }
            continue;
        }
        proof {
            lemma_elim_zero(&s_it, state);
        }
        let e = try_naked_triples(state);
        if e > 0 {
            if max_technique.level() < Technique::NakedTriple.level() {
                max_technique = Technique::NakedTriple;
            }
            advanced_uses += 1;
            proof {
                lemma_run_push(ts, sts, start, Technique::NakedTriple, *state, owned(cage_info));
                ts = ts.push(Technique::NakedTriple);
                sts = sts.push(*state);
            }
            continue;
        }
        proof {
            lemma_elim_zero(&s_it, state);
        }
        let e = try_hidden_triples(state);
        if e > 0 {
            if max_technique.level() < Technique::HiddenTriple.level() {
                max_technique = Technique::HiddenTriple;
            }
            advanced_uses += 1;
            proof {
                lemma_run_push(ts, sts, start, Technique::HiddenTriple, *state, owned(cage_info));
                ts = ts.push(Technique::HiddenTriple);
                sts = sts.push(*state);
            }
            continue;
        }
        proof {
            lemma_elim_zero(&s_it, state);
        }
        let e = try_x_wing(state);
        if e > 0 {
            if max_technique.level() < Technique::XWing.level() {
                max_technique = Technique::XWing;
            }
            advanced_uses += 1;
            proof {
                lemma_run_push(ts, sts, start, Technique::XWing, *state, owned(cage_info));
                ts = ts.push(Technique::XWing);
                sts = sts.push(*state);
            }
            continue;
        }
        proof {
            lemma_elim_zero(&s_it, state);
        }
        let e = try_swordfish(state);
        if e > 0 {
            if max_technique.level() < Technique::Swordfish.level() {
                max_technique = Technique::Swordfish;
            }
            advanced_uses += 1;
            proof {
                lemma_run_push(ts, sts, start, Technique::Swordfish, *state, owned(cage_info));
                ts = ts.push(Technique::Swordfish);
                sts = sts.push(*state);
            }
            continue;
        }
        proof {
            lemma_elim_zero(&s_it, state);
        }

        // No technique worked — need to backtrack (guess)
        max_technique = Technique::Backtracking;
        advanced_uses += 1;

        // Find MRV cell and guess
        if let Some((r, c)) = find_mrv_cell(state) {
            let cands = state.candidates[r * 9 + c];
            let d = cands.trailing_zeros() as u8; // pick lowest candidate
            proof {
                lemma_lowest_digit(cands);
                lemma_only_digits(cands, d);
                if popcount(cands) == 0 {
                    crate::killer::lemma_popcount_zero(cands);
                }
                lemma_popcount_bound(cands);
            }
            state.place(r, c, d, cage_info);
            proof {
                lemma_bits_total_bounds(state.candidates@, 81);
                lemma_fill_keeps(s_it.cells@, 9 * r + c, d);
                lemma_keeps_trans(start.cells@, s_it.cells@, state.cells@);
                assert(state.cells@[9 * r + c] != s_it.cells@[9 * r + c]);
                lemma_run_push(ts, sts, start, Technique::Backtracking, *state, owned(cage_info));
                ts = ts.push(Technique::Backtracking);
                sts = sts.push(*state);
            }
        } else {
            proof {
                assert(state.empty_count != 0);
                lemma_count_empty_bounds(state.cells@, 81);
                let k = choose|k: int| 0 <= k < 81 && state.cells@[k] == 0;
                assert(state.candidates@[k] == 0);
                assert(ts.push(Technique::Backtracking).drop_last() =~= ts);
                dead_end = true;
            }
            break; // contradiction — shouldn't happen on valid puzzles
        }
    }

    let score = compute_score(max_technique, advanced_uses);
    proof {
        if max_technique == Technique::Backtracking {
            assert(score == 10);
        }
    }
    PuzzleRating { score }
}

/// The cage data describes `cages` (none for a classic puzzle).
spec fn info_for(info: Option<RaterCageInfo>, cages: Option<Seq<Cage>>) -> bool {
    match (info, cages) {
        (None, None) => true,
        (Some(i), Some(cs)) => {
            &&& i.shaped()
            &&& i.n() == cs.len()
            &&& forall|ci: int| 0 <= ci < cs.len() ==> #[trigger] i.cage(ci) == cs[ci].cells@ && i.sums@[ci] == cs[ci].sum
        },
        _ => false,
    }
}

/// `score` is what a rating run gives, starting from a state that holds the
/// filled cells of `g` and agrees with every board that `sols` accepts (with
/// the cage data of `cages`, when there are cages): the
/// score of its hardest pass and of the number of advanced passes, where a
/// run that ends at a dead end (an empty cell with no candidate, and nothing
/// left for any technique) counts one guess more.
pub closed spec fn rating_of(g: Seq<Seq<u8>>, sols: spec_fn(Seq<Seq<u8>>) -> bool, cages: Option<Seq<Cage>>, score: int) -> bool {
    exists|ts: Seq<Technique>, sts: Seq<RaterState>, fin: RaterState, dead_end: bool, info: Option<RaterCageInfo>|
        #![trigger rating_run(ts, sts, sts[0], fin, info), passes(ts, dead_end)]
    {
        &&& info_for(info, cages)
        &&& sts.len() > 0
        &&& sts[0].base_wf()
        &&& forall|k: int| 0 <= k < 81 ==> #[trigger] sts[0].cells@[k] == g[k / 9][k % 9]
        &&& forall|s: Seq<Seq<u8>>| sols(s) ==> sts[0].consistent(s)
        &&& rating_run(ts, sts, sts[0], fin, info)
        &&& dead_end ==> fin.empty_count > 0 && stuck_below(Technique::Backtracking, fin, info)
            && exists|k: int| 0 <= k < 81 && fin.cells@[k] == 0 && #[trigger] fin.candidates@[k] == 0
        &&& !dead_end ==> fin.empty_count == 0
        &&& score == score_of(hardest(passes(ts, dead_end)), advanced_steps(passes(ts, dead_end)))
    }
}

/// Every cell of `g` is filled.
pub open spec fn no_empty_cell(g: Seq<Seq<u8>>) -> bool {
    forall|r: int, c: int| in_board(r, c) ==> #[trigger] g[r][c] != 0
}

proof fn lemma_no_empty_count(cells: Seq<u8>, n: int)
    requires
        0 <= n <= cells.len(),
        forall|k: int| 0 <= k < n ==> #[trigger] cells[k] != 0,
    ensures
        count_empty(cells, n) == 0,
    decreases n,
{
    if n > 0 {
        lemma_no_empty_count(cells, n - 1);
    }
}

/// A complete state agrees with at most one board.
proof fn lemma_complete_state_unique(st: &RaterState, s1: Seq<Seq<u8>>, s2: Seq<Seq<u8>>)
    requires
        st.base_wf(),
        st.empty_count == 0,
        st.consistent(s1),
        st.consistent(s2),
    ensures
        s1 == s2,
{
    lemma_count_empty_zero(st.cells@, 81);
    assert forall|r: int| 0 <= r < 9 implies s1[r] =~= s2[r] by {
        assert(s1[r].len() == 9 && s2[r].len() == 9);
        assert forall|c: int| 0 <= c < 9 implies s1[r][c] == s2[r][c] by {
            assert(in_board(r, c));
            assert(st.cells@[9 * r + c] != 0);
            assert(st.cell_ok(s1, r, c) && st.cell_ok(s2, r, c));
        }
    }
    assert(s1 =~~= s2);
}

proof fn lemma_count_empty_zero(cells: Seq<u8>, n: int)
    requires
        0 <= n <= cells.len(),
        count_empty(cells, n) == 0,
    ensures
        forall|k: int| 0 <= k < n ==> #[trigger] cells[k] != 0,
    decreases n,
{
    if n > 0 {
        lemma_count_empty_zero(cells, n - 1);
    }
}

/// Rate a classic sudoku puzzle (grid with givens). The score is that of a
/// rating run (see `rating_of`) from the grid.
pub fn rate_puzzle(grid: &Grid) -> (rating: PuzzleRating)
    requires
        digits_in_range(grid@),
    ensures
        1 <= rating.score <= 10,
        no_empty_cell(grid@) ==> rating.score == 1,
        rating.score < 10 ==> forall|s1: Seq<Seq<u8>>, s2: Seq<Seq<u8>>|
            crate::rules::is_solution_of(grid@, s1) && crate::rules::is_solution_of(grid@, s2) ==> s1 == s2,
        rating_of(grid@, |s: Seq<Seq<u8>>| crate::rules::is_solution_of(grid@, s), None, rating.score as int),
{
    let mut state = RaterState::from_grid(grid);
    proof {
        if no_empty_cell(grid@) {
            assert forall|k: int| 0 <= k < 81 implies #[trigger] state.cells@[k] != 0 by {
                assert(in_board(k / 9, k % 9));
            }
            lemma_no_empty_count(state.cells@, 81);
        }
    }
    let ghost start = state;
    let rating = solve_and_rate(&mut state, None);
    proof {
        let (ts, sts, dead_end) = choose|ts: Seq<Technique>, sts: Seq<RaterState>, dead_end: bool| {
            &&& rating_run(ts, sts, start, state, None)
            &&& dead_end ==> state.empty_count > 0 && stuck_below(Technique::Backtracking, state, None)
                && exists|k: int| 0 <= k < 81 && state.cells@[k] == 0 && #[trigger] state.candidates@[k] == 0
            &&& !dead_end ==> state.empty_count == 0
            &&& rating.score == score_of(hardest(passes(ts, dead_end)), advanced_steps(passes(ts, dead_end)))
        };
        let sols = |s: Seq<Seq<u8>>| crate::rules::is_solution_of(grid@, s);
        assert(forall|s: Seq<Seq<u8>>| sols(s) ==> sts[0].consistent(s));
        assert(rating_run(ts, sts, sts[0], state, None) && passes(ts, dead_end) == passes(ts, dead_end));
        if rating.score < 10 {
            assert forall|s1: Seq<Seq<u8>>, s2: Seq<Seq<u8>>|
                crate::rules::is_solution_of(grid@, s1) && crate::rules::is_solution_of(grid@, s2) implies s1 == s2 by {
                assert(start.consistent(s1) && start.consistent(s2));
                let none: Option<&RaterCageInfo> = None;
                assert(rsol(none, s1) && rsol(none, s2));
                assert(state.consistent(s1) && state.consistent(s2));
                lemma_complete_state_unique(&state, s1, s2);
            }
        }
    }
    rating
}

/// Rate a killer sudoku puzzle (empty grid + cage constraints). The score is
/// that of a rating run (see `rating_of`) from the grid and its cages.
pub fn rate_killer_puzzle(grid: &Grid, cages: &[Cage]) -> (rating: PuzzleRating)
    requires
        digits_in_range(grid@),
        is_partition(cages@),
    ensures
        1 <= rating.score <= 10,
        no_empty_cell(grid@) ==> rating.score == 1,
        rating.score < 10 ==> forall|s1: Seq<Seq<u8>>, s2: Seq<Seq<u8>>|
            crate::killer::is_killer_solution_of(grid@, cages@, s1) && crate::killer::is_killer_solution_of(grid@, cages@, s2)
                ==> s1 == s2,
        rating_of(grid@, |s: Seq<Seq<u8>>| crate::killer::is_killer_solution_of(grid@, cages@, s), Some(cages@), rating.score as int),
{
    let cage_info = RaterCageInfo::from_cages(cages);
    let mut state = RaterState::from_grid_with_cages(grid, &cage_info);
    proof {
        if no_empty_cell(grid@) {
            assert forall|k: int| 0 <= k < 81 implies #[trigger] state.cells@[k] != 0 by {
                assert(in_board(k / 9, k % 9));
            }
            lemma_no_empty_count(state.cells@, 81);
        }
    }
    let ghost start = state;
    let rating = solve_and_rate(&mut state, Some(&cage_info));
    proof {
        let (ts, sts, dead_end) = choose|ts: Seq<Technique>, sts: Seq<RaterState>, dead_end: bool| {
            &&& rating_run(ts, sts, start, state, Some(cage_info))
            &&& dead_end ==> state.empty_count > 0 && stuck_below(Technique::Backtracking, state, Some(cage_info))
                && exists|k: int| 0 <= k < 81 && state.cells@[k] == 0 && #[trigger] state.candidates@[k] == 0
            &&& !dead_end ==> state.empty_count == 0
            &&& rating.score == score_of(hardest(passes(ts, dead_end)), advanced_steps(passes(ts, dead_end)))
        };
        let sols = |s: Seq<Seq<u8>>| crate::killer::is_killer_solution_of(grid@, cages@, s);
        assert forall|s: Seq<Seq<u8>>| sols(s) implies sts[0].consistent(s) by {
            lemma_killer_solution_holds(&cage_info, cages@, grid@, s);
        }
        assert(info_for(Some(cage_info), Some(cages@)));
        assert(rating_run(ts, sts, sts[0], state, Some(cage_info)) && passes(ts, dead_end) == passes(ts, dead_end));
        if rating.score < 10 {
            assert forall|s1: Seq<Seq<u8>>, s2: Seq<Seq<u8>>|
                crate::killer::is_killer_solution_of(grid@, cages@, s1) && crate::killer::is_killer_solution_of(grid@, cages@, s2)
                    implies s1 == s2 by {
                lemma_killer_solution_holds(&cage_info, cages@, grid@, s1);
                lemma_killer_solution_holds(&cage_info, cages@, grid@, s2);
                assert(start.consistent(s1) && start.consistent(s2));
                assert(state.consistent(s1) && state.consistent(s2));
                lemma_complete_state_unique(&state, s1, s2);
            }
        }
    }
    rating
}

/// A killer solution of the cages keeps the cage data.
proof fn lemma_killer_solution_holds(info: &RaterCageInfo, cages: Seq<Cage>, g: Seq<Seq<u8>>, s: Seq<Seq<u8>>)
    requires
        info.n() == cages.len(),
        forall|ci: int| 0 <= ci < cages.len() ==> #[trigger] info.cage(ci) == cages[ci].cells@ && info.sums@[ci] == cages[ci].sum,
        crate::killer::is_killer_solution_of(g, cages, s),
    ensures
        crate::rules::is_solution_of(g, s),
        rsol(Some(info), s),
{
    assert forall|ci: int, k1: int, k2: int|
        0 <= ci < info.n() && 0 <= k1 < info.cage(ci).len() && 0 <= k2 < info.cage(ci).len() && k1 != k2
            implies digit_at(s, #[trigger] info.cage(ci)[k1]) != digit_at(s, #[trigger] info.cage(ci)[k2]) by {
        assert(info.cage(ci) == cages[ci].cells@);
        assert(cage_ok(cages[ci].cells@, cages[ci].sum as int, s));
    }
    assert forall|ci: int| 0 <= ci < info.n() implies #[trigger] crate::grid::cells_sum(s, info.cage(ci)) == info.sums@[ci] by {
        assert(info.cage(ci) == cages[ci].cells@);
        assert(cage_ok(cages[ci].cells@, cages[ci].sum as int, s));
    }
    assert(cages_hold(info, s));
}


} // verus!
