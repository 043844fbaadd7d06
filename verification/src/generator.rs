//! Puzzle generation: a random complete grid, then clues removed while the
//! solution stays unique; killer puzzles get a random cage partition.
use vstd::prelude::*;
use vstd::seq_lib::*;
use rand::rngs::StdRng;
use rand::Rng;
use rand::seq::{IndexedRandom, SliceRandom};
use crate::grid::{
    Cage, Grid, PuzzleState, cages_disjoint, cell_in_board, cells_sum, digit_at, in_some_cage,
};
use crate::rules::{
    digits_in_range, extends, in_board, is_board, is_complete_valid, is_peer, is_solution_of,
    placement_ok,
};
use crate::killer::{cage_ok, is_killer_solution_of, is_partition};
use crate::killer_search::{SolverResult, count_solutions_killer, lemma_killer_count_one_means_unique, no_empty_cage, no_givens};
use crate::solver::{count_solutions, has_solutions, lemma_count_one_means_unique, solutions_in};
use crate::tally::{count_empty, lemma_count_empty_bounds, lemma_count_empty_update};

verus! {

/// `rand::rngs::StdRng`, the random number generator the generator draws
/// from; opaque here, only handed to the `rand` calls below.
#[verifier::external_type_specification]
#[verifier::external_body]
pub struct ExStdRng(StdRng);

/// `SliceRandom::shuffle`: reorders the items in place (a Fisher–Yates
/// shuffle driven by `rng`); the contract claims only that the result is a
/// permutation of the input.
#[verifier::external_body]
fn shuffle<T>(items: &mut Vec<T>, rng: &mut StdRng)
    ensures
        final(items)@.to_multiset() == old(items)@.to_multiset(),
        final(items)@.len() == old(items)@.len(),
{
    items.shuffle(rng);
}

/// `Rng::random_range` over an inclusive `usize` range: the contract claims
/// only that the value lies in `lo..=hi`. The call panics on an empty range,
/// which `requires` rules out.
#[verifier::external_body]
fn random_usize_inclusive(rng: &mut StdRng, lo: usize, hi: usize) -> (v: usize)
    requires
        lo <= hi,
    ensures
        lo <= v <= hi,
{
    rng.random_range(lo..=hi)
}

/// `Rng::random_range` over the half-open `u8` range `0..100`: the contract
/// claims only that the value is below 100.
#[verifier::external_body]
fn random_percent(rng: &mut StdRng) -> (v: u8)
    ensures
        v < 100,
{
    rng.random_range(0..100)
}

/// `IndexedRandom::choose`: `None` exactly for an empty slice, otherwise one
/// of its items; which one depends on `rng` and is not stated.
#[verifier::external_body]
fn choose_cell(items: &Vec<(usize, usize)>, rng: &mut StdRng) -> (res: Option<(usize, usize)>)
    ensures
        res is None <==> items@.len() == 0,
        res matches Some(x) ==> items@.contains(x),
{
    items.choose(rng).copied()
}

/// How many clues a classic puzzle keeps.
#[derive(Clone, Copy, Debug, PartialEq, Eq, Structural)]
pub enum Difficulty {
    Easy,
    Medium,
    Hard,
}

impl Default for Difficulty {
    fn default() -> (d: Self)
        ensures
            d == Difficulty::Easy,
    {
        Difficulty::Easy
    }
}

/// The fewest and the most clues a puzzle of difficulty `d` aims for.
pub open spec fn clue_bounds(d: Difficulty) -> (usize, usize) {
    match d {
        Difficulty::Easy => (36, 45),
        Difficulty::Medium => (27, 35),
        Difficulty::Hard => (22, 26),
    }
}

impl Difficulty {
    /// Range of the number of clues a classic puzzle aims for.
    pub fn clue_range(self) -> (r: (usize, usize))
        ensures
            r == clue_bounds(self),
    {
        match self {
            Difficulty::Easy => (36, 45),
            Difficulty::Medium => (27, 35),
            Difficulty::Hard => (22, 26),
        }
    }

    /// The next difficulty in the menu's cycle.
    pub open spec fn next_spec(self) -> Self {
        match self {
            Difficulty::Easy => Difficulty::Medium,
            Difficulty::Medium => Difficulty::Hard,
            Difficulty::Hard => Difficulty::Easy,
        }
    }

    /// The name of the difficulty.
    pub open spec fn name_spec(self) -> &'static str {
        match self {
            Difficulty::Easy => "Easy",
            Difficulty::Medium => "Medium",
            Difficulty::Hard => "Hard",
        }
    }

    /// The next difficulty: Easy, Medium, Hard, then Easy again.
    pub fn next(self) -> (n: Self)
        ensures
            n == self.next_spec(),
    {
        match self {
            Difficulty::Easy => Difficulty::Medium,
            Difficulty::Medium => Difficulty::Hard,
            Difficulty::Hard => Difficulty::Easy,
        }
    }

    /// The name shown to the player.
    pub fn name(self) -> (s: &'static str)
        ensures
            s@ == self.name_spec()@,
    {
        match self {
            Difficulty::Easy => "Easy",
            Difficulty::Medium => "Medium",
            Difficulty::Hard => "Hard",
        }
    }
}

/// The board as 81 cells in reading order.
pub open spec fn flat(g: Seq<Seq<u8>>) -> Seq<u8> {
    Seq::new(81, |k: int| g[k / 9][k % 9])
}

/// Number of empty cells of a board.
pub open spec fn num_empty(g: Seq<Seq<u8>>) -> nat {
    count_empty(flat(g), 81)
}

/// Number of filled cells of a board.
pub open spec fn num_filled(g: Seq<Seq<u8>>) -> int {
    81 - num_empty(g)
}

/// Filled cells hold digits 1..=9 and no two peers hold the same digit.
pub open spec fn partial_valid(g: Seq<Seq<u8>>) -> bool {
    &&& digits_in_range(g)
    &&& forall|r1: int, c1: int, r2: int, c2: int|
        in_board(r1, c1) && in_board(r2, c2) && is_peer(r1, c1, r2, c2) && #[trigger] g[r1][c1] != 0
            ==> g[r1][c1] != #[trigger] g[r2][c2]
}

/// `g` is `s` with some cells blanked.
pub open spec fn blanked_from(g: Seq<Seq<u8>>, s: Seq<Seq<u8>>) -> bool {
    is_board(g) && forall|r: int, c: int| in_board(r, c) ==> #[trigger] g[r][c] == 0 || g[r][c] == s[r][c]
}

proof fn lemma_flat_update(g: Seq<Seq<u8>>, r: int, c: int, v: u8)
    requires
        is_board(g),
        in_board(r, c),
    ensures
        flat(g.update(r, g[r].update(c, v))) =~= flat(g).update(9 * r + c, v),
{
    let g2 = g.update(r, g[r].update(c, v));
    assert forall|k: int| 0 <= k < 81 implies #[trigger] flat(g2)[k] == flat(g).update(9 * r + c, v)[k] by {
        if k == 9 * r + c {
            assert(k / 9 == r && k % 9 == c);
        } else {
            assert(!(k / 9 == r && k % 9 == c));
        }
    }
}

/// A board with no empty cell.
proof fn lemma_num_empty_zero(g: Seq<Seq<u8>>)
    requires
        is_board(g),
    ensures
        num_empty(g) == 0 <==> forall|r: int, c: int| in_board(r, c) ==> #[trigger] g[r][c] != 0,
        num_empty(g) <= 81,
{
    lemma_count_empty_bounds(flat(g), 81);
    if num_empty(g) == 0 {
        assert forall|r: int, c: int| in_board(r, c) implies #[trigger] g[r][c] != 0 by {
            assert(flat(g)[9 * r + c] == g[r][c]);
        }
    } else {
        let k = choose|k: int| 0 <= k < 81 && flat(g)[k] == 0;
        assert(in_board(k / 9, k % 9));
    }
}

/// Find the first empty cell in reading order.
fn find_empty(grid: &Grid) -> (res: Option<(usize, usize)>)
    ensures
        res matches Some((r, c)) ==> r < 9 && c < 9 && grid@[r as int][c as int] == 0,
        res is None ==> forall|r: int, c: int| in_board(r, c) ==> #[trigger] grid@[r][c] != 0,
{
    let mut r: usize = 0;
    while r < 9
        invariant
            r <= 9,
            forall|r2: int, c2: int| in_board(r2, c2) && r2 < r ==> #[trigger] grid@[r2][c2] != 0,
        decreases 9 - r,
    {
        let mut c: usize = 0;
        while c < 9
            invariant
                r < 9,
                c <= 9,
                forall|r2: int, c2: int| in_board(r2, c2) && (r2 < r || (r2 == r && c2 < c)) ==> #[trigger] grid@[r2][c2] != 0,
            decreases 9 - c,
        {
            if grid.get(r, c) == 0 {
                return Some((r, c));
            }
            c += 1;
        }
        r += 1;
    }
    None
}

/// Fill the grid with a complete valid solution using backtracking with
/// randomized digit ordering. On failure the grid is left as it was, and
/// then no solution extends it.
pub fn fill_grid(grid: &mut Grid, rng: &mut StdRng) -> (ok: bool)
    requires
        partial_valid(old(grid)@),
    ensures
        ok ==> is_complete_valid(final(grid)@) && extends(final(grid)@, old(grid)@),
        !ok ==> final(grid)@ == old(grid)@ && forall|s: Seq<Seq<u8>>| !is_solution_of(old(grid)@, s),
    decreases num_empty(old(grid)@),
{
    proof {
        grid.lemma_is_board();
        lemma_num_empty_zero(grid@);
    }
    let (row, col) = match find_empty(grid) {
        Some(cell) => cell,
        None => {
            proof {
                assert forall|r1: int, c1: int, r2: int, c2: int|
                    in_board(r1, c1) && in_board(r2, c2) && is_peer(r1, c1, r2, c2) implies #[trigger] grid@[r1][c1]
                    != #[trigger] grid@[r2][c2] by {
                    assert(grid@[r1][c1] != 0);
                }
            }
            return true;  // all cells filled
        },
    };
    let ghost g0 = grid@;

    let mut digits: Vec<u8> = vec![1, 2, 3, 4, 5, 6, 7, 8, 9];
    let ghost all = digits@;
    shuffle(&mut digits, rng);
    proof {
        all.to_multiset_ensures();
        digits@.to_multiset_ensures();
        assert forall|v: u8| 1 <= v <= 9 implies digits@.contains(v) by {
            assert(all[v - 1] == v);
            assert(all.contains(v));
            assert(all.to_multiset().count(v) > 0);
            assert(digits@.to_multiset().count(v) > 0);
        }
        assert forall|i: int| 0 <= i < digits@.len() implies 1 <= #[trigger] digits@[i] <= 9 by {
            assert(digits@.contains(digits@[i]));
            assert(digits@.to_multiset().count(digits@[i]) > 0);
            assert(all.to_multiset().count(digits@[i]) > 0);
            assert(all.contains(digits@[i]));
        }
    }

    let mut i: usize = 0;
    while i < digits.len()
        invariant
            0 <= i <= digits@.len(),
            digits@.len() == 9,
            row < 9,
            col < 9,
            grid@ == g0,
            g0 == old(grid)@,
            g0[row as int][col as int] == 0,
            partial_valid(g0),
            forall|v: u8| 1 <= v <= 9 ==> digits@.contains(v),
            forall|i2: int| 0 <= i2 < digits@.len() ==> 1 <= #[trigger] digits@[i2] <= 9,
            forall|s: Seq<Seq<u8>>| #[trigger] is_solution_of(g0, s) ==> !digits@.subrange(0, i as int).contains(s[row as int][col as int]),
        decreases digits@.len() - i,
    {
        let val = digits[i];
        if grid.is_valid_placement(row, col, val) {
            grid.set(row, col, val);
            proof {
                lemma_flat_update(g0, row as int, col as int, val);
                lemma_count_empty_update(flat(g0), 9 * row + col, val, 81);
                assert(flat(g0)[9 * row + col] == 0);
                assert(partial_valid(grid@)) by {
                    assert forall|r1: int, c1: int, r2: int, c2: int|
                        in_board(r1, c1) && in_board(r2, c2) && is_peer(r1, c1, r2, c2) && #[trigger] grid@[r1][c1] != 0
                            implies grid@[r1][c1] != #[trigger] grid@[r2][c2] by {
                        if r1 == row && c1 == col {
                            assert(placement_ok(g0, row as int, col as int, val));
                        } else if r2 == row && c2 == col {
                            assert(placement_ok(g0, row as int, col as int, val));
                            assert(is_peer(r2, c2, r1, c1));
                        }
                    }
                }
            }
            let ghost g1 = grid@;
            if fill_grid(grid, rng) {
                proof {
                    assert forall|r: int, c: int| in_board(r, c) && g0[r][c] != 0 implies #[trigger] grid@[r][c] == g0[r][c] by {
                        if !(r == row && c == col) {
                            assert(g1[r][c] == g0[r][c]);
                        }
                    }
                }
                return true;
            }
            grid.set(row, col, 0);
            proof {
                assert(grid@ =~= g0) by {
                    assert forall|r: int| 0 <= r < 9 implies grid@[r] =~= g0[r] by {}
                }
                assert forall|s: Seq<Seq<u8>>| #[trigger] is_solution_of(g0, s) implies s[row as int][col as int] != val by {
                    if s[row as int][col as int] == val {
                        assert(is_solution_of(g1, s)) by {
                            assert forall|r: int, c: int| in_board(r, c) && g1[r][c] != 0 implies #[trigger] s[r][c] == g1[r][c] by {
                                if !(r == row && c == col) {
                                    assert(g1[r][c] == g0[r][c]);
                                }
                            }
                        }
                    }
                }
            }
        } else {
            proof {
                assert forall|s: Seq<Seq<u8>>| #[trigger] is_solution_of(g0, s) implies s[row as int][col as int] != val by {
                    if s[row as int][col as int] == val {
                        assert forall|r: int, c: int| in_board(r, c) && is_peer(row as int, col as int, r, c) implies g0[r][c] != val by {
                            assert(s[r][c] != s[row as int][col as int]);
                            if g0[r][c] != 0 {
                                assert(s[r][c] == g0[r][c]);
                            }
                        }
                    }
                }
            }
        }
        proof {
            assert forall|s: Seq<Seq<u8>>| #[trigger] is_solution_of(g0, s) implies !digits@.subrange(0, i + 1).contains(s[row as int][col as int]) by {
                assert(digits@.subrange(0, i + 1) =~= digits@.subrange(0, i as int).push(val));
            }
        }
        i += 1;
    }
    proof {
        assert forall|s: Seq<Seq<u8>>| !is_solution_of(g0, s) by {
            if is_solution_of(g0, s) {
                assert(digits@.subrange(0, 9) =~= digits@);
                assert(in_board(row as int, col as int));
                assert(1 <= s[row as int][col as int] <= 9);
            }
        }
    }
    false
}

/// A fixed complete board: digit (3 * (r % 3) + r / 3 + c) % 9 + 1 at (r, c).
pub open spec fn pattern_board() -> Seq<Seq<u8>> {
    Seq::new(9, |r: int| Seq::new(9, |c: int| ((3 * (r % 3) + r / 3 + c) % 9 + 1) as u8))
}

/// Some complete valid board exists, so the empty grid has a solution.
pub proof fn lemma_pattern_board_valid()
    ensures
        is_complete_valid(pattern_board()),
{
    let s = pattern_board();
    assert forall|r1: int, c1: int, r2: int, c2: int|
        in_board(r1, c1) && in_board(r2, c2) && is_peer(r1, c1, r2, c2) implies #[trigger] s[r1][c1]
        != #[trigger] s[r2][c2] by {
        let t1 = 3 * (r1 % 3) + r1 / 3;
        let t2 = 3 * (r2 % 3) + r2 / 3;
        assert(0 <= t1 < 9 && 0 <= t2 < 9);
        if r1 == r2 {
            assert((t1 + c1) % 9 != (t1 + c2) % 9);
        } else if c1 == c2 {
            assert(t1 != t2);
            assert((t1 + c1) % 9 != (t2 + c1) % 9);
        } else {
            assert(r1 / 3 == r2 / 3 && c1 / 3 == c2 / 3);
            let u1 = 3 * (r1 % 3) + c1 % 3;
            let u2 = 3 * (r2 % 3) + c2 % 3;
            assert(u1 != u2);
            let base = r1 / 3 + 3 * (c1 / 3);
            assert(t1 + c1 == base + u1);
            assert(t2 + c2 == base + u2);
            assert((base + u1) % 9 != (base + u2) % 9);
        }
    }
}

/// Clearing cell (r, c) of `g` leaves at least two solutions: the clue is
/// needed for a unique solution.
pub open spec fn clue_needed(g: Seq<Seq<u8>>, r: int, c: int) -> bool {
    has_solutions(g.update(r, g[r].update(c, 0)), 2)
}

/// Clearing clues keeps every solution.
proof fn lemma_fewer_clues(g1: Seq<Seq<u8>>, g2: Seq<Seq<u8>>, n: int)
    requires
        forall|r: int, c: int| in_board(r, c) && g2[r][c] != 0 ==> #[trigger] g1[r][c] == g2[r][c],
        has_solutions(g1, n),
    ensures
        has_solutions(g2, n),
{
    let sols = choose|sols: Set<Seq<Seq<u8>>>| #[trigger] solutions_in(g1, sols) && sols.len() == n;
    assert forall|s: Seq<Seq<u8>>| #[trigger] sols.contains(s) implies is_solution_of(g2, s) by {
        assert(is_solution_of(g1, s));
        assert forall|r: int, c: int| in_board(r, c) && g2[r][c] != 0 implies #[trigger] s[r][c] == g2[r][c] by {
            assert(g1[r][c] == g2[r][c]);
        }
    }
    assert(solutions_in(g2, sols) && sols.len() == n);
}

/// Remove cells from a complete grid while maintaining a unique solution.
/// Cells are tried once each in a random order; the removal stops once
/// `target_clues` clues remain, and otherwise every clue left is needed.
fn remove_cells(grid: &mut Grid, target_clues: usize, rng: &mut StdRng)
    requires
        is_complete_valid(old(grid)@),
    ensures
        blanked_from(final(grid)@, old(grid)@),
        forall|s: Seq<Seq<u8>>| is_solution_of(final(grid)@, s) ==> s == old(grid)@,
        target_clues <= 81 ==> num_filled(final(grid)@) >= target_clues,
        target_clues >= 81 ==> final(grid)@ == old(grid)@,
        num_filled(final(grid)@) <= target_clues
            || forall|r: int, c: int| in_board(r, c) && final(grid)@[r][c] != 0 ==> #[trigger] clue_needed(final(grid)@, r, c),
{
    let ghost full = grid@;
    let mut positions: Vec<(usize, usize)> = Vec::new();
    let mut r: usize = 0;
    while r < 9
        invariant
            r <= 9,
            positions@.len() == 9 * r,
            forall|k: int| 0 <= k < positions@.len() ==> #[trigger] positions@[k] == ((k / 9) as usize, (k % 9) as usize),
        decreases 9 - r,
    {
        let mut c: usize = 0;
        while c < 9
            invariant
                r < 9,
                c <= 9,
                positions@.len() == 9 * r + c,
                forall|k: int| 0 <= k < positions@.len() ==> #[trigger] positions@[k] == ((k / 9) as usize, (k % 9) as usize),
            decreases 9 - c,
        {
            proof {
                assert((9 * r + c) / 9 == r && (9 * r + c) % 9 == c);
            }
            positions.push((r, c));
            c += 1;
        }
        r += 1;
    }
    let ghost ordered = positions@;
    shuffle(&mut positions, rng);
    proof {
        ordered.to_multiset_ensures();
        positions@.to_multiset_ensures();
        assert forall|i: int| 0 <= i < positions@.len() implies #[trigger] positions@[i].0 < 9 && positions@[i].1 < 9 by {
            assert(positions@.contains(positions@[i]));
            assert(positions@.to_multiset().count(positions@[i]) > 0);
            assert(ordered.to_multiset().count(positions@[i]) > 0);
            assert(ordered.contains(positions@[i]));
            let k = choose|k: int| 0 <= k < ordered.len() && ordered[k] == positions@[i];
            assert(ordered[k] == ((k / 9) as usize, (k % 9) as usize));
        }
        assert forall|r2: int, c2: int| in_board(r2, c2) implies #[trigger] positions@.contains((r2 as usize, c2 as usize)) by {
            let k = 9 * r2 + c2;
            assert(k / 9 == r2 && k % 9 == c2);
            assert(ordered[k] == (r2 as usize, c2 as usize));
            assert(ordered.contains(ordered[k]));
            assert(ordered.to_multiset().count(ordered[k]) > 0);
            assert(positions@.to_multiset().count(ordered[k]) > 0);
        }
        grid.lemma_is_board();
        lemma_num_empty_zero(full);
        assert forall|s: Seq<Seq<u8>>| is_solution_of(full, s) implies s == full by {
            assert forall|r2: int| 0 <= r2 < 9 implies s[r2] =~= full[r2] by {
                assert forall|c2: int| 0 <= c2 < 9 implies s[r2][c2] == full[r2][c2] by {
                    assert(in_board(r2, c2));
                }
            }
            assert(s =~= full);
        }
    }

    let mut clues: usize = 81;
    let mut i: usize = 0;
    while i < positions.len()
        invariant
            i <= positions@.len(),
            forall|i2: int| 0 <= i2 < positions@.len() ==> #[trigger] positions@[i2].0 < 9 && positions@[i2].1 < 9,
            is_complete_valid(full),
            full == old(grid)@,
            blanked_from(grid@, full),
            forall|s: Seq<Seq<u8>>| is_solution_of(grid@, s) ==> s == full,
            num_filled(grid@) == clues,
            target_clues <= 81 ==> clues >= target_clues,
            target_clues >= 81 ==> grid@ == full,
            clues <= 81,
            forall|r2: int, c2: int| in_board(r2, c2) ==> #[trigger] positions@.contains((r2 as usize, c2 as usize)),
            forall|i2: int| 0 <= i2 < i && grid@[positions@[i2].0 as int][positions@[i2].1 as int] != 0
                ==> clue_needed(grid@, (#[trigger] positions@[i2]).0 as int, positions@[i2].1 as int),
        ensures
            clues <= target_clues || i == positions@.len(),
        decreases positions@.len() - i,
    {
        if clues <= target_clues {
            break;
        }
        let (r, c) = positions[i];
        let val = grid.get(r, c);
        if val != 0 {
        let ghost g0 = grid@;
        grid.set(r, c, 0);
        proof {
            lemma_flat_update(g0, r as int, c as int, 0);
            lemma_count_empty_update(flat(g0), 9 * r + c, 0, 81);
            assert(flat(g0)[9 * r + c] == g0[r as int][c as int]);
            lemma_num_empty_zero(g0);
            lemma_num_empty_zero(grid@);
            assert(blanked_from(grid@, full));
            assert(digits_in_range(grid@)) by {
                assert forall|r2: int, c2: int| in_board(r2, c2) implies #[trigger] grid@[r2][c2] <= 9 by {
                    assert(grid@[r2][c2] == 0 || grid@[r2][c2] == full[r2][c2]);
                }
            }
        }
        let ghost t = grid@;
        let n = count_solutions(grid, 2);
        if n != 1 {
            // Removal breaks uniqueness — restore
            proof {
                broadcast use vstd::set::group_set_axioms;
                assert(is_solution_of(t, full));
                let one = Set::<Seq<Seq<u8>>>::empty().insert(full);
                assert(one.len() == 1);
                assert(forall|s2: Seq<Seq<u8>>| #[trigger] one.contains(s2) ==> is_solution_of(t, s2));
                assert(one.finite());
                assert(crate::solver::counts_all_solutions(t, 2, n as int));
                assert(n >= crate::solver::min(one.len() as int, 2));
                assert(n == 2);
            }
            grid.set(r, c, val);
            proof {
                assert(grid@ =~= g0) by {
                    assert forall|r2: int| 0 <= r2 < 9 implies grid@[r2] =~= g0[r2] by {}
                }
                assert(t == g0.update(r as int, g0[r as int].update(c as int, 0)));
                assert(clue_needed(g0, r as int, c as int));
            }
        } else {
            clues -= 1;
            proof {
                lemma_count_one_means_unique(grid@, 2, n as int);
                assert(is_solution_of(grid@, full));
                assert(g0[r as int][c as int] != 0);
                assert forall|i2: int| 0 <= i2 < i + 1 && t[positions@[i2].0 as int][positions@[i2].1 as int] != 0
                    implies clue_needed(t, (#[trigger] positions@[i2]).0 as int, positions@[i2].1 as int) by {
                    let (pr, pc) = (positions@[i2].0 as int, positions@[i2].1 as int);
                    if i2 < i {
                        assert(g0[pr][pc] != 0);
                        assert(clue_needed(g0, pr, pc));
                        let a = g0.update(pr, g0[pr].update(pc, 0));
                        let b = t.update(pr, t[pr].update(pc, 0));
                        assert forall|r3: int, c3: int| in_board(r3, c3) && b[r3][c3] != 0 implies #[trigger] a[r3][c3] == b[r3][c3] by {
                        }
                        lemma_fewer_clues(a, b, 2);
                    }
                }
            }
        }
        }
        i += 1;
    }
    proof {
        if num_filled(grid@) > target_clues {
            assert forall|r2: int, c2: int| in_board(r2, c2) && grid@[r2][c2] != 0 implies #[trigger] clue_needed(grid@, r2, c2) by {
                assert(positions@.contains((r2 as usize, c2 as usize)));
                let i2 = choose|i2: int| 0 <= i2 < positions@.len() && positions@[i2] == (r2 as usize, c2 as usize);
                assert(positions@[i2].0 < 9);
            }
        }
    }
}

/// Generate a puzzle with a unique solution at the given difficulty.
pub fn generate_puzzle(difficulty: Difficulty, rng: &mut StdRng) -> (p: PuzzleState)
    ensures
        is_complete_valid(p.solution@),
        blanked_from(p.grid@, p.solution@),
        forall|s: Seq<Seq<u8>>| is_solution_of(p.grid@, s) ==> s == p.solution@,
        forall|r: int, c: int| in_board(r, c) ==> (#[trigger] p.givens[r][c] <==> p.grid@[r][c] != 0),
        p.cages is None,
        num_filled(p.grid@) >= clue_bounds(difficulty).0,
        num_filled(p.grid@) <= clue_bounds(difficulty).1
            || forall|r: int, c: int| in_board(r, c) && p.grid@[r][c] != 0 ==> #[trigger] clue_needed(p.grid@, r, c),
{
    let mut grid = Grid::empty();
    proof {
        lemma_pattern_board_valid();
        assert(is_solution_of(grid@, pattern_board()));
    }
    let filled = fill_grid(&mut grid, rng);
    assert(filled);
    let solution = grid;

    let (min_clues, max_clues) = difficulty.clue_range();
    let target_clues = random_usize_inclusive(rng, min_clues, max_clues);

    remove_cells(&mut grid, target_clues, rng);

    let mut givens = [[false; 9]; 9];
    let mut r: usize = 0;
    while r < 9
        invariant
            r <= 9,
            forall|r2: int, c2: int| in_board(r2, c2) && r2 < r ==> (#[trigger] givens[r2][c2] <==> grid@[r2][c2] != 0),
        decreases 9 - r,
    {
        let mut c: usize = 0;
        while c < 9
            invariant
                r < 9,
                c <= 9,
                forall|r2: int, c2: int| in_board(r2, c2) && (r2 < r || (r2 == r && c2 < c)) ==> (#[trigger] givens[r2][c2] <==> grid@[r2][c2] != 0),
            decreases 9 - c,
        {
            let ghost before = givens;
            givens[r][c] = grid.get(r, c) != 0;
            proof {
                assert forall|r2: int, c2: int| in_board(r2, c2) && (r2 < r || (r2 == r && c2 < c + 1)) implies (#[trigger] givens[r2][c2] <==> grid@[r2][c2] != 0) by {
                    if !(r2 == r && c2 == c) {
                        assert(givens[r2][c2] == before[r2][c2]);
                    }
                }
            }
            c += 1;
        }
        r += 1;
    }

    PuzzleState { grid, givens, cages: None, solution }
}

/// Two cells are orthogonal neighbours.
pub open spec fn orth_adjacent(a: (usize, usize), b: (usize, usize)) -> bool {
    (a.0 == b.0 && (a.1 + 1 == b.1 || b.1 + 1 == a.1)) || (a.1 == b.1 && (a.0 + 1 == b.0 || b.0 + 1 == a.0))
}

/// The unassigned orthogonal neighbours of the given cells, each listed once,
/// in the order they are met (cell by cell; up, down, left, right).
fn unassigned_neighbors(cells: &Vec<(usize, usize)>, assigned: &[[bool; 9]; 9]) -> (result: Vec<(usize, usize)>)
    requires
        forall|k: int| 0 <= k < cells@.len() ==> cell_in_board(#[trigger] cells@[k]),
    ensures
        forall|i: int| 0 <= i < result@.len() ==> {
            &&& cell_in_board(#[trigger] result@[i])
            &&& !assigned[result@[i].0 as int][result@[i].1 as int]
            &&& exists|k: int| 0 <= k < cells@.len() && orth_adjacent(cells@[k], result@[i])
        },
        forall|i: int, j: int| 0 <= i < j < result@.len() ==> result@[i] != result@[j],
        forall|k: int, p: (usize, usize)|
            0 <= k < cells@.len() && cell_in_board(p) && orth_adjacent(#[trigger] cells@[k], p) && !assigned[p.0 as int][p.1 as int]
                ==> #[trigger] result@.contains(p),
{
    let mut result: Vec<(usize, usize)> = Vec::new();
    let mut seen = [[false; 9]; 9];
    let mut k: usize = 0;
    while k < cells.len()
        invariant
            k <= cells@.len(),
            forall|k2: int| 0 <= k2 < cells@.len() ==> cell_in_board(#[trigger] cells@[k2]),
            forall|i: int| 0 <= i < result@.len() ==> {
                &&& cell_in_board(#[trigger] result@[i])
                &&& !assigned[result@[i].0 as int][result@[i].1 as int]
                &&& seen[result@[i].0 as int][result@[i].1 as int]
                &&& exists|k2: int| 0 <= k2 < cells@.len() && orth_adjacent(cells@[k2], result@[i])
            },
            forall|r: int, c: int| 0 <= r < 9 && 0 <= c < 9 && #[trigger] seen[r][c] ==> result@.contains((r as usize, c as usize)),
            forall|i: int, j: int| 0 <= i < j < result@.len() ==> result@[i] != result@[j],
            forall|k2: int, p: (usize, usize)|
                0 <= k2 < k && cell_in_board(p) && orth_adjacent(#[trigger] cells@[k2], p) && !assigned[p.0 as int][p.1 as int]
                    ==> #[trigger] result@.contains(p),
        decreases cells@.len() - k,
    {
        let (r, c) = cells[k];
        let mut dir: usize = 0;
        while dir < 4
            invariant
                k < cells@.len(),
                (r, c) == cells@[k as int],
                r < 9,
                c < 9,
                dir <= 4,
                forall|k2: int| 0 <= k2 < cells@.len() ==> cell_in_board(#[trigger] cells@[k2]),
                forall|i: int| 0 <= i < result@.len() ==> {
                    &&& cell_in_board(#[trigger] result@[i])
                    &&& !assigned[result@[i].0 as int][result@[i].1 as int]
                    &&& seen[result@[i].0 as int][result@[i].1 as int]
                    &&& exists|k2: int| 0 <= k2 < cells@.len() && orth_adjacent(cells@[k2], result@[i])
                },
                forall|r2: int, c2: int| 0 <= r2 < 9 && 0 <= c2 < 9 && #[trigger] seen[r2][c2] ==> result@.contains((r2 as usize, c2 as usize)),
                forall|i: int, j: int| 0 <= i < j < result@.len() ==> result@[i] != result@[j],
                forall|k2: int, p: (usize, usize)|
                    0 <= k2 < k && cell_in_board(p) && orth_adjacent(#[trigger] cells@[k2], p) && !assigned[p.0 as int][p.1 as int]
                        ==> #[trigger] result@.contains(p),
                forall|p: (usize, usize)|
                    cell_in_board(p) && orth_adjacent((r, c), p) && !assigned[p.0 as int][p.1 as int] && dir_index((r, c), p) < dir
                        ==> #[trigger] result@.contains(p),
            decreases 4 - dir,
        {
            // Directions in order: up, down, left, right.
            let step: Option<(usize, usize)> = if dir == 0 {
                if r > 0 { Some((r - 1, c)) } else { None }
            } else if dir == 1 {
                if r + 1 < 9 { Some((r + 1, c)) } else { None }
            } else if dir == 2 {
                if c > 0 { Some((r, c - 1)) } else { None }
            } else {
                if c + 1 < 9 { Some((r, c + 1)) } else { None }
            };
            let ghost before = result@;
            if let Some((nr, nc)) = step {
                if !assigned[nr][nc] && !seen[nr][nc] {
                    let ghost seen0 = seen;
                    seen[nr][nc] = true;
                    result.push((nr, nc));
                    proof {
                        assert(orth_adjacent(cells@[k as int], (nr, nc)));
                        assert forall|i: int| 0 <= i < result@.len() implies {
                            &&& cell_in_board(#[trigger] result@[i])
                            &&& !assigned[result@[i].0 as int][result@[i].1 as int]
                            &&& seen[result@[i].0 as int][result@[i].1 as int]
                            &&& exists|k2: int| 0 <= k2 < cells@.len() && orth_adjacent(cells@[k2], result@[i])
                        } by {
                            if i < before.len() {
                                assert(result@[i] == before[i]);
                                assert(seen0[result@[i].0 as int][result@[i].1 as int]);
                            }
                        }
                        assert forall|r2: int, c2: int| 0 <= r2 < 9 && 0 <= c2 < 9 && #[trigger] seen[r2][c2] implies result@.contains((r2 as usize, c2 as usize)) by {
                            if r2 == nr && c2 == nc {
                                assert(result@[before.len() as int] == (nr, nc));
                            } else {
                                assert(seen0[r2][c2]);
                                assert(before.contains((r2 as usize, c2 as usize)));
                                let j = choose|j: int| 0 <= j < before.len() && before[j] == (r2 as usize, c2 as usize);
                                assert(result@[j] == before[j]);
                            }
                        }
                        assert forall|i: int, j: int| 0 <= i < j < result@.len() implies result@[i] != result@[j] by {
                            if j == before.len() {
                                assert(seen0[result@[i].0 as int][result@[i].1 as int]);
                            }
                        }
                    }
                } else {
                    proof {
                        if !assigned[nr as int][nc as int] {
                            assert(result@.contains((nr, nc)));
                        }
                    }
                }
            }
            proof {
                assert forall|p: (usize, usize)|
                    cell_in_board(p) && orth_adjacent((r, c), p) && !assigned[p.0 as int][p.1 as int] && dir_index((r, c), p) < dir + 1
                        implies #[trigger] result@.contains(p) by {
                    if dir_index((r, c), p) < dir {
                        assert(before.contains(p));
                        let j = choose|j: int| 0 <= j < before.len() && before[j] == p;
                        assert(result@[j] == before[j]);
                    } else {
                        assert(step == Some(p));
                        if !seen[p.0 as int][p.1 as int] {
                        }
                    }
                }
                assert forall|k2: int, p: (usize, usize)|
                    0 <= k2 < k && cell_in_board(p) && orth_adjacent(#[trigger] cells@[k2], p) && !assigned[p.0 as int][p.1 as int]
                        implies #[trigger] result@.contains(p) by {
                    assert(before.contains(p));
                    let j = choose|j: int| 0 <= j < before.len() && before[j] == p;
                    assert(result@[j] == before[j]);
                }
            }
            dir += 1;
        }
        proof {
            assert forall|k2: int, p: (usize, usize)|
                0 <= k2 < k + 1 && cell_in_board(p) && orth_adjacent(#[trigger] cells@[k2], p) && !assigned[p.0 as int][p.1 as int]
                    implies #[trigger] result@.contains(p) by {
                if k2 == k {
                    assert(dir_index((r, c), p) < 4);
                }
            }
        }
        k += 1;
    }
    result
}

/// Position of neighbour `p` of `a` in the order up, down, left, right.
spec fn dir_index(a: (usize, usize), p: (usize, usize)) -> int {
    if p.0 + 1 == a.0 {
        0
    } else if p.0 == a.0 + 1 {
        1
    } else if p.1 + 1 == a.1 {
        2
    } else {
        3
    }
}

/// The cage size for a roll in 0..100: 5% single cells, 30% pairs, 35%
/// triples, 25% of four cells, 5% of five.
pub fn cage_size_for_roll(roll: u8) -> (size: usize)
    ensures
        size == if roll < 5 {
            1usize
        } else if roll < 35 {
            2
        } else if roll < 70 {
            3
        } else if roll < 95 {
            4
        } else {
            5
        },
{
    if roll < 5 {
        1
    } else if roll < 35 {
        2
    } else if roll < 70 {
        3
    } else if roll < 95 {
        4
    } else {
        5
    }
}

fn pick_cage_size(rng: &mut StdRng) -> (size: usize)
    ensures
        1 <= size <= 5,
{
    let roll: u8 = random_percent(rng);
    cage_size_for_roll(roll)
}

/// Cell `k` of `cells` lies beside an earlier one.
pub open spec fn beside_earlier(cells: Seq<(usize, usize)>, k: int) -> bool {
    exists|k2: int| 0 <= k2 < k && orth_adjacent(cells[k2], cells[k])
}

/// A cell beside one of the cells keeps every cell after the first beside an earlier one.
proof fn lemma_adjacent_push(cells: Seq<(usize, usize)>, p: (usize, usize))
    requires
        forall|k: int| 1 <= k < cells.len() ==> #[trigger] beside_earlier(cells, k),
        exists|k2: int| 0 <= k2 < cells.len() && orth_adjacent(cells[k2], p),
    ensures
        forall|k: int| 1 <= k < cells.push(p).len() ==> #[trigger] beside_earlier(cells.push(p), k),
{
    let c2 = cells.push(p);
    assert forall|k: int| 1 <= k < c2.len() implies #[trigger] beside_earlier(c2, k) by {
        if k < cells.len() {
            assert(c2[k] == cells[k]);
            assert(beside_earlier(cells, k));
            let k2 = choose|k2: int| 0 <= k2 < k && orth_adjacent(cells[k2], cells[k]);
            assert(c2[k2] == cells[k2]);
        } else {
            assert(c2[k] == p);
            let k2 = choose|k2: int| 0 <= k2 < cells.len() && orth_adjacent(cells[k2], p);
            assert(c2[k2] == cells[k2]);
        }
    }
}

/// One to five cells of the board, with pairwise different digits in `g`,
/// each cell after the first beside an earlier one (so the cage is connected).
pub open spec fn good_cage(g: Seq<Seq<u8>>, cells: Seq<(usize, usize)>) -> bool {
    &&& 1 <= cells.len() <= 5
    &&& forall|k: int| 0 <= k < cells.len() ==> cell_in_board(#[trigger] cells[k])
    &&& forall|k1: int, k2: int|
        0 <= k1 < cells.len() && 0 <= k2 < cells.len() && k1 != k2 ==> digit_at(g, #[trigger] cells[k1])
            != digit_at(g, #[trigger] cells[k2])
    &&& forall|k: int| 1 <= k < cells.len() ==> #[trigger] beside_earlier(cells, k)
}

/// A random partition of the board into connected cages of one to five cells
/// with no repeated digit of `solution`; each cage's sum is that of its digits.
pub fn generate_cages(solution: &Grid, rng: &mut StdRng) -> (cages: Vec<Cage>)
    requires
        is_complete_valid(solution@),
    ensures
        forall|j: int| 0 <= j < cages@.len() ==> good_cage(solution@, #[trigger] cages@[j].cells@)
            && cages@[j].sum == cells_sum(solution@, cages@[j].cells@),
        cages_disjoint(cages@),
        forall|r: int, c: int| in_board(r, c) ==> #[trigger] in_some_cage(cages@, (r as usize, c as usize)),
{
    let ghost g = solution@;
    let mut assigned = [[false; 9]; 9];
    let mut cages: Vec<Cage> = Vec::new();

    let mut positions: Vec<(usize, usize)> = Vec::new();
    let mut r: usize = 0;
    while r < 9
        invariant
            r <= 9,
            forall|i: int| 0 <= i < positions@.len() ==> cell_in_board(#[trigger] positions@[i]),
            forall|r2: int, c2: int| in_board(r2, c2) && r2 < r ==> positions@.contains((r2 as usize, c2 as usize)),
        decreases 9 - r,
    {
        let mut c: usize = 0;
        while c < 9
            invariant
                r < 9,
                c <= 9,
                forall|i: int| 0 <= i < positions@.len() ==> cell_in_board(#[trigger] positions@[i]),
                forall|r2: int, c2: int| in_board(r2, c2) && (r2 < r || (r2 == r && c2 < c)) ==> positions@.contains((r2 as usize, c2 as usize)),
            decreases 9 - c,
        {
            let ghost before = positions@;
            positions.push((r, c));
            proof {
                assert forall|r2: int, c2: int| in_board(r2, c2) && (r2 < r || (r2 == r && c2 < c + 1)) implies positions@.contains((r2 as usize, c2 as usize)) by {
                    if r2 == r && c2 == c {
                        assert(positions@[before.len() as int] == (r2 as usize, c2 as usize));
                    } else {
                        let j = choose|j: int| 0 <= j < before.len() && before[j] == (r2 as usize, c2 as usize);
                        assert(positions@[j] == before[j]);
                    }
                }
            }
            c += 1;
        }
        r += 1;
    }
    let ghost ordered = positions@;
    shuffle(&mut positions, rng);
    proof {
        ordered.to_multiset_ensures();
        positions@.to_multiset_ensures();
        assert forall|i: int| 0 <= i < positions@.len() implies cell_in_board(#[trigger] positions@[i]) by {
            assert(positions@.contains(positions@[i]));
            assert(positions@.to_multiset().count(positions@[i]) > 0);
            assert(ordered.to_multiset().count(positions@[i]) > 0);
            let j = choose|j: int| 0 <= j < ordered.len() && ordered[j] == positions@[i];
        }
        assert forall|r2: int, c2: int| in_board(r2, c2) implies positions@.contains((r2 as usize, c2 as usize)) by {
            let p = (r2 as usize, c2 as usize);
            assert(ordered.contains(p));
            assert(ordered.to_multiset().count(p) > 0);
            assert(positions@.to_multiset().count(p) > 0);
        }
    }

    let mut i: usize = 0;
    while i < positions.len()
        invariant
            i <= positions@.len(),
            g == solution@,
            is_complete_valid(g),
            forall|i2: int| 0 <= i2 < positions@.len() ==> cell_in_board(#[trigger] positions@[i2]),
            forall|r2: int, c2: int| in_board(r2, c2) ==> positions@.contains((r2 as usize, c2 as usize)),
            forall|i2: int| 0 <= i2 < i ==> assigned[#[trigger] positions@[i2].0 as int][positions@[i2].1 as int],
            forall|r2: int, c2: int| in_board(r2, c2) ==> (#[trigger] assigned[r2][c2] <==> in_some_cage(cages@, (r2 as usize, c2 as usize))),
            forall|j: int| 0 <= j < cages@.len() ==> good_cage(g, #[trigger] cages@[j].cells@)
                && cages@[j].sum == cells_sum(g, cages@[j].cells@),
            cages_disjoint(cages@),
        decreases positions@.len() - i,
    {
        let (r, c) = positions[i];
        if assigned[r][c] {
            i += 1;
            continue;
        }

        let target_size = pick_cage_size(rng);
        let mut cells: Vec<(usize, usize)> = vec![(r, c)];
        let ghost assigned0 = assigned;
        assigned[r][c] = true;
        // Bitmask tracking digits already in this cage
        let d0 = solution.get(r, c);
        proof {
            assert(in_board(r as int, c as int));
            assert(1 <= d0 <= 9);
        }
        let mut digits_used: u16 = 1u16 << d0;
        proof {
            assert forall|e: u8| e < 16 implies (((digits_used >> e) & 1u16 == 1u16) <==> e == d0) by {
                assert(d0 < 16 && e < 16 ==> ((((1u16 << d0) >> e) & 1u16 == 1u16) <==> e == d0)) by (bit_vector);
            }
        }

        while cells.len() < target_size
            invariant
                1 <= cells@.len() <= 5,
                target_size <= 5,
                cells@[0] == (r, c),
                r < 9,
                c < 9,
                g == solution@,
                is_complete_valid(g),
                !in_some_cage(cages@, (r, c)),
                forall|k: int| 0 <= k < cells@.len() ==> cell_in_board(#[trigger] cells@[k]),
                forall|k: int| 0 <= k < cells@.len() ==> !in_some_cage(cages@, #[trigger] cells@[k]),
                forall|k1: int, k2: int|
                    0 <= k1 < cells@.len() && 0 <= k2 < cells@.len() && k1 != k2 ==> digit_at(g, #[trigger] cells@[k1])
                        != digit_at(g, #[trigger] cells@[k2]),
                forall|k: int| 1 <= k < cells@.len() ==> #[trigger] beside_earlier(cells@, k),
                forall|e: u8| e < 16 ==> ((((digits_used >> e) & 1u16) == 1u16) <==> exists|k: int|
                    0 <= k < cells@.len() && digit_at(g, #[trigger] cells@[k]) == e),
                forall|r2: int, c2: int| in_board(r2, c2) ==> (#[trigger] assigned[r2][c2] <==> (in_some_cage(cages@, (r2 as usize, c2 as usize))
                    || cells@.contains((r2 as usize, c2 as usize)))),
            decreases target_size - cells@.len(),
        {
            let neighbors = unassigned_neighbors(&cells, &assigned);
            // Filter to neighbors whose digit isn't already in the cage
            let mut valid: Vec<(usize, usize)> = Vec::new();
            let mut t: usize = 0;
            while t < neighbors.len()
                invariant
                    t <= neighbors@.len(),
                    g == solution@,
                    is_complete_valid(g),
                    forall|i2: int| 0 <= i2 < neighbors@.len() ==> cell_in_board(#[trigger] neighbors@[i2]),
                    forall|i2: int| 0 <= i2 < valid@.len() ==> neighbors@.contains(#[trigger] valid@[i2])
                        && !(((digits_used >> digit_at(g, valid@[i2])) & 1u16) == 1u16),
                    forall|i2: int| 0 <= i2 < t && !(((digits_used >> digit_at(g, neighbors@[i2])) & 1u16) == 1u16)
                        ==> valid@.contains(#[trigger] neighbors@[i2]),
                decreases neighbors@.len() - t,
            {
                let (nr, nc) = neighbors[t];
                let d = solution.get(nr, nc);
                proof {
                    assert(in_board(nr as int, nc as int));
                    assert(1 <= d <= 9);
                    crate::digits::lemma_bit_test(digits_used, d);
                }
                let ghost before = valid@;
                if digits_used & (1u16 << d) == 0 {
                    valid.push((nr, nc));
                }
                proof {
                    assert forall|i2: int| 0 <= i2 < valid@.len() implies neighbors@.contains(#[trigger] valid@[i2])
                        && !(((digits_used >> digit_at(g, valid@[i2])) & 1u16) == 1u16) by {
                        if i2 < before.len() {
                            assert(valid@[i2] == before[i2]);
                        } else {
                            assert(neighbors@[t as int] == (nr, nc));
                        }
                    }
                    assert forall|i2: int| 0 <= i2 < t + 1 && !(((digits_used >> digit_at(g, neighbors@[i2])) & 1u16) == 1u16)
                        implies valid@.contains(#[trigger] neighbors@[i2]) by {
                        if i2 < t {
                            let j = choose|j: int| 0 <= j < before.len() && before[j] == neighbors@[i2];
                            assert(valid@[j] == before[j]);
                        } else {
                            assert(valid@[before.len() as int] == neighbors@[i2]);
                        }
                    }
                }
                t += 1;
            }

            let (nr, nc) = match choose_cell(&valid, rng) {
                Some(p) => p,
                None => break,
            };
            proof {
                let j = choose|j: int| 0 <= j < valid@.len() && valid@[j] == (nr, nc);
                assert(neighbors@.contains((nr, nc)));
                let j2 = choose|j2: int| 0 <= j2 < neighbors@.len() && neighbors@[j2] == (nr, nc);
                assert(cell_in_board(neighbors@[j2]));
                assert(exists|k: int| 0 <= k < cells@.len() && orth_adjacent(cells@[k], neighbors@[j2]));
                assert(exists|k: int| 0 <= k < cells@.len() && orth_adjacent(cells@[k], (nr, nc)));
            }
            let ghost cells0 = cells@;
            let ghost assigned1 = assigned;
            let ghost used0 = digits_used;
            let dn = solution.get(nr, nc);
            proof {
                assert(in_board(nr as int, nc as int));
                assert(1 <= dn <= 9);
                assert(!assigned1[nr as int][nc as int]);
            }
            assigned[nr][nc] = true;
            digits_used |= 1u16 << dn;
            cells.push((nr, nc));
            proof {
                assert forall|e: u8| e < 16 implies ((((digits_used >> e) & 1u16) == 1u16) <==> exists|k: int|
                    0 <= k < cells@.len() && digit_at(g, #[trigger] cells@[k]) == e) by {
                    assert(dn < 16 && e < 16 ==> ((((used0 | (1u16 << dn)) >> e) & 1u16 == 1u16) <==> (((used0 >> e) & 1u16 == 1u16) || e == dn))) by (bit_vector);
                    if e == dn {
                        assert(digit_at(g, cells@[cells0.len() as int]) == e);
                    }
                    if (((used0 >> e) & 1u16) == 1u16) {
                        let k = choose|k: int| 0 <= k < cells0.len() && digit_at(g, #[trigger] cells0[k]) == e;
                        assert(cells@[k] == cells0[k]);
                    }
                    if exists|k: int| 0 <= k < cells@.len() && digit_at(g, #[trigger] cells@[k]) == e {
                        let k = choose|k: int| 0 <= k < cells@.len() && digit_at(g, #[trigger] cells@[k]) == e;
                        if k < cells0.len() {
                            assert(cells@[k] == cells0[k]);
                        }
                    }
                }
                assert forall|k1: int, k2: int|
                    0 <= k1 < cells@.len() && 0 <= k2 < cells@.len() && k1 != k2 implies digit_at(g, #[trigger] cells@[k1])
                        != digit_at(g, #[trigger] cells@[k2]) by {
                    if k1 == cells0.len() {
                        assert(cells@[k2] == cells0[k2]);
                    } else if k2 == cells0.len() {
                        assert(cells@[k1] == cells0[k1]);
                    } else {
                        assert(cells@[k1] == cells0[k1]);
                        assert(cells@[k2] == cells0[k2]);
                    }
                }
                assert(cells@ == cells0.push((nr, nc)));
                lemma_adjacent_push(cells0, (nr, nc));
                assert forall|k: int| 0 <= k < cells@.len() implies !in_some_cage(cages@, #[trigger] cells@[k]) by {
                    if k < cells0.len() {
                        assert(cells@[k] == cells0[k]);
                    } else {
                        assert(!assigned1[nr as int][nc as int]);
                    }
                }
                assert forall|r2: int, c2: int| in_board(r2, c2) implies (#[trigger] assigned[r2][c2] <==> (in_some_cage(cages@, (r2 as usize, c2 as usize))
                    || cells@.contains((r2 as usize, c2 as usize)))) by {
                    let p = (r2 as usize, c2 as usize);
                    if r2 == nr && c2 == nc {
                        assert(cells@[cells0.len() as int] == p);
                    } else {
                        assert(assigned[r2][c2] == assigned1[r2][c2]);
                        if cells@.contains(p) {
                            let k = choose|k: int| 0 <= k < cells@.len() && cells@[k] == p;
                            assert(k < cells0.len());
                            assert(cells0[k] == p);
                        }
                        if cells0.contains(p) {
                            let k = choose|k: int| 0 <= k < cells0.len() && cells0[k] == p;
                            assert(cells@[k] == p);
                        }
                    }
                }
            }
        }

        let mut sum: u8 = 0;
        let mut k: usize = 0;
        while k < cells.len()
            invariant
                k <= cells@.len(),
                cells@.len() <= 5,
                g == solution@,
                is_complete_valid(g),
                forall|k2: int| 0 <= k2 < cells@.len() ==> cell_in_board(#[trigger] cells@[k2]),
                sum == cells_sum(g, cells@.subrange(0, k as int)),
                sum <= 9 * k,
            decreases cells@.len() - k,
        {
            let (cr, cc) = cells[k];
            proof {
                assert(cell_in_board(cells@[k as int]));
                assert(in_board(cr as int, cc as int));
                assert(cells@.subrange(0, k + 1).drop_last() =~= cells@.subrange(0, k as int));
            }
            sum += solution.get(cr, cc);
            k += 1;
        }
        proof {
            assert(cells@.subrange(0, cells@.len() as int) =~= cells@);
        }
        let ghost cages0 = cages@;
        let ghost cur = cells@;
        cages.push(Cage { cells, sum });
        proof {
            assert(cages@[cages0.len() as int].cells@ == cur);
            assert(good_cage(g, cur));
            assert forall|j: int| 0 <= j < cages@.len() implies good_cage(g, #[trigger] cages@[j].cells@)
                && cages@[j].sum == cells_sum(g, cages@[j].cells@) by {
                if j < cages0.len() {
                    assert(cages@[j] == cages0[j]);
                }
            }
            assert forall|p: (usize, usize)| in_some_cage(cages@, p) <==> (in_some_cage(cages0, p) || cur.contains(p)) by {
                if in_some_cage(cages@, p) {
                    let (j, k) = choose|j: int, k: int| 0 <= j < cages@.len() && 0 <= k < cages@[j].cells@.len() && #[trigger] cages@[j].cells@[k] == p;
                    if j < cages0.len() {
                        assert(cages0[j].cells@[k] == p);
                    } else {
                        assert(cur[k] == p);
                    }
                }
                if in_some_cage(cages0, p) {
                    let (j, k) = choose|j: int, k: int| 0 <= j < cages0.len() && 0 <= k < cages0[j].cells@.len() && #[trigger] cages0[j].cells@[k] == p;
                    assert(cages@[j] == cages0[j]);
                    assert(cages@[j].cells@[k] == p);
                }
                if cur.contains(p) {
                    let k = choose|k: int| 0 <= k < cur.len() && cur[k] == p;
                    assert(cages@[cages0.len() as int].cells@[k] == p);
                }
            }
            assert(cages_disjoint(cages@)) by {
                assert forall|j1: int, j2: int, k1: int, k2: int|
                    0 <= j1 < cages@.len() && 0 <= j2 < cages@.len() && j1 != j2 && 0 <= k1 < cages@[j1].cells@.len() && 0 <= k2
                        < cages@[j2].cells@.len() implies #[trigger] cages@[j1].cells@[k1] != #[trigger] cages@[j2].cells@[k2] by {
                    if j1 < cages0.len() && j2 < cages0.len() {
                        assert(cages@[j1] == cages0[j1]);
                        assert(cages@[j2] == cages0[j2]);
                    } else if j1 < cages0.len() {
                        assert(cages@[j1] == cages0[j1]);
                        assert(!in_some_cage(cages0, cur[k2]));
                        assert(cages0[j1].cells@[k1] == cages@[j1].cells@[k1]);
                    } else {
                        assert(cages@[j2] == cages0[j2]);
                        assert(!in_some_cage(cages0, cur[k1]));
                        assert(cages0[j2].cells@[k2] == cages@[j2].cells@[k2]);
                    }
                }
            }
            assert forall|i2: int| 0 <= i2 < i + 1 implies assigned[#[trigger] positions@[i2].0 as int][positions@[i2].1 as int] by {
                if i2 == i {
                    assert(cur[0] == (r, c));
                    assert(cur.contains((r, c)));
                }
            }
        }
        i += 1;
    }
    proof {
        assert forall|r2: int, c2: int| in_board(r2, c2) implies #[trigger] in_some_cage(cages@, (r2 as usize, c2 as usize)) by {
            let p = (r2 as usize, c2 as usize);
            let j = choose|j: int| 0 <= j < positions@.len() && positions@[j] == p;
            assert(assigned[positions@[j].0 as int][positions@[j].1 as int]);
        }
    }
    cages
}

/// Cage partitions tried on one filled grid before a fresh grid is drawn.
pub const PARTITIONS_PER_GRID: usize = 10;

/// Rounds (filled grids) a killer generation run tries before it gives up.
pub const KILLER_TOTAL_ATTEMPTS: u32 = 25;

/// Cages of `generate_cages` split the board.
proof fn lemma_good_cages_partition(g: Seq<Seq<u8>>, cages: Seq<Cage>)
    requires
        forall|j: int| 0 <= j < cages.len() ==> good_cage(g, #[trigger] cages[j].cells@),
        cages_disjoint(cages),
        forall|r: int, c: int| in_board(r, c) ==> #[trigger] in_some_cage(cages, (r as usize, c as usize)),
    ensures
        is_partition(cages),
        no_empty_cage(cages),
{
    assert forall|ci: int, k: int| 0 <= ci < cages.len() && 0 <= k < cages[ci].cells@.len()
        implies cell_in_board(#[trigger] cages[ci].cells@[k]) by {
        assert(good_cage(g, cages[ci].cells@));
    }
    assert forall|ci: int, k1: int, k2: int|
        0 <= ci < cages.len() && 0 <= k1 < cages[ci].cells@.len() && 0 <= k2 < cages[ci].cells@.len() && k1 != k2
            implies #[trigger] cages[ci].cells@[k1] != #[trigger] cages[ci].cells@[k2] by {
        assert(good_cage(g, cages[ci].cells@));
        assert(digit_at(g, cages[ci].cells@[k1]) != digit_at(g, cages[ci].cells@[k2]));
    }
    assert forall|ci: int| 0 <= ci < cages.len() implies #[trigger] cages[ci].cells@.len() > 0 by {
        assert(good_cage(g, cages[ci].cells@));
    }
}

/// Generate a killer puzzle: up to `rounds` times, fill a grid and try up
/// to `PARTITIONS_PER_GRID` random cage partitions of it, keeping the first
/// whose killer puzzle (an empty grid with the cages) has exactly one
/// solution. `None` when no round found one.
pub fn generate_killer_puzzle(_difficulty: Difficulty, rng: &mut StdRng, rounds: u32) -> (res: Option<PuzzleState>)
    ensures
        res matches Some(p) ==> {
            &&& is_complete_valid(p.solution@)
            &&& no_givens(p.grid@)
            &&& is_board(p.grid@)
            &&& forall|r: int, c: int| in_board(r, c) ==> !#[trigger] p.givens[r][c]
            &&& p.cages matches Some(cages) && {
                &&& forall|j: int| 0 <= j < cages@.len() ==> good_cage(p.solution@, #[trigger] cages@[j].cells@)
                    && cages@[j].sum == cells_sum(p.solution@, cages@[j].cells@)
                &&& is_partition(cages@)
                &&& is_killer_solution_of(p.grid@, cages@, p.solution@)
                &&& forall|s: Seq<Seq<u8>>| is_killer_solution_of(p.grid@, cages@, s) ==> s == p.solution@
            }
        },
{
    let mut round: u32 = 0;
    while round < rounds
        decreases rounds - round,
    {
        let mut solution = Grid::empty();
        proof {
            lemma_pattern_board_valid();
            assert(is_solution_of(solution@, pattern_board()));
        }
        let filled = fill_grid(&mut solution, rng);
        assert(filled);

        // Try multiple cage partitions per solution before regenerating
        let mut attempt: usize = 0;
        while attempt < PARTITIONS_PER_GRID
            invariant
                is_complete_valid(solution@),
            decreases PARTITIONS_PER_GRID - attempt,
        {
            let cages = generate_cages(&solution, rng);
            proof {
                lemma_good_cages_partition(solution@, cages@);
            }
            let empty = Grid::empty();
            let result = count_solutions_killer(&empty, &cages, 2, 0);
            if let SolverResult::Complete(1) = result {
                proof {
                    assert(no_givens(empty@));
                    assert(is_solution_of(empty@, solution@));
                    assert forall|ci: int| 0 <= ci < cages@.len() implies cage_ok(#[trigger] cages@[ci].cells@, cages@[ci].sum as int, solution@) by {
                        assert(good_cage(solution@, cages@[ci].cells@));
                    }
                    lemma_killer_count_one_means_unique(empty@, cages@, 2, 1);
                }
                return Some(PuzzleState { grid: empty, givens: [[false; 9]; 9], cages: Some(cages), solution });
            }
            attempt += 1;
        }
        round += 1;
    }
    None
}

} // verus!
