//! A game in progress: the player's board, hints derived from the solution,
//! error counting, and what each key does in play and in the menu.
use vstd::prelude::*;
use crate::generator::Difficulty;
use crate::grid::{Cage, CageRenderInfo, GameMode, Grid, PuzzleState, cell_in_board, digit_at};
use crate::rules::{digits_in_range, in_board, placement_ok};

verus! {

/// Last cage among the first `n` that holds (r, c), if any.
pub open spec fn cage_of(cages: Seq<Cage>, r: int, c: int, n: int) -> Option<int>
    decreases n,
{
    if n <= 0 {
        None
    } else if cages[n - 1].cells@.contains((r as usize, c as usize)) {
        Some(n - 1)
    } else {
        cage_of(cages, r, c, n - 1)
    }
}

/// Digits placed on the first `n` cells, as a bit set.
pub open spec fn used_digits(g: Seq<Seq<u8>>, cells: Seq<(usize, usize)>, n: int) -> u16
    decreases n,
{
    if n <= 0 {
        0
    } else if digit_at(g, cells[n - 1]) != 0 {
        used_digits(g, cells, n - 1) | (1u16 << digit_at(g, cells[n - 1]))
    } else {
        used_digits(g, cells, n - 1)
    }
}

/// Sum of the digits placed on the first `n` cells.
pub open spec fn placed_sum(g: Seq<Seq<u8>>, cells: Seq<(usize, usize)>, n: int) -> int
    decreases n,
{
    if n <= 0 {
        0
    } else {
        placed_sum(g, cells, n - 1) + digit_at(g, cells[n - 1])
    }
}

/// Number of empty cells among the first `n`.
pub open spec fn empty_cells(g: Seq<Seq<u8>>, cells: Seq<(usize, usize)>, n: int) -> int
    decreases n,
{
    if n <= 0 {
        0
    } else {
        empty_cells(g, cells, n - 1) + if digit_at(g, cells[n - 1]) == 0 {
            1int
        } else {
            0int
        }
    }
}

/// `sum - placed` computed in a byte: it wraps below zero.
pub open spec fn byte_rest(sum: int, placed: int) -> int {
    (sum - placed) % 256
}

/// For a cell in a cage (killer mode): the digits placed in the cage, what
/// its sum still needs (in a byte, wrapping), and its number of empty cells.
pub open spec fn cell_cage_stats(g: Seq<Seq<u8>>, cages: Option<Vec<Cage>>, r: int, c: int) -> Option<(u16, int, int)> {
    match cages {
        None => None,
        Some(cs) => match cage_of(cs@, r, c, cs@.len() as int) {
            None => None,
            Some(ci) => {
                let cells = cs@[ci].cells@;
                let n = cells.len() as int;
                Some((used_digits(g, cells, n), byte_rest(cs@[ci].sum as int, placed_sum(g, cells, n)), empty_cells(g, cells, n)))
            },
        },
    }
}

/// `d` may go in the empty cell (r, c): no peer holds it and, in killer mode,
/// its cage does not hold it yet and, if the cell is the cage's last empty
/// one, `d` is what the cage's sum still needs.
pub open spec fn digit_allowed(g: Seq<Seq<u8>>, cages: Option<Vec<Cage>>, r: int, c: int, d: u8) -> bool {
    &&& placement_ok(g, r, c, d)
    &&& match cell_cage_stats(g, cages, r, c) {
        None => true,
        Some((used, rest, empty)) => used & (1u16 << d) == 0 && (empty > 1 || d == rest),
    }
}

/// Exactly one digit may go in (r, c).
pub open spec fn single_option(g: Seq<Seq<u8>>, cages: Option<Vec<Cage>>, r: int, c: int) -> bool {
    exists|d: u8| 1 <= d <= 9 && digit_allowed(g, cages, r, c, d)
        && forall|d2: u8| 1 <= d2 <= 9 && digit_allowed(g, cages, r, c, d2) ==> d2 == d
}

/// Cell number `k` (row-major) is one the player still has to fill.
pub open spec fn pending_cell(g: Seq<Seq<u8>>, givens: [[bool; 9]; 9], k: int) -> bool {
    g[k / 9][k % 9] == 0 && !givens[k / 9][k % 9]
}

/// The solution's digit for each pending cell among the first `n`, in
/// reading order.
pub open spec fn pending_hints(g: Seq<Seq<u8>>, givens: [[bool; 9]; 9], sol: Seq<Seq<u8>>, n: int) -> Seq<(usize, usize, u8)>
    decreases n,
{
    if n <= 0 {
        Seq::empty()
    } else if pending_cell(g, givens, n - 1) {
        pending_hints(g, givens, sol, n - 1).push((((n - 1) / 9) as usize, ((n - 1) % 9) as usize, sol[(n - 1) / 9][(n - 1) % 9]))
    } else {
        pending_hints(g, givens, sol, n - 1)
    }
}

/// The pending hints among the first `n` cells whose cell has a single option.
pub open spec fn obvious_hints_upto(g: Seq<Seq<u8>>, givens: [[bool; 9]; 9], sol: Seq<Seq<u8>>, cages: Option<Vec<Cage>>, n: int) -> Seq<(usize, usize, u8)>
    decreases n,
{
    if n <= 0 {
        Seq::empty()
    } else if pending_cell(g, givens, n - 1) && single_option(g, cages, (n - 1) / 9, (n - 1) % 9) {
        obvious_hints_upto(g, givens, sol, cages, n - 1).push((((n - 1) / 9) as usize, ((n - 1) % 9) as usize, sol[(n - 1) / 9][(n - 1) % 9]))
    } else {
        obvious_hints_upto(g, givens, sol, cages, n - 1)
    }
}

/// Number of cells among the first `n` holding a digit other than the solution's,
/// givens aside.
pub open spec fn wrong_cells(g: Seq<Seq<u8>>, givens: [[bool; 9]; 9], sol: Seq<Seq<u8>>, n: int) -> int
    decreases n,
{
    if n <= 0 {
        0
    } else {
        wrong_cells(g, givens, sol, n - 1) + if g[(n - 1) / 9][(n - 1) % 9] != 0 && !givens[(n - 1) / 9][(n - 1) % 9]
            && g[(n - 1) / 9][(n - 1) % 9] != sol[(n - 1) / 9][(n - 1) % 9] {
            1int
        } else {
            0int
        }
    }
}

/// The cage lies on the board.
pub open spec fn cage_on_board(cage: Cage) -> bool {
    forall|k: int| 0 <= k < cage.cells@.len() ==> cell_in_board(#[trigger] cage.cells@[k])
}

/// Every cage lies on the board.
pub open spec fn cages_ok(cages: Option<Vec<Cage>>) -> bool {
    match cages {
        None => true,
        Some(cs) => forall|ci: int| 0 <= ci < cs@.len() ==> cage_on_board(#[trigger] cs@[ci]),
    }
}

/// The cage found for a cell is one of the cages, and holds the cell.
proof fn lemma_cage_of_range(cages: Seq<Cage>, r: int, c: int, n: int)
    ensures
        cage_of(cages, r, c, n) matches Some(i) ==> 0 <= i < n && cages[i].cells@.contains((r as usize, c as usize)),
    decreases n,
{
    if n > 0 {
        lemma_cage_of_range(cages, r, c, n - 1);
    }
}

/// A puzzle being played.
pub struct PlayState {
    pub grid: Grid,
    pub givens: [[bool; 9]; 9],
    pub solution: Grid,
    pub cages: Option<Vec<Cage>>,
    pub cursor_row: usize,
    pub cursor_col: usize,
    pub obvious_hints: Vec<(usize, usize, u8)>,
    pub all_hints: Vec<(usize, usize, u8)>,
    pub hint_index: usize,
    pub show_non_obvious: bool,
    pub show_errors: bool,
}

/// A key pressed while playing.
#[derive(Clone, Copy, Debug, PartialEq, Eq, Structural)]
pub enum PlayKey {
    Back,
    Up,
    Down,
    Left,
    Right,
    Digit(u8),
    Clear,
    Hint,
    ToggleErrors,
    Fill,
    Other,
}

/// What the game asks of the program after a key.
#[derive(Clone, Copy, Debug, PartialEq, Eq, Structural)]
pub enum PlayOutcome {
    Stay,
    BackToMenu,
}

impl PlayState {
    /// The hints shown: all pending cells once the player asked past the obvious ones.
    pub open spec fn active_spec(&self) -> Seq<(usize, usize, u8)> {
        if self.show_non_obvious {
            self.all_hints@
        } else {
            self.obvious_hints@
        }
    }

    /// The hint lists describe the current board.
    pub open spec fn hints_fresh(&self) -> bool {
        &&& self.all_hints@ == pending_hints(self.grid@, self.givens, self.solution@, 81)
        &&& self.obvious_hints@ == obvious_hints_upto(self.grid@, self.givens, self.solution@, self.cages, 81)
    }

    /// The cursor is on the board, digits are in range, cages fit, the hints
    /// describe the board and the hint index points into the shown hints.
    pub open spec fn wf(&self) -> bool {
        &&& self.cursor_row < 9
        &&& self.cursor_col < 9
        &&& digits_in_range(self.grid@)
        &&& digits_in_range(self.solution@)
        &&& cages_ok(self.cages)
        &&& self.hints_fresh()
        &&& (self.hint_index == 0 || self.hint_index < self.active_spec().len())
    }

    /// No puzzle yet: an empty board, the cursor in the top-left corner.
    pub fn new() -> (st: PlayState)
        ensures
            st.cursor_row == 0,
            st.cursor_col == 0,
            st.cages is None,
            st.all_hints@.len() == 0,
            st.obvious_hints@.len() == 0,
            !st.show_errors,
            forall|r: int, c: int| in_board(r, c) ==> st.grid@[r][c] == 0 && !st.givens[r][c],
    {
        PlayState {
            grid: Grid::empty(),
            givens: [[false; 9]; 9],
            solution: Grid::empty(),
            cages: None,
            cursor_row: 0,
            cursor_col: 0,
            obvious_hints: Vec::new(),
            all_hints: Vec::new(),
            hint_index: 0,
            show_non_obvious: false,
            show_errors: false,
        }
    }

    /// Take a new puzzle to play, keeping the cursor, and compute its hints.
    /// Refused (false, nothing changed) when a cell of the board or of the
    /// solution is out of 0..=9, or a cage leaves the board.
    pub fn load(&mut self, puzzle: PuzzleState) -> (ok: bool)
        requires
            old(self).cursor_row < 9,
            old(self).cursor_col < 9,
        ensures
            ok == (digits_in_range(puzzle.grid@) && digits_in_range(puzzle.solution@) && cages_ok(puzzle.cages)),
            ok ==> final(self).wf() && final(self).grid == puzzle.grid && final(self).givens == puzzle.givens
                && final(self).solution == puzzle.solution && final(self).cages == puzzle.cages,
            !ok ==> *final(self) == *old(self),
    {
        if !grid_in_range(&puzzle.grid) || !grid_in_range(&puzzle.solution) {
            return false;
        }
        let fits = match &puzzle.cages {
            Some(cages) => all_cages_on_board(cages),
            None => true,
        };
        if !fits {
            return false;
        }
        self.grid = puzzle.grid;
        self.givens = puzzle.givens;
        self.solution = puzzle.solution;
        self.cages = puzzle.cages;
        self.refresh_hints();
        true
    }

    /// Recompute the hints for the current board: every pending cell with
    /// the solution's digit, and separately those with a single option.
    pub fn refresh_hints(&mut self)
        requires
            digits_in_range(old(self).grid@),
            cages_ok(old(self).cages),
        ensures
            final(self).hints_fresh(),
            final(self).hint_index == 0,
            !final(self).show_non_obvious,
            final(self).grid == old(self).grid,
            final(self).givens == old(self).givens,
            final(self).solution == old(self).solution,
            final(self).cages == old(self).cages,
            final(self).cursor_row == old(self).cursor_row,
            final(self).cursor_col == old(self).cursor_col,
            final(self).show_errors == old(self).show_errors,
    {
        self.obvious_hints.clear();
        self.all_hints.clear();
        self.show_non_obvious = false;

        // Build cell-to-cage lookup for killer mode
        let cage_lookup: Option<[[Option<usize>; 9]; 9]> = match &self.cages {
            Some(cages) => Some(build_cage_lookup(cages)),
            None => None,
        };

        let ghost g = self.grid@;
        let mut r: usize = 0;
        while r < 9
            invariant
                r <= 9,
                self.grid@ == g,
                digits_in_range(g),
                cages_ok(self.cages),
                self.cages matches Some(cs) ==> cage_lookup matches Some(lk) && lookup_matches(lk, cs@),
                self.all_hints@ == pending_hints(g, self.givens, self.solution@, 9 * r),
                self.obvious_hints@ == obvious_hints_upto(g, self.givens, self.solution@, self.cages, 9 * r),
                self.grid == old(self).grid,
                self.givens == old(self).givens,
                self.solution == old(self).solution,
                self.cages == old(self).cages,
                self.cursor_row == old(self).cursor_row,
                self.cursor_col == old(self).cursor_col,
                self.show_errors == old(self).show_errors,
                !self.show_non_obvious,
            decreases 9 - r,
        {
            let mut c: usize = 0;
            while c < 9
                invariant
                    r < 9,
                    c <= 9,
                    self.grid@ == g,
                    digits_in_range(g),
                    cages_ok(self.cages),
                    self.cages matches Some(cs) ==> cage_lookup matches Some(lk) && lookup_matches(lk, cs@),
                    self.all_hints@ == pending_hints(g, self.givens, self.solution@, 9 * r + c),
                    self.obvious_hints@ == obvious_hints_upto(g, self.givens, self.solution@, self.cages, 9 * r + c),
                    self.grid == old(self).grid,
                    self.givens == old(self).givens,
                    self.solution == old(self).solution,
                    self.cages == old(self).cages,
                    self.cursor_row == old(self).cursor_row,
                    self.cursor_col == old(self).cursor_col,
                    self.show_errors == old(self).show_errors,
                    !self.show_non_obvious,
                decreases 9 - c,
            {
                let ghost k = 9 * r + c;
                proof {
                    assert(k / 9 == r && k % 9 == c);
                }
                if self.grid.get(r, c) == 0 && !self.givens[r][c] {
                    let val = self.solution.get(r, c);
                    self.all_hints.push((r, c, val));

                    let cands = self.grid.candidates(r, c);

                    // Further constrain by cage if in killer mode
                    let stats: Option<(u16, u8, usize)> = match &cage_lookup {
                        Some(lookup) => match lookup[r][c] {
                            Some(ci) => match &self.cages {
                                Some(cages) => {
                                    proof {
                                        assert(in_board(r as int, c as int));
                                        lemma_cage_of_range(cages@, r as int, c as int, cages@.len() as int);
                                        assert(cage_on_board(cages@[ci as int]));
                                    }
                                    Some(cage_stats(&self.grid, &cages[ci]))
                                },
                                None => None,
                            },
                            None => None,
                        },
                        None => None,
                    };
                    proof {
                        assert(in_board(r as int, c as int));
                        match stats {
                            Some((u, rs, e)) => {
                                assert(cell_cage_stats(g, self.cages, r as int, c as int) == Some((u, rs as int, e as int)));
                            },
                            None => {
                                assert(cell_cage_stats(g, self.cages, r as int, c as int) is None);
                            },
                        }
                    }
                    let mut options: Vec<u8> = Vec::new();
                    let mut i: usize = 0;
                    while i < cands.len()
                        invariant
                            r < 9,
                            c < 9,
                            g[r as int][c as int] == 0,
                            self.grid@ == g,
                            stats matches Some((u, rs, e)) ==> cell_cage_stats(g, self.cages, r as int, c as int) == Some((u, rs as int, e as int)),
                            stats is None ==> cell_cage_stats(g, self.cages, r as int, c as int) is None,
                            i <= cands@.len(),
                            forall|j: int| 0 <= j < cands@.len() ==> 1 <= #[trigger] cands@[j] <= 9 && placement_ok(g, r as int, c as int, cands@[j]),
                            forall|j1: int, j2: int| 0 <= j1 < j2 < cands@.len() ==> cands@[j1] < cands@[j2],
                            forall|j: int| 0 <= j < options@.len() ==> 1 <= #[trigger] options@[j] <= 9
                                && digit_allowed(g, self.cages, r as int, c as int, options@[j]),
                            forall|j1: int, j2: int| 0 <= j1 < j2 < options@.len() ==> options@[j1] < options@[j2],
                            forall|j: int| 0 <= j < options@.len() ==> exists|j2: int| 0 <= j2 < i && #[trigger] options@[j] == cands@[j2],
                            forall|j: int| 0 <= j < i && digit_allowed(g, self.cages, r as int, c as int, cands@[j])
                                ==> #[trigger] options@.contains(cands@[j]),
                        decreases cands@.len() - i,
                    {
                        let d = cands[i];
                        let keep = match stats {
                            Some((used, remaining_sum, empty_count)) => used & (1u16 << d) == 0
                                && (empty_count > 1 || d == remaining_sum),
                            None => true,
                        };
                        let ghost before = options@;
                        if keep {
                            options.push(d);
                        }
                        proof {
                            assert(keep ==> options@ == before.push(d));
                            assert(!keep ==> options@ == before);
                            assert(keep == digit_allowed(g, self.cages, r as int, c as int, d));
                            assert forall|j: int| 0 <= j < options@.len() implies exists|j2: int| 0 <= j2 < i + 1 && #[trigger] options@[j] == cands@[j2] by {
                                if j < before.len() {
                                    assert(options@[j] == before[j]);
                                    let j2 = choose|j2: int| 0 <= j2 < i && before[j] == cands@[j2];
                                } else {
                                    assert(options@[j] == cands@[i as int]);
                                }
                            }
                            assert forall|j1: int, j2: int| 0 <= j1 < j2 < options@.len() implies options@[j1] < options@[j2] by {
                                if j2 == before.len() && keep {
                                    assert(options@[j1] == before[j1]);
                                    let j3 = choose|j3: int| 0 <= j3 < i && before[j1] == cands@[j3];
                                } else {
                                    assert(options@[j1] == before[j1]);
                                    assert(options@[j2] == before[j2]);
                                }
                            }
                            assert forall|j: int| 0 <= j < i + 1 && digit_allowed(g, self.cages, r as int, c as int, cands@[j])
                                implies #[trigger] options@.contains(cands@[j]) by {
                                if j < i {
                                    assert(before.contains(cands@[j]));
                                    let j2 = choose|j2: int| 0 <= j2 < before.len() && before[j2] == cands@[j];
                                    assert(options@[j2] == before[j2]);
                                } else {
                                    assert(options@[before.len() as int] == cands@[j]);
                                }
                            }
                        }
                        i += 1;
                    }
                    proof {
                        lemma_single_option(g, self.cages, r as int, c as int, cands@, options@);
                    }

                    if options.len() == 1 {
                        self.obvious_hints.push((r, c, val));
                    }
                }
                c += 1;
            }
            r += 1;
        }
        self.hint_index = 0;
    }

    /// The hints currently shown.
    pub fn active_hints(&self) -> (hints: &Vec<(usize, usize, u8)>)
        ensures
            hints@ == self.active_spec(),
    {
        if self.show_non_obvious {
            &self.all_hints
        } else {
            &self.obvious_hints
        }
    }

    /// Number of cells the player filled with a digit other than the solution's.
    pub fn error_count(&self) -> (n: usize)
        ensures
            n == wrong_cells(self.grid@, self.givens, self.solution@, 81),
    {
        let mut n: usize = 0;
        let mut r: usize = 0;
        while r < 9
            invariant
                r <= 9,
                n == wrong_cells(self.grid@, self.givens, self.solution@, 9 * r),
                n <= 9 * r,
            decreases 9 - r,
        {
            let mut c: usize = 0;
            while c < 9
                invariant
                    r < 9,
                    c <= 9,
                    n == wrong_cells(self.grid@, self.givens, self.solution@, 9 * r + c),
                    n <= 9 * r + c,
                decreases 9 - c,
            {
                let ghost k = 9 * r + c;
                proof {
                    assert(k / 9 == r && k % 9 == c);
                }
                let val = self.grid.get(r, c);
                if val != 0 && !self.givens[r][c] && val != self.solution.get(r, c) {
                    n += 1;
                }
                c += 1;
            }
            r += 1;
        }
        n
    }

    /// Apply a key pressed while playing.
    pub fn handle_play_key(&mut self, key: PlayKey) -> (outcome: PlayOutcome)
        requires
            old(self).wf(),
        ensures
            final(self).wf(),
            outcome == (if key == PlayKey::Back { PlayOutcome::BackToMenu } else { PlayOutcome::Stay }),
            final(self).givens == old(self).givens,
            final(self).solution == old(self).solution,
            final(self).cages == old(self).cages,
            key == PlayKey::Up ==> final(self).cursor_row == (if old(self).cursor_row > 0 { old(self).cursor_row - 1 } else { 0 })
                && final(self).cursor_col == old(self).cursor_col,
            key == PlayKey::Down ==> final(self).cursor_row == (if old(self).cursor_row < 8 { old(self).cursor_row + 1 } else { 8 })
                && final(self).cursor_col == old(self).cursor_col,
            key == PlayKey::Left ==> final(self).cursor_col == (if old(self).cursor_col > 0 { old(self).cursor_col - 1 } else { 0 })
                && final(self).cursor_row == old(self).cursor_row,
            key == PlayKey::Right ==> final(self).cursor_col == (if old(self).cursor_col < 8 { old(self).cursor_col + 1 } else { 8 })
                && final(self).cursor_row == old(self).cursor_row,
            key matches PlayKey::Digit(v) ==> {
                let (r, c) = (old(self).cursor_row as int, old(self).cursor_col as int);
                if 1 <= v <= 9 && !old(self).givens[r][c] {
                    final(self).grid@ == old(self).grid@.update(r, old(self).grid@[r].update(c, v))
                        && final(self).hint_index == 0 && !final(self).show_non_obvious
                } else {
                    *final(self) == *old(self)
                }
            },
            key == PlayKey::Clear ==> {
                let (r, c) = (old(self).cursor_row as int, old(self).cursor_col as int);
                if !old(self).givens[r][c] {
                    final(self).grid@ == old(self).grid@.update(r, old(self).grid@[r].update(c, 0))
                        && final(self).hint_index == 0 && !final(self).show_non_obvious
                } else {
                    *final(self) == *old(self)
                }
            },
            key == PlayKey::Hint ==> {
                let act = old(self).active_spec();
                &&& final(self).grid == old(self).grid
                &&& if act.len() > 0 {
                    &&& final(self).hint_index == (old(self).hint_index + 1) % (act.len() as int)
                    &&& final(self).show_non_obvious == old(self).show_non_obvious
                    &&& final(self).cursor_row == act[final(self).hint_index as int].0
                    &&& final(self).cursor_col == act[final(self).hint_index as int].1
                } else if !old(self).show_non_obvious && old(self).all_hints@.len() > 0 {
                    &&& final(self).show_non_obvious
                    &&& final(self).hint_index == 0
                    &&& final(self).cursor_row == old(self).all_hints@[0].0
                    &&& final(self).cursor_col == old(self).all_hints@[0].1
                } else {
                    &&& final(self).hint_index == old(self).hint_index
                    &&& final(self).show_non_obvious == old(self).show_non_obvious
                    &&& final(self).cursor_row == old(self).cursor_row
                    &&& final(self).cursor_col == old(self).cursor_col
                }
            },
            key == PlayKey::ToggleErrors ==> final(self).show_errors == !old(self).show_errors
                && final(self).grid == old(self).grid,
            key == PlayKey::Fill ==> {
                let act = old(self).active_spec();
                if old(self).hint_index < act.len() {
                    let (r, c, v) = act[old(self).hint_index as int];
                    final(self).grid@ == old(self).grid@.update(r as int, old(self).grid@[r as int].update(c as int, v))
                        && final(self).hint_index == 0 && !final(self).show_non_obvious
                } else {
                    *final(self) == *old(self)
                }
            },
            key == PlayKey::Back || key == PlayKey::Other ==> *final(self) == *old(self),
            forall|r: int, c: int| in_board(r, c) && old(self).givens[r][c] ==> #[trigger] final(self).grid@[r][c] == old(self).grid@[r][c],
            key == PlayKey::Up || key == PlayKey::Down || key == PlayKey::Left || key == PlayKey::Right
                ==> *final(self) == (PlayState { cursor_row: final(self).cursor_row, cursor_col: final(self).cursor_col, ..*old(self) }),
            key == PlayKey::ToggleErrors ==> *final(self) == (PlayState { show_errors: !old(self).show_errors, ..*old(self) }),
            key == PlayKey::Hint ==> *final(self) == (PlayState {
                cursor_row: final(self).cursor_row,
                cursor_col: final(self).cursor_col,
                hint_index: final(self).hint_index,
                show_non_obvious: final(self).show_non_obvious,
                ..*old(self)
            }),
            key matches PlayKey::Digit(_) || key == PlayKey::Clear || key == PlayKey::Fill
                ==> final(self).cursor_row == old(self).cursor_row && final(self).cursor_col == old(self).cursor_col
                    && final(self).show_errors == old(self).show_errors,
    {
        proof {
            lemma_hints_on_board(self.grid@, self.givens, self.solution@, self.cages, 81);
        }
        match key {
            PlayKey::Back => {
                return PlayOutcome::BackToMenu;
            },
            PlayKey::Up => {
                if self.cursor_row > 0 {
                    self.cursor_row -= 1;
                }
            },
            PlayKey::Down => {
                if self.cursor_row < 8 {
                    self.cursor_row += 1;
                }
            },
            PlayKey::Left => {
                if self.cursor_col > 0 {
                    self.cursor_col -= 1;
                }
            },
            PlayKey::Right => {
                if self.cursor_col < 8 {
                    self.cursor_col += 1;
                }
            },
            PlayKey::Digit(val) => {
                if 1 <= val && val <= 9 && !self.givens[self.cursor_row][self.cursor_col] {
                    self.grid.set(self.cursor_row, self.cursor_col, val);
                    proof {
                        lemma_set_in_range(old(self).grid@, self.grid@, self.cursor_row as int, self.cursor_col as int, val);
                    }
                    self.refresh_hints();
                }
            },
            PlayKey::Clear => {
                if !self.givens[self.cursor_row][self.cursor_col] {
                    self.grid.set(self.cursor_row, self.cursor_col, 0);
                    proof {
                        lemma_set_in_range(old(self).grid@, self.grid@, self.cursor_row as int, self.cursor_col as int, 0);
                    }
                    self.refresh_hints();
                }
            },
            PlayKey::Hint => {
                let len = self.active_hints().len();
                if len > 0 {
                    self.hint_index = (self.hint_index + 1) % len;
                    let (r, c, _) = self.active_hints()[self.hint_index];
                    self.cursor_row = r;
                    self.cursor_col = c;
                } else if !self.show_non_obvious && self.all_hints.len() > 0 {
                    // No obvious hints — switch to all hints
                    self.show_non_obvious = true;
                    self.hint_index = 0;
                    let (r, c, _) = self.all_hints[0];
                    self.cursor_row = r;
                    self.cursor_col = c;
                }
            },
            PlayKey::ToggleErrors => {
                self.show_errors = !self.show_errors;
            },
            PlayKey::Fill => {
                if self.hint_index < self.active_hints().len() {
                    let (r, c, val) = self.active_hints()[self.hint_index];
                    self.grid.set(r, c, val);
                    proof {
                        lemma_set_in_range(old(self).grid@, self.grid@, r as int, c as int, val);
                    }
                    self.refresh_hints();
                }
            },
            PlayKey::Other => {},
        }
        PlayOutcome::Stay
    }
}

/// Every cell holds 0..=9.
pub fn grid_in_range(grid: &Grid) -> (ok: bool)
    ensures
        ok == digits_in_range(grid@),
{
    proof {
        grid.lemma_is_board();
    }
    let mut r: usize = 0;
    while r < 9
        invariant
            r <= 9,
            crate::rules::is_board(grid@),
            forall|r2: int, c2: int| in_board(r2, c2) && r2 < r ==> #[trigger] grid@[r2][c2] <= 9,
        decreases 9 - r,
    {
        let mut c: usize = 0;
        while c < 9
            invariant
                r < 9,
                c <= 9,
                forall|r2: int, c2: int| in_board(r2, c2) && (r2 < r || (r2 == r && c2 < c)) ==> #[trigger] grid@[r2][c2] <= 9,
            decreases 9 - c,
        {
            if grid.get(r, c) > 9 {
                return false;
            }
            c += 1;
        }
        r += 1;
    }
    true
}

/// Whether every cage has a cell and lies on the board: what drawing the
/// cages needs.
pub fn cages_renderable(cages: &[Cage]) -> (ok: bool)
    ensures
        ok == forall|ci: int| 0 <= ci < cages@.len() ==> #[trigger] cages@[ci].cells@.len() > 0 && cage_on_board(cages@[ci]),
{
    let mut i: usize = 0;
    while i < cages.len()
        invariant
            i <= cages@.len(),
            forall|ci: int| 0 <= ci < i ==> #[trigger] cages@[ci].cells@.len() > 0 && cage_on_board(cages@[ci]),
        decreases cages@.len() - i,
    {
        let cells = &cages[i].cells;
        if cells.len() == 0 {
            return false;
        }
        let mut k: usize = 0;
        while k < cells.len()
            invariant
                i < cages@.len(),
                cells@ == cages@[i as int].cells@,
                k <= cells@.len(),
                forall|k2: int| 0 <= k2 < k ==> cell_in_board(#[trigger] cells@[k2]),
            decreases cells@.len() - k,
        {
            let (r, c) = cells[k];
            if r >= 9 || c >= 9 {
                proof {
                    assert(!cell_in_board(cells@[k as int]));
                    assert(!cage_on_board(cages@[i as int]));
                }
                return false;
            }
            k += 1;
        }
        i += 1;
    }
    true
}

/// Every cage lies on the board.
fn all_cages_on_board(cages: &Vec<Cage>) -> (ok: bool)
    ensures
        ok == forall|ci: int| 0 <= ci < cages@.len() ==> cage_on_board(#[trigger] cages@[ci]),
{
    let mut i: usize = 0;
    while i < cages.len()
        invariant
            i <= cages@.len(),
            forall|ci: int| 0 <= ci < i ==> cage_on_board(#[trigger] cages@[ci]),
        decreases cages@.len() - i,
    {
        let cells = &cages[i].cells;
        let mut k: usize = 0;
        while k < cells.len()
            invariant
                i < cages@.len(),
                cells@ == cages@[i as int].cells@,
                k <= cells@.len(),
                forall|k2: int| 0 <= k2 < k ==> cell_in_board(#[trigger] cells@[k2]),
            decreases cells@.len() - k,
        {
            let (r, c) = cells[k];
            if r >= 9 || c >= 9 {
                proof {
                    assert(!cell_in_board(cells@[k as int]));
                    assert(!cage_on_board(cages@[i as int]));
                }
                return false;
            }
            k += 1;
        }
        i += 1;
    }
    true
}

/// The background of a cell: its cage's colour (killer mode), the shading of
/// every other box (classic mode), or none.
#[derive(Clone, Copy, Debug, PartialEq, Eq, Structural)]
pub enum Shade {
    Cage(u8),
    Box,
    Plain,
}

/// How a cell is shown: its digit (0 for blank), what highlights it, its
/// background, and the cage sum it carries as a label.
#[derive(Clone, Copy, Debug, PartialEq, Eq, Structural)]
pub struct CellLook {
    pub digit: u8,
    pub cursor: bool,
    pub hint: bool,
    pub error: bool,
    pub given: bool,
    pub shade: Shade,
    pub label: Option<u8>,
}

/// What the hint panel shows.
#[derive(Clone, Copy, Debug, PartialEq, Eq, Structural)]
pub enum HintPanel {
    /// Every cell is filled.
    NoUnsolved,
    /// No cell has a single option; `unsolved` cells are still open.
    NoObvious { unsolved: usize },
    /// The current hint among `shown` hints; `all` when they are all open cells.
    Hint { shown: usize, all: bool, row: usize, col: usize, digit: u8 },
}

/// The render data can be looked up for cell (r, c).
pub open spec fn render_fits(render: &CageRenderInfo, cages: Option<Vec<Cage>>, r: int, c: int) -> bool {
    let ci = render.cage_map[r][c] as int;
    &&& ci < render.cage_colors@.len()
    &&& ci < render.label_cells@.len()
    &&& render.label_cells@[ci] == (r as usize, c as usize) ==> (cages matches Some(cs) && ci < cs@.len())
}

impl PlayState {
    /// How cell (row, col) is shown; `playing` tells whether the player is in
    /// the grid (cursor and hint shown).
    pub fn cell_look(&self, row: usize, col: usize, playing: bool, render: Option<&CageRenderInfo>) -> (look: CellLook)
        requires
            self.wf(),
            row < 9,
            col < 9,
            render matches Some(cr) ==> render_fits(cr, self.cages, row as int, col as int),
        ensures
            look.digit == self.grid@[row as int][col as int],
            look.cursor == (playing && row == self.cursor_row && col == self.cursor_col),
            look.hint == (playing && self.active_spec().len() > 0 && self.active_spec()[self.hint_index as int].0 == row
                && self.active_spec()[self.hint_index as int].1 == col),
            look.given == self.givens[row as int][col as int],
            look.error == (self.show_errors && look.digit != 0 && !look.given && look.digit != self.solution@[row as int][col as int]),
            look.shade == match render {
                Some(cr) => Shade::Cage(cr.cage_colors@[cr.cage_map[row as int][col as int] as int]),
                None => if (row / 3 + col / 3) % 2 == 0 { Shade::Box } else { Shade::Plain },
            },
            look.label == match render {
                Some(cr) => {
                    let ci = cr.cage_map[row as int][col as int] as int;
                    if cr.label_cells@[ci] == (row, col) {
                        Some(self.cages.unwrap()@[ci].sum)
                    } else {
                        None
                    }
                },
                None => None,
            },
    {
        let val = self.grid.get(row, col);
        let is_cursor = playing && row == self.cursor_row && col == self.cursor_col;
        let active = self.active_hints();
        let is_hint = playing && active.len() > 0 && {
            let (hr, hc, _) = active[self.hint_index];
            hr == row && hc == col
        };
        let is_given = self.givens[row][col];
        let is_error = self.show_errors && val != 0 && !is_given && val != self.solution.get(row, col);
        let (shade, label) = match render {
            Some(cr) => {
                let ci = cr.cage_map[row][col];
                let label = if cr.label_cells[ci].0 == row && cr.label_cells[ci].1 == col {
                    match &self.cages {
                        Some(cages) => Some(cages[ci].sum),
                        None => None,
                    }
                } else {
                    None
                };
                (Shade::Cage(cr.cage_colors[ci]), label)
            },
            None => {
                let shade = if (row / 3 + col / 3) % 2 == 0 { Shade::Box } else { Shade::Plain };
                (shade, None)
            },
        };
        CellLook { digit: val, cursor: is_cursor, hint: is_hint, error: is_error, given: is_given, shade, label }
    }

    /// What the hint panel shows.
    pub fn hint_panel(&self) -> (panel: HintPanel)
        requires
            self.wf(),
        ensures
            panel == if self.active_spec().len() == 0 && self.all_hints@.len() == 0 {
                HintPanel::NoUnsolved
            } else if self.active_spec().len() == 0 {
                HintPanel::NoObvious { unsolved: self.all_hints@.len() as usize }
            } else {
                let (r, c, v) = self.active_spec()[self.hint_index as int];
                HintPanel::Hint { shown: self.active_spec().len() as usize, all: self.show_non_obvious, row: r, col: c, digit: v }
            },
    {
        let active = self.active_hints();
        if active.len() == 0 && self.all_hints.len() == 0 {
            HintPanel::NoUnsolved
        } else if active.len() == 0 {
            HintPanel::NoObvious { unsolved: self.all_hints.len() }
        } else {
            let (r, c, val) = active[self.hint_index];
            HintPanel::Hint { shown: active.len(), all: self.show_non_obvious, row: r, col: c, digit: val }
        }
    }

    /// Number of filled cells of the board.
    pub fn filled_count(&self) -> (n: usize)
        ensures
            n == 81 - crate::tally::count_empty(flat_cells(self.grid@), 81),
    {
        let mut n: usize = 0;
        let mut r: usize = 0;
        proof {
            crate::tally::lemma_count_empty_bounds(flat_cells(self.grid@), 0);
        }
        while r < 9
            invariant
                r <= 9,
                n == 9 * r - crate::tally::count_empty(flat_cells(self.grid@), 9 * r),
                n <= 9 * r,
            decreases 9 - r,
        {
            let mut c: usize = 0;
            while c < 9
                invariant
                    r < 9,
                    c <= 9,
                    n == 9 * r + c - crate::tally::count_empty(flat_cells(self.grid@), 9 * r + c),
                    n <= 9 * r + c,
                decreases 9 - c,
            {
                let ghost k = 9 * r + c;
                proof {
                    assert(k / 9 == r && k % 9 == c);
                    crate::tally::lemma_count_empty_bounds(flat_cells(self.grid@), k);
                }
                if self.grid.get(r, c) != 0 {
                    n += 1;
                }
                c += 1;
            }
            r += 1;
        }
        n
    }
}

/// The board's cells in reading order.
pub open spec fn flat_cells(g: Seq<Seq<u8>>) -> Seq<u8> {
    Seq::new(81, |k: int| g[k / 9][k % 9])
}

/// Which cage (the last one listing it) holds each cell, as found by `build_cage_lookup`.
pub open spec fn lookup_matches(lk: [[Option<usize>; 9]; 9], cages: Seq<Cage>) -> bool {
    forall|r: int, c: int| in_board(r, c) ==> match #[trigger] lk[r][c] {
        Some(i) => cage_of(cages, r, c, cages.len() as int) == Some(i as int),
        None => cage_of(cages, r, c, cages.len() as int) is None,
    }
}

/// Build cell-to-cage lookup for killer mode.
fn build_cage_lookup(cages: &Vec<Cage>) -> (lookup: [[Option<usize>; 9]; 9])
    requires
        forall|ci: int| 0 <= ci < cages@.len() ==> cage_on_board(#[trigger] cages@[ci]),
    ensures
        lookup_matches(lookup, cages@),
{
    let mut lookup: [[Option<usize>; 9]; 9] = [[None; 9]; 9];
    let mut i: usize = 0;
    while i < cages.len()
        invariant
            i <= cages@.len(),
            forall|ci: int| 0 <= ci < cages@.len() ==> cage_on_board(#[trigger] cages@[ci]),
            forall|r: int, c: int| in_board(r, c) ==> match #[trigger] lookup[r][c] {
                Some(j) => cage_of(cages@, r, c, i as int) == Some(j as int),
                None => cage_of(cages@, r, c, i as int) is None,
            },
        decreases cages@.len() - i,
    {
        let cells = &cages[i].cells;
        let mut k: usize = 0;
        while k < cells.len()
            invariant
                i < cages@.len(),
                k <= cells@.len(),
                cells@ == cages@[i as int].cells@,
                forall|ci: int| 0 <= ci < cages@.len() ==> cage_on_board(#[trigger] cages@[ci]),
                forall|r: int, c: int| in_board(r, c) ==> match #[trigger] lookup[r][c] {
                    Some(j) => if cells@.subrange(0, k as int).contains((r as usize, c as usize)) {
                        j == i
                    } else {
                        cage_of(cages@, r, c, i as int) == Some(j as int)
                    },
                    None => !cells@.subrange(0, k as int).contains((r as usize, c as usize))
                        && cage_of(cages@, r, c, i as int) is None,
                },
            decreases cells@.len() - k,
        {
            let (r, c) = cells[k];
            proof {
                assert(cage_on_board(cages@[i as int]));
                assert(cell_in_board(cages@[i as int].cells@[k as int]));
            }
            let ghost before = lookup;
            lookup[r][c] = Some(i);
            proof {
                let s0 = cells@.subrange(0, k as int);
                let s1 = cells@.subrange(0, k + 1);
                assert(s1 =~= s0.push((r, c)));
                assert forall|r2: int, c2: int| in_board(r2, c2) implies match #[trigger] lookup[r2][c2] {
                    Some(j) => if s1.contains((r2 as usize, c2 as usize)) {
                        j == i
                    } else {
                        cage_of(cages@, r2, c2, i as int) == Some(j as int)
                    },
                    None => !s1.contains((r2 as usize, c2 as usize)) && cage_of(cages@, r2, c2, i as int) is None,
                } by {
                    if r2 == r && c2 == c {
                        assert(s1[k as int] == (r, c));
                    } else {
                        assert(lookup[r2][c2] == before[r2][c2]);
                        if s1.contains((r2 as usize, c2 as usize)) {
                            let j = choose|j: int| 0 <= j < s1.len() && s1[j] == (r2 as usize, c2 as usize);
                            assert(j < k);
                            assert(s0[j] == s1[j]);
                        }
                        if s0.contains((r2 as usize, c2 as usize)) {
                            let j = choose|j: int| 0 <= j < s0.len() && s0[j] == (r2 as usize, c2 as usize);
                            assert(s1[j] == s0[j]);
                        }
                    }
                }
            }
            k += 1;
        }
        proof {
            assert(cells@.subrange(0, cells@.len() as int) =~= cells@);
        }
        i += 1;
    }
    lookup
}

/// The digits placed in the cage, what its sum still needs (in a byte,
/// wrapping) and its number of empty cells.
fn cage_stats(grid: &Grid, cage: &Cage) -> (stats: (u16, u8, usize))
    requires
        digits_in_range(grid@),
        cage_on_board(*cage),
    ensures
        stats.0 == used_digits(grid@, cage.cells@, cage.cells@.len() as int),
        stats.1 == byte_rest(cage.sum as int, placed_sum(grid@, cage.cells@, cage.cells@.len() as int)),
        stats.2 == empty_cells(grid@, cage.cells@, cage.cells@.len() as int),
{
    let mut used: u16 = 0;
    let mut filled_sum: u8 = 0;
    let mut empty_count: usize = 0;
    let mut k: usize = 0;
    while k < cage.cells.len()
        invariant
            k <= cage.cells@.len(),
            digits_in_range(grid@),
            forall|k2: int| 0 <= k2 < cage.cells@.len() ==> cell_in_board(#[trigger] cage.cells@[k2]),
            used == used_digits(grid@, cage.cells@, k as int),
            filled_sum == placed_sum(grid@, cage.cells@, k as int) % 256,
            empty_count == empty_cells(grid@, cage.cells@, k as int),
            empty_count <= k,
        decreases cage.cells@.len() - k,
    {
        let (cr, cc) = cage.cells[k];
        proof {
            assert(cell_in_board(cage.cells@[k as int]));
            assert(in_board(cr as int, cc as int));
        }
        let v = grid.get(cr, cc);
        let ghost p0 = placed_sum(grid@, cage.cells@, k as int);
        if v != 0 {
            used |= 1u16 << v;
            proof {
                vstd::arithmetic::div_mod::lemma_add_mod_noop(p0, v as int, 256);
                assert((v as int) % 256 == v);
                assert((p0 % 256) % 256 == p0 % 256);
                assert((filled_sum + v) % 256 == (if filled_sum + v > 255 { filled_sum + v - 256 } else { filled_sum + v }));
            }
            filled_sum = filled_sum.wrapping_add(v);
        } else {
            empty_count += 1;
        }
        k += 1;
    }
    let remaining_sum = cage.sum.wrapping_sub(filled_sum);
    proof {
        let p = placed_sum(grid@, cage.cells@, cage.cells@.len() as int);
        vstd::arithmetic::div_mod::lemma_sub_mod_noop(cage.sum as int, p, 256);
        assert((cage.sum as int) % 256 == cage.sum);
        assert((cage.sum - filled_sum) % 256 == (if cage.sum >= filled_sum { cage.sum - filled_sum } else { cage.sum - filled_sum + 256 }));
    }
    (used, remaining_sum, empty_count)
}

/// The options found for a cell are one digit exactly when one digit is allowed.
proof fn lemma_single_option(g: Seq<Seq<u8>>, cages: Option<Vec<Cage>>, r: int, c: int, cands: Seq<u8>, options: Seq<u8>)
    requires
        forall|v: u8| 1 <= v <= 9 && placement_ok(g, r, c, v) ==> #[trigger] cands.contains(v),
        forall|j: int| 0 <= j < options.len() ==> 1 <= #[trigger] options[j] <= 9 && digit_allowed(g, cages, r, c, options[j]),
        forall|j1: int, j2: int| 0 <= j1 < j2 < options.len() ==> options[j1] < options[j2],
        forall|j: int| 0 <= j < cands.len() && digit_allowed(g, cages, r, c, cands[j]) ==> #[trigger] options.contains(cands[j]),
    ensures
        options.len() == 1 <==> single_option(g, cages, r, c),
{
    if options.len() == 1 {
        let d = options[0];
        assert forall|d2: u8| 1 <= d2 <= 9 && digit_allowed(g, cages, r, c, d2) implies d2 == d by {
            assert(cands.contains(d2));
            let j = choose|j: int| 0 <= j < cands.len() && cands[j] == d2;
            assert(options.contains(cands[j]));
        }
        assert(1 <= d <= 9 && digit_allowed(g, cages, r, c, d));
    }
    if single_option(g, cages, r, c) {
        let d = choose|d: u8| 1 <= d <= 9 && digit_allowed(g, cages, r, c, d)
            && forall|d2: u8| 1 <= d2 <= 9 && digit_allowed(g, cages, r, c, d2) ==> d2 == d;
        assert(cands.contains(d));
        let j = choose|j: int| 0 <= j < cands.len() && cands[j] == d;
        assert(options.contains(cands[j]));
        if options.len() >= 2 {
            assert(options[0] < options[1]);
            assert(options[0] == d);
            assert(options[1] == d);
        }
    }
}

/// Hints name cells of the board and digits of the solution.
proof fn lemma_hints_on_board(g: Seq<Seq<u8>>, givens: [[bool; 9]; 9], sol: Seq<Seq<u8>>, cages: Option<Vec<Cage>>, n: int)
    requires
        digits_in_range(sol),
        0 <= n <= 81,
    ensures
        forall|i: int| 0 <= i < pending_hints(g, givens, sol, n).len() ==> {
            let h = #[trigger] pending_hints(g, givens, sol, n)[i];
            h.0 < 9 && h.1 < 9 && h.2 <= 9 && !givens[h.0 as int][h.1 as int]
        },
        forall|i: int| 0 <= i < obvious_hints_upto(g, givens, sol, cages, n).len() ==> {
            let h = #[trigger] obvious_hints_upto(g, givens, sol, cages, n)[i];
            h.0 < 9 && h.1 < 9 && h.2 <= 9 && !givens[h.0 as int][h.1 as int]
        },
    decreases n,
{
    if n > 0 {
        lemma_hints_on_board(g, givens, sol, cages, n - 1);
        assert(in_board((n - 1) / 9, (n - 1) % 9));
        let p0 = pending_hints(g, givens, sol, n - 1);
        let p1 = pending_hints(g, givens, sol, n);
        assert forall|i: int| 0 <= i < p1.len() implies {
            let h = #[trigger] p1[i];
            h.0 < 9 && h.1 < 9 && h.2 <= 9 && !givens[h.0 as int][h.1 as int]
        } by {
            if i < p0.len() {
                assert(p1[i] == p0[i]);
            }
        }
        let o0 = obvious_hints_upto(g, givens, sol, cages, n - 1);
        let o1 = obvious_hints_upto(g, givens, sol, cages, n);
        assert forall|i: int| 0 <= i < o1.len() implies {
            let h = #[trigger] o1[i];
            h.0 < 9 && h.1 < 9 && h.2 <= 9 && !givens[h.0 as int][h.1 as int]
        } by {
            if i < o0.len() {
                assert(o1[i] == o0[i]);
            }
        }
    }
}

/// Setting a cell to a digit 0..=9 keeps every cell in range.
proof fn lemma_set_in_range(g0: Seq<Seq<u8>>, g1: Seq<Seq<u8>>, r: int, c: int, v: u8)
    requires
        digits_in_range(g0),
        in_board(r, c),
        v <= 9,
        g1 == g0.update(r, g0[r].update(c, v)),
    ensures
        digits_in_range(g1),
{
    assert forall|r2: int| 0 <= r2 < 9 implies #[trigger] g1[r2].len() == 9 by {
        assert(g0[r2].len() == 9);
    }
    assert forall|r2: int, c2: int| in_board(r2, c2) implies #[trigger] g1[r2][c2] <= 9 by {
        assert(g0[r2][c2] <= 9);
    }
}

/// What the menu asks of the program after a key.
#[derive(Clone, Copy, Debug, PartialEq, Eq, Structural)]
pub enum MenuCommand {
    Nothing,
    Quit,
    CancelGeneration,
    StartGeneration,
    EnterPlay,
}

/// A key pressed in the menu.
#[derive(Clone, Copy, Debug, PartialEq, Eq, Structural)]
pub enum MenuKey {
    Quit,
    Escape,
    Difficulty,
    Mode,
    New,
    Play,
    Up,
    Down,
    Enter,
    Other,
}

/// Number of menu entries: Difficulty, Mode, New Puzzle, Play, Quit.
pub const MENU_LEN: usize = 5;

/// The menu: chosen difficulty and mode, and the highlighted entry.
pub struct MenuState {
    pub difficulty: Difficulty,
    pub game_mode: GameMode,
    pub menu_index: usize,
}

impl MenuState {
    /// Apply a key pressed in the menu; while a puzzle is being generated only
    /// cancelling it (Escape) does anything.
    pub fn handle_menu_key(&mut self, key: MenuKey, generating: bool) -> (cmd: MenuCommand)
        requires
            old(self).menu_index < MENU_LEN,
        ensures
            final(self).menu_index < MENU_LEN,
            generating ==> *final(self) == *old(self)
                && cmd == (if key == MenuKey::Escape { MenuCommand::CancelGeneration } else { MenuCommand::Nothing }),
            !generating ==> {
                let i = old(self).menu_index;
                let entry: int = if key == MenuKey::Enter { i as int } else { MENU_LEN as int };
                &&& cmd == (if key == MenuKey::Quit || key == MenuKey::Escape || entry == 4 {
                    MenuCommand::Quit
                } else if key == MenuKey::New || entry == 2 {
                    MenuCommand::StartGeneration
                } else if key == MenuKey::Play || entry == 3 {
                    MenuCommand::EnterPlay
                } else {
                    MenuCommand::Nothing
                })
                &&& final(self).difficulty == (if key == MenuKey::Difficulty || entry == 0 {
                    old(self).difficulty.next_spec()
                } else {
                    old(self).difficulty
                })
                &&& final(self).game_mode == (if key == MenuKey::Mode || entry == 1 {
                    old(self).game_mode.next_spec()
                } else {
                    old(self).game_mode
                })
                &&& final(self).menu_index == (if key == MenuKey::Up && i > 0 {
                    i - 1
                } else if key == MenuKey::Down && i < MENU_LEN - 1 {
                    i + 1
                } else {
                    i as int
                })
            },
    {
        // During generation, only allow Escape to cancel
        if generating {
            if key == MenuKey::Escape {
                return MenuCommand::CancelGeneration;
            }
            return MenuCommand::Nothing;
        }

        match key {
            MenuKey::Quit | MenuKey::Escape => MenuCommand::Quit,
            MenuKey::Difficulty => {
                self.difficulty = self.difficulty.next();
                MenuCommand::Nothing
            },
            MenuKey::Mode => {
                self.game_mode = self.game_mode.next();
                MenuCommand::Nothing
            },
            MenuKey::New => MenuCommand::StartGeneration,
            MenuKey::Play => MenuCommand::EnterPlay,
            MenuKey::Up => {
                if self.menu_index > 0 {
                    self.menu_index -= 1;
                }
                MenuCommand::Nothing
            },
            MenuKey::Down => {
                if self.menu_index < MENU_LEN - 1 {
                    self.menu_index += 1;
                }
                MenuCommand::Nothing
            },
            MenuKey::Enter => match self.menu_index {
                0 => {
                    self.difficulty = self.difficulty.next();
                    MenuCommand::Nothing
                },
                1 => {
                    self.game_mode = self.game_mode.next();
                    MenuCommand::Nothing
                },
                2 => MenuCommand::StartGeneration,
                3 => MenuCommand::EnterPlay,
                _ => MenuCommand::Quit,
            },
            MenuKey::Other => MenuCommand::Nothing,
        }
    }
}

} // verus!
