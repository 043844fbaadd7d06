use rand::SeedableRng;
use rand::rngs::StdRng;
use sudokli::generator::{Difficulty, fill_grid, generate_cages};
use sudokli::grid::{Cage, Grid};
use sudokli::killer::{cage_combos, largest_n_sum, smallest_n_sum};
use sudokli::killer_search::{SolverResult, count_solutions_killer};
use sudokli::solver::count_solutions;

const SOLVED: [[u8; 9]; 9] = [
    [5, 3, 4, 6, 7, 8, 9, 1, 2],
    [6, 7, 2, 1, 9, 5, 3, 4, 8],
    [1, 9, 8, 3, 4, 2, 5, 6, 7],
    [8, 5, 9, 7, 6, 1, 4, 2, 3],
    [4, 2, 6, 8, 5, 3, 7, 9, 1],
    [7, 1, 3, 9, 2, 4, 8, 5, 6],
    [9, 6, 1, 5, 3, 7, 2, 8, 4],
    [2, 8, 7, 4, 1, 9, 6, 3, 5],
    [3, 4, 5, 2, 8, 6, 1, 7, 9],
];

fn solved_grid() -> Grid {
    let mut g = Grid::empty();
    for r in 0..9 {
        for c in 0..9 {
            g.set(r, c, SOLVED[r][c]);
        }
    }
    g
}

#[test]
fn cage_combo_table_basic() {
    // size=2, sum=3 → only {1,2} which is bitmask 0b110 = 0x006
    let combos = cage_combos(2, 3).unwrap();
    assert_eq!(combos.len(), 1);
    assert_eq!(combos[0], (1 << 1) | (1 << 2));

    // size=1, sum=5 → only {5}
    let combos = cage_combos(1, 5).unwrap();
    assert_eq!(combos.len(), 1);
    assert_eq!(combos[0], 1 << 5);

    // size=2, sum=17 → only {8,9}
    let combos = cage_combos(2, 17).unwrap();
    assert_eq!(combos.len(), 1);
    assert_eq!(combos[0], (1 << 8) | (1 << 9));

    // No valid combo for impossible sum
    assert!(cage_combos(1, 10).is_none());
}

#[test]
fn killer_trivial_one_cell_cages() {
    // 81 single-cell cages from a solved grid → exactly 1 solution
    let cages: Vec<Cage> = (0..9)
        .flat_map(|r| {
            (0..9).map(move |c| Cage {
                cells: vec![(r, c)],
                sum: SOLVED[r][c],
            })
        })
        .collect();
    let result = count_solutions_killer(&Grid::empty(), &cages, 2, 0);
    assert!(matches!(result, SolverResult::Complete(1)));
}

#[test]
fn killer_solved_cage_puzzle_has_solution() {
    let mut rng = StdRng::seed_from_u64(42);
    let mut solution = Grid::empty();
    fill_grid(&mut solution, &mut rng);
    let cages = generate_cages(&solution, &mut rng);
    let result = count_solutions_killer(&Grid::empty(), &cages, 2, 0);
    match result {
        SolverResult::Complete(count) => {
            assert!(count >= 1, "solver should find at least 1 solution");
        }
        SolverResult::Exhausted => panic!("solver exhausted node limit"),
    }
}

#[test]
fn solved_grid_has_one_solution() {
    let g = solved_grid();
    assert_eq!(count_solutions(&g, 2), 1);
}

#[test]
fn empty_grid_has_multiple_solutions() {
    let g = Grid::empty();
    assert_eq!(count_solutions(&g, 2), 2);
}

#[test]
fn no_solution_for_invalid_grid() {
    // Start from a solved grid, blank out one cell, and set a conflict
    // so that cell can't be filled.
    let mut g = solved_grid();
    // Blank (0,0) which was 5 and change (0,1) to 5 — now nothing fits (0,0)
    g.set(0, 0, 0);
    g.set(0, 1, 5);
    assert_eq!(count_solutions(&g, 2), 0);
}

#[test]
fn smallest_n_sum_works() {
    // available = {1, 2, 3, 5, 9}, pick smallest 3 → 1+2+3=6
    let avail = (1 << 1) | (1 << 2) | (1 << 3) | (1 << 5) | (1 << 9);
    assert_eq!(smallest_n_sum(avail, 3), 6);
}

#[test]
fn largest_n_sum_works() {
    // available = {1, 2, 3, 5, 9}, pick largest 3 → 9+5+3=17
    let avail = (1 << 1) | (1 << 2) | (1 << 3) | (1 << 5) | (1 << 9);
    assert_eq!(largest_n_sum(avail, 3), 17);
}

#[test]
fn node_limit_exhausts() {
    // With a very small node limit, the solver should exhaust
    let mut rng = StdRng::seed_from_u64(42);
    let mut solution = Grid::empty();
    fill_grid(&mut solution, &mut rng);
    let cages = generate_cages(&solution, &mut rng);
    let result = count_solutions_killer(&Grid::empty(), &cages, 2, 1);
    assert!(matches!(result, SolverResult::Exhausted));
}

#[test]
fn limit_caps_the_count() {
    assert_eq!(count_solutions(&Grid::empty(), 0), 0);
    assert_eq!(count_solutions(&Grid::empty(), 1), 1);
    assert_eq!(count_solutions(&Grid::empty(), 5), 5);
}

#[test]
fn puzzle_with_one_blank_has_one_solution() {
    let mut g = solved_grid();
    g.set(4, 4, 0);
    g.set(8, 0, 0);
    assert_eq!(count_solutions(&g, 2), 1);
}

#[test]
fn sums_of_fewer_digits_than_asked() {
    assert_eq!(smallest_n_sum(0, 3), 0);
    assert_eq!(largest_n_sum(0, 3), 0);
    let avail = (1 << 4) | (1 << 7);
    assert_eq!(smallest_n_sum(avail, 5), 11);
    assert_eq!(largest_n_sum(avail, 1), 7);
    assert_eq!(smallest_n_sum(avail, 0), 0);
}

#[test]
fn combos_are_listed_in_increasing_order() {
    // size=3, sum=7 → {1,2,4}; size=2, sum=10 → {1,9},{2,8},{3,7},{4,6}
    assert_eq!(cage_combos(3, 7).unwrap(), vec![(1 << 1) | (1 << 2) | (1 << 4)]);
    assert_eq!(
        cage_combos(2, 10).unwrap(),
        vec![
            (1 << 4) | (1 << 6),
            (1 << 3) | (1 << 7),
            (1 << 2) | (1 << 8),
            (1 << 1) | (1 << 9),
        ]
    );
    assert_eq!(cage_combos(9, 45).unwrap(), vec![0x3FE]);
    assert!(cage_combos(0, 0).is_none());
    assert!(cage_combos(10, 45).is_none());
}

#[test]
fn killer_impossible_cage_has_no_solution() {
    // A one-cell cage with sum 10 cannot be filled.
    let mut cages: Vec<Cage> = (0..9)
        .flat_map(|r| {
            (0..9).map(move |c| Cage {
                cells: vec![(r, c)],
                sum: SOLVED[r][c],
            })
        })
        .collect();
    cages[0].sum = 10;
    let result = count_solutions_killer(&Grid::empty(), &cages, 2, 0);
    assert!(matches!(result, SolverResult::Complete(0)));
}

#[test]
fn killer_row_cages_have_many_solutions() {
    // Nine row cages of sum 45 constrain nothing beyond the rules.
    let cages: Vec<Cage> = (0..9)
        .map(|r| Cage { cells: (0..9).map(|c| (r, c)).collect(), sum: 45 })
        .collect();
    let result = count_solutions_killer(&Grid::empty(), &cages, 3, 0);
    assert!(matches!(result, SolverResult::Complete(3)));
}

#[test]
fn killer_zero_limit_counts_nothing() {
    let cages: Vec<Cage> = (0..9)
        .map(|r| Cage { cells: (0..9).map(|c| (r, c)).collect(), sum: 45 })
        .collect();
    let result = count_solutions_killer(&Grid::empty(), &cages, 0, 0);
    assert!(matches!(result, SolverResult::Complete(0)));
}

#[test]
fn filled_grid_counts_once_up_to_limit() {
    let g = solved_grid();
    assert_eq!(count_solutions(&g, 1), 1);
    assert_eq!(count_solutions(&g, 5), 1);
    assert_eq!(count_solutions(&g, 0), 0);
}

#[test]
fn conflicting_full_grid_has_no_solution() {
    let mut g = solved_grid();
    g.set(0, 0, 3);
    assert_eq!(count_solutions(&g, 2), 0);
}

#[test]
fn killer_single_impossible_cage_counts_nothing() {
    let cages = vec![Cage { cells: vec![(0, 0)], sum: 10 }];
    let result = count_solutions_killer(&Grid::empty(), &cages, 2, 0);
    assert!(matches!(result, SolverResult::Complete(0)));
}

#[test]
fn a_budget_above_the_search_size_completes() {
    // A full grid leaves nothing to branch on: a budget of one node suffices.
    let cages: Vec<Cage> = (0..9)
        .flat_map(|r| {
            (0..9).map(move |c| Cage {
                cells: vec![(r, c)],
                sum: SOLVED[r][c],
            })
        })
        .collect();
    let result = count_solutions_killer(&solved_grid(), &cages, 2, 1);
    assert!(matches!(result, SolverResult::Complete(_)));
}
