use rand::SeedableRng;
use rand::rngs::StdRng;
use sudokli::generator::{Difficulty, fill_grid, generate_cages, generate_puzzle};
use sudokli::grid::{Cage, Grid};
use sudokli::rater::{Technique, compute_score, rate_killer_puzzle, rate_puzzle};
use sudokli::solver::count_solutions;

#[test]
fn easy_puzzle_rates_low() {
    let mut rng = StdRng::seed_from_u64(42);
    let state = generate_puzzle(Difficulty::Easy, &mut rng);
    let rating = rate_puzzle(&state.grid);
    assert!(rating.score <= 3, "Easy puzzle should rate <= 3, got {}", rating.score);
}

#[test]
fn hard_puzzle_rates_higher_than_easy() {
    let mut rng = StdRng::seed_from_u64(42);
    let easy = generate_puzzle(Difficulty::Easy, &mut rng);
    let easy_rating = rate_puzzle(&easy.grid);

    let mut rng = StdRng::seed_from_u64(42);
    let hard = generate_puzzle(Difficulty::Hard, &mut rng);
    let hard_rating = rate_puzzle(&hard.grid);

    assert!(
        hard_rating.score >= easy_rating.score,
        "Hard ({}) should rate >= Easy ({})",
        hard_rating.score,
        easy_rating.score
    );
}

#[test]
fn rating_is_deterministic() {
    let mut rng = StdRng::seed_from_u64(99);
    let state = generate_puzzle(Difficulty::Medium, &mut rng);
    let r1 = rate_puzzle(&state.grid);
    let r2 = rate_puzzle(&state.grid);
    assert_eq!(r1.score, r2.score, "Same puzzle must produce same rating");
}

#[test]
fn rating_in_valid_range() {
    let mut rng = StdRng::seed_from_u64(7);
    for d in [Difficulty::Easy, Difficulty::Medium, Difficulty::Hard] {
        let state = generate_puzzle(d, &mut rng);
        let rating = rate_puzzle(&state.grid);
        assert!((1..=10).contains(&rating.score), "Rating {} out of 1-10 range for {d:?}", rating.score);
    }
}

#[test]
fn killer_puzzle_gets_rated() {
    let mut rng = StdRng::seed_from_u64(42);
    let mut solution = Grid::empty();
    fill_grid(&mut solution, &mut rng);
    let cages = generate_cages(&solution, &mut rng);
    let rating = rate_killer_puzzle(&Grid::empty(), &cages);
    assert!((1..=10).contains(&rating.score), "Killer rating {} out of range", rating.score);
}

#[test]
fn solved_grid_rates_one() {
    // A fully solved grid has 0 empty cells — should rate 1 (minimum)
    let mut g = Grid::empty();
    let cells = [
        [5, 3, 4, 6, 7, 8, 9, 1, 2],
        [6, 7, 2, 1, 9, 5, 3, 4, 8],
        [1, 9, 8, 3, 4, 2, 5, 6, 7],
        [8, 5, 9, 7, 6, 1, 4, 2, 3],
        [4, 2, 6, 8, 5, 3, 7, 9, 1],
        [7, 1, 3, 9, 2, 4, 8, 5, 6],
        [9, 6, 1, 5, 3, 7, 2, 8, 4],
        [2, 8, 7, 4, 1, 9, 6, 3, 5],
        [3, 4, 5, 2, 8, 6, 1, 7, 9],
    ];
    for r in 0..9 {
        for c in 0..9 {
            g.set(r, c, cells[r][c]);
        }
    }
    let rating = rate_puzzle(&g);
    assert_eq!(rating.score, 1);
}

#[test]
fn score_formula() {
    assert_eq!(compute_score(Technique::NakedSingle, 0), 1);
    assert_eq!(compute_score(Technique::HiddenSingle, 5), 2);
    assert_eq!(compute_score(Technique::CageCombination, 6), 4);
    assert_eq!(compute_score(Technique::PointingPair, 0), 5);
    assert_eq!(compute_score(Technique::HiddenTriple, 9), 7);
    assert_eq!(compute_score(Technique::XWing, 6), 9);
    assert_eq!(compute_score(Technique::Swordfish, 6), 10);
    assert_eq!(compute_score(Technique::Backtracking, 100), 10);
    assert_eq!(Technique::NakedPair.base_score(), 4);
    assert_eq!(Technique::Swordfish.level(), 9);
}

#[test]
fn one_blank_rates_one() {
    let mut g = Grid::empty();
    let cells = [
        [5, 3, 4, 6, 7, 8, 9, 1, 2],
        [6, 7, 2, 1, 9, 5, 3, 4, 8],
        [1, 9, 8, 3, 4, 2, 5, 6, 7],
        [8, 5, 9, 7, 6, 1, 4, 2, 3],
        [4, 2, 6, 8, 5, 3, 7, 9, 1],
        [7, 1, 3, 9, 2, 4, 8, 5, 6],
        [9, 6, 1, 5, 3, 7, 2, 8, 4],
        [2, 8, 7, 4, 1, 9, 6, 3, 5],
        [3, 4, 5, 2, 8, 6, 1, 7, 9],
    ];
    for r in 0..9 {
        for c in 0..9 {
            g.set(r, c, cells[r][c]);
        }
    }
    g.set(3, 3, 0);
    assert_eq!(rate_puzzle(&g).score, 1);
}

#[test]
fn empty_killer_board_with_single_cell_cages_rates_low() {
    let cells = [
        [5, 3, 4, 6, 7, 8, 9, 1, 2],
        [6, 7, 2, 1, 9, 5, 3, 4, 8],
        [1, 9, 8, 3, 4, 2, 5, 6, 7],
        [8, 5, 9, 7, 6, 1, 4, 2, 3],
        [4, 2, 6, 8, 5, 3, 7, 9, 1],
        [7, 1, 3, 9, 2, 4, 8, 5, 6],
        [9, 6, 1, 5, 3, 7, 2, 8, 4],
        [2, 8, 7, 4, 1, 9, 6, 3, 5],
        [3, 4, 5, 2, 8, 6, 1, 7, 9],
    ];
    let cages: Vec<Cage> = (0..9)
        .flat_map(|r| (0..9).map(move |c| Cage { cells: vec![(r, c)], sum: cells[r][c] }))
        .collect();
    // Each one-cell cage leaves a single candidate: naked singles suffice.
    assert_eq!(rate_killer_puzzle(&Grid::empty(), &cages).score, 1);
}

#[test]
fn empty_board_needs_guessing() {
    assert_eq!(rate_puzzle(&Grid::empty()).score, 10);
}

#[test]
fn puzzles_rated_below_ten_have_one_solution() {
    for seed in 1..=4u64 {
        let mut rng = StdRng::seed_from_u64(seed);
        let p = generate_puzzle(Difficulty::Medium, &mut rng);
        let rating = rate_puzzle(&p.grid);
        if rating.score < 10 {
            assert_eq!(count_solutions(&p.grid, 2), 1);
        }
    }
    // Two givens: many solutions, so the rater has to guess.
    let mut g = Grid::empty();
    g.set(0, 0, 1);
    g.set(4, 4, 2);
    assert_eq!(rate_puzzle(&g).score, 10);
}

fn one_cell_cages() -> Vec<Cage> {
    (0..9).flat_map(|r| (0..9).map(move |c| Cage { cells: vec![(r, c)], sum: 1 })).collect()
}

#[test]
fn partition_check_accepts_a_partition() {
    assert!(sudokli::rater::cages_partition_board(&one_cell_cages()));
}

#[test]
fn partition_check_refuses_overlap_and_gaps() {
    let mut overlap = one_cell_cages();
    overlap[1].cells = vec![(0, 0)];
    assert!(!sudokli::rater::cages_partition_board(&overlap));
    let mut gap = one_cell_cages();
    gap.pop();
    assert!(!sudokli::rater::cages_partition_board(&gap));
}

#[test]
fn large_cages_still_form_a_partition_and_get_rated() {
    let big: Vec<(usize, usize)> = (0..29).map(|k| (k / 9, k % 9)).collect();
    let mut cages = vec![Cage { cells: big, sum: 200 }];
    for k in 29..81 {
        cages.push(Cage { cells: vec![(k / 9, k % 9)], sum: 1 });
    }
    assert!(sudokli::rater::cages_partition_board(&cages));
    let rating = rate_killer_puzzle(&Grid::empty(), &cages);
    assert!(1 <= rating.score && rating.score <= 10);
}
