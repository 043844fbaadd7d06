use rand::SeedableRng;
use rand::rngs::StdRng;
use sudokli::generator::{
    Difficulty, KILLER_TOTAL_ATTEMPTS, cage_size_for_roll, fill_grid, generate_cages, generate_killer_puzzle,
    generate_puzzle,
};
use sudokli::grid::{GameMode, Grid};
use sudokli::killer_search::{SolverResult, count_solutions_killer};
use sudokli::solver::count_solutions;

#[test]
fn fill_grid_produces_valid_grid() {
    let mut rng = StdRng::seed_from_u64(42);
    let mut grid = Grid::empty();
    assert!(fill_grid(&mut grid, &mut rng));
    assert!(grid.is_complete_and_valid());
}

#[test]
fn generated_puzzle_has_unique_solution() {
    let mut rng = StdRng::seed_from_u64(123);
    let puzzle = generate_puzzle(Difficulty::Easy, &mut rng);
    assert_eq!(count_solutions(&puzzle.grid, 2), 1);
}

#[test]
fn cages_partition_all_cells() {
    let mut rng = StdRng::seed_from_u64(100);
    let mut solution = Grid::empty();
    fill_grid(&mut solution, &mut rng);
    let cages = generate_cages(&solution, &mut rng);

    let mut covered = [[false; 9]; 9];
    for cage in &cages {
        for &(r, c) in &cage.cells {
            assert!(!covered[r][c], "cell ({r},{c}) covered twice");
            covered[r][c] = true;
        }
    }
    for r in 0..9 {
        for c in 0..9 {
            assert!(covered[r][c], "cell ({r},{c}) not covered");
        }
    }
}

#[test]
fn cages_no_duplicate_digits() {
    let mut rng = StdRng::seed_from_u64(200);
    let mut solution = Grid::empty();
    fill_grid(&mut solution, &mut rng);
    let cages = generate_cages(&solution, &mut rng);

    for (i, cage) in cages.iter().enumerate() {
        let mut seen = 0u16;
        for &(r, c) in &cage.cells {
            let d = solution.get(r, c);
            assert!(seen & (1 << d) == 0, "cage {i} has duplicate digit {d}");
            seen |= 1 << d;
        }
    }
}

#[test]
fn cage_sums_match_solution() {
    let mut rng = StdRng::seed_from_u64(300);
    let mut solution = Grid::empty();
    fill_grid(&mut solution, &mut rng);
    let cages = generate_cages(&solution, &mut rng);

    for (i, cage) in cages.iter().enumerate() {
        let actual_sum: u8 = cage.cells.iter().map(|&(r, c)| solution.get(r, c)).sum();
        assert_eq!(
            cage.sum, actual_sum,
            "cage {i} sum mismatch: stored {} vs actual {}",
            cage.sum, actual_sum
        );
    }
}

#[test]
fn cages_are_contiguous() {
    let mut rng = StdRng::seed_from_u64(400);
    let mut solution = Grid::empty();
    fill_grid(&mut solution, &mut rng);
    let cages = generate_cages(&solution, &mut rng);

    for (i, cage) in cages.iter().enumerate() {
        if cage.cells.len() <= 1 {
            continue;
        }
        // BFS from first cell, ensure all cells reachable
        let cell_set: std::collections::HashSet<(usize, usize)> = cage.cells.iter().copied().collect();
        let mut visited = std::collections::HashSet::new();
        let mut queue = std::collections::VecDeque::new();
        queue.push_back(cage.cells[0]);
        visited.insert(cage.cells[0]);
        while let Some((r, c)) = queue.pop_front() {
            for (dr, dc) in [(-1i32, 0), (1, 0), (0, -1i32), (0, 1)] {
                let nr = r as i32 + dr;
                let nc = c as i32 + dc;
                if (0..9).contains(&nr) && (0..9).contains(&nc) {
                    let pos = (nr as usize, nc as usize);
                    if cell_set.contains(&pos) && !visited.contains(&pos) {
                        visited.insert(pos);
                        queue.push_back(pos);
                    }
                }
            }
        }
        assert_eq!(visited.len(), cage.cells.len(), "cage {i} is not contiguous");
    }
}

#[test]
fn generated_killer_puzzle_has_unique_solution() {
    let mut rng = StdRng::seed_from_u64(999);
    let puzzle = generate_killer_puzzle(Difficulty::Easy, &mut rng, KILLER_TOTAL_ATTEMPTS).unwrap();
    let cages = puzzle.cages.as_ref().unwrap();
    assert!(matches!(
        count_solutions_killer(&Grid::empty(), cages, 2, 0),
        SolverResult::Complete(1)
    ));
}

#[test]
fn clue_counts_match_difficulty() {
    let mut rng = StdRng::seed_from_u64(456);
    for difficulty in [Difficulty::Easy, Difficulty::Medium, Difficulty::Hard] {
        let puzzle = generate_puzzle(difficulty, &mut rng);
        let clues: usize = puzzle.givens.iter().flat_map(|row| row.iter()).filter(|&&g| g).count();
        let (min, max) = difficulty.clue_range();
        assert!(
            clues >= min && clues <= max,
            "{difficulty:?}: expected {min}-{max} clues, got {clues}"
        );
    }
}

#[test]
fn generated_puzzle_keeps_its_solution() {
    let mut rng = StdRng::seed_from_u64(5);
    let puzzle = generate_puzzle(Difficulty::Medium, &mut rng);
    assert!(puzzle.solution.is_complete_and_valid());
    for r in 0..9 {
        for c in 0..9 {
            let v = puzzle.grid.get(r, c);
            assert_eq!(puzzle.givens[r][c], v != 0);
            if v != 0 {
                assert_eq!(v, puzzle.solution.get(r, c));
            }
        }
    }
    assert!(puzzle.cages.is_none());
}

#[test]
fn cage_sizes_follow_the_roll() {
    assert_eq!(cage_size_for_roll(0), 1);
    assert_eq!(cage_size_for_roll(99), 5);
    let sizes: Vec<usize> = (0..100u8).map(cage_size_for_roll).collect();
    assert!(sizes.iter().all(|&s| (1..=5).contains(&s)));
    assert!(sizes.windows(2).all(|w| w[0] <= w[1]));
}

#[test]
fn difficulty_and_mode_cycle() {
    assert_eq!(Difficulty::Easy.next(), Difficulty::Medium);
    assert_eq!(Difficulty::Medium.next(), Difficulty::Hard);
    assert_eq!(Difficulty::Hard.next(), Difficulty::Easy);
    assert_eq!(Difficulty::default(), Difficulty::Easy);
    assert_eq!(Difficulty::Hard.clue_range(), (22, 26));
    assert_eq!(Difficulty::Medium.name(), "Medium");
    assert_eq!(GameMode::Classic.next(), GameMode::Killer);
    assert_eq!(GameMode::Killer.next(), GameMode::Classic);
    assert_eq!(GameMode::default(), GameMode::Classic);
    assert_eq!(GameMode::Killer.name(), "Killer");
}

#[test]
fn killer_round_gives_an_empty_board_with_its_solution() {
    let mut rng = StdRng::seed_from_u64(17);
    for _ in 0..KILLER_TOTAL_ATTEMPTS {
        if let Some(p) = generate_killer_puzzle(Difficulty::Hard, &mut rng, 1) {
            assert!(p.solution.is_complete_and_valid());
            for r in 0..9 {
                for c in 0..9 {
                    assert_eq!(p.grid.get(r, c), 0);
                    assert!(!p.givens[r][c]);
                }
            }
            let cages = p.cages.unwrap();
            for cage in &cages {
                let sum: u8 = cage.cells.iter().map(|&(r, c)| p.solution.get(r, c)).sum();
                assert_eq!(sum, cage.sum);
            }
            return;
        }
    }
    panic!("no killer puzzle within the attempts");
}

#[test]
fn no_killer_rounds_gives_nothing() {
    let mut rng = StdRng::seed_from_u64(3);
    assert!(generate_killer_puzzle(Difficulty::Easy, &mut rng, 0).is_none());
}

#[test]
fn filled_grid_depends_on_the_seed() {
    let mut a = Grid::empty();
    let mut b = Grid::empty();
    assert!(fill_grid(&mut a, &mut StdRng::seed_from_u64(1)));
    assert!(fill_grid(&mut b, &mut StdRng::seed_from_u64(2)));
    let differ = (0..9).any(|r| (0..9).any(|c| a.get(r, c) != b.get(r, c)));
    assert!(differ);
}

#[test]
fn cage_sizes_vary_within_a_partition() {
    let mut rng = StdRng::seed_from_u64(8);
    let mut solution = Grid::empty();
    fill_grid(&mut solution, &mut rng);
    let cages = generate_cages(&solution, &mut rng);
    let first = cages[0].cells.len();
    assert!(cages.iter().any(|cage| cage.cells.len() != first));
    assert!(cages.iter().all(|cage| (1..=5).contains(&cage.cells.len())));
}

#[test]
fn clue_counts_vary_with_the_seed() {
    let counts: Vec<usize> = (1..=6u64)
        .map(|seed| {
            let p = generate_puzzle(Difficulty::Easy, &mut StdRng::seed_from_u64(seed));
            p.givens.iter().flat_map(|row| row.iter()).filter(|&&g| g).count()
        })
        .collect();
    assert!(counts.iter().any(|&n| n != counts[0]));
}
