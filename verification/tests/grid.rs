use sudokli::grid::{Cage, Grid, compute_cage_render_info};

fn solved_grid() -> Grid {
    let cells = [
        [5, 3, 4, 6, 7, 8, 9, 1, 2],
        [6, 7, 2, 1, 9, 5, 3, 4, 8],
        [1, 9, 8, 3, 4, 2, 5, 6, 7],
        [8, 5, 9, 7, 6, 1, 4, 2, 3],
        [4, 2, 6, 8, 5, 3, 7, 9, 1],
        [7, 1, 3, 9, 2, 4, 8, 5, 6],
        [9, 6, 1, 5, 3, 7, 2, 8, 4],
        [2, 8, 7, 4, 1, 9, 6, 3, 5],
        [3, 4, 5, 2, 8, 6, 1, 7, 9],
    ];
    let mut g = Grid::empty();
    for r in 0..9 {
        for c in 0..9 {
            g.set(r, c, cells[r][c]);
        }
    }
    g
}

#[test]
fn complete_valid_grid() {
    assert!(solved_grid().is_complete_and_valid());
}

#[test]
fn incomplete_grid_is_not_valid() {
    let mut g = solved_grid();
    g.set(0, 0, 0);
    assert!(!g.is_complete_and_valid());
}

#[test]
fn duplicate_in_row_is_invalid() {
    let mut g = solved_grid();
    g.set(0, 0, g.get(0, 1)); // duplicate in row
    assert!(!g.is_complete_and_valid());
}

#[test]
fn valid_placement_on_empty() {
    let g = Grid::empty();
    assert!(g.is_valid_placement(0, 0, 5));
}

#[test]
fn invalid_placement_row_conflict() {
    let mut g = Grid::empty();
    g.set(0, 3, 5);
    assert!(!g.is_valid_placement(0, 0, 5));
}

#[test]
fn invalid_placement_col_conflict() {
    let mut g = Grid::empty();
    g.set(3, 0, 5);
    assert!(!g.is_valid_placement(0, 0, 5));
}

#[test]
fn invalid_placement_box_conflict() {
    let mut g = Grid::empty();
    g.set(1, 1, 5);
    assert!(!g.is_valid_placement(0, 0, 5));
}

#[test]
fn candidates_empty_cell() {
    let mut g = Grid::empty();
    // Place 1-8 in row 0, cols 1-8
    for v in 1..=8 {
        g.set(0, v as usize, v);
    }
    // Only 9 is valid at (0,0)
    assert_eq!(g.candidates(0, 0), vec![9]);
}

#[test]
fn candidates_filled_cell_returns_empty() {
    let g = solved_grid();
    assert_eq!(g.candidates(0, 0), Vec::<u8>::new());
}

fn sample_cages() -> Vec<Cage> {
    // Simple cages covering all 81 cells (9 row-based cages for simplicity)
    (0..9)
        .map(|r| Cage {
            cells: (0..9).map(|c| (r, c)).collect(),
            sum: 45,
        })
        .collect()
}

#[test]
fn cage_render_info_covers_all_cells() {
    let cages = sample_cages();
    let info = compute_cage_render_info(&cages);
    for r in 0..9 {
        for c in 0..9 {
            assert!(info.cage_map[r][c] < cages.len());
        }
    }
}

#[test]
fn cage_coloring_no_adjacent_same_color() {
    let cages = sample_cages();
    let info = compute_cage_render_info(&cages);
    for r in 0..9 {
        for c in 0..9 {
            let ci = info.cage_map[r][c];
            let color = info.cage_colors[ci];
            for (dr, dc) in [(0, 1), (1, 0)] {
                let nr = r + dr;
                let nc = c + dc;
                if nr < 9 && nc < 9 {
                    let ni = info.cage_map[nr][nc];
                    if ci != ni {
                        assert_ne!(
                            color,
                            info.cage_colors[ni],
                            "Adjacent cages {ci} and {ni} share color {color}"
                        );
                    }
                }
            }
        }
    }
}

#[test]
fn label_cells_belong_to_cage() {
    let cages = sample_cages();
    let info = compute_cage_render_info(&cages);
    for (i, cage) in cages.iter().enumerate() {
        let label = info.label_cells[i];
        assert!(
            cage.cells.contains(&label),
            "Label cell {label:?} not in cage {i}"
        );
    }
}

#[test]
fn candidates_list_every_fitting_digit_in_order() {
    let mut g = Grid::empty();
    g.set(0, 1, 2);
    g.set(1, 0, 7);
    g.set(2, 2, 4);
    g.set(0, 8, 9);
    assert_eq!(g.candidates(0, 0), vec![1, 3, 5, 6, 8]);
}

#[test]
fn placement_ignores_the_cell_itself() {
    let mut g = Grid::empty();
    g.set(4, 4, 6);
    assert!(g.is_valid_placement(4, 4, 6));
    assert!(!g.is_valid_placement(4, 5, 6));
    assert!(!g.is_valid_placement(3, 3, 6));
    assert!(g.is_valid_placement(5, 7, 6));
}

#[test]
fn labels_are_top_left_cells() {
    let cages = vec![
        Cage { cells: vec![(1, 2), (0, 3), (0, 2)], sum: 6 },
        Cage { cells: vec![(5, 5)], sum: 1 },
    ];
    let info = compute_cage_render_info(&cages);
    assert_eq!(info.label_cells, vec![(0, 2), (5, 5)]);
    assert_eq!(info.cage_map[1][2], 0);
    assert_eq!(info.cage_map[5][5], 1);
}

#[test]
fn neighbouring_cages_take_the_lowest_free_colours() {
    // Nine vertical strips: each touches the one before it.
    let cages: Vec<Cage> = (0..9)
        .map(|c| Cage { cells: (0..9).map(|r| (r, c)).collect(), sum: 45 })
        .collect();
    let info = compute_cage_render_info(&cages);
    assert_eq!(info.cage_colors, vec![0, 1, 0, 1, 0, 1, 0, 1, 0]);
}

#[test]
fn cells_give_the_rows() {
    let g = solved_grid();
    assert_eq!(g.cells()[2], [1, 9, 8, 3, 4, 2, 5, 6, 7]);
}
