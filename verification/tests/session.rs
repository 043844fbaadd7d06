use sudokli::generator::Difficulty;
use sudokli::grid::{Cage, GameMode, Grid, PuzzleState, compute_cage_render_info};
use sudokli::session::{HintPanel, MenuCommand, MenuKey, MenuState, PlayKey, PlayOutcome, PlayState, Shade};

const SOLVED: [[u8; 9]; 9] = [
    [5, 3, 4, 6, 7, 8, 9, 1, 2],
    [6, 7, 2, 1, 9, 5, 3, 4, 8],
    [1, 9, 8, 3, 4, 2, 5, 6, 7],
    [8, 5, 9, 7, 6, 1, 4, 2, 3],
    [4, 2, 6, 8, 5, 3, 7, 9, 1],
    [7, 1, 3, 9, 2, 4, 8, 5, 6],
    [9, 6, 1, 5, 3, 7, 2, 8, 4],
    [2, 8, 7, 4, 1, 9, 6, 3, 5],
    [3, 4, 5, 2, 8, 6, 1, 7, 9],
];

fn solved() -> Grid {
    let mut g = Grid::empty();
    for r in 0..9 {
        for c in 0..9 {
            g.set(r, c, SOLVED[r][c]);
        }
    }
    g
}

/// The solved board with the given cells blanked; every other cell a given.
fn puzzle_without(blanks: &[(usize, usize)]) -> PuzzleState {
    let mut grid = solved();
    let mut givens = [[true; 9]; 9];
    for &(r, c) in blanks {
        grid.set(r, c, 0);
        givens[r][c] = false;
    }
    PuzzleState { grid, givens, cages: None, solution: solved() }
}

#[test]
fn hints_list_pending_cells_in_reading_order() {
    let mut play = PlayState::new();
    assert!(play.load(puzzle_without(&[(4, 4), (0, 0)])));
    assert_eq!(play.all_hints, vec![(0, 0, 5), (4, 4, 5)]);
    // Each blank has a single option left.
    assert_eq!(play.obvious_hints, vec![(0, 0, 5), (4, 4, 5)]);
    assert_eq!(play.active_hints(), &vec![(0, 0, 5), (4, 4, 5)]);
}

#[test]
fn cells_with_several_options_are_not_obvious() {
    // Blank the whole first row and first column: (0,0) then has five options.
    let mut blanks: Vec<(usize, usize)> = (0..9).map(|c| (0, c)).collect();
    blanks.extend((1..9).map(|r| (r, 0)));
    let mut play = PlayState::new();
    assert!(play.load(puzzle_without(&blanks)));
    assert_eq!(play.all_hints.len(), 17);
    assert!(!play.obvious_hints.contains(&(0, 0, 5)));
    assert!(play.obvious_hints.contains(&(0, 1, 3)));
    for h in &play.obvious_hints {
        assert!(play.all_hints.contains(h));
    }
}

#[test]
fn wrong_digits_count_as_errors() {
    let mut play = PlayState::new();
    assert!(play.load(puzzle_without(&[(0, 0), (8, 8)])));
    assert_eq!(play.error_count(), 0);
    assert_eq!(play.handle_play_key(PlayKey::Digit(4)), PlayOutcome::Stay);
    assert_eq!(play.grid.get(0, 0), 4);
    assert_eq!(play.error_count(), 1);
    play.handle_play_key(PlayKey::Clear);
    assert_eq!(play.grid.get(0, 0), 0);
    assert_eq!(play.error_count(), 0);
}

#[test]
fn givens_cannot_be_changed() {
    let mut play = PlayState::new();
    assert!(play.load(puzzle_without(&[(8, 8)])));
    play.handle_play_key(PlayKey::Digit(1));
    play.handle_play_key(PlayKey::Clear);
    assert_eq!(play.grid.get(0, 0), 5);
}

#[test]
fn cursor_stays_on_the_board() {
    let mut play = PlayState::new();
    assert!(play.load(puzzle_without(&[(8, 8)])));
    play.handle_play_key(PlayKey::Up);
    play.handle_play_key(PlayKey::Left);
    assert_eq!((play.cursor_row, play.cursor_col), (0, 0));
    for _ in 0..12 {
        play.handle_play_key(PlayKey::Down);
        play.handle_play_key(PlayKey::Right);
    }
    assert_eq!((play.cursor_row, play.cursor_col), (8, 8));
    assert_eq!(play.handle_play_key(PlayKey::Back), PlayOutcome::BackToMenu);
}

#[test]
fn hint_key_cycles_and_fill_places_the_hint() {
    let mut play = PlayState::new();
    assert!(play.load(puzzle_without(&[(2, 3), (6, 7)])));
    play.handle_play_key(PlayKey::Hint);
    assert_eq!(play.hint_index, 1);
    assert_eq!((play.cursor_row, play.cursor_col), (6, 7));
    play.handle_play_key(PlayKey::Hint);
    assert_eq!(play.hint_index, 0);
    assert_eq!((play.cursor_row, play.cursor_col), (2, 3));
    play.handle_play_key(PlayKey::Fill);
    assert_eq!(play.grid.get(2, 3), 3);
    assert_eq!(play.all_hints, vec![(6, 7, 8)]);
    play.handle_play_key(PlayKey::ToggleErrors);
    assert!(play.show_errors);
}

#[test]
fn hint_key_falls_back_to_all_cells() {
    let mut play = PlayState::new();
    // An empty board: every cell pending, none obvious.
    let puzzle = PuzzleState { grid: Grid::empty(), givens: [[false; 9]; 9], cages: None, solution: solved() };
    assert!(play.load(puzzle));
    assert_eq!(play.all_hints.len(), 81);
    assert!(play.obvious_hints.is_empty());
    play.handle_play_key(PlayKey::Hint);
    assert!(play.show_non_obvious);
    assert_eq!(play.active_hints().len(), 81);
    assert_eq!((play.cursor_row, play.cursor_col), (0, 0));
}

#[test]
fn killer_cage_narrows_the_options() {
    // Empty board with the row-0 cells paired into a cage of sum 8 at (0,0),(0,1):
    // with (0,1) = 3 placed, (0,0) must be 5.
    let mut cages: Vec<Cage> = Vec::new();
    cages.push(Cage { cells: vec![(0, 0), (0, 1)], sum: 8 });
    let mut grid = Grid::empty();
    grid.set(0, 1, 3);
    let mut givens = [[false; 9]; 9];
    givens[0][1] = true;
    let puzzle = PuzzleState { grid, givens, cages: Some(cages), solution: solved() };
    let mut play = PlayState::new();
    assert!(play.load(puzzle));
    assert_eq!(play.obvious_hints, vec![(0, 0, 5)]);
}

#[test]
fn load_refuses_out_of_range_puzzles() {
    let mut play = PlayState::new();
    let mut p = puzzle_without(&[]);
    p.grid.set(3, 3, 12);
    assert!(!play.load(p));
    let mut p = puzzle_without(&[]);
    p.cages = Some(vec![Cage { cells: vec![(9, 0)], sum: 1 }]);
    assert!(!play.load(p));
}

#[test]
fn menu_keys() {
    let mut menu = MenuState { difficulty: Difficulty::Easy, game_mode: GameMode::Classic, menu_index: 0 };
    assert_eq!(menu.handle_menu_key(MenuKey::Difficulty, false), MenuCommand::Nothing);
    assert_eq!(menu.difficulty, Difficulty::Medium);
    assert_eq!(menu.handle_menu_key(MenuKey::Mode, false), MenuCommand::Nothing);
    assert_eq!(menu.game_mode, GameMode::Killer);
    menu.handle_menu_key(MenuKey::Up, false);
    assert_eq!(menu.menu_index, 0);
    for _ in 0..6 {
        menu.handle_menu_key(MenuKey::Down, false);
    }
    assert_eq!(menu.menu_index, 4);
    assert_eq!(menu.handle_menu_key(MenuKey::Enter, false), MenuCommand::Quit);
    menu.handle_menu_key(MenuKey::Up, false);
    assert_eq!(menu.handle_menu_key(MenuKey::Enter, false), MenuCommand::EnterPlay);
    assert_eq!(menu.handle_menu_key(MenuKey::New, false), MenuCommand::StartGeneration);
    assert_eq!(menu.handle_menu_key(MenuKey::Escape, false), MenuCommand::Quit);
    assert_eq!(menu.handle_menu_key(MenuKey::Quit, true), MenuCommand::Nothing);
    assert_eq!(menu.handle_menu_key(MenuKey::Escape, true), MenuCommand::CancelGeneration);
    assert_eq!(menu.handle_menu_key(MenuKey::Difficulty, true), MenuCommand::Nothing);
    assert_eq!(menu.difficulty, Difficulty::Medium);
}

#[test]
fn cell_look_reports_highlights() {
    let mut play = PlayState::new();
    assert!(play.load(puzzle_without(&[(0, 0), (0, 1)])));
    // (0,0) holds 5 in the solution; enter a wrong digit and show errors.
    play.handle_play_key(PlayKey::Digit(3));
    play.handle_play_key(PlayKey::ToggleErrors);
    let look = play.cell_look(0, 0, true, None);
    assert_eq!(look.digit, 3);
    assert!(look.cursor);
    assert!(look.error);
    assert!(!look.given);
    assert_eq!(look.shade, Shade::Box);
    assert_eq!(look.label, None);
    let look = play.cell_look(4, 4, true, None);
    assert!(look.given && !look.cursor && !look.error);
    assert_eq!(look.shade, Shade::Box);
    assert_eq!(play.cell_look(0, 3, false, None).shade, Shade::Plain);
    assert!(!play.cell_look(0, 0, false, None).cursor);
}

#[test]
fn cell_look_with_cages_shows_colour_and_label() {
    let cages: Vec<Cage> = (0..9)
        .map(|r| Cage { cells: (0..9).map(|c| (r, c)).collect(), sum: 45 })
        .collect();
    let render = compute_cage_render_info(&cages);
    let puzzle = PuzzleState { grid: Grid::empty(), givens: [[false; 9]; 9], cages: Some(cages), solution: solved() };
    let mut play = PlayState::new();
    assert!(play.load(puzzle));
    let look = play.cell_look(1, 0, false, Some(&render));
    assert_eq!(look.shade, Shade::Cage(1));
    assert_eq!(look.label, Some(45));
    assert_eq!(play.cell_look(1, 5, false, Some(&render)).label, None);
}

#[test]
fn hint_panel_and_filled_count() {
    let mut play = PlayState::new();
    assert!(play.load(puzzle_without(&[(3, 3)])));
    assert_eq!(play.filled_count(), 80);
    assert_eq!(play.hint_panel(), HintPanel::Hint { shown: 1, all: false, row: 3, col: 3, digit: 7 });
    play.handle_play_key(PlayKey::Fill);
    assert_eq!(play.filled_count(), 81);
    assert_eq!(play.hint_panel(), HintPanel::NoUnsolved);
    let puzzle = PuzzleState { grid: Grid::empty(), givens: [[false; 9]; 9], cages: None, solution: solved() };
    assert!(play.load(puzzle));
    assert_eq!(play.hint_panel(), HintPanel::NoObvious { unsolved: 81 });
    assert_eq!(play.filled_count(), 0);
}

#[test]
fn range_and_render_checks() {
    let mut g = solved();
    assert!(sudokli::session::grid_in_range(&g));
    g.set(0, 0, 12);
    assert!(!sudokli::session::grid_in_range(&g));
    let ok = vec![Cage { cells: vec![(0, 0), (8, 8)], sum: 10 }];
    assert!(sudokli::session::cages_renderable(&ok));
    let empty = vec![Cage { cells: vec![], sum: 0 }];
    assert!(!sudokli::session::cages_renderable(&empty));
    let off = vec![Cage { cells: vec![(9, 0)], sum: 1 }];
    assert!(!sudokli::session::cages_renderable(&off));
}
