use sudoku::board::{grid_consistent, is_valid_placement, Grid};
use sudoku::game::{Difficulty, MoveType, SudokuGame};
use sudoku::solver::{fill_grid, has_unique_solution};

fn count_filled(g: &Grid) -> usize {
    g.iter().flatten().filter(|v| v.is_some()).count()
}

fn first_empty(game: &SudokuGame) -> (usize, usize) {
    for r in 0..9 {
        for c in 0..9 {
            if game.grid[r][c].is_none() {
                return (r, c);
            }
        }
    }
    panic!("no empty cell");
}

fn first_given(game: &SudokuGame) -> (usize, usize) {
    for r in 0..9 {
        for c in 0..9 {
            if game.is_initial_cell(r, c) {
                return (r, c);
            }
        }
    }
    panic!("no given cell");
}

fn shifted_rows() -> Grid {
    let mut g: Grid = [[None; 9]; 9];
    for r in 0..9 {
        for c in 0..9 {
            g[r][c] = Some(((3 * (r % 3) + r / 3 + c) % 9 + 1) as u8);
        }
    }
    g
}

#[test]
fn removal_ranges_per_difficulty() {
    assert_eq!(Difficulty::VeryEasy.numbers_to_remove(), (31, 36));
    assert_eq!(Difficulty::Easy.numbers_to_remove(), (36, 41));
    assert_eq!(Difficulty::Medium.numbers_to_remove(), (41, 46));
    assert_eq!(Difficulty::Hard.numbers_to_remove(), (46, 51));
}

#[test]
fn medium_puzzle_givens_and_given_cell_rejects_input() {
    let mut game = SudokuGame::new_with_difficulty(Difficulty::Medium);
    let givens = count_filled(&game.initial_grid);
    assert!((81 - 46..=81 - 41).contains(&givens), "givens: {}", givens);
    assert_eq!(game.grid, game.initial_grid);
    let (r, c) = first_given(&game);
    game.select_cell(r, c);
    let before = game.grid;
    assert!(!game.input_number(5));
    assert_eq!(game.grid, before);
    assert!(!game.can_undo());
}

#[test]
fn seeded_puzzles_have_one_solution() {
    for (seed, difficulty) in [(1u64, Difficulty::VeryEasy), (2, Difficulty::Easy), (3, Difficulty::Medium), (4, Difficulty::Hard)] {
        let (min_remove, max_remove) = difficulty.numbers_to_remove();
        let game = SudokuGame::generate_random_puzzle(difficulty, seed);
        assert!(has_unique_solution(&game.initial_grid));
        let removed = 81 - count_filled(&game.initial_grid);
        assert!(removed <= max_remove);
        assert!(removed >= min_remove, "removed {} at seed {}", removed, seed);
        assert!(grid_consistent(&game.grid));
    }
}

#[test]
fn same_seed_same_puzzle() {
    let a = SudokuGame::generate_random_puzzle(Difficulty::Easy, 42);
    let b = SudokuGame::generate_random_puzzle(Difficulty::Easy, 42);
    assert_eq!(a.initial_grid, b.initial_grid);
}

#[test]
fn input_then_undo_then_redo() {
    let mut game = SudokuGame::generate_random_puzzle(Difficulty::Easy, 7);
    let (r, c) = first_empty(&game);
    game.select_cell(r, c);
    let before = game.grid;
    assert!(game.input_number(7));
    assert_eq!(game.grid[r][c], Some(7));
    let after = game.grid;
    assert!(game.undo());
    assert_eq!(game.grid, before);
    assert!(game.can_redo());
    assert!(game.redo());
    assert_eq!(game.grid, after);
    assert_eq!(game.grid[r][c], Some(7));
    assert!(!game.can_redo());
}

#[test]
fn note_then_input_clears_notes() {
    let mut game = SudokuGame::generate_random_puzzle(Difficulty::Easy, 9);
    let (r, c) = first_empty(&game);
    game.toggle_note(r, c, 3);
    assert!(game.get_notes(r, c).contains(&3));
    game.select_cell(r, c);
    assert!(game.input_number(5));
    assert!(game.get_notes(r, c).is_empty());
}

#[test]
fn toggle_note_twice_removes_it() {
    let mut game = SudokuGame::generate_random_puzzle(Difficulty::Easy, 10);
    let (r, c) = first_empty(&game);
    game.toggle_note(r, c, 4);
    game.toggle_note(r, c, 6);
    game.toggle_note(r, c, 4);
    assert_eq!(game.get_notes(r, c).len(), 1);
    assert!(game.get_notes(r, c).contains(&6));
    game.clear_notes(r, c);
    assert!(game.get_notes(r, c).is_empty());
}

#[test]
fn given_cells_are_untouchable() {
    let mut game = SudokuGame::generate_random_puzzle(Difficulty::Hard, 11);
    let (r, c) = first_given(&game);
    game.toggle_note(r, c, 2);
    assert!(game.get_notes(r, c).is_empty());
    game.select_cell(r, c);
    assert_eq!(game.selected_cell, None);
    assert_eq!(game.highlighted_number, game.grid[r][c]);
    game.clear_selected_cell();
    assert_eq!(game.grid, game.initial_grid);
    assert!(game.move_history.is_empty());
    let (er, ec) = first_empty(&game);
    game.select_cell(er, ec);
    game.select_cell(r, c);
    assert_eq!(game.selected_cell, Some((er, ec)));
}

#[test]
fn fast_check_matches_full_scan_after_edits() {
    let mut game = SudokuGame::generate_random_puzzle(Difficulty::Medium, 12);
    let mut digit = 1u8;
    for r in 0..9 {
        for c in 0..9 {
            if !game.is_initial_cell(r, c) && (r + c) % 2 == 0 {
                game.select_cell(r, c);
                game.input_number(digit);
                digit = digit % 9 + 1;
            }
        }
    }
    for r in 0..9 {
        for c in 0..9 {
            if !game.is_initial_cell(r, c) && (r * c) % 3 == 0 {
                game.select_cell(r, c);
                game.clear_selected_cell();
            }
        }
    }
    game.undo();
    game.undo();
    for r in 0..9 {
        for c in 0..9 {
            for d in 1..=9u8 {
                assert_eq!(game.is_valid_move(r, c, d), is_valid_placement(&game.grid, r, c, d));
            }
        }
    }
}

#[test]
fn clearing_one_of_two_equal_digits_keeps_it_taken() {
    let mut game = SudokuGame::generate_random_puzzle(Difficulty::Hard, 13);
    let mut empties = Vec::new();
    for c in 0..9 {
        if game.grid[0][c].is_none() {
            empties.push(c);
        }
    }
    assert!(empties.len() >= 2);
    let d = (1..=9u8).find(|d| !game.grid[0].contains(&Some(*d))).unwrap();
    game.select_cell(0, empties[0]);
    game.input_number(d);
    game.select_cell(0, empties[1]);
    game.input_number(d);
    assert!(game.has_conflicts(0, empties[0]));
    game.clear_selected_cell();
    for c in 0..9 {
        assert_eq!(game.is_valid_move(0, c, d), is_valid_placement(&game.grid, 0, c, d));
    }
    assert!(!game.is_valid_move(0, empties[1], d));
}

#[test]
fn new_move_prunes_redo_branch() {
    let mut game = SudokuGame::generate_random_puzzle(Difficulty::Easy, 14);
    let (r, c) = first_empty(&game);
    game.select_cell(r, c);
    game.input_number(1);
    game.input_number(2);
    game.input_number(3);
    assert!(game.undo());
    assert!(game.undo());
    assert!(game.can_redo());
    game.input_number(9);
    assert!(!game.can_redo());
    assert_eq!(game.move_history.len(), 2);
    assert_eq!(game.current_move_index, Some(1));
    assert!(game.undo());
    assert!(game.undo());
    assert!(!game.undo());
    assert!(!game.can_undo());
    assert!(game.redo());
    assert!(game.redo());
    assert!(!game.redo());
    assert_eq!(game.grid[r][c], Some(9));
}

#[test]
fn hint_fills_the_first_empty_cell_with_its_solution_digit() {
    let mut game = SudokuGame::generate_random_puzzle(Difficulty::Medium, 15);
    let (r, c) = first_empty(&game);
    assert!(game.solve_one_cell());
    let digit = game.grid[r][c].unwrap();
    assert!(has_unique_solution(&game.grid));
    let mut others = 0;
    for d in 1..=9u8 {
        let mut trial = game.initial_grid;
        trial[r][c] = Some(d);
        if is_valid_placement(&game.initial_grid, r, c, d) && has_unique_solution(&trial) {
            others += 1;
            assert_eq!(d, digit);
        }
    }
    assert_eq!(others, 1);
    let last = game.move_history.last().unwrap();
    assert_eq!(last.move_type, MoveType::Hint);
    assert_eq!((last.row, last.col, last.old_value, last.new_value), (r, c, None, Some(digit)));
}

#[test]
fn hints_complete_the_puzzle() {
    let mut game = SudokuGame::generate_random_puzzle(Difficulty::VeryEasy, 16);
    while !game.is_complete() {
        assert!(game.solve_one_cell());
    }
    assert!(!game.solve_one_cell());
    assert!(grid_consistent(&game.grid));
    for r in 0..9 {
        for c in 0..9 {
            assert!(!game.has_conflicts(r, c));
        }
    }
}

#[test]
fn hint_refused_on_conflicting_board() {
    let mut game = SudokuGame::generate_random_puzzle(Difficulty::Easy, 17);
    let (r, c) = first_empty(&game);
    let d = (1..=9u8).find(|d| game.grid[r].contains(&Some(*d))).unwrap();
    game.select_cell(r, c);
    game.input_number(d);
    assert!(game.has_conflicts(r, c));
    let before = game.grid;
    let moves = game.move_history.len();
    assert!(!game.solve_one_cell());
    assert_eq!(game.grid, before);
    assert_eq!(game.move_history.len(), moves);
}

#[test]
fn complete_means_no_empty_cell_only() {
    let mut game = SudokuGame::generate_random_puzzle(Difficulty::VeryEasy, 18);
    assert!(!game.is_complete());
    for r in 0..9 {
        for c in 0..9 {
            if game.grid[r][c].is_none() {
                game.select_cell(r, c);
                game.input_number(1);
            }
        }
    }
    assert!(game.is_complete());
    assert!(!grid_consistent(&game.grid));
}

#[test]
fn highlight_follows_selected_digit() {
    let mut game = SudokuGame::generate_random_puzzle(Difficulty::Easy, 19);
    let (r, c) = first_given(&game);
    let d = game.grid[r][c];
    game.select_cell(r, c);
    for r2 in 0..9 {
        for c2 in 0..9 {
            assert_eq!(game.is_cell_highlighted(r2, c2), game.grid[r2][c2] == d);
        }
    }
    let (er, ec) = first_empty(&game);
    game.select_cell(er, ec);
    assert_eq!(game.highlighted_number, None);
    assert!(!game.is_cell_highlighted(r, c));
}

#[test]
fn move_log_lines() {
    let mut game = SudokuGame::generate_random_puzzle(Difficulty::Easy, 20);
    let (r, c) = first_empty(&game);
    game.select_cell(r, c);
    game.input_number(7);
    game.input_number(4);
    game.clear_selected_cell();
    let pos = format!("R{}C{}", r + 1, c + 1);
    assert_eq!(
        game.get_move_log(),
        vec![
            format!("✓ Manual input: {} → 7", pos),
            format!("✓ Manual input: {} 7 → 4", pos),
            format!("► Clear cell: {} 4 → ∅", pos),
        ]
    );
    game.undo();
    game.undo();
    assert_eq!(
        game.get_move_log(),
        vec![
            format!("► Manual input: {} → 7", pos),
            format!("○ Manual input: {} 7 → 4", pos),
            format!("○ Clear cell: {} 4 → ∅", pos),
        ]
    );
    game.undo();
    assert_eq!(game.get_move_log()[0], format!("○ Manual input: {} → 7", pos));
}

#[test]
fn hint_appears_in_log_with_timestamp() {
    let mut game = SudokuGame::generate_random_puzzle(Difficulty::Easy, 21);
    let (r, c) = first_empty(&game);
    assert!(game.solve_one_cell());
    let d = game.grid[r][c].unwrap();
    assert_eq!(game.get_move_log(), vec![format!("► Hint input: R{}C{} → {}", r + 1, c + 1, d)]);
    let stamp = &game.move_history[0].timestamp;
    assert!(!stamp.is_empty() && stamp.chars().all(|ch| ch.is_ascii_digit()));
    assert!(stamp.parse::<u64>().unwrap() > 1_600_000_000);
}

#[test]
fn reset_replaces_the_session() {
    let mut game = SudokuGame::new();
    let (r, c) = first_empty(&game);
    game.select_cell(r, c);
    game.input_number(3);
    game.reset_with_difficulty(Difficulty::Hard);
    assert!(game.move_history.is_empty());
    assert_eq!(game.selected_cell, None);
    assert_eq!(game.grid, game.initial_grid);
    let removed = 81 - count_filled(&game.initial_grid);
    assert!(removed <= 51);
    assert!(has_unique_solution(&game.initial_grid));
}

#[test]
fn solver_on_fixed_boards() {
    let full = shifted_rows();
    assert!(grid_consistent(&full));
    assert!(has_unique_solution(&full));
    let empty: Grid = [[None; 9]; 9];
    assert!(!has_unique_solution(&empty));
    let mut one_gap = full;
    one_gap[4][4] = None;
    assert!(has_unique_solution(&one_gap));
    let mut clash = full;
    clash[0][1] = clash[0][0];
    assert!(!grid_consistent(&clash));
    assert!(!has_unique_solution(&clash));
}

#[test]
fn fill_completes_an_empty_board() {
    let mut g: Grid = [[None; 9]; 9];
    let mut seed = 5u64;
    assert!(fill_grid(&mut g, 0, &mut seed));
    assert_eq!(count_filled(&g), 81);
    assert!(grid_consistent(&g));
    let mut stuck: Grid = [[None; 9]; 9];
    for c in 0..8 {
        stuck[0][c] = Some(c as u8 + 1);
    }
    stuck[1][8] = Some(9);
    assert!(grid_consistent(&stuck));
    let copy = stuck;
    let mut seed2 = 6u64;
    assert!(!fill_grid(&mut stuck, 0, &mut seed2));
    assert_eq!(stuck, copy);
    assert!(!has_unique_solution(&stuck));
}
