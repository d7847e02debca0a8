//! Properties of a session that hold across its operations.
use vstd::prelude::*;
use crate::board::{
    agree_except, box_of, lemma_free_iff_legal, lemma_grid_ext, on_board, placement_legal,
    uniquely_solvable, Grid,
};
use crate::game::{next_index, MoveType, SudokuGame};
use crate::solver::lemma_unique_digit;

verus! {

/// The kept free-digit sets never drift from the board: in every well-formed session a digit
/// is free in the row, column and box sets of a cell exactly when a full scan of the board
/// finds it nowhere in that cell's row, column or box.
pub proof fn lemma_sets_match_scan(game: SudokuGame, row: int, col: int, d: u8)
    requires
        game.wf(),
        on_board(row, col),
        1 <= d <= 9,
    ensures
        (game.row_available[row]@.contains(d) && game.col_available[col]@.contains(d)
            && game.box_available[box_of(row, col)]@.contains(d)) == placement_legal(game.grid, row, col, d),
{
    assert(game.available(0, row) == crate::board::unit_free(game.grid, 0, row));
    assert(game.available(1, col) == crate::board::unit_free(game.grid, 1, col));
    assert(game.available(2, box_of(row, col)) == crate::board::unit_free(game.grid, 2, box_of(row, col)));
    lemma_free_iff_legal(game.grid, row, col, d);
}

/// Undo and redo invert each other: undoing a move right after it was made restores the
/// board and the free-digit sets of before the move, and redoing it then restores the board,
/// the sets, the history and the cursor of just after the move.
pub proof fn lemma_undo_redo_inverse(
    before: SudokuGame,
    moved: SudokuGame,
    undone: SudokuGame,
    redone: SudokuGame,
    row: int,
    col: int,
    value: Option<u8>,
    kind: MoveType,
)
    requires
        before.wf(),
        moved.wf(),
        undone.wf(),
        redone.wf(),
        on_board(row, col),
        moved.edit_step(&before, row, col, value, kind),
        undone.undo_step(&moved),
        redone.redo_step(&undone),
    ensures
        undone.grid == before.grid,
        forall|k: int, i: int| 0 <= k < 3 && 0 <= i < 9 ==> #[trigger] undone.available(k, i) == before.available(k, i),
        redone.grid == moved.grid,
        forall|k: int, i: int| 0 <= k < 3 && 0 <= i < 9 ==> #[trigger] redone.available(k, i) == moved.available(k, i),
        redone.move_history@ == moved.move_history@,
        redone.current_move_index == moved.current_move_index,
{
    let n = moved.current_move_index->0;
    assert(moved.move_history@[n as int].row == row && moved.move_history@[n as int].col == col);
    assert forall|r: int, c: int| on_board(r, c) implies #[trigger] undone.grid[r][c] == before.grid[r][c] by {
        if r != row || c != col {
            assert(undone.grid[r][c] == moved.grid[r][c]);
        }
    }
    lemma_grid_ext(undone.grid, before.grid);
    assert(next_index(undone.current_move_index) == n);
    assert forall|r: int, c: int| on_board(r, c) implies #[trigger] redone.grid[r][c] == moved.grid[r][c] by {
        if r != row || c != col {
            assert(redone.grid[r][c] == undone.grid[r][c]);
        }
    }
    lemma_grid_ext(redone.grid, moved.grid);
}

/// A new move drops the redo branch: after any recorded edit nothing is left to redo, however
/// many moves were undone before it.
pub proof fn lemma_edit_prunes_redo(before: SudokuGame, after: SudokuGame, row: int, col: int, value: Option<u8>, kind: MoveType)
    requires
        after.edit_step(&before, row, col, value, kind),
    ensures
        !(next_index(after.current_move_index) < after.move_history@.len()),
{
}

/// Given cells are out of the player's reach: in every well-formed session the selected cell,
/// the only one that input and clearing write, is not given, and every given cell still holds
/// its given digit.
pub proof fn lemma_givens_fixed(game: SudokuGame)
    requires
        game.wf(),
    ensures
        game.selected_cell matches Some((r, c)) ==> game.initial_grid[r as int][c as int] is None,
        forall|r: int, c: int|
            on_board(r, c) && (#[trigger] game.initial_grid[r][c]) is Some ==> game.grid[r][c]
                == game.initial_grid[r][c],
{
}

/// A hint keeps the solution unique, and its digit is the only one that is legal at its cell
/// and leaves the board with a single solution.
pub proof fn lemma_hint_digit_unique(before: SudokuGame, after: SudokuGame, row: int, col: int, other: Grid, d: u8)
    requires
        after.hinted_at(&before, row, col),
        agree_except(before.grid, other, row, col),
        other[row][col] == Some(d),
    ensures
        uniquely_solvable(after.grid),
        (placement_legal(before.grid, row, col, d) && uniquely_solvable(other)) == (after.grid[row][col]
            == Some(d)),
{
    lemma_unique_digit(before.grid, other, row, col, d);
    let sol = choose|s: Grid| crate::board::is_solution(s, before.grid);
    assert(sol[row][col] == after.grid[row][col]);
}

} // verus!
