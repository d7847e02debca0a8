//! One playing session: the board and its givens, the selection, notes, the
//! incrementally kept sets of free digits, and the linear move history.
use vstd::prelude::*;
use std::collections::HashSet;
use crate::clock::{clock_seed, timestamp_now};
use crate::random::{lists_cell, next_random, shuffled_cells};
use crate::solver::{
    essential, fill_grid, filled_before, has_unique_solution, lemma_empty_board_solvable,
    lemma_essential_from_removal, lemma_essential_shrinks, lemma_unique_digit,
};
use crate::board::{
    agree_except, cell_conflicts, conflict_at, digit_or_empty, empty_count, extends, full,
    is_solution, lemma_empty_count_change, lemma_free_iff_legal, lemma_full_empty_count,
    lemma_unit_free_change, on_board, placement_legal, uniquely_solvable, unit_free, unit_holds,
    unit_of, well_formed, Grid,
};

verus! {

broadcast use vstd::std_specs::hash::group_hash_axioms;

/// What produced a move.
#[derive(Clone, Copy, Debug, PartialEq, Eq, Structural)]
pub enum MoveType {
    Input,
    Clear,
    Hint,
}

/// One recorded change of a cell.
#[derive(Clone, Debug, PartialEq)]
pub struct GameMove {
    pub row: usize,
    pub col: usize,
    pub old_value: Option<u8>,
    pub new_value: Option<u8>,
    pub move_type: MoveType,
    pub timestamp: String,
}

/// How many cells carving tries to empty.
#[derive(Clone, Copy, Debug, PartialEq, Eq, Structural)]
pub enum Difficulty {
    VeryEasy,
    Easy,
    Medium,
    Hard,
}

/// The closed range of cells to remove for a difficulty.
pub open spec fn removal_range(d: Difficulty) -> (usize, usize) {
    match d {
        Difficulty::VeryEasy => (31, 36),
        Difficulty::Easy => (36, 41),
        Difficulty::Medium => (41, 46),
        Difficulty::Hard => (46, 51),
    }
}

/// Carving removed at most the difficulty's largest count of digits, and at least its
/// smallest unless every digit left is needed for the solution to stay unique.
pub open spec fn carved_enough(puzzle: Grid, difficulty: Difficulty) -> bool {
    &&& empty_count(puzzle, 81) <= removal_range(difficulty).1
    &&& (empty_count(puzzle, 81) >= removal_range(difficulty).0 || forall|r: int, c: int|
        on_board(r, c) && (#[trigger] puzzle[r][c]) is Some ==> essential(puzzle, r, c))
}

impl Difficulty {
    /// The closed range of cells that carving removes at this difficulty.
    pub fn numbers_to_remove(&self) -> (range: (usize, usize))
        ensures
            range == removal_range(*self),
    {
        match self {
            Difficulty::VeryEasy => (31, 36),
            Difficulty::Easy => (36, 41),
            Difficulty::Medium => (41, 46),
            Difficulty::Hard => (46, 51),
        }
    }
}

/// The fields of a move that the rules read, the timestamp aside.
pub open spec fn move_is(m: GameMove, row: int, col: int, old_value: Option<u8>, new_value: Option<u8>, kind: MoveType) -> bool {
    m.row == row && m.col == col && m.old_value == old_value && m.new_value == new_value && m.move_type == kind
}

/// The moves that stay after a new move is recorded at cursor `cursor`:
/// those up to the cursor, and none when there is no cursor.
pub open spec fn kept_moves(history: Seq<GameMove>, cursor: Option<usize>) -> Seq<GameMove> {
    match cursor {
        Some(i) => history.subrange(0, i + 1),
        None => Seq::empty(),
    }
}

/// Index of the move that redo would apply.
pub open spec fn next_index(cursor: Option<usize>) -> int {
    match cursor {
        Some(i) => i + 1,
        None => 0,
    }
}

/// The cursor after stepping one move back from `i`.
pub open spec fn cursor_before(i: usize) -> Option<usize> {
    if i == 0 {
        None
    } else {
        Some((i - 1) as usize)
    }
}

/// Nine empty digit sets.
fn empty_sets() -> (sets: [HashSet<u8>; 9])
    ensures
        forall|i: int| 0 <= i < 9 ==> (#[trigger] sets[i])@ == Set::<u8>::empty(),
{
    [
        HashSet::new(),
        HashSet::new(),
        HashSet::new(),
        HashSet::new(),
        HashSet::new(),
        HashSet::new(),
        HashSet::new(),
        HashSet::new(),
        HashSet::new(),
    ]
}

/// The digits 1 to 9 that unit `i` of a kind leaves free on `g`.
fn free_digits(g: &Grid, kind: usize, i: usize) -> (free: HashSet<u8>)
    requires
        kind < 3,
        i < 9,
    ensures
        free@ == unit_free(*g, kind as int, i as int),
{
    let mut free: HashSet<u8> = HashSet::new();
    let mut num: u8 = 1;
    while num <= 9
        invariant
            1 <= num <= 10,
            kind < 3,
            i < 9,
            free@ == unit_free(*g, kind as int, i as int).filter(|d: u8| d < num),
        decreases 10 - num,
    {
        if !unit_holds(g, kind, i, num) {
            free.insert(num);
        }
        proof {
            assert(free@ =~= unit_free(*g, kind as int, i as int).filter(|d: u8| d < num + 1));
        }
        num += 1;
    }
    assert(free@ =~= unit_free(*g, kind as int, i as int));
    free
}

/// A whole session of play.
#[derive(Clone, PartialEq)]
pub struct SudokuGame {
    pub grid: Grid,
    pub initial_grid: Grid,
    pub selected_cell: Option<(usize, usize)>,
    pub highlighted_number: Option<u8>,
    pub notes: [[HashSet<u8>; 9]; 9],
    /// Free digits of each row, column and box, kept in step with `grid` by the methods.
    pub row_available: [HashSet<u8>; 9],
    pub col_available: [HashSet<u8>; 9],
    pub box_available: [HashSet<u8>; 9],
    pub move_history: Vec<GameMove>,
    pub current_move_index: Option<usize>,
}

impl SudokuGame {
    /// The free-digit set kept for unit `i` of a kind: rows (0), columns (1), boxes (2).
    pub open spec fn available(&self, kind: int, i: int) -> Set<u8> {
        if kind == 0 {
            self.row_available[i]@
        } else if kind == 1 {
            self.col_available[i]@
        } else {
            self.box_available[i]@
        }
    }

    /// Every kept set holds exactly the free digits of its unit on the current board.
    pub open spec fn sets_mirror(&self) -> bool {
        forall|kind: int, i: int|
            0 <= kind < 3 && 0 <= i < 9 ==> #[trigger] self.available(kind, i) == unit_free(self.grid, kind, i)
    }

    /// The kept sets mirror the board, but for digit `num` in the units of (row, col).
    pub open spec fn sets_mirror_but(&self, row: int, col: int, num: u8) -> bool {
        forall|kind: int, i: int|
            0 <= kind < 3 && 0 <= i < 9 ==> if i == unit_of(kind, row, col) {
                forall|d: u8|
                    d != num ==> (#[trigger] self.available(kind, i).contains(d)) == unit_free(
                        self.grid,
                        kind,
                        i,
                    ).contains(d)
            } else {
                #[trigger] self.available(kind, i) == unit_free(self.grid, kind, i)
            }
    }

    /// A recorded move targets a cell that is not given and holds digits or nothing.
    pub open spec fn move_ok(&self, m: GameMove) -> bool {
        m.row < 9 && m.col < 9 && self.initial_grid[m.row as int][m.col as int] is None
            && digit_or_empty(m.old_value) && digit_or_empty(m.new_value)
    }

    /// The session's invariant.
    pub open spec fn wf(&self) -> bool {
        &&& well_formed(self.grid)
        &&& well_formed(self.initial_grid)
        &&& forall|r: int, c: int|
            on_board(r, c) && (#[trigger] self.initial_grid[r][c]) is Some ==> self.grid[r][c]
                == self.initial_grid[r][c]
        &&& forall|r: int, c: int|
            on_board(r, c) && (#[trigger] self.grid[r][c]) is Some ==> self.notes[r][c]@
                == Set::<u8>::empty()
        &&& self.sets_mirror()
        &&& match self.selected_cell {
            Some((r, c)) => r < 9 && c < 9 && self.initial_grid[r as int][c as int] is None,
            None => true,
        }
        &&& match self.current_move_index {
            Some(i) => i < self.move_history@.len(),
            None => true,
        }
        &&& forall|i: int| 0 <= i < self.move_history@.len() ==> self.move_ok(#[trigger] self.move_history@[i])
    }

    /// Everything but the board, the notes and the kept sets is as in `other`.
    pub open spec fn same_but_board(&self, other: &SudokuGame) -> bool {
        &&& self.initial_grid == other.initial_grid
        &&& self.selected_cell == other.selected_cell
        &&& self.highlighted_number == other.highlighted_number
        &&& self.move_history@ == other.move_history@
        &&& self.current_move_index == other.current_move_index
    }

    /// The board is `other`'s with (row, col) set to `value`; that cell's notes are emptied
    /// when it receives a digit and the other notes stay.
    pub open spec fn board_after_set(&self, other: &SudokuGame, row: int, col: int, value: Option<u8>) -> bool {
        &&& agree_except(other.grid, self.grid, row, col)
        &&& self.grid[row][col] == value
        &&& forall|r: int, c: int|
            on_board(r, c) && (r != row || c != col) ==> (#[trigger] self.notes[r][c])@ == other.notes[r][c]@
        &&& if value is Some {
            self.notes[row][col]@ == Set::<u8>::empty()
        } else {
            self.notes[row][col]@ == other.notes[row][col]@
        }
    }

    /// The history is `before`'s with the moves after its cursor dropped and one move
    /// appended, on which the cursor now stands.
    pub open spec fn recorded(
        &self,
        before: &SudokuGame,
        row: int,
        col: int,
        old_value: Option<u8>,
        new_value: Option<u8>,
        kind: MoveType,
    ) -> bool {
        let kept = kept_moves(before.move_history@, before.current_move_index);
        &&& self.move_history@.len() == kept.len() + 1
        &&& self.move_history@.subrange(0, kept.len() as int) == kept
        &&& move_is(self.move_history@[kept.len() as int], row, col, old_value, new_value, kind)
        &&& self.current_move_index is Some
        &&& self.current_move_index->0 == kept.len()
    }

    /// `self` is `before` with `value` written at (row, col) by a move of kind `kind`, which
    /// is recorded; the givens, the selection and the highlight stay.
    pub open spec fn edit_step(&self, before: &SudokuGame, row: int, col: int, value: Option<u8>, kind: MoveType) -> bool {
        &&& self.board_after_set(before, row, col, value)
        &&& self.recorded(before, row, col, before.grid[row][col], value, kind)
        &&& self.initial_grid == before.initial_grid
        &&& self.selected_cell == before.selected_cell
        &&& self.highlighted_number == before.highlighted_number
    }

    /// `self` is `before` with the move at the cursor undone: its cell holds the move's old
    /// value again and the cursor steps back.
    pub open spec fn undo_step(&self, before: &SudokuGame) -> bool {
        &&& before.current_move_index is Some
        &&& {
            let i = before.current_move_index->0;
            let m = before.move_history@[i as int];
            &&& self.board_after_set(before, m.row as int, m.col as int, m.old_value)
            &&& self.current_move_index == cursor_before(i)
        }
        &&& self.move_history@ == before.move_history@
        &&& self.initial_grid == before.initial_grid
        &&& self.selected_cell == before.selected_cell
        &&& self.highlighted_number == before.highlighted_number
    }

    /// `self` is `before` with the move after the cursor applied again and the cursor on it.
    pub open spec fn redo_step(&self, before: &SudokuGame) -> bool {
        let i = next_index(before.current_move_index);
        let m = before.move_history@[i];
        &&& i < before.move_history@.len()
        &&& self.board_after_set(before, m.row as int, m.col as int, m.new_value)
        &&& self.current_move_index == Some(i as usize)
        &&& self.move_history@ == before.move_history@
        &&& self.initial_grid == before.initial_grid
        &&& self.selected_cell == before.selected_cell
        &&& self.highlighted_number == before.highlighted_number
    }

    /// `self` is `before` with a hint at (row, col): the first empty cell in row-major order
    /// receives the digit that every solution of `before`'s board has there, the board keeps a
    /// single solution, and the move is recorded.
    pub open spec fn hinted_at(&self, before: &SudokuGame, row: int, col: int) -> bool {
        &&& on_board(row, col)
        &&& before.grid[row][col] is None
        &&& filled_before(before.grid, row * 9 + col)
        &&& self.grid[row][col] is Some
        &&& self.edit_step(before, row, col, self.grid[row][col], MoveType::Hint)
        &&& uniquely_solvable(before.grid)
        &&& forall|s: Grid| is_solution(s, before.grid) ==> s[row][col] == self.grid[row][col]
        &&& uniquely_solvable(self.grid)
    }

    /// A session just started: its board is its givens, which have one solution and were
    /// carved as the difficulty asks; nothing is selected, noted or recorded.
    pub open spec fn fresh(&self, difficulty: Difficulty) -> bool {
        &&& self.wf()
        &&& self.grid == self.initial_grid
        &&& uniquely_solvable(self.initial_grid)
        &&& carved_enough(self.initial_grid, difficulty)
        &&& self.selected_cell is None
        &&& self.highlighted_number is None
        &&& self.move_history@.len() == 0
        &&& self.current_move_index is None
        &&& forall|r: int, c: int| on_board(r, c) ==> (#[trigger] self.notes[r][c])@ == Set::<u8>::empty()
    }

    /// Whether `num` is free in the kept sets of the row, the column and the box of (row, col).
    fn is_valid_placement_fast(&self, row: usize, col: usize, num: u8) -> (free: bool)
        requires
            self.wf(),
            row < 9,
            col < 9,
        ensures
            free == (1 <= num <= 9 && placement_legal(self.grid, row as int, col as int, num)),
    {
        let box_idx = (row / 3) * 3 + (col / 3);
        let free = self.row_available[row].contains(&num) && self.col_available[col].contains(&num)
            && self.box_available[box_idx].contains(&num);
        proof {
            assert(self.available(0, row as int) == unit_free(self.grid, 0, row as int));
            assert(self.available(1, col as int) == unit_free(self.grid, 1, col as int));
            assert(self.available(2, box_idx as int) == unit_free(self.grid, 2, box_idx as int));
            if 1 <= num <= 9 {
                lemma_free_iff_legal(self.grid, row as int, col as int, num);
            }
        }
        free
    }

    /// Takes `num`, now placed at (row, col), out of the three sets of that cell.
    fn add_number_to_constraints(&mut self, row: usize, col: usize, num: u8)
        requires
            row < 9,
            col < 9,
            old(self).grid[row as int][col as int] == Some(num),
            old(self).sets_mirror_but(row as int, col as int, num),
        ensures
            final(self).sets_mirror(),
            final(self).grid == old(self).grid,
            final(self).initial_grid == old(self).initial_grid,
            final(self).notes == old(self).notes,
            final(self).same_but_board(old(self)),
    {
        let ghost pre = *self;
        let box_idx = (row / 3) * 3 + (col / 3);
        self.row_available[row].remove(&num);
        self.col_available[col].remove(&num);
        self.box_available[box_idx].remove(&num);
        proof {
            let g = self.grid;
            assert forall|kind: int, i: int|
                0 <= kind < 3 && 0 <= i < 9 implies #[trigger] self.available(kind, i) == unit_free(g, kind, i) by {
                if i == unit_of(kind, row as int, col as int) {
                    let k = if kind == 0 {
                        col as int
                    } else if kind == 1 {
                        row as int
                    } else {
                        (row as int % 3) * 3 + col as int % 3
                    };
                    assert(g[crate::board::unit_row(kind, i, k)][crate::board::unit_col(kind, i, k)] == Some(num));
                    assert(!unit_free(g, kind, i).contains(num));
                    assert(self.available(kind, i) == pre.available(kind, i).remove(num));
                    assert forall|d: u8| #[trigger] self.available(kind, i).contains(d) == unit_free(g, kind, i).contains(d) by {
                        if d != num {
                            assert(pre.available(kind, i).contains(d) == unit_free(g, kind, i).contains(d));
                        }
                    }
                    assert(self.available(kind, i) =~= unit_free(g, kind, i));
                } else {
                    assert(self.available(kind, i) == pre.available(kind, i));
                }
            }
        }
    }

    /// Puts `num`, no longer at (row, col), back into those of the cell's three sets whose
    /// unit holds it nowhere else.
    fn remove_number_from_constraints(&mut self, row: usize, col: usize, num: u8)
        requires
            row < 9,
            col < 9,
            1 <= num <= 9,
            old(self).sets_mirror_but(row as int, col as int, num),
            forall|kind: int|
                0 <= kind < 3 ==> !(#[trigger] old(self).available(kind, unit_of(kind, row as int, col as int))).contains(num),
        ensures
            final(self).sets_mirror(),
            final(self).grid == old(self).grid,
            final(self).initial_grid == old(self).initial_grid,
            final(self).notes == old(self).notes,
            final(self).same_but_board(old(self)),
    {
        let ghost pre = *self;
        let box_idx = (row / 3) * 3 + (col / 3);
        let in_row = unit_holds(&self.grid, 0, row, num);
        if !in_row {
            self.row_available[row].insert(num);
        }
        let in_col = unit_holds(&self.grid, 1, col, num);
        if !in_col {
            self.col_available[col].insert(num);
        }
        let in_box = unit_holds(&self.grid, 2, box_idx, num);
        if !in_box {
            self.box_available[box_idx].insert(num);
        }
        proof {
            let g = self.grid;
            assert forall|kind: int, i: int|
                0 <= kind < 3 && 0 <= i < 9 implies #[trigger] self.available(kind, i) == unit_free(g, kind, i) by {
                if i == unit_of(kind, row as int, col as int) {
                    let held = if kind == 0 {
                        in_row
                    } else if kind == 1 {
                        in_col
                    } else {
                        in_box
                    };
                    if held {
                        assert(self.available(kind, i) == pre.available(kind, i));
                        let k = choose|k: int| 0 <= k < 9 && #[trigger] g[crate::board::unit_row(kind, i, k)][crate::board::unit_col(kind, i, k)] == Some(num);
                        assert(!unit_free(g, kind, i).contains(num));
                    } else {
                        assert(self.available(kind, i) == pre.available(kind, i).insert(num));
                        assert(unit_free(g, kind, i).contains(num));
                    }
                    assert forall|d: u8| #[trigger] self.available(kind, i).contains(d) == unit_free(g, kind, i).contains(d) by {
                        if d != num {
                            assert(pre.available(kind, i).contains(d) == unit_free(g, kind, i).contains(d));
                        }
                    }
                    assert(self.available(kind, i) =~= unit_free(g, kind, i));
                } else {
                    assert(self.available(kind, i) == pre.available(kind, i));
                }
            }
        }
    }

    /// Writes `value` into the non-given cell (row, col), keeps the free-digit sets in step,
    /// and empties the cell's notes when it receives a digit.
    fn write_cell(&mut self, row: usize, col: usize, value: Option<u8>)
        requires
            old(self).wf(),
            row < 9,
            col < 9,
            old(self).initial_grid[row as int][col as int] is None,
            digit_or_empty(value),
        ensures
            final(self).wf(),
            final(self).board_after_set(old(self), row as int, col as int, value),
            final(self).same_but_board(old(self)),
    {
        let ghost pre = *self;
        let old_value = self.grid[row][col];
        if let Some(o) = old_value {
            self.grid[row][col] = None;
            proof {
                assert(agree_except(pre.grid, self.grid, row as int, col as int));
                assert forall|kind: int, i: int| 0 <= kind < 3 && 0 <= i < 9 implies #[trigger] self.available(kind, i)
                    == pre.available(kind, i) by {}
                assert forall|kind: int, i: int| 0 <= kind < 3 && 0 <= i < 9 implies (if i == unit_of(kind, row as int, col as int) {
                    forall|d: u8|
                        d != o ==> (#[trigger] self.available(kind, i).contains(d)) == unit_free(self.grid, kind, i).contains(d)
                } else {
                    #[trigger] self.available(kind, i) == unit_free(self.grid, kind, i)
                }) by {
                    lemma_unit_free_change(pre.grid, self.grid, row as int, col as int, o, kind, i);
                    assert(pre.available(kind, i) == unit_free(pre.grid, kind, i));
                }
                assert forall|kind: int| 0 <= kind < 3 implies !(#[trigger] self.available(kind, unit_of(kind, row as int, col as int))).contains(o) by {
                    let i = unit_of(kind, row as int, col as int);
                    let k = if kind == 0 {
                        col as int
                    } else if kind == 1 {
                        row as int
                    } else {
                        (row as int % 3) * 3 + col as int % 3
                    };
                    assert(pre.grid[crate::board::unit_row(kind, i, k)][crate::board::unit_col(kind, i, k)] == Some(o));
                    assert(pre.available(kind, i) == unit_free(pre.grid, kind, i));
                }
            }
            self.remove_number_from_constraints(row, col, o);
        }
        if let Some(v) = value {
            let ghost mid = *self;
            self.grid[row][col] = Some(v);
            proof {
                assert(agree_except(mid.grid, self.grid, row as int, col as int));
                assert forall|kind: int, i: int| 0 <= kind < 3 && 0 <= i < 9 implies #[trigger] self.available(kind, i)
                    == mid.available(kind, i) by {}
                assert forall|kind: int, i: int| 0 <= kind < 3 && 0 <= i < 9 implies (if i == unit_of(kind, row as int, col as int) {
                    forall|d: u8|
                        d != v ==> (#[trigger] self.available(kind, i).contains(d)) == unit_free(self.grid, kind, i).contains(d)
                } else {
                    #[trigger] self.available(kind, i) == unit_free(self.grid, kind, i)
                }) by {
                    lemma_unit_free_change(mid.grid, self.grid, row as int, col as int, v, kind, i);
                    assert(mid.available(kind, i) == unit_free(mid.grid, kind, i));
                }
            }
            self.add_number_to_constraints(row, col, v);
            let ghost mirrored = *self;
            self.notes[row][col].clear();
            proof {
                assert forall|kind: int, i: int| 0 <= kind < 3 && 0 <= i < 9 implies #[trigger] self.available(kind, i)
                    == mirrored.available(kind, i) by {}
            }
        }
    }

    /// Appends a move after the cursor, dropping the moves that were undone, and moves the
    /// cursor onto it.
    fn record_move(
        &mut self,
        row: usize,
        col: usize,
        old_value: Option<u8>,
        new_value: Option<u8>,
        move_type: MoveType,
    )
        requires
            old(self).wf(),
            row < 9,
            col < 9,
            old(self).initial_grid[row as int][col as int] is None,
            digit_or_empty(old_value),
            digit_or_empty(new_value),
        ensures
            final(self).wf(),
            final(self).recorded(old(self), row as int, col as int, old_value, new_value, move_type),
            final(self).grid == old(self).grid,
            final(self).initial_grid == old(self).initial_grid,
            final(self).notes == old(self).notes,
            final(self).selected_cell == old(self).selected_cell,
            final(self).highlighted_number == old(self).highlighted_number,
    {
        let ghost pre = *self;
        let timestamp = timestamp_now();
        let game_move = GameMove { row, col, old_value, new_value, move_type, timestamp };
        if let Some(current_index) = self.current_move_index {
            let len = self.move_history.len();
            assert(current_index < len);
            self.move_history.truncate(current_index + 1);
        } else {
            self.move_history.truncate(0);
        }
        self.move_history.push(game_move);
        self.current_move_index = Some(self.move_history.len() - 1);
        proof {
            let kept = kept_moves(pre.move_history@, pre.current_move_index);
            assert(self.move_history@.subrange(0, kept.len() as int) =~= kept);
            assert forall|kind: int, i: int| 0 <= kind < 3 && 0 <= i < 9 implies #[trigger] self.available(kind, i)
                == pre.available(kind, i) by {}
            assert forall|i: int| 0 <= i < self.move_history@.len() implies self.move_ok(#[trigger] self.move_history@[i]) by {
                if i < kept.len() {
                    assert(self.move_history@[i] == pre.move_history@[i]);
                    assert(pre.move_ok(pre.move_history@[i]));
                }
            }
        }
    }

    /// Whether `num` may go at (row, col) without repeating a digit of its row, column or box.
    pub fn is_valid_move(&self, row: usize, col: usize, num: u8) -> (legal: bool)
        requires
            self.wf(),
            row < 9,
            col < 9,
        ensures
            legal == (1 <= num <= 9 && placement_legal(self.grid, row as int, col as int, num)),
    {
        self.is_valid_placement_fast(row, col, num)
    }

    /// Whether no cell is empty; the digits need not be correct.
    pub fn is_complete(&self) -> (complete: bool)
        ensures
            complete == full(self.grid),
    {
        let mut row: usize = 0;
        while row < 9
            invariant
                row <= 9,
                forall|r: int, c: int| 0 <= r < row && 0 <= c < 9 ==> (#[trigger] self.grid[r][c]) is Some,
            decreases 9 - row,
        {
            let mut col: usize = 0;
            while col < 9
                invariant
                    row < 9,
                    col <= 9,
                    forall|r: int, c: int| 0 <= r < row && 0 <= c < 9 ==> (#[trigger] self.grid[r][c]) is Some,
                    forall|c: int| 0 <= c < col ==> (#[trigger] self.grid[row as int][c]) is Some,
                decreases 9 - col,
            {
                if self.grid[row][col].is_none() {
                    return false;
                }
                col += 1;
            }
            row += 1;
        }
        true
    }

    /// Whether (row, col) was given when the puzzle was made.
    pub fn is_initial_cell(&self, row: usize, col: usize) -> (given: bool)
        requires
            row < 9,
            col < 9,
        ensures
            given == self.initial_grid[row as int][col as int] is Some,
    {
        self.initial_grid[row][col].is_some()
    }

    /// Selects (row, col) unless it is given, and highlights the digit it holds, if any.
    pub fn select_cell(&mut self, row: usize, col: usize)
        requires
            old(self).wf(),
            row < 9,
            col < 9,
        ensures
            final(self).wf(),
            final(self).selected_cell == if old(self).initial_grid[row as int][col as int] is Some {
                old(self).selected_cell
            } else {
                Some((row, col))
            },
            final(self).highlighted_number == old(self).grid[row as int][col as int],
            final(self).grid == old(self).grid,
            final(self).initial_grid == old(self).initial_grid,
            final(self).notes == old(self).notes,
            final(self).move_history@ == old(self).move_history@,
            final(self).current_move_index == old(self).current_move_index,
    {
        let ghost pre = *self;
        if !self.is_initial_cell(row, col) {
            self.selected_cell = Some((row, col));
        }
        self.highlighted_number = self.grid[row][col];
        proof {
            assert forall|kind: int, i: int| 0 <= kind < 3 && 0 <= i < 9 implies #[trigger] self.available(kind, i)
                == pre.available(kind, i) by {}
        }
    }

    /// Whether (row, col) holds the highlighted digit.
    pub fn is_cell_highlighted(&self, row: usize, col: usize) -> (lit: bool)
        requires
            row < 9,
            col < 9,
        ensures
            lit == (self.highlighted_number is Some && self.grid[row as int][col as int]
                == self.highlighted_number),
    {
        match self.highlighted_number {
            Some(highlighted) => self.grid[row][col] == Some(highlighted),
            None => false,
        }
    }

    /// Whether the digit at (row, col), if any, is repeated in its row, column or box.
    pub fn has_conflicts(&self, row: usize, col: usize) -> (clash: bool)
        requires
            row < 9,
            col < 9,
        ensures
            clash == conflict_at(self.grid, row as int, col as int),
    {
        cell_conflicts(&self.grid, row, col)
    }

    /// Writes `num` into the selected cell, legal or not, empties its notes and records the
    /// move; false, with nothing changed, when no cell is selected.
    pub fn input_number(&mut self, num: u8) -> (applied: bool)
        requires
            old(self).wf(),
            1 <= num <= 9,
        ensures
            final(self).wf(),
            applied == old(self).selected_cell is Some,
            applied ==> {
                let (row, col) = old(self).selected_cell->0;
                final(self).edit_step(old(self), row as int, col as int, Some(num), MoveType::Input)
            },
            !applied ==> *final(self) == *old(self),
    {
        if let Some((row, col)) = self.selected_cell {
            if !self.is_initial_cell(row, col) {
                let old_value = self.grid[row][col];
                self.write_cell(row, col, Some(num));
                self.record_move(row, col, old_value, Some(num), MoveType::Input);
                return true;
            }
        }
        false
    }

    /// Empties the selected cell and records the move; nothing happens when no cell is selected.
    pub fn clear_selected_cell(&mut self)
        requires
            old(self).wf(),
        ensures
            final(self).wf(),
            old(self).selected_cell is Some ==> {
                let (row, col) = old(self).selected_cell->0;
                final(self).edit_step(old(self), row as int, col as int, None, MoveType::Clear)
            },
            old(self).selected_cell is None ==> *final(self) == *old(self),
    {
        if let Some((row, col)) = self.selected_cell {
            if !self.is_initial_cell(row, col) {
                let old_value = self.grid[row][col];
                self.write_cell(row, col, None);
                self.record_move(row, col, old_value, None, MoveType::Clear);
            }
        }
    }

    /// Flips `num` in the notes of (row, col) when that cell is empty; otherwise does nothing.
    pub fn toggle_note(&mut self, row: usize, col: usize, num: u8)
        requires
            old(self).wf(),
            row < 9,
            col < 9,
            1 <= num <= 9,
        ensures
            final(self).wf(),
            old(self).grid[row as int][col as int] is Some ==> *final(self) == *old(self),
            old(self).grid[row as int][col as int] is None ==> {
                &&& final(self).notes[row as int][col as int]@ == if old(self).notes[row as int][col as int]@.contains(num) {
                    old(self).notes[row as int][col as int]@.remove(num)
                } else {
                    old(self).notes[row as int][col as int]@.insert(num)
                }
                &&& forall|r: int, c: int|
                    on_board(r, c) && (r != row || c != col) ==> (#[trigger] final(self).notes[r][c])@
                        == old(self).notes[r][c]@
                &&& final(self).grid == old(self).grid
                &&& final(self).same_but_board(old(self))
            },
    {
        let ghost pre = *self;
        if self.grid[row][col].is_none() {
            if self.notes[row][col].contains(&num) {
                self.notes[row][col].remove(&num);
            } else {
                self.notes[row][col].insert(num);
            }
            proof {
                assert forall|kind: int, i: int| 0 <= kind < 3 && 0 <= i < 9 implies #[trigger] self.available(kind, i)
                    == pre.available(kind, i) by {}
            }
        }
    }

    /// The digits noted in (row, col).
    pub fn get_notes(&self, row: usize, col: usize) -> (noted: &HashSet<u8>)
        requires
            row < 9,
            col < 9,
        ensures
            noted@ == self.notes[row as int][col as int]@,
    {
        &self.notes[row][col]
    }

    /// Empties the notes of (row, col).
    pub fn clear_notes(&mut self, row: usize, col: usize)
        requires
            old(self).wf(),
            row < 9,
            col < 9,
        ensures
            final(self).wf(),
            final(self).notes[row as int][col as int]@ == Set::<u8>::empty(),
            forall|r: int, c: int|
                on_board(r, c) && (r != row || c != col) ==> (#[trigger] final(self).notes[r][c])@
                    == old(self).notes[r][c]@,
            final(self).grid == old(self).grid,
            final(self).same_but_board(old(self)),
    {
        let ghost pre = *self;
        self.notes[row][col].clear();
        proof {
            assert forall|kind: int, i: int| 0 <= kind < 3 && 0 <= i < 9 implies #[trigger] self.available(kind, i)
                == pre.available(kind, i) by {}
        }
    }

    /// Whether some move can be undone.
    pub fn can_undo(&self) -> (possible: bool)
        ensures
            possible == self.current_move_index is Some,
    {
        self.current_move_index.is_some()
    }

    /// Whether some undone move can be redone.
    pub fn can_redo(&self) -> (possible: bool)
        requires
            self.wf(),
        ensures
            possible == (next_index(self.current_move_index) < self.move_history@.len()),
    {
        if let Some(current_index) = self.current_move_index {
            let len = self.move_history.len();
            current_index + 1 < len
        } else {
            !self.move_history.is_empty()
        }
    }

    /// Puts back the value that the move at the cursor replaced and steps the cursor back;
    /// false, with nothing changed, when there is no move to undo.
    pub fn undo(&mut self) -> (undone: bool)
        requires
            old(self).wf(),
        ensures
            final(self).wf(),
            undone == old(self).current_move_index is Some,
            undone ==> final(self).undo_step(old(self)),
            !undone ==> *final(self) == *old(self),
    {
        if let Some(current_index) = self.current_move_index {
            let row = self.move_history[current_index].row;
            let col = self.move_history[current_index].col;
            let old_value = self.move_history[current_index].old_value;
            proof {
                assert(self.move_ok(self.move_history@[current_index as int]));
            }
            self.write_cell(row, col, old_value);
            let ghost written = *self;
            if current_index == 0 {
                self.current_move_index = None;
            } else {
                self.current_move_index = Some(current_index - 1);
            }
            proof {
                assert forall|kind: int, i: int| 0 <= kind < 3 && 0 <= i < 9 implies #[trigger] self.available(kind, i)
                    == written.available(kind, i) by {}
            }
            true
        } else {
            false
        }
    }

    /// Applies again the move after the cursor and steps the cursor onto it; false, with
    /// nothing changed, when the cursor is at the end of the history.
    pub fn redo(&mut self) -> (redone: bool)
        requires
            old(self).wf(),
        ensures
            final(self).wf(),
            redone == (next_index(old(self).current_move_index) < old(self).move_history@.len()),
            redone ==> final(self).redo_step(old(self)),
            !redone ==> *final(self) == *old(self),
    {
        let len = self.move_history.len();
        let next_index: usize = if let Some(current_index) = self.current_move_index {
            current_index + 1
        } else {
            0
        };
        if next_index < self.move_history.len() {
            let row = self.move_history[next_index].row;
            let col = self.move_history[next_index].col;
            let new_value = self.move_history[next_index].new_value;
            proof {
                assert(self.move_ok(self.move_history@[next_index as int]));
            }
            self.write_cell(row, col, new_value);
            let ghost written = *self;
            self.current_move_index = Some(next_index);
            proof {
                assert forall|kind: int, i: int| 0 <= kind < 3 && 0 <= i < 9 implies #[trigger] self.available(kind, i)
                    == written.available(kind, i) by {}
            }
            true
        } else {
            false
        }
    }

    /// Fills in one cell whose digit is forced: when the board has exactly one solution, the
    /// first empty cell in row-major order gets the only digit that is legal there and keeps
    /// the solution unique. False, with nothing changed, when the board has no unique
    /// solution or no empty cell.
    pub fn solve_one_cell(&mut self) -> (hinted: bool)
        requires
            old(self).wf(),
        ensures
            final(self).wf(),
            hinted == (uniquely_solvable(old(self).grid) && !full(old(self).grid)),
            hinted ==> exists|row: int, col: int| final(self).hinted_at(old(self), row, col),
            !hinted ==> *final(self) == *old(self),
    {
        if !has_unique_solution(&self.grid) {
            return false;
        }
        let ghost pre = *self;
        let ghost sol = choose|s: Grid| is_solution(s, pre.grid);
        proof {
            assert forall|s: Grid| is_solution(s, pre.grid) implies s == sol by {
                if s != sol {
                    assert(crate::board::ambiguous(pre.grid));
                }
            }
        }
        let mut p: usize = 0;
        while p < 81
            invariant
                p <= 81,
                *self == pre,
                pre == *old(self),
                pre.wf(),
                uniquely_solvable(pre.grid),
                is_solution(sol, pre.grid),
                forall|s: Grid| is_solution(s, pre.grid) ==> s == sol,
                filled_before(pre.grid, p as int),
            decreases 81 - p,
        {
            let row = p / 9;
            let col = p % 9;
            if self.grid[row][col].is_none() && !self.is_initial_cell(row, col) {
                let ghost target = sol[row as int][col as int]->0;
                proof {
                    assert(sol[row as int][col as int] is Some);
                    assert(1 <= target <= 9);
                }
                let mut valid_numbers: Vec<u8> = Vec::new();
                let mut num: u8 = 1;
                while num <= 9
                    invariant
                        1 <= num <= 10,
                        row < 9,
                        col < 9,
                        *self == pre,
                        pre.wf(),
                        uniquely_solvable(pre.grid),
                        is_solution(sol, pre.grid),
                        forall|s: Grid| is_solution(s, pre.grid) ==> s == sol,
                        pre.grid[row as int][col as int] is None,
                        sol[row as int][col as int] == Some(target),
                        valid_numbers@ == if target < num {
                            seq![target]
                        } else {
                            Seq::<u8>::empty()
                        },
                    decreases 10 - num,
                {
                    let mut keeps = false;
                    if self.is_valid_move(row, col, num) {
                        let mut temp_grid = self.grid;
                        temp_grid[row][col] = Some(num);
                        proof {
                            lemma_unique_digit(pre.grid, temp_grid, row as int, col as int, num);
                        }
                        if has_unique_solution(&temp_grid) {
                            keeps = true;
                        }
                    } else {
                        proof {
                            assert(!placement_legal(pre.grid, row as int, col as int, num));
                            crate::solver::lemma_solution_digit_legal(sol, pre.grid, row as int, col as int);
                        }
                    }
                    proof {
                        if num == target {
                            assert(sol[row as int][col as int] == Some(num));
                        }
                        assert(keeps == (num == target));
                    }
                    if keeps {
                        valid_numbers.push(num);
                    }
                    num += 1;
                }
                if valid_numbers.len() == 1 {
                    let digit = valid_numbers[0];
                    self.write_cell(row, col, Some(digit));
                    proof {
                        lemma_unique_digit(pre.grid, self.grid, row as int, col as int, digit);
                        crate::solver::lemma_solution_digit_legal(sol, pre.grid, row as int, col as int);
                        assert(p as int == row * 9 + col);
                    }
                    self.record_move(row, col, None, Some(digit), MoveType::Hint);
                    proof {
                        assert(!full(pre.grid));
                        assert(self.hinted_at(&pre, row as int, col as int));
                    }
                    return true;
                }
            }
            p += 1;
        }
        proof {
            crate::solver::lemma_filled_is_full(pre.grid);
        }
        false
    }

    /// Sets every free-digit set from the board.
    fn initialize_constraint_sets(&mut self)
        ensures
            final(self).sets_mirror(),
            final(self).grid == old(self).grid,
            final(self).initial_grid == old(self).initial_grid,
            final(self).notes == old(self).notes,
            final(self).same_but_board(old(self)),
    {
        let ghost pre = *self;
        let mut i: usize = 0;
        while i < 9
            invariant
                i <= 9,
                self.grid == pre.grid,
                self.initial_grid == pre.initial_grid,
                self.notes == pre.notes,
                self.same_but_board(&pre),
                forall|kind: int, j: int|
                    0 <= kind < 3 && 0 <= j < i ==> #[trigger] self.available(kind, j) == unit_free(self.grid, kind, j),
            decreases 9 - i,
        {
            let ghost before = *self;
            self.row_available[i] = free_digits(&self.grid, 0, i);
            self.col_available[i] = free_digits(&self.grid, 1, i);
            self.box_available[i] = free_digits(&self.grid, 2, i);
            proof {
                assert forall|kind: int, j: int| 0 <= kind < 3 && 0 <= j < i implies #[trigger] self.available(kind, j)
                    == before.available(kind, j) by {}
            }
            i += 1;
        }
    }

    /// Empties cells of a full solution in an order drawn from `seed`, keeping each emptied
    /// cell only while the board still has one solution, until the number drawn from the
    /// difficulty's range is reached or every cell was tried.
    fn create_puzzle_from_solution(solution: Grid, difficulty: Difficulty, seed: &mut u64) -> (puzzle: Grid)
        requires
            is_solution(solution, solution),
        ensures
            well_formed(puzzle),
            uniquely_solvable(puzzle),
            extends(solution, puzzle),
            carved_enough(puzzle, difficulty),
    {
        let mut puzzle = solution;
        let positions = shuffled_cells(seed);
        let (min_remove, max_remove) = difficulty.numbers_to_remove();
        let target_remove = min_remove + (next_random(seed) % (max_remove - min_remove + 1) as u64) as usize;
        proof {
            lemma_full_empty_count(puzzle, 81);
            crate::solver::lemma_full_board(puzzle);
        }
        let mut removed_count: usize = 0;
        let mut k: usize = 0;
        while k < positions.len()
            invariant
                positions@.len() == 81,
                forall|i: int| 0 <= i < 81 ==> #[trigger] positions@[i] < 81,
                forall|i: int, j: int| 0 <= i < j < 81 ==> positions@[i] != positions@[j],
                forall|p: usize| p < 81 ==> #[trigger] lists_cell(positions@, p),
                k <= 81,
                min_remove <= target_remove <= max_remove,
                (min_remove, max_remove) == removal_range(difficulty),
                removed_count <= target_remove,
                well_formed(puzzle),
                uniquely_solvable(puzzle),
                extends(solution, puzzle),
                is_solution(solution, puzzle),
                is_solution(solution, solution),
                empty_count(puzzle, 81) == removed_count,
                forall|j: int|
                    k <= j < 81 ==> #[trigger] puzzle[positions@[j] as int / 9][positions@[j] as int % 9]
                        == solution[positions@[j] as int / 9][positions@[j] as int % 9],
                forall|j: int|
                    0 <= j < k ==> (#[trigger] puzzle[positions@[j] as int / 9][positions@[j] as int % 9]) is None
                        || essential(puzzle, positions@[j] as int / 9, positions@[j] as int % 9),
            ensures
                k == 81 || removed_count >= target_remove,
            decreases 81 - k,
        {
            if removed_count >= target_remove {
                break;
            }
            let p = positions[k];
            let row = p / 9;
            let col = p % 9;
            let digit_before = puzzle[row][col];
            let ghost kept = puzzle;
            puzzle[row][col] = None;
            proof {
                assert(agree_except(kept, puzzle, row as int, col as int));
                assert(kept[row as int][col as int] is Some);
                lemma_empty_count_change(kept, puzzle, row as int, col as int, 81);
                assert(is_solution(solution, puzzle));
            }
            if has_unique_solution(&puzzle) {
                removed_count += 1;
                proof {
                    assert forall|j: int|
                        0 <= j < k + 1 implies (#[trigger] puzzle[positions@[j] as int / 9][positions@[j] as int % 9]) is None
                            || essential(puzzle, positions@[j] as int / 9, positions@[j] as int % 9) by {
                        if j < k && kept[positions@[j] as int / 9][positions@[j] as int % 9] is Some {
                            lemma_essential_shrinks(kept, puzzle, positions@[j] as int / 9, positions@[j] as int % 9);
                        }
                    }
                    assert forall|j: int| k + 1 <= j < 81 implies #[trigger] puzzle[positions@[j] as int / 9][positions@[j] as int
                        % 9] == solution[positions@[j] as int / 9][positions@[j] as int % 9] by {
                        assert(positions@[j] != positions@[k as int]);
                    }
                }
            } else {
                proof {
                    lemma_essential_from_removal(kept, puzzle, solution, row as int, col as int);
                }
                puzzle[row][col] = digit_before;
                proof {
                    assert forall|r: int, c: int| on_board(r, c) implies #[trigger] puzzle[r][c] == kept[r][c] by {}
                    crate::board::lemma_grid_ext(puzzle, kept);
                }
            }
            k += 1;
        }
        proof {
            if empty_count(puzzle, 81) < min_remove {
                assert(k == 81);
                assert forall|r: int, c: int| on_board(r, c) && (#[trigger] puzzle[r][c]) is Some implies essential(puzzle, r, c) by {
                    let q = (r * 9 + c) as usize;
                    assert(lists_cell(positions@, q));
                    let j = choose|j: int| 0 <= j < 81 && #[trigger] positions@[j] == q;
                    assert(q / 9 == r && q % 9 == c);
                    assert(puzzle[positions@[j] as int / 9][positions@[j] as int % 9] is Some);
                }
            }
        }
        puzzle
    }

    /// A new session at `difficulty`, its solution and carving drawn from `seed`.
    pub fn generate_random_puzzle(difficulty: Difficulty, seed: u64) -> (game: Self)
        ensures
            game.fresh(difficulty),
    {
        let mut state = seed;
        let mut grid: Grid = [[None; 9]; 9];
        proof {
            lemma_empty_board_solvable(grid);
        }
        let filled = fill_grid(&mut grid, 0, &mut state);
        assert(filled);
        proof {
            crate::solver::lemma_full_board(grid);
        }
        let initial_grid = Self::create_puzzle_from_solution(grid, difficulty, &mut state);
        let mut game = SudokuGame {
            grid: initial_grid,
            initial_grid,
            selected_cell: None,
            highlighted_number: None,
            notes: [
                empty_sets(),
                empty_sets(),
                empty_sets(),
                empty_sets(),
                empty_sets(),
                empty_sets(),
                empty_sets(),
                empty_sets(),
                empty_sets(),
            ],
            row_available: empty_sets(),
            col_available: empty_sets(),
            box_available: empty_sets(),
            move_history: Vec::new(),
            current_move_index: None,
        };
        game.initialize_constraint_sets();
        game
    }

    /// A new session at the easy level, seeded from the clock.
    pub fn new() -> (game: Self)
        ensures
            game.fresh(Difficulty::Easy),
    {
        Self::generate_random_puzzle(Difficulty::Easy, clock_seed())
    }

    /// A new session at `difficulty`, seeded from the clock.
    pub fn new_with_difficulty(difficulty: Difficulty) -> (game: Self)
        ensures
            game.fresh(difficulty),
    {
        Self::generate_random_puzzle(difficulty, clock_seed())
    }

    /// Replaces the whole session with a new one at `difficulty`.
    pub fn reset_with_difficulty(&mut self, difficulty: Difficulty)
        ensures
            final(self).fresh(difficulty),
    {
        *self = Self::new_with_difficulty(difficulty);
    }
}

} // verus!
