//! The readable rendering of the move history.
use vstd::prelude::*;
use vstd::string::StringExecFns;
use crate::game::{GameMove, MoveType, SudokuGame};

verus! {

/// The character of a decimal digit.
pub open spec fn digit_char(d: int) -> char {
    if d == 0 {
        '0'
    } else if d == 1 {
        '1'
    } else if d == 2 {
        '2'
    } else if d == 3 {
        '3'
    } else if d == 4 {
        '4'
    } else if d == 5 {
        '5'
    } else if d == 6 {
        '6'
    } else if d == 7 {
        '7'
    } else if d == 8 {
        '8'
    } else {
        '9'
    }
}

/// Marks the move at the cursor, the moves before it, and the undone moves after it.
pub open spec fn marker_text(index: int, cursor: Option<usize>) -> Seq<char> {
    match cursor {
        Some(i) => if index == i {
            seq!['►', ' ']
        } else if index < i {
            seq!['✓', ' ']
        } else {
            seq!['○', ' ']
        },
        None => seq!['○', ' '],
    }
}

/// What produced the move, in words.
pub open spec fn action_text(kind: MoveType) -> Seq<char> {
    match kind {
        MoveType::Input => seq!['M', 'a', 'n', 'u', 'a', 'l', ' ', 'i', 'n', 'p', 'u', 't'],
        MoveType::Clear => seq!['C', 'l', 'e', 'a', 'r', ' ', 'c', 'e', 'l', 'l'],
        MoveType::Hint => seq!['H', 'i', 'n', 't', ' ', 'i', 'n', 'p', 'u', 't'],
    }
}

/// The change of value: old and new digit, an empty cell shown as `∅`, a fresh digit
/// shown alone after the arrow.
pub open spec fn change_text(old_value: Option<u8>, new_value: Option<u8>) -> Seq<char> {
    match (old_value, new_value) {
        (None, Some(n)) => seq!['→', ' ', digit_char(n as int)],
        (Some(o), None) => seq![digit_char(o as int), ' ', '→', ' ', '∅'],
        (Some(o), Some(n)) => seq![digit_char(o as int), ' ', '→', ' ', digit_char(n as int)],
        (None, None) => seq!['∅', ' ', '→', ' ', '∅'],
    }
}

/// One line of the log: marker, action, one-based position and change.
pub open spec fn log_line(m: GameMove, index: int, cursor: Option<usize>) -> Seq<char> {
    marker_text(index, cursor) + action_text(m.move_type) + seq![':', ' ', 'R', digit_char(m.row + 1), 'C', digit_char(m.col + 1), ' ']
        + change_text(m.old_value, m.new_value)
}

/// The text of one decimal digit.
fn digit_text(d: usize) -> (text: &'static str)
    requires
        d <= 9,
    ensures
        text@ == seq![digit_char(d as int)],
{
    proof {
        reveal_strlit("0");
        reveal_strlit("1");
        reveal_strlit("2");
        reveal_strlit("3");
        reveal_strlit("4");
        reveal_strlit("5");
        reveal_strlit("6");
        reveal_strlit("7");
        reveal_strlit("8");
        reveal_strlit("9");
    }
    if d == 0 {
        "0"
    } else if d == 1 {
        "1"
    } else if d == 2 {
        "2"
    } else if d == 3 {
        "3"
    } else if d == 4 {
        "4"
    } else if d == 5 {
        "5"
    } else if d == 6 {
        "6"
    } else if d == 7 {
        "7"
    } else if d == 8 {
        "8"
    } else {
        "9"
    }
}

impl SudokuGame {
    /// One line per recorded move, in order, each marked as current, applied or undone.
    pub fn get_move_log(&self) -> (lines: Vec<String>)
        requires
            self.wf(),
        ensures
            lines@.len() == self.move_history@.len(),
            forall|i: int|
                0 <= i < lines@.len() ==> (#[trigger] lines@[i])@ == log_line(
                    self.move_history@[i],
                    i,
                    self.current_move_index,
                ),
    {
        let mut lines: Vec<String> = Vec::new();
        let mut index: usize = 0;
        while index < self.move_history.len()
            invariant
                self.wf(),
                index <= self.move_history@.len(),
                lines@.len() == index,
                forall|i: int|
                    0 <= i < index ==> (#[trigger] lines@[i])@ == log_line(
                        self.move_history@[i],
                        i,
                        self.current_move_index,
                    ),
            decreases self.move_history@.len() - index,
        {
            let game_move = &self.move_history[index];
            proof {
                assert(self.move_ok(self.move_history@[index as int]));
                reveal_strlit("► ");
                reveal_strlit("✓ ");
                reveal_strlit("○ ");
                reveal_strlit("Manual input");
                reveal_strlit("Clear cell");
                reveal_strlit("Hint input");
                reveal_strlit(": R");
                reveal_strlit("C");
                reveal_strlit(" ");
                reveal_strlit("→ ");
                reveal_strlit(" → ");
                reveal_strlit(" → ∅");
                reveal_strlit("∅ → ∅");
            }
            let marker = match self.current_move_index {
                Some(current) => if index == current {
                    "► "
                } else if index < current {
                    "✓ "
                } else {
                    "○ "
                },
                None => "○ ",
            };
            let action = match game_move.move_type {
                MoveType::Input => "Manual input",
                MoveType::Clear => "Clear cell",
                MoveType::Hint => "Hint input",
            };
            let mut line = String::from_str(marker);
            line.append(action);
            line.append(": R");
            line.append(digit_text(game_move.row + 1));
            line.append("C");
            line.append(digit_text(game_move.col + 1));
            line.append(" ");
            match (game_move.old_value, game_move.new_value) {
                (None, Some(new_digit)) => {
                    line.append("→ ");
                    line.append(digit_text(new_digit as usize));
                },
                (Some(old_digit), None) => {
                    line.append(digit_text(old_digit as usize));
                    line.append(" → ∅");
                },
                (Some(old_digit), Some(new_digit)) => {
                    line.append(digit_text(old_digit as usize));
                    line.append(" → ");
                    line.append(digit_text(new_digit as usize));
                },
                (None, None) => {
                    line.append("∅ → ∅");
                },
            }
            proof {
                assert(line@ =~= log_line(self.move_history@[index as int], index as int, self.current_move_index));
            }
            lines.push(line);
            index += 1;
        }
        lines
    }
}

} // verus!
