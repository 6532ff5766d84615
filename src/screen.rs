use crate::driver::{failed_at, loop_sudoku, stepped, SudokuStatus};
use crate::solved::{consistent, generation_turn};
use crate::sudoku::{same_cells, Sudoku};
use vstd::prelude::*;

verus! {

/// What the interactive shell is doing.
#[derive(Debug, PartialEq, Eq, Structural)]
pub enum CurrentScreen {
    Editing,
    Running,
    Finish,
}

/// A key press, as far as the shell tells keys apart.
#[derive(Debug, PartialEq, Eq, Structural)]
pub enum Key {
    Char(char),
    Up,
    Down,
    Left,
    Right,
    Enter,
    Other,
}

/// What the shell does after a key.
#[derive(Debug, PartialEq, Eq, Structural)]
pub enum Action {
    Continue,
    Quit,
}

/// State of the interactive shell: its screen and the selected cell.
pub struct App {
    pub current_screen: CurrentScreen,
    pub selected_row: usize,
    pub selected_column: usize,
}

/// The value of decimal digit `c`, if it is one.
pub open spec fn digit_of(c: char) -> Option<usize> {
    if '0' <= c && c <= '9' {
        Some((c as u32 - '0' as u32) as usize)
    } else {
        None
    }
}

/// The value of decimal digit `c`, if it is one.
pub fn digit_value(c: char) -> (r: Option<usize>)
    ensures
        r == digit_of(c),
{
    if '0' <= c && c <= '9' {
        Some((c as u32 - '0' as u32) as usize)
    } else {
        None
    }
}

impl App {
    /// Starts in editing mode with the top-left cell selected.
    pub fn new() -> (r: App)
        ensures
            r.current_screen == CurrentScreen::Editing,
            r.selected_row == 0,
            r.selected_column == 0,
    {
        App { current_screen: CurrentScreen::Editing, selected_row: 0, selected_column: 0 }
    }

    /// One turn of the running screen: a generation step, a restart from
    /// the checkpoint after a dead end, and the finish screen once the grid
    /// is complete.
    pub fn run_step(&mut self, sudoku: &mut Sudoku) -> (r: SudokuStatus)
        requires
            old(sudoku).wf(),
        ensures
            final(sudoku).wf(),
            final(self).selected_row == old(self).selected_row,
            final(self).selected_column == old(self).selected_column,
            final(sudoku).dim == old(sudoku).dim,
            final(sudoku).grid_length == old(sudoku).grid_length,
            final(sudoku).has_checkpoint == old(sudoku).has_checkpoint,
            final(sudoku).saved_cells == old(sudoku).saved_cells,
            r is Success <==> Sudoku::all_collapsed(old(sudoku).cells@),
            r is Success ==> *final(sudoku) == *old(sudoku) && final(self).current_screen
                == CurrentScreen::Finish,
            !(r is Success) ==> final(self).current_screen == old(self).current_screen,
            r is Running ==> exists|i: int, v: usize|
                Sudoku::is_least(old(sudoku).cells@, i) && old(sudoku).cells@[i].options@.contains(v)
                    && stepped(*old(sudoku), *final(sudoku), i, v),
            r is Running ==> final(sudoku).propagation_sound(),
            r is Running && consistent(*old(sudoku)) ==> consistent(*final(sudoku)),
            r is Fail ==> exists|i: int|
                Sudoku::is_least(old(sudoku).cells@, i) && old(sudoku).cells@[i].options@.len() == 0,
            r is Fail && old(sudoku).has_checkpoint ==> Sudoku::reset_from(*old(sudoku), *final(sudoku)),
            !(r is Success) && old(sudoku).has_checkpoint ==> generation_turn(*old(sudoku), *final(sudoku)),
            r is Fail && !old(sudoku).has_checkpoint ==> exists|i: int|
                failed_at(*old(sudoku), *final(sudoku), i),
    {
        let status = loop_sudoku(sudoku);
        match status {
            SudokuStatus::Running => {},
            SudokuStatus::Fail => {
                let ghost failed = *sudoku;
                let _ = sudoku.reset();
                assert(failed.saved_cells == old(sudoku).saved_cells);
            },
            SudokuStatus::Success => {
                self.current_screen = CurrentScreen::Finish;
            },
        }
        status
    }

    /// Handles one key on the editing or finish screen. While editing, the
    /// arrows move the selection within the grid, a digit sets the selected
    /// cell, `r` starts a new board, Enter propagates the edits, takes the
    /// checkpoint and starts generation. On the finish screen `r` starts a
    /// new board to edit and `R` generates again from the checkpoint. `q`
    /// quits from either; every other key changes nothing.
    pub fn handle_key(&mut self, sudoku: &mut Sudoku, key: Key) -> (r: Action)
        requires
            old(sudoku).wf(),
        ensures
            final(sudoku).wf(),
            final(sudoku).dim == old(sudoku).dim,
            final(sudoku).grid_length == old(sudoku).grid_length,
            old(self).selected_row < old(sudoku).dim && old(self).selected_column < old(sudoku).dim
                ==> final(self).selected_row < final(sudoku).dim && final(self).selected_column
                < final(sudoku).dim,
            r is Quit <==> (key == Key::Char('q') && old(self).current_screen != CurrentScreen::Running),
            r is Quit ==> *final(self) == *old(self) && *final(sudoku) == *old(sudoku),
            old(self).current_screen == CurrentScreen::Running ==> *final(self) == *old(self)
                && *final(sudoku) == *old(sudoku),
            old(self).current_screen == CurrentScreen::Editing ==> ({
                let dim = old(sudoku).dim;
                let row = old(self).selected_row;
                let column = old(self).selected_column;
                match key {
                    Key::Char(c) => if c == 'r' {
                        final(sudoku).is_fresh(dim, old(sudoku).grid_length)
                            && *final(self) == *old(self)
                    } else if c == 'q' || digit_of(c) is None {
                        *final(sudoku) == *old(sudoku) && *final(self) == *old(self)
                    } else {
                        *final(self) == *old(self) && Sudoku::value_set(
                            *old(sudoku),
                            *final(sudoku),
                            row,
                            column,
                            digit_of(c)->0,
                        )
                    },
                    Key::Up => *final(sudoku) == *old(sudoku) && final(self).selected_column
                        == column && final(self).current_screen == CurrentScreen::Editing
                        && final(self).selected_row == if row > 0 {
                        row - 1
                    } else {
                        row as int
                    },
                    Key::Down => *final(sudoku) == *old(sudoku) && final(self).selected_column
                        == column && final(self).current_screen == CurrentScreen::Editing
                        && final(self).selected_row == if row + 1 < dim {
                        row + 1
                    } else {
                        row as int
                    },
                    Key::Left => *final(sudoku) == *old(sudoku) && final(self).selected_row == row
                        && final(self).current_screen == CurrentScreen::Editing
                        && final(self).selected_column == if column > 0 {
                        column - 1
                    } else {
                        column as int
                    },
                    Key::Right => *final(sudoku) == *old(sudoku) && final(self).selected_row
                        == row && final(self).current_screen == CurrentScreen::Editing
                        && final(self).selected_column == if column + 1 < dim {
                        column + 1
                    } else {
                        column as int
                    },
                    Key::Enter => final(self).current_screen == CurrentScreen::Running
                        && final(self).selected_row == row && final(self).selected_column == column
                        && final(sudoku).propagated_from(old(sudoku)) && final(sudoku).same_trackers(
                        old(sudoku),
                    ) && final(sudoku).propagation_sound() && final(sudoku).has_checkpoint
                        && same_cells(final(sudoku).saved_cells@, final(sudoku).cells@),
                    Key::Other => *final(sudoku) == *old(sudoku) && *final(self) == *old(self),
                }
            }),
            old(self).current_screen == CurrentScreen::Finish ==> ({
                if key == Key::Char('r') {
                    final(sudoku).is_fresh(old(sudoku).dim, old(sudoku).grid_length)
                        && final(self).current_screen == CurrentScreen::Editing
                        && final(self).selected_row == old(self).selected_row
                        && final(self).selected_column == old(self).selected_column
                } else if key == Key::Char('R') {
                    &&& final(self).current_screen == CurrentScreen::Running
                    &&& final(self).selected_row == old(self).selected_row
                    &&& final(self).selected_column == old(self).selected_column
                    &&& old(sudoku).has_checkpoint ==> Sudoku::reset_from(*old(sudoku), *final(sudoku))
                    &&& !old(sudoku).has_checkpoint ==> *final(sudoku) == *old(sudoku)
                } else {
                    *final(sudoku) == *old(sudoku) && *final(self) == *old(self)
                }
            }),
    {
        match self.current_screen {
            CurrentScreen::Running => Action::Continue,
            CurrentScreen::Editing => {
                match key {
                    Key::Char(c) => {
                        if c == 'q' {
                            return Action::Quit;
                        }
                        if c == 'r' {
                            *sudoku = Sudoku::new(sudoku.dim, sudoku.grid_length);
                            return Action::Continue;
                        }
                        if let Some(num) = digit_value(c) {
                            sudoku.set_cell_value(self.selected_row, self.selected_column, num);
                        }
                        Action::Continue
                    },
                    Key::Up => {
                        if self.selected_row > 0 {
                            self.selected_row = self.selected_row - 1;
                        }
                        Action::Continue
                    },
                    Key::Down => {
                        if self.selected_row < sudoku.dim && sudoku.dim - self.selected_row > 1 {
                            self.selected_row = self.selected_row + 1;
                        }
                        Action::Continue
                    },
                    Key::Left => {
                        if self.selected_column > 0 {
                            self.selected_column = self.selected_column - 1;
                        }
                        Action::Continue
                    },
                    Key::Right => {
                        if self.selected_column < sudoku.dim && sudoku.dim - self.selected_column > 1 {
                            self.selected_column = self.selected_column + 1;
                        }
                        Action::Continue
                    },
                    Key::Enter => {
                        sudoku.update();
                        sudoku.save();
                        self.current_screen = CurrentScreen::Running;
                        Action::Continue
                    },
                    Key::Other => Action::Continue,
                }
            },
            CurrentScreen::Finish => {
                match key {
                    Key::Char('q') => Action::Quit,
                    Key::Char('r') => {
                        *sudoku = Sudoku::new(sudoku.dim, sudoku.grid_length);
                        self.current_screen = CurrentScreen::Editing;
                        Action::Continue
                    },
                    Key::Char('R') => {
                        let _ = sudoku.reset();
                        self.current_screen = CurrentScreen::Running;
                        Action::Continue
                    },
                    _ => Action::Continue,
                }
            },
        }
    }
}

} // verus!
