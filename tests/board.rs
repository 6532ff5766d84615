use sudoku_wfc::{
    loop_sudoku, step_with, Action, App, Cell, ConstraintTracker, CurrentScreen, Key, ResetError,
    Sudoku, SudokuStatus,
};

fn value_at(s: &Sudoku, row: usize, column: usize) -> usize {
    let cell = &s.cells[column + row * s.dim];
    assert!(cell.is_collapsed);
    assert_eq!(cell.options.len(), 1);
    cell.options[0]
}

fn assert_solved(s: &Sudoku) {
    let dim = s.dim;
    let bs = s.grid_length;
    for r in 0..dim {
        let mut row: Vec<usize> = (0..dim).map(|c| value_at(s, r, c)).collect();
        row.sort();
        assert_eq!(row, (1..=dim).collect::<Vec<usize>>());
    }
    for c in 0..dim {
        let mut col: Vec<usize> = (0..dim).map(|r| value_at(s, r, c)).collect();
        col.sort();
        assert_eq!(col, (1..=dim).collect::<Vec<usize>>());
    }
    for by in 0..dim / bs {
        for bx in 0..dim / bs {
            let mut block = Vec::new();
            for r in by * bs..(by + 1) * bs {
                for c in bx * bs..(bx + 1) * bs {
                    block.push(value_at(s, r, c));
                }
            }
            block.sort();
            assert_eq!(block, (1..=dim).collect::<Vec<usize>>());
        }
    }
}

fn same_cells(a: &[Cell], b: &[Cell]) -> bool {
    a.len() == b.len()
        && a.iter().zip(b.iter()).all(|(x, y)| {
            x.vector == y.vector
                && x.is_collapsed == y.is_collapsed
                && x.is_edited == y.is_edited
                && x.options == y.options
        })
}

#[test]
fn new_board_has_full_candidates_in_row_major_order() {
    let s = Sudoku::new(4, 2);
    assert_eq!(s.cells.len(), 16);
    for row in 0..4 {
        for column in 0..4 {
            let c = &s.cells[column + row * 4];
            assert_eq!(c.vector, (column, row));
            assert!(!c.is_collapsed);
            assert!(!c.is_edited);
            assert_eq!(c.options, vec![1, 2, 3, 4]);
        }
    }
    assert_eq!(s.collapsed_on_row.len(), 4);
    assert_eq!(s.collapsed_on_column.len(), 4);
    assert_eq!(s.collapsed_on_grid.len(), 16);
}

#[test]
fn nine_by_nine_board_has_values_one_to_nine() {
    let s = Sudoku::new(9, 3);
    assert_eq!(s.cells.len(), 81);
    assert_eq!(s.cells[80].options, (1..=9).collect::<Vec<usize>>());
    assert_eq!(s.cells[80].vector, (8, 8));
}

#[test]
fn tracker_counts_occurrences() {
    let mut t = ConstraintTracker::new(3);
    assert!(!t.contains(1, 5));
    t.record(1, 5);
    t.record(1, 5);
    assert!(t.contains(1, 5));
    assert!(!t.contains(0, 5));
    t.unrecord(1, 5);
    assert!(t.contains(1, 5));
    t.unrecord(1, 5);
    assert!(!t.contains(1, 5));
    t.unrecord(1, 5);
    t.unrecord(7, 5);
    assert!(!t.contains(7, 5));
    assert_eq!(t.len(), 3);
}

#[test]
fn tracker_clear_empties_every_group() {
    let mut t = ConstraintTracker::new(2);
    t.record(0, 1);
    t.record(1, 2);
    t.clear();
    assert_eq!(t.len(), 2);
    assert!(!t.contains(0, 1));
    assert!(!t.contains(1, 2));
}

#[test]
fn uncommit_removes_one_occurrence_at_a_time() {
    let mut s = Sudoku::new(4, 2);
    s.commit(0, 0, 3);
    s.commit(0, 1, 3);
    s.uncommit(0, 0, 3);
    assert!(s.collapsed_on_row.contains(0, 3));
    assert!(!s.collapsed_on_column.contains(0, 3));
    assert!(s.collapsed_on_column.contains(1, 3));
    assert!(s.collapsed_on_grid.contains(0, 3));
    s.uncommit(0, 1, 3);
    assert!(!s.collapsed_on_row.contains(0, 3));
    assert!(!s.collapsed_on_grid.contains(0, 3));
}

#[test]
fn axis_and_grid_trackers_are_separate() {
    let mut s = Sudoku::new(4, 2);
    s.add_on_axis(2, 3, 4);
    assert!(s.collapsed_on_row.contains(2, 4));
    assert!(s.collapsed_on_column.contains(3, 4));
    assert!(!s.collapsed_on_grid.contains(3, 4));
    s.add_on_grid((1, 1), 4);
    assert!(s.collapsed_on_grid.contains(1 + 1 * 4, 4));
    s.remove_from_grid((1, 1), 4);
    assert!(!s.collapsed_on_grid.contains(5, 4));
    s.remove_from_axis(2, 3, 4);
    assert!(!s.collapsed_on_row.contains(2, 4));
    assert!(!s.collapsed_on_column.contains(3, 4));
}

#[test]
fn block_index_follows_block_coordinates() {
    let s = Sudoku::new(4, 2);
    assert_eq!(s.block_index(0, 0), 0);
    assert_eq!(s.block_index(3, 1), 1);
    assert_eq!(s.block_index(1, 3), 4);
    assert_eq!(s.block_index(3, 3), 5);
}

#[test]
fn set_cell_value_collapses_and_commits() {
    let mut s = Sudoku::new(4, 2);
    s.set_cell_value(1, 2, 3);
    let c = &s.cells[2 + 4];
    assert!(c.is_collapsed);
    assert!(c.is_edited);
    assert_eq!(c.options, vec![3]);
    assert!(s.collapsed_on_row.contains(1, 3));
    assert!(s.collapsed_on_column.contains(2, 3));
    assert!(s.collapsed_on_grid.contains(1, 3));
    assert!(!s.collapsed_on_row.contains(0, 3));
}

#[test]
fn set_cell_value_overwrite_moves_commitment() {
    let mut s = Sudoku::new(4, 2);
    s.set_cell_value(0, 0, 1);
    s.set_cell_value(0, 0, 2);
    assert_eq!(s.cells[0].options, vec![2]);
    assert!(!s.collapsed_on_row.contains(0, 1));
    assert!(!s.collapsed_on_column.contains(0, 1));
    assert!(!s.collapsed_on_grid.contains(0, 1));
    assert!(s.collapsed_on_row.contains(0, 2));
    assert!(s.collapsed_on_column.contains(0, 2));
    assert!(s.collapsed_on_grid.contains(0, 2));
}

#[test]
fn set_cell_value_overwrite_keeps_other_cells_commitments() {
    let mut s = Sudoku::new(4, 2);
    s.set_cell_value(0, 0, 1);
    s.set_cell_value(0, 1, 1);
    s.set_cell_value(0, 0, 2);
    assert!(s.collapsed_on_row.contains(0, 1));
    assert!(s.collapsed_on_grid.contains(0, 1));
    assert!(!s.collapsed_on_column.contains(0, 1));
    s.set_cell_value(0, 1, 3);
    assert!(!s.collapsed_on_row.contains(0, 1));
    assert!(!s.collapsed_on_grid.contains(0, 1));
}

#[test]
fn set_cell_value_out_of_range_does_nothing() {
    let mut s = Sudoku::new(4, 2);
    s.set_cell_value(4, 0, 1);
    s.set_cell_value(0, 4, 1);
    s.set_cell_value(usize::MAX, usize::MAX, 1);
    assert!(s.cells.iter().all(|c| !c.is_collapsed && c.options == vec![1, 2, 3, 4]));
    for k in 0..4 {
        assert!(!s.collapsed_on_row.contains(k, 1));
        assert!(!s.collapsed_on_column.contains(k, 1));
    }
}

#[test]
fn update_prunes_row_column_and_block() {
    let mut s = Sudoku::new(4, 2);
    s.set_cell_value(0, 0, 1);
    s.update();
    assert_eq!(s.cells[0].options, vec![1]);
    assert_eq!(s.cells[1].options, vec![2, 3, 4]);
    assert_eq!(s.cells[3].options, vec![2, 3, 4]);
    assert_eq!(s.cells[4].options, vec![2, 3, 4]);
    assert_eq!(s.cells[5].options, vec![2, 3, 4]);
    assert_eq!(s.cells[12].options, vec![2, 3, 4]);
    assert_eq!(s.cells[6].options, vec![1, 2, 3, 4]);
    assert_eq!(s.cells[15].options, vec![1, 2, 3, 4]);
}

#[test]
fn propagated_candidates_avoid_all_trackers() {
    let mut s = Sudoku::new(4, 2);
    s.set_cell_value(0, 0, 1);
    s.set_cell_value(1, 2, 2);
    s.set_cell_value(3, 3, 3);
    s.update();
    for (i, c) in s.cells.iter().enumerate() {
        if c.is_collapsed {
            continue;
        }
        let (column, row) = c.vector;
        assert_eq!(i, column + row * 4);
        for &v in &c.options {
            assert!(!s.collapsed_on_row.contains(row, v));
            assert!(!s.collapsed_on_column.contains(column, v));
            assert!(!s.collapsed_on_grid.contains(s.block_index(column, row), v));
        }
    }
    assert_eq!(s.cells[1].options, vec![2, 3, 4]);
    assert_eq!(s.cells[2].options, vec![3, 4]);
    assert_eq!(s.cells[14].options, vec![1, 4]);
}

#[test]
fn least_options_indices_lists_ties_in_order() {
    let mut s = Sudoku::new(4, 2);
    assert_eq!(s.least_options_indices(), (0..16).collect::<Vec<usize>>());
    s.set_cell_value(0, 0, 1);
    s.set_cell_value(1, 2, 2);
    s.update();
    assert_eq!(s.least_options_indices(), vec![2, 3, 4, 5]);
}

#[test]
fn choose_least_options_picks_a_minimum() {
    let mut s = Sudoku::new(4, 2);
    s.set_cell_value(0, 0, 1);
    s.set_cell_value(1, 2, 2);
    s.update();
    for _ in 0..50 {
        let i = s.choose_least_options().unwrap();
        assert!((2..=5).contains(&i));
    }
}

#[test]
fn choose_least_options_on_full_board_is_none() {
    let mut s = Sudoku::new(1, 1);
    assert_eq!(s.choose_least_options(), Some(0));
    s.set_cell_value(0, 0, 1);
    assert_eq!(s.choose_least_options(), None);
    assert!(s.least_options_indices().is_empty());
}

#[test]
fn tie_break_reaches_every_tied_cell() {
    let s = Sudoku::new(4, 2);
    let mut seen = [0usize; 16];
    for _ in 0..4000 {
        seen[s.choose_least_options().unwrap()] += 1;
    }
    for &n in seen.iter() {
        assert!(n > 100 && n < 500);
    }
}

#[test]
fn collapse_forced_ignores_candidates() {
    let mut c = Cell::new((1, 2), 4);
    c.options.clear();
    c.collapse(9);
    assert!(c.is_collapsed);
    assert_eq!(c.options, vec![9]);
    assert_eq!(c.vector, (1, 2));
}

#[test]
fn collapse_random_picks_a_candidate() {
    let mut c = Cell::new((0, 0), 4);
    c.options = vec![3, 7];
    let v = c.collapse_random().unwrap();
    assert!(v == 3 || v == 7);
    assert_eq!(c.options, vec![v]);
    assert!(c.is_collapsed);
    let mut d = Cell::new((0, 0), 4);
    d.options = vec![7];
    assert_eq!(d.collapse_random(), Some(7));
}

#[test]
fn collapse_random_on_empty_cell_fails() {
    let mut c = Cell::new((0, 0), 0);
    assert_eq!(c.collapse_random(), None);
    assert!(c.is_collapsed);
    assert!(c.options.is_empty());
}

#[test]
fn collapse_nth_wraps_around() {
    let mut c = Cell::new((0, 0), 4);
    assert_eq!(c.collapse_nth(6), Some(3));
    assert_eq!(c.options, vec![3]);
    let mut e = Cell::new((0, 0), 0);
    assert_eq!(e.collapse_nth(0), None);
    assert!(e.is_collapsed);
}

#[test]
fn duplicate_copies_every_field() {
    let mut c = Cell::new((2, 3), 4);
    c.is_edited = true;
    let d = c.duplicate();
    assert_eq!(d.vector, (2, 3));
    assert!(d.is_edited);
    assert!(!d.is_collapsed);
    assert_eq!(d.options, vec![1, 2, 3, 4]);
}

#[test]
fn save_then_reset_restores_the_checkpoint() {
    let mut s = Sudoku::new(4, 2);
    s.set_cell_value(0, 0, 1);
    s.update();
    s.save();
    let snapshot: Vec<Cell> = s.cells.iter().map(|c| c.duplicate()).collect();
    assert!(same_cells(&s.saved_cells, &snapshot));
    assert_eq!(s.reset(), Ok(()));
    assert!(same_cells(&s.cells, &snapshot));
    for k in 0..4 {
        assert!(!s.collapsed_on_row.contains(k, 1));
        assert!(!s.collapsed_on_column.contains(k, 1));
        assert!(!s.collapsed_on_grid.contains(k, 1));
    }
}

#[test]
fn reset_without_save_is_refused() {
    let mut s = Sudoku::new(4, 2);
    s.set_cell_value(0, 0, 1);
    assert_eq!(s.reset(), Err(ResetError::NotSaved));
    assert!(s.cells[0].is_collapsed);
    assert!(s.collapsed_on_row.contains(0, 1));
}

#[test]
fn step_with_collapses_first_least_cell() {
    let mut s = Sudoku::new(4, 2);
    assert_eq!(step_with(&mut s, 0, 0), SudokuStatus::Running);
    assert_eq!(s.cells[0].options, vec![1]);
    assert!(s.cells[0].is_collapsed);
    assert!(s.collapsed_on_row.contains(0, 1));
    assert_eq!(s.cells[1].options, vec![2, 3, 4]);
    assert_eq!(s.cells[5].options, vec![2, 3, 4]);
    assert_eq!(s.cells[10].options, vec![1, 2, 3, 4]);
    assert_eq!(s.least_options_indices(), vec![1, 2, 3, 4, 5, 8, 12]);
    assert_eq!(step_with(&mut s, 2, 1), SudokuStatus::Running);
    assert_eq!(s.cells[3].options, vec![3]);
}

#[test]
fn step_on_solved_board_succeeds() {
    let mut s = Sudoku::new(1, 1);
    assert_eq!(loop_sudoku(&mut s), SudokuStatus::Running);
    assert_eq!(s.cells[0].options, vec![1]);
    assert_eq!(loop_sudoku(&mut s), SudokuStatus::Success);
    assert_eq!(step_with(&mut s, 3, 3), SudokuStatus::Success);
}

#[test]
fn generation_four_by_four_reaches_a_valid_grid() {
    let mut s = Sudoku::new(4, 2);
    s.save();
    let mut solved = false;
    for _ in 0..200000 {
        match loop_sudoku(&mut s) {
            SudokuStatus::Running => {}
            SudokuStatus::Fail => s.reset().unwrap(),
            SudokuStatus::Success => {
                solved = true;
                break;
            }
        }
    }
    assert!(solved);
    assert_solved(&s);
}

#[test]
fn generation_nine_by_nine_reaches_a_valid_grid() {
    let mut s = Sudoku::new(9, 3);
    s.save();
    let mut solved = false;
    for _ in 0..2000000 {
        match loop_sudoku(&mut s) {
            SudokuStatus::Running => {}
            SudokuStatus::Fail => s.reset().unwrap(),
            SudokuStatus::Success => {
                solved = true;
                break;
            }
        }
    }
    assert!(solved);
    assert_solved(&s);
}

#[test]
fn duplicate_manual_edits_never_succeed() {
    for _ in 0..300 {
        let mut s = Sudoku::new(4, 2);
        s.set_cell_value(0, 0, 1);
        s.set_cell_value(0, 1, 1);
        s.update();
        assert!(!s.cells[2].options.contains(&1));
        assert!(!s.cells[3].options.contains(&1));
        s.save();
        loop {
            match loop_sudoku(&mut s) {
                SudokuStatus::Running => {
                    for i in [2usize, 3] {
                        if !s.cells[i].is_collapsed {
                            assert!(!s.cells[i].options.contains(&1));
                        } else {
                            assert_ne!(s.cells[i].options, vec![1]);
                        }
                    }
                }
                SudokuStatus::Fail => break,
                SudokuStatus::Success => panic!("a grid with a repeated value in a row was completed"),
            }
        }
    }
}

#[test]
fn drained_cell_fails_and_reset_restores_checkpoint() {
    let mut s = Sudoku::new(4, 2);
    s.save();
    let snapshot: Vec<Cell> = s.cells.iter().map(|c| c.duplicate()).collect();
    s.cells[5].options.clear();
    assert_eq!(loop_sudoku(&mut s), SudokuStatus::Fail);
    assert!(s.cells[5].is_collapsed);
    assert!(s.cells[5].options.is_empty());
    assert_eq!(s.reset(), Ok(()));
    assert!(same_cells(&s.cells, &snapshot));
    for k in 0..4 {
        for v in 1..=4 {
            assert!(!s.collapsed_on_row.contains(k, v));
            assert!(!s.collapsed_on_column.contains(k, v));
        }
    }
    for k in 0..16 {
        for v in 1..=4 {
            assert!(!s.collapsed_on_grid.contains(k, v));
        }
    }
}

#[test]
fn app_starts_editing_at_origin() {
    let app = App::new();
    assert!(app.current_screen == CurrentScreen::Editing);
    assert_eq!(app.selected_row, 0);
    assert_eq!(app.selected_column, 0);
}

#[test]
fn step_with_on_drained_cell_fails() {
    let mut s = Sudoku::new(4, 2);
    s.save();
    s.cells[9].options.clear();
    assert_eq!(step_with(&mut s, 5, 5), SudokuStatus::Fail);
    assert!(s.cells[9].is_collapsed);
    assert!(s.cells[9].options.is_empty());
    assert!(!s.cells[0].is_collapsed);
    assert_eq!(s.reset(), Ok(()));
    assert!(!s.cells[9].is_collapsed);
    assert_eq!(s.cells[9].options, vec![1, 2, 3, 4]);
}

#[test]
fn digit_value_reads_decimal_digits() {
    assert_eq!(sudoku_wfc::digit_value('0'), Some(0));
    assert_eq!(sudoku_wfc::digit_value('7'), Some(7));
    assert_eq!(sudoku_wfc::digit_value('a'), None);
}

#[test]
fn editing_keys_move_and_set() {
    let mut app = App::new();
    let mut s = Sudoku::new(4, 2);
    assert_eq!(app.handle_key(&mut s, Key::Up), Action::Continue);
    assert_eq!(app.selected_row, 0);
    app.handle_key(&mut s, Key::Down);
    app.handle_key(&mut s, Key::Right);
    app.handle_key(&mut s, Key::Right);
    assert_eq!((app.selected_row, app.selected_column), (1, 2));
    app.handle_key(&mut s, Key::Char('3'));
    assert_eq!(s.cells[2 + 4].options, vec![3]);
    assert!(s.cells[2 + 4].is_edited);
    for _ in 0..5 {
        app.handle_key(&mut s, Key::Right);
    }
    assert_eq!(app.selected_column, 3);
    app.handle_key(&mut s, Key::Left);
    assert_eq!(app.selected_column, 2);
    app.handle_key(&mut s, Key::Enter);
    assert!(app.current_screen == CurrentScreen::Running);
    assert!(!s.cells[2].options.contains(&3));
    assert!(s.has_checkpoint);
    assert_eq!(app.handle_key(&mut s, Key::Char('q')), Action::Continue);
}

#[test]
fn running_and_finish_screens() {
    let mut app = App::new();
    let mut s = Sudoku::new(4, 2);
    app.handle_key(&mut s, Key::Enter);
    let mut steps = 0;
    while app.current_screen == CurrentScreen::Running {
        app.run_step(&mut s);
        steps += 1;
        assert!(steps < 200000);
    }
    assert!(app.current_screen == CurrentScreen::Finish);
    assert_solved(&s);
    app.handle_key(&mut s, Key::Char('R'));
    assert!(app.current_screen == CurrentScreen::Running);
    assert!(s.cells.iter().all(|c| !c.is_collapsed));
    app.current_screen = CurrentScreen::Finish;
    app.handle_key(&mut s, Key::Char('r'));
    assert!(app.current_screen == CurrentScreen::Editing);
    assert!(!s.has_checkpoint);
    assert_eq!(app.handle_key(&mut s, Key::Char('q')), Action::Quit);
}

#[test]
fn remove_from_grid_takes_one_occurrence_at_a_time() {
    let mut s = Sudoku::new(4, 2);
    s.add_on_grid((1, 0), 2);
    s.add_on_grid((1, 0), 2);
    s.remove_from_grid((1, 0), 2);
    assert!(s.collapsed_on_grid.contains(1, 2));
    s.remove_from_grid((1, 0), 2);
    assert!(!s.collapsed_on_grid.contains(1, 2));
}

#[test]
fn finish_keys_keep_selection_and_checkpoint() {
    let mut app = App::new();
    let mut s = Sudoku::new(4, 2);
    app.handle_key(&mut s, Key::Down);
    app.handle_key(&mut s, Key::Right);
    app.handle_key(&mut s, Key::Enter);
    let saved: Vec<Cell> = s.saved_cells.iter().map(|c| c.duplicate()).collect();
    while app.current_screen == CurrentScreen::Running {
        app.run_step(&mut s);
        assert!(s.has_checkpoint);
        assert_eq!(s.dim, 4);
    }
    assert!(same_cells(&s.saved_cells, &saved));
    app.handle_key(&mut s, Key::Char('R'));
    assert_eq!((app.selected_row, app.selected_column), (1, 1));
    assert!(same_cells(&s.cells, &saved));
    app.current_screen = CurrentScreen::Finish;
    app.handle_key(&mut s, Key::Char('r'));
    assert_eq!((app.selected_row, app.selected_column), (1, 1));
    assert_eq!(s.dim, 4);
}
