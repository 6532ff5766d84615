use crate::solved::{consistent, lemma_step_keeps_consistent};
use crate::sudoku::{grid_shaped, placed_at, Sudoku};
use vstd::prelude::*;

verus! {

/// Outcome of one generation step.
#[derive(Debug, PartialEq, Eq, Structural)]
pub enum SudokuStatus {
    /// A cell was collapsed and its value propagated.
    Running,
    /// Every cell is collapsed.
    Success,
    /// The chosen cell had no candidate left; the board awaits `reset`.
    Fail,
}

/// Shape, checkpoint and trackers of `after` are those of `before`, and its
/// cells too but for cell `i`.
pub open spec fn same_but_cell(before: Sudoku, after: Sudoku, i: int) -> bool {
    &&& after.dim == before.dim
    &&& after.grid_length == before.grid_length
    &&& after.saved_cells == before.saved_cells
    &&& after.has_checkpoint == before.has_checkpoint
    &&& after.cells@.len() == before.cells@.len()
    &&& forall|j: int|
        0 <= j < before.cells@.len() && j != i ==> #[trigger] after.cells@[j] == before.cells@[j]
    &&& after.cells@[i].vector == before.cells@[i].vector
    &&& after.cells@[i].is_edited == before.cells@[i].is_edited
    &&& after.cells@[i].is_collapsed
}

/// `after` is `before` once open cell `i`, left without candidates, has been
/// marked collapsed; nothing else changed.
pub open spec fn failed_at(before: Sudoku, after: Sudoku, i: int) -> bool {
    &&& same_but_cell(before, after, i)
    &&& after.same_trackers(&before)
    &&& after.cells@[i].options@ == before.cells@[i].options@
}

/// `after` is `before` once cell `i` has been collapsed onto `v`, `v` has
/// been committed to its row, column and block, and every other open cell
/// has been pruned by the trackers that result.
pub open spec fn stepped(before: Sudoku, after: Sudoku, i: int, v: usize) -> bool {
    let c = before.cells@[i];
    &&& after.dim == before.dim
    &&& after.grid_length == before.grid_length
    &&& after.saved_cells == before.saved_cells
    &&& after.has_checkpoint == before.has_checkpoint
    &&& after.committed_from(&before, c.vector.0 as int, c.vector.1 as int, v)
    &&& after.cells@.len() == before.cells@.len()
    &&& after.cells@[i].vector == c.vector
    &&& after.cells@[i].is_collapsed
    &&& after.cells@[i].is_edited == c.is_edited
    &&& after.cells@[i].options@ == seq![v]
    &&& forall|j: int|
        0 <= j < before.cells@.len() && j != i ==> {
            let d = #[trigger] after.cells@[j];
            let b = before.cells@[j];
            &&& d.vector == b.vector
            &&& d.is_collapsed == b.is_collapsed
            &&& d.is_edited == b.is_edited
            &&& d.options@ == if b.is_collapsed {
                b.options@
            } else {
                after.pruned(b)
            }
        }
}

proof fn lemma_cell_change_keeps_shape(before: Sudoku, after: Sudoku, i: int)
    requires
        before.wf(),
        0 <= i < before.cells@.len(),
        same_but_cell(before, after, i),
        after.same_trackers(&before),
    ensures
        after.wf(),
{
    assert(grid_shaped(after.cells@, after.dim as int)) by {
        assert forall|j: int| 0 <= j < after.cells@.len() implies placed_at(
            #[trigger] after.cells@[j],
            j,
            after.dim as int,
        ) by {
            assert(placed_at(before.cells@[j], j, before.dim as int));
        }
    }
}

/// Commits the value of the freshly collapsed cell `i` and propagates it.
fn commit_and_propagate(sudoku: &mut Sudoku, i: usize, v: usize, Ghost(before): Ghost<Sudoku>)
    requires
        before.wf(),
        i < before.cells@.len(),
        same_but_cell(before, *old(sudoku), i as int),
        old(sudoku).same_trackers(&before),
        old(sudoku).cells@[i as int].options@ == seq![v],
    ensures
        final(sudoku).wf(),
        final(sudoku).propagation_sound(),
        stepped(before, *final(sudoku), i as int, v),
        consistent(before) && Sudoku::is_least(before.cells@, i as int)
            && before.cells@[i as int].options@.contains(v) ==> consistent(*final(sudoku)),
{
    proof {
        lemma_cell_change_keeps_shape(before, *sudoku, i as int);
        assert(placed_at(before.cells@[i as int], i as int, before.dim as int));
    }
    let column = sudoku.cells[i].vector.0;
    let row = sudoku.cells[i].vector.1;
    sudoku.commit(row, column, v);
    let ghost mid = *sudoku;
    sudoku.update();
    assert forall|j: int| 0 <= j < before.cells@.len() && j != i implies {
        let d = #[trigger] sudoku.cells@[j];
        let b = before.cells@[j];
        &&& d.vector == b.vector
        &&& d.is_collapsed == b.is_collapsed
        &&& d.is_edited == b.is_edited
        &&& d.options@ == if b.is_collapsed {
            b.options@
        } else {
            sudoku.pruned(b)
        }
    } by {
        let b = before.cells@[j];
        assert(mid.cells@[j] == b);
        let p1 = |x: usize| sudoku.allowed(b.vector.0 as int, b.vector.1 as int, x);
        let p2 = |x: usize| mid.allowed(b.vector.0 as int, b.vector.1 as int, x);
        assert(p1 =~= p2);
    }
    proof {
        if consistent(before) && Sudoku::is_least(before.cells@, i as int)
            && before.cells@[i as int].options@.contains(v) {
            lemma_step_keeps_consistent(before, *sudoku, i as int, v);
        }
    }
}

/// One generation step: picks at random an open cell with the fewest
/// candidates, collapses it onto one of them drawn at random, commits that
/// value and propagates it. `Success` when every cell was already collapsed,
/// `Fail` when the picked cell had no candidate left.
pub fn loop_sudoku(sudoku: &mut Sudoku) -> (r: SudokuStatus)
    requires
        old(sudoku).wf(),
    ensures
        final(sudoku).wf(),
        r is Success <==> Sudoku::all_collapsed(old(sudoku).cells@),
        r is Success ==> *final(sudoku) == *old(sudoku),
        r is Fail ==> exists|i: int|
            Sudoku::is_least(old(sudoku).cells@, i) && old(sudoku).cells@[i].options@.len() == 0
                && failed_at(*old(sudoku), *final(sudoku), i),
        r is Running ==> final(sudoku).propagation_sound(),
        r is Running && consistent(*old(sudoku)) ==> consistent(*final(sudoku)),
        r is Running ==> exists|i: int, v: usize|
            Sudoku::is_least(old(sudoku).cells@, i) && old(sudoku).cells@[i].options@.contains(v)
                && stepped(*old(sudoku), *final(sudoku), i, v),
{
    let ghost before = *sudoku;
    match sudoku.choose_least_options() {
        None => SudokuStatus::Success,
        Some(i) => {
            let outcome = sudoku.cells[i].collapse_random();
            proof {
                lemma_cell_change_keeps_shape(before, *sudoku, i as int);
            }
            match outcome {
                None => SudokuStatus::Fail,
                Some(v) => {
                    commit_and_propagate(sudoku, i, v, Ghost(before));
                    SudokuStatus::Running
                },
            }
        },
    }
}

/// The step of `loop_sudoku` with both random draws given: among the open
/// cells with the fewest candidates, in index order, the one at
/// `cell_choice` modulo their number is collapsed onto its candidate at
/// `value_choice` modulo their number.
pub fn step_with(sudoku: &mut Sudoku, cell_choice: usize, value_choice: usize) -> (r: SudokuStatus)
    requires
        old(sudoku).wf(),
    ensures
        final(sudoku).wf(),
        r is Success <==> Sudoku::all_collapsed(old(sudoku).cells@),
        r is Success ==> *final(sudoku) == *old(sudoku),
        !(r is Success) ==> {
            let least = Sudoku::least_indices(old(sudoku).cells@);
            let i = least[cell_choice as int % least.len() as int];
            let opts = old(sudoku).cells@[i].options@;
            &&& Sudoku::is_least(old(sudoku).cells@, i)
            &&& (r is Fail <==> opts.len() == 0)
            &&& r is Fail ==> failed_at(*old(sudoku), *final(sudoku), i)
            &&& r is Running ==> final(sudoku).propagation_sound()
            &&& r is Running && consistent(*old(sudoku)) ==> consistent(*final(sudoku))
            &&& r is Running ==> stepped(
                *old(sudoku),
                *final(sudoku),
                i,
                opts[value_choice as int % opts.len() as int],
            )
        },
{
    let ghost before = *sudoku;
    let least = sudoku.least_options_indices();
    let n = least.len();
    if n == 0 {
        return SudokuStatus::Success;
    }
    let i = least[cell_choice % n];
    proof {
        let k = cell_choice as int % n as int;
        assert(least@.map_values(|x: usize| x as int)[k] == i as int);
        assert(Sudoku::is_least(before.cells@, least@[k] as int));
    }
    let outcome = sudoku.cells[i].collapse_nth(value_choice);
    proof {
        lemma_cell_change_keeps_shape(before, *sudoku, i as int);
        let opts = before.cells@[i as int].options@;
        if opts.len() > 0 {
            assert(opts.contains(opts[value_choice as int % opts.len() as int]));
        }
    }
    match outcome {
        None => SudokuStatus::Fail,
        Some(v) => {
            commit_and_propagate(sudoku, i, v, Ghost(before));
            SudokuStatus::Running
        },
    }
}

} // verus!
