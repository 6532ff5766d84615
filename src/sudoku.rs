use crate::cell::{choose_element, full_range, same_cell, Cell};
use crate::solved::{consistent, lemma_open_board_consistent, open_in_range};
use crate::tracker::{all_empty, ConstraintTracker};
use vstd::multiset::Multiset;
use vstd::prelude::*;

verus! {

/// Why a board could not go back to its checkpoint.
#[derive(Debug, PartialEq, Eq, Structural)]
pub enum ResetError {
    /// `save` was never called on this board.
    NotSaved,
}

/// A `dim` by `dim` grid of cells in row-major order (cell `column + row * dim`),
/// split in blocks of side `grid_length`, with the values committed so far in
/// each row, column and block, and a checkpoint of the cells to restart from.
///
/// The block at `(column / grid_length, row / grid_length)` has the key
/// `column / grid_length + (row / grid_length) * dim` in `collapsed_on_grid`.
pub struct Sudoku {
    pub dim: usize,
    pub grid_length: usize,
    pub cells: Vec<Cell>,
    pub saved_cells: Vec<Cell>,
    pub has_checkpoint: bool,
    pub collapsed_on_column: ConstraintTracker,
    pub collapsed_on_row: ConstraintTracker,
    pub collapsed_on_grid: ConstraintTracker,
}

/// Cell `c` stands at index `i` of a grid of side `dim`.
pub open spec fn placed_at(c: Cell, i: int, dim: int) -> bool {
    &&& c.vector.0 < dim
    &&& c.vector.1 < dim
    &&& i == c.vector.0 + c.vector.1 * dim
}

/// `cells` is a full grid of side `dim`, each cell at its own index.
pub open spec fn grid_shaped(cells: Seq<Cell>, dim: int) -> bool {
    &&& cells.len() == dim * dim
    &&& forall|i: int| 0 <= i < cells.len() ==> placed_at(#[trigger] cells[i], i, dim)
}

/// Two sequences of cells that agree cell by cell.
pub open spec fn same_cells(a: Seq<Cell>, b: Seq<Cell>) -> bool {
    &&& a.len() == b.len()
    &&& forall|i: int| 0 <= i < a.len() ==> same_cell(#[trigger] a[i], b[i])
}

impl Sudoku {
    pub open spec fn wf(&self) -> bool {
        &&& self.grid_length > 0
        &&& self.dim * self.dim <= usize::MAX
        &&& grid_shaped(self.cells@, self.dim as int)
        &&& self.has_checkpoint ==> grid_shaped(self.saved_cells@, self.dim as int)
        &&& self.collapsed_on_row@.len() == self.dim
        &&& self.collapsed_on_column@.len() == self.dim
        &&& self.collapsed_on_grid@.len() == self.dim * self.dim
    }

    /// Key of the block holding `(column, row)`.
    pub open spec fn block_key(&self, column: int, row: int) -> int {
        column / (self.grid_length as int) + (row / (self.grid_length as int)) * self.dim
    }

    /// No row, column or block tracker of `(column, row)` holds `v`.
    pub open spec fn allowed(&self, column: int, row: int, v: usize) -> bool {
        &&& self.collapsed_on_row@[row].count(v) == 0
        &&& self.collapsed_on_column@[column].count(v) == 0
        &&& self.collapsed_on_grid@[self.block_key(column, row)].count(v) == 0
    }

    /// Board shape, cells and checkpoint of `self` and `other` are the same.
    pub open spec fn same_grid(&self, other: &Sudoku) -> bool {
        &&& self.dim == other.dim
        &&& self.grid_length == other.grid_length
        &&& self.cells == other.cells
        &&& self.saved_cells == other.saved_cells
        &&& self.has_checkpoint == other.has_checkpoint
    }

    /// Everything but the trackers is the same in `self` and `other`.
    pub open spec fn same_trackers(&self, other: &Sudoku) -> bool {
        &&& self.collapsed_on_row@ == other.collapsed_on_row@
        &&& self.collapsed_on_column@ == other.collapsed_on_column@
        &&& self.collapsed_on_grid@ == other.collapsed_on_grid@
    }

    /// `self`'s trackers are `before`'s with one more `v` in the row, column
    /// and block of `(column, row)`.
    pub open spec fn committed_from(&self, before: &Sudoku, column: int, row: int, v: usize) -> bool {
        let b = before.block_key(column, row);
        &&& self.collapsed_on_row@ == before.collapsed_on_row@.update(
            row,
            before.collapsed_on_row@[row].insert(v),
        )
        &&& self.collapsed_on_column@ == before.collapsed_on_column@.update(
            column,
            before.collapsed_on_column@[column].insert(v),
        )
        &&& self.collapsed_on_grid@ == before.collapsed_on_grid@.update(
            b,
            before.collapsed_on_grid@[b].insert(v),
        )
    }

    /// `self`'s trackers are `before`'s with one `v` fewer in the row, column
    /// and block of `(column, row)`, where there was one.
    pub open spec fn uncommitted_from(&self, before: &Sudoku, column: int, row: int, v: usize) -> bool {
        let b = before.block_key(column, row);
        &&& self.collapsed_on_row@ == before.collapsed_on_row@.update(
            row,
            before.collapsed_on_row@[row].remove(v),
        )
        &&& self.collapsed_on_column@ == before.collapsed_on_column@.update(
            column,
            before.collapsed_on_column@[column].remove(v),
        )
        &&& self.collapsed_on_grid@ == before.collapsed_on_grid@.update(
            b,
            before.collapsed_on_grid@[b].remove(v),
        )
    }

    /// All three trackers are empty and keep the sizes that `wf` asks for.
    pub open spec fn trackers_cleared(&self) -> bool {
        &&& all_empty(self.collapsed_on_row@)
        &&& all_empty(self.collapsed_on_column@)
        &&& all_empty(self.collapsed_on_grid@)
    }

    /// `after` is `before` once `save` has run.
    pub open spec fn saved_from(before: Sudoku, after: Sudoku) -> bool {
        &&& after.dim == before.dim
        &&& after.grid_length == before.grid_length
        &&& after.cells == before.cells
        &&& after.has_checkpoint
        &&& same_cells(after.saved_cells@, before.cells@)
        &&& after.same_trackers(&before)
    }

    /// `after` is `before` once `reset` has succeeded.
    pub open spec fn reset_from(before: Sudoku, after: Sudoku) -> bool {
        &&& after.dim == before.dim
        &&& after.grid_length == before.grid_length
        &&& after.saved_cells == before.saved_cells
        &&& after.has_checkpoint == before.has_checkpoint
        &&& same_cells(after.cells@, before.saved_cells@)
        &&& after.trackers_cleared()
    }

    /// `self` is a new board of side `dim` and block side `grid_length`.
    pub open spec fn is_fresh(&self, dim: usize, grid_length: usize) -> bool {
        &&& self.wf()
        &&& self.dim == dim
        &&& self.grid_length == grid_length
        &&& !self.has_checkpoint
        &&& self.saved_cells@.len() == 0
        &&& self.trackers_cleared()
        &&& forall|i: int|
            0 <= i < self.cells@.len() ==> {
                &&& !(#[trigger] self.cells@[i]).is_collapsed
                &&& !self.cells@[i].is_edited
                &&& self.cells@[i].options@ == full_range(dim as nat)
            }
    }

    /// A fresh board: every cell open with candidates `1..=dim`, trackers
    /// empty, no checkpoint.
    pub fn new(dim: usize, grid_length: usize) -> (r: Sudoku)
        requires
            grid_length > 0,
            dim * dim <= usize::MAX,
        ensures
            r.is_fresh(dim, grid_length),
            consistent(r),
    {
        let mut cells: Vec<Cell> = Vec::new();
        let mut y: usize = 0;
        while y < dim
            invariant
                y <= dim,
                dim * dim <= usize::MAX,
                cells@.len() == y * dim,
                forall|i: int|
                    0 <= i < cells@.len() ==> {
                        &&& placed_at(#[trigger] cells@[i], i, dim as int)
                        &&& !cells@[i].is_collapsed
                        &&& !cells@[i].is_edited
                        &&& cells@[i].options@ == full_range(dim as nat)
                    },
            decreases dim - y,
        {
            let mut x: usize = 0;
            while x < dim
                invariant
                    x <= dim,
                    y < dim,
                    dim * dim <= usize::MAX,
                    cells@.len() == y * dim + x,
                    forall|i: int|
                        0 <= i < cells@.len() ==> {
                            &&& placed_at(#[trigger] cells@[i], i, dim as int)
                            &&& !cells@[i].is_collapsed
                            &&& !cells@[i].is_edited
                            &&& cells@[i].options@ == full_range(dim as nat)
                        },
                decreases dim - x,
            {
                proof {
                    assert(y * dim + x < dim * dim) by (nonlinear_arith)
                        requires
                            x < dim,
                            y < dim,
                    ;
                }
                cells.push(Cell::new((x, y), dim));
                x = x + 1;
            }
            proof {
                assert(y * dim + dim == (y + 1) * dim) by (nonlinear_arith);
            }
            y = y + 1;
        }
        let r = Sudoku {
            dim,
            grid_length,
            cells,
            saved_cells: Vec::new(),
            has_checkpoint: false,
            collapsed_on_column: ConstraintTracker::new(dim),
            collapsed_on_row: ConstraintTracker::new(dim),
            collapsed_on_grid: ConstraintTracker::new(dim * dim),
        };
        proof {
            lemma_open_board_consistent(r);
        }
        r
    }

    /// Key of the block holding `(column, row)`.
    pub fn block_index(&self, column: usize, row: usize) -> (r: usize)
        requires
            self.wf(),
            column < self.dim,
            row < self.dim,
        ensures
            r == self.block_key(column as int, row as int),
            r < self.dim * self.dim,
    {
        let gl = self.grid_length;
        let dim = self.dim;
        proof {
            lemma_block_in_range(column as int, row as int, gl as int, dim as int);
        }
        column / gl + (row / gl) * dim
    }

    /// Records `collapsed_value` once in the tracker of `row` and once in
    /// that of `column`.
    pub fn add_on_axis(&mut self, row: usize, column: usize, collapsed_value: usize)
        requires
            old(self).wf(),
            row < old(self).dim,
            column < old(self).dim,
        ensures
            final(self).wf(),
            final(self).same_grid(old(self)),
            final(self).collapsed_on_grid@ == old(self).collapsed_on_grid@,
            final(self).collapsed_on_row@ == old(self).collapsed_on_row@.update(
                row as int,
                old(self).collapsed_on_row@[row as int].insert(collapsed_value),
            ),
            final(self).collapsed_on_column@ == old(self).collapsed_on_column@.update(
                column as int,
                old(self).collapsed_on_column@[column as int].insert(collapsed_value),
            ),
    {
        self.collapsed_on_row.record(row, collapsed_value);
        self.collapsed_on_column.record(column, collapsed_value);
    }

    /// Removes one occurrence of `collapsed_value` from the tracker of `row`
    /// and one from that of `column`, where there is one.
    pub fn remove_from_axis(&mut self, row: usize, column: usize, collapsed_value: usize)
        requires
            old(self).wf(),
            row < old(self).dim,
            column < old(self).dim,
        ensures
            final(self).wf(),
            final(self).same_grid(old(self)),
            final(self).collapsed_on_grid@ == old(self).collapsed_on_grid@,
            final(self).collapsed_on_row@ == old(self).collapsed_on_row@.update(
                row as int,
                old(self).collapsed_on_row@[row as int].remove(collapsed_value),
            ),
            final(self).collapsed_on_column@ == old(self).collapsed_on_column@.update(
                column as int,
                old(self).collapsed_on_column@[column as int].remove(collapsed_value),
            ),
    {
        self.collapsed_on_row.unrecord(row, collapsed_value);
        self.collapsed_on_column.unrecord(column, collapsed_value);
    }

    /// Records `collapsed_value` once in the tracker of the block at
    /// `grid_index`, given as `(column / grid_length, row / grid_length)`.
    pub fn add_on_grid(&mut self, grid_index: (usize, usize), collapsed_value: usize)
        requires
            old(self).wf(),
            grid_index.0 < old(self).dim,
            grid_index.1 < old(self).dim,
        ensures
            final(self).wf(),
            final(self).same_grid(old(self)),
            final(self).collapsed_on_row@ == old(self).collapsed_on_row@,
            final(self).collapsed_on_column@ == old(self).collapsed_on_column@,
            ({
                let k = grid_index.0 + grid_index.1 * old(self).dim;
                final(self).collapsed_on_grid@ == old(self).collapsed_on_grid@.update(
                    k,
                    old(self).collapsed_on_grid@[k].insert(collapsed_value),
                )
            }),
    {
        let key = self.grid_key(grid_index);
        self.collapsed_on_grid.record(key, collapsed_value);
    }

    /// Removes one occurrence of `collapsed_value` from the tracker of the
    /// block at `grid_index`, where there is one.
    pub fn remove_from_grid(&mut self, grid_index: (usize, usize), collapsed_value: usize)
        requires
            old(self).wf(),
            grid_index.0 < old(self).dim,
            grid_index.1 < old(self).dim,
        ensures
            final(self).wf(),
            final(self).same_grid(old(self)),
            final(self).collapsed_on_row@ == old(self).collapsed_on_row@,
            final(self).collapsed_on_column@ == old(self).collapsed_on_column@,
            ({
                let k = grid_index.0 + grid_index.1 * old(self).dim;
                final(self).collapsed_on_grid@ == old(self).collapsed_on_grid@.update(
                    k,
                    old(self).collapsed_on_grid@[k].remove(collapsed_value),
                )
            }),
    {
        let key = self.grid_key(grid_index);
        self.collapsed_on_grid.unrecord(key, collapsed_value);
    }

    fn grid_key(&self, grid_index: (usize, usize)) -> (r: usize)
        requires
            self.wf(),
            grid_index.0 < self.dim,
            grid_index.1 < self.dim,
        ensures
            r == grid_index.0 + grid_index.1 * self.dim,
            r < self.dim * self.dim,
    {
        let dim = self.dim;
        proof {
            assert(grid_index.0 + grid_index.1 * dim < dim * dim) by (nonlinear_arith)
                requires
                    grid_index.0 < dim,
                    grid_index.1 < dim,
            ;
        }
        grid_index.0 + grid_index.1 * dim
    }

    /// Records `value` in the row, column and block trackers of `(column, row)`.
    pub fn commit(&mut self, row: usize, column: usize, value: usize)
        requires
            old(self).wf(),
            row < old(self).dim,
            column < old(self).dim,
        ensures
            final(self).wf(),
            final(self).same_grid(old(self)),
            final(self).committed_from(old(self), column as int, row as int, value),
    {
        let gl = self.grid_length;
        proof {
            lemma_block_in_range(column as int, row as int, gl as int, self.dim as int);
        }
        self.add_on_axis(row, column, value);
        self.add_on_grid((column / gl, row / gl), value);
    }

    /// Removes one occurrence of `value`, where there is one, from the row,
    /// column and block trackers of `(column, row)`.
    pub fn uncommit(&mut self, row: usize, column: usize, value: usize)
        requires
            old(self).wf(),
            row < old(self).dim,
            column < old(self).dim,
        ensures
            final(self).wf(),
            final(self).same_grid(old(self)),
            final(self).uncommitted_from(old(self), column as int, row as int, value),
    {
        let gl = self.grid_length;
        proof {
            lemma_block_in_range(column as int, row as int, gl as int, self.dim as int);
        }
        self.remove_from_axis(row, column, value);
        self.remove_from_grid((column / gl, row / gl), value);
    }

    /// `after` is `before` once `set_cell_value(row, column, value)` has run:
    /// off the grid nothing changes; on it the cell is forced to `value` and
    /// marked edited, the value it held as a collapsed cell is withdrawn from
    /// its trackers, and `value` is committed.
    pub open spec fn value_set(before: Sudoku, after: Sudoku, row: usize, column: usize, value: usize) -> bool {
        &&& (row >= before.dim || column >= before.dim ==> after == before)
        &&& (row < before.dim && column < before.dim ==> {
            let i = column + row * before.dim;
            let c = before.cells@[i];
            let b = before.block_key(column as int, row as int);
            let retract = c.is_collapsed && c.options@.len() > 0;
            let prev = c.options@[0];
            &&& after.dim == before.dim
            &&& after.grid_length == before.grid_length
            &&& after.saved_cells == before.saved_cells
            &&& after.has_checkpoint == before.has_checkpoint
            &&& after.cells@.len() == before.cells@.len()
            &&& forall|j: int|
                0 <= j < before.cells@.len() && j != i ==> #[trigger] after.cells@[j]
                    == before.cells@[j]
            &&& after.cells@[i].vector == c.vector
            &&& after.cells@[i].is_collapsed
            &&& after.cells@[i].is_edited
            &&& after.cells@[i].options@ == seq![value]
            &&& after.collapsed_on_row@ == before.collapsed_on_row@.update(
                row as int,
                withdrawn(before.collapsed_on_row@[row as int], retract, prev).insert(value),
            )
            &&& after.collapsed_on_column@ == before.collapsed_on_column@.update(
                column as int,
                withdrawn(before.collapsed_on_column@[column as int], retract, prev).insert(
                    value,
                ),
            )
            &&& after.collapsed_on_grid@ == before.collapsed_on_grid@.update(
                b,
                withdrawn(before.collapsed_on_grid@[b], retract, prev).insert(value),
            )
        })
    }

    /// Manual edit: forces cell `(column, row)` to `value` and marks it
    /// edited. A value it held as a collapsed cell is first withdrawn from
    /// its trackers, then `value` is committed. Out of the grid, nothing
    /// happens.
    pub fn set_cell_value(&mut self, row: usize, column: usize, value: usize)
        requires
            old(self).wf(),
        ensures
            final(self).wf(),
            Sudoku::value_set(*old(self), *final(self), row, column, value),
    {
        if row >= self.dim || column >= self.dim {
            return;
        }
        let dim = self.dim;
        proof {
            assert(column + row * dim < dim * dim) by (nonlinear_arith)
                requires
                    column < dim,
                    row < dim,
            ;
        }
        let index = column + row * dim;
        let ghost start = *self;
        let is_collapsed = self.cells[index].is_collapsed;
        let has_value = self.cells[index].options.len() > 0;
        if is_collapsed && has_value {
            let previous_value = self.cells[index].options[0];
            self.uncommit(row, column, previous_value);
        }
        let ghost mid = *self;
        let ghost b = start.block_key(column as int, row as int);
        let ghost retract = is_collapsed && has_value;
        let ghost prev = start.cells@[index as int].options@[0];
        proof {
            lemma_block_in_range(column as int, row as int, start.grid_length as int, dim as int);
        }
        assert(mid.collapsed_on_row@ =~= start.collapsed_on_row@.update(
            row as int,
            withdrawn(start.collapsed_on_row@[row as int], retract, prev),
        ));
        assert(mid.collapsed_on_column@ =~= start.collapsed_on_column@.update(
            column as int,
            withdrawn(start.collapsed_on_column@[column as int], retract, prev),
        ));
        assert(mid.collapsed_on_grid@ =~= start.collapsed_on_grid@.update(
            b,
            withdrawn(start.collapsed_on_grid@[b], retract, prev),
        ));
        self.cells[index].is_edited = true;
        self.cells[index].collapse(value);
        assert(grid_shaped(self.cells@, dim as int)) by {
            assert forall|j: int| 0 <= j < self.cells@.len() implies placed_at(
                #[trigger] self.cells@[j],
                j,
                dim as int,
            ) by {
                assert(placed_at(mid.cells@[j], j, dim as int));
            }
        }
        self.commit(row, column, value);
        assert(self.collapsed_on_row@ =~= start.collapsed_on_row@.update(
            row as int,
            withdrawn(start.collapsed_on_row@[row as int], retract, prev).insert(value),
        ));
        assert(self.collapsed_on_column@ =~= start.collapsed_on_column@.update(
            column as int,
            withdrawn(start.collapsed_on_column@[column as int], retract, prev).insert(value),
        ));
        assert(self.collapsed_on_grid@ =~= start.collapsed_on_grid@.update(
            b,
            withdrawn(start.collapsed_on_grid@[b], retract, prev).insert(value),
        ));
    }

    /// The candidates of `c` that no tracker of its row, column or block holds.
    pub open spec fn pruned(&self, c: Cell) -> Seq<usize> {
        c.options@.filter(|v: usize| self.allowed(c.vector.0 as int, c.vector.1 as int, v))
    }

    /// `self.cells` is `before.cells` with each open cell's candidates
    /// pruned by `before`'s trackers; collapsed cells are as they were.
    pub open spec fn propagated_from(&self, before: &Sudoku) -> bool {
        let cells = before.cells@;
        &&& self.cells@.len() == cells.len()
        &&& forall|i: int|
            0 <= i < cells.len() ==> {
                let c = #[trigger] self.cells@[i];
                &&& c.vector == cells[i].vector
                &&& c.is_collapsed == cells[i].is_collapsed
                &&& c.is_edited == cells[i].is_edited
                &&& c.options@ == if cells[i].is_collapsed {
                    cells[i].options@
                } else {
                    before.pruned(cells[i])
                }
            }
    }

    /// No open cell has a candidate that a tracker of its row, column or
    /// block holds.
    pub open spec fn propagation_sound(&self) -> bool {
        forall|i: int, k: int|
            0 <= i < self.cells@.len() && !self.cells@[i].is_collapsed && 0 <= k
                < self.cells@[i].options@.len() ==> self.allowed(
                self.cells@[i].vector.0 as int,
                self.cells@[i].vector.1 as int,
                #[trigger] self.cells@[i].options@[k],
            )
    }

    fn pruned_options(&self, i: usize) -> (r: Vec<usize>)
        requires
            self.wf(),
            i < self.cells@.len(),
        ensures
            r@ == self.pruned(self.cells@[i as int]),
    {
        let column = self.cells[i].vector.0;
        let row = self.cells[i].vector.1;
        let block = self.block_index(column, row);
        let ghost c = self.cells@[i as int];
        let n = self.cells[i].options.len();
        let mut r: Vec<usize> = Vec::new();
        let mut k: usize = 0;
        while k < n
            invariant
                self.wf(),
                i < self.cells@.len(),
                c == self.cells@[i as int],
                column == c.vector.0,
                row == c.vector.1,
                column < self.dim,
                row < self.dim,
                block == self.block_key(column as int, row as int),
                block < self.dim * self.dim,
                n == c.options@.len(),
                k <= n,
                r@ == c.options@.subrange(0, k as int).filter(
                    |v: usize| self.allowed(column as int, row as int, v),
                ),
            decreases n - k,
        {
            let v = self.cells[i].options[k];
            let free = !self.collapsed_on_row.contains(row, v)
                && !self.collapsed_on_column.contains(column, v)
                && !self.collapsed_on_grid.contains(block, v);
            if free {
                r.push(v);
            }
            proof {
                let next = c.options@.subrange(0, k + 1);
                assert(next.drop_last() =~= c.options@.subrange(0, k as int));
                assert(next.last() == v);
                reveal(Seq::filter);
                assert(free == self.allowed(column as int, row as int, v));
            }
            k = k + 1;
        }
        assert(c.options@.subrange(0, n as int) =~= c.options@);
        r
    }

    /// Prunes every open cell: its candidates keep only the values that no
    /// tracker of its row, column or block holds. Collapsed cells and the
    /// trackers are left as they are.
    pub fn update(&mut self)
        requires
            old(self).wf(),
        ensures
            final(self).wf(),
            final(self).dim == old(self).dim,
            final(self).grid_length == old(self).grid_length,
            final(self).saved_cells == old(self).saved_cells,
            final(self).has_checkpoint == old(self).has_checkpoint,
            final(self).same_trackers(old(self)),
            final(self).propagated_from(old(self)),
            final(self).propagation_sound(),
    {
        let ghost start = *self;
        let n = self.cells.len();
        let mut i: usize = 0;
        while i < n
            invariant
                self.wf(),
                self.dim == start.dim,
                self.grid_length == start.grid_length,
                self.saved_cells == start.saved_cells,
                self.has_checkpoint == start.has_checkpoint,
                self.same_trackers(&start),
                n == self.cells@.len(),
                n == start.cells@.len(),
                i <= n,
                forall|j: int|
                    i <= j < n ==> #[trigger] self.cells@[j] == start.cells@[j],
                forall|j: int|
                    0 <= j < i ==> {
                        let c = #[trigger] self.cells@[j];
                        &&& c.vector == start.cells@[j].vector
                        &&& c.is_collapsed == start.cells@[j].is_collapsed
                        &&& c.is_edited == start.cells@[j].is_edited
                        &&& c.options@ == if start.cells@[j].is_collapsed {
                            start.cells@[j].options@
                        } else {
                            start.pruned(start.cells@[j])
                        }
                    },
            decreases n - i,
        {
            if !self.cells[i].is_collapsed {
                let options = self.pruned_options(i);
                let ghost before = *self;
                assert(self.cells@[i as int] == start.cells@[i as int]);
                assert(self.pruned(start.cells@[i as int]) =~= start.pruned(start.cells@[i as int])) by {
                    let c = start.cells@[i as int];
                    let p1 = |v: usize| self.allowed(c.vector.0 as int, c.vector.1 as int, v);
                    let p2 = |v: usize| start.allowed(c.vector.0 as int, c.vector.1 as int, v);
                    assert(p1 =~= p2);
                }
                self.cells[i].options = options;
                assert(grid_shaped(self.cells@, self.dim as int)) by {
                    assert forall|j: int| 0 <= j < self.cells@.len() implies placed_at(
                        #[trigger] self.cells@[j],
                        j,
                        self.dim as int,
                    ) by {
                        assert(placed_at(before.cells@[j], j, self.dim as int));
                    }
                }
            }
            i = i + 1;
        }
        assert forall|j: int, k: int|
            0 <= j < self.cells@.len() && !self.cells@[j].is_collapsed && 0 <= k
                < self.cells@[j].options@.len() implies self.allowed(
            self.cells@[j].vector.0 as int,
            self.cells@[j].vector.1 as int,
            #[trigger] self.cells@[j].options@[k],
        ) by {
            let c = start.cells@[j];
            let pred = |v: usize| start.allowed(c.vector.0 as int, c.vector.1 as int, v);
            c.options@.lemma_filter_pred(pred, k);
        }
    }

    /// `i` is an open cell with no more candidates than any other open cell.
    pub open spec fn is_least(cells: Seq<Cell>, i: int) -> bool {
        &&& 0 <= i < cells.len()
        &&& !cells[i].is_collapsed
        &&& forall|j: int|
            0 <= j < cells.len() && !cells[j].is_collapsed ==> cells[i].options@.len()
                <= #[trigger] cells[j].options@.len()
    }

    /// Every cell of `cells` is collapsed.
    pub open spec fn all_collapsed(cells: Seq<Cell>) -> bool {
        forall|i: int| 0 <= i < cells.len() ==> (#[trigger] cells[i]).is_collapsed
    }

    /// The indices `i` with `is_least(cells, i)`, ascending.
    pub open spec fn least_indices(cells: Seq<Cell>) -> Seq<int> {
        Seq::new(cells.len(), |i: int| i).filter(|i: int| Sudoku::is_least(cells, i))
    }

    /// The indices of the open cells that have the fewest candidates,
    /// ascending; empty when every cell is collapsed.
    pub fn least_options_indices(&self) -> (r: Vec<usize>)
        ensures
            r@.map_values(|x: usize| x as int) == Sudoku::least_indices(self.cells@),
            forall|k: int| 0 <= k < r@.len() ==> Sudoku::is_least(self.cells@, #[trigger] r@[k] as int),
            r@.len() == 0 <==> Sudoku::all_collapsed(self.cells@),
    {
        let ghost cells = self.cells@;
        let n = self.cells.len();
        let mut found = false;
        let mut least: usize = 0;
        let mut at: usize = 0;
        let mut i: usize = 0;
        while i < n
            invariant
                cells == self.cells@,
                n == cells.len(),
                i <= n,
                found ==> at < i && !cells[at as int].is_collapsed && cells[at as int].options@.len() == least,
                found ==> forall|j: int|
                    0 <= j < i && !cells[j].is_collapsed ==> least <= #[trigger] cells[j].options@.len(),
                !found ==> forall|j: int| 0 <= j < i ==> (#[trigger] cells[j]).is_collapsed,
            decreases n - i,
        {
            if !self.cells[i].is_collapsed {
                let len = self.cells[i].options.len();
                if !found || len < least {
                    found = true;
                    least = len;
                    at = i;
                }
            }
            i = i + 1;
        }
        let mut r: Vec<usize> = Vec::new();
        let mut i: usize = 0;
        while i < n
            invariant
                cells == self.cells@,
                n == cells.len(),
                i <= n,
                found ==> at < n && !cells[at as int].is_collapsed && cells[at as int].options@.len() == least,
                found ==> forall|j: int|
                    0 <= j < n && !cells[j].is_collapsed ==> least <= #[trigger] cells[j].options@.len(),
                !found ==> forall|j: int| 0 <= j < n ==> (#[trigger] cells[j]).is_collapsed,
                r@.map_values(|x: usize| x as int) == Seq::new(i as nat, |j: int| j).filter(
                    |j: int| Sudoku::is_least(cells, j),
                ),
                forall|k: int| 0 <= k < r@.len() ==> Sudoku::is_least(cells, #[trigger] r@[k] as int),
                found && at < i ==> r@.len() > 0,
                !found ==> r@.len() == 0,
            decreases n - i,
        {
            let take = !self.cells[i].is_collapsed && self.cells[i].options.len() == least;
            proof {
                if take {
                    assert(found);
                }
                if Sudoku::is_least(cells, i as int) {
                    assert(found);
                    assert(cells[i as int].options@.len() <= cells[at as int].options@.len());
                }
                assert(take == Sudoku::is_least(cells, i as int));
            }
            let ghost old_r = r@;
            if take {
                r.push(i);
            }
            proof {
                let next = Seq::new((i + 1) as nat, |j: int| j);
                assert(next.drop_last() =~= Seq::new(i as nat, |j: int| j));
                assert(next.last() == i as int);
                reveal(Seq::filter);
                if take {
                    assert(r@ =~= old_r.push(i));
                    assert(r@.map_values(|x: usize| x as int) =~= old_r.map_values(|x: usize| x as int).push(i as int));
                }
            }
            i = i + 1;
        }
        proof {
            assert(Seq::new(cells.len(), |j: int| j) =~= Seq::new(n as nat, |j: int| j));
            if found {
                assert(!Sudoku::all_collapsed(cells));
            }
        }
        r
    }

    /// An open cell with the fewest candidates, picked at random among those
    /// tied; `None` when every cell is collapsed.
    pub fn choose_least_options(&self) -> (r: Option<usize>)
        ensures
            r is None <==> Sudoku::all_collapsed(self.cells@),
            r matches Some(i) ==> Sudoku::is_least(self.cells@, i as int),
    {
        let indices = self.least_options_indices();
        let r = choose_element(&indices);
        proof {
            if let Some(i) = r {
                let k = choose|k: int| 0 <= k < indices@.len() && indices@[k] == i;
                assert(Sudoku::is_least(self.cells@, indices@[k] as int));
            }
        }
        r
    }

    /// Takes a checkpoint: a copy of every cell as it stands.
    pub fn save(&mut self)
        requires
            old(self).wf(),
        ensures
            final(self).wf(),
            Sudoku::saved_from(*old(self), *final(self)),
            consistent(*old(self)) ==> consistent(*final(self)),
            open_in_range(old(self).cells@, old(self).dim as int) ==> open_in_range(
                final(self).saved_cells@,
                final(self).dim as int,
            ),
    {
        let mut saved: Vec<Cell> = Vec::new();
        let mut i: usize = 0;
        while i < self.cells.len()
            invariant
                i <= self.cells@.len(),
                saved@.len() == i,
                forall|j: int| 0 <= j < i ==> same_cell(#[trigger] saved@[j], self.cells@[j]),
            decreases self.cells@.len() - i,
        {
            saved.push(self.cells[i].duplicate());
            i = i + 1;
        }
        self.saved_cells = saved;
        self.has_checkpoint = true;
    }

    /// Goes back to the checkpoint: the cells become a copy of it and every
    /// tracker is emptied, so values placed before the checkpoint are no
    /// longer committed. Without a checkpoint nothing changes.
    pub fn reset(&mut self) -> (r: Result<(), ResetError>)
        requires
            old(self).wf(),
        ensures
            final(self).wf(),
            r is Err <==> !old(self).has_checkpoint,
            r is Err ==> *final(self) == *old(self),
            r is Ok ==> Sudoku::reset_from(*old(self), *final(self)),
            r is Ok && open_in_range(old(self).saved_cells@, old(self).dim as int) ==> consistent(
                *final(self),
            ),
    {
        if !self.has_checkpoint {
            return Err(ResetError::NotSaved);
        }
        let mut cells: Vec<Cell> = Vec::new();
        let mut i: usize = 0;
        while i < self.saved_cells.len()
            invariant
                i <= self.saved_cells@.len(),
                cells@.len() == i,
                forall|j: int| 0 <= j < i ==> same_cell(#[trigger] cells@[j], self.saved_cells@[j]),
            decreases self.saved_cells@.len() - i,
        {
            cells.push(self.saved_cells[i].duplicate());
            i = i + 1;
        }
        self.cells = cells;
        self.collapsed_on_column.clear();
        self.collapsed_on_row.clear();
        self.collapsed_on_grid.clear();
        proof {
            if open_in_range(self.saved_cells@, self.dim as int) {
                assert forall|i: int, k: int|
                    0 <= i < self.cells@.len() && 0 <= k < self.cells@[i].options@.len() implies 1
                    <= #[trigger] self.cells@[i].options@[k] <= self.dim by {
                    assert(same_cell(self.cells@[i], self.saved_cells@[i]));
                }
                assert(open_in_range(self.cells@, self.dim as int));
                lemma_open_board_consistent(*self);
            }
        }
        Ok(())
    }
}

/// A checkpoint taken and restored with nothing in between gives back the
/// very cells it was taken of, with every tracker empty.
pub proof fn lemma_checkpoint_fidelity(at_save: Sudoku, saved: Sudoku, restored: Sudoku)
    requires
        Sudoku::saved_from(at_save, saved),
        Sudoku::reset_from(saved, restored),
    ensures
        same_cells(restored.cells@, at_save.cells@),
        restored.trackers_cleared(),
{
    assert forall|i: int| 0 <= i < restored.cells@.len() implies same_cell(
        #[trigger] restored.cells@[i],
        at_save.cells@[i],
    ) by {
        assert(same_cell(restored.cells@[i], saved.saved_cells@[i]));
        assert(same_cell(saved.saved_cells@[i], at_save.cells@[i]));
    }
}

/// Withdrawing a value from a row that holds it twice leaves it there once,
/// and withdrawing it again leaves it absent.
pub proof fn lemma_uncommit_one_at_a_time(
    s0: Sudoku,
    s1: Sudoku,
    s2: Sudoku,
    column: int,
    row: int,
    v: usize,
)
    requires
        0 <= row < s0.collapsed_on_row@.len(),
        s0.collapsed_on_row@[row].count(v) == 2,
        s1.grid_length == s0.grid_length,
        s1.dim == s0.dim,
        s1.uncommitted_from(&s0, column, row, v),
        s2.uncommitted_from(&s1, column, row, v),
    ensures
        s1.collapsed_on_row@[row].count(v) == 1,
        s2.collapsed_on_row@[row].count(v) == 0,
{
}

/// Withdrawing a value from a block that holds it twice leaves it there
/// once, and withdrawing it again leaves it absent.
pub proof fn lemma_block_removal_one_at_a_time(
    s0: Sudoku,
    s1: Sudoku,
    s2: Sudoku,
    grid_index: (usize, usize),
    v: usize,
)
    requires
        s0.wf(),
        grid_index.0 < s0.dim,
        grid_index.1 < s0.dim,
        s0.collapsed_on_grid@[grid_index.0 + grid_index.1 * s0.dim].count(v) == 2,
        s1.dim == s0.dim,
        ({
            let k = grid_index.0 + grid_index.1 * s0.dim;
            &&& s1.collapsed_on_grid@ == s0.collapsed_on_grid@.update(
                k,
                s0.collapsed_on_grid@[k].remove(v),
            )
            &&& s2.collapsed_on_grid@ == s1.collapsed_on_grid@.update(
                k,
                s1.collapsed_on_grid@[k].remove(v),
            )
        }),
    ensures
        s1.collapsed_on_grid@[grid_index.0 + grid_index.1 * s0.dim].count(v) == 1,
        s2.collapsed_on_grid@[grid_index.0 + grid_index.1 * s0.dim].count(v) == 0,
{
    let dim = s0.dim as int;
    assert(grid_index.0 + grid_index.1 * dim < dim * dim) by (nonlinear_arith)
        requires
            grid_index.0 < dim,
            grid_index.1 < dim,
    ;
}

/// `m` with one `v` fewer when `retract` holds, `m` itself otherwise.
pub open spec fn withdrawn(m: Multiset<usize>, retract: bool, v: usize) -> Multiset<usize> {
    if retract {
        m.remove(v)
    } else {
        m
    }
}

pub proof fn lemma_block_in_range(column: int, row: int, gl: int, dim: int)
    requires
        0 <= column < dim,
        0 <= row < dim,
        gl > 0,
    ensures
        0 <= column / gl <= column,
        0 <= row / gl <= row,
        column / gl + (row / gl) * dim < dim * dim,
{
    assert(0 <= column / gl <= column) by (nonlinear_arith)
        requires
            0 <= column,
            gl > 0,
    ;
    assert(0 <= row / gl <= row) by (nonlinear_arith)
        requires
            0 <= row,
            gl > 0,
    ;
    let a = column / gl;
    let b = row / gl;
    assert(a + b * dim < dim * dim) by (nonlinear_arith)
        requires
            0 <= a < dim,
            0 <= b < dim,
    ;
}

} // verus!
