use crate::cell::Cell;
use crate::driver::stepped;
use crate::sudoku::same_cells;
use crate::cell::same_cell;
use crate::sudoku::{lemma_block_in_range, placed_at, Sudoku};
use vstd::multiset::Multiset;
use vstd::prelude::*;
use vstd::arithmetic::div_mod::{lemma_fundamental_div_mod, lemma_fundamental_div_mod_converse};
use vstd::set_lib::{lemma_int_range, lemma_map_size, lemma_subset_equality, set_int_range};

verus! {

/// `a` and `b` share a row, a column or a block of `s`.
pub open spec fn same_group(s: Sudoku, a: Cell, b: Cell) -> bool {
    ||| a.vector.0 == b.vector.0
    ||| a.vector.1 == b.vector.1
    ||| s.block_key(a.vector.0 as int, a.vector.1 as int) == s.block_key(
        b.vector.0 as int,
        b.vector.1 as int,
    )
}

/// The single value of collapsed cell `c` is recorded in the trackers of its
/// row, column and block.
pub open spec fn committed_in(s: Sudoku, c: Cell) -> bool {
    let v = c.options@[0];
    &&& s.collapsed_on_row@[c.vector.1 as int].count(v) > 0
    &&& s.collapsed_on_column@[c.vector.0 as int].count(v) > 0
    &&& s.collapsed_on_grid@[s.block_key(c.vector.0 as int, c.vector.1 as int)].count(v) > 0
}

/// The state that generation keeps from step to step: every candidate is in
/// `1..=dim`, open cells are pruned, each collapsed cell holds one value that
/// is committed, and no two collapsed cells of one row, column or block hold
/// the same value.
pub open spec fn consistent(s: Sudoku) -> bool {
    let cells = s.cells@;
    &&& s.propagation_sound()
    &&& forall|i: int, k: int|
        0 <= i < cells.len() && 0 <= k < cells[i].options@.len() ==> 1 <= #[trigger] cells[i].options@[k]
            <= s.dim
    &&& forall|i: int|
        0 <= i < cells.len() && (#[trigger] cells[i]).is_collapsed ==> cells[i].options@.len() == 1
            && committed_in(s, cells[i])
    &&& forall|i: int, j: int|
        #![trigger cells[i], cells[j]]
        0 <= i < cells.len() && 0 <= j < cells.len() && i != j && cells[i].is_collapsed
            && cells[j].is_collapsed && same_group(s, cells[i], cells[j]) ==> cells[i].options@[0]
            != cells[j].options@[0]
}

/// A successful step keeps a board consistent.
pub proof fn lemma_step_keeps_consistent(before: Sudoku, after: Sudoku, i: int, v: usize)
    requires
        before.wf(),
        after.wf(),
        consistent(before),
        Sudoku::is_least(before.cells@, i),
        before.cells@[i].options@.contains(v),
        stepped(before, after, i, v),
        after.propagation_sound(),
    ensures
        consistent(after),
{
    let bc = before.cells@;
    let ac = after.cells@;
    let ci = bc[i];
    let k0 = choose|k: int| 0 <= k < ci.options@.len() && ci.options@[k] == v;
    assert(before.allowed(ci.vector.0 as int, ci.vector.1 as int, ci.options@[k0]));
    assert(1 <= ci.options@[k0] <= before.dim);
    assert forall|j: int, k: int| 0 <= j < ac.len() && 0 <= k < ac[j].options@.len() implies 1
        <= #[trigger] ac[j].options@[k] <= after.dim by {
        if j != i && !bc[j].is_collapsed {
            let b = bc[j];
            let pred = |x: usize| after.allowed(b.vector.0 as int, b.vector.1 as int, x);
            assert(b.options@.filter(pred).contains(ac[j].options@[k]));
            b.options@.lemma_filter_contains_rev(pred, ac[j].options@[k]);
        }
    }
    assert forall|j: int| 0 <= j < ac.len() && (#[trigger] ac[j]).is_collapsed implies ac[j].options@.len()
        == 1 && committed_in(after, ac[j]) by {
        assert(placed_at(bc[i], i, before.dim as int));
        assert(placed_at(bc[j], j, before.dim as int));
        lemma_block_in_range(
            ci.vector.0 as int,
            ci.vector.1 as int,
            before.grid_length as int,
            before.dim as int,
        );
        let c = ac[j];
        lemma_block_in_range(
            c.vector.0 as int,
            c.vector.1 as int,
            before.grid_length as int,
            before.dim as int,
        );
        if j != i {
            assert(bc[j].is_collapsed);
            assert(committed_in(before, bc[j]));
        }
        let w = c.options@[0];
        let bi = before.block_key(ci.vector.0 as int, ci.vector.1 as int);
        let bj = before.block_key(c.vector.0 as int, c.vector.1 as int);
        assert(before.collapsed_on_row@[ci.vector.1 as int].insert(v).count(w) >= before.collapsed_on_row@[ci.vector.1 as int].count(w));
        assert(before.collapsed_on_column@[ci.vector.0 as int].insert(v).count(w) >= before.collapsed_on_column@[ci.vector.0 as int].count(w));
        assert(before.collapsed_on_grid@[bi].insert(v).count(w) >= before.collapsed_on_grid@[bi].count(w));
    }
    assert forall|a: int, b: int|
        #![trigger ac[a], ac[b]]
        0 <= a < ac.len() && 0 <= b < ac.len() && a != b && ac[a].is_collapsed && ac[b].is_collapsed
            && same_group(after, ac[a], ac[b]) implies ac[a].options@[0] != ac[b].options@[0] by {
        if a == i {
            assert(bc[b].is_collapsed);
            assert(committed_in(before, bc[b]));
        } else if b == i {
            assert(bc[a].is_collapsed);
            assert(committed_in(before, bc[a]));
        } else {
            assert(bc[a].is_collapsed && bc[b].is_collapsed);
        }
    }
}

/// Every cell of `cells` is open and its candidates lie in `1..=dim`.
pub open spec fn open_in_range(cells: Seq<Cell>, dim: int) -> bool {
    &&& forall|i: int| 0 <= i < cells.len() ==> !(#[trigger] cells[i]).is_collapsed
    &&& forall|i: int, k: int|
        0 <= i < cells.len() && 0 <= k < cells[i].options@.len() ==> 1 <= #[trigger] cells[i].options@[k]
            <= dim
}

/// A board whose trackers are empty and whose cells are all open with
/// candidates in `1..=dim` is consistent.
pub proof fn lemma_open_board_consistent(s: Sudoku)
    requires
        s.wf(),
        s.trackers_cleared(),
        open_in_range(s.cells@, s.dim as int),
    ensures
        consistent(s),
{
    assert forall|i: int, k: int|
        0 <= i < s.cells@.len() && !s.cells@[i].is_collapsed && 0 <= k
            < s.cells@[i].options@.len() implies s.allowed(
        s.cells@[i].vector.0 as int,
        s.cells@[i].vector.1 as int,
        #[trigger] s.cells@[i].options@[k],
    ) by {
        let c = s.cells@[i];
        assert(placed_at(c, i, s.dim as int));
        lemma_block_in_range(
            c.vector.0 as int,
            c.vector.1 as int,
            s.grid_length as int,
            s.dim as int,
        );
        assert(s.collapsed_on_row@[c.vector.1 as int] == Multiset::<usize>::empty());
        assert(s.collapsed_on_column@[c.vector.0 as int] == Multiset::<usize>::empty());
        assert(s.collapsed_on_grid@[s.block_key(c.vector.0 as int, c.vector.1 as int)]
            == Multiset::<usize>::empty());
    }
}

proof fn lemma_position_unique(x: int, y: int, c: int, r: int, dim: int)
    requires
        0 <= x < dim,
        0 <= c < dim,
        0 <= y < dim,
        0 <= r < dim,
        x + y * dim == c + r * dim,
    ensures
        x == c,
        y == r,
{
    if y < r {
        assert(x + y * dim < (y + 1) * dim) by (nonlinear_arith)
            requires
                x < dim,
        ;
        assert((y + 1) * dim <= r * dim) by (nonlinear_arith)
            requires
                y + 1 <= r,
                dim > 0,
        ;
    } else if r < y {
        assert(c + r * dim < (r + 1) * dim) by (nonlinear_arith)
            requires
                c < dim,
        ;
        assert((r + 1) * dim <= y * dim) by (nonlinear_arith)
            requires
                r + 1 <= y,
                dim > 0,
        ;
    }
}

/// Cell `c + r * dim` of a well-formed board stands at column `c`, row `r`.
proof fn lemma_cell_at(s: Sudoku, c: int, r: int)
    requires
        s.wf(),
        0 <= c < s.dim,
        0 <= r < s.dim,
    ensures
        0 <= c + r * s.dim < s.cells@.len(),
        s.cells@[c + r * s.dim].vector == (c as usize, r as usize),
{
    let dim = s.dim as int;
    assert(0 <= c + r * dim < dim * dim) by (nonlinear_arith)
        requires
            0 <= c < dim,
            0 <= r < dim,
    ;
    let cell = s.cells@[c + r * dim];
    assert(placed_at(cell, c + r * dim, dim));
    lemma_position_unique(cell.vector.0 as int, cell.vector.1 as int, c, r, dim);
}

/// Some cell of row `r` holds the single value `v`.
pub open spec fn row_holds(s: Sudoku, r: int, v: int) -> bool {
    exists|i: int|
        0 <= i < s.cells@.len() && s.cells@[i].vector.1 == r && s.cells@[i].options@.len() == 1
            && s.cells@[i].options@[0] == v
}

/// Some cell of column `c` holds the single value `v`.
pub open spec fn column_holds(s: Sudoku, c: int, v: int) -> bool {
    exists|i: int|
        0 <= i < s.cells@.len() && s.cells@[i].vector.0 == c && s.cells@[i].options@.len() == 1
            && s.cells@[i].options@[0] == v
}

/// A consistent board with every cell collapsed, the state in which
/// `loop_sudoku` reports `Success`, holds every value of `1..=dim` exactly
/// once in each row and in each column, and no value twice in any block.
pub proof fn lemma_solved_grid_is_valid(s: Sudoku)
    requires
        s.wf(),
        consistent(s),
        Sudoku::all_collapsed(s.cells@),
    ensures
        forall|r: int, v: int| 0 <= r < s.dim && 1 <= v <= s.dim ==> #[trigger] row_holds(s, r, v),
        forall|c: int, v: int|
            0 <= c < s.dim && 1 <= v <= s.dim ==> #[trigger] column_holds(s, c, v),
        forall|i: int, j: int|
            #![trigger s.cells@[i], s.cells@[j]]
            0 <= i < s.cells@.len() && 0 <= j < s.cells@.len() && i != j && same_group(
                s,
                s.cells@[i],
                s.cells@[j],
            ) ==> s.cells@[i].options@[0] != s.cells@[j].options@[0],
{
    let dim = s.dim as int;
    let cells = s.cells@;
    let values = set_int_range(1, dim + 1);
    let places = set_int_range(0, dim);
    lemma_int_range(1, dim + 1);
    lemma_int_range(0, dim);
    assert forall|r: int, v: int| 0 <= r < dim && 1 <= v <= dim implies #[trigger] row_holds(
        s,
        r,
        v,
    ) by {
        let f = |c: int| cells[c + r * dim].options@[0] as int;
        assert forall|c: int| places.contains(c) implies values.contains(#[trigger] f(c)) by {
            lemma_cell_at(s, c, r);
            assert(cells[c + r * dim].is_collapsed);
            assert(1 <= cells[c + r * dim].options@[0] <= dim);
        }
        assert forall|a: int, b: int| places.contains(a) && places.contains(b) && #[trigger] f(a)
            == #[trigger] f(b) implies a == b by {
            lemma_cell_at(s, a, r);
            lemma_cell_at(s, b, r);
            if a != b {
                assert(cells[a + r * dim].is_collapsed && cells[b + r * dim].is_collapsed);
                assert(same_group(s, cells[a + r * dim], cells[b + r * dim]));
            }
        }
        lemma_map_size(places, places.map(f), f);
        lemma_subset_equality(places.map(f), values);
        assert(values.contains(v));
        assert(places.map(f).contains(v));
        let c = choose|c: int| places.contains(c) && f(c) == v;
        lemma_cell_at(s, c, r);
    }
    assert forall|c: int, v: int| 0 <= c < dim && 1 <= v <= dim implies #[trigger] column_holds(
        s,
        c,
        v,
    ) by {
        let f = |r: int| cells[c + r * dim].options@[0] as int;
        assert forall|r: int| places.contains(r) implies values.contains(#[trigger] f(r)) by {
            lemma_cell_at(s, c, r);
            assert(cells[c + r * dim].is_collapsed);
            assert(1 <= cells[c + r * dim].options@[0] <= dim);
        }
        assert forall|a: int, b: int| places.contains(a) && places.contains(b) && #[trigger] f(a)
            == #[trigger] f(b) implies a == b by {
            lemma_cell_at(s, c, a);
            lemma_cell_at(s, c, b);
            if a != b {
                assert(cells[c + a * dim].is_collapsed && cells[c + b * dim].is_collapsed);
                assert(same_group(s, cells[c + a * dim], cells[c + b * dim]));
            }
        }
        lemma_map_size(places, places.map(f), f);
        lemma_subset_equality(places.map(f), values);
        assert(values.contains(v));
        assert(places.map(f).contains(v));
        let r = choose|r: int| places.contains(r) && f(r) == v;
        lemma_cell_at(s, c, r);
    }
}

/// Some cell of the block with key `key` holds the single value `v`.
pub open spec fn block_holds(s: Sudoku, key: int, v: int) -> bool {
    exists|i: int|
        0 <= i < s.cells@.len() && s.block_key(
            s.cells@[i].vector.0 as int,
            s.cells@[i].vector.1 as int,
        ) == key && s.cells@[i].options@.len() == 1 && s.cells@[i].options@[0] == v
}

proof fn lemma_block_member(gl: int, bx: int, by: int, t: int)
    requires
        gl > 0,
        0 <= bx < gl,
        0 <= by < gl,
        0 <= t < gl * gl,
    ensures
        0 <= bx * gl + t % gl < gl * gl,
        0 <= by * gl + t / gl < gl * gl,
        (bx * gl + t % gl) / gl == bx,
        (by * gl + t / gl) / gl == by,
{
    lemma_fundamental_div_mod(t, gl);
    assert(0 <= t % gl < gl);
    assert(0 <= t / gl < gl) by (nonlinear_arith)
        requires
            t == gl * (t / gl) + t % gl,
            0 <= t % gl < gl,
            0 <= t < gl * gl,
            gl > 0,
    ;
    assert(0 <= bx * gl + t % gl < gl * gl) by (nonlinear_arith)
        requires
            0 <= bx < gl,
            0 <= t % gl < gl,
    ;
    assert(0 <= by * gl + t / gl < gl * gl) by (nonlinear_arith)
        requires
            0 <= by < gl,
            0 <= t / gl < gl,
    ;
    lemma_fundamental_div_mod_converse(bx * gl + t % gl, gl, bx, t % gl);
    lemma_fundamental_div_mod_converse(by * gl + t / gl, gl, by, t / gl);
}

/// On a board of side `grid_length * grid_length`, a consistent board with
/// every cell collapsed also holds every value of `1..=dim` in each block.
pub proof fn lemma_solved_blocks_are_full(s: Sudoku)
    requires
        s.wf(),
        consistent(s),
        Sudoku::all_collapsed(s.cells@),
        s.grid_length * s.grid_length == s.dim,
    ensures
        forall|bx: int, by: int, v: int|
            0 <= bx < s.grid_length && 0 <= by < s.grid_length && 1 <= v <= s.dim
                ==> #[trigger] block_holds(s, bx + by * s.dim, v),
{
    let dim = s.dim as int;
    let gl = s.grid_length as int;
    let cells = s.cells@;
    let values = set_int_range(1, dim + 1);
    let places = set_int_range(0, dim);
    lemma_int_range(1, dim + 1);
    lemma_int_range(0, dim);
    assert forall|bx: int, by: int, v: int|
        0 <= bx < gl && 0 <= by < gl && 1 <= v <= dim implies #[trigger] block_holds(
        s,
        bx + by * dim,
        v,
    ) by {
        let col = |t: int| bx * gl + t % gl;
        let row = |t: int| by * gl + t / gl;
        let f = |t: int| cells[col(t) + row(t) * dim].options@[0] as int;
        assert forall|t: int| places.contains(t) implies values.contains(#[trigger] f(t)) by {
            lemma_block_member(gl, bx, by, t);
            lemma_cell_at(s, col(t), row(t));
            assert(cells[col(t) + row(t) * dim].is_collapsed);
            assert(1 <= cells[col(t) + row(t) * dim].options@[0] <= dim);
        }
        assert forall|a: int, b: int| places.contains(a) && places.contains(b) && #[trigger] f(a)
            == #[trigger] f(b) implies a == b by {
            lemma_block_member(gl, bx, by, a);
            lemma_block_member(gl, bx, by, b);
            lemma_cell_at(s, col(a), row(a));
            lemma_cell_at(s, col(b), row(b));
            let ia = col(a) + row(a) * dim;
            let ib = col(b) + row(b) * dim;
            if a != b {
                lemma_fundamental_div_mod(a, gl);
                lemma_fundamental_div_mod(b, gl);
                assert(col(a) != col(b) || row(a) != row(b));
                assert(ia != ib);
                assert(cells[ia].is_collapsed && cells[ib].is_collapsed);
                assert(s.block_key(col(a), row(a)) == bx + by * dim);
                assert(same_group(s, cells[ia], cells[ib]));
            }
        }
        lemma_map_size(places, places.map(f), f);
        lemma_subset_equality(places.map(f), values);
        assert(values.contains(v));
        assert(places.map(f).contains(v));
        let t = choose|t: int| places.contains(t) && f(t) == v;
        lemma_block_member(gl, bx, by, t);
        lemma_cell_at(s, col(t), row(t));
        assert(s.block_key(col(t), row(t)) == bx + by * dim);
    }
}

/// One turn of generation as `App::run_step` takes it: either a step that
/// collapsed a least cell onto one of its candidates and propagated it, or a
/// dead end on a least cell followed by a return to the checkpoint.
pub open spec fn generation_turn(before: Sudoku, after: Sudoku) -> bool {
    ||| exists|i: int, v: usize|
        Sudoku::is_least(before.cells@, i) && before.cells@[i].options@.contains(v) && stepped(
            before,
            after,
            i,
            v,
        ) && after.propagation_sound()
    ||| exists|i: int|
        Sudoku::is_least(before.cells@, i) && before.cells@[i].options@.len() == 0
            && Sudoku::reset_from(before, after)
}

/// The grid of `s` holds every value of `1..=dim` in each row and column,
/// and, where blocks have `dim` cells, in each block.
pub open spec fn grid_complete(s: Sudoku) -> bool {
    &&& forall|r: int, v: int| 0 <= r < s.dim && 1 <= v <= s.dim ==> #[trigger] row_holds(s, r, v)
    &&& forall|c: int, v: int|
        0 <= c < s.dim && 1 <= v <= s.dim ==> #[trigger] column_holds(s, c, v)
    &&& s.grid_length * s.grid_length == s.dim ==> forall|bx: int, by: int, v: int|
        0 <= bx < s.grid_length && 0 <= by < s.grid_length && 1 <= v <= s.dim
            ==> #[trigger] block_holds(s, bx + by * s.dim, v)
}

proof fn lemma_run_prefix(boards: Seq<Sudoku>, k: int)
    requires
        0 <= k < boards.len(),
        forall|j: int| 0 <= j < boards.len() ==> (#[trigger] boards[j]).wf(),
        consistent(boards[0]),
        boards[0].has_checkpoint,
        open_in_range(boards[0].saved_cells@, boards[0].dim as int),
        forall|j: int| 0 <= j < boards.len() - 1 ==> generation_turn(#[trigger] boards[j], boards[j + 1]),
    ensures
        consistent(boards[k]),
        boards[k].has_checkpoint,
        boards[k].saved_cells == boards[0].saved_cells,
        boards[k].dim == boards[0].dim,
        boards[k].grid_length == boards[0].grid_length,
    decreases k,
{
    if k > 0 {
        lemma_run_prefix(boards, k - 1);
        let before = boards[k - 1];
        let after = boards[k];
        assert(generation_turn(before, after));
        if exists|i: int, v: usize|
            Sudoku::is_least(before.cells@, i) && before.cells@[i].options@.contains(v) && stepped(
                before,
                after,
                i,
                v,
            ) && after.propagation_sound() {
            let (i, v) = choose|i: int, v: usize|
                Sudoku::is_least(before.cells@, i) && before.cells@[i].options@.contains(v)
                    && stepped(before, after, i, v) && after.propagation_sound();
            lemma_step_keeps_consistent(before, after, i, v);
        } else {
            assert(Sudoku::reset_from(before, after));
            assert forall|i: int, k2: int|
                0 <= i < after.cells@.len() && 0 <= k2 < after.cells@[i].options@.len() implies 1
                <= #[trigger] after.cells@[i].options@[k2] <= after.dim by {
                assert(same_cell(after.cells@[i], before.saved_cells@[i]));
            }
            assert forall|i: int| 0 <= i < after.cells@.len() implies !(
            #[trigger] after.cells@[i]).is_collapsed by {
                assert(same_cell(after.cells@[i], before.saved_cells@[i]));
            }
            lemma_open_board_consistent(after);
        }
    }
}

/// A run of generation from a checkpoint of open cells with candidates in
/// `1..=dim`, on a consistent board, in which each turn is a step or a dead
/// end followed by a reset, keeps every board consistent and the checkpoint
/// unchanged; and any board of the run on which every cell is collapsed,
/// where a step reports `Success`, is a complete grid.
pub proof fn lemma_generation_run(boards: Seq<Sudoku>)
    requires
        boards.len() >= 1,
        forall|j: int| 0 <= j < boards.len() ==> (#[trigger] boards[j]).wf(),
        consistent(boards[0]),
        boards[0].has_checkpoint,
        open_in_range(boards[0].saved_cells@, boards[0].dim as int),
        forall|j: int| 0 <= j < boards.len() - 1 ==> generation_turn(#[trigger] boards[j], boards[j + 1]),
    ensures
        forall|k: int|
            0 <= k < boards.len() ==> consistent(#[trigger] boards[k]) && boards[k].saved_cells
                == boards[0].saved_cells && boards[k].has_checkpoint,
        forall|k: int|
            0 <= k < boards.len() && Sudoku::all_collapsed(boards[k].cells@) ==> grid_complete(
                #[trigger] boards[k],
            ),
{
    assert forall|k: int| 0 <= k < boards.len() implies consistent(#[trigger] boards[k])
        && boards[k].saved_cells == boards[0].saved_cells && boards[k].has_checkpoint by {
        lemma_run_prefix(boards, k);
    }
    assert forall|k: int|
        0 <= k < boards.len() && Sudoku::all_collapsed(boards[k].cells@) implies grid_complete(
        #[trigger] boards[k],
    ) by {
        lemma_run_prefix(boards, k);
        lemma_solved_grid_is_valid(boards[k]);
        if boards[k].grid_length * boards[k].grid_length == boards[k].dim {
            lemma_solved_blocks_are_full(boards[k]);
        }
    }
}

} // verus!
