use vstd::prelude::*;

use crate::grid::{cell_index, in_grid, lemma_row_major_in_range, lemma_row_major_injective, row_major};

verus! {

/// Which coordinate a grid traversal moves next: the column, the row, or
/// both at once where the ray crosses a cell corner.
#[derive(Clone, Copy, Debug, PartialEq, Eq, Structural)]
pub enum Advance {
    Column,
    Row,
    Both,
}

/// Position reached from `pos` by moving along `a` with the given steps.
pub open spec fn moved(pos: (int, int), step: (int, int), a: Advance) -> (int, int) {
    match a {
        Advance::Column => (pos.0 + step.0, pos.1),
        Advance::Row => (pos.0, pos.1 + step.1),
        Advance::Both => (pos.0 + step.0, pos.1 + step.1),
    }
}

/// Number of cells a traversal of a `width` by `height` grid may visit.
pub open spec fn visit_limit(width: usize, height: usize) -> int {
    let a = if width + height > usize::MAX { usize::MAX as int } else { width + height };
    if a + 2 > usize::MAX { usize::MAX as int } else { a + 2 }
}

/// `q` is reached from `p` by one move along `step`: the column, the row, or both.
pub open spec fn forward(p: (int, int), q: (int, int), step: (int, int)) -> bool {
    ||| q == (p.0 + step.0, p.1)
    ||| q == (p.0, p.1 + step.1)
    ||| q == (p.0 + step.0, p.1 + step.1)
}

/// A coordinate difference `d` measured along direction `s` (`1` or `-1`).
pub open spec fn along(d: int, s: int) -> int {
    if s > 0 { d } else { -d }
}

/// Two positions that are equal or neighbours, diagonals included.
pub open spec fn adjacent(p: (int, int), q: (int, int)) -> bool {
    &&& -1 <= q.0 - p.0 <= 1
    &&& -1 <= q.1 - p.1 <= 1
}

/// Cell-by-cell traversal of a grid along a ray, from a start cell towards an
/// end cell. The caller decides at each step which coordinate moves (that
/// choice comes from real-valued crossing distances); the traversal records
/// each cell it enters and stops on leaving the grid, on reaching the end
/// cell, or after `width + height + 2` cells.
pub struct CellWalk {
    width: usize,
    height: usize,
    col: isize,
    row: isize,
    end_col: isize,
    end_row: isize,
    step_col: isize,
    step_row: isize,
    budget: usize,
    limit: usize,
    finished: bool,
    cells: Vec<usize>,
    visited: Ghost<Seq<(int, int)>>,
}

impl CellWalk {
    pub closed spec fn grid_width(self) -> int {
        self.width as int
    }

    pub closed spec fn grid_height(self) -> int {
        self.height as int
    }

    /// Current position (column, row).
    pub closed spec fn position(self) -> (int, int) {
        (self.col as int, self.row as int)
    }

    /// End cell (column, row).
    pub closed spec fn end(self) -> (int, int) {
        (self.end_col as int, self.end_row as int)
    }

    /// Column and row steps, each in `-1..=1`.
    pub closed spec fn step(self) -> (int, int) {
        (self.step_col as int, self.step_row as int)
    }

    /// Visits left.
    pub closed spec fn budget(self) -> int {
        self.budget as int
    }

    /// Visits allowed in all.
    pub closed spec fn limit(self) -> int {
        self.limit as int
    }

    /// Whether the traversal has stopped.
    pub closed spec fn done(self) -> bool {
        self.finished
    }

    /// Indices of the cells entered so far, in order.
    pub closed spec fn spec_cells(self) -> Seq<usize> {
        self.cells@
    }

    /// Positions of the cells entered so far, in order.
    pub closed spec fn positions(self) -> Seq<(int, int)> {
        self.visited@
    }

    /// The traversal's invariant: every recorded cell lies in the grid, is
    /// the row-major index of its position, and neighbours the one before;
    /// an unfinished traversal stands on the last recorded cell, which is not
    /// the end cell; no more cells were recorded than visits were spent.
    pub closed spec fn wf(self) -> bool {
        &&& 0 < self.width
        &&& 0 < self.height
        &&& self.width * self.height <= usize::MAX
        &&& self.width <= isize::MAX
        &&& self.height <= isize::MAX
        &&& -1 <= self.step_col <= 1
        &&& -1 <= self.step_row <= 1
        &&& self.cells@.len() == self.visited@.len()
        &&& forall|k: int|
            0 <= k < self.visited@.len() ==> {
                &&& in_grid(#[trigger] self.visited@[k].0, self.visited@[k].1, self.width as int, self.height as int)
                &&& self.cells@[k] == row_major(self.visited@[k].0, self.visited@[k].1, self.width as int)
            }
        &&& forall|k: int|
            0 <= k < self.visited@.len() - 1 ==> forward(
                #[trigger] self.visited@[k],
                self.visited@[k + 1],
                (self.step_col as int, self.step_row as int),
            )
        &&& self.budget <= self.limit
        &&& self.limit == visit_limit(self.width, self.height)
        &&& self.cells@.len() + self.budget <= self.limit
        &&& !self.finished ==> {
            &&& in_grid(self.col as int, self.row as int, self.width as int, self.height as int)
            &&& self.visited@.len() > 0
            &&& self.visited@.last() == (self.col as int, self.row as int)
            &&& (self.col, self.row) != (self.end_col, self.end_row)
            &&& self.cells@.len() + self.budget == self.limit
        }
    }

    /// The step at the current position: when visits are left, spend one,
    /// then stop outside the grid, or record the cell and stop if it is the end.
    fn visit(&mut self)
        requires
            old(self).wf_pending(),
        ensures
            final(self).wf(),
            final(self).visits(*old(self), old(self).position()),
    {
        if self.budget == 0 {
            self.finished = true;
            return;
        }
        self.budget = self.budget - 1;
        match cell_index(self.col, self.row, self.width, self.height) {
            None => {
                self.finished = true;
            },
            Some(i) => {
                let ghost before = self.visited@;
                let ghost before_cells = self.cells@;
                self.cells.push(i);
                self.visited = Ghost(self.visited@.push((self.col as int, self.row as int)));
                proof {
                    let after = self.visited@;
                    assert forall|k: int| 0 <= k < after.len() - 1 implies forward(
                        #[trigger] after[k],
                        after[k + 1],
                        (self.step_col as int, self.step_row as int),
                    ) by {
                        if k < before.len() - 1 {
                            assert(after[k] == before[k] && after[k + 1] == before[k + 1]);
                        } else {
                            assert(after[k] == before.last());
                        }
                    }
                    assert forall|k: int| 0 <= k < after.len() implies {
                        &&& in_grid(#[trigger] after[k].0, after[k].1, self.width as int, self.height as int)
                        &&& self.cells@[k] == row_major(after[k].0, after[k].1, self.width as int)
                    } by {
                        if k < before.len() {
                            assert(after[k] == before[k]);
                            assert(self.cells@[k] == before_cells[k]);
                            assert(in_grid(before[k].0, before[k].1, self.width as int, self.height as int));
                        } else {
                            assert(after[k] == (self.col as int, self.row as int));
                            assert(self.cells@[k] == i);
                            lemma_row_major_in_range(self.col as int, self.row as int, self.width as int, self.height as int);
                        }
                    }
                }
                if self.col == self.end_col && self.row == self.end_row {
                    self.finished = true;
                }
            },
        }
    }

    /// The state between a move and the visit that follows it.
    closed spec fn wf_pending(self) -> bool {
        &&& 0 < self.width
        &&& 0 < self.height
        &&& self.width * self.height <= usize::MAX
        &&& self.width <= isize::MAX
        &&& self.height <= isize::MAX
        &&& -1 <= self.step_col <= 1
        &&& -1 <= self.step_row <= 1
        &&& self.cells@.len() == self.visited@.len()
        &&& forall|k: int|
            0 <= k < self.visited@.len() ==> {
                &&& in_grid(#[trigger] self.visited@[k].0, self.visited@[k].1, self.width as int, self.height as int)
                &&& self.cells@[k] == row_major(self.visited@[k].0, self.visited@[k].1, self.width as int)
            }
        &&& forall|k: int|
            0 <= k < self.visited@.len() - 1 ==> forward(
                #[trigger] self.visited@[k],
                self.visited@[k + 1],
                (self.step_col as int, self.step_row as int),
            )
        &&& self.visited@.len() > 0 ==> forward(
            self.visited@.last(),
            (self.col as int, self.row as int),
            (self.step_col as int, self.step_row as int),
        )
        &&& self.budget <= self.limit
        &&& self.limit == visit_limit(self.width, self.height)
        &&& self.cells@.len() + self.budget == self.limit
        &&& !self.finished
    }

    /// What one visit of `pos` does, from the state `prev` before it: with
    /// no visit left the traversal stops; otherwise it spends a visit, stops
    /// if `pos` lies outside the grid, and else records the cell of `pos` and
    /// stops if `pos` is the end cell.
    pub open spec fn visits(self, prev: CellWalk, pos: (int, int)) -> bool {
        &&& self.grid_width() == prev.grid_width()
        &&& self.grid_height() == prev.grid_height()
        &&& self.end() == prev.end()
        &&& self.step() == prev.step()
        &&& self.limit() == prev.limit()
        &&& self.position() == pos
        &&& if prev.budget() == 0 {
            &&& self.done()
            &&& self.budget() == 0
            &&& self.spec_cells() == prev.spec_cells()
            &&& self.positions() == prev.positions()
        } else if !in_grid(pos.0, pos.1, prev.grid_width(), prev.grid_height()) {
            &&& self.done()
            &&& self.budget() == prev.budget() - 1
            &&& self.spec_cells() == prev.spec_cells()
            &&& self.positions() == prev.positions()
        } else {
            &&& self.done() == (pos == prev.end())
            &&& self.budget() == prev.budget() - 1
            &&& self.spec_cells() == prev.spec_cells().push(row_major(pos.0, pos.1, prev.grid_width()) as usize)
            &&& self.positions() == prev.positions().push(pos)
        }
    }

    /// Start a traversal of a `width` by `height` grid at (`col`, `row`)
    /// towards (`end_col`, `end_row`), moving by `step_col` and `step_row`,
    /// and visit the start cell.
    pub fn start(
        width: usize,
        height: usize,
        col: isize,
        row: isize,
        end_col: isize,
        end_row: isize,
        step_col: isize,
        step_row: isize,
    ) -> (w: CellWalk)
        requires
            0 < width,
            0 < height,
            width * height <= usize::MAX,
            width <= isize::MAX,
            height <= isize::MAX,
            -1 <= step_col <= 1,
            -1 <= step_row <= 1,
        ensures
            w.wf(),
            w.grid_width() == width,
            w.grid_height() == height,
            w.position() == (col as int, row as int),
            w.end() == (end_col as int, end_row as int),
            w.step() == (step_col as int, step_row as int),
            w.limit() == visit_limit(width, height),
            width + height + 2 <= usize::MAX ==> w.limit() == width + height + 2,
            w.limit() >= 2,
            w.budget() == w.limit() - 1,
            if in_grid(col as int, row as int, width as int, height as int) {
                &&& w.done() == (col == end_col && row == end_row)
                &&& w.spec_cells() == seq![row_major(col as int, row as int, width as int) as usize]
                &&& w.positions() == seq![(col as int, row as int)]
            } else {
                &&& w.done()
                &&& w.spec_cells() == Seq::<usize>::empty()
                &&& w.positions() == Seq::<(int, int)>::empty()
            },
    {
        let limit = width.saturating_add(height).saturating_add(2);
        proof {
            lemma_visit_limit(width, height);
        }
        let mut w = CellWalk {
            width,
            height,
            col,
            row,
            end_col,
            end_row,
            step_col,
            step_row,
            budget: limit,
            limit,
            finished: false,
            cells: Vec::new(),
            visited: Ghost(Seq::empty()),
        };
        w.visit();
        w
    }

    /// Move along `a`, then visit the new position.
    pub fn advance(&mut self, a: Advance)
        requires
            old(self).wf(),
            !old(self).done(),
        ensures
            final(self).wf(),
            final(self).visits(*old(self), moved(old(self).position(), old(self).step(), a)),
            final(self).done() ==> {
                ||| old(self).budget() == 0
                ||| !in_grid(final(self).position().0, final(self).position().1, final(self).grid_width(), final(self).grid_height())
                ||| final(self).position() == final(self).end()
            },
            !final(self).done() ==> {
                &&& in_grid(final(self).position().0, final(self).position().1, final(self).grid_width(), final(self).grid_height())
                &&& final(self).position() != final(self).end()
                &&& final(self).spec_cells() == old(self).spec_cells().push(
                    (final(self).position().1 * final(self).grid_width() + final(self).position().0) as usize,
                )
            },
    {
        match a {
            Advance::Column => {
                self.col = self.col + self.step_col;
            },
            Advance::Row => {
                self.row = self.row + self.step_row;
            },
            Advance::Both => {
                self.col = self.col + self.step_col;
                self.row = self.row + self.step_row;
            },
        }
        self.visit();
    }

    /// Whether the traversal has stopped.
    pub fn is_finished(&self) -> (b: bool)
        ensures
            b == self.done(),
    {
        self.finished
    }

    /// The cells entered, in order.
    pub fn into_cells(self) -> (cells: Vec<usize>)
        ensures
            cells@ == self.spec_cells(),
    {
        self.cells
    }
}

/// Whatever the moves, a traversal only records cells inside the grid, each
/// the row-major index of its position, each a neighbour of the one before,
/// and at most `width + height + 2` of them (saturating).
pub proof fn lemma_walk_stays_in_grid(w: CellWalk)
    requires
        w.wf(),
    ensures
        w.spec_cells().len() == w.positions().len(),
        w.spec_cells().len() <= w.limit(),
        w.limit() <= w.grid_width() + w.grid_height() + 2,
        forall|k: int|
            0 <= k < w.positions().len() ==> {
                &&& in_grid(#[trigger] w.positions()[k].0, w.positions()[k].1, w.grid_width(), w.grid_height())
                &&& w.spec_cells()[k] == row_major(w.positions()[k].0, w.positions()[k].1, w.grid_width())
                &&& w.spec_cells()[k] < w.grid_width() * w.grid_height()
            },
        forall|k: int|
            0 <= k < w.positions().len() - 1 ==> forward(#[trigger] w.positions()[k], w.positions()[k + 1], w.step()),
        forall|k: int|
            0 <= k < w.positions().len() - 1 ==> adjacent(#[trigger] w.positions()[k], w.positions()[k + 1]),
        -1 <= w.step().0 <= 1,
        -1 <= w.step().1 <= 1,
{
    assert forall|k: int| 0 <= k < w.positions().len() implies {
        &&& in_grid(#[trigger] w.positions()[k].0, w.positions()[k].1, w.grid_width(), w.grid_height())
        &&& w.spec_cells()[k] == row_major(w.positions()[k].0, w.positions()[k].1, w.grid_width())
        &&& w.spec_cells()[k] < w.grid_width() * w.grid_height()
    } by {
        lemma_row_major_in_range(w.positions()[k].0, w.positions()[k].1, w.grid_width(), w.grid_height());
    }
}

/// Along a chain of forward moves with unit steps, each coordinate only
/// advances in its step's direction, and together they advance at least once per move.
proof fn lemma_forward_chain(pos: Seq<(int, int)>, step: (int, int), i: int, j: int)
    requires
        step.0 == 1 || step.0 == -1,
        step.1 == 1 || step.1 == -1,
        forall|k: int| 0 <= k < pos.len() - 1 ==> forward(#[trigger] pos[k], pos[k + 1], step),
        0 <= i <= j < pos.len(),
    ensures
        along(pos[j].0 - pos[i].0, step.0) >= 0,
        along(pos[j].1 - pos[i].1, step.1) >= 0,
        along(pos[j].0 - pos[i].0, step.0) + along(pos[j].1 - pos[i].1, step.1) >= j - i,
    decreases j - i,
{
    if i < j {
        lemma_forward_chain(pos, step, i, j - 1);
        assert(forward(pos[j - 1], pos[j], step));
    }
}

/// With non-zero steps a traversal never enters a cell twice: each
/// coordinate moves only in its step's direction, so the cells are distinct
/// and number at most `width + height - 1`.
pub proof fn lemma_walk_never_repeats(w: CellWalk)
    requires
        w.wf(),
        w.step().0 != 0,
        w.step().1 != 0,
    ensures
        forall|i: int, j: int|
            0 <= i < j < w.spec_cells().len() ==> #[trigger] w.spec_cells()[i] != #[trigger] w.spec_cells()[j],
        forall|i: int, j: int|
            0 <= i <= j < w.positions().len() ==> {
                &&& along(#[trigger] w.positions()[j].0 - #[trigger] w.positions()[i].0, w.step().0) >= 0
                &&& along(w.positions()[j].1 - w.positions()[i].1, w.step().1) >= 0
            },
        w.spec_cells().len() <= w.grid_width() + w.grid_height() - 1,
{
    let pos = w.positions();
    let step = w.step();
    let width = w.grid_width();
    let height = w.grid_height();
    lemma_walk_stays_in_grid(w);
    assert forall|i: int, j: int| 0 <= i < j < w.spec_cells().len() implies #[trigger] w.spec_cells()[i]
        != #[trigger] w.spec_cells()[j] by {
        lemma_forward_chain(pos, step, i, j);
        if w.spec_cells()[i] == w.spec_cells()[j] {
            assert(in_grid(pos[i].0, pos[i].1, width, height));
            assert(in_grid(pos[j].0, pos[j].1, width, height));
            lemma_row_major_injective(pos[i].0, pos[i].1, pos[j].0, pos[j].1, width, height);
        }
    }
    assert forall|i: int, j: int| 0 <= i <= j < w.positions().len() implies {
        &&& along(#[trigger] w.positions()[j].0 - #[trigger] w.positions()[i].0, w.step().0) >= 0
        &&& along(w.positions()[j].1 - w.positions()[i].1, w.step().1) >= 0
    } by {
        lemma_forward_chain(pos, step, i, j);
    }
    if pos.len() > 0 {
        let last = pos.len() - 1;
        lemma_forward_chain(pos, step, 0, last);
        assert(in_grid(pos[0].0, pos[0].1, width, height));
        assert(in_grid(pos[last].0, pos[last].1, width, height));
    }
}

/// A traversal may visit `width + height + 2` cells, or as many as `usize`
/// counts where that sum does not fit.
pub proof fn lemma_visit_limit(width: usize, height: usize)
    ensures
        width + height + 2 <= usize::MAX ==> visit_limit(width, height) == width + height + 2,
        width + height + 2 > usize::MAX ==> visit_limit(width, height) == usize::MAX,
        visit_limit(width, height) >= 2,
{
}

/// With unit steps a traversal never runs out of visits while it goes on:
/// it has recorded at most `width + height - 1` cells, so at least three
/// visits remain, and it stops only on leaving the grid or reaching the end cell.
pub proof fn lemma_walk_budget_suffices(w: CellWalk)
    requires
        w.wf(),
        w.step().0 != 0,
        w.step().1 != 0,
        w.grid_width() + w.grid_height() + 2 <= usize::MAX,
        !w.done(),
    ensures
        w.budget() >= 3,
{
    lemma_walk_never_repeats(w);
    assert(w.limit() == w.grid_width() + w.grid_height() + 2);
}

} // verus!
