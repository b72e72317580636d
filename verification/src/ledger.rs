use vstd::prelude::*;

use crate::config::{validate_config, GridShape};
use crate::error::MapError;
use crate::marks::FrameMarks;
use crate::stats::UpdateStats;

verus! {

/// The snapshot value of a cell: `-1` while unobserved, else its occupancy probability.
pub open spec fn snapshot_cell(observed: bool, probability: i8) -> i8 {
    if observed { probability } else { -1i8 }
}

/// A frame changes cell `i` when it marks it and the cell was unobserved or
/// its log odds moved.
pub open spec fn cell_changes(observed: Seq<bool>, marks: FrameMarks, value_changed: Seq<bool>, i: int) -> bool {
    marks.marked(i) && (!observed[i] || value_changed[i])
}

/// Number of cells among the first `n` that a frame changes.
pub open spec fn count_changes(observed: Seq<bool>, marks: FrameMarks, value_changed: Seq<bool>, n: int) -> nat
    decreases n,
{
    if n <= 0 {
        0
    } else {
        count_changes(observed, marks, value_changed, n - 1) + if cell_changes(observed, marks, value_changed, n - 1) {
            1nat
        } else {
            0nat
        }
    }
}

/// Whether a frame counts a cell as changed depends on nothing but whether
/// the cell was observed and whether its log odds moved: an observed cell
/// whose log odds did not move is never counted, be its evidence a hit or a
/// miss; a newly observed cell always is; an unmarked cell never is.
pub proof fn lemma_cell_change_cases(observed: Seq<bool>, marks: FrameMarks, value_changed: Seq<bool>, i: int)
    ensures
        observed[i] && !value_changed[i] ==> !cell_changes(observed, marks, value_changed, i),
        !observed[i] && marks.marked(i) ==> cell_changes(observed, marks, value_changed, i),
        value_changed[i] && marks.marked(i) ==> cell_changes(observed, marks, value_changed, i),
        !marks.marked(i) ==> !cell_changes(observed, marks, value_changed, i),
{
}

/// A frame whose marked cells were all observed already, and whose log odds
/// moved nowhere, changes no cell: its hit cells held at the clamp are not counted.
pub proof fn lemma_settled_frame_changes_nothing(observed: Seq<bool>, marks: FrameMarks, value_changed: Seq<bool>, n: int)
    requires
        forall|i: int| 0 <= i < n && #[trigger] marks.marked(i) ==> observed[i],
        forall|i: int| 0 <= i < n ==> !#[trigger] value_changed[i],
    ensures
        count_changes(observed, marks, value_changed, n) == 0,
    decreases n,
{
    if n > 0 {
        let i = n - 1;
        assert(!value_changed[i]);
        if marks.marked(i) {
            assert(observed[i]);
        }
        lemma_settled_frame_changes_nothing(observed, marks, value_changed, n - 1);
    }
}

/// A frame that marks none of the first `n` cells changes none of them.
pub proof fn lemma_unmarked_frame_changes_nothing(observed: Seq<bool>, marks: FrameMarks, value_changed: Seq<bool>, n: int)
    requires
        forall|i: int| 0 <= i < n ==> !#[trigger] marks.marked(i),
    ensures
        count_changes(observed, marks, value_changed, n) == 0,
    decreases n,
{
    if n > 0 {
        assert(!marks.marked(n - 1));
        lemma_unmarked_frame_changes_nothing(observed, marks, value_changed, n - 1);
    }
}

/// Number of cells among the first `n` whose snapshot value differs between
/// a snapshot before a frame and one after it.
pub open spec fn count_snapshot_changes(
    before: Seq<bool>,
    p_before: Seq<i8>,
    after: Seq<bool>,
    p_after: Seq<i8>,
    n: int,
) -> nat
    decreases n,
{
    if n <= 0 {
        0
    } else {
        count_snapshot_changes(before, p_before, after, p_after, n - 1) + if snapshot_cell(before[n - 1], p_before[n - 1])
            != snapshot_cell(after[n - 1], p_after[n - 1]) {
            1nat
        } else {
            0nat
        }
    }
}

/// A frame's changed-cell count covers every cell whose snapshot value the
/// frame changes. `after` is `before` with the frame's marked cells observed,
/// as `record` leaves it; a cell's probability moves only where the frame
/// marks it and moves its log odds, since the probability is a function of
/// the log odds.
pub proof fn lemma_changed_cells_cover_snapshot_changes(
    before: Seq<bool>,
    after: Seq<bool>,
    marks: FrameMarks,
    value_changed: Seq<bool>,
    p_before: Seq<i8>,
    p_after: Seq<i8>,
    n: int,
)
    requires
        0 <= n,
        forall|i: int| 0 <= i < n ==> #[trigger] after[i] == (before[i] || marks.marked(i)),
        forall|i: int| 0 <= i < n && #[trigger] p_before[i] != p_after[i] ==> marks.marked(i) && value_changed[i],
    ensures
        count_snapshot_changes(before, p_before, after, p_after, n) <= count_changes(before, marks, value_changed, n),
    decreases n,
{
    if n > 0 {
        let i = n - 1;
        assert(after[i] == (before[i] || marks.marked(i)));
        if p_before[i] != p_after[i] {
            assert(marks.marked(i) && value_changed[i]);
        }
        lemma_changed_cells_cover_snapshot_changes(before, after, marks, value_changed, p_before, p_after, n - 1);
    }
}

/// A cell a snapshot shows as known stays known in every later snapshot:
/// recording a frame only adds observed cells.
pub proof fn lemma_known_cells_stay_known(before: bool, after: bool, marked: bool, p_before: i8, p_after: i8)
    requires
        after == (before || marked),
        0 <= p_before <= 100,
        0 <= p_after <= 100,
        snapshot_cell(before, p_before) >= 0,
    ensures
        snapshot_cell(after, p_after) >= 0,
{
}

/// Which cells of the grid have received evidence. Together with the
/// per-cell log odds, this is the state of a map.
pub struct OccupancyLedger {
    shape: GridShape,
    observed: Vec<bool>,
}

impl OccupancyLedger {
    pub closed spec fn spec_shape(self) -> GridShape {
        self.shape
    }

    pub closed spec fn spec_observed(self) -> Seq<bool> {
        self.observed@
    }

    /// A ledger covers every cell of a grid whose counts are valid.
    pub open spec fn wf(self) -> bool {
        &&& self.spec_shape().counts_valid()
        &&& self.spec_observed().len() == self.spec_shape().cell_count()
    }

    /// Validate a configuration and create a ledger with every cell unobserved.
    /// `values_ok` is as for `validate_config`.
    pub fn new(shape: GridShape, values_ok: bool) -> (r: Result<Self, MapError>)
        ensures
            match r {
                Ok(l) => {
                    &&& values_ok && shape.counts_valid()
                    &&& l.wf()
                    &&& l.spec_shape() == shape
                    &&& forall|i: int| 0 <= i < l.spec_observed().len() ==> !#[trigger] l.spec_observed()[i]
                },
                Err(e) => {
                    &&& e == MapError::InvalidConfiguration
                    &&& !(values_ok && shape.counts_valid())
                },
            },
    {
        match validate_config(shape, values_ok) {
            Err(e) => Err(e),
            Ok(()) => {
                let count = shape.cells();
                let mut observed: Vec<bool> = Vec::new();
                let mut i: usize = 0;
                while i < count
                    invariant
                        i <= count,
                        observed@.len() == i,
                        forall|j: int| 0 <= j < i ==> !#[trigger] observed@[j],
                    decreases count - i,
                {
                    observed.push(false);
                    i = i + 1;
                }
                Ok(OccupancyLedger { shape, observed })
            },
        }
    }

    /// The grid and sector counts.
    pub fn shape(&self) -> (s: GridShape)
        ensures
            s == self.spec_shape(),
    {
        self.shape
    }

    /// Number of cells.
    pub fn cell_count(&self) -> (n: usize)
        requires
            self.wf(),
        ensures
            n == self.spec_shape().cell_count(),
    {
        self.observed.len()
    }

    /// Whether cell `i` has received evidence.
    pub fn is_observed(&self, i: usize) -> (b: bool)
        requires
            i < self.spec_observed().len(),
        ensures
            b == self.spec_observed()[i as int],
    {
        self.observed[i]
    }

    /// Record a frame's evidence: every marked cell becomes observed, and the
    /// frame's counts are returned. `value_changed[i]` tells whether cell
    /// `i`'s log odds moved in this frame. A frame without a counted sample
    /// changes nothing.
    pub fn record(&mut self, marks: &FrameMarks, value_changed: &Vec<bool>) -> (stats: UpdateStats)
        requires
            old(self).wf(),
            marks.consistent(),
            marks.spec_hits().len() == old(self).spec_observed().len(),
            marks.spec_misses().len() == old(self).spec_observed().len(),
            value_changed@.len() == old(self).spec_observed().len(),
        ensures
            final(self).wf(),
            final(self).spec_shape() == old(self).spec_shape(),
            final(self).spec_observed().len() == old(self).spec_observed().len(),
            forall|i: int|
                0 <= i < old(self).spec_observed().len() ==> #[trigger] final(self).spec_observed()[i] == (
                old(self).spec_observed()[i] || marks.marked(i)),
            stats.valid_depth_pixels == marks.spec_valid_samples(),
            stats.considered_rays == marks.spec_considered_rays(),
            stats.obstacle_hits == marks.spec_obstacle_hits(),
            stats.changed_cells == count_changes(
                old(self).spec_observed(),
                *marks,
                value_changed@,
                old(self).spec_observed().len() as int,
            ),
            stats.changed_cells <= old(self).spec_observed().len(),
            stats.obstacle_hits <= stats.considered_rays <= stats.valid_depth_pixels,
            (forall|i: int| 0 <= i < old(self).spec_observed().len() && #[trigger] marks.marked(i) ==> old(self).spec_observed()[i])
                && (forall|i: int| 0 <= i < value_changed@.len() ==> !#[trigger] value_changed@[i]) ==> stats.changed_cells == 0,
            stats.valid_depth_pixels == 0 ==> {
                &&& stats.changed_cells == 0
                &&& final(self).spec_observed() == old(self).spec_observed()
            },
    {
        let ghost before = self.observed@;
        let n = self.observed.len();
        let mut changed: usize = 0;
        let mut i: usize = 0;
        while i < n
            invariant
                n == before.len(),
                self.observed@.len() == n,
                self.shape == old(self).spec_shape(),
                before == old(self).spec_observed(),
                marks.consistent(),
                marks.spec_hits().len() == n,
                marks.spec_misses().len() == n,
                value_changed@.len() == n,
                i <= n,
                changed == count_changes(before, *marks, value_changed@, i as int),
                changed <= i,
                forall|j: int| 0 <= j < i ==> #[trigger] self.observed@[j] == (before[j] || marks.marked(j)),
                forall|j: int| i <= j < n ==> #[trigger] self.observed@[j] == before[j],
            decreases n - i,
        {
            let marked = match marks.evidence(i) {
                Some(_) => true,
                None => false,
            };
            if marked {
                if !self.observed[i] || value_changed[i] {
                    changed = changed + 1;
                }
                self.observed.set(i, true);
            }
            i = i + 1;
        }
        proof {
            if (forall|j: int| 0 <= j < n && #[trigger] marks.marked(j) ==> before[j]) && (forall|j: int|
                0 <= j < n ==> !#[trigger] value_changed@[j]) {
                lemma_settled_frame_changes_nothing(before, *marks, value_changed@, n as int);
            }
            if marks.spec_valid_samples() == 0 {
                lemma_unmarked_frame_changes_nothing(before, *marks, value_changed@, n as int);
                assert(self.observed@ =~= before);
            }
        }
        UpdateStats {
            valid_depth_pixels: marks.valid_samples(),
            considered_rays: marks.considered_rays(),
            obstacle_hits: marks.obstacle_hits(),
            changed_cells: changed,
        }
    }

    /// The snapshot's cells in row-major order: `-1` where unobserved, else
    /// `probability` of the cell. With probabilities in `0..=100`, every
    /// snapshot cell lies in `-1..=100`, and is `-1` exactly where unobserved.
    pub fn snapshot_cells(&self, probability: &Vec<i8>) -> (cells: Vec<i8>)
        requires
            probability@.len() == self.spec_observed().len(),
        ensures
            cells@.len() == self.spec_observed().len(),
            forall|i: int|
                0 <= i < cells@.len() ==> #[trigger] cells@[i] == snapshot_cell(
                    self.spec_observed()[i],
                    probability@[i],
                ),
            (forall|i: int| 0 <= i < probability@.len() ==> 0 <= #[trigger] probability@[i] <= 100) ==> forall|i: int|
                0 <= i < cells@.len() ==> {
                    &&& -1 <= #[trigger] cells@[i] <= 100
                    &&& (cells@[i] == -1 <==> !self.spec_observed()[i])
                },
            forall|i: int| 0 <= i < cells@.len() && self.spec_observed()[i] ==> #[trigger] cells@[i] == probability@[i],
            forall|i: int| 0 <= i < cells@.len() && !self.spec_observed()[i] ==> #[trigger] cells@[i] == -1,
    {
        let n = self.observed.len();
        let mut cells: Vec<i8> = Vec::new();
        let mut i: usize = 0;
        while i < n
            invariant
                n == self.spec_observed().len(),
                probability@.len() == n,
                i <= n,
                cells@.len() == i,
                forall|j: int|
                    0 <= j < i ==> #[trigger] cells@[j] == snapshot_cell(self.spec_observed()[j], probability@[j]),
            decreases n - i,
        {
            let c = if self.observed[i] { probability[i] } else { -1 };
            cells.push(c);
            i = i + 1;
        }
        proof {
            if forall|i: int| 0 <= i < probability@.len() ==> 0 <= #[trigger] probability@[i] <= 100 {
                assert forall|i: int| 0 <= i < cells@.len() implies {
                    &&& -1 <= #[trigger] cells@[i] <= 100
                    &&& (cells@[i] == -1 <==> !self.spec_observed()[i])
                } by {
                    assert(0 <= probability@[i] <= 100);
                }
            }
        }
        cells
    }
}

} // verus!
