use vstd::prelude::*;

use crate::error::MapError;

verus! {

/// Largest number of grid cells a mapper accepts, so that allocation stays bounded.
pub const MAX_CELLS: usize = 10_000_000;

/// Largest number of azimuth sectors a mapper accepts.
pub const MAX_ANGULAR_BINS: usize = 100_000;

/// The integer part of a mapper configuration: grid size and azimuth sectors.
#[derive(Clone, Copy, Debug, PartialEq, Eq, Structural)]
pub struct GridShape {
    /// Number of columns along increasing world X.
    pub width_cells: usize,
    /// Number of rows along increasing world Z.
    pub height_cells: usize,
    /// Number of azimuth sectors used for nearest-hit occlusion.
    pub angular_bins: usize,
}

impl GridShape {
    /// The counts a mapper accepts: a non-empty grid of at most `MAX_CELLS`
    /// cells whose sides fit `isize`, and between 1 and `MAX_ANGULAR_BINS` sectors.
    pub open spec fn counts_valid(self) -> bool {
        &&& 0 < self.width_cells
        &&& 0 < self.height_cells
        &&& self.width_cells * self.height_cells <= MAX_CELLS
        &&& self.width_cells <= isize::MAX
        &&& self.height_cells <= isize::MAX
        &&& 0 < self.angular_bins <= MAX_ANGULAR_BINS
    }

    /// Number of cells of the grid.
    pub open spec fn cell_count(self) -> int {
        self.width_cells * self.height_cells
    }

    /// Whether the counts are acceptable; see `counts_valid`.
    pub fn has_valid_counts(&self) -> (ok: bool)
        ensures
            ok == self.counts_valid(),
    {
        let cells_ok = match self.width_cells.checked_mul(self.height_cells) {
            Some(n) => n <= MAX_CELLS,
            None => false,
        };
        self.width_cells != 0 && self.height_cells != 0 && cells_ok
            && self.width_cells <= isize::MAX as usize && self.height_cells <= isize::MAX as usize
            && self.angular_bins != 0 && self.angular_bins <= MAX_ANGULAR_BINS
    }

    /// Number of cells of a grid with valid counts.
    pub fn cells(&self) -> (n: usize)
        requires
            self.counts_valid(),
        ensures
            n == self.cell_count(),
    {
        self.width_cells * self.height_cells
    }
}

/// Validate a configuration. `values_ok` tells whether its real-valued
/// settings (resolution, bounds, floor and obstacle band, depth range and
/// log-odds evidence) are finite and ordered as a mapper needs them.
pub fn validate_config(shape: GridShape, values_ok: bool) -> (r: Result<(), MapError>)
    ensures
        r is Ok <==> (values_ok && shape.counts_valid()),
        r is Err ==> r == Err::<(), MapError>(MapError::InvalidConfiguration),
{
    if !values_ok || !shape.has_valid_counts() {
        return Err(MapError::InvalidConfiguration);
    }
    Ok(())
}

} // verus!
