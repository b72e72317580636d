use vstd::prelude::*;

verus! {

/// Counts from one integrated depth frame.
#[derive(Clone, Copy, Debug, PartialEq, Eq, Structural)]
pub struct UpdateStats {
    /// In-range finite depth samples with a valid mask entry.
    pub valid_depth_pixels: usize,
    /// Angular sectors with usable projected returns.
    pub considered_rays: usize,
    /// Occupied endpoints that fell inside the grid.
    pub obstacle_hits: usize,
    /// Cells newly observed or whose internal log odds changed.
    pub changed_cells: usize,
}

impl Default for UpdateStats {
    fn default() -> (s: Self)
        ensures
            s.valid_depth_pixels == 0,
            s.considered_rays == 0,
            s.obstacle_hits == 0,
            s.changed_cells == 0,
    {
        UpdateStats { valid_depth_pixels: 0, considered_rays: 0, obstacle_hits: 0, changed_cells: 0 }
    }
}

} // verus!
