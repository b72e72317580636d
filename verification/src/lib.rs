//! Integer core of a local occupancy mapper: validation of grid and frame
//! shapes, angular grouping of returns, grid traversal, evidence marking and
//! the ledger of observed cells behind each map snapshot.
mod config;
mod error;
mod frame;
mod grid;
mod ledger;
mod marks;
mod rays;
mod stats;
mod walk;

pub use config::{validate_config, GridShape, MAX_ANGULAR_BINS, MAX_CELLS};
pub use error::MapError;
pub use frame::{frame_error, lemma_frame_sizes_exact, validate_frame, ValidFrame};
pub use grid::{
    cell_index, in_grid, lemma_row_major_decomposes, lemma_row_major_in_range, lemma_row_major_injective, row_major,
};
pub use ledger::{
    cell_changes, count_changes, count_snapshot_changes, lemma_changed_cells_cover_snapshot_changes,
    lemma_cell_change_cases, lemma_known_cells_stay_known, lemma_settled_frame_changes_nothing,
    lemma_unmarked_frame_changes_nothing, snapshot_cell, OccupancyLedger,
};
pub use marks::{
    count_grid_hits, ends_in, evidence_of, hit_marked, lemma_grid_hits_count_sectors, lemma_grid_hits_ignore_cells, mark_rays, miss_marked, obstacle_of, passes, ray_misses,
    sectors_in_range, Evidence, FrameMarks, Obstacle, SectorCells,
};
pub use rays::{
    accepted, clamp_bin, count_accepted, count_some, farthest, hit_of, in_bin, is_ray_of, key_of,
    lemma_count_accepted_bounded, lemma_count_some_bounded, lemma_count_some_same_shape, lemma_count_some_zero,
    lemma_mask_zero_excludes, lemma_nonzero_mask_is_no_mask, lemma_nonzero_mask_keeps_rays, lemma_ray_extremes,
    lemma_ray_unique, lemma_return_behind_obstacle_adds_nothing, mask_view, nearer, nearest_hit, select_rays, FramePlan,
    RayEndpoints, Sample,
};
pub use stats::UpdateStats;
pub use walk::{
    adjacent, along, forward, lemma_visit_limit, lemma_walk_budget_suffices, lemma_walk_never_repeats, lemma_walk_stays_in_grid, moved, visit_limit, Advance, CellWalk,
};
