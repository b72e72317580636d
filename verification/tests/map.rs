use lib::{
    mark_rays, select_rays, validate_frame, Evidence, FrameMarks, GridShape, MapError, OccupancyLedger, Sample,
    SectorCells,
};

fn shape() -> GridShape {
    GridShape { width_cells: 3, height_cells: 3, angular_bins: 4 }
}

fn sector(obstacle_cell: Option<usize>, path: Vec<usize>) -> SectorCells {
    SectorCells { obstacle_cell, path }
}

fn no_sector() -> SectorCells {
    sector(None, vec![])
}

/// Marks on the 3 by 3 grid for one frame of returns, each sector's cells given.
fn marks_for(samples: Vec<Sample>, sectors: Vec<SectorCells>) -> FrameMarks {
    let n = samples.len();
    let frame = validate_frame(n, 1, n, None, true, true).ok().unwrap();
    let plan = select_rays(&frame, &samples, None, sectors.len());
    mark_rays(&plan, &sectors, 9)
}

fn ret(raw_bin: usize, key: u32, hit: bool) -> Sample {
    Sample::Return { raw_bin, key, hit }
}

#[test]
fn ray_marks_obstacle_as_hit_and_crossed_cells_as_misses() {
    let m = marks_for(vec![ret(0, 10, true)], vec![sector(Some(4), vec![0, 1, 4]), no_sector()]);
    assert_eq!(m.cell_count(), 9);
    assert_eq!(m.valid_samples(), 1);
    assert_eq!(m.considered_rays(), 1);
    assert_eq!(m.obstacle_hits(), 1);
    assert_eq!(m.evidence(0), Some(Evidence::Miss));
    assert_eq!(m.evidence(1), Some(Evidence::Miss));
    assert_eq!(m.evidence(4), Some(Evidence::Hit));
    assert_eq!(m.evidence(8), None);
}

#[test]
fn obstacle_outside_grid_only_carves() {
    let m = marks_for(vec![ret(0, 10, true)], vec![sector(None, vec![3, 4, 5])]);
    assert_eq!(m.considered_rays(), 1);
    assert_eq!(m.obstacle_hits(), 0);
    assert_eq!(m.evidence(5), Some(Evidence::Miss));
}

#[test]
fn ray_without_obstacle_ignores_an_obstacle_cell() {
    let m = marks_for(vec![ret(0, 10, false)], vec![sector(Some(5), vec![3, 4, 5])]);
    assert_eq!(m.obstacle_hits(), 0);
    assert_eq!(m.evidence(5), Some(Evidence::Miss));
}

#[test]
fn sector_without_ray_marks_nothing() {
    let m = marks_for(vec![ret(1, 10, true)], vec![sector(Some(0), vec![0, 1]), sector(None, vec![])]);
    assert_eq!(m.considered_rays(), 1);
    assert_eq!(m.evidence(0), None);
    assert_eq!(m.evidence(1), None);
}

#[test]
fn hit_from_one_ray_wins_over_miss_from_another() {
    let m = marks_for(
        vec![ret(0, 10, true), ret(1, 10, false)],
        vec![sector(Some(2), vec![0, 1, 2]), sector(None, vec![0, 1, 2]), no_sector()],
    );
    assert_eq!(m.considered_rays(), 2);
    assert_eq!(m.obstacle_hits(), 1);
    assert_eq!(m.evidence(2), Some(Evidence::Hit));
    assert_eq!(m.evidence(1), Some(Evidence::Miss));
}

#[test]
fn frame_without_counted_samples_marks_nothing() {
    let m = marks_for(vec![Sample::Rejected, Sample::Unplaced], vec![sector(Some(4), vec![0, 4]), sector(Some(1), vec![1])]);
    assert_eq!(m.valid_samples(), 1);
    assert_eq!(m.considered_rays(), 0);
    let m = marks_for(vec![Sample::Rejected], vec![sector(Some(4), vec![0, 4])]);
    assert_eq!(m.valid_samples(), 0);
    assert_eq!(m.considered_rays(), 0);
    assert_eq!(m.evidence(0), None);
    assert_eq!(m.evidence(4), None);
}

#[test]
fn new_ledger_is_unobserved_and_invalid_config_is_refused() {
    let l = OccupancyLedger::new(shape(), true).ok().unwrap();
    assert_eq!(l.cell_count(), 9);
    assert_eq!(l.shape(), shape());
    assert!(!l.is_observed(0));
    assert_eq!(l.snapshot_cells(&vec![50; 9]), vec![-1; 9]);
    assert_eq!(OccupancyLedger::new(shape(), false).err(), Some(MapError::InvalidConfiguration));
    let empty = GridShape { width_cells: 0, ..shape() };
    assert_eq!(OccupancyLedger::new(empty, true).err(), Some(MapError::InvalidConfiguration));
}

#[test]
fn recording_a_frame_observes_marked_cells_and_counts_changes() {
    let mut l = OccupancyLedger::new(shape(), true).ok().unwrap();
    let frame = validate_frame(2, 1, 2, None, true, true).ok().unwrap();
    let samples = vec![ret(1, 30, true), Sample::Rejected];
    let plan = select_rays(&frame, &samples, None, 4);
    let sectors = vec![no_sector(), sector(Some(7), vec![1, 4, 7]), no_sector(), no_sector()];
    let marks = mark_rays(&plan, &sectors, 9);
    let stats = l.record(&marks, &vec![true; 9]);
    assert_eq!(stats.valid_depth_pixels, 1);
    assert_eq!(stats.considered_rays, 1);
    assert_eq!(stats.obstacle_hits, 1);
    assert_eq!(stats.changed_cells, 3);
    assert!(l.is_observed(1) && l.is_observed(4) && l.is_observed(7));
    assert!(!l.is_observed(0));
    let probability: Vec<i8> = vec![10, 20, 30, 40, 50, 60, 70, 80, 90];
    assert_eq!(l.snapshot_cells(&probability), vec![-1, 20, -1, -1, 50, -1, -1, 80, -1]);

    // The same evidence again: cells stay observed; only cells whose value moved count.
    let mut moved = vec![false; 9];
    moved[7] = true;
    moved[0] = true;
    let stats = l.record(&marks, &moved);
    assert_eq!(stats.changed_cells, 1);
    assert!(l.is_observed(4));
}

#[test]
fn frame_without_rays_changes_nothing() {
    let mut l = OccupancyLedger::new(shape(), true).ok().unwrap();
    let frame = validate_frame(1, 1, 1, None, true, true).ok().unwrap();
    let plan = select_rays(&frame, &vec![Sample::Unplaced], None, 4);
    let sectors = vec![no_sector(), no_sector(), no_sector(), no_sector()];
    let marks = mark_rays(&plan, &sectors, 9);
    let stats = l.record(&marks, &vec![true; 9]);
    assert_eq!(stats.valid_depth_pixels, 1);
    assert_eq!(stats.considered_rays, 0);
    assert_eq!(stats.changed_cells, 0);
    assert_eq!(l.snapshot_cells(&vec![0; 9]), vec![-1; 9]);
}

#[test]
fn frame_without_counted_samples_changes_nothing() {
    let mut l = OccupancyLedger::new(shape(), true).ok().unwrap();
    let frame = validate_frame(2, 1, 2, Some(2), true, true).ok().unwrap();
    let samples = vec![ret(0, 10, true), Sample::Rejected];
    let mask: [u8; 2] = [0, 1];
    let plan = select_rays(&frame, &samples, Some(&mask), 4);
    let sectors = vec![sector(Some(4), vec![3, 4]), no_sector(), no_sector(), no_sector()];
    let marks = mark_rays(&plan, &sectors, 9);
    let stats = l.record(&marks, &vec![true; 9]);
    assert_eq!((stats.valid_depth_pixels, stats.considered_rays, stats.changed_cells), (0, 0, 0));
    assert!(!l.is_observed(4));
}

#[test]
fn every_cell_on_a_ray_path_becomes_observed() {
    let mut l = OccupancyLedger::new(shape(), true).ok().unwrap();
    let m = marks_for(vec![ret(0, 10, true)], vec![sector(Some(8), vec![0, 4, 8])]);
    l.record(&m, &vec![false; 9]);
    assert!(l.is_observed(0) && l.is_observed(4) && l.is_observed(8));
    assert!(!l.is_observed(1));
}
