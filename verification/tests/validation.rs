use lib::{validate_config, validate_frame, GridShape, MapError, UpdateStats, MAX_ANGULAR_BINS, MAX_CELLS};

fn default_shape() -> GridShape {
    GridShape { width_cells: 100, height_cells: 100, angular_bins: 720 }
}

#[test]
fn error_names_match_variants() {
    assert_eq!(MapError::InvalidConfiguration.as_str(), "InvalidConfiguration");
    assert_eq!(MapError::InvalidIntrinsics.as_str(), "InvalidIntrinsics");
    assert_eq!(MapError::DepthSizeMismatch.as_str(), "DepthSizeMismatch");
    assert_eq!(MapError::MaskSizeMismatch.as_str(), "MaskSizeMismatch");
    assert_eq!(MapError::InvalidPose.as_str(), "InvalidPose");
}

#[test]
fn default_stats_are_zero() {
    let s = UpdateStats::default();
    assert_eq!(s, UpdateStats { valid_depth_pixels: 0, considered_rays: 0, obstacle_hits: 0, changed_cells: 0 });
}

#[test]
fn default_shape_is_accepted() {
    assert_eq!(validate_config(default_shape(), true), Ok(()));
    assert!(default_shape().has_valid_counts());
    assert_eq!(default_shape().cells(), 10_000);
}

#[test]
fn invalid_real_values_reject_configuration() {
    assert_eq!(validate_config(default_shape(), false), Err(MapError::InvalidConfiguration));
}

#[test]
fn huge_grid_is_rejected_without_overflow() {
    let shape = GridShape { width_cells: usize::MAX, height_cells: 1, ..default_shape() };
    assert_eq!(validate_config(shape, true), Err(MapError::InvalidConfiguration));
    let shape = GridShape { width_cells: usize::MAX, height_cells: 2, ..default_shape() };
    assert_eq!(validate_config(shape, true), Err(MapError::InvalidConfiguration));
}

#[test]
fn cell_limit_is_inclusive() {
    let at_limit = GridShape { width_cells: MAX_CELLS, height_cells: 1, ..default_shape() };
    assert_eq!(validate_config(at_limit, true), Ok(()));
    let square = GridShape { width_cells: 1000, height_cells: 10_000, ..default_shape() };
    assert_eq!(validate_config(square, true), Ok(()));
    let over = GridShape { width_cells: MAX_CELLS + 1, height_cells: 1, ..default_shape() };
    assert_eq!(validate_config(over, true), Err(MapError::InvalidConfiguration));
    let over = GridShape { width_cells: 5_000_001, height_cells: 2, ..default_shape() };
    assert_eq!(validate_config(over, true), Err(MapError::InvalidConfiguration));
}

#[test]
fn empty_grid_is_rejected() {
    let shape = GridShape { width_cells: 0, ..default_shape() };
    assert_eq!(validate_config(shape, true), Err(MapError::InvalidConfiguration));
    let shape = GridShape { height_cells: 0, ..default_shape() };
    assert_eq!(validate_config(shape, true), Err(MapError::InvalidConfiguration));
}

#[test]
fn sector_count_bounds() {
    let shape = GridShape { angular_bins: 0, ..default_shape() };
    assert_eq!(validate_config(shape, true), Err(MapError::InvalidConfiguration));
    let shape = GridShape { angular_bins: MAX_ANGULAR_BINS, ..default_shape() };
    assert_eq!(validate_config(shape, true), Ok(()));
    let shape = GridShape { angular_bins: MAX_ANGULAR_BINS + 1, ..default_shape() };
    assert_eq!(validate_config(shape, true), Err(MapError::InvalidConfiguration));
}

#[test]
fn frame_shape_errors() {
    assert_eq!(validate_frame(2, 2, 1, None, true, true).err(), Some(MapError::DepthSizeMismatch));
    assert_eq!(validate_frame(0, 2, 0, None, true, true).err(), Some(MapError::DepthSizeMismatch));
    assert_eq!(validate_frame(2, 0, 0, None, true, true).err(), Some(MapError::DepthSizeMismatch));
    assert_eq!(validate_frame(usize::MAX, 2, 0, None, true, true).err(), Some(MapError::DepthSizeMismatch));
    assert_eq!(validate_frame(2, 2, 4, Some(1), true, true).err(), Some(MapError::MaskSizeMismatch));
    assert_eq!(validate_frame(2, 2, 4, Some(4), false, true).err(), Some(MapError::InvalidIntrinsics));
    assert_eq!(validate_frame(2, 2, 4, None, true, false).err(), Some(MapError::InvalidPose));
}

#[test]
fn frame_errors_come_in_order() {
    assert_eq!(validate_frame(2, 2, 3, Some(1), false, false).err(), Some(MapError::DepthSizeMismatch));
    assert_eq!(validate_frame(2, 2, 4, Some(1), false, false).err(), Some(MapError::MaskSizeMismatch));
    assert_eq!(validate_frame(2, 2, 4, Some(4), false, false).err(), Some(MapError::InvalidIntrinsics));
}

#[test]
fn valid_frame_keeps_its_shape_and_maps_pixels_row_major() {
    let f = validate_frame(3, 2, 6, Some(6), true, true).ok().unwrap();
    assert_eq!((f.width(), f.height(), f.pixels()), (3, 2, 6));
    assert_eq!(f.pixel(0), (0, 0));
    assert_eq!(f.pixel(2), (2, 0));
    assert_eq!(f.pixel(4), (1, 1));
    assert_eq!(f.pixel(5), (2, 1));
}
