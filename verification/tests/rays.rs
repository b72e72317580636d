use lib::{select_rays, validate_frame, RayEndpoints, Sample};

fn ret(raw_bin: usize, key: u32, hit: bool) -> Sample {
    Sample::Return { raw_bin, key, hit }
}

#[test]
fn nearest_hit_is_the_obstacle_and_ends_free_space() {
    let frame = validate_frame(3, 2, 6, None, true, true).ok().unwrap();
    let samples = vec![ret(0, 50, false), ret(0, 30, true), ret(0, 20, true), ret(0, 90, false), Sample::Rejected, Sample::Unplaced];
    let plan = select_rays(&frame, &samples, None, 4);
    assert_eq!(plan.valid_samples(), 5);
    assert_eq!(plan.rays().len(), 4);
    assert_eq!(plan.rays()[0], Some(RayEndpoints { obstacle: Some(2), free_end: 2 }));
    assert_eq!(plan.rays()[1], None);
}

#[test]
fn without_obstacle_free_space_reaches_farthest_return() {
    let frame = validate_frame(2, 2, 4, None, true, true).ok().unwrap();
    let samples = vec![ret(1, 70, false), ret(1, 10, false), ret(1, 70, false), ret(2, 5, true)];
    let plan = select_rays(&frame, &samples, None, 3);
    assert_eq!(plan.rays()[0], None);
    assert_eq!(plan.rays()[1], Some(RayEndpoints { obstacle: None, free_end: 2 }));
    assert_eq!(plan.rays()[2], Some(RayEndpoints { obstacle: Some(3), free_end: 3 }));
}

#[test]
fn equal_distance_hits_keep_pixel_order() {
    let frame = validate_frame(3, 1, 3, None, true, true).ok().unwrap();
    let samples = vec![ret(0, 40, true), ret(0, 40, true), ret(0, 40, false)];
    let plan = select_rays(&frame, &samples, None, 1);
    assert_eq!(plan.rays()[0], Some(RayEndpoints { obstacle: Some(0), free_end: 0 }));
}

#[test]
fn raw_sectors_beyond_the_last_fall_into_it() {
    let frame = validate_frame(2, 1, 2, None, true, true).ok().unwrap();
    let samples = vec![ret(7, 10, false), ret(usize::MAX, 20, false)];
    let plan = select_rays(&frame, &samples, None, 3);
    assert_eq!(plan.rays()[2], Some(RayEndpoints { obstacle: None, free_end: 1 }));
    assert_eq!(plan.rays()[0], None);
}

#[test]
fn masked_samples_do_not_count() {
    let frame = validate_frame(2, 2, 4, Some(4), true, true).ok().unwrap();
    let samples = vec![ret(0, 10, true), ret(0, 20, false), Sample::Unplaced, Sample::Rejected];
    let mask: [u8; 4] = [0, 1, 0, 1];
    let plan = select_rays(&frame, &samples, Some(&mask), 2);
    assert_eq!(plan.valid_samples(), 1);
    assert_eq!(plan.rays()[0], Some(RayEndpoints { obstacle: None, free_end: 1 }));
}

#[test]
fn nothing_valid_gives_no_rays() {
    let frame = validate_frame(1, 1, 1, None, true, true).ok().unwrap();
    let plan = select_rays(&frame, &vec![Sample::Rejected], None, 2);
    assert_eq!(plan.valid_samples(), 0);
    assert_eq!(plan.rays(), &vec![None, None]);
}

#[test]
fn return_behind_an_obstacle_changes_no_ray() {
    let frame = validate_frame(3, 1, 3, None, true, true).ok().unwrap();
    let without = vec![ret(2, 10, false), ret(2, 20, true), Sample::Rejected];
    let with = vec![ret(2, 10, false), ret(2, 20, true), ret(2, 35, true)];
    let a = select_rays(&frame, &without, None, 3);
    let b = select_rays(&frame, &with, None, 3);
    assert_eq!(a.rays(), b.rays());
    assert_eq!(b.rays()[2], Some(RayEndpoints { obstacle: Some(1), free_end: 1 }));
    assert_eq!(b.valid_samples(), a.valid_samples() + 1);
}
