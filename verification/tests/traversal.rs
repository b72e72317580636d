use lib::{cell_index, Advance, CellWalk};

fn walk(width: usize, height: usize, start: (isize, isize), end: (isize, isize), step: (isize, isize), moves: &[Advance]) -> (Vec<usize>, bool) {
    let mut w = CellWalk::start(width, height, start.0, start.1, end.0, end.1, step.0, step.1);
    for &a in moves {
        if w.is_finished() {
            break;
        }
        w.advance(a);
    }
    let done = w.is_finished();
    (w.into_cells(), done)
}

#[test]
fn cell_index_is_row_major_and_bounded() {
    assert_eq!(cell_index(0, 0, 3, 3), Some(0));
    assert_eq!(cell_index(1, 1, 3, 3), Some(4));
    assert_eq!(cell_index(2, 1, 4, 3), Some(6));
    assert_eq!(cell_index(-1, 0, 3, 3), None);
    assert_eq!(cell_index(0, -1, 3, 3), None);
    assert_eq!(cell_index(3, 0, 3, 3), None);
    assert_eq!(cell_index(0, 3, 3, 3), None);
    assert_eq!(cell_index(isize::MIN, isize::MAX, 3, 3), None);
}

#[test]
fn walk_grazing_diagonal_records_each_crossed_cell() {
    let moves = [Advance::Column, Advance::Row, Advance::Column, Advance::Row];
    assert_eq!(walk(3, 3, (0, 0), (2, 2), (1, 1), &moves), (vec![0, 1, 4, 5, 8], true));
}

#[test]
fn walk_along_a_row_stops_at_the_end_cell() {
    let moves = [Advance::Column; 10];
    assert_eq!(walk(3, 3, (0, 1), (2, 1), (1, 1), &moves), (vec![3, 4, 5], true));
}

#[test]
fn walk_corner_crossing_moves_diagonally() {
    let moves = [Advance::Both, Advance::Both];
    assert_eq!(walk(3, 3, (2, 0), (0, 2), (-1, 1), &moves), (vec![2, 4, 6], true));
}

#[test]
fn walk_stops_on_leaving_the_grid() {
    let moves = [Advance::Column, Advance::Column];
    assert_eq!(walk(3, 3, (1, 1), (5, 1), (1, 1), &moves), (vec![4, 5], true));
}

#[test]
fn walk_starting_outside_records_nothing() {
    assert_eq!(walk(3, 3, (-1, 0), (2, 0), (1, 1), &[]), (vec![], true));
}

#[test]
fn walk_at_end_cell_stops_at_once() {
    assert_eq!(walk(3, 3, (1, 1), (1, 1), (1, 1), &[]), (vec![4], true));
}

#[test]
fn walk_is_bounded_by_width_plus_height_plus_two() {
    let moves = [Advance::Column; 20];
    let (cells, done) = walk(2, 2, (0, 0), (1, 1), (0, 0), &moves);
    assert!(done);
    assert_eq!(cells, vec![0; 6]);
}

#[test]
fn walk_in_progress_is_not_finished() {
    let w = CellWalk::start(4, 1, 0, 0, 3, 0, 1, 1);
    assert!(!w.is_finished());
    assert_eq!(w.into_cells(), vec![0]);
}

#[test]
fn walk_with_unit_steps_never_repeats_a_cell() {
    let moves = [Advance::Both, Advance::Row, Advance::Column, Advance::Both, Advance::Row];
    let (cells, done) = walk(4, 5, (0, 0), (3, 4), (1, 1), &moves);
    assert!(done);
    assert_eq!(cells, vec![0, 5, 9, 10, 15, 19]);
    assert!(cells.len() <= 4 + 5 - 1);
}
