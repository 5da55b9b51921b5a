use worst_physics_engine::grid::{GridCoords, OccupancySet};
use worst_physics_engine::merge::{merge, row_plates, MergeError, MergedRect, Plate};

fn occupancy(cells: &[(i32, i32)]) -> OccupancySet {
    let mut o = OccupancySet::new();
    for &(x, y) in cells {
        o.insert(GridCoords { x, y });
    }
    o
}

fn rect(left: i32, right: i32, bottom: i32, top: i32) -> MergedRect {
    MergedRect { left, right, bottom, top }
}

fn covered_cells(rects: &[MergedRect]) -> Vec<(i32, i32)> {
    let mut cells = Vec::new();
    for r in rects {
        for y in r.bottom..=r.top {
            for x in r.left..=r.right {
                cells.push((x, y));
            }
        }
    }
    cells.sort();
    cells
}

#[test]
fn single_cell_gives_one_unit_rect() {
    let o = occupancy(&[(5, 5)]);
    assert_eq!(merge(&o, 10, 10), Ok(vec![rect(5, 5, 5, 5)]));
}

#[test]
fn full_row_merges_into_one_rect() {
    let o = occupancy(&[(0, 0), (1, 0), (2, 0)]);
    assert_eq!(merge(&o, 3, 1), Ok(vec![rect(0, 2, 0, 0)]));
}

#[test]
fn equal_runs_stack_vertically() {
    let o = occupancy(&[(0, 0), (1, 0), (0, 1), (1, 1)]);
    assert_eq!(merge(&o, 2, 2), Ok(vec![rect(0, 1, 0, 1)]));
}

#[test]
fn runs_of_different_width_do_not_stack() {
    let o = occupancy(&[(0, 0), (1, 0), (0, 1), (1, 1), (2, 1)]);
    let rects = merge(&o, 3, 2).unwrap();
    assert_eq!(rects, vec![rect(0, 1, 0, 0), rect(0, 2, 1, 1)]);
}

#[test]
fn empty_occupancy_gives_no_rects() {
    let o = OccupancySet::new();
    assert_eq!(merge(&o, 4, 4), Ok(vec![]));
    assert_eq!(merge(&o, 0, 0), Ok(vec![]));
}

#[test]
fn checkerboard_never_stacks() {
    let mut cells = Vec::new();
    for y in 0..4 {
        for x in 0..4 {
            if (x + y) % 2 == 0 {
                cells.push((x, y));
            }
        }
    }
    let o = occupancy(&cells);
    let rects = merge(&o, 4, 4).unwrap();
    assert_eq!(rects.len(), 8);
    for r in &rects {
        assert_eq!(r.left, r.right);
        assert_eq!(r.bottom, r.top);
    }
}

#[test]
fn cells_outside_the_region_are_ignored() {
    let o = occupancy(&[(-1, 0), (0, 0), (1, 0), (2, 0), (0, 3), (1, -1)]);
    assert_eq!(merge(&o, 2, 2), Ok(vec![rect(0, 1, 0, 0)]));
}

#[test]
fn runs_touching_the_edges_are_closed() {
    let o = occupancy(&[(2, 0), (2, 1), (2, 2)]);
    assert_eq!(merge(&o, 3, 3), Ok(vec![rect(2, 2, 0, 2)]));
}

#[test]
fn rects_come_out_by_top_row_then_left_column() {
    // two columns, the left one ends lower
    let o = occupancy(&[(0, 0), (2, 0), (0, 1), (2, 1), (2, 2), (0, 3)]);
    let rects = merge(&o, 3, 4).unwrap();
    assert_eq!(
        rects,
        vec![rect(0, 0, 0, 1), rect(2, 2, 0, 2), rect(0, 0, 3, 3)]
    );
}

#[test]
fn invalid_regions_are_refused() {
    let o = occupancy(&[(0, 0)]);
    assert_eq!(merge(&o, -1, 3), Err(MergeError::InvalidRegion));
    assert_eq!(merge(&o, 3, -1), Err(MergeError::InvalidRegion));
    assert_eq!(merge(&o, i32::MAX, 3), Err(MergeError::InvalidRegion));
    assert_eq!(merge(&o, 3, i32::MAX), Err(MergeError::InvalidRegion));
}

#[test]
fn merge_covers_each_cell_once_and_repeats_itself() {
    let mut cells = Vec::new();
    for y in 0..6 {
        for x in 0..7 {
            if (x * 7 + y * 3) % 5 != 0 && !(x == 3 && y > 1) {
                cells.push((x, y));
            }
        }
    }
    let o = occupancy(&cells);
    let first = merge(&o, 7, 6).unwrap();
    let second = merge(&o, 7, 6).unwrap();
    assert_eq!(first, second);
    let mut expected = cells.clone();
    expected.sort();
    assert_eq!(covered_cells(&first), expected);
}

#[test]
fn row_scan_finds_maximal_runs() {
    let o = occupancy(&[(0, 1), (1, 1), (3, 1), (4, 1), (5, 1), (5, 0)]);
    assert_eq!(
        row_plates(&o, 6, 2, 1),
        vec![Plate { left: 0, right: 1 }, Plate { left: 3, right: 5 }]
    );
    assert_eq!(row_plates(&o, 6, 2, 0), vec![Plate { left: 5, right: 5 }]);
}

#[test]
fn rows_outside_the_region_have_no_plates() {
    let o = occupancy(&[(0, 0), (0, 2), (0, -1)]);
    assert_eq!(row_plates(&o, 2, 2, 2), vec![]);
    assert_eq!(row_plates(&o, 2, 2, -1), vec![]);
    assert_eq!(row_plates(&o, -3, 2, 0), vec![]);
}
