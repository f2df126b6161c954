use lau_symmetry_engine::boxcount::{box_counts, BOX_LEVELS};
use lau_symmetry_engine::cells::pack_cell;

#[test]
fn ten_by_ten_grid_box_counts() {
    let mut cells = Vec::new();
    for i in 0..10i32 {
        for j in 0..10i32 {
            cells.push((i, j));
        }
    }
    assert_eq!(box_counts(&cells), vec![100, 25, 9, 4, 1]);
}

#[test]
fn empty_cells_touch_no_boxes() {
    assert_eq!(box_counts(&vec![]), vec![0; BOX_LEVELS]);
}

#[test]
fn division_rounds_toward_zero() {
    // -1 / 2 and 1 / 2 are both 0, so the two cells share a box of side 2.
    assert_eq!(box_counts(&vec![(-1, 0), (1, 0)]), vec![2, 1, 1, 1, 1]);
    // -3 / 2 is -1, 3 / 2 is 1: three boxes of side 2.
    assert_eq!(box_counts(&vec![(-3, 0), (0, 0), (3, 0)]), vec![3, 3, 1, 1, 1]);
}

#[test]
fn extreme_coordinates_are_counted() {
    let cells = vec![(i32::MIN, i32::MAX), (i32::MAX, i32::MIN), (0, 0)];
    assert_eq!(box_counts(&cells), vec![3, 3, 3, 3, 3]);
}

#[test]
fn packed_cells_are_distinct() {
    assert_ne!(pack_cell(1, 2), pack_cell(2, 1));
    assert_ne!(pack_cell(-1, 0), pack_cell(0, -1));
    assert_eq!(pack_cell(i32::MIN, i32::MIN), 0);
    assert_eq!(pack_cell(i32::MAX, i32::MAX), u64::MAX);
}
