use lau_symmetry_engine::closure::close_under_images;
use lau_symmetry_engine::orbit::orbit_plan;

fn quarter_turn((x, y): (i32, i32)) -> Vec<(i32, i32)> {
    vec![(-y, x)]
}

#[test]
fn quarter_turn_reaches_the_whole_orbit() {
    let table = close_under_images(&vec![(1, 0)], quarter_turn).ok().unwrap();
    assert_eq!(table.points, vec![(1, 0), (0, 1), (-1, 0), (0, -1)]);
    assert_eq!(table.successors, vec![vec![1], vec![2], vec![3], vec![0]]);
    assert_eq!(table.images, vec![vec![(0, 1)], vec![(-1, 0)], vec![(0, -1)], vec![(1, 0)]]);
    let plan = orbit_plan(&table.successors);
    assert_eq!(plan.len(), 1);
    assert_eq!(plan[0].len(), 4);
}

#[test]
fn repeated_starting_cells_are_reached_once() {
    let table = close_under_images(&vec![(2, 0), (2, 0), (0, 0)], |(x, y): (i32, i32)| vec![(-x, y)])
        .ok()
        .unwrap();
    assert_eq!(table.points, vec![(2, 0), (0, 0), (-2, 0)]);
    assert_eq!(table.successors, vec![vec![2], vec![1], vec![0]]);
}

#[test]
fn no_starting_cells_reach_nothing() {
    let table = close_under_images(&vec![], quarter_turn).ok().unwrap();
    assert!(table.points.is_empty());
}
