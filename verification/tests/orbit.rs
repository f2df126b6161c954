use lau_symmetry_engine::closure::close_under_images;
use lau_symmetry_engine::orbit::orbit_plan;

fn sorted(mut v: Vec<usize>) -> Vec<usize> {
    v.sort();
    v
}

#[test]
fn reflection_pairs_form_one_orbit() {
    // Cell 0 = (1,1) and cell 1 = (1,-1) mirror each other across the x-axis.
    let plan = orbit_plan(&vec![vec![1], vec![0]]);
    assert_eq!(plan, vec![vec![0, 1]]);
}

#[test]
fn fixed_points_form_singleton_orbits() {
    let plan = orbit_plan(&vec![vec![0], vec![1]]);
    assert_eq!(plan, vec![vec![0], vec![1]]);
}

#[test]
fn quarter_turn_orbit_holds_all_four_cells() {
    // (1,0) -> (0,1) -> (-1,0) -> (0,-1) -> (1,0), numbered 0..4.
    let plan = orbit_plan(&vec![vec![1], vec![2], vec![3], vec![0]]);
    assert_eq!(plan.len(), 1);
    assert_eq!(sorted(plan[0].clone()), vec![0, 1, 2, 3]);
}

#[test]
fn cells_joined_through_a_shared_image_share_an_orbit() {
    // Cells 0 and 1 both map to cell 2; cell 3 is on its own.
    let plan = orbit_plan(&vec![vec![2], vec![2], vec![2], vec![3]]);
    assert_eq!(plan.len(), 2);
    assert_eq!(sorted(plan[0].clone()), vec![0, 1, 2]);
    assert_eq!(plan[1], vec![3]);
}

#[test]
fn empty_field_has_no_orbits() {
    assert!(orbit_plan(&vec![]).is_empty());
}

#[test]
fn every_cell_lies_in_exactly_one_closed_orbit() {
    let cells: Vec<(i32, i32)> = (-3..4).flat_map(|x| (-3..4).map(move |y| (x, y))).collect();
    let table = match close_under_images(&cells, |(x, y): (i32, i32)| vec![(-y, x), (x, -y)]) {
        Ok(t) => t,
        Err(_) => panic!("closure of a point group is bounded"),
    };
    let plan = orbit_plan(&table.successors);
    for i in 0..table.points.len() {
        assert_eq!(plan.iter().filter(|o| o.contains(&i)).count(), 1);
    }
    for o in &plan {
        for &i in o {
            for &j in &table.successors[i] {
                assert!(o.contains(&j));
            }
        }
    }
}
