use lau_symmetry_engine::closure::close_under_images;
use lau_symmetry_engine::groups::{
    orbits_unbounded, symmetry_ops_for_group, wallpaper_ops, ExactOperation, PiFraction, SymmetryGroup,
    WallpaperType,
};

fn rot(num: u32, den: u32) -> ExactOperation {
    ExactOperation::Rotate { angle: PiFraction { num, den } }
}

fn refl(num: u32, den: u32) -> ExactOperation {
    ExactOperation::Reflect { axis: PiFraction { num, den } }
}

fn glide(num: u32, den: u32) -> ExactOperation {
    ExactOperation::GlideReflect { axis: PiFraction { num, den }, distance: 1 }
}

#[test]
fn test_all_wallpaper_types() {
    let all_types = [
        WallpaperType::P1, WallpaperType::P2, WallpaperType::PM,
        WallpaperType::PG, WallpaperType::CM, WallpaperType::PMM,
        WallpaperType::PMG, WallpaperType::PGG, WallpaperType::CMM,
        WallpaperType::P4, WallpaperType::P4M, WallpaperType::P4G,
        WallpaperType::P3, WallpaperType::P3M1, WallpaperType::P31M,
        WallpaperType::P6, WallpaperType::P6M,
    ];
    for wt in all_types {
        let ops = wallpaper_ops(&wt);
        // Each wallpaper type should have valid operations (P1 has none)
        let _ = ops; // just ensure no panic
    }
}

#[test]
fn wallpaper_table_matches_the_documented_operations() {
    assert!(wallpaper_ops(&WallpaperType::P1).is_empty());
    assert_eq!(wallpaper_ops(&WallpaperType::P2), vec![rot(1, 1)]);
    assert_eq!(wallpaper_ops(&WallpaperType::PM), vec![refl(0, 1)]);
    assert_eq!(wallpaper_ops(&WallpaperType::PG), vec![glide(0, 1)]);
    assert_eq!(wallpaper_ops(&WallpaperType::CM), vec![refl(0, 1), glide(1, 4)]);
    assert_eq!(wallpaper_ops(&WallpaperType::PMM), vec![refl(0, 1), refl(1, 2), rot(1, 1)]);
    assert_eq!(wallpaper_ops(&WallpaperType::PMG), vec![refl(0, 1), glide(1, 2)]);
    assert_eq!(wallpaper_ops(&WallpaperType::PGG), vec![glide(0, 1), glide(1, 2)]);
    assert_eq!(wallpaper_ops(&WallpaperType::CMM), vec![refl(0, 1), refl(1, 2), rot(1, 1)]);
    assert_eq!(wallpaper_ops(&WallpaperType::P4), vec![rot(1, 2)]);
    assert_eq!(wallpaper_ops(&WallpaperType::P4M), vec![rot(1, 2), refl(0, 1)]);
    assert_eq!(wallpaper_ops(&WallpaperType::P4G), vec![rot(1, 2), refl(1, 4)]);
    assert_eq!(wallpaper_ops(&WallpaperType::P3), vec![rot(2, 3)]);
    assert_eq!(wallpaper_ops(&WallpaperType::P3M1), vec![rot(2, 3), refl(0, 1)]);
    assert_eq!(wallpaper_ops(&WallpaperType::P31M), vec![rot(2, 3), refl(1, 6)]);
    assert_eq!(wallpaper_ops(&WallpaperType::P6), vec![rot(1, 3)]);
    assert_eq!(wallpaper_ops(&WallpaperType::P6M), vec![rot(1, 3), refl(0, 1)]);
}

#[test]
fn simple_groups_have_one_operation_each() {
    assert!(symmetry_ops_for_group(&SymmetryGroup::Identity).is_empty());
    assert_eq!(symmetry_ops_for_group(&SymmetryGroup::Reflection), vec![refl(0, 1)]);
    assert_eq!(symmetry_ops_for_group(&SymmetryGroup::Rotation(4)), vec![rot(2, 4)]);
    assert_eq!(symmetry_ops_for_group(&SymmetryGroup::Rotation(5)), vec![rot(2, 5)]);
    assert_eq!(
        symmetry_ops_for_group(&SymmetryGroup::Translation),
        vec![ExactOperation::Translate { dx: 1, dy: 0 }]
    );
    assert_eq!(symmetry_ops_for_group(&SymmetryGroup::GlideReflection), vec![glide(0, 1)]);
}

#[test]
fn wallpaper_group_uses_the_wallpaper_table() {
    for wt in [WallpaperType::P1, WallpaperType::CM, WallpaperType::P31M, WallpaperType::P6M] {
        assert_eq!(symmetry_ops_for_group(&SymmetryGroup::Wallpaper(wt)), wallpaper_ops(&wt));
    }
}

#[test]
fn wallpaper_rotations_have_crystallographic_orders() {
    let all_types = [
        WallpaperType::P1, WallpaperType::P2, WallpaperType::PM,
        WallpaperType::PG, WallpaperType::CM, WallpaperType::PMM,
        WallpaperType::PMG, WallpaperType::PGG, WallpaperType::CMM,
        WallpaperType::P4, WallpaperType::P4M, WallpaperType::P4G,
        WallpaperType::P3, WallpaperType::P3M1, WallpaperType::P31M,
        WallpaperType::P6, WallpaperType::P6M,
    ];
    for wt in all_types {
        for op in wallpaper_ops(&wt) {
            if let ExactOperation::Rotate { angle } = op {
                let ok = [2u32, 3, 4, 6].iter().any(|n| angle.num * n == 2 * angle.den);
                assert!(ok, "{:?}", wt);
            }
        }
    }
}

#[test]
fn groups_compare_by_value() {
    assert_eq!(SymmetryGroup::Rotation(3), SymmetryGroup::Rotation(3));
    assert_ne!(SymmetryGroup::Rotation(3), SymmetryGroup::Rotation(4));
    assert_ne!(
        SymmetryGroup::Wallpaper(WallpaperType::P6M),
        SymmetryGroup::Wallpaper(WallpaperType::P6)
    );
    let mut set = std::collections::HashSet::new();
    set.insert(SymmetryGroup::Rotation(2));
    set.insert(SymmetryGroup::Rotation(2));
    set.insert(SymmetryGroup::Reflection);
    assert_eq!(set.len(), 2);
}

#[test]
fn shifting_groups_have_unbounded_orbits_when_the_step_moves_cells() {
    assert!(orbits_unbounded(&SymmetryGroup::Translation, &vec![true]));
    assert!(!orbits_unbounded(&SymmetryGroup::Translation, &vec![false]));
    assert!(orbits_unbounded(&SymmetryGroup::GlideReflection, &vec![true]));
    // CM: a mirror, then a glide; only the glide's step counts.
    let cm = SymmetryGroup::Wallpaper(WallpaperType::CM);
    assert!(!orbits_unbounded(&cm, &vec![true, false]));
    assert!(orbits_unbounded(&cm, &vec![false, true]));
    // Turns and mirrors never shift.
    assert!(!orbits_unbounded(&SymmetryGroup::Rotation(4), &vec![true]));
    assert!(!orbits_unbounded(&SymmetryGroup::Reflection, &vec![true]));
    assert!(!orbits_unbounded(&SymmetryGroup::Identity, &vec![]));
    let pmm = SymmetryGroup::Wallpaper(WallpaperType::PMM);
    assert!(!orbits_unbounded(&pmm, &vec![true, true, true]));
}

#[test]
fn large_bounded_turn_orbit_is_closed_not_cut_short() {
    // A quarter turn about the origin on a far cell: exactly four cells.
    let table = close_under_images(&vec![(100000, 7)], |(x, y): (i32, i32)| vec![(-y, x)])
        .ok()
        .unwrap();
    assert_eq!(table.points, vec![(100000, 7), (-7, 100000), (-100000, -7), (7, -100000)]);
}
