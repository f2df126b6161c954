use lau_symmetry_engine::groups::{SymmetryGroup, WallpaperType};
use lau_symmetry_engine::registry::{
    first_min_index, group_distribution, last_max_index, most_common_group,
};

#[test]
fn distribution_counts_primary_groups() {
    let primaries = vec![
        Some(SymmetryGroup::Reflection),
        None,
        Some(SymmetryGroup::Rotation(2)),
        Some(SymmetryGroup::Reflection),
        Some(SymmetryGroup::Wallpaper(WallpaperType::P4)),
    ];
    let dist = group_distribution(&primaries);
    assert_eq!(
        dist,
        vec![
            (SymmetryGroup::Reflection, 2),
            (SymmetryGroup::Rotation(2), 1),
            (SymmetryGroup::Wallpaper(WallpaperType::P4), 1),
        ]
    );
    assert_eq!(dist.iter().map(|e| e.1).sum::<usize>(), 4);
}

#[test]
fn distribution_of_unanalysed_rooms_is_empty() {
    assert!(group_distribution(&vec![None, None]).is_empty());
    assert!(group_distribution(&vec![]).is_empty());
}

#[test]
fn most_common_group_takes_the_last_of_equal_counts() {
    assert_eq!(most_common_group(&vec![]), None);
    let dist = vec![
        (SymmetryGroup::Reflection, 2),
        (SymmetryGroup::Identity, 3),
        (SymmetryGroup::Rotation(4), 3),
        (SymmetryGroup::Rotation(2), 1),
    ];
    assert_eq!(most_common_group(&dist), Some(SymmetryGroup::Rotation(4)));
}

#[test]
fn extremes_of_scores() {
    let scores: Vec<u64> = [0.25f64, 1.0, 0.0, 1.0, 0.0].iter().map(|s| s.to_bits()).collect();
    assert_eq!(last_max_index(&scores), Some(3));
    assert_eq!(first_min_index(&scores), Some(2));
    assert_eq!(last_max_index(&vec![]), None);
    assert_eq!(first_min_index(&vec![]), None);
}
