use lau_symmetry_engine::detect::{
    detect_from_errors, detection_candidates, detection_order, DETECTION_THRESHOLD,
    MEASURED_CANDIDATES,
};
use lau_symmetry_engine::groups::SymmetryGroup;

fn keys(errors: &[f64]) -> Vec<u64> {
    errors.iter().map(|e| e.to_bits()).collect()
}

#[test]
fn threshold_is_one_half() {
    assert_eq!(DETECTION_THRESHOLD, 0.5f64.to_bits());
}

#[test]
fn candidates_are_tested_in_documented_order() {
    assert_eq!(
        detection_candidates(),
        vec![
            SymmetryGroup::Rotation(2),
            SymmetryGroup::Rotation(3),
            SymmetryGroup::Rotation(4),
            SymmetryGroup::Rotation(6),
            SymmetryGroup::Reflection,
            SymmetryGroup::GlideReflection,
            SymmetryGroup::Identity,
        ]
    );
}

#[test]
fn empty_field_detects_every_candidate_including_identity() {
    let groups = detect_from_errors(&keys(&[0.0; MEASURED_CANDIDATES]));
    assert!(groups.contains(&SymmetryGroup::Identity));
    assert_eq!(groups, detection_candidates());
}

#[test]
fn detection_sorts_by_error_and_drops_large_errors() {
    // Rotation(2) 0.3, Rotation(3) 2.0, Rotation(4) 0.1, Rotation(6) 0.5,
    // Reflection 0.0, Glide 0.3; the identity's error is zero
    let groups = detect_from_errors(&keys(&[0.3, 2.0, 0.1, 0.5, 0.0, 0.3]));
    assert_eq!(
        groups,
        vec![
            SymmetryGroup::Reflection,
            SymmetryGroup::Identity,
            SymmetryGroup::Rotation(4),
            SymmetryGroup::Rotation(2),
            SymmetryGroup::GlideReflection,
        ]
    );
}

#[test]
fn detection_excludes_nan_errors() {
    let groups = detect_from_errors(&keys(&[f64::NAN, 0.4999, 1.0, f64::INFINITY, 0.7, 0.6]));
    assert_eq!(groups, vec![SymmetryGroup::Identity, SymmetryGroup::Rotation(3)]);
}

#[test]
fn detection_order_is_stable_on_ties() {
    let order = detection_order(&keys(&[0.25, 0.25, 0.1, 0.25]));
    assert_eq!(order, vec![2, 0, 1, 3]);
    assert!(detection_order(&keys(&[])).is_empty());
    assert!(detection_order(&keys(&[0.5, 3.0])).is_empty());
}

#[test]
fn identity_is_detected_first_when_every_error_is_large() {
    let groups = detect_from_errors(&keys(&[1.0, 2.0, 3.0, 4.0, 5.0, 6.0]));
    assert_eq!(groups, vec![SymmetryGroup::Identity]);
}

#[test]
fn readme_reflection_field_detection() {
    // Field (1,0)=5, (-1,0)=5, (0,1)=3, (0,-1)=3: the half turn and the mirror
    // keep it; the others do not.
    let groups = detect_from_errors(&keys(&[0.0, 4.0, 4.0, 4.0, 0.0, 4.0]));
    assert_eq!(
        groups,
        vec![SymmetryGroup::Rotation(2), SymmetryGroup::Reflection, SymmetryGroup::Identity]
    );
}
