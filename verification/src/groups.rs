//! The seventeen wallpaper groups, the symmetry groups the engine tests,
//! and the exact table of symmetry operations that each group stands for.

use vstd::prelude::*;

verus! {

/// The seventeen wallpaper groups of the plane.
#[derive(Debug, Clone, Copy, PartialEq, Eq, Hash, Structural)]
pub enum WallpaperType {
    P1,
    P2,
    PM,
    PG,
    CM,
    PMM,
    PMG,
    PGG,
    CMM,
    P4,
    P4M,
    P4G,
    P3,
    P3M1,
    P31M,
    P6,
    P6M,
}

/// A symmetry group that a field can be tested against or made to obey.
#[derive(Debug, Clone, Copy, PartialEq, Eq, Hash, Structural)]
pub enum SymmetryGroup {
    Identity,
    Reflection,
    Rotation(u32),
    Translation,
    GlideReflection,
    Wallpaper(WallpaperType),
}

/// An angle written exactly as `num * pi / den` radians.
#[derive(Debug, Clone, Copy, PartialEq, Eq, Hash, Structural)]
pub struct PiFraction {
    pub num: u32,
    pub den: u32,
}

/// A symmetry operation of the plane, with every parameter held exactly.
///
/// `Rotate` turns about the origin; `Reflect` mirrors across the line through
/// the origin at angle `axis`; `Translate` shifts by world units;
/// `GlideReflect` mirrors across `axis` and then shifts by `distance` world
/// units along that axis.
#[derive(Debug, Clone, Copy, PartialEq, Eq, Hash, Structural)]
pub enum ExactOperation {
    Rotate { angle: PiFraction },
    Reflect { axis: PiFraction },
    Translate { dx: i32, dy: i32 },
    GlideReflect { axis: PiFraction, distance: u32 },
}

pub open spec fn pi_frac(num: u32, den: u32) -> PiFraction {
    PiFraction { num, den }
}

pub open spec fn rotate(num: u32, den: u32) -> ExactOperation {
    ExactOperation::Rotate { angle: pi_frac(num, den) }
}

pub open spec fn reflect(num: u32, den: u32) -> ExactOperation {
    ExactOperation::Reflect { axis: pi_frac(num, den) }
}

pub open spec fn glide(num: u32, den: u32) -> ExactOperation {
    ExactOperation::GlideReflect { axis: pi_frac(num, den), distance: 1 }
}

/// The canonical operations of each wallpaper group.
pub open spec fn spec_wallpaper_ops(wt: WallpaperType) -> Seq<ExactOperation> {
    match wt {
        WallpaperType::P1 => seq![],
        WallpaperType::P2 => seq![rotate(1, 1)],
        WallpaperType::PM => seq![reflect(0, 1)],
        WallpaperType::PG => seq![glide(0, 1)],
        WallpaperType::CM => seq![reflect(0, 1), glide(1, 4)],
        WallpaperType::PMM => seq![reflect(0, 1), reflect(1, 2), rotate(1, 1)],
        WallpaperType::PMG => seq![reflect(0, 1), glide(1, 2)],
        WallpaperType::PGG => seq![glide(0, 1), glide(1, 2)],
        WallpaperType::CMM => seq![reflect(0, 1), reflect(1, 2), rotate(1, 1)],
        WallpaperType::P4 => seq![rotate(1, 2)],
        WallpaperType::P4M => seq![rotate(1, 2), reflect(0, 1)],
        WallpaperType::P4G => seq![rotate(1, 2), reflect(1, 4)],
        WallpaperType::P3 => seq![rotate(2, 3)],
        WallpaperType::P3M1 => seq![rotate(2, 3), reflect(0, 1)],
        WallpaperType::P31M => seq![rotate(2, 3), reflect(1, 6)],
        WallpaperType::P6 => seq![rotate(1, 3)],
        WallpaperType::P6M => seq![rotate(1, 3), reflect(0, 1)],
    }
}

/// The operations that a symmetry group is tested and enforced with.
pub open spec fn spec_symmetry_ops(group: SymmetryGroup) -> Seq<ExactOperation> {
    match group {
        SymmetryGroup::Identity => seq![],
        SymmetryGroup::Reflection => seq![reflect(0, 1)],
        SymmetryGroup::Rotation(n) => seq![rotate(2, n)],
        SymmetryGroup::Translation => seq![ExactOperation::Translate { dx: 1, dy: 0 }],
        SymmetryGroup::GlideReflection => seq![glide(0, 1)],
        SymmetryGroup::Wallpaper(wt) => spec_wallpaper_ops(wt),
    }
}

fn make_rotate(num: u32, den: u32) -> (op: ExactOperation)
    ensures
        op == rotate(num, den),
{
    ExactOperation::Rotate { angle: PiFraction { num, den } }
}

fn make_reflect(num: u32, den: u32) -> (op: ExactOperation)
    ensures
        op == reflect(num, den),
{
    ExactOperation::Reflect { axis: PiFraction { num, den } }
}

fn make_glide(num: u32, den: u32) -> (op: ExactOperation)
    ensures
        op == glide(num, den),
{
    ExactOperation::GlideReflect { axis: PiFraction { num, den }, distance: 1 }
}

/// The canonical symmetry operations of a wallpaper group
/// (`P1` has none: it is made of translations only).
pub fn wallpaper_ops(wt: &WallpaperType) -> (ops: Vec<ExactOperation>)
    ensures
        ops@ == spec_wallpaper_ops(*wt),
{
    let ops = match wt {
        WallpaperType::P1 => vec![],
        WallpaperType::P2 => vec![make_rotate(1, 1)],
        WallpaperType::PM => vec![make_reflect(0, 1)],
        WallpaperType::PG => vec![make_glide(0, 1)],
        WallpaperType::CM => vec![make_reflect(0, 1), make_glide(1, 4)],
        WallpaperType::PMM => vec![make_reflect(0, 1), make_reflect(1, 2), make_rotate(1, 1)],
        WallpaperType::PMG => vec![make_reflect(0, 1), make_glide(1, 2)],
        WallpaperType::PGG => vec![make_glide(0, 1), make_glide(1, 2)],
        WallpaperType::CMM => vec![make_reflect(0, 1), make_reflect(1, 2), make_rotate(1, 1)],
        WallpaperType::P4 => vec![make_rotate(1, 2)],
        WallpaperType::P4M => vec![make_rotate(1, 2), make_reflect(0, 1)],
        WallpaperType::P4G => vec![make_rotate(1, 2), make_reflect(1, 4)],
        WallpaperType::P3 => vec![make_rotate(2, 3)],
        WallpaperType::P3M1 => vec![make_rotate(2, 3), make_reflect(0, 1)],
        WallpaperType::P31M => vec![make_rotate(2, 3), make_reflect(1, 6)],
        WallpaperType::P6 => vec![make_rotate(1, 3)],
        WallpaperType::P6M => vec![make_rotate(1, 3), make_reflect(0, 1)],
    };
    assert(ops@ =~= spec_wallpaper_ops(*wt));
    ops
}

/// The symmetry operations of a group: none for `Identity`, one mirror,
/// turn, shift or glide for the simple groups, and the wallpaper table for
/// a wallpaper group.
pub fn symmetry_ops_for_group(group: &SymmetryGroup) -> (ops: Vec<ExactOperation>)
    ensures
        ops@ == spec_symmetry_ops(*group),
{
    let ops = match group {
        SymmetryGroup::Identity => vec![],
        SymmetryGroup::Reflection => vec![make_reflect(0, 1)],
        SymmetryGroup::Rotation(n) => vec![make_rotate(2, *n)],
        SymmetryGroup::Translation => vec![ExactOperation::Translate { dx: 1, dy: 0 }],
        SymmetryGroup::GlideReflection => vec![make_glide(0, 1)],
        SymmetryGroup::Wallpaper(wt) => wallpaper_ops(wt),
    };
    assert(ops@ =~= spec_symmetry_ops(*group));
    ops
}

/// An angle is a turn of order `n` when it is `2 * pi / n`.
pub open spec fn is_turn_of_order(angle: PiFraction, n: int) -> bool {
    angle.num * n == 2 * angle.den
}

/// The rotation orders that a plane lattice admits.
pub open spec fn crystallographic_order(angle: PiFraction) -> bool {
    ||| is_turn_of_order(angle, 2)
    ||| is_turn_of_order(angle, 3)
    ||| is_turn_of_order(angle, 4)
    ||| is_turn_of_order(angle, 6)
}

/// Crystallographic restriction: every rotation among a wallpaper group's
/// operations is a turn of order 2, 3, 4 or 6.
pub proof fn lemma_wallpaper_rotations_are_crystallographic(wt: WallpaperType)
    ensures
        forall|i: int|
            0 <= i < spec_wallpaper_ops(wt).len() && (#[trigger] spec_wallpaper_ops(wt)[i]) is Rotate
                ==> crystallographic_order(spec_wallpaper_ops(wt)[i]->angle),
{
}

/// A wallpaper group stands for the same operations whether it is asked for
/// by its wallpaper type or as a symmetry group.
pub proof fn lemma_wallpaper_group_ops(wt: WallpaperType)
    ensures
        spec_symmetry_ops(SymmetryGroup::Wallpaper(wt)) == spec_wallpaper_ops(wt),
        spec_wallpaper_ops(wt).len() <= 3,
{
}

/// An operation that moves cells along a direction: a translation or a
/// glide (whose square is a translation). A group with such an operation
/// has unbounded orbits unless rounding to the grid swallows the step.
pub open spec fn is_shift(op: ExactOperation) -> bool {
    op is Translate || op is GlideReflect
}

/// Some operation of the group is a shift whose step moves cells on the
/// grid (`moves[j]` tells, for operation `j`, whether applying it twice
/// moves the origin cell).
pub open spec fn spec_orbits_unbounded(group: SymmetryGroup, moves: Seq<bool>) -> bool {
    exists|j: int|
        0 <= j < spec_symmetry_ops(group).len() && is_shift(#[trigger] spec_symmetry_ops(group)[j])
            && moves[j]
}

/// Whether enforcing `group` meets unbounded orbits: some operation of the
/// group is a shift and, as `moves` reports for the field's resolution,
/// its step survives rounding to the grid.
pub fn orbits_unbounded(group: &SymmetryGroup, moves: &Vec<bool>) -> (b: bool)
    requires
        moves.len() == spec_symmetry_ops(*group).len(),
    ensures
        b == spec_orbits_unbounded(*group, moves@),
{
    let ops = symmetry_ops_for_group(group);
    let mut j: usize = 0;
    while j < ops.len()
        invariant
            j <= ops.len(),
            ops@ == spec_symmetry_ops(*group),
            moves.len() == ops.len(),
            forall|q: int| 0 <= q < j ==> !(is_shift(#[trigger] ops@[q]) && moves@[q]),
        decreases ops.len() - j,
    {
        let shift = match ops[j] {
            ExactOperation::Translate { .. } => true,
            ExactOperation::GlideReflect { .. } => true,
            _ => false,
        };
        if shift && moves[j] {
            assert(is_shift(ops@[j as int]) && moves@[j as int]);
            return true;
        }
        j += 1;
    }
    false
}

/// The groups with a shift among their operations are exactly the
/// translation, the glide, and the wallpaper groups PG, CM, PMG and PGG.
pub proof fn lemma_groups_with_shifts(group: SymmetryGroup)
    ensures
        (exists|j: int|
            0 <= j < spec_symmetry_ops(group).len() && is_shift(
                #[trigger] spec_symmetry_ops(group)[j],
            )) <==> (group == SymmetryGroup::Translation || group == SymmetryGroup::GlideReflection
            || group == SymmetryGroup::Wallpaper(WallpaperType::PG) || group
            == SymmetryGroup::Wallpaper(WallpaperType::CM) || group == SymmetryGroup::Wallpaper(
            WallpaperType::PMG,
        ) || group == SymmetryGroup::Wallpaper(WallpaperType::PGG)),
{
    let ops = spec_symmetry_ops(group);
    if group == SymmetryGroup::Translation || group == SymmetryGroup::GlideReflection || group
        == SymmetryGroup::Wallpaper(WallpaperType::PG) || group == SymmetryGroup::Wallpaper(
        WallpaperType::PMG,
    ) {
        assert(is_shift(ops[ops.len() - 1]));
    } else if group == SymmetryGroup::Wallpaper(WallpaperType::CM) || group
        == SymmetryGroup::Wallpaper(WallpaperType::PGG) {
        assert(is_shift(ops[1]));
    } else {
        assert forall|j: int| 0 <= j < ops.len() implies !is_shift(#[trigger] ops[j]) by {
            match group {
                SymmetryGroup::Wallpaper(wt) => {
                    match wt {
                        WallpaperType::PMM | WallpaperType::CMM => {
                            assert(j == 0 || j == 1 || j == 2);
                        },
                        _ => {},
                    }
                },
                _ => {},
            }
        }
    }
}

/// `Rotation(n)` is the single turn about the origin by `2 * pi / n`: one
/// operation, a rotation, whose angle is a turn of order `n` written with
/// numerator 2 (so also `2 * pi / 0` for `n == 0`), and no mirror.
pub proof fn lemma_rotation_group_is_one_turn(n: u32)
    ensures
        spec_symmetry_ops(SymmetryGroup::Rotation(n)).len() == 1,
        spec_symmetry_ops(SymmetryGroup::Rotation(n))[0] is Rotate,
        is_turn_of_order(spec_symmetry_ops(SymmetryGroup::Rotation(n))[0]->angle, n as int),
        spec_symmetry_ops(SymmetryGroup::Rotation(n))[0]->angle.num == 2,
{
}

/// The simple groups: `Reflection` is the one mirror across the x-axis
/// (axis angle 0); `Translation` the one step of one unit along x;
/// `GlideReflection` the one glide along the x-axis by one unit; `Identity`
/// has no operation.
pub proof fn lemma_simple_group_operations()
    ensures
        spec_symmetry_ops(SymmetryGroup::Identity).len() == 0,
        spec_symmetry_ops(SymmetryGroup::Reflection).len() == 1,
        spec_symmetry_ops(SymmetryGroup::Reflection)[0] is Reflect,
        spec_symmetry_ops(SymmetryGroup::Reflection)[0]->Reflect_axis.num == 0,
        spec_symmetry_ops(SymmetryGroup::Reflection)[0]->Reflect_axis.den != 0,
        spec_symmetry_ops(SymmetryGroup::Translation).len() == 1,
        spec_symmetry_ops(SymmetryGroup::Translation)[0] is Translate,
        spec_symmetry_ops(SymmetryGroup::Translation)[0]->dx == 1,
        spec_symmetry_ops(SymmetryGroup::Translation)[0]->dy == 0,
        spec_symmetry_ops(SymmetryGroup::GlideReflection).len() == 1,
        spec_symmetry_ops(SymmetryGroup::GlideReflection)[0] is GlideReflect,
        spec_symmetry_ops(SymmetryGroup::GlideReflection)[0]->GlideReflect_axis.num == 0,
        spec_symmetry_ops(SymmetryGroup::GlideReflection)[0]->GlideReflect_axis.den != 0,
        spec_symmetry_ops(SymmetryGroup::GlideReflection)[0]->distance == 1,
{
}

/// The rotation order in a wallpaper group's name: the digit, or 1 where
/// the name has none.
pub open spec fn name_order(wt: WallpaperType) -> int {
    match wt {
        WallpaperType::P1 | WallpaperType::PM | WallpaperType::PG | WallpaperType::CM => 1,
        WallpaperType::P2 | WallpaperType::PMM | WallpaperType::PMG | WallpaperType::PGG
        | WallpaperType::CMM => 2,
        WallpaperType::P3 | WallpaperType::P3M1 | WallpaperType::P31M => 3,
        WallpaperType::P4 | WallpaperType::P4M | WallpaperType::P4G => 4,
        WallpaperType::P6 | WallpaperType::P6M => 6,
    }
}

/// The wallpaper groups whose table mirrors: those with an `M` in the name,
/// and `P4G`, whose mirror lies along the diagonal.
pub open spec fn has_mirror_name(wt: WallpaperType) -> bool {
    match wt {
        WallpaperType::PM | WallpaperType::CM | WallpaperType::PMM | WallpaperType::PMG
        | WallpaperType::CMM | WallpaperType::P4M | WallpaperType::P4G | WallpaperType::P3M1
        | WallpaperType::P31M | WallpaperType::P6M => true,
        _ => false,
    }
}

/// A wallpaper group's rotations turn by the order in its name: every
/// rotation of the table is a turn of that order, there is at most one, and
/// the groups of order 3, 4 and 6, and `P2`, `PMM`, `CMM`, have one.
pub proof fn lemma_wallpaper_rotation_order(wt: WallpaperType)
    ensures
        forall|i: int|
            0 <= i < spec_wallpaper_ops(wt).len() && (#[trigger] spec_wallpaper_ops(wt)[i]) is Rotate
                ==> name_order(wt) > 1 && is_turn_of_order(
                spec_wallpaper_ops(wt)[i]->angle,
                name_order(wt),
            ),
        forall|i: int, j: int|
            0 <= i < j < spec_wallpaper_ops(wt).len() && (#[trigger] spec_wallpaper_ops(wt)[i]) is Rotate
                ==> !((#[trigger] spec_wallpaper_ops(wt)[j]) is Rotate),
        (name_order(wt) > 2 || wt == WallpaperType::P2 || wt == WallpaperType::PMM || wt
            == WallpaperType::CMM) ==> exists|i: int|
            0 <= i < spec_wallpaper_ops(wt).len() && (#[trigger] spec_wallpaper_ops(wt)[i]) is Rotate,
{
    let ops = spec_wallpaper_ops(wt);
    if name_order(wt) > 2 || wt == WallpaperType::P2 || wt == WallpaperType::PMM || wt
        == WallpaperType::CMM {
        match wt {
            WallpaperType::PMM | WallpaperType::CMM => assert(ops[2] is Rotate),
            _ => assert(ops[0] is Rotate),
        }
    }
}

/// A wallpaper group's table holds a mirror exactly when its name says so.
pub proof fn lemma_wallpaper_mirrors(wt: WallpaperType)
    ensures
        (exists|i: int|
            0 <= i < spec_wallpaper_ops(wt).len() && (#[trigger] spec_wallpaper_ops(wt)[i]) is Reflect)
            <==> has_mirror_name(wt),
{
    let ops = spec_wallpaper_ops(wt);
    if has_mirror_name(wt) {
        match wt {
            WallpaperType::P4M | WallpaperType::P4G | WallpaperType::P3M1 | WallpaperType::P31M
            | WallpaperType::P6M => assert(ops[1] is Reflect),
            _ => assert(ops[0] is Reflect),
        }
    } else {
        assert forall|i: int| 0 <= i < ops.len() implies !(#[trigger] ops[i] is Reflect) by {
            match wt {
                WallpaperType::PGG => assert(i == 0 || i == 1),
                _ => {},
            }
        }
    }
}

/// Only the identity and the wallpaper group `P1` have no operations: they
/// are the groups every field obeys.
pub proof fn lemma_groups_without_operations(group: SymmetryGroup)
    ensures
        spec_symmetry_ops(group).len() == 0 <==> (group == SymmetryGroup::Identity || group
            == SymmetryGroup::Wallpaper(WallpaperType::P1)),
{
}

} // verus!
