# lau_symmetry_engine

Wallpaper groups, symmetry detection and symmetry enforcement on 2D scalar
fields, with the integer logic verified by Verus.

- `src/` is the verified library:
  - `groups.rs`: the 17 wallpaper types, the symmetry groups, and the exact
    table of symmetry operations of each group (angles held as `num * pi / den`);
    the crystallographic restriction on the table's rotations.
  - `detect.rs`: which tested groups a field obeys (error below one half) and
    in what order they are reported (ascending error, stable on ties); the
    identity, which has no operation, is always reported.
  - `closure.rs`: every cell the group's operations lead to from the field's
    cells, with the images of each. It is used for groups of turns and
    mirrors; `groups::orbits_unbounded` tells when a group's shift (a
    translation or glide whose step survives rounding to the grid) makes
    the orbits unbounded, and the field then averages to zero.
  - `orbit.rs`: the orbits along which a field is averaged when a symmetry is
    enforced: every cell lies in exactly one, each orbit holds the images of
    its cells and is all that its first cell is joined to.
  - `boxcount.rs`: box counts at sides 1, 2, 4, 8 and 16 for the box-counting
    dimension; counts never rise with the box side.
  - `registry.rs`: distribution of primary groups over rooms, the most common
    group, and the rooms with the highest and lowest scores.
  - `cells.rs`: grid cells packed into `u64` keys for hash sets.
- `app/` holds the `f64` side: `VibeField`, `RoomSymmetry`,
  `SymmetryRegistry`, the floating-point symmetry operations, and serde
  support. It calls the library for every step that needs no floating point.
- `tests/` exercises the library.
