//! Wallpaper symmetry groups, their exact symmetry operations, and the
//! discrete (integer) parts of symmetry detection, orbit closure and averaging,
//! box-counting and room-registry bookkeeping.

pub mod groups;
pub mod cells;
pub mod boxcount;
pub mod closure;
pub mod orbit;
pub mod detect;
pub mod registry;
