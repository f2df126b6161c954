//! Grid cells and their packing into one `u64` key, so that sets of cells
//! can be kept in a hash set.

use vstd::prelude::*;

verus! {

/// A grid cell `(x, y)`.
pub type Cell = (i32, i32);

pub open spec fn in_i32(v: int) -> bool {
    i32::MIN <= v <= i32::MAX
}

/// The packed key of a pair of grid coordinates: the biased `x` in the high
/// 32 bits and the biased `y` in the low 32 bits.
pub open spec fn spec_pack(x: int, y: int) -> int {
    (x + 0x8000_0000) * 0x1_0000_0000 + (y + 0x8000_0000)
}

pub open spec fn pack_key(c: (int, int)) -> u64 {
    spec_pack(c.0, c.1) as u64
}

pub open spec fn cell_int(c: Cell) -> (int, int) {
    (c.0 as int, c.1 as int)
}

pub proof fn lemma_pack_range(x: int, y: int)
    requires
        in_i32(x),
        in_i32(y),
    ensures
        0 <= spec_pack(x, y) <= u64::MAX,
        pack_key((x, y)) as int == spec_pack(x, y),
{
    let hi = x + 0x8000_0000;
    let lo = y + 0x8000_0000;
    assert(0 <= hi * 0x1_0000_0000 + lo <= u64::MAX) by (nonlinear_arith)
        requires
            0 <= hi < 0x1_0000_0000,
            0 <= lo < 0x1_0000_0000,
    ;
}

/// Two pairs of 32-bit coordinates with the same key are the same pair.
pub proof fn lemma_pack_injective(a: (int, int), b: (int, int))
    requires
        in_i32(a.0),
        in_i32(a.1),
        in_i32(b.0),
        in_i32(b.1),
        pack_key(a) == pack_key(b),
    ensures
        a == b,
{
    lemma_pack_range(a.0, a.1);
    lemma_pack_range(b.0, b.1);
    let ha = a.0 + 0x8000_0000;
    let la = a.1 + 0x8000_0000;
    let hb = b.0 + 0x8000_0000;
    let lb = b.1 + 0x8000_0000;
    assert(ha == hb && la == lb) by (nonlinear_arith)
        requires
            0 <= ha < 0x1_0000_0000,
            0 <= la < 0x1_0000_0000,
            0 <= hb < 0x1_0000_0000,
            0 <= lb < 0x1_0000_0000,
            ha * 0x1_0000_0000 + la == hb * 0x1_0000_0000 + lb,
    ;
}

/// The key of a cell.
pub fn pack_cell(x: i32, y: i32) -> (k: u64)
    ensures
        k == pack_key((x as int, y as int)),
        k as int == spec_pack(x as int, y as int),
{
    proof {
        lemma_pack_range(x as int, y as int);
    }
    let hi: u64 = (x as i64 + 0x8000_0000i64) as u64;
    let lo: u64 = (y as i64 + 0x8000_0000i64) as u64;
    assert(hi * 0x1_0000_0000 + lo <= u64::MAX) by (nonlinear_arith)
        requires
            hi < 0x1_0000_0000,
            lo < 0x1_0000_0000,
    ;
    hi * 0x1_0000_0000u64 + lo
}

} // verus!
