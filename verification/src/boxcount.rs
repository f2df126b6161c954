//! Box counting: how many boxes of side 1, 2, 4, 8 and 16 cells the
//! occupied cells of a field touch. These counts feed the box-counting
//! estimate of a field's fractal dimension.

use vstd::prelude::*;
use std::collections::HashSet;
use vstd::set_lib::lemma_map_size;
use vstd::set_lib::lemma_map_size_bound;
use vstd::arithmetic::div_mod::lemma_div_denominator;
use vstd::arithmetic::div_mod::lemma_div_nonincreasing;
use vstd::arithmetic::div_mod::lemma_div_pos_is_pos;
use crate::cells::Cell;
use crate::cells::in_i32;
use crate::cells::pack_key;
use crate::cells::pack_cell;
use crate::cells::lemma_pack_injective;

verus! {

broadcast use vstd::std_specs::hash::group_hash_axioms;

/// The number of box sizes that are counted.
pub const BOX_LEVELS: usize = 5;

/// Integer division rounding toward zero, as Rust's `/` on integers does.
pub open spec fn trunc_div(a: int, d: int) -> int {
    if a >= 0 {
        a / d
    } else {
        -((-a) / d)
    }
}

/// The side of the boxes at level `k`: `2^k` cells.
pub open spec fn scale_at(k: nat) -> int
    decreases k,
{
    if k == 0 {
        1
    } else {
        2 * scale_at((k - 1) as nat)
    }
}

/// The box of side `scale` that holds a cell.
pub open spec fn box_of(c: Cell, scale: int) -> (int, int) {
    (trunc_div(c.0 as int, scale), trunc_div(c.1 as int, scale))
}

/// The boxes of side `scale` that hold at least one of the cells.
pub open spec fn boxes_of(cells: Seq<Cell>, scale: int) -> Set<(int, int)> {
    cells.map_values(|c: Cell| box_of(c, scale)).to_set()
}

/// The boxes at level `k`.
pub open spec fn boxes_at(cells: Seq<Cell>, k: nat) -> Set<(int, int)> {
    boxes_of(cells, scale_at(k))
}

proof fn lemma_trunc_div_bounds(a: int, d: int)
    requires
        in_i32(a),
        d >= 1,
    ensures
        in_i32(trunc_div(a, d)),
        a >= 0 ==> 0 <= trunc_div(a, d) <= a,
        a < 0 ==> a <= trunc_div(a, d) <= 0,
{
    if a >= 0 {
        lemma_div_nonincreasing(a, d);
        lemma_div_pos_is_pos(a, d);
    } else {
        lemma_div_nonincreasing(-a, d);
        lemma_div_pos_is_pos(-a, d);
    }
}

/// Dividing toward zero by `d` and then by 2 is dividing toward zero by `2 * d`.
proof fn lemma_trunc_div_twice(a: int, d: int)
    requires
        d >= 1,
    ensures
        trunc_div(trunc_div(a, d), 2) == trunc_div(a, 2 * d),
{
    if a >= 0 {
        lemma_div_pos_is_pos(a, d);
        lemma_div_denominator(a, d, 2);
    } else {
        lemma_div_pos_is_pos(-a, d);
        lemma_div_denominator(-a, d, 2);
        let q = (-a) / d;
        if q == 0 {
            assert(trunc_div(a, d) == 0);
            assert(0int / 2 == 0);
            lemma_div_pos_is_pos(-a, 2 * d);
            lemma_div_nonincreasing(q, 2);
        }
    }
}

proof fn lemma_scale_at_pos(k: nat)
    ensures
        scale_at(k) >= 1,
    decreases k,
{
    if k > 0 {
        lemma_scale_at_pos((k - 1) as nat);
    }
}

/// The number of distinct boxes of side `scale` holding the cells.
fn count_boxes(cells: &Vec<Cell>, scale: i32) -> (n: usize)
    requires
        scale >= 1,
    ensures
        n as int == boxes_of(cells@, scale as int).len(),
{
    let ghost f = |b: (int, int)| pack_key(b);
    let ghost m = cells@.map_values(|c: Cell| box_of(c, scale as int));
    let ghost boxes = boxes_of(cells@, scale as int);
    let mut keys: HashSet<u64> = HashSet::new();
    let mut i: usize = 0;
    while i < cells.len()
        invariant
            i <= cells.len(),
            scale >= 1,
            forall|v: u64|
                keys@.contains(v) <==> exists|j: int|
                    0 <= j < i && v == #[trigger] pack_key(box_of(cells@[j], scale as int)),
        decreases cells.len() - i,
    {
        let (x, y) = cells[i];
        let bx = x / scale;
        let by = y / scale;
        let k = pack_cell(bx, by);
        assert(box_of(cells@[i as int], scale as int) == (bx as int, by as int));
        keys.insert(k);
        i += 1;
    }
    proof {
    assert forall|b: (int, int)| boxes.contains(b) implies in_i32(b.0) && in_i32(b.1) by {
        let j = choose|j: int| 0 <= j < m.len() && #[trigger] m[j] == b;
        lemma_trunc_div_bounds(cells@[j].0 as int, scale as int);
        lemma_trunc_div_bounds(cells@[j].1 as int, scale as int);
    }
    assert(vstd::relations::injective_on(f, boxes)) by {
        assert forall|b1: (int, int), b2: (int, int)|
            boxes.contains(b1) && boxes.contains(b2) && #[trigger] f(b1) == #[trigger] f(b2)
                implies b1 == b2 by {
            lemma_pack_injective(b1, b2);
        }
    }
    assert(boxes.map(f) =~= keys@) by {
        assert forall|v: u64| keys@.contains(v) implies boxes.map(f).contains(v) by {
            let j = choose|j: int|
                0 <= j < i && v == #[trigger] pack_key(box_of(cells@[j], scale as int));
            let b = box_of(cells@[j], scale as int);
            assert(m[j] == b);
            assert(boxes.contains(b));
        }
        assert forall|v: u64| boxes.map(f).contains(v) implies keys@.contains(v) by {
            let b = choose|b: (int, int)| boxes.contains(b) && v == f(b);
            let j = choose|j: int| 0 <= j < m.len() && #[trigger] m[j] == b;
            assert(v == pack_key(box_of(cells@[j], scale as int)));
        }
    }
    lemma_map_size(boxes, keys@, f);
    }
    keys.len()
}

/// The number of distinct boxes of side 1, 2, 4, 8 and 16 cells that hold
/// at least one of the cells (boxes are found by dividing each coordinate
/// by the side, rounding toward zero).
pub fn box_counts(cells: &Vec<Cell>) -> (counts: Vec<usize>)
    ensures
        counts.len() == BOX_LEVELS,
        forall|k: int| 0 <= k < BOX_LEVELS ==> counts[k] as int == boxes_at(cells@, k as nat).len(),
        forall|k: int| 0 <= k < BOX_LEVELS - 1 ==> counts[k + 1] <= #[trigger] counts[k],
        cells.len() > 0 ==> forall|k: int|
            0 <= k < BOX_LEVELS ==> 1 <= #[trigger] counts[k] <= cells.len(),
        cells@.no_duplicates() ==> counts[0] == cells.len(),
{
    let mut counts: Vec<usize> = Vec::new();
    let mut scale: i32 = 1;
    let mut level: usize = 0;
    while level < BOX_LEVELS
        invariant
            level <= BOX_LEVELS,
            counts.len() == level,
            scale as int == scale_at(level as nat),
            forall|k: int| 0 <= k < level ==> counts[k] as int == boxes_at(cells@, k as nat).len(),
        decreases BOX_LEVELS - level,
    {
        proof {
            reveal_with_fuel(scale_at, 6);
        }
        let n = count_boxes(cells, scale);
        counts.push(n);
        scale = scale * 2;
        level += 1;
    }
    proof {
        assert forall|k: int| 0 <= k < BOX_LEVELS - 1 implies counts[k + 1] <= #[trigger] counts[k] by {
            lemma_box_counts_nonincreasing(cells@, k as nat);
        }
        if cells@.no_duplicates() {
            lemma_unit_boxes_are_cells(cells@);
        }
        if cells.len() > 0 {
            assert forall|k: int| 0 <= k < BOX_LEVELS implies 1 <= #[trigger] counts[k] <= cells.len() by {
                lemma_box_count_bounds(cells@, k as nat);
            }
        }
    }
    counts
}

/// Doubling the box side never raises the number of boxes: the boxes of the
/// next level are the halves of the boxes of this level.
pub proof fn lemma_box_counts_nonincreasing(cells: Seq<Cell>, k: nat)
    ensures
        boxes_at(cells, k + 1).len() <= boxes_at(cells, k).len(),
{
    let s = scale_at(k);
    lemma_scale_at_pos(k);
    assert(scale_at(k + 1) == 2 * s);
    let halve = |b: (int, int)| (trunc_div(b.0, 2), trunc_div(b.1, 2));
    let fine = boxes_at(cells, k);
    let coarse = boxes_at(cells, k + 1);
    let fm = cells.map_values(|c: Cell| box_of(c, s));
    let cm = cells.map_values(|c: Cell| box_of(c, 2 * s));
    assert forall|j: int| 0 <= j < cells.len() implies #[trigger] cm[j] == halve(fm[j]) by {
        lemma_trunc_div_twice(cells[j].0 as int, s);
        lemma_trunc_div_twice(cells[j].1 as int, s);
    }
    assert(fine.map(halve) =~= coarse) by {
        assert forall|b: (int, int)| fine.map(halve).contains(b) implies coarse.contains(b) by {
            let a = choose|a: (int, int)| fine.contains(a) && b == halve(a);
            let j = choose|j: int| 0 <= j < fm.len() && #[trigger] fm[j] == a;
            assert(cm[j] == b);
        }
        assert forall|b: (int, int)| coarse.contains(b) implies fine.map(halve).contains(b) by {
            let j = choose|j: int| 0 <= j < cm.len() && #[trigger] cm[j] == b;
            assert(fine.contains(fm[j]));
        }
    }
    lemma_map_size_bound(fine, coarse, halve);
}

/// Boxes of side 1 are the cells themselves: distinct cells touch as many
/// boxes of side 1 as there are cells.
pub proof fn lemma_unit_boxes_are_cells(cells: Seq<Cell>)
    requires
        cells.no_duplicates(),
    ensures
        boxes_at(cells, 0).len() == cells.len(),
{
    let m = cells.map_values(|c: Cell| box_of(c, scale_at(0)));
    assert forall|i: int, j: int| 0 <= i < m.len() && 0 <= j < m.len() && i != j implies m[i]
        != m[j] by {
        assert(m[i] == (cells[i].0 as int, cells[i].1 as int));
        assert(m[j] == (cells[j].0 as int, cells[j].1 as int));
        assert(cells[i] != cells[j]);
    }
    assert(m.no_duplicates());
    m.unique_seq_to_set();
}

/// A non-empty set of cells touches at least one box and at most one box
/// per cell, at every level.
pub proof fn lemma_box_count_bounds(cells: Seq<Cell>, k: nat)
    requires
        cells.len() > 0,
    ensures
        1 <= boxes_at(cells, k).len() <= cells.len(),
{
    let m = cells.map_values(|c: Cell| box_of(c, scale_at(k)));
    m.lemma_cardinality_of_set();
    vstd::seq_lib::seq_to_set_is_finite(m);
    assert(m.to_set().contains(m[0]));
    vstd::set_lib::lemma_set_empty_equivalency_len(m.to_set());
}

} // verus!
