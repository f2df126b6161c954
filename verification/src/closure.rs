//! The closure of a set of cells under a group's operations: the cells
//! reachable from the given ones by applying the operations again and
//! again, with the images of each reached cell.
//!
//! The images of a cell are computed by the caller's function; this module
//! keeps the worklist, the set of reached cells and the index of each cell.
//! Only groups whose operations turn and mirror about the origin are closed
//! this way: a group that shifts cells (see `groups::orbits_unbounded`) has
//! unbounded orbits.

use vstd::prelude::*;
use std::collections::HashMap;
use crate::cells::Cell;
use crate::cells::cell_int;
use crate::cells::pack_key;
use crate::cells::pack_cell;
use crate::cells::lemma_pack_injective;

verus! {

broadcast use vstd::std_specs::hash::group_hash_axioms;

/// The reached cells, the images of the cells already expanded, and the
/// index in `points` of each of those images.
pub struct ImageTable {
    pub points: Vec<Cell>,
    pub images: Vec<Vec<Cell>>,
    pub successors: Vec<Vec<usize>>,
}

/// What holds of a table built from `cells` with `image_of`, finished or not:
/// no cell is reached twice; row `i` holds what `image_of` returned for
/// cell `i`, and, where its successors are listed, their indices; every
/// reached cell is a starting cell or an image of an expanded cell.
pub open spec fn is_partial_table<F: Fn(Cell) -> Vec<Cell>>(
    t: ImageTable,
    cells: Seq<Cell>,
    image_of: F,
) -> bool {
    &&& t.points@.no_duplicates()
    &&& t.images.len() <= t.points.len()
    &&& forall|i: int|
        0 <= i < t.images.len() ==> call_ensures(
            image_of,
            (t.points@[i],),
            #[trigger] t.images@[i],
        )
    &&& forall|k: int|
        0 <= k < t.points.len() ==> cells.contains(#[trigger] t.points@[k]) || exists|m: int|
            0 <= m < t.images.len() && (#[trigger] t.images@[m])@.contains(t.points@[k])
}

/// A finished table: every reached cell is expanded, and the index of each
/// of its images is listed, so the reached cells are closed under the
/// images; every starting cell is reached.
pub open spec fn is_closed_table<F: Fn(Cell) -> Vec<Cell>>(
    t: ImageTable,
    cells: Seq<Cell>,
    image_of: F,
) -> bool {
    &&& is_partial_table(t, cells, image_of)
    &&& t.images.len() == t.points.len()
    &&& t.successors.len() == t.points.len()
    &&& forall|i: int|
        0 <= i < t.points.len() ==> (#[trigger] t.successors@[i]).len() == t.images@[i].len()
    &&& forall|i: int, j: int|
        0 <= i < t.points.len() && 0 <= j < t.successors@[i].len() ==> #[trigger] t.successors@[i]@[j]
            < t.points.len() && t.points@[t.successors@[i]@[j] as int] == t.images@[i]@[j]
    &&& forall|c: Cell| cells.contains(c) ==> #[trigger] t.points@.contains(c)
}

/// How the index map relates to the reached cells.
pub open spec fn index_ok(index: Map<u64, usize>, points: Seq<Cell>) -> bool {
    &&& forall|k: int|
        0 <= k < points.len() ==> index.contains_key(#[trigger] pack_key(cell_int(points[k])))
            && index[pack_key(cell_int(points[k]))] == k
    &&& forall|key: u64|
        #[trigger] index.contains_key(key) ==> index[key] < points.len() && pack_key(
            cell_int(points[index[key] as int]),
        ) == key
}

/// The successors of a finished table number only reached cells, as
/// orbit planning asks.
pub proof fn lemma_closed_table_is_graph<F: Fn(Cell) -> Vec<Cell>>(
    t: ImageTable,
    cells: Seq<Cell>,
    image_of: F,
)
    requires
        is_closed_table(t, cells, image_of),
    ensures
        crate::orbit::is_graph(crate::orbit::rows_view(t.successors@)),
{
    let g = crate::orbit::rows_view(t.successors@);
    assert forall|i: int, j: int| 0 <= i < g.len() && 0 <= j < g[i].len() implies #[trigger] g[i][j]
        < g.len() by {
        assert(g[i] == t.successors@[i]@);
        assert(t.successors@[i]@[j] < t.points.len());
    }
}

/// Reaching cell `c` is new: it is no reached cell.
proof fn lemma_new_cell(index: Map<u64, usize>, points: Seq<Cell>, c: Cell)
    requires
        index_ok(index, points),
        !index.contains_key(pack_key(cell_int(c))),
    ensures
        !points.contains(c),
{
    if points.contains(c) {
        let k = choose|k: int| 0 <= k < points.len() && points[k] == c;
        assert(index.contains_key(pack_key(cell_int(points[k]))));
    }
}

/// The index map finds cell `c` at index `k`.
proof fn lemma_found_cell(index: Map<u64, usize>, points: Seq<Cell>, c: Cell)
    requires
        index_ok(index, points),
        index.contains_key(pack_key(cell_int(c))),
    ensures
        index[pack_key(cell_int(c))] < points.len(),
        points[index[pack_key(cell_int(c))] as int] == c,
{
    let k = index[pack_key(cell_int(c))];
    let d = points[k as int];
    assert(pack_key(cell_int(d)) == pack_key(cell_int(c)));
    lemma_pack_injective(cell_int(d), cell_int(c));
}

proof fn lemma_index_push(index: Map<u64, usize>, points: Seq<Cell>, c: Cell)
    requires
        index_ok(index, points),
        !index.contains_key(pack_key(cell_int(c))),
        points.len() < usize::MAX,
        points.no_duplicates(),
    ensures
        index_ok(index.insert(pack_key(cell_int(c)), points.len() as usize), points.push(c)),
        !points.contains(c),
        points.push(c).no_duplicates(),
{
    lemma_new_cell(index, points, c);
    let p2 = points.push(c);
    assert forall|a: int, b: int| 0 <= a < b < p2.len() implies p2[a] != p2[b] by {
        if b == points.len() {
            assert(p2[a] == points[a]);
            if points[a] == c {
                assert(points.contains(c));
            }
        } else {
            assert(p2[a] == points[a] && p2[b] == points[b]);
        }
    }
    let idx2 = index.insert(pack_key(cell_int(c)), points.len() as usize);
    let p2 = points.push(c);
    assert forall|k: int| 0 <= k < p2.len() implies idx2.contains_key(
        #[trigger] pack_key(cell_int(p2[k])),
    ) && idx2[pack_key(cell_int(p2[k]))] == k by {
        if k < points.len() {
            assert(p2[k] == points[k]);
            assert(index.contains_key(pack_key(cell_int(points[k]))));
            assert(pack_key(cell_int(points[k])) != pack_key(cell_int(c)));
        } else {
            assert(p2[k] == c);
        }
    }
    assert forall|key: u64| #[trigger] idx2.contains_key(key) implies idx2[key] < p2.len()
        && pack_key(cell_int(p2[idx2[key] as int])) == key by {
        if key != pack_key(cell_int(c)) {
            assert(index.contains_key(key));
            assert(p2[index[key] as int] == points[index[key] as int]);
        }
    }
}

proof fn lemma_reach_push(
    cells: Seq<Cell>,
    points: Seq<Cell>,
    images: Seq<Vec<Cell>>,
    v: Vec<Cell>,
)
    requires
        forall|k: int|
            0 <= k < points.len() ==> cells.contains(#[trigger] points[k]) || v@.contains(points[k])
                || exists|m: int| 0 <= m < images.len() && (#[trigger] images[m])@.contains(points[k]),
    ensures
        forall|k: int|
            0 <= k < points.len() ==> cells.contains(#[trigger] points[k]) || exists|m: int|
                0 <= m < images.push(v).len() && (#[trigger] images.push(v)[m])@.contains(points[k]),
{
    let im2 = images.push(v);
    assert forall|k: int| 0 <= k < points.len() implies cells.contains(#[trigger] points[k])
        || exists|m: int| 0 <= m < im2.len() && (#[trigger] im2[m])@.contains(points[k]) by {
        if !cells.contains(points[k]) {
            if v@.contains(points[k]) {
                assert(im2[images.len() as int] == v);
            } else {
                let m = choose|m: int|
                    0 <= m < images.len() && (#[trigger] images[m])@.contains(points[k]);
                assert(im2[m] == images[m]);
            }
        }
    }
}

proof fn lemma_push_keeps(s: Seq<Cell>, c: Cell, x: Cell)
    requires
        s.contains(x),
    ensures
        s.push(c).contains(x),
{
    let k = choose|k: int| 0 <= k < s.len() && s[k] == x;
    assert(s.push(c)[k] == x);
}

/// Reaches every cell that the operations lead to from `cells`, and lists
/// the images of each: `Ok` holds the closed table. `Err` holds a partial
/// table whose reached cells fill the largest vector length, `usize::MAX`,
/// with one more cell still to add (a vector of cells can never grow that
/// long, so this does not happen in a run).
#[verifier::spinoff_prover]
#[verifier::rlimit(40)]
pub fn close_under_images<F: Fn(Cell) -> Vec<Cell>>(cells: &Vec<Cell>, image_of: F) -> (r: Result<
    ImageTable,
    ImageTable,
>)
    requires
        forall|c: Cell| call_requires(image_of, (c,)),
    ensures
        r matches Ok(t) ==> is_closed_table(t, cells@, image_of),
        r matches Err(t) ==> is_partial_table(t, cells@, image_of) && t.points.len() == usize::MAX,
{
    let mut index: HashMap<u64, usize> = HashMap::new();
    let mut points: Vec<Cell> = Vec::new();
    let mut s: usize = 0;
    while s < cells.len()
        invariant
            s <= cells.len(),
            points@.no_duplicates(),
            index_ok(index@, points@),
            forall|k: int| 0 <= k < points.len() ==> cells@.contains(#[trigger] points@[k]),
            forall|x: int| 0 <= x < s ==> points@.contains(#[trigger] cells@[x]),
        decreases cells.len() - s,
    {
        let c = cells[s];
        let key = pack_cell(c.0, c.1);
        assert(key == pack_key(cell_int(c)));
        if !index.contains_key(&key) {
            if points.len() == usize::MAX {
                let t = ImageTable { points, images: Vec::new(), successors: Vec::new() };
                return Err(t);
            }
            proof {
                lemma_new_cell(index@, points@, c);
                lemma_index_push(index@, points@, c);
            }
            let ghost old_points = points@;
            index.insert(key, points.len());
            points.push(c);
            assert(points@[points.len() - 1] == c);
            proof {
                assert forall|k: int| 0 <= k < points.len() implies cells@.contains(
                    #[trigger] points@[k],
                ) by {
                    if k == points.len() - 1 {
                        assert(cells@[s as int] == c);
                    }
                }
                assert forall|x: int| 0 <= x < s + 1 implies points@.contains(
                    #[trigger] cells@[x],
                ) by {
                    if x < s {
                        lemma_push_keeps(old_points, c, cells@[x]);
                    } else {
                        assert(points@[points.len() - 1] == cells@[x]);
                    }
                }
            }
        } else {
            proof {
                lemma_found_cell(index@, points@, c);
            }
        }
        s += 1;
    }
    let mut images: Vec<Vec<Cell>> = Vec::new();
    let mut successors: Vec<Vec<usize>> = Vec::new();
    let mut i: usize = 0;
    while i < points.len()
        invariant
            i <= points.len(),
            images.len() == i,
            successors.len() == i,
            forall|c: Cell| call_requires(image_of, (c,)),
            points@.no_duplicates(),
            index_ok(index@, points@),
            forall|x: int| 0 <= x < cells.len() ==> points@.contains(#[trigger] cells@[x]),
            forall|m: int|
                0 <= m < i ==> call_ensures(image_of, (points@[m],), #[trigger] images@[m]),
            forall|m: int| 0 <= m < i ==> (#[trigger] successors@[m]).len() == images@[m].len(),
            forall|m: int, j: int|
                0 <= m < i && 0 <= j < successors@[m].len() ==> #[trigger] successors@[m]@[j]
                    < points.len() && points@[successors@[m]@[j] as int] == images@[m]@[j],
            forall|k: int|
                0 <= k < points.len() ==> cells@.contains(#[trigger] points@[k]) || exists|m: int|
                    0 <= m < images.len() && (#[trigger] images@[m])@.contains(points@[k]),
        decreases usize::MAX - i,
    {
        let ghost p0 = points@;
        let v = image_of(points[i]);
        let mut succ: Vec<usize> = Vec::new();
        let mut j: usize = 0;
        while j < v.len()
            invariant
                            i < points.len(),
                j <= v.len(),
                succ.len() == j,
                successors.len() == i,
                i < p0.len(),
                points.len() >= p0.len(),
                forall|k: int| 0 <= k < p0.len() ==> points@[k] == p0[k],
                call_ensures(image_of, (p0[i as int],), v),
                forall|m: int|
                    0 <= m < i ==> call_ensures(image_of, (p0[m],), #[trigger] images@[m]),
                forall|m: int|
                    0 <= m < i ==> (#[trigger] successors@[m]).len() == images@[m].len(),
                points@.no_duplicates(),
                index_ok(index@, points@),
                images.len() == i,
                forall|x: int| 0 <= x < cells.len() ==> points@.contains(#[trigger] cells@[x]),
                forall|m: int, q: int|
                    0 <= m < i && 0 <= q < successors@[m].len() ==> #[trigger] successors@[m]@[q]
                        < points.len() && points@[successors@[m]@[q] as int] == images@[m]@[q],
                forall|q: int|
                    0 <= q < j ==> #[trigger] succ@[q] < points.len() && points@[succ@[q] as int]
                        == v@[q],
                forall|k: int|
                    0 <= k < points.len() ==> cells@.contains(#[trigger] points@[k]) || v@.contains(
                        points@[k],
                    ) || exists|m: int|
                        0 <= m < images.len() && (#[trigger] images@[m])@.contains(points@[k]),
            decreases v.len() - j,
        {
            let c = v[j];
            let key = pack_cell(c.0, c.1);
            assert(key == pack_key(cell_int(c)));
            let found = index.get(&key);
            match found {
                Some(k) => {
                    let k = *k;
                    proof {
                        lemma_found_cell(index@, points@, c);
                    }
                    succ.push(k);
                },
                None => {
                    if points.len() == usize::MAX {
                        proof {
                            lemma_reach_push(cells@, points@, images@, v);
                        }
                        images.push(v);
                        proof {
                            assert forall|m: int| 0 <= m < images.len() implies call_ensures(
                                image_of,
                                (points@[m],),
                                #[trigger] images@[m],
                            ) by {
                                assert(points@[m] == p0[m]);
                                if m == i {
                                    assert(images@[m] == v);
                                }
                            }
                        }
                        proof {
                            assert(points@.no_duplicates());
                            assert(images.len() <= points.len());
                            assert(forall|k: int|
                                0 <= k < points.len() ==> cells@.contains(#[trigger] points@[k])
                                    || exists|m: int|
                                    0 <= m < images.len() && (#[trigger] images@[m])@.contains(
                                        points@[k],
                                    ));
                        }
                        let t = ImageTable { points, images, successors };
                        return Err(t);
                    }
                    let ghost old_points = points@;
                    proof {
                        lemma_new_cell(index@, points@, c);
                        lemma_index_push(index@, points@, c);
                    }
                    let k = points.len();
                    index.insert(key, k);
                    points.push(c);
                    succ.push(k);
                    proof {
                        assert(points@[k as int] == c);
                        assert forall|k2: int|
                            0 <= k2 < points.len() implies cells@.contains(#[trigger] points@[k2])
                                || v@.contains(points@[k2]) || exists|m: int|
                                0 <= m < images.len() && (#[trigger] images@[m])@.contains(
                                    points@[k2],
                                ) by {
                            if k2 == k {
                                assert(v@[j as int] == points@[k2]);
                            } else {
                                assert(points@[k2] == old_points[k2]);
                            }
                        }
                        assert forall|x: int| 0 <= x < cells.len() implies points@.contains(
                            #[trigger] cells@[x],
                        ) by {
                            lemma_push_keeps(old_points, c, cells@[x]);
                        }
                    }
                },
            }
            j += 1;
        }
        proof {
            lemma_reach_push(cells@, points@, images@, v);
        }
        images.push(v);
        successors.push(succ);
        i += 1;
    }
    let ghost gp = points@;
    let ghost gi = images@;
    assert forall|k: int| 0 <= k < gp.len() implies cells@.contains(#[trigger] gp[k]) || exists|m: int|
        0 <= m < gi.len() && (#[trigger] gi[m])@.contains(gp[k]) by {
        if !cells@.contains(gp[k]) {
            assert(cells@.contains(points@[k]) || exists|m: int|
                0 <= m < images.len() && (#[trigger] images@[m])@.contains(points@[k]));
        }
    }
    let t = ImageTable { points, images, successors };
    proof {
        assert(t.points@ == gp && t.images@ == gi);
        assert(t.points@.no_duplicates());
        assert(forall|i: int|
            0 <= i < t.images.len() ==> call_ensures(image_of, (t.points@[i],), #[trigger] t.images@[i]));
        assert(is_partial_table(t, cells@, image_of));
        assert forall|c: Cell| cells@.contains(c) implies #[trigger] t.points@.contains(c) by {
            let x = choose|x: int| 0 <= x < cells.len() && cells@[x] == c;
            assert(t.points@.contains(cells@[x]));
        }
    }
    Ok(t)
}

} // verus!
