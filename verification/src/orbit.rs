//! Orbit planning for symmetry enforcement: which cells are averaged
//! together when a field is made symmetric.
//!
//! Cells are numbered `0..n`; `successors[i]` lists the numbers of the
//! images of cell `i` under the group's operations (see
//! `closure::close_under_images`). Two cells are linked when one is an image
//! of the other. The orbits are the classes of cells joined by chains of
//! links: every cell lies in exactly one orbit, every image of a cell lies
//! in the cell's orbit, and an orbit is all that its first cell is joined
//! to. Averaging each orbit thus leaves every cell equal to its images.

use vstd::prelude::*;

verus! {

/// The contents of a vector of index lists.
pub open spec fn rows_view(v: Seq<Vec<usize>>) -> Seq<Seq<usize>> {
    v.map_values(|r: Vec<usize>| r@)
}

/// Every listed successor is a cell number.
pub open spec fn is_graph(g: Seq<Seq<usize>>) -> bool {
    forall|i: int, j: int| 0 <= i < g.len() && 0 <= j < g[i].len() ==> #[trigger] g[i][j] < g.len()
}

/// One of the two cells is an image of the other.
pub open spec fn linked(g: Seq<Seq<usize>>, a: int, b: int) -> bool {
    g[a].contains(b as usize) || g[b].contains(a as usize)
}

/// A chain of cells, each linked to the next.
pub open spec fn is_walk(g: Seq<Seq<usize>>, w: Seq<int>) -> bool {
    &&& w.len() >= 1
    &&& forall|s: int| 0 <= s < w.len() ==> 0 <= #[trigger] w[s] < g.len()
    &&& forall|s: int| 0 <= s < w.len() - 1 ==> linked(g, #[trigger] w[s], w[s + 1])
}

/// Cell `b` is joined to cell `a` by a chain of links.
pub open spec fn connected(g: Seq<Seq<usize>>, a: int, b: int) -> bool {
    exists|w: Seq<int>| #[trigger] is_walk(g, w) && w[0] == a && w.last() == b
}

/// The cells of `s` are closed under links.
pub open spec fn link_closed(g: Seq<Seq<usize>>, s: Seq<usize>) -> bool {
    forall|x: int, y: int|
        0 <= x < g.len() && 0 <= y < g.len() && s.contains(x as usize) && #[trigger] linked(g, x, y)
            ==> s.contains(y as usize)
}

/// Some orbit of the list holds cell `x`.
pub open spec fn in_some(o: Seq<Seq<usize>>, x: usize) -> bool {
    exists|k: int| 0 <= k < o.len() && (#[trigger] o[k]).contains(x)
}

pub open spec fn count_false(s: Seq<bool>) -> nat
    decreases s.len(),
{
    if s.len() == 0 {
        0
    } else {
        count_false(s.drop_last()) + if s.last() {
            0nat
        } else {
            1nat
        }
    }
}

proof fn lemma_count_false_set(s: Seq<bool>, i: int)
    requires
        0 <= i < s.len(),
        !s[i],
    ensures
        count_false(s.update(i, true)) + 1 == count_false(s),
    decreases s.len(),
{
    let u = s.update(i, true);
    if i == s.len() - 1 {
        assert(u.drop_last() =~= s.drop_last());
    } else {
        assert(u.drop_last() =~= s.drop_last().update(i, true));
        lemma_count_false_set(s.drop_last(), i);
    }
}

proof fn lemma_walk_extend(g: Seq<Seq<usize>>, a: int, v: int, y: int)
    requires
        connected(g, a, v),
        0 <= y < g.len(),
        linked(g, v, y),
    ensures
        connected(g, a, y),
{
    let w = choose|w: Seq<int>| #[trigger] is_walk(g, w) && w[0] == a && w.last() == v;
    let w2 = w.push(y);
    assert forall|s: int| 0 <= s < w2.len() - 1 implies linked(g, #[trigger] w2[s], w2[s + 1]) by {
        if s < w.len() - 1 {
            assert(w2[s] == w[s] && w2[s + 1] == w[s + 1]);
        }
    }
    assert(is_walk(g, w2));
}

proof fn lemma_walk_stays(g: Seq<Seq<usize>>, s: Seq<usize>, w: Seq<int>)
    requires
        is_walk(g, w),
        s.contains(w[0] as usize),
        link_closed(g, s),
    ensures
        s.contains(w.last() as usize),
    decreases w.len(),
{
    if w.len() > 1 {
        let w1 = w.drop_last();
        assert(is_walk(g, w1)) by {
            assert forall|t: int| 0 <= t < w1.len() - 1 implies linked(g, #[trigger] w1[t], w1[t + 1]) by {
                assert(w1[t] == w[t] && w1[t + 1] == w[t + 1]);
                assert(linked(g, w[t], w[t + 1]));
            }
        }
        lemma_walk_stays(g, s, w1);
        assert(linked(g, w[w.len() - 2], w[w.len() - 1]));
    }
}

proof fn lemma_connected_self(g: Seq<Seq<usize>>, a: int)
    requires
        0 <= a < g.len(),
    ensures
        connected(g, a, a),
{
    let w = seq![a];
    assert(is_walk(g, w));
}

/// A chain of cells, each an image of the one before.
pub open spec fn is_forward_walk(g: Seq<Seq<usize>>, w: Seq<int>) -> bool {
    &&& w.len() >= 1
    &&& forall|s: int| 0 <= s < w.len() ==> 0 <= #[trigger] w[s] < g.len()
    &&& forall|s: int| 0 <= s < w.len() - 1 ==> g[#[trigger] w[s]].contains(w[s + 1] as usize)
}

/// Cell `b` is reached from cell `a` by applying the operations.
pub open spec fn reaches(g: Seq<Seq<usize>>, a: int, b: int) -> bool {
    exists|w: Seq<int>| #[trigger] is_forward_walk(g, w) && w[0] == a && w.last() == b
}

proof fn lemma_reaches_trans(g: Seq<Seq<usize>>, a: int, b: int, c: int)
    requires
        reaches(g, a, b),
        reaches(g, b, c),
    ensures
        reaches(g, a, c),
{
    let w1 = choose|w: Seq<int>| #[trigger] is_forward_walk(g, w) && w[0] == a && w.last() == b;
    let w2 = choose|w: Seq<int>| #[trigger] is_forward_walk(g, w) && w[0] == b && w.last() == c;
    let w = w1 + w2.drop_first();
    assert forall|s: int| 0 <= s < w.len() - 1 implies g[#[trigger] w[s]].contains(w[s + 1] as usize) by {
        if s < w1.len() - 1 {
            assert(w[s] == w1[s] && w[s + 1] == w1[s + 1]);
        } else if s == w1.len() - 1 {
            assert(w[s] == w1[s] && w1[s] == w2[0]);
            assert(w[s + 1] == w2[1]);
        } else {
            let r = s - w1.len() + 1;
            assert(w[s] == w2[r] && w[s + 1] == w2[r + 1]);
        }
    }
    assert forall|s: int| 0 <= s < w.len() implies 0 <= #[trigger] w[s] < g.len() by {
        if s < w1.len() {
            assert(w[s] == w1[s]);
        } else {
            assert(w[s] == w2[s - w1.len() + 1]);
        }
    }
    if w2.len() == 1 {
        assert(w.last() == w1.last());
    } else {
        assert(w.last() == w2.last());
    }
    assert(is_forward_walk(g, w));
}

proof fn lemma_reaches_step(g: Seq<Seq<usize>>, a: int, b: int)
    requires
        0 <= a < g.len(),
        0 <= b < g.len(),
        g[a].contains(b as usize),
    ensures
        reaches(g, a, b),
{
    let w = seq![a, b];
    assert(is_forward_walk(g, w));
}

/// When every image can be carried back to its cell by further operations
/// (as for operations that permute the cells), the orbit of a cell is
/// exactly what the operations reach from it: cells joined by links are
/// reached from one another.
pub proof fn lemma_joined_cells_are_reached(g: Seq<Seq<usize>>, a: int, b: int)
    requires
        forall|x: int, y: int|
            0 <= x < g.len() && 0 <= y < g.len() && #[trigger] g[x].contains(y as usize)
                ==> reaches(g, y, x),
        connected(g, a, b),
    ensures
        reaches(g, a, b),
{
    let w = choose|w: Seq<int>| #[trigger] is_walk(g, w) && w[0] == a && w.last() == b;
    lemma_walk_reached(g, w, w.len() - 1);
}

proof fn lemma_walk_reached(g: Seq<Seq<usize>>, w: Seq<int>, k: int)
    requires
        forall|x: int, y: int|
            0 <= x < g.len() && 0 <= y < g.len() && #[trigger] g[x].contains(y as usize)
                ==> reaches(g, y, x),
        is_walk(g, w),
        0 <= k < w.len(),
    ensures
        reaches(g, w[0], w[k]),
    decreases k,
{
    if k == 0 {
        let w0 = seq![w[0]];
        assert(is_forward_walk(g, w0));
    } else {
        lemma_walk_reached(g, w, k - 1);
        let x = w[k - 1];
        let y = w[k];
        assert(linked(g, w[k - 1], w[k]));
        if g[x].contains(y as usize) {
            lemma_reaches_step(g, x, y);
        } else {
            assert(g[y].contains(x as usize));
        }
        lemma_reaches_trans(g, w[0], x, y);
    }
}

/// `pred[b]` lists the cells that have `b` as an image.
fn predecessors(successors: &Vec<Vec<usize>>) -> (pred: Vec<Vec<usize>>)
    requires
        is_graph(rows_view(successors@)),
    ensures
        pred.len() == successors.len(),
        is_graph(rows_view(pred@)),
        forall|a: int, b: int|
            0 <= a < successors.len() && 0 <= b < successors.len() ==> (
            #[trigger] pred@[b]@.contains(a as usize) <==> successors@[a]@.contains(b as usize)),
{
    let n = successors.len();
    let ghost g = rows_view(successors@);
    let mut pred: Vec<Vec<usize>> = Vec::new();
    let mut b: usize = 0;
    while b < n
        invariant
            b <= n,
            n == successors.len(),
            pred.len() == b,
            forall|x: int| 0 <= x < b ==> (#[trigger] pred@[x]).len() == 0,
        decreases n - b,
    {
        pred.push(Vec::new());
        b += 1;
    }
    let mut a: usize = 0;
    while a < n
        invariant
            a <= n,
            n == successors.len(),
            g == rows_view(successors@),
            is_graph(g),
            pred.len() == n,
            forall|x: int, y: int|
                0 <= x < n && 0 <= y < pred@[x].len() ==> #[trigger] pred@[x]@[y] < n,
            forall|x: int, y: int|
                0 <= x < n && 0 <= y < n ==> (#[trigger] pred@[y]@.contains(x as usize) <==> (x < a
                    && successors@[x]@.contains(y as usize))),
        decreases n - a,
    {
        let mut j: usize = 0;
        while j < successors[a].len()
            invariant
                a < n,
                j <= successors@[a as int].len(),
                n == successors.len(),
                g == rows_view(successors@),
                is_graph(g),
                pred.len() == n,
                forall|x: int, y: int|
                    0 <= x < n && 0 <= y < pred@[x].len() ==> #[trigger] pred@[x]@[y] < n,
                forall|x: int, y: int|
                    0 <= x < n && 0 <= y < n ==> (#[trigger] pred@[y]@.contains(x as usize) <==> (
                    x < a && successors@[x]@.contains(y as usize)) || (x == a
                        && successors@[a as int]@.take(j as int).contains(y as usize))),
            decreases successors@[a as int].len() - j,
        {
            let t = successors[a][j];
            assert(g[a as int][j as int] == t);
            let ghost old_pred = pred@;
            pred[t].push(a);
            proof {
                let tk = successors@[a as int]@.take(j + 1);
                assert(tk =~= successors@[a as int]@.take(j as int).push(t));
                assert forall|x: int, y: int| 0 <= x < n && 0 <= y < pred@[x].len() implies #[trigger] pred@[x]@[y] < n by {
                    if x != t {
                        assert(pred@[x] == old_pred[x]);
                    } else if y < old_pred[x].len() {
                        assert(pred@[x]@[y] == old_pred[x]@[y]);
                    }
                }
                assert forall|x: int, y: int|
                    0 <= x < n && 0 <= y < n implies (#[trigger] pred@[y]@.contains(x as usize) <==> (
                    x < a && successors@[x]@.contains(y as usize)) || (x == a && tk.contains(
                        y as usize,
                    ))) by {
                    if y != t {
                        assert(pred@[y] == old_pred[y]);
                        if x == a && tk.contains(y as usize) {
                            let q = choose|q: int| 0 <= q < tk.len() && tk[q] == y as usize;
                            if q == j {
                                assert(tk[q] == t);
                            } else {
                                assert(successors@[a as int]@.take(j as int)[q] == y as usize);
                            }
                        }
                    } else {
                        assert(pred@[y]@ == old_pred[y]@.push(a));
                        if pred@[y]@.contains(x as usize) && x != a {
                            let q = choose|q: int| 0 <= q < pred@[y].len() && pred@[y]@[q] == x as usize;
                            assert(old_pred[y]@[q] == x as usize);
                        }
                        if old_pred[y]@.contains(x as usize) {
                            let q = choose|q: int| 0 <= q < old_pred[y].len() && old_pred[y]@[q] == x as usize;
                            assert(pred@[y]@[q] == x as usize);
                        }
                        if x == a {
                            assert(pred@[y]@[old_pred[y].len() as int] == a);
                            assert(tk[j as int] == t);
                        }
                    }
                }
            }
            j += 1;
        }
        proof {
            assert(successors@[a as int]@.take(j as int) =~= successors@[a as int]@);
        }
        a += 1;
    }
    proof {
        assert forall|i: int, j: int| 0 <= i < rows_view(pred@).len() && 0 <= j < rows_view(pred@)[i].len()
            implies #[trigger] rows_view(pred@)[i][j] < rows_view(pred@).len() by {
            assert(rows_view(pred@)[i] == pred@[i]@);
        }
    }
    pred
}

/// Adds to `cur` the cells of `nbrs` not yet assigned.
fn take_unassigned(
    nbrs: &Vec<usize>,
    assigned: &mut Vec<bool>,
    cur: &mut Vec<usize>,
    Ghost(g): Ghost<Seq<Seq<usize>>>,
    Ghost(done): Ghost<Seq<Seq<usize>>>,
    Ghost(start): Ghost<int>,
    Ghost(v): Ghost<int>,
)
    requires
        old(assigned).len() == g.len(),
        forall|q: int| 0 <= q < nbrs.len() ==> #[trigger] nbrs@[q] < g.len(),
        forall|q: int| 0 <= q < nbrs.len() ==> linked(g, v, #[trigger] nbrs@[q] as int),
        connected(g, start, v),
        forall|x: int|
            0 <= x < g.len() ==> (#[trigger] old(assigned)@[x] <==> (in_some(done, x as usize)
                || old(cur)@.contains(x as usize))),
        forall|t: int| 0 <= t < old(cur).len() ==> #[trigger] old(cur)@[t] < g.len(),
        forall|t: int| 0 <= t < old(cur).len() ==> connected(g, start, #[trigger] old(cur)@[t] as int),
        forall|t: int| 0 <= t < old(cur).len() ==> !in_some(done, #[trigger] old(cur)@[t]),
        old(cur)@.no_duplicates(),
    ensures
        final(assigned).len() == g.len(),
        forall|q: int| 0 <= q < nbrs.len() ==> #[trigger] final(assigned)@[nbrs@[q] as int],
        forall|x: int|
            0 <= x < g.len() ==> (#[trigger] final(assigned)@[x] <==> (in_some(done, x as usize)
                || final(cur)@.contains(x as usize))),
        forall|x: int| 0 <= x < g.len() && #[trigger] old(assigned)@[x] ==> final(assigned)@[x],
        final(cur)@.len() >= old(cur)@.len(),
        forall|t: int| 0 <= t < old(cur).len() ==> #[trigger] final(cur)@[t] == old(cur)@[t],
        forall|t: int| 0 <= t < final(cur).len() ==> #[trigger] final(cur)@[t] < g.len(),
        forall|t: int|
            0 <= t < final(cur).len() ==> connected(g, start, #[trigger] final(cur)@[t] as int),
        forall|t: int| 0 <= t < final(cur).len() ==> !in_some(done, #[trigger] final(cur)@[t]),
        final(cur)@.no_duplicates(),
        count_false(final(assigned)@) + final(cur)@.len() == count_false(old(assigned)@) + old(
            cur,
        )@.len(),
{
    let ghost a0 = assigned@;
    let ghost c0 = cur@;
    let mut q: usize = 0;
    while q < nbrs.len()
        invariant
            q <= nbrs.len(),
            assigned.len() == g.len(),
            forall|q2: int| 0 <= q2 < nbrs.len() ==> #[trigger] nbrs@[q2] < g.len(),
            forall|q2: int| 0 <= q2 < nbrs.len() ==> linked(g, v, #[trigger] nbrs@[q2] as int),
            connected(g, start, v),
            forall|q2: int| 0 <= q2 < q ==> #[trigger] assigned@[nbrs@[q2] as int],
            forall|x: int|
                0 <= x < g.len() ==> (#[trigger] assigned@[x] <==> (in_some(done, x as usize)
                    || cur@.contains(x as usize))),
            forall|x: int| 0 <= x < g.len() && #[trigger] a0[x] ==> assigned@[x],
            cur@.len() >= c0.len(),
            forall|t: int| 0 <= t < c0.len() ==> #[trigger] cur@[t] == c0[t],
            forall|t: int| 0 <= t < cur.len() ==> #[trigger] cur@[t] < g.len(),
            forall|t: int| 0 <= t < cur.len() ==> connected(g, start, #[trigger] cur@[t] as int),
            forall|t: int| 0 <= t < cur.len() ==> !in_some(done, #[trigger] cur@[t]),
            cur@.no_duplicates(),
            count_false(assigned@) + cur@.len() == count_false(a0) + c0.len(),
        decreases nbrs.len() - q,
    {
        let y = nbrs[q];
        if !assigned[y] {
            let ghost oa = assigned@;
            let ghost oc = cur@;
            proof {
                lemma_count_false_set(oa, y as int);
                lemma_walk_extend(g, start, v, y as int);
                assert(!oc.contains(y));
                assert(!in_some(done, y));
            }
            assigned.set(y, true);
            cur.push(y);
            proof {
                assert(cur@[oc.len() as int] == y);
                assert forall|x: int| 0 <= x < g.len() implies (#[trigger] assigned@[x] <==> (
                in_some(done, x as usize) || cur@.contains(x as usize))) by {
                    if x != y as int {
                        assert(assigned@[x] == oa[x]);
                        if cur@.contains(x as usize) {
                            let t = choose|t: int| 0 <= t < cur.len() && cur@[t] == x as usize;
                            assert(oc[t] == x as usize);
                        }
                        if oc.contains(x as usize) {
                            let t = choose|t: int| 0 <= t < oc.len() && oc[t] == x as usize;
                            assert(cur@[t] == x as usize);
                        }
                    }
                }
                assert forall|a: int, b: int| 0 <= a < b < cur.len() implies cur@[a] != cur@[b] by {
                    if b == oc.len() {
                        assert(cur@[a] == oc[a]);
                        if oc[a] == y {
                            assert(oc.contains(y));
                        }
                    } else {
                        assert(cur@[a] == oc[a] && cur@[b] == oc[b]);
                    }
                }
                assert forall|t: int| 0 <= t < cur.len() implies connected(g, start, #[trigger] cur@[t] as int) by {
                    if t < oc.len() {
                        assert(cur@[t] == oc[t]);
                    }
                }
                assert forall|t: int| 0 <= t < cur.len() implies !in_some(done, #[trigger] cur@[t]) by {
                    if t < oc.len() {
                        assert(cur@[t] == oc[t]);
                    }
                }
                assert forall|t: int| 0 <= t < cur.len() implies #[trigger] cur@[t] < g.len() by {
                    if t < oc.len() {
                        assert(cur@[t] == oc[t]);
                    }
                }
            }
        }
        q += 1;
    }
}

/// The orbits of the cells: the classes of cells joined by chains of
/// links, each listed from its lowest-numbered cell, in order of that cell.
pub fn orbit_plan(successors: &Vec<Vec<usize>>) -> (orbits: Vec<Vec<usize>>)
    requires
        is_graph(rows_view(successors@)),
    ensures
        forall|k: int| 0 <= k < orbits.len() ==> (#[trigger] orbits@[k]).len() >= 1,
        forall|k: int, t: int|
            0 <= k < orbits.len() && 0 <= t < orbits@[k].len() ==> #[trigger] orbits@[k]@[t]
                < successors.len(),
        forall|k: int| 0 <= k < orbits.len() ==> (#[trigger] orbits@[k])@.no_duplicates(),
        forall|k1: int, k2: int, x: usize|
            #![trigger orbits@[k1]@.contains(x), orbits@[k2]@.contains(x)]
            0 <= k1 < k2 < orbits.len() ==> !(orbits@[k1]@.contains(x) && orbits@[k2]@.contains(x)),
        forall|x: int| 0 <= x < successors.len() ==> #[trigger] in_some(rows_view(orbits@), x as usize),
        forall|k: int, i: int, j: int|
            0 <= k < orbits.len() && 0 <= i < successors.len() && 0 <= j < successors.len() && (
            #[trigger] orbits@[k])@.contains(i as usize) && #[trigger] successors@[i]@.contains(
                j as usize,
            ) ==> orbits@[k]@.contains(j as usize),
        forall|k: int, m: int|
#![trigger orbits@[k]@.contains(m as usize)]
            0 <= k < orbits.len() && 0 <= m < successors.len() ==> (orbits@[k]@.contains(m as usize) <==> connected(
                rows_view(successors@),
                orbits@[k]@[0] as int,
                m,
            )),
{
    let n = successors.len();
    let ghost g = rows_view(successors@);
    let pred = predecessors(successors);
    let mut assigned: Vec<bool> = Vec::new();
    let mut z: usize = 0;
    while z < n
        invariant
            z <= n,
            assigned.len() == z,
            forall|x: int| 0 <= x < z ==> !#[trigger] assigned@[x],
        decreases n - z,
    {
        assigned.push(false);
        z += 1;
    }
    let mut orbits: Vec<Vec<usize>> = Vec::new();
    let mut i: usize = 0;
    while i < n
        invariant
            i <= n,
            n == successors.len(),
            g == rows_view(successors@),
            is_graph(g),
            pred.len() == n,
            is_graph(rows_view(pred@)),
            forall|a: int, b: int|
                0 <= a < n && 0 <= b < n ==> (#[trigger] pred@[b]@.contains(a as usize)
                    <==> successors@[a]@.contains(b as usize)),
            assigned.len() == n,
            forall|x: int| 0 <= x < n ==> (#[trigger] assigned@[x] <==> in_some(
                rows_view(orbits@),
                x as usize,
            )),
            forall|x: int| 0 <= x < i ==> #[trigger] assigned@[x],
            forall|k: int| 0 <= k < orbits.len() ==> (#[trigger] orbits@[k]).len() >= 1,
            forall|k: int, t: int|
                0 <= k < orbits.len() && 0 <= t < orbits@[k].len() ==> #[trigger] orbits@[k]@[t] < n,
            forall|k: int| 0 <= k < orbits.len() ==> (#[trigger] orbits@[k])@.no_duplicates(),
            forall|k1: int, k2: int, x: usize|
                #![trigger orbits@[k1]@.contains(x), orbits@[k2]@.contains(x)]
                0 <= k1 < k2 < orbits.len() ==> !(orbits@[k1]@.contains(x) && orbits@[k2]@.contains(x)),
            forall|k: int| 0 <= k < orbits.len() ==> link_closed(g, #[trigger] orbits@[k]@),
            forall|k: int, m: int|
#![trigger orbits@[k]@.contains(m as usize)]
                0 <= k < orbits.len() && 0 <= m < n && orbits@[k]@.contains(m as usize)
                    ==> connected(g, orbits@[k]@[0] as int, m),
        decreases n - i,
    {
        if !assigned[i] {
            let ghost done = rows_view(orbits@);
            let ghost a_before = assigned@;
            let mut cur: Vec<usize> = Vec::new();
            proof {
                lemma_count_false_set(assigned@, i as int);
                lemma_connected_self(g, i as int);
            }
            assigned.set(i, true);
            cur.push(i);
            proof {
                assert(cur@[0] == i);
                assert forall|x: int| 0 <= x < n implies (#[trigger] assigned@[x] <==> (in_some(
                    done,
                    x as usize,
                ) || cur@.contains(x as usize))) by {
                    if x != i {
                        assert(assigned@[x] == a_before[x]);
                        if cur@.contains(x as usize) {
                            assert(cur@[0] == x as usize);
                        }
                    }
                }
            }
            let mut head: usize = 0;
            while head < cur.len()
                invariant
                    n == successors.len(),
                    g == rows_view(successors@),
                    is_graph(g),
                    done == rows_view(orbits@),
                    i < n,
                    pred.len() == n,
                    is_graph(rows_view(pred@)),
                    forall|a: int, b: int|
                        0 <= a < n && 0 <= b < n ==> (#[trigger] pred@[b]@.contains(a as usize)
                            <==> successors@[a]@.contains(b as usize)),
                    assigned.len() == n,
                    head <= cur.len(),
                    cur.len() >= 1,
                    cur@[0] == i,
                    forall|x: int| 0 <= x < n ==> (#[trigger] assigned@[x] <==> (in_some(
                        done,
                        x as usize,
                    ) || cur@.contains(x as usize))),
                    forall|x: int| 0 <= x <= i ==> #[trigger] assigned@[x],
                    forall|t: int| 0 <= t < cur.len() ==> #[trigger] cur@[t] < n,
                    forall|t: int| 0 <= t < cur.len() ==> connected(g, i as int, #[trigger] cur@[t] as int),
                    forall|t: int| 0 <= t < cur.len() ==> !in_some(done, #[trigger] cur@[t]),
                    cur@.no_duplicates(),
                    forall|t: int, y: int|
                        0 <= t < head && 0 <= y < n && #[trigger] linked(g, cur@[t] as int, y)
                            ==> assigned@[y],
                    forall|k: int| 0 <= k < orbits.len() ==> link_closed(g, #[trigger] orbits@[k]@),
                decreases count_false(assigned@) + cur.len() - head,
            {
                let v = cur[head];
                let ghost a1 = assigned@;
                let ghost c1 = cur@;
                assert(forall|q: int| 0 <= q < successors@[v as int].len() ==> linked(g, v as int, #[trigger] successors@[v as int]@[q] as int)) by {
                    assert forall|q: int| 0 <= q < successors@[v as int].len() implies linked(g, v as int, #[trigger] successors@[v as int]@[q] as int) by {
                        assert(g[v as int] == successors@[v as int]@);
                        assert(g[v as int].contains(successors@[v as int]@[q]));
                        assert(g[v as int][q] < n);
                    }
                }
                take_unassigned(&successors[v], &mut assigned, &mut cur, Ghost(g), Ghost(done), Ghost(i as int), Ghost(v as int));
                let ghost a2 = assigned@;
                let ghost c2 = cur@;
                assert(forall|q: int| 0 <= q < pred@[v as int].len() ==> linked(g, v as int, #[trigger] pred@[v as int]@[q] as int)) by {
                    assert forall|q: int| 0 <= q < pred@[v as int].len() implies linked(g, v as int, #[trigger] pred@[v as int]@[q] as int) by {
                        let a = pred@[v as int]@[q] as int;
                        assert(rows_view(pred@)[v as int] == pred@[v as int]@);
                        assert(rows_view(pred@)[v as int][q] < n);
                        assert(pred@[v as int]@.contains(a as usize));
                        assert(successors@[a]@.contains((v as int) as usize));
                        assert(g[a] == successors@[a]@);
                    }
                }
                take_unassigned(&pred[v], &mut assigned, &mut cur, Ghost(g), Ghost(done), Ghost(i as int), Ghost(v as int));
                proof {
                    assert forall|t: int, y: int|
                        0 <= t < head + 1 && 0 <= y < n && #[trigger] linked(g, cur@[t] as int, y)
                            implies assigned@[y] by {
                        assert(cur@[t] == c2[t] && c2[t] == c1[t]);
                        if t < head {
                            assert(a1[y]);
                            assert(a2[y]);
                        } else {
                            assert(cur@[t] == v);
                            if g[v as int].contains(y as usize) {
                                let q = choose|q: int| 0 <= q < g[v as int].len() && g[v as int][q] == y as usize;
                                assert(successors@[v as int]@[q] == y as usize);
                                assert(a2[successors@[v as int]@[q] as int]);
                            } else {
                                assert(g[y].contains(v));
                                assert(successors@[y]@.contains(v));
                                assert(pred@[v as int]@.contains(y as usize));
                                let q = choose|q: int| 0 <= q < pred@[v as int].len() && pred@[v as int]@[q] == y as usize;
                                assert(assigned@[pred@[v as int]@[q] as int]);
                            }
                        }
                    }
                    assert forall|x: int| 0 <= x <= i implies #[trigger] assigned@[x] by {
                        assert(a1[x]);
                        assert(a2[x]);
                    }
                }
                head += 1;
            }
            proof {
                // The finished orbit is closed under links.
                assert forall|x: int, y: int|
                    0 <= x < g.len() && 0 <= y < g.len() && cur@.contains(x as usize)
                        && #[trigger] linked(g, x, y) implies cur@.contains(y as usize) by {
                    let t = choose|t: int| 0 <= t < cur.len() && cur@[t] == x as usize;
                    assert(assigned@[y]);
                    if in_some(done, y as usize) {
                        let k = choose|k: int| 0 <= k < done.len() && (#[trigger] done[k]).contains(y as usize);
                        assert(done[k] == orbits@[k]@);
                        assert(link_closed(g, orbits@[k]@));
                        assert(linked(g, y, x));
                        assert(orbits@[k]@.contains(x as usize));
                        assert(in_some(done, cur@[t]));
                    }
                }
            }
            let ghost c_final = cur@;
            orbits.push(cur);
            proof {
                let o2 = rows_view(orbits@);
                assert(orbits@[orbits.len() - 1]@ == c_final);
                assert(o2 =~= done.push(c_final));
                assert forall|x: int| 0 <= x < n implies (#[trigger] assigned@[x] <==> in_some(
                    o2,
                    x as usize,
                )) by {
                    if in_some(done, x as usize) {
                        let k = choose|k: int| 0 <= k < done.len() && (#[trigger] done[k]).contains(x as usize);
                        assert(o2[k] == done[k]);
                    }
                    if c_final.contains(x as usize) {
                        assert(o2[done.len() as int] == c_final);
                    }
                    if in_some(o2, x as usize) {
                        let k = choose|k: int| 0 <= k < o2.len() && (#[trigger] o2[k]).contains(x as usize);
                        if k < done.len() {
                            assert(o2[k] == done[k]);
                        }
                    }
                }
                assert forall|k1: int, k2: int, x: usize|
                    #![trigger orbits@[k1]@.contains(x), orbits@[k2]@.contains(x)]
                    0 <= k1 < k2 < orbits.len() implies !(orbits@[k1]@.contains(x) && orbits@[k2]@.contains(x)) by {
                    if k2 == orbits.len() - 1 && orbits@[k1]@.contains(x) && orbits@[k2]@.contains(x) {
                        assert(done[k1] == orbits@[k1]@);
                        assert(in_some(done, x));
                        let t = choose|t: int| 0 <= t < c_final.len() && c_final[t] == x;
                        assert(!in_some(done, c_final[t]));
                    }
                }
                assert forall|k: int, t: int|
                    0 <= k < orbits.len() && 0 <= t < orbits@[k].len() implies #[trigger] orbits@[k]@[t] < n by {
                    if k == orbits.len() - 1 {
                        assert(orbits@[k]@[t] == c_final[t]);
                    }
                }
                assert forall|k: int, m: int|
#![trigger orbits@[k]@.contains(m as usize)]
                    0 <= k < orbits.len() && 0 <= m < n && orbits@[k]@.contains(m as usize)
                        implies connected(g, orbits@[k]@[0] as int, m) by {
                    if k == orbits.len() - 1 {
                        let t = choose|t: int| 0 <= t < c_final.len() && c_final[t] == m as usize;
                        assert(connected(g, i as int, c_final[t] as int));
                    }
                }
            }
        }
        i += 1;
    }
    proof {
        assert forall|x: int| 0 <= x < successors.len() implies #[trigger] in_some(rows_view(orbits@), x as usize) by {
            assert(assigned@[x]);
        }
        assert forall|k: int, ii: int, j: int|
            0 <= k < orbits.len() && 0 <= ii < successors.len() && 0 <= j < successors.len() && (
            #[trigger] orbits@[k])@.contains(ii as usize) && #[trigger] successors@[ii]@.contains(
                j as usize,
            ) implies orbits@[k]@.contains(j as usize) by {
            assert(g[ii] == successors@[ii]@);
            assert(linked(g, ii, j));
            assert(link_closed(g, orbits@[k]@));
        }
        assert forall|k: int, m: int|
#![trigger orbits@[k]@.contains(m as usize)]
            0 <= k < orbits.len() && 0 <= m < successors.len() implies (orbits@[k]@.contains(m as usize) <==> connected(
                rows_view(successors@),
                orbits@[k]@[0] as int,
                m,
            )) by {
            if connected(g, orbits@[k]@[0] as int, m) {
                let w = choose|w: Seq<int>| #[trigger] is_walk(g, w) && w[0] == orbits@[k]@[0] as int && w.last() == m;
                assert(orbits@[k]@.contains(orbits@[k]@[0]));
                assert(w[0] as usize == orbits@[k]@[0]);
                lemma_walk_stays(g, orbits@[k]@, w);
            }
        }
    }
    orbits
}

} // verus!
