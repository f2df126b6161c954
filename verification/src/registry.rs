//! Room-registry bookkeeping: how many rooms have each primary group, which
//! group is the most common, and which room scores highest or lowest.
//!
//! Rooms are handed over in the order in which the registry visits them.
//! A room's symmetry score is handed over as the IEEE-754 bit pattern of
//! the (never negative, never NaN) `f64` score, whose order as an unsigned
//! integer is the numeric order.

use vstd::prelude::*;
use crate::groups::SymmetryGroup;

verus! {

/// How many rooms have `g` as their primary group.
pub open spec fn count_of(primaries: Seq<Option<SymmetryGroup>>, g: SymmetryGroup) -> nat
    decreases primaries.len(),
{
    if primaries.len() == 0 {
        0
    } else {
        count_of(primaries.drop_last(), g) + if primaries.last() == Some(g) {
            1nat
        } else {
            0nat
        }
    }
}

/// How many rooms have a primary group at all.
pub open spec fn count_present(primaries: Seq<Option<SymmetryGroup>>) -> nat
    decreases primaries.len(),
{
    if primaries.len() == 0 {
        0
    } else {
        count_present(primaries.drop_last()) + if primaries.last() is Some {
            1nat
        } else {
            0nat
        }
    }
}

/// The sum of the counts of a distribution.
pub open spec fn total_count(dist: Seq<(SymmetryGroup, usize)>) -> int
    decreases dist.len(),
{
    if dist.len() == 0 {
        0
    } else {
        total_count(dist.drop_last()) + dist.last().1
    }
}

/// Some entry of the distribution is for group `g`.
pub open spec fn has_entry(dist: Seq<(SymmetryGroup, usize)>, g: SymmetryGroup) -> bool {
    exists|j: int| 0 <= j < dist.len() && (#[trigger] dist[j]).0 == g
}

/// Entry `i` has the largest count, and every later entry a smaller one.
pub open spec fn is_last_max_count(dist: Seq<(SymmetryGroup, usize)>, i: int) -> bool {
    &&& 0 <= i < dist.len()
    &&& forall|k: int| 0 <= k < dist.len() ==> (#[trigger] dist[k]).1 <= dist[i].1
    &&& forall|k: int| i < k < dist.len() ==> (#[trigger] dist[k]).1 < dist[i].1
}

/// Key `i` is the largest, and every later key is smaller.
pub open spec fn is_last_max(keys: Seq<u64>, i: int) -> bool {
    &&& 0 <= i < keys.len()
    &&& forall|k: int| 0 <= k < keys.len() ==> #[trigger] keys[k] <= keys[i]
    &&& forall|k: int| i < k < keys.len() ==> #[trigger] keys[k] < keys[i]
}

/// Key `i` is the smallest, and every earlier key is larger.
pub open spec fn is_first_min(keys: Seq<u64>, i: int) -> bool {
    &&& 0 <= i < keys.len()
    &&& forall|k: int| 0 <= k < keys.len() ==> keys[i] <= #[trigger] keys[k]
    &&& forall|k: int| 0 <= k < i ==> keys[i] < #[trigger] keys[k]
}

proof fn lemma_count_of_bound(primaries: Seq<Option<SymmetryGroup>>, g: SymmetryGroup)
    ensures
        count_of(primaries, g) <= primaries.len(),
    decreases primaries.len(),
{
    if primaries.len() > 0 {
        lemma_count_of_bound(primaries.drop_last(), g);
    }
}

proof fn lemma_total_count_update(dist: Seq<(SymmetryGroup, usize)>, j: int, e: (SymmetryGroup, usize))
    requires
        0 <= j < dist.len(),
    ensures
        total_count(dist.update(j, e)) == total_count(dist) - dist[j].1 + e.1,
    decreases dist.len(),
{
    let u = dist.update(j, e);
    if j == dist.len() - 1 {
        assert(u.drop_last() =~= dist.drop_last());
    } else {
        assert(u.drop_last() =~= dist.drop_last().update(j, e));
        lemma_total_count_update(dist.drop_last(), j, e);
    }
}

/// The number of rooms per primary group: one entry for each group that is
/// some room's primary group, with the number of such rooms; rooms with no
/// primary group are not counted.
pub fn group_distribution(primaries: &Vec<Option<SymmetryGroup>>) -> (dist: Vec<
    (SymmetryGroup, usize),
>)
    ensures
        forall|j1: int, j2: int|
            0 <= j1 < j2 < dist.len() ==> (#[trigger] dist@[j1]).0 != (#[trigger] dist@[j2]).0,
        forall|j: int|
            0 <= j < dist.len() ==> (#[trigger] dist@[j]).1 == count_of(primaries@, dist@[j].0)
                && dist@[j].1 >= 1,
        forall|i: int|
            0 <= i < primaries.len() && (#[trigger] primaries@[i]) is Some ==> has_entry(
                dist@,
                primaries@[i]->0,
            ),
        total_count(dist@) == count_present(primaries@),
{
    let mut dist: Vec<(SymmetryGroup, usize)> = Vec::new();
    let mut i: usize = 0;
    while i < primaries.len()
        invariant
            i <= primaries.len(),
            forall|j1: int, j2: int|
                0 <= j1 < j2 < dist.len() ==> (#[trigger] dist@[j1]).0 != (#[trigger] dist@[j2]).0,
            forall|j: int|
                0 <= j < dist.len() ==> (#[trigger] dist@[j]).1 == count_of(
                    primaries@.take(i as int),
                    dist@[j].0,
                ) && dist@[j].1 >= 1,
            forall|x: int|
                0 <= x < i && (#[trigger] primaries@[x]) is Some ==> has_entry(
                    dist@,
                    primaries@[x]->0,
                ),
            forall|g: SymmetryGroup|
                count_of(primaries@.take(i as int), g) > 0 ==> #[trigger] has_entry(dist@, g),
            total_count(dist@) == count_present(primaries@.take(i as int)),
        decreases primaries.len() - i,
    {
        let ghost pre = primaries@.take(i as int);
        let ghost post = primaries@.take(i + 1);
        assert(post.drop_last() =~= pre);
        assert(post.last() == primaries@[i as int]);
        let ghost old_dist = dist@;
        match primaries[i] {
            None => {
                assert forall|g: SymmetryGroup| count_of(post, g) == count_of(pre, g) by {}
            },
            Some(g) => {
                let mut j: usize = 0;
                while j < dist.len() && dist[j].0 != g
                    invariant
                        j <= dist.len(),
                        forall|t: int| 0 <= t < j ==> (#[trigger] dist@[t]).0 != g,
                    decreases dist.len() - j,
                {
                    j += 1;
                }
                assert forall|h: SymmetryGroup| h != g implies count_of(post, h) == count_of(
                    pre,
                    h,
                ) by {}
                assert(count_of(post, g) == count_of(pre, g) + 1);
                if j < dist.len() {
                    let c = dist[j].1;
                    proof {
                        lemma_count_of_bound(pre, g);
                    }
                    dist.set(j, (g, c + 1));
                    proof {
                        lemma_total_count_update(old_dist, j as int, (g, (c + 1) as usize));
                        assert forall|h: SymmetryGroup|
                            count_of(post, h) > 0 implies #[trigger] has_entry(dist@, h) by {
                            if h == g {
                                assert(dist@[j as int].0 == g);
                            } else {
                                assert(has_entry(old_dist, h));
                                let t = choose|t: int|
                                    0 <= t < old_dist.len() && (#[trigger] old_dist[t]).0 == h;
                                assert(dist@[t].0 == h);
                            }
                        }
                    }
                } else {
                    dist.push((g, 1));
                    proof {
                        assert(dist@.drop_last() =~= old_dist);
                        assert(count_of(pre, g) == 0) by {
                            if count_of(pre, g) > 0 {
                                assert(has_entry(old_dist, g));
                                let t = choose|t: int|
                                    0 <= t < old_dist.len() && (#[trigger] old_dist[t]).0 == g;
                            }
                        }
                        assert forall|h: SymmetryGroup|
                            count_of(post, h) > 0 implies #[trigger] has_entry(dist@, h) by {
                            if h == g {
                                assert(dist@[old_dist.len() as int].0 == g);
                            } else {
                                assert(has_entry(old_dist, h));
                                let t = choose|t: int|
                                    0 <= t < old_dist.len() && (#[trigger] old_dist[t]).0 == h;
                                assert(dist@[t].0 == h);
                            }
                        }
                    }
                }
            },
        }
        proof {
            assert forall|x: int|
                0 <= x < i + 1 && (#[trigger] primaries@[x]) is Some implies has_entry(
                dist@,
                primaries@[x]->0,
            ) by {
                let h = primaries@[x]->0;
                if x < i {
                    assert(has_entry(old_dist, h));
                }
                lemma_count_positive(post, x);
            }
        }
        i += 1;
    }
    assert(primaries@.take(i as int) =~= primaries@);
    dist
}

proof fn lemma_count_positive(primaries: Seq<Option<SymmetryGroup>>, x: int)
    requires
        0 <= x < primaries.len(),
        primaries[x] is Some,
    ensures
        count_of(primaries, primaries[x]->0) > 0,
    decreases primaries.len(),
{
    if x < primaries.len() - 1 {
        assert(primaries.drop_last()[x] == primaries[x]);
        lemma_count_positive(primaries.drop_last(), x);
    }
}

/// The group with the largest count, the last such entry on a tie; `None`
/// for an empty distribution.
pub fn most_common_group(dist: &Vec<(SymmetryGroup, usize)>) -> (r: Option<SymmetryGroup>)
    ensures
        dist.len() == 0 ==> r is None,
        dist.len() > 0 ==> exists|i: int| is_last_max_count(dist@, i) && r == Some(dist@[i].0),
{
    if dist.len() == 0 {
        return None;
    }
    let mut best: usize = 0;
    let mut k: usize = 1;
    while k < dist.len()
        invariant
            1 <= k <= dist.len(),
            best < k,
            forall|t: int| 0 <= t < k ==> (#[trigger] dist@[t]).1 <= dist@[best as int].1,
            forall|t: int| best < t < k ==> (#[trigger] dist@[t]).1 < dist@[best as int].1,
        decreases dist.len() - k,
    {
        if dist[k].1 >= dist[best].1 {
            best = k;
        }
        k += 1;
    }
    assert(is_last_max_count(dist@, best as int));
    Some(dist[best].0)
}

/// The index of the largest key, the last one on a tie; `None` when there
/// are no keys.
pub fn last_max_index(keys: &Vec<u64>) -> (r: Option<usize>)
    ensures
        r is None <==> keys.len() == 0,
        r matches Some(i) ==> is_last_max(keys@, i as int),
{
    if keys.len() == 0 {
        return None;
    }
    let mut best: usize = 0;
    let mut k: usize = 1;
    while k < keys.len()
        invariant
            1 <= k <= keys.len(),
            best < k,
            forall|t: int| 0 <= t < k ==> #[trigger] keys@[t] <= keys@[best as int],
            forall|t: int| best < t < k ==> #[trigger] keys@[t] < keys@[best as int],
        decreases keys.len() - k,
    {
        if keys[k] >= keys[best] {
            best = k;
        }
        k += 1;
    }
    Some(best)
}

/// The index of the smallest key, the first one on a tie; `None` when there
/// are no keys.
pub fn first_min_index(keys: &Vec<u64>) -> (r: Option<usize>)
    ensures
        r is None <==> keys.len() == 0,
        r matches Some(i) ==> is_first_min(keys@, i as int),
{
    if keys.len() == 0 {
        return None;
    }
    let mut best: usize = 0;
    let mut k: usize = 1;
    while k < keys.len()
        invariant
            1 <= k <= keys.len(),
            best < k,
            forall|t: int| 0 <= t < k ==> keys@[best as int] <= #[trigger] keys@[t],
            forall|t: int| 0 <= t < best ==> keys@[best as int] < #[trigger] keys@[t],
        decreases keys.len() - k,
    {
        if keys[k] < keys[best] {
            best = k;
        }
        k += 1;
    }
    Some(best)
}

} // verus!
