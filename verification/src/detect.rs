//! Symmetry detection: which of the tested groups a field obeys, and in
//! which order they are reported.
//!
//! The error of the field under each candidate group is measured by the
//! caller. An error is handed over as the IEEE-754 bit pattern of the
//! (never negative) `f64` error: for such values the order of the bit
//! patterns as unsigned integers is the numeric order, and a NaN pattern
//! lies above every number.

use vstd::prelude::*;
use crate::groups::SymmetryGroup;

verus! {

/// The detection threshold, one half, as the bit pattern of an `f64`:
/// a group is detected when its error lies strictly below it.
pub const DETECTION_THRESHOLD: u64 = 0x3FE0_0000_0000_0000;

/// The number of groups that detection tests.
pub const DETECTION_CANDIDATES: usize = 7;

/// The groups that detection tests, in the order they are tested: the
/// turns of order 2, 3, 4 and 6, the mirror, the glide, and the identity.
pub open spec fn spec_detection_candidates() -> Seq<SymmetryGroup> {
    seq![
        SymmetryGroup::Rotation(2),
        SymmetryGroup::Rotation(3),
        SymmetryGroup::Rotation(4),
        SymmetryGroup::Rotation(6),
        SymmetryGroup::Reflection,
        SymmetryGroup::GlideReflection,
        SymmetryGroup::Identity,
    ]
}

/// The tested groups are distinct; the first four are the turn groups of
/// the lattice orders 2, 3, 4 and 6, in increasing order; the identity,
/// which every field obeys, is tested last.
pub proof fn lemma_detection_candidates_shape()
    ensures
        spec_detection_candidates().len() == DETECTION_CANDIDATES,
        spec_detection_candidates().no_duplicates(),
        forall|i: int, j: int|
            0 <= i < j < 4 ==> (#[trigger] spec_detection_candidates()[i]) is Rotation && (
            #[trigger] spec_detection_candidates()[j]) is Rotation
                && spec_detection_candidates()[i]->Rotation_0 < spec_detection_candidates()[j]->Rotation_0,
        forall|i: int|
            0 <= i < 4 ==> {
                let n = (#[trigger] spec_detection_candidates()[i])->Rotation_0 as int;
                n == 2 || n == 3 || n == 4 || n == 6
            },
        spec_detection_candidates()[4] == SymmetryGroup::Reflection,
        spec_detection_candidates()[5] == SymmetryGroup::GlideReflection,
        spec_detection_candidates()[6] == SymmetryGroup::Identity,
{
    let c = spec_detection_candidates();
    assert forall|i: int| 0 <= i < 4 implies {
        let n = (#[trigger] c[i])->Rotation_0 as int;
        n == 2 || n == 3 || n == 4 || n == 6
    } by {
        assert(i == 0 || i == 1 || i == 2 || i == 3);
    }
}

/// The position of a group among the detection candidates, or -1.
pub open spec fn candidate_index(g: SymmetryGroup) -> int {
    match g {
        SymmetryGroup::Rotation(n) => if n == 2 {
            0
        } else if n == 3 {
            1
        } else if n == 4 {
            2
        } else if n == 6 {
            3
        } else {
            -1
        },
        SymmetryGroup::Reflection => 4,
        SymmetryGroup::GlideReflection => 5,
        SymmetryGroup::Identity => 6,
        _ => -1,
    }
}

/// The candidate at index `i` has an error below the threshold.
pub open spec fn passes(errors: Seq<u64>, i: int) -> bool {
    errors[i] < DETECTION_THRESHOLD
}

/// Candidate `a` comes before candidate `b`: a smaller error, or the same
/// error and tested earlier.
pub open spec fn precedes(errors: Seq<u64>, a: int, b: int) -> bool {
    errors[a] < errors[b] || (errors[a] == errors[b] && a < b)
}

/// `order` lists exactly the passing candidates, by ascending error, ties
/// in the order of testing.
pub open spec fn is_detection_order(errors: Seq<u64>, order: Seq<usize>) -> bool {
    &&& forall|j: int|
        0 <= j < order.len() ==> #[trigger] order[j] < errors.len() && passes(
            errors,
            order[j] as int,
        )
    &&& forall|i: int| 0 <= i < errors.len() && passes(errors, i) ==> order.contains(i as usize)
    &&& forall|j1: int, j2: int|
        0 <= j1 < j2 < order.len() ==> precedes(
            errors,
            #[trigger] order[j1] as int,
            #[trigger] order[j2] as int,
        )
}

proof fn lemma_orders_agree_upto(errors: Seq<u64>, a: Seq<usize>, b: Seq<usize>, k: nat)
    requires
        is_detection_order(errors, a),
        is_detection_order(errors, b),
    ensures
        (k <= a.len()) == (k <= b.len()),
        forall|m: int| 0 <= m < k && m < a.len() ==> a[m] == b[m],
    decreases k,
{
    if k > 0 {
        let p = (k - 1) as nat;
        lemma_orders_agree_upto(errors, a, b, p);
        if p < a.len() {
            // a[p] is a passing candidate, so b lists it somewhere, at t >= p.
            let x = a[p as int];
            assert(passes(errors, x as int));
            assert(b.contains(x));
            let t = choose|t: int| 0 <= t < b.len() && b[t] == x;
            if t < p {
                assert(a[t] == b[t]);
                assert(precedes(errors, a[t] as int, a[p as int] as int));
            }
            if t > p {
                let y = b[p as int];
                assert(precedes(errors, b[p as int] as int, b[t] as int));
                assert(passes(errors, y as int));
                assert(a.contains(y));
                let s = choose|s: int| 0 <= s < a.len() && a[s] == y;
                if s < p {
                    assert(a[s] == b[s]);
                    assert(precedes(errors, b[s] as int, b[p as int] as int));
                } else if s > p {
                    assert(precedes(errors, a[p as int] as int, a[s] as int));
                }
            }
            assert(t == p);
        } else {
            // a is exhausted; b cannot list another candidate.
            if p < b.len() {
                let y = b[p as int];
                assert(passes(errors, y as int));
                assert(a.contains(y));
                let s = choose|s: int| 0 <= s < a.len() && a[s] == y;
                assert(a[s] == b[s]);
                assert(precedes(errors, b[s] as int, b[p as int] as int));
            }
        }
    }
}

/// Exactly one list of candidates meets the detection order: the contract
/// of `detection_order` fixes its result.
pub proof fn lemma_detection_order_unique(errors: Seq<u64>, a: Seq<usize>, b: Seq<usize>)
    requires
        is_detection_order(errors, a),
        is_detection_order(errors, b),
    ensures
        a == b,
{
    lemma_orders_agree_upto(errors, a, b, a.len());
    lemma_orders_agree_upto(errors, a, b, a.len() + 1);
    assert(a =~= b);
}

/// The groups that detection tests, in the order they are tested.
pub fn detection_candidates() -> (groups: Vec<SymmetryGroup>)
    ensures
        groups@ == spec_detection_candidates(),
{
    let groups = vec![
        SymmetryGroup::Rotation(2),
        SymmetryGroup::Rotation(3),
        SymmetryGroup::Rotation(4),
        SymmetryGroup::Rotation(6),
        SymmetryGroup::Reflection,
        SymmetryGroup::GlideReflection,
        SymmetryGroup::Identity,
    ];
    assert(groups@ =~= spec_detection_candidates());
    groups
}

/// The indices of the candidates whose error is below the threshold,
/// ordered by ascending error; candidates with equal errors keep the order
/// in which they were tested.
pub fn detection_order(errors: &Vec<u64>) -> (order: Vec<usize>)
    ensures
        is_detection_order(errors@, order@),
{
    let mut order: Vec<usize> = Vec::new();
    let mut i: usize = 0;
    while i < errors.len()
        invariant
            i <= errors.len(),
            forall|j: int|
                0 <= j < order.len() ==> #[trigger] order@[j] < i && passes(
                    errors@,
                    order@[j] as int,
                ),
            forall|x: int| 0 <= x < i && passes(errors@, x) ==> order@.contains(x as usize),
            forall|j1: int, j2: int|
                0 <= j1 < j2 < order.len() ==> precedes(
                    errors@,
                    #[trigger] order@[j1] as int,
                    #[trigger] order@[j2] as int,
                ),
        decreases errors.len() - i,
    {
        if errors[i] < DETECTION_THRESHOLD {
            let mut q: usize = 0;
            while q < order.len() && errors[order[q]] <= errors[i]
                invariant
                    q <= order.len(),
                    i < errors.len(),
                    forall|j: int| 0 <= j < order.len() ==> #[trigger] order@[j] < i,
                    forall|t: int|
                        0 <= t < q ==> precedes(errors@, #[trigger] order@[t] as int, i as int),
                decreases order.len() - q,
            {
                q += 1;
            }
            let ghost old_order = order@;
            order.insert(q, i);
            proof {
                old_order.insert_ensures(q as int, i);
                assert forall|j: int|
                    0 <= j < order.len() implies #[trigger] order@[j] < i + 1 && passes(
                        errors@,
                        order@[j] as int,
                    ) by {
                    if j < q {
                        assert(order@[j] == old_order[j]);
                    } else if j > q {
                        assert(order@[j] == old_order[j - 1]);
                    }
                }
                assert forall|x: int|
                    0 <= x < i + 1 && passes(errors@, x) implies order@.contains(x as usize) by {
                    if x == i {
                        assert(order@[q as int] == i);
                    } else {
                        assert(old_order.contains(x as usize));
                        let t = choose|t: int| 0 <= t < old_order.len() && old_order[t] == x;
                        if t < q {
                            assert(order@[t] == x);
                        } else {
                            assert(order@[t + 1] == x);
                        }
                    }
                }
                assert forall|j1: int, j2: int|
                    0 <= j1 < j2 < order.len() implies precedes(
                        errors@,
                        #[trigger] order@[j1] as int,
                        #[trigger] order@[j2] as int,
                    ) by {
                    if q < old_order.len() {
                        assert(!precedes(errors@, old_order[q as int] as int, i as int));
                    }
                    if j2 < q {
                        assert(order@[j1] == old_order[j1]);
                        assert(order@[j2] == old_order[j2]);
                    } else if j2 == q {
                        assert(order@[j1] == old_order[j1]);
                    } else if j1 < q {
                        assert(order@[j1] == old_order[j1]);
                        assert(order@[j2] == old_order[j2 - 1]);
                        assert(precedes(errors@, old_order[j1] as int, old_order[j2 - 1] as int));
                    } else if j1 == q {
                        assert(order@[j2] == old_order[j2 - 1]);
                        if j2 - 1 > q {
                            assert(precedes(
                                errors@,
                                old_order[q as int] as int,
                                old_order[j2 - 1] as int,
                            ));
                        }
                    } else {
                        assert(order@[j1] == old_order[j1 - 1]);
                        assert(order@[j2] == old_order[j2 - 1]);
                        assert(precedes(
                            errors@,
                            old_order[j1 - 1] as int,
                            old_order[j2 - 1] as int,
                        ));
                    }
                }
            }
        }
        i += 1;
    }
    order
}

/// The number of candidates that have operations and so have an error to
/// measure: all but the identity, which is last.
pub const MEASURED_CANDIDATES: usize = 6;

/// The errors of all candidates: the measured ones, then zero for the
/// identity, which has no operation that a field could fail.
pub open spec fn full_errors(measured: Seq<u64>) -> Seq<u64> {
    measured.push(0u64)
}

/// The groups a field is detected to obey, given its error under each
/// detection candidate that has operations (the first six of
/// `detection_candidates`; the identity's error is zero): those whose error
/// lies below the threshold, by ascending error, ties kept in the order of
/// testing. The identity is always among them, so the first group reported
/// has error zero.
pub fn detect_from_errors(measured: &Vec<u64>) -> (groups: Vec<SymmetryGroup>)
    requires
        measured.len() == MEASURED_CANDIDATES,
    ensures
        forall|j: int|
            0 <= j < groups.len() ==> 0 <= candidate_index(#[trigger] groups@[j]) && passes(
                full_errors(measured@),
                candidate_index(groups@[j]),
            ),
        forall|i: int|
            0 <= i < DETECTION_CANDIDATES && passes(full_errors(measured@), i) ==> groups@.contains(
                spec_detection_candidates()[i],
            ),
        forall|j1: int, j2: int|
            0 <= j1 < j2 < groups.len() ==> precedes(
                full_errors(measured@),
                candidate_index(#[trigger] groups@[j1]),
                candidate_index(#[trigger] groups@[j2]),
            ),
        groups@.contains(SymmetryGroup::Identity),
        groups.len() >= 1,
        full_errors(measured@)[candidate_index(groups@[0])] == 0,
{
    let mut errors: Vec<u64> = Vec::new();
    let mut m: usize = 0;
    while m < measured.len()
        invariant
            m <= measured.len(),
            errors@ == measured@.take(m as int),
        decreases measured.len() - m,
    {
        errors.push(measured[m]);
        assert(measured@.take(m + 1) =~= measured@.take(m as int).push(measured@[m as int]));
        m += 1;
    }
    errors.push(0u64);
    assert(measured@.take(m as int) =~= measured@);
    assert(errors@ == full_errors(measured@));
    let candidates = detection_candidates();
    let order = detection_order(&errors);
    let mut groups: Vec<SymmetryGroup> = Vec::new();
    let mut j: usize = 0;
    while j < order.len()
        invariant
            j <= order.len(),
            candidates@ == spec_detection_candidates(),
            errors.len() == DETECTION_CANDIDATES,
            groups.len() == j,
            forall|t: int|
                0 <= t < order.len() ==> #[trigger] order@[t] < errors.len() && passes(
                    errors@,
                    order@[t] as int,
                ),
            forall|t: int|
                0 <= t < j ==> #[trigger] groups@[t] == spec_detection_candidates()[order@[t] as int],
        decreases order.len() - j,
    {
        groups.push(candidates[order[j]]);
        j += 1;
    }
    assert forall|t: int|
        0 <= t < DETECTION_CANDIDATES implies candidate_index(
        #[trigger] spec_detection_candidates()[t],
    ) == t by {}
    assert forall|i: int|
        0 <= i < DETECTION_CANDIDATES && passes(errors@, i) implies groups@.contains(
        spec_detection_candidates()[i],
    ) by {
        assert(order@.contains(i as usize));
        let t = choose|t: int| 0 <= t < order.len() && order@[t] == i as usize;
        assert(groups@[t] == spec_detection_candidates()[i]);
    }
    assert forall|j1: int, j2: int| 0 <= j1 < j2 < groups.len() implies precedes(
        errors@,
        candidate_index(#[trigger] groups@[j1]),
        candidate_index(#[trigger] groups@[j2]),
    ) by {
        assert(candidate_index(groups@[j1]) == order@[j1] as int);
        assert(candidate_index(groups@[j2]) == order@[j2] as int);
    }
    assert(passes(errors@, 6));
    assert(spec_detection_candidates()[6] == SymmetryGroup::Identity);
    assert(groups@.contains(SymmetryGroup::Identity));
    proof {
        let t6 = choose|t: int| 0 <= t < groups.len() && groups@[t] == SymmetryGroup::Identity;
        assert(candidate_index(groups@[0]) == order@[0] as int);
        if t6 > 0 {
            assert(precedes(errors@, candidate_index(groups@[0]), candidate_index(groups@[t6])));
        }
    }
    groups
}

} // verus!
