//! Partitioning a candidate set against a directed segment: the outside
//! set and the farthest outside point.

use vstd::prelude::*;

use crate::geometry::Point;
use crate::geometry::compute_dist;
use crate::geometry::dist;

verus! {

/// The candidates of `cand` that lie strictly to the left of the directed
/// segment from `input[a]` to `input[b]`, in their original order.
pub open spec fn outside_set(input: Seq<Point>, cand: Seq<usize>, a: usize, b: usize) -> Seq<
    usize,
>
    decreases cand.len(),
{
    if cand.len() == 0 {
        Seq::empty()
    } else {
        let rest = outside_set(input, cand.drop_last(), a, b);
        if dist(input, cand.last() as int, a as int, b as int) > 0 {
            rest.push(cand.last())
        } else {
            rest
        }
    }
}

/// The running maximum the partition scan tracks: the greatest side value
/// seen among `cand`, never below zero.
pub open spec fn best_dist(input: Seq<Point>, cand: Seq<usize>, a: usize, b: usize) -> int
    decreases cand.len(),
{
    if cand.len() == 0 {
        0
    } else {
        let rest = best_dist(input, cand.drop_last(), a, b);
        let d = dist(input, cand.last() as int, a as int, b as int);
        if d > rest {
            d
        } else {
            rest
        }
    }
}

/// The first candidate attaining the strictly positive maximum side value,
/// if any candidate lies strictly outside the segment.  A later candidate
/// only takes over with a strictly greater side value, so ties keep the
/// earlier one.
pub open spec fn farthest(input: Seq<Point>, cand: Seq<usize>, a: usize, b: usize) -> Option<
    usize,
>
    decreases cand.len(),
{
    if cand.len() == 0 {
        None
    } else if dist(input, cand.last() as int, a as int, b as int) > best_dist(
        input,
        cand.drop_last(),
        a,
        b,
    ) {
        Some(cand.last())
    } else {
        farthest(input, cand.drop_last(), a, b)
    }
}

/// The running maximum never falls below zero.
pub proof fn lemma_best_dist_nonneg(input: Seq<Point>, cand: Seq<usize>, a: usize, b: usize)
    ensures
        best_dist(input, cand, a, b) >= 0,
    decreases cand.len(),
{
    if cand.len() > 0 {
        lemma_best_dist_nonneg(input, cand.drop_last(), a, b);
    }
}

/// The running maximum bounds the side value of every candidate.
pub proof fn lemma_best_dist_bounds(input: Seq<Point>, cand: Seq<usize>, a: usize, b: usize)
    ensures
        forall|k: int|
            0 <= k < cand.len() ==> dist(input, #[trigger] cand[k] as int, a as int, b as int)
                <= best_dist(input, cand, a, b),
    decreases cand.len(),
{
    if cand.len() > 0 {
        lemma_best_dist_bounds(input, cand.drop_last(), a, b);
        assert forall|k: int| 0 <= k < cand.len() implies dist(
            input,
            #[trigger] cand[k] as int,
            a as int,
            b as int,
        ) <= best_dist(input, cand, a, b) by {
            if k < cand.len() - 1 {
                assert(cand.drop_last()[k] == cand[k]);
            }
        }
    }
}

/// The farthest candidate attains the running maximum.
pub proof fn lemma_farthest_attains(
    input: Seq<Point>,
    cand: Seq<usize>,
    a: usize,
    b: usize,
    m: usize,
)
    requires
        farthest(input, cand, a, b) == Some(m),
    ensures
        dist(input, m as int, a as int, b as int) == best_dist(input, cand, a, b),
    decreases cand.len(),
{
    if !(dist(input, cand.last() as int, a as int, b as int) > best_dist(
        input,
        cand.drop_last(),
        a,
        b,
    )) {
        lemma_farthest_attains(input, cand.drop_last(), a, b, m);
    }
}

/// Without a farthest candidate the running maximum is still zero: no
/// candidate ever beat it.
pub proof fn lemma_no_farthest_best_zero(input: Seq<Point>, cand: Seq<usize>, a: usize, b: usize)
    requires
        farthest(input, cand, a, b) == None::<usize>,
    ensures
        best_dist(input, cand, a, b) == 0,
    decreases cand.len(),
{
    if cand.len() > 0 {
        lemma_no_farthest_best_zero(input, cand.drop_last(), a, b);
    }
}

/// Every element of the outside set is an element of `cand` whose side
/// value is strictly positive, and the outside set is no longer than the
/// candidate list.
pub proof fn lemma_outside_set_elements(input: Seq<Point>, cand: Seq<usize>, a: usize, b: usize)
    ensures
        outside_set(input, cand, a, b).len() <= cand.len(),
        forall|k: int|
            0 <= k < outside_set(input, cand, a, b).len() ==> cand.contains(
                #[trigger] outside_set(input, cand, a, b)[k],
            ) && dist(input, outside_set(input, cand, a, b)[k] as int, a as int, b as int) > 0,
    decreases cand.len(),
{
    if cand.len() > 0 {
        lemma_outside_set_elements(input, cand.drop_last(), a, b);
        let out = outside_set(input, cand, a, b);
        let rest = outside_set(input, cand.drop_last(), a, b);
        assert forall|k: int| 0 <= k < out.len() implies cand.contains(#[trigger] out[k]) && dist(
            input,
            out[k] as int,
            a as int,
            b as int,
        ) > 0 by {
            if k < rest.len() {
                let j = choose|j: int| 0 <= j < cand.drop_last().len() && cand.drop_last()[j]
                    == rest[k];
                assert(cand[j] == rest[k]);
            } else {
                assert(out[k] == cand.last());
                assert(cand[cand.len() - 1] == cand.last());
            }
        }
    }
}

/// A candidate whose side value is not strictly positive is missing from
/// the outside set, which is then strictly shorter than the candidates.
pub proof fn lemma_outside_set_drops(
    input: Seq<Point>,
    cand: Seq<usize>,
    a: usize,
    b: usize,
    x: usize,
)
    requires
        cand.contains(x),
        dist(input, x as int, a as int, b as int) <= 0,
    ensures
        outside_set(input, cand, a, b).len() < cand.len(),
    decreases cand.len(),
{
    lemma_outside_set_elements(input, cand.drop_last(), a, b);
    if cand.last() == x {
        // the last candidate is dropped, and the rest cannot make up for it
    } else {
        let j = choose|j: int| 0 <= j < cand.len() && cand[j] == x;
        assert(cand.drop_last()[j] == x);
        lemma_outside_set_drops(input, cand.drop_last(), a, b, x);
    }
}

/// The farthest candidate, when there is one, is an element of `cand`
/// lying strictly outside the segment, and stands in the outside set.
pub proof fn lemma_farthest_some(
    input: Seq<Point>,
    cand: Seq<usize>,
    a: usize,
    b: usize,
    m: usize,
)
    requires
        farthest(input, cand, a, b) == Some(m),
    ensures
        cand.contains(m),
        dist(input, m as int, a as int, b as int) > 0,
        outside_set(input, cand, a, b).contains(m),
    decreases cand.len(),
{
    let rest = outside_set(input, cand.drop_last(), a, b);
    if dist(input, cand.last() as int, a as int, b as int) > best_dist(
        input,
        cand.drop_last(),
        a,
        b,
    ) {
        lemma_best_dist_nonneg(input, cand.drop_last(), a, b);
        assert(cand[cand.len() - 1] == m);
        assert(outside_set(input, cand, a, b)[rest.len() as int] == m);
    } else {
        lemma_farthest_some(input, cand.drop_last(), a, b, m);
        let j = choose|j: int| 0 <= j < cand.drop_last().len() && cand.drop_last()[j] == m;
        assert(cand[j] == m);
        let k = choose|k: int| 0 <= k < rest.len() && rest[k] == m;
        assert(outside_set(input, cand, a, b)[k] == m);
    }
}

/// Scans `indeces` against the directed segment from `input[first]` to
/// `input[second]` and returns the candidates strictly outside it together
/// with the first candidate of greatest side value, if any is outside.
pub fn get_dist_set(input: &Vec<Point>, indeces: &Vec<usize>, first: usize, second: usize) -> (r: (
    Vec<usize>,
    Option<usize>,
))
    requires
        first < input.len(),
        second < input.len(),
        forall|k: int| 0 <= k < indeces@.len() ==> indeces@[k] < input.len(),
    ensures
        r.0@ == outside_set(input@, indeces@, first, second),
        r.1 == farthest(input@, indeces@, first, second),
        forall|k: int| 0 <= k < r.0@.len() ==> r.0@[k] < input.len(),
        r.1 matches Some(m) ==> m < input.len(),
{
    let mut result: Vec<usize> = Vec::new();
    let mut idx_max: Option<usize> = None;
    let mut max_distance: i128 = 0;

    let mut i: usize = 0;
    while i < indeces.len()
        invariant
            i <= indeces.len(),
            first < input.len(),
            second < input.len(),
            forall|k: int| 0 <= k < indeces@.len() ==> indeces@[k] < input.len(),
            result@ == outside_set(input@, indeces@.take(i as int), first, second),
            idx_max == farthest(input@, indeces@.take(i as int), first, second),
            max_distance == best_dist(input@, indeces@.take(i as int), first, second),
            max_distance >= 0,
        decreases indeces.len() - i,
    {
        let idx = indeces[i];
        let temp_distance = compute_dist(input, idx, first, second);
        proof {
            assert(indeces@.take(i + 1).drop_last() =~= indeces@.take(i as int));
            assert(indeces@.take(i + 1).last() == indeces@[i as int]);
        }
        if temp_distance > 0 {
            result.push(idx);
            if temp_distance > max_distance {
                idx_max = Some(idx);
                max_distance = temp_distance;
            }
        }
        i = i + 1;
    }
    proof {
        assert(indeces@.take(indeces@.len() as int) =~= indeces@);
        lemma_outside_set_elements(input@, indeces@, first, second);
        assert forall|k: int| 0 <= k < result@.len() implies result@[k] < input.len() by {
            let j = choose|j: int| 0 <= j < indeces@.len() && indeces@[j] == result@[k];
        }
        match idx_max {
            Some(m) => {
                lemma_farthest_some(input@, indeces@, first, second, m);
                let j = choose|j: int| 0 <= j < indeces@.len() && indeces@[j] == m;
            },
            None => {},
        }
    }
    (result, idx_max)
}

} // verus!
