//! The recursive QuickHull refinement and the top-level hull construction.

use vstd::prelude::*;

use crate::extremes::extreme;
use crate::extremes::find_extreme;
use crate::extremes::lemma_extreme_upto_bounds;
use crate::extremes::lemma_extreme_upto_first;
use crate::geometry::Point;
use crate::geometry::dist;
use crate::geometry::lemma_cross_cycle;
use crate::geometry::lemma_cross_decomposition;
use crate::geometry::lemma_cross_endpoints;
use crate::geometry::lemma_cross_swap;
use crate::partition::best_dist;
use crate::partition::farthest;
use crate::partition::get_dist_set;
use crate::partition::lemma_best_dist_bounds;
use crate::partition::lemma_farthest_attains;
use crate::partition::lemma_farthest_some;
use crate::partition::lemma_no_farthest_best_zero;
use crate::partition::lemma_outside_set_drops;
use crate::partition::lemma_outside_set_elements;
use crate::partition::outside_set;

verus! {

/// Once the farthest point is taken off a branch, the outside sets of the
/// two sub-segments it spawns are strictly smaller than the branch's own
/// outside set: the refinement cannot recurse forever.
pub proof fn lemma_refine_shrinks(
    input: Seq<Point>,
    cand: Seq<usize>,
    a: usize,
    b: usize,
    m: usize,
)
    requires
        farthest(input, cand, a, b) == Some(m),
    ensures
        outside_set(input, outside_set(input, cand, a, b), a, m).len() < outside_set(
            input,
            cand,
            a,
            b,
        ).len(),
        outside_set(input, outside_set(input, cand, a, b), m, b).len() < outside_set(
            input,
            cand,
            a,
            b,
        ).len(),
{
    let out = outside_set(input, cand, a, b);
    lemma_farthest_some(input, cand, a, b, m);
    lemma_cross_endpoints(input[a as int], input[m as int]);
    lemma_cross_endpoints(input[m as int], input[b as int]);
    lemma_outside_set_drops(input, out, a, m, m);
    lemma_outside_set_drops(input, out, m, b, m);
}

/// The indices the recursive refinement of the segment from `input[a]` to
/// `input[b]` discovers among `cand`, in discovery order: the farthest
/// outside candidate first, then the vertices beyond the two sub-segments
/// it spawns, each refined over the outside set alone.
pub open spec fn sub_hull(input: Seq<Point>, cand: Seq<usize>, a: usize, b: usize) -> Seq<usize>
    decreases outside_set(input, cand, a, b).len(),
{
    match farthest(input, cand, a, b) {
        None => Seq::empty(),
        Some(m) => {
            proof {
                lemma_refine_shrinks(input, cand, a, b, m);
            }
            let out = outside_set(input, cand, a, b);
            seq![m] + sub_hull(input, out, a, m) + sub_hull(input, out, m, b)
        },
    }
}

/// All positions of a sequence of length `n`, in order.
pub open spec fn all_indices(n: int) -> Seq<usize> {
    Seq::new(n as nat, |i: int| i as usize)
}

/// The complete hull index sequence of `input`: the leftmost and rightmost
/// points seed the result, then the upper chain and the lower chain follow
/// in discovery order.
pub open spec fn hull_of(input: Seq<Point>) -> Seq<usize> {
    let pmin = extreme(input, true) as usize;
    let pmax = extreme(input, false) as usize;
    let cand = all_indices(input.len() as int);
    seq![pmin, pmax] + sub_hull(input, cand, pmin, pmax) + sub_hull(input, cand, pmax, pmin)
}

/// Recursively refines the hull between the cut points `first` and
/// `second`, appending every vertex discovered among `indeces` to
/// `output_idxs` in discovery order.
pub fn sub_quickhull(
    input: &Vec<Point>,
    indeces: &Vec<usize>,
    output_idxs: &mut Vec<usize>,
    first: usize,
    second: usize,
)
    requires
        first < input.len(),
        second < input.len(),
        forall|k: int| 0 <= k < indeces@.len() ==> indeces@[k] < input.len(),
    ensures
        final(output_idxs)@ == old(output_idxs)@ + sub_hull(input@, indeces@, first, second),
    decreases outside_set(input@, indeces@, first, second).len(),
{
    let (next_indeces, max_point) = get_dist_set(input, indeces, first, second);

    match max_point {
        Some(m) => {
            proof {
                lemma_refine_shrinks(input@, indeces@, first, second, m);
            }
            output_idxs.push(m);
            sub_quickhull(input, &next_indeces, output_idxs, first, m);
            sub_quickhull(input, &next_indeces, output_idxs, m, second);
            proof {
                assert(output_idxs@ =~= old(output_idxs)@ + sub_hull(
                    input@,
                    indeces@,
                    first,
                    second,
                ));
            }
        },
        None => {
            proof {
                assert(output_idxs@ =~= old(output_idxs)@ + sub_hull(
                    input@,
                    indeces@,
                    first,
                    second,
                ));
            }
        },
    }
}

/// Every index the refinement discovers comes from its candidate list and
/// lies strictly to the left of the chain's seed segment: one chain only
/// ever adds vertices on its own side of the cut, and never a point on or
/// right of the line through the cut points.
pub proof fn lemma_sub_hull_elements(input: Seq<Point>, cand: Seq<usize>, a: usize, b: usize)
    ensures
        forall|k: int|
            0 <= k < sub_hull(input, cand, a, b).len() ==> cand.contains(
                #[trigger] sub_hull(input, cand, a, b)[k],
            ) && dist(input, sub_hull(input, cand, a, b)[k] as int, a as int, b as int) > 0,
    decreases outside_set(input, cand, a, b).len(),
{
    match farthest(input, cand, a, b) {
        None => {},
        Some(m) => {
            lemma_refine_shrinks(input, cand, a, b, m);
            lemma_farthest_some(input, cand, a, b, m);
            lemma_outside_set_elements(input, cand, a, b);
            let out = outside_set(input, cand, a, b);
            lemma_sub_hull_elements(input, out, a, m);
            lemma_sub_hull_elements(input, out, m, b);
            let s = sub_hull(input, cand, a, b);
            let s1 = sub_hull(input, out, a, m);
            let s2 = sub_hull(input, out, m, b);
            assert(s == seq![m] + s1 + s2);
            assert forall|k: int| 0 <= k < s.len() implies cand.contains(#[trigger] s[k]) && dist(
                input,
                s[k] as int,
                a as int,
                b as int,
            ) > 0 by {
                if k == 0 {
                    assert(s[k] == m);
                } else if k < 1 + s1.len() {
                    assert(s[k] == s1[k - 1]);
                    let x = s1[k - 1];
                    assert(out.contains(x));
                    let j = choose|j: int| 0 <= j < out.len() && out[j] == x;
                    assert(cand.contains(out[j]));
                } else {
                    assert(s[k] == s2[k - 1 - s1.len()]);
                    let x = s2[k - 1 - s1.len()];
                    assert(out.contains(x));
                    let j = choose|j: int| 0 <= j < out.len() && out[j] == x;
                    assert(cand.contains(out[j]));
                }
            }
        },
    }
}

/// A branch that discovers nothing is a supporting edge of its candidate
/// set: when no candidate is strictly outside the cut segment, every
/// candidate lies on the segment's line or to its right, so the region
/// beyond this edge is empty of candidates.
pub proof fn lemma_terminal_branch_supports(
    input: Seq<Point>,
    cand: Seq<usize>,
    a: usize,
    b: usize,
)
    requires
        farthest(input, cand, a, b) == None::<usize>,
    ensures
        forall|k: int|
            0 <= k < cand.len() ==> dist(input, #[trigger] cand[k] as int, a as int, b as int)
                <= 0,
{
    lemma_no_farthest_best_zero(input, cand, a, b);
    lemma_best_dist_bounds(input, cand, a, b);
}

/// The cut points and the vertex a refinement step discovers are
/// consistently oriented: each cut point lies strictly to the right of
/// the directed segment from the other cut point to the new vertex, so a
/// chain turns the same way at every discovery.
pub proof fn lemma_discovery_orientation(
    input: Seq<Point>,
    cand: Seq<usize>,
    a: usize,
    b: usize,
    m: usize,
)
    requires
        farthest(input, cand, a, b) == Some(m),
    ensures
        dist(input, b as int, a as int, m as int) < 0,
        dist(input, a as int, m as int, b as int) < 0,
{
    lemma_farthest_some(input, cand, a, b, m);
    lemma_cross_cycle(input[a as int], input[m as int], input[b as int]);
}

/// A refinement step never hands the same candidate to both of its
/// branches: a point strictly left of both new cut segments would lie
/// strictly farther from the old cut than the farthest point itself, by
/// the decomposition of signed areas.
pub proof fn lemma_branches_disjoint(
    input: Seq<Point>,
    cand: Seq<usize>,
    a: usize,
    b: usize,
    m: usize,
    p: usize,
)
    requires
        farthest(input, cand, a, b) == Some(m),
        cand.contains(p),
    ensures
        !(dist(input, p as int, a as int, m as int) > 0 && dist(input, p as int, m as int, b as int)
            > 0),
{
    lemma_farthest_attains(input, cand, a, b, m);
    lemma_best_dist_bounds(input, cand, a, b);
    let k = choose|k: int| 0 <= k < cand.len() && cand[k] == p;
    assert(dist(input, cand[k] as int, a as int, b as int) <= best_dist(input, cand, a, b));
    lemma_cross_decomposition(input[a as int], input[m as int], input[b as int], input[p as int]);
}

/// One refinement visits each hull vertex at most once: the indices a
/// chain discovers are pairwise distinct, and neither cut point of the
/// chain stands among them.
pub proof fn lemma_sub_hull_no_duplicates(input: Seq<Point>, cand: Seq<usize>, a: usize, b: usize)
    ensures
        sub_hull(input, cand, a, b).no_duplicates(),
        !sub_hull(input, cand, a, b).contains(a),
        !sub_hull(input, cand, a, b).contains(b),
    decreases outside_set(input, cand, a, b).len(),
{
    lemma_sub_hull_elements(input, cand, a, b);
    lemma_cross_endpoints(input[a as int], input[b as int]);
    let s = sub_hull(input, cand, a, b);
    assert forall|k: int| 0 <= k < s.len() implies s[k] != a && s[k] != b by {
        // a cut point has side value zero, every discovered vertex a
        // strictly positive one
    }
    match farthest(input, cand, a, b) {
        None => {},
        Some(m) => {
            lemma_refine_shrinks(input, cand, a, b, m);
            lemma_outside_set_elements(input, cand, a, b);
            let out = outside_set(input, cand, a, b);
            lemma_sub_hull_no_duplicates(input, out, a, m);
            lemma_sub_hull_no_duplicates(input, out, m, b);
            lemma_sub_hull_elements(input, out, a, m);
            lemma_sub_hull_elements(input, out, m, b);
            let s1 = sub_hull(input, out, a, m);
            let s2 = sub_hull(input, out, m, b);
            assert(s == seq![m] + s1 + s2);
            assert forall|i: int, j: int|
                0 <= i < s.len() && 0 <= j < s.len() && i != j implies s[i] != s[j] by {
                let lo = if i < j {
                    i
                } else {
                    j
                };
                let hi = if i < j {
                    j
                } else {
                    i
                };
                if lo == 0 {
                    // the farthest point has side value zero against both
                    // sub-segments, every deeper vertex a positive one
                    if hi < 1 + s1.len() {
                        assert(s[hi] == s1[hi - 1]);
                        assert(!s1.contains(m));
                        assert(s1.contains(s1[hi - 1]));
                    } else {
                        assert(s[hi] == s2[hi - 1 - s1.len()]);
                        assert(!s2.contains(m));
                        assert(s2.contains(s2[hi - 1 - s1.len()]));
                    }
                } else if hi < 1 + s1.len() {
                    assert(s[lo] == s1[lo - 1] && s[hi] == s1[hi - 1]);
                } else if lo >= 1 + s1.len() {
                    assert(s[lo] == s2[lo - 1 - s1.len()] && s[hi] == s2[hi - 1 - s1.len()]);
                } else {
                    // one vertex of each branch: were they the same index,
                    // it would lie strictly left of both sub-segments
                    let x = s1[lo - 1];
                    let y = s2[hi - 1 - s1.len()];
                    assert(s[lo] == x && s[hi] == y);
                    if x == y {
                        assert(out.contains(x));
                        let w = choose|w: int| 0 <= w < out.len() && out[w] == x;
                        assert(cand.contains(out[w]));
                        lemma_branches_disjoint(input, cand, a, b, m, x);
                    }
                }
            }
        },
    }
}

/// With distinct seed points the whole construction returns pairwise
/// distinct indices: no hull vertex is ever reported twice.
pub proof fn lemma_hull_vertices_distinct(input: Seq<Point>)
    requires
        0 < input.len() <= usize::MAX,
        extreme(input, true) != extreme(input, false),
    ensures
        hull_of(input).no_duplicates(),
{
    lemma_extreme_upto_bounds(input, true, input.len() as int);
    lemma_extreme_upto_bounds(input, false, input.len() as int);
    let pmin = extreme(input, true) as usize;
    let pmax = extreme(input, false) as usize;
    assert(pmin as int == extreme(input, true));
    assert(pmax as int == extreme(input, false));
    let cand = all_indices(input.len() as int);
    lemma_sub_hull_no_duplicates(input, cand, pmin, pmax);
    lemma_sub_hull_no_duplicates(input, cand, pmax, pmin);
    lemma_sub_hull_elements(input, cand, pmin, pmax);
    lemma_sub_hull_elements(input, cand, pmax, pmin);
    let s1 = sub_hull(input, cand, pmin, pmax);
    let s2 = sub_hull(input, cand, pmax, pmin);
    let h = hull_of(input);
    assert(h == seq![pmin, pmax] + s1 + s2);
    assert(h[0] == pmin && h[1] == pmax);
    assert forall|i: int, j: int|
        0 <= i < h.len() && 0 <= j < h.len() && i != j implies h[i] != h[j] by {
        let lo = if i < j {
            i
        } else {
            j
        };
        let hi = if i < j {
            j
        } else {
            i
        };
        if hi >= 2 {
            if hi < 2 + s1.len() {
                assert(h[hi] == s1[hi - 2]);
                assert(s1.contains(s1[hi - 2]));
            } else {
                assert(h[hi] == s2[hi - 2 - s1.len()]);
                assert(s2.contains(s2[hi - 2 - s1.len()]));
            }
        }
        if lo >= 2 {
            if lo < 2 + s1.len() {
                assert(h[lo] == s1[lo - 2]);
                assert(s1.contains(s1[lo - 2]));
            } else {
                assert(h[lo] == s2[lo - 2 - s1.len()]);
                assert(s2.contains(s2[lo - 2 - s1.len()]));
            }
        }
        if lo >= 2 && hi >= 2 && lo < 2 + s1.len() && hi >= 2 + s1.len() {
            // a vertex of the upper chain is strictly left of the seed
            // segment, a vertex of the lower chain strictly right of it
            let x = s1[lo - 2];
            let y = s2[hi - 2 - s1.len()];
            if x == y {
                lemma_cross_swap(input[pmin as int], input[pmax as int], input[x as int]);
            }
        }
    }
}

/// Hull indices always refer back into the input: every entry of the hull
/// sequence is a valid position of the point sequence.
pub proof fn lemma_hull_indices_in_range(input: Seq<Point>)
    requires
        input.len() > 0,
    ensures
        forall|k: int|
            0 <= k < hull_of(input).len() ==> (#[trigger] hull_of(input)[k]) < input.len(),
{
    lemma_extreme_upto_bounds(input, true, input.len() as int);
    lemma_extreme_upto_bounds(input, false, input.len() as int);
    let cand = all_indices(input.len() as int);
    let pmin = extreme(input, true) as usize;
    let pmax = extreme(input, false) as usize;
    lemma_sub_hull_elements(input, cand, pmin, pmax);
    lemma_sub_hull_elements(input, cand, pmax, pmin);
    let s1 = sub_hull(input, cand, pmin, pmax);
    let s2 = sub_hull(input, cand, pmax, pmin);
    let h = hull_of(input);
    assert(h == seq![pmin, pmax] + s1 + s2);
    assert forall|k: int| 0 <= k < h.len() implies (#[trigger] h[k]) < input.len() by {
        if k >= 2 {
            let x = h[k];
            if k < 2 + s1.len() {
                assert(x == s1[k - 2]);
                assert(cand.contains(x));
            } else {
                assert(x == s2[k - 2 - s1.len()]);
                assert(cand.contains(x));
            }
            let j = choose|j: int| 0 <= j < cand.len() && cand[j] == x;
            assert(cand[j] == j as usize);
        }
    }
}

/// The leftmost and rightmost input points always stand on the hull: the
/// index of the first point of least x and the index of the first point of
/// greatest x are the first two entries the construction appends.
pub proof fn lemma_hull_has_extremes(input: Seq<Point>)
    requires
        input.len() > 0,
    ensures
        hull_of(input).len() >= 2,
        hull_of(input)[0] == extreme(input, true) as usize,
        hull_of(input)[1] == extreme(input, false) as usize,
        forall|j: int|
            0 <= j < input.len() ==> input[extreme(input, true)].x <= (#[trigger] input[j]).x,
        forall|j: int|
            0 <= j < input.len() ==> (#[trigger] input[j]).x <= input[extreme(input, false)].x,
{
    lemma_extreme_upto_first(input, true, input.len() as int);
    lemma_extreme_upto_first(input, false, input.len() as int);
}

/// Runs the QuickHull construction over `input`, appending the indices of
/// the discovered hull vertices to `hull_idxs`: whatever the accumulator
/// already held stays untouched at the front, and the appended part is a
/// function of the points alone.
pub fn run(input: &Vec<Point>, hull_idxs: &mut Vec<usize>)
    requires
        input.len() > 0,
    ensures
        final(hull_idxs)@ == old(hull_idxs)@ + hull_of(input@),
{
    let point_min_x = find_extreme(input, true);
    let point_max_x = find_extreme(input, false);

    let mut indeces: Vec<usize> = Vec::new();
    proof {
        assert(indeces@ =~= all_indices(0));
    }
    let mut idx: usize = 0;
    while idx < input.len()
        invariant
            idx <= input.len(),
            indeces@ == all_indices(idx as int),
        decreases input.len() - idx,
    {
        indeces.push(idx);
        proof {
            assert(indeces@ =~= all_indices(idx + 1));
        }
        idx = idx + 1;
    }

    hull_idxs.push(point_min_x);
    hull_idxs.push(point_max_x);

    sub_quickhull(input, &indeces, hull_idxs, point_min_x, point_max_x);
    sub_quickhull(input, &indeces, hull_idxs, point_max_x, point_min_x);
    proof {
        lemma_extreme_upto_bounds(input@, true, input@.len() as int);
        lemma_extreme_upto_bounds(input@, false, input@.len() as int);
        assert(hull_idxs@ =~= old(hull_idxs)@ + hull_of(input@));
    }
}

} // verus!
