//! The seed of the hull construction: the leftmost and rightmost points.

use vstd::prelude::*;

use crate::geometry::Point;

verus! {

/// Whether candidate `c` replaces the running extreme `best`: strictly
/// smaller x when scanning for the leftmost point, strictly greater x when
/// scanning for the rightmost.  Strictness makes the first point attaining
/// the extreme win, so ties never move the result to a later index.
pub open spec fn beats(c: Point, best: Point, left: bool) -> bool {
    if left {
        c.x < best.x
    } else {
        c.x > best.x
    }
}

/// The extreme scan after the first `n` points: the index of the first
/// point of `input[0..n]` with the least (`left`) or greatest x.
pub open spec fn extreme_upto(input: Seq<Point>, left: bool, n: int) -> int
    decreases n,
{
    if n <= 1 {
        0
    } else {
        let best = extreme_upto(input, left, n - 1);
        if beats(input[n - 1], input[best], left) {
            n - 1
        } else {
            best
        }
    }
}

/// The index of the first point of `input` with the least (`left`) or
/// greatest x.
pub open spec fn extreme(input: Seq<Point>, left: bool) -> int {
    extreme_upto(input, left, input.len() as int)
}

/// The extreme scan stays within the scanned prefix.
pub proof fn lemma_extreme_upto_bounds(input: Seq<Point>, left: bool, n: int)
    requires
        1 <= n,
    ensures
        0 <= extreme_upto(input, left, n) < n,
    decreases n,
{
    if n > 1 {
        lemma_extreme_upto_bounds(input, left, n - 1);
    }
}

/// The scan returns the first index attaining the extreme x over the
/// scanned prefix: no point beats it, and it beats every earlier point.
pub proof fn lemma_extreme_upto_first(input: Seq<Point>, left: bool, n: int)
    requires
        1 <= n,
    ensures
        forall|j: int|
            0 <= j < n ==> !beats(#[trigger] input[j], input[extreme_upto(input, left, n)], left),
        forall|j: int|
            0 <= j < extreme_upto(input, left, n) ==> beats(
                input[extreme_upto(input, left, n)],
                #[trigger] input[j],
                left,
            ),
    decreases n,
{
    if n > 1 {
        lemma_extreme_upto_first(input, left, n - 1);
    }
}

/// Finds the index of the leftmost (`left`) or rightmost point of `input`,
/// taking the first point attaining the extreme x.
pub fn find_extreme(input: &Vec<Point>, left: bool) -> (r: usize)
    requires
        input.len() > 0,
    ensures
        r < input.len(),
        r as int == extreme(input@, left),
{
    let mut pivot_idx: usize = 0;
    let mut idx: usize = 0;
    while idx < input.len()
        invariant
            idx <= input.len(),
            0 < input.len(),
            pivot_idx < input.len(),
            pivot_idx as int == extreme_upto(input@, left, if idx == 0 { 1int } else { idx as int }),
        decreases input.len() - idx,
    {
        if (left && input[idx].x < input[pivot_idx].x) || (!left && input[idx].x > input[pivot_idx].x) {
            pivot_idx = idx;
        }
        idx = idx + 1;
    }
    pivot_idx
}

} // verus!
