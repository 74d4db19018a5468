//! Points and the exact side-of-line computation that drives the hull
//! construction.

use vstd::prelude::*;

verus! {

/// A point in the plane with exact integer coordinates.
///
/// A point has no identity beyond its position; the algorithm refers to
/// points of the input sequence by index, and duplicate points may occur.
/// The coordinate type is narrow enough that every cross product of input
/// points fits in `i128` and is therefore computed exactly.
#[derive(Clone, Copy, PartialEq, Eq, Structural)]
pub struct Point {
    pub x: i32,
    pub y: i32,
}

/// Twice the signed area of the triangle `(p, q, r)`: positive exactly when
/// `r` lies strictly to the left of the directed line from `p` to `q`.
pub open spec fn cross(p: Point, q: Point, r: Point) -> int {
    (r.y - p.y) * (q.x - p.x) - (r.x - p.x) * (q.y - p.y)
}

/// The signed side value of point `t` of `input` relative to the directed
/// segment from `input[a]` to `input[b]`.
pub open spec fn dist(input: Seq<Point>, t: int, a: int, b: int) -> int {
    cross(input[a], input[b], input[t])
}

/// A segment's own endpoints are on neither side of it.
pub proof fn lemma_cross_endpoints(p: Point, q: Point)
    ensures
        cross(p, q, p) == 0,
        cross(p, q, q) == 0,
{
    assert((p.y - p.y) * (q.x - p.x) - (p.x - p.x) * (q.y - p.y) == 0) by (nonlinear_arith);
    assert((q.y - p.y) * (q.x - p.x) - (q.x - p.x) * (q.y - p.y) == 0) by (nonlinear_arith);
}

/// Reversing a segment flips the side of every point.
pub proof fn lemma_cross_swap(p: Point, q: Point, r: Point)
    ensures
        cross(q, p, r) == -cross(p, q, r),
{
    assert((r.y - q.y) * (p.x - q.x) - (r.x - q.x) * (p.y - q.y) == -((r.y - p.y) * (q.x - p.x)
        - (r.x - p.x) * (q.y - p.y))) by (nonlinear_arith);
}

/// The signed area of a triangle is invariant under rotating its corners,
/// and swapping the last two corners flips its sign.
pub proof fn lemma_cross_cycle(p: Point, q: Point, r: Point)
    ensures
        cross(p, q, r) == cross(q, r, p),
        cross(p, r, q) == -cross(p, q, r),
{
    assert((r.y - p.y) * (q.x - p.x) - (r.x - p.x) * (q.y - p.y) == (p.y - q.y) * (r.x - q.x) - (
    p.x - q.x) * (r.y - q.y)) by (nonlinear_arith);
    assert((q.y - p.y) * (r.x - p.x) - (q.x - p.x) * (r.y - p.y) == -((r.y - p.y) * (q.x - p.x)
        - (r.x - p.x) * (q.y - p.y))) by (nonlinear_arith);
}

/// The signed area of `(p, q, r)` decomposes over an intermediate point
/// `m`: the triangle `(p, q, r)` is the two triangles over `(p, m)` and
/// `(m, q)` together with the triangle `(p, q, m)` itself.
pub proof fn lemma_cross_decomposition(p: Point, m: Point, q: Point, r: Point)
    ensures
        cross(p, q, r) == cross(p, m, r) + cross(m, q, r) + cross(p, q, m),
{
    assert((r.y - p.y) * (q.x - p.x) - (r.x - p.x) * (q.y - p.y) == ((r.y - p.y) * (m.x - p.x) - (
    r.x - p.x) * (m.y - p.y)) + ((r.y - m.y) * (q.x - m.x) - (r.x - m.x) * (q.y - m.y)) + ((m.y
        - p.y) * (q.x - p.x) - (m.x - p.x) * (q.y - p.y))) by (nonlinear_arith);
}

/// The product of two factors below `2^32` in magnitude stays below `2^64`.
proof fn lemma_mul_bound(a: int, b: int)
    requires
        -0x1_0000_0000 <= a <= 0x1_0000_0000,
        -0x1_0000_0000 <= b <= 0x1_0000_0000,
    ensures
        -0x1_0000_0000_0000_0000 <= a * b <= 0x1_0000_0000_0000_0000,
{
    assert(-0x1_0000_0000_0000_0000 <= a * b <= 0x1_0000_0000_0000_0000) by (nonlinear_arith)
        requires
            -0x1_0000_0000 <= a <= 0x1_0000_0000,
            -0x1_0000_0000 <= b <= 0x1_0000_0000,
    ;
}

/// Computes the signed side value of `target` relative to the directed
/// segment from `input[first]` to `input[second]`, exactly.
pub fn compute_dist(input: &Vec<Point>, target: usize, first: usize, second: usize) -> (d: i128)
    requires
        target < input.len(),
        first < input.len(),
        second < input.len(),
    ensures
        d == dist(input@, target as int, first as int, second as int),
{
    let segment_x: i64 = input[second].x as i64 - input[first].x as i64;
    let segment_y: i64 = input[second].y as i64 - input[first].y as i64;
    let target_x: i64 = input[target].x as i64 - input[first].x as i64;
    let target_y: i64 = input[target].y as i64 - input[first].y as i64;
    proof {
        lemma_mul_bound(target_y as int, segment_x as int);
        lemma_mul_bound(target_x as int, segment_y as int);
    }
    (target_y as i128) * (segment_x as i128) - (target_x as i128) * (segment_y as i128)
}

} // verus!
