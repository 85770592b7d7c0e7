//! Points of the plane, their squared distances, and the sampling region.
use vstd::prelude::*;

verus! {

/// A point with integer coordinates.
#[derive(Clone, Copy, Debug, PartialEq, Eq, Structural)]
pub struct Point {
    pub x: u32,
    pub y: u32,
}

/// Squared Euclidean distance between two points given by coordinates.
pub open spec fn dist2(ax: int, ay: int, bx: int, by: int) -> int {
    (ax - bx) * (ax - bx) + (ay - by) * (ay - by)
}

/// Squared Euclidean distance between two points.
pub open spec fn point_dist2(p: Point, q: Point) -> int {
    dist2(p.x as int, p.y as int, q.x as int, q.y as int)
}

/// `(x, y)` lies strictly inside the rectangle from `(0, 0)` to `(width, height)`.
pub open spec fn in_rect(x: int, y: int, width: int, height: int) -> bool {
    0 < x < width && 0 < y < height
}

/// The squared distance between `p` and `q`, without rounding.
pub fn distance_squared(p: Point, q: Point) -> (r: u128)
    ensures
        r == point_dist2(p, q),
{
    let dx: i128 = p.x as i128 - q.x as i128;
    let dy: i128 = p.y as i128 - q.y as i128;
    assert(0 <= dx * dx <= 0x1_0000_0000_0000_0000) by (nonlinear_arith)
        requires -0x1_0000_0000 <= dx <= 0x1_0000_0000;
    assert(0 <= dy * dy <= 0x1_0000_0000_0000_0000) by (nonlinear_arith)
        requires -0x1_0000_0000 <= dy <= 0x1_0000_0000;
    (dx * dx + dy * dy) as u128
}

/// Whether `(x, y)` lies strictly inside the region; a point on its border
/// does not.
pub fn point_in_rect(x: i64, y: i64, width: u32, height: u32) -> (r: bool)
    ensures
        r == in_rect(x as int, y as int, width as int, height as int),
{
    0 < x && x < width as i64 && 0 < y && y < height as i64
}

/// The candidate at offset `(dx, dy)` from the point `(x, y)`.
pub fn new_sample_point(x: u32, y: u32, dx: i64, dy: i64) -> (r: (i64, i64))
    requires
        -0x4000_0000_0000_0000 <= dx <= 0x4000_0000_0000_0000,
        -0x4000_0000_0000_0000 <= dy <= 0x4000_0000_0000_0000,
    ensures
        r.0 == x + dx,
        r.1 == y + dy,
{
    (x as i64 + dx, y as i64 + dy)
}

/// Distance does not depend on the order of the two points.
pub proof fn lemma_dist2_symmetric(p: Point, q: Point)
    ensures
        point_dist2(p, q) == point_dist2(q, p),
{
    let a = p.x as int - q.x as int;
    let b = p.y as int - q.y as int;
    assert(a * a == (-a) * (-a) && b * b == (-b) * (-b)) by (nonlinear_arith);
}

} // verus!
