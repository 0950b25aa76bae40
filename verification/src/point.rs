//! Lattice points and the orientation test on which everything else rests.

use vstd::prelude::*;

verus! {

/// A point of the plane with integer coordinates.
#[derive(Clone, Copy, Debug, PartialEq, Eq, Structural)]
pub struct Point {
    pub x: i32,
    pub y: i32,
}

/// The cross product of `b - a` and `p - a`: positive when `p` lies strictly
/// to the left of the directed line from `a` to `b`, negative when it lies
/// strictly to the right, zero when the three points are collinear.
pub open spec fn cross(a: Point, b: Point, p: Point) -> int {
    (b.x - a.x) * (p.y - a.y) - (b.y - a.y) * (p.x - a.x)
}

/// The squared length of the segment from `a` to `b`.
pub open spec fn length_squared(a: Point, b: Point) -> int {
    (b.x - a.x) * (b.x - a.x) + (b.y - a.y) * (b.y - a.y)
}

/// A product of two numbers of magnitude at most `m` has magnitude at most `m * m`.
pub proof fn lemma_product_bound(u: int, v: int, m: int)
    by (nonlinear_arith)
    requires
        -m <= u <= m,
        -m <= v <= m,
    ensures
        -(m * m) <= u * v <= m * m,
{
}

/// Swapping the ends of the line flips the sign of the orientation test.
pub proof fn lemma_cross_reverse(a: Point, b: Point, p: Point)
    ensures
        cross(b, a, p) == -cross(a, b, p),
{
    let ux: int = b.x - a.x;
    let uy: int = b.y - a.y;
    let vx: int = p.x - a.x;
    let vy: int = p.y - a.y;
    assert((-ux) * (vy - uy) - (-uy) * (vx - ux) == -(ux * vy - uy * vx)) by (nonlinear_arith);
}

/// The orientation test is bounded by twice the square of the coordinate range.
pub proof fn lemma_cross_bound(a: Point, b: Point, p: Point)
    ensures
        -0x2_0000_0000_0000_0000 < cross(a, b, p) < 0x2_0000_0000_0000_0000,
{
    lemma_product_bound(b.x - a.x, p.y - a.y, 0xffff_ffff);
    lemma_product_bound(b.y - a.y, p.x - a.x, 0xffff_ffff);
}

/// Tells on which side of the directed line from `a` to `b` the point `p`
/// lies: the result is positive on the left, negative on the right and zero
/// on the line.
pub fn which_side(a: &Point, b: &Point, p: &Point) -> (side: i128)
    ensures
        side == cross(*a, *b, *p),
{
    let ux: i128 = b.x as i128 - a.x as i128;
    let uy: i128 = b.y as i128 - a.y as i128;
    let vx: i128 = p.x as i128 - a.x as i128;
    let vy: i128 = p.y as i128 - a.y as i128;
    proof {
        lemma_product_bound(ux as int, vy as int, 0xffff_ffff);
        lemma_product_bound(uy as int, vx as int, 0xffff_ffff);
    }
    ux * vy - uy * vx
}

} // verus!
