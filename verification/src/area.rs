//! Polygon areas by the shoelace formula.

use vstd::prelude::*;
use crate::point::Point;

verus! {

/// The vertex after vertex `i` on a closed polygon of `n` vertices.
pub open spec fn next_vertex(i: int, n: int) -> int {
    if i == n - 1 {
        0
    } else {
        i + 1
    }
}

/// The vertex before vertex `i` on a closed polygon of `n` vertices.
pub open spec fn prev_vertex(i: int, n: int) -> int {
    if i == 0 {
        n - 1
    } else {
        i - 1
    }
}

/// What vertex `i` adds to the shoelace sum: its x-coordinate times the
/// rise from the vertex before it to the vertex after it.
pub open spec fn shoelace_term(poly: Seq<Point>, i: int) -> int {
    poly[i].x * (poly[next_vertex(i, poly.len() as int)].y - poly[prev_vertex(
        i,
        poly.len() as int,
    )].y)
}

/// The shoelace sum over the first `k` vertices.
pub open spec fn shoelace_upto(poly: Seq<Point>, k: int) -> int
    decreases k,
{
    if k <= 0 {
        0
    } else {
        shoelace_upto(poly, k - 1) + shoelace_term(poly, k - 1)
    }
}

/// The shoelace sum of the closed polygon: twice its signed area, positive
/// when the vertices run counter-clockwise.
pub open spec fn shoelace(poly: Seq<Point>) -> int {
    shoelace_upto(poly, poly.len() as int)
}

/// Twice the area that the closed polygon encloses.
pub open spec fn doubled_area(poly: Seq<Point>) -> int {
    if shoelace(poly) < 0 {
        -shoelace(poly)
    } else {
        shoelace(poly)
    }
}

/// An area, held exactly as a count of half square units: a polygon on
/// lattice points encloses a whole number of them.
#[derive(Clone, Copy, Debug, PartialEq, Eq, Structural)]
pub struct Area {
    /// Twice the area.
    pub doubled: u128,
}

impl Area {
    /// The whole square units of the area.
    pub fn whole(&self) -> (units: u128)
        ensures
            units == self.doubled / 2,
    {
        self.doubled / 2
    }

    /// Whether half a square unit is left over beyond the whole ones.
    pub fn has_half(&self) -> (odd: bool)
        ensures
            odd == (self.doubled % 2 == 1),
    {
        self.doubled % 2 == 1
    }
}

proof fn lemma_term_bound(x: int, d: int)
    by (nonlinear_arith)
    requires
        -0x8000_0000 <= x <= 0x8000_0000,
        -0x1_0000_0000 <= d <= 0x1_0000_0000,
    ensures
        -0x8000_0000_0000_0000 <= x * d <= 0x8000_0000_0000_0000,
{
}

proof fn lemma_sum_bound(i: int, bound: int)
    by (nonlinear_arith)
    requires
        0 <= i < 0x1_0000_0000_0000_0000,
        bound == 0x8000_0000_0000_0000,
    ensures
        0 <= i * bound,
        (i + 1) * bound == i * bound + bound,
        (i + 1) * bound <= 0x8000_0000_0000_0000_0000_0000_0000_0000,
        i + 1 < 0x1_0000_0000_0000_0000 ==> (i + 1) * bound
            < 0x8000_0000_0000_0000_0000_0000_0000_0000,
{
}

/// A polygon with fewer than three vertices encloses nothing.
pub proof fn lemma_thin_polygon(poly: Seq<Point>)
    requires
        poly.len() < 3,
    ensures
        shoelace(poly) == 0,
{
    reveal_with_fuel(shoelace_upto, 3);
    if poly.len() == 1 {
        assert(poly[0].x * (poly[0].y - poly[0].y) == 0);
    } else if poly.len() == 2 {
        assert(poly[0].x * (poly[1].y - poly[1].y) == 0);
        assert(poly[1].x * (poly[0].y - poly[0].y) == 0);
    }
}

/// Computes the shoelace sum of the closed polygon: twice its signed area,
/// positive when the vertices run counter-clockwise, negative when they run
/// clockwise.
pub fn signed_doubled_area(polygon: &[Point]) -> (sum: i128)
    ensures
        sum == shoelace(polygon@),
{
    let n: usize = polygon.len();
    let mut sum: i128 = 0;
    let mut i: usize = 0;
    while i < n
        invariant
            i <= n,
            n == polygon.len(),
            sum == shoelace_upto(polygon@, i as int),
            -(i * 0x8000_0000_0000_0000) <= sum <= i * 0x8000_0000_0000_0000,
        decreases n - i,
    {
        let prev: usize = if i == 0 {
            n - 1
        } else {
            i - 1
        };
        let next: usize = if i == n - 1 {
            0
        } else {
            i + 1
        };
        let rise: i128 = polygon[next].y as i128 - polygon[prev].y as i128;
        proof {
            lemma_term_bound(polygon[i as int].x as int, rise as int);
            lemma_sum_bound(i as int, 0x8000_0000_0000_0000);
        }
        sum = sum + polygon[i].x as i128 * rise;
        i = i + 1;
    }
    sum
}

/// Computes the area that the closed polygon encloses; the last vertex is
/// joined to the first. Fewer than three vertices enclose nothing.
pub fn area(polygon: &[Point]) -> (enclosed: Area)
    ensures
        enclosed.doubled == doubled_area(polygon@),
        polygon.len() < 3 ==> enclosed.doubled == 0,
{
    let sum: i128 = signed_doubled_area(polygon);
    proof {
        if polygon.len() < 3 {
            lemma_thin_polygon(polygon@);
        }
        lemma_shoelace_bound(polygon@);
    }
    let doubled: u128 = if sum < 0 {
        (-sum) as u128
    } else {
        sum as u128
    };
    Area { doubled }
}

/// The shoelace sum of a polygon that fits in memory is less than two to
/// the power 127 in magnitude.
pub proof fn lemma_shoelace_bound(poly: Seq<Point>)
    requires
        poly.len() <= usize::MAX,
    ensures
        -0x8000_0000_0000_0000_0000_0000_0000_0000 < shoelace(poly)
            < 0x8000_0000_0000_0000_0000_0000_0000_0000,
{
    lemma_shoelace_upto_bound(poly, poly.len() as int);
    if poly.len() > 0 {
        lemma_sum_bound(poly.len() as int - 1, 0x8000_0000_0000_0000);
    }
}

proof fn lemma_shoelace_upto_bound(poly: Seq<Point>, k: int)
    requires
        0 <= k <= poly.len(),
    ensures
        -(k * 0x8000_0000_0000_0000) <= shoelace_upto(poly, k) <= k * 0x8000_0000_0000_0000,
    decreases k,
{
    if k > 0 {
        lemma_shoelace_upto_bound(poly, k - 1);
        let n = poly.len() as int;
        lemma_term_bound(
            poly[k - 1].x as int,
            poly[next_vertex(k - 1, n)].y - poly[prev_vertex(k - 1, n)].y,
        );
    }
}

} // verus!
