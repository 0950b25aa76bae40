//! Sign rules for orientation tests: the algebra behind the hull's laws.

use vstd::prelude::*;
use crate::point::{Point, cross, lemma_cross_reverse};

verus! {

/// The cross product of the vectors `(ux, uy)` and `(vx, vy)`.
pub open spec fn det(ux: int, uy: int, vx: int, vy: int) -> int {
    ux * vy - uy * vx
}

proof fn lemma_regroup(a: int, b: int, c: int, d: int)
    by (nonlinear_arith)
    ensures
        (a * b) * (c * d) == (a * d) * (b * c),
        (a * b) * (c * d) == (a * c) * (b * d),
        (a * b) * (c * d) == (a * d) * (c * b),
{
}

proof fn lemma_expand(p: int, q: int, r: int, s: int)
    by (nonlinear_arith)
    ensures
        (p - q) * (r - s) == p * r - p * s - q * r + q * s,
{
}

/// The identity that ties together the six cross products of four vectors.
pub proof fn lemma_four_vectors(
    dx: int,
    dy: int,
    fx: int,
    fy: int,
    ux: int,
    uy: int,
    vx: int,
    vy: int,
)
    ensures
        det(dx, dy, fx, fy) * det(ux, uy, vx, vy) - det(dx, dy, ux, uy) * det(fx, fy, vx, vy)
            + det(dx, dy, vx, vy) * det(fx, fy, ux, uy) == 0,
{
    lemma_expand(dx * fy, dy * fx, ux * vy, uy * vx);
    lemma_expand(dx * uy, dy * ux, fx * vy, fy * vx);
    lemma_expand(dx * vy, dy * vx, fx * uy, fy * ux);
    lemma_regroup(dx, fy, ux, vy);
    lemma_regroup(dx, fy, uy, vx);
    lemma_regroup(dy, fx, ux, vy);
    lemma_regroup(dy, fx, uy, vx);
    lemma_regroup(dx, uy, fx, vy);
    lemma_regroup(dy, ux, fy, vx);
}

/// With `u` strictly clockwise of `d`, `f` and `v` not counter-clockwise of
/// `d`, `f` strictly counter-clockwise of `u` and `v` not: `v` is not
/// counter-clockwise of `f`.
pub proof fn lemma_wedge(dx: int, dy: int, fx: int, fy: int, ux: int, uy: int, vx: int, vy: int)
    requires
        det(dx, dy, ux, uy) < 0,
        det(dx, dy, fx, fy) <= 0,
        det(dx, dy, vx, vy) <= 0,
        det(ux, uy, vx, vy) <= 0,
        det(ux, uy, fx, fy) > 0,
    ensures
        det(fx, fy, vx, vy) <= 0,
{
    lemma_four_vectors(dx, dy, fx, fy, ux, uy, vx, vy);
    let a = det(dx, dy, fx, fy);
    let b = det(ux, uy, vx, vy);
    let c = det(dx, dy, ux, uy);
    let x = det(fx, fy, vx, vy);
    let d = det(dx, dy, vx, vy);
    let e = det(fx, fy, ux, uy);
    assert(e == -det(ux, uy, fx, fy)) by (nonlinear_arith)
        requires
            e == fx * uy - fy * ux,
            det(ux, uy, fx, fy) == ux * fy - uy * fx,
    ;
    assert(a * b >= 0) by (nonlinear_arith)
        requires
            a <= 0,
            b <= 0,
    ;
    assert(d * e >= 0) by (nonlinear_arith)
        requires
            d <= 0,
            e < 0,
    ;
    assert(x <= 0) by (nonlinear_arith)
        requires
            c * x >= 0,
            c < 0,
    ;
}

/// The mirror image of [`lemma_wedge`].
pub proof fn lemma_wedge_mirror(
    dx: int,
    dy: int,
    fx: int,
    fy: int,
    ux: int,
    uy: int,
    vx: int,
    vy: int,
)
    requires
        det(dx, dy, ux, uy) < 0,
        det(dx, dy, fx, fy) <= 0,
        det(dx, dy, vx, vy) <= 0,
        det(ux, uy, vx, vy) >= 0,
        det(ux, uy, fx, fy) < 0,
    ensures
        det(fx, fy, vx, vy) >= 0,
{
    lemma_four_vectors(dx, dy, fx, fy, ux, uy, vx, vy);
    let a = det(dx, dy, fx, fy);
    let b = det(ux, uy, vx, vy);
    let c = det(dx, dy, ux, uy);
    let x = det(fx, fy, vx, vy);
    let d = det(dx, dy, vx, vy);
    let e = det(fx, fy, ux, uy);
    assert(e == -det(ux, uy, fx, fy)) by (nonlinear_arith)
        requires
            e == fx * uy - fy * ux,
            det(ux, uy, fx, fy) == ux * fy - uy * fx,
    ;
    assert(a * b <= 0) by (nonlinear_arith)
        requires
            a <= 0,
            b >= 0,
    ;
    assert(d * e <= 0) by (nonlinear_arith)
        requires
            d <= 0,
            e > 0,
    ;
    assert(x >= 0) by (nonlinear_arith)
        requires
            c * x <= 0,
            c < 0,
    ;
}

/// With `u` strictly clockwise of `d`, `f` and `q` not counter-clockwise of
/// `d`, and `c1 * c2 > 0` for the cross products `c1` of `u` with `f` and
/// `c2` of `f` with `q`: `f` is strictly clockwise of `d`.
pub proof fn lemma_strictly_inside(
    dx: int,
    dy: int,
    fx: int,
    fy: int,
    ux: int,
    uy: int,
    qx: int,
    qy: int,
)
    requires
        det(dx, dy, ux, uy) < 0,
        det(dx, dy, fx, fy) <= 0,
        det(dx, dy, qx, qy) <= 0,
        (det(ux, uy, fx, fy) > 0 && det(fx, fy, qx, qy) > 0) || (det(ux, uy, fx, fy) < 0 && det(
            fx,
            fy,
            qx,
            qy,
        ) < 0),
    ensures
        det(dx, dy, fx, fy) < 0,
{
    lemma_four_vectors(dx, dy, fx, fy, ux, uy, qx, qy);
    let a = det(dx, dy, fx, fy);
    let b = det(ux, uy, qx, qy);
    let c = det(dx, dy, ux, uy);
    let x = det(fx, fy, qx, qy);
    let d = det(dx, dy, qx, qy);
    let e = det(fx, fy, ux, uy);
    assert(e == -det(ux, uy, fx, fy)) by (nonlinear_arith)
        requires
            e == fx * uy - fy * ux,
            det(ux, uy, fx, fy) == ux * fy - uy * fx,
    ;
    if a == 0 {
        assert(a * b == 0) by (nonlinear_arith)
            requires
                a == 0,
        ;
        assert(d * e == c * x);
        if e < 0 {
            assert(c * x < 0) by (nonlinear_arith)
                requires
                    c < 0,
                    x > 0,
            ;
            assert(d * e >= 0) by (nonlinear_arith)
                requires
                    d <= 0,
                    e < 0,
            ;
        } else {
            assert(c * x > 0) by (nonlinear_arith)
                requires
                    c < 0,
                    x < 0,
            ;
            assert(d * e <= 0) by (nonlinear_arith)
                requires
                    d <= 0,
                    e > 0,
            ;
        }
    }
}

/// Turning the three points of an orientation test in a circle keeps its value.
pub proof fn lemma_cross_rotate(a: Point, b: Point, c: Point)
    ensures
        cross(a, b, c) == cross(b, c, a),
{
    let ax: int = a.x as int;
    let ay: int = a.y as int;
    let bx: int = b.x as int;
    let by: int = b.y as int;
    let cx: int = c.x as int;
    let cy: int = c.y as int;
    assert((bx - ax) * (cy - ay) - (by - ay) * (cx - ax) == (cx - bx) * (ay - by) - (cy - by) * (ax
        - bx)) by (nonlinear_arith);
}

/// The orientation tests of a point against the two upper sides of a
/// triangle add up to its test against the base less that of the apex.
pub proof fn lemma_triangle(a: Point, f: Point, b: Point, p: Point)
    ensures
        cross(a, f, p) + cross(f, b, p) == cross(a, b, p) - cross(a, b, f),
{
    let ax: int = a.x as int;
    let ay: int = a.y as int;
    let bx: int = b.x as int;
    let by: int = b.y as int;
    let fx: int = f.x as int;
    let fy: int = f.y as int;
    let px: int = p.x as int;
    let py: int = p.y as int;
    assert(((fx - ax) * (py - ay) - (fy - ay) * (px - ax)) + ((bx - fx) * (py - fy) - (by - fy) * (
    px - fx)) == ((bx - ax) * (py - ay) - (by - ay) * (px - ax)) - ((bx - ax) * (fy - ay) - (by
        - ay) * (fx - ax))) by (nonlinear_arith);
}

/// The test of `p` against the line through `f` parallel to `a -> b` is the
/// difference of the tests of `p` and `f` against `a -> b`.
pub proof fn lemma_parallel(a: Point, b: Point, f: Point, p: Point)
    ensures
        det(b.x - a.x, b.y - a.y, p.x - f.x, p.y - f.y) == cross(a, b, p) - cross(a, b, f),
{
    let ux: int = b.x - a.x;
    let uy: int = b.y - a.y;
    let ax: int = a.x as int;
    let ay: int = a.y as int;
    let fx: int = f.x as int;
    let fy: int = f.y as int;
    let px: int = p.x as int;
    let py: int = p.y as int;
    assert(ux * (py - fy) - uy * (px - fx) == (ux * (py - ay) - uy * (px - ax)) - (ux * (fy - ay)
        - uy * (fx - ax))) by (nonlinear_arith);
}

/// Seen from the direction of `a -> b`, the ends `a` and `b` lie strictly
/// clockwise of an apex `f` that is strictly to the left of `a -> b`.
pub proof fn lemma_apex(a: Point, b: Point, f: Point)
    ensures
        det(b.x - a.x, b.y - a.y, a.x - f.x, a.y - f.y) == -cross(a, b, f),
        det(b.x - a.x, b.y - a.y, b.x - f.x, b.y - f.y) == -cross(a, b, f),
{
    let ux: int = b.x - a.x;
    let uy: int = b.y - a.y;
    let vx: int = f.x - a.x;
    let vy: int = f.y - a.y;
    assert(ux * (-vy) - uy * (-vx) == -(ux * vy - uy * vx)) by (nonlinear_arith);
    assert(ux * (uy - vy) - uy * (ux - vx) == -(ux * vy - uy * vx)) by (nonlinear_arith);
}

/// A point that is not to the left of `a -> b` is not to the left of
/// `a -> f` either, for an apex `f` strictly to the left of `a -> b`, when
/// every point in question lies on the clockwise side of a direction `d`
/// at `a` and `b` lies strictly on that side.
pub proof fn lemma_wedge_at_start(a: Point, b: Point, f: Point, p: Point, dx: int, dy: int)
    requires
        det(dx, dy, b.x - a.x, b.y - a.y) < 0,
        det(dx, dy, f.x - a.x, f.y - a.y) <= 0,
        det(dx, dy, p.x - a.x, p.y - a.y) <= 0,
        cross(a, b, p) <= 0,
        cross(a, b, f) > 0,
    ensures
        cross(a, f, p) <= 0,
{
    lemma_wedge(
        dx,
        dy,
        f.x - a.x,
        f.y - a.y,
        b.x - a.x,
        b.y - a.y,
        p.x - a.x,
        p.y - a.y,
    );
}

/// The counterpart of [`lemma_wedge_at_start`] at the far end `b`.
pub proof fn lemma_wedge_at_end(a: Point, b: Point, f: Point, p: Point, dx: int, dy: int)
    requires
        det(dx, dy, a.x - b.x, a.y - b.y) < 0,
        det(dx, dy, f.x - b.x, f.y - b.y) <= 0,
        det(dx, dy, p.x - b.x, p.y - b.y) <= 0,
        cross(a, b, p) <= 0,
        cross(a, b, f) > 0,
    ensures
        cross(f, b, p) <= 0,
{
    lemma_cross_reverse(a, b, p);
    lemma_cross_reverse(a, b, f);
    lemma_wedge_mirror(
        dx,
        dy,
        f.x - b.x,
        f.y - b.y,
        a.x - b.x,
        a.y - b.y,
        p.x - b.x,
        p.y - b.y,
    );
    assert(cross(b, f, p) >= 0);
    lemma_cross_reverse(b, f, p);
}

/// An apex `f` with a point `q` strictly to the left of `a -> f` lies
/// strictly on the clockwise side of the direction `d` at `a`.
pub proof fn lemma_strict_at_start(a: Point, b: Point, f: Point, q: Point, dx: int, dy: int)
    requires
        det(dx, dy, b.x - a.x, b.y - a.y) < 0,
        det(dx, dy, f.x - a.x, f.y - a.y) <= 0,
        det(dx, dy, q.x - a.x, q.y - a.y) <= 0,
        cross(a, b, f) > 0,
        cross(a, f, q) > 0,
    ensures
        det(dx, dy, f.x - a.x, f.y - a.y) < 0,
{
    lemma_strictly_inside(
        dx,
        dy,
        f.x - a.x,
        f.y - a.y,
        b.x - a.x,
        b.y - a.y,
        q.x - a.x,
        q.y - a.y,
    );
}

/// The counterpart of [`lemma_strict_at_start`] at the far end `b`.
pub proof fn lemma_strict_at_end(a: Point, b: Point, f: Point, q: Point, dx: int, dy: int)
    requires
        det(dx, dy, a.x - b.x, a.y - b.y) < 0,
        det(dx, dy, f.x - b.x, f.y - b.y) <= 0,
        det(dx, dy, q.x - b.x, q.y - b.y) <= 0,
        cross(a, b, f) > 0,
        cross(f, b, q) > 0,
    ensures
        det(dx, dy, f.x - b.x, f.y - b.y) < 0,
{
    lemma_cross_reverse(a, b, f);
    lemma_cross_reverse(f, b, q);
    lemma_strictly_inside(
        dx,
        dy,
        f.x - b.x,
        f.y - b.y,
        a.x - b.x,
        a.y - b.y,
        q.x - b.x,
        q.y - b.y,
    );
}

} // verus!
