//! What holds of every rectangle that the rotating calipers return.

use vstd::prelude::*;
use crate::aspect::{
    aspect_of, best_edge, edge_dx, edge_dy, edge_length_squared, greatest, least, min_rectangle,
    projection, rectangle_on, smaller,
};
use crate::hull_laws::next_index;
use crate::point::Point;

verus! {

/// All vertices are the same point (or there is none).
pub open spec fn all_same(h: Seq<Point>) -> bool {
    forall|i: int, j: int|
        0 <= i < h.len() && 0 <= j < h.len() ==> #[trigger] h[i] == #[trigger] h[j]
}

/// The least and the greatest projection bound every projection, and each
/// is the projection of some vertex.
pub proof fn lemma_extremes(h: Seq<Point>, e: int, across: bool, k: int)
    requires
        1 <= k <= h.len(),
    ensures
        forall|i: int|
            0 <= i < k ==> least(h, e, across, k) <= #[trigger] projection(h, e, across, i)
                <= greatest(h, e, across, k),
        exists|i: int| 0 <= i < k && #[trigger] projection(h, e, across, i) == least(h, e, across, k),
        exists|i: int|
            0 <= i < k && #[trigger] projection(h, e, across, i) == greatest(h, e, across, k),
    decreases k,
{
    if k > 1 {
        lemma_extremes(h, e, across, k - 1);
        let lo = choose|i: int|
            0 <= i < k - 1 && #[trigger] projection(h, e, across, i) == least(h, e, across, k - 1);
        let hi = choose|i: int|
            0 <= i < k - 1 && #[trigger] projection(h, e, across, i) == greatest(
                h,
                e,
                across,
                k - 1,
            );
        let p = projection(h, e, across, k - 1);
        let lo2 = if p < least(h, e, across, k - 1) {
            k - 1
        } else {
            lo
        };
        let hi2 = if p > greatest(h, e, across, k - 1) {
            k - 1
        } else {
            hi
        };
        assert(projection(h, e, across, lo2) == least(h, e, across, k));
        assert(projection(h, e, across, hi2) == greatest(h, e, across, k));
    } else {
        assert(projection(h, e, across, 0) == least(h, e, across, k));
        assert(projection(h, e, across, 0) == greatest(h, e, across, k));
    }
}

/// An edge has no length exactly when it joins a vertex to an equal one.
pub proof fn lemma_edge_without_length(h: Seq<Point>, e: int)
    requires
        0 <= e < h.len(),
    ensures
        edge_length_squared(h, e) == 0 <==> h[next_index(e, h.len())] == h[e],
        edge_length_squared(h, e) >= 0,
{
    let dx = edge_dx(h, e);
    let dy = edge_dy(h, e);
    assert(dx * dx + dy * dy >= 0 && (dx * dx + dy * dy == 0 <==> dx == 0 && dy == 0))
        by (nonlinear_arith);
}

/// A rectangle is as wide as the edge it is aligned to is long, at least:
/// measured in the edge's unit, its width is no less than the edge's
/// squared length.
pub proof fn lemma_width_spans_edge(h: Seq<Point>, e: int)
    requires
        0 <= e < h.len(),
    ensures
        greatest(h, e, false, h.len() as int) - least(h, e, false, h.len() as int)
            >= edge_length_squared(h, e),
{
    let n = h.len() as int;
    let next = next_index(e, h.len());
    lemma_extremes(h, e, false, n);
    let dx = edge_dx(h, e);
    let dy = edge_dy(h, e);
    let ax: int = h[e].x as int;
    let ay: int = h[e].y as int;
    let bx: int = h[next].x as int;
    let by: int = h[next].y as int;
    assert(projection(h, e, false, next) - projection(h, e, false, e) == edge_length_squared(h, e))
        by (nonlinear_arith)
        requires
            dx == bx - ax,
            dy == by - ay,
            projection(h, e, false, next) == bx * dx + by * dy,
            projection(h, e, false, e) == ax * dx + ay * dy,
            edge_length_squared(h, e) == dx * dx + dy * dy,
    ;
}

/// There is a best edge exactly when some edge has a length; the best edge
/// is one of the edges looked at, and has a length.
pub proof fn lemma_best_edge_exists(h: Seq<Point>, k: int)
    requires
        0 <= k <= h.len(),
    ensures
        best_edge(h, k) is None <==> forall|e: int|
            0 <= e < k ==> #[trigger] edge_length_squared(h, e) == 0,
        best_edge(h, k) matches Some(b) ==> 0 <= b < k && edge_length_squared(h, b) != 0,
    decreases k,
{
    if k > 0 {
        lemma_best_edge_exists(h, k - 1);
        if edge_length_squared(h, k - 1) != 0 {
            assert(!(forall|e: int| 0 <= e < k ==> #[trigger] edge_length_squared(h, e) == 0));
        }
    }
}

/// A closed polygon has no edge with a length exactly when all its vertices
/// are one point.
pub proof fn lemma_edgeless(h: Seq<Point>)
    ensures
        all_same(h) <==> forall|e: int|
            0 <= e < h.len() ==> #[trigger] edge_length_squared(h, e) == 0,
{
    if all_same(h) {
        assert forall|e: int| 0 <= e < h.len() implies #[trigger] edge_length_squared(h, e)
            == 0 by {
            lemma_edge_without_length(h, e);
        }
    }
    if forall|e: int| 0 <= e < h.len() ==> #[trigger] edge_length_squared(h, e) == 0 {
        assert forall|i: int| 0 <= i < h.len() implies #[trigger] h[i] == h[0] by {
            lemma_all_equal_first(h, i);
        }
    }
}

proof fn lemma_all_equal_first(h: Seq<Point>, i: int)
    requires
        0 <= i < h.len(),
        forall|e: int| 0 <= e < h.len() ==> #[trigger] edge_length_squared(h, e) == 0,
    ensures
        h[i] == h[0],
    decreases i,
{
    if i > 0 {
        lemma_all_equal_first(h, i - 1);
        lemma_edge_without_length(h, i - 1);
        assert(edge_length_squared(h, i - 1) == 0);
    }
}

/// The minimum-area rectangle is undefined exactly when the polygon has
/// fewer than two distinct vertices.
pub proof fn lemma_rectangle_undefined(h: Seq<Point>)
    ensures
        min_rectangle(h) is None <==> all_same(h),
{
    lemma_best_edge_exists(h, h.len() as int);
    lemma_edgeless(h);
}

proof fn lemma_fraction_chain(n1: int, l1: int, n2: int, l2: int, n3: int, l3: int)
    requires
        l1 > 0,
        l2 > 0,
        l3 > 0,
        n1 * l2 < n2 * l1,
        n2 * l3 <= n3 * l2,
    ensures
        n1 * l3 < n3 * l1,
{
    assert((n1 * l2) * l3 < (n2 * l1) * l3) by (nonlinear_arith)
        requires
            n1 * l2 < n2 * l1,
            l3 > 0,
    ;
    assert((n2 * l3) * l1 <= (n3 * l2) * l1) by (nonlinear_arith)
        requires
            n2 * l3 <= n3 * l2,
            l1 > 0,
    ;
    assert((n2 * l1) * l3 == (n2 * l3) * l1) by (nonlinear_arith);
    assert((n1 * l2) * l3 == (n1 * l3) * l2) by (nonlinear_arith);
    assert((n3 * l2) * l1 == (n3 * l1) * l2) by (nonlinear_arith);
    assert(n1 * l3 < n3 * l1) by (nonlinear_arith)
        requires
            (n1 * l3) * l2 < (n3 * l1) * l2,
            l2 > 0,
    ;
}

proof fn lemma_projection_range(x: int, y: int, dx: int, dy: int)
    by (nonlinear_arith)
    requires
        -0x8000_0000 <= x < 0x8000_0000,
        -0x8000_0000 <= y < 0x8000_0000,
        -0x1_0000_0000 < dx < 0x1_0000_0000,
        -0x1_0000_0000 < dy < 0x1_0000_0000,
    ensures
        -0x1_0000_0000_0000_0000 <= x * dx + y * dy <= 0x1_0000_0000_0000_0000,
        -0x1_0000_0000_0000_0000 <= y * dx - x * dy <= 0x1_0000_0000_0000_0000,
        0 <= dx * dx + dy * dy < 0x2_0000_0000_0000_0000,
{
}

/// The rectangle on an edge holds the edge's vector and squared length and
/// the extreme projections of the vertices as they are, without loss: all
/// of them fit its fields. It is at least as wide as the edge is long, and
/// well-formed when the edge has a length.
pub proof fn lemma_rectangle_on(h: Seq<Point>, e: int)
    requires
        0 <= e < h.len(),
    ensures
        ({
            let r = rectangle_on(h, e);
            let n = h.len() as int;
            &&& r.dx == edge_dx(h, e)
            &&& r.dy == edge_dy(h, e)
            &&& r.scale == edge_length_squared(h, e)
            &&& r.min_along == least(h, e, false, n)
            &&& r.max_along == greatest(h, e, false, n)
            &&& r.min_across == least(h, e, true, n)
            &&& r.max_across == greatest(h, e, true, n)
            &&& r.width_scaled() >= r.scale
            &&& r.height_scaled() >= 0
            &&& r.scale != 0 ==> r.wf()
        }),
{
    let n = h.len() as int;
    let dx = edge_dx(h, e);
    let dy = edge_dy(h, e);
    lemma_extremes(h, e, false, n);
    lemma_extremes(h, e, true, n);
    lemma_width_spans_edge(h, e);
    assert forall|i: int, across: bool| 0 <= i < n implies -0x1_0000_0000_0000_0000
        <= #[trigger] projection(h, e, across, i) <= 0x1_0000_0000_0000_0000 by {
        lemma_projection_range(h[i].x as int, h[i].y as int, dx, dy);
    }
    lemma_projection_range(0, 0, dx, dy);
    let lo = choose|i: int|
        0 <= i < n && #[trigger] projection(h, e, false, i) == least(h, e, false, n);
    let hi = choose|i: int|
        0 <= i < n && #[trigger] projection(h, e, false, i) == greatest(h, e, false, n);
    let lo2 = choose|i: int|
        0 <= i < n && #[trigger] projection(h, e, true, i) == least(h, e, true, n);
    let hi2 = choose|i: int|
        0 <= i < n && #[trigger] projection(h, e, true, i) == greatest(h, e, true, n);
    assert(-0x1_0000_0000_0000_0000 <= projection(h, e, false, lo) <= 0x1_0000_0000_0000_0000);
    assert(-0x1_0000_0000_0000_0000 <= projection(h, e, false, hi) <= 0x1_0000_0000_0000_0000);
    assert(-0x1_0000_0000_0000_0000 <= projection(h, e, true, lo2) <= 0x1_0000_0000_0000_0000);
    assert(-0x1_0000_0000_0000_0000 <= projection(h, e, true, hi2) <= 0x1_0000_0000_0000_0000);
    assert(projection(h, e, false, lo) <= projection(h, e, false, hi));
    assert(projection(h, e, true, lo2) <= projection(h, e, true, hi2));
}

/// Every vertex of the polygon lies in the rectangle on any of its edges.
pub proof fn lemma_rectangle_holds_vertices(h: Seq<Point>, e: int, i: int)
    requires
        0 <= e < h.len(),
        0 <= i < h.len(),
    ensures
        rectangle_on(h, e).min_along <= projection(h, e, false, i) <= rectangle_on(h, e).max_along,
        rectangle_on(h, e).min_across <= projection(h, e, true, i) <= rectangle_on(
            h,
            e,
        ).max_across,
{
    lemma_rectangle_on(h, e);
    lemma_extremes(h, e, false, h.len() as int);
    lemma_extremes(h, e, true, h.len() as int);
}

/// The aspect ratio of the minimum-area rectangle is undefined exactly when
/// the polygon has fewer than two distinct vertices or the rectangle has no
/// height.
pub proof fn lemma_aspect_undefined(h: Seq<Point>)
    ensures
        aspect_of(h) is None <==> all_same(h) || (min_rectangle(h) matches Some(r)
            && r.height_scaled() == 0),
        aspect_of(h) matches Some(q) ==> q.num >= q.den > 0,
{
    lemma_rectangle_undefined(h);
    lemma_best_edge_exists(h, h.len() as int);
    match best_edge(h, h.len() as int) {
        None => {},
        Some(b) => {
            lemma_rectangle_on(h, b);
        },
    }
}

/// The best edge carries the smallest rectangle, and is the first to do so:
/// no edge with a length carries a rectangle of less area, and every earlier
/// such edge carries one of more area.
pub proof fn lemma_best_edge_minimal(h: Seq<Point>, k: int)
    requires
        0 <= k <= h.len(),
    ensures
        best_edge(h, k) matches Some(b) ==> forall|e: int|
            0 <= e < k && #[trigger] edge_length_squared(h, e) != 0 ==> !smaller(
                rectangle_on(h, e),
                rectangle_on(h, b),
            ) && (e < b ==> smaller(rectangle_on(h, b), rectangle_on(h, e))),
    decreases k,
{
    if k > 0 {
        lemma_best_edge_minimal(h, k - 1);
        lemma_best_edge_exists(h, k - 1);
        let c = k - 1;
        if edge_length_squared(h, c) != 0 {
            lemma_edge_without_length(h, c);
            lemma_rectangle_on(h, c);
            match best_edge(h, k - 1) {
                None => {},
                Some(j) => {
                    lemma_edge_without_length(h, j);
                    lemma_rectangle_on(h, j);
                    let rc = rectangle_on(h, c);
                    let rj = rectangle_on(h, j);
                    if smaller(rc, rj) {
                        assert forall|e: int|
                            0 <= e < k && #[trigger] edge_length_squared(h, e) != 0 implies !smaller(
                            rectangle_on(h, e),
                            rc,
                        ) && (e < c ==> smaller(rc, rectangle_on(h, e))) by {
                            if e < c {
                                let re = rectangle_on(h, e);
                                lemma_edge_without_length(h, e);
                                lemma_rectangle_on(h, e);
                                lemma_fraction_chain(
                                    rc.width_scaled() * rc.height_scaled(),
                                    rc.scale as int,
                                    rj.width_scaled() * rj.height_scaled(),
                                    rj.scale as int,
                                    re.width_scaled() * re.height_scaled(),
                                    re.scale as int,
                                );
                            }
                        }
                    }
                },
            }
        }
    }
}

} // verus!
