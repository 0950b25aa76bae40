//! Convex hulls by QuickHull.
//!
//! The hull is described once as a recursive definition over sequences
//! ([`hull_indices`], [`chain`]) and computed with an explicit work stack, so
//! that no input shape can exhaust the call stack.

use vstd::prelude::*;
use crate::point::{Point, cross, length_squared, lemma_product_bound, which_side};
use crate::wide::Wide;

verus! {

/// The square of a number.
pub open spec fn sq(v: int) -> int {
    v * v
}

/// The orientation of the point at index `i` against the directed line
/// through the points at indices `a` and `b`.
pub open spec fn height(pts: Seq<Point>, a: usize, b: usize, i: usize) -> int {
    cross(pts[a as int], pts[b as int], pts[i as int])
}

/// Holds of the indices whose points lie strictly to the left of the line
/// from `a` to `b`.
pub open spec fn left_of(pts: Seq<Point>, a: usize, b: usize) -> spec_fn(usize) -> bool {
    |i: usize| height(pts, a, b, i) > 0
}

/// Holds of the indices whose points lie strictly to the left of the line
/// from `f` to `b` without lying strictly to the left of the line from `a` to `f`.
pub open spec fn beyond(pts: Seq<Point>, a: usize, f: usize, b: usize) -> spec_fn(usize) -> bool {
    |i: usize| !(height(pts, a, f, i) > 0) && height(pts, f, b, i) > 0
}

/// The indices `0, 1, ..., n - 1` in order.
pub open spec fn indices(n: nat) -> Seq<usize> {
    Seq::new(n, |i: int| i as usize)
}

/// The index of the first point with the smallest x-coordinate (0 for an
/// empty sequence).
pub open spec fn min_x_index(pts: Seq<Point>) -> int
    decreases pts.len(),
{
    if pts.len() <= 1 {
        0
    } else {
        let i = min_x_index(pts.drop_last());
        if pts.last().x < pts[i].x {
            pts.len() - 1
        } else {
            i
        }
    }
}

/// The index of the first point with the largest x-coordinate (0 for an
/// empty sequence).
pub open spec fn max_x_index(pts: Seq<Point>) -> int
    decreases pts.len(),
{
    if pts.len() <= 1 {
        0
    } else {
        let i = max_x_index(pts.drop_last());
        if pts.last().x > pts[i].x {
            pts.len() - 1
        } else {
            i
        }
    }
}

/// The index of the first point with the smallest y-coordinate (0 for an
/// empty sequence).
pub open spec fn min_y_index(pts: Seq<Point>) -> int
    decreases pts.len(),
{
    if pts.len() <= 1 {
        0
    } else {
        let i = min_y_index(pts.drop_last());
        if pts.last().y < pts[i].y {
            pts.len() - 1
        } else {
            i
        }
    }
}

/// The index of the first point with the largest y-coordinate (0 for an
/// empty sequence).
pub open spec fn max_y_index(pts: Seq<Point>) -> int
    decreases pts.len(),
{
    if pts.len() <= 1 {
        0
    } else {
        let i = max_y_index(pts.drop_last());
        if pts.last().y > pts[i].y {
            pts.len() - 1
        } else {
            i
        }
    }
}

/// The two ends between which the hull is built: the first leftmost and
/// the first rightmost point. Where all points share one x-coordinate these
/// are the same point and span nothing; the ends are then the first lowest
/// and the first highest point.
pub open spec fn hull_ends(pts: Seq<Point>) -> (int, int) {
    if min_x_index(pts) == max_x_index(pts) {
        (min_y_index(pts), max_y_index(pts))
    } else {
        (min_x_index(pts), max_x_index(pts))
    }
}

/// The position in `cand` of the first candidate whose squared distance to
/// the line through `a` and `b` is largest (0 when there is no candidate).
pub open spec fn farthest_position(pts: Seq<Point>, cand: Seq<usize>, a: usize, b: usize) -> int
    decreases cand.len(),
{
    if cand.len() <= 1 {
        0
    } else {
        let k = farthest_position(pts, cand.drop_last(), a, b);
        if sq(height(pts, a, b, cand.last())) > sq(height(pts, a, b, cand[k])) {
            cand.len() - 1
        } else {
            k
        }
    }
}

/// The hull vertices strictly between `a` and `b`, in order from `a` to `b`,
/// among the candidates `cand` that lie to the left of the line from `a` to `b`.
///
/// The farthest candidate `f` is a vertex; the vertices before it are found
/// among the candidates to the left of `a -> f`, those after it among the
/// remaining candidates to the left of `f -> b`.
pub open spec fn chain(pts: Seq<Point>, cand: Seq<usize>, a: usize, b: usize) -> Seq<usize>
    decreases cand.len(),
    via chain_terminates
{
    if cand.len() == 0 {
        Seq::empty()
    } else {
        let f = cand[farthest_position(pts, cand, a, b)];
        chain(pts, cand.filter(left_of(pts, a, f)), a, f).push(f) + chain(
            pts,
            cand.filter(beyond(pts, a, f, b)),
            f,
            b,
        )
    }
}

#[via_fn]
proof fn chain_terminates(pts: Seq<Point>, cand: Seq<usize>, a: usize, b: usize) {
    if cand.len() != 0 {
        lemma_farthest_in_range(pts, cand, a, b);
        let k = farthest_position(pts, cand, a, b);
        let f = cand[k];
        lemma_height_of_ends(pts, a, f);
        lemma_height_of_ends(pts, f, b);
        lemma_filter_shrinks(cand, left_of(pts, a, f), k);
        lemma_filter_shrinks(cand, beyond(pts, a, f, b), k);
    }
}

/// The indices of the hull vertices of `pts`, clockwise from the first
/// end: that end, the vertices to the left of the line to the second end,
/// the second end, the vertices to the left of the line back. The ends are
/// the first leftmost and the first rightmost point, or, for points that
/// share one x-coordinate, the first lowest and the first highest.
/// Fewer than two points are their own hull.
pub open spec fn hull_indices(pts: Seq<Point>) -> Seq<usize> {
    if pts.len() == 0 {
        Seq::empty()
    } else if pts.len() == 1 {
        seq![0usize]
    } else {
        let a = hull_ends(pts).0 as usize;
        let b = hull_ends(pts).1 as usize;
        let all = indices(pts.len());
        (seq![a] + chain(pts, all.filter(left_of(pts, a, b)), a, b)).push(b) + chain(
            pts,
            all.filter(left_of(pts, b, a)),
            b,
            a,
        )
    }
}

/// The points at the given indices.
pub open spec fn points_at(pts: Seq<Point>, idx: Seq<usize>) -> Seq<Point> {
    Seq::new(idx.len(), |k: int| pts[idx[k] as int])
}

/// The convex hull of `pts` as a sequence of points.
pub open spec fn hull_of(pts: Seq<Point>) -> Seq<Point> {
    points_at(pts, hull_indices(pts))
}

/// The ends of a line are on the line.
pub proof fn lemma_height_of_ends(pts: Seq<Point>, a: usize, b: usize)
    ensures
        height(pts, a, b, a) == 0,
        height(pts, a, b, b) == 0,
{
    let p = pts[a as int];
    let q = pts[b as int];
    assert((q.x - p.x) * (q.y - p.y) - (q.y - p.y) * (q.x - p.x) == 0) by (nonlinear_arith);
    assert((q.x - p.x) * (p.y - p.y) - (q.y - p.y) * (p.x - p.x) == 0) by (nonlinear_arith);
}

/// The farthest candidate is one of the candidates.
pub proof fn lemma_farthest_in_range(pts: Seq<Point>, cand: Seq<usize>, a: usize, b: usize)
    requires
        cand.len() > 0,
    ensures
        0 <= farthest_position(pts, cand, a, b) < cand.len(),
    decreases cand.len(),
{
    if cand.len() > 1 {
        lemma_farthest_in_range(pts, cand.drop_last(), a, b);
    }
}

/// A filter that rejects one of the elements returns fewer elements.
pub proof fn lemma_filter_shrinks<A>(s: Seq<A>, pred: spec_fn(A) -> bool, k: int)
    requires
        0 <= k < s.len(),
        !pred(s[k]),
    ensures
        s.filter(pred).len() < s.len(),
    decreases s.len(),
{
    reveal(Seq::filter);
    s.drop_last().lemma_filter_len(pred);
    if k < s.len() - 1 {
        lemma_filter_shrinks(s.drop_last(), pred, k);
    }
}

/// The first leftmost point is leftmost, and no earlier point is as far left.
pub proof fn lemma_min_x_index(pts: Seq<Point>)
    requires
        pts.len() > 0,
    ensures
        0 <= min_x_index(pts) < pts.len(),
        forall|j: int| 0 <= j < pts.len() ==> pts[min_x_index(pts)].x <= (#[trigger] pts[j]).x,
        forall|j: int| 0 <= j < min_x_index(pts) ==> pts[min_x_index(pts)].x < (#[trigger] pts[j]).x,
    decreases pts.len(),
{
    if pts.len() > 1 {
        lemma_min_x_index(pts.drop_last());
        let i = min_x_index(pts.drop_last());
        assert forall|j: int| 0 <= j < pts.len() implies pts[min_x_index(pts)].x <= (
        #[trigger] pts[j]).x by {
            if j < pts.len() - 1 {
                assert(pts.drop_last()[j] == pts[j]);
            }
        }
        assert forall|j: int| 0 <= j < min_x_index(pts) implies pts[min_x_index(pts)].x < (
        #[trigger] pts[j]).x by {
            assert(pts.drop_last()[j] == pts[j]);
        }
    }
}

/// The first rightmost point is rightmost, and no earlier point is as far right.
pub proof fn lemma_max_x_index(pts: Seq<Point>)
    requires
        pts.len() > 0,
    ensures
        0 <= max_x_index(pts) < pts.len(),
        forall|j: int| 0 <= j < pts.len() ==> pts[max_x_index(pts)].x >= (#[trigger] pts[j]).x,
        forall|j: int| 0 <= j < max_x_index(pts) ==> pts[max_x_index(pts)].x > (#[trigger] pts[j]).x,
    decreases pts.len(),
{
    if pts.len() > 1 {
        lemma_max_x_index(pts.drop_last());
        let i = max_x_index(pts.drop_last());
        assert forall|j: int| 0 <= j < pts.len() implies pts[max_x_index(pts)].x >= (
        #[trigger] pts[j]).x by {
            if j < pts.len() - 1 {
                assert(pts.drop_last()[j] == pts[j]);
            }
        }
        assert forall|j: int| 0 <= j < max_x_index(pts) implies pts[max_x_index(pts)].x > (
        #[trigger] pts[j]).x by {
            assert(pts.drop_last()[j] == pts[j]);
        }
    }
}

/// The first lowest point is lowest, and no earlier point is as low.
pub proof fn lemma_min_y_index(pts: Seq<Point>)
    requires
        pts.len() > 0,
    ensures
        0 <= min_y_index(pts) < pts.len(),
        forall|j: int| 0 <= j < pts.len() ==> pts[min_y_index(pts)].y <= (#[trigger] pts[j]).y,
        forall|j: int| 0 <= j < min_y_index(pts) ==> pts[min_y_index(pts)].y < (#[trigger] pts[j]).y,
    decreases pts.len(),
{
    if pts.len() > 1 {
        lemma_min_y_index(pts.drop_last());
        let i = min_y_index(pts.drop_last());
        assert forall|j: int| 0 <= j < pts.len() implies pts[min_y_index(pts)].y <= (
        #[trigger] pts[j]).y by {
            if j < pts.len() - 1 {
                assert(pts.drop_last()[j] == pts[j]);
            }
        }
        assert forall|j: int| 0 <= j < min_y_index(pts) implies pts[min_y_index(pts)].y < (
        #[trigger] pts[j]).y by {
            assert(pts.drop_last()[j] == pts[j]);
        }
    }
}

/// The first highest point is highest, and no earlier point is as high.
pub proof fn lemma_max_y_index(pts: Seq<Point>)
    requires
        pts.len() > 0,
    ensures
        0 <= max_y_index(pts) < pts.len(),
        forall|j: int| 0 <= j < pts.len() ==> pts[max_y_index(pts)].y >= (#[trigger] pts[j]).y,
        forall|j: int| 0 <= j < max_y_index(pts) ==> pts[max_y_index(pts)].y > (#[trigger] pts[j]).y,
    decreases pts.len(),
{
    if pts.len() > 1 {
        lemma_max_y_index(pts.drop_last());
        let i = max_y_index(pts.drop_last());
        assert forall|j: int| 0 <= j < pts.len() implies pts[max_y_index(pts)].y >= (
        #[trigger] pts[j]).y by {
            if j < pts.len() - 1 {
                assert(pts.drop_last()[j] == pts[j]);
            }
        }
        assert forall|j: int| 0 <= j < max_y_index(pts) implies pts[max_y_index(pts)].y > (
        #[trigger] pts[j]).y by {
            assert(pts.drop_last()[j] == pts[j]);
        }
    }
}

/// The ends of the hull are points, and they are the same point only
/// where all points are.
pub proof fn lemma_hull_ends(pts: Seq<Point>)
    requires
        pts.len() > 0,
    ensures
        0 <= hull_ends(pts).0 < pts.len(),
        0 <= hull_ends(pts).1 < pts.len(),
        min_x_index(pts) == max_x_index(pts) <==> forall|i: int|
            0 <= i < pts.len() ==> (#[trigger] pts[i]).x == pts[0].x,
        hull_ends(pts).0 == hull_ends(pts).1 ==> forall|i: int|
            0 <= i < pts.len() ==> #[trigger] pts[i] == pts[0],
{
    lemma_min_x_index(pts);
    lemma_max_x_index(pts);
    lemma_min_y_index(pts);
    lemma_max_y_index(pts);
    let a = min_x_index(pts);
    let b = max_x_index(pts);
    if a == b {
        assert forall|i: int| 0 <= i < pts.len() implies (#[trigger] pts[i]).x == pts[0].x by {
            assert(pts[a].x <= pts[i].x <= pts[b].x);
            assert(pts[a].x <= pts[0].x <= pts[b].x);
        }
        if min_y_index(pts) == max_y_index(pts) {
            let m = min_y_index(pts);
            assert forall|i: int| 0 <= i < pts.len() implies #[trigger] pts[i] == pts[0] by {
                assert(pts[m].y <= pts[i].y <= pts[m].y);
                assert(pts[m].y <= pts[0].y <= pts[m].y);
                assert(pts[i].x == pts[0].x);
            }
        }
    } else {
        if forall|i: int| 0 <= i < pts.len() ==> (#[trigger] pts[i]).x == pts[0].x {
            assert(pts[a].x == pts[0].x);
            assert(pts[b].x == pts[0].x);
            if a > 0 {
                assert(pts[a].x < pts[0].x);
            }
            if b > 0 {
                assert(pts[b].x > pts[0].x);
            }
        }
    }
}

/// Finds the first point with the smallest x-coordinate and the first point
/// with the largest; both indices are 0 when there is no point.
pub fn find_min_max_x_indices(points: &[Point]) -> (ends: (usize, usize))
    ensures
        ends.0 == min_x_index(points@),
        ends.1 == max_x_index(points@),
        points.len() > 0 ==> ends.0 < points.len() && ends.1 < points.len(),
{
    let mut min_idx: usize = 0;
    let mut max_idx: usize = 0;
    let mut i: usize = 1;
    if points.len() == 0 {
        return (0, 0);
    }
    assert(points@.take(1).len() == 1);
    while i < points.len()
        invariant
            1 <= i <= points.len(),
            min_idx < i,
            max_idx < i,
            min_idx == min_x_index(points@.take(i as int)),
            max_idx == max_x_index(points@.take(i as int)),
        decreases points.len() - i,
    {
        assert(points@.take(i + 1).drop_last() =~= points@.take(i as int));
        if points[i].x < points[min_idx].x {
            min_idx = i;
        }
        if points[i].x > points[max_idx].x {
            max_idx = i;
        }
        i = i + 1;
    }
    assert(points@.take(i as int) =~= points@);
    (min_idx, max_idx)
}

/// Finds the first point with the smallest y-coordinate and the first point
/// with the largest; both indices are 0 when there is no point.
pub fn find_min_max_y_indices(points: &[Point]) -> (ends: (usize, usize))
    ensures
        ends.0 == min_y_index(points@),
        ends.1 == max_y_index(points@),
        points.len() > 0 ==> ends.0 < points.len() && ends.1 < points.len(),
{
    let mut min_idx: usize = 0;
    let mut max_idx: usize = 0;
    let mut i: usize = 1;
    if points.len() == 0 {
        return (0, 0);
    }
    assert(points@.take(1).len() == 1);
    while i < points.len()
        invariant
            1 <= i <= points.len(),
            min_idx < i,
            max_idx < i,
            min_idx == min_y_index(points@.take(i as int)),
            max_idx == max_y_index(points@.take(i as int)),
        decreases points.len() - i,
    {
        assert(points@.take(i + 1).drop_last() =~= points@.take(i as int));
        if points[i].y < points[min_idx].y {
            min_idx = i;
        }
        if points[i].y > points[max_idx].y {
            max_idx = i;
        }
        i = i + 1;
    }
    assert(points@.take(i as int) =~= points@);
    (min_idx, max_idx)
}

/// Finds the two ends between which the hull is built: the first leftmost
/// and the first rightmost point, or, where these are one point because all
/// points share one x-coordinate, the first lowest and the first highest.
pub fn find_hull_ends(points: &[Point]) -> (ends: (usize, usize))
    ensures
        ends.0 == hull_ends(points@).0,
        ends.1 == hull_ends(points@).1,
        points.len() > 0 ==> ends.0 < points.len() && ends.1 < points.len(),
{
    let across: (usize, usize) = find_min_max_x_indices(points);
    if across.0 == across.1 {
        find_min_max_y_indices(points)
    } else {
        across
    }
}

/// A squared distance from a point to a line, as the exact fraction
/// `cross_squared / length_squared`.
#[derive(Clone, Copy, Debug, PartialEq, Eq, Structural)]
pub struct SquaredDistance {
    /// The square of the orientation test of the point against the line.
    pub cross_squared: Wide,
    /// The squared length of the segment that spans the line; never zero.
    pub length_squared: u128,
}

/// The squared distance from `p` to the line through `a` and `b`, or `None`
/// when `a` and `b` coincide and span no line.
pub fn distance_squared_to_line(a: &Point, b: &Point, p: &Point) -> (dist: Option<SquaredDistance>)
    ensures
        dist is None <==> length_squared(*a, *b) == 0,
        dist matches Some(d) ==> d.cross_squared.value() == sq(cross(*a, *b, *p))
            && d.length_squared == length_squared(*a, *b),
{
    let ab_x: i128 = b.x as i128 - a.x as i128;
    let ab_y: i128 = b.y as i128 - a.y as i128;
    proof {
        lemma_product_bound(ab_x as int, ab_x as int, 0xffff_ffff);
        lemma_product_bound(ab_y as int, ab_y as int, 0xffff_ffff);
        assert(ab_x * ab_x >= 0) by (nonlinear_arith);
        assert(ab_y * ab_y >= 0) by (nonlinear_arith);
    }
    let len_sq: i128 = ab_x * ab_x + ab_y * ab_y;
    if len_sq == 0 {
        return None;
    }
    let cross_product: i128 = which_side(a, b, p);
    proof {
        crate::point::lemma_cross_bound(*a, *b, *p);
    }
    let magnitude: u128 = if cross_product < 0 {
        (-cross_product) as u128
    } else {
        cross_product as u128
    };
    let squared: Wide = Wide::product(magnitude, magnitude);
    proof {
        let c = cross_product as int;
        assert((-c) * (-c) == c * c) by (nonlinear_arith);
    }
    Some(SquaredDistance { cross_squared: squared, length_squared: len_sq as u128 })
}

/// One entry of the work stack of [`find_hull`].
enum Work {
    /// A stretch of the hull still to be found: the candidates to the left of
    /// the line from `from` to `to`.
    Expand { cand: Vec<usize>, from: usize, to: usize },
    /// A vertex that is known and waits for the vertices before it.
    Emit(usize),
}

/// The vertices that one entry of the work stack will contribute.
spec fn pending_item(pts: Seq<Point>, w: Work) -> Seq<usize> {
    match w {
        Work::Expand { cand, from, to } => chain(pts, cand@, from, to),
        Work::Emit(v) => seq![v],
    }
}

/// The vertices that the work stack will contribute, in the order in which
/// they will come out: the top of the stack is its last entry.
spec fn pending(pts: Seq<Point>, stack: Seq<Work>) -> Seq<usize>
    decreases stack.len(),
{
    if stack.len() == 0 {
        Seq::empty()
    } else {
        pending_item(pts, stack.last()) + pending(pts, stack.drop_last())
    }
}

/// A bound on the number of steps that an entry of the work stack stands for.
spec fn item_weight(w: Work) -> nat {
    match w {
        Work::Expand { cand, from, to } => 3 * cand@.len() + 1,
        Work::Emit(v) => 1,
    }
}

/// A bound on the number of steps that the work stack stands for.
spec fn weight(stack: Seq<Work>) -> nat
    decreases stack.len(),
{
    if stack.len() == 0 {
        0
    } else {
        item_weight(stack.last()) + weight(stack.drop_last())
    }
}

/// Every candidate is an index into `pts` and lies strictly to the left of
/// the line from `a` to `b`.
pub open spec fn candidates_ok(pts: Seq<Point>, cand: Seq<usize>, a: usize, b: usize) -> bool {
    &&& a < pts.len()
    &&& b < pts.len()
    &&& forall|j: int| 0 <= j < cand.len() ==> (#[trigger] cand[j]) < pts.len() && height(pts, a, b, cand[j]) > 0
}

/// What [`find_hull`] keeps true of each entry of its work stack.
spec fn work_ok(pts: Seq<Point>, w: Work) -> bool {
    match w {
        Work::Expand { cand, from, to } => candidates_ok(pts, cand@, from, to),
        Work::Emit(v) => true,
    }
}

proof fn lemma_pending_push(pts: Seq<Point>, stack: Seq<Work>, w: Work)
    ensures
        pending(pts, stack.push(w)) == pending_item(pts, w) + pending(pts, stack),
        weight(stack.push(w)) == item_weight(w) + weight(stack),
{
    assert(stack.push(w).drop_last() =~= stack);
}

/// The two parts into which a farthest candidate splits the others are
/// together smaller than the whole.
pub proof fn lemma_split_shrinks(pts: Seq<Point>, cand: Seq<usize>, a: usize, f: usize, b: usize)
    requires
        cand.contains(f),
    ensures
        cand.filter(left_of(pts, a, f)).len() + cand.filter(beyond(pts, a, f, b)).len()
            < cand.len(),
    decreases cand.len(),
{
    reveal(Seq::filter);
    lemma_height_of_ends(pts, a, f);
    lemma_height_of_ends(pts, f, b);
    let k = choose|k: int| 0 <= k < cand.len() && cand[k] == f;
    let rest = cand.drop_last();
    if k < cand.len() - 1 {
        assert(rest[k] == f);
        lemma_split_shrinks(pts, rest, a, f, b);
    } else {
        lemma_split_bounded(pts, rest, a, f, b);
    }
}

proof fn lemma_split_bounded(pts: Seq<Point>, cand: Seq<usize>, a: usize, f: usize, b: usize)
    ensures
        cand.filter(left_of(pts, a, f)).len() + cand.filter(beyond(pts, a, f, b)).len()
            <= cand.len(),
    decreases cand.len(),
{
    reveal(Seq::filter);
    if cand.len() > 0 {
        lemma_split_bounded(pts, cand.drop_last(), a, f, b);
    }
}

/// Finds the position of the candidate farthest from the line through `a`
/// and `b`; of several equally far, the first.
fn farthest(points: &[Point], cand: &Vec<usize>, a: usize, b: usize) -> (k: usize)
    requires
        cand.len() > 0,
        candidates_ok(points@, cand@, a, b),
    ensures
        k == farthest_position(points@, cand@, a, b),
        k < cand.len(),
{
    proof {
        lemma_spans_a_line(points@, cand@, a, b);
    }
    let mut best: usize = 0;
    let first: Option<SquaredDistance> = distance_squared_to_line(
        &points[a],
        &points[b],
        &points[cand[0]],
    );
    let mut max_dist: Wide = first.unwrap().cross_squared;
    let mut i: usize = 1;
    assert(cand@.take(1).len() == 1);
    while i < cand.len()
        invariant
            1 <= i <= cand.len(),
            best < i,
            candidates_ok(points@, cand@, a, b),
            length_squared(points@[a as int], points@[b as int]) != 0,
            best == farthest_position(points@, cand@.take(i as int), a, b),
            max_dist.value() == sq(height(points@, a, b, cand@[best as int])),
        decreases cand.len() - i,
    {
        assert(cand@.take(i + 1).drop_last() =~= cand@.take(i as int));
        let dist: Option<SquaredDistance> = distance_squared_to_line(
            &points[a],
            &points[b],
            &points[cand[i]],
        );
        let d: Wide = dist.unwrap().cross_squared;
        if max_dist.less_than(&d) {
            max_dist = d;
            best = i;
        }
        i = i + 1;
    }
    assert(cand@.take(i as int) =~= cand@);
    best
}

/// A line with a point strictly to one side of it has two distinct ends.
pub proof fn lemma_spans_a_line(pts: Seq<Point>, cand: Seq<usize>, a: usize, b: usize)
    requires
        cand.len() > 0,
        candidates_ok(pts, cand, a, b),
    ensures
        length_squared(pts[a as int], pts[b as int]) != 0,
{
    let p = pts[a as int];
    let q = pts[b as int];
    let r = pts[cand[0] as int];
    assert(height(pts, a, b, cand[0]) > 0);
    let ux: int = q.x - p.x;
    let uy: int = q.y - p.y;
    if ux * ux + uy * uy == 0 {
        assert(ux == 0 && uy == 0) by (nonlinear_arith)
            requires
                ux * ux + uy * uy == 0,
        ;
        assert(ux * (r.y - p.y) - uy * (r.x - p.x) == 0) by (nonlinear_arith)
            requires
                ux == 0,
                uy == 0,
        ;
    }
}

/// Splits the candidates around the vertex `f` found between `a` and `b`:
/// those strictly to the left of `a -> f`, and of the others those strictly
/// to the left of `f -> b`. The rest lie inside the hull and are dropped.
fn split(points: &[Point], cand: &Vec<usize>, a: usize, f: usize, b: usize) -> (parts: (
    Vec<usize>,
    Vec<usize>,
))
    requires
        a < points.len(),
        b < points.len(),
        f < points.len(),
        forall|j: int| 0 <= j < cand.len() ==> (#[trigger] cand[j]) < points.len(),
    ensures
        parts.0@ == cand@.filter(left_of(points@, a, f)),
        parts.1@ == cand@.filter(beyond(points@, a, f, b)),
        candidates_ok(points@, parts.0@, a, f),
        candidates_ok(points@, parts.1@, f, b),
{
    let mut s1: Vec<usize> = Vec::new();
    let mut s2: Vec<usize> = Vec::new();
    let mut i: usize = 0;
    proof {
        reveal(Seq::filter);
        assert(cand@.take(0).len() == 0);
    }
    while i < cand.len()
        invariant
            i <= cand.len(),
            a < points.len(),
            b < points.len(),
            f < points.len(),
            forall|j: int| 0 <= j < cand.len() ==> (#[trigger] cand[j]) < points.len(),
            s1@ == cand@.take(i as int).filter(left_of(points@, a, f)),
            s2@ == cand@.take(i as int).filter(beyond(points@, a, f, b)),
            candidates_ok(points@, s1@, a, f),
            candidates_ok(points@, s2@, f, b),
        decreases cand.len() - i,
    {
        let idx: usize = cand[i];
        proof {
            assert(cand@.take(i + 1) =~= cand@.take(i as int).push(idx));
            cand@.take(i as int).lemma_filter_push(idx, left_of(points@, a, f));
            cand@.take(i as int).lemma_filter_push(idx, beyond(points@, a, f, b));
        }
        let side1: i128 = which_side(&points[a], &points[f], &points[idx]);
        let side2: i128 = which_side(&points[f], &points[b], &points[idx]);
        if side1 > 0 {
            s1.push(idx);
        } else if side2 > 0 {
            s2.push(idx);
        }
        i = i + 1;
    }
    assert(cand@.take(i as int) =~= cand@);
    (s1, s2)
}

/// Finds the hull vertices strictly between the vertices `a` and `b` among
/// the candidates, all of which lie strictly to the left of the line from
/// `a` to `b`. The vertices come in order from `a` to `b`.
///
/// The work is kept on an explicit stack: its depth costs heap, not call
/// stack, whatever the shape of the input.
pub fn find_hull(points: &[Point], cand: Vec<usize>, a: usize, b: usize) -> (found: Vec<usize>)
    requires
        candidates_ok(points@, cand@, a, b),
    ensures
        found@ == chain(points@, cand@, a, b),
{
    let ghost goal = chain(points@, cand@, a, b);
    let mut out: Vec<usize> = Vec::new();
    let mut stack: Vec<Work> = Vec::new();
    proof {
        lemma_pending_push(points@, stack@, Work::Expand { cand, from: a, to: b });
        assert(out@ + goal =~= goal);
        assert(goal + Seq::<usize>::empty() =~= goal);
    }
    stack.push(Work::Expand { cand, from: a, to: b });
    while stack.len() > 0
        invariant
            out@ + pending(points@, stack@) == goal,
            forall|j: int| 0 <= j < stack.len() ==> work_ok(points@, #[trigger] stack@[j]),
        decreases weight(stack@),
    {
        let ghost before = stack@;
        let ghost done = out@;
        let work: Work = stack.pop().unwrap();
        let ghost rest = stack@;
        assert(work_ok(points@, before[before.len() - 1]));
        assert(pending(points@, before) == pending_item(points@, work) + pending(points@, rest));
        assert(weight(before) == item_weight(work) + weight(rest));
        match work {
            Work::Emit(v) => {
                out.push(v);
                assert(out@ + pending(points@, rest) =~= done + (seq![v] + pending(points@, rest)));
            },
            Work::Expand { cand, from, to } => {
                if cand.len() > 0 {
                    let k: usize = farthest(points, &cand, from, to);
                    let f: usize = cand[k];
                    let parts: (Vec<usize>, Vec<usize>) = split(points, &cand, from, f, to);
                    let s1: Vec<usize> = parts.0;
                    let s2: Vec<usize> = parts.1;
                    proof {
                        let w2 = Work::Expand { cand: s2, from: f, to };
                        let w1 = Work::Expand { cand: s1, from, to: f };
                        lemma_pending_push(points@, rest, w2);
                        lemma_pending_push(points@, rest.push(w2), Work::Emit(f));
                        lemma_pending_push(points@, rest.push(w2).push(Work::Emit(f)), w1);
                        assert(cand@.contains(f));
                        lemma_split_shrinks(points@, cand@, from, f, to);
                        let c1 = chain(points@, s1@, from, f);
                        let c2 = chain(points@, s2@, f, to);
                        let tail = pending(points@, rest);
                        assert(chain(points@, cand@, from, to) == c1.push(f) + c2);
                        assert(done + ((c1.push(f) + c2) + tail) =~= done + (c1 + (seq![f] + (c2
                            + tail))));
                    }
                    stack.push(Work::Expand { cand: s2, from: f, to });
                    stack.push(Work::Emit(f));
                    stack.push(Work::Expand { cand: s1, from, to: f });
                } else {
                    assert(out@ + pending(points@, rest) =~= done + (Seq::<usize>::empty()
                        + pending(points@, rest)));
                }
            },
        }
    }
    assert(out@ + Seq::<usize>::empty() =~= out@);
    out
}

/// Computes the indices of the convex hull's vertices, clockwise from the
/// first leftmost point (the first lowest, where all points share one
/// x-coordinate).
pub fn quick_hull_indices(points: &[Point]) -> (hull: Vec<usize>)
    ensures
        hull@ == hull_indices(points@),
        hull.len() <= points.len(),
        forall|k: int| 0 <= k < hull.len() ==> (#[trigger] hull@[k]) < points.len(),
{
    let n: usize = points.len();
    proof {
        crate::hull_laws::lemma_hull_indices_in_range(points@);
        crate::hull_laws::lemma_hull_size(points@);
    }
    let mut hull: Vec<usize> = Vec::new();
    if n == 0 {
        return hull;
    }
    if n == 1 {
        hull.push(0);
        assert(hull@ =~= seq![0usize]);
        return hull;
    }
    let ends: (usize, usize) = find_hull_ends(points);
    let min_idx: usize = ends.0;
    let max_idx: usize = ends.1;
    let mut s1: Vec<usize> = Vec::new();
    let mut s2: Vec<usize> = Vec::new();
    let mut i: usize = 0;
    proof {
        reveal(Seq::filter);
        assert(indices(0).len() == 0);
    }
    while i < n
        invariant
            i <= n,
            n == points.len(),
            min_idx < n,
            max_idx < n,
            s1@ == indices(i as nat).filter(left_of(points@, min_idx, max_idx)),
            s2@ == indices(i as nat).filter(left_of(points@, max_idx, min_idx)),
            candidates_ok(points@, s1@, min_idx, max_idx),
            candidates_ok(points@, s2@, max_idx, min_idx),
        decreases n - i,
    {
        proof {
            assert(indices((i + 1) as nat) =~= indices(i as nat).push(i));
            indices(i as nat).lemma_filter_push(i, left_of(points@, min_idx, max_idx));
            indices(i as nat).lemma_filter_push(i, left_of(points@, max_idx, min_idx));
            crate::point::lemma_cross_reverse(
                points@[min_idx as int],
                points@[max_idx as int],
                points@[i as int],
            );
        }
        let side: i128 = which_side(&points[min_idx], &points[max_idx], &points[i]);
        if side > 0 {
            s1.push(i);
        } else if side < 0 {
            s2.push(i);
        }
        i = i + 1;
    }
    hull.push(min_idx);
    let mut upper: Vec<usize> = find_hull(points, s1, min_idx, max_idx);
    hull.append(&mut upper);
    hull.push(max_idx);
    let mut lower: Vec<usize> = find_hull(points, s2, max_idx, min_idx);
    hull.append(&mut lower);
    hull
}

/// Computes the convex hull of the points: its vertices in clockwise order,
/// starting from the first point with the smallest x-coordinate, where ties
/// go to the point that comes first. Points that share one x-coordinate
/// have as hull the first lowest and the first highest of them; points that
/// are all equal have that point twice. Every vertex is one of the points,
/// and no point lies strictly to the left of an edge; points on one line
/// all lie on the segment between the hull's two vertices. Fewer than two
/// points are their own hull.
pub fn quick_hull(points: &[Point]) -> (hull: Vec<Point>)
    ensures
        hull@ == hull_of(points@),
        hull.len() <= points.len(),
        forall|k: int| 0 <= k < hull.len() ==> points@.contains(#[trigger] hull@[k]),
        crate::hull_laws::encloses(hull@, points@),
        points.len() >= 2 && crate::hull_laws::collinear(points@)
            ==> crate::hull_laws::spans_as_segment(hull@, points@),
{
    let idx: Vec<usize> = quick_hull_indices(points);
    proof {
        crate::hull_laws::lemma_hull_encloses(points@);
        assert forall|k: int| 0 <= k < idx.len() implies points@.contains(
            #[trigger] hull_of(points@)[k],
        ) by {
            assert(points@[idx@[k] as int] == hull_of(points@)[k]);
        }
    }
    let mut hull: Vec<Point> = Vec::new();
    let mut k: usize = 0;
    while k < idx.len()
        invariant
            k <= idx.len(),
            idx@ == hull_indices(points@),
            forall|j: int| 0 <= j < idx.len() ==> (#[trigger] idx@[j]) < points.len(),
            hull@ == points_at(points@, idx@.take(k as int)),
        decreases idx.len() - k,
    {
        hull.push(points[idx[k]]);
        assert(hull@ =~= points_at(points@, idx@.take(k + 1)));
        k = k + 1;
    }
    assert(idx@.take(k as int) =~= idx@);
    proof {
        if points.len() >= 2 && crate::hull_laws::collinear(points@) {
            lemma_segment_hull(points@);
        }
    }
    hull
}

/// The hull of two or more points on one line holds them as a segment.
proof fn lemma_segment_hull(pts: Seq<Point>)
    requires
        2 <= pts.len() <= usize::MAX,
        crate::hull_laws::collinear(pts),
    ensures
        crate::hull_laws::spans_as_segment(hull_of(pts), pts),
{
    crate::hull_laws::lemma_collinear_hull(pts);
}

} // verus!
