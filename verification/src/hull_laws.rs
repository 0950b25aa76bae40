//! What holds of every convex hull that [`quick_hull`](crate::quickhull::quick_hull) returns.

use vstd::prelude::*;
use crate::plane::{
    det, lemma_apex, lemma_cross_rotate, lemma_parallel, lemma_strict_at_end,
    lemma_strict_at_start, lemma_triangle, lemma_wedge_at_end, lemma_wedge_at_start,
};
use crate::area::doubled_area;
use crate::point::{Point, cross, lemma_cross_reverse};
use crate::quickhull::{
    beyond, candidates_ok, chain, farthest_position, height, hull_indices, hull_of, indices,
    hull_ends, left_of, lemma_farthest_in_range, lemma_height_of_ends, lemma_hull_ends,
    lemma_max_x_index, lemma_max_y_index, lemma_min_x_index, lemma_min_y_index,
    lemma_split_shrinks, max_x_index, min_x_index, sq,
};

verus! {

/// Every element of the sequence is an index into a sequence of length `n`.
pub open spec fn all_below(idx: Seq<usize>, n: nat) -> bool {
    forall|j: int| 0 <= j < idx.len() ==> (#[trigger] idx[j]) < n
}

/// Every element of `part` occurs in `whole`.
pub open spec fn drawn_from(part: Seq<usize>, whole: Seq<usize>) -> bool {
    forall|j: int| 0 <= j < part.len() ==> whole.contains(#[trigger] part[j])
}

/// What a filter keeps was there before.
pub proof fn lemma_filter_drawn_from(s: Seq<usize>, pred: spec_fn(usize) -> bool)
    ensures
        drawn_from(s.filter(pred), s),
        s.filter(pred).len() <= s.len(),
    decreases s.len(),
{
    reveal(Seq::filter);
    if s.len() > 0 {
        lemma_filter_drawn_from(s.drop_last(), pred);
        let sub = s.drop_last().filter(pred);
        assert forall|j: int| 0 <= j < s.filter(pred).len() implies s.contains(
            #[trigger] s.filter(pred)[j],
        ) by {
            if j < sub.len() {
                assert(s.drop_last().contains(sub[j]));
                let k = choose|k: int| 0 <= k < s.drop_last().len() && s.drop_last()[k] == sub[j];
                assert(s[k] == sub[j]);
            } else {
                assert(s[s.len() - 1] == s.filter(pred)[j]);
            }
        }
    }
}

/// The vertices of a chain are candidates, and there are no more of them
/// than candidates.
pub proof fn lemma_chain_drawn_from(pts: Seq<Point>, cand: Seq<usize>, a: usize, b: usize)
    ensures
        drawn_from(chain(pts, cand, a, b), cand),
        chain(pts, cand, a, b).len() <= cand.len(),
    decreases cand.len(),
{
    if cand.len() > 0 {
        lemma_farthest_in_range(pts, cand, a, b);
        let f = cand[farthest_position(pts, cand, a, b)];
        let s1 = cand.filter(left_of(pts, a, f));
        let s2 = cand.filter(beyond(pts, a, f, b));
        assert(cand.contains(f));
        lemma_split_shrinks(pts, cand, a, f, b);
        lemma_filter_drawn_from(cand, left_of(pts, a, f));
        lemma_filter_drawn_from(cand, beyond(pts, a, f, b));
        lemma_chain_drawn_from(pts, s1, a, f);
        lemma_chain_drawn_from(pts, s2, f, b);
        let c1 = chain(pts, s1, a, f);
        let c2 = chain(pts, s2, f, b);
        let c = chain(pts, cand, a, b);
        assert(c == c1.push(f) + c2);
        assert forall|j: int| 0 <= j < c.len() implies cand.contains(#[trigger] c[j]) by {
            if j < c1.len() {
                assert(s1.contains(c1[j]));
                let k = choose|k: int| 0 <= k < s1.len() && s1[k] == c1[j];
                assert(cand.contains(s1[k]));
            } else if j == c1.len() {
            } else {
                let m = j - c1.len() - 1;
                assert(c[j] == c2[m]);
                assert(s2.contains(c2[m]));
                let k = choose|k: int| 0 <= k < s2.len() && s2[k] == c2[m];
                assert(cand.contains(s2[k]));
            }
        }
    }
}

/// Every hull vertex is one of the input points: each index that
/// [`hull_indices`] lists is an index into the input.
pub proof fn lemma_hull_indices_in_range(pts: Seq<Point>)
    ensures
        all_below(hull_indices(pts), pts.len()),
{
    if pts.len() >= 2 {
        lemma_hull_ends(pts);
        let a = hull_ends(pts).0 as usize;
        let b = hull_ends(pts).1 as usize;
        let all = indices(pts.len());
        let up = all.filter(left_of(pts, a, b));
        let down = all.filter(left_of(pts, b, a));
        lemma_filter_drawn_from(all, left_of(pts, a, b));
        lemma_filter_drawn_from(all, left_of(pts, b, a));
        lemma_chain_drawn_from(pts, up, a, b);
        lemma_chain_drawn_from(pts, down, b, a);
        let c1 = chain(pts, up, a, b);
        let c2 = chain(pts, down, b, a);
        let h = hull_indices(pts);
        assert(h == (seq![a] + c1).push(b) + c2);
        assert forall|j: int| 0 <= j < h.len() implies (#[trigger] h[j]) < pts.len() by {
            if 1 <= j <= c1.len() {
                let v = c1[j - 1];
                assert(h[j] == v);
                assert(up.contains(v));
                let k = choose|k: int| 0 <= k < up.len() && up[k] == v;
                assert(all.contains(up[k]));
                let m = choose|m: int| 0 <= m < all.len() && all[m] == v;
            } else if j > c1.len() + 1 {
                let v = c2[j - c1.len() - 2];
                assert(h[j] == v);
                assert(down.contains(v));
                let k = choose|k: int| 0 <= k < down.len() && down[k] == v;
                assert(all.contains(down[k]));
                let m = choose|m: int| 0 <= m < all.len() && all[m] == v;
            }
        }
    }
}

/// The index after `k` on a closed polygon of `n` vertices.
pub open spec fn next_index(k: int, n: nat) -> int {
    if k + 1 == n {
        0
    } else {
        k + 1
    }
}

/// No point of `pts` lies strictly to the left of any edge of the closed
/// polygon `hull`: walking the hull clockwise, every point is on the edge or
/// to its right, that is on or inside the hull.
pub open spec fn encloses(hull: Seq<Point>, pts: Seq<Point>) -> bool {
    forall|k: int, i: int|
        0 <= k < hull.len() && 0 <= i < pts.len() ==> cross(
            #[trigger] hull[k],
            hull[next_index(k, hull.len())],
            #[trigger] pts[i],
        ) <= 0
}

/// The test of the point at index `i` against the line through the point at
/// index `at` in the direction `(dx, dy)`.
pub open spec fn lean(pts: Seq<Point>, at: usize, dx: int, dy: int, i: usize) -> int {
    det(dx, dy, pts[i as int].x - pts[at as int].x, pts[i as int].y - pts[at as int].y)
}

/// No point lies strictly to the left of the line through the point at index
/// `at` in the direction `(dx, dy)`.
pub open spec fn supports(pts: Seq<Point>, at: usize, dx: int, dy: int) -> bool {
    forall|i: usize| i < pts.len() ==> #[trigger] lean(pts, at, dx, dy, i) <= 0
}

/// The candidates hold every point strictly to the left of the line from `a` to `b`.
pub open spec fn complete(pts: Seq<Point>, cand: Seq<usize>, a: usize, b: usize) -> bool {
    forall|i: usize| i < pts.len() && #[trigger] height(pts, a, b, i) > 0 ==> cand.contains(i)
}

/// No point lies strictly to the left of the line from `u` to `v`.
pub open spec fn edge_clear(pts: Seq<Point>, u: usize, v: usize) -> bool {
    forall|i: usize| i < pts.len() ==> #[trigger] height(pts, u, v, i) <= 0
}

/// No point lies strictly to the left of any step of the path.
pub open spec fn path_clear(pts: Seq<Point>, path: Seq<usize>) -> bool {
    forall|k: int| 0 <= k < path.len() - 1 ==> edge_clear(pts, #[trigger] path[k], path[k + 1])
}

proof fn lemma_sq_order(x: int, y: int)
    by (nonlinear_arith)
    requires
        x > 0,
        y > 0,
    ensures
        sq(x) > sq(y) <==> x > y,
{
}

/// Among candidates to the left of a line, the farthest is the one with the
/// largest orientation test.
pub proof fn lemma_farthest_is_max(pts: Seq<Point>, cand: Seq<usize>, a: usize, b: usize)
    requires
        candidates_ok(pts, cand, a, b),
        cand.len() > 0,
    ensures
        forall|j: int|
            0 <= j < cand.len() ==> height(pts, a, b, #[trigger] cand[j]) <= height(
                pts,
                a,
                b,
                cand[farthest_position(pts, cand, a, b)],
            ),
    decreases cand.len(),
{
    if cand.len() > 1 {
        let rest = cand.drop_last();
        assert forall|j: int| 0 <= j < rest.len() implies (#[trigger] rest[j]) < pts.len()
            && height(pts, a, b, rest[j]) > 0 by {
            assert(rest[j] == cand[j]);
        }
        lemma_farthest_is_max(pts, rest, a, b);
        lemma_farthest_in_range(pts, rest, a, b);
        let k = farthest_position(pts, rest, a, b);
        assert(rest[k] == cand[k]);
        lemma_sq_order(height(pts, a, b, cand.last()), height(pts, a, b, cand[k]));
        assert forall|j: int| 0 <= j < cand.len() implies height(pts, a, b, #[trigger] cand[j])
            <= height(pts, a, b, cand[farthest_position(pts, cand, a, b)]) by {
            if j < rest.len() {
                assert(rest[j] == cand[j]);
            }
        }
    }
}

/// No point has a larger orientation test against the base than the apex.
pub proof fn lemma_apex_dominates(pts: Seq<Point>, cand: Seq<usize>, a: usize, b: usize)
    requires
        candidates_ok(pts, cand, a, b),
        complete(pts, cand, a, b),
        cand.len() > 0,
    ensures
        cand[farthest_position(pts, cand, a, b)] < pts.len(),
        height(pts, a, b, cand[farthest_position(pts, cand, a, b)]) > 0,
        forall|i: usize|
            i < pts.len() ==> #[trigger] height(pts, a, b, i) <= height(
                pts,
                a,
                b,
                cand[farthest_position(pts, cand, a, b)],
            ),
{
    lemma_farthest_in_range(pts, cand, a, b);
    lemma_farthest_is_max(pts, cand, a, b);
    let f = cand[farthest_position(pts, cand, a, b)];
    assert forall|i: usize| i < pts.len() implies #[trigger] height(pts, a, b, i) <= height(
        pts,
        a,
        b,
        f,
    ) by {
        if height(pts, a, b, i) > 0 {
            assert(cand.contains(i));
            let j = choose|j: int| 0 <= j < cand.len() && cand[j] == i;
            assert(height(pts, a, b, cand[j]) <= height(pts, a, b, f));
        }
    }
}

/// A point that is not to the left of the base is to the left of neither
/// side that leads over the apex.
pub proof fn lemma_outside_stays_outside(
    pts: Seq<Point>,
    a: usize,
    f: usize,
    b: usize,
    adx: int,
    ady: int,
    bdx: int,
    bdy: int,
)
    requires
        a < pts.len(),
        b < pts.len(),
        f < pts.len(),
        height(pts, a, b, f) > 0,
        supports(pts, a, adx, ady),
        supports(pts, b, bdx, bdy),
        lean(pts, a, adx, ady, b) < 0,
        lean(pts, b, bdx, bdy, a) < 0,
    ensures
        forall|i: usize|
            i < pts.len() && #[trigger] height(pts, a, b, i) <= 0 ==> height(pts, a, f, i) <= 0
                && height(pts, f, b, i) <= 0,
{
    assert forall|i: usize| i < pts.len() && #[trigger] height(pts, a, b, i) <= 0 implies height(
        pts,
        a,
        f,
        i,
    ) <= 0 && height(pts, f, b, i) <= 0 by {
        assert(lean(pts, a, adx, ady, f) <= 0);
        assert(lean(pts, a, adx, ady, i) <= 0);
        assert(lean(pts, b, bdx, bdy, f) <= 0);
        assert(lean(pts, b, bdx, bdy, i) <= 0);
        lemma_wedge_at_start(pts[a as int], pts[b as int], pts[f as int], pts[i as int], adx, ady);
        lemma_wedge_at_end(pts[a as int], pts[b as int], pts[f as int], pts[i as int], bdx, bdy);
    }
}

/// What the filter of `cand` by `pred` holds: members of `cand` of which `pred` holds.
proof fn lemma_filter_members(cand: Seq<usize>, pred: spec_fn(usize) -> bool)
    ensures
        forall|j: int|
            0 <= j < cand.filter(pred).len() ==> pred(#[trigger] cand.filter(pred)[j])
                && cand.contains(cand.filter(pred)[j]),
        forall|j: int| 0 <= j < cand.len() && pred(cand[j]) ==> cand.filter(pred).contains(#[trigger] cand[j]),
{
    lemma_filter_drawn_from(cand, pred);
    assert forall|j: int| 0 <= j < cand.filter(pred).len() implies pred(
        #[trigger] cand.filter(pred)[j],
    ) by {
        cand.lemma_filter_pred(pred, j);
    }
    assert forall|j: int| 0 <= j < cand.len() && pred(cand[j]) implies cand.filter(pred).contains(
        #[trigger] cand[j],
    ) by {
        cand.lemma_filter_contains(pred, j);
    }
}

/// The candidates to the left of the side from `a` to the apex meet what
/// [`lemma_chain_clear`] asks of candidates.
proof fn lemma_left_part(
    pts: Seq<Point>,
    cand: Seq<usize>,
    a: usize,
    b: usize,
    adx: int,
    ady: int,
    bdx: int,
    bdy: int,
)
    requires
        candidates_ok(pts, cand, a, b),
        complete(pts, cand, a, b),
        supports(pts, a, adx, ady),
        supports(pts, b, bdx, bdy),
        cand.len() > 0,
        lean(pts, a, adx, ady, b) < 0,
        lean(pts, b, bdx, bdy, a) < 0,
    ensures
        ({
            let f = cand[farthest_position(pts, cand, a, b)];
            let s1 = cand.filter(left_of(pts, a, f));
            let ux = pts[b as int].x - pts[a as int].x;
            let uy = pts[b as int].y - pts[a as int].y;
            &&& candidates_ok(pts, s1, a, f)
            &&& complete(pts, s1, a, f)
            &&& supports(pts, f, ux, uy)
            &&& lean(pts, f, ux, uy, a) < 0
            &&& lean(pts, f, ux, uy, b) < 0
            &&& s1.len() > 0 ==> lean(pts, a, adx, ady, f) < 0
        }),
{
    lemma_apex_dominates(pts, cand, a, b);
    let f = cand[farthest_position(pts, cand, a, b)];
    let pred = left_of(pts, a, f);
    let s1 = cand.filter(pred);
    let ux = pts[b as int].x - pts[a as int].x;
    let uy = pts[b as int].y - pts[a as int].y;
    lemma_outside_stays_outside(pts, a, f, b, adx, ady, bdx, bdy);
    lemma_filter_members(cand, pred);
    assert forall|j: int| 0 <= j < s1.len() implies (#[trigger] s1[j]) < pts.len() && height(
        pts,
        a,
        f,
        s1[j],
    ) > 0 by {
        assert(pred(s1[j]));
        assert(cand.contains(s1[j]));
        let m = choose|m: int| 0 <= m < cand.len() && cand[m] == s1[j];
        assert(cand[m] < pts.len());
    }
    assert forall|i: usize| i < pts.len() && #[trigger] height(pts, a, f, i) > 0 implies s1.contains(
        i,
    ) by {
        assert(height(pts, a, b, i) > 0);
        assert(cand.contains(i));
        let m = choose|m: int| 0 <= m < cand.len() && cand[m] == i;
        assert(pred(cand[m]));
        assert(s1.contains(cand[m]));
    }
    assert forall|i: usize| i < pts.len() implies #[trigger] lean(pts, f, ux, uy, i) <= 0 by {
        lemma_parallel(pts[a as int], pts[b as int], pts[f as int], pts[i as int]);
        assert(height(pts, a, b, i) <= height(pts, a, b, f));
    }
    lemma_apex(pts[a as int], pts[b as int], pts[f as int]);
    if s1.len() > 0 {
        let q = s1[0];
        assert(q < pts.len() && height(pts, a, f, q) > 0);
        assert(lean(pts, a, adx, ady, f) <= 0);
        assert(lean(pts, a, adx, ady, q) <= 0);
        lemma_strict_at_start(pts[a as int], pts[b as int], pts[f as int], pts[q as int], adx, ady);
    }
}

/// The remaining candidates to the left of the side from the apex to `b`
/// meet what [`lemma_chain_clear`] asks of candidates.
proof fn lemma_right_part(
    pts: Seq<Point>,
    cand: Seq<usize>,
    a: usize,
    b: usize,
    adx: int,
    ady: int,
    bdx: int,
    bdy: int,
)
    requires
        candidates_ok(pts, cand, a, b),
        complete(pts, cand, a, b),
        supports(pts, a, adx, ady),
        supports(pts, b, bdx, bdy),
        cand.len() > 0,
        lean(pts, a, adx, ady, b) < 0,
        lean(pts, b, bdx, bdy, a) < 0,
    ensures
        ({
            let f = cand[farthest_position(pts, cand, a, b)];
            let s2 = cand.filter(beyond(pts, a, f, b));
            &&& candidates_ok(pts, s2, f, b)
            &&& complete(pts, s2, f, b)
            &&& s2.len() > 0 ==> lean(pts, b, bdx, bdy, f) < 0
        }),
{
    lemma_apex_dominates(pts, cand, a, b);
    let f = cand[farthest_position(pts, cand, a, b)];
    let pred = beyond(pts, a, f, b);
    let s2 = cand.filter(pred);
    lemma_outside_stays_outside(pts, a, f, b, adx, ady, bdx, bdy);
    lemma_filter_members(cand, pred);
    assert forall|j: int| 0 <= j < s2.len() implies (#[trigger] s2[j]) < pts.len() && height(
        pts,
        f,
        b,
        s2[j],
    ) > 0 by {
        assert(pred(s2[j]));
        assert(cand.contains(s2[j]));
        let m = choose|m: int| 0 <= m < cand.len() && cand[m] == s2[j];
        assert(cand[m] < pts.len());
    }
    assert forall|i: usize| i < pts.len() && #[trigger] height(pts, f, b, i) > 0 implies s2.contains(
        i,
    ) by {
        assert(height(pts, a, b, i) > 0);
        assert(cand.contains(i));
        let m = choose|m: int| 0 <= m < cand.len() && cand[m] == i;
        lemma_triangle(pts[a as int], pts[f as int], pts[b as int], pts[i as int]);
        assert(height(pts, a, b, i) <= height(pts, a, b, f));
        assert(pred(cand[m]));
        assert(s2.contains(cand[m]));
    }
    if s2.len() > 0 {
        let q = s2[0];
        assert(q < pts.len() && height(pts, f, b, q) > 0);
        assert(lean(pts, b, bdx, bdy, f) <= 0);
        assert(lean(pts, b, bdx, bdy, q) <= 0);
        lemma_strict_at_end(pts[a as int], pts[b as int], pts[f as int], pts[q as int], bdx, bdy);
    }
}

/// Two clear paths that meet in a vertex make one clear path.
proof fn lemma_join_paths(pts: Seq<Point>, a: usize, c1: Seq<usize>, f: usize, c2: Seq<usize>, b: usize)
    requires
        path_clear(pts, (seq![a] + c1).push(f)),
        path_clear(pts, (seq![f] + c2).push(b)),
    ensures
        path_clear(pts, (seq![a] + (c1.push(f) + c2)).push(b)),
{
    let first = (seq![a] + c1).push(f);
    let second = (seq![f] + c2).push(b);
    let p = (seq![a] + (c1.push(f) + c2)).push(b);
    assert forall|k: int| 0 <= k < p.len() - 1 implies edge_clear(pts, #[trigger] p[k], p[k + 1]) by {
        if k <= c1.len() {
            assert(p[k] == first[k]);
            assert(p[k + 1] == first[k + 1]);
        } else {
            let m = k - c1.len() - 1;
            assert(p[k] == second[m]);
            assert(p[k + 1] == second[m + 1]);
        }
    }
}

/// No point lies strictly to the left of any step of the path that leads
/// from `a` over the vertices of the chain to `b`, provided that the
/// candidates are exactly the points strictly to the left of `a -> b` and
/// that lines through `a` and `b` keep all points on their clockwise side.
pub proof fn lemma_chain_clear(
    pts: Seq<Point>,
    cand: Seq<usize>,
    a: usize,
    b: usize,
    adx: int,
    ady: int,
    bdx: int,
    bdy: int,
)
    requires
        candidates_ok(pts, cand, a, b),
        complete(pts, cand, a, b),
        supports(pts, a, adx, ady),
        supports(pts, b, bdx, bdy),
        cand.len() > 0 ==> lean(pts, a, adx, ady, b) < 0 && lean(pts, b, bdx, bdy, a) < 0,
    ensures
        path_clear(pts, (seq![a] + chain(pts, cand, a, b)).push(b)),
    decreases cand.len(),
{
    let path = (seq![a] + chain(pts, cand, a, b)).push(b);
    if cand.len() == 0 {
        assert forall|i: usize| i < pts.len() implies #[trigger] height(pts, a, b, i) <= 0 by {
            if height(pts, a, b, i) > 0 {
                assert(cand.contains(i));
            }
        }
        assert(edge_clear(pts, a, b));
        assert forall|k: int| 0 <= k < path.len() - 1 implies edge_clear(
            pts,
            #[trigger] path[k],
            path[k + 1],
        ) by {
            assert(path[0] == a);
            assert(path[1] == b);
        }
    } else {
        lemma_farthest_in_range(pts, cand, a, b);
        let f = cand[farthest_position(pts, cand, a, b)];
        let s1 = cand.filter(left_of(pts, a, f));
        let s2 = cand.filter(beyond(pts, a, f, b));
        let ux = pts[b as int].x - pts[a as int].x;
        let uy = pts[b as int].y - pts[a as int].y;
        assert(cand.contains(f));
        lemma_split_shrinks(pts, cand, a, f, b);
        lemma_left_part(pts, cand, a, b, adx, ady, bdx, bdy);
        lemma_right_part(pts, cand, a, b, adx, ady, bdx, bdy);
        lemma_chain_clear(pts, s1, a, f, adx, ady, ux, uy);
        lemma_chain_clear(pts, s2, f, b, ux, uy, bdx, bdy);
        lemma_join_paths(pts, a, chain(pts, s1, a, f), f, chain(pts, s2, f, b), b);
    }
}

/// The indices of a sequence, filtered, are in range, keep what the filter
/// asks for, and miss nothing.
proof fn lemma_side_of_all(pts: Seq<Point>, a: usize, b: usize)
    requires
        a < pts.len(),
        b < pts.len(),
        pts.len() <= usize::MAX,
    ensures
        candidates_ok(pts, indices(pts.len()).filter(left_of(pts, a, b)), a, b),
        complete(pts, indices(pts.len()).filter(left_of(pts, a, b)), a, b),
{
    let all = indices(pts.len());
    let pred = left_of(pts, a, b);
    let s = all.filter(pred);
    lemma_filter_members(all, pred);
    assert forall|j: int| 0 <= j < s.len() implies (#[trigger] s[j]) < pts.len() && height(
        pts,
        a,
        b,
        s[j],
    ) > 0 by {
        assert(pred(s[j]));
        assert(all.contains(s[j]));
        let m = choose|m: int| 0 <= m < all.len() && all[m] == s[j];
    }
    assert forall|i: usize| i < pts.len() && #[trigger] height(pts, a, b, i) > 0 implies s.contains(
        i,
    ) by {
        assert(all[i as int] == i);
        assert(pred(all[i as int]));
        assert(s.contains(all[i as int]));
    }
}

/// A line has nothing to its left if every point is on it.
proof fn lemma_flat_side(pts: Seq<Point>, a: usize, b: usize)
    requires
        pts.len() <= usize::MAX,
        forall|i: usize| i < pts.len() ==> #[trigger] height(pts, a, b, i) == 0,
    ensures
        indices(pts.len()).filter(left_of(pts, a, b)).len() == 0,
        chain(pts, indices(pts.len()).filter(left_of(pts, a, b)), a, b).len() == 0,
{
    let all = indices(pts.len());
    let pred = left_of(pts, a, b);
    let s = all.filter(pred);
    lemma_filter_members(all, pred);
    if s.len() > 0 {
        assert(pred(s[0]));
        assert(all.contains(s[0]));
        let m = choose|m: int| 0 <= m < all.len() && all[m] == s[0];
        assert(height(pts, a, b, s[0]) == 0);
    }
}

/// Points that share one x-coordinate all lie on the line through any two
/// of them.
proof fn lemma_vertical_heights(pts: Seq<Point>, a: usize, b: usize)
    requires
        a < pts.len(),
        b < pts.len(),
        forall|i: int| 0 <= i < pts.len() ==> (#[trigger] pts[i]).x == pts[0].x,
    ensures
        forall|i: usize| i < pts.len() ==> #[trigger] height(pts, a, b, i) == 0,
{
    assert forall|i: usize| i < pts.len() implies #[trigger] height(pts, a, b, i) == 0 by {
        let ux: int = pts[b as int].x - pts[a as int].x;
        let uy: int = pts[b as int].y - pts[a as int].y;
        let vx: int = pts[i as int].x - pts[a as int].x;
        let vy: int = pts[i as int].y - pts[a as int].y;
        assert(pts[a as int].x == pts[0].x);
        assert(pts[b as int].x == pts[0].x);
        assert(pts[i as int].x == pts[0].x);
        assert(ux * vy - uy * vx == 0) by (nonlinear_arith)
            requires
                ux == 0,
                vx == 0,
        ;
    }
}

/// Both halves of the hull are clear paths: from the first end over the
/// vertices on one side to the second end, and from there over the vertices
/// on the other side back.
pub proof fn lemma_hull_paths_clear(pts: Seq<Point>)
    requires
        2 <= pts.len() <= usize::MAX,
    ensures
        ({
            let a = hull_ends(pts).0 as usize;
            let b = hull_ends(pts).1 as usize;
            let all = indices(pts.len());
            &&& path_clear(
                pts,
                (seq![a] + chain(pts, all.filter(left_of(pts, a, b)), a, b)).push(b),
            )
            &&& path_clear(
                pts,
                (seq![b] + chain(pts, all.filter(left_of(pts, b, a)), b, a)).push(a),
            )
        }),
{
    lemma_hull_ends(pts);
    let a = hull_ends(pts).0 as usize;
    let b = hull_ends(pts).1 as usize;
    let all = indices(pts.len());
    let up = all.filter(left_of(pts, a, b));
    let down = all.filter(left_of(pts, b, a));
    if min_x_index(pts) == max_x_index(pts) {
        lemma_vertical_heights(pts, a, b);
        lemma_vertical_heights(pts, b, a);
        lemma_flat_side(pts, a, b);
        lemma_flat_side(pts, b, a);
        assert(edge_clear(pts, a, b));
        assert(edge_clear(pts, b, a));
        let there = (seq![a] + chain(pts, up, a, b)).push(b);
        let back = (seq![b] + chain(pts, down, b, a)).push(a);
        assert forall|k: int| 0 <= k < there.len() - 1 implies edge_clear(
            pts,
            #[trigger] there[k],
            there[k + 1],
        ) by {
            assert(there[0] == a);
            assert(there[1] == b);
        }
        assert forall|k: int| 0 <= k < back.len() - 1 implies edge_clear(
            pts,
            #[trigger] back[k],
            back[k + 1],
        ) by {
            assert(back[0] == b);
            assert(back[1] == a);
        }
    } else {
        lemma_min_x_index(pts);
        lemma_max_x_index(pts);
        lemma_side_of_all(pts, a, b);
        lemma_side_of_all(pts, b, a);
        assert forall|i: usize| i < pts.len() implies #[trigger] lean(pts, a, 0, 1, i) <= 0 by {
            assert(pts[a as int].x <= pts[i as int].x);
        }
        assert forall|i: usize| i < pts.len() implies #[trigger] lean(pts, b, 0, -1, i) <= 0 by {
            assert(pts[b as int].x >= pts[i as int].x);
        }
        if pts[a as int].x == pts[b as int].x {
            assert forall|i: int| 0 <= i < pts.len() implies (#[trigger] pts[i]).x
                == pts[0].x by {
                assert(pts[a as int].x <= pts[i].x <= pts[b as int].x);
                assert(pts[a as int].x <= pts[0].x <= pts[b as int].x);
            }
        }
        assert(lean(pts, a, 0, 1, b) < 0);
        assert(lean(pts, b, 0, -1, a) < 0);
        lemma_chain_clear(pts, up, a, b, 0, 1, 0, -1);
        lemma_chain_clear(pts, down, b, a, 0, -1, 0, 1);
    }
}

/// Every input point lies on or inside the hull: against each edge of the
/// hull, taken clockwise, no input point is strictly to the left.
pub proof fn lemma_hull_encloses(pts: Seq<Point>)
    requires
        pts.len() <= usize::MAX,
    ensures
        encloses(hull_of(pts), pts),
{
    let h = hull_indices(pts);
    let hp = hull_of(pts);
    if pts.len() == 1 {
        assert forall|k: int, i: int| 0 <= k < hp.len() && 0 <= i < pts.len() implies cross(
            #[trigger] hp[k],
            hp[next_index(k, hp.len())],
            #[trigger] pts[i],
        ) <= 0 by {
            lemma_height_of_ends(pts, 0, 0);
            assert(hp[0] == pts[0]);
            assert(height(pts, 0, 0, 0) == 0);
        }
    } else if pts.len() >= 2 {
        lemma_hull_paths_clear(pts);
        let a = hull_ends(pts).0 as usize;
        let b = hull_ends(pts).1 as usize;
        let all = indices(pts.len());
        let c1 = chain(pts, all.filter(left_of(pts, a, b)), a, b);
        let c2 = chain(pts, all.filter(left_of(pts, b, a)), b, a);
        let upper = (seq![a] + c1).push(b);
        let lower = (seq![b] + c2).push(a);
        assert(h == (seq![a] + c1).push(b) + c2);
        assert forall|k: int, i: int| 0 <= k < hp.len() && 0 <= i < pts.len() implies cross(
            #[trigger] hp[k],
            hp[next_index(k, hp.len())],
            #[trigger] pts[i],
        ) <= 0 by {
            let k2 = next_index(k, hp.len());
            if k <= c1.len() {
                assert(h[k] == upper[k]);
                assert(h[k2] == upper[k + 1]);
                assert(edge_clear(pts, upper[k], upper[k + 1]));
                assert(height(pts, upper[k], upper[k + 1], i as usize) <= 0);
            } else {
                let m = k - c1.len() - 1;
                assert(h[k] == lower[m]);
                assert(h[k2] == lower[m + 1]);
                assert(edge_clear(pts, lower[m], lower[m + 1]));
                assert(height(pts, lower[m], lower[m + 1], i as usize) <= 0);
            }
        }
    }
}

/// Of the first `m` indices, those to the left of `a -> b`, those to the
/// left of `b -> a`, and the two ends themselves are all different.
proof fn lemma_two_sides_count(pts: Seq<Point>, a: usize, b: usize, m: nat)
    requires
        a < pts.len(),
        b < pts.len(),
        a != b,
        m <= pts.len() <= usize::MAX,
    ensures
        indices(m).filter(left_of(pts, a, b)).len() + indices(m).filter(left_of(pts, b, a)).len()
            + (if a < m {
            1int
        } else {
            0int
        }) + (if b < m {
            1int
        } else {
            0int
        }) <= m,
    decreases m,
{
    reveal(Seq::filter);
    if m > 0 {
        let i = (m - 1) as usize;
        lemma_two_sides_count(pts, a, b, (m - 1) as nat);
        assert(indices(m) =~= indices((m - 1) as nat).push(i));
        indices((m - 1) as nat).lemma_filter_push(i, left_of(pts, a, b));
        indices((m - 1) as nat).lemma_filter_push(i, left_of(pts, b, a));
        lemma_cross_reverse(pts[a as int], pts[b as int], pts[i as int]);
        lemma_height_of_ends(pts, a, b);
    }
}

/// The hull has no more vertices than there are input points.
pub proof fn lemma_hull_size(pts: Seq<Point>)
    requires
        pts.len() <= usize::MAX,
    ensures
        hull_indices(pts).len() <= pts.len(),
        hull_of(pts).len() <= pts.len(),
{
    if pts.len() >= 2 {
        lemma_hull_ends(pts);
        let a = hull_ends(pts).0 as usize;
        let b = hull_ends(pts).1 as usize;
        let all = indices(pts.len());
        let up = all.filter(left_of(pts, a, b));
        let down = all.filter(left_of(pts, b, a));
        lemma_chain_drawn_from(pts, up, a, b);
        lemma_chain_drawn_from(pts, down, b, a);
        if a == b {
            lemma_filter_members(all, left_of(pts, a, b));
            if up.len() > 0 {
                assert(left_of(pts, a, b)(up[0]));
                lemma_same_ends_flat(pts, a, up[0]);
            }
            if down.len() > 0 {
                assert(left_of(pts, b, a)(down[0]));
                lemma_same_ends_flat(pts, a, down[0]);
            }
        } else {
            lemma_two_sides_count(pts, a, b, pts.len());
        }
    }
}

/// A line from a point to itself has nothing to its left.
proof fn lemma_same_ends_flat(pts: Seq<Point>, a: usize, i: usize)
    ensures
        height(pts, a, a, i) == 0,
{
    let vx: int = pts[i as int].x - pts[a as int].x;
    let vy: int = pts[i as int].y - pts[a as int].y;
    assert(0 * vy - 0 * vx == 0);
}

/// `q` lies on the segment from `p` to `r`, strictly between its ends.
pub open spec fn strictly_between(p: Point, q: Point, r: Point) -> bool {
    cross(q, p, r) == 0 && (p.x - q.x) * (r.x - q.x) + (p.y - q.y) * (r.y - q.y) < 0
}

/// Every three vertices, taken in the order of the sequence, turn strictly
/// clockwise, except that the first vertex may lie strictly between two
/// others: the polygon is convex, and no vertex but the first sits on an
/// edge.
pub open spec fn convex_but_first(h: Seq<Point>) -> bool {
    forall|i: int, j: int, k: int|
        #![trigger cross(h[i], h[j], h[k])]
        0 <= i < j < k < h.len() ==> cross(h[i], h[j], h[k]) < 0 || (i == 0 && strictly_between(
            h[j],
            h[0],
            h[k],
        ))
}

/// Every three vertices turn strictly clockwise, unless they are the first
/// vertex with one vertex before `beta` and one after it.
spec fn halves_clockwise(h: Seq<Point>, beta: int) -> bool {
    forall|i: int, j: int, k: int|
        #![trigger cross(h[i], h[j], h[k])]
        0 <= i < j < k < h.len() && (i >= 1 || k <= beta || j >= beta) ==> cross(h[i], h[j], h[k])
            < 0
}

/// Every three indices of `ord`, taken in order, name points of `h` that
/// turn strictly clockwise.
pub open spec fn clockwise(h: Seq<Point>, ord: Seq<usize>) -> bool {
    forall|x: int, y: int, z: int|
        #![trigger height(h, ord[x], ord[y], ord[z])]
        0 <= x < y < z < ord.len() ==> height(h, ord[x], ord[y], ord[z]) < 0
}

/// A filter whose predicate holds exactly of the elements from position
/// `lo` up to position `hi` returns those elements.
pub proof fn lemma_filter_run(s: Seq<usize>, pred: spec_fn(usize) -> bool, lo: int, hi: int)
    requires
        0 <= lo <= hi <= s.len(),
        forall|j: int| 0 <= j < s.len() ==> (pred(#[trigger] s[j]) <==> lo <= j < hi),
    ensures
        s.filter(pred) == s.subrange(lo, hi),
    decreases s.len(),
{
    reveal(Seq::filter);
    if s.len() > 0 {
        let rest = s.drop_last();
        assert forall|j: int| 0 <= j < rest.len() implies (pred(#[trigger] rest[j]) <==> lo <= j
            < (if hi == s.len() {
            hi - 1
        } else {
            hi
        })) by {
            assert(rest[j] == s[j]);
        }
        if hi == s.len() {
            if lo == hi {
                lemma_filter_run(rest, pred, lo - 1, hi - 1);
                assert(pred(s[s.len() - 1]) <==> lo <= s.len() - 1 < hi);
                assert(rest.subrange(lo - 1, hi - 1) =~= s.subrange(lo, hi));
            } else {
                lemma_filter_run(rest, pred, lo, hi - 1);
                assert(pred(s[s.len() - 1]) <==> lo <= s.len() - 1 < hi);
                assert(rest.subrange(lo, hi - 1).push(s.last()) =~= s.subrange(lo, hi));
            }
        } else {
            lemma_filter_run(rest, pred, lo, hi);
            assert(pred(s[s.len() - 1]) <==> lo <= s.len() - 1 < hi);
            assert(rest.subrange(lo, hi) =~= s.subrange(lo, hi));
        }
    } else {
        assert(s.subrange(lo, hi) =~= s);
    }
}

/// Candidates that already stand in clockwise order between `a` and `b`
/// are all vertices, in that order: the chain is the candidates.
pub proof fn lemma_chain_of_clockwise(h: Seq<Point>, cand: Seq<usize>, a: usize, b: usize)
    requires
        clockwise(h, (seq![a] + cand).push(b)),
    ensures
        chain(h, cand, a, b) == cand,
    decreases cand.len(),
{
    if cand.len() > 0 {
        let ord = (seq![a] + cand).push(b);
        lemma_farthest_in_range(h, cand, a, b);
        let m = farthest_position(h, cand, a, b);
        let f = cand[m];
        assert(cand.contains(f));
        lemma_split_shrinks(h, cand, a, f, b);
        lemma_height_of_ends(h, a, f);
        lemma_height_of_ends(h, f, b);
        assert(ord[0] == a);
        assert(ord[m + 1] == f);
        assert(ord[cand.len() as int + 1] == b);
        assert forall|j: int| 0 <= j < cand.len() implies (left_of(h, a, f)(#[trigger] cand[j])
            <==> 0 <= j < m) by {
            assert(ord[j + 1] == cand[j]);
            if j < m {
                assert(height(h, ord[0], ord[j + 1], ord[m + 1]) < 0);
                lemma_swap_last_two(h[a as int], h[cand[j] as int], h[f as int]);
            } else if j > m {
                assert(height(h, ord[0], ord[m + 1], ord[j + 1]) < 0);
            }
        }
        assert forall|j: int| 0 <= j < cand.len() implies (beyond(h, a, f, b)(#[trigger] cand[j])
            <==> m + 1 <= j < cand.len()) by {
            assert(ord[j + 1] == cand[j]);
            if j > m {
                assert(height(h, ord[0], ord[m + 1], ord[j + 1]) < 0);
                assert(height(h, ord[m + 1], ord[j + 1], ord[cand.len() as int + 1]) < 0);
                lemma_swap_last_two(h[f as int], h[cand[j] as int], h[b as int]);
            } else if j < m {
                assert(height(h, ord[0], ord[j + 1], ord[m + 1]) < 0);
                lemma_swap_last_two(h[a as int], h[cand[j] as int], h[f as int]);
            }
        }
        lemma_filter_run(cand, left_of(h, a, f), 0, m);
        lemma_filter_run(cand, beyond(h, a, f, b), m + 1, cand.len() as int);
        let s1 = cand.subrange(0, m);
        let s2 = cand.subrange(m + 1, cand.len() as int);
        let o1 = (seq![a] + s1).push(f);
        let o2 = (seq![f] + s2).push(b);
        assert forall|x: int, y: int, z: int| 0 <= x < y < z < o1.len() implies #[trigger] height(
            h,
            o1[x],
            o1[y],
            o1[z],
        ) < 0 by {
            assert(o1[x] == ord[x]);
            assert(o1[y] == ord[y]);
            assert(o1[z] == ord[z]);
            assert(height(h, ord[x], ord[y], ord[z]) < 0);
        }
        assert forall|x: int, y: int, z: int| 0 <= x < y < z < o2.len() implies #[trigger] height(
            h,
            o2[x],
            o2[y],
            o2[z],
        ) < 0 by {
            assert(o2[x] == ord[x + m + 1]);
            assert(o2[y] == ord[y + m + 1]);
            assert(o2[z] == ord[z + m + 1]);
            assert(height(h, ord[x + m + 1], ord[y + m + 1], ord[z + m + 1]) < 0);
        }
        lemma_chain_of_clockwise(h, s1, a, f);
        lemma_chain_of_clockwise(h, s2, f, b);
        assert(s1.push(f) + s2 =~= cand);
    }
}

/// Swapping the last two points of an orientation test flips its sign.
pub proof fn lemma_swap_last_two(a: Point, b: Point, c: Point)
    ensures
        cross(a, c, b) == -cross(a, b, c),
{
    let ux: int = b.x - a.x;
    let uy: int = b.y - a.y;
    let vx: int = c.x - a.x;
    let vy: int = c.y - a.y;
    assert(vx * uy - vy * ux == -(ux * vy - uy * vx)) by (nonlinear_arith);
}

proof fn lemma_between_is_vertical(ux: int, uy: int, vx: int, vy: int)
    requires
        ux >= 0,
        vx >= 0,
        ux * vy - uy * vx == 0,
        ux * vx + uy * vy < 0,
    ensures
        ux == 0,
        vx == 0,
        uy * vy < 0,
{
    assert(ux * vx >= 0) by (nonlinear_arith)
        requires
            ux >= 0,
            vx >= 0,
    ;
    if ux > 0 {
        assert((ux * vy) * uy == ux * (uy * vy)) by (nonlinear_arith);
        assert((uy * vx) * uy == (uy * uy) * vx) by (nonlinear_arith);
        assert((uy * uy) * vx >= 0) by (nonlinear_arith)
            requires
                vx >= 0,
        ;
        assert(ux * (uy * vy) < 0) by (nonlinear_arith)
            requires
                ux > 0,
                uy * vy < 0,
        ;
        assert(false);
    }
    assert(ux * vy == 0) by (nonlinear_arith)
        requires
            ux == 0,
    ;
    if vx > 0 {
        assert(uy == 0) by (nonlinear_arith)
            requires
                uy * vx == 0,
                vx > 0,
        ;
        assert(uy * vy == 0) by (nonlinear_arith)
            requires
                uy == 0,
        ;
        assert(false);
    }
}

/// Where the first vertex is leftmost and the vertex at `beta` lies further
/// right, the first vertex lies between no two vertices that both come up
/// to `beta` or both come from `beta` on: with them it turns strictly
/// clockwise.
proof fn lemma_first_is_no_middle(h: Seq<Point>, beta: int, j: int, k: int)
    requires
        convex_but_first(h),
        0 < beta < h.len(),
        forall|i: int| 0 <= i < h.len() ==> h[0].x <= (#[trigger] h[i]).x,
        h[0].x < h[beta].x,
        0 < j < k < h.len(),
        k <= beta || j >= beta,
    ensures
        cross(h[0], h[j], h[k]) < 0,
{
    if cross(h[0], h[j], h[k]) >= 0 {
        assert(strictly_between(h[j], h[0], h[k]));
        lemma_first_in_the_middle(h, beta, j, k);
    }
}

/// The case of [`lemma_first_is_no_middle`] in which the first vertex is
/// taken to lie between the two: the two would then stand straight above
/// and below it, and one of them would turn the wrong way with the vertex
/// at `beta`.
proof fn lemma_first_in_the_middle(h: Seq<Point>, beta: int, j: int, k: int)
    requires
        convex_but_first(h),
        0 < beta < h.len(),
        forall|i: int| 0 <= i < h.len() ==> h[0].x <= (#[trigger] h[i]).x,
        h[0].x < h[beta].x,
        0 < j < k < h.len(),
        k <= beta || j >= beta,
        strictly_between(h[j], h[0], h[k]),
    ensures
        cross(h[0], h[j], h[k]) < 0,
{
    let ux: int = h[j].x - h[0].x;
    let uy: int = h[j].y - h[0].y;
    let vx: int = h[k].x - h[0].x;
    let vy: int = h[k].y - h[0].y;
    let wx: int = h[beta].x - h[0].x;
    let wy: int = h[beta].y - h[0].y;
    assert(h[0].x <= h[j].x);
    assert(h[0].x <= h[k].x);
    lemma_between_is_vertical(ux, uy, vx, vy);
    if k <= beta {
        assert(k < beta);
        assert(cross(h[0], h[j], h[beta]) < 0 || strictly_between(h[j], h[0], h[beta]));
        assert(cross(h[0], h[k], h[beta]) < 0 || strictly_between(h[k], h[0], h[beta]));
        if strictly_between(h[j], h[0], h[beta]) {
            lemma_between_is_vertical(ux, uy, wx, wy);
        }
        if strictly_between(h[k], h[0], h[beta]) {
            lemma_between_is_vertical(vx, vy, wx, wy);
        }
        assert(uy > 0) by (nonlinear_arith)
            requires
                ux == 0,
                wx > 0,
                ux * wy - uy * wx < 0,
        ;
        assert(vy > 0) by (nonlinear_arith)
            requires
                vx == 0,
                wx > 0,
                vx * wy - vy * wx < 0,
        ;
        assert(uy * vy > 0) by (nonlinear_arith)
            requires
                uy > 0,
                vy > 0,
        ;
    } else {
        assert(j > beta);
        assert(cross(h[0], h[beta], h[j]) < 0 || strictly_between(h[beta], h[0], h[j]));
        assert(cross(h[0], h[beta], h[k]) < 0 || strictly_between(h[beta], h[0], h[k]));
        if strictly_between(h[beta], h[0], h[j]) {
            lemma_between_is_vertical(wx, wy, ux, uy);
        }
        if strictly_between(h[beta], h[0], h[k]) {
            lemma_between_is_vertical(wx, wy, vx, vy);
        }
        assert(uy < 0) by (nonlinear_arith)
            requires
                ux == 0,
                wx > 0,
                wx * uy - wy * ux < 0,
        ;
        assert(vy < 0) by (nonlinear_arith)
            requires
                vx == 0,
                wx > 0,
                wx * vy - wy * vx < 0,
        ;
        assert(uy * vy > 0) by (nonlinear_arith)
            requires
                uy < 0,
                vy < 0,
        ;
    }
}

/// Where the first vertex is leftmost and the vertex at `beta` lies further
/// right, the vertices up to `beta` and those from `beta` on turn strictly
/// clockwise, each lot together with the first vertex.
proof fn lemma_halves_clockwise(h: Seq<Point>, beta: int)
    requires
        convex_but_first(h),
        0 < beta < h.len(),
        forall|i: int| 0 <= i < h.len() ==> h[0].x <= (#[trigger] h[i]).x,
        h[0].x < h[beta].x,
    ensures
        halves_clockwise(h, beta),
{
    assert forall|i: int, j: int, k: int|
        0 <= i < j < k < h.len() && (i >= 1 || k <= beta || j >= beta) implies #[trigger] cross(
        h[i],
        h[j],
        h[k],
    ) < 0 by {
        if i == 0 {
            lemma_first_is_no_middle(h, beta, j, k);
        }
    }
}

/// With the first rightmost vertex at `beta`, the vertices to the left of
/// the line from the first vertex to that one are those in between, and the
/// vertices to the left of the line back are those after it.
proof fn lemma_convex_sides(h: Seq<Point>, beta: int)
    requires
        h.len() <= usize::MAX,
        halves_clockwise(h, beta),
        0 < beta < h.len(),
    ensures
        indices(h.len()).filter(left_of(h, 0, beta as usize)) == indices(h.len()).subrange(
            1,
            beta,
        ),
        indices(h.len()).filter(left_of(h, beta as usize, 0)) == indices(h.len()).subrange(
            beta + 1,
            h.len() as int,
        ),
{
    let n = h.len();
    let a = 0usize;
    let b = beta as usize;
    let all = indices(n);
    lemma_height_of_ends(h, a, b);
    lemma_height_of_ends(h, b, a);
    assert forall|j: int| 0 <= j < n implies (left_of(h, a, b)(#[trigger] all[j]) <==> 1 <= j
        < beta) by {
        if 0 < j < beta {
            assert(cross(h[0], h[j], h[beta]) < 0);
            lemma_swap_last_two(h[0], h[j], h[beta]);
        } else if j > beta {
            assert(cross(h[0], h[beta], h[j]) < 0);
        }
    }
    assert forall|j: int| 0 <= j < n implies (left_of(h, b, a)(#[trigger] all[j]) <==> beta + 1
        <= j < n) by {
        lemma_cross_reverse(h[0], h[beta], h[j]);
        if 0 < j < beta {
            assert(cross(h[0], h[j], h[beta]) < 0);
            lemma_swap_last_two(h[0], h[j], h[beta]);
        } else if j > beta {
            assert(cross(h[0], h[beta], h[j]) < 0);
        }
    }
    lemma_filter_run(all, left_of(h, a, b), 1, beta);
    lemma_filter_run(all, left_of(h, b, a), beta + 1, n as int);
}

/// The vertices from the first up to the one at `beta` stand in clockwise
/// order, and so do those from `beta` on, followed by the first.
proof fn lemma_convex_orders(h: Seq<Point>, beta: int)
    requires
        h.len() <= usize::MAX,
        halves_clockwise(h, beta),
        0 < beta < h.len(),
    ensures
        clockwise(h, (seq![0usize] + indices(h.len()).subrange(1, beta)).push(beta as usize)),
        clockwise(
            h,
            (seq![beta as usize] + indices(h.len()).subrange(beta + 1, h.len() as int)).push(
                0usize,
            ),
        ),
{
    let n = h.len();
    let all = indices(n);
    let o1 = (seq![0usize] + all.subrange(1, beta)).push(beta as usize);
    let o2 = (seq![beta as usize] + all.subrange(beta + 1, n as int)).push(0usize);
    assert forall|x: int, y: int, z: int| 0 <= x < y < z < o1.len() implies #[trigger] height(
        h,
        o1[x],
        o1[y],
        o1[z],
    ) < 0 by {
        assert(o1[x] == x);
        assert(o1[y] == y);
        assert(o1[z] == z);
        assert(cross(h[x], h[y], h[z]) < 0);
    }
    assert forall|x: int, y: int, z: int| 0 <= x < y < z < o2.len() implies #[trigger] height(
        h,
        o2[x],
        o2[y],
        o2[z],
    ) < 0 by {
        assert(o2[x] == x + beta);
        assert(o2[y] == y + beta);
        if z == o2.len() - 1 {
            assert(o2[z] == 0);
            assert(cross(h[0], h[x + beta], h[y + beta]) < 0);
            lemma_cross_rotate(h[0], h[x + beta], h[y + beta]);
        } else {
            assert(o2[z] == z + beta);
            assert(cross(h[x + beta], h[y + beta], h[z + beta]) < 0);
        }
    }
}

/// Two points of which the first is further left, or at the same
/// x-coordinate no higher, are their own hull.
proof fn lemma_hull_of_pair(h: Seq<Point>)
    requires
        h.len() == 2,
        h[0].x < h[1].x || (h[0].x == h[1].x && h[0].y <= h[1].y),
    ensures
        hull_of(h) == h,
{
    lemma_hull_ends(h);
    lemma_min_x_index(h);
    lemma_max_x_index(h);
    lemma_min_y_index(h);
    lemma_max_y_index(h);
    let a = hull_ends(h).0 as usize;
    let b = hull_ends(h).1 as usize;
    assert(h[0].x <= h[1].x);
    assert(h[0].y <= h[1].y || h[0].x < h[1].x);
    assert(a == 0);
    assert(h[b as int] == h[1]);
    lemma_height_of_ends(h, a, b);
    lemma_height_of_ends(h, b, a);
    assert forall|i: usize| i < h.len() implies #[trigger] height(h, a, b, i) == 0 && height(
        h,
        b,
        a,
        i,
    ) == 0 by {
        if b == 0 {
            lemma_same_ends_flat(h, 0, i);
        }
    }
    lemma_flat_side(h, a, b);
    lemma_flat_side(h, b, a);
    let hi = hull_indices(h);
    assert(hi.len() == 2);
    assert(hi[0] == a);
    assert(hi[1] == b);
    assert(hull_of(h) =~= h);
}

/// The hull of a polygon whose first vertex is its first leftmost, whose
/// first rightmost vertex is another one, and whose vertices turn strictly
/// clockwise on either side of that one, lists every vertex in order.
proof fn lemma_hull_of_convex(h: Seq<Point>)
    requires
        h.len() <= usize::MAX,
        halves_clockwise(h, max_x_index(h)),
        min_x_index(h) == 0,
        0 < max_x_index(h) < h.len(),
    ensures
        hull_indices(h) == indices(h.len()),
{
    let n = h.len();
    let beta = max_x_index(h);
    let b = beta as usize;
    let all = indices(n);
    assert(hull_ends(h) == (0int, beta));
    lemma_convex_sides(h, beta);
    lemma_convex_orders(h, beta);
    let s1 = all.subrange(1, beta);
    let s2 = all.subrange(beta + 1, n as int);
    lemma_chain_of_clockwise(h, s1, 0, b);
    lemma_chain_of_clockwise(h, s2, b, 0);
    let hi = (seq![0usize] + s1).push(b) + s2;
    assert(hull_indices(h) == hi);
    assert(hi.len() == n);
    assert forall|k: int| 0 <= k < n implies hi[k] == all[k] by {
        if k == 0 {
        } else if k < beta {
            assert(hi[k] == s1[k - 1]);
        } else if k == beta {
        } else {
            assert(hi[k] == s2[k - beta - 1]);
        }
    }
    assert(hi =~= all);
}

/// QuickHull returns a convex polygon unchanged, when the polygon is given
/// clockwise from its first leftmost vertex and no vertex but the first
/// sits on an edge. Two vertices must come in the order in which the hull
/// lists its ends: the first further left, or at the same x-coordinate no
/// higher. Three or more must not all share one x-coordinate.
pub proof fn lemma_convex_fixed(h: Seq<Point>)
    requires
        h.len() <= usize::MAX,
        convex_but_first(h),
        min_x_index(h) == 0,
        h.len() == 2 ==> h[0].x < h[1].x || (h[0].x == h[1].x && h[0].y <= h[1].y),
        h.len() >= 3 ==> min_x_index(h) != max_x_index(h),
    ensures
        hull_of(h) == h,
{
    let n = h.len();
    if n >= 3 {
        lemma_max_x_index(h);
        lemma_min_x_index(h);
        let beta = max_x_index(h);
        assert(h[beta].x > h[0].x);
        lemma_halves_clockwise(h, beta);
        lemma_hull_of_convex(h);
        assert(hull_of(h) =~= h);
    } else if n == 2 {
        lemma_hull_of_pair(h);
    } else {
        assert(hull_indices(h) =~= indices(n));
        assert(hull_of(h) =~= h);
    }
}

/// The hull of the hull is the hull, whenever no vertex of the hull but
/// the first sits on an edge of it. A later vertex that sits on an edge may
/// be lost when the hull is taken again.
pub proof fn lemma_hull_idempotent(pts: Seq<Point>)
    requires
        pts.len() <= usize::MAX,
        convex_but_first(hull_of(pts)),
    ensures
        hull_of(hull_of(pts)) == hull_of(pts),
{
    let h = hull_of(pts);
    let hi = hull_indices(pts);
    lemma_hull_size(pts);
    lemma_hull_indices_in_range(pts);
    if pts.len() >= 2 {
        lemma_hull_ends(pts);
        lemma_min_x_index(pts);
        lemma_max_x_index(pts);
        lemma_min_y_index(pts);
        lemma_max_y_index(pts);
        lemma_min_x_index(h);
        let a = hull_ends(pts).0;
        let b = hull_ends(pts).1;
        let all = indices(pts.len());
        let c1 = chain(pts, all.filter(left_of(pts, a as usize, b as usize)), a as usize, b as usize);
        let k = c1.len() as int + 1;
        assert(hi[0] == a);
        assert(h[0] == pts[a]);
        assert(hi[k] == b);
        assert(h[k] == pts[b]);
        assert forall|j: int| 0 <= j < h.len() implies h[0].x <= (#[trigger] h[j]).x by {
            assert(h[j] == pts[hi[j] as int]);
            assert(pts[hi[j] as int].x == pts[0].x || pts[a].x <= pts[hi[j] as int].x);
        }
        assert(min_x_index(h) == 0);
        if min_x_index(pts) == max_x_index(pts) {
            lemma_vertical_heights(pts, a as usize, b as usize);
            lemma_vertical_heights(pts, b as usize, a as usize);
            lemma_flat_side(pts, a as usize, b as usize);
            lemma_flat_side(pts, b as usize, a as usize);
            assert(h.len() == 2);
            assert(pts[a].x == pts[0].x);
            assert(pts[b].x == pts[0].x);
            assert(pts[a].y <= pts[b].y);
        } else {
            if pts[a].x == pts[b].x {
                assert forall|i: int| 0 <= i < pts.len() implies (#[trigger] pts[i]).x
                    == pts[0].x by {
                    assert(pts[a].x <= pts[i].x <= pts[b].x);
                    assert(pts[a].x <= pts[0].x <= pts[b].x);
                }
            }
            assert(pts[a].x < pts[b].x);
            if h.len() >= 3 {
                lemma_max_x_index(h);
                if max_x_index(h) == 0 {
                    assert(h[0].x >= h[k].x);
                }
            }
        }
    } else if pts.len() == 1 {
        assert(h =~= pts);
    }
    lemma_convex_fixed(h);
}

/// Every vertex of the hull is one of the input points.
pub proof fn lemma_hull_subset(pts: Seq<Point>, k: int)
    requires
        0 <= k < hull_of(pts).len(),
    ensures
        pts.contains(hull_of(pts)[k]),
{
    lemma_hull_indices_in_range(pts);
    assert(pts[hull_indices(pts)[k] as int] == hull_of(pts)[k]);
}

/// The hull is convex: none of its vertices lies strictly to the left of
/// any of its edges, taken clockwise.
pub proof fn lemma_hull_convex(pts: Seq<Point>)
    requires
        pts.len() <= usize::MAX,
    ensures
        encloses(hull_of(pts), hull_of(pts)),
{
    let h = hull_of(pts);
    lemma_hull_encloses(pts);
    assert forall|k: int, i: int| 0 <= k < h.len() && 0 <= i < h.len() implies cross(
        #[trigger] h[k],
        h[next_index(k, h.len())],
        #[trigger] h[i],
    ) <= 0 by {
        lemma_hull_subset(pts, i);
        let m = choose|m: int| 0 <= m < pts.len() && pts[m] == h[i];
        assert(cross(h[k], h[next_index(k, h.len())], pts[m]) <= 0);
    }
}

/// A convex polygon that QuickHull returns unchanged has the area of its
/// hull: one given clockwise from its first leftmost vertex, with no vertex
/// but the first on an edge.
pub proof fn lemma_convex_polygon_keeps_area(h: Seq<Point>)
    requires
        h.len() <= usize::MAX,
        convex_but_first(h),
        min_x_index(h) == 0,
        h.len() == 2 ==> h[0].x < h[1].x || (h[0].x == h[1].x && h[0].y <= h[1].y),
        h.len() >= 3 ==> min_x_index(h) != max_x_index(h),
    ensures
        doubled_area(hull_of(h)) == doubled_area(h),
{
    lemma_convex_fixed(h);
}

/// No point has a smaller x-coordinate than `v`.
pub open spec fn leftmost_of(pts: Seq<Point>, v: Point) -> bool {
    forall|i: int| 0 <= i < pts.len() ==> v.x <= (#[trigger] pts[i]).x
}

/// No point has a larger x-coordinate than `v`.
pub open spec fn rightmost_of(pts: Seq<Point>, v: Point) -> bool {
    forall|i: int| 0 <= i < pts.len() ==> (#[trigger] pts[i]).x <= v.x
}

/// No point has a smaller y-coordinate than `v`.
pub open spec fn lowest_of(pts: Seq<Point>, v: Point) -> bool {
    forall|i: int| 0 <= i < pts.len() ==> v.y <= (#[trigger] pts[i]).y
}

/// No point has a larger y-coordinate than `v`.
pub open spec fn highest_of(pts: Seq<Point>, v: Point) -> bool {
    forall|i: int| 0 <= i < pts.len() ==> (#[trigger] pts[i]).y <= v.y
}

/// All points share one x-coordinate.
pub open spec fn one_x(pts: Seq<Point>) -> bool {
    forall|i: int| 0 <= i < pts.len() ==> (#[trigger] pts[i]).x == pts[0].x
}

/// The hull reaches as far as the points do: its first vertex is leftmost
/// among the points, and one of its vertices is rightmost among them. Of
/// two or more points that share one x-coordinate the hull is two
/// vertices, the first lowest among the points and the second highest.
pub proof fn lemma_hull_spans(pts: Seq<Point>)
    requires
        0 < pts.len() <= usize::MAX,
    ensures
        leftmost_of(pts, hull_of(pts)[0]),
        exists|k: int| 0 <= k < hull_of(pts).len() && rightmost_of(pts, #[trigger] hull_of(pts)[k]),
        pts.len() >= 2 && one_x(pts) ==> hull_of(pts).len() == 2 && lowest_of(
            pts,
            hull_of(pts)[0],
        ) && highest_of(pts, hull_of(pts)[1]),
{
    lemma_hull_ends(pts);
    lemma_min_x_index(pts);
    lemma_max_x_index(pts);
    lemma_min_y_index(pts);
    lemma_max_y_index(pts);
    let h = hull_indices(pts);
    if pts.len() == 1 {
        assert(hull_of(pts)[0] == pts[0]);
        assert(rightmost_of(pts, hull_of(pts)[0]));
    } else {
        let a = hull_ends(pts).0 as usize;
        let b = hull_ends(pts).1 as usize;
        let all = indices(pts.len());
        let c1 = chain(pts, all.filter(left_of(pts, a, b)), a, b);
        assert(h[0] == a);
        assert(hull_of(pts)[0] == pts[a as int]);
        let k = c1.len() as int + 1;
        assert(h[k] == b);
        assert(hull_of(pts)[k] == pts[b as int]);
        if min_x_index(pts) == max_x_index(pts) {
            lemma_vertical_heights(pts, a, b);
            lemma_vertical_heights(pts, b, a);
            lemma_flat_side(pts, a, b);
            lemma_flat_side(pts, b, a);
            assert(pts[a as int].x == pts[0].x);
            assert(pts[b as int].x == pts[0].x);
            assert(hull_of(pts).len() == 2);
            assert(lowest_of(pts, hull_of(pts)[0]));
            assert(highest_of(pts, hull_of(pts)[1]));
        }
        assert(leftmost_of(pts, hull_of(pts)[0]));
        assert(rightmost_of(pts, hull_of(pts)[k]));
    }
}

/// `p` lies on the segment from `a` to `b`.
pub open spec fn on_segment(a: Point, b: Point, p: Point) -> bool {
    &&& cross(a, b, p) == 0
    &&& a.x <= p.x <= b.x || b.x <= p.x <= a.x
    &&& a.y <= p.y <= b.y || b.y <= p.y <= a.y
}

/// All points lie on one line.
#[verifier::opaque]
pub open spec fn collinear(pts: Seq<Point>) -> bool {
    forall|i: int, j: int, k: int|
        #![trigger cross(pts[i], pts[j], pts[k])]
        0 <= i < pts.len() && 0 <= j < pts.len() && 0 <= k < pts.len() ==> cross(
            pts[i],
            pts[j],
            pts[k],
        ) == 0
}

proof fn lemma_collinear_box(ux: int, uy: int, vx: int, vy: int)
    requires
        ux > 0,
        0 <= vx <= ux,
        ux * vy - uy * vx == 0,
    ensures
        0 <= vy <= uy || uy <= vy <= 0,
{
    if uy >= 0 {
        assert(0 <= uy * vx <= uy * ux) by (nonlinear_arith)
            requires
                uy >= 0,
                0 <= vx <= ux,
        ;
        assert(0 <= vy <= uy) by (nonlinear_arith)
            requires
                ux > 0,
                0 <= ux * vy <= uy * ux,
        ;
    } else {
        assert(uy * ux <= uy * vx <= 0) by (nonlinear_arith)
            requires
                uy < 0,
                0 <= vx <= ux,
        ;
        assert(uy <= vy <= 0) by (nonlinear_arith)
            requires
                ux > 0,
                uy * ux <= ux * vy <= 0,
        ;
    }
}

/// The polygon is a segment that holds the points: it has two vertices,
/// and every point lies on the segment between them.
#[verifier::opaque]
pub open spec fn spans_as_segment(hull: Seq<Point>, pts: Seq<Point>) -> bool {
    hull.len() == 2 && forall|i: int|
        0 <= i < pts.len() ==> on_segment(hull[0], hull[1], #[trigger] pts[i])
}

/// The hull of two or more points on one line is the segment that holds
/// them all: two vertices, with every point on the segment between them.
pub proof fn lemma_collinear_hull(pts: Seq<Point>)
    requires
        2 <= pts.len() <= usize::MAX,
        collinear(pts),
    ensures
        spans_as_segment(hull_of(pts), pts),
        hull_of(pts).len() == 2,
        forall|i: int|
            0 <= i < pts.len() ==> on_segment(hull_of(pts)[0], hull_of(pts)[1], #[trigger] pts[i]),
{
    reveal(collinear);
    reveal(spans_as_segment);
    lemma_hull_ends(pts);
    lemma_min_x_index(pts);
    lemma_max_x_index(pts);
    lemma_min_y_index(pts);
    lemma_max_y_index(pts);
    let a = hull_ends(pts).0 as usize;
    let b = hull_ends(pts).1 as usize;
    assert forall|i: usize| i < pts.len() implies #[trigger] height(pts, a, b, i) == 0 by {
        assert(cross(pts[a as int], pts[b as int], pts[i as int]) == 0);
    }
    assert forall|i: usize| i < pts.len() implies #[trigger] height(pts, b, a, i) == 0 by {
        assert(cross(pts[b as int], pts[a as int], pts[i as int]) == 0);
    }
    lemma_flat_side(pts, a, b);
    lemma_flat_side(pts, b, a);
    let hi = hull_indices(pts);
    let h = hull_of(pts);
    assert(hi.len() == 2);
    assert(hi[0] == a);
    assert(hi[1] == b);
    assert(h[0] == pts[a as int]);
    assert(h[1] == pts[b as int]);
    assert forall|i: int| 0 <= i < pts.len() implies on_segment(h[0], h[1], #[trigger] pts[i]) by {
        assert(cross(pts[a as int], pts[b as int], pts[i]) == 0);
        if min_x_index(pts) == max_x_index(pts) {
            assert(pts[a as int].x == pts[0].x);
            assert(pts[b as int].x == pts[0].x);
            assert(pts[i].x == pts[0].x);
            assert(pts[a as int].y <= pts[i].y <= pts[b as int].y);
        } else {
            assert(pts[a as int].x <= pts[i].x <= pts[b as int].x);
            if pts[a as int].x == pts[b as int].x {
                assert forall|m: int| 0 <= m < pts.len() implies (#[trigger] pts[m]).x
                    == pts[0].x by {
                    assert(pts[a as int].x <= pts[m].x <= pts[b as int].x);
                    assert(pts[a as int].x <= pts[0].x <= pts[b as int].x);
                }
            }
            lemma_collinear_box(
                pts[b as int].x - pts[a as int].x,
                pts[b as int].y - pts[a as int].y,
                pts[i].x - pts[a as int].x,
                pts[i].y - pts[a as int].y,
            );
        }
    }
}

/// The vertices of a chain are different points, each strictly to the left
/// of the line between the ends.
pub proof fn lemma_chain_distinct(pts: Seq<Point>, cand: Seq<usize>, a: usize, b: usize)
    requires
        candidates_ok(pts, cand, a, b),
    ensures
        forall|x: int|
            0 <= x < chain(pts, cand, a, b).len() ==> (#[trigger] chain(pts, cand, a, b)[x])
                < pts.len() && height(pts, a, b, chain(pts, cand, a, b)[x]) > 0,
        forall|x: int, y: int|
            0 <= x < y < chain(pts, cand, a, b).len() ==> pts[(#[trigger] chain(
                pts,
                cand,
                a,
                b,
            )[x]) as int] != pts[(#[trigger] chain(pts, cand, a, b)[y]) as int],
    decreases cand.len(),
{
    let c = chain(pts, cand, a, b);
    lemma_chain_drawn_from(pts, cand, a, b);
    assert forall|x: int| 0 <= x < c.len() implies (#[trigger] c[x]) < pts.len() && height(
        pts,
        a,
        b,
        c[x],
    ) > 0 by {
        assert(cand.contains(c[x]));
        let m = choose|m: int| 0 <= m < cand.len() && cand[m] == c[x];
        assert(cand[m] < pts.len());
    }
    if cand.len() > 0 {
        lemma_farthest_in_range(pts, cand, a, b);
        let f = cand[farthest_position(pts, cand, a, b)];
        let near = left_of(pts, a, f);
        let far = beyond(pts, a, f, b);
        let s1 = cand.filter(near);
        let s2 = cand.filter(far);
        assert(cand.contains(f));
        lemma_split_shrinks(pts, cand, a, f, b);
        lemma_filter_members(cand, near);
        lemma_filter_members(cand, far);
        assert forall|j: int| 0 <= j < s1.len() implies (#[trigger] s1[j]) < pts.len() && height(
            pts,
            a,
            f,
            s1[j],
        ) > 0 by {
            assert(near(s1[j]));
            let m = choose|m: int| 0 <= m < cand.len() && cand[m] == s1[j];
            assert(cand[m] < pts.len());
        }
        assert forall|j: int| 0 <= j < s2.len() implies (#[trigger] s2[j]) < pts.len() && height(
            pts,
            f,
            b,
            s2[j],
        ) > 0 by {
            assert(far(s2[j]));
            let m = choose|m: int| 0 <= m < cand.len() && cand[m] == s2[j];
            assert(cand[m] < pts.len());
        }
        lemma_chain_distinct(pts, s1, a, f);
        lemma_chain_distinct(pts, s2, f, b);
        lemma_chain_drawn_from(pts, s1, a, f);
        lemma_chain_drawn_from(pts, s2, f, b);
        lemma_height_of_ends(pts, a, f);
        lemma_height_of_ends(pts, f, b);
        let c1 = chain(pts, s1, a, f);
        let c2 = chain(pts, s2, f, b);
        assert(c == c1.push(f) + c2);
        assert forall|y: int| 0 <= y < c2.len() implies !(height(pts, a, f, #[trigger] c2[y])
            > 0) by {
            assert(s2.contains(c2[y]));
            let m = choose|m: int| 0 <= m < s2.len() && s2[m] == c2[y];
            assert(far(s2[m]));
        }
        assert forall|x: int, y: int| 0 <= x < y < c.len() implies pts[(#[trigger] c[x]) as int]
            != pts[(#[trigger] c[y]) as int] by {
            if y < c1.len() {
                assert(c[x] == c1[x] && c[y] == c1[y]);
            } else if x < c1.len() {
                assert(c[x] == c1[x]);
                assert(height(pts, a, f, c1[x]) > 0);
                if y > c1.len() {
                    assert(c[y] == c2[y - c1.len() - 1]);
                }
            } else if x == c1.len() {
                assert(c[y] == c2[y - c1.len() - 1]);
                assert(height(pts, f, b, c2[y - c1.len() - 1]) > 0);
            } else {
                assert(c[x] == c2[x - c1.len() - 1]);
                assert(c[y] == c2[y - c1.len() - 1]);
            }
        }
    }
}

/// No point is a vertex of the hull twice, unless all points are equal.
pub proof fn lemma_hull_vertices_distinct(pts: Seq<Point>, x: int, y: int)
    requires
        pts.len() <= usize::MAX,
        0 <= x < y < hull_of(pts).len(),
        exists|i: int| 0 <= i < pts.len() && #[trigger] pts[i] != pts[0],
    ensures
        hull_of(pts)[x] != hull_of(pts)[y],
{
    lemma_hull_ends(pts);
    let a = hull_ends(pts).0 as usize;
    let b = hull_ends(pts).1 as usize;
    let all = indices(pts.len());
    let up = all.filter(left_of(pts, a, b));
    let down = all.filter(left_of(pts, b, a));
    lemma_side_of_all(pts, a, b);
    lemma_side_of_all(pts, b, a);
    lemma_chain_distinct(pts, up, a, b);
    lemma_chain_distinct(pts, down, b, a);
    lemma_height_of_ends(pts, a, b);
    let c1 = chain(pts, up, a, b);
    let c2 = chain(pts, down, b, a);
    let hi = hull_indices(pts);
    assert(hi == (seq![a] + c1).push(b) + c2);
    assert(a != b);
    lemma_min_x_index(pts);
    lemma_max_x_index(pts);
    lemma_min_y_index(pts);
    lemma_max_y_index(pts);
    assert(pts[a as int] != pts[b as int]) by {
        if pts[a as int] == pts[b as int] {
            if min_x_index(pts) == max_x_index(pts) {
                assert forall|i: int| 0 <= i < pts.len() implies #[trigger] pts[i] == pts[0] by {
                    assert(pts[a as int].y <= pts[i].y <= pts[b as int].y);
                    assert(pts[a as int].y <= pts[0].y <= pts[b as int].y);
                    assert(pts[i].x == pts[0].x);
                }
            } else {
                assert forall|i: int| 0 <= i < pts.len() implies (#[trigger] pts[i]).x
                    == pts[0].x by {
                    assert(pts[a as int].x <= pts[i].x <= pts[b as int].x);
                    assert(pts[a as int].x <= pts[0].x <= pts[b as int].x);
                }
            }
        }
    }
    let hx = hi[x];
    let hy = hi[y];
    assert(hull_of(pts)[x] == pts[hx as int]);
    assert(hull_of(pts)[y] == pts[hy as int]);
    if x >= 1 && x <= c1.len() {
        assert(hx == c1[x - 1]);
        assert(height(pts, a, b, hx) > 0);
    }
    if y >= 1 && y <= c1.len() {
        assert(hy == c1[y - 1]);
        assert(height(pts, a, b, hy) > 0);
    }
    if x > c1.len() + 1 {
        assert(hx == c2[x - c1.len() - 2]);
        assert(height(pts, b, a, hx) > 0);
        lemma_cross_reverse(pts[a as int], pts[b as int], pts[hx as int]);
    }
    if y > c1.len() + 1 {
        assert(hy == c2[y - c1.len() - 2]);
        assert(height(pts, b, a, hy) > 0);
        lemma_cross_reverse(pts[a as int], pts[b as int], pts[hy as int]);
    }
}

/// Every vertex of the hull lies on the hull's boundary, not strictly
/// inside: it is on the edge that starts at it.
pub proof fn lemma_hull_vertex_on_boundary(pts: Seq<Point>, k: int)
    requires
        0 <= k < hull_of(pts).len(),
    ensures
        cross(hull_of(pts)[k], hull_of(pts)[next_index(k, hull_of(pts).len())], hull_of(pts)[k])
            == 0,
{
    let h = hull_of(pts);
    let p = h[k];
    let q = h[next_index(k, h.len())];
    assert((q.x - p.x) * (p.y - p.y) - (q.y - p.y) * (p.x - p.x) == 0) by (nonlinear_arith);
}

} // verus!
