//! What holds of the area of every polygon: it does not depend on the
//! vertex at which the polygon starts, nor on the direction in which it
//! runs, nor on whether the first vertex is repeated at the end.

use vstd::prelude::*;
use crate::area::{doubled_area, next_vertex, prev_vertex, shoelace, shoelace_term, shoelace_upto};
use crate::point::Point;

verus! {

/// The sum of the numbers.
pub open spec fn total(s: Seq<int>) -> int
    decreases s.len(),
{
    if s.len() == 0 {
        0
    } else {
        total(s.drop_last()) + s.last()
    }
}

/// What each vertex adds to the shoelace sum.
pub open spec fn terms(poly: Seq<Point>) -> Seq<int> {
    Seq::new(poly.len(), |i: int| shoelace_term(poly, i))
}

/// The polygon started at vertex `k`.
pub open spec fn rotated(poly: Seq<Point>, k: int) -> Seq<Point> {
    poly.subrange(k, poly.len() as int) + poly.subrange(0, k)
}

proof fn lemma_total_concat(a: Seq<int>, b: Seq<int>)
    ensures
        total(a + b) == total(a) + total(b),
    decreases b.len(),
{
    if b.len() == 0 {
        assert(a + b =~= a);
    } else {
        lemma_total_concat(a, b.drop_last());
        assert((a + b).drop_last() =~= a + b.drop_last());
    }
}

proof fn lemma_total_mirror(s: Seq<int>, t: Seq<int>)
    requires
        s.len() == t.len(),
        forall|i: int| 0 <= i < s.len() ==> #[trigger] t[i] == -s[s.len() - 1 - i],
    ensures
        total(t) == -total(s),
    decreases s.len(),
{
    if s.len() > 0 {
        let n = s.len() as int;
        let s2 = s.drop_last();
        let t2 = t.subrange(1, n);
        assert forall|i: int| 0 <= i < s2.len() implies #[trigger] t2[i] == -s2[s2.len() - 1
            - i] by {
            assert(t2[i] == t[i + 1]);
        }
        lemma_total_mirror(s2, t2);
        assert(t =~= seq![t[0]] + t2);
        lemma_total_concat(seq![t[0]], t2);
        lemma_total_single(t[0]);
    }
}

/// The shoelace sum is the sum of its terms.
proof fn lemma_shoelace_is_total(poly: Seq<Point>, k: int)
    requires
        0 <= k <= poly.len(),
    ensures
        shoelace_upto(poly, k) == total(terms(poly).take(k)),
    decreases k,
{
    if k > 0 {
        lemma_shoelace_is_total(poly, k - 1);
        assert(terms(poly).take(k).drop_last() =~= terms(poly).take(k - 1));
    }
}

proof fn lemma_shoelace_total(poly: Seq<Point>)
    ensures
        shoelace(poly) == total(terms(poly)),
{
    lemma_shoelace_is_total(poly, poly.len() as int);
    assert(terms(poly).take(poly.len() as int) =~= terms(poly));
}

/// The shoelace sum does not depend on the vertex at which the polygon starts.
pub proof fn lemma_rotation_keeps_shoelace(poly: Seq<Point>, k: int)
    requires
        0 <= k <= poly.len(),
    ensures
        shoelace(rotated(poly, k)) == shoelace(poly),
{
    let n = poly.len() as int;
    let r = rotated(poly, k);
    let t = terms(poly);
    let front = t.subrange(0, k);
    let back = t.subrange(k, n);
    assert(r.len() == n);
    assert forall|i: int| 0 <= i < n implies #[trigger] terms(r)[i] == (back + front)[i] by {
        let m = if i + k < n {
            i + k
        } else {
            i + k - n
        };
        assert(r[i] == poly[m]);
        let ni = next_vertex(i, n);
        let pi = prev_vertex(i, n);
        assert(r[ni] == poly[next_vertex(m, n)]);
        assert(r[pi] == poly[prev_vertex(m, n)]);
    }
    assert(terms(r) =~= back + front);
    assert(t =~= front + back);
    lemma_total_concat(back, front);
    lemma_total_concat(front, back);
    lemma_shoelace_total(r);
    lemma_shoelace_total(poly);
}

/// The shoelace sum changes its sign when the polygon runs the other way.
pub proof fn lemma_reversal_flips_shoelace(poly: Seq<Point>)
    ensures
        shoelace(poly.reverse()) == -shoelace(poly),
{
    let n = poly.len() as int;
    let v = poly.reverse();
    assert(v.len() == n);
    assert forall|i: int| 0 <= i < n implies #[trigger] terms(v)[i] == -terms(poly)[n - 1 - i] by {
        let m = n - 1 - i;
        assert(v[i] == poly[m]);
        assert(v[next_vertex(i, n)] == poly[prev_vertex(m, n)]);
        assert(v[prev_vertex(i, n)] == poly[next_vertex(m, n)]);
        let x: int = poly[m].x as int;
        let a: int = poly[prev_vertex(m, n)].y as int;
        let b: int = poly[next_vertex(m, n)].y as int;
        assert(x * (a - b) == -(x * (b - a))) by (nonlinear_arith);
    }
    lemma_total_mirror(terms(poly), terms(v));
    lemma_shoelace_total(v);
    lemma_shoelace_total(poly);
}

/// The shoelace sum does not change when the first vertex is repeated at
/// the end, as the rings of some file formats do.
pub proof fn lemma_closing_vertex_keeps_shoelace(poly: Seq<Point>)
    requires
        poly.len() >= 1,
    ensures
        shoelace(poly.push(poly[0])) == shoelace(poly),
{
    let n = poly.len() as int;
    let q = poly.push(poly[0]);
    lemma_shoelace_total(q);
    lemma_shoelace_total(poly);
    let tq = terms(q);
    let tp = terms(poly);
    assert(tq.drop_last().len() == n);
    if n == 1 {
        reveal_with_fuel(total, 3);
        let x: int = poly[0].x as int;
        let y: int = poly[0].y as int;
        assert(x * (y - y) == 0) by (nonlinear_arith);
        assert(tq[0] == 0);
        assert(tq[1] == 0);
        assert(tp[0] == 0);
        assert(tq.drop_last().drop_last() =~= Seq::<int>::empty());
        assert(tp.drop_last() =~= Seq::<int>::empty());
    } else {
        // all terms but the first and the added one are those of the polygon
        let mid_q = tq.subrange(1, n);
        let mid_p = tp.subrange(1, n);
        assert forall|i: int| 0 <= i < n - 1 implies #[trigger] mid_q[i] == mid_p[i] by {
            let m = i + 1;
            assert(q[m] == poly[m]);
            assert(q[prev_vertex(m, n + 1)] == poly[prev_vertex(m, n)]);
            assert(q[next_vertex(m, n + 1)] == poly[next_vertex(m, n)]);
        }
        assert(mid_q =~= mid_p);
        assert(tq =~= (seq![tq[0]] + mid_q) + seq![tq[n]]);
        assert(tp =~= seq![tp[0]] + mid_p);
        lemma_total_concat(seq![tq[0]] + mid_q, seq![tq[n]]);
        lemma_total_concat(seq![tq[0]], mid_q);
        lemma_total_concat(seq![tp[0]], mid_p);
        lemma_total_single(tq[0]);
        lemma_total_single(tq[n]);
        lemma_total_single(tp[0]);
        let x: int = poly[0].x as int;
        let y0: int = poly[0].y as int;
        let y1: int = poly[1].y as int;
        let yl: int = poly[n - 1].y as int;
        assert(tq[0] == x * (y1 - y0));
        assert(tq[n] == x * (y0 - yl));
        assert(tp[0] == x * (y1 - yl));
        assert(x * (y1 - y0) + x * (y0 - yl) == x * (y1 - yl)) by (nonlinear_arith);
    }
}

proof fn lemma_total_single(v: int)
    ensures
        total(seq![v]) == v,
{
    reveal_with_fuel(total, 2);
    assert(seq![v].drop_last() =~= Seq::<int>::empty());
}

/// The area of a polygon does not depend on the vertex at which it starts,
/// nor on the direction in which it runs, nor on a repetition of its first
/// vertex at the end.
pub proof fn lemma_area_of_the_same_polygon(poly: Seq<Point>, k: int)
    requires
        0 <= k <= poly.len(),
    ensures
        doubled_area(rotated(poly, k)) == doubled_area(poly),
        doubled_area(poly.reverse()) == doubled_area(poly),
        poly.len() >= 1 ==> doubled_area(poly.push(poly[0])) == doubled_area(poly),
{
    lemma_rotation_keeps_shoelace(poly, k);
    lemma_reversal_flips_shoelace(poly);
    if poly.len() >= 1 {
        lemma_closing_vertex_keeps_shoelace(poly);
    }
}

} // verus!
