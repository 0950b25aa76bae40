//! Minimum-area bounding rectangles by rotating calipers, and the aspect
//! ratio that measures how elongated a region is.
//!
//! A rectangle is aligned to an edge of the convex hull. To stay exact, all
//! lengths are measured in the edge's own unit: a projection onto the edge
//! vector `d` is kept as the dot product with `d`, which is the true
//! projection times the length of `d`.

use vstd::prelude::*;
use crate::hull_laws::next_index;
use crate::point::Point;
use crate::quickhull::{hull_of, quick_hull};
use crate::rectangle_laws::{all_same, lemma_aspect_undefined, lemma_rectangle_undefined};
use crate::wide::{Wide, half_range};

verus! {

/// The x-component of edge `e` of the closed polygon `h`.
pub open spec fn edge_dx(h: Seq<Point>, e: int) -> int {
    h[next_index(e, h.len())].x - h[e].x
}

/// The y-component of edge `e` of the closed polygon `h`.
pub open spec fn edge_dy(h: Seq<Point>, e: int) -> int {
    h[next_index(e, h.len())].y - h[e].y
}

/// The squared length of edge `e`.
pub open spec fn edge_length_squared(h: Seq<Point>, e: int) -> int {
    edge_dx(h, e) * edge_dx(h, e) + edge_dy(h, e) * edge_dy(h, e)
}

/// The dot product of vertex `i` with the vector of edge `e`, or, when
/// `across` is set, with that vector turned a quarter counter-clockwise.
pub open spec fn projection(h: Seq<Point>, e: int, across: bool, i: int) -> int {
    if across {
        h[i].y * edge_dx(h, e) - h[i].x * edge_dy(h, e)
    } else {
        h[i].x * edge_dx(h, e) + h[i].y * edge_dy(h, e)
    }
}

/// The smallest projection among the first `k` vertices.
pub open spec fn least(h: Seq<Point>, e: int, across: bool, k: int) -> int
    decreases k,
{
    if k <= 1 {
        projection(h, e, across, 0)
    } else {
        let m = least(h, e, across, k - 1);
        let p = projection(h, e, across, k - 1);
        if p < m {
            p
        } else {
            m
        }
    }
}

/// The largest projection among the first `k` vertices.
pub open spec fn greatest(h: Seq<Point>, e: int, across: bool, k: int) -> int
    decreases k,
{
    if k <= 1 {
        projection(h, e, across, 0)
    } else {
        let m = greatest(h, e, across, k - 1);
        let p = projection(h, e, across, k - 1);
        if p > m {
            p
        } else {
            m
        }
    }
}

/// A rectangle aligned to an edge of a polygon.
///
/// With `d = (dx, dy)` the vector of the edge and `scale` its squared
/// length, the rectangle holds the points whose dot product with `d` lies
/// between `min_along` and `max_along` and whose dot product with
/// `(-dy, dx)` lies between `min_across` and `max_across`.
#[derive(Clone, Copy, Debug, PartialEq, Eq, Structural)]
pub struct Rectangle {
    /// The index of the edge that the rectangle is aligned to.
    pub edge: usize,
    /// The x-component of the edge vector.
    pub dx: i64,
    /// The y-component of the edge vector.
    pub dy: i64,
    /// The squared length of the edge vector; never zero.
    pub scale: u128,
    pub min_along: i128,
    pub max_along: i128,
    pub min_across: i128,
    pub max_across: i128,
}

/// A point with rational coordinates `x / scale` and `y / scale`.
#[derive(Clone, Copy, Debug, PartialEq, Eq, Structural)]
pub struct Corner {
    pub x: i128,
    pub y: i128,
    pub scale: u128,
}

/// The fraction `num / den`.
#[derive(Clone, Copy, Debug, PartialEq, Eq, Structural)]
pub struct Ratio {
    pub num: u128,
    pub den: u128,
}

/// The rectangle aligned to edge `e` that bounds the vertices of `h`.
pub open spec fn rectangle_on(h: Seq<Point>, e: int) -> Rectangle {
    Rectangle {
        edge: e as usize,
        dx: edge_dx(h, e) as i64,
        dy: edge_dy(h, e) as i64,
        scale: edge_length_squared(h, e) as u128,
        min_along: least(h, e, false, h.len() as int) as i128,
        max_along: greatest(h, e, false, h.len() as int) as i128,
        min_across: least(h, e, true, h.len() as int) as i128,
        max_across: greatest(h, e, true, h.len() as int) as i128,
    }
}

/// Whether the first rectangle has strictly less area than the second.
/// The area of a rectangle is `width_scaled * height_scaled / scale`.
pub open spec fn smaller(r1: Rectangle, r2: Rectangle) -> bool {
    r1.width_scaled() * r1.height_scaled() * r2.scale < r2.width_scaled() * r2.height_scaled()
        * r1.scale
}

/// The edge to which the smallest bounding rectangle is aligned, among the
/// first `k` edges: edges of length zero are passed over, and of several
/// smallest rectangles the first wins.
pub open spec fn best_edge(h: Seq<Point>, k: int) -> Option<int>
    decreases k,
{
    if k <= 0 {
        None
    } else {
        let prev = best_edge(h, k - 1);
        if edge_length_squared(h, k - 1) == 0 {
            prev
        } else {
            match prev {
                None => Some(k - 1),
                Some(j) => if smaller(rectangle_on(h, k - 1), rectangle_on(h, j)) {
                    Some(k - 1)
                } else {
                    Some(j)
                },
            }
        }
    }
}

/// The minimum-area rectangle among those aligned to the edges of `h`, or
/// `None` when no edge has a length.
pub open spec fn min_rectangle(h: Seq<Point>) -> Option<Rectangle> {
    match best_edge(h, h.len() as int) {
        None => None,
        Some(e) => Some(rectangle_on(h, e)),
    }
}

impl Rectangle {
    /// The fields are in the ranges that rectangles on polygons of this
    /// library have.
    pub open spec fn wf(self) -> bool {
        &&& -0x1_0000_0000 < self.dx < 0x1_0000_0000
        &&& -0x1_0000_0000 < self.dy < 0x1_0000_0000
        &&& self.scale == self.dx * self.dx + self.dy * self.dy
        &&& self.scale > 0
        &&& -0x1_0000_0000_0000_0000 <= self.min_along <= self.max_along
            <= 0x1_0000_0000_0000_0000
        &&& -0x1_0000_0000_0000_0000 <= self.min_across <= self.max_across
            <= 0x1_0000_0000_0000_0000
    }

    /// The extent along the edge: the true width times the edge's length.
    pub open spec fn width_scaled(self) -> int {
        self.max_along - self.min_along
    }

    /// The extent across the edge: the true height times the edge's length.
    pub open spec fn height_scaled(self) -> int {
        self.max_across - self.min_across
    }

    /// The longer side over the shorter, or `None` when the shorter side
    /// has no length and the ratio is undefined.
    pub open spec fn aspect(self) -> Option<Ratio> {
        let w = self.width_scaled();
        let h = self.height_scaled();
        if w == 0 || h == 0 {
            None
        } else if w > h {
            Some(Ratio { num: w as u128, den: h as u128 })
        } else {
            Some(Ratio { num: h as u128, den: w as u128 })
        }
    }

    /// The width of the rectangle, measured along the edge and multiplied by
    /// the edge's length: the true width is this over the square root of `scale`.
    pub fn width(&self) -> (w: u128)
        requires
            self.wf(),
        ensures
            w == self.width_scaled(),
    {
        (self.max_along - self.min_along) as u128
    }

    /// The height of the rectangle, measured across the edge and multiplied
    /// by the edge's length: the true height is this over the square root of `scale`.
    pub fn height(&self) -> (h: u128)
        requires
            self.wf(),
        ensures
            h == self.height_scaled(),
    {
        (self.max_across - self.min_across) as u128
    }

    /// The four corners, counter-clockwise seen along the edge: at the
    /// least projections along and across, then at the greatest along,
    /// then at the greatest of both, then at the greatest across.
    pub fn corners(&self) -> (c: [Corner; 4])
        requires
            self.wf(),
        ensures
            c[0] == self.corner_at(self.min_along as int, self.min_across as int),
            c[1] == self.corner_at(self.max_along as int, self.min_across as int),
            c[2] == self.corner_at(self.max_along as int, self.max_across as int),
            c[3] == self.corner_at(self.min_along as int, self.max_across as int),
    {
        [
            self.corner(self.min_along, self.min_across),
            self.corner(self.max_along, self.min_across),
            self.corner(self.max_along, self.max_across),
            self.corner(self.min_along, self.max_across),
        ]
    }

    /// The point with the given projections along and across the edge:
    /// `(along * d + across * (-dy, dx)) / scale`.
    pub open spec fn corner_at(self, along: int, across: int) -> Corner {
        Corner {
            x: (along * self.dx - across * self.dy) as i128,
            y: (along * self.dy + across * self.dx) as i128,
            scale: self.scale,
        }
    }

    fn corner(&self, along: i128, across: i128) -> (c: Corner)
        requires
            self.wf(),
            -0x1_0000_0000_0000_0000 <= along <= 0x1_0000_0000_0000_0000,
            -0x1_0000_0000_0000_0000 <= across <= 0x1_0000_0000_0000_0000,
        ensures
            c == self.corner_at(along as int, across as int),
    {
        let dx: i128 = self.dx as i128;
        let dy: i128 = self.dy as i128;
        proof {
            lemma_corner_bound(along as int, dx as int);
            lemma_corner_bound(along as int, dy as int);
            lemma_corner_bound(across as int, dx as int);
            lemma_corner_bound(across as int, dy as int);
        }
        Corner { x: along * dx - across * dy, y: along * dy + across * dx, scale: self.scale }
    }

    /// The aspect ratio of the rectangle: its longer side over its shorter
    /// side, never below one, or `None` when the rectangle has no area and
    /// the ratio is undefined.
    pub fn aspect_ratio(&self) -> (ratio: Option<Ratio>)
        requires
            self.wf(),
        ensures
            ratio == self.aspect(),
            ratio matches Some(q) ==> q.num >= q.den > 0,
    {
        let w: u128 = self.width();
        let h: u128 = self.height();
        if w == 0 || h == 0 {
            None
        } else if w > h {
            Some(Ratio { num: w, den: h })
        } else {
            Some(Ratio { num: h, den: w })
        }
    }

    /// Whether this rectangle has strictly less area than the other.
    pub fn smaller_than(&self, other: &Rectangle) -> (less: bool)
        requires
            self.wf(),
            other.wf(),
        ensures
            less == smaller(*self, *other),
    {
        let mine: Wide = Wide::product(self.width(), self.height());
        let theirs: Wide = Wide::product(other.width(), other.height());
        proof {
            lemma_scale_bound(self.dx as int, self.dy as int);
            lemma_scale_bound(other.dx as int, other.dy as int);
            lemma_volume_bound(
                self.width_scaled(),
                self.height_scaled(),
                other.scale as int,
            );
            lemma_volume_bound(
                other.width_scaled(),
                other.height_scaled(),
                self.scale as int,
            );
        }
        let left: Wide = mine.times(other.scale);
        let right: Wide = theirs.times(self.scale);
        left.less_than(&right)
    }
}

proof fn lemma_corner_bound(p: int, d: int)
    by (nonlinear_arith)
    requires
        -0x1_0000_0000_0000_0000 <= p <= 0x1_0000_0000_0000_0000,
        -0x1_0000_0000 < d < 0x1_0000_0000,
    ensures
        -0x1_0000_0000_0000_0000_0000_0000 <= p * d <= 0x1_0000_0000_0000_0000_0000_0000,
{
}

proof fn lemma_scale_bound(dx: int, dy: int)
    by (nonlinear_arith)
    requires
        -0x1_0000_0000 < dx < 0x1_0000_0000,
        -0x1_0000_0000 < dy < 0x1_0000_0000,
    ensures
        0 <= dx * dx < 0x1_0000_0000_0000_0000,
        0 <= dy * dy < 0x1_0000_0000_0000_0000,
        0 <= dx * dx + dy * dy < 0x2_0000_0000_0000_0000,
{
}

proof fn lemma_volume_bound(w: int, h: int, l: int)
    requires
        0 <= w <= 0x2_0000_0000_0000_0000,
        0 <= h <= 0x2_0000_0000_0000_0000,
        0 <= l < 0x2_0000_0000_0000_0000,
    ensures
        0 <= w * h * l < half_range() * half_range(),
{
    assert(0 <= w * h <= 0x4_0000_0000_0000_0000_0000_0000_0000_0000int) by (nonlinear_arith)
        requires
            0 <= w <= 0x2_0000_0000_0000_0000,
            0 <= h <= 0x2_0000_0000_0000_0000,
    ;
    let a = w * h;
    assert(0 <= a * l <= 0x4_0000_0000_0000_0000_0000_0000_0000_0000int
        * 0x2_0000_0000_0000_0000int) by (nonlinear_arith)
        requires
            0 <= a <= 0x4_0000_0000_0000_0000_0000_0000_0000_0000int,
            0 <= l < 0x2_0000_0000_0000_0000,
    ;
    assert(0x4_0000_0000_0000_0000_0000_0000_0000_0000int * 0x2_0000_0000_0000_0000int
        < half_range() * half_range()) by (nonlinear_arith)
        requires
            half_range() == 0x1_0000_0000_0000_0000_0000_0000_0000_0000int,
    ;
}

proof fn lemma_projection_bound(x: int, y: int, dx: int, dy: int)
    by (nonlinear_arith)
    requires
        -0x8000_0000 <= x < 0x8000_0000,
        -0x8000_0000 <= y < 0x8000_0000,
        -0x1_0000_0000 < dx < 0x1_0000_0000,
        -0x1_0000_0000 < dy < 0x1_0000_0000,
    ensures
        -0x8000_0000_0000_0000 <= x * dx <= 0x8000_0000_0000_0000,
        -0x8000_0000_0000_0000 <= y * dy <= 0x8000_0000_0000_0000,
        -0x8000_0000_0000_0000 <= y * dx <= 0x8000_0000_0000_0000,
        -0x8000_0000_0000_0000 <= x * dy <= 0x8000_0000_0000_0000,
{
}

/// Computes the rectangle aligned to edge `e` of the closed polygon that
/// bounds all its vertices, or `None` when the edge joins a vertex to an
/// equal one and gives no direction.
pub fn edge_rectangle(hull: &[Point], e: usize) -> (found: Option<Rectangle>)
    requires
        e < hull.len(),
    ensures
        found is None <==> edge_length_squared(hull@, e as int) == 0,
        found matches Some(r) ==> r.wf() && r == rectangle_on(hull@, e as int),
{
    let n: usize = hull.len();
    let next: usize = if e + 1 == n {
        0
    } else {
        e + 1
    };
    let dx: i64 = hull[next].x as i64 - hull[e].x as i64;
    let dy: i64 = hull[next].y as i64 - hull[e].y as i64;
    proof {
        lemma_scale_bound(dx as int, dy as int);
    }
    let scale: i128 = dx as i128 * dx as i128 + dy as i128 * dy as i128;
    if scale == 0 {
        return None;
    }
    let ghost h = hull@;
    let ghost ei = e as int;
    proof {
        lemma_projection_bound(hull[0].x as int, hull[0].y as int, dx as int, dy as int);
    }
    let mut min_along: i128 = hull[0].x as i128 * dx as i128 + hull[0].y as i128 * dy as i128;
    let mut max_along: i128 = min_along;
    let mut min_across: i128 = hull[0].y as i128 * dx as i128 - hull[0].x as i128 * dy as i128;
    let mut max_across: i128 = min_across;
    let mut i: usize = 1;
    while i < n
        invariant
            1 <= i <= n,
            n == hull.len(),
            h == hull@,
            ei == e as int,
            dx == edge_dx(h, ei),
            dy == edge_dy(h, ei),
            -0x1_0000_0000 < dx < 0x1_0000_0000,
            -0x1_0000_0000 < dy < 0x1_0000_0000,
            min_along == least(h, ei, false, i as int),
            max_along == greatest(h, ei, false, i as int),
            min_across == least(h, ei, true, i as int),
            max_across == greatest(h, ei, true, i as int),
            -0x1_0000_0000_0000_0000 <= min_along <= max_along <= 0x1_0000_0000_0000_0000,
            -0x1_0000_0000_0000_0000 <= min_across <= max_across <= 0x1_0000_0000_0000_0000,
        decreases n - i,
    {
        proof {
            lemma_projection_bound(hull[i as int].x as int, hull[i as int].y as int, dx as int, dy as int);
        }
        let along: i128 = hull[i].x as i128 * dx as i128 + hull[i].y as i128 * dy as i128;
        let across: i128 = hull[i].y as i128 * dx as i128 - hull[i].x as i128 * dy as i128;
        if along < min_along {
            min_along = along;
        }
        if along > max_along {
            max_along = along;
        }
        if across < min_across {
            min_across = across;
        }
        if across > max_across {
            max_across = across;
        }
        i = i + 1;
    }
    Some(
        Rectangle {
            edge: e,
            dx,
            dy,
            scale: scale as u128,
            min_along,
            max_along,
            min_across,
            max_across,
        },
    )
}

/// Finds the minimum-area rectangle among those aligned to the edges of the
/// closed polygon `hull`, which is meant to be convex. Edges of length zero
/// are passed over; of several smallest rectangles the first wins. The
/// result is `None` exactly when no edge has a length.
pub fn bounding_rectangle_of_hull(hull: &[Point]) -> (found: Option<Rectangle>)
    ensures
        found == min_rectangle(hull@),
        found is None <==> all_same(hull@),
        found matches Some(r) ==> r.wf(),
{
    proof {
        lemma_rectangle_undefined(hull@);
    }
    let n: usize = hull.len();
    let mut best: Option<Rectangle> = None;
    let mut e: usize = 0;
    while e < n
        invariant
            e <= n,
            n == hull.len(),
            best is None <==> best_edge(hull@, e as int) is None,
            best matches Some(r) ==> r.wf() && best_edge(hull@, e as int) == Some(r.edge as int)
                && r == rectangle_on(hull@, r.edge as int),
        decreases n - e,
    {
        let candidate: Option<Rectangle> = edge_rectangle(hull, e);
        match candidate {
            None => {},
            Some(r) => {
                match best {
                    None => {
                        best = Some(r);
                    },
                    Some(b) => {
                        if r.smaller_than(&b) {
                            best = Some(r);
                        }
                    },
                }
            },
        }
        e = e + 1;
    }
    best
}

/// Computes the minimum-area bounding rectangle of the points: the smallest
/// rectangle aligned to an edge of their convex hull that holds the hull.
/// The result is `None` when the hull has fewer than two distinct vertices.
pub fn min_bounding_rectangle(points: &[Point]) -> (found: Option<Rectangle>)
    ensures
        found == min_rectangle(hull_of(points@)),
        found is None <==> all_same(hull_of(points@)),
        found matches Some(r) ==> r.wf(),
{
    let hull: Vec<Point> = quick_hull(points);
    bounding_rectangle_of_hull(hull.as_slice())
}

/// The aspect ratio of the minimum-area bounding rectangle of `h`.
pub open spec fn aspect_of(h: Seq<Point>) -> Option<Ratio> {
    match min_rectangle(h) {
        None => None,
        Some(r) => r.aspect(),
    }
}

/// Computes the aspect ratio of the minimum-area bounding rectangle of the
/// points: its longer side over its shorter side. The ratio is undefined,
/// and the result `None`, when the hull has fewer than two distinct
/// vertices or the rectangle has no height.
pub fn min_bounding_rectangle_aspect_ratio(points: &[Point]) -> (ratio: Option<Ratio>)
    ensures
        ratio == aspect_of(hull_of(points@)),
        ratio is None <==> all_same(hull_of(points@)) || (min_rectangle(
            hull_of(points@),
        ) matches Some(r) && r.height_scaled() == 0),
        ratio matches Some(q) ==> q.num >= q.den > 0,
{
    proof {
        lemma_aspect_undefined(hull_of(points@));
    }
    match min_bounding_rectangle(points) {
        None => None,
        Some(r) => r.aspect_ratio(),
    }
}

} // verus!
