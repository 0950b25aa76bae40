use gerryaway::aspect::{
    bounding_rectangle_of_hull, edge_rectangle, min_bounding_rectangle,
    min_bounding_rectangle_aspect_ratio, Corner, Ratio, Rectangle,
};
use gerryaway::point::Point;

fn pts(coords: &[(i32, i32)]) -> Vec<Point> {
    coords.iter().map(|&(x, y)| Point { x, y }).collect()
}

fn as_float(q: &Ratio) -> f64 {
    q.num as f64 / q.den as f64
}

fn true_width(r: &Rectangle) -> f64 {
    r.width() as f64 / (r.scale as f64).sqrt()
}

fn true_height(r: &Rectangle) -> f64 {
    r.height() as f64 / (r.scale as f64).sqrt()
}

#[test]
fn square_invariance() {
    let square = pts(&[(0, 0), (1, 0), (1, 1), (0, 1)]);
    let r = min_bounding_rectangle(&square).unwrap();
    assert_eq!(true_width(&r), 1.0);
    assert_eq!(true_height(&r), 1.0);
    let q = min_bounding_rectangle_aspect_ratio(&square).unwrap();
    assert_eq!(q, Ratio { num: 1, den: 1 });
    assert_eq!(as_float(&q), 1.0);
}

#[test]
fn known_elongated_rectangle() {
    let long = pts(&[(0, 0), (4, 0), (4, 1), (0, 1)]);
    let q = min_bounding_rectangle_aspect_ratio(&long).unwrap();
    assert_eq!(q, Ratio { num: 4, den: 1 });
    assert!((as_float(&q) - 4.0).abs() < 1e-9);
}

#[test]
fn first_of_equal_rectangles_wins() {
    // The hull is (0,0), (0,1), (4,1), (4,0); every edge gives the same
    // rectangle, and the one on the first edge is kept.
    let long = pts(&[(0, 0), (4, 0), (4, 1), (0, 1)]);
    let r = min_bounding_rectangle(&long).unwrap();
    assert_eq!(
        r,
        Rectangle {
            edge: 0,
            dx: 0,
            dy: 1,
            scale: 1,
            min_along: 0,
            max_along: 1,
            min_across: -4,
            max_across: 0,
        }
    );
    assert_eq!(r.width(), 1);
    assert_eq!(r.height(), 4);
}

#[test]
fn corners_are_those_of_the_rectangle() {
    let long = pts(&[(0, 0), (4, 0), (4, 1), (0, 1)]);
    let r = min_bounding_rectangle(&long).unwrap();
    assert_eq!(
        r.corners(),
        [
            Corner { x: 4, y: 0, scale: 1 },
            Corner { x: 4, y: 1, scale: 1 },
            Corner { x: 0, y: 1, scale: 1 },
            Corner { x: 0, y: 0, scale: 1 },
        ]
    );
}

#[test]
fn rectangle_follows_a_slanted_edge() {
    // A diamond: the best rectangle is the diamond itself, a square of side
    // the square root of two.
    let diamond = pts(&[(-1, 0), (0, 1), (1, 0), (0, -1)]);
    let r = min_bounding_rectangle(&diamond).unwrap();
    assert_eq!((r.dx, r.dy, r.scale), (1, 1, 2));
    assert_eq!((r.min_along, r.max_along), (-1, 1));
    assert_eq!((r.min_across, r.max_across), (-1, 1));
    assert!((true_width(&r) - 2f64.sqrt()).abs() < 1e-12);
    assert!((true_height(&r) - 2f64.sqrt()).abs() < 1e-12);
    assert_eq!(
        r.corners(),
        [
            Corner { x: 0, y: -2, scale: 2 },
            Corner { x: 2, y: 0, scale: 2 },
            Corner { x: 0, y: 2, scale: 2 },
            Corner { x: -2, y: 0, scale: 2 },
        ]
    );
    assert_eq!(r.aspect_ratio(), Some(Ratio { num: 2, den: 2 }));
}

#[test]
fn smaller_rectangle_on_a_later_edge_wins() {
    // A right triangle: the rectangles on the legs have area 12, the one on
    // the hypotenuse has area 12 too (base 5, height 12/5); a flat triangle
    // makes the difference.
    let flat = pts(&[(0, 0), (10, 0), (9, 1)]);
    // hull: (0,0), (9,1), (10,0)
    let r = min_bounding_rectangle(&flat).unwrap();
    // edge 0 along (9,1): width 91/sqrt(82) and height 10/sqrt(82), area 910/82
    // edge 1 along (1,-1): area (10 * 8) / 2 = 40
    // edge 2 along (-10,0): area (100 * 10) / 100 = 10
    assert_eq!(r.edge, 2);
    assert_eq!((r.dx, r.dy, r.scale), (-10, 0, 100));
    assert_eq!((r.width(), r.height()), (100, 10));
    assert_eq!(r.aspect_ratio(), Some(Ratio { num: 100, den: 10 }));
}

#[test]
fn rectangle_compares_areas_exactly() {
    let a = Rectangle {
        edge: 0,
        dx: 3,
        dy: 4,
        scale: 25,
        min_along: 0,
        max_along: 50,
        min_across: 0,
        max_across: 25,
    };
    let b = Rectangle {
        edge: 1,
        dx: 1,
        dy: 0,
        scale: 1,
        min_along: 0,
        max_along: 10,
        min_across: 0,
        max_across: 5,
    };
    // both have area 50
    assert!(!a.smaller_than(&b));
    assert!(!b.smaller_than(&a));
    let c = Rectangle { max_across: 6, ..b };
    assert!(a.smaller_than(&c));
    assert!(!c.smaller_than(&a));
}

#[test]
fn equal_points_have_no_rectangle() {
    let same = pts(&[(2, 2), (2, 2), (2, 2), (2, 2), (2, 2)]);
    assert_eq!(min_bounding_rectangle(&same), None);
    assert_eq!(min_bounding_rectangle_aspect_ratio(&same), None);
}

#[test]
fn too_few_points_have_no_rectangle() {
    assert_eq!(min_bounding_rectangle(&[]), None);
    assert_eq!(min_bounding_rectangle_aspect_ratio(&[]), None);
    assert_eq!(min_bounding_rectangle(&pts(&[(1, 1)])), None);
    assert_eq!(min_bounding_rectangle_aspect_ratio(&pts(&[(1, 1)])), None);
}

#[test]
fn collinear_points_have_no_aspect_ratio() {
    let line = pts(&[(0, 0), (1, 0), (2, 0)]);
    let r = min_bounding_rectangle(&line).unwrap();
    assert_eq!(r.height(), 0);
    assert_eq!(r.aspect_ratio(), None);
    assert_eq!(min_bounding_rectangle_aspect_ratio(&line), None);
}

#[test]
fn aspect_ratio_is_at_least_one() {
    let sets = [
        pts(&[(0, 0), (1, 7), (2, 1)]),
        pts(&[(0, 0), (10, 1), (20, 0), (10, -1)]),
        pts(&[(5, 5), (-3, 2), (0, 9), (7, -1), (2, 2), (-3, -4)]),
    ];
    for set in &sets {
        let q = min_bounding_rectangle_aspect_ratio(set).unwrap();
        assert!(q.den > 0);
        assert!(q.num >= q.den);
    }
}

#[test]
fn edge_of_no_length_gives_no_rectangle() {
    let hull = pts(&[(0, 0), (0, 0), (3, 0)]);
    assert_eq!(edge_rectangle(&hull, 0), None);
    assert!(edge_rectangle(&hull, 1).is_some());
    let r = bounding_rectangle_of_hull(&hull).unwrap();
    assert_eq!(r.edge, 1);
}

#[test]
fn rectangle_of_the_widest_square() {
    let square = pts(&[
        (i32::MIN, i32::MIN),
        (i32::MAX, i32::MIN),
        (i32::MAX, i32::MAX),
        (i32::MIN, i32::MAX),
    ]);
    let r = min_bounding_rectangle(&square).unwrap();
    let side: u128 = (1u128 << 32) - 1;
    assert_eq!(r.scale, side * side);
    assert_eq!(r.width(), side * side);
    assert_eq!(r.height(), side * side);
    assert_eq!(r.aspect_ratio(), Some(Ratio { num: side * side, den: side * side }));
}
