use gerryaway::area::{area, signed_doubled_area, Area};
use gerryaway::point::Point;
use gerryaway::quickhull::quick_hull;

fn pts(coords: &[(i32, i32)]) -> Vec<Point> {
    coords.iter().map(|&(x, y)| Point { x, y }).collect()
}

fn as_float(a: &Area) -> f64 {
    a.doubled as f64 / 2.0
}

#[test]
fn triangle_area() {
    let triangle = pts(&[(0, 0), (4, 0), (0, 3)]);
    let a = area(&triangle);
    assert_eq!(a.doubled, 12);
    assert_eq!(a.whole(), 6);
    assert!(!a.has_half());
    assert_eq!(as_float(&a), 6.0);
}

#[test]
fn area_ignores_the_winding() {
    let ccw = pts(&[(0, 0), (4, 0), (0, 3)]);
    let cw = pts(&[(0, 0), (0, 3), (4, 0)]);
    assert_eq!(signed_doubled_area(&ccw), 12);
    assert_eq!(signed_doubled_area(&cw), -12);
    assert_eq!(area(&ccw), area(&cw));
}

#[test]
fn area_of_fewer_than_three_points_is_zero() {
    assert_eq!(area(&[]).doubled, 0);
    assert_eq!(area(&pts(&[(5, 7)])).doubled, 0);
    assert_eq!(area(&pts(&[(5, 7), (-2, 3)])).doubled, 0);
}

#[test]
fn area_can_end_on_a_half() {
    let a = area(&pts(&[(0, 0), (1, 0), (0, 1)]));
    assert_eq!(a.doubled, 1);
    assert_eq!(a.whole(), 0);
    assert!(a.has_half());
}

#[test]
fn area_of_a_degenerate_hull_is_zero() {
    let hull = quick_hull(&pts(&[(0, 0), (1, 0), (2, 0)]));
    assert_eq!(area(&hull).doubled, 0);
}

#[test]
fn area_of_a_dented_polygon() {
    // An L: a 4 by 4 square without its upper right 2 by 2 quarter.
    let l = pts(&[(0, 0), (4, 0), (4, 2), (2, 2), (2, 4), (0, 4)]);
    assert_eq!(area(&l).doubled, 24);
}

#[test]
fn hull_area_is_no_less_than_the_area() {
    let l = pts(&[(0, 0), (4, 0), (4, 2), (2, 2), (2, 4), (0, 4)]);
    let hull = quick_hull(&l);
    assert_eq!(area(&hull).doubled, 28);
    assert!(area(&hull).doubled >= area(&l).doubled);
}

#[test]
fn area_of_the_widest_square() {
    let square = pts(&[
        (i32::MIN, i32::MIN),
        (i32::MAX, i32::MIN),
        (i32::MAX, i32::MAX),
        (i32::MIN, i32::MAX),
    ]);
    let side: u128 = (1u128 << 32) - 1;
    assert_eq!(area(&square).doubled, 2 * side * side);
}

#[test]
fn area_does_not_depend_on_the_first_vertex() {
    let l = pts(&[(0, 0), (4, 0), (4, 2), (2, 2), (2, 4), (0, 4)]);
    for k in 0..l.len() {
        let mut turned = l[k..].to_vec();
        turned.extend_from_slice(&l[..k]);
        assert_eq!(signed_doubled_area(&turned), 24);
        assert_eq!(area(&turned).doubled, 24);
    }
}

#[test]
fn area_does_not_depend_on_the_direction() {
    let l = pts(&[(0, 0), (4, 0), (4, 2), (2, 2), (2, 4), (0, 4)]);
    let mut back = l.clone();
    back.reverse();
    assert_eq!(signed_doubled_area(&back), -24);
    assert_eq!(area(&back), area(&l));
}

#[test]
fn a_closing_vertex_adds_nothing() {
    let mut ring = pts(&[(0, 0), (4, 0), (4, 2), (2, 2), (2, 4), (0, 4)]);
    ring.push(ring[0]);
    assert_eq!(signed_doubled_area(&ring), 24);
    let mut dot = pts(&[(3, 3)]);
    dot.push(dot[0]);
    assert_eq!(area(&dot).doubled, 0);
}
