use gerryaway::point::{which_side, Point};
use gerryaway::quickhull::{
    distance_squared_to_line, find_hull, find_hull_ends, find_min_max_x_indices,
    find_min_max_y_indices, quick_hull, quick_hull_indices,
};

fn pts(coords: &[(i32, i32)]) -> Vec<Point> {
    coords.iter().map(|&(x, y)| Point { x, y }).collect()
}

fn assert_enclosed(points: &[Point], hull: &[Point]) {
    for k in 0..hull.len() {
        let next = if k + 1 == hull.len() { 0 } else { k + 1 };
        for p in points {
            assert!(which_side(&hull[k], &hull[next], p) <= 0);
        }
    }
}

#[test]
fn which_side_tells_left_from_right() {
    let a = Point { x: 0, y: 0 };
    let b = Point { x: 4, y: 0 };
    assert_eq!(which_side(&a, &b, &Point { x: 1, y: 3 }), 12);
    assert_eq!(which_side(&a, &b, &Point { x: 1, y: -3 }), -12);
    assert_eq!(which_side(&a, &b, &Point { x: 9, y: 0 }), 0);
}

#[test]
fn which_side_holds_the_widest_coordinates() {
    let a = Point { x: i32::MIN, y: i32::MIN };
    let b = Point { x: i32::MAX, y: i32::MIN };
    let p = Point { x: i32::MIN, y: i32::MAX };
    let span: i128 = (1i128 << 32) - 1;
    assert_eq!(which_side(&a, &b, &p), span * span);
    assert_eq!(which_side(&b, &a, &p), -(span * span));
}

#[test]
fn extremes_go_to_the_first_of_equals() {
    let points = pts(&[(3, 0), (1, 5), (1, 2), (7, 1), (7, 9), (4, 4)]);
    assert_eq!(find_min_max_x_indices(&points), (1, 3));
    assert_eq!(find_min_max_x_indices(&[]), (0, 0));
    assert_eq!(find_min_max_x_indices(&pts(&[(5, 5)])), (0, 0));
}

#[test]
fn squared_distance_is_cross_squared_over_length_squared() {
    let a = Point { x: 0, y: 0 };
    let b = Point { x: 4, y: 0 };
    let d = distance_squared_to_line(&a, &b, &Point { x: 0, y: 3 }).unwrap();
    assert_eq!(d.cross_squared.hi, 0);
    assert_eq!(d.cross_squared.lo, 144);
    assert_eq!(d.length_squared, 16);
    let below = distance_squared_to_line(&a, &b, &Point { x: 2, y: -3 }).unwrap();
    assert_eq!(below.cross_squared.lo, 144);
}

#[test]
fn squared_distance_needs_a_line() {
    let a = Point { x: 2, y: 2 };
    assert!(distance_squared_to_line(&a, &a, &Point { x: 0, y: 3 }).is_none());
}

#[test]
fn squared_distance_of_the_widest_triangle() {
    let a = Point { x: i32::MIN, y: i32::MIN };
    let b = Point { x: i32::MAX, y: i32::MIN };
    let p = Point { x: i32::MIN, y: i32::MAX };
    let d = distance_squared_to_line(&a, &b, &p).unwrap();
    // (2^32 - 1)^4 = 2^128 - 2^98 + 6 * 2^64 - 2^34 + 1
    assert_eq!(d.cross_squared.hi, 0);
    let span: u128 = (1u128 << 32) - 1;
    assert_eq!(d.cross_squared.lo, span * span * span * span);
    assert_eq!(d.length_squared, span * span);
}

#[test]
fn hull_of_nothing_is_nothing() {
    assert_eq!(quick_hull(&[]), Vec::<Point>::new());
}

#[test]
fn hull_of_one_point_is_that_point() {
    let points = pts(&[(3, -7)]);
    assert_eq!(quick_hull(&points), points);
}

#[test]
fn hull_of_two_points_is_the_segment() {
    let points = pts(&[(3, 1), (1, 2)]);
    assert_eq!(quick_hull(&points), pts(&[(1, 2), (3, 1)]));
}

#[test]
fn hull_of_a_square_runs_clockwise_from_the_left() {
    let points = pts(&[(0, 0), (1, 0), (1, 1), (0, 1)]);
    assert_eq!(quick_hull(&points), pts(&[(0, 0), (0, 1), (1, 1), (1, 0)]));
    assert_eq!(quick_hull_indices(&points), vec![0, 3, 2, 1]);
}

#[test]
fn hull_drops_inner_points() {
    let points = pts(&[(0, 0), (4, 0), (4, 4), (0, 4), (2, 2), (1, 3), (3, 1)]);
    let hull = quick_hull(&points);
    assert_eq!(hull, pts(&[(0, 0), (0, 4), (4, 4), (4, 0)]));
    assert_enclosed(&points, &hull);
}

#[test]
fn hull_of_collinear_points_is_the_two_ends() {
    let points = pts(&[(0, 0), (1, 0), (2, 0)]);
    assert_eq!(quick_hull(&points), pts(&[(0, 0), (2, 0)]));
}

#[test]
fn hull_of_equal_points_is_that_point_twice() {
    let points = pts(&[(2, 2), (2, 2), (2, 2), (2, 2), (2, 2)]);
    assert_eq!(quick_hull(&points), pts(&[(2, 2), (2, 2)]));
}

#[test]
fn hull_has_lower_vertices_too() {
    let points = pts(&[(0, 0), (2, 3), (5, 1), (3, -4), (1, -1), (2, 0), (6, 0)]);
    let hull = quick_hull(&points);
    assert_eq!(hull, pts(&[(0, 0), (2, 3), (5, 1), (6, 0), (3, -4)]));
    assert_enclosed(&points, &hull);
}

#[test]
fn hull_vertices_come_from_the_input() {
    let points = pts(&[(5, 5), (-3, 2), (0, 9), (7, -1), (2, 2), (-3, -4), (6, 8), (1, 1)]);
    let hull = quick_hull(&points);
    assert!(hull.len() <= points.len());
    for v in &hull {
        assert!(points.contains(v));
    }
    assert_enclosed(&points, &hull);
}

#[test]
fn hull_of_a_hull_is_the_hull() {
    let points = pts(&[(5, 5), (-3, 2), (0, 9), (7, -1), (2, 2), (-3, -4), (6, 8), (1, 1)]);
    let hull = quick_hull(&points);
    assert_eq!(quick_hull(&hull), hull);
}

#[test]
fn hull_may_keep_a_vertex_on_an_edge_once() {
    // The middle of three equally high points is found first and stays;
    // taking the hull again finds an end first and drops the middle.
    let points = pts(&[(0, 0), (4, 0), (2, 2), (1, 2), (3, 2)]);
    let hull = quick_hull(&points);
    assert_eq!(hull, pts(&[(0, 0), (1, 2), (2, 2), (3, 2), (4, 0)]));
    assert_eq!(quick_hull(&hull), pts(&[(0, 0), (1, 2), (3, 2), (4, 0)]));
}

#[test]
fn hull_of_the_widest_square() {
    let points = pts(&[
        (i32::MIN, i32::MIN),
        (i32::MAX, i32::MIN),
        (0, 0),
        (i32::MAX, i32::MAX),
        (i32::MIN, i32::MAX),
    ]);
    let hull = quick_hull(&points);
    assert_eq!(
        hull,
        pts(&[
            (i32::MIN, i32::MIN),
            (i32::MIN, i32::MAX),
            (i32::MAX, i32::MAX),
            (i32::MAX, i32::MIN),
        ])
    );
}

#[test]
fn find_hull_orders_the_vertices_between_the_ends() {
    let points = pts(&[(0, 0), (10, 0), (8, 3), (2, 3), (5, 5), (5, 1)]);
    assert_eq!(find_hull(&points, vec![2, 3, 4, 5], 0, 1), vec![3, 4, 2]);
    assert_eq!(find_hull(&points, vec![], 0, 1), Vec::<usize>::new());
}

#[test]
fn hull_survives_a_long_run_of_vertices() {
    // Points on a parabola are all vertices; each step of the search finds one.
    let mut points = Vec::new();
    for i in 0..2000i32 {
        points.push(Point { x: i, y: i * i });
    }
    let hull = quick_hull(&points);
    assert_eq!(hull.len(), 2000);
    assert_enclosed(&points[..50], &hull);
}

#[test]
fn lowest_and_highest_go_to_the_first_of_equals() {
    let points = pts(&[(3, 0), (1, 5), (1, -2), (7, -2), (7, 9), (4, 9)]);
    assert_eq!(find_min_max_y_indices(&points), (2, 4));
    assert_eq!(find_min_max_y_indices(&[]), (0, 0));
    assert_eq!(find_min_max_y_indices(&pts(&[(5, 5)])), (0, 0));
}

#[test]
fn ends_are_leftmost_and_rightmost() {
    let points = pts(&[(3, 0), (1, 5), (1, 2), (7, 1), (7, 9), (4, 4)]);
    assert_eq!(find_hull_ends(&points), (1, 3));
}

#[test]
fn ends_of_points_with_one_x_are_lowest_and_highest() {
    let points = pts(&[(4, 1), (4, 0), (4, 2), (4, 0), (4, 2)]);
    assert_eq!(find_hull_ends(&points), (1, 2));
    assert_eq!(find_hull_ends(&pts(&[(4, 1), (4, 1), (4, 1)])), (0, 0));
}

#[test]
fn hull_of_two_points_with_one_x_is_the_segment() {
    assert_eq!(quick_hull(&pts(&[(0, 0), (0, 1)])), pts(&[(0, 0), (0, 1)]));
    assert_eq!(quick_hull(&pts(&[(0, 1), (0, 0)])), pts(&[(0, 0), (0, 1)]));
}

#[test]
fn hull_of_points_with_one_x_is_the_two_ends() {
    assert_eq!(quick_hull(&pts(&[(0, 0), (0, 1), (0, 2)])), pts(&[(0, 0), (0, 2)]));
    let mixed = pts(&[(0, 1), (0, 0), (0, 2), (0, -3), (0, 2)]);
    let hull = quick_hull(&mixed);
    assert_eq!(hull, pts(&[(0, -3), (0, 2)]));
    for p in &mixed {
        assert_eq!(which_side(&hull[0], &hull[1], p), 0);
        assert!(hull[0].y <= p.y && p.y <= hull[1].y);
    }
    assert_eq!(quick_hull(&hull), hull);
}

#[test]
fn collinear_points_lie_between_the_two_vertices() {
    let line = pts(&[(2, 1), (0, 0), (6, 3), (-4, -2), (4, 2)]);
    let hull = quick_hull(&line);
    assert_eq!(hull, pts(&[(-4, -2), (6, 3)]));
    for p in &line {
        assert_eq!(which_side(&hull[0], &hull[1], p), 0);
        assert!(hull[0].x <= p.x && p.x <= hull[1].x);
        assert!(hull[0].y <= p.y && p.y <= hull[1].y);
    }
}

#[test]
fn hull_with_its_first_vertex_on_an_edge_is_its_own_hull() {
    let points = pts(&[(0, 1), (0, 0), (0, 2), (3, 1)]);
    let hull = quick_hull(&points);
    assert_eq!(hull, pts(&[(0, 1), (0, 2), (3, 1), (0, 0)]));
    assert_eq!(quick_hull(&hull), hull);
    assert_enclosed(&points, &hull);
}
