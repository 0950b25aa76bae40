use gerryaway::analyze::{analyze, exceeds_threshold, measure, District, Measure};
use gerryaway::area::Area;
use gerryaway::point::Point;

fn pts(coords: &[(i32, i32)]) -> Vec<Point> {
    coords.iter().map(|&(x, y)| Point { x, y }).collect()
}

fn district(id: u64, coords: &[(i32, i32)]) -> District {
    District { id, ring: pts(coords) }
}

fn sorted(mut ids: Vec<u64>) -> Vec<u64> {
    ids.sort();
    ids
}

const SQUARE: [(i32, i32); 4] = [(0, 0), (4, 0), (4, 4), (0, 4)];
const DART: [(i32, i32); 5] = [(0, 0), (10, 0), (10, 10), (5, 1), (0, 10)];
const NOTCHED: [(i32, i32); 7] = [(0, 0), (7, 0), (7, 10), (6, 10), (3, 2), (1, 10), (0, 10)];

#[test]
fn measure_gives_both_areas() {
    let m = measure(&pts(&DART));
    assert_eq!(m.area.doubled, 110);
    assert_eq!(m.hull_area.doubled, 200);
    let s = measure(&pts(&SQUARE));
    assert_eq!(s.area.doubled, 32);
    assert_eq!(s.hull_area.doubled, 32);
}

#[test]
fn a_convex_district_passes() {
    assert!(!exceeds_threshold(&measure(&pts(&SQUARE))));
}

#[test]
fn a_dented_district_fails() {
    assert!(exceeds_threshold(&measure(&pts(&DART))));
}

#[test]
fn a_district_at_the_threshold_passes() {
    let m = measure(&pts(&NOTCHED));
    assert_eq!(m.area.doubled, 100);
    assert_eq!(m.hull_area.doubled, 140);
    assert!(!exceeds_threshold(&m));
    let just_over = Measure { area: Area { doubled: 100 }, hull_area: Area { doubled: 141 } };
    assert!(exceeds_threshold(&just_over));
}

#[test]
fn a_district_without_area_fails_only_under_a_hull_with_area() {
    let nothing = Measure { area: Area { doubled: 0 }, hull_area: Area { doubled: 0 } };
    assert!(!exceeds_threshold(&nothing));
    let folded = Measure { area: Area { doubled: 0 }, hull_area: Area { doubled: 1 } };
    assert!(exceeds_threshold(&folded));
}

#[test]
fn the_threshold_holds_for_the_largest_areas() {
    let top: u128 = u128::MAX;
    let over = Measure { area: Area { doubled: top / 7 * 5 }, hull_area: Area { doubled: top } };
    assert!(exceeds_threshold(&over));
    let even = Measure {
        area: Area { doubled: (top / 7) * 5 },
        hull_area: Area { doubled: (top / 7) * 7 },
    };
    assert!(!exceeds_threshold(&even));
    let under = Measure { area: Area { doubled: top }, hull_area: Area { doubled: top } };
    assert!(!exceeds_threshold(&under));
}

#[test]
fn analyze_sorts_districts_into_failed_and_passed() {
    let districts = vec![
        district(3, &SQUARE),
        district(1, &DART),
        district(7, &NOTCHED),
        district(5, &DART),
    ];
    let outcome = analyze(&districts);
    assert_eq!(sorted(outcome.failed), vec![1, 5]);
    assert_eq!(sorted(outcome.passed), vec![3, 7]);
    assert_eq!(outcome.measures.len(), 4);
    assert_eq!(outcome.measures[&1].area.doubled, 110);
    assert_eq!(outcome.measures[&1].hull_area.doubled, 200);
    assert_eq!(outcome.measures[&3].area.doubled, 32);
}

#[test]
fn analyze_of_no_district() {
    let outcome = analyze(&[]);
    assert!(outcome.failed.is_empty());
    assert!(outcome.passed.is_empty());
    assert!(outcome.measures.is_empty());
}

#[test]
fn the_last_district_of_a_number_counts() {
    let districts = vec![district(2, &DART), district(4, &SQUARE), district(2, &SQUARE)];
    let outcome = analyze(&districts);
    assert_eq!(outcome.failed, Vec::<u64>::new());
    assert_eq!(sorted(outcome.passed), vec![2, 4]);
    assert_eq!(outcome.measures[&2].area.doubled, 32);

    let turned = vec![district(2, &SQUARE), district(4, &SQUARE), district(2, &DART)];
    let outcome = analyze(&turned);
    assert_eq!(outcome.failed, vec![2]);
    assert_eq!(outcome.passed, vec![4]);
}

#[test]
fn analyze_takes_rings_of_any_size() {
    let districts = vec![district(0, &[]), district(1, &[(1, 1)]), district(2, &[(0, 0), (5, 5)])];
    let outcome = analyze(&districts);
    assert!(outcome.failed.is_empty());
    assert_eq!(sorted(outcome.passed), vec![0, 1, 2]);
}
