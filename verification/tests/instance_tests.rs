use tsp_solvers::tsp::{distance_between, isqrt, Point, SCALE, TSP};

fn instance_of(coords: &[(i32, i32)]) -> TSP {
    TSP::from_points(coords.iter().map(|&(x, y)| Point { x, y }).collect())
}

#[test]
fn isqrt_rounds_down() {
    assert_eq!(isqrt(0), 0);
    assert_eq!(isqrt(1), 1);
    assert_eq!(isqrt(2), 1);
    assert_eq!(isqrt(3), 1);
    assert_eq!(isqrt(4), 2);
    assert_eq!(isqrt(15), 3);
    assert_eq!(isqrt(16), 4);
    assert_eq!(isqrt(17), 4);
    assert_eq!(isqrt(999_999_999_999_999_999_999_999), 999_999_999_999);
    assert_eq!(isqrt(1_000_000_000_000_000_000_000_000), 1_000_000_000_000);
}

#[test]
fn isqrt_of_largest_argument() {
    assert_eq!(isqrt(u128::MAX), u64::MAX);
}

#[test]
fn distance_of_a_pythagorean_pair_is_exact() {
    let d = distance_between(Point { x: 0, y: 0 }, Point { x: 3, y: 4 });
    assert_eq!(d, 5 * SCALE);
}

#[test]
fn distance_of_the_unit_diagonal_is_rounded_down() {
    let d = distance_between(Point { x: 0, y: 0 }, Point { x: 1, y: 1 });
    assert_eq!(d, 1_414_213);
    let d = distance_between(Point { x: 0, y: 0 }, Point { x: 10, y: 10 });
    assert_eq!(d, 14_142_135);
}

#[test]
fn distance_is_symmetric_and_zero_to_self() {
    let a = Point { x: -7, y: 12 };
    let b = Point { x: 30, y: -5 };
    assert_eq!(distance_between(a, b), distance_between(b, a));
    assert_eq!(distance_between(a, a), 0);
    assert_eq!(distance_between(b, b), 0);
}

#[test]
fn distance_between_the_farthest_points_fits() {
    let low = Point { x: i32::MIN, y: i32::MIN };
    let high = Point { x: i32::MAX, y: i32::MAX };
    assert_eq!(distance_between(low, high), 6_074_000_998_537_885);
    let left = Point { x: i32::MIN, y: 0 };
    let right = Point { x: i32::MAX, y: 0 };
    assert_eq!(distance_between(left, right), 4_294_967_295_000_000);
}

#[test]
fn distance_agrees_with_floating_point() {
    let a = Point { x: 13, y: 77 };
    let b = Point { x: 91, y: 5 };
    let exact = distance_between(a, b) as f64 / SCALE as f64;
    let float = (((91.0f64 - 13.0).powi(2)) + ((5.0f64 - 77.0).powi(2))).sqrt();
    assert!((exact - float).abs() < 1e-5);
}

#[test]
fn from_points_keeps_the_points_in_order() {
    let tsp = instance_of(&[(1, 2), (3, 4), (-5, 6)]);
    assert_eq!(tsp.len(), 3);
    assert_eq!(tsp.point(0), Point { x: 1, y: 2 });
    assert_eq!(tsp.point(1), Point { x: 3, y: 4 });
    assert_eq!(tsp.point(2), Point { x: -5, y: 6 });
}

#[test]
fn euclidean_distance_is_taken_between_the_cities_named() {
    let tsp = instance_of(&[(0, 0), (3, 4), (3, 0)]);
    assert_eq!(tsp.euclidean_distance(0, 1), 5_000_000);
    assert_eq!(tsp.euclidean_distance(1, 0), 5_000_000);
    assert_eq!(tsp.euclidean_distance(1, 2), 4_000_000);
    assert_eq!(tsp.euclidean_distance(0, 2), 3_000_000);
    assert_eq!(tsp.euclidean_distance(2, 2), 0);
}

#[test]
fn new_draws_the_number_of_points_asked_for() {
    let tsp = TSP::new(100, 0, 100);
    assert_eq!(tsp.len(), 100);
    for i in 0..tsp.len() {
        let p = tsp.point(i);
        assert!(0 <= p.x && p.x < 100);
        assert!(0 <= p.y && p.y < 100);
    }
}

#[test]
fn new_draws_from_a_range_of_negative_coordinates() {
    let tsp = TSP::new(40, -20, -10);
    for i in 0..tsp.len() {
        let p = tsp.point(i);
        assert!(-20 <= p.x && p.x < -10);
        assert!(-20 <= p.y && p.y < -10);
    }
}

#[test]
fn new_with_a_range_of_one_value_gives_that_value() {
    let tsp = TSP::new(25, 7, 8);
    assert_eq!(tsp.len(), 25);
    for i in 0..tsp.len() {
        assert_eq!(tsp.point(i), Point { x: 7, y: 7 });
    }
}

#[test]
fn new_with_no_points_is_empty() {
    let tsp = TSP::new(0, 5, 5);
    assert_eq!(tsp.len(), 0);
}
