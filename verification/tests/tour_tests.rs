use tsp_solvers::tour::{identity_path, neighbor_cost, reverse_segment, tour_len};
use tsp_solvers::tsp::{Point, TSP};

fn tour_instance(coords: &[(i32, i32)]) -> TSP {
    TSP::from_points(coords.iter().map(|&(x, y)| Point { x, y }).collect())
}

fn square() -> TSP {
    tour_instance(&[(0, 0), (0, 10), (10, 10), (10, 0)])
}

#[test]
fn tour_len_of_the_square_in_order() {
    assert_eq!(tour_len(&square(), &vec![0, 1, 2, 3]), 40_000_000);
}

#[test]
fn tour_len_of_the_square_crossed() {
    assert_eq!(tour_len(&square(), &vec![0, 2, 1, 3]), 48_284_270);
}

#[test]
fn tour_len_does_not_depend_on_the_first_city() {
    let tsp = tour_instance(&[(0, 0), (4, 0), (4, 3), (0, 3), (2, 5)]);
    let whole = tour_len(&tsp, &vec![0, 1, 2, 4, 3]);
    assert_eq!(whole, 15_656_854);
    assert_eq!(tour_len(&tsp, &vec![1, 2, 4, 3, 0]), whole);
    assert_eq!(tour_len(&tsp, &vec![2, 4, 3, 0, 1]), whole);
    assert_eq!(tour_len(&tsp, &vec![4, 3, 0, 1, 2]), whole);
    assert_eq!(tour_len(&tsp, &vec![3, 0, 1, 2, 4]), whole);
}

#[test]
fn tour_len_of_one_city_is_zero() {
    let tsp = tour_instance(&[(5, 5)]);
    assert_eq!(tour_len(&tsp, &vec![0]), 0);
}

#[test]
fn tour_len_of_two_cities_is_there_and_back() {
    let tsp = tour_instance(&[(0, 0), (3, 4)]);
    assert_eq!(tour_len(&tsp, &vec![0, 1]), 2 * tsp.euclidean_distance(0, 1) as u128);
    assert_eq!(tour_len(&tsp, &vec![1, 0]), 10_000_000);
}

#[test]
fn tour_len_of_no_city_is_zero() {
    let tsp = tour_instance(&[]);
    assert_eq!(tour_len(&tsp, &Vec::new()), 0);
}

#[test]
fn tour_len_of_the_farthest_points_does_not_overflow() {
    let tsp = tour_instance(&[
        (i32::MIN, i32::MIN),
        (i32::MAX, i32::MAX),
        (i32::MIN, i32::MAX),
        (i32::MAX, i32::MIN),
    ]);
    let cost = tour_len(&tsp, &vec![0, 1, 2, 3]);
    assert_eq!(cost, 2 * 6_074_000_998_537_885 + 2 * 4_294_967_295_000_000);
}

#[test]
fn reverse_segment_reverses_what_lies_behind_the_first_cut() {
    let mut path = vec![0, 1, 2, 3, 4, 5];
    reverse_segment(&mut path, 1, 4);
    assert_eq!(path, vec![0, 1, 4, 3, 2, 5]);
}

#[test]
fn reverse_segment_of_an_odd_stretch_keeps_its_middle() {
    let mut path = vec![5, 4, 3, 2, 1, 0];
    reverse_segment(&mut path, 0, 3);
    assert_eq!(path, vec![5, 2, 3, 4, 1, 0]);
}

#[test]
fn reverse_segment_of_one_city_changes_nothing() {
    let mut path = vec![0, 1, 2];
    reverse_segment(&mut path, 0, 1);
    assert_eq!(path, vec![0, 1, 2]);
}

#[test]
fn reverse_segment_up_to_the_last_city() {
    let mut path = vec![0, 1, 2, 3];
    reverse_segment(&mut path, 1, 3);
    assert_eq!(path, vec![0, 1, 3, 2]);
}

#[test]
fn reverse_segment_twice_restores_the_tour() {
    let mut path = vec![3, 1, 4, 0, 5, 2];
    reverse_segment(&mut path, 0, 4);
    reverse_segment(&mut path, 0, 4);
    assert_eq!(path, vec![3, 1, 4, 0, 5, 2]);
}

#[test]
fn neighbor_cost_is_the_cost_after_the_reversal() {
    let tsp = square();
    let path = vec![0, 2, 1, 3];
    assert_eq!(neighbor_cost(&tsp, &path, 0, 2), 40_000_000);
    assert_eq!(neighbor_cost(&tsp, &path, 1, 3), 48_284_270);
    assert_eq!(path, vec![0, 2, 1, 3]);
}

#[test]
fn identity_path_counts_up() {
    assert_eq!(identity_path(0), Vec::<usize>::new());
    assert_eq!(identity_path(1), vec![0]);
    assert_eq!(identity_path(5), vec![0, 1, 2, 3, 4]);
}
