use tsp_solvers::branch_and_bound::{insert_by_distance, BranchAndBound};
use tsp_solvers::dfs::DFS;
use tsp_solvers::greedy::Greedy;
use tsp_solvers::tour::{tour_len, SearchError, Tour};
use tsp_solvers::tsp::{Point, SCALE, TSP};

fn exact_instance(coords: &[(i32, i32)]) -> TSP {
    TSP::from_points(coords.iter().map(|&(x, y)| Point { x, y }).collect())
}

fn exact_square() -> TSP {
    exact_instance(&[(0, 0), (0, 10), (10, 10), (10, 0)])
}

fn house() -> TSP {
    exact_instance(&[(0, 0), (4, 0), (4, 3), (0, 3), (2, 5)])
}

fn assert_is_tour(tsp: &TSP, tour: &Tour) {
    let n = tsp.len();
    assert_eq!(tour.path.len(), n);
    let mut seen = vec![false; n];
    for &city in &tour.path {
        assert!(city < n);
        assert!(!seen[city]);
        seen[city] = true;
    }
    assert_eq!(tour.cost, tour_len(tsp, &tour.path));
}

fn least_cost_by_enumeration(tsp: &TSP, prefix: &mut Vec<usize>, used: &mut Vec<bool>) -> u128 {
    let n = tsp.len();
    if prefix.len() == n {
        return tour_len(tsp, prefix);
    }
    let mut least = u128::MAX;
    for v in 0..n {
        if !used[v] {
            used[v] = true;
            prefix.push(v);
            least = least.min(least_cost_by_enumeration(tsp, prefix, used));
            prefix.pop();
            used[v] = false;
        }
    }
    least
}

fn least_cost(tsp: &TSP) -> u128 {
    least_cost_by_enumeration(tsp, &mut Vec::new(), &mut vec![false; tsp.len()])
}

#[test]
fn greedy_moves_to_the_nearest_city() {
    let tsp = exact_instance(&[(0, 0), (1, 0), (3, 0), (7, 0)]);
    let tour = Greedy::new(&tsp).search_from(1);
    assert_eq!(tour.path, vec![1, 0, 2, 3]);
    assert_eq!(tour.cost, 14_000_000);
}

#[test]
fn greedy_takes_the_lower_number_among_equally_near_cities() {
    let tsp = exact_instance(&[(0, 0), (1, 0), (-1, 0)]);
    let tour = Greedy::new(&tsp).search_from(0);
    assert_eq!(tour.path, vec![0, 1, 2]);
    assert_eq!(tour.cost, 4_000_000);
    let tsp = exact_instance(&[(0, 0), (-1, 0), (1, 0), (0, 1)]);
    let tour = Greedy::new(&tsp).search_from(0);
    assert_eq!(tour.path, vec![0, 1, 3, 2]);
}

#[test]
fn greedy_on_the_square_from_each_city() {
    let tsp = exact_square();
    assert_eq!(Greedy::new(&tsp).search_from(0).path, vec![0, 1, 2, 3]);
    assert_eq!(Greedy::new(&tsp).search_from(1).path, vec![1, 0, 3, 2]);
    assert_eq!(Greedy::new(&tsp).search_from(2).path, vec![2, 1, 0, 3]);
    assert_eq!(Greedy::new(&tsp).search_from(3).path, vec![3, 0, 1, 2]);
    for start in 0..4 {
        assert_eq!(Greedy::new(&tsp).search_from(start).cost, 40_000_000);
    }
}

#[test]
fn greedy_is_not_always_cheapest() {
    let tsp = exact_instance(&[(0, 0), (1, 0), (-2, 0), (4, 0), (-8, 0)]);
    let tour = Greedy::new(&tsp).search_from(0);
    assert_eq!(tour.path, vec![0, 1, 2, 3, 4]);
    assert_eq!(tour.cost, 30_000_000);
    assert_eq!(least_cost(&tsp), 24_000_000);
}

#[test]
fn greedy_search_returns_a_tour() {
    let tsp = TSP::new(100, 0, 100);
    let mut greedy = Greedy::new(&tsp);
    let tour = greedy.search().unwrap();
    assert_is_tour(&tsp, &tour);
}

#[test]
fn greedy_search_can_be_repeated() {
    let tsp = TSP::new(20, 0, 50);
    let mut greedy = Greedy::new(&tsp);
    let first = greedy.search().unwrap();
    let second = greedy.search().unwrap();
    assert_is_tour(&tsp, &first);
    assert_is_tour(&tsp, &second);
}

#[test]
fn greedy_on_one_city() {
    let tsp = exact_instance(&[(3, 3)]);
    let tour = Greedy::new(&tsp).search().unwrap();
    assert_eq!(tour.path, vec![0]);
    assert_eq!(tour.cost, 0);
}

#[test]
fn greedy_on_two_cities() {
    let tsp = exact_instance(&[(0, 0), (3, 4)]);
    let tour = Greedy::new(&tsp).search().unwrap();
    assert_is_tour(&tsp, &tour);
    assert_eq!(tour.cost, 2 * tsp.euclidean_distance(0, 1) as u128);
}

#[test]
fn greedy_rejects_the_empty_instance() {
    let tsp = exact_instance(&[]);
    assert_eq!(Greedy::new(&tsp).search().unwrap_err(), SearchError::EmptyInstance);
}

#[test]
fn dfs_finds_the_square_from_each_city() {
    let tsp = exact_square();
    for start in 0..4 {
        let tour = DFS::new(&tsp).search_from(start);
        assert_is_tour(&tsp, &tour);
        assert_eq!(tour.path[0], start);
        assert_eq!(tour.cost, 40_000_000);
        let cost = tour.cost as f64 / SCALE as f64;
        assert!((cost - 40.0).abs() < 1e-4);
    }
}

#[test]
fn dfs_keeps_the_first_of_the_cheapest_tours() {
    let tsp = exact_square();
    assert_eq!(DFS::new(&tsp).search_from(0).path, vec![0, 1, 2, 3]);
    assert_eq!(DFS::new(&tsp).search_from(2).path, vec![2, 1, 0, 3]);
}

#[test]
fn dfs_search_on_the_square() {
    let tsp = exact_square();
    let tour = DFS::new(&tsp).search().unwrap();
    assert_is_tour(&tsp, &tour);
    assert_eq!(tour.cost, 40_000_000);
}

#[test]
fn dfs_on_collinear_points() {
    let tsp = exact_instance(&[(0, 0), (1, 0), (2, 0)]);
    for start in 0..3 {
        let tour = DFS::new(&tsp).search_from(start);
        assert_is_tour(&tsp, &tour);
        assert_eq!(tour.cost, 4_000_000);
    }
}

#[test]
fn dfs_on_one_city() {
    let tsp = exact_instance(&[(9, -9)]);
    let tour = DFS::new(&tsp).search().unwrap();
    assert_eq!(tour.path, vec![0]);
    assert_eq!(tour.cost, 0);
}

#[test]
fn dfs_on_two_cities() {
    let tsp = exact_instance(&[(0, 0), (6, 8)]);
    let tour = DFS::new(&tsp).search().unwrap();
    assert_is_tour(&tsp, &tour);
    assert_eq!(tour.cost, 2 * tsp.euclidean_distance(0, 1) as u128);
    assert_eq!(tour.cost, 20_000_000);
}

#[test]
fn dfs_rejects_the_empty_instance() {
    let tsp = exact_instance(&[]);
    assert_eq!(DFS::new(&tsp).search().unwrap_err(), SearchError::EmptyInstance);
}

#[test]
fn dfs_finds_what_enumeration_finds() {
    let tsp = house();
    assert_eq!(least_cost(&tsp), 15_656_854);
    for start in 0..tsp.len() {
        assert_eq!(DFS::new(&tsp).search_from(start).cost, 15_656_854);
    }
}

#[test]
fn dfs_search_can_be_repeated() {
    let tsp = house();
    let mut dfs = DFS::new(&tsp);
    let first = dfs.search_from(1);
    let second = dfs.search_from(3);
    assert_is_tour(&tsp, &first);
    assert_is_tour(&tsp, &second);
    assert_eq!(first.cost, second.cost);
    assert_eq!(second.path[0], 3);
}

#[test]
fn bound_table_holds_the_least_distance_to_another_city() {
    let tsp = house();
    let solver = BranchAndBound::new(&tsp);
    assert_eq!(solver.min_outgoing(0), 3_000_000);
    assert_eq!(solver.min_outgoing(1), 3_000_000);
    assert_eq!(solver.min_outgoing(2), 2_828_427);
    assert_eq!(solver.min_outgoing(3), 2_828_427);
    assert_eq!(solver.min_outgoing(4), 2_828_427);
    for i in 0..tsp.len() {
        let least = (0..tsp.len())
            .filter(|&j| j != i)
            .map(|j| tsp.euclidean_distance(i, j))
            .min()
            .unwrap();
        assert_eq!(solver.min_outgoing(i), least);
    }
}

#[test]
fn bound_table_of_one_city_is_zero() {
    let tsp = exact_instance(&[(42, 42)]);
    let solver = BranchAndBound::new(&tsp);
    assert_eq!(solver.min_outgoing(0), 0);
}

#[test]
fn bound_table_of_two_cities_is_their_distance() {
    let tsp = exact_instance(&[(0, 0), (0, 2)]);
    let solver = BranchAndBound::new(&tsp);
    assert_eq!(solver.min_outgoing(0), 2_000_000);
    assert_eq!(solver.min_outgoing(1), 2_000_000);
}

#[test]
fn bound_table_of_cities_at_one_point_is_zero() {
    let tsp = exact_instance(&[(1, 1), (1, 1), (5, 5)]);
    let solver = BranchAndBound::new(&tsp);
    assert_eq!(solver.min_outgoing(0), 0);
    assert_eq!(solver.min_outgoing(1), 0);
    assert_eq!(solver.min_outgoing(2), 5_656_854);
}

#[test]
fn insert_by_distance_keeps_the_order() {
    let mut cands: Vec<(usize, u64)> = Vec::new();
    insert_by_distance(&mut cands, 0, 30);
    insert_by_distance(&mut cands, 1, 10);
    insert_by_distance(&mut cands, 2, 20);
    insert_by_distance(&mut cands, 3, 40);
    assert_eq!(cands, vec![(1, 10), (2, 20), (0, 30), (3, 40)]);
}

#[test]
fn insert_by_distance_puts_equals_behind() {
    let mut cands: Vec<(usize, u64)> = vec![(4, 10), (7, 20), (1, 20), (2, 30)];
    insert_by_distance(&mut cands, 9, 20);
    assert_eq!(cands, vec![(4, 10), (7, 20), (1, 20), (9, 20), (2, 30)]);
    insert_by_distance(&mut cands, 5, 10);
    assert_eq!(cands, vec![(4, 10), (5, 10), (7, 20), (1, 20), (9, 20), (2, 30)]);
}

#[test]
fn branch_and_bound_finds_the_square_from_each_city() {
    let tsp = exact_square();
    for start in 0..4 {
        let tour = BranchAndBound::new(&tsp).search_from(start);
        assert_is_tour(&tsp, &tour);
        assert_eq!(tour.path[0], start);
        assert_eq!(tour.cost, 40_000_000);
        let cost = tour.cost as f64 / SCALE as f64;
        assert!((cost - 40.0).abs() < 1e-4);
    }
}

#[test]
fn branch_and_bound_walks_the_nearest_city_first() {
    let tsp = exact_square();
    assert_eq!(BranchAndBound::new(&tsp).search_from(0).path, vec![0, 1, 2, 3]);
    let tsp = exact_instance(&[(0, 0), (0, 10), (10, 10), (9, 0)]);
    assert_eq!(BranchAndBound::new(&tsp).search_from(0).path, vec![0, 3, 2, 1]);
    assert_eq!(DFS::new(&tsp).search_from(0).path, vec![0, 1, 2, 3]);
}

#[test]
fn branch_and_bound_search_on_the_square() {
    let tsp = exact_square();
    let tour = BranchAndBound::new(&tsp).search().unwrap();
    assert_is_tour(&tsp, &tour);
    assert_eq!(tour.cost, 40_000_000);
}

#[test]
fn branch_and_bound_on_collinear_points() {
    let tsp = exact_instance(&[(0, 0), (1, 0), (2, 0)]);
    for start in 0..3 {
        let tour = BranchAndBound::new(&tsp).search_from(start);
        assert_is_tour(&tsp, &tour);
        assert_eq!(tour.cost, 4_000_000);
    }
}

#[test]
fn branch_and_bound_on_one_city() {
    let tsp = exact_instance(&[(0, 0)]);
    let tour = BranchAndBound::new(&tsp).search().unwrap();
    assert_eq!(tour.path, vec![0]);
    assert_eq!(tour.cost, 0);
}

#[test]
fn branch_and_bound_on_two_cities() {
    let tsp = exact_instance(&[(1, 1), (4, 5)]);
    let tour = BranchAndBound::new(&tsp).search().unwrap();
    assert_is_tour(&tsp, &tour);
    assert_eq!(tour.cost, 2 * tsp.euclidean_distance(0, 1) as u128);
}

#[test]
fn branch_and_bound_rejects_the_empty_instance() {
    let tsp = exact_instance(&[]);
    assert_eq!(BranchAndBound::new(&tsp).search().unwrap_err(), SearchError::EmptyInstance);
}

#[test]
fn branch_and_bound_agrees_with_dfs_on_the_house() {
    let tsp = house();
    for start in 0..tsp.len() {
        let bounded = BranchAndBound::new(&tsp).search_from(start);
        let exhaustive = DFS::new(&tsp).search_from(start);
        assert_eq!(bounded.cost, exhaustive.cost);
        assert_eq!(bounded.cost, 15_656_854);
    }
}

#[test]
fn branch_and_bound_agrees_with_dfs_on_random_instances() {
    for _ in 0..20 {
        let tsp = TSP::new(7, 0, 100);
        let bounded = BranchAndBound::new(&tsp).search().unwrap();
        let exhaustive = DFS::new(&tsp).search().unwrap();
        assert_is_tour(&tsp, &bounded);
        assert_is_tour(&tsp, &exhaustive);
        assert_eq!(bounded.cost, exhaustive.cost);
    }
}

#[test]
fn cheapest_cost_does_not_depend_on_the_first_city() {
    let tsp = TSP::new(7, -30, 30);
    let from_first = DFS::new(&tsp).search_from(0).cost;
    for start in 1..tsp.len() {
        assert_eq!(DFS::new(&tsp).search_from(start).cost, from_first);
        assert_eq!(BranchAndBound::new(&tsp).search_from(start).cost, from_first);
    }
}

#[test]
fn exhaustive_searches_are_no_worse_than_greedy() {
    let tsp = TSP::new(8, 0, 1000);
    let best = BranchAndBound::new(&tsp).search().unwrap();
    for start in 0..tsp.len() {
        assert!(best.cost <= Greedy::new(&tsp).search_from(start).cost);
    }
}

#[test]
fn branch_and_bound_search_can_be_repeated() {
    let tsp = house();
    let mut solver = BranchAndBound::new(&tsp);
    let first = solver.search_from(0);
    let second = solver.search_from(4);
    assert_eq!(first.cost, second.cost);
    assert_eq!(second.path[0], 4);
    assert_eq!(solver.min_outgoing(2), 2_828_427);
}
