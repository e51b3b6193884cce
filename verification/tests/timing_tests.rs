use std::time::Duration;
use tsp_solvers::timing::measure_time;
use tsp_solvers::tsp::TSP;
use tsp_solvers::Greedy;

#[test]
fn measure_time_returns_what_the_closure_returns() {
    let (out, _dur) = measure_time(|| 6 * 7);
    assert_eq!(out, 42);
}

#[test]
fn measure_time_returns_a_duration() {
    let (out, dur) = measure_time(|| ());
    assert_eq!(out, ());
    assert!(dur >= Duration::ZERO);
}

#[test]
fn measure_time_around_a_search() {
    let tsp = TSP::new(50, 0, 100);
    let (found, _dur) = measure_time(|| Greedy::new(&tsp).search());
    assert_eq!(found.unwrap().path.len(), 50);
}
