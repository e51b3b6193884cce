//! Exhaustive search: every tour from one city is walked, and the cheapest
//! is kept.

use crate::optimal::{
    is_first_cheapest_from, lemma_least_from_any_start, lemma_tour_exists, walked_before,
};
use crate::random::random_index;
use crate::tour::{
    extends, is_permutation, lemma_path_cost_bound, lemma_path_cost_push, path_cost, tour_cost,
    SearchError, Tour,
};
use crate::tsp::{Point, TSP};
use crate::visited::{
    lemma_tracks_count, lemma_tracks_pop, lemma_tracks_push, marks_of, tracks, unmarked,
};
use vstd::prelude::*;

verus! {

/// Depth-first search over all tours of an instance.
pub struct DFS<'a> {
    tsp: &'a TSP,
    best_path: Vec<usize>,
    best_cost: Option<u128>,
    path: Vec<usize>,
    visited: Vec<bool>,
}

impl<'a> DFS<'a> {
    /// The points of the instance that is searched.
    pub closed spec fn instance(&self) -> Seq<Point> {
        self.tsp@
    }

    /// The cost of the best tour found, if one was found.
    pub closed spec fn best_cost(&self) -> Option<u128> {
        self.best_cost
    }

    /// The best tour found; empty while none was found.
    pub closed spec fn best_route(&self) -> Seq<usize> {
        self.best_path@
    }

    /// The path that the search has walked and not yet gone back on.
    pub closed spec fn walked(&self) -> Seq<usize> {
        self.path@
    }

    /// The marks: for each city whether it lies on the path walked.
    pub closed spec fn marks(&self) -> Seq<bool> {
        self.visited@
    }

    /// The path walked so far begins at `start`, and the marks hold its
    /// cities.
    spec fn walking(&self, start: usize) -> bool {
        &&& tracks(self.visited@, self.path@, self.tsp@.len())
        &&& self.path@.len() >= 1
        &&& self.path@[0] == start
    }

    /// The best tour so far, if there is one, is a tour from `start` with
    /// the cost that is held for it.
    spec fn incumbent_ok(&self, start: usize) -> bool {
        self.best_cost matches Some(best) ==> {
            &&& is_permutation(self.best_path@, self.tsp@.len())
            &&& self.best_path@[0] == start
            &&& best == tour_cost(self.tsp@, self.best_path@)
        }
    }

    /// The best cost so far is at most `bound`.
    spec fn within(&self, bound: nat) -> bool {
        self.best_cost matches Some(best) && best <= bound
    }

    /// The best tour so far costs no more than the tour `q`; if it costs as
    /// much, it is `q` or was walked before it.
    spec fn settles(&self, q: Seq<usize>) -> bool {
        &&& self.within(tour_cost(self.tsp@, q))
        &&& self.best_cost.unwrap() == tour_cost(self.tsp@, q) ==> q == self.best_path@
            || walked_before(self.best_path@, q)
    }

    /// The best tour so far is the one that `before` held, or a cheaper one
    /// that begins with `path`.
    spec fn kept_or_found(&self, before: &Self, path: Seq<usize>) -> bool {
        ||| self.best_cost == before.best_cost && self.best_path@ == before.best_path@
        ||| {
            &&& extends(self.best_path@, path)
            &&& self.best_cost is Some
            &&& before.best_cost matches Some(b) ==> self.best_cost.unwrap() < b
        }
    }

    /// The best tour so far, if there is one, was walked before every tour
    /// that begins with `path`.
    spec fn ahead_of(&self, path: Seq<usize>) -> bool {
        self.best_cost is Some ==> forall|q: Seq<usize>|
            is_permutation(q, self.tsp@.len()) && #[trigger] extends(q, path) ==> walked_before(
                self.best_path@,
                q,
            )
    }

    /// A search of `tsp` that has not yet run: it holds no tour, has walked
    /// no path and has marked no city.
    pub fn new(tsp: &'a TSP) -> (solver: Self)
        ensures
            solver.instance() == tsp@,
            solver.best_cost() is None,
            solver.best_route() == Seq::<usize>::empty(),
            solver.walked() == Seq::<usize>::empty(),
            solver.marks() == marks_of(Seq::<usize>::empty(), tsp@.len()),
    {
        let n = tsp.len();
        DFS { tsp, best_path: Vec::new(), best_cost: None, path: Vec::new(), visited: unmarked(n) }
    }

    /// Searches all tours from a city drawn at random and returns a
    /// cheapest tour of the instance; fails on an instance without cities.
    pub fn search(&mut self) -> (found: Result<Tour, SearchError>)
        ensures
            final(self).instance() == old(self).instance(),
            old(self).instance().len() == 0 <==> found is Err,
            found is Err ==> found == Err::<Tour, SearchError>(SearchError::EmptyInstance),
            found matches Ok(tour) ==> tour.is_optimal_for(old(self).instance())
                && is_first_cheapest_from(old(self).instance(), tour.path@[0], tour.path@),
    {
        let n = self.tsp.len();
        if n == 0 {
            return Err(SearchError::EmptyInstance);
        }
        let start = random_index(0, n);
        Ok(self.search_from(start))
    }

    /// Searches all tours that begin at `start`, trying the cities in the
    /// order of their numbers, and returns the first of the cheapest. It is
    /// a cheapest tour of the instance.
    pub fn search_from(&mut self, start: usize) -> (tour: Tour)
        requires
            start < old(self).instance().len(),
        ensures
            final(self).instance() == old(self).instance(),
            tour.is_optimal_for(old(self).instance()),
            is_first_cheapest_from(old(self).instance(), start, tour.path@),
            final(self).best_cost() == Some(tour.cost),
            final(self).best_route() == tour.path@,
            final(self).walked() == seq![start],
            final(self).marks() == marks_of(seq![start], old(self).instance().len()),
    {
        let n = self.tsp.len();
        self.path = Vec::new();
        self.visited = unmarked(n);
        self.best_path = Vec::new();
        self.best_cost = None;
        proof {
            lemma_tracks_push(self.visited@, self.path@, n as nat, start);
        }
        self.path.push(start);
        self.visited.set(start, true);
        self.dfs(start, 1, 0, start);
        proof {
            let q = lemma_tour_exists(self.tsp@, start);
            assert(extends(q, self.path@));
            assert forall|q: Seq<usize>|
                is_permutation(q, self.tsp@.len()) && q[0] == start implies self.best_cost.unwrap()
                <= #[trigger] tour_cost(self.tsp@, q) && (tour_cost(self.tsp@, q)
                == self.best_cost.unwrap() ==> q == self.best_path@ || walked_before(
                self.best_path@,
                q,
            )) by {
                assert(extends(q, self.path@));
                assert(self.settles(q));
            }
            lemma_least_from_any_start(self.tsp@, start, self.best_cost.unwrap() as nat);
        }
        let path = self.best_path.clone();
        assert(path@ =~= self.best_path@);
        Tour { path, cost: self.best_cost.unwrap() }
    }

    /// Walks every tour that begins with the path walked so far, and keeps
    /// the cheapest if it costs less than the best so far.
    fn dfs(&mut self, curr: usize, depth: usize, g: u128, start: usize)
        requires
            old(self).walking(start),
            old(self).incumbent_ok(start),
            old(self).ahead_of(old(self).path@),
            depth == old(self).path@.len(),
            curr == old(self).path@.last(),
            g == path_cost(old(self).tsp@, old(self).path@),
        ensures
            final(self).tsp == old(self).tsp,
            final(self).path@ == old(self).path@,
            final(self).visited@ == old(self).visited@,
            final(self).incumbent_ok(start),
            old(self).best_cost matches Some(best) ==> final(self).within(best as nat),
            final(self).kept_or_found(old(self), old(self).path@),
            forall|q: Seq<usize>|
                is_permutation(q, old(self).tsp@.len()) && #[trigger] extends(q, old(self).path@)
                    ==> final(self).settles(q),
        decreases old(self).tsp@.len() - depth,
    {
        let n = self.tsp.len();
        let ghost points = self.tsp@;
        let ghost path0 = self.path@;
        let ghost marks0 = self.visited@;
        proof {
            lemma_tracks_count(path0, n as nat);
            lemma_path_cost_bound(points, path0);
        }
        if depth == n {
            let total = g + self.tsp.euclidean_distance(curr, start) as u128;
            let better = match self.best_cost {
                Some(best) => total < best,
                None => true,
            };
            if better {
                self.best_cost = Some(total);
                self.best_path = self.path.clone();
                assert(self.best_path@ =~= path0);
            }
            proof {
                assert(extends(path0, path0));
                assert forall|q: Seq<usize>|
                    is_permutation(q, points.len()) && #[trigger] extends(q, path0) implies
                    self.settles(q) by {
                    assert(q =~= path0);
                }
            }
            return;
        }
        let mut v: usize = 0;
        while v < n
            invariant
                v <= n,
                n == points.len(),
                depth == path0.len(),
                depth < n,
                curr == path0.last(),
                g == path_cost(points, path0),
                g <= (depth - 1) * u64::MAX,
                self.tsp@ == points,
                self.tsp == old(self).tsp,
                self.path@ == path0,
                self.visited@ == marks0,
                old(self).path@ == path0,
                old(self).visited@ == marks0,
                old(self).tsp@ == points,
                self.walking(start),
                self.incumbent_ok(start),
                old(self).best_cost matches Some(best) ==> self.within(best as nat),
                self.kept_or_found(old(self), path0),
                forall|q: Seq<usize>|
                    is_permutation(q, points.len()) && #[trigger] extends(q, path0) && q[depth as int]
                        < v ==> self.settles(q),
                self.best_cost is Some ==> forall|q: Seq<usize>|
                    is_permutation(q, points.len()) && #[trigger] extends(q, path0) && q[depth as int]
                        >= v ==> walked_before(self.best_path@, q),
            decreases n - v,
        {
            let ghost before = *self;
            if !self.visited[v] {
                proof {
                    lemma_tracks_push(marks0, path0, n as nat, v);
                    lemma_path_cost_push(points, path0, v);
                    assert forall|q: Seq<usize>|
                        self.best_cost is Some && is_permutation(q, points.len())
                            && #[trigger] extends(q, path0.push(v)) implies walked_before(
                        self.best_path@,
                        q,
                    ) by {
                        assert(extends(q, path0));
                        assert(q[depth as int] == path0.push(v)[depth as int]);
                    }
                }
                self.visited.set(v, true);
                self.path.push(v);
                let g2 = g + self.tsp.euclidean_distance(curr, v) as u128;
                let ghost pushed = *self;
                self.dfs(v, depth + 1, g2, start);
                proof {
                    assert(self.kept_or_found(&pushed, path0.push(v)));
                    lemma_tracks_pop(self.visited@, self.path@, n as nat);
                    assert(self.path@.drop_last() =~= path0);
                    assert(self.visited@.update(v as int, false) =~= marks0);
                }
                self.path.pop();
                self.visited.set(v, false);
            }
            let ghost found = self.best_path@ != before.best_path@ || self.best_cost
                != before.best_cost;
            proof {
                if found {
                    assert(extends(self.best_path@, path0.push(v)));
                    assert(self.best_path@[depth as int] == path0.push(v)[depth as int]);
                    assert(extends(self.best_path@, path0));
                }
                assert forall|q: Seq<usize>|
                    is_permutation(q, points.len()) && #[trigger] extends(q, path0) && q[depth as int]
                        < v + 1 implies self.settles(q) by {
                    if q[depth as int] < v {
                        assert(before.settles(q));
                    } else if marks0[v as int] {
                        assert(path0.contains(v));
                        let k = choose|k: int| 0 <= k < path0.len() && path0[k] == v;
                        assert(q[k] == q[depth as int]);
                    } else {
                        assert(extends(q, path0.push(v)));
                    }
                }
                assert forall|q: Seq<usize>|
                    self.best_cost is Some && is_permutation(q, points.len())
                        && #[trigger] extends(q, path0) && q[depth as int] >= v
                        + 1 implies walked_before(self.best_path@, q) by {
                    if found {
                        let best = self.best_path@;
                        assert(best[depth as int] < q[depth as int]);
                        assert forall|t: int| 0 <= t < depth implies best[t] == q[t] by {
                            assert(best[t] == path0[t]);
                        }
                    }
                }
            }
            v += 1;
        }
    }
}

} // verus!
