//! Steepest-descent local search: from a tour the search moves to the
//! cheapest tour that one reversal reaches, until no reversal helps.

use crate::random::shuffle;
use crate::tour::{
    identity_path, is_local_optimum, is_move, is_permutation, lemma_reordered_permutation,
    lemma_two_opt_permutation, move_cost, neighbor_cost, reverse_segment, tour_cost, tour_len,
    two_opt, SearchError, Tour,
};
use crate::tsp::{Point, TSP};
use vstd::prelude::*;

verus! {

/// The reversal `(i, j)` comes before `(a, b)` in the order in which a sweep
/// tries them.
pub open spec fn tried_before(i: int, j: int, a: int, b: int) -> bool {
    i < a || (i == a && j < b)
}

/// The reversal `(i, j)` makes the tour `p` cheaper, to the cost `c`; no
/// reversal leads to a lower cost, and none that comes earlier in a sweep
/// to the same.
pub open spec fn is_best_move(points: Seq<Point>, p: Seq<usize>, i: int, j: int, c: nat) -> bool {
    &&& is_move(p.len(), i, j)
    &&& c == move_cost(points, p, i, j)
    &&& c < tour_cost(points, p)
    &&& forall|a: int, b: int|
        is_move(p.len(), a, b) ==> c <= #[trigger] move_cost(points, p, a, b) && (tried_before(
            a,
            b,
            i,
            j,
        ) ==> c < move_cost(points, p, a, b))
}

/// One step of the descent leads from the tour `p` to the tour `q`: `q` is
/// the first of the cheapest tours that a reversal reaches from `p`, and
/// cheaper than `p`.
pub open spec fn descent_step(points: Seq<Point>, p: Seq<usize>, q: Seq<usize>) -> bool {
    exists|i: int, j: int|
        #![trigger two_opt(p, i, j)]
        is_best_move(points, p, i, j, tour_cost(points, q)) && q == two_opt(p, i, j)
}

/// `k` steps of the descent lead from the tour `p` to the tour `q`.
pub open spec fn descent(points: Seq<Point>, p: Seq<usize>, q: Seq<usize>, k: nat) -> bool
    decreases k,
{
    if k == 0 {
        p == q
    } else {
        exists|m: Seq<usize>|
            descent(points, p, m, (k - 1) as nat) && #[trigger] descent_step(points, m, q)
    }
}

/// Steepest-descent search over the tours that reversals reach.
pub struct HillClimbing<'a> {
    tsp: &'a TSP,
    path: Vec<usize>,
    best_cost: u128,
}

impl<'a> HillClimbing<'a> {
    /// The points of the instance that is searched.
    pub closed spec fn instance(&self) -> Seq<Point> {
        self.tsp@
    }

    /// The tour at which the search stands.
    pub closed spec fn route(&self) -> Seq<usize> {
        self.path@
    }

    /// The cost that the search holds for its tour.
    pub closed spec fn cost(&self) -> nat {
        self.best_cost as nat
    }

    /// The search stands at a tour of its instance and holds its cost.
    pub open spec fn wf(&self) -> bool {
        &&& is_permutation(self.route(), self.instance().len())
        &&& self.cost() == tour_cost(self.instance(), self.route())
    }

    /// A search of `tsp` that stands at no tour yet.
    pub fn new(tsp: &'a TSP) -> (solver: Self)
        ensures
            solver.instance() == tsp@,
            solver.route().len() == 0,
    {
        HillClimbing { tsp, path: Vec::new(), best_cost: 0 }
    }

    /// The tour at which the search stands.
    pub fn path(&self) -> (path: &Vec<usize>)
        ensures
            path@ == self.route(),
    {
        &self.path
    }

    /// The cost of the tour at which the search stands.
    pub fn best_cost(&self) -> (cost: u128)
        ensures
            cost == self.cost(),
    {
        self.best_cost
    }

    /// Puts the search at the tour `initial`.
    pub fn start_from(&mut self, initial: Vec<usize>)
        requires
            is_permutation(initial@, old(self).instance().len()),
        ensures
            final(self).instance() == old(self).instance(),
            final(self).route() == initial@,
            final(self).wf(),
    {
        self.best_cost = tour_len(self.tsp, &initial);
        self.path = initial;
    }

    /// Puts the search at a tour drawn at random.
    fn random_init(&mut self)
        ensures
            final(self).instance() == old(self).instance(),
            final(self).wf(),
    {
        let n = self.tsp.len();
        let mut path = identity_path(n);
        let ghost ordered = path@;
        shuffle(&mut path);
        proof {
            lemma_reordered_permutation(ordered, path@, n as nat);
        }
        self.start_from(path);
    }

    /// One sweep over all reversals: the first of the cheapest tours that a
    /// reversal reaches, if it is cheaper than the tour at which the search
    /// stands.
    pub fn best_move(&self) -> (found: Option<(usize, usize, u128)>)
        requires
            self.wf(),
        ensures
            found is None <==> is_local_optimum(self.instance(), self.route()),
            found matches Some((i, j, c)) ==> is_best_move(
                self.instance(),
                self.route(),
                i as int,
                j as int,
                c as nat,
            ),
    {
        let n = self.path.len();
        let ghost points = self.tsp@;
        let ghost p = self.path@;
        let mut improved = false;
        let mut best_i: usize = 0;
        let mut best_j: usize = 0;
        let mut best_neighbor_cost = self.best_cost;
        if n < 3 {
            return None;
        }
        let mut i: usize = 0;
        while i < n - 2
            invariant
                3 <= n,
                i <= n - 2,
                n == p.len(),
                p == self.path@,
                points == self.tsp@,
                self.wf(),
                !improved ==> best_neighbor_cost == tour_cost(points, p),
                improved ==> {
                    &&& is_move(n as nat, best_i as int, best_j as int)
                    &&& best_i < i
                    &&& best_neighbor_cost == move_cost(points, p, best_i as int, best_j as int)
                    &&& best_neighbor_cost < tour_cost(points, p)
                },
                forall|a: int, b: int|
                    is_move(n as nat, a, b) && a < i ==> best_neighbor_cost <= #[trigger] move_cost(
                        points,
                        p,
                        a,
                        b,
                    ) && (improved && tried_before(a, b, best_i as int, best_j as int)
                        ==> best_neighbor_cost < move_cost(points, p, a, b)),
            decreases n - i,
        {
            let mut j: usize = i + 2;
            while j < n
                invariant
                    3 <= n,
                    i < n - 2,
                    i + 2 <= j <= n,
                    n == p.len(),
                    p == self.path@,
                    points == self.tsp@,
                    self.wf(),
                    !improved ==> best_neighbor_cost == tour_cost(points, p),
                    improved ==> {
                        &&& is_move(n as nat, best_i as int, best_j as int)
                        &&& tried_before(best_i as int, best_j as int, i as int, j as int)
                        &&& best_neighbor_cost == move_cost(points, p, best_i as int, best_j as int)
                        &&& best_neighbor_cost < tour_cost(points, p)
                    },
                    forall|a: int, b: int|
                        is_move(n as nat, a, b) && tried_before(a, b, i as int, j as int)
                            ==> best_neighbor_cost <= #[trigger] move_cost(points, p, a, b) && (
                        improved && tried_before(a, b, best_i as int, best_j as int)
                            ==> best_neighbor_cost < move_cost(points, p, a, b)),
                decreases n - j,
            {
                if !(i == 0 && j == n - 1) {
                    let cost = neighbor_cost(self.tsp, &self.path, i, j);
                    if cost < best_neighbor_cost {
                        best_neighbor_cost = cost;
                        best_i = i;
                        best_j = j;
                        improved = true;
                    }
                }
                j += 1;
            }
            i += 1;
        }
        if improved {
            Some((best_i, best_j, best_neighbor_cost))
        } else {
            None
        }
    }

    /// One step of the descent: moves to the first of the cheapest tours
    /// that a reversal reaches if it is cheaper, and stays otherwise.
    pub fn improve(&mut self) -> (improved: bool)
        requires
            old(self).wf(),
        ensures
            final(self).instance() == old(self).instance(),
            final(self).wf(),
            improved <==> !is_local_optimum(old(self).instance(), old(self).route()),
            improved ==> final(self).cost() < old(self).cost() && descent_step(
                old(self).instance(),
                old(self).route(),
                final(self).route(),
            ),
            !improved ==> final(self).route() == old(self).route() && final(self).cost() == old(
                self,
            ).cost(),
    {
        match self.best_move() {
            Some((i, j, cost)) => {
                proof {
                    lemma_two_opt_permutation(self.path@, self.tsp@.len(), i as int, j as int);
                }
                reverse_segment(&mut self.path, i, j);
                self.best_cost = cost;
                assert(is_best_move(
                    old(self).instance(),
                    old(self).route(),
                    i as int,
                    j as int,
                    self.cost(),
                ) && self.route() == two_opt(old(self).route(), i as int, j as int));
                true
            },
            None => false,
        }
    }

    /// Descends from a tour drawn at random to a tour that no reversal makes
    /// cheaper; fails on an instance without cities.
    pub fn search(&mut self) -> (found: Result<Tour, SearchError>)
        ensures
            final(self).instance() == old(self).instance(),
            old(self).instance().len() == 0 <==> found is Err,
            found is Err ==> found == Err::<Tour, SearchError>(SearchError::EmptyInstance),
            found matches Ok(tour) ==> {
                &&& tour.is_tour_of(old(self).instance())
                &&& is_local_optimum(old(self).instance(), tour.path@)
                &&& exists|initial: Seq<usize>, k: nat|
                    {
                        &&& is_permutation(initial, old(self).instance().len())
                        &&& tour.cost <= tour_cost(old(self).instance(), initial)
                        &&& #[trigger] descent(old(self).instance(), initial, tour.path@, k)
                    }
            },
    {
        if self.tsp.len() == 0 {
            return Err(SearchError::EmptyInstance);
        }
        self.random_init();
        let ghost initial = self.path@;
        let tour = self.descend();
        proof {
            let k = choose|k: nat| descent(self.tsp@, initial, tour.path@, k);
            assert(descent(self.tsp@, initial, tour.path@, k));
        }
        Ok(tour)
    }

    /// Descends from the tour `initial`, step by step, to a tour that no
    /// reversal makes cheaper. The tour found costs no more than `initial`.
    pub fn search_from(&mut self, initial: Vec<usize>) -> (tour: Tour)
        requires
            is_permutation(initial@, old(self).instance().len()),
        ensures
            final(self).instance() == old(self).instance(),
            final(self).wf(),
            tour.path@ == final(self).route(),
            tour.is_tour_of(old(self).instance()),
            is_local_optimum(old(self).instance(), tour.path@),
            tour.cost <= tour_cost(old(self).instance(), initial@),
            exists|k: nat| descent(old(self).instance(), initial@, tour.path@, k),
    {
        self.start_from(initial);
        self.descend()
    }

    /// Repeats the step of the descent until it stays.
    fn descend(&mut self) -> (tour: Tour)
        requires
            old(self).wf(),
        ensures
            final(self).instance() == old(self).instance(),
            final(self).wf(),
            tour.path@ == final(self).route(),
            tour.is_tour_of(old(self).instance()),
            is_local_optimum(old(self).instance(), tour.path@),
            tour.cost <= old(self).cost(),
            exists|k: nat| descent(old(self).instance(), old(self).route(), tour.path@, k),
    {
        let ghost mut steps: nat = 0;
        loop
            invariant_except_break
                self.wf(),
                self.instance() == old(self).instance(),
                self.cost() <= old(self).cost(),
                descent(self.instance(), old(self).route(), self.route(), steps),
            ensures
                self.wf(),
                self.instance() == old(self).instance(),
                self.cost() <= old(self).cost(),
                is_local_optimum(self.instance(), self.route()),
                descent(self.instance(), old(self).route(), self.route(), steps),
            decreases self.cost(),
        {
            let ghost before = self.route();
            if !self.improve() {
                break ;
            }
            proof {
                assert(descent_step(self.instance(), before, self.route()));
                steps = steps + 1;
            }
        }
        let path = self.path.clone();
        assert(path@ =~= self.path@);
        Tour { path, cost: self.best_cost }
    }
}

} // verus!
