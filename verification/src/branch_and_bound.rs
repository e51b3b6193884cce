//! Bounded exhaustive search: the tours from one city are walked nearest
//! city first, and a branch is left as soon as a lower bound on what it can
//! still cost shows that it cannot beat the best tour so far.

use crate::bound::{
    is_bound_table, is_least_outgoing, lemma_lower_bound, lemma_prefix_cost,
    lemma_unmarked_sum_bound, unmarked_sum,
};
use crate::optimal::{
    is_nearest_cheapest_from, lemma_least_from_any_start, lemma_tour_exists, tried_nearer_first,
    walked_nearest_before,
};
use crate::random::random_index;
use crate::tour::{
    extends, is_permutation, lemma_path_cost_bound, lemma_path_cost_push, path_cost, tour_cost,
    SearchError, Tour,
};
use crate::tsp::{city_distance, Point, TSP};
use crate::visited::{
    lemma_tracks_count, lemma_tracks_pop, lemma_tracks_push, marks_of, tracks, unmarked,
};
use vstd::prelude::*;

verus! {

/// The candidates come in ascending order of their distance.
pub open spec fn sorted_by_distance(c: Seq<(usize, u64)>) -> bool {
    forall|a: int, b: int| 0 <= a < b < c.len() ==> c[a].1 <= c[b].1
}

/// The candidates come in the order in which they are tried: ascending by
/// distance, and by city number where the distance is the same.
pub open spec fn sorted_nearest_first(c: Seq<(usize, u64)>) -> bool {
    forall|a: int, b: int|
        0 <= a < b < c.len() ==> c[a].1 < c[b].1 || (c[a].1 == c[b].1 && c[a].0 < c[b].0)
}

/// `after` is `before` with the candidate `(v, w)` put in at `pos`, behind
/// every candidate that is no farther and before every one that is farther.
pub open spec fn inserted_at(
    before: Seq<(usize, u64)>,
    after: Seq<(usize, u64)>,
    pos: int,
    v: usize,
    w: u64,
) -> bool {
    &&& 0 <= pos <= before.len()
    &&& after == before.insert(pos, (v, w))
    &&& forall|k: int| 0 <= k < pos ==> before[k].1 <= w
    &&& forall|k: int| pos <= k < before.len() ==> before[k].1 > w
}

/// City `v` is among the first `t` candidates.
pub open spec fn listed_before(c: Seq<(usize, u64)>, t: int, v: usize) -> bool {
    exists|k: int| 0 <= k < t && k < c.len() && (#[trigger] c[k]).0 == v
}

/// Puts the candidate `(v, w)` into a list that is sorted by distance, behind
/// the candidates that are no farther than `w`.
pub fn insert_by_distance(cands: &mut Vec<(usize, u64)>, v: usize, w: u64)
    requires
        sorted_by_distance(old(cands)@),
    ensures
        sorted_by_distance(final(cands)@),
        exists|pos: int| inserted_at(old(cands)@, final(cands)@, pos, v, w),
{
    let mut pos: usize = 0;
    while pos < cands.len() && cands[pos].1 <= w
        invariant
            pos <= cands@.len(),
            cands@ == old(cands)@,
            forall|k: int| 0 <= k < pos ==> cands@[k].1 <= w,
        decreases cands@.len() - pos,
    {
        pos += 1;
    }
    cands.insert(pos, (v, w));
    assert(inserted_at(old(cands)@, cands@, pos as int, v, w));
}

/// An instance with its bound table: for each city the least distance to
/// any other city.
struct Bounded<'a> {
    tsp: &'a TSP,
    min_outgoing: Vec<u64>,
}

impl<'a> Bounded<'a> {
    #[verifier::type_invariant]
    spec fn table_holds(&self) -> bool {
        is_bound_table(self.tsp@, self.min_outgoing@)
    }
}

/// Branch-and-bound search over the tours of an instance.
pub struct BranchAndBound<'a> {
    base: Bounded<'a>,
    best_path: Vec<usize>,
    best_cost: Option<u128>,
    path: Vec<usize>,
    visited: Vec<bool>,
}

impl<'a> BranchAndBound<'a> {
    /// The points of the instance that is searched.
    pub closed spec fn instance(&self) -> Seq<Point> {
        self.base.tsp@
    }

    /// The bound table: for each city its least distance to any other.
    pub closed spec fn bounds(&self) -> Seq<u64> {
        self.base.min_outgoing@
    }

    /// The cost of the best tour found, if one was found.
    pub closed spec fn best_cost(&self) -> Option<u128> {
        self.best_cost
    }

    /// The best tour found; empty while none was found.
    pub closed spec fn best_route(&self) -> Seq<usize> {
        self.best_path@
    }

    /// The path that the search has walked and not yet gone back on.
    pub closed spec fn walked(&self) -> Seq<usize> {
        self.path@
    }

    /// The marks: for each city whether it lies on the path walked.
    pub closed spec fn marks(&self) -> Seq<bool> {
        self.visited@
    }

    /// The path walked so far begins at `start`, and the marks hold its
    /// cities.
    spec fn walking(&self, start: usize) -> bool {
        &&& tracks(self.visited@, self.path@, self.base.tsp@.len())
        &&& self.path@.len() >= 1
        &&& self.path@[0] == start
    }

    /// The best tour so far, if there is one, is a tour from `start` with
    /// the cost that is held for it.
    spec fn incumbent_ok(&self, start: usize) -> bool {
        self.best_cost matches Some(best) ==> {
            &&& is_permutation(self.best_path@, self.base.tsp@.len())
            &&& self.best_path@[0] == start
            &&& best == tour_cost(self.base.tsp@, self.best_path@)
        }
    }

    /// The best cost so far is at most `bound`.
    spec fn within(&self, bound: nat) -> bool {
        self.best_cost matches Some(best) && best <= bound
    }

    /// The best tour so far costs no more than the tour `q`; if it costs as
    /// much, it is `q` or was walked before it.
    spec fn settles(&self, q: Seq<usize>) -> bool {
        &&& self.within(tour_cost(self.base.tsp@, q))
        &&& self.best_cost.unwrap() == tour_cost(self.base.tsp@, q) ==> q == self.best_path@
            || walked_nearest_before(self.base.tsp@, self.best_path@, q)
    }

    /// The best tour so far is the one that `before` held, or a cheaper one
    /// that begins with `path`.
    spec fn kept_or_found(&self, before: &Self, path: Seq<usize>) -> bool {
        ||| self.best_cost == before.best_cost && self.best_path@ == before.best_path@
        ||| {
            &&& extends(self.best_path@, path)
            &&& self.best_cost is Some
            &&& before.best_cost matches Some(b) ==> self.best_cost.unwrap() < b
        }
    }

    /// The best tour so far, if there is one, was walked before every tour
    /// that begins with `path`.
    spec fn ahead_of(&self, path: Seq<usize>) -> bool {
        self.best_cost is Some ==> forall|q: Seq<usize>|
            is_permutation(q, self.base.tsp@.len()) && #[trigger] extends(q, path)
                ==> walked_nearest_before(self.base.tsp@, self.best_path@, q)
    }

    /// The candidates are cities not yet visited, each with its distance
    /// from `curr`.
    spec fn candidates_open(&self, c: Seq<(usize, u64)>, curr: usize) -> bool {
        forall|t: int|
            0 <= t < c.len() ==> {
                &&& (#[trigger] c[t]).0 < self.base.tsp@.len()
                &&& !self.visited@[c[t].0 as int]
                &&& c[t].1 == city_distance(self.base.tsp@, curr as int, c[t].0 as int)
            }
    }

    /// A search of `tsp` that has not yet run, with its bound table: for
    /// each city the least distance to any other city, and zero for the
    /// city of an instance that has no other. It holds no tour, has walked
    /// no path and has marked no city.
    pub fn new(tsp: &'a TSP) -> (solver: Self)
        ensures
            solver.instance() == tsp@,
            is_bound_table(tsp@, solver.bounds()),
            solver.best_cost() is None,
            solver.best_route() == Seq::<usize>::empty(),
            solver.walked() == Seq::<usize>::empty(),
            solver.marks() == marks_of(Seq::<usize>::empty(), tsp@.len()),
    {
        let n = tsp.len();
        let mut min_outgoing: Vec<u64> = Vec::new();
        let mut i: usize = 0;
        while i < n
            invariant
                i <= n,
                n == tsp@.len(),
                min_outgoing@.len() == i,
                forall|k: int|
                    0 <= k < i ==> is_least_outgoing(tsp@, k, #[trigger] min_outgoing@[k] as nat),
            decreases n - i,
        {
            let mut least: Option<u64> = None;
            let mut j: usize = 0;
            while j < n
                invariant
                    j <= n,
                    i < n,
                    n == tsp@.len(),
                    least is None ==> j == 0 || (j == 1 && i == 0),
                    least matches Some(m) ==> {
                        &&& forall|k: int|
                            0 <= k < j && k != i ==> m <= #[trigger] city_distance(
                                tsp@,
                                i as int,
                                k,
                            )
                        &&& exists|k: int|
                            0 <= k < j && k != i && m == #[trigger] city_distance(
                                tsp@,
                                i as int,
                                k,
                            )
                    },
                decreases n - j,
            {
                if j != i {
                    let d = tsp.euclidean_distance(i, j);
                    least = match least {
                        Some(m) => if d < m {
                            Some(d)
                        } else {
                            Some(m)
                        },
                        None => Some(d),
                    };
                }
                j += 1;
            }
            let bound = match least {
                Some(m) => m,
                None => 0,
            };
            min_outgoing.push(bound);
            i += 1;
        }
        BranchAndBound {
            base: Bounded { tsp, min_outgoing },
            best_path: Vec::new(),
            best_cost: None,
            path: Vec::new(),
            visited: unmarked(n),
        }
    }

    /// The entry of the bound table for city `i`.
    pub fn min_outgoing(&self, i: usize) -> (m: u64)
        requires
            i < self.instance().len(),
        ensures
            m == self.bounds()[i as int],
            is_least_outgoing(self.instance(), i as int, m as nat),
    {
        proof {
            use_type_invariant(&self.base);
        }
        self.base.min_outgoing[i]
    }

    /// Searches the tours from a city drawn at random and returns a
    /// cheapest tour of the instance; fails on an instance without cities.
    pub fn search(&mut self) -> (found: Result<Tour, SearchError>)
        ensures
            final(self).instance() == old(self).instance(),
            final(self).bounds() == old(self).bounds(),
            old(self).instance().len() == 0 <==> found is Err,
            found is Err ==> found == Err::<Tour, SearchError>(SearchError::EmptyInstance),
            found matches Ok(tour) ==> tour.is_optimal_for(old(self).instance())
                && is_nearest_cheapest_from(old(self).instance(), tour.path@[0], tour.path@),
    {
        let n = self.base.tsp.len();
        if n == 0 {
            return Err(SearchError::EmptyInstance);
        }
        let start = random_index(0, n);
        Ok(self.search_from(start))
    }

    /// Searches the tours that begin at `start`, trying the nearest city
    /// first, and returns the first of the cheapest. It is a cheapest tour
    /// of the instance.
    pub fn search_from(&mut self, start: usize) -> (tour: Tour)
        requires
            start < old(self).instance().len(),
        ensures
            final(self).instance() == old(self).instance(),
            final(self).bounds() == old(self).bounds(),
            tour.is_optimal_for(old(self).instance()),
            is_nearest_cheapest_from(old(self).instance(), start, tour.path@),
            final(self).best_cost() == Some(tour.cost),
            final(self).best_route() == tour.path@,
            final(self).walked() == seq![start],
            final(self).marks() == marks_of(seq![start], old(self).instance().len()),
    {
        let n = self.base.tsp.len();
        proof {
            use_type_invariant(&self.base);
        }
        self.path = Vec::new();
        self.visited = unmarked(n);
        self.best_path = Vec::new();
        self.best_cost = None;
        proof {
            lemma_tracks_push(self.visited@, self.path@, n as nat, start);
        }
        self.path.push(start);
        self.visited.set(start, true);
        self.dfs(start, 1, 0, start);
        proof {
            let q = lemma_tour_exists(self.base.tsp@, start);
            assert(extends(q, self.path@));
            assert forall|q: Seq<usize>|
                is_permutation(q, self.base.tsp@.len()) && q[0] == start implies self.best_cost.unwrap()
                <= #[trigger] tour_cost(self.base.tsp@, q) && (tour_cost(self.base.tsp@, q)
                == self.best_cost.unwrap() ==> q == self.best_path@ || walked_nearest_before(
                self.base.tsp@,
                self.best_path@,
                q,
            )) by {
                assert(extends(q, self.path@));
                assert(self.settles(q));
            }
            lemma_least_from_any_start(self.base.tsp@, start, self.best_cost.unwrap() as nat);
        }
        let path = self.best_path.clone();
        assert(path@ =~= self.best_path@);
        Tour { path, cost: self.best_cost.unwrap() }
    }

    /// The sum of the bounds of the cities not yet visited.
    fn optimistic(&self) -> (sum: u128)
        requires
            self.visited@.len() == self.base.tsp@.len(),
        ensures
            sum == unmarked_sum(self.base.min_outgoing@, self.visited@),
    {
        proof {
            use_type_invariant(&self.base);
        }
        let n = self.base.tsp.len();
        let mut sum: u128 = 0;
        let mut i: usize = 0;
        assert(self.visited@.take(0) =~= Seq::<bool>::empty());
        while i < n
            invariant
                i <= n,
                n == self.base.tsp@.len(),
                self.visited@.len() == n,
                self.base.min_outgoing@.len() == n,
                sum == unmarked_sum(self.base.min_outgoing@, self.visited@.take(i as int)),
                sum <= i * u64::MAX,
            decreases n - i,
        {
            proof {
                assert(self.visited@.take(i + 1).drop_last() =~= self.visited@.take(i as int));
            }
            if !self.visited[i] {
                sum = sum + self.base.min_outgoing[i] as u128;
            }
            i += 1;
        }
        assert(self.visited@.take(n as int) =~= self.visited@);
        sum
    }

    /// The cities not yet visited, each with its distance from `curr`, in
    /// ascending order of that distance; among equally distant cities the
    /// one with the lower number comes first.
    fn candidates(&self, curr: usize) -> (c: Vec<(usize, u64)>)
        requires
            self.visited@.len() == self.base.tsp@.len(),
            curr < self.base.tsp@.len(),
        ensures
            sorted_nearest_first(c@),
            self.candidates_open(c@, curr),
            forall|v: usize|
                v < self.base.tsp@.len() && !self.visited@[v as int] ==> listed_before(
                    c@,
                    c@.len() as int,
                    v,
                ),
    {
        let n = self.base.tsp.len();
        let mut c: Vec<(usize, u64)> = Vec::new();
        let mut v: usize = 0;
        while v < n
            invariant
                v <= n,
                n == self.base.tsp@.len(),
                self.visited@.len() == n,
                curr < n,
                sorted_by_distance(c@),
                sorted_nearest_first(c@),
                forall|t: int| 0 <= t < c@.len() ==> (#[trigger] c@[t]).0 < v,
                self.candidates_open(c@, curr),
                forall|u: usize|
                    u < v && !self.visited@[u as int] ==> listed_before(c@, c@.len() as int, u),
            decreases n - v,
        {
            if !self.visited[v] {
                let w = self.base.tsp.euclidean_distance(curr, v);
                let ghost before = c@;
                insert_by_distance(&mut c, v, w);
                proof {
                    let pos = choose|pos: int| inserted_at(before, c@, pos, v, w);
                    assert(c@[pos] == (v, w));
                    assert forall|a: int, b: int| 0 <= a < b < c@.len() implies c@[a].1 < c@[b].1
                        || (c@[a].1 == c@[b].1 && c@[a].0 < c@[b].0) by {
                        let from_a = if a < pos { a } else { a - 1 };
                        let from_b = if b < pos { b } else { b - 1 };
                        if a != pos {
                            assert(c@[a] == before[from_a]);
                        }
                        if b != pos {
                            assert(c@[b] == before[from_b]);
                        }
                    }
                    assert forall|t: int| 0 <= t < c@.len() implies (#[trigger] c@[t]).0 < v
                        + 1 by {
                        if t < pos {
                            assert(c@[t] == before[t]);
                        } else if t > pos {
                            assert(c@[t] == before[t - 1]);
                        }
                    }
                    assert forall|t: int| 0 <= t < c@.len() implies {
                        &&& (#[trigger] c@[t]).0 < self.base.tsp@.len()
                        &&& !self.visited@[c@[t].0 as int]
                        &&& c@[t].1 == city_distance(self.base.tsp@, curr as int, c@[t].0 as int)
                    } by {
                        if t < pos {
                            assert(c@[t] == before[t]);
                        } else if t > pos {
                            assert(c@[t] == before[t - 1]);
                        }
                    }
                    assert forall|u: usize| u < v + 1 && !self.visited@[u as int] implies
                        listed_before(c@, c@.len() as int, u) by {
                        if u == v {
                            assert(c@[pos].0 == u);
                        } else {
                            let k = choose|k: int|
                                0 <= k < before.len() && (#[trigger] before[k]).0 == u;
                            if k < pos {
                                assert(c@[k] == before[k]);
                            } else {
                                assert(c@[k + 1] == before[k]);
                            }
                        }
                    }
                }
            }
            v += 1;
        }
        c
    }

    /// Walks the tours that begin with the path walked so far, but for
    /// branches that cannot beat the best tour so far, and keeps the
    /// cheapest tour found if it costs less than the best so far.
    fn dfs(&mut self, curr: usize, depth: usize, g: u128, start: usize)
        requires
            old(self).walking(start),
            old(self).incumbent_ok(start),
            old(self).ahead_of(old(self).path@),
            depth == old(self).path@.len(),
            curr == old(self).path@.last(),
            g == path_cost(old(self).base.tsp@, old(self).path@),
        ensures
            final(self).base.tsp == old(self).base.tsp,
            final(self).base.min_outgoing == old(self).base.min_outgoing,
            final(self).path@ == old(self).path@,
            final(self).visited@ == old(self).visited@,
            final(self).incumbent_ok(start),
            old(self).best_cost matches Some(best) ==> final(self).within(best as nat),
            final(self).kept_or_found(old(self), old(self).path@),
            forall|q: Seq<usize>|
                is_permutation(q, old(self).base.tsp@.len()) && #[trigger] extends(
                    q,
                    old(self).path@,
                ) ==> final(self).settles(q),
        decreases old(self).base.tsp@.len() - depth,
    {
        let n = self.base.tsp.len();
        let ghost points = self.base.tsp@;
        let ghost table = self.base.min_outgoing@;
        let ghost path0 = self.path@;
        let ghost marks0 = self.visited@;
        proof {
            use_type_invariant(&self.base);
            lemma_tracks_count(path0, n as nat);
            lemma_path_cost_bound(points, path0);
            lemma_unmarked_sum_bound(table, marks0);
        }
        let optimistic = self.optimistic();
        let hopeless = match self.best_cost {
            Some(best) => g + optimistic >= best,
            None => false,
        };
        if hopeless {
            proof {
                assert forall|q: Seq<usize>|
                    is_permutation(q, points.len()) && #[trigger] extends(q, path0) implies
                    self.settles(q) by {
                    lemma_lower_bound(points, table, q, path0);
                }
            }
            return;
        }
        if depth == n {
            let total = g + self.base.tsp.euclidean_distance(curr, start) as u128;
            let better = match self.best_cost {
                Some(best) => total < best,
                None => true,
            };
            if better {
                self.best_cost = Some(total);
                self.best_path = self.path.clone();
                assert(self.best_path@ =~= path0);
            }
            proof {
                assert(extends(path0, path0));
                assert forall|q: Seq<usize>|
                    is_permutation(q, points.len()) && #[trigger] extends(q, path0) implies
                    self.settles(q) by {
                    assert(q =~= path0);
                }
            }
            return;
        }
        let candidates = self.candidates(curr);
        proof {
            assert forall|q: Seq<usize>|
                is_permutation(q, points.len()) && #[trigger] extends(q, path0) implies listed_before(
                candidates@,
                candidates@.len() as int,
                q[depth as int],
            ) by {
                let v = q[depth as int];
                if marks0[v as int] {
                    assert(path0.contains(v));
                    let k = choose|k: int| 0 <= k < path0.len() && path0[k] == v;
                    assert(q[k] == q[depth as int]);
                }
            }
        }
        let mut t: usize = 0;
        while t < candidates.len()
            invariant
                t <= candidates@.len(),
                n == points.len(),
                depth == path0.len(),
                1 <= depth < n,
                curr == path0.last(),
                g == path_cost(points, path0),
                g <= (depth - 1) * u64::MAX,
                self.base.tsp@ == points,
                self.base.tsp == old(self).base.tsp,
                self.base.min_outgoing == old(self).base.min_outgoing,
                self.path@ == path0,
                self.visited@ == marks0,
                old(self).path@ == path0,
                old(self).visited@ == marks0,
                old(self).base.tsp@ == points,
                self.walking(start),
                self.incumbent_ok(start),
                self.candidates_open(candidates@, curr),
                sorted_nearest_first(candidates@),
                forall|q: Seq<usize>|
                    is_permutation(q, points.len()) && #[trigger] extends(q, path0) ==> listed_before(
                        candidates@,
                        candidates@.len() as int,
                        q[depth as int],
                    ),
                old(self).best_cost matches Some(best) ==> self.within(best as nat),
                self.kept_or_found(old(self), path0),
                forall|q: Seq<usize>|
                    is_permutation(q, points.len()) && #[trigger] extends(q, path0) && listed_before(
                        candidates@,
                        t as int,
                        q[depth as int],
                    ) ==> self.settles(q),
                self.best_cost is Some ==> forall|q: Seq<usize>|
                    is_permutation(q, points.len()) && #[trigger] extends(q, path0)
                        && !listed_before(candidates@, t as int, q[depth as int])
                        ==> walked_nearest_before(points, self.best_path@, q),
            decreases candidates@.len() - t,
        {
            let (v, w) = candidates[t];
            let ghost before = *self;
            assert(candidates@[t as int].0 == v && candidates@[t as int].1 == w);
            proof {
                lemma_path_cost_push(points, path0, v);
                assert(!listed_before(candidates@, t as int, v)) by {
                    if listed_before(candidates@, t as int, v) {
                        let k = choose|k: int|
                            0 <= k < t && k < candidates@.len() && (#[trigger] candidates@[k]).0
                                == v;
                        assert(candidates@[k].1 == candidates@[t as int].1);
                    }
                }
                assert forall|q: Seq<usize>|
                    self.best_cost is Some && is_permutation(q, points.len())
                        && #[trigger] extends(q, path0.push(v)) implies walked_nearest_before(
                    points,
                    self.best_path@,
                    q,
                ) by {
                    assert(extends(q, path0));
                    assert(q[depth as int] == path0.push(v)[depth as int]);
                }
            }
            let skip = match self.best_cost {
                Some(best) => g + w as u128 >= best,
                None => false,
            };
            if !skip {
                proof {
                    lemma_tracks_push(marks0, path0, n as nat, v);
                }
                self.visited.set(v, true);
                self.path.push(v);
                let ghost pushed = *self;
                self.dfs(v, depth + 1, g + w as u128, start);
                proof {
                    assert(self.kept_or_found(&pushed, path0.push(v)));
                    lemma_tracks_pop(self.visited@, self.path@, n as nat);
                    assert(self.path@.drop_last() =~= path0);
                    assert(self.visited@.update(v as int, false) =~= marks0);
                }
                self.path.pop();
                self.visited.set(v, false);
            }
            let ghost found = self.best_path@ != before.best_path@ || self.best_cost
                != before.best_cost;
            proof {
                if found {
                    assert(extends(self.best_path@, path0.push(v)));
                    assert(self.best_path@[depth as int] == path0.push(v)[depth as int]);
                    assert(extends(self.best_path@, path0));
                }
                assert forall|q: Seq<usize>|
                    is_permutation(q, points.len()) && #[trigger] extends(q, path0) && listed_before(
                        candidates@,
                        t + 1,
                        q[depth as int],
                    ) implies self.settles(q) by {
                    if listed_before(candidates@, t as int, q[depth as int]) {
                        assert(before.settles(q));
                    } else {
                        let k = choose|k: int|
                            0 <= k < t + 1 && k < candidates@.len() && (
                            #[trigger] candidates@[k]).0 == q[depth as int];
                        assert(k == t);
                        assert(extends(q, path0.push(v)));
                        if skip {
                            lemma_prefix_cost(points, q, path0.push(v));
                        }
                    }
                }
                assert forall|q: Seq<usize>|
                    self.best_cost is Some && is_permutation(q, points.len())
                        && #[trigger] extends(q, path0) && !listed_before(
                        candidates@,
                        t + 1,
                        q[depth as int],
                    ) implies walked_nearest_before(points, self.best_path@, q) by {
                    let u = q[depth as int];
                    if found {
                        let best = self.best_path@;
                        assert(listed_before(candidates@, candidates@.len() as int, u));
                        let s = choose|s: int|
                            0 <= s < candidates@.len() && (#[trigger] candidates@[s]).0 == u;
                        assert(s > t);
                        assert(best[depth - 1] == curr);
                        assert(tried_nearer_first(points, curr, v, u));
                        assert forall|i: int| 0 <= i < depth implies best[i] == q[i] by {
                            assert(best[i] == path0[i]);
                        }
                        assert(tried_nearer_first(
                            points,
                            best[depth - 1],
                            best[depth as int],
                            q[depth as int],
                        ));
                    } else {
                        assert(!listed_before(candidates@, t as int, u));
                    }
                }
            }
            t += 1;
        }
    }
}

} // verus!
