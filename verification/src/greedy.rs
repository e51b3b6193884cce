//! Nearest-neighbour construction: from a first city the tour always moves
//! on to the nearest city not yet visited.

use crate::random::random_index;
use crate::tour::{in_range, is_permutation, tour_cost, tour_len, SearchError, Tour};
use crate::tsp::{city_distance, Point, TSP};
use crate::visited::{lemma_some_unmarked, lemma_tracks_count, lemma_tracks_push, tracks, unmarked};
use vstd::prelude::*;

verus! {

/// Seen from city `from`, city `a` is nearer than city `c`, or as near and
/// not of a higher number.
pub open spec fn nearer_or_first(points: Seq<Point>, from: usize, a: usize, c: usize) -> bool {
    let to_a = city_distance(points, from as int, a as int);
    let to_c = city_distance(points, from as int, c as int);
    to_a < to_c || (to_a == to_c && a <= c)
}

/// The step of `p` from position `k` leads to the nearest city that `p` has
/// not visited up to there, the one of the lowest number among several.
pub open spec fn nearest_next(points: Seq<Point>, p: Seq<usize>, k: int) -> bool {
    forall|c: usize|
        c < points.len() && !(#[trigger] p.take(k + 1).contains(c)) ==> nearer_or_first(
            points,
            p[k],
            p[k + 1],
            c,
        )
}

/// `p` is the nearest-neighbour tour of `points` from its first city.
pub open spec fn is_greedy_tour(points: Seq<Point>, p: Seq<usize>) -> bool {
    &&& is_permutation(p, points.len())
    &&& forall|k: int| 0 <= k < p.len() - 1 ==> #[trigger] nearest_next(points, p, k)
}

/// Nearest-neighbour construction of one tour.
pub struct Greedy<'a> {
    tsp: &'a TSP,
    path: Vec<usize>,
}

impl<'a> Greedy<'a> {
    /// The points of the instance that is searched.
    pub closed spec fn instance(&self) -> Seq<Point> {
        self.tsp@
    }

    /// The tour built, empty before a search.
    pub closed spec fn walked(&self) -> Seq<usize> {
        self.path@
    }

    /// A construction on `tsp` that has not yet run and holds no tour.
    pub fn new(tsp: &'a TSP) -> (solver: Self)
        ensures
            solver.instance() == tsp@,
            solver.walked() == Seq::<usize>::empty(),
    {
        Greedy { tsp, path: Vec::new() }
    }

    /// Builds the nearest-neighbour tour from a city drawn at random; fails
    /// on an instance without cities.
    pub fn search(&mut self) -> (found: Result<Tour, SearchError>)
        ensures
            final(self).instance() == old(self).instance(),
            old(self).instance().len() == 0 <==> found is Err,
            found is Err ==> found == Err::<Tour, SearchError>(SearchError::EmptyInstance),
            found matches Ok(tour) ==> tour.is_tour_of(old(self).instance()) && is_greedy_tour(
                old(self).instance(),
                tour.path@,
            ),
    {
        let n = self.tsp.len();
        if n == 0 {
            return Err(SearchError::EmptyInstance);
        }
        let start = random_index(0, n);
        Ok(self.search_from(start))
    }

    /// Builds the nearest-neighbour tour from `start`.
    pub fn search_from(&mut self, start: usize) -> (tour: Tour)
        requires
            start < old(self).instance().len(),
        ensures
            final(self).instance() == old(self).instance(),
            tour.is_tour_of(old(self).instance()),
            is_greedy_tour(old(self).instance(), tour.path@),
            tour.path@[0] == start,
            final(self).walked() == tour.path@,
    {
        let n = self.tsp.len();
        let ghost points = self.tsp@;
        self.path = Vec::new();
        let mut visited = unmarked(n);
        proof {
            lemma_tracks_push(visited@, self.path@, n as nat, start);
        }
        self.path.push(start);
        visited.set(start, true);
        let mut current = start;
        while self.path.len() < n
            invariant
                n == points.len(),
                self.tsp@ == points,
                self.tsp == old(self).tsp,
                tracks(visited@, self.path@, n as nat),
                self.path@.len() >= 1,
                self.path@[0] == start,
                current == self.path@.last(),
                forall|k: int|
                    0 <= k < self.path@.len() - 1 ==> #[trigger] nearest_next(points, self.path@, k),
            decreases n - self.path@.len(),
        {
            let ghost walked = self.path@;
            let mut min_next: Option<usize> = None;
            let mut min_distance: u64 = 0;
            let mut candidate: usize = 0;
            while candidate < n
                invariant
                    candidate <= n,
                    n == points.len(),
                    self.tsp@ == points,
                    visited@.len() == n,
                    current < n,
                    min_next is None ==> forall|c: int| 0 <= c < candidate ==> visited@[c],
                    min_next matches Some(m) ==> {
                        &&& m < candidate
                        &&& !visited@[m as int]
                        &&& min_distance == city_distance(points, current as int, m as int)
                        &&& forall|c: usize|
                            c < candidate && !visited@[c as int] ==> #[trigger] nearer_or_first(
                                points,
                                current,
                                m,
                                c,
                            )
                    },
                decreases n - candidate,
            {
                if !visited[candidate] {
                    let d = self.tsp.euclidean_distance(current, candidate);
                    let nearer = match min_next {
                        Some(_) => d < min_distance,
                        None => true,
                    };
                    if nearer {
                        proof {
                            assert forall|c: usize|
                                c < candidate + 1 && !visited@[c as int] implies #[trigger] nearer_or_first(
                                points,
                                current,
                                candidate,
                                c,
                            ) by {
                                if c < candidate {
                                    assert(nearer_or_first(points, current, min_next.unwrap(), c));
                                }
                            }
                        }
                        min_distance = d;
                        min_next = Some(candidate);
                    } else {
                        assert(nearer_or_first(points, current, min_next.unwrap(), candidate));
                    }
                }
                candidate += 1;
            }
            proof {
                let open = lemma_some_unmarked(visited@, walked, n as nat);
                lemma_tracks_count(walked, n as nat);
            }
            let next = min_next.unwrap();
            proof {
                lemma_tracks_push(visited@, walked, n as nat, next);
            }
            self.path.push(next);
            visited.set(next, true);
            current = next;
            proof {
                let grown = self.path@;
                assert forall|k: int| 0 <= k < grown.len() - 1 implies #[trigger] nearest_next(
                    points,
                    grown,
                    k,
                ) by {
                    if k < walked.len() - 1 {
                        assert(nearest_next(points, walked, k));
                        assert(grown.take(k + 1) =~= walked.take(k + 1));
                    } else {
                        assert(grown.take(k + 1) =~= walked);
                    }
                }
            }
        }
        proof {
            lemma_tracks_count(self.path@, n as nat);
        }
        let cost = self.get_tour_len();
        let path = self.path.clone();
        assert(path@ =~= self.path@);
        Tour { path, cost }
    }

    /// The cost of the tour built, as a closed cycle.
    fn get_tour_len(&self) -> (cost: u128)
        requires
            in_range(self.path@, self.tsp@.len()),
        ensures
            cost == tour_cost(self.tsp@, self.path@),
    {
        tour_len(self.tsp, &self.path)
    }
}

} // verus!
