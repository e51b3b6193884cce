//! What it means for a search to have found a cheapest tour, and why the
//! city at which an exhaustive search begins does not matter.

use crate::tour::{
    identity_tour, is_permutation, lemma_identity_permutation, lemma_tour_from, path_cost,
    tour_cost, Tour,
};
use crate::tsp::{city_distance, lemma_distance_symmetric, lemma_distance_to_self, Point};
use crate::visited::lemma_permutation_covers;
use vstd::prelude::*;

verus! {

/// No tour of `points` that begins at `start` costs less than `cost`.
pub open spec fn is_least_from(points: Seq<Point>, start: usize, cost: nat) -> bool {
    forall|q: Seq<usize>|
        is_permutation(q, points.len()) && q[0] == start ==> cost <= #[trigger] tour_cost(
            points,
            q,
        )
}

/// An exhaustive search that tries the cities in the order of their
/// numbers walks the tour `a` before the tour `b`: where the two first
/// differ, `a` visits the city of the lower number.
pub open spec fn walked_before(a: Seq<usize>, b: Seq<usize>) -> bool {
    exists|k: int|
        0 <= k < a.len() && k < b.len() && #[trigger] a[k] < b[k] && forall|t: int|
            0 <= t < k ==> a[t] == b[t]
}

/// `p` is a tour of `points` from `start`; no tour from `start` costs less,
/// and of those that cost as much, `p` is the one walked first.
pub open spec fn is_first_cheapest_from(points: Seq<Point>, start: usize, p: Seq<usize>) -> bool {
    &&& is_permutation(p, points.len())
    &&& p[0] == start
    &&& forall|q: Seq<usize>|
        is_permutation(q, points.len()) && q[0] == start ==> {
            &&& tour_cost(points, p) <= #[trigger] tour_cost(points, q)
            &&& tour_cost(points, q) == tour_cost(points, p) ==> q == p || walked_before(p, q)
        }
}

/// A search that tries the nearest city first, and the city of the lower
/// number among equally near ones, tries city `a` before city `b` when it
/// stands at city `from`.
pub open spec fn tried_nearer_first(points: Seq<Point>, from: usize, a: usize, b: usize) -> bool {
    let to_a = city_distance(points, from as int, a as int);
    let to_b = city_distance(points, from as int, b as int);
    to_a < to_b || (to_a == to_b && a < b)
}

/// A search that tries the nearest city first walks the tour `a` before the
/// tour `b`: where the two first differ, `a` visits the city that is tried
/// first from the city before.
pub open spec fn walked_nearest_before(points: Seq<Point>, a: Seq<usize>, b: Seq<usize>) -> bool {
    exists|k: int|
        1 <= k < a.len() && k < b.len() && tried_nearer_first(
            points,
            a[k - 1],
            #[trigger] a[k],
            b[k],
        ) && forall|t: int| 0 <= t < k ==> a[t] == b[t]
}

/// `p` is a tour of `points` from `start`; no tour from `start` costs less,
/// and of those that cost as much, `p` is the one that a search walks first
/// which tries the nearest city first.
pub open spec fn is_nearest_cheapest_from(points: Seq<Point>, start: usize, p: Seq<usize>) -> bool {
    &&& is_permutation(p, points.len())
    &&& p[0] == start
    &&& forall|q: Seq<usize>|
        is_permutation(q, points.len()) && q[0] == start ==> {
            &&& tour_cost(points, p) <= #[trigger] tour_cost(points, q)
            &&& tour_cost(points, q) == tour_cost(points, p) ==> q == p || walked_nearest_before(
                points,
                p,
                q,
            )
        }
}

/// Some tour begins at any given city.
pub proof fn lemma_tour_exists(points: Seq<Point>, start: usize) -> (q: Seq<usize>)
    requires
        start < points.len() <= usize::MAX,
    ensures
        is_permutation(q, points.len()),
        q[0] == start,
{
    lemma_identity_permutation(points.len());
    lemma_tour_from(points, identity_tour(points.len()), points.len(), start as int)
}

/// A cost that no tour from one city undercuts is undercut by no tour at
/// all: every tour can be begun at that city without changing its cost.
pub proof fn lemma_least_from_any_start(points: Seq<Point>, start: usize, cost: nat)
    requires
        start < points.len() <= usize::MAX,
        is_least_from(points, start, cost),
    ensures
        forall|p: Seq<usize>|
            is_permutation(p, points.len()) ==> cost <= #[trigger] tour_cost(points, p),
{
    assert forall|p: Seq<usize>| is_permutation(p, points.len()) implies cost
        <= #[trigger] tour_cost(points, p) by {
        lemma_permutation_covers(p, points.len(), start);
        let at = choose|at: int| 0 <= at < p.len() && p[at] == start;
        let q = lemma_tour_from(points, p, points.len(), at);
        assert(cost <= tour_cost(points, q));
    }
}

/// Two cheapest tours of the same points cost the same, whichever search
/// found them and wherever it began.
pub proof fn lemma_optimal_costs_agree(points: Seq<Point>, a: Tour, b: Tour)
    requires
        a.is_optimal_for(points),
        b.is_optimal_for(points),
    ensures
        a.cost == b.cost,
{
    assert(a.cost <= tour_cost(points, b.path@));
    assert(b.cost <= tour_cost(points, a.path@));
}

/// An instance of one city has one tour, and it costs nothing.
pub proof fn lemma_single_city(points: Seq<Point>, p: Seq<usize>)
    requires
        points.len() == 1,
        is_permutation(p, 1),
    ensures
        p == seq![0usize],
        tour_cost(points, p) == 0,
{
    assert(p[0] < 1);
    assert(p =~= seq![0usize]);
    lemma_distance_to_self(points[0]);
}

/// On an instance of two cities every tour costs the way there and back.
pub proof fn lemma_two_cities(points: Seq<Point>, p: Seq<usize>)
    requires
        points.len() == 2,
        is_permutation(p, 2),
    ensures
        tour_cost(points, p) == 2 * city_distance(points, 0, 1),
{
    assert(p[0] < 2 && p[1] < 2 && p[0] != p[1]);
    lemma_distance_symmetric(points[0], points[1]);
    assert(path_cost(points, p) == path_cost(points, p.drop_last()) + city_distance(
        points,
        p[0] as int,
        p[1] as int,
    ));
}

} // verus!
