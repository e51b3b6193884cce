//! The lower bound that prunes a bounded search: for each city the least
//! distance to any other, and why no way of completing a path can cost less
//! than these add up to over the cities still to visit.

use crate::tour::{extends, is_permutation, path_cost, tour_cost};
use crate::tsp::{city_distance, Point};
use crate::visited::{
    count_unmarked, lemma_contains_push, lemma_count_unmarked, lemma_tracks_count, marks_of,
};
use vstd::prelude::*;

verus! {

/// `m` is the least distance from city `i` to any other city, and zero
/// where there is no other city.
pub open spec fn is_least_outgoing(points: Seq<Point>, i: int, m: nat) -> bool {
    if points.len() <= 1 {
        m == 0
    } else {
        &&& forall|j: int|
            0 <= j < points.len() && j != i ==> m <= #[trigger] city_distance(points, i, j)
        &&& exists|j: int|
            0 <= j < points.len() && j != i && m == #[trigger] city_distance(points, i, j)
    }
}

/// `bounds` holds for each city its least distance to any other city.
pub open spec fn is_bound_table(points: Seq<Point>, bounds: Seq<u64>) -> bool {
    &&& bounds.len() == points.len()
    &&& forall|i: int| 0 <= i < points.len() ==> is_least_outgoing(points, i, #[trigger] bounds[i] as nat)
}

/// The sum of the bounds of the cities that are not marked.
pub open spec fn unmarked_sum(bounds: Seq<u64>, marks: Seq<bool>) -> nat
    decreases marks.len(),
{
    if marks.len() == 0 {
        0
    } else {
        unmarked_sum(bounds, marks.drop_last()) + if marks.last() {
            0nat
        } else {
            bounds[marks.len() - 1] as nat
        }
    }
}

/// The position after `d` on a closed tour of `n` cities.
pub open spec fn next_position(n: nat, d: int) -> int {
    if d + 1 == n {
        0
    } else {
        d + 1
    }
}

/// The cost of the steps of the closed tour `q` that leave the positions
/// from `d` on, the way back to the first city among them.
pub open spec fn closing_cost(points: Seq<Point>, q: Seq<usize>, d: int) -> nat
    decreases q.len() - d,
{
    if d < 0 || d >= q.len() {
        0
    } else {
        city_distance(points, q[d] as int, q[next_position(q.len(), d)] as int) + closing_cost(
            points,
            q,
            d + 1,
        )
    }
}

/// A closed tour costs what its first `d` cities cost as a walk and what
/// the steps from the last of them on cost.
pub proof fn lemma_tour_cost_split(points: Seq<Point>, q: Seq<usize>, d: int)
    requires
        1 <= d <= q.len(),
    ensures
        tour_cost(points, q) == path_cost(points, q.take(d)) + closing_cost(points, q, d - 1),
    decreases q.len() - d,
{
    if d == q.len() {
        assert(q.take(d) =~= q);
        assert(closing_cost(points, q, d) == 0);
    } else {
        lemma_tour_cost_split(points, q, d + 1);
        assert(q.take(d + 1).drop_last() =~= q.take(d));
    }
}

/// Marking a city takes its bound out of the sum.
pub proof fn lemma_unmarked_sum_mark(bounds: Seq<u64>, marks: Seq<bool>, v: int)
    requires
        0 <= v < marks.len(),
        !marks[v],
    ensures
        unmarked_sum(bounds, marks.update(v, true)) + bounds[v] == unmarked_sum(bounds, marks),
    decreases marks.len(),
{
    let updated = marks.update(v, true);
    if v == marks.len() - 1 {
        assert(updated.drop_last() =~= marks.drop_last());
    } else {
        lemma_unmarked_sum_mark(bounds, marks.drop_last(), v);
        assert(updated.drop_last() =~= marks.drop_last().update(v, true));
    }
}

/// The sum is at most the largest distance for each unmarked city.
pub proof fn lemma_unmarked_sum_bound(bounds: Seq<u64>, marks: Seq<bool>)
    ensures
        unmarked_sum(bounds, marks) <= count_unmarked(marks) * u64::MAX,
    decreases marks.len(),
{
    if marks.len() > 0 {
        lemma_unmarked_sum_bound(bounds, marks.drop_last());
    }
}

/// With every city marked the sum is zero.
pub proof fn lemma_unmarked_sum_none(bounds: Seq<u64>, marks: Seq<bool>)
    requires
        forall|v: int| 0 <= v < marks.len() ==> marks[v],
    ensures
        unmarked_sum(bounds, marks) == 0,
    decreases marks.len(),
{
    if marks.len() > 0 {
        lemma_unmarked_sum_none(bounds, marks.drop_last());
    }
}

/// On a tour, the steps that leave the cities from position `d` on cost at
/// least the bounds of these cities together.
pub proof fn lemma_closing_cost_bound(
    points: Seq<Point>,
    bounds: Seq<u64>,
    q: Seq<usize>,
    d: int,
)
    requires
        points.len() <= usize::MAX,
        is_bound_table(points, bounds),
        is_permutation(q, points.len()),
        0 <= d <= q.len(),
    ensures
        closing_cost(points, q, d) >= unmarked_sum(bounds, marks_of(q.take(d), points.len())),
    decreases q.len() - d,
{
    let n = points.len();
    let marks = marks_of(q.take(d), n);
    if d == q.len() {
        assert(q.take(d) =~= q);
        lemma_tracks_count(q, n);
        lemma_count_unmarked(marks);
        lemma_unmarked_sum_none(bounds, marks);
    } else {
        lemma_closing_cost_bound(points, bounds, q, d + 1);
        let v = q[d];
        let after = marks_of(q.take(d + 1), n);
        assert(q.take(d + 1) =~= q.take(d).push(v));
        assert(!q.take(d).contains(v)) by {
            if q.take(d).contains(v) {
                let k = choose|k: int| 0 <= k < q.take(d).len() && q.take(d)[k] == v;
                assert(q[k] == q[d]);
            }
        }
        assert(after =~= marks.update(v as int, true)) by {
            assert forall|c: int| 0 <= c < n implies after[c] == marks.update(v as int, true)[c] by {
                lemma_contains_push(q.take(d), v, c as usize);
            }
        }
        lemma_unmarked_sum_mark(bounds, marks, v as int);
        let to = q[next_position(n, d)];
        assert(is_least_outgoing(points, v as int, bounds[v as int] as nat));
        if n > 1 {
            assert(to != v);
            assert(bounds[v as int] <= city_distance(points, v as int, to as int));
        }
    }
}

/// A tour that begins with `path` costs at least what `path` costs as a
/// walk and the bounds of the cities not on it.
pub proof fn lemma_lower_bound(
    points: Seq<Point>,
    bounds: Seq<u64>,
    q: Seq<usize>,
    path: Seq<usize>,
)
    requires
        points.len() <= usize::MAX,
        is_bound_table(points, bounds),
        is_permutation(q, points.len()),
        extends(q, path),
        path.len() >= 1,
    ensures
        tour_cost(points, q) >= path_cost(points, path) + unmarked_sum(
            bounds,
            marks_of(path, points.len()),
        ),
{
    let d = path.len() as int;
    assert(q.take(d) =~= path);
    lemma_tour_cost_split(points, q, d);
    lemma_closing_cost_bound(points, bounds, q, d);
    assert(closing_cost(points, q, d - 1) >= closing_cost(points, q, d));
}

/// A tour costs at least what any of its beginnings costs as a walk.
pub proof fn lemma_prefix_cost(points: Seq<Point>, q: Seq<usize>, path: Seq<usize>)
    requires
        extends(q, path),
    ensures
        tour_cost(points, q) >= path_cost(points, path),
{
    let d = path.len() as int;
    if d >= 1 {
        assert(q.take(d) =~= path);
        lemma_tour_cost_split(points, q, d);
    }
}

} // verus!
