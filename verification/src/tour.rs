//! Tours: orderings of the cities read as closed cycles, their cost, and the
//! reversal of a stretch of a tour.

use crate::tsp::{city_distance, lemma_distance_bound, Point, TSP};
use vstd::prelude::*;

verus! {

/// Every entry of `p` is a city of an instance with `n` cities.
pub open spec fn in_range(p: Seq<usize>, n: nat) -> bool {
    forall|k: int| 0 <= k < p.len() ==> (#[trigger] p[k]) < n
}

/// `p` visits cities of an instance with `n` cities, none of them twice.
pub open spec fn is_partial_tour(p: Seq<usize>, n: nat) -> bool {
    in_range(p, n) && p.no_duplicates()
}

/// `p` visits each of the `n` cities exactly once.
pub open spec fn is_permutation(p: Seq<usize>, n: nat) -> bool {
    p.len() == n && is_partial_tour(p, n)
}

/// `q` begins with `p`.
pub open spec fn extends(q: Seq<usize>, p: Seq<usize>) -> bool {
    p.len() <= q.len() && forall|k: int| 0 <= k < p.len() ==> q[k] == p[k]
}

/// The cost of walking along `p` from its first city to its last.
pub open spec fn path_cost(points: Seq<Point>, p: Seq<usize>) -> nat
    decreases p.len(),
{
    if p.len() <= 1 {
        0
    } else {
        path_cost(points, p.drop_last()) + city_distance(
            points,
            p[p.len() - 2] as int,
            p[p.len() - 1] as int,
        )
    }
}

/// The cost of the closed cycle `p`: the walk along `p` and the way back
/// from its last city to its first.
pub open spec fn tour_cost(points: Seq<Point>, p: Seq<usize>) -> nat {
    if p.len() == 0 {
        0
    } else {
        path_cost(points, p) + city_distance(points, p.last() as int, p[0] as int)
    }
}

/// The tour `p` with the stretch from position `i + 1` to position `j`
/// reversed.
pub open spec fn two_opt(p: Seq<usize>, i: int, j: int) -> Seq<usize> {
    Seq::new(
        p.len(),
        |k: int|
            if i < k <= j {
                p[i + 1 + j - k]
            } else {
                p[k]
            },
    )
}

/// The positions `i` and `j` name a reversal that changes a tour of `n`
/// cities: at least two cities lie between the cut points, and the stretch
/// is not the whole tour but its first city.
pub open spec fn is_move(n: nat, i: int, j: int) -> bool {
    0 <= i && i + 2 <= j < n && !(i == 0 && j == n - 1)
}

/// The cost of the tour `p` after the reversal that `i` and `j` name.
pub open spec fn move_cost(points: Seq<Point>, p: Seq<usize>, i: int, j: int) -> nat {
    tour_cost(points, two_opt(p, i, j))
}

/// No reversal makes the tour `p` cheaper.
pub open spec fn is_local_optimum(points: Seq<Point>, p: Seq<usize>) -> bool {
    forall|i: int, j: int|
        is_move(p.len(), i, j) ==> tour_cost(points, p) <= #[trigger] move_cost(points, p, i, j)
}

/// The tour that visits the cities in the order of their numbers.
pub open spec fn identity_tour(n: nat) -> Seq<usize> {
    Seq::new(n, |k: int| k as usize)
}

/// The tour `p` begun one city later.
pub open spec fn rotate(p: Seq<usize>) -> Seq<usize> {
    p.subrange(1, p.len() as int).push(p[0])
}

/// Appending a city to a walk adds the distance from its last city.
pub proof fn lemma_path_cost_push(points: Seq<Point>, p: Seq<usize>, v: usize)
    requires
        p.len() >= 1,
    ensures
        path_cost(points, p.push(v)) == path_cost(points, p) + city_distance(
            points,
            p.last() as int,
            v as int,
        ),
{
    assert(p.push(v).drop_last() =~= p);
}

/// A walk costs at most the largest distance for each of its steps.
pub proof fn lemma_path_cost_bound(points: Seq<Point>, p: Seq<usize>)
    ensures
        path_cost(points, p) <= p.len() * u64::MAX,
        p.len() >= 1 ==> path_cost(points, p) <= (p.len() - 1) * u64::MAX,
        tour_cost(points, p) <= p.len() * u64::MAX,
    decreases p.len(),
{
    if p.len() > 1 {
        lemma_path_cost_bound(points, p.drop_last());
        lemma_distance_bound(points[p[p.len() - 2] as int], points[p[p.len() - 1] as int]);
    }
    if p.len() >= 1 {
        lemma_distance_bound(points[p.last() as int], points[p[0] as int]);
    }
}

/// The cost of two walks joined is the cost of each and of the step between.
pub proof fn lemma_path_cost_concat(points: Seq<Point>, a: Seq<usize>, b: Seq<usize>)
    requires
        a.len() >= 1,
        b.len() >= 1,
    ensures
        path_cost(points, a + b) == path_cost(points, a) + city_distance(
            points,
            a.last() as int,
            b[0] as int,
        ) + path_cost(points, b),
    decreases b.len(),
{
    if b.len() == 1 {
        assert(a + b =~= a.push(b[0]));
        lemma_path_cost_push(points, a, b[0]);
    } else {
        lemma_path_cost_concat(points, a, b.drop_last());
        assert((a + b).drop_last() =~= a + b.drop_last());
    }
}

/// Beginning a tour one city later changes neither its cost nor the cities
/// it visits.
pub proof fn lemma_rotate(points: Seq<Point>, p: Seq<usize>, n: nat)
    requires
        is_permutation(p, n),
        n >= 1,
    ensures
        is_permutation(rotate(p), n),
        tour_cost(points, rotate(p)) == tour_cost(points, p),
        forall|k: int| 0 <= k < n - 1 ==> rotate(p)[k] == p[k + 1],
        rotate(p)[n - 1] == p[0],
{
    let q = rotate(p);
    assert forall|a: int, b: int| 0 <= a < q.len() && 0 <= b < q.len() && a != b implies q[a]
        != q[b] by {
        let fa = if a == n - 1 { 0 } else { a + 1 };
        let fb = if b == n - 1 { 0 } else { b + 1 };
        assert(q[a] == p[fa] && q[b] == p[fb]);
    }
    assert forall|k: int| 0 <= k < q.len() implies (#[trigger] q[k]) < n by {
        let fk = if k == n - 1 { 0 } else { k + 1 };
        assert(q[k] == p[fk]);
    }
    if n >= 2 {
        let head = p.subrange(0, 1);
        let tail = p.subrange(1, n as int);
        assert(p =~= head + tail);
        assert(q =~= tail + head);
        lemma_path_cost_concat(points, head, tail);
        lemma_path_cost_concat(points, tail, head);
        assert(path_cost(points, head) == 0);
    } else {
        assert(q =~= p);
    }
}

/// Every tour can be begun at any city without changing its cost.
pub proof fn lemma_tour_from(points: Seq<Point>, p: Seq<usize>, n: nat, at: int) -> (q: Seq<usize>)
    requires
        is_permutation(p, n),
        0 <= at < n,
    ensures
        is_permutation(q, n),
        q[0] == p[at],
        tour_cost(points, q) == tour_cost(points, p),
    decreases at,
{
    if at == 0 {
        p
    } else {
        lemma_rotate(points, p, n);
        lemma_tour_from(points, rotate(p), n, at - 1)
    }
}

/// Reversing a stretch of a tour leaves a tour of the same cities.
pub proof fn lemma_two_opt_permutation(p: Seq<usize>, n: nat, i: int, j: int)
    requires
        is_permutation(p, n),
        0 <= i < j < n,
    ensures
        is_permutation(two_opt(p, i, j), n),
{
    let q = two_opt(p, i, j);
    assert forall|a: int, b: int| 0 <= a < q.len() && 0 <= b < q.len() && a != b implies q[a]
        != q[b] by {
        let fa = if i < a <= j { i + 1 + j - a } else { a };
        let fb = if i < b <= j { i + 1 + j - b } else { b };
        assert(q[a] == p[fa] && q[b] == p[fb]);
    }
    assert forall|k: int| 0 <= k < q.len() implies (#[trigger] q[k]) < n by {
        let fk = if i < k <= j { i + 1 + j - k } else { k };
        assert(q[k] == p[fk]);
    }
}

/// The tour in the order of the city numbers visits every city once.
pub proof fn lemma_identity_permutation(n: nat)
    requires
        n <= usize::MAX,
    ensures
        is_permutation(identity_tour(n), n),
{
}

/// A reordering of a tour is a tour of the same cities.
pub proof fn lemma_reordered_permutation(p: Seq<usize>, q: Seq<usize>, n: nat)
    requires
        is_permutation(p, n),
        q.to_multiset() == p.to_multiset(),
    ensures
        is_permutation(q, n),
{
    broadcast use vstd::seq_lib::to_multiset_len, vstd::seq_lib::to_multiset_contains;

    assert(q.len() == q.to_multiset().len());
    assert(p.len() == p.to_multiset().len());
    assert forall|k: int| 0 <= k < q.len() implies (#[trigger] q[k]) < n by {
        assert(q.contains(q[k]));
        assert(q.to_multiset().count(q[k]) > 0);
        assert(p.to_multiset().count(q[k]) > 0);
        assert(p.contains(q[k]));
    }
    p.lemma_multiset_has_no_duplicates();
    q.lemma_multiset_has_no_duplicates_conv();
}

/// Why a search found no tour.
#[derive(Clone, Copy, Debug, PartialEq, Eq, Structural)]
pub enum SearchError {
    /// The instance has no city.
    EmptyInstance,
    /// The search was given no trial to run and holds no tour from before.
    NoTrial,
}

/// A closed tour and its cost.
#[derive(Debug)]
pub struct Tour {
    pub path: Vec<usize>,
    pub cost: u128,
}

impl Tour {
    /// The tour visits each city of `points` once, and `cost` is what the
    /// closed cycle costs.
    pub open spec fn is_tour_of(&self, points: Seq<Point>) -> bool {
        is_permutation(self.path@, points.len()) && self.cost == tour_cost(points, self.path@)
    }

    /// The tour is one of `points`, and no tour of them costs less.
    pub open spec fn is_optimal_for(&self, points: Seq<Point>) -> bool {
        self.is_tour_of(points) && forall|q: Seq<usize>|
            is_permutation(q, points.len()) ==> self.cost <= #[trigger] tour_cost(points, q)
    }
}

/// The cost of the closed cycle `path`, zero for an empty one.
pub fn tour_len(tsp: &TSP, path: &Vec<usize>) -> (cost: u128)
    requires
        in_range(path@, tsp@.len()),
    ensures
        cost == tour_cost(tsp@, path@),
{
    let n = path.len();
    if n == 0 {
        return 0;
    }
    let mut sum: u128 = 0;
    let mut k: usize = 1;
    assert(path_cost(tsp@, path@.take(1)) == 0);
    while k < n
        invariant
            1 <= k <= n,
            n == path@.len(),
            in_range(path@, tsp@.len()),
            sum == path_cost(tsp@, path@.take(k as int)),
            sum <= (k - 1) * u64::MAX,
        decreases n - k,
    {
        let d = tsp.euclidean_distance(path[k - 1], path[k]);
        proof {
            assert(path@.take(k + 1).drop_last() =~= path@.take(k as int));
        }
        sum = sum + d as u128;
        k += 1;
    }
    proof {
        assert(path@.take(n as int) =~= path@);
    }
    let d = tsp.euclidean_distance(path[n - 1], path[0]);
    sum + d as u128
}

/// Reverses the stretch of `path` from position `i + 1` to position `j`.
pub fn reverse_segment(path: &mut Vec<usize>, i: usize, j: usize)
    requires
        i < j < old(path)@.len(),
    ensures
        final(path)@ == two_opt(old(path)@, i as int, j as int),
{
    let mut lo: usize = i + 1;
    let mut hi: usize = j;
    while lo < hi
        invariant
            i + 1 <= lo,
            hi <= j,
            lo + hi == i + 1 + j,
            lo <= hi + 1,
            path@.len() == old(path)@.len(),
            j < path@.len(),
            forall|k: int|
                0 <= k < path@.len() && (k < lo || k > hi) ==> path@[k] == two_opt(
                    old(path)@,
                    i as int,
                    j as int,
                )[k],
            forall|k: int| lo <= k <= hi ==> path@[k] == old(path)@[k],
        decreases hi + 1 - lo,
    {
        let a = path[lo];
        let b = path[hi];
        path.set(lo, b);
        path.set(hi, a);
        lo += 1;
        hi -= 1;
    }
    assert(path@ =~= two_opt(old(path)@, i as int, j as int));
}

/// The cost of the tour `path` after the reversal of its stretch from
/// position `i + 1` to position `j`.
pub fn neighbor_cost(tsp: &TSP, path: &Vec<usize>, i: usize, j: usize) -> (cost: u128)
    requires
        is_permutation(path@, tsp@.len()),
        i < j < path@.len(),
    ensures
        cost == move_cost(tsp@, path@, i as int, j as int),
{
    let mut cand = path.clone();
    assert(cand@ =~= path@);
    reverse_segment(&mut cand, i, j);
    proof {
        lemma_two_opt_permutation(path@, tsp@.len(), i as int, j as int);
    }
    tour_len(tsp, &cand)
}

/// The tour that visits the `n` cities in the order of their numbers.
pub fn identity_path(n: usize) -> (path: Vec<usize>)
    ensures
        path@ == identity_tour(n as nat),
        is_permutation(path@, n as nat),
{
    let mut path: Vec<usize> = Vec::new();
    let mut k: usize = 0;
    while k < n
        invariant
            k <= n,
            path@.len() == k,
            forall|t: int| 0 <= t < k ==> path@[t] == t,
        decreases n - k,
    {
        path.push(k);
        k += 1;
    }
    assert(path@ =~= identity_tour(n as nat));
    path
}

} // verus!
