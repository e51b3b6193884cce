//! Visited marks: one flag per city, kept in step with the path that a
//! search has walked so far.

use crate::tour::{is_partial_tour, is_permutation};
use vstd::prelude::*;

verus! {

/// The number of cities that are not marked.
pub open spec fn count_unmarked(marks: Seq<bool>) -> nat
    decreases marks.len(),
{
    if marks.len() == 0 {
        0
    } else {
        count_unmarked(marks.drop_last()) + if marks.last() {
            0nat
        } else {
            1nat
        }
    }
}

/// The marks of an instance with `n` cities in which exactly the cities of
/// `path` are marked.
pub open spec fn marks_of(path: Seq<usize>, n: nat) -> Seq<bool> {
    Seq::new(n, |v: int| path.contains(v as usize))
}

/// `path` visits no city twice, and `marks` holds exactly its cities.
pub open spec fn tracks(marks: Seq<bool>, path: Seq<usize>, n: nat) -> bool {
    &&& n <= usize::MAX
    &&& is_partial_tour(path, n)
    &&& marks == marks_of(path, n)
}

/// Changing one mark changes the number of unmarked cities by at most one.
pub proof fn lemma_count_update(marks: Seq<bool>, v: int, mark: bool)
    requires
        0 <= v < marks.len(),
    ensures
        count_unmarked(marks.update(v, mark)) + (if marks[v] { 0nat } else { 1nat })
            == count_unmarked(marks) + (if mark { 0nat } else { 1nat }),
    decreases marks.len(),
{
    let updated = marks.update(v, mark);
    if v == marks.len() - 1 {
        assert(updated.drop_last() =~= marks.drop_last());
    } else {
        lemma_count_update(marks.drop_last(), v, mark);
        assert(updated.drop_last() =~= marks.drop_last().update(v, mark));
    }
}

/// No more cities are unmarked than there are; all are marked exactly when
/// the count is zero, and none exactly when it is the number of cities.
pub proof fn lemma_count_unmarked(marks: Seq<bool>)
    ensures
        count_unmarked(marks) <= marks.len(),
        count_unmarked(marks) == 0 <==> forall|v: int| 0 <= v < marks.len() ==> marks[v],
        count_unmarked(marks) == marks.len() <==> forall|v: int|
            0 <= v < marks.len() ==> !marks[v],
    decreases marks.len(),
{
    if marks.len() > 0 {
        let front = marks.drop_last();
        lemma_count_unmarked(front);
        assert(forall|v: int| 0 <= v < front.len() ==> front[v] == marks[v]);
        if count_unmarked(marks) == 0 {
            assert forall|v: int| 0 <= v < marks.len() implies marks[v] by {
                if v < front.len() {
                    assert(front[v]);
                }
            }
        }
        if count_unmarked(marks) == marks.len() {
            assert forall|v: int| 0 <= v < marks.len() implies !marks[v] by {
                if v < front.len() {
                    assert(!front[v]);
                }
            }
        }
    }
}

/// A path that visits no city twice leaves as many cities unmarked as it
/// has yet to visit.
pub proof fn lemma_tracks_count(path: Seq<usize>, n: nat)
    requires
        n <= usize::MAX,
        is_partial_tour(path, n),
    ensures
        count_unmarked(marks_of(path, n)) + path.len() == n,
    decreases path.len(),
{
    let marks = marks_of(path, n);
    if path.len() == 0 {
        lemma_count_unmarked(marks);
        assert forall|v: int| 0 <= v < marks.len() implies !marks[v] by {
            assert(!path.contains(v as usize));
        }
    } else {
        let front = path.drop_last();
        let v = path.last();
        lemma_tracks_count(front, n);
        let before = marks_of(front, n);
        assert(!front.contains(v));
        assert(marks =~= before.update(v as int, true)) by {
            assert forall|c: int| 0 <= c < n implies marks[c] == before.update(v as int, true)[c] by {
                lemma_contains_push(front, v, c as usize);
                assert(path =~= front.push(v));
            }
        }
        lemma_count_update(before, v as int, true);
    }
}

/// A path with one more city at its end contains that city and what it
/// contained before.
pub proof fn lemma_contains_push(path: Seq<usize>, v: usize, c: usize)
    ensures
        path.push(v).contains(c) <==> (path.contains(c) || c == v),
{
    let longer = path.push(v);
    if path.contains(c) {
        let k = choose|k: int| 0 <= k < path.len() && path[k] == c;
        assert(longer[k] == c);
    }
    if c == v {
        assert(longer[path.len() as int] == c);
    }
    if longer.contains(c) {
        let k = choose|k: int| 0 <= k < longer.len() && longer[k] == c;
        if k < path.len() {
            assert(path[k] == c);
        }
    }
}

/// Marking an unvisited city and appending it to the path keeps marks and
/// path in step.
pub proof fn lemma_tracks_push(marks: Seq<bool>, path: Seq<usize>, n: nat, v: usize)
    requires
        tracks(marks, path, n),
        v < n,
        !marks[v as int],
    ensures
        tracks(marks.update(v as int, true), path.push(v), n),
{
    let longer = path.push(v);
    assert(!path.contains(v));
    assert forall|a: int, b: int| 0 <= a < longer.len() && 0 <= b < longer.len() && a
        != b implies longer[a] != longer[b] by {
        if a < path.len() {
            assert(path.contains(path[a]));
        }
        if b < path.len() {
            assert(path.contains(path[b]));
        }
    }
    assert forall|c: int| 0 <= c < n implies marks.update(v as int, true)[c] == marks_of(
        longer,
        n,
    )[c] by {
        lemma_contains_push(path, v, c as usize);
    }
    assert(marks.update(v as int, true) =~= marks_of(longer, n));
}

/// Taking the last city off the path and unmarking it keeps marks and path
/// in step.
pub proof fn lemma_tracks_pop(marks: Seq<bool>, path: Seq<usize>, n: nat)
    requires
        tracks(marks, path, n),
        path.len() >= 1,
    ensures
        tracks(marks.update(path.last() as int, false), path.drop_last(), n),
{
    let front = path.drop_last();
    let v = path.last();
    assert(path =~= front.push(v));
    assert(!front.contains(v)) by {
        if front.contains(v) {
            let k = choose|k: int| 0 <= k < front.len() && front[k] == v;
            assert(path[k] == path[path.len() - 1]);
        }
    }
    assert forall|c: int| 0 <= c < n implies marks.update(v as int, false)[c] == marks_of(
        front,
        n,
    )[c] by {
        lemma_contains_push(front, v, c as usize);
    }
    assert(marks.update(v as int, false) =~= marks_of(front, n));
}

/// While the path is shorter than the number of cities, some city is
/// unmarked.
pub proof fn lemma_some_unmarked(marks: Seq<bool>, path: Seq<usize>, n: nat) -> (v: usize)
    requires
        tracks(marks, path, n),
        path.len() < n,
    ensures
        v < n,
        !marks[v as int],
{
    lemma_tracks_count(path, n);
    lemma_count_unmarked(marks);
    let c = choose|c: int| 0 <= c < marks.len() && !marks[c];
    c as usize
}

/// A tour of all cities contains each of them.
pub proof fn lemma_permutation_covers(p: Seq<usize>, n: nat, v: usize)
    requires
        n <= usize::MAX,
        is_permutation(p, n),
        v < n,
    ensures
        p.contains(v),
{
    lemma_tracks_count(p, n);
    lemma_count_unmarked(marks_of(p, n));
    assert(marks_of(p, n)[v as int]);
}

/// Marks for `n` cities, none of them marked.
pub fn unmarked(n: usize) -> (marks: Vec<bool>)
    ensures
        marks@ == marks_of(Seq::<usize>::empty(), n as nat),
        tracks(marks@, Seq::<usize>::empty(), n as nat),
{
    let mut marks: Vec<bool> = Vec::new();
    let mut k: usize = 0;
    while k < n
        invariant
            k <= n,
            marks@.len() == k,
            forall|t: int| 0 <= t < k ==> !marks@[t],
        decreases n - k,
    {
        marks.push(false);
        k += 1;
    }
    proof {
        let empty = Seq::<usize>::empty();
        assert forall|c: int| 0 <= c < n implies marks@[c] == marks_of(empty, n as nat)[c] by {
            assert(!empty.contains(c as usize));
        }
        assert(marks@ =~= marks_of(empty, n as nat));
    }
    marks
}

} // verus!
