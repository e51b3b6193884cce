//! The reversals that change a tour, numbered, so that one uniform draw of
//! a number is a uniform draw of a reversal.

use crate::tour::is_move;
use vstd::prelude::*;

verus! {

/// The number of reversals of a tour of `n` cities whose first cut is at
/// position `i`. From the first position the stretch may not reach the last
/// city, which would reverse the whole tour but its first city.
pub open spec fn row_len(n: nat, i: int) -> nat {
    if i < 0 || i + 2 >= n {
        0
    } else if i == 0 {
        (n - 3) as nat
    } else {
        (n - i - 2) as nat
    }
}

/// The number of reversals of a tour of `n` cities whose first cut is before
/// position `i`.
pub open spec fn rows_before(n: nat, i: int) -> nat
    decreases i,
{
    if i <= 0 {
        0
    } else {
        rows_before(n, i - 1) + row_len(n, i - 1)
    }
}

/// The number of the reversal `(i, j)` among the reversals of a tour of `n`
/// cities, counted from zero in the order of `i` and then of `j`.
pub open spec fn move_rank(n: nat, i: int, j: int) -> nat {
    (rows_before(n, i) + (j - i - 2)) as nat
}

/// The number of reversals that change a tour of `n` cities.
pub open spec fn move_count(n: nat) -> nat {
    rows_before(n, n - 2)
}

/// The reversals before a position, counted without recursion.
pub proof fn lemma_rows_before_closed(n: nat, i: int)
    requires
        n >= 4,
        1 <= i <= n - 2,
    ensures
        2 * rows_before(n, i) + 2 == i * (2 * n - 3 - i),
    decreases i,
{
    if i == 1 {
        assert(rows_before(n, 1) == rows_before(n, 0) + row_len(n, 0));
        assert(1 * (2 * n - 3 - 1) == 2 * n - 4) by (nonlinear_arith);
    } else {
        lemma_rows_before_closed(n, i - 1);
        assert(row_len(n, i - 1) == n - i - 1);
        assert(i * (2 * n - 3 - i) == (i - 1) * (2 * n - 3 - (i - 1)) + 2 * (n - i - 1))
            by (nonlinear_arith);
    }
}

/// No fewer reversals come before a later position.
pub proof fn lemma_rows_before_monotone(n: nat, a: int, b: int)
    requires
        a <= b,
    ensures
        rows_before(n, a) <= rows_before(n, b),
    decreases b - a,
{
    if a < b {
        lemma_rows_before_monotone(n, a, b - 1);
    }
}

/// Every reversal that changes the tour has a number below their count.
pub proof fn lemma_move_rank_bound(n: nat, i: int, j: int)
    requires
        is_move(n, i, j),
    ensures
        move_rank(n, i, j) < move_count(n),
{
    assert(rows_before(n, i + 1) == rows_before(n, i) + row_len(n, i));
    lemma_rows_before_monotone(n, i + 1, n - 2);
}

/// Two reversals that change the tour and have one number are the same.
pub proof fn lemma_move_rank_unique(n: nat, i: int, j: int, a: int, b: int)
    requires
        is_move(n, i, j),
        is_move(n, a, b),
        move_rank(n, i, j) == move_rank(n, a, b),
    ensures
        i == a,
        j == b,
{
    if i < a {
        assert(rows_before(n, i + 1) == rows_before(n, i) + row_len(n, i));
        lemma_rows_before_monotone(n, i + 1, a);
    } else if a < i {
        assert(rows_before(n, a + 1) == rows_before(n, a) + row_len(n, a));
        lemma_rows_before_monotone(n, a + 1, i);
    }
}

/// The number of reversals that change a tour of `n` cities.
pub fn count_moves(n: usize) -> (count: u128)
    requires
        n >= 4,
    ensures
        count == move_count(n as nat),
        count >= 1,
{
    proof {
        lemma_rows_before_closed(n as nat, n - 2);
        assert((n - 2) * (2 * n - 3 - (n - 2)) == (n - 1) * (n - 2)) by (nonlinear_arith);
        assert((n - 1) * (n - 2) >= 6 && (n - 1) * (n - 2) <= 0xffff_ffff_ffff_ffff
            * 0xffff_ffff_ffff_ffff) by (nonlinear_arith)
            requires
                4 <= n <= 0xffff_ffff_ffff_ffff,
        ;
    }
    let product: u128 = (n - 1) as u128 * ((n - 2) as u128);
    product / 2 - 1
}

/// The reversal with the number `rank` among those that change a tour of
/// `n` cities.
pub fn move_at(n: usize, rank: u128) -> (pair: (usize, usize))
    requires
        n >= 4,
        rank < move_count(n as nat),
    ensures
        is_move(n as nat, pair.0 as int, pair.1 as int),
        move_rank(n as nat, pair.0 as int, pair.1 as int) == rank,
{
    let mut i: usize = 0;
    let mut left: u128 = rank;
    let mut row: u128 = (n - 3) as u128;
    while left >= row
        invariant
            n >= 4,
            i + 2 < n,
            row == row_len(n as nat, i as int),
            left + rows_before(n as nat, i as int) == rank,
            rank < move_count(n as nat),
        decreases n - i,
    {
        proof {
            assert(rows_before(n as nat, i + 1) == rows_before(n as nat, i as int) + row_len(
                n as nat,
                i as int,
            ));
            lemma_rows_before_monotone(n as nat, i + 1, n - 2);
        }
        left = left - row;
        i += 1;
        row = (n - i - 2) as u128;
    }
    (i, i + 2 + left as usize)
}

} // verus!
