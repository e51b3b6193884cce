//! The problem instance: points with integer coordinates and the distance
//! between any two of them.
//!
//! Distances are exact integers. The distance between two points is their
//! Euclidean distance counted in units of `1 / SCALE` of a coordinate unit
//! and rounded down, so that sums and comparisons of tour costs involve no
//! rounding of their own.

use crate::random::random_coordinate;
use vstd::prelude::*;

verus! {

/// Distance units per coordinate unit.
pub const SCALE: u64 = 1_000_000;

/// `r` is the square root of `x`, rounded down.
pub open spec fn is_floor_sqrt(x: nat, r: nat) -> bool {
    r * r <= x < (r + 1) * (r + 1)
}

/// The square root of `x`, rounded down.
pub open spec fn floor_sqrt(x: nat) -> nat {
    choose|r: nat| is_floor_sqrt(x, r)
}

/// Every natural number has a rounded-down square root.
pub proof fn lemma_floor_sqrt(x: nat)
    ensures
        is_floor_sqrt(x, floor_sqrt(x)),
    decreases x,
{
    if x == 0 {
        assert(is_floor_sqrt(0, 0)) by (nonlinear_arith);
    } else {
        lemma_floor_sqrt((x - 1) as nat);
        let r = floor_sqrt((x - 1) as nat);
        if (r + 1) * (r + 1) <= x {
            assert((r + 1) * (r + 1) == x);
            assert(x < (r + 2) * (r + 2)) by (nonlinear_arith)
                requires
                    (r + 1) * (r + 1) == x,
            ;
            assert(is_floor_sqrt(x, r + 1));
        } else {
            assert(is_floor_sqrt(x, r));
        }
    }
}

/// The rounded-down square root is the only number with its defining property.
pub proof fn lemma_floor_sqrt_unique(x: nat, r: nat)
    requires
        is_floor_sqrt(x, r),
    ensures
        r == floor_sqrt(x),
{
    lemma_floor_sqrt(x);
    let s = floor_sqrt(x);
    if r < s {
        assert((r + 1) * (r + 1) <= s * s) by (nonlinear_arith)
            requires
                r + 1 <= s,
        ;
    } else if s < r {
        assert((s + 1) * (s + 1) <= r * r) by (nonlinear_arith)
            requires
                s + 1 <= r,
        ;
    }
}

/// The square root of `x`, rounded down.
pub fn isqrt(x: u128) -> (r: u64)
    ensures
        r == floor_sqrt(x as nat),
{
    let mut lo: u128 = 0;
    let mut hi: u128 = 0x1_0000_0000_0000_0000;
    assert(x < hi * hi) by (nonlinear_arith)
        requires
            hi == 0x1_0000_0000_0000_0000,
            x <= u128::MAX,
    ;
    while hi - lo > 1
        invariant
            lo < hi <= 0x1_0000_0000_0000_0000,
            lo * lo <= x < hi * hi,
        decreases hi - lo,
    {
        let mid: u128 = lo + (hi - lo) / 2;
        assert(mid * mid <= u128::MAX) by (nonlinear_arith)
            requires
                mid <= 0xffff_ffff_ffff_ffff,
        ;
        if mid * mid <= x {
            lo = mid;
        } else {
            hi = mid;
        }
    }
    proof {
        assert(hi == lo + 1);
        lemma_floor_sqrt_unique(x as nat, lo as nat);
    }
    lo as u64
}

/// A point of the plane with integer coordinates.
#[derive(Clone, Copy, Debug, PartialEq, Eq, Structural)]
pub struct Point {
    pub x: i32,
    pub y: i32,
}

/// The square of the Euclidean distance between two points.
pub open spec fn squared_distance(a: Point, b: Point) -> nat {
    ((b.x - a.x) * (b.x - a.x) + (b.y - a.y) * (b.y - a.y)) as nat
}

/// The Euclidean distance between two points in units of `1 / SCALE`,
/// rounded down.
pub open spec fn scaled_distance(a: Point, b: Point) -> nat {
    floor_sqrt((SCALE * SCALE * squared_distance(a, b)) as nat)
}

/// The distance between city `i` and city `j` of the given points.
pub open spec fn city_distance(points: Seq<Point>, i: int, j: int) -> nat {
    scaled_distance(points[i], points[j])
}

/// The distance between two points does not depend on their order.
pub proof fn lemma_distance_symmetric(a: Point, b: Point)
    ensures
        scaled_distance(a, b) == scaled_distance(b, a),
{
    assert(squared_distance(a, b) == squared_distance(b, a)) by (nonlinear_arith);
}

/// A point is at distance zero from itself.
pub proof fn lemma_distance_to_self(a: Point)
    ensures
        scaled_distance(a, a) == 0,
{
    assert(squared_distance(a, a) == 0);
    assert(SCALE * SCALE * squared_distance(a, a) == 0) by (nonlinear_arith)
        requires
            squared_distance(a, a) == 0,
    ;
    assert(is_floor_sqrt(0, 0)) by (nonlinear_arith);
    lemma_floor_sqrt_unique(0, 0);
}

/// Every distance fits in 64 bits.
pub proof fn lemma_distance_bound(a: Point, b: Point)
    ensures
        scaled_distance(a, b) <= u64::MAX,
{
    let x = (SCALE * SCALE * squared_distance(a, b)) as nat;
    let r = scaled_distance(a, b);
    lemma_floor_sqrt(x);
    assert((b.x - a.x) * (b.x - a.x) >= 0 && (b.y - a.y) * (b.y - a.y) >= 0) by (nonlinear_arith);
    assert(x < 0x1_0000_0000_0000_0000 * 0x1_0000_0000_0000_0000) by (nonlinear_arith)
        requires
            x == SCALE * SCALE * squared_distance(a, b),
            SCALE == 1_000_000,
            squared_distance(a, b) == (b.x - a.x) * (b.x - a.x) + (b.y - a.y) * (b.y - a.y),
            -0xffff_ffff <= b.x - a.x <= 0xffff_ffff,
            -0xffff_ffff <= b.y - a.y <= 0xffff_ffff,
    ;
    if r > u64::MAX {
        assert(r * r >= 0x1_0000_0000_0000_0000 * 0x1_0000_0000_0000_0000) by (nonlinear_arith)
            requires
                r >= 0x1_0000_0000_0000_0000,
        ;
    }
}

/// The distance between two points, in units of `1 / SCALE`, rounded down.
pub fn distance_between(a: Point, b: Point) -> (d: u64)
    ensures
        d == scaled_distance(a, b),
{
    let dx: u64 = if b.x >= a.x {
        (b.x as i64 - a.x as i64) as u64
    } else {
        (a.x as i64 - b.x as i64) as u64
    };
    let dy: u64 = if b.y >= a.y {
        (b.y as i64 - a.y as i64) as u64
    } else {
        (a.y as i64 - b.y as i64) as u64
    };
    assert(dx * dx == (b.x - a.x) * (b.x - a.x) && dx * dx <= 0xffff_ffff * 0xffff_ffff)
        by (nonlinear_arith)
        requires
            dx == b.x - a.x || dx == a.x - b.x,
            dx <= 0xffff_ffff,
    ;
    assert(dy * dy == (b.y - a.y) * (b.y - a.y) && dy * dy <= 0xffff_ffff * 0xffff_ffff)
        by (nonlinear_arith)
        requires
            dy == b.y - a.y || dy == a.y - b.y,
            dy <= 0xffff_ffff,
    ;
    let d2: u128 = (dx as u128) * (dx as u128) + (dy as u128) * (dy as u128);
    assert(SCALE * SCALE == 1_000_000_000_000) by (nonlinear_arith)
        requires
            SCALE == 1_000_000,
    ;
    let unit: u128 = (SCALE as u128) * (SCALE as u128);
    assert(unit * d2 <= u128::MAX) by (nonlinear_arith)
        requires
            unit == 1_000_000_000_000,
            d2 <= 2 * (0xffff_ffff * 0xffff_ffff),
    ;
    isqrt(unit * d2)
}

/// A problem instance: the cities of a tour, as points, numbered from zero.
pub struct TSP {
    points: Vec<Point>,
}

impl View for TSP {
    type V = Seq<Point>;

    closed spec fn view(&self) -> Seq<Point> {
        self.points@
    }
}

impl TSP {
    /// The distance between city `i` and city `j`.
    pub open spec fn dist(&self, i: int, j: int) -> nat {
        city_distance(self@, i, j)
    }

    /// The number of cities.
    pub open spec fn size(&self) -> nat {
        self@.len()
    }

    /// An instance of `num_points` cities whose coordinates are drawn
    /// independently from `min..max`.
    pub fn new(num_points: usize, min: i32, max: i32) -> (tsp: Self)
        requires
            num_points == 0 || min < max,
        ensures
            tsp@.len() == num_points,
            forall|i: int|
                0 <= i < num_points ==> min <= (#[trigger] tsp@[i]).x < max && min <= tsp@[i].y
                    < max,
    {
        let mut points: Vec<Point> = Vec::new();
        let mut k: usize = 0;
        while k < num_points
            invariant
                k <= num_points,
                num_points == 0 || min < max,
                points@.len() == k,
                forall|i: int|
                    0 <= i < k ==> min <= (#[trigger] points@[i]).x < max && min <= points@[i].y
                        < max,
            decreases num_points - k,
        {
            let x = random_coordinate(min, max);
            let y = random_coordinate(min, max);
            points.push(Point { x, y });
            k += 1;
        }
        TSP { points }
    }

    /// The instance whose cities are the given points, in their order.
    pub fn from_points(points: Vec<Point>) -> (tsp: Self)
        ensures
            tsp@ == points@,
    {
        TSP { points }
    }

    /// The number of cities.
    pub fn len(&self) -> (n: usize)
        ensures
            n == self@.len(),
    {
        self.points.len()
    }

    /// City `i`.
    pub fn point(&self, i: usize) -> (p: Point)
        requires
            i < self@.len(),
        ensures
            p == self@[i as int],
    {
        self.points[i]
    }

    /// The distance between city `i` and city `j`, in units of `1 / SCALE`,
    /// rounded down.
    pub fn euclidean_distance(&self, i: usize, j: usize) -> (d: u64)
        requires
            i < self@.len(),
            j < self@.len(),
        ensures
            d == self.dist(i as int, j as int),
    {
        distance_between(self.points[i], self.points[j])
    }
}

} // verus!
