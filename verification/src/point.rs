//! Canvas positions and the distance between them.
//!
//! Coordinates are whole numbers, so every comparison of distances is exact:
//! "farther apart than `d`" is decided on squared distances, and the distance
//! itself is reported rounded down to a whole unit.

use vstd::prelude::*;

verus! {

/// A position on the canvas, in whole canvas units.
#[derive(Clone, Copy, Debug, PartialEq, Eq, Structural)]
pub struct Point {
    pub x: i32,
    pub y: i32,
}

impl Point {
    pub fn new(x: i32, y: i32) -> (p: Point)
        ensures
            p.x == x,
            p.y == y,
    {
        Point { x, y }
    }
}

/// The square of the Euclidean distance between `a` and `b`.
pub open spec fn squared_distance(a: Point, b: Point) -> nat {
    ((a.x - b.x) * (a.x - b.x) + (a.y - b.y) * (a.y - b.y)) as nat
}

/// `r` is the square root of `n`, rounded down.
pub open spec fn is_floor_sqrt(n: nat, r: nat) -> bool {
    r * r <= n < (r + 1) * (r + 1)
}

/// The square root of `n`, rounded down.
pub open spec fn floor_sqrt(n: nat) -> nat {
    choose|r: nat| #[trigger] is_floor_sqrt(n, r)
}

/// The Euclidean distance between `a` and `b`, rounded down to a whole unit.
pub open spec fn rounded_distance(a: Point, b: Point) -> nat {
    floor_sqrt(squared_distance(a, b))
}

/// The Euclidean distance between `a` and `b` exceeds `min_distance`.
///
/// Both sides are non-negative, so comparing the squares decides the
/// comparison of the distances themselves, without rounding.
pub open spec fn far_apart(a: Point, b: Point, min_distance: nat) -> bool {
    squared_distance(a, b) > min_distance * min_distance
}

proof fn lemma_square_monotonic(a: nat, b: nat)
    by (nonlinear_arith)
    requires
        a <= b,
    ensures
        a * a <= b * b,
{
}

proof fn lemma_zero_is_its_own_root()
    ensures
        is_floor_sqrt(0, 0),
{
    assert(0nat * 0nat == 0 && (0nat + 1) * (0nat + 1) == 1) by (nonlinear_arith);
}

proof fn lemma_floor_sqrt_exists(n: nat)
    ensures
        exists|r: nat| #[trigger] is_floor_sqrt(n, r),
    decreases n,
{
    if n == 0 {
        lemma_zero_is_its_own_root();
    } else {
        let m = (n - 1) as nat;
        lemma_floor_sqrt_exists(m);
        let r = choose|r: nat| #[trigger] is_floor_sqrt(m, r);
        if n < (r + 1) * (r + 1) {
            assert(is_floor_sqrt(n, r));
        } else {
            assert((r + 1) * (r + 1) <= n < (r + 2) * (r + 2)) by (nonlinear_arith)
                requires
                    r * r <= n - 1,
                    n - 1 < (r + 1) * (r + 1),
                    n >= (r + 1) * (r + 1),
            ;
            assert(is_floor_sqrt(n, r + 1));
        }
    }
}

/// A number has exactly one rounded-down square root: whatever satisfies
/// `is_floor_sqrt` is `floor_sqrt`.
pub proof fn lemma_floor_sqrt_unique(n: nat, r: nat)
    requires
        is_floor_sqrt(n, r),
    ensures
        floor_sqrt(n) == r,
{
    let s = floor_sqrt(n);
    assert(is_floor_sqrt(n, s));
    if s < r {
        lemma_square_monotonic(s + 1, r);
    } else if r < s {
        lemma_square_monotonic(r + 1, s);
    }
}

/// `floor_sqrt(n)` is the largest number whose square does not exceed `n`.
pub proof fn lemma_floor_sqrt_bounds(n: nat)
    ensures
        is_floor_sqrt(n, floor_sqrt(n)),
{
    lemma_floor_sqrt_exists(n);
}

/// Computes the square root of `n`, rounded down.
pub fn integer_sqrt(n: u128) -> (r: u64)
    ensures
        r == floor_sqrt(n as nat),
        is_floor_sqrt(n as nat, r as nat),
{
    let mut lo: u128 = 0;
    let mut hi: u128 = 0x1_0000_0000_0000_0000;
    assert(hi * hi > u128::MAX) by (nonlinear_arith)
        requires
            hi == 0x1_0000_0000_0000_0000,
    ;
    while hi - lo > 1
        invariant
            lo < hi <= 0x1_0000_0000_0000_0000,
            lo * lo <= n < hi * hi,
        decreases hi - lo,
    {
        let mid: u128 = lo + (hi - lo) / 2;
        assert(mid * mid <= u128::MAX) by (nonlinear_arith)
            requires
                0 <= mid <= 0xffff_ffff_ffff_ffff,
        ;
        if mid * mid <= n {
            lo = mid;
        } else {
            hi = mid;
        }
    }
    proof {
        assert(hi == lo + 1);
        lemma_floor_sqrt_unique(n as nat, lo as nat);
    }
    lo as u64
}

/// Computes the square of the Euclidean distance between two points.
pub fn distance_squared(a: &Point, b: &Point) -> (d: u128)
    ensures
        d == squared_distance(*a, *b),
{
    let dx: i64 = a.x as i64 - b.x as i64;
    let dy: i64 = a.y as i64 - b.y as i64;
    assert(0 <= dx * dx <= 0x1_0000_0000 * 0x1_0000_0000) by (nonlinear_arith)
        requires
            -0x1_0000_0000 <= dx <= 0x1_0000_0000,
    ;
    assert(0 <= dy * dy <= 0x1_0000_0000 * 0x1_0000_0000) by (nonlinear_arith)
        requires
            -0x1_0000_0000 <= dy <= 0x1_0000_0000,
    ;
    let sx: i128 = dx as i128 * dx as i128;
    let sy: i128 = dy as i128 * dy as i128;
    (sx + sy) as u128
}

/// Computes the Euclidean distance between two points, rounded down to a
/// whole unit.
pub fn distance(a: &Point, b: &Point) -> (d: u64)
    ensures
        d == rounded_distance(*a, *b),
        d * d <= squared_distance(*a, *b) < (d + 1) * (d + 1),
{
    integer_sqrt(distance_squared(a, b))
}

/// Decides whether two points lie farther apart than `min_distance`.
pub fn is_far_apart(a: &Point, b: &Point, min_distance: u32) -> (far: bool)
    ensures
        far == far_apart(*a, *b, min_distance as nat),
{
    let limit: u128 = min_distance as u128;
    assert(limit * limit <= 0xffff_ffff * 0xffff_ffff) by (nonlinear_arith)
        requires
            0 <= limit <= 0xffff_ffff,
    ;
    distance_squared(a, b) > limit * limit
}

/// A point is at distance zero from itself.
pub proof fn lemma_distance_to_self(p: Point)
    ensures
        squared_distance(p, p) == 0,
        rounded_distance(p, p) == 0,
        forall|min_distance: nat| !far_apart(p, p, min_distance),
{
    lemma_zero_is_its_own_root();
    lemma_floor_sqrt_unique(0, 0);
    assert forall|min_distance: nat| !far_apart(p, p, min_distance) by {
        assert(min_distance * min_distance >= 0) by (nonlinear_arith);
    }
}

/// Distance does not depend on the order of the two points.
pub proof fn lemma_distance_symmetric(a: Point, b: Point)
    ensures
        squared_distance(a, b) == squared_distance(b, a),
        rounded_distance(a, b) == rounded_distance(b, a),
        forall|min_distance: nat| far_apart(a, b, min_distance) == far_apart(b, a, min_distance),
{
    let dx = a.x - b.x;
    let dy = a.y - b.y;
    assert(dx * dx == (-dx) * (-dx)) by (nonlinear_arith);
    assert(dy * dy == (-dy) * (-dy)) by (nonlinear_arith);
    assert(-dx == b.x - a.x);
    assert(-dy == b.y - a.y);
}

/// The rounded distance brackets the exact comparison: a rounded distance
/// above the threshold means the points are far apart, and points that are
/// far apart have a rounded distance of at least the threshold.
pub proof fn lemma_far_apart_and_distance(a: Point, b: Point, min_distance: nat)
    ensures
        rounded_distance(a, b) > min_distance ==> far_apart(a, b, min_distance),
        far_apart(a, b, min_distance) ==> rounded_distance(a, b) >= min_distance,
{
    let n = squared_distance(a, b);
    let r = rounded_distance(a, b);
    lemma_floor_sqrt_bounds(n);
    if r > min_distance {
        lemma_square_monotonic(min_distance + 1, r);
        assert((min_distance + 1) * (min_distance + 1) > min_distance * min_distance)
            by (nonlinear_arith);
    }
    if r < min_distance {
        lemma_square_monotonic(r + 1, min_distance);
    }
}

} // verus!
