//! The distance model: integer square root and Euclidean edge length over
//! fixed-point coordinates.

use vstd::prelude::*;

verus! {

/// Fixed-point scale: coordinate values carry four decimal places, so one
/// whole coordinate unit is `SCALE` stored units.
pub const SCALE: i64 = 10000;

/// Largest magnitude a stored coordinate may have (eight integer digits at
/// four decimal places). Keeps every squared difference inside `u128` and
/// every edge length below `MAX_EDGE`.
pub const COORD_LIMIT: i64 = 999_999_999_999;

/// An upper bound on any single edge length between in-range coordinates.
pub const MAX_EDGE: u64 = 3_000_000_000_000;

pub open spec fn sq(x: int) -> int {
    x * x
}

/// `r` is the integer square root (floor) of `x`.
pub open spec fn is_isqrt(r: int, x: int) -> bool {
    0 <= r && sq(r) <= x && x < sq(r + 1)
}

/// The floor of the square root of `x`, as a mathematical value.
pub closed spec fn sqrt_floor(x: int) -> int {
    choose|r: int| is_isqrt(r, x)
}

/// Length of the edge between points `(ax, ay)` and `(bx, by)`: the floor of
/// the Euclidean norm of the coordinate difference.
pub open spec fn dist_xy(ax: int, ay: int, bx: int, by: int) -> int {
    sqrt_floor(sq(ax - bx) + sq(ay - by))
}

pub proof fn lemma_sq_mono(a: int, b: int)
    requires
        0 <= a <= b,
    ensures
        sq(a) <= sq(b),
{
    assert(a * a <= b * b) by (nonlinear_arith)
        requires
            0 <= a <= b,
    ;
}

pub proof fn lemma_isqrt_unique(r1: int, r2: int, x: int)
    requires
        is_isqrt(r1, x),
        is_isqrt(r2, x),
    ensures
        r1 == r2,
{
    if r1 < r2 {
        lemma_sq_mono(r1 + 1, r2);
        assert(x < sq(r1 + 1));
    }
    if r2 < r1 {
        lemma_sq_mono(r2 + 1, r1);
        assert(x < sq(r2 + 1));
    }
}

/// For every non-negative `x` the chosen `sqrt_floor(x)` really is the floor
/// of the square root.
pub proof fn lemma_sqrt_floor_is_isqrt(x: int)
    requires
        0 <= x,
    ensures
        is_isqrt(sqrt_floor(x), x),
    decreases x,
{
    if x == 0 {
        assert(is_isqrt(0, 0));
        assert(exists|r: int| is_isqrt(r, 0));
    } else {
        lemma_sqrt_floor_is_isqrt(x - 1);
        let r = sqrt_floor(x - 1);
        if x < sq(r + 1) {
            assert(is_isqrt(r, x));
            assert(exists|ri: int| is_isqrt(ri, x));
        } else {
            assert(x == sq(r + 1));
            lemma_sq_mono(r + 1, r + 2);
            assert(sq(r + 1) < sq(r + 2)) by (nonlinear_arith)
                requires
                    0 <= r,
            ;
            assert(is_isqrt(r + 1, x));
            assert(exists|ri: int| is_isqrt(ri, x));
        }
    }
}

/// The square root floor never exceeds a bound whose square exceeds `x`.
pub proof fn lemma_sqrt_floor_le(x: int, b: int)
    requires
        0 <= x,
        0 <= b,
        x < sq(b + 1),
    ensures
        sqrt_floor(x) <= b,
{
    lemma_sqrt_floor_is_isqrt(x);
    let r = sqrt_floor(x);
    if r > b {
        lemma_sq_mono(b + 1, r);
        assert(sq(r) <= x);
    }
}

pub proof fn lemma_sqrt_floor_zero()
    ensures
        sqrt_floor(0) == 0,
{
    lemma_sqrt_floor_is_isqrt(0);
    lemma_isqrt_unique(sqrt_floor(0), 0, 0);
}

/// Squares ignore the sign of the difference, so edge length is symmetric.
pub proof fn lemma_dist_sym(ax: int, ay: int, bx: int, by: int)
    ensures
        dist_xy(ax, ay, bx, by) == dist_xy(bx, by, ax, ay),
{
    assert((ax - bx) * (ax - bx) == (bx - ax) * (bx - ax)) by (nonlinear_arith);
    assert((ay - by) * (ay - by) == (by - ay) * (by - ay)) by (nonlinear_arith);
}

/// Edge lengths between in-range coordinates are non-negative and bounded.
pub proof fn lemma_dist_bounds(ax: int, ay: int, bx: int, by: int)
    requires
        -COORD_LIMIT <= ax <= COORD_LIMIT,
        -COORD_LIMIT <= ay <= COORD_LIMIT,
        -COORD_LIMIT <= bx <= COORD_LIMIT,
        -COORD_LIMIT <= by <= COORD_LIMIT,
    ensures
        0 <= dist_xy(ax, ay, bx, by) <= MAX_EDGE,
{
    let dx = ax - bx;
    let dy = ay - by;
    assert(sq(dx) <= 4_000_000_000_000_000_000_000_000) by (nonlinear_arith)
        requires
            -2_000_000_000_000 <= dx <= 2_000_000_000_000,
    ;
    assert(sq(dy) <= 4_000_000_000_000_000_000_000_000) by (nonlinear_arith)
        requires
            -2_000_000_000_000 <= dy <= 2_000_000_000_000,
    ;
    assert(sq(dx) >= 0) by (nonlinear_arith);
    assert(sq(dy) >= 0) by (nonlinear_arith);
    let x = sq(dx) + sq(dy);
    assert(x < sq(MAX_EDGE + 1)) by (nonlinear_arith)
        requires
            x <= 8_000_000_000_000_000_000_000_000,
    ;
    lemma_sqrt_floor_is_isqrt(x);
    lemma_sqrt_floor_le(x, MAX_EDGE as int);
}

/// The distance from a point to itself is zero.
pub proof fn lemma_dist_self(ax: int, ay: int)
    ensures
        dist_xy(ax, ay, ax, ay) == 0,
{
    lemma_sqrt_floor_zero();
}

/// Floor of the integer square root, by binary search.
pub fn isqrt(x: u128) -> (r: u64)
    requires
        x < 0x1000000000000000000000,
    ensures
        is_isqrt(r as int, x as int),
        r as int == sqrt_floor(x as int),
{
    let mut lo: u64 = 0;
    let mut hi: u64 = 0x40000000000;
    proof {
        assert(sq(0x40000000000) == 0x1000000000000000000000) by (nonlinear_arith);
    }
    while hi - lo > 1
        invariant
            lo < hi <= 0x40000000000,
            sq(lo as int) <= x as int,
            (x as int) < sq(hi as int),
        decreases hi - lo,
    {
        let mid = lo + (hi - lo) / 2;
        proof {
            assert((mid as int) * (mid as int) <= 0x1000000000000000000000) by (nonlinear_arith)
                requires
                    0 <= mid as int <= 0x40000000000,
            ;
        }
        let m2 = (mid as u128) * (mid as u128);
        if m2 <= x {
            lo = mid;
        } else {
            hi = mid;
        }
    }
    proof {
        assert(is_isqrt(lo as int, x as int));
        assert(exists|ri: int| is_isqrt(ri, x as int));
        lemma_isqrt_unique(lo as int, sqrt_floor(x as int), x as int);
    }
    lo
}

/// Edge length between two in-range fixed-point coordinates.
pub fn distance_xy(ax: i64, ay: i64, bx: i64, by: i64) -> (d: u64)
    requires
        -COORD_LIMIT <= ax <= COORD_LIMIT,
        -COORD_LIMIT <= ay <= COORD_LIMIT,
        -COORD_LIMIT <= bx <= COORD_LIMIT,
        -COORD_LIMIT <= by <= COORD_LIMIT,
    ensures
        d as int == dist_xy(ax as int, ay as int, bx as int, by as int),
        d <= MAX_EDGE,
{
    let dx: i128 = ax as i128 - bx as i128;
    let dy: i128 = ay as i128 - by as i128;
    proof {
        assert(dx * dx >= 0) by (nonlinear_arith);
        assert(dy * dy >= 0) by (nonlinear_arith);
        assert(dx * dx <= 4_000_000_000_000_000_000_000_000) by (nonlinear_arith)
            requires
                -2_000_000_000_000 <= dx <= 2_000_000_000_000,
        ;
        assert(dy * dy <= 4_000_000_000_000_000_000_000_000) by (nonlinear_arith)
            requires
                -2_000_000_000_000 <= dy <= 2_000_000_000_000,
        ;
    }
    let sum: u128 = (dx * dx) as u128 + (dy * dy) as u128;
    let d = isqrt(sum);
    proof {
        lemma_dist_bounds(ax as int, ay as int, bx as int, by as int);
        lemma_sqrt_floor_is_isqrt(sum as int);
        lemma_isqrt_unique(
            d as int,
            sqrt_floor(sq(ax as int - bx as int) + sq(ay as int - by as int)),
            sum as int,
        );
    }
    d
}

} // verus!
