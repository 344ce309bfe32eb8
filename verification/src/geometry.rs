//! 3D points with integer coordinates and their Euclidean distance,
//! rounded down to the coordinate unit.

use vstd::prelude::*;

verus! {

/// Coordinates are confined to this range (2^62 in magnitude) so that a sum
/// of three squared coordinate differences always fits in a `u128`.
pub const COORD_LIMIT: i64 = 0x4000_0000_0000_0000;

/// A point in 3D space, with coordinates in an integer unit chosen by the
/// caller (converting measurements to that unit is the caller's business).
#[derive(Clone, Copy, Debug, PartialEq, Eq, Structural)]
pub struct Position {
    pub x: i64,
    pub y: i64,
    pub z: i64,
}

impl Position {
    /// Every coordinate within `COORD_LIMIT` in magnitude.
    pub open spec fn wf(self) -> bool {
        &&& -COORD_LIMIT <= self.x <= COORD_LIMIT
        &&& -COORD_LIMIT <= self.y <= COORD_LIMIT
        &&& -COORD_LIMIT <= self.z <= COORD_LIMIT
    }

    pub fn new(x: i64, y: i64, z: i64) -> (r: Self)
        requires
            -COORD_LIMIT <= x <= COORD_LIMIT,
            -COORD_LIMIT <= y <= COORD_LIMIT,
            -COORD_LIMIT <= z <= COORD_LIMIT,
        ensures
            r == (Position { x, y, z }),
            r.wf(),
    {
        Position { x, y, z }
    }

    /// The Euclidean distance between `a` and `b`, rounded down.
    pub fn distance(a: &Self, b: &Self) -> (r: u64)
        requires
            a.wf(),
            b.wf(),
        ensures
            r == dist(*a, *b),
    {
        let dx: i128 = (a.x as i128) - (b.x as i128);
        let dy: i128 = (a.y as i128) - (b.y as i128);
        let dz: i128 = (a.z as i128) - (b.z as i128);
        proof {
            assert(dx * dx == sq(a.x - b.x) && 0 <= dx * dx <= sq(2 * COORD_LIMIT as int))
                by (nonlinear_arith)
                requires dx == a.x - b.x && -2 * (COORD_LIMIT as int) <= dx <= 2 * COORD_LIMIT as int;
            assert(dy * dy == sq(a.y - b.y) && 0 <= dy * dy <= sq(2 * COORD_LIMIT as int))
                by (nonlinear_arith)
                requires dy == a.y - b.y && -2 * (COORD_LIMIT as int) <= dy <= 2 * COORD_LIMIT as int;
            assert(dz * dz == sq(a.z - b.z) && 0 <= dz * dz <= sq(2 * COORD_LIMIT as int))
                by (nonlinear_arith)
                requires dz == a.z - b.z && -2 * (COORD_LIMIT as int) <= dz <= 2 * COORD_LIMIT as int;
        }
        let sum: u128 = ((dx * dx) as u128) + ((dy * dy) as u128) + ((dz * dz) as u128);
        assert(sum == dist_sq(*a, *b));
        let r = isqrt(sum);
        proof {
            lemma_sqrt_floor_unique(sum as int, r as int);
        }
        r
    }
}

/// The square of an integer.
pub open spec fn sq(d: int) -> int {
    d * d
}

/// The squared Euclidean distance between two positions.
pub open spec fn dist_sq(a: Position, b: Position) -> int {
    sq(a.x - b.x) + sq(a.y - b.y) + sq(a.z - b.z)
}

/// `r` is the square root of `m`, rounded down.
pub open spec fn is_sqrt_floor(m: int, r: int) -> bool {
    &&& 0 <= r
    &&& r * r <= m
    &&& m < (r + 1) * (r + 1)
}

/// The square root of `m`, rounded down (meaningful for `m >= 0`).
pub open spec fn sqrt_floor(m: int) -> int {
    choose|r: int| #[trigger] is_sqrt_floor(m, r)
}

/// The Euclidean distance between two positions, rounded down.
pub open spec fn dist(a: Position, b: Position) -> int {
    sqrt_floor(dist_sq(a, b))
}

/// Every nonnegative integer has a rounded-down square root.
pub proof fn lemma_sqrt_floor_exists(m: int)
    requires
        0 <= m,
    ensures
        is_sqrt_floor(m, sqrt_floor(m)),
    decreases m,
{
    if m == 0 {
        assert(is_sqrt_floor(0, 0));
    } else {
        lemma_sqrt_floor_exists(m - 1);
        let r = choose|r: int| #[trigger] is_sqrt_floor(m - 1, r);
        if m < (r + 1) * (r + 1) {
            assert(is_sqrt_floor(m, r));
        } else {
            assert(m == (r + 1) * (r + 1));
            assert((r + 1) * (r + 1) < (r + 2) * (r + 2)) by (nonlinear_arith)
                requires 0 <= r;
            assert(is_sqrt_floor(m, r + 1));
        }
    }
}

/// The rounded-down square root is unique.
pub proof fn lemma_sqrt_floor_unique(m: int, r: int)
    requires
        is_sqrt_floor(m, r),
    ensures
        sqrt_floor(m) == r,
{
    lemma_sqrt_floor_exists(m);
    let q = sqrt_floor(m);
    assert(q == r) by (nonlinear_arith)
        requires
            0 <= r && r * r <= m && m < (r + 1) * (r + 1),
            0 <= q && q * q <= m && m < (q + 1) * (q + 1);
}

/// The square root of a `u128`, rounded down, by binary search.
fn isqrt(m: u128) -> (r: u64)
    ensures
        is_sqrt_floor(m as int, r as int),
{
    let mut lo: u64 = 0;
    let mut hi: u64 = u64::MAX;
    proof {
        assert(m < ((u64::MAX + 1) as int) * ((u64::MAX + 1) as int)) by (nonlinear_arith);
    }
    while lo < hi
        invariant
            lo <= hi,
            (lo as int) * (lo as int) <= m,
            m < ((hi + 1) as int) * ((hi + 1) as int),
        decreases hi - lo,
    {
        let mid: u64 = lo + (hi - lo) / 2 + 1;
        assert(lo < mid <= hi);
        proof {
            assert((mid as int) * (mid as int) < 0x1_0000_0000_0000_0000_0000_0000_0000_0000)
                by (nonlinear_arith)
                requires mid <= u64::MAX;
        }
        let msq: u128 = (mid as u128) * (mid as u128);
        if msq <= m {
            lo = mid;
        } else {
            hi = mid - 1;
        }
    }
    lo
}

/// Distance is symmetric.
pub proof fn lemma_distance_symmetric(a: Position, b: Position)
    ensures
        dist(a, b) == dist(b, a),
{
    assert(sq(a.x - b.x) == sq(b.x - a.x) && sq(a.y - b.y) == sq(b.y - a.y) && sq(a.z - b.z)
        == sq(b.z - a.z)) by (nonlinear_arith);
    assert(dist_sq(a, b) == dist_sq(b, a));
}

/// The distance from a point to itself is zero.
pub proof fn lemma_distance_self_zero(a: Position)
    ensures
        dist(a, a) == 0,
{
    assert(dist_sq(a, a) == 0) by (nonlinear_arith);
    lemma_sqrt_floor_unique(0, 0);
}

/// Distances between well-formed positions fit in a `u64`.
pub proof fn lemma_distance_fits(a: Position, b: Position)
    requires
        a.wf(),
        b.wf(),
    ensures
        0 <= dist(a, b) <= u64::MAX,
{
    assert(0 <= dist_sq(a, b) < 0x1_0000_0000_0000_0000_0000_0000_0000_0000) by (nonlinear_arith)
        requires a.wf() && b.wf();
    lemma_sqrt_floor_exists(dist_sq(a, b));
    let r = dist(a, b);
    assert(r <= u64::MAX) by (nonlinear_arith)
        requires
            0 <= r && r * r <= dist_sq(a, b),
            dist_sq(a, b) < 0x1_0000_0000_0000_0000_0000_0000_0000_0000;
}

} // verus!
