//! Fixed-point geography: angles, lengths, points and boxes as integers.
//!
//! An angle is an `i64` count of units of `1 / DEGREE` degrees. The unit is small
//! enough that every coordinate with seven decimals is a whole number of units, and
//! that the globe can be halved sixteen times, midpoints included, without rounding.
//! A length is a `u64` count of micrometres.
use vstd::prelude::*;

verus! {

/// One degree.
pub const DEGREE: i64 = 1_280_000_000;

/// 180 degrees.
pub const HALF_TURN: i64 = 230_400_000_000;

/// 360 degrees.
pub const TURN: i64 = 460_800_000_000;

/// 90 degrees.
pub const QUARTER_TURN: i64 = 115_200_000_000;

/// Bound on the coordinates of ports, graph nodes and land rings: about 859 degrees.
pub const WORLD: i64 = 1_099_511_627_776;

/// Bound on the coordinates of a drawn path, which may wind around the globe: room for
/// more than five million steps of half a turn.
pub const DRAWN: i64 = 1_152_921_504_606_846_976;

/// Bound on the coordinates that the land raster is asked about.
pub const WINDING: i64 = 2_305_843_009_213_693_952;

/// One kilometre, in micrometres.
pub const KM: u64 = 1_000_000_000;

/// A position: longitude and latitude in units of `1 / DEGREE` degrees.
#[derive(Clone, Copy, PartialEq, Eq, Structural, Debug)]
pub struct Point {
    pub lon: i64,
    pub lat: i64,
}

impl Point {
    /// Both coordinates are within `limit` of zero.
    pub open spec fn within(self, limit: int) -> bool {
        -limit <= self.lon <= limit && -limit <= self.lat <= limit
    }
}

/// The point `x` is `a`, so many turns further around the globe.
pub open spec fn wound(a: Point, x: Point, turns: int) -> bool {
    x.lon == a.lon + turns * TURN && x.lat == a.lat
}

/// The path `to` is `from`, so many turns further around the globe.
pub open spec fn wound_path(from: Seq<Point>, to: Seq<Point>, turns: int) -> bool {
    &&& from.len() == to.len()
    &&& forall|i: int| 0 <= i < from.len() ==> wound(#[trigger] from[i], #[trigger] to[i], turns)
}

/// A box of coordinates, its borders included.
#[derive(Clone, Copy, PartialEq, Eq, Structural, Debug)]
pub struct BBox {
    pub min_lon: i64,
    pub min_lat: i64,
    pub max_lon: i64,
    pub max_lat: i64,
}

impl BBox {
    /// The lower corner is not beyond the upper one.
    pub open spec fn ordered(self) -> bool {
        self.min_lon <= self.max_lon && self.min_lat <= self.max_lat
    }

    pub open spec fn within(self, limit: int) -> bool {
        &&& -limit <= self.min_lon <= limit
        &&& -limit <= self.min_lat <= limit
        &&& -limit <= self.max_lon <= limit
        &&& -limit <= self.max_lat <= limit
    }

    /// The two boxes share a point; touching borders count.
    pub open spec fn meets(self, other: BBox) -> bool {
        &&& self.min_lon <= other.max_lon
        &&& other.min_lon <= self.max_lon
        &&& self.min_lat <= other.max_lat
        &&& other.min_lat <= self.max_lat
    }

    pub open spec fn holds(self, p: Point) -> bool {
        self.min_lon <= p.lon <= self.max_lon && self.min_lat <= p.lat <= self.max_lat
    }
}

/// A distance function: it answers for every pair of points, with one answer only.
pub open spec fn is_measure<D: Fn(Point, Point) -> u64>(dist: D) -> bool {
    &&& forall|a: Point, b: Point| #[trigger] dist.requires((a, b))
    &&& forall|a: Point, b: Point, c: u64, d: u64| #[trigger]
        dist.ensures((a, b), c) && #[trigger] dist.ensures((a, b), d) ==> c == d
}

/// What a distance function answers.
pub open spec fn measured<D: Fn(Point, Point) -> u64>(dist: D, a: Point, b: Point) -> u64 {
    choose|d: u64| #[trigger] dist.ensures((a, b), d)
}

/// Asks a distance function.
pub fn measure<D: Fn(Point, Point) -> u64>(dist: &D, a: Point, b: Point) -> (d: u64)
    requires
        is_measure(*dist),
    ensures
        d == measured(*dist, a, b),
{
    dist(a, b)
}

pub open spec fn spec_min(a: int, b: int) -> int {
    if a <= b {
        a
    } else {
        b
    }
}

pub open spec fn spec_max(a: int, b: int) -> int {
    if a >= b {
        a
    } else {
        b
    }
}

/// Square of the straight distance between two positions taken as plane points.
pub open spec fn dist2(a: Point, b: Point) -> int {
    (a.lon - b.lon) * (a.lon - b.lon) + (a.lat - b.lat) * (a.lat - b.lat)
}

/// A position is at no distance from itself, and two are as far apart one way as the other.
pub proof fn lemma_dist2(a: Point, b: Point)
    ensures
        dist2(a, b) >= 0,
        dist2(a, b) == 0 <==> a == b,
        dist2(a, b) == dist2(b, a),
{
    let x = a.lon - b.lon;
    let y = a.lat - b.lat;
    assert(x * x >= 0 && y * y >= 0 && (x * x == 0 <==> x == 0) && (y * y == 0 <==> y == 0)) by (nonlinear_arith);
    assert((-x) * (-x) == x * x && (-y) * (-y) == y * y) by (nonlinear_arith);
}

/// Quotient rounded towards negative infinity.
pub fn floor_div(a: i128, b: i128) -> (q: i128)
    requires
        b > 0,
    ensures
        q == a as int / b as int,
{
    if a >= 0 {
        a / b
    } else {
        proof {
            let n = -(a as int) - 1;
            vstd::arithmetic::div_mod::lemma_fundamental_div_mod(n, b as int);
            vstd::arithmetic::div_mod::lemma_fundamental_div_mod(a as int, b as int);
            let q1 = n / (b as int);
            let r1 = n % (b as int);
            assert(a as int == b * (-q1 - 1) + (b - 1 - r1)) by (nonlinear_arith)
                requires
                    n == -(a as int) - 1,
                    n == b * q1 + r1,
            ;
            vstd::arithmetic::div_mod::lemma_fundamental_div_mod_converse(
                a as int, b as int, -q1 - 1, b - 1 - r1);
            vstd::arithmetic::div_mod::lemma_div_nonincreasing(n, b as int);
            vstd::arithmetic::div_mod::lemma_div_pos_is_pos(n, b as int);
        }
        let n: i128 = -(a + 1);
        -(n / b) - 1
    }
}

/// Whole part of the square root.
pub open spec fn floor_sqrt(n: int) -> int {
    choose|r: int| r >= 0 && #[trigger] (r * r) <= n < (r + 1) * (r + 1)
}

/// There is one whole part only.
pub proof fn lemma_floor_sqrt(n: int, r: int)
    requires
        r >= 0,
        r * r <= n,
        n < (r + 1) * (r + 1),
    ensures
        floor_sqrt(n) == r,
{
    let s = floor_sqrt(n);
    assert(s >= 0 && s * s <= n < (s + 1) * (s + 1));
    if s < r {
        assert((s + 1) * (s + 1) <= r * r) by (nonlinear_arith)
            requires
                0 <= s < r,
        ;
    } else if r < s {
        assert((r + 1) * (r + 1) <= s * s) by (nonlinear_arith)
            requires
                0 <= r < s,
        ;
    }
}

/// Whole part of the square root.
pub fn isqrt(n: u128) -> (r: u64)
    ensures
        r == floor_sqrt(n as int),
        r * r <= n,
        n < (r + 1) * (r + 1),
{
    let mut lo: u128 = 0;
    let mut s: u128 = 18_446_744_073_709_551_616;
    assert(n < (lo + s) * (lo + s)) by (nonlinear_arith)
        requires
            lo == 0,
            s == 18_446_744_073_709_551_616,
    ;
    while s > 1
        invariant
            s >= 1,
            lo + s <= 18_446_744_073_709_551_616,
            lo * lo <= n,
            n < (lo + s) * (lo + s),
        decreases s,
    {
        let h: u128 = s / 2;
        let mid: u128 = lo + h;
        assert(mid * mid <= u128::MAX) by (nonlinear_arith)
            requires
                0 <= mid < 18_446_744_073_709_551_616,
        ;
        if mid * mid <= n {
            lo = mid;
            s = s - h;
        } else {
            s = h;
        }
    }
    proof {
        lemma_floor_sqrt(n as int, lo as int);
    }
    lo as u64
}

} // verus!
