//! Sampling straight lines on the map for land.
use vstd::prelude::*;

use crate::geo::{dist2, floor_div, floor_sqrt, isqrt, lemma_floor_sqrt, wound, Point, DRAWN, KM, TURN};
use crate::land::{lemma_land_goes_round, LandClassifier};

verus! {

/// Length of the straight line on the map, in angle units, rounded down.
pub open spec fn map_length(a: Point, b: Point) -> int {
    floor_sqrt(dist2(a, b))
}

/// The `i`-th of the `n` equal steps from `a` to `b`.
pub open spec fn along(a: Point, b: Point, i: int, n: int) -> Point {
    Point {
        lon: (a.lon + (i * (b.lon - a.lon)) / n) as i64,
        lat: (a.lat + (i * (b.lat - a.lat)) / n) as i64,
    }
}

/// A step to the left of the line from `a` to `b`, `width` long where `len` is the length
/// of the line.
pub open spec fn sideways(a: Point, b: Point, width: int, len: int) -> (int, int) {
    ((-(b.lat - a.lat) * width) / len, ((b.lon - a.lon) * width) / len)
}

/// Land at the point or at the offset to either side of it.
pub open spec fn band_hit(c: LandClassifier, p: Point, off: (int, int)) -> bool {
    ||| c.land(p.lon as int, p.lat as int)
    ||| c.land(p.lon + off.0, p.lat + off.1)
    ||| c.land(p.lon - off.0, p.lat - off.1)
}

/// Land at one of the `n - 1` inner sample points of the line, or beside it.
pub open spec fn band_hits_land(c: LandClassifier, a: Point, b: Point, n: int, off: (int, int)) -> bool {
    exists|i: int| 1 <= i < n && band_hit(c, #[trigger] along(a, b, i, n), off)
}

/// The inner sample points that count lie in water: those further than `tol` from both
/// ends of a line of length `total`, sampled at least every two kilometres.
pub open spec fn clear_of_land(c: LandClassifier, a: Point, b: Point, tol: int, total: int) -> bool {
    let n = clear_samples(total);
    total < 1_000 || forall|i: int|
        0 <= i <= n && i * total > tol * n && (n - i) * total > tol * n ==> {
            let p = #[trigger] along(a, b, i, n);
            !c.land(p.lon as int, p.lat as int)
        }
}

/// How many steps a line of length `total` is sampled in: one for each two kilometres,
/// and two at least.
pub open spec fn clear_samples(total: int) -> int {
    let n = (total + 1_999_999_999) / 2_000_000_000;
    if n >= 2 {
        n
    } else {
        2
    }
}

proof fn lemma_step(d: int, i: int, n: int)
    requires
        0 <= i <= n,
        0 < n,
    ensures
        d >= 0 ==> 0 <= (i * d) / n <= d,
        d <= 0 ==> d <= (i * d) / n <= 0,
        i == n ==> (i * d) / n == d,
        i == 0 ==> (i * d) / n == 0,
{
    let q = (i * d) / n;
    let r = (i * d) % n;
    vstd::arithmetic::div_mod::lemma_fundamental_div_mod(i * d, n);
    assert(n * q + r == i * d);
    assert(d >= 0 ==> 0 <= i * d <= n * d) by (nonlinear_arith)
        requires
            0 <= i <= n,
    ;
    assert(d <= 0 ==> n * d <= i * d <= 0) by (nonlinear_arith)
        requires
            0 <= i <= n,
    ;
    if d >= 0 {
        assert(0 <= q <= d) by (nonlinear_arith)
            requires
                0 < n,
                0 <= r < n,
                0 <= n * q + r <= n * d,
        ;
    }
    if d <= 0 {
        assert(d <= q <= 0) by (nonlinear_arith)
            requires
                0 < n,
                0 <= r < n,
                n * d <= n * q + r <= 0,
        ;
    }
    if i == n {
        assert(n * d == n * d + 0);
        vstd::arithmetic::div_mod::lemma_fundamental_div_mod_converse(i * d, n, d, 0);
    }
    if i == 0 {
        assert(i * d == 0) by (nonlinear_arith)
            requires
                i == 0,
        ;
        vstd::arithmetic::div_mod::lemma_fundamental_div_mod_converse(i * d, n, 0, 0);
    }
}

/// A sample point lies in the box between the ends, and the first and the last are the
/// ends themselves.
pub proof fn lemma_along(a: Point, b: Point, i: int, n: int)
    requires
        0 <= i <= n,
        0 < n,
    ensures
        a.lon <= b.lon ==> a.lon <= along(a, b, i, n).lon <= b.lon,
        b.lon <= a.lon ==> b.lon <= along(a, b, i, n).lon <= a.lon,
        a.lat <= b.lat ==> a.lat <= along(a, b, i, n).lat <= b.lat,
        b.lat <= a.lat ==> b.lat <= along(a, b, i, n).lat <= a.lat,
        along(a, b, i, n).lon == a.lon + (i * (b.lon - a.lon)) / n,
        along(a, b, i, n).lat == a.lat + (i * (b.lat - a.lat)) / n,
        i == 0 ==> along(a, b, i, n) == a,
        i == n ==> along(a, b, i, n) == b,
{
    lemma_step(b.lon - a.lon, i, n);
    lemma_step(b.lat - a.lat, i, n);
}

/// The steps of a line that has wound on are those of the line, wound on as well.
pub proof fn lemma_along_goes_round(a: Point, b: Point, x: Point, y: Point, turns: int, i: int, n: int)
    requires
        wound(a, x, turns),
        wound(b, y, turns),
        0 <= i <= n,
        0 < n,
    ensures
        wound(along(a, b, i, n), along(x, y, i, n), turns),
{
    lemma_along(a, b, i, n);
    lemma_along(x, y, i, n);
    assert(y.lon - x.lon == b.lon - a.lon);
}

proof fn lemma_band_wound(c: LandClassifier, a: Point, b: Point, x: Point, y: Point, turns: int, n: int, off: (int, int))
    requires
        wound(a, x, turns),
        wound(b, y, turns),
        0 < n,
        band_hits_land(c, a, b, n, off),
    ensures
        band_hits_land(c, x, y, n, off),
{
    let i = choose|i: int| 1 <= i < n && band_hit(c, #[trigger] along(a, b, i, n), off);
    let p = along(a, b, i, n);
    lemma_along_goes_round(a, b, x, y, turns, i, n);
    lemma_land_goes_round(c.raster@, p.lon as int, p.lat as int, turns);
    lemma_land_goes_round(c.raster@, p.lon + off.0, p.lat + off.1, turns);
    lemma_land_goes_round(c.raster@, p.lon - off.0, p.lat - off.1, turns);
    let q = along(x, y, i, n);
    assert(q.lon + off.0 == p.lon + off.0 + turns * TURN);
    assert(q.lon - off.0 == p.lon - off.0 + turns * TURN);
    assert(band_hit(c, q, off));
}

/// The band around a line meets land no matter how often the line has wound around the
/// globe.
pub proof fn lemma_band_goes_round(
    c: LandClassifier,
    a: Point,
    b: Point,
    x: Point,
    y: Point,
    turns: int,
    n: int,
    off: (int, int),
)
    requires
        wound(a, x, turns),
        wound(b, y, turns),
        0 < n,
    ensures
        band_hits_land(c, a, b, n, off) == band_hits_land(c, x, y, n, off),
{
    if band_hits_land(c, a, b, n, off) {
        lemma_band_wound(c, a, b, x, y, turns, n, off);
    }
    if band_hits_land(c, x, y, n, off) {
        assert((-turns) * TURN == -(turns * TURN)) by (nonlinear_arith);
        lemma_band_wound(c, x, y, a, b, -turns, n, off);
    }
}

/// The `i`-th of the `n` equal steps from `a` to `b`.
pub fn point_along(a: Point, b: Point, i: u64, n: u64) -> (p: Point)
    requires
        a.within(DRAWN as int),
        b.within(DRAWN as int),
        i <= n,
        0 < n <= 0x7fff_ffff_ffff,
    ensures
        p == along(a, b, i as int, n as int),
        p.within(DRAWN as int),
{
    proof {
        lemma_along(a, b, i as int, n as int);
        lemma_wide_product(i as int, b.lon - a.lon);
        lemma_wide_product(i as int, b.lat - a.lat);
    }
    let dlon: i128 = (b.lon - a.lon) as i128;
    let dlat: i128 = (b.lat - a.lat) as i128;
    let lon = floor_div(i as i128 * dlon, n as i128);
    let lat = floor_div(i as i128 * dlat, n as i128);
    Point { lon: a.lon + lon as i64, lat: a.lat + lat as i64 }
}

proof fn lemma_wide_product(i: int, d: int)
    by (nonlinear_arith)
    requires
        0 <= i <= 0x7fff_ffff_ffff,
        -0x4000_0000_0000_0000 <= d <= 0x4000_0000_0000_0000,
    ensures
        -0x2000_0000_0000_0000_0000_0000_0000 <= i * d <= 0x2000_0000_0000_0000_0000_0000_0000,
{
}

/// Length of the straight line on the map.
pub fn line_length(a: Point, b: Point) -> (len: u64)
    requires
        a.within(DRAWN as int),
        b.within(DRAWN as int),
    ensures
        len == map_length(a, b),
        len * len <= dist2(a, b),
        dist2(a, b) < (len + 1) * (len + 1),
        len <= 0x7fff_ffff_ffff_ffff,
        len == 0 <==> a == b,
{
    let dlon: i128 = (b.lon - a.lon) as i128;
    let dlat: i128 = (b.lat - a.lat) as i128;
    proof {
        lemma_square(b.lon - a.lon);
        lemma_square(b.lat - a.lat);
        assert(dist2(a, b) == dlon * dlon + dlat * dlat) by (nonlinear_arith)
            requires
                dlon == b.lon - a.lon,
                dlat == b.lat - a.lat,
                dist2(a, b) == (a.lon - b.lon) * (a.lon - b.lon) + (a.lat - b.lat) * (a.lat - b.lat),
        ;
    }
    let d2: i128 = dlon * dlon + dlat * dlat;
    let len = isqrt(d2 as u128);
    proof {
        assert(len <= 0x7fff_ffff_ffff_ffff) by (nonlinear_arith)
            requires
                len * len <= 0x2000_0000_0000_0000_0000_0000_0000_0000,
        ;
        assert(len == 0 ==> d2 == 0) by (nonlinear_arith)
            requires
                0 <= d2,
                d2 < (len + 1) * (len + 1),
        ;
        assert(d2 == 0 ==> len == 0) by (nonlinear_arith)
            requires
                len * len <= d2,
        ;
    }
    len
}

proof fn lemma_square(d: int)
    by (nonlinear_arith)
    requires
        -0x4000_0000_0000_0000 <= d <= 0x4000_0000_0000_0000,
    ensures
        0 <= d * d <= 0x1000_0000_0000_0000_0000_0000_0000_0000,
        d * d == 0 <==> d == 0,
{
}

/// A step of `width` to the left of the line.
pub fn step_sideways(a: Point, b: Point, width: u64, len: u64) -> (off: (i64, i64))
    requires
        a.within(DRAWN as int),
        b.within(DRAWN as int),
        dist2(a, b) < (len + 1) * (len + 1),
        0 < len <= 0x7fff_ffff_ffff_ffff,
        width <= 0xffff_ffff,
    ensures
        (off.0 as int, off.1 as int) == sideways(a, b, width as int, len as int),
        -0x1_ffff_ffff <= off.0 <= 0x1_ffff_ffff,
        -0x1_ffff_ffff <= off.1 <= 0x1_ffff_ffff,
{
    let dlon: i128 = (b.lon - a.lon) as i128;
    let dlat: i128 = (b.lat - a.lat) as i128;
    proof {
        assert(dist2(a, b) == dlon * dlon + dlat * dlat) by (nonlinear_arith)
            requires
                dlon == b.lon - a.lon,
                dlat == b.lat - a.lat,
                dist2(a, b) == (a.lon - b.lon) * (a.lon - b.lon) + (a.lat - b.lat) * (a.lat - b.lat),
        ;
        lemma_leg(dlon as int, dlat as int, len as int);
        lemma_leg(dlat as int, dlon as int, len as int);
        lemma_offset(-dlat as int, width as int, len as int);
        lemma_offset(dlon as int, width as int, len as int);
        assert(-(b.lat - a.lat) * width == (-dlat) * width);
    }
    let lon = floor_div((-dlat) * (width as i128), len as i128);
    let lat = floor_div(dlon * (width as i128), len as i128);
    (lon as i64, lat as i64)
}

proof fn lemma_leg(x: int, y: int, len: int)
    by (nonlinear_arith)
    requires
        x * x + y * y < (len + 1) * (len + 1),
        len >= 0,
    ensures
        -len <= x <= len,
{
}

proof fn lemma_offset(d: int, width: int, len: int)
    requires
        -len <= d <= len,
        0 < len <= 0x7fff_ffff_ffff_ffff,
        0 <= width <= 0xffff_ffff,
    ensures
        -width <= (d * width) / len <= width,
        -0x8000_0000_0000_0000_0000_0000 <= d * width <= 0x8000_0000_0000_0000_0000_0000,
{
    let q = (d * width) / len;
    let r = (d * width) % len;
    vstd::arithmetic::div_mod::lemma_fundamental_div_mod(d * width, len);
    assert(-(len * width) <= d * width <= len * width) by (nonlinear_arith)
        requires
            -len <= d <= len,
            0 <= width,
    ;
    assert(len * width <= 0x8000_0000_0000_0000_0000_0000) by (nonlinear_arith)
        requires
            0 < len <= 0x7fff_ffff_ffff_ffff,
            0 <= width <= 0xffff_ffff,
    ;
    assert(-width <= q <= width) by (nonlinear_arith)
        requires
            len * q + r == d * width,
            0 <= r < len,
            0 < len,
            -(len * width) <= d * width <= len * width,
    ;
}

/// Whether land lies at an inner sample point of the line, or at the offset beside one.
pub fn band_crosses_land(classifier: &LandClassifier, a: Point, b: Point, n: u64, off: (i64, i64)) -> (r: bool)
    requires
        classifier.wf(),
        a.within(DRAWN as int),
        b.within(DRAWN as int),
        0 < n <= 0x7fff_ffff_ffff,
        -0x1_ffff_ffff <= off.0 <= 0x1_ffff_ffff,
        -0x1_ffff_ffff <= off.1 <= 0x1_ffff_ffff,
    ensures
        r == band_hits_land(*classifier, a, b, n as int, (off.0 as int, off.1 as int)),
{
    let mut i: u64 = 1;
    while i < n
        invariant
            classifier.wf(),
            a.within(DRAWN as int),
            b.within(DRAWN as int),
            1 <= i,
            0 < n <= 0x7fff_ffff_ffff,
            -0x1_ffff_ffff <= off.0 <= 0x1_ffff_ffff,
            -0x1_ffff_ffff <= off.1 <= 0x1_ffff_ffff,
            forall|k: int|
                1 <= k < i && k < n ==> !band_hit(
                    *classifier,
                    #[trigger] along(a, b, k, n as int),
                    (off.0 as int, off.1 as int),
                ),
        decreases n - i,
    {
        let p = point_along(a, b, i, n);
        if classifier.is_land(p.lon, p.lat) || classifier.is_land(p.lon + off.0, p.lat + off.1)
            || classifier.is_land(p.lon - off.0, p.lat - off.1) {
            assert(band_hit(*classifier, along(a, b, i as int, n as int), (off.0 as int, off.1 as int)));
            return true;
        }
        i = i + 1;
    }
    false
}

/// Whether the line stays in water, land within `tol` of either end aside; `total` is its
/// length.
pub fn stays_clear(classifier: &LandClassifier, a: Point, b: Point, tol: u64, total: u64) -> (r: bool)
    requires
        classifier.wf(),
        a.within(DRAWN as int),
        b.within(DRAWN as int),
    ensures
        r == clear_of_land(*classifier, a, b, tol as int, total as int),
{
    if total < 1_000 {
        return true;
    }
    let rough: u64 = ((total as u128 + 1_999_999_999) / 2_000_000_000) as u64;
    let n: u64 = if rough >= 2 {
        rough
    } else {
        2
    };
    assert(n == clear_samples(total as int));
    let mut i: u64 = 0;
    while i <= n
        invariant
            classifier.wf(),
            a.within(DRAWN as int),
            b.within(DRAWN as int),
            total >= 1_000,
            2 <= n <= 0x3_0000_0000,
            n == clear_samples(total as int),
            i <= n + 1,
            forall|k: int|
                0 <= k < i && k * total > tol * n && (n - k) * total > tol * n ==> {
                    let p = #[trigger] along(a, b, k, n as int);
                    !classifier.land(p.lon as int, p.lat as int)
                },
        decreases n + 1 - i,
    {
        proof {
            lemma_total(i as int, total as int);
            lemma_total(n - i, total as int);
            lemma_total(n as int, tol as int);
            assert(tol * n == n * tol) by (nonlinear_arith);
        }
        let inner = (i as u128) * (total as u128) > (tol as u128) * (n as u128)
            && ((n - i) as u128) * (total as u128) > (tol as u128) * (n as u128);
        if inner {
            let p = point_along(a, b, i, n);
            if classifier.is_land(p.lon, p.lat) {
                assert(along(a, b, i as int, n as int) == p);
                return false;
            }
        }
        i = i + 1;
    }
    true
}

proof fn lemma_total(i: int, total: int)
    by (nonlinear_arith)
    requires
        0 <= i <= 0x3_0000_0000,
        0 <= total <= 0xffff_ffff_ffff_ffff,
    ensures
        0 <= i * total <= 0x3_0000_0000_0000_0000_0000_0000,
{
}

/// The position `t` lies on the line from `a` to `b` at `i` of `n` parts of the way, both
/// coordinates rounded down.
pub open spec fn lies_at(a: Point, b: Point, i: int, n: int, t: Point) -> bool {
    &&& n * (t.lon - a.lon) <= i * (b.lon - a.lon) < n * (t.lon - a.lon) + n
    &&& n * (t.lat - a.lat) <= i * (b.lat - a.lat) < n * (t.lat - a.lat) + n
}

/// The sample points lie on the line, in equal steps.
pub proof fn lemma_along_lies(a: Point, b: Point, i: int, n: int)
    requires
        0 <= i <= n,
        0 < n,
    ensures
        lies_at(a, b, i, n, along(a, b, i, n)),
{
    lemma_along(a, b, i, n);
    vstd::arithmetic::div_mod::lemma_fundamental_div_mod(i * (b.lon - a.lon), n);
    vstd::arithmetic::div_mod::lemma_fundamental_div_mod(i * (b.lat - a.lat), n);
}

/// There is one position only at a share of the way.
pub proof fn lemma_one_place(a: Point, b: Point, i: int, n: int, t: Point)
    requires
        0 <= i <= n,
        0 < n,
        lies_at(a, b, i, n, t),
    ensures
        t == along(a, b, i, n),
{
    lemma_along_lies(a, b, i, n);
    lemma_same_floor(t.lon - a.lon, along(a, b, i, n).lon - a.lon, i * (b.lon - a.lon), n);
    lemma_same_floor(t.lat - a.lat, along(a, b, i, n).lat - a.lat, i * (b.lat - a.lat), n);
}

proof fn lemma_same_floor(x: int, y: int, d: int, n: int)
    requires
        0 < n,
        n * x <= d < n * x + n,
        n * y <= d < n * y + n,
    ensures
        x == y,
{
    assert(x == y) by (nonlinear_arith)
        requires
            0 < n,
            n * x <= d < n * x + n,
            n * y <= d < n * y + n,
    ;
}

/// Of `n` equal steps, the one at or before `u` of `v` parts of the way.
pub proof fn lemma_step_before(u: int, v: int, n: int) -> (i: int)
    requires
        0 <= u <= v,
        0 < v,
        0 < n,
    ensures
        0 <= i <= n,
        i * v <= u * n < i * v + v,
        u == v ==> i == n,
{
    let i = (u * n) / v;
    vstd::arithmetic::div_mod::lemma_fundamental_div_mod(u * n, v);
    assert(0 <= u * n <= v * n) by (nonlinear_arith)
        requires
            0 <= u <= v,
            0 < n,
    ;
    assert(v * i == i * v) by (nonlinear_arith);
    assert(0 <= i <= n) by (nonlinear_arith)
        requires
            v * i <= u * n < v * i + v,
            0 <= u * n <= v * n,
            0 < v,
    ;
    if u == v {
        assert(i == n) by (nonlinear_arith)
            requires
                v * i <= v * n < v * i + v,
                0 < v,
        ;
    }
    i
}

/// A line whose band is free of land has, for each position on it, a sample point not more
/// than one of its `n` equal steps away that lies in water, and in water to both sides.
pub proof fn lemma_band_sampled(c: LandClassifier, a: Point, b: Point, n: int, off: (int, int), u: int, v: int) -> (r: (
    int,
    Point,
))
    requires
        !band_hits_land(c, a, b, n, off),
        2 <= n,
        0 <= u <= v,
        0 < v,
    ensures
        1 <= r.0 < n,
        -v <= r.0 * v - u * n <= v,
        lies_at(a, b, r.0, n, r.1),
        !c.land(r.1.lon as int, r.1.lat as int),
        !c.land(r.1.lon + off.0, r.1.lat + off.1),
        !c.land(r.1.lon - off.0, r.1.lat - off.1),
{
    let k = lemma_step_before(u, v, n);
    let i = if k < 1 {
        1
    } else if k >= n {
        n - 1
    } else {
        k
    };
    assert(k >= n ==> k == n && i * v == k * v - v && u * n <= k * v) by (nonlinear_arith)
        requires
            k <= n,
            k >= n ==> i == n - 1,
            0 <= u <= v,
            2 <= n,
    ;
    assert(k < 1 ==> i * v == v && k * v == 0) by (nonlinear_arith)
        requires
            0 <= k,
            k < 1 ==> i == 1,
    ;
    let t = along(a, b, i, n);
    lemma_along_lies(a, b, i, n);
    assert(!band_hit(c, along(a, b, i, n), off));
    (i, t)
}

/// A band that is not free of land has land at a position on the line, or at the offset to
/// one of its sides.
pub proof fn lemma_band_blocked(c: LandClassifier, a: Point, b: Point, n: int, off: (int, int)) -> (r: (int, Point))
    requires
        band_hits_land(c, a, b, n, off),
        0 < n,
    ensures
        1 <= r.0 < n,
        lies_at(a, b, r.0, n, r.1),
        ({
            ||| c.land(r.1.lon as int, r.1.lat as int)
            ||| c.land(r.1.lon + off.0, r.1.lat + off.1)
            ||| c.land(r.1.lon - off.0, r.1.lat - off.1)
        }),
{
    let i = choose|i: int| 1 <= i < n && band_hit(c, #[trigger] along(a, b, i, n), off);
    lemma_along_lies(a, b, i, n);
    (i, along(a, b, i, n))
}

proof fn lemma_apart(x: int, d: int, i: int, n: int, u: int, v: int, len: int)
    requires
        2 <= n,
        0 < v,
        n * x <= i * d < n * x + n,
        -v <= i * v - u * n <= v,
        -len <= d <= len,
    ensures
        -v * (len + n) <= n * (v * x - u * d) <= v * (len + n),
{
    let r = i * d - n * x;
    assert(n * (v * x - u * d) == (i * v - u * n) * d - v * r) by (nonlinear_arith)
        requires
            r == i * d - n * x,
    ;
    assert(-v * len <= (i * v - u * n) * d <= v * len) by (nonlinear_arith)
        requires
            -v <= i * v - u * n <= v,
            -len <= d <= len,
    ;
    assert(0 <= v * r <= v * n) by (nonlinear_arith)
        requires
            0 < v,
            0 <= r < n,
    ;
    assert(v * (len + n) == v * len + v * n) by (nonlinear_arith);
    assert(-v * (len + n) == -v * len - v * n) by (nonlinear_arith);
}

/// The position `t` is not further than `far` from the one at `u` of `v` parts of the way
/// from `a` to `b`, in longitude and in latitude, where `unit` of `far` make one unit of
/// angle.
pub open spec fn close_by(a: Point, b: Point, u: int, v: int, t: Point, far: int, unit: int) -> bool {
    &&& -(v * far) <= unit * (v * (t.lon - a.lon) - u * (b.lon - a.lon)) <= v * far
    &&& -(v * far) <= unit * (v * (t.lat - a.lat) - u * (b.lat - a.lat)) <= v * far
}

/// The sides of a line are not longer than the line.
pub proof fn lemma_sides_within(a: Point, b: Point, len: int)
    requires
        0 <= len,
        dist2(a, b) < (len + 1) * (len + 1),
    ensures
        -len <= b.lon - a.lon <= len,
        -len <= b.lat - a.lat <= len,
{
    let x = b.lon - a.lon;
    let y = b.lat - a.lat;
    assert(x * x + y * y == dist2(a, b)) by (nonlinear_arith)
        requires
            x == b.lon - a.lon,
            y == b.lat - a.lat,
            dist2(a, b) == (a.lon - b.lon) * (a.lon - b.lon) + (a.lat - b.lat) * (a.lat - b.lat),
    ;
    lemma_leg(x, y, len);
    lemma_leg(y, x, len);
}

/// A sample point one step away or less is as close as a step is long, but for one unit of
/// rounding: `steps` units of `far` make up the line.
pub proof fn lemma_step_is_close(
    a: Point,
    b: Point,
    len: int,
    i: int,
    n: int,
    t: Point,
    u: int,
    v: int,
    far: int,
    unit: int,
)
    requires
        2 <= n,
        0 < v,
        0 < unit,
        0 <= len,
        dist2(a, b) < (len + 1) * (len + 1),
        unit * len <= n * far,
        lies_at(a, b, i, n, t),
        -v <= i * v - u * n <= v,
    ensures
        close_by(a, b, u, v, t, far + unit, unit),
{
    lemma_sides_within(a, b, len);
    lemma_apart(t.lon - a.lon, b.lon - a.lon, i, n, u, v, len);
    lemma_apart(t.lat - a.lat, b.lat - a.lat, i, n, u, v, len);
    lemma_unscale(v * (t.lon - a.lon) - u * (b.lon - a.lon), n, v, len, far, unit);
    lemma_unscale(v * (t.lat - a.lat) - u * (b.lat - a.lat), n, v, len, far, unit);
}

proof fn lemma_unscale(z: int, n: int, v: int, len: int, far: int, unit: int)
    requires
        2 <= n,
        0 < v,
        0 < unit,
        0 <= len,
        unit * len <= n * far,
        -v * (len + n) <= n * z <= v * (len + n),
    ensures
        -(v * (far + unit)) <= unit * z <= v * (far + unit),
{
    let w = unit * z;
    let top = v * (far + unit);
    assert(unit * (v * (len + n)) <= n * top) by (nonlinear_arith)
        requires
            0 < v,
            0 < unit,
            unit * len <= n * far,
            top == v * (far + unit),
    ;
    assert(n * w <= n * top && -(n * top) <= n * w) by (nonlinear_arith)
        requires
            w == unit * z,
            0 < unit,
            unit * (v * (len + n)) <= n * top,
            -v * (len + n) <= n * z <= v * (len + n),
    ;
    assert(-top <= w <= top) by (nonlinear_arith)
        requires
            n * w <= n * top,
            -(n * top) <= n * w,
            2 <= n,
    ;
}

/// A line that was found to stay in water has, for each position further than two kilometres
/// more than `tol` from both of its ends, a sampled position in water within two kilometres of
/// it; `total` is the length of the line.
pub proof fn lemma_clear_is_sampled(c: LandClassifier, a: Point, b: Point, tol: int, total: int, u: int, v: int) -> (r: (
    int,
    int,
    Point,
))
    requires
        clear_of_land(c, a, b, tol, total),
        total >= 1_000,
        tol >= 0,
        0 <= u <= v,
        0 < v,
        u * total > (tol + 2 * KM) * v,
        (v - u) * total > (tol + 2 * KM) * v,
    ensures
        2 <= r.1,
        0 <= r.0 <= r.1,
        total <= 2 * KM * r.1,
        -v <= r.0 * v - u * r.1 <= v,
        lies_at(a, b, r.0, r.1, r.2),
        !c.land(r.2.lon as int, r.2.lat as int),
{
    let n = clear_samples(total);
    let far = 2 * KM;
    assert(total <= far * n) by (nonlinear_arith)
        requires
            total <= 2_000_000_000 * n,
            far == 2_000_000_000,
    ;
    let i = lemma_step_before(u, v, n);
    let e = u * n - i * v;
    assert(i * total > tol * n) by (nonlinear_arith)
        requires
            i * v == u * n - e,
            0 <= e < v,
            0 < v,
            2 <= n,
            0 < total,
            total <= far * n,
            u * total > (tol + far) * v,
    {
        assert(v * (i * total) == (u * n - e) * total);
        assert((u * n - e) * total == n * (u * total) - e * total);
        assert(n * (u * total) > n * ((tol + far) * v));
        assert(e * total <= v * total);
        assert(v * total <= v * (far * n));
        assert(n * ((tol + far) * v) == v * (tol * n) + v * (far * n));
        assert(v * (i * total) > v * (tol * n));
    }
    assert((n - i) * total > tol * n) by (nonlinear_arith)
        requires
            i * v == u * n - e,
            0 <= e < v,
            0 < v,
            2 <= n,
            0 < total,
            0 < far,
            (v - u) * total > (tol + far) * v,
    {
        assert(v * ((n - i) * total) == ((v - u) * n + e) * total);
        assert(((v - u) * n + e) * total == n * ((v - u) * total) + e * total);
        assert(e * total >= 0);
        assert(n * ((v - u) * total) > n * ((tol + far) * v));
        assert(n * ((tol + far) * v) == v * (tol * n) + v * (far * n));
        assert(v * (far * n) >= 0);
        assert(v * ((n - i) * total) > v * (tol * n));
    }
    let t = along(a, b, i, n);
    lemma_along_lies(a, b, i, n);
    (i, n, t)
}

/// A line that was not found to stay in water has land on it, further than `tol` from both
/// of its ends.
pub proof fn lemma_not_clear_has_land(c: LandClassifier, a: Point, b: Point, tol: int, total: int) -> (r: (int, int, Point))
    requires
        !clear_of_land(c, a, b, tol, total),
    ensures
        0 <= r.0 <= r.1,
        0 < r.1,
        total >= 1_000,
        r.0 * total > tol * r.1,
        (r.1 - r.0) * total > tol * r.1,
        lies_at(a, b, r.0, r.1, r.2),
        c.land(r.2.lon as int, r.2.lat as int),
{
    let n = clear_samples(total);
    let i = choose|i: int|
        0 <= i <= n && i * total > tol * n && (n - i) * total > tol * n && {
            let p = #[trigger] along(a, b, i, n);
            c.land(p.lon as int, p.lat as int)
        };
    lemma_along_lies(a, b, i, n);
    (i, n, along(a, b, i, n))
}

/// The offset is a step of length `w` to the left of the line from `a` to `b`, both of its
/// coordinates rounded down; `len` is the length of the line, rounded down.
pub open spec fn steps_left(a: Point, b: Point, w: int, len: int, off: (int, int)) -> bool {
    &&& 0 < len
    &&& len * len <= dist2(a, b) < (len + 1) * (len + 1)
    &&& len * off.0 <= -(b.lat - a.lat) * w < len * off.0 + len
    &&& len * off.1 <= (b.lon - a.lon) * w < len * off.1 + len
}

/// The length on the map is the root of the squared distance, rounded down.
pub proof fn lemma_map_length(a: Point, b: Point)
    ensures
        0 <= map_length(a, b),
        map_length(a, b) * map_length(a, b) <= dist2(a, b),
        dist2(a, b) < (map_length(a, b) + 1) * (map_length(a, b) + 1),
        a != b ==> map_length(a, b) > 0,
{
    let x = a.lon - b.lon;
    let y = a.lat - b.lat;
    assert(x * x >= 0 && y * y >= 0 && (x != 0 ==> x * x >= 1) && (y != 0 ==> y * y >= 1)) by (nonlinear_arith);
    let r = lemma_root(dist2(a, b), dist2(a, b));
    lemma_floor_sqrt(dist2(a, b), r);
    if r == 0 {
        assert((r + 1) * (r + 1) == 1) by (nonlinear_arith)
            requires
                r == 0,
        ;
    }
}

proof fn lemma_root(n: int, k: int) -> (r: int)
    requires
        n >= 0,
        k >= 0,
        n < (k + 1) * (k + 1) || k == n,
    ensures
        r >= 0,
        r * r <= n,
        n < (r + 1) * (r + 1),
    decreases k,
{
    assert(k == n ==> n < (k + 1) * (k + 1)) by (nonlinear_arith)
        requires
            n >= 0,
    ;
    if k * k <= n {
        k
    } else {
        assert(k > 0) by (nonlinear_arith)
            requires
                k >= 0,
                k * k > n,
                n >= 0,
        ;
        lemma_root(n, k - 1)
    }
}

/// A step to the side is as long as was asked, and at right angles to the line.
pub proof fn lemma_sideways_steps(a: Point, b: Point, w: int)
    requires
        a != b,
        0 <= w <= 0xffff_ffff,
        map_length(a, b) <= 0x7fff_ffff_ffff_ffff,
    ensures
        ({
            let off = sideways(a, b, w, map_length(a, b));
            &&& steps_left(a, b, w, map_length(a, b), off)
            &&& -w <= off.0 <= w
            &&& -w <= off.1 <= w
        }),
{
    let len = map_length(a, b);
    lemma_map_length(a, b);
    lemma_sides_within(a, b, len);
    lemma_offset(-(b.lat - a.lat), w, len);
    lemma_offset(b.lon - a.lon, w, len);
    vstd::arithmetic::div_mod::lemma_fundamental_div_mod(-(b.lat - a.lat) * w, len);
    vstd::arithmetic::div_mod::lemma_fundamental_div_mod((b.lon - a.lon) * w, len);
}

/// Positions that may be drawn are not further apart than a `u64` can measure.
pub proof fn lemma_length_fits(a: Point, b: Point)
    requires
        a.within(DRAWN as int),
        b.within(DRAWN as int),
    ensures
        map_length(a, b) <= 0x7fff_ffff_ffff_ffff,
{
    let len = map_length(a, b);
    lemma_map_length(a, b);
    lemma_square(a.lon - b.lon);
    lemma_square(a.lat - b.lat);
    assert(len <= 0x7fff_ffff_ffff_ffff) by (nonlinear_arith)
        requires
            0 <= len,
            len * len <= 0x2000_0000_0000_0000_0000_0000_0000_0000,
    ;
}

} // verus!
