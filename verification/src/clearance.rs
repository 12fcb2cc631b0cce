//! What the tests for land are worth: how close to a position on a line that was found clear
//! the nearest sample in water is, and how close to a line that was refused the land lies.
use vstd::prelude::*;

use crate::geo::{dist2, measured, Point, DEGREE, DRAWN, KM, TURN};
use crate::graph_builder::{edge_offset, edge_samples, hits_land, EDGE_KM};
use crate::land::{corner_box, meets_turned, LandClassifier};
use crate::los::{
    band_clear, in_sight, open_sea, piece_clear, piece_count, sight_samples, SIGHT_BAND,
};
use crate::reconnect::can_bridge;
use crate::router::connects;
use crate::sampling::{
    along, close_by, lemma_along, lemma_along_lies, lemma_one_place, lemma_step_before, sideways, lemma_band_blocked, lemma_band_sampled, lemma_clear_is_sampled, lemma_length_fits,
    lemma_map_length, lemma_not_clear_has_land, lemma_sideways_steps, lemma_step_is_close, lies_at,
    map_length, steps_left,
};
use crate::spatial::{box_items, BoxEntry};

verus! {

/// A connector that is drawn keeps to the water: for each position on it more than five
/// kilometres from both ends, there is a position in water on it two kilometres away or less.
pub proof fn lemma_connector_over_water<D: Fn(Point, Point) -> u64>(
    c: LandClassifier,
    dist: D,
    a: Point,
    b: Point,
    u: int,
    v: int,
) -> (r: (int, int, Point))
    requires
        connects(c, dist, a, b),
        0 <= u <= v,
        0 < v,
        u * measured(dist, a, b) > 5 * KM * v,
        (v - u) * measured(dist, a, b) > 5 * KM * v,
    ensures
        0 <= r.0 <= r.1,
        -2 * KM * v * r.1 <= (r.0 * v - u * r.1) * measured(dist, a, b) <= 2 * KM * v * r.1,
        lies_at(a, b, r.0, r.1, r.2),
        !c.land(r.2.lon as int, r.2.lat as int),
{
    let total = measured(dist, a, b) as int;
    assert(total >= 1_000) by (nonlinear_arith)
        requires
            0 <= u <= v,
            0 < v,
            0 <= total,
            u * total > 5_000_000_000 * v,
    ;
    assert((3_000_000_000 + 2 * KM) * v == 5 * KM * v) by (nonlinear_arith);
    let r = lemma_clear_is_sampled(c, a, b, 3_000_000_000, total, u, v);
    lemma_share_apart(r.0, r.1, u, v, total, 2 * KM);
    r
}

proof fn lemma_share_apart(i: int, n: int, u: int, v: int, total: int, far: int)
    requires
        0 < v,
        0 <= total <= far * n,
        -v <= i * v - u * n <= v,
    ensures
        -far * v * n <= (i * v - u * n) * total <= far * v * n,
{
    let d = i * v - u * n;
    assert(-(v * total) <= d * total <= v * total) by (nonlinear_arith)
        requires
            -v <= d <= v,
            0 <= total,
    ;
    assert(v * total <= v * (far * n)) by (nonlinear_arith)
        requires
            0 < v,
            total <= far * n,
    ;
    assert(v * (far * n) == far * v * n) by (nonlinear_arith);
    assert(-far * v * n == -(far * v * n)) by (nonlinear_arith);
}

/// A connector is dropped only where there is land on it, more than three kilometres from both
/// ends.
pub proof fn lemma_dropped_connector_meets_land<D: Fn(Point, Point) -> u64>(
    c: LandClassifier,
    dist: D,
    a: Point,
    b: Point,
) -> (r: (int, int, Point))
    requires
        !connects(c, dist, a, b),
    ensures
        0 <= r.0 <= r.1,
        0 < r.1,
        r.0 * measured(dist, a, b) > 3 * KM * r.1,
        (r.1 - r.0) * measured(dist, a, b) > 3 * KM * r.1,
        lies_at(a, b, r.0, r.1, r.2),
        c.land(r.2.lon as int, r.2.lat as int),
{
    lemma_not_clear_has_land(c, a, b, 3 * KM, measured(dist, a, b) as int)
}

/// A bridge is not longer than three thousand kilometres, and keeps to the water: for each
/// position on it more than four kilometres from both ends, there is a position in water on it
/// two kilometres away or less.
pub proof fn lemma_bridge_over_water<D: Fn(Point, Point) -> u64>(
    c: LandClassifier,
    dist: D,
    a: Point,
    b: Point,
    u: int,
    v: int,
) -> (r: (int, int, Point))
    requires
        can_bridge(c, dist, a, b),
        0 <= u <= v,
        0 < v,
        u * measured(dist, a, b) > 4 * KM * v,
        (v - u) * measured(dist, a, b) > 4 * KM * v,
    ensures
        measured(dist, a, b) <= 3_000 * KM,
        0 <= r.0 <= r.1,
        -2 * KM * v * r.1 <= (r.0 * v - u * r.1) * measured(dist, a, b) <= 2 * KM * v * r.1,
        lies_at(a, b, r.0, r.1, r.2),
        !c.land(r.2.lon as int, r.2.lat as int),
{
    let total = measured(dist, a, b) as int;
    assert(total >= 1_000) by (nonlinear_arith)
        requires
            0 <= u <= v,
            0 < v,
            0 <= total,
            u * total > 4_000_000_000 * v,
    ;
    assert((2_000_000_000 + 2 * KM) * v == 4 * KM * v) by (nonlinear_arith);
    let r = lemma_clear_is_sampled(c, a, b, 2_000_000_000, total, u, v);
    lemma_share_apart(r.0, r.1, u, v, total, 2 * KM);
    r
}

/// A bridge that is not too long is refused only where there is land on it, more than two
/// kilometres from both ends.
pub proof fn lemma_refused_bridge_meets_land<D: Fn(Point, Point) -> u64>(
    c: LandClassifier,
    dist: D,
    a: Point,
    b: Point,
) -> (r: (int, int, Point))
    requires
        !can_bridge(c, dist, a, b),
        measured(dist, a, b) <= 3_000 * KM,
    ensures
        0 <= r.0 <= r.1,
        0 < r.1,
        r.0 * measured(dist, a, b) > 2 * KM * r.1,
        (r.1 - r.0) * measured(dist, a, b) > 2 * KM * r.1,
        lies_at(a, b, r.0, r.1, r.2),
        c.land(r.2.lon as int, r.2.lat as int),
{
    lemma_not_clear_has_land(c, a, b, 2 * KM, measured(dist, a, b) as int)
}

/// An edge that is not refused keeps to the water: for each position on it there is a sample in
/// water 500 metres away or less, at 111 kilometres to the degree, but for a unit of rounding.
pub proof fn lemma_edge_over_water(c: LandClassifier, a: Point, b: Point, u: int, v: int) -> (t: Point)
    requires
        !hits_land(c, a, b),
        a != b,
        0 <= u <= v,
        0 < v,
    ensures
        close_by(a, b, u, v, t, DEGREE + 222, 222),
        !c.land(t.lon as int, t.lat as int),
{
    let len = map_length(a, b);
    let n = edge_samples(len);
    lemma_map_length(a, b);
    let r = lemma_band_sampled(c, a, b, n, edge_offset(a, b, len, 1), u, v);
    lemma_edge_steps(len, n);
    lemma_step_is_close(a, b, len, r.0, n, r.1, u, v, DEGREE as int, 222);
    r.1
}

proof fn lemma_edge_steps(len: int, n: int)
    requires
        0 <= len,
        n == edge_samples(len),
    ensures
        222 * len <= n * DEGREE,
        3 <= n,
{
}

/// An edge of two kilometres or more that is not refused keeps off the coast: for each position
/// on it there is a sample within 500 metres with water to both of its sides, one kilometre off
/// and, at another or the same sample, two.
pub proof fn lemma_edge_keeps_off(c: LandClassifier, a: Point, b: Point, km: int, u: int, v: int) -> (r: (
    Point,
    int,
    int,
    (int, int),
))
    requires
        !hits_land(c, a, b),
        a.within(DRAWN as int),
        b.within(DRAWN as int),
        111 * 111 * dist2(a, b) >= 4 * (DEGREE + 111) * (DEGREE + 111),
        km == 1 || km == 2,
        0 <= u <= v,
        0 < v,
    ensures
        close_by(a, b, u, v, r.0, DEGREE + 222, 222),
        km * DEGREE <= 111 * r.1 <= km * (DEGREE + 111),
        steps_left(a, b, r.1, r.2, r.3),
        !c.land(r.0.lon + r.3.0, r.0.lat + r.3.1),
        !c.land(r.0.lon - r.3.0, r.0.lat - r.3.1),
{
    let len = map_length(a, b);
    let n = edge_samples(len);
    lemma_map_length(a, b);
    lemma_length_fits(a, b);
    if a == b {
        assert(a.lon - b.lon == 0 && a.lat - b.lat == 0);
        assert(dist2(a, b) == 0) by (nonlinear_arith)
            requires
                dist2(a, b) == (a.lon - b.lon) * (a.lon - b.lon) + (a.lat - b.lat) * (a.lat - b.lat),
                a.lon - b.lon == 0,
                a.lat - b.lat == 0,
        ;
        assert(4 * (DEGREE + 111) * (DEGREE + 111) > 0) by (nonlinear_arith);
    }
    assert(111 * len >= 2 * DEGREE) by (nonlinear_arith)
        requires
            0 <= len,
            dist2(a, b) < (len + 1) * (len + 1),
            111 * 111 * dist2(a, b) >= 4 * (DEGREE + 111) * (DEGREE + 111),
    ;
    let off = edge_offset(a, b, len, km);
    let r = lemma_band_sampled(c, a, b, n, off, u, v);
    lemma_edge_steps(len, n);
    lemma_step_is_close(a, b, len, r.0, n, r.1, u, v, DEGREE as int, 222);
    lemma_sideways_steps(a, b, EDGE_KM * km);
    (r.1, EDGE_KM * km, len, off)
}

/// An edge is refused only where land lies not further than two kilometres from a position on
/// it, but for a few units of rounding.
pub proof fn lemma_refused_edge_nears_land(c: LandClassifier, a: Point, b: Point) -> (r: (int, int, Point, int, int))
    requires
        hits_land(c, a, b),
        a.within(DRAWN as int),
        b.within(DRAWN as int),
    ensures
        0 < r.0 < r.1,
        lies_at(a, b, r.0, r.1, r.2),
        -(2 * DEGREE + 222) <= 111 * (r.3 - r.2.lon) <= 2 * DEGREE + 222,
        -(2 * DEGREE + 222) <= 111 * (r.4 - r.2.lat) <= 2 * DEGREE + 222,
        c.land(r.3, r.4),
{
    let len = map_length(a, b);
    let n = edge_samples(len);
    lemma_map_length(a, b);
    lemma_length_fits(a, b);
    let km: int = if crate::sampling::band_hits_land(c, a, b, n, edge_offset(a, b, len, 1)) {
        1
    } else {
        2
    };
    let off = edge_offset(a, b, len, km);
    let r = lemma_band_blocked(c, a, b, n, off);
    if 111 * len >= 2 * DEGREE {
        lemma_sideways_steps(a, b, EDGE_KM * km);
    } else {
        crate::sampling::lemma_sides_within(a, b, len);
        assert(-(b.lat - a.lat) * km == -(b.lat - a.lat) || -(b.lat - a.lat) * km == 2 * (-(b.lat - a.lat)))
            by (nonlinear_arith)
            requires
                km == 1 || km == 2,
        ;
        assert((b.lon - a.lon) * km == (b.lon - a.lon) || (b.lon - a.lon) * km == 2 * (b.lon - a.lon))
            by (nonlinear_arith)
            requires
                km == 1 || km == 2,
        ;
    }
    let t = r.1;
    if c.land(t.lon as int, t.lat as int) {
        (r.0, n, t, t.lon as int, t.lat as int)
    } else if c.land(t.lon + off.0, t.lat + off.1) {
        (r.0, n, t, t.lon + off.0, t.lat + off.1)
    } else {
        (r.0, n, t, t.lon - off.0, t.lat - off.1)
    }
}

/// Beside an edge shorter than two kilometres the band is narrower in proportion: at `km`
/// kilometres, that many halves of the edge.
pub proof fn lemma_short_edge_keeps_off(c: LandClassifier, a: Point, b: Point, km: int, u: int, v: int) -> (r: (
    Point,
    (int, int),
))
    requires
        !hits_land(c, a, b),
        a != b,
        111 * 111 * dist2(a, b) < 4 * DEGREE * DEGREE,
        km == 1 || km == 2,
        0 <= u <= v,
        0 < v,
    ensures
        close_by(a, b, u, v, r.0, DEGREE + 222, 222),
        2 * r.1.0 <= -(b.lat - a.lat) * km < 2 * r.1.0 + 2,
        2 * r.1.1 <= (b.lon - a.lon) * km < 2 * r.1.1 + 2,
        !c.land(r.0.lon + r.1.0, r.0.lat + r.1.1),
        !c.land(r.0.lon - r.1.0, r.0.lat - r.1.1),
{
    let len = map_length(a, b);
    let n = edge_samples(len);
    lemma_map_length(a, b);
    assert(111 * len < 2 * DEGREE) by (nonlinear_arith)
        requires
            0 <= len,
            len * len <= dist2(a, b),
            111 * 111 * dist2(a, b) < 4 * DEGREE * DEGREE,
    ;
    let off = edge_offset(a, b, len, km);
    let r = lemma_band_sampled(c, a, b, n, off, u, v);
    lemma_edge_steps(len, n);
    lemma_step_is_close(a, b, len, r.0, n, r.1, u, v, DEGREE as int, 222);
    (r.1, off)
}

/// A sample of a line that is clear of land: for each position on it, one that is a kilometre
/// away or less and has water at it and 0.027 degrees to both sides.
proof fn lemma_line_sampled(c: LandClassifier, p: Point, q: Point, u: int, v: int) -> (r: (Point, int, (int, int)))
    requires
        band_clear(c, p, q),
        p.within(DRAWN as int),
        q.within(DRAWN as int),
        0 <= u <= v,
        0 < v,
    ensures
        close_by(p, q, u, v, r.0, DEGREE + 111, 111),
        !c.land(r.0.lon as int, r.0.lat as int),
        p != q ==> {
            &&& steps_left(p, q, 34_560_000, r.1, r.2)
            &&& !c.land(r.0.lon + r.2.0, r.0.lat + r.2.1)
            &&& !c.land(r.0.lon - r.2.0, r.0.lat - r.2.1)
        },
{
    let len = map_length(p, q);
    let n = sight_samples(len);
    lemma_map_length(p, q);
    lemma_length_fits(p, q);
    let off = if len > 0 {
        sideways(p, q, SIGHT_BAND as int, len)
    } else {
        (0, 0)
    };
    let r = lemma_band_sampled(c, p, q, n, off, u, v);
    assert(111 * len <= n * DEGREE);
    lemma_step_is_close(p, q, len, r.0, n, r.1, u, v, DEGREE as int, 111);
    if p != q {
        lemma_sideways_steps(p, q, 34_560_000);
    }
    (r.1, len, off)
}

proof fn lemma_piece_share(d: int, x: int, y: int, s: int, k: int, u: int, v: int, j: int)
    requires
        0 < k,
        0 < v,
        0 <= u <= v,
        k * x <= s * d < k * x + k,
        k * y <= (s + 1) * d < k * y + k,
        j == s * v + u,
    ensures
        -(k * v) <= k * (u * (y - x) + v * x) - j * d <= 0,
{
    let r1 = s * d - k * x;
    let r2 = (s + 1) * d - k * y;
    assert(k * (u * (y - x) + v * x) == (v - u) * (k * x) + u * (k * y)) by (nonlinear_arith);
    assert((v - u) * (s * d) + u * ((s + 1) * d) == j * d) by (nonlinear_arith)
        requires
            j == s * v + u,
    ;
    assert((v - u) * (k * x) == (v - u) * (s * d) - (v - u) * r1) by (nonlinear_arith)
        requires
            r1 == s * d - k * x,
    ;
    assert(u * (k * y) == u * ((s + 1) * d) - u * r2) by (nonlinear_arith)
        requires
            r2 == (s + 1) * d - k * y,
    ;
    assert(0 <= (v - u) * r1 <= (v - u) * k) by (nonlinear_arith)
        requires
            0 <= u <= v,
            0 <= r1 < k,
    ;
    assert(0 <= u * r2 <= u * k) by (nonlinear_arith)
        requires
            0 <= u,
            0 <= r2 < k,
    ;
    assert((v - u) * k + u * k == k * v) by (nonlinear_arith);
}

/// What is close to a position on the `s`-th of `k` pieces is close to it on the whole line,
/// but for another unit of rounding.
proof fn lemma_piece_is_part(
    a: Point,
    b: Point,
    s: int,
    k: int,
    p: Point,
    q: Point,
    u: int,
    v: int,
    t: Point,
    far: int,
    unit: int,
)
    requires
        0 < k,
        0 < v,
        0 <= u <= v,
        0 < unit,
        lies_at(a, b, s, k, p),
        lies_at(a, b, s + 1, k, q),
        close_by(p, q, u, v, t, far, unit),
    ensures
        close_by(a, b, s * v + u, k * v, t, far + unit, unit),
{
    let j = s * v + u;
    lemma_piece_share(b.lon - a.lon, p.lon - a.lon, q.lon - a.lon, s, k, u, v, j);
    lemma_piece_share(b.lat - a.lat, p.lat - a.lat, q.lat - a.lat, s, k, u, v, j);
    lemma_part_close(
        t.lon - p.lon,
        q.lon - p.lon,
        p.lon - a.lon,
        b.lon - a.lon,
        k,
        u,
        v,
        j,
        far,
        unit,
    );
    lemma_part_close(
        t.lat - p.lat,
        q.lat - p.lat,
        p.lat - a.lat,
        b.lat - a.lat,
        k,
        u,
        v,
        j,
        far,
        unit,
    );
}

proof fn lemma_part_close(z: int, w: int, x: int, d: int, k: int, u: int, v: int, j: int, far: int, unit: int)
    requires
        0 < k,
        0 < v,
        0 < unit,
        -(v * far) <= unit * (v * z - u * w) <= v * far,
        -(k * v) <= k * (u * w + v * x) - j * d <= 0,
    ensures
        -(k * v * (far + unit)) <= unit * (k * v * (z + x) - j * d) <= k * v * (far + unit),
{
    let e = unit * (v * z - u * w);
    let g = k * (u * w + v * x) - j * d;
    let f = v * z - u * w;
    let h = u * w + v * x;
    assert(k * v * (z + x) == k * (v * (z + x))) by (nonlinear_arith);
    assert(v * (z + x) == f + h) by (nonlinear_arith)
        requires
            f == v * z - u * w,
            h == u * w + v * x,
    ;
    assert(k * (f + h) == k * f + k * h) by (nonlinear_arith);
    assert(unit * (k * f + g) == unit * (k * f) + unit * g) by (nonlinear_arith);
    assert(unit * (k * f) == k * (unit * f)) by (nonlinear_arith);
    assert(-(k * (v * far)) <= k * e <= k * (v * far)) by (nonlinear_arith)
        requires
            0 < k,
            -(v * far) <= e <= v * far,
    ;
    assert(-(unit * (k * v)) <= unit * g <= 0) by (nonlinear_arith)
        requires
            0 < unit,
            -(k * v) <= g <= 0,
    ;
    assert(k * v * (far + unit) == k * (v * far) + unit * (k * v)) by (nonlinear_arith);
    assert(unit * (k * v) >= 0) by (nonlinear_arith)
        requires
            0 < unit,
            0 < k,
            0 < v,
    ;
}

proof fn lemma_rescale(a: Point, b: Point, u: int, v: int, k: int, t: Point, far: int, unit: int)
    requires
        0 < k,
        0 < v,
        close_by(a, b, k * u, k * v, t, far, unit),
    ensures
        close_by(a, b, u, v, t, far, unit),
{
    lemma_rescale_one(t.lon - a.lon, b.lon - a.lon, u, v, k, far, unit);
    lemma_rescale_one(t.lat - a.lat, b.lat - a.lat, u, v, k, far, unit);
}

proof fn lemma_rescale_one(z: int, d: int, u: int, v: int, k: int, far: int, unit: int)
    requires
        0 < k,
        -(k * v * far) <= unit * (k * v * z - k * u * d) <= k * v * far,
    ensures
        -(v * far) <= unit * (v * z - u * d) <= v * far,
{
    let e = unit * (v * z - u * d);
    let f = v * z - u * d;
    assert(k * v * z == k * (v * z)) by (nonlinear_arith);
    assert(k * u * d == k * (u * d)) by (nonlinear_arith);
    assert(k * (v * z) - k * (u * d) == k * f) by (nonlinear_arith)
        requires
            f == v * z - u * d,
    ;
    assert(unit * (k * f) == k * (unit * f)) by (nonlinear_arith);
    let top = v * far;
    assert(k * v * far == k * top) by (nonlinear_arith)
        requires
            top == v * far,
    ;
    assert(-top <= e <= top) by (nonlinear_arith)
        requires
            0 < k,
            -(k * top) <= k * e <= k * top,
    ;
}

/// What two shares of the way order, they order on the way too.
proof fn lemma_floors_ordered(d: int, x: int, y: int, i: int, n: int, u: int, v: int)
    requires
        0 < n,
        0 < v,
        n * x <= i * d < n * x + n,
        v * y <= u * d < v * y + v,
        i * v <= u * n,
    ensures
        d >= 0 ==> x <= y,
        d <= 0 ==> y <= x,
{
    if d >= 0 {
        assert(x <= y) by (nonlinear_arith)
            requires
                0 < n,
                0 < v,
                d >= 0,
                n * x <= i * d,
                u * d < v * y + v,
                i * v <= u * n,
        {
            assert(v * (n * x) <= v * (i * d));
            assert(v * (i * d) == (i * v) * d);
            assert((i * v) * d <= (u * n) * d);
            assert((u * n) * d == n * (u * d));
            assert(n * (u * d) < n * (v * y + v));
            assert(v * (n * x) == (v * n) * x);
            assert(n * (v * y + v) == (v * n) * (y + 1));
            assert((v * n) * x < (v * n) * (y + 1));
            assert(v * n > 0);
        }
    }
    if d <= 0 {
        assert(y <= x) by (nonlinear_arith)
            requires
                0 < n,
                0 < v,
                d <= 0,
                i * d < n * x + n,
                v * y <= u * d,
                i * v <= u * n,
        {
            assert(n * (v * y) <= n * (u * d));
            assert(n * (u * d) == (u * n) * d);
            assert((u * n) * d <= (i * v) * d);
            assert((i * v) * d == v * (i * d));
            assert(v * (i * d) < v * (n * x + n));
            assert(n * (v * y) == (v * n) * y);
            assert(v * (n * x + n) == (v * n) * (x + 1));
            assert((v * n) * y < (v * n) * (x + 1));
            assert(v * n > 0);
        }
    }
}

/// A line in sight keeps to the water from one end to the other: at each position `w` on it
/// that lies in the bounding box of a land ring, moved by any number of turns, there is a sample
/// a kilometre away or less, at 111 to the degree and but for two units of rounding, that lies
/// in water.
pub proof fn lemma_sight_over_water(
    c: LandClassifier,
    a: Point,
    b: Point,
    u: int,
    v: int,
    w: Point,
    e: BoxEntry,
    turns: int,
) -> (t: Point)
    requires
        in_sight(c, a, b),
        a.within(DRAWN as int),
        b.within(DRAWN as int),
        0 <= u <= v,
        0 < v,
        lies_at(a, b, u, v, w),
        box_items(c.tree).contains(e),
        e.bbox.min_lon <= w.lon + turns * TURN <= e.bbox.max_lon,
        e.bbox.min_lat <= w.lat <= e.bbox.max_lat,
    ensures
        close_by(a, b, u, v, t, DEGREE + 222, 111),
        !c.land(t.lon as int, t.lat as int),
{
    lemma_sight_band(c, a, b, u, v, w, e, turns).0
}

/// A line in sight keeps off the coast: the sample of it that is a kilometre away or less from a
/// position near land has water to both sides too, 0.027 degrees off at right angles to the
/// piece of the line, from `p` to `q` and not longer than 200 kilometres, that it lies on.
pub proof fn lemma_sight_band(
    c: LandClassifier,
    a: Point,
    b: Point,
    u: int,
    v: int,
    w: Point,
    e: BoxEntry,
    turns: int,
) -> (r: (Point, Point, Point, int, (int, int)))
    requires
        in_sight(c, a, b),
        a.within(DRAWN as int),
        b.within(DRAWN as int),
        0 <= u <= v,
        0 < v,
        lies_at(a, b, u, v, w),
        box_items(c.tree).contains(e),
        e.bbox.min_lon <= w.lon + turns * TURN <= e.bbox.max_lon,
        e.bbox.min_lat <= w.lat <= e.bbox.max_lat,
    ensures
        close_by(a, b, u, v, r.0, DEGREE + 222, 111),
        !c.land(r.0.lon as int, r.0.lat as int),
        -200 * DEGREE <= 111 * (r.2.lon - r.1.lon) <= 200 * DEGREE,
        -200 * DEGREE <= 111 * (r.2.lat - r.1.lat) <= 200 * DEGREE,
        r.1 != r.2 ==> {
            &&& steps_left(r.1, r.2, 34_560_000, r.3, r.4)
            &&& !c.land(r.0.lon + r.4.0, r.0.lat + r.4.1)
            &&& !c.land(r.0.lon - r.4.0, r.0.lat - r.4.1)
        },
{
    reveal(in_sight);
    let len = map_length(a, b);
    lemma_map_length(a, b);
    lemma_length_fits(a, b);
    crate::sampling::lemma_sides_within(a, b, len);
    lemma_one_place(a, b, u, v, w);
    lemma_along(a, b, u, v);
    assert(meets_turned(e.bbox, corner_box(a.lon, a.lat, b.lon, b.lat), turns));
    assert(!open_sea(c, a, b));
    if 111 * len < 200 * DEGREE {
        let r = lemma_line_sampled(c, a, b, u, v);
        lemma_looser(a, b, u, v, r.0, DEGREE + 111, DEGREE + 222, 111);
        (r.0, a, b, r.1, r.2)
    } else {
        let k = piece_count(len);
        assert(111 * len <= k * (100 * DEGREE)) by {
            vstd::arithmetic::div_mod::lemma_fundamental_div_mod(
                111 * len + 100 * DEGREE - 1,
                100 * DEGREE,
            );
        }
        assert(k > 0);
        let step = lemma_step_before(u, v, k);
        let s = if step == k {
            k - 1
        } else {
            step
        };
        let x = u * k - s * v;
        assert(0 <= x <= v && s * v <= u * k <= (s + 1) * v) by (nonlinear_arith)
            requires
                step * v <= u * k < step * v + v,
                0 <= u <= v,
                0 < v,
                s == (if step == k {
                    k - 1
                } else {
                    step
                }),
                x == u * k - s * v,
                0 < k,
        ;
        assert(piece_clear(c, a, b, s, k));
        let p = along(a, b, s, k);
        let q = along(a, b, s + 1, k);
        lemma_along(a, b, s, k);
        lemma_along(a, b, s + 1, k);
        lemma_along_lies(a, b, s, k);
        lemma_along_lies(a, b, s + 1, k);
        lemma_floors_ordered(b.lon - a.lon, p.lon - a.lon, w.lon - a.lon, s, k, u, v);
        lemma_floors_ordered(b.lat - a.lat, p.lat - a.lat, w.lat - a.lat, s, k, u, v);
        lemma_floors_ordered(b.lon - a.lon, w.lon - a.lon, q.lon - a.lon, u, v, s + 1, k);
        lemma_floors_ordered(b.lat - a.lat, w.lat - a.lat, q.lat - a.lat, u, v, s + 1, k);
        assert(meets_turned(e.bbox, corner_box(p.lon, p.lat, q.lon, q.lat), turns));
        assert(!open_sea(c, p, q));
        lemma_piece_short(b.lon - a.lon, p.lon - a.lon, q.lon - a.lon, s, k, len);
        lemma_piece_short(b.lat - a.lat, p.lat - a.lat, q.lat - a.lat, s, k, len);
        let r = lemma_line_sampled(c, p, q, x, v);
        lemma_piece_is_part(a, b, s, k, p, q, x, v, r.0, DEGREE + 111, 111);
        assert(s * v + x == k * u) by (nonlinear_arith)
            requires
                x == u * k - s * v,
        ;
        lemma_rescale(a, b, u, v, k, r.0, DEGREE + 222, 111);
        (r.0, p, q, r.1, r.2)
    }
}

proof fn lemma_looser(a: Point, b: Point, u: int, v: int, t: Point, far: int, further: int, unit: int)
    requires
        0 < v,
        far <= further,
        close_by(a, b, u, v, t, far, unit),
    ensures
        close_by(a, b, u, v, t, further, unit),
{
    assert(v * far <= v * further) by (nonlinear_arith)
        requires
            0 < v,
            far <= further,
    ;
}

proof fn lemma_piece_short(d: int, x: int, y: int, s: int, k: int, len: int)
    requires
        0 < k,
        -len <= d <= len,
        111 * len <= k * (100 * DEGREE),
        k * x <= s * d < k * x + k,
        k * y <= (s + 1) * d < k * y + k,
    ensures
        -200 * DEGREE <= 111 * (y - x) <= 200 * DEGREE,
{
    let z = y - x;
    assert((s + 1) * d == s * d + d) by (nonlinear_arith);
    assert(k * z == k * y - k * x) by (nonlinear_arith)
        requires
            z == y - x,
    ;
    assert(-len - k <= k * z <= len + k);
    assert(-200 * DEGREE <= 111 * z <= 200 * DEGREE) by (nonlinear_arith)
        requires
            0 < k,
            0 <= len,
            -len - k <= k * z <= len + k,
            111 * len <= k * (100 * DEGREE),
    {
        assert(k * (111 * z) <= 111 * len + 111 * k);
        assert(k * (111 * z) <= k * (100 * DEGREE + 111));
        assert(-(k * (111 * z)) <= k * (100 * DEGREE + 111));
    }
}

/// The position at the longitude and latitude is not further than `far` from the one at `u` of
/// `v` parts of the way from `a` to `b`, in both of its coordinates.
pub open spec fn within_reach(a: Point, b: Point, u: int, v: int, lon: int, lat: int, far: int) -> bool {
    &&& -(v * far) <= v * (lon - a.lon) - u * (b.lon - a.lon) <= v * far
    &&& -(v * far) <= v * (lat - a.lat) - u * (b.lat - a.lat) <= v * far
}

proof fn lemma_beside(a: Point, b: Point, u: int, v: int, t: Point, lon: int, lat: int, w: int)
    requires
        0 < v,
        0 <= w,
        close_by(a, b, u, v, t, 2, 1),
        -w <= lon - t.lon <= w,
        -w <= lat - t.lat <= w,
    ensures
        within_reach(a, b, u, v, lon, lat, w + 2),
{
    lemma_beside_one(t.lon - a.lon, lon - t.lon, u * (b.lon - a.lon), v, w);
    lemma_beside_one(t.lat - a.lat, lat - t.lat, u * (b.lat - a.lat), v, w);
}

proof fn lemma_beside_one(z: int, off: int, d: int, v: int, w: int)
    requires
        0 < v,
        -w <= off <= w,
        -(v * 2) <= v * z - d <= v * 2,
    ensures
        -(v * (w + 2)) <= v * (z + off) - d <= v * (w + 2),
{
    assert(v * (z + off) == v * z + v * off) by (nonlinear_arith);
    assert(-(v * w) <= v * off <= v * w) by (nonlinear_arith)
        requires
            0 < v,
            -w <= off <= w,
    ;
    assert(v * (w + 2) == v * w + v * 2) by (nonlinear_arith);
}

proof fn lemma_land_by_line(c: LandClassifier, p: Point, q: Point) -> (r: (int, int, Point, int, int))
    requires
        !band_clear(c, p, q),
        p.within(DRAWN as int),
        q.within(DRAWN as int),
    ensures
        0 < r.0 < r.1,
        close_by(p, q, r.0, r.1, r.2, 1, 1),
        -34_560_000 <= r.3 - r.2.lon <= 34_560_000,
        -34_560_000 <= r.4 - r.2.lat <= 34_560_000,
        c.land(r.3, r.4),
{
    let len = map_length(p, q);
    let n = sight_samples(len);
    lemma_map_length(p, q);
    lemma_length_fits(p, q);
    let off = if len > 0 {
        sideways(p, q, SIGHT_BAND as int, len)
    } else {
        (0, 0)
    };
    if len > 0 {
        if p == q {
            assert(p.lon - q.lon == 0 && p.lat - q.lat == 0);
            assert(dist2(p, q) == 0) by (nonlinear_arith)
                requires
                    dist2(p, q) == (p.lon - q.lon) * (p.lon - q.lon) + (p.lat - q.lat) * (p.lat - q.lat),
                    p.lon - q.lon == 0,
                    p.lat - q.lat == 0,
            ;
            assert(len * len > 0) by (nonlinear_arith)
                requires
                    len > 0,
            ;
        }
        lemma_sideways_steps(p, q, 34_560_000);
    }
    let r = lemma_band_blocked(c, p, q, n, off);
    let t = r.1;
    if c.land(t.lon as int, t.lat as int) {
        (r.0, n, t, t.lon as int, t.lat as int)
    } else if c.land(t.lon + off.0, t.lat + off.1) {
        (r.0, n, t, t.lon + off.0, t.lat + off.1)
    } else {
        (r.0, n, t, t.lon - off.0, t.lat - off.1)
    }
}

/// A line is out of sight only where land lies not further than 0.027 degrees from a position on
/// it, but for two units of rounding, and where a land ring's bounding box meets the box around
/// the line.
pub proof fn lemma_out_of_sight_nears_land(c: LandClassifier, a: Point, b: Point) -> (r: (int, int, int, int))
    requires
        !in_sight(c, a, b),
        a.within(DRAWN as int),
        b.within(DRAWN as int),
    ensures
        0 <= r.0 <= r.1,
        0 < r.1,
        within_reach(a, b, r.0, r.1, r.2, r.3, 34_560_002),
        c.land(r.2, r.3),
        exists|e: BoxEntry, turns: int| #[trigger]
            box_items(c.tree).contains(e) && #[trigger] meets_turned(
                e.bbox,
                corner_box(a.lon, a.lat, b.lon, b.lat),
                turns,
            ),
{
    reveal(in_sight);
    let len = map_length(a, b);
    lemma_map_length(a, b);
    if 111 * len < 200 * DEGREE {
        let r = lemma_land_by_line(c, a, b);
        lemma_looser(a, b, r.0, r.1, r.2, 1, 2, 1);
        lemma_beside(a, b, r.0, r.1, r.2, r.3, r.4, 34_560_000);
        (r.0, r.1, r.3, r.4)
    } else {
        let k = piece_count(len);
        let s = choose|s: int| 0 <= s < k && !#[trigger] piece_clear(c, a, b, s, k);
        let p = along(a, b, s, k);
        let q = along(a, b, s + 1, k);
        lemma_along(a, b, s, k);
        lemma_along(a, b, s + 1, k);
        lemma_along_lies(a, b, s, k);
        lemma_along_lies(a, b, s + 1, k);
        let r = lemma_land_by_line(c, p, q);
        let (i, n) = (r.0, r.1);
        lemma_piece_is_part(a, b, s, k, p, q, i, n, r.2, 1, 1);
        assert(0 < k * n && 0 <= s * n + i <= k * n) by (nonlinear_arith)
            requires
                0 <= s < k,
                0 < i < n,
        ;
        lemma_beside(a, b, s * n + i, k * n, r.2, r.3, r.4, 34_560_000);
        (s * n + i, k * n, r.3, r.4)
    }
}

} // verus!
