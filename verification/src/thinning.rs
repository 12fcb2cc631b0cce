//! Douglas-Peucker simplification of paths.
use vstd::prelude::*;

use crate::geo::{dist2, floor_div, floor_sqrt, isqrt, lemma_dist2, Point, DEGREE, DRAWN, WORLD};
use crate::sampling::{along, lemma_along, lemma_along_lies, lemma_one_place, lies_at};

verus! {

/// How far a point may stray from a chord to be dropped.
#[derive(Clone, Copy, PartialEq, Eq, Structural, Debug)]
pub enum Rule {
    /// 0.01 degrees, measured to the closest point of the chord.
    Route,
    /// 0.002 degrees, measured to the line through the chord.
    Channel,
}

/// Square of the tolerance for routes: 0.01 degrees.
pub const ROUTE_TOLERANCE_2: i64 = 163_840_000_000_000;

/// The tolerance for channels: 0.002 degrees.
pub const CHANNEL_TOLERANCE: i64 = 2_560_000;

/// Square of the tolerance for channels.
pub const CHANNEL_TOLERANCE_2: i64 = 6_553_600_000_000;

/// The points of a path: longitudes may wind around the globe, latitudes do not.
pub open spec fn drawable(p: Point) -> bool {
    -DRAWN <= p.lon <= DRAWN && -WORLD <= p.lat <= WORLD
}

/// The place on the chord from `s` to `e` that is closest to `p`, from zero at `s` to `DEGREE`
/// at `e`.
pub open spec fn foot(p: Point, s: Point, e: Point) -> int {
    let t = (((p.lon - s.lon) * (e.lon - s.lon) + (p.lat - s.lat) * (e.lat - s.lat)) * DEGREE) / dist2(s, e);
    if t < 0 {
        0
    } else if t > DEGREE {
        DEGREE as int
    } else {
        t
    }
}

/// Square of the distance of `p` from its place on the chord.
pub open spec fn chord_dist2(p: Point, s: Point, e: Point) -> int {
    let t = foot(p, s, e);
    let x = (p.lon - s.lon) - (t * (e.lon - s.lon)) / DEGREE as int;
    let y = (p.lat - s.lat) - (t * (e.lat - s.lat)) / DEGREE as int;
    x * x + y * y
}

/// Twice the area of the triangle over the chord.
pub open spec fn chord_area(p: Point, s: Point, e: Point) -> int {
    let a = (e.lat - s.lat) * (p.lon - s.lon) - (e.lon - s.lon) * (p.lat - s.lat);
    if a < 0 {
        -a
    } else {
        a
    }
}

/// How far `p` strays from the chord, in a measure that suits the rule.
pub open spec fn strays(rule: Rule, p: Point, s: Point, e: Point) -> int {
    if s == e {
        dist2(p, s)
    } else {
        match rule {
            Rule::Route => chord_dist2(p, s, e),
            Rule::Channel => chord_area(p, s, e),
        }
    }
}

/// How far a point may stray from the chord to be dropped, in the same measure.
pub open spec fn allowance(rule: Rule, s: Point, e: Point) -> int {
    match rule {
        Rule::Route => ROUTE_TOLERANCE_2 as int,
        Rule::Channel => if s == e {
            CHANNEL_TOLERANCE_2 as int
        } else {
            CHANNEL_TOLERANCE * floor_sqrt(dist2(s, e))
        },
    }
}

/// The first of the points after `lo` and before `k` that stray furthest from the chord
/// between `lo` and `hi`; `lo` itself if none strays at all.
pub open spec fn furthest_off(rule: Rule, pts: Seq<Point>, lo: int, hi: int, k: int) -> int
    decreases k - lo,
{
    if k <= lo + 1 {
        lo
    } else {
        let m = furthest_off(rule, pts, lo, hi, k - 1);
        let best = if m == lo {
            0
        } else {
            strays(rule, pts[m], pts[lo], pts[hi])
        };
        if strays(rule, pts[k - 1], pts[lo], pts[hi]) > best {
            k - 1
        } else {
            m
        }
    }
}

/// How far the point strays that strays furthest.
pub open spec fn greatest_stray(rule: Rule, pts: Seq<Point>, lo: int, hi: int, k: int) -> int {
    let m = furthest_off(rule, pts, lo, hi, k);
    if m == lo {
        0
    } else {
        strays(rule, pts[m], pts[lo], pts[hi])
    }
}

/// The chord between `lo` and `hi` is split, for a point between them strays too far.
pub open spec fn splits(rule: Rule, pts: Seq<Point>, lo: int, hi: int) -> bool {
    hi > lo + 1 && greatest_stray(rule, pts, lo, hi, hi) > allowance(rule, pts[lo], pts[hi])
}

proof fn lemma_furthest_off(rule: Rule, pts: Seq<Point>, lo: int, hi: int, k: int)
    requires
        0 <= lo < hi < pts.len(),
        lo < k <= hi,
    ensures
        lo <= furthest_off(rule, pts, lo, hi, k) < k,
        forall|i: int|
            lo < i < k ==> strays(rule, #[trigger] pts[i], pts[lo], pts[hi]) <= greatest_stray(
                rule,
                pts,
                lo,
                hi,
                k,
            ),
        greatest_stray(rule, pts, lo, hi, k) >= 0,
    decreases k - lo,
{
    if k > lo + 1 {
        lemma_furthest_off(rule, pts, lo, hi, k - 1);
    }
}

/// Point `i`, between `lo` and `hi`, is kept: a chord that a point strays too far from is
/// split at the furthest point.
pub open spec fn keeps(rule: Rule, pts: Seq<Point>, lo: int, hi: int, i: int) -> bool
    decreases hi - lo,
{
    if splits(rule, pts, lo, hi) {
        let m = furthest_off(rule, pts, lo, hi, hi);
        if lo < m < hi {
            i == m || (i < m && keeps(rule, pts, lo, m, i)) || (i > m && keeps(rule, pts, m, hi, i))
        } else {
            false
        }
    } else {
        false
    }
}

/// Point `i` is kept.
pub open spec fn kept(rule: Rule, pts: Seq<Point>, i: int) -> bool {
    i == 0 || i == pts.len() - 1 || keeps(rule, pts, 0, pts.len() - 1, i)
}

/// The kept ones of the first `k` points.
pub open spec fn kept_points(rule: Rule, pts: Seq<Point>, k: int) -> Seq<Point>
    decreases k,
{
    if k <= 0 {
        Seq::empty()
    } else {
        let before = kept_points(rule, pts, k - 1);
        if kept(rule, pts, k - 1) {
            before.push(pts[k - 1])
        } else {
            before
        }
    }
}

/// The simplified path.
pub open spec fn thinned(rule: Rule, pts: Seq<Point>) -> Seq<Point> {
    kept_points(rule, pts, pts.len() as int)
}

/// Simplifying keeps both ends.
pub proof fn lemma_thinned_ends(rule: Rule, pts: Seq<Point>)
    requires
        pts.len() >= 1,
    ensures
        thinned(rule, pts).len() >= 1,
        thinned(rule, pts).first() == pts.first(),
        thinned(rule, pts).last() == pts.last(),
{
    lemma_kept_first(rule, pts, pts.len() as int);
}

proof fn lemma_kept_first(rule: Rule, pts: Seq<Point>, k: int)
    requires
        1 <= k <= pts.len(),
    ensures
        kept_points(rule, pts, k).len() >= 1,
        kept_points(rule, pts, k).first() == pts[0],
    decreases k,
{
    if k > 1 {
        lemma_kept_first(rule, pts, k - 1);
    } else {
        assert(kept_points(rule, pts, 0) =~= Seq::<Point>::empty());
    }
}

/// Every point of the simplified path is a point of the path, and there are no more.
pub proof fn lemma_thinned_subset(rule: Rule, pts: Seq<Point>, k: int)
    requires
        0 <= k <= pts.len(),
    ensures
        kept_points(rule, pts, k).len() <= k,
        forall|i: int|
            0 <= i < kept_points(rule, pts, k).len() ==> pts.contains(
                #[trigger] kept_points(rule, pts, k)[i],
            ),
    decreases k,
{
    if k > 0 {
        lemma_thinned_subset(rule, pts, k - 1);
        assert(pts.contains(pts[k - 1]));
    }
}

/// A dropped point lies between two kept neighbours, with none kept between them, and does
/// not stray from the chord between them by more than is allowed.
pub proof fn lemma_dropped_is_close(rule: Rule, pts: Seq<Point>, lo: int, hi: int, i: int) -> (r: (int, int))
    requires
        0 <= lo < i < hi < pts.len(),
        !keeps(rule, pts, lo, hi, i),
    ensures
        lo <= r.0 < i < r.1 <= hi,
        r.0 == lo || keeps(rule, pts, lo, hi, r.0),
        r.1 == hi || keeps(rule, pts, lo, hi, r.1),
        forall|j: int| r.0 < j < r.1 ==> !#[trigger] keeps(rule, pts, lo, hi, j),
        strays(rule, pts[i], pts[r.0], pts[r.1]) <= allowance(rule, pts[r.0], pts[r.1]),
    decreases hi - lo,
{
    lemma_furthest_off(rule, pts, lo, hi, hi);
    let m = furthest_off(rule, pts, lo, hi, hi);
    if splits(rule, pts, lo, hi) {
        lemma_allowance(rule, pts[lo], pts[hi]);
        assert(lo < m < hi);
        assert(keeps(rule, pts, lo, hi, m));
        if i < m {
            let r = lemma_dropped_is_close(rule, pts, lo, m, i);
            assert forall|j: int| r.0 < j < r.1 implies !#[trigger] keeps(rule, pts, lo, hi, j) by {
                assert(!keeps(rule, pts, lo, m, j));
            }
            r
        } else {
            let r = lemma_dropped_is_close(rule, pts, m, hi, i);
            assert forall|j: int| r.0 < j < r.1 implies !#[trigger] keeps(rule, pts, lo, hi, j) by {
                assert(!keeps(rule, pts, m, hi, j));
            }
            r
        }
    } else {
        assert(strays(rule, pts[i], pts[lo], pts[hi]) <= greatest_stray(rule, pts, lo, hi, hi));
        assert forall|j: int| lo < j < hi implies !#[trigger] keeps(rule, pts, lo, hi, j) by {}
        (lo, hi)
    }
}

proof fn lemma_allowance(rule: Rule, s: Point, e: Point)
    ensures
        allowance(rule, s, e) >= 0,
{
    assert(dist2(s, e) >= 0) by (nonlinear_arith)
        requires
            dist2(s, e) == (s.lon - e.lon) * (s.lon - e.lon) + (s.lat - e.lat) * (s.lat - e.lat),
    ;
    lemma_floor_sqrt_exists(dist2(s, e));
    let r = floor_sqrt(dist2(s, e));
    assert(CHANNEL_TOLERANCE * r >= 0) by (nonlinear_arith)
        requires
            r >= 0,
    ;
}

proof fn lemma_floor_sqrt_exists(n: int)
    requires
        n >= 0,
    ensures
        floor_sqrt(n) >= 0,
{
    let r = lemma_some_sqrt(n, n);
    crate::geo::lemma_floor_sqrt(n, r);
}

proof fn lemma_some_sqrt(n: int, k: int) -> (r: int)
    requires
        n >= 0,
        k >= 0,
        n < (k + 1) * (k + 1) || k == n,
    ensures
        r >= 0,
        r * r <= n,
        n < (r + 1) * (r + 1),
    decreases k,
{
    assert(k == n ==> n < (k + 1) * (k + 1)) by (nonlinear_arith)
        requires
            n >= 0,
    ;
    if k * k <= n {
        k
    } else {
        assert(k > 0) by (nonlinear_arith)
            requires
                k >= 0,
                k * k > n,
                n >= 0,
        ;
        lemma_some_sqrt(n, k - 1)
    }
}

proof fn lemma_long_product(a: int, b: int)
    by (nonlinear_arith)
    requires
        -0x2000_0000_0000_0000 <= a <= 0x2000_0000_0000_0000,
        -0x2000_0000_0000_0000 <= b <= 0x2000_0000_0000_0000,
    ensures
        -0x400_0000_0000_0000_0000_0000_0000_0000 <= a * b <= 0x400_0000_0000_0000_0000_0000_0000_0000,
        0 <= a * a <= 0x400_0000_0000_0000_0000_0000_0000_0000,
        0 <= b * b <= 0x400_0000_0000_0000_0000_0000_0000_0000,
{
}

proof fn lemma_short_product(a: int, b: int)
    by (nonlinear_arith)
    requires
        -0x200_0000_0000 <= a <= 0x200_0000_0000,
        -0x200_0000_0000 <= b <= 0x200_0000_0000,
    ensures
        -0x4_0000_0000_0000_0000_0000 <= a * b <= 0x4_0000_0000_0000_0000_0000,
{
}

proof fn lemma_part(t: int, d: int, limit: int)
    requires
        0 <= t <= DEGREE,
        -limit <= d <= limit,
        0 <= limit <= 0x2000_0000_0000_0000,
    ensures
        -limit <= (t * d) / DEGREE as int <= limit,
        -0x2000_0000_0000_0000_0000_0000_0000 <= t * d <= 0x2000_0000_0000_0000_0000_0000_0000,
{
    assert(-(DEGREE * limit) <= t * d <= DEGREE * limit) by (nonlinear_arith)
        requires
            0 <= t <= DEGREE,
            -limit <= d <= limit,
    ;
    let q = (t * d) / DEGREE as int;
    let r = (t * d) % DEGREE as int;
    assert(t * d == DEGREE * q + r);
    assert(-limit <= q <= limit);
}

fn measure_stray(rule: Rule, p: Point, s: Point, e: Point) -> (d: u128)
    requires
        drawable(p),
        drawable(s),
        drawable(e),
    ensures
        d == strays(rule, p, s, e),
        d <= 0x3fff_ffff_ffff_ffff_ffff_ffff_ffff_ffff,
{
    let a: i128 = p.lon as i128 - s.lon as i128;
    let b: i128 = p.lat as i128 - s.lat as i128;
    proof {
        lemma_long_product(a as int, b as int);
    }
    if s.lon == e.lon && s.lat == e.lat {
        assert(dist2(p, s) == a * a + b * b);
        return (a * a + b * b) as u128;
    }
    let dx: i128 = e.lon as i128 - s.lon as i128;
    let dy: i128 = e.lat as i128 - s.lat as i128;
    proof {
        lemma_long_product(dx as int, dy as int);
        lemma_long_product(a as int, dx as int);
        lemma_long_product(dy as int, a as int);
        lemma_long_product(dx as int, b as int);
        lemma_short_product(b as int, dy as int);
        assert(dist2(s, e) == dx * dx + dy * dy) by (nonlinear_arith)
            requires
                dist2(s, e) == (s.lon - e.lon) * (s.lon - e.lon) + (s.lat - e.lat) * (s.lat - e.lat),
                dx == e.lon - s.lon,
                dy == e.lat - s.lat,
        ;
        assert(dx * dx + dy * dy > 0) by (nonlinear_arith)
            requires
                dx != 0 || dy != 0,
        ;
    }
    match rule {
        Rule::Route => {
            let dot: i128 = a * dx + b * dy;
            let len2: i128 = dx * dx + dy * dy;
            let t: i128 = if dot <= 0 {
                0
            } else if dot >= len2 {
                DEGREE as i128
            } else {
                share_of(dot, DEGREE as u64, len2).0
            };
            proof {
                lemma_foot(dot as int, len2 as int);
                assert(dot == (p.lon - s.lon) * (e.lon - s.lon) + (p.lat - s.lat) * (e.lat - s.lat));
            }
            assert(t == foot(p, s, e));
            proof {
                lemma_part(t as int, dx as int, 0x2000_0000_0000_0000);
                lemma_part(t as int, dy as int, 0x200_0000_0000);
            }
            let x: i128 = a - floor_div(t * dx, DEGREE as i128);
            let y: i128 = b - floor_div(t * dy, DEGREE as i128);
            proof {
                lemma_wide_square(x as int);
                lemma_wide_square(y as int);
            }
            (x * x + y * y) as u128
        },
        Rule::Channel => {
            let area: i128 = dy * a - dx * b;
            if area < 0 {
                (-area) as u128
            } else {
                area as u128
            }
        },
    }
}

proof fn lemma_wide_square(x: int)
    by (nonlinear_arith)
    requires
        -0x4000_0000_0000_0000 <= x <= 0x4000_0000_0000_0000,
    ensures
        0 <= x * x <= 0x1000_0000_0000_0000_0000_0000_0000_0000,
{
}

/// Which of `n` equal parts of `m` the number `a` falls into, and what it has left there: the
/// quotient and the remainder of `a * n` by `m`, without the product ever being formed.
fn share_of(a: i128, n: u64, m: i128) -> (r: (i128, i128))
    requires
        0 <= a < m <= 0x1000_0000_0000_0000_0000_0000_0000_0000,
    ensures
        r.0 == (a * n) / m as int,
        a * n == r.0 * m + r.1,
        0 <= r.1 < m,
        0 <= r.0 <= n,
    decreases n,
{
    if n == 0 {
        proof {
            assert(a * n == 0 && 0 * m == 0) by (nonlinear_arith)
                requires
                    n == 0,
            ;
            vstd::arithmetic::div_mod::lemma_fundamental_div_mod_converse(a * n, m as int, 0, 0);
        }
        return (0, 0);
    }
    let half = n / 2;
    let odd = n % 2 == 1;
    let (q, r) = share_of(a, half, m);
    let mut quotient: i128 = 2 * q;
    let mut rest: i128 = if odd {
        2 * r + a
    } else {
        2 * r
    };
    proof {
        assert(a * n == quotient * m + rest) by (nonlinear_arith)
            requires
                a * half == q * m + r,
                n == 2 * half + (if odd {
                    1int
                } else {
                    0int
                }),
                quotient == 2 * q,
                rest == 2 * r + (if odd {
                    a as int
                } else {
                    0int
                }),
        ;
    }
    while rest >= m
        invariant
            0 <= a < m <= 0x1000_0000_0000_0000_0000_0000_0000_0000,
            a * n == quotient * m + rest,
            0 <= quotient,
            0 <= rest < 3 * m,
            quotient <= 2 * n + 2,
            rest >= m ==> quotient <= 2 * n + 1,
            rest >= 2 * m ==> quotient <= 2 * n,
        decreases rest,
    {
        assert((quotient + 1) * m == quotient * m + m) by (nonlinear_arith);
        quotient = quotient + 1;
        rest = rest - m;
    }
    proof {
        vstd::arithmetic::div_mod::lemma_fundamental_div_mod_converse(
            a * n,
            m as int,
            quotient as int,
            rest as int,
        );
        assert(quotient <= n) by (nonlinear_arith)
            requires
                a * n == quotient * m + rest,
                0 <= a < m,
                0 <= rest,
                0 <= n,
        ;
    }
    (quotient, rest)
}

/// At or before the start of the chord the share is nothing, at or beyond its end it is all.
proof fn lemma_foot(dot: int, len2: int)
    requires
        0 < len2,
    ensures
        dot < 0 ==> (dot * DEGREE) / len2 < 0,
        dot == 0 ==> (dot * DEGREE) / len2 == 0,
        dot >= len2 ==> (dot * DEGREE) / len2 >= DEGREE,
{
    let n = dot * DEGREE;
    let q = n / len2;
    let r = n % len2;
    vstd::arithmetic::div_mod::lemma_fundamental_div_mod(n, len2);
    assert(dot < 0 ==> q < 0) by (nonlinear_arith)
        requires
            n == len2 * q + r,
            0 <= r < len2,
            n == dot * DEGREE,
            0 < len2,
    ;
    assert(dot == 0 ==> q == 0) by (nonlinear_arith)
        requires
            n == len2 * q + r,
            0 <= r < len2,
            n == dot * DEGREE,
            0 < len2,
    ;
    assert(dot >= len2 ==> q >= DEGREE) by (nonlinear_arith)
        requires
            n == len2 * q + r,
            0 <= r < len2,
            n == dot * DEGREE,
            0 < len2,
    ;
}

fn limit_of(rule: Rule, s: Point, e: Point) -> (d: u128)
    requires
        drawable(s),
        drawable(e),
    ensures
        d == allowance(rule, s, e),
{
    match rule {
        Rule::Route => ROUTE_TOLERANCE_2 as u128,
        Rule::Channel => {
            if s.lon == e.lon && s.lat == e.lat {
                return CHANNEL_TOLERANCE_2 as u128;
            }
            let dx: i128 = e.lon as i128 - s.lon as i128;
            let dy: i128 = e.lat as i128 - s.lat as i128;
            proof {
                lemma_long_product(dx as int, dy as int);
                assert(dist2(s, e) == dx * dx + dy * dy) by (nonlinear_arith)
                    requires
                        dist2(s, e) == (s.lon - e.lon) * (s.lon - e.lon) + (s.lat - e.lat) * (s.lat
                            - e.lat),
                        dx == e.lon - s.lon,
                        dy == e.lat - s.lat,
                ;
            }
            let len = isqrt((dx * dx + dy * dy) as u128);
            assert(CHANNEL_TOLERANCE * len <= 0x40_0000_0000_0000_0000_0000) by (nonlinear_arith)
                requires
                    0 <= len <= 0xffff_ffff_ffff_ffff,
            ;
            (CHANNEL_TOLERANCE as u128) * (len as u128)
        },
    }
}

/// How much work the spans on the stack still are.
spec fn span_work(stack: Seq<(usize, usize)>) -> int
    decreases stack.len(),
{
    if stack.len() == 0 {
        0
    } else {
        span_work(stack.drop_last()) + 2 * (stack.last().1 - stack.last().0) - 1
    }
}

proof fn lemma_span_work(stack: Seq<(usize, usize)>)
    requires
        forall|k: int| 0 <= k < stack.len() ==> (#[trigger] stack[k]).0 < stack[k].1,
    ensures
        span_work(stack) >= 0,
    decreases stack.len(),
{
    if stack.len() > 0 {
        lemma_span_work(stack.drop_last());
    }
}

/// A span on the stack will keep point `i`.
spec fn pending(rule: Rule, pts: Seq<Point>, stack: Seq<(usize, usize)>, i: int) -> bool {
    exists|k: int| 0 <= k < stack.len() && #[trigger] span_keeps(rule, pts, stack[k], i)
}

spec fn span_keeps(rule: Rule, pts: Seq<Point>, span: (usize, usize), i: int) -> bool {
    span.0 < i < span.1 && keeps(rule, pts, span.0 as int, span.1 as int, i)
}

proof fn lemma_pending_push(rule: Rule, pts: Seq<Point>, stack: Seq<(usize, usize)>, span: (usize, usize), i: int)
    ensures
        pending(rule, pts, stack.push(span), i) == (pending(rule, pts, stack, i) || span_keeps(
            rule,
            pts,
            span,
            i,
        )),
{
    let more = stack.push(span);
    if pending(rule, pts, stack, i) {
        let k = choose|k: int| 0 <= k < stack.len() && #[trigger] span_keeps(rule, pts, stack[k], i);
        assert(more[k] == stack[k]);
        assert(span_keeps(rule, pts, more[k], i));
    }
    if span_keeps(rule, pts, span, i) {
        assert(more[stack.len() as int] == span);
        assert(span_keeps(rule, pts, more[stack.len() as int], i));
    }
    if pending(rule, pts, more, i) {
        let k = choose|k: int| 0 <= k < more.len() && #[trigger] span_keeps(rule, pts, more[k], i);
        if k < stack.len() {
            assert(span_keeps(rule, pts, stack[k], i));
        }
    }
}

/// The point between `lo` and `hi` that strays furthest from the chord, and how far.
fn find_furthest(points: &Vec<Point>, rule: Rule, lo: usize, hi: usize) -> (r: (usize, u128))
    requires
        lo < hi < points.len(),
        forall|i: int| 0 <= i < points.len() ==> drawable(#[trigger] points[i]),
    ensures
        r.0 == furthest_off(rule, points@, lo as int, hi as int, hi as int),
        r.1 == greatest_stray(rule, points@, lo as int, hi as int, hi as int),
        lo <= r.0 < hi,
        r.1 > 0 ==> r.0 > lo,
{
    let s = points[lo];
    let e = points[hi];
    let mut m: usize = lo;
    let mut best: u128 = 0;
    let mut k: usize = lo + 1;
    while k < hi
        invariant
            lo < k <= hi < points.len(),
            lo <= m < k,
            s == points[lo as int],
            e == points[hi as int],
            forall|i: int| 0 <= i < points.len() ==> drawable(#[trigger] points[i]),
            m == furthest_off(rule, points@, lo as int, hi as int, k as int),
            best == greatest_stray(rule, points@, lo as int, hi as int, k as int),
        decreases hi - k,
    {
        let d = measure_stray(rule, points[k], s, e);
        if d > best {
            best = d;
            m = k;
        }
        k = k + 1;
    }
    (m, best)
}

/// Douglas-Peucker simplification, without recursion, so that long routes do not overflow
/// the stack.
pub fn douglas_peucker(points: &Vec<Point>, rule: Rule) -> (r: Vec<Point>)
    requires
        forall|i: int| 0 <= i < points.len() ==> drawable(#[trigger] points[i]),
    ensures
        r@ == thinned(rule, points@),
{
    let n = points.len();
    let ghost pts = points@;
    let mut out: Vec<Point> = Vec::new();
    if n == 0 {
        return out;
    }
    let mut keep: Vec<bool> = Vec::new();
    let mut i: usize = 0;
    while i < n
        invariant
            i <= n,
            keep.len() == i,
            forall|k: int| 0 <= k < i ==> #[trigger] keep[k] == (k == 0 || k == n - 1),
        decreases n - i,
    {
        keep.push(i == 0 || i == n - 1);
        i = i + 1;
    }
    let mut stack: Vec<(usize, usize)> = Vec::new();
    if n > 1 {
        stack.push((0, n - 1));
    }
    proof {
        assert forall|i: int| 0 <= i < n implies #[trigger] kept(rule, pts, i) == (keep@[i] || pending(
            rule,
            pts,
            stack@,
            i,
        )) by {
            if n > 1 {
                assert(stack@ =~= Seq::<(usize, usize)>::empty().push((0, (n - 1) as usize)));
                lemma_pending_push(rule, pts, Seq::empty(), (0, (n - 1) as usize), i);
            }
        }
    }
    while stack.len() > 0
        invariant
            n == points.len(),
            n > 0,
            pts == points@,
            keep.len() == n,
            forall|i: int| 0 <= i < points.len() ==> drawable(#[trigger] points[i]),
            forall|k: int| 0 <= k < stack.len() ==> (#[trigger] stack@[k]).0 < stack@[k].1 < n,
            forall|i: int|
                0 <= i < n ==> #[trigger] kept(rule, pts, i) == (keep@[i] || pending(
                    rule,
                    pts,
                    stack@,
                    i,
                )),
        decreases span_work(stack@),
    {
        let ghost whole = stack@;
        proof {
            lemma_span_work(whole.drop_last());
        }
        let span = stack.pop().unwrap();
        let (lo, hi) = span;
        let ghost rest = stack@;
        assert(whole =~= rest.push(span));
        assert(rest =~= whole.drop_last());
        assert(span_work(whole) == span_work(rest) + 2 * (hi - lo) - 1);
        let ghost had = keep@;
        if hi > lo + 1 {
            let (m, d) = find_furthest(points, rule, lo, hi);
            let limit = limit_of(rule, points[lo], points[hi]);
            if d > limit {
                assert(splits(rule, pts, lo as int, hi as int));
                proof {
                    lemma_allowance(rule, pts[lo as int], pts[hi as int]);
                }
                keep.set(m, true);
                stack.push((lo, m));
                stack.push((m, hi));
                proof {
                    assert(stack@.drop_last() =~= rest.push((lo, m)));
                    assert(rest.push((lo, m)).drop_last() =~= rest);
                    assert(span_work(rest.push((lo, m))) == span_work(rest) + 2 * (m - lo) - 1);
                    assert(span_work(stack@) == span_work(rest.push((lo, m))) + 2 * (hi - m) - 1);
                    assert forall|i: int| 0 <= i < n implies #[trigger] kept(rule, pts, i) == (
                    keep@[i] || pending(rule, pts, stack@, i)) by {
                        lemma_pending_push(rule, pts, rest, span, i);
                        lemma_pending_push(rule, pts, rest, (lo, m), i);
                        lemma_pending_push(rule, pts, rest.push((lo, m)), (m, hi), i);
                        assert(kept(rule, pts, i) == (had[i] || pending(rule, pts, whole, i)));
                        lemma_keeps_inside(rule, pts, lo as int, m as int, i);
                        lemma_keeps_inside(rule, pts, m as int, hi as int, i);
                    }
                }
            } else {
                proof {
                    assert forall|i: int| 0 <= i < n implies #[trigger] kept(rule, pts, i) == (
                    keep@[i] || pending(rule, pts, stack@, i)) by {
                        lemma_pending_push(rule, pts, rest, span, i);
                    }
                }
            }
        } else {
            proof {
                assert forall|i: int| 0 <= i < n implies #[trigger] kept(rule, pts, i) == (keep@[i]
                    || pending(rule, pts, stack@, i)) by {
                    lemma_pending_push(rule, pts, rest, span, i);
                }
            }
        }
    }
    let mut k: usize = 0;
    while k < n
        invariant
            k <= n,
            n == points.len(),
            pts == points@,
            keep.len() == n,
            forall|i: int| 0 <= i < n ==> #[trigger] kept(rule, pts, i) == keep@[i],
            out@ == kept_points(rule, pts, k as int),
        decreases n - k,
    {
        assert(kept(rule, pts, k as int) == keep@[k as int]);
        if keep[k] {
            out.push(points[k]);
        }
        k = k + 1;
    }
    out
}

/// Only points inside a span are kept by it.
proof fn lemma_keeps_inside(rule: Rule, pts: Seq<Point>, lo: int, hi: int, i: int)
    ensures
        keeps(rule, pts, lo, hi, i) ==> lo < i < hi,
    decreases hi - lo,
{
    if splits(rule, pts, lo, hi) {
        let m = furthest_off(rule, pts, lo, hi, hi);
        if lo < m < hi {
            lemma_keeps_inside(rule, pts, lo, m, i);
            lemma_keeps_inside(rule, pts, m, hi, i);
        }
    }
}

/// Where a kept point stands in the simplified path.
proof fn lemma_kept_place(rule: Rule, pts: Seq<Point>, i: int, n: int)
    requires
        0 <= i < n <= pts.len(),
        kept(rule, pts, i),
    ensures
        kept_points(rule, pts, i).len() < kept_points(rule, pts, n).len(),
        kept_points(rule, pts, n)[kept_points(rule, pts, i).len() as int] == pts[i],
    decreases n,
{
    if n > i + 1 {
        lemma_kept_place(rule, pts, i, n - 1);
    }
}

proof fn lemma_places_ordered(rule: Rule, pts: Seq<Point>, i: int, n: int)
    requires
        0 <= i <= n <= pts.len(),
    ensures
        kept_points(rule, pts, i).len() <= kept_points(rule, pts, n).len(),
        (forall|j: int| i <= j < n ==> !#[trigger] kept(rule, pts, j)) ==> kept_points(rule, pts, i).len()
            == kept_points(rule, pts, n).len(),
        i < n && kept(rule, pts, i) ==> kept_points(rule, pts, i).len() < kept_points(rule, pts, n).len(),
    decreases n,
{
    if i < n {
        lemma_places_ordered(rule, pts, i, n - 1);
        assert(kept(rule, pts, n - 1) == kept(rule, pts, n - 1));
    }
}

proof fn lemma_place_of(rule: Rule, pts: Seq<Point>, n: int, j: int) -> (i: int)
    requires
        0 <= n <= pts.len(),
        0 <= j < kept_points(rule, pts, n).len(),
    ensures
        0 <= i < n,
        kept(rule, pts, i),
        kept_points(rule, pts, i).len() == j,
    decreases n,
{
    let before = kept_points(rule, pts, n - 1);
    if j < before.len() {
        lemma_place_of(rule, pts, n - 1, j)
    } else {
        n - 1
    }
}

/// A point of the path, and the chord of the simplified path that stands for it.
proof fn lemma_chord_for(rule: Rule, pts: Seq<Point>, i: int) -> (j: int)
    requires
        0 <= i < pts.len(),
        pts.len() >= 2,
    ensures
        0 <= j < thinned(rule, pts).len() - 1,
        ({
            let s = thinned(rule, pts)[j];
            let e = thinned(rule, pts)[j + 1];
            pts[i] == s || pts[i] == e || strays(rule, pts[i], s, e) <= allowance(rule, s, e)
        }),
{
    let n = pts.len() as int;
    if kept(rule, pts, i) {
        lemma_kept_place(rule, pts, i, n);
        lemma_kept_place(rule, pts, 0, n);
        lemma_kept_place(rule, pts, n - 1, n);
        lemma_places_ordered(rule, pts, 0, n - 1);
        lemma_places_ordered(rule, pts, n - 1, n);
        lemma_places_ordered(rule, pts, i, n - 1);
        let j = kept_points(rule, pts, i).len() as int;
        if i < n - 1 {
            j
        } else {
            assert(kept(rule, pts, 0));
            j - 1
        }
    } else {
        let r = lemma_dropped_is_close(rule, pts, 0, n - 1, i);
        assert forall|k: int| r.0 + 1 <= k < r.1 implies !#[trigger] kept(rule, pts, k) by {
            assert(!keeps(rule, pts, 0, n - 1, k));
        }
        lemma_kept_place(rule, pts, r.0, n);
        lemma_kept_place(rule, pts, r.1, n);
        lemma_places_ordered(rule, pts, r.0 + 1, r.1);
        kept_points(rule, pts, r.0).len() as int
    }
}

/// No point of a route is moved far: each lies within 0.01 degrees of a position on a chord of
/// the simplified path, `m` of `DEGREE` parts along it.
pub proof fn lemma_route_stays_close(pts: Seq<Point>, i: int) -> (r: (int, int, Point))
    requires
        0 <= i < pts.len(),
        pts.len() >= 2,
    ensures
        0 <= r.0 < thinned(Rule::Route, pts).len() - 1,
        0 <= r.1 <= DEGREE,
        lies_at(
            thinned(Rule::Route, pts)[r.0],
            thinned(Rule::Route, pts)[r.0 + 1],
            r.1,
            DEGREE as int,
            r.2,
        ),
        10_000 * dist2(pts[i], r.2) <= DEGREE * DEGREE,
{
    let j = lemma_chord_for(Rule::Route, pts, i);
    let s = thinned(Rule::Route, pts)[j];
    let e = thinned(Rule::Route, pts)[j + 1];
    let p = pts[i];
    assert(DEGREE * DEGREE == 1_638_400_000_000_000_000) by (nonlinear_arith);
    if p == s {
        lemma_along_lies(s, e, 0, DEGREE as int);
        lemma_along(s, e, 0, DEGREE as int);
        lemma_dist2(p, s);
        (j, 0, s)
    } else if p == e {
        lemma_along_lies(s, e, DEGREE as int, DEGREE as int);
        lemma_along(s, e, DEGREE as int, DEGREE as int);
        lemma_dist2(p, e);
        (j, DEGREE as int, e)
    } else if s == e {
        lemma_along_lies(s, e, 0, DEGREE as int);
        lemma_along(s, e, 0, DEGREE as int);
        assert(dist2(p, s) <= 163_840_000_000_000);
        (j, 0, s)
    } else {
        let m = foot(p, s, e);
        let q = along(s, e, m, DEGREE as int);
        lemma_along_lies(s, e, m, DEGREE as int);
        lemma_along(s, e, m, DEGREE as int);
        assert(dist2(p, q) == chord_dist2(p, s, e));
        assert(chord_dist2(p, s, e) <= 163_840_000_000_000);
        (j, m, q)
    }
}

/// No point of a channel is moved far: each lies within 0.002 degrees of the line through a
/// chord of the simplified path, or of the chord itself where it is a single position. The
/// distance from the line is the area over the chord by its length.
pub proof fn lemma_channel_stays_close(pts: Seq<Point>, i: int) -> (j: int)
    requires
        0 <= i < pts.len(),
        pts.len() >= 2,
    ensures
        0 <= j < thinned(Rule::Channel, pts).len() - 1,
        ({
            let s = thinned(Rule::Channel, pts)[j];
            let e = thinned(Rule::Channel, pts)[j + 1];
            let area = (e.lat - s.lat) * (pts[i].lon - s.lon) - (e.lon - s.lon) * (pts[i].lat - s.lat);
            &&& 500 * 500 * (area * area) <= DEGREE * DEGREE * dist2(s, e)
            &&& s == e ==> 500 * 500 * dist2(pts[i], s) <= DEGREE * DEGREE
        }),
{
    let j = lemma_chord_for(Rule::Channel, pts, i);
    let s = thinned(Rule::Channel, pts)[j];
    let e = thinned(Rule::Channel, pts)[j + 1];
    let p = pts[i];
    let x = e.lon - s.lon;
    let y = e.lat - s.lat;
    let a = p.lon - s.lon;
    let b = p.lat - s.lat;
    let area = y * a - x * b;
    crate::sampling::lemma_map_length(s, e);
    let len = floor_sqrt(dist2(s, e));
    assert(0 <= len && len * len <= dist2(s, e));
    assert(dist2(s, e) >= 0) by (nonlinear_arith)
        requires
            len * len <= dist2(s, e),
    ;
    if s == e || p == s || p == e {
        assert(area == 0) by (nonlinear_arith)
            requires
                area == y * a - x * b,
                (x == 0 && y == 0) || (a == 0 && b == 0) || (a == x && b == y),
        ;
        assert(0int * 0int == 0);
        assert(DEGREE * DEGREE * dist2(s, e) >= 0) by (nonlinear_arith)
            requires
                dist2(s, e) >= 0,
        ;
        if s == e && (p == s || p == e) {
            assert(p.lon - s.lon == 0 && p.lat - s.lat == 0);
        }
    } else {
        assert(-(CHANNEL_TOLERANCE * len) <= area <= CHANNEL_TOLERANCE * len);
        assert(500 * 500 * (area * area) <= DEGREE * DEGREE * dist2(s, e)) by (nonlinear_arith)
            requires
                -(2_560_000 * len) <= area <= 2_560_000 * len,
                0 <= len,
                len * len <= dist2(s, e),
                DEGREE == 1_280_000_000,
        {
            assert(area * area <= (2_560_000 * len) * (2_560_000 * len));
            assert((2_560_000 * len) * (2_560_000 * len) == 2_560_000 * 2_560_000 * (len * len));
        }
    }
    j
}

/// A kept point was the furthest from a chord between two points that are kept too, and strayed
/// from it by more than is allowed.
proof fn lemma_kept_strays(rule: Rule, pts: Seq<Point>, lo: int, hi: int, i: int) -> (r: (int, int))
    requires
        0 <= lo < hi < pts.len(),
        keeps(rule, pts, lo, hi, i),
    ensures
        lo <= r.0 < i < r.1 <= hi,
        r.0 == lo || keeps(rule, pts, lo, hi, r.0),
        r.1 == hi || keeps(rule, pts, lo, hi, r.1),
        strays(rule, pts[i], pts[r.0], pts[r.1]) > allowance(rule, pts[r.0], pts[r.1]),
        forall|k: int|
            r.0 < k < r.1 ==> strays(rule, #[trigger] pts[k], pts[r.0], pts[r.1]) <= strays(
                rule,
                pts[i],
                pts[r.0],
                pts[r.1],
            ),
    decreases hi - lo,
{
    let m = furthest_off(rule, pts, lo, hi, hi);
    lemma_furthest_off(rule, pts, lo, hi, hi);
    if i < m {
        let r = lemma_kept_strays(rule, pts, lo, m, i);
        lemma_keeps_inside(rule, pts, lo, m, r.0);
        lemma_keeps_inside(rule, pts, lo, m, r.1);
        r
    } else if i > m {
        let r = lemma_kept_strays(rule, pts, m, hi, i);
        lemma_keeps_inside(rule, pts, m, hi, r.0);
        lemma_keeps_inside(rule, pts, m, hi, r.1);
        r
    } else {
        lemma_allowance(rule, pts[lo], pts[hi]);
        (lo, hi)
    }
}

proof fn lemma_lagrange(x: int, y: int, a: int, b: int)
    ensures
        (x * a + y * b) * (x * a + y * b) + (x * b - y * a) * (x * b - y * a) == (x * x + y * y) * (a * a + b
            * b),
{
    lemma_square_of_sum(x * a, y * b);
    lemma_square_of_sum(x * b, y * a);
    lemma_four(x, a, x, a);
    lemma_four(y, b, y, b);
    lemma_four(x, b, x, b);
    lemma_four(y, a, y, a);
    assert((x * a) * (y * b) == (x * b) * (y * a)) by (nonlinear_arith);
    let p = x * x;
    let q = y * y;
    let c = a * a;
    let d = b * b;
    assert((p + q) * (c + d) == p * c + p * d + q * c + q * d) by (nonlinear_arith);
}

proof fn lemma_four(a: int, b: int, c: int, d: int)
    ensures
        (a * b) * (c * d) == (a * c) * (b * d),
{
    assert((a * b) * (c * d) == (a * c) * (b * d)) by (nonlinear_arith);
}

proof fn lemma_square_of_sum(u: int, v: int)
    ensures
        (u + v) * (u + v) == u * u + 2 * (u * v) + v * v,
        (u - v) * (u - v) == u * u - 2 * (u * v) + v * v,
{
    assert((u + v) * (u + v) == u * u + 2 * (u * v) + v * v) by (nonlinear_arith);
    assert((u - v) * (u - v) == u * u - 2 * (u * v) + v * v) by (nonlinear_arith);
}

proof fn lemma_sum_of_vectors(x: int, y: int, a: int, b: int, r: int, s: int)
    requires
        0 <= r,
        0 <= s,
        x * x + y * y <= r * r,
        a * a + b * b <= s * s,
    ensures
        (x + a) * (x + a) + (y + b) * (y + b) <= (r + s) * (r + s),
{
    let dot = x * a + y * b;
    let turn = x * b - y * a;
    let p = x * x + y * y;
    let q = a * a + b * b;
    lemma_lagrange(x, y, a, b);
    assert(0 <= p && 0 <= q) by (nonlinear_arith)
        requires
            p == x * x + y * y,
            q == a * a + b * b,
    ;
    assert(p * q <= (r * r) * (s * s)) by (nonlinear_arith)
        requires
            0 <= p <= r * r,
            0 <= q <= s * s,
    ;
    let rs = r * s;
    assert(rs * rs == (r * r) * (s * s)) by (nonlinear_arith)
        requires
            rs == r * s,
    ;
    assert(0 <= rs) by (nonlinear_arith)
        requires
            rs == r * s,
            0 <= r,
            0 <= s,
    ;
    assert(dot <= rs) by (nonlinear_arith)
        requires
            0 <= rs,
            dot * dot + turn * turn <= rs * rs,
    ;
    assert((x + a) * (x + a) + (y + b) * (y + b) == p + q + 2 * dot) by (nonlinear_arith)
        requires
            dot == x * a + y * b,
            p == x * x + y * y,
            q == a * a + b * b,
    ;
    assert((r + s) * (r + s) == r * r + s * s + 2 * rs) by (nonlinear_arith)
        requires
            rs == r * s,
    ;
}

/// `DEGREE` times the step from `t` of `DEGREE` parts along a chord to a point, squared.
spec fn off_chord2(p: Point, s: Point, e: Point, t: int) -> int {
    let x = DEGREE * (p.lon - s.lon) - t * (e.lon - s.lon);
    let y = DEGREE * (p.lat - s.lat) - t * (e.lat - s.lat);
    x * x + y * y
}

proof fn lemma_off_chord2(p: Point, s: Point, e: Point, t: int, m: int)
    ensures
        ({
            let dot = (p.lon - s.lon) * (e.lon - s.lon) + (p.lat - s.lat) * (e.lat - s.lat);
            off_chord2(p, s, e, m) - off_chord2(p, s, e, t) == (m - t) * ((m + t) * dist2(s, e) - 2 * (dot
                * DEGREE))
        }),
{
    let a = p.lon - s.lon;
    let b = p.lat - s.lat;
    let x = e.lon - s.lon;
    let y = e.lat - s.lat;
    let l = dist2(s, e);
    assert(l == x * x + y * y) by (nonlinear_arith)
        requires
            l == (s.lon - e.lon) * (s.lon - e.lon) + (s.lat - e.lat) * (s.lat - e.lat),
            x == e.lon - s.lon,
            y == e.lat - s.lat,
    ;
    lemma_off_one(DEGREE * a, x, t, m);
    lemma_off_one(DEGREE * b, y, t, m);
    let k = m - t;
    let n = m + t;
    assert(k * (n * (x * x) - 2 * ((DEGREE * a) * x)) + k * (n * (y * y) - 2 * ((DEGREE * b) * y)) == k * (n * (x
        * x + y * y) - 2 * ((DEGREE * a) * x + (DEGREE * b) * y))) by (nonlinear_arith);
    assert((DEGREE * a) * x + (DEGREE * b) * y == (a * x + b * y) * DEGREE) by (nonlinear_arith);
}

proof fn lemma_off_one(u: int, x: int, t: int, m: int)
    ensures
        (u - m * x) * (u - m * x) - (u - t * x) * (u - t * x) == (m - t) * ((m + t) * (x * x) - 2 * (u * x)),
{
    let p = m * x;
    let q = t * x;
    assert((u - p) * (u - p) - (u - q) * (u - q) == p * p - q * q - 2 * (u * p) + 2 * (u * q)) by (nonlinear_arith);
    assert(p * p == m * m * (x * x)) by (nonlinear_arith)
        requires
            p == m * x,
    ;
    assert(q * q == t * t * (x * x)) by (nonlinear_arith)
        requires
            q == t * x,
    ;
    assert(u * p == m * (u * x)) by (nonlinear_arith)
        requires
            p == m * x,
    ;
    assert(u * q == t * (u * x)) by (nonlinear_arith)
        requires
            q == t * x,
    ;
    let z = x * x;
    let w = u * x;
    assert((m - t) * ((m + t) * z - 2 * w) == m * m * z - t * t * z - 2 * (m * w) + 2 * (t * w)) by (nonlinear_arith);
}

/// No position on the chord is closer than the one that is taken for the closest, but for what
/// rounding to parts of the chord makes out.
proof fn lemma_foot_is_closest(p: Point, s: Point, e: Point, m: int)
    requires
        s != e,
        0 <= m <= DEGREE,
    ensures
        off_chord2(p, s, e, foot(p, s, e)) <= off_chord2(p, s, e, m) + dist2(s, e),
{
    let l = dist2(s, e);
    lemma_dist2(s, e);
    let dot = (p.lon - s.lon) * (e.lon - s.lon) + (p.lat - s.lat) * (e.lat - s.lat);
    let n = dot * DEGREE;
    let f = n / l;
    let r = n % l;
    vstd::arithmetic::div_mod::lemma_fundamental_div_mod(n, l);
    let t = foot(p, s, e);
    lemma_off_chord2(p, s, e, t, m);
    let k = m - t;
    assert(k * ((m + t) * l - 2 * n) >= -l) by {
        if f < 0 {
            assert(k * ((m + t) * l - 2 * n) >= 0) by (nonlinear_arith)
                requires
                    t == 0,
                    k == m - t,
                    0 <= m,
                    0 < l,
                    n == l * f + r,
                    0 <= r < l,
                    f < 0,
            {
                assert(n < 0);
                assert((m + t) * l >= 0);
            }
        } else if f > DEGREE {
            assert(k * ((m + t) * l - 2 * n) >= 0) by (nonlinear_arith)
                requires
                    t == DEGREE,
                    k == m - t,
                    0 <= m <= DEGREE,
                    0 < l,
                    n == l * f + r,
                    0 <= r < l,
                    f > DEGREE,
            {
                assert(l * f >= l * DEGREE);
                assert((m + t) * l <= 2 * (l * DEGREE));
                assert(k <= 0);
            }
        } else {
            assert((m + t) * l - 2 * n == k * l - 2 * r) by (nonlinear_arith)
                requires
                    t == f,
                    k == m - t,
                    n == l * f + r,
            ;
            assert(k * (k * l - 2 * r) >= -l) by (nonlinear_arith)
                requires
                    0 <= r < l,
            {
                if k <= 0 {
                    assert(k * l - 2 * r <= 0);
                } else if k == 1 {
                } else {
                    assert(k * l >= 2 * l);
                }
            }
        }
    }
}

/// A point within 0.01 degrees of a position on the chord, less five units of rounding, does
/// not stray too far from it.
proof fn lemma_near_does_not_stray(p: Point, s: Point, e: Point, m: int, q: Point)
    requires
        0 <= m <= DEGREE,
        lies_at(s, e, m, DEGREE as int, q),
        dist2(p, q) <= 12_799_995 * 12_799_995,
        dist2(s, e) <= 1_000_000 * DEGREE * DEGREE,
    ensures
        strays(Rule::Route, p, s, e) <= 163_840_000_000_000,
{
    let d = DEGREE as int;
    if s == e {
        lemma_along(s, e, m, d);
        lemma_one_place(s, e, m, d, q);
        assert(dist2(p, s) <= 163_840_000_000_000);
    } else {
        let t = foot(p, s, e);
        let x = p.lon - q.lon;
        let y = p.lat - q.lat;
        let g = 12_799_995int;
        // From the position given.
        let u = d * (q.lon - s.lon) - m * (e.lon - s.lon);
        let v = d * (q.lat - s.lat) - m * (e.lat - s.lat);
        assert(-d < u <= 0 && -d < v <= 0);
        assert((d * x) * (d * x) + (d * y) * (d * y) <= (d * g) * (d * g)) by (nonlinear_arith)
            requires
                x * x + y * y <= g * g,
                0 < d,
        {
            assert((d * x) * (d * x) + (d * y) * (d * y) == d * d * (x * x + y * y));
            assert((d * g) * (d * g) == d * d * (g * g));
        }
        assert(u * u + v * v <= (2 * d) * (2 * d)) by (nonlinear_arith)
            requires
                -d < u <= 0,
                -d < v <= 0,
        ;
        lemma_sum_of_vectors(d * x, d * y, u, v, d * g, 2 * d);
        assert(d * x + u == d * (p.lon - s.lon) - m * (e.lon - s.lon)) by (nonlinear_arith)
            requires
                x == p.lon - q.lon,
                u == d * (q.lon - s.lon) - m * (e.lon - s.lon),
        ;
        assert(d * y + v == d * (p.lat - s.lat) - m * (e.lat - s.lat)) by (nonlinear_arith)
            requires
                y == p.lat - q.lat,
                v == d * (q.lat - s.lat) - m * (e.lat - s.lat),
        ;
        let h = d * g + 2 * d;
        assert(off_chord2(p, s, e, m) <= h * h);
        lemma_foot_is_closest(p, s, e, m);
        assert(h * h + 1_000_000 * DEGREE * DEGREE <= (h + d) * (h + d)) by (nonlinear_arith)
            requires
                d == DEGREE,
                h == d * g + 2 * d,
                g == 12_799_995,
        {
            assert((h + d) * (h + d) == h * h + 2 * (h * d) + d * d);
            assert(h == d * 12_799_997);
            assert(h * d == 12_799_997 * (d * d));
            assert(1_000_000 * DEGREE * DEGREE == 1_000_000 * (d * d));
        }
        // To the position that is taken.
        let fx = (t * (e.lon - s.lon)) / d;
        let fy = (t * (e.lat - s.lat)) / d;
        vstd::arithmetic::div_mod::lemma_fundamental_div_mod(t * (e.lon - s.lon), d);
        vstd::arithmetic::div_mod::lemma_fundamental_div_mod(t * (e.lat - s.lat), d);
        let wx = t * (e.lon - s.lon) - d * fx;
        let wy = t * (e.lat - s.lat) - d * fy;
        assert(0 <= wx < d && 0 <= wy < d);
        let ux = d * (p.lon - s.lon) - t * (e.lon - s.lon);
        let uy = d * (p.lat - s.lat) - t * (e.lat - s.lat);
        assert(wx * wx + wy * wy <= (2 * d) * (2 * d)) by (nonlinear_arith)
            requires
                0 <= wx < d,
                0 <= wy < d,
        ;
        assert(ux * ux + uy * uy <= (h + d) * (h + d));
        lemma_sum_of_vectors(ux, uy, wx, wy, h + d, 2 * d);
        let zx = (p.lon - s.lon) - fx;
        let zy = (p.lat - s.lat) - fy;
        assert(ux + wx == d * zx) by (nonlinear_arith)
            requires
                ux == d * (p.lon - s.lon) - t * (e.lon - s.lon),
                wx == t * (e.lon - s.lon) - d * fx,
                zx == (p.lon - s.lon) - fx,
        ;
        assert(uy + wy == d * zy) by (nonlinear_arith)
            requires
                uy == d * (p.lat - s.lat) - t * (e.lat - s.lat),
                wy == t * (e.lat - s.lat) - d * fy,
                zy == (p.lat - s.lat) - fy,
        ;
        let top = h + d + 2 * d;
        assert(top == d * 12_800_000) by (nonlinear_arith)
            requires
                top == h + d + 2 * d,
                h == d * g + 2 * d,
                g == 12_799_995,
        ;
        assert(zx * zx + zy * zy <= 163_840_000_000_000) by (nonlinear_arith)
            requires
                (d * zx) * (d * zx) + (d * zy) * (d * zy) <= top * top,
                top == d * 12_800_000,
                0 < d,
        {
            let z = zx * zx + zy * zy;
            assert((d * zx) * (d * zx) + (d * zy) * (d * zy) == d * d * z);
            assert(top * top == d * d * 163_840_000_000_000);
            assert(d * d > 0);
        }
        assert(chord_dist2(p, s, e) == zx * zx + zy * zy);
    }
}

/// No point of a simplified route is needless: each but the two ends lies further than 0.01
/// degrees, less five units of rounding, from every position on a chord between two others of
/// its points, one before it and one after.
pub proof fn lemma_kept_are_needed(pts: Seq<Point>, j: int) -> (r: (int, int))
    requires
        0 < j < thinned(Rule::Route, pts).len() - 1,
    ensures
        0 <= r.0 < j < r.1 < thinned(Rule::Route, pts).len(),
        ({
            let line = thinned(Rule::Route, pts);
            dist2(line[r.0], line[r.1]) <= 1_000_000 * DEGREE * DEGREE ==> forall|m: int, q: Point|
                0 <= m <= DEGREE && #[trigger] lies_at(line[r.0], line[r.1], m, DEGREE as int, q) ==> dist2(
                    line[j],
                    q,
                ) > 12_799_995 * 12_799_995
        }),
{
    let rule = Rule::Route;
    let n = pts.len() as int;
    let line = thinned(rule, pts);
    let i = lemma_place_of(rule, pts, n, j);
    lemma_kept_place(rule, pts, i, n);
    if i == 0 {
        assert(kept_points(rule, pts, 0).len() == 0);
    }
    if i == n - 1 {
        lemma_kept_place(rule, pts, n - 1, n);
        assert(line.len() == kept_points(rule, pts, n - 1).len() + 1);
    }
    assert(keeps(rule, pts, 0, n - 1, i));
    let (lo, hi) = lemma_kept_strays(rule, pts, 0, n - 1, i);
    lemma_kept_place(rule, pts, lo, n);
    lemma_kept_place(rule, pts, hi, n);
    lemma_places_ordered(rule, pts, lo, i);
    lemma_places_ordered(rule, pts, i, hi);
    let a = kept_points(rule, pts, lo).len() as int;
    let b = kept_points(rule, pts, hi).len() as int;
    if dist2(line[a], line[b]) <= 1_000_000 * DEGREE * DEGREE {
        assert forall|m: int, q: Point|
            0 <= m <= DEGREE && #[trigger] lies_at(line[a], line[b], m, DEGREE as int, q) implies dist2(
            line[j],
            q,
        ) > 12_799_995 * 12_799_995 by {
            if dist2(line[j], q) <= 12_799_995 * 12_799_995 {
                lemma_near_does_not_stray(pts[i], pts[lo], pts[hi], m, q);
            }
        }
    }
    (a, b)
}

/// No point of a simplified channel is needless: each but the two ends lies further than 0.002 degrees
/// from the line through two others of its points, one before it and one after. The length of that
/// chord is rounded down.
pub proof fn lemma_channel_points_are_needed(pts: Seq<Point>, j: int) -> (r: (int, int, int))
    requires
        0 < j < thinned(Rule::Channel, pts).len() - 1,
    ensures
        0 <= r.0 < j < r.1 < thinned(Rule::Channel, pts).len(),
        0 <= r.2,
        ({
            let line = thinned(Rule::Channel, pts);
            let s = line[r.0];
            let e = line[r.1];
            let p = line[j];
            let area = (e.lat - s.lat) * (p.lon - s.lon) - (e.lon - s.lon) * (p.lat - s.lat);
            &&& r.2 * r.2 <= dist2(s, e) < (r.2 + 1) * (r.2 + 1)
            &&& s != e ==> 500 * area > DEGREE * r.2 || 500 * area < -(DEGREE * r.2)
            &&& s == e ==> 250_000 * dist2(p, s) > DEGREE * DEGREE
        }),
{
    let rule = Rule::Channel;
    let n = pts.len() as int;
    let line = thinned(rule, pts);
    let i = lemma_place_of(rule, pts, n, j);
    lemma_kept_place(rule, pts, i, n);
    if i == 0 {
        assert(kept_points(rule, pts, 0).len() == 0);
    }
    if i == n - 1 {
        assert(line.len() == kept_points(rule, pts, n - 1).len() + 1);
    }
    assert(keeps(rule, pts, 0, n - 1, i));
    let (lo, hi) = lemma_kept_strays(rule, pts, 0, n - 1, i);
    lemma_kept_place(rule, pts, lo, n);
    lemma_kept_place(rule, pts, hi, n);
    lemma_places_ordered(rule, pts, lo, i);
    lemma_places_ordered(rule, pts, i, hi);
    let a = kept_points(rule, pts, lo).len() as int;
    let b = kept_points(rule, pts, hi).len() as int;
    let s = line[a];
    let e = line[b];
    crate::sampling::lemma_map_length(s, e);
    let len = floor_sqrt(dist2(s, e));
    assert(DEGREE * DEGREE == 1_638_400_000_000_000_000) by (nonlinear_arith);
    assert(DEGREE * len == 500 * (CHANNEL_TOLERANCE * len)) by (nonlinear_arith)
        requires
            DEGREE == 1_280_000_000,
            CHANNEL_TOLERANCE == 2_560_000,
    ;
    (a, b, len)
}

} // verus!
