//! Line-of-sight path simplification.
use vstd::prelude::*;

use crate::geo::{dist2, wound, wound_path, Point, DEGREE, DRAWN, TURN};
use crate::land::{
    corner_box, encloses, lemma_encloses_in_box, meets_turned, ring_entries, LandClassifier,
};
use crate::sampling::{
    along, band_crosses_land, band_hits_land, lemma_along_goes_round, lemma_band_goes_round,
    line_length, map_length, point_along, sideways, step_sideways,
};
use crate::spatial::{box_items, BoxEntry};

verus! {

/// Half the width of the band that a line of sight must keep free of land: 0.027 degrees.
pub const SIGHT_BAND: u64 = 34_560_000;

/// No land ring's bounding box meets the box around the line, wherever around the globe the
/// line has wound to.
pub open spec fn open_sea(c: LandClassifier, a: Point, b: Point) -> bool {
    !c.near_land_around(corner_box(a.lon, a.lat, b.lon, b.lat))
}

/// A length on the map in kilometres, at 111 to the degree, rounded up.
pub open spec fn rough_km(len: int) -> int {
    (111 * len + DEGREE - 1) / DEGREE as int
}

/// How many steps a line is sampled in: one for each kilometre, and two at least.
pub open spec fn sight_samples(len: int) -> int {
    if rough_km(len) >= 2 {
        rough_km(len)
    } else {
        2
    }
}

/// The line, sampled every kilometre, keeps the band around it free of land.
pub open spec fn band_clear(c: LandClassifier, a: Point, b: Point) -> bool {
    let len = map_length(a, b);
    let off = if len > 0 {
        sideways(a, b, SIGHT_BAND as int, len)
    } else {
        (0, 0)
    };
    !band_hits_land(c, a, b, sight_samples(len), off)
}

/// How many pieces of 100 kilometres or less a line is cut into.
pub open spec fn piece_count(len: int) -> int {
    (111 * len + 100 * DEGREE - 1) / (100 * DEGREE)
}

/// The `s`-th of `k` pieces of the line is open sea or keeps its band free of land.
pub open spec fn piece_clear(c: LandClassifier, a: Point, b: Point, s: int, k: int) -> bool {
    let p = along(a, b, s, k);
    let q = along(a, b, s + 1, k);
    open_sea(c, p, q) || band_clear(c, p, q)
}

/// The straight line from `a` to `b` stays in water.
#[verifier::opaque]
pub open spec fn in_sight(c: LandClassifier, a: Point, b: Point) -> bool {
    let len = map_length(a, b);
    let k = piece_count(len);
    open_sea(c, a, b) || if 111 * len < 200 * DEGREE {
        band_clear(c, a, b)
    } else {
        forall|s: int| 0 <= s < k ==> #[trigger] piece_clear(c, a, b, s, k)
    }
}

/// The last position reached when points from `j` on are skipped as long as they are in
/// sight of position `cur`.
pub open spec fn furthest(c: LandClassifier, path: Seq<Point>, cur: int, j: int) -> int
    decreases path.len() - j,
{
    if 0 <= j < path.len() && in_sight(c, path[cur], path[j]) {
        furthest(c, path, cur, j + 1)
    } else {
        j - 1
    }
}

proof fn lemma_furthest(c: LandClassifier, path: Seq<Point>, cur: int, j: int)
    requires
        0 <= cur < j - 1,
        j <= path.len(),
    ensures
        j - 1 <= furthest(c, path, cur, j) < path.len(),
        forall|i: int| j <= i <= furthest(c, path, cur, j) ==> in_sight(c, path[cur], #[trigger] path[i]),
    decreases path.len() - j,
{
    if j < path.len() && in_sight(c, path[cur], path[j]) {
        lemma_furthest(c, path, cur, j + 1);
    }
}

/// The positions that the simplified path keeps after position `cur`: from each, the
/// furthest that can be seen.
pub open spec fn stops(c: LandClassifier, path: Seq<Point>, cur: int) -> Seq<int>
    decreases path.len() - cur,
{
    if 0 <= cur < path.len() - 1 {
        let best = furthest(c, path, cur, cur + 2);
        if cur < best < path.len() {
            seq![best] + stops(c, path, best)
        } else {
            Seq::empty()
        }
    } else {
        Seq::empty()
    }
}

/// The path without the points that its line of sight can skip.
pub open spec fn simplified(c: LandClassifier, path: Seq<Point>) -> Seq<Point> {
    if path.len() <= 2 {
        path
    } else {
        (seq![0int] + stops(c, path, 0)).map_values(|i: int| path[i])
    }
}

/// Simplifying keeps positions in order, ends with the last one, and each hop goes to the
/// next point of the path or to one that is in sight.
pub proof fn lemma_stops(c: LandClassifier, path: Seq<Point>, cur: int)
    requires
        0 <= cur < path.len(),
    ensures
        ({
            let kept = seq![cur] + stops(c, path, cur);
            &&& kept.last() == path.len() - 1
            &&& forall|k: int| 0 <= k < kept.len() ==> cur <= #[trigger] kept[k] < path.len()
            &&& forall|k: int|
                0 <= k < kept.len() - 1 ==> {
                    &&& #[trigger] kept[k] < kept[k + 1]
                    &&& kept[k + 1] == kept[k] + 1 || in_sight(c, path[kept[k]], path[kept[k + 1]])
                }
        }),
    decreases path.len() - cur,
{
    let kept = seq![cur] + stops(c, path, cur);
    if cur < path.len() - 1 {
        let best = furthest(c, path, cur, cur + 2);
        lemma_furthest(c, path, cur, cur + 2);
        lemma_stops(c, path, best);
        let rest = seq![best] + stops(c, path, best);
        assert(kept =~= seq![cur] + rest);
        assert(kept.last() == rest.last());
        assert forall|k: int| 0 <= k < kept.len() implies cur <= #[trigger] kept[k] < path.len() by {
            if k > 0 {
                assert(kept[k] == rest[k - 1]);
            }
        }
        assert forall|k: int| 0 <= k < kept.len() - 1 implies {
            &&& #[trigger] kept[k] < kept[k + 1]
            &&& kept[k + 1] == kept[k] + 1 || in_sight(c, path[kept[k]], path[kept[k + 1]])
        } by {
            assert(kept[k + 1] == rest[k]);
            if k > 0 {
                assert(kept[k] == rest[k - 1]);
                assert(rest[(k - 1) + 1] == rest[k]);
            }
        }
    }
}

/// All the points that a hop skips, and the one it goes to, are in sight of where it starts, and
/// the point after that is not.
proof fn lemma_hops_reach_far(c: LandClassifier, path: Seq<Point>, cur: int, k: int)
    requires
        0 <= cur < path.len(),
        0 <= k < stops(c, path, cur).len(),
    ensures
        ({
            let kept = seq![cur] + stops(c, path, cur);
            &&& forall|j: int|
                kept[k] + 2 <= j <= kept[k + 1] ==> in_sight(c, path[kept[k]], #[trigger] path[j])
            &&& kept[k + 1] < path.len() - 1 ==> !in_sight(
                c,
                path[kept[k]],
                path[kept[k + 1] + 1],
            )
        }),
    decreases path.len() - cur,
{
    let best = furthest(c, path, cur, cur + 2);
    lemma_furthest(c, path, cur, cur + 2);
    lemma_furthest_stops(c, path, cur, cur + 2);
    let rest = seq![best] + stops(c, path, best);
    let kept = seq![cur] + stops(c, path, cur);
    assert(kept =~= seq![cur] + rest);
    if k > 0 {
        lemma_hops_reach_far(c, path, best, k - 1);
        assert(kept[k] == rest[k - 1] && kept[k + 1] == rest[k]);
    }
}

/// What simplifying makes of a path: it keeps some of the points, in order, from the first to the
/// last, and from each goes on to the furthest before the first that is out of sight.
pub proof fn lemma_simplified_is_greedy(c: LandClassifier, path: Seq<Point>) -> (kept: Seq<int>)
    requires
        path.len() >= 1,
    ensures
        kept.len() == simplified(c, path).len(),
        kept.first() == 0,
        kept.last() == path.len() - 1,
        forall|k: int| 0 <= k < kept.len() ==> 0 <= #[trigger] kept[k] < path.len() && simplified(c, path)[k]
            == path[kept[k]],
        forall|k: int| 0 <= k < kept.len() - 1 ==> (#[trigger] kept[k]) < kept[k + 1],
        forall|k: int, j: int|
            0 <= k < kept.len() - 1 && kept[k] + 2 <= j <= kept[k + 1] ==> in_sight(
                c,
                path[#[trigger] kept[k]],
                #[trigger] path[j],
            ),
        forall|k: int|
            0 <= k < kept.len() - 1 && kept[k + 1] < path.len() - 1 ==> !in_sight(
                c,
                path[#[trigger] kept[k]],
                path[kept[k + 1] + 1],
            ),
{
    if path.len() <= 2 {
        let kept = Seq::new(path.len(), |i: int| i);
        kept
    } else {
        let kept = seq![0int] + stops(c, path, 0);
        lemma_stops(c, path, 0);
        assert forall|k: int, j: int| 0 <= k < kept.len() - 1 && kept[k] + 2 <= j <= kept[k + 1] implies in_sight(
            c,
            path[#[trigger] kept[k]],
            #[trigger] path[j],
        ) by {
            lemma_hops_reach_far(c, path, 0, k);
        }
        assert forall|k: int| 0 <= k < kept.len() - 1 && kept[k + 1] < path.len() - 1 implies !in_sight(
            c,
            path[#[trigger] kept[k]],
            path[kept[k + 1] + 1],
        ) by {
            lemma_hops_reach_far(c, path, 0, k);
        }
        kept
    }
}

proof fn lemma_furthest_stops(c: LandClassifier, path: Seq<Point>, cur: int, j: int)
    requires
        0 <= j,
    ensures
        furthest(c, path, cur, j) + 1 < path.len() ==> !in_sight(
            c,
            path[cur],
            path[furthest(c, path, cur, j) + 1],
        ),
    decreases path.len() - j,
{
    if j < path.len() && in_sight(c, path[cur], path[j]) {
        lemma_furthest_stops(c, path, cur, j + 1);
    }
}

/// Simplifying keeps both ends of the path.
pub proof fn lemma_simplified_ends(c: LandClassifier, path: Seq<Point>)
    requires
        path.len() >= 1,
    ensures
        simplified(c, path).len() >= 1,
        simplified(c, path).first() == path.first(),
        simplified(c, path).last() == path.last(),
{
    if path.len() > 2 {
        lemma_stops(c, path, 0);
    }
}

/// Every point of the simplified path is a point of the path.
pub proof fn lemma_simplified_subset(c: LandClassifier, path: Seq<Point>)
    ensures
        forall|i: int| 0 <= i < simplified(c, path).len() ==> path.contains(#[trigger] simplified(c, path)[i]),
        simplified(c, path).len() <= path.len(),
{
    if path.len() > 2 {
        lemma_stops(c, path, 0);
        let kept = seq![0int] + stops(c, path, 0);
        assert forall|i: int| 0 <= i < simplified(c, path).len() implies path.contains(
            #[trigger] simplified(c, path)[i]) by {
            assert(simplified(c, path)[i] == path[kept[i]]);
        }
        lemma_climb(kept, 0, kept.len() - 1);
    }
}

proof fn lemma_climb(kept: Seq<int>, i: int, j: int)
    requires
        forall|k: int| 0 <= k < kept.len() - 1 ==> #[trigger] kept[k] < kept[k + 1],
        0 <= i <= j < kept.len(),
    ensures
        kept[j] >= kept[i] + (j - i),
    decreases j - i,
{
    if i < j {
        lemma_climb(kept, i, j - 1);
        assert(kept[j - 1] < kept[(j - 1) + 1]);
    }
}

/// Over open sea everything is in sight.
pub proof fn lemma_open_sea_in_sight(c: LandClassifier, a: Point, b: Point)
    requires
        open_sea(c, a, b),
    ensures
        in_sight(c, a, b),
{
    reveal(in_sight);
}

/// The open sea is water: no ring of land encloses a position of the box around the line,
/// moved by any number of turns.
pub proof fn lemma_open_sea_is_water(
    c: LandClassifier,
    rings: Seq<Seq<Point>>,
    a: Point,
    b: Point,
    p: Point,
    turns: int,
    i: int,
)
    requires
        box_items(c.tree) == ring_entries(rings).to_multiset(),
        open_sea(c, a, b),
        0 <= i < rings.len(),
        ({
            let around = corner_box(a.lon, a.lat, b.lon, b.lat);
            &&& around.min_lon + turns * TURN <= p.lon <= around.max_lon + turns * TURN
            &&& around.min_lat <= p.lat <= around.max_lat
        }),
    ensures
        !encloses(rings[i], p),
{
    broadcast use vstd::seq_lib::group_to_multiset_ensures;

    let e = ring_entries(rings)[i];
    assert(ring_entries(rings).contains(e));
    assert(box_items(c.tree).contains(e));
    if encloses(rings[i], p) {
        lemma_encloses_in_box(rings[i], p);
        assert(meets_turned(e.bbox, corner_box(a.lon, a.lat, b.lon, b.lat), turns));
    }
}

/// It does not matter how often a line has wound around the globe.
pub proof fn lemma_open_sea_goes_round(c: LandClassifier, a: Point, b: Point, x: Point, y: Point, turns: int)
    requires
        wound(a, x, turns),
        wound(b, y, turns),
    ensures
        open_sea(c, a, b) == open_sea(c, x, y),
{
    let here = corner_box(a.lon, a.lat, b.lon, b.lat);
    let there = corner_box(x.lon, x.lat, y.lon, y.lat);
    if c.near_land_around(here) {
        let (e, t) = choose|e: BoxEntry, t: int| #[trigger]
            box_items(c.tree).contains(e) && #[trigger] meets_turned(e.bbox, here, t);
        assert((t - turns) * TURN + turns * TURN == t * TURN) by (nonlinear_arith);
        assert(meets_turned(e.bbox, there, t - turns));
    }
    if c.near_land_around(there) {
        let (e, t) = choose|e: BoxEntry, t: int| #[trigger]
            box_items(c.tree).contains(e) && #[trigger] meets_turned(e.bbox, there, t);
        assert((t + turns) * TURN == t * TURN + turns * TURN) by (nonlinear_arith);
        assert(meets_turned(e.bbox, here, t + turns));
    }
}

proof fn lemma_band_clear_goes_round(c: LandClassifier, a: Point, b: Point, x: Point, y: Point, turns: int)
    requires
        wound(a, x, turns),
        wound(b, y, turns),
    ensures
        map_length(x, y) == map_length(a, b),
        band_clear(c, a, b) == band_clear(c, x, y),
{
    assert(x.lon - y.lon == a.lon - b.lon);
    assert(dist2(x, y) == dist2(a, b));
    let len = map_length(a, b);
    let off = if len > 0 {
        sideways(a, b, SIGHT_BAND as int, len)
    } else {
        (0, 0)
    };
    assert(sideways(x, y, SIGHT_BAND as int, len) == sideways(a, b, SIGHT_BAND as int, len));
    lemma_band_goes_round(c, a, b, x, y, turns, sight_samples(len), off);
}

proof fn lemma_piece_goes_round(
    c: LandClassifier,
    a: Point,
    b: Point,
    x: Point,
    y: Point,
    turns: int,
    s: int,
    k: int,
)
    requires
        wound(a, x, turns),
        wound(b, y, turns),
        0 <= s < k,
    ensures
        piece_clear(c, a, b, s, k) == piece_clear(c, x, y, s, k),
{
    lemma_along_goes_round(a, b, x, y, turns, s, k);
    lemma_along_goes_round(a, b, x, y, turns, s + 1, k);
    let p = along(a, b, s, k);
    let q = along(a, b, s + 1, k);
    lemma_open_sea_goes_round(c, p, q, along(x, y, s, k), along(x, y, s + 1, k), turns);
    lemma_band_clear_goes_round(c, p, q, along(x, y, s, k), along(x, y, s + 1, k), turns);
}

/// What is in sight is so no matter how often the line has wound around the globe.
pub proof fn lemma_sight_goes_round(c: LandClassifier, a: Point, b: Point, x: Point, y: Point, turns: int)
    requires
        wound(a, x, turns),
        wound(b, y, turns),
    ensures
        in_sight(c, a, b) == in_sight(c, x, y),
{
    reveal(in_sight);
    lemma_open_sea_goes_round(c, a, b, x, y, turns);
    lemma_band_clear_goes_round(c, a, b, x, y, turns);
    let k = piece_count(map_length(a, b));
    assert forall|s: int| 0 <= s < k implies #[trigger] piece_clear(c, a, b, s, k) == piece_clear(c, x, y, s, k) by {
        lemma_piece_goes_round(c, a, b, x, y, turns, s, k);
    }
    assert forall|s: int| 0 <= s < k implies #[trigger] piece_clear(c, x, y, s, k) == piece_clear(c, a, b, s, k) by {
        lemma_piece_goes_round(c, a, b, x, y, turns, s, k);
    }
}

proof fn lemma_furthest_goes_round(c: LandClassifier, path: Seq<Point>, far: Seq<Point>, turns: int, cur: int, j: int)
    requires
        wound_path(path, far, turns),
        0 <= cur < path.len(),
    ensures
        furthest(c, path, cur, j) == furthest(c, far, cur, j),
    decreases path.len() - j,
{
    if 0 <= j < path.len() {
        assert(wound(path[cur], far[cur], turns) && wound(path[j], far[j], turns));
        lemma_sight_goes_round(c, path[cur], path[j], far[cur], far[j], turns);
        lemma_furthest_goes_round(c, path, far, turns, cur, j + 1);
    }
}

proof fn lemma_stops_go_round(c: LandClassifier, path: Seq<Point>, far: Seq<Point>, turns: int, cur: int)
    requires
        wound_path(path, far, turns),
    ensures
        stops(c, path, cur) == stops(c, far, cur),
    decreases path.len() - cur,
{
    if 0 <= cur < path.len() - 1 {
        lemma_furthest_goes_round(c, path, far, turns, cur, cur + 2);
        let best = furthest(c, path, cur, cur + 2);
        if cur < best < path.len() {
            lemma_stops_go_round(c, path, far, turns, best);
        }
    }
}

/// A path that has wound on is simplified as the path itself is: the same points are kept.
pub proof fn lemma_simplified_goes_round(c: LandClassifier, path: Seq<Point>, far: Seq<Point>, turns: int)
    requires
        wound_path(path, far, turns),
    ensures
        wound_path(simplified(c, path), simplified(c, far), turns),
{
    if path.len() > 2 {
        lemma_stops_go_round(c, path, far, turns, 0);
        lemma_stops(c, path, 0);
        let kept = seq![0int] + stops(c, path, 0);
        assert forall|i: int| 0 <= i < kept.len() implies wound(
            #[trigger] simplified(c, path)[i],
            #[trigger] simplified(c, far)[i],
            turns,
        ) by {
            assert(0 <= kept[i] < path.len());
            assert(wound(path[kept[i]], far[kept[i]], turns));
        }
    }
}

fn km_up(len: u64) -> (n: u64)
    requires
        len <= 0x7fff_ffff_ffff_ffff,
    ensures
        n == rough_km(len as int),
        n <= 0x7fff_ffff_ffff,
{
    ((111 * (len as u128) + (DEGREE as u128 - 1)) / (DEGREE as u128)) as u64
}

fn sample_line(a: Point, b: Point, len: u64, classifier: &LandClassifier) -> (r: bool)
    requires
        classifier.wf(),
        a.within(DRAWN as int),
        b.within(DRAWN as int),
        len == map_length(a, b),
        dist2(a, b) < (len + 1) * (len + 1),
        len <= 0x7fff_ffff_ffff_ffff,
    ensures
        r == band_clear(*classifier, a, b),
{
    let km = km_up(len);
    let n: u64 = if km >= 2 {
        km
    } else {
        2
    };
    let off: (i64, i64) = if len > 0 {
        step_sideways(a, b, SIGHT_BAND, len)
    } else {
        (0, 0)
    };
    !band_crosses_land(classifier, a, b, n, off)
}

/// Whether a straight line from `from` to `to` stays in water. A line whose bounding box
/// meets no land needs no sampling; a long one is cut into pieces that get the same test.
pub fn can_skip(from: &Point, to: &Point, classifier: &LandClassifier) -> (r: bool)
    requires
        classifier.wf(),
        from.within(DRAWN as int),
        to.within(DRAWN as int),
    ensures
        r == in_sight(*classifier, *from, *to),
{
    reveal(in_sight);
    if !classifier.overlaps_land_around(from.lon, from.lat, to.lon, to.lat) {
        return true;
    }
    let len = line_length(*from, *to);
    if 111 * (len as u128) < 200 * (DEGREE as u128) {
        return sample_line(*from, *to, len, classifier);
    }
    let k: u64 = ((111 * (len as u128) + (100 * (DEGREE as u128) - 1)) / (100 * (DEGREE as u128))) as u64;
    assert(k == piece_count(len as int));
    let mut s: u64 = 0;
    while s < k
        invariant
            classifier.wf(),
            from.within(DRAWN as int),
            to.within(DRAWN as int),
            s <= k,
            0 < k <= 0x7fff_ffff_ffff,
            forall|i: int| 0 <= i < s ==> #[trigger] piece_clear(*classifier, *from, *to, i, k as int),
            k == piece_count(map_length(*from, *to)),
            !open_sea(*classifier, *from, *to),
            111 * map_length(*from, *to) >= 200 * DEGREE,
        decreases k - s,
    {
        let p = point_along(*from, *to, s, k);
        let q = point_along(*from, *to, s + 1, k);
        if classifier.overlaps_land_around(p.lon, p.lat, q.lon, q.lat) {
            let piece = line_length(p, q);
            if !sample_line(p, q, piece, classifier) {
                proof {
                    reveal(in_sight);
                    assert(!piece_clear(*classifier, *from, *to, s as int, k as int));
                }
                return false;
            }
        }
        assert(piece_clear(*classifier, *from, *to, s as int, k as int));
        s = s + 1;
    }
    true
}

/// Scans forward from each kept point as far as the straight line stays in water. The
/// sampling interval is fixed; the one given is not used.
pub fn simplify(path: &Vec<Point>, classifier: &LandClassifier, _interval: u64) -> (r: Vec<Point>)
    requires
        classifier.wf(),
        forall|i: int| 0 <= i < path.len() ==> (#[trigger] path[i]).within(DRAWN as int),
    ensures
        r@ == simplified(*classifier, path@),
{
    let mut result: Vec<Point> = Vec::new();
    if path.len() <= 2 {
        let mut i: usize = 0;
        while i < path.len()
            invariant
                i <= path.len(),
                result@ =~= path@.take(i as int),
            decreases path.len() - i,
        {
            result.push(path[i]);
            i = i + 1;
        }
        assert(result@ =~= path@);
        return result;
    }
    let n = path.len();
    result.push(path[0]);
    let mut current: usize = 0;
    let ghost mut kept: Seq<int> = seq![0int];
    assert(kept + stops(*classifier, path@, 0) =~= seq![0int] + stops(*classifier, path@, 0));
    while current < n - 1
        invariant
            classifier.wf(),
            n == path.len(),
            n > 2,
            current < n,
            forall|i: int| 0 <= i < path.len() ==> (#[trigger] path[i]).within(DRAWN as int),
            kept + stops(*classifier, path@, current as int) == seq![0int] + stops(*classifier, path@, 0),
            result@ =~= kept.map_values(|i: int| path@[i]),
        decreases n - current,
    {
        let mut j: usize = current + 2;
        let ghost goal = furthest(*classifier, path@, current as int, current + 2);
        proof {
            lemma_furthest(*classifier, path@, current as int, current + 2);
        }
        while j < n && can_skip(&path[current], &path[j], classifier)
            invariant
                classifier.wf(),
                n == path.len(),
                current + 2 <= j <= n || j == current + 2,
                current < n - 1,
                n > 2,
                forall|i: int| 0 <= i < path.len() ==> (#[trigger] path[i]).within(DRAWN as int),
                goal == furthest(*classifier, path@, current as int, j as int),
            decreases n - j,
        {
            j = j + 1;
        }
        let best: usize = j - 1;
        assert(best == goal);
        result.push(path[best]);
        proof {
            let before = stops(*classifier, path@, current as int);
            let after = stops(*classifier, path@, best as int);
            assert(before =~= seq![best as int] + after);
            assert(kept.push(best as int) + after =~= kept + before);
            kept = kept.push(best as int);
        }
        current = best;
    }
    assert(stops(*classifier, path@, current as int) =~= Seq::<int>::empty());
    assert(kept =~= kept + stops(*classifier, path@, current as int));
    result
}

} // verus!
