//! From a request to the paths that are drawn: smoothing, single routes and itineraries.
use vstd::prelude::*;

use crate::geo::{is_measure, wound, wound_path, Point, DRAWN, KM, WORLD};
use crate::graph::Graph;
use crate::land::{lemma_land_goes_round, LandClassifier};
use crate::los::{
    can_skip, in_sight, lemma_sight_goes_round, lemma_simplified_subset, simplified, simplify,
};
use crate::router::{same_place, same_point, served, RouteResult, Router};
use crate::sampling::{
    along, lemma_along, lemma_along_goes_round, lemma_along_lies, lies_at, point_along,
};
use crate::search::PENALTY_MAX;
use crate::thinning::drawable;

verus! {

/// The coastal penalty of a request that sets none: five.
pub const DEFAULT_PENALTY: i64 = 5_000_000;

/// Both cuts of a corner at `ratio` percent lie in water and in sight of what is before
/// them.
pub open spec fn cut_clear(c: LandClassifier, prev: Point, p0: Point, p1: Point, ratio: int) -> bool {
    let q = along(p0, p1, ratio, 100);
    let r = along(p0, p1, 100 - ratio, 100);
    &&& !c.land(q.lon as int, q.lat as int)
    &&& !c.land(r.lon as int, r.lat as int)
    &&& in_sight(c, prev, q)
    &&& in_sight(c, q, r)
}

/// What replaces the segment from `p0` to `p1`: its cuts at 25, 10 or 5 percent, the first
/// that keeps clear of land, or the segment itself.
pub open spec fn cut(c: LandClassifier, prev: Point, p0: Point, p1: Point) -> Seq<Point> {
    if cut_clear(c, prev, p0, p1, 25) {
        seq![along(p0, p1, 25, 100), along(p0, p1, 75, 100)]
    } else if cut_clear(c, prev, p0, p1, 10) {
        seq![along(p0, p1, 10, 100), along(p0, p1, 90, 100)]
    } else if cut_clear(c, prev, p0, p1, 5) {
        seq![along(p0, p1, 5, 100), along(p0, p1, 95, 100)]
    } else {
        seq![p0, p1]
    }
}

/// The first point of a path and the cuts of its first `k` segments.
pub open spec fn cuts(c: LandClassifier, path: Seq<Point>, k: int) -> Seq<Point>
    decreases k,
{
    if k <= 0 {
        seq![path[0]]
    } else {
        let before = cuts(c, path, k - 1);
        before + cut(c, before.last(), path[k - 1], path[k])
    }
}

/// The first `k` points without those that are the same as the one kept before them.
pub open spec fn deduped(path: Seq<Point>, k: int) -> Seq<Point>
    decreases k,
{
    if k <= 0 {
        Seq::empty()
    } else {
        let before = deduped(path, k - 1);
        if before.len() > 0 && same_place(path[k - 1], before.last()) {
            before
        } else {
            before.push(path[k - 1])
        }
    }
}

/// One round of corner cutting.
pub open spec fn smoothed_once(c: LandClassifier, path: Seq<Point>) -> Seq<Point> {
    let all = cuts(c, path, path.len() - 1).push(path.last());
    deduped(all, all.len() as int)
}

/// So many rounds of corner cutting; a path of fewer than three points has no corners.
pub open spec fn smoothed(c: LandClassifier, path: Seq<Point>, rounds: nat) -> Seq<Point>
    decreases rounds,
{
    if rounds == 0 || path.len() < 3 {
        path
    } else {
        smoothed(c, smoothed_once(c, path), (rounds - 1) as nat)
    }
}

/// All points of a path can be drawn.
pub open spec fn all_drawable(path: Seq<Point>) -> bool {
    forall|i: int| 0 <= i < path.len() ==> drawable(#[trigger] path[i])
}

proof fn lemma_cut(c: LandClassifier, prev: Point, p0: Point, p1: Point)
    requires
        drawable(p0),
        drawable(p1),
    ensures
        cut(c, prev, p0, p1).len() == 2,
        drawable(cut(c, prev, p0, p1)[0]),
        drawable(cut(c, prev, p0, p1)[1]),
{
    lemma_along(p0, p1, 25, 100);
    lemma_along(p0, p1, 75, 100);
    lemma_along(p0, p1, 10, 100);
    lemma_along(p0, p1, 90, 100);
    lemma_along(p0, p1, 5, 100);
    lemma_along(p0, p1, 95, 100);
}

proof fn lemma_cuts(c: LandClassifier, path: Seq<Point>, k: int)
    requires
        all_drawable(path),
        0 <= k < path.len(),
    ensures
        cuts(c, path, k).len() == 2 * k + 1,
        cuts(c, path, k)[0] == path[0],
        all_drawable(cuts(c, path, k)),
    decreases k,
{
    if k > 0 {
        lemma_cuts(c, path, k - 1);
        let before = cuts(c, path, k - 1);
        lemma_cut(c, before.last(), path[k - 1], path[k]);
        let new = cut(c, before.last(), path[k - 1], path[k]);
        assert forall|i: int| 0 <= i < cuts(c, path, k).len() implies drawable(
            #[trigger] cuts(c, path, k)[i]) by {
            if i < before.len() {
                assert(cuts(c, path, k)[i] == before[i]);
            } else {
                assert(cuts(c, path, k)[i] == new[i - before.len()]);
            }
        }
    }
}

proof fn lemma_deduped(path: Seq<Point>, k: int)
    requires
        0 <= k <= path.len(),
        all_drawable(path),
    ensures
        all_drawable(deduped(path, k)),
        deduped(path, k).len() <= k,
        k > 0 ==> deduped(path, k).len() > 0 && deduped(path, k)[0] == path[0] && same_place(
            path[k - 1],
            deduped(path, k).last(),
        ),
    decreases k,
{
    if k > 0 {
        lemma_deduped(path, k - 1);
    }
}

/// Corner cutting keeps the first point, and the last but for a billionth of a degree.
pub proof fn lemma_smoothed_once(c: LandClassifier, path: Seq<Point>)
    requires
        path.len() >= 1,
        all_drawable(path),
    ensures
        smoothed_once(c, path).len() >= 1,
        smoothed_once(c, path).first() == path.first(),
        same_place(path.last(), smoothed_once(c, path).last()),
        all_drawable(smoothed_once(c, path)),
{
    let n = path.len() as int;
    lemma_cuts(c, path, n - 1);
    let all = cuts(c, path, n - 1).push(path.last());
    assert(all_drawable(all));
    assert(all[0] == path[0]);
    lemma_deduped(all, all.len() as int);
}

/// Smoothing keeps the first point, and all its points can be drawn.
pub proof fn lemma_smoothed(c: LandClassifier, path: Seq<Point>, rounds: nat)
    requires
        path.len() >= 1,
        all_drawable(path),
    ensures
        smoothed(c, path, rounds).len() >= 1,
        smoothed(c, path, rounds).first() == path.first(),
        all_drawable(smoothed(c, path, rounds)),
    decreases rounds,
{
    if rounds > 0 && path.len() >= 3 {
        lemma_smoothed_once(c, path);
        lemma_smoothed(c, smoothed_once(c, path), (rounds - 1) as nat);
    }
}

/// Smoothing keeps the last point but for a billionth of a degree in each round.
pub proof fn lemma_smoothed_last(c: LandClassifier, path: Seq<Point>, rounds: nat)
    requires
        path.len() >= 1,
        all_drawable(path),
    ensures
        -rounds <= smoothed(c, path, rounds).last().lon - path.last().lon <= rounds,
        -rounds <= smoothed(c, path, rounds).last().lat - path.last().lat <= rounds,
    decreases rounds,
{
    if rounds > 0 && path.len() >= 3 {
        lemma_smoothed_once(c, path);
        lemma_smoothed_last(c, smoothed_once(c, path), (rounds - 1) as nat);
    }
}

proof fn lemma_cut_clear_goes_round(
    c: LandClassifier,
    from: (Point, Point, Point),
    to: (Point, Point, Point),
    turns: int,
    ratio: int,
)
    requires
        wound(from.0, to.0, turns),
        wound(from.1, to.1, turns),
        wound(from.2, to.2, turns),
        0 <= ratio <= 100,
    ensures
        cut_clear(c, from.0, from.1, from.2, ratio) == cut_clear(c, to.0, to.1, to.2, ratio),
        wound(along(from.1, from.2, ratio, 100), along(to.1, to.2, ratio, 100), turns),
        wound(along(from.1, from.2, 100 - ratio, 100), along(to.1, to.2, 100 - ratio, 100), turns),
{
    let q = along(from.1, from.2, ratio, 100);
    let r = along(from.1, from.2, 100 - ratio, 100);
    lemma_along_goes_round(from.1, from.2, to.1, to.2, turns, ratio, 100);
    lemma_along_goes_round(from.1, from.2, to.1, to.2, turns, 100 - ratio, 100);
    lemma_land_goes_round(c.raster@, q.lon as int, q.lat as int, turns);
    lemma_land_goes_round(c.raster@, r.lon as int, r.lat as int, turns);
    let x = along(to.1, to.2, ratio, 100);
    let y = along(to.1, to.2, 100 - ratio, 100);
    lemma_sight_goes_round(c, from.0, q, to.0, x, turns);
    lemma_sight_goes_round(c, q, r, x, y, turns);
}

proof fn lemma_cut_goes_round(
    c: LandClassifier,
    from: (Point, Point, Point),
    to: (Point, Point, Point),
    turns: int,
)
    requires
        wound(from.0, to.0, turns),
        wound(from.1, to.1, turns),
        wound(from.2, to.2, turns),
    ensures
        wound_path(cut(c, from.0, from.1, from.2), cut(c, to.0, to.1, to.2), turns),
        cut(c, from.0, from.1, from.2).len() == 2,
{
    lemma_cut_clear_goes_round(c, from, to, turns, 25);
    lemma_cut_clear_goes_round(c, from, to, turns, 10);
    lemma_cut_clear_goes_round(c, from, to, turns, 5);
}

proof fn lemma_cuts_go_round(c: LandClassifier, path: Seq<Point>, far: Seq<Point>, turns: int, k: int)
    requires
        wound_path(path, far, turns),
        0 <= k < path.len(),
    ensures
        cuts(c, path, k).len() == 2 * k + 1,
        wound_path(cuts(c, path, k), cuts(c, far, k), turns),
    decreases k,
{
    assert(wound(path[k], far[k], turns));
    if k > 0 {
        lemma_cuts_go_round(c, path, far, turns, k - 1);
        assert(wound(path[k - 1], far[k - 1], turns));
        let before = cuts(c, path, k - 1);
        let there = cuts(c, far, k - 1);
        assert(wound(before[before.len() - 1], there[there.len() - 1], turns));
        lemma_cut_goes_round(
            c,
            (before.last(), path[k - 1], path[k]),
            (there.last(), far[k - 1], far[k]),
            turns,
        );
        let new = cut(c, before.last(), path[k - 1], path[k]);
        let new_there = cut(c, there.last(), far[k - 1], far[k]);
        let n = before.len() as int;
        assert forall|i: int| 0 <= i < cuts(c, path, k).len() implies wound(
            #[trigger] cuts(c, path, k)[i],
            #[trigger] cuts(c, far, k)[i],
            turns,
        ) by {
            if i < n {
                assert(wound(before[i], there[i], turns));
            } else {
                assert(wound(new[i - n], new_there[i - n], turns));
            }
        }
    }
}

proof fn lemma_deduped_goes_round(path: Seq<Point>, far: Seq<Point>, turns: int, k: int)
    requires
        wound_path(path, far, turns),
        0 <= k <= path.len(),
    ensures
        wound_path(deduped(path, k), deduped(far, k), turns),
    decreases k,
{
    if k > 0 {
        lemma_deduped_goes_round(path, far, turns, k - 1);
        assert(wound(path[k - 1], far[k - 1], turns));
        let before = deduped(path, k - 1);
        let there = deduped(far, k - 1);
        if before.len() > 0 {
            assert(wound(before[before.len() - 1], there[there.len() - 1], turns));
        }
        assert(deduped(path, k).len() == deduped(far, k).len());
        assert forall|i: int| 0 <= i < deduped(path, k).len() implies wound(
            #[trigger] deduped(path, k)[i],
            #[trigger] deduped(far, k)[i],
            turns,
        ) by {
            if i < before.len() {
                assert(wound(before[i], there[i], turns));
            }
        }
    }
}

/// A path that has wound on is smoothed as the path itself is.
pub proof fn lemma_smoothed_goes_round(
    c: LandClassifier,
    path: Seq<Point>,
    far: Seq<Point>,
    turns: int,
    rounds: nat,
)
    requires
        wound_path(path, far, turns),
    ensures
        wound_path(smoothed(c, path, rounds), smoothed(c, far, rounds), turns),
    decreases rounds,
{
    if rounds > 0 && path.len() >= 3 {
        let n = path.len() as int;
        lemma_cuts_go_round(c, path, far, turns, n - 1);
        let all = cuts(c, path, n - 1).push(path.last());
        let there = cuts(c, far, n - 1).push(far.last());
        assert(wound(path[n - 1], far[n - 1], turns));
        assert forall|i: int| 0 <= i < all.len() implies wound(
            #[trigger] all[i],
            #[trigger] there[i],
            turns,
        ) by {
            if i < all.len() - 1 {
                assert(wound(cuts(c, path, n - 1)[i], cuts(c, far, n - 1)[i], turns));
            }
        }
        lemma_deduped_goes_round(all, there, turns, all.len() as int);
        lemma_smoothed_goes_round(
            c,
            smoothed_once(c, path),
            smoothed_once(c, far),
            turns,
            (rounds - 1) as nat,
        );
    }
}

/// The point is one of the path, or lies in water.
pub open spec fn kept_or_water(c: LandClassifier, path: Seq<Point>, p: Point) -> bool {
    path.contains(p) || !c.land(p.lon as int, p.lat as int)
}

proof fn lemma_cuts_off_land(c: LandClassifier, path: Seq<Point>, k: int)
    requires
        0 <= k < path.len(),
    ensures
        forall|i: int| 0 <= i < cuts(c, path, k).len() ==> kept_or_water(c, path, #[trigger] cuts(c, path, k)[i]),
    decreases k,
{
    if k > 0 {
        lemma_cuts_off_land(c, path, k - 1);
        let before = cuts(c, path, k - 1);
        let new = cut(c, before.last(), path[k - 1], path[k]);
        assert(path.contains(path[k - 1]));
        assert(path.contains(path[k]));
        assert forall|i: int| 0 <= i < cuts(c, path, k).len() implies kept_or_water(
            c,
            path,
            #[trigger] cuts(c, path, k)[i],
        ) by {
            if i < before.len() {
                assert(cuts(c, path, k)[i] == before[i]);
            } else {
                assert(cuts(c, path, k)[i] == new[i - before.len()]);
            }
        }
    } else {
        assert(path.contains(path[0]));
    }
}

proof fn lemma_deduped_subset(path: Seq<Point>, k: int)
    requires
        0 <= k <= path.len(),
    ensures
        forall|i: int| 0 <= i < deduped(path, k).len() ==> path.contains(#[trigger] deduped(path, k)[i]),
    decreases k,
{
    if k > 0 {
        lemma_deduped_subset(path, k - 1);
        let before = deduped(path, k - 1);
        assert(path.contains(path[k - 1]));
        assert forall|i: int| 0 <= i < deduped(path, k).len() implies path.contains(
            #[trigger] deduped(path, k)[i]) by {
            if i < before.len() {
                assert(deduped(path, k)[i] == before[i]);
            }
        }
    }
}

/// Smoothing keeps off land: every point of the smoothed path is one of the path given, or
/// lies in water.
pub proof fn lemma_smoothed_off_land(c: LandClassifier, path: Seq<Point>, rounds: nat)
    ensures
        forall|i: int|
            0 <= i < smoothed(c, path, rounds).len() ==> kept_or_water(
                c,
                path,
                #[trigger] smoothed(c, path, rounds)[i],
            ),
    decreases rounds,
{
    if rounds > 0 && path.len() >= 3 {
        let n = path.len() as int;
        let all = cuts(c, path, n - 1).push(path.last());
        let once = smoothed_once(c, path);
        lemma_cuts_off_land(c, path, n - 1);
        lemma_deduped_subset(all, all.len() as int);
        assert forall|i: int| 0 <= i < once.len() implies kept_or_water(c, path, #[trigger] once[i]) by {
            assert(all.contains(once[i]));
            let j = choose|j: int| 0 <= j < all.len() && all[j] == once[i];
            if j < all.len() - 1 {
                assert(all[j] == cuts(c, path, n - 1)[j]);
            } else {
                assert(path.contains(path[n - 1]));
            }
        }
        lemma_smoothed_off_land(c, once, (rounds - 1) as nat);
        let last = smoothed(c, once, (rounds - 1) as nat);
        assert(last == smoothed(c, path, rounds));
        assert forall|i: int| 0 <= i < last.len() implies kept_or_water(c, path, #[trigger] last[i]) by {
            assert(kept_or_water(c, once, last[i]));
            if once.contains(last[i]) {
                let j = choose|j: int| 0 <= j < once.len() && once[j] == last[i];
                assert(kept_or_water(c, path, once[j]));
            }
        }
    } else {
        assert forall|i: int| 0 <= i < path.len() implies kept_or_water(c, path, #[trigger] path[i]) by {
            assert(path.contains(path[i]));
        }
    }
}

/// The point lies on the straight line from `a` to `b`, at whole percents of the way.
#[verifier::opaque]
pub open spec fn on_leg(a: Point, b: Point, p: Point) -> bool {
    exists|m: int| 0 <= m <= 100 && p == #[trigger] along(a, b, m, 100)
}

/// The hop was found to stay in water, or runs along a leg of the path.
pub open spec fn hop_allowed(c: LandClassifier, path: Seq<Point>, p: Point, q: Point) -> bool {
    in_sight(c, p, q) || exists|k: int|
        0 <= k < path.len() - 1 && on_leg(#[trigger] path[k], path[k + 1], p) && on_leg(
            path[k],
            path[k + 1],
            q,
        )
}

proof fn lemma_leg_ends(a: Point, b: Point)
    ensures
        on_leg(a, b, a),
        on_leg(a, b, b),
{
    reveal(on_leg);
    lemma_along(a, b, 0, 100);
    lemma_along(a, b, 100, 100);
    assert(a == along(a, b, 0, 100));
    assert(b == along(a, b, 100, 100));
}

proof fn lemma_cut_on_leg(c: LandClassifier, prev: Point, p0: Point, p1: Point)
    ensures
        cut(c, prev, p0, p1).len() == 2,
        on_leg(p0, p1, cut(c, prev, p0, p1)[0]),
        on_leg(p0, p1, cut(c, prev, p0, p1)[1]),
        cut(c, prev, p0, p1)[0] == p0 || in_sight(c, prev, cut(c, prev, p0, p1)[0]),
{
    lemma_leg_ends(p0, p1);
    reveal(on_leg);
}

proof fn lemma_hop_on_leg(c: LandClassifier, path: Seq<Point>, k: int, p: Point, q: Point)
    requires
        0 <= k < path.len() - 1,
        on_leg(path[k], path[k + 1], p),
        on_leg(path[k], path[k + 1], q),
    ensures
        hop_allowed(c, path, p, q),
{
}

/// The hop from the cuts of the legs before to that of the next leg is allowed.
proof fn lemma_hop_over(c: LandClassifier, path: Seq<Point>, k: int, prev: Point)
    requires
        1 <= k < path.len(),
        if k == 1 {
            prev == path[0]
        } else {
            on_leg(path[k - 2], path[k - 1], prev)
        },
    ensures
        hop_allowed(c, path, prev, cut(c, prev, path[k - 1], path[k])[0]),
{
    let first = cut(c, prev, path[k - 1], path[k])[0];
    lemma_cut_on_leg(c, prev, path[k - 1], path[k]);
    if first == path[k - 1] {
        if k == 1 {
            lemma_leg_ends(path[0], path[1]);
            lemma_hop_on_leg(c, path, 0, prev, first);
        } else {
            lemma_leg_ends(path[k - 2], path[k - 1]);
            lemma_hop_on_leg(c, path, k - 2, prev, first);
        }
    }
}

/// The cuts so far end on the leg cut last, and all their hops are allowed.
proof fn lemma_cut_hops(c: LandClassifier, path: Seq<Point>, k: int)
    requires
        1 <= k < path.len(),
    ensures
        cuts(c, path, k).len() == 2 * k + 1,
        on_leg(path[k - 1], path[k], cuts(c, path, k).last()),
        forall|i: int|
            0 <= i < cuts(c, path, k).len() - 1 ==> hop_allowed(
                c,
                path,
                #[trigger] cuts(c, path, k)[i],
                cuts(c, path, k)[i + 1],
            ),
    decreases k,
{
    let before = cuts(c, path, k - 1);
    let prev = before.last();
    let new = cut(c, prev, path[k - 1], path[k]);
    let now = cuts(c, path, k);
    if k > 1 {
        lemma_cut_hops(c, path, k - 1);
    }
    lemma_cut_on_leg(c, prev, path[k - 1], path[k]);
    lemma_hop_over(c, path, k, prev);
    lemma_hop_on_leg(c, path, k - 1, new[0], new[1]);
    let n = before.len() as int;
    assert(now == before + new);
    assert(now[n - 1] == prev && now[n] == new[0] && now[n + 1] == new[1]);
    assert forall|i: int| 0 <= i < now.len() - 1 implies hop_allowed(c, path, #[trigger] now[i], now[i + 1]) by {
        if i < n - 1 {
            assert(now[i] == before[i] && now[i + 1] == before[i + 1]);
        }
    }
}

/// Corner cutting is constrained by land: each hop of the line it draws, before points that
/// all but coincide are dropped, was found to stay in water or runs along a leg of the path.
pub proof fn lemma_cutting_keeps_clear(c: LandClassifier, path: Seq<Point>, i: int)
    requires
        path.len() >= 2,
        0 <= i < cuts(c, path, path.len() - 1).len(),
    ensures
        ({
            let all = cuts(c, path, path.len() - 1).push(path.last());
            hop_allowed(c, path, all[i], all[i + 1])
        }),
{
    let k = path.len() - 1;
    let line = cuts(c, path, k);
    lemma_cut_hops(c, path, k);
    lemma_leg_ends(path[k - 1], path[k]);
    lemma_hop_on_leg(c, path, k - 1, line.last(), path.last());
    if i < line.len() - 1 {
        assert(hop_allowed(c, path, line[i], line[i + 1]));
    }
}

fn try_cut(classifier: &LandClassifier, prev: Point, p0: Point, p1: Point, ratio: u64) -> (r: Option<(Point, Point)>)
    requires
        classifier.wf(),
        drawable(prev),
        drawable(p0),
        drawable(p1),
        ratio <= 100,
    ensures
        r is Some == cut_clear(*classifier, prev, p0, p1, ratio as int),
        r matches Some((q, s)) ==> q == along(p0, p1, ratio as int, 100) && s == along(
            p0,
            p1,
            100 - ratio,
            100,
        ),
{
    let q = point_along(p0, p1, ratio, 100);
    let r = point_along(p0, p1, 100 - ratio, 100);
    if !classifier.is_land(q.lon, q.lat) && !classifier.is_land(r.lon, r.lat) && can_skip(
        &prev,
        &q,
        classifier,
    ) && can_skip(&q, &r, classifier) {
        Some((q, r))
    } else {
        None
    }
}

/// One segment, its corners cut as far as land allows.
fn cut_segment(classifier: &LandClassifier, prev: Point, p0: Point, p1: Point) -> (r: (Point, Point))
    requires
        classifier.wf(),
        drawable(prev),
        drawable(p0),
        drawable(p1),
    ensures
        seq![r.0, r.1] == cut(*classifier, prev, p0, p1),
{
    if let Some(r) = try_cut(classifier, prev, p0, p1, 25) {
        return r;
    }
    if let Some(r) = try_cut(classifier, prev, p0, p1, 10) {
        return r;
    }
    if let Some(r) = try_cut(classifier, prev, p0, p1, 5) {
        return r;
    }
    (p0, p1)
}

fn smooth_once(classifier: &LandClassifier, path: &Vec<Point>) -> (r: Vec<Point>)
    requires
        classifier.wf(),
        path.len() >= 1,
        all_drawable(path@),
    ensures
        r@ == smoothed_once(*classifier, path@),
{
    let n = path.len();
    let mut all: Vec<Point> = Vec::new();
    all.push(path[0]);
    assert(all@ =~= cuts(*classifier, path@, 0));
    let mut i: usize = 0;
    while i < n - 1
        invariant
            classifier.wf(),
            n == path.len(),
            n >= 1,
            i <= n - 1,
            all_drawable(path@),
            all@ == cuts(*classifier, path@, i as int),
        decreases n - i,
    {
        proof {
            lemma_cuts(*classifier, path@, i as int);
            assert(all@[all@.len() - 1] == all@.last());
            assert(drawable(all@[all@.len() - 1]));
            assert(drawable(path@[i as int]) && drawable(path@[i + 1]));
        }
        let prev = all[all.len() - 1];
        let ghost had = all@;
        let (q, r) = cut_segment(classifier, prev, path[i], path[i + 1]);
        all.push(q);
        all.push(r);
        assert(all@ =~= had + seq![q, r]);
        i = i + 1;
    }
    all.push(path[n - 1]);
    let mut out: Vec<Point> = Vec::new();
    let mut k: usize = 0;
    assert(out@ =~= deduped(all@, 0));
    while k < all.len()
        invariant
            k <= all.len(),
            out@ == deduped(all@, k as int),
        decreases all.len() - k,
    {
        let p = all[k];
        if !(out.len() > 0 && same_point(p, out[out.len() - 1])) {
            out.push(p);
        }
        k = k + 1;
    }
    out
}

fn copy_path(path: &Vec<Point>) -> (r: Vec<Point>)
    ensures
        r@ == path@,
{
    let mut r: Vec<Point> = Vec::new();
    let mut i: usize = 0;
    while i < path.len()
        invariant
            i <= path.len(),
            r@ =~= path@.take(i as int),
        decreases path.len() - i,
    {
        r.push(path[i]);
        i = i + 1;
    }
    assert(r@ =~= path@);
    r
}

/// Land-constrained Chaikin corner cutting: each corner is cut as widely as land allows.
pub fn chaikin_smooth(path: &Vec<Point>, iterations: usize, classifier: &LandClassifier) -> (r: Vec<Point>)
    requires
        classifier.wf(),
        all_drawable(path@),
    ensures
        r@ == smoothed(*classifier, path@, iterations as nat),
{
    let mut result = copy_path(path);
    let mut i: usize = 0;
    while i < iterations && result.len() >= 3
        invariant
            classifier.wf(),
            i <= iterations,
            all_drawable(result@),
            smoothed(*classifier, result@, (iterations - i) as nat) == smoothed(
                *classifier,
                path@,
                iterations as nat,
            ),
        decreases iterations - i,
    {
        proof {
            lemma_smoothed_once(*classifier, result@);
        }
        result = smooth_once(classifier, &result);
        i = i + 1;
    }
    result
}

/// The paths of one route: as found, without what the line of sight can skip, and smoothed.
pub struct RoutePaths {
    pub raw: Vec<Point>,
    pub los: Vec<Point>,
    pub smoothed: Vec<Point>,
    pub distance: i128,
    pub nodes_explored: usize,
}

/// How many rounds of smoothing a route gets: fewer for one with many points.
pub open spec fn rounds_for(points: int) -> nat {
    if points > 20 {
        2
    } else {
        4
    }
}

impl RoutePaths {
    /// The paths are those of the route.
    pub open spec fn is_of(&self, c: LandClassifier, route: RouteResult) -> bool {
        let los = simplified(c, route.path@);
        &&& self.raw@ == route.path@
        &&& self.los@ == los
        &&& self.smoothed@ == smoothed(c, los, rounds_for(los.len() as int))
        &&& self.distance == route.distance
        &&& self.nodes_explored == route.nodes_explored
    }
}

/// A path that can be drawn can be drawn without what the line of sight skips.
pub proof fn lemma_simplified_drawable(c: LandClassifier, path: Seq<Point>)
    requires
        all_drawable(path),
    ensures
        all_drawable(simplified(c, path)),
{
    lemma_simplified_subset(c, path);
    assert forall|i: int| 0 <= i < simplified(c, path).len() implies drawable(
        #[trigger] simplified(c, path)[i]) by {
        assert(path.contains(simplified(c, path)[i]));
    }
}

/// Simplifies and smooths a route.
pub fn finish_route(route: RouteResult, classifier: &LandClassifier) -> (r: RoutePaths)
    requires
        classifier.wf(),
        route.wf(),
    ensures
        r.is_of(*classifier, route),
{
    proof {
        assert forall|i: int| 0 <= i < route.path@.len() implies (#[trigger] route.path@[i]).within(
            DRAWN as int) by {
            assert(drawable(route.path[i]));
        }
        assert(all_drawable(route.path@));
        lemma_simplified_drawable(*classifier, route.path@);
    }
    let los = simplify(&route.path, classifier, 500_000_000);
    let rounds: usize = if los.len() > 20 {
        2
    } else {
        4
    };
    let smooth = chaikin_smooth(&los, rounds, classifier);
    RoutePaths {
        raw: route.path,
        los,
        smoothed: smooth,
        distance: route.distance,
        nodes_explored: route.nodes_explored,
    }
}

/// The paths of a route between two positions.
pub fn route_pipeline<D: Fn(Point, Point) -> u64>(
    graph: &Graph,
    classifier: &LandClassifier,
    router: &mut Router,
    from: Point,
    to: Point,
    penalty: i64,
    dist: &D,
) -> (r: Option<RoutePaths>)
    requires
        old(router).wf(),
        old(router).marks().len() >= graph.node_count,
        graph.wf(),
        classifier.wf(),
        is_measure(*dist),
        from.within(WORLD as int),
        to.within(WORLD as int),
        -PENALTY_MAX <= penalty <= PENALTY_MAX,
    ensures
        final(router).wf(),
        final(router).marks().len() == old(router).marks().len(),
        r is None ==> served(*graph, *classifier, *dist, penalty, from, to, None),
        r matches Some(paths) ==> exists|route: RouteResult| #[trigger]
            served(*graph, *classifier, *dist, penalty, from, to, Some(route)) && paths.is_of(
                *classifier,
                route,
            ),
{
    match router.find_route(graph, classifier, from.lon, from.lat, to.lon, to.lat, penalty, dist) {
        None => None,
        Some(route) => Some(finish_route(route, classifier)),
    }
}

/// Whole kilometres of a length; none of a negative one.
pub fn whole_km(distance: i128) -> (km: u64)
    ensures
        km == if distance <= 0 {
            0
        } else if distance / KM as i128 > u64::MAX {
            u64::MAX as int
        } else {
            distance as int / KM as int
        },
{
    if distance <= 0 {
        return 0;
    }
    let km: i128 = distance / (KM as i128);
    if km > 0xffff_ffff_ffff_ffff {
        0xffff_ffff_ffff_ffff
    } else {
        km as u64
    }
}

/// Of a path, the points that are kept when those that all but coincide with the one kept before
/// them are dropped.
proof fn lemma_deduped_keeps(path: Seq<Point>, k: int) -> (kept: Seq<int>)
    requires
        1 <= k <= path.len(),
    ensures
        kept.len() == deduped(path, k).len(),
        kept.len() >= 1,
        kept[0] == 0,
        forall|i: int| 0 <= i < kept.len() ==> 0 <= #[trigger] kept[i] < k && deduped(path, k)[i] == path[kept[i]],
        forall|i: int, j: int|
            0 <= i < kept.len() && kept[i] < j < k && (i + 1 < kept.len() ==> j < kept[i + 1]) ==> same_place(
                #[trigger] path[j],
                path[#[trigger] kept[i]],
            ),
        forall|i: int|
            0 <= i < kept.len() - 1 ==> (#[trigger] kept[i]) < kept[i + 1] && !same_place(
                path[kept[i + 1]],
                path[kept[i]],
            ),
    decreases k,
{
    if k == 1 {
        assert(deduped(path, 0) =~= Seq::<Point>::empty());
        seq![0int]
    } else {
        let had = lemma_deduped_keeps(path, k - 1);
        let before = deduped(path, k - 1);
        assert(before.last() == path[had[had.len() - 1]]);
        if same_place(path[k - 1], before.last()) {
            had
        } else {
            let kept = had.push(k - 1);
            assert forall|i: int, j: int|
                0 <= i < kept.len() && kept[i] < j < k && (i + 1 < kept.len() ==> j < kept[i + 1]) implies same_place(
                #[trigger] path[j],
                path[#[trigger] kept[i]],
            ) by {
                if i < had.len() {
                    assert(had[i] == kept[i]);
                    if i + 1 < had.len() {
                        assert(had[i + 1] == kept[i + 1]);
                    }
                }
            }
            assert forall|i: int| 0 <= i < kept.len() - 1 implies (#[trigger] kept[i]) < kept[i + 1]
                && !same_place(path[kept[i + 1]], path[kept[i]]) by {
                assert(had[i] == kept[i]);
                if i + 1 < had.len() {
                    assert(had[i + 1] == kept[i + 1]);
                }
            }
            kept
        }
    }
}

/// A cut at so many percent of both ends of a leg is blocked: one of its two positions is land, or
/// is out of sight of the one before it.
pub open spec fn cut_blocked(c: LandClassifier, prev: Point, a: Point, b: Point, percent: int) -> bool {
    exists|x: Point, y: Point|
        {
            &&& #[trigger] lies_at(a, b, percent, 100, x)
            &&& #[trigger] lies_at(a, b, 100 - percent, 100, y)
            &&& {
                ||| c.land(x.lon as int, x.lat as int)
                ||| c.land(y.lon as int, y.lat as int)
                ||| !in_sight(c, prev, x)
                ||| !in_sight(c, x, y)
            }
        }
}

/// Corner cutting cuts as widely as land allows: of each leg, what is left lies between the two
/// positions at 25 percent from its ends, or at 10 or 5 where the wider cuts are blocked, both in
/// water, in sight of each other and of what is before them; a leg that cannot be cut at 5 percent is
/// left whole.
pub proof fn lemma_cut_is_widest(c: LandClassifier, path: Seq<Point>, k: int) -> (percent: int)
    requires
        0 <= k < path.len() - 1,
    ensures
        ({
            let line = cuts(c, path, path.len() - 1);
            let prev = line[2 * k];
            &&& line.len() == 2 * path.len() - 1
            &&& line[0] == path[0]
            &&& lies_at(path[k], path[k + 1], percent, 100, line[2 * k + 1])
            &&& lies_at(path[k], path[k + 1], 100 - percent, 100, line[2 * k + 2])
            &&& percent == 25 || percent == 10 || percent == 5 || percent == 0
            &&& percent > 0 ==> {
                &&& !c.land(line[2 * k + 1].lon as int, line[2 * k + 1].lat as int)
                &&& !c.land(line[2 * k + 2].lon as int, line[2 * k + 2].lat as int)
                &&& in_sight(c, prev, line[2 * k + 1])
                &&& in_sight(c, line[2 * k + 1], line[2 * k + 2])
            }
            &&& percent < 25 ==> cut_blocked(c, prev, path[k], path[k + 1], 25)
            &&& percent < 10 ==> cut_blocked(c, prev, path[k], path[k + 1], 10)
            &&& percent < 5 ==> cut_blocked(c, prev, path[k], path[k + 1], 5)
        }),
{
    lemma_cuts_part(c, path, k + 1, path.len() - 1);
    lemma_cuts_part(c, path, k, path.len() - 1);
    lemma_cuts_part(c, path, 0, path.len() - 1);
    let before = cuts(c, path, k);
    let a = path[k];
    let b = path[k + 1];
    let line = cuts(c, path, path.len() - 1);
    let here = cuts(c, path, k + 1);
    assert(here == before + cut(c, before.last(), a, b));
    assert(line[2 * k] == before.last());
    assert(cuts(c, path, 0)[0] == path[0]);
    let prev = before.last();
    lemma_along_lies(a, b, 0, 100);
    lemma_along_lies(a, b, 100, 100);
    lemma_along(a, b, 0, 100);
    lemma_along(a, b, 100, 100);
    lemma_along_lies(a, b, 5, 100);
    lemma_along_lies(a, b, 95, 100);
    lemma_along_lies(a, b, 10, 100);
    lemma_along_lies(a, b, 90, 100);
    lemma_along_lies(a, b, 25, 100);
    lemma_along_lies(a, b, 75, 100);
    assert(line[2 * k + 1] == here[2 * k + 1] && line[2 * k + 2] == here[2 * k + 2]);
    if cut_clear(c, prev, a, b, 25) {
        25
    } else if cut_clear(c, prev, a, b, 10) {
        assert(lies_at(a, b, 25, 100, along(a, b, 25, 100)) && lies_at(a, b, 100 - 25, 100, along(a, b, 75, 100)));
        10
    } else if cut_clear(c, prev, a, b, 5) {
        assert(lies_at(a, b, 25, 100, along(a, b, 25, 100)) && lies_at(a, b, 100 - 25, 100, along(a, b, 75, 100)));
        assert(lies_at(a, b, 10, 100, along(a, b, 10, 100)) && lies_at(a, b, 100 - 10, 100, along(a, b, 90, 100)));
        5
    } else {
        assert(lies_at(a, b, 25, 100, along(a, b, 25, 100)) && lies_at(a, b, 100 - 25, 100, along(a, b, 75, 100)));
        assert(lies_at(a, b, 10, 100, along(a, b, 10, 100)) && lies_at(a, b, 100 - 10, 100, along(a, b, 90, 100)));
        assert(lies_at(a, b, 5, 100, along(a, b, 5, 100)) && lies_at(a, b, 100 - 5, 100, along(a, b, 95, 100)));
        0
    }
}

proof fn lemma_cuts_part(c: LandClassifier, path: Seq<Point>, k: int, n: int)
    requires
        0 <= k <= n < path.len(),
    ensures
        cuts(c, path, k).len() == 2 * k + 1,
        cuts(c, path, n).len() == 2 * n + 1,
        forall|i: int| 0 <= i < 2 * k + 1 ==> #[trigger] cuts(c, path, n)[i] == cuts(c, path, k)[i],
    decreases n,
{
    if n > k {
        lemma_cuts_part(c, path, k, n - 1);
    } else if n > 0 {
        lemma_cuts_part(c, path, n - 1, n - 1);
    }
}

/// What a round of smoothing leaves: of the first point, the cuts of all legs and the last point,
/// those that do not all but coincide with the one left before them.
pub proof fn lemma_smoothing_round(c: LandClassifier, path: Seq<Point>) -> (kept: Seq<int>)
    requires
        path.len() >= 1,
    ensures
        ({
            let all = cuts(c, path, path.len() - 1).push(path.last());
            let out = smoothed_once(c, path);
            &&& all.len() == 2 * path.len()
            &&& kept.len() == out.len()
            &&& kept.len() >= 1
            &&& kept[0] == 0
            &&& forall|i: int| 0 <= i < kept.len() ==> 0 <= #[trigger] kept[i] < all.len() && out[i] == all[kept[i]]
            &&& forall|i: int, j: int|
                0 <= i < kept.len() && kept[i] < j < all.len() && (i + 1 < kept.len() ==> j < kept[i + 1])
                    ==> same_place(#[trigger] all[j], all[#[trigger] kept[i]])
            &&& forall|i: int|
                0 <= i < kept.len() - 1 ==> (#[trigger] kept[i]) < kept[i + 1] && !same_place(
                    all[kept[i + 1]],
                    all[kept[i]],
                )
        }),
{
    lemma_cuts_part(c, path, path.len() - 1, path.len() - 1);
    let all = cuts(c, path, path.len() - 1).push(path.last());
    lemma_deduped_keeps(all, all.len() as int)
}

/// Rounds of smoothing add up, and one round is one round: a path with corners is smoothed as
/// often as asked.
pub proof fn lemma_rounds_add_up(c: LandClassifier, path: Seq<Point>, first: nat, more: nat)
    ensures
        smoothed(c, path, first + more) == smoothed(c, smoothed(c, path, first), more),
        smoothed(c, path, 0) == path,
        path.len() >= 3 ==> smoothed(c, path, 1) == smoothed_once(c, path),
    decreases first,
{
    if path.len() >= 3 {
        assert(smoothed(c, smoothed_once(c, path), 0) == smoothed_once(c, path));
    }
    if first > 0 && path.len() >= 3 {
        let once = smoothed_once(c, path);
        lemma_rounds_add_up(c, once, (first - 1) as nat, more);
        assert((first - 1) + more == first + more - 1);
    }
}

/// A route of up to twenty points gets four rounds of smoothing, a longer one two.
pub proof fn lemma_rounds_of_a_route(c: LandClassifier, route: RouteResult, r: RoutePaths)
    requires
        r.is_of(c, route),
    ensures
        r.raw@ == route.path@,
        r.los@ == simplified(c, route.path@),
        r.los.len() <= 20 ==> r.smoothed@ == smoothed(c, smoothed(c, r.los@, 2), 2),
        r.los.len() > 20 ==> r.smoothed@ == smoothed(c, r.los@, 2),
        r.distance == route.distance,
        r.nodes_explored == route.nodes_explored,
{
    lemma_rounds_add_up(c, r.los@, 2, 2);
}

} // verus!
