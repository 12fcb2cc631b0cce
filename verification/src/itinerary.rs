//! Routes of several legs, joined into one line.
use vstd::prelude::*;

use crate::geo::{is_measure, wound, wound_path, Point, DRAWN, HALF_TURN, TURN, WORLD};
use crate::graph::Graph;
use crate::land::LandClassifier;
use crate::los::{lemma_simplified_ends, lemma_simplified_goes_round, simplified, simplify};
use crate::pipeline::{
    all_drawable, chaikin_smooth, lemma_simplified_drawable, lemma_smoothed,
    lemma_smoothed_goes_round, smoothed,
};
use crate::router::{lemma_turned, served, turned, RouteResult, Router, DISTANCE_MAX};
use crate::search::{MAX_STEPS, PENALTY_MAX};
use crate::thinning::drawable;

verus! {

/// Bound on how far one leg takes the end of the line around the globe.
pub const LEG_REACH: i128 = 4_611_686_018_427_387_904;

/// Why an itinerary has no line.
#[derive(Clone, Copy, PartialEq, Eq, Structural, Debug)]
pub enum LegError {
    /// There are fewer than two ports.
    TooFewPorts,
    /// No route was found for the leg of this number, counted from one.
    NoRoute(usize),
}

/// A position on the line of an itinerary, which may wind around the globe with each leg.
#[derive(Clone, Copy, PartialEq, Eq, Structural, Debug)]
pub struct FarPoint {
    pub lon: i128,
    pub lat: i64,
}

/// A position, however far around the globe.
pub ghost struct Place {
    pub lon: int,
    pub lat: int,
}

impl FarPoint {
    pub open spec fn view(&self) -> Place {
        Place { lon: self.lon as int, lat: self.lat as int }
    }
}

/// The positions of a line.
pub open spec fn places(line: Seq<FarPoint>) -> Seq<Place> {
    line.map_values(|p: FarPoint| p@)
}

/// The line of an itinerary as far as it has been joined.
pub struct Itinerary {
    pub raw: Vec<FarPoint>,
    pub los: Vec<FarPoint>,
    pub smoothed: Vec<FarPoint>,
    pub distance: i128,
    pub nodes_explored: u64,
    pub legs: usize,
    /// The longitude at which the last leg ends.
    pub anchor: Option<i128>,
}

/// The lines and sums of an itinerary.
#[verifier::ext_equal]
pub ghost struct Lines {
    pub raw: Seq<Place>,
    pub los: Seq<Place>,
    pub smoothed: Seq<Place>,
    pub distance: int,
    pub nodes_explored: int,
    pub legs: int,
    pub anchor: Option<int>,
}

/// How far the longitudes of a leg are moved to go on from where the last one ends: by
/// whole turns, so that the step there is not longer than half a turn.
pub open spec fn leg_shift(anchor: Option<int>, path: Seq<Point>) -> int {
    match anchor {
        None => 0,
        Some(lon) => turned(path[0].lon as int, lon) - path[0].lon,
    }
}

/// The positions of a path with its longitudes moved.
pub open spec fn moved(path: Seq<Point>, shift: int) -> Seq<Place> {
    path.map_values(|p: Point| Place { lon: p.lon + shift, lat: p.lat as int })
}

/// The line followed by a leg, whose first point is left out unless the line is new.
pub open spec fn extended(line: Seq<Place>, leg: Seq<Place>, legs: int) -> Seq<Place> {
    if legs == 0 {
        line + leg
    } else {
        line + leg.skip(1)
    }
}

/// The itinerary with one more leg.
pub open spec fn with_leg(c: LandClassifier, so_far: Lines, route: RouteResult) -> Lines {
    let shift = leg_shift(so_far.anchor, route.path@);
    let los = simplified(c, route.path@);
    let smooth = smoothed(c, los, 4);
    Lines {
        raw: extended(so_far.raw, moved(route.path@, shift), so_far.legs),
        los: extended(so_far.los, moved(los, shift), so_far.legs),
        smoothed: extended(so_far.smoothed, moved(smooth, shift), so_far.legs),
        distance: so_far.distance + route.distance,
        nodes_explored: so_far.nodes_explored + route.nodes_explored,
        legs: so_far.legs + 1,
        anchor: Some(moved(smooth, shift).last().lon),
    }
}

/// The itinerary of the first `k` legs.
pub open spec fn joined_legs(c: LandClassifier, legs: Seq<RouteResult>, k: int) -> Lines
    decreases k,
{
    if k <= 0 {
        Lines {
            raw: Seq::empty(),
            los: Seq::empty(),
            smoothed: Seq::empty(),
            distance: 0,
            nodes_explored: 0,
            legs: 0,
            anchor: None,
        }
    } else {
        with_leg(c, joined_legs(c, legs, k - 1), legs[k - 1])
    }
}

impl Itinerary {
    pub open spec fn view(&self) -> Lines {
        Lines {
            raw: places(self.raw@),
            los: places(self.los@),
            smoothed: places(self.smoothed@),
            distance: self.distance as int,
            nodes_explored: self.nodes_explored as int,
            legs: self.legs as int,
            anchor: match self.anchor {
                None => None,
                Some(lon) => Some(lon as int),
            },
        }
    }

    /// The sums, and how far the line has wound, are bounded by the number of legs.
    pub open spec fn wf(&self) -> bool {
        &&& self.legs <= u32::MAX
        &&& -self.legs * DISTANCE_MAX <= self.distance <= self.legs * DISTANCE_MAX
        &&& self.nodes_explored <= self.legs * MAX_STEPS
        &&& self.anchor matches Some(lon) ==> -self.legs * LEG_REACH <= lon <= self.legs * LEG_REACH
    }
}

/// The longitude moved by whole turns to lie within half a turn of another, however far
/// around the globe that is.
fn turn_to(lon: i64, prev: i128) -> (r: i128)
    requires
        -WORLD <= lon <= WORLD,
        -0x1_0000_0000_0000_0000_0000_0000 <= prev <= 0x1_0000_0000_0000_0000_0000_0000,
    ensures
        r == turned(lon as int, prev as int),
{
    let d: i128 = lon as i128 - prev;
    let half: i128 = HALF_TURN as i128;
    let turn: i128 = TURN as i128;
    if d > half {
        let q: i128 = (d - half + (turn - 1)) / turn;
        lon as i128 - turn * q
    } else if d < -half {
        let q: i128 = (-d - half + (turn - 1)) / turn;
        lon as i128 + turn * q
    } else {
        lon as i128
    }
}

/// Adds the points of a leg to a line, moved, and without the first of them if asked.
fn extend(line: &mut Vec<FarPoint>, leg: &Vec<Point>, shift: i128, skip: usize)
    requires
        skip <= leg.len(),
        -0x2_0000_0000_0000_0000_0000_0000 <= shift <= 0x2_0000_0000_0000_0000_0000_0000,
    ensures
        places(final(line)@) == places(old(line)@) + moved(leg@, shift as int).skip(skip as int),
{
    let ghost before = places(line@);
    let ghost all = moved(leg@, shift as int);
    let mut i: usize = skip;
    assert(places(line@) =~= before + all.subrange(skip as int, skip as int));
    while i < leg.len()
        invariant
            skip <= i <= leg.len(),
            all == moved(leg@, shift as int),
            places(line@) == before + all.subrange(skip as int, i as int),
            -0x2_0000_0000_0000_0000_0000_0000 <= shift <= 0x2_0000_0000_0000_0000_0000_0000,
        decreases leg.len() - i,
    {
        let ghost had = line@;
        let p = leg[i];
        line.push(FarPoint { lon: p.lon as i128 + shift, lat: p.lat });
        assert(places(line@) =~= places(had).push(all[i as int]));
        assert(places(line@) =~= before + all.subrange(skip as int, i + 1));
        i = i + 1;
    }
    assert(all.subrange(skip as int, all.len() as int) =~= all.skip(skip as int));
}

/// A leg goes on where the last one ends: it is moved by whole turns, and the step between
/// them is not longer than half a turn.
pub proof fn lemma_leg_goes_on(c: LandClassifier, legs: Seq<RouteResult>, k: int)
    requires
        0 < k < legs.len(),
        legs[k].path@.len() > 0,
    ensures
        ({
            let anchor = joined_legs(c, legs, k).anchor;
            let shift = leg_shift(anchor, legs[k].path@);
            &&& shift % TURN as int == 0
            &&& anchor matches Some(lon) && -HALF_TURN <= moved(legs[k].path@, shift)[0].lon - lon
                <= HALF_TURN
        }),
{
    let lon = joined_legs(c, legs, k).anchor->0;
    lemma_turned(legs[k].path@[0].lon as int, lon);
}

/// It does not matter whether a leg is moved by whole turns before or after it is simplified
/// and smoothed: `far` is the path moved first.
pub proof fn lemma_moved_first(c: LandClassifier, path: Seq<Point>, far: Seq<Point>, turns: int, rounds: nat)
    requires
        wound_path(path, far, turns),
    ensures
        moved(far, 0) == moved(path, turns * TURN),
        moved(simplified(c, far), 0) == moved(simplified(c, path), turns * TURN),
        moved(smoothed(c, simplified(c, far), rounds), 0) == moved(
            smoothed(c, simplified(c, path), rounds),
            turns * TURN,
        ),
{
    lemma_wound_is_moved(path, far, turns);
    lemma_simplified_goes_round(c, path, far, turns);
    lemma_wound_is_moved(simplified(c, path), simplified(c, far), turns);
    lemma_smoothed_goes_round(c, simplified(c, path), simplified(c, far), turns, rounds);
    lemma_wound_is_moved(
        smoothed(c, simplified(c, path), rounds),
        smoothed(c, simplified(c, far), rounds),
        turns,
    );
}

proof fn lemma_wound_is_moved(path: Seq<Point>, far: Seq<Point>, turns: int)
    requires
        wound_path(path, far, turns),
    ensures
        moved(far, 0) == moved(path, turns * TURN),
{
    assert forall|i: int| 0 <= i < path.len() implies moved(far, 0)[i] == moved(path, turns * TURN)[i] by {
        assert(wound(path[i], far[i], turns));
    }
    assert(moved(far, 0) =~= moved(path, turns * TURN));
}

impl Itinerary {
    /// An itinerary without legs.
    pub fn new() -> (r: Itinerary)
        ensures
            r.wf(),
            forall|c: LandClassifier, legs: Seq<RouteResult>| r@ == #[trigger] joined_legs(c, legs, 0),
    {
        let r = Itinerary {
            raw: Vec::new(),
            los: Vec::new(),
            smoothed: Vec::new(),
            distance: 0,
            nodes_explored: 0,
            legs: 0,
            anchor: None,
        };
        assert forall|c: LandClassifier, legs: Seq<RouteResult>| r@ == #[trigger] joined_legs(c, legs, 0) by {
            assert(r@ =~= joined_legs(c, legs, 0));
        }
        r
    }

    /// Joins a leg to the line, moved by whole turns so that it goes on where the line ends.
    pub fn add_leg(&mut self, route: RouteResult, classifier: &LandClassifier)
        requires
            old(self).wf(),
            old(self).legs < u32::MAX,
            classifier.wf(),
            route.wf(),
        ensures
            final(self).wf(),
            final(self)@ == with_leg(*classifier, old(self)@, route),
    {
        let ghost so_far = self@;
        let ghost k = self.legs as int;
        let shift: i128 = match self.anchor {
            None => 0,
            Some(lon) => {
                proof {
                    lemma_reach(k, lon as int);
                    lemma_turned(route.path[0].lon as int, lon as int);
                }
                turn_to(route.path[0].lon, lon) - route.path[0].lon as i128
            },
        };
        assert(shift == leg_shift(so_far.anchor, route.path@));
        proof {
            assert forall|i: int| 0 <= i < route.path@.len() implies (#[trigger] route.path@[i]).within(
                DRAWN as int) by {
                assert(drawable(route.path[i]));
            }
            assert(all_drawable(route.path@));
            lemma_simplified_drawable(*classifier, route.path@);
            lemma_simplified_ends(*classifier, route.path@);
        }
        let los = simplify(&route.path, classifier, 500_000_000);
        let smooth = chaikin_smooth(&los, 4, classifier);
        proof {
            lemma_smoothed(*classifier, los@, 4);
            lemma_sums(k, self.distance as int, route.distance as int);
        }
        let skip: usize = if self.legs == 0 {
            0
        } else {
            1
        };
        extend(&mut self.raw, &route.path, shift, skip);
        extend(&mut self.los, &los, shift, skip);
        extend(&mut self.smoothed, &smooth, shift, skip);
        self.distance = self.distance + route.distance;
        self.nodes_explored = self.nodes_explored + route.nodes_explored as u64;
        self.legs = self.legs + 1;
        let end = smooth[smooth.len() - 1];
        assert(drawable(smooth@[smooth@.len() - 1]));
        proof {
            let last = end.lon + shift;
            match old(self).anchor {
                None => lemma_further(k, 0, last),
                Some(lon) => lemma_further(k, lon as int, last),
            }
        }
        self.anchor = Some(end.lon as i128 + shift);
        proof {
            assert(moved(route.path@, shift as int).skip(0) =~= moved(route.path@, shift as int));
            assert(moved(los@, shift as int).skip(0) =~= moved(los@, shift as int));
            assert(moved(smooth@, shift as int).skip(0) =~= moved(smooth@, shift as int));
            assert(self@ =~= with_leg(*classifier, so_far, route));
        }
    }
}

proof fn lemma_reach(k: int, lon: int)
    by (nonlinear_arith)
    requires
        0 <= k <= 0xffff_ffff,
        -k * LEG_REACH <= lon <= k * LEG_REACH,
    ensures
        -0x1_0000_0000_0000_0000_0000_0000 <= lon <= 0x1_0000_0000_0000_0000_0000_0000,
{
}

proof fn lemma_further(k: int, lon: int, end: int)
    by (nonlinear_arith)
    requires
        0 <= k < 0xffff_ffff,
        -k * LEG_REACH <= lon <= k * LEG_REACH,
        -LEG_REACH <= end - lon <= LEG_REACH,
    ensures
        -(k + 1) * LEG_REACH <= end <= (k + 1) * LEG_REACH,
{
}

proof fn lemma_sums(k: int, total: int, more: int)
    by (nonlinear_arith)
    requires
        0 <= k < 0xffff_ffff,
        -k * DISTANCE_MAX <= total <= k * DISTANCE_MAX,
        -DISTANCE_MAX <= more <= DISTANCE_MAX,
    ensures
        -(k + 1) * DISTANCE_MAX <= total + more <= (k + 1) * DISTANCE_MAX,
        (k + 1) * DISTANCE_MAX <= 429_496_729_500_000_000_000_000_000_000_000_000,
        -(k + 1) * DISTANCE_MAX >= -429_496_729_500_000_000_000_000_000_000_000_000,
{
}

/// The routes are answers to the requests for the first `k` legs.
#[verifier::opaque]
pub open spec fn legs_served<D: Fn(Point, Point) -> u64>(
    graph: Graph,
    c: LandClassifier,
    dist: D,
    penalty: i64,
    ports: Seq<Point>,
    legs: Seq<RouteResult>,
    k: int,
) -> bool {
    &&& legs.len() == k
    &&& forall|i: int|
        0 <= i < k ==> served(
            graph,
            c,
            dist,
            penalty,
            ports[i],
            ports[i + 1],
            Some(#[trigger] legs[i]),
        )
}

/// What a request for an itinerary is answered.
pub open spec fn itinerary_served<D: Fn(Point, Point) -> u64>(
    graph: Graph,
    c: LandClassifier,
    dist: D,
    penalty: i64,
    ports: Seq<Point>,
    r: Result<Itinerary, LegError>,
) -> bool {
    match r {
        Ok(line) => ports.len() >= 2 && exists|legs: Seq<RouteResult>| #[trigger]
            legs_served(graph, c, dist, penalty, ports, legs, ports.len() - 1) && line@ == joined_legs(
                c,
                legs,
                ports.len() - 1,
            ),
        Err(LegError::TooFewPorts) => ports.len() < 2,
        Err(LegError::NoRoute(leg)) => {
            &&& 1 <= leg < ports.len()
            &&& served(graph, c, dist, penalty, ports[leg - 1], ports[leg as int], None)
            &&& exists|legs: Seq<RouteResult>| #[trigger]
                legs_served(graph, c, dist, penalty, ports, legs, leg - 1)
        },
    }
}

/// An itinerary of two ports or more has a line unless one of its legs has no route.
pub proof fn lemma_joined_if_served<D: Fn(Point, Point) -> u64>(
    graph: Graph,
    c: LandClassifier,
    dist: D,
    penalty: i64,
    ports: Seq<Point>,
    r: Result<Itinerary, LegError>,
)
    requires
        itinerary_served(graph, c, dist, penalty, ports, r),
        ports.len() >= 2,
        forall|i: int|
            0 <= i < ports.len() - 1 ==> !served(graph, c, dist, penalty, #[trigger] ports[i], ports[i + 1], None),
    ensures
        r is Ok,
        r matches Ok(line) ==> line.legs == ports.len() - 1,
{
    if let Err(LegError::NoRoute(leg)) = r {
        assert(!served(graph, c, dist, penalty, ports[leg - 1], ports[(leg - 1) + 1], None));
    }
    if let Ok(line) = r {
        let legs = choose|legs: Seq<RouteResult>| #[trigger]
            legs_served(graph, c, dist, penalty, ports, legs, ports.len() - 1) && line@ == joined_legs(
                c,
                legs,
                ports.len() - 1,
            );
        lemma_leg_count(c, legs, ports.len() - 1);
    }
}

proof fn lemma_leg_count(c: LandClassifier, legs: Seq<RouteResult>, k: int)
    requires
        0 <= k,
    ensures
        joined_legs(c, legs, k).legs == k,
    decreases k,
{
    if k > 0 {
        lemma_leg_count(c, legs, k - 1);
    }
}

proof fn lemma_joined_prefix(c: LandClassifier, a: Seq<RouteResult>, b: Seq<RouteResult>, k: int)
    requires
        0 <= k <= a.len(),
        k <= b.len(),
        forall|i: int| 0 <= i < k ==> #[trigger] a[i] == b[i],
    ensures
        joined_legs(c, a, k) == joined_legs(c, b, k),
    decreases k,
{
    if k > 0 {
        lemma_joined_prefix(c, a, b, k - 1);
        assert(a[k - 1] == b[k - 1]);
    }
}

proof fn lemma_legs_push<D: Fn(Point, Point) -> u64>(
    graph: Graph,
    c: LandClassifier,
    dist: D,
    penalty: i64,
    ports: Seq<Point>,
    legs: Seq<RouteResult>,
    leg: RouteResult,
    k: int,
)
    requires
        0 <= k < ports.len() - 1,
        legs_served(graph, c, dist, penalty, ports, legs, k),
        served(graph, c, dist, penalty, ports[k], ports[k + 1], Some(leg)),
    ensures
        legs_served(graph, c, dist, penalty, ports, legs.push(leg), k + 1),
        joined_legs(c, legs.push(leg), k + 1) == with_leg(c, joined_legs(c, legs, k), leg),
{
    reveal(legs_served);
    let more = legs.push(leg);
    lemma_joined_prefix(c, legs, more, k);
    assert forall|i: int| 0 <= i < k + 1 implies served(
        graph,
        c,
        dist,
        penalty,
        ports[i],
        ports[i + 1],
        Some(#[trigger] more[i]),
    ) by {
        if i < k {
            assert(more[i] == legs[i]);
        }
    }
}

/// The line of a cruise: a route for each leg, joined end to end.
pub fn multi_route<D: Fn(Point, Point) -> u64>(
    graph: &Graph,
    classifier: &LandClassifier,
    router: &mut Router,
    ports: &Vec<Point>,
    penalty: i64,
    dist: &D,
) -> (r: Result<Itinerary, LegError>)
    requires
        old(router).wf(),
        old(router).marks().len() >= graph.node_count,
        graph.wf(),
        classifier.wf(),
        is_measure(*dist),
        ports.len() <= u32::MAX,
        forall|i: int| 0 <= i < ports.len() ==> (#[trigger] ports[i]).within(WORLD as int),
        -PENALTY_MAX <= penalty <= PENALTY_MAX,
    ensures
        final(router).wf(),
        final(router).marks().len() == old(router).marks().len(),
        itinerary_served(*graph, *classifier, *dist, penalty, ports@, r),
{
    if ports.len() < 2 {
        return Err(LegError::TooFewPorts);
    }
    let mut line = Itinerary::new();
    let ghost mut legs: Seq<RouteResult> = Seq::empty();
    let mut i: usize = 0;
    assert(line@ == joined_legs(*classifier, legs, 0));
    assert(legs_served(*graph, *classifier, *dist, penalty, ports@, legs, 0)) by {
        reveal(legs_served);
    }
    while i < ports.len() - 1
        invariant
            router.wf(),
            router.marks().len() == old(router).marks().len(),
            router.marks().len() >= graph.node_count,
            graph.wf(),
            classifier.wf(),
            is_measure(*dist),
            2 <= ports.len() <= u32::MAX,
            forall|k: int| 0 <= k < ports.len() ==> (#[trigger] ports[k]).within(WORLD as int),
            -PENALTY_MAX <= penalty <= PENALTY_MAX,
            i <= ports.len() - 1,
            line.wf(),
            line.legs == i,
            line@ == joined_legs(*classifier, legs, i as int),
            legs_served(*graph, *classifier, *dist, penalty, ports@, legs, i as int),
        decreases ports.len() - i,
    {
        let from = ports[i];
        let to = ports[i + 1];
        assert(ports[i as int].within(WORLD as int) && ports[i + 1].within(WORLD as int));
        match router.find_route(graph, classifier, from.lon, from.lat, to.lon, to.lat, penalty, dist) {
            None => {
                assert(legs_served(*graph, *classifier, *dist, penalty, ports@, legs, (i + 1) - 1));
                return Err(LegError::NoRoute(i + 1));
            },
            Some(route) => {
                let ghost leg = route;
                let ghost had = legs;
                line.add_leg(route, classifier);
                proof {
                    lemma_legs_push(*graph, *classifier, *dist, penalty, ports@, had, leg, i as int);
                    legs = legs.push(leg);
                }
            },
        }
        i = i + 1;
    }
    Ok(line)
}

/// The lengths of the first `k` legs together.
pub open spec fn length_of_legs(legs: Seq<RouteResult>, k: int) -> int
    decreases k,
{
    if k <= 0 {
        0
    } else {
        legs[k - 1].distance + length_of_legs(legs, k - 1)
    }
}

/// The nodes explored on the first `k` legs together.
pub open spec fn explored_on_legs(legs: Seq<RouteResult>, k: int) -> int
    decreases k,
{
    if k <= 0 {
        0
    } else {
        legs[k - 1].nodes_explored + explored_on_legs(legs, k - 1)
    }
}

/// The length of an itinerary and the nodes explored for it are those of its legs together.
pub proof fn lemma_sums_of_legs(c: LandClassifier, legs: Seq<RouteResult>, k: int)
    requires
        0 <= k,
    ensures
        joined_legs(c, legs, k).legs == k,
        joined_legs(c, legs, k).distance == length_of_legs(legs, k),
        joined_legs(c, legs, k).nodes_explored == explored_on_legs(legs, k),
    decreases k,
{
    if k > 0 {
        lemma_sums_of_legs(c, legs, k - 1);
    }
}

proof fn lemma_extended_has(line: Seq<Place>, leg: Seq<Place>, legs: int, i: int)
    requires
        0 <= i < leg.len(),
        i > 0 || legs == 0,
    ensures
        extended(line, leg, legs).contains(leg[i]),
{
    if legs == 0 {
        assert(extended(line, leg, legs)[line.len() + i] == leg[i]);
    } else {
        assert(leg.skip(1)[i - 1] == leg[i]);
        assert(extended(line, leg, legs)[line.len() + i - 1] == leg[i]);
    }
}

proof fn lemma_extended_keeps(line: Seq<Place>, leg: Seq<Place>, legs: int, p: Place)
    requires
        line.contains(p),
    ensures
        extended(line, leg, legs).contains(p),
{
    let i = choose|i: int| 0 <= i < line.len() && line[i] == p;
    assert(extended(line, leg, legs)[i] == p);
}

/// Every leg is part of the line, moved by one number of whole turns throughout: each of its points, of
/// its simplified points and of its smoothed points, but the first, which the leg before ends at.
pub proof fn lemma_line_holds_its_legs(c: LandClassifier, legs: Seq<RouteResult>, k: int, j: int, i: int) -> (turns: int)
    requires
        0 <= j < k <= legs.len(),
        legs[j].path@.len() > 0,
        0 <= i,
        i > 0 || j == 0,
    ensures
        ({
            let line = joined_legs(c, legs, k);
            let path = legs[j].path@;
            let los = simplified(c, path);
            let smooth = smoothed(c, los, 4);
            let shift = turns * TURN;
            &&& i < path.len() ==> line.raw.contains(
                Place { lon: path[i].lon + shift, lat: path[i].lat as int },
            )
            &&& i < los.len() ==> line.los.contains(
                Place { lon: los[i].lon + shift, lat: los[i].lat as int },
            )
            &&& i < smooth.len() ==> line.smoothed.contains(
                Place { lon: smooth[i].lon + shift, lat: smooth[i].lat as int },
            )
        }),
    decreases k,
{
    let path = legs[j].path@;
    let los = simplified(c, path);
    let smooth = smoothed(c, los, 4);
    let so_far = joined_legs(c, legs, k - 1);
    let line = joined_legs(c, legs, k);
    let next = legs[k - 1].path@;
    let shift = leg_shift(so_far.anchor, next);
    lemma_sums_of_legs(c, legs, k - 1);
    if j == k - 1 {
        if let Some(lon) = so_far.anchor {
            lemma_turned(path[0].lon as int, lon);
        }
        let turns = shift / TURN as int;
        vstd::arithmetic::div_mod::lemma_fundamental_div_mod(shift, TURN as int);
        assert(turns * TURN == shift) by (nonlinear_arith)
            requires
                shift == TURN * turns,
        ;
        if i < path.len() {
            lemma_extended_has(so_far.raw, moved(path, shift), so_far.legs, i);
        }
        if i < los.len() {
            lemma_extended_has(so_far.los, moved(los, shift), so_far.legs, i);
        }
        if i < smooth.len() {
            lemma_extended_has(so_far.smoothed, moved(smooth, shift), so_far.legs, i);
        }
        turns
    } else {
        let turns = lemma_line_holds_its_legs(c, legs, k - 1, j, i);
        let by = turns * TURN;
        if i < path.len() {
            let p = Place { lon: path[i].lon + by, lat: path[i].lat as int };
            lemma_extended_keeps(so_far.raw, moved(next, shift), so_far.legs, p);
        }
        if i < los.len() {
            let p = Place { lon: los[i].lon + by, lat: los[i].lat as int };
            lemma_extended_keeps(so_far.los, moved(simplified(c, next), shift), so_far.legs, p);
        }
        if i < smooth.len() {
            let p = Place { lon: smooth[i].lon + by, lat: smooth[i].lat as int };
            lemma_extended_keeps(
                so_far.smoothed,
                moved(smoothed(c, simplified(c, next), 4), shift),
                so_far.legs,
                p,
            );
        }
        turns
    }
}

/// The line goes on without a jump: a leg starts not further than half a turn from where the smoothed
/// line of the legs before it ends, if the last of them has more than one point.
pub proof fn lemma_line_goes_on(c: LandClassifier, legs: Seq<RouteResult>, k: int)
    requires
        0 < k < legs.len(),
        legs[k].path@.len() > 0,
        smoothed(c, simplified(c, legs[k - 1].path@), 4).len() >= 2,
    ensures
        ({
            let so_far = joined_legs(c, legs, k);
            let shift = leg_shift(so_far.anchor, legs[k].path@);
            &&& so_far.smoothed.len() > 0
            &&& -TURN <= 2 * (legs[k].path@[0].lon + shift - so_far.smoothed.last().lon) <= TURN
        }),
{
    lemma_leg_goes_on(c, legs, k);
    let before = joined_legs(c, legs, k - 1);
    let path = legs[k - 1].path@;
    let smooth = smoothed(c, simplified(c, path), 4);
    let leg = moved(smooth, leg_shift(before.anchor, path));
    let line = extended(before.smoothed, leg, before.legs);
    assert(joined_legs(c, legs, k).smoothed == line);
    if before.legs == 0 {
        assert(line.last() == leg.last());
    } else {
        assert(leg.skip(1).last() == leg.last());
        assert(line.last() == leg.last());
    }
    assert(moved(legs[k].path@, leg_shift(joined_legs(c, legs, k).anchor, legs[k].path@))[0].lon
        == legs[k].path@[0].lon + leg_shift(joined_legs(c, legs, k).anchor, legs[k].path@));
}

} // verus!
