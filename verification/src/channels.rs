//! Searching for channels: paths from a port out to water that the router can route from,
//! through fjords and straits narrower than the land raster.
use vstd::prelude::*;

use crate::audit::Port;
use crate::geo::{floor_div, is_measure, measure, measured, Point, DEGREE, KM, WORLD};
use crate::graph::Graph;
use crate::land::LandClassifier;
use crate::passage::{
    beside, cell_number, entered_by, entry_ok, is_passage, is_seed, is_step,
    lemma_block, lemma_cell_number, lemma_enter, lemma_grid_size, lemma_no_passage,
    lemma_not_special, lemma_origin_is_seed, note, seeded, spread, wave_ok, Waters,
    Wave, BLOCKED, ORIGIN, UNSEEN,
};
use crate::passage_order::{
    direction, entered_before, is_first_shortest, lemma_beside_origin, lemma_enter_orderly, lemma_first_shortest,
    lemma_one_first, lemma_trail, orderly, step_rank, trail,
};
use crate::router::{connects, snap_to_water, snapped};
use crate::thinning::{
    douglas_peucker, drawable, lemma_thinned_ends, lemma_thinned_subset, thinned, Rule,
};

verus! {

/// How many grid steps of 150 metres out a search looks: 420 kilometres.
pub const GRID_HALF: i32 = 2_800;

/// Square of the radius, in grid steps, within which land is ignored: 1.5 kilometres.
/// Berths lie on the shoreline, often in a harbour that the land polygons have sealed.
pub const SEED_RADIUS_2: i32 = 100;

/// The radius, in grid steps, within which land is ignored.
pub const SEED_RADIUS: i32 = 10;

/// An exit must have a node of the main component this close: 2 kilometres.
pub const EXIT_LINK: u64 = 2_000_000_000;

/// One, as a cosine: cosines are counted in billionths.
pub const COSINE_ONE: u64 = 1_000_000_000;

/// A function that gives the size of the cosine of a latitude: always, and one answer only.
pub open spec fn is_cosine<C: Fn(i64) -> u64>(cos: C) -> bool {
    &&& forall|lat: i64| #[trigger] cos.requires((lat,))
    &&& forall|lat: i64, a: u64, b: u64| #[trigger]
        cos.ensures((lat,), a) && #[trigger] cos.ensures((lat,), b) ==> a == b
}

/// What a cosine function answers.
pub open spec fn cosine<C: Fn(i64) -> u64>(cos: C, lat: i64) -> u64 {
    choose|a: u64| #[trigger] cos.ensures((lat,), a)
}

/// The cosine that degrees of longitude are scaled by, never less than `least`, so that
/// they do not grow without bound towards the poles.
pub open spec fn scale(cos: u64, least: int) -> int {
    if cos >= least {
        cos as int
    } else {
        least
    }
}

/// The direction of the compass with number `i`, counted from the east, in billionths.
pub open spec fn compass(i: int) -> (int, int) {
    if i == 0 {
        (1_000_000_000, 0)
    } else if i == 1 {
        (707_106_781, 707_106_781)
    } else if i == 2 {
        (0, 1_000_000_000)
    } else if i == 3 {
        (-707_106_781, 707_106_781)
    } else if i == 4 {
        (-1_000_000_000, 0)
    } else if i == 5 {
        (-707_106_781, -707_106_781)
    } else if i == 6 {
        (0, -1_000_000_000)
    } else {
        (707_106_781, -707_106_781)
    }
}

/// Four kilometres north, in angle units.
pub const OPEN_WATER_LAT: i64 = 46_126_126;

/// Four kilometres east at the given cosine, in angle units.
pub open spec fn open_water_lon(cos: u64) -> int {
    46_126_126_126_126_126int / scale(cos, 50_000_000)
}

/// The position four kilometres from `p` in a direction of the compass.
pub open spec fn ring_point(p: Point, cos: u64, i: int) -> (int, int) {
    (
        p.lon + (open_water_lon(cos) * compass(i).0) / 1_000_000_000,
        p.lat + (OPEN_WATER_LAT * compass(i).1) / 1_000_000_000,
    )
}

/// All eight directions of the compass are still water four kilometres out. A fjord is a few
/// kilometres across at most, so the ring is clear only outside one.
pub open spec fn open_water(c: LandClassifier, p: Point, cos: u64) -> bool {
    forall|i: int|
        0 <= i < 8 ==> !c.land((#[trigger] ring_point(p, cos, i)).0, ring_point(p, cos, i).1)
}

/// The router could start a route from here: open water all around, and a node of the main
/// component close by with a clear line to it.
pub open spec fn is_exit_at<C: Fn(i64) -> u64, D: Fn(Point, Point) -> u64>(
    c: LandClassifier,
    cos: C,
    graph: Graph,
    dist: D,
    p: Point,
) -> bool {
    let s = snapped(graph, c, dist, p);
    &&& graph.node_count > 0
    &&& open_water(c, p, cosine(cos, p.lat))
    &&& s.connector_clear
    &&& measured(dist, p, s.at) <= EXIT_LINK
}

fn compass_at(i: u32) -> (r: (i64, i64))
    requires
        i < 8,
    ensures
        (r.0 as int, r.1 as int) == compass(i as int),
        -1_000_000_000 <= r.0 <= 1_000_000_000,
        -1_000_000_000 <= r.1 <= 1_000_000_000,
{
    if i == 0 {
        (1_000_000_000, 0)
    } else if i == 1 {
        (707_106_781, 707_106_781)
    } else if i == 2 {
        (0, 1_000_000_000)
    } else if i == 3 {
        (-707_106_781, 707_106_781)
    } else if i == 4 {
        (-1_000_000_000, 0)
    } else if i == 5 {
        (-707_106_781, -707_106_781)
    } else if i == 6 {
        (0, -1_000_000_000)
    } else {
        (707_106_781, -707_106_781)
    }
}

proof fn lemma_part_of(reach: int, part: int)
    requires
        0 <= reach <= 1_000_000_000_000,
        -1_000_000_000 <= part <= 1_000_000_000,
    ensures
        -reach <= (reach * part) / 1_000_000_000 <= reach,
        -1_000_000_000_000_000_000_000 <= reach * part <= 1_000_000_000_000_000_000_000,
{
    assert(-1_000_000_000 * reach <= reach * part <= 1_000_000_000 * reach) by (nonlinear_arith)
        requires
            0 <= reach,
            -1_000_000_000 <= part <= 1_000_000_000,
    ;
}

/// Whether all eight directions of the compass are still water four kilometres out.
pub fn is_open_water<C: Fn(i64) -> u64>(classifier: &LandClassifier, p: Point, cos: &C) -> (r: bool)
    requires
        classifier.wf(),
        p.within(WORLD as int),
        is_cosine(*cos),
    ensures
        r == open_water(*classifier, p, cosine(*cos, p.lat)),
{
    let given = cos(p.lat);
    let k: u64 = if given >= 50_000_000 {
        given
    } else {
        50_000_000
    };
    let reach: i64 = (46_126_126_126_126_126u64 / k) as i64;
    assert(reach == open_water_lon(given));
    assert(0 <= reach <= 1_000_000_000) by (nonlinear_arith)
        requires
            k >= 50_000_000,
            reach == 46_126_126_126_126_126int / k as int,
    ;
    let mut i: u32 = 0;
    while i < 8
        invariant
            classifier.wf(),
            p.within(WORLD as int),
            0 <= reach <= 1_000_000_000,
            reach == open_water_lon(given),
            given == cosine(*cos, p.lat),
            i <= 8,
            forall|j: int|
                0 <= j < i ==> !classifier.land(
                    (#[trigger] ring_point(p, given, j)).0,
                    ring_point(p, given, j).1,
                ),
        decreases 8 - i,
    {
        let (x, y) = compass_at(i);
        proof {
            lemma_part_of(reach as int, x as int);
            lemma_part_of(OPEN_WATER_LAT as int, y as int);
        }
        let dlon = floor_div(reach as i128 * x as i128, 1_000_000_000) as i64;
        let dlat = floor_div(OPEN_WATER_LAT as i128 * y as i128, 1_000_000_000) as i64;
        assert(ring_point(p, given, i as int) == ((p.lon + dlon) as int, (p.lat + dlat) as int));
        if classifier.is_land(p.lon + dlon, p.lat + dlat) {
            return false;
        }
        i = i + 1;
    }
    true
}

/// Whether the router could start a route from here.
pub fn is_exit<C: Fn(i64) -> u64, D: Fn(Point, Point) -> u64>(
    graph: &Graph,
    classifier: &LandClassifier,
    p: Point,
    cos: &C,
    dist: &D,
) -> (r: bool)
    requires
        classifier.wf(),
        p.within(WORLD as int),
        is_cosine(*cos),
        graph.wf(),
        is_measure(*dist),
    ensures
        r == is_exit_at(*classifier, *cos, *graph, *dist, p),
{
    if graph.node_count == 0 || !is_open_water(classifier, p, cos) {
        return false;
    }
    let s = snap_to_water(graph, classifier, p, dist);
    if !s.connector_clear {
        return false;
    }
    measure(dist, p, s.at) <= EXIT_LINK
}

/// A channel, ready to be written out as a corridor.
pub struct Channel {
    pub port: String,
    pub points: Vec<Point>,
}

/// The position of a grid cell, where `cos` is the cosine of the port's latitude.
pub open spec fn cell_point(port: Point, cos: u64, c: (i32, i32)) -> Point {
    Point {
        lon: (port.lon + (c.0 * 192_000_000_000_000_000) / (111 * scale(cos, 20_000_000))) as i64,
        lat: (port.lat + (c.1 * 192_000_000) / 111) as i64,
    }
}

/// The waters around a port.
pub open spec fn waters_of<C: Fn(i64) -> u64, D: Fn(Point, Point) -> u64>(
    c: LandClassifier,
    port: Point,
    half: int,
    cos: C,
    graph: Graph,
    dist: D,
) -> Waters {
    let k = cosine(cos, port.lat);
    Waters {
        half,
        water: |x: (i32, i32)| !c.land_precise(cell_point(port, k, x)),
        exits: |x: (i32, i32)|
            {
                let p = cell_point(port, k, x);
                !c.land(p.lon as int, p.lat as int) && is_exit_at(c, cos, graph, dist, p)
            },
    }
}

/// The line of a passage, from the port on.
pub open spec fn passage_line(port: Point, cos: u64, cells: Seq<(i32, i32)>) -> Seq<Point> {
    seq![port] + cells.map_values(|x: (i32, i32)| cell_point(port, cos, x))
}

/// Bound on the coordinates of ports: about 429 degrees.
pub const PORT_BOUND: i64 = 549_755_813_888;

proof fn lemma_grid_offset(x: int, k: int)
    requires
        -2_800 <= x <= 2_800,
        20_000_000 <= k,
    ensures
        -250_000_000_000 <= (x * 192_000_000_000_000_000) / (111 * k) <= 250_000_000_000,
{
    let d = 111 * k;
    let n = x * 192_000_000_000_000_000;
    let q = n / d;
    let r = n % d;
    vstd::arithmetic::div_mod::lemma_fundamental_div_mod(n, d);
    assert(-250_000_000_000 <= q <= 250_000_000_000) by (nonlinear_arith)
        requires
            d * q + r == n,
            0 <= r < d,
            d >= 2_220_000_000,
            -537_600_000_000_000_000_000 <= n <= 537_600_000_000_000_000_000,
    ;
}

/// What a channel search looks at.
struct Surroundings<'a, C: Fn(i64) -> u64, D: Fn(Point, Point) -> u64> {
    classifier: &'a LandClassifier,
    port: Point,
    half: i32,
    port_cos: u64,
    cos: &'a C,
    graph: &'a Graph,
    dist: &'a D,
}

impl<'a, C: Fn(i64) -> u64, D: Fn(Point, Point) -> u64> Surroundings<'a, C, D> {
    spec fn wf(&self) -> bool {
        &&& self.classifier.wf()
        &&& self.port.within(PORT_BOUND as int)
        &&& SEED_RADIUS <= self.half <= GRID_HALF
        &&& is_cosine(*self.cos)
        &&& self.graph.wf()
        &&& is_measure(*self.dist)
        &&& self.port_cos == cosine(*self.cos, self.port.lat)
    }

    spec fn waters(&self) -> Waters {
        waters_of(*self.classifier, self.port, self.half as int, *self.cos, *self.graph, *self.dist)
    }

    fn cell_at(&self, x: i32, y: i32) -> (p: Point)
        requires
            self.wf(),
            self.waters().in_grid((x, y)),
        ensures
            p == cell_point(self.port, self.port_cos, (x, y)),
            p.within(WORLD as int),
    {
        let k: u64 = if self.port_cos >= 20_000_000 {
            self.port_cos
        } else {
            20_000_000
        };
        proof {
            lemma_grid_offset(x as int, k as int);
        }
        let dlon = floor_div(x as i128 * 192_000_000_000_000_000, 111 * (k as i128)) as i64;
        let dlat = floor_div(y as i128 * 192_000_000, 111) as i64;
        Point { lon: self.port.lon + dlon, lat: self.port.lat + dlat }
    }

    fn is_water(&self, x: i32, y: i32) -> (r: bool)
        requires
            self.wf(),
            self.waters().in_grid((x, y)),
        ensures
            r == (self.waters().water)((x, y)),
    {
        let p = self.cell_at(x, y);
        !self.classifier.is_land_precise(p.lon, p.lat)
    }

    fn leads_out(&self, x: i32, y: i32) -> (r: bool)
        requires
            self.wf(),
            self.waters().in_grid((x, y)),
        ensures
            r == (self.waters().exits)((x, y)),
    {
        let p = self.cell_at(x, y);
        !self.classifier.is_land(p.lon, p.lat) && is_exit(
            self.graph,
            self.classifier,
            p,
            self.cos,
            self.dist,
        )
    }

    /// The number of a cell.
    fn number(&self, x: i32, y: i32) -> (n: usize)
        requires
            self.wf(),
            self.waters().in_grid((x, y)),
        ensures
            n == cell_number(self.half as int, (x, y)),
            n < (2 * self.half + 1) * (2 * self.half + 1),
            n < 31_371_201,
    {
        proof {
            lemma_cell_number(self.half as int, (x, y));
            lemma_grid_size(self.half as int);
        }
        let side: usize = (2 * self.half + 1) as usize;
        let row: usize = (y + self.half) as usize;
        let col: usize = (x + self.half) as usize;
        row * side + col
    }

    /// The position of the cell with a number.
    fn numbered_cell(&self, n: usize, Ghost(c): Ghost<(i32, i32)>) -> (p: Point)
        requires
            self.wf(),
            self.waters().in_grid(c),
            n == cell_number(self.half as int, c),
        ensures
            p == cell_point(self.port, self.port_cos, c),
            p.within(WORLD as int),
    {
        proof {
            lemma_cell_number(self.half as int, c);
            lemma_grid_size(self.half as int);
        }
        let side: usize = (2 * self.half + 1) as usize;
        let x: i32 = (n % side) as i32 - self.half;
        let y: i32 = (n / side) as i32 - self.half;
        self.cell_at(x, y)
    }
}

/// The neighbour of a cell with number `d`.
spec fn neighbour(c: (i32, i32), d: int) -> (int, int) {
    if d == 0 {
        (c.0 + 1, c.1 as int)
    } else if d == 1 {
        (c.0 - 1, c.1 as int)
    } else if d == 2 {
        (c.0 as int, c.1 + 1)
    } else if d == 3 {
        (c.0 as int, c.1 - 1)
    } else if d == 4 {
        (c.0 + 1, c.1 + 1)
    } else if d == 5 {
        (c.0 + 1, c.1 - 1)
    } else if d == 6 {
        (c.0 - 1, c.1 + 1)
    } else {
        (c.0 - 1, c.1 - 1)
    }
}

fn neighbour_of(c: (i32, i32), d: u32) -> (n: (i32, i32))
    requires
        -2_800 <= c.0 <= 2_800,
        -2_800 <= c.1 <= 2_800,
        d < 8,
    ensures
        (n.0 as int, n.1 as int) == neighbour(c, d as int),
        beside(c, n),
        direction(c, n) == d,
{
    let (x, y) = c;
    if d == 0 {
        (x + 1, y)
    } else if d == 1 {
        (x - 1, y)
    } else if d == 2 {
        (x, y + 1)
    } else if d == 3 {
        (x, y - 1)
    } else if d == 4 {
        (x + 1, y + 1)
    } else if d == 5 {
        (x + 1, y - 1)
    } else if d == 6 {
        (x - 1, y + 1)
    } else {
        (x - 1, y - 1)
    }
}

proof fn lemma_neighbour(c: (i32, i32), n: (i32, i32)) -> (d: int)
    requires
        beside(c, n),
    ensures
        0 <= d < 8,
        (n.0 as int, n.1 as int) == neighbour(c, d),
        d == direction(c, n),
{
    let dx = n.0 - c.0;
    let dy = n.1 - c.1;
    if dx == 1 && dy == 0 {
        0
    } else if dx == -1 && dy == 0 {
        1
    } else if dx == 0 && dy == 1 {
        2
    } else if dx == 0 && dy == -1 {
        3
    } else if dx == 1 && dy == 1 {
        4
    } else if dx == 1 && dy == -1 {
        5
    } else if dx == -1 && dy == 1 {
        6
    } else {
        7
    }
}

proof fn lemma_seed_bounds(c: (i32, i32))
    requires
        is_seed(c),
    ensures
        -SEED_RADIUS <= c.0 <= SEED_RADIUS,
        -SEED_RADIUS <= c.1 <= SEED_RADIUS,
{
    reveal(is_seed);
    let x = c.0 as int;
    let y = c.1 as int;
    assert(-10 <= x <= 10 && -10 <= y <= 10) by (nonlinear_arith)
        requires
            x * x + y * y <= 100,
    ;
}

fn in_seed(x: i32, y: i32) -> (r: bool)
    requires
        -SEED_RADIUS <= x <= SEED_RADIUS,
        -SEED_RADIUS <= y <= SEED_RADIUS,
    ensures
        r == is_seed((x, y)),
{
    proof {
        reveal(is_seed);
        assert(0 <= x * x <= 100 && 0 <= y * y <= 100) by (nonlinear_arith)
            requires
                -10 <= x <= 10,
                -10 <= y <= 10,
        ;
    }
    x * x + y * y <= SEED_RADIUS_2
}

/// The state of a search as ghost data, tied to what the search holds.
spec fn holds(s: Wave, came: Seq<u32>, queue: Seq<(i32, i32)>) -> bool {
    s.came == came && s.queue == queue
}

impl<'a, C: Fn(i64) -> u64, D: Fn(Point, Point) -> u64> Surroundings<'a, C, D> {
    /// Enters the origin and all cells of the seed.
    fn sow(&self, came: &mut Vec<u32>, queue: &mut Vec<(i32, i32)>) -> (r: Ghost<Wave>)
        requires
            self.wf(),
            old(queue)@.len() == 0,
            old(came).len() == (2 * self.half + 1) * (2 * self.half + 1),
            forall|i: int| 0 <= i < old(came).len() ==> #[trigger] old(came)@[i] == UNSEEN,
        ensures
            holds(r@, final(came)@, final(queue)@),
            wave_ok(self.waters(), r@),
            seeded(self.waters(), r@),
            orderly(r@),
            forall|m: int| 0 <= m < r@.par.len() ==> #[trigger] r@.par[m] == 0,
    {
        let ghost w = self.waters();
        let origin = self.number(0, 0);
        came.set(origin, ORIGIN);
        queue.push((0, 0));
        let ghost mut s = Wave {
            came: came@,
            queue: queue@,
            par: seq![0int],
            level: seq![0int],
        };
        proof {
            lemma_origin_is_seed();
            assert forall|c: (i32, i32)| w.in_grid(c) && c != (0i32, 0i32) implies #[trigger] note(w, s, c)
                == UNSEEN by {
                lemma_cell_number(w.half, c);
                lemma_cell_number(w.half, (0i32, 0i32));
                assert(c.0 != 0 || c.1 != 0);
            }
            assert(entry_ok(w, s, 0));
            assert(s.queue[0] == (0i32, 0i32));
            assert(s.queue.contains((0i32, 0i32)));
            assert(wave_ok(w, s));
            assert(entered_by(s, (0i32, 0i32), 0));
        }
        let mut y: i32 = -SEED_RADIUS;
        proof {
            assert forall|c: (i32, i32)| #[trigger] is_seed(c) && c.1 < y implies entered_by(s, c, 0) by {
                lemma_seed_bounds(c);
            }
        }
        while y <= SEED_RADIUS
            invariant
                self.wf(),
                w == self.waters(),
                -SEED_RADIUS <= y <= SEED_RADIUS + 1,
                origin == cell_number(w.half, (0i32, 0i32)),
                holds(s, came@, queue@),
                wave_ok(w, s),
                orderly(s),
                forall|m: int|
                    1 <= m < s.queue.len() ==> step_rank((0i32, 0i32), #[trigger] s.queue[m]) < (y + 10) * 21,
                forall|m: int| 0 <= m < s.par.len() ==> #[trigger] s.par[m] == 0,
                entered_by(s, (0i32, 0i32), 0),
                forall|c: (i32, i32)|
                    #[trigger] is_seed(c) && c.1 < y ==> entered_by(s, c, 0),
            decreases SEED_RADIUS + 1 - y,
        {
            let mut x: i32 = -SEED_RADIUS;
            proof {
                assert forall|c: (i32, i32)| #[trigger]
                    is_seed(c) && (c.1 < y || (c.1 == y && c.0 < x)) implies entered_by(s, c, 0) by {
                    lemma_seed_bounds(c);
                }
            }
            while x <= SEED_RADIUS
                invariant
                    self.wf(),
                    w == self.waters(),
                    -SEED_RADIUS <= y <= SEED_RADIUS,
                    -SEED_RADIUS <= x <= SEED_RADIUS + 1,
                    origin == cell_number(w.half, (0i32, 0i32)),
                    holds(s, came@, queue@),
                    wave_ok(w, s),
                    orderly(s),
                    forall|m: int|
                        1 <= m < s.queue.len() ==> step_rank((0i32, 0i32), #[trigger] s.queue[m]) < (y + 10) * 21
                            + (x + 10),
                    forall|m: int| 0 <= m < s.par.len() ==> #[trigger] s.par[m] == 0,
                    entered_by(s, (0i32, 0i32), 0),
                    forall|c: (i32, i32)| #[trigger]
                        is_seed(c) && (c.1 < y || (c.1 == y && c.0 < x)) ==> entered_by(s, c, 0),
                decreases SEED_RADIUS + 1 - x,
            {
                let ghost here = (x, y);
                if !(x == 0 && y == 0) && in_seed(x, y) {
                    let i = self.number(x, y);
                    if came[i] == UNSEEN {
                        let ghost t = Wave {
                            came: s.came.update(
                                cell_number(w.half, here),
                                cell_number(w.half, s.queue[0]) as u32,
                            ),
                            queue: s.queue.push(here),
                            par: s.par.push(0),
                            level: s.level.push(s.level[0] + 1),
                        };
                        proof {
                            assert(entry_ok(w, s, 0));
                            assert(note(w, s, here) == UNSEEN);
                            let last = s.queue.len() - 1;
                            assert(entry_ok(w, s, last));
                            assert(s.par[last] == 0);
                            lemma_enter(w, s, 0, here, t);
                            lemma_enter_orderly(w, s, 0, here, t);
                            s = t;
                        }
                        came.set(i, origin as u32);
                        queue.push((x, y));
                    } else {
                        proof {
                            assert(note(w, s, here) != UNSEEN);
                            assert(w.open_cell(here));
                            assert(s.queue.contains(here));
                            let m = choose|m: int| 0 <= m < s.queue.len() && s.queue[m] == here;
                            assert(s.queue[m] == here && s.par[m] <= 0);
                        }
                    }
                }
                proof {
                    assert forall|c: (i32, i32)| #[trigger]
                        is_seed(c) && (c.1 < y || (c.1 == y && c.0 < x + 1)) implies entered_by(s, c, 0) by {
                        if c.1 == y && c.0 == x {
                            assert(c == here);
                            assert(entered_by(s, here, 0));
                        }
                    }
                }
                x = x + 1;
            }
            proof {
                assert forall|c: (i32, i32)| #[trigger] is_seed(c) && c.1 < y + 1 implies entered_by(s, c, 0) by {
                    lemma_seed_bounds(c);
                }
            }
            y = y + 1;
        }
        proof {
            assert forall|c: (i32, i32)| #[trigger] is_seed(c) implies entered_by(s, c, 0) by {
                lemma_seed_bounds(c);
            }
        }
        Ghost(s)
    }
}

impl<'a, C: Fn(i64) -> u64, D: Fn(Point, Point) -> u64> Surroundings<'a, C, D> {
    /// The line of the passage that leads to cell `out` through place `head` of the queue.
    fn trace(&self, came: &Vec<u32>, out: (i32, i32), head: usize, from: usize, Ghost(s): Ghost<Wave>) -> (r: (
        Vec<Point>,
        Ghost<Seq<(i32, i32)>>,
    ))
        requires
            self.wf(),
            wave_ok(self.waters(), s),
            s.came == came@,
            head < s.queue.len(),
            from == cell_number(self.half as int, s.queue[head as int]),
            self.waters().open_cell(out),
            is_step(s.queue[head as int], out),
        ensures
            r.1@ == trail(s, head as int).push(out),
            is_passage(self.waters(), r.1@),
            r.0@ == passage_line(self.port, self.port_cos, r.1@),
    {
        let ghost w = self.waters();
        let mut back: Vec<Point> = Vec::new();
        back.push(self.cell_at(out.0, out.1));
        let ghost mut cells: Seq<(i32, i32)> = seq![out];
        let ghost mut k: int = head as int;
        let mut cur: usize = from;
        proof {
            assert(entry_ok(w, s, k));
        }
        back.push(self.numbered_cell(cur, Ghost(s.queue[k])));
        proof {
            cells = seq![s.queue[k]] + cells;
            lemma_cell_number(w.half, s.queue[k]);
            assert(trail(s, k).push(out) =~= trail(s, k) + cells.skip(1));
        }
        while came[cur] != ORIGIN
            invariant
                self.wf(),
                w == self.waters(),
                wave_ok(w, s),
                s.came == came@,
                0 <= k < s.queue.len(),
                cur == cell_number(w.half, s.queue[k]),
                cur < came.len(),
                cells.len() >= 2,
                cells[0] == s.queue[k],
                trail(s, head as int).push(out) == trail(s, k) + cells.skip(1),
                head < s.queue.len(),
                forall|i: int|
                    0 < i < cells.len() ==> is_step(cells[i - 1], #[trigger] cells[i]) && w.open_cell(
                        cells[i],
                    ),
                back.len() == cells.len(),
                forall|i: int|
                    0 <= i < back.len() ==> #[trigger] back@[i] == cell_point(
                        self.port,
                        self.port_cos,
                        cells[cells.len() - 1 - i],
                    ),
                forall|i: int| 0 <= i < back.len() ==> (#[trigger] back@[i]).within(WORLD as int),
            decreases k,
        {
            proof {
                assert(entry_ok(w, s, k));
                assert(note(w, s, s.queue[k]) == came@[cur as int]);
                assert(k > 0);
                lemma_not_special(w, s, k);
            }
            let ghost up = s.par[k];
            proof {
                assert(entry_ok(w, s, up));
                lemma_cell_number(w.half, s.queue[up]);
                lemma_trail(w, s, k);
            }
            cur = came[cur] as usize;
            let ghost was = cells;
            let ghost had = back@;
            back.push(self.numbered_cell(cur, Ghost(s.queue[up])));
            proof {
                cells = seq![s.queue[up]] + cells;
                assert(trail(s, k) + was.skip(1) =~= trail(s, up) + cells.skip(1)) by {
                    assert(cells.skip(1) =~= was);
                    assert(was =~= seq![s.queue[k]] + was.skip(1));
                }
                assert forall|i: int| 0 < i < cells.len() implies is_step(
                    cells[i - 1],
                    #[trigger] cells[i],
                ) && w.open_cell(cells[i]) by {
                    assert(cells[i] == was[i - 1]);
                    if i > 1 {
                        assert(cells[i - 1] == was[i - 2]);
                        assert(is_step(was[i - 2], was[i - 1]));
                    }
                }
                assert forall|i: int| 0 <= i < back@.len() implies #[trigger] back@[i] == cell_point(
                    self.port,
                    self.port_cos,
                    cells[cells.len() - 1 - i],
                ) by {
                    if i < had.len() {
                        assert(back@[i] == had[i]);
                        assert(cells[cells.len() - 1 - i] == was[was.len() - 1 - i]);
                    }
                }
                k = up;
            }
        }
        proof {
            assert(note(w, s, s.queue[k]) == came@[cur as int]);
            if k > 0 {
                lemma_not_special(w, s, k);
            }
            assert(entry_ok(w, s, k));
            assert(is_passage(w, cells));
            assert(trail(s, 0) + cells.skip(1) =~= cells);
        }
        let mut line: Vec<Point> = Vec::new();
        line.push(self.port);
        let mut i: usize = back.len();
        while i > 0
            invariant
                i <= back.len(),
                back.len() == cells.len(),
                forall|j: int|
                    0 <= j < back.len() ==> #[trigger] back@[j] == cell_point(
                        self.port,
                        self.port_cos,
                        cells[cells.len() - 1 - j],
                    ),
                line@ =~= passage_line(self.port, self.port_cos, cells).take(1 + back.len() - i),
            decreases i,
        {
            i = i - 1;
            line.push(back[i]);
        }
        assert(line@ =~= passage_line(self.port, self.port_cos, cells));
        (line, Ghost(cells))
    }
}

/// What a search for a channel gives: nothing where no passage leads to a way out, else the
/// line of the first of the shortest ones, thinned.
pub open spec fn is_channel(w: Waters, port: Point, cos: u64, r: Option<Seq<Point>>) -> bool {
    match r {
        None => forall|cells: Seq<(i32, i32)>| #[trigger]
            is_passage(w, cells) ==> !w.way_out(cells.last()),
        Some(points) => exists|cells: Seq<(i32, i32)>| #[trigger]
            is_first_shortest(w, cells) && points == thinned(Rule::Channel, passage_line(port, cos, cells)),
    }
}

/// A channel leads from the port to water that the router could start a route from.
pub proof fn lemma_channel_ends<C: Fn(i64) -> u64, D: Fn(Point, Point) -> u64>(
    c: LandClassifier,
    port: Point,
    half: int,
    cos: C,
    graph: Graph,
    dist: D,
    points: Seq<Point>,
)
    requires
        is_channel(
            waters_of(c, port, half, cos, graph, dist),
            port,
            cosine(cos, port.lat),
            Some(points),
        ),
    ensures
        points.len() >= 1,
        points.first() == port,
        is_exit_at(c, cos, graph, dist, points.last()),
        !c.land(points.last().lon as int, points.last().lat as int),
        !c.land_precise(points.last()),
{
    let w = waters_of(c, port, half, cos, graph, dist);
    let k = cosine(cos, port.lat);
    let cells = choose|cells: Seq<(i32, i32)>| #[trigger]
        is_first_shortest(w, cells) && points == thinned(Rule::Channel, passage_line(port, k, cells));
    let line = passage_line(port, k, cells);
    lemma_thinned_ends(Rule::Channel, line);
    assert(line.last() == cell_point(port, k, cells.last()));
}

/// Every point of a channel after the port is a cell that can be entered: one of the seed
/// around the port, or exact water.
pub proof fn lemma_channel_in_water<C: Fn(i64) -> u64, D: Fn(Point, Point) -> u64>(
    c: LandClassifier,
    port: Point,
    half: int,
    cos: C,
    graph: Graph,
    dist: D,
    points: Seq<Point>,
    i: int,
) -> (cell: (i32, i32))
    requires
        is_channel(
            waters_of(c, port, half, cos, graph, dist),
            port,
            cosine(cos, port.lat),
            Some(points),
        ),
        0 <= i < points.len(),
        points[i] != port,
    ensures
        points[i] == cell_point(port, cosine(cos, port.lat), cell),
        is_seed(cell) || !c.land_precise(points[i]),
{
    let w = waters_of(c, port, half, cos, graph, dist);
    let k = cosine(cos, port.lat);
    let cells = choose|cells: Seq<(i32, i32)>| #[trigger]
        is_first_shortest(w, cells) && points == thinned(Rule::Channel, passage_line(port, k, cells));
    let line = passage_line(port, k, cells);
    lemma_thinned_subset(Rule::Channel, line, line.len() as int);
    let j = choose|j: int| 0 <= j < line.len() && line[j] == points[i];
    let cell = cells[j - 1];
    lemma_origin_is_seed();
    assert(j >= 1);
    assert(line[j] == cell_point(port, k, cell));
    if j > 1 {
        assert(w.open_cell(cell));
    }
    cell
}

/// A search has one answer: where one channel is found, no other is.
pub proof fn lemma_one_channel(
    w: Waters,
    port: Point,
    cos: u64,
    a: Option<Seq<Point>>,
    b: Option<Seq<Point>>,
)
    requires
        is_channel(w, port, cos, a),
        is_channel(w, port, cos, b),
    ensures
        a == b,
{
    if a is Some {
        let p = choose|cells: Seq<(i32, i32)>| #[trigger]
            is_first_shortest(w, cells) && a->0 == thinned(Rule::Channel, passage_line(port, cos, cells));
        assert(is_passage(w, p) && w.way_out(p.last()));
        if b is Some {
            let q = choose|cells: Seq<(i32, i32)>| #[trigger]
                is_first_shortest(w, cells) && b->0 == thinned(Rule::Channel, passage_line(port, cos, cells));
            lemma_one_first(w, p, q);
        }
    } else if b is Some {
        let q = choose|cells: Seq<(i32, i32)>| #[trigger]
            is_first_shortest(w, cells) && b->0 == thinned(Rule::Channel, passage_line(port, cos, cells));
        assert(is_passage(w, q) && w.way_out(q.last()));
    }
}

impl<'a, C: Fn(i64) -> u64, D: Fn(Point, Point) -> u64> Surroundings<'a, C, D> {
    /// Searches outward, ring by ring, for a way out.
    fn search(&self) -> (r: Option<Vec<Point>>)
        requires
            self.wf(),
        ensures
            is_channel(
                self.waters(),
                self.port,
                self.port_cos,
                match r {
                    Some(points) => Some(points@),
                    None => None,
                },
            ),
    {
        let ghost w = self.waters();
        proof {
            lemma_grid_size(self.half as int);
        }
        let side: usize = (2 * self.half + 1) as usize;
        assert(side * side == (2 * self.half + 1) * (2 * self.half + 1));
        let size: usize = side * side;
        let mut came: Vec<u32> = Vec::new();
        let mut i: usize = 0;
        while i < size
            invariant
                i <= size,
                came.len() == i,
                forall|k: int| 0 <= k < i ==> #[trigger] came@[k] == UNSEEN,
            decreases size - i,
        {
            came.push(UNSEEN);
            i = i + 1;
        }
        let mut queue: Vec<(i32, i32)> = Vec::new();
        let Ghost(first) = self.sow(&mut came, &mut queue);
        let ghost mut s = first;
        let mut head: usize = 0;
        proof {
            assert forall|m: int| 0 <= m < s.level.len() implies #[trigger] s.level[m] <= s.level[0] + 1 by {
                assert(entry_ok(w, s, m));
                assert(s.par[m] == 0);
            }
        }
        while head < queue.len()
            invariant
                self.wf(),
                w == self.waters(),
                head <= queue.len(),
                holds(s, came@, queue@),
                wave_ok(w, s),
                seeded(w, s),
                orderly(s),
                spread(w, s, head as int),
                forall|m: int| 1 <= m < s.par.len() ==> #[trigger] s.par[m] < head || s.par[m] == 0,
                head < queue.len() ==> forall|m: int|
                    0 <= m < s.level.len() ==> #[trigger] s.level[m] <= s.level[head as int] + 1,
            decreases unseen_count(came@, came@.len() as int), queue.len() - head,
        {
            let ghost before = came@;
            let c = queue[head];
            let ghost start_len = queue.len();
            proof {
                assert(entry_ok(w, s, head as int));
                lemma_unseen_bound(came@, came@.len() as int);
            }
            let from = self.number(c.0, c.1);
            let mut d: u32 = 0;
            while d < 8
                invariant
                    self.wf(),
                    w == self.waters(),
                    d <= 8,
                    head < queue.len(),
                    c == queue@[head as int],
                    w.open_cell(c),
                    from == cell_number(w.half, c),
                    from < 31_371_201,
                    holds(s, came@, queue@),
                    wave_ok(w, s),
                    seeded(w, s),
                    orderly(s),
                    spread(w, s, head as int),
                    forall|m: int|
                        1 <= m < s.par.len() ==> #[trigger] s.par[m] < head || s.par[m] == 0 || (s.par[m] == head
                            && step_rank(c, s.queue[m]) < d),
                    forall|m: int|
                        0 <= m < s.level.len() ==> #[trigger] s.level[m] <= s.level[head as int] + 1,
                    forall|n: (i32, i32), e: int|
                        0 <= e < d && (n.0 as int, n.1 as int) == #[trigger] neighbour(c, e)
                            && #[trigger] w.open_cell(n) ==> entered_by(s, n, head as int),
                    came.len() == before.len(),
                    0 <= unseen_count(came@, came@.len() as int) <= unseen_count(
                        before,
                        before.len() as int,
                    ),
                    queue.len() >= start_len,
                    queue.len() > start_len ==> unseen_count(came@, came@.len() as int)
                        < unseen_count(before, before.len() as int),
                decreases 8 - d,
            {
                let n = neighbour_of(c, d);
                let ghost s0 = s;
                if -self.half <= n.0 && n.0 <= self.half && -self.half <= n.1 && n.1 <= self.half {
                    let j = self.number(n.0, n.1);
                    assert(note(w, s, n) == came@[j as int]);
                    if came[j] == UNSEEN {
                        proof {
                            if is_seed(n) {
                                assert(entered_by(s, n, 0));
                                let m = choose|m: int|
                                    0 <= m < s.queue.len() && #[trigger] s.queue[m] == n && s.par[m] <= 0;
                                lemma_not_special(w, s, m);
                                assert(false);
                            }
                            assert(entry_ok(w, s, 0));
                            if head == 0 {
                                lemma_beside_origin(n);
                            }
                            assert(s.queue[0] != s.queue[head as int]);
                            lemma_unseen_set(came@, j as int, came@.len() as int);
                        }
                        if !self.is_water(n.0, n.1) {
                            let ghost t = Wave { came: s.came.update(j as int, BLOCKED), ..s };
                            proof {
                                lemma_block(w, s, n, t);
                                assert forall|i: int, k: int| 1 <= i < k < t.queue.len() implies #[trigger]
                                    entered_before(t, i, k) by {
                                    assert(entered_before(s, i, k));
                                }
                                s = t;
                            }
                            came.set(j, BLOCKED);
                        } else {
                            if self.leads_out(n.0, n.1) {
                                let (line, Ghost(cells)) = self.trace(&came, n, head, from, Ghost(s));
                                proof {
                                    assert forall|o: (i32, i32)| #[trigger]
                                        beside(s.queue[head as int], o) && w.open_cell(o) && direction(
                                            s.queue[head as int],
                                            o,
                                        ) < direction(s.queue[head as int], n) implies entered_by(
                                        s,
                                        o,
                                        head as int,
                                    ) by {
                                        let e = lemma_neighbour(c, o);
                                        assert((o.0 as int, o.1 as int) == neighbour(c, e));
                                    }
                                    lemma_first_shortest(w, s, head as int, n);
                                    assert forall|i: int| 0 <= i < line@.len() implies drawable(
                                        #[trigger] line@[i]) by {
                                        lemma_line_drawable(self, cells, i);
                                    }
                                }
                                let points = douglas_peucker(&line, Rule::Channel);
                                return Some(points);
                            }
                            let ghost t = Wave {
                                came: s.came.update(j as int, from as u32),
                                queue: s.queue.push(n),
                                par: s.par.push(head as int),
                                level: s.level.push(s.level[head as int] + 1),
                            };
                            proof {
                                assert(s.level[s.level.len() - 1] <= s.level[head as int] + 1);
                                lemma_enter(w, s, head as int, n, t);
                                lemma_enter_orderly(w, s, head as int, n, t);
                                s = t;
                            }
                            came.set(j, from as u32);
                            queue.push(n);
                        }
                    }
                }
                proof {
                    lemma_keep_spread(w, s0, s, head as int);
                    assert forall|o: (i32, i32), e: int|
                        0 <= e < d + 1 && (o.0 as int, o.1 as int) == #[trigger] neighbour(c, e)
                            && #[trigger] w.open_cell(o) implies entered_by(s, o, head as int) by {
                        if e < d {
                            assert(entered_by(s0, o, head as int));
                        } else {
                            assert(o == n);
                            if note(w, s0, n) != UNSEEN {
                                assert(s0.queue.contains(n));
                                let m = choose|m: int| 0 <= m < s0.queue.len() && s0.queue[m] == n;
                                assert(entry_ok(w, s0, 0));
                                assert(s0.par[m] <= head);
                                assert(entered_by(s0, n, head as int));
                            }
                        }
                    }
                }
                d = d + 1;
            }
            proof {
                assert forall|k: int, o: (i32, i32)|
                    0 <= k < head + 1 && #[trigger] beside(s.queue[k], o) && w.open_cell(o) implies entered_by(
                    s,
                    o,
                    k,
                ) by {
                    if k == head {
                        let e = lemma_neighbour(c, o);
                        assert((o.0 as int, o.1 as int) == neighbour(c, e));
                    }
                }
                if head + 1 < queue.len() {
                    assert(s.level[head as int] <= s.level[head + 1]);
                }
            }
            head = head + 1;
        }
        proof {
            lemma_no_passage(w, s);
        }
        None
    }
}

/// How many of the first `k` cells have not been seen.
spec fn unseen_count(came: Seq<u32>, k: int) -> int
    decreases k,
{
    if k <= 0 {
        0
    } else {
        unseen_count(came, k - 1) + if came[k - 1] == UNSEEN {
            1int
        } else {
            0int
        }
    }
}

proof fn lemma_unseen_bound(came: Seq<u32>, k: int)
    ensures
        0 <= unseen_count(came, k),
    decreases k,
{
    if k > 0 {
        lemma_unseen_bound(came, k - 1);
    }
}

proof fn lemma_unseen_set(came: Seq<u32>, j: int, k: int)
    requires
        0 <= j < came.len(),
        0 <= k <= came.len(),
        came[j] == UNSEEN,
    ensures
        forall|v: u32|
            v != UNSEEN ==> #[trigger] unseen_count(came.update(j, v), k) == unseen_count(came, k) - (
            if j < k {
                1int
            } else {
                0int
            }),
        unseen_count(came, k) >= if j < k {
            1int
        } else {
            0int
        },
    decreases k,
{
    if k > 0 {
        lemma_unseen_set(came, j, k - 1);
        lemma_unseen_bound(came, k - 1);
        assert forall|v: u32| v != UNSEEN implies #[trigger] unseen_count(came.update(j, v), k)
            == unseen_count(came, k) - (if j < k {
            1int
        } else {
            0int
        }) by {
            assert(unseen_count(came.update(j, v), k - 1) == unseen_count(came, k - 1) - (if j < k - 1 {
                1int
            } else {
                0int
            }));
        }
    }
}

/// What has been entered stays entered.
proof fn lemma_keep_spread(w: Waters, s: Wave, t: Wave, head: int)
    requires
        seeded(w, s),
        spread(w, s, head),
        0 <= head <= s.queue.len() <= t.queue.len(),
        forall|k: int| 0 <= k < s.queue.len() ==> #[trigger] t.queue[k] == s.queue[k],
        forall|o: (i32, i32), k: int| #[trigger] entered_by(s, o, k) ==> entered_by(t, o, k),
    ensures
        seeded(w, t),
        spread(w, t, head),
{
    assert forall|c: (i32, i32)| #[trigger] is_seed(c) implies entered_by(t, c, 0) by {
        assert(entered_by(s, c, 0));
    }
    assert forall|k: int, c: (i32, i32)|
        0 <= k < head && #[trigger] beside(t.queue[k], c) && w.open_cell(c) implies entered_by(t, c, k) by {
        assert(beside(s.queue[k], c));
        assert(entered_by(s, c, k));
    }
}

proof fn lemma_line_drawable<C: Fn(i64) -> u64, D: Fn(Point, Point) -> u64>(
    around: &Surroundings<C, D>,
    cells: Seq<(i32, i32)>,
    i: int,
)
    requires
        around.wf(),
        is_passage(around.waters(), cells),
        0 <= i < passage_line(around.port, around.port_cos, cells).len(),
    ensures
        drawable(passage_line(around.port, around.port_cos, cells)[i]),
{
    if i > 0 {
        let c = cells[i - 1];
        if i == 1 {
            assert(c == (0i32, 0i32));
        } else {
            assert(around.waters().open_cell(cells[i - 1]));
        }
        let k = scale(around.port_cos, 20_000_000);
        lemma_grid_offset(c.0 as int, k);
        assert(passage_line(around.port, around.port_cos, cells)[i] == cell_point(
            around.port,
            around.port_cos,
            c,
        ));
    }
}

/// Searches for a navigable path from a port out to water that the router can route from,
/// through the exact geometry of the land: fjords and straits are narrower than the raster,
/// so the quadtree forms no cells in them. The search ends at the first cell from which the
/// router could start; nothing is found where the port has no way out within the grid of
/// `half` steps.
pub fn find_channel_within<C: Fn(i64) -> u64, D: Fn(Point, Point) -> u64>(
    graph: &Graph,
    classifier: &LandClassifier,
    name: &str,
    port: Point,
    half: i32,
    cos: &C,
    dist: &D,
) -> (r: Option<Channel>)
    requires
        classifier.wf(),
        port.within(PORT_BOUND as int),
        SEED_RADIUS <= half <= GRID_HALF,
        is_cosine(*cos),
        graph.wf(),
        is_measure(*dist),
    ensures
        is_channel(
            waters_of(*classifier, port, half as int, *cos, *graph, *dist),
            port,
            cosine(*cos, port.lat),
            match r {
                Some(channel) => Some(channel.points@),
                None => None,
            },
        ),
        r matches Some(channel) ==> channel.port@ == name@,
{
    let port_cos = cos(port.lat);
    let around = Surroundings { classifier, port, half, port_cos, cos, graph, dist };
    match around.search() {
        Some(points) => Some(Channel { port: name.to_string(), points }),
        None => None,
    }
}

/// Searches for a navigable path from a port out to water that the router can route from,
/// out to 420 kilometres. Nothing is found for a port that is landlocked, or whose
/// coordinates are wrong.
pub fn find_channel<C: Fn(i64) -> u64, D: Fn(Point, Point) -> u64>(
    graph: &Graph,
    classifier: &LandClassifier,
    port: &Port,
    cos: &C,
    dist: &D,
) -> (r: Option<Channel>)
    requires
        classifier.wf(),
        graph.wf(),
        port.at().within(PORT_BOUND as int),
        is_cosine(*cos),
        is_measure(*dist),
    ensures
        is_channel(
            waters_of(*classifier, port.at(), GRID_HALF as int, *cos, *graph, *dist),
            port.at(),
            cosine(*cos, port.lat),
            match r {
                Some(channel) => Some(channel.points@),
                None => None,
            },
        ),
        r matches Some(channel) ==> channel.port@ == port.name@,
{
    find_channel_within(graph, classifier, port.name.as_str(), port.position(), GRID_HALF, cos, dist)
}

/// The cells of the grid are 150 metres apart, at 111 kilometres to a degree of latitude and as
/// much less to one of longitude as the cosine of the port's latitude says, which is taken as two
/// hundredths at least. Both coordinates are rounded down.
pub proof fn lemma_cells_are_150_metres(port: Point, cos: u64, c: (i32, i32))
    requires
        port.within(PORT_BOUND as int),
        -2_800 <= c.0 <= 2_800,
        -2_800 <= c.1 <= 2_800,
    ensures
        ({
            let p = cell_point(port, cos, c);
            let k = if cos >= 20_000_000 {
                cos as int
            } else {
                20_000_000
            };
            &&& 111_000 * (p.lat - port.lat) <= 150 * c.1 * DEGREE < 111_000 * (p.lat - port.lat) + 111_000
            &&& 111_000 * k * (p.lon - port.lon) <= 150 * c.0 * DEGREE * 1_000_000_000 < 111_000 * k * (p.lon
                - port.lon) + 111_000 * k
        }),
{
    let k = scale(cos, 20_000_000);
    lemma_grid_offset(c.0 as int, k);
    let d = 111 * k;
    let n = c.0 * 192_000_000_000_000_000;
    vstd::arithmetic::div_mod::lemma_fundamental_div_mod(n, d);
    let x = n / d;
    let p = cell_point(port, cos, c);
    assert(p.lon - port.lon == x);
    assert(111_000 * k * x == 1_000 * (d * x)) by (nonlinear_arith)
        requires
            d == 111 * k,
    ;
    assert(111_000 * k == 1_000 * d);
    assert(150 * c.0 * DEGREE * 1_000_000_000 == 1_000 * n) by (nonlinear_arith)
        requires
            n == c.0 * 192_000_000_000_000_000,
            DEGREE == 1_280_000_000,
    ;
    assert(150 * c.1 * DEGREE == 1_000 * (c.1 * 192_000_000)) by (nonlinear_arith)
        requires
            DEGREE == 1_280_000_000,
    ;
}

/// A search looks 420 kilometres out, and land is ignored within 1.5 kilometres of the port.
pub proof fn lemma_search_bounds(c: (i32, i32))
    ensures
        GRID_HALF * 150 == 420_000,
        is_seed(c) <==> (150 * c.0) * (150 * c.0) + (150 * c.1) * (150 * c.1) <= 1_500 * 1_500,
{
    reveal(is_seed);
    let x = c.0 as int;
    let y = c.1 as int;
    assert((150 * x) * (150 * x) + (150 * y) * (150 * y) == 22_500 * (x * x + y * y)) by (nonlinear_arith);
}

/// A way out is a place the router can start from: a node of the main component not further than two
/// kilometres away, and water four kilometres out to the north, the south, the east and the west,
/// and between them.
pub proof fn lemma_exit_is_open<C: Fn(i64) -> u64, D: Fn(Point, Point) -> u64>(
    c: LandClassifier,
    cos: C,
    graph: Graph,
    dist: D,
    p: Point,
) -> (r: (int, int, int, int))
    requires
        is_exit_at(c, cos, graph, dist, p),
    ensures
        measured(dist, p, graph.at(graph.first_snap(p))) <= 2 * KM,
        connects(c, dist, p, graph.at(graph.first_snap(p))),
        // Four kilometres north, and east; the same share of both to the north-east.
        4 * DEGREE - 111 < 111 * r.0 <= 4 * DEGREE,
        ({
            let k = cosine(cos, p.lat);
            let k = if k >= 50_000_000 {
                k as int
            } else {
                50_000_000
            };
            4_000_000_000 * DEGREE - 111 * (k + 1) < 111 * k * r.1 <= 4_000_000_000 * DEGREE
        }),
        1_000_000_000 * r.2 <= r.0 * 707_106_781 < 1_000_000_000 * r.2 + 1_000_000_000,
        1_000_000_000 * r.3 <= r.1 * 707_106_781 < 1_000_000_000 * r.3 + 1_000_000_000,
        !c.land(p.lon as int, p.lat + r.0),
        !c.land(p.lon as int, p.lat - r.0),
        !c.land(p.lon + r.1, p.lat as int),
        !c.land(p.lon - r.1, p.lat as int),
        !c.land(p.lon + r.3, p.lat + r.2),
        exists|x: int, y: int|
            #![trigger c.land(p.lon - x, p.lat - y)]
            0 <= x - r.3 <= 1 && 0 <= y - r.2 <= 1 && !c.land(p.lon - x, p.lat - y) && !c.land(
                p.lon + r.3,
                p.lat - y,
            ) && !c.land(p.lon - x, p.lat + r.2),
{
    let cosine = cosine(cos, p.lat);
    let north = OPEN_WATER_LAT as int;
    let east = open_water_lon(cosine);
    let k = scale(cosine, 50_000_000);
    let big = 46_126_126_126_126_126int;
    vstd::arithmetic::div_mod::lemma_fundamental_div_mod(big, k);
    assert(k * east <= big < k * east + k);
    assert(111 * k * east == 111 * (k * east)) by (nonlinear_arith);
    assert(111 * (k + 1) == 111 * k + 111);
    assert(!c.land(ring_point(p, cosine, 0).0, ring_point(p, cosine, 0).1));
    assert(!c.land(ring_point(p, cosine, 1).0, ring_point(p, cosine, 1).1));
    assert(!c.land(ring_point(p, cosine, 2).0, ring_point(p, cosine, 2).1));
    assert(!c.land(ring_point(p, cosine, 3).0, ring_point(p, cosine, 3).1));
    assert(!c.land(ring_point(p, cosine, 4).0, ring_point(p, cosine, 4).1));
    assert(!c.land(ring_point(p, cosine, 5).0, ring_point(p, cosine, 5).1));
    assert(!c.land(ring_point(p, cosine, 6).0, ring_point(p, cosine, 6).1));
    assert(!c.land(ring_point(p, cosine, 7).0, ring_point(p, cosine, 7).1));
    let y = (north * 707_106_781) / 1_000_000_000;
    let x = (east * 707_106_781) / 1_000_000_000;
    let down = -((north * (-707_106_781)) / 1_000_000_000);
    let left = -((east * (-707_106_781)) / 1_000_000_000);
    assert(east * compass(2).0 == 0 && east * compass(6).0 == 0) by (nonlinear_arith)
        requires
            compass(2).0 == 0,
            compass(6).0 == 0,
    ;
    assert(ring_point(p, cosine, 0) == (p.lon + east, p.lat as int));
    assert(ring_point(p, cosine, 2) == (p.lon as int, p.lat + north));
    assert(ring_point(p, cosine, 4) == (p.lon - east, p.lat as int));
    assert(ring_point(p, cosine, 6) == (p.lon as int, p.lat - north));
    assert(ring_point(p, cosine, 1) == (p.lon + x, p.lat + y));
    assert(ring_point(p, cosine, 3) == (p.lon - left, p.lat + y));
    assert(ring_point(p, cosine, 5) == (p.lon - left, p.lat - down));
    assert(ring_point(p, cosine, 7) == (p.lon + x, p.lat - down));
    assert(0 <= down - y <= 1 && 0 <= left - x <= 1);
    assert(!c.land(p.lon - left, p.lat - down));
    (north, east, y, x)
}

} // verus!
