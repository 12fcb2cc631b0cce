//! The land classifier: a raster for quick tests, bounding boxes of all rings for the
//! open-ocean test, and the geometry of island-sized polygons for exact tests.
use vstd::multiset::Multiset;
use vstd::prelude::*;

use crate::geo::{
    floor_div, spec_max, BBox, Point, DEGREE, DRAWN, HALF_TURN, QUARTER_TURN, TURN, WINDING, WORLD,
};
use crate::raster::{
    bit, build_raster_scanline, cell_bit, clear_bit, get_bit, lat_row, on_map, ring_views,
    rings_fill, row_of, Ring, RASTER_CELL, RASTER_COLS, RASTER_ROWS, RASTER_WORDS,
};
use crate::spatial::{
    box_items, boxes_meeting, lemma_meeting_of_seq, load_boxes, meeting, BoxEntry, BoxIndex,
};

verus! {

/// Largest side of the bounding box of a polygon's outer ring for it to count as an island:
/// 3 degrees.
pub const ISLAND_MAX: i64 = 3_840_000_000;

/// The land polygons of one feature: each polygon is an outer ring and its holes.
#[allow(inconsistent_fields)]
pub enum Geometry {
    Polygon { coordinates: Vec<Ring> },
    MultiPolygon { coordinates: Vec<Vec<Ring>> },
}

pub struct LandClassifier {
    /// Bounding boxes of all rings.
    pub tree: BoxIndex,
    /// One bit for each cell of the raster, set on land.
    pub raster: Vec<u64>,
    /// The rings of the islands, holes with the rings around them.
    pub island_rings: Vec<Ring>,
    /// Bounding boxes of the rings of the islands, by their position in `island_rings`.
    pub island_tree: BoxIndex,
}

/// The raster shows land at a position. Longitudes are taken around the globe.
pub open spec fn land_at(raster: Seq<u64>, lon: int, lat: int) -> bool {
    let col = ((lon + HALF_TURN) % TURN as int) / RASTER_CELL as int;
    let row = lat_row(lat);
    row < RASTER_ROWS && bit(raster, cell_bit(row, col))
}

/// The map goes around the globe: a turn further on there is the same land.
pub proof fn lemma_land_goes_round(raster: Seq<u64>, lon: int, lat: int, turns: int)
    ensures
        land_at(raster, lon + turns * TURN, lat) == land_at(raster, lon, lat),
{
    let x = lon + HALF_TURN;
    vstd::arithmetic::div_mod::lemma_mod_multiples_vanish(turns, x, TURN as int);
    assert(TURN * turns + x == lon + turns * TURN + HALF_TURN) by (nonlinear_arith)
        requires
            x == lon + HALF_TURN,
    ;
}

/// A position is land where the cell of the raster that it lies in is: the cell is 0.02 degrees
/// wide and high, counted from 180 degrees west and 90 degrees south.
pub proof fn lemma_land_is_its_cell(raster: Seq<u64>, lon: int, lat: int, row: int, col: int)
    requires
        0 <= row < 9_000,
        0 <= col < 18_000,
        col * DEGREE <= 50 * (lon + HALF_TURN) < (col + 1) * DEGREE,
        row * DEGREE <= 50 * (lat + QUARTER_TURN) < (row + 1) * DEGREE,
    ensures
        land_at(raster, lon, lat) == bit(raster, row * 18_000 + col),
{
    let x = lon + HALF_TURN;
    let y = lat + QUARTER_TURN;
    assert(col * 25_600_000 <= x < col * 25_600_000 + 25_600_000);
    assert(row * 25_600_000 <= y < row * 25_600_000 + 25_600_000);
    assert(0 <= x < TURN);
    assert(x % TURN as int == x) by {
        vstd::arithmetic::div_mod::lemma_small_mod(x as nat, TURN as nat);
    }
    assert(x / 25_600_000 == col);
    assert(y / 25_600_000 == row);
}

/// South of 90 degrees the map goes on as it is there.
pub proof fn lemma_south_of_the_pole(raster: Seq<u64>, lon: int, lat: int)
    requires
        lat < -QUARTER_TURN,
    ensures
        land_at(raster, lon, lat) == land_at(raster, lon, -QUARTER_TURN as int),
{
}

/// Beyond 90 degrees north there is no land.
pub proof fn lemma_no_land_beyond_the_pole(raster: Seq<u64>, lon: int, lat: int)
    requires
        lat >= QUARTER_TURN,
    ensures
        !land_at(raster, lon, lat),
{
}

/// The smallest box around the first `n` points.
pub open spec fn points_box(ring: Seq<Point>, n: int) -> BBox
    decreases n,
{
    if n <= 1 {
        BBox {
            min_lon: ring[0].lon,
            min_lat: ring[0].lat,
            max_lon: ring[0].lon,
            max_lat: ring[0].lat,
        }
    } else {
        let b = points_box(ring, n - 1);
        let p = ring[n - 1];
        BBox {
            min_lon: if p.lon < b.min_lon { p.lon } else { b.min_lon },
            min_lat: if p.lat < b.min_lat { p.lat } else { b.min_lat },
            max_lon: if p.lon > b.max_lon { p.lon } else { b.max_lon },
            max_lat: if p.lat > b.max_lat { p.lat } else { b.max_lat },
        }
    }
}

/// The bounding box of a ring.
pub open spec fn ring_box(ring: Seq<Point>) -> BBox {
    points_box(ring, ring.len() as int)
}

/// The box between two opposite corners.
pub open spec fn corner_box(lon0: i64, lat0: i64, lon1: i64, lat1: i64) -> BBox {
    BBox {
        min_lon: if lon0 <= lon1 { lon0 } else { lon1 },
        min_lat: if lat0 <= lat1 { lat0 } else { lat1 },
        max_lon: if lon0 <= lon1 { lon1 } else { lon0 },
        max_lat: if lat0 <= lat1 { lat1 } else { lat0 },
    }
}

fn box_between(lon0: i64, lat0: i64, lon1: i64, lat1: i64) -> (b: BBox)
    ensures
        b == corner_box(lon0, lat0, lon1, lat1),
        b.ordered(),
{
    BBox {
        min_lon: if lon0 <= lon1 { lon0 } else { lon1 },
        min_lat: if lat0 <= lat1 { lat0 } else { lat1 },
        max_lon: if lon0 <= lon1 { lon1 } else { lon0 },
        max_lat: if lat0 <= lat1 { lat1 } else { lat0 },
    }
}

/// The longer side of a box.
pub open spec fn box_span(b: BBox) -> int {
    spec_max(b.max_lon - b.min_lon, b.max_lat - b.min_lat)
}

/// The bounding boxes of rings, numbered in order.
pub open spec fn ring_entries(rings: Seq<Seq<Point>>) -> Seq<BoxEntry> {
    Seq::new(rings.len(), |i: int| BoxEntry { id: i as usize, bbox: ring_box(rings[i]) })
}

/// The rings of three points or more.
pub open spec fn proper_rings(rings: Seq<Seq<Point>>) -> Seq<Seq<Point>>
    decreases rings.len(),
{
    if rings.len() == 0 {
        Seq::empty()
    } else {
        let before = proper_rings(rings.drop_last());
        if rings.last().len() >= 3 {
            before.push(rings.last())
        } else {
            before
        }
    }
}

/// The polygon is an island: its outer ring is small enough. Its holes lie within.
pub open spec fn is_island(polygon: Seq<Seq<Point>>) -> bool {
    polygon.len() > 0 && polygon[0].len() >= 3 && box_span(ring_box(polygon[0])) <= ISLAND_MAX
}

/// The rings of one polygon; of `islands` only, if asked.
pub open spec fn chosen_rings(polygon: Seq<Seq<Point>>, islands: bool) -> Seq<Seq<Point>> {
    if islands && !is_island(polygon) {
        Seq::empty()
    } else {
        proper_rings(polygon)
    }
}

/// The rings of a list of polygons, in order.
pub open spec fn polygon_rings(polygons: Seq<Vec<Ring>>, islands: bool) -> Seq<Seq<Point>>
    decreases polygons.len(),
{
    if polygons.len() == 0 {
        Seq::empty()
    } else {
        polygon_rings(polygons.drop_last(), islands) + chosen_rings(ring_views(polygons.last()@), islands)
    }
}

/// The rings of one feature.
pub open spec fn geometry_rings(g: Geometry, islands: bool) -> Seq<Seq<Point>> {
    match g {
        Geometry::Polygon { coordinates } => chosen_rings(ring_views(coordinates@), islands),
        Geometry::MultiPolygon { coordinates } => polygon_rings(coordinates@, islands),
    }
}

/// The rings of all features, in order, or of the islands among their polygons; rings of
/// fewer than three points are left out.
pub open spec fn feature_rings(features: Seq<Geometry>, islands: bool) -> Seq<Seq<Point>>
    decreases features.len(),
{
    if features.len() == 0 {
        Seq::empty()
    } else {
        feature_rings(features.drop_last(), islands) + geometry_rings(features.last(), islands)
    }
}

pub open spec fn rings_on_map(rings: Seq<Ring>) -> bool {
    forall|i: int| 0 <= i < rings.len() ==> on_map((#[trigger] rings[i])@)
}

pub open spec fn geometry_on_map(g: Geometry) -> bool {
    match g {
        Geometry::Polygon { coordinates } => rings_on_map(coordinates@),
        Geometry::MultiPolygon { coordinates } => forall|i: int|
            0 <= i < coordinates.len() ==> rings_on_map((#[trigger] coordinates[i])@),
    }
}

/// A ray eastward from `p` crosses the edge between `a` and `b`.
pub open spec fn ray_crosses(a: Point, b: Point, p: Point) -> bool {
    &&& (a.lat > p.lat) != (b.lat > p.lat)
    &&& if b.lat > a.lat {
        (p.lon - a.lon) * (b.lat - a.lat) < (b.lon - a.lon) * (p.lat - a.lat)
    } else {
        (p.lon - a.lon) * (b.lat - a.lat) > (b.lon - a.lon) * (p.lat - a.lat)
    }
}

/// How many of the edges that end in the first `n` points a ray eastward crosses.
pub open spec fn ray_crossings(ring: Seq<Point>, p: Point, n: int) -> nat
    decreases n,
{
    if n <= 0 {
        0
    } else {
        let prev = if n == 1 {
            ring.last()
        } else {
            ring[n - 2]
        };
        ray_crossings(ring, p, n - 1) + if ray_crosses(ring[n - 1], prev, p) {
            1nat
        } else {
            0nat
        }
    }
}

/// Even-odd rule: the point is inside the ring.
pub open spec fn encloses(ring: Seq<Point>, p: Point) -> bool {
    ring.len() >= 3 && ray_crossings(ring, p, ring.len() as int) % 2 == 1
}

/// Positions of the rings whose bounding box holds the point and that enclose it.
pub open spec fn enclosing(rings: Seq<Seq<Point>>, p: Point) -> Set<int> {
    Set::new(
        |i: int| 0 <= i < rings.len() && ring_box(rings[i]).holds(p) && encloses(rings[i], p),
    )
}

/// All that is held are boxes on the map.
pub open spec fn boxes_on_map(items: Multiset<BoxEntry>) -> bool {
    forall|e: BoxEntry| #[trigger] items.contains(e) ==> e.bbox.ordered() && e.bbox.within(WORLD as int)
}

/// The boxes share a point when the second is moved by so many turns.
pub open spec fn meets_turned(e: BBox, b: BBox, turns: int) -> bool {
    &&& e.min_lon <= b.max_lon + turns * TURN
    &&& b.min_lon + turns * TURN <= e.max_lon
    &&& e.min_lat <= b.max_lat
    &&& b.min_lat <= e.max_lat
}

impl LandClassifier {
    /// The raster covers the globe, and the island index lists the island rings.
    pub open spec fn wf(&self) -> bool {
        &&& self.raster.len() >= RASTER_WORDS
        &&& boxes_on_map(box_items(self.tree))
        &&& rings_on_map(self.island_rings@)
        &&& forall|i: int| 0 <= i < self.island_rings.len() ==> (#[trigger] self.island_rings[i]).len() >= 3
        &&& box_items(self.island_tree) == ring_entries(ring_views(self.island_rings@)).to_multiset()
    }

    /// The raster shows land at the position.
    pub open spec fn land(&self, lon: int, lat: int) -> bool {
        land_at(self.raster@, lon, lat)
    }

    /// A ring's bounding box shares a point with the box.
    pub open spec fn near_land(&self, b: BBox) -> bool {
        exists|e: BoxEntry| #[trigger] box_items(self.tree).contains(e) && e.bbox.meets(b)
    }

    /// A ring's bounding box shares a point with the box, once that is moved by some number
    /// of whole turns.
    pub open spec fn near_land_around(&self, b: BBox) -> bool {
        exists|e: BoxEntry, turns: int| #[trigger]
            box_items(self.tree).contains(e) && #[trigger] meets_turned(e.bbox, b, turns)
    }

    /// Land by the exact test: even-odd over the rings of islands around the point, so that a
    /// hole cancels the ring around it, or the raster where no such ring is near.
    pub open spec fn land_precise(&self, p: Point) -> bool {
        let rings = ring_views(self.island_rings@);
        if exists|i: int| 0 <= i < rings.len() && (#[trigger] ring_box(rings[i])).holds(p) {
            enclosing(rings, p).len() % 2 == 1
        } else {
            self.land(p.lon as int, p.lat as int)
        }
    }
}

proof fn lemma_points_box(ring: Seq<Point>, n: int)
    requires
        1 <= n <= ring.len(),
    ensures
        points_box(ring, n).ordered(),
        forall|i: int| 0 <= i < n ==> points_box(ring, n).holds(#[trigger] ring[i]),
        on_map(ring) ==> points_box(ring, n).within(WORLD as int),
    decreases n,
{
    if n > 1 {
        lemma_points_box(ring, n - 1);
        if on_map(ring) {
            assert(ring[n - 1].within(WORLD as int));
        }
    } else if on_map(ring) {
        assert(ring[0].within(WORLD as int));
    }
}

/// An edge crosses the ray from a point east of its ends never, and from one west of them
/// whenever its ends lie on both sides.
proof fn lemma_ray_beside(a: Point, b: Point, p: Point)
    ensures
        p.lon > a.lon && p.lon > b.lon ==> !ray_crosses(a, b, p),
        p.lon < a.lon && p.lon < b.lon ==> ray_crosses(a, b, p) == ((a.lat > p.lat) != (b.lat > p.lat)),
{
    let x = p.lon - a.lon;
    let run = b.lon - a.lon;
    let rise = b.lat - a.lat;
    let y = p.lat - a.lat;
    if (a.lat > p.lat) != (b.lat > p.lat) {
        if p.lon > a.lon && p.lon > b.lon {
            assert(rise > 0 ==> x * rise > run * y) by (nonlinear_arith)
                requires
                    x > 0,
                    x > run,
                    rise > 0 ==> 0 <= y < rise,
            ;
            assert(rise <= 0 ==> x * rise <= run * y) by (nonlinear_arith)
                requires
                    x > 0,
                    x > run,
                    rise <= 0 ==> rise <= y < 0,
            ;
        }
        if p.lon < a.lon && p.lon < b.lon {
            assert(rise > 0 ==> x * rise < run * y) by (nonlinear_arith)
                requires
                    x < 0,
                    x < run,
                    rise > 0 ==> 0 <= y < rise,
            ;
            assert(rise <= 0 ==> x * rise > run * y) by (nonlinear_arith)
                requires
                    x < 0,
                    x < run,
                    rise <= 0 ==> rise <= y < 0,
            ;
        }
    }
}

/// Seen from outside its bounding box, the edges of a ring that end in the first `n` points
/// are crossed never, or as often as they change from one side of the parallel to the other.
proof fn lemma_crossings_outside(ring: Seq<Point>, p: Point, n: int)
    requires
        1 <= n <= ring.len(),
        !ring_box(ring).holds(p),
    ensures
        p.lon >= ring_box(ring).min_lon ==> ray_crossings(ring, p, n) == 0,
        p.lon < ring_box(ring).min_lon ==> ray_crossings(ring, p, n) % 2 == if (ring.last().lat > p.lat) != (
        ring[n - 1].lat > p.lat) {
            1nat
        } else {
            0nat
        },
    decreases n,
{
    lemma_points_box(ring, ring.len() as int);
    let b = ring_box(ring);
    let prev = if n == 1 {
        ring.last()
    } else {
        ring[n - 2]
    };
    assert(b.holds(ring[n - 1]));
    assert(b.holds(ring[ring.len() - 1]));
    assert(n > 1 ==> b.holds(ring[n - 2]));
    lemma_ray_beside(ring[n - 1], prev, p);
    if n > 1 {
        lemma_crossings_outside(ring, p, n - 1);
    } else {
        assert(ray_crossings(ring, p, 0) == 0);
    }
}

/// A ring encloses nothing outside its bounding box.
pub proof fn lemma_encloses_in_box(ring: Seq<Point>, p: Point)
    requires
        encloses(ring, p),
    ensures
        ring_box(ring).holds(p),
{
    if !ring_box(ring).holds(p) {
        lemma_crossings_outside(ring, p, ring.len() as int);
    }
}

/// The bounding box of the ring.
fn bounding_box(ring: &Ring) -> (b: BBox)
    requires
        ring.len() >= 1,
    ensures
        b == ring_box(ring@),
{
    let mut b = BBox {
        min_lon: ring[0].lon,
        min_lat: ring[0].lat,
        max_lon: ring[0].lon,
        max_lat: ring[0].lat,
    };
    let mut i: usize = 1;
    while i < ring.len()
        invariant
            1 <= i <= ring.len(),
            b == points_box(ring@, i as int),
        decreases ring.len() - i,
    {
        let p = ring[i];
        if p.lon < b.min_lon {
            b.min_lon = p.lon;
        }
        if p.lat < b.min_lat {
            b.min_lat = p.lat;
        }
        if p.lon > b.max_lon {
            b.max_lon = p.lon;
        }
        if p.lat > b.max_lat {
            b.max_lat = p.lat;
        }
        i = i + 1;
    }
    b
}

fn copy_ring(ring: &Ring) -> (r: Ring)
    ensures
        r@ == ring@,
{
    let mut r: Ring = Vec::new();
    let mut i: usize = 0;
    while i < ring.len()
        invariant
            i <= ring.len(),
            r@ =~= ring@.take(i as int),
        decreases ring.len() - i,
    {
        r.push(ring[i]);
        i = i + 1;
    }
    r
}

/// Adds the rings of one polygon, or none of them if only islands are asked for.
fn push_polygon(out: &mut Vec<Ring>, polygon: &Vec<Ring>, islands: bool)
    requires
        rings_on_map(polygon@),
        rings_on_map(old(out)@),
        forall|i: int| 0 <= i < old(out).len() ==> (#[trigger] old(out)@[i]).len() >= 3,
    ensures
        rings_on_map(final(out)@),
        forall|i: int| 0 <= i < final(out).len() ==> (#[trigger] final(out)@[i]).len() >= 3,
        ring_views(final(out)@) == ring_views(old(out)@) + chosen_rings(ring_views(polygon@), islands),
{
    let ghost before = out@;
    let ghost views = ring_views(polygon@);
    if islands {
        let small = polygon.len() > 0 && polygon[0].len() >= 3 && {
            let b = bounding_box(&polygon[0]);
            proof {
                assert(on_map(polygon[0]@));
                lemma_points_box(polygon[0]@, polygon[0].len() as int);
            }
            b.max_lon - b.min_lon <= ISLAND_MAX && b.max_lat - b.min_lat <= ISLAND_MAX
        };
        assert(small == is_island(views));
        if !small {
            assert(ring_views(out@) =~= ring_views(before) + Seq::<Seq<Point>>::empty());
            return;
        }
    }
    let mut i: usize = 0;
    assert(views.take(0) =~= Seq::<Seq<Point>>::empty());
    assert(ring_views(out@) =~= ring_views(before) + proper_rings(views.take(0)));
    while i < polygon.len()
        invariant
            i <= polygon.len(),
            views == ring_views(polygon@),
            rings_on_map(polygon@),
            rings_on_map(out@),
            forall|k: int| 0 <= k < out.len() ==> (#[trigger] out@[k]).len() >= 3,
            ring_views(out@) == ring_views(before) + proper_rings(views.take(i as int)),
        decreases polygon.len() - i,
    {
        let ghost now = out@;
        proof {
            assert(views.take(i + 1).drop_last() =~= views.take(i as int));
            assert(views.take(i + 1).last() == polygon[i as int]@);
        }
        if polygon[i].len() >= 3 {
            let ring = copy_ring(&polygon[i]);
            assert(on_map(polygon[i as int]@));
            out.push(ring);
            assert(ring_views(out@) =~= ring_views(now).push(ring@));
            assert(ring_views(out@) =~= ring_views(before) + proper_rings(views.take(i + 1)));
        }
        i = i + 1;
    }
    assert(views.take(polygon.len() as int) =~= views);
}

/// All proper rings of the features, in order, or those of the islands.
fn collect_rings(features: &Vec<Geometry>, islands: bool) -> (rings: Vec<Ring>)
    requires
        forall|i: int| 0 <= i < features.len() ==> geometry_on_map(#[trigger] features[i]),
    ensures
        ring_views(rings@) == feature_rings(features@, islands),
        rings_on_map(rings@),
        forall|i: int| 0 <= i < rings.len() ==> (#[trigger] rings[i]).len() >= 3,
{
    let mut out: Vec<Ring> = Vec::new();
    let mut i: usize = 0;
    assert(features@.take(0) =~= Seq::<Geometry>::empty());
    assert(ring_views(out@) =~= feature_rings(features@.take(0), islands));
    while i < features.len()
        invariant
            i <= features.len(),
            forall|k: int| 0 <= k < features.len() ==> geometry_on_map(#[trigger] features[k]),
            ring_views(out@) == feature_rings(features@.take(i as int), islands),
            rings_on_map(out@),
            forall|k: int| 0 <= k < out.len() ==> (#[trigger] out[k]).len() >= 3,
        decreases features.len() - i,
    {
        assert(geometry_on_map(features[i as int]));
        assert(features@.take(i + 1).drop_last() =~= features@.take(i as int));
        let ghost done = ring_views(out@);
        match &features[i] {
            Geometry::Polygon { coordinates } => {
                push_polygon(&mut out, coordinates, islands);
            },
            Geometry::MultiPolygon { coordinates } => {
                let mut k: usize = 0;
                assert(coordinates@.take(0) =~= Seq::<Vec<Ring>>::empty());
                assert(ring_views(out@) =~= done + polygon_rings(coordinates@.take(0), islands));
                while k < coordinates.len()
                    invariant
                        k <= coordinates.len(),
                        forall|j: int|
                            0 <= j < coordinates.len() ==> rings_on_map((#[trigger] coordinates[j])@),
                        rings_on_map(out@),
                        forall|j: int| 0 <= j < out.len() ==> (#[trigger] out[j]).len() >= 3,
                        ring_views(out@) == done + polygon_rings(coordinates@.take(k as int), islands),
                    decreases coordinates.len() - k,
                {
                    assert(coordinates@.take(k + 1).drop_last() =~= coordinates@.take(k as int));
                    push_polygon(&mut out, &coordinates[k], islands);
                    assert(ring_views(out@) =~= done + polygon_rings(coordinates@.take(k + 1), islands));
                    k = k + 1;
                }
                assert(coordinates@.take(coordinates.len() as int) =~= coordinates@);
            },
        }
        i = i + 1;
    }
    assert(features@.take(features.len() as int) =~= features@);
    out
}

/// An index of the bounding boxes of rings, numbered in order.
fn index_rings(rings: &Vec<Ring>) -> (index: BoxIndex)
    requires
        rings_on_map(rings@),
        forall|i: int| 0 <= i < rings.len() ==> (#[trigger] rings[i]).len() >= 3,
    ensures
        box_items(index) == ring_entries(ring_views(rings@)).to_multiset(),
        boxes_on_map(box_items(index)),
{
    let mut entries: Vec<BoxEntry> = Vec::new();
    let mut i: usize = 0;
    while i < rings.len()
        invariant
            i <= rings.len(),
            rings_on_map(rings@),
            forall|k: int| 0 <= k < rings.len() ==> (#[trigger] rings[k]).len() >= 3,
            forall|k: int| 0 <= k < entries.len() ==> (#[trigger] entries[k]).bbox.within(WORLD as int),
            entries@ =~= ring_entries(ring_views(rings@)).take(i as int),
            forall|k: int| 0 <= k < entries.len() ==> (#[trigger] entries[k]).bbox.ordered(),
        decreases rings.len() - i,
    {
        let bbox = bounding_box(&rings[i]);
        proof {
            assert(on_map(rings[i as int]@));
            lemma_points_box(rings[i as int]@, rings[i as int].len() as int);
        }
        entries.push(BoxEntry { id: i, bbox });
        i = i + 1;
    }
    assert(entries@ =~= ring_entries(ring_views(rings@)));
    proof {
        broadcast use vstd::seq_lib::group_to_multiset_ensures;
        assert forall|e: BoxEntry| #[trigger] entries@.to_multiset().contains(e) implies e.bbox.ordered() && e.bbox.within(WORLD as int) by {
            assert(entries@.contains(e));
            let k = choose|k: int| 0 <= k < entries.len() && entries@[k] == e;
            assert(entries@[k].bbox.ordered() && entries@[k].bbox.within(WORLD as int));
        }
    }
    load_boxes(&entries)
}

impl LandClassifier {
    /// Builds the classifier from land polygons. `cached` is the raster of an earlier
    /// build; without one the rings are rasterized.
    pub fn load(features: &Vec<Geometry>, cached: Option<Vec<u64>>) -> (c: LandClassifier)
        requires
            forall|i: int| 0 <= i < features.len() ==> geometry_on_map(#[trigger] features[i]),
            cached matches Some(words) ==> words.len() >= RASTER_WORDS,
        ensures
            c.wf(),
            box_items(c.tree) == ring_entries(feature_rings(features@, false)).to_multiset(),
            ring_views(c.island_rings@) == feature_rings(features@, true),
            cached matches Some(words) ==> c.raster == words,
            cached is None ==> c.raster.len() == RASTER_WORDS,
            cached is None ==> forall|row: int, col: int|
                0 <= row < RASTER_ROWS && 0 <= col < RASTER_COLS ==> #[trigger] bit(
                    c.raster@,
                    cell_bit(row, col),
                ) == rings_fill(feature_rings(features@, false), row, col),
    {
        let all_rings = collect_rings(features, false);
        let island_rings = collect_rings(features, true);
        let tree = index_rings(&all_rings);
        let island_tree = index_rings(&island_rings);
        let raster = match cached {
            Some(words) => words,
            None => build_raster_scanline(&all_rings),
        };
        LandClassifier { tree, raster, island_rings, island_tree }
    }

    /// Bitmap lookup. Longitudes are taken around the globe, so a path may run on past
    /// 180 degrees.
    pub fn is_land(&self, lon: i64, lat: i64) -> (r: bool)
        requires
            self.wf(),
            -WINDING <= lon <= WINDING,
            -WINDING <= lat <= WINDING,
        ensures
            r == self.land(lon as int, lat as int),
    {
        let x: i64 = lon + HALF_TURN;
        let east: i64 = if 0 <= x && x < TURN {
            x
        } else if x >= 0 {
            x % TURN
        } else {
            let back: i64 = (-(x + 1)) % TURN;
            proof {
                let n = -(x as int) - 1;
                vstd::arithmetic::div_mod::lemma_fundamental_div_mod(n, TURN as int);
                assert(x as int == TURN * (-(n / TURN as int) - 1) + (TURN - 1 - n % TURN as int))
                    by (nonlinear_arith)
                    requires
                        n == -(x as int) - 1,
                        n == TURN * (n / TURN as int) + n % TURN as int,
                ;
                vstd::arithmetic::div_mod::lemma_fundamental_div_mod_converse(
                    x as int,
                    TURN as int,
                    -(n / TURN as int) - 1,
                    TURN - 1 - n % TURN as int,
                );
            }
            TURN - 1 - back
        };
        assert(east == (lon + HALF_TURN) % TURN as int) by {
            if 0 <= x < TURN {
                vstd::arithmetic::div_mod::lemma_small_mod(x as nat, TURN as nat);
            }
        }
        let col: usize = (east / RASTER_CELL) as usize;
        let row = row_of(lat);
        if row >= RASTER_ROWS as u64 {
            return false;
        }
        get_bit(&self.raster, (row as usize) * RASTER_COLS + col)
    }

    /// Whether any ring's bounding box shares a point with the box: where none does, the
    /// whole box is open ocean.
    pub fn overlaps_land(&self, min_lon: i64, min_lat: i64, max_lon: i64, max_lat: i64) -> (r: bool)
        ensures
            r == self.near_land(corner_box(min_lon, min_lat, max_lon, max_lat)),
    {
        let b = box_between(min_lon, min_lat, max_lon, max_lat);
        let found = boxes_meeting(&self.tree, b);
        proof {
            broadcast use vstd::seq_lib::group_to_multiset_ensures;
            broadcast use vstd::multiset::group_multiset_axioms;
            let items = box_items(self.tree);
            if found.len() > 0 {
                let e = found@[0];
                assert(found@.contains(e));
                assert(meeting(items, b).count(e) > 0);
                assert(items.contains(e));
            }
            if self.near_land(b) {
                let e = choose|e: BoxEntry| #[trigger] items.contains(e) && e.bbox.meets(b);
                assert(meeting(items, b).count(e) > 0);
                assert(found@.contains(e));
            }
        }
        found.len() > 0
    }

    /// Whether any ring's bounding box shares a point with the box, around the globe: the box
    /// may run on past 180 degrees.
    pub fn overlaps_land_around(&self, lon0: i64, lat0: i64, lon1: i64, lat1: i64) -> (r: bool)
        requires
            self.wf(),
            -DRAWN <= lon0 <= DRAWN,
            -DRAWN <= lon1 <= DRAWN,
        ensures
            r == self.near_land_around(corner_box(lon0, lat0, lon1, lat1)),
    {
        let b = box_between(lon0, lat0, lon1, lat1);
        if b.max_lon - b.min_lon >= TURN {
            let r = self.overlaps_land(-WORLD, b.min_lat, WORLD, b.max_lat);
            proof {
                let all = corner_box((-WORLD) as i64, b.min_lat, WORLD, b.max_lat);
                if self.near_land(all) {
                    let e = choose|e: BoxEntry| #[trigger] box_items(self.tree).contains(e) && e.bbox.meets(all);
                    let turns = (e.bbox.min_lon - b.min_lon) / TURN as int;
                    assert(e.bbox.within(WORLD as int));
                    assert(meets_turned(e.bbox, b, turns));
                }
                if self.near_land_around(b) {
                    let (e, turns) = choose|e: BoxEntry, turns: int| #[trigger]
                        box_items(self.tree).contains(e) && #[trigger] meets_turned(e.bbox, b, turns);
                    assert(e.bbox.within(WORLD as int));
                    assert(e.bbox.meets(all));
                }
            }
            return r;
        }
        let m: i64 = floor_div(b.min_lon as i128 + HALF_TURN as i128, TURN as i128) as i64;
        proof {
            vstd::arithmetic::div_mod::lemma_fundamental_div_mod(b.min_lon + HALF_TURN, TURN as int);
        }
        let low: i64 = b.min_lon - m * TURN;
        let high: i64 = b.max_lon - m * TURN;
        let mut k: i64 = -3;
        while k <= 2
            invariant
                self.wf(),
                b == corner_box(lon0, lat0, lon1, lat1),
                b.ordered(),
                -3 <= k <= 3,
                low == b.min_lon - m * TURN,
                high == b.max_lon - m * TURN,
                -HALF_TURN <= low < HALF_TURN,
                low <= high < low + TURN,
                forall|e: BoxEntry, j: int| #[trigger]
                    box_items(self.tree).contains(e) && -3 <= j < k ==> !#[trigger] meets_turned(
                        e.bbox,
                        b,
                        j - m,
                    ),
            decreases 3 - k,
        {
            let west = low + k * TURN;
            let east = high + k * TURN;
            let ghost there = corner_box(west, b.min_lat, east, b.max_lat);
            assert(west == b.min_lon + (k - m) * TURN && east == b.max_lon + (k - m) * TURN) by (nonlinear_arith)
                requires
                    west == low + k * TURN,
                    east == high + k * TURN,
                    low == b.min_lon - m * TURN,
                    high == b.max_lon - m * TURN,
            ;
            if self.overlaps_land(west, b.min_lat, east, b.max_lat) {
                proof {
                    let e = choose|e: BoxEntry| #[trigger]
                        box_items(self.tree).contains(e) && e.bbox.meets(there);
                    assert(meets_turned(e.bbox, b, k - m));
                }
                return true;
            }
            proof {
                assert forall|e: BoxEntry| #[trigger] box_items(self.tree).contains(e) implies !meets_turned(
                    e.bbox,
                    b,
                    k - m,
                ) by {
                    if meets_turned(e.bbox, b, k - m) {
                        assert(e.bbox.meets(there));
                    }
                }
            }
            k = k + 1;
        }
        proof {
            if self.near_land_around(b) {
                let (e, turns) = choose|e: BoxEntry, turns: int| #[trigger]
                    box_items(self.tree).contains(e) && #[trigger] meets_turned(e.bbox, b, turns);
                let j = turns + m;
                assert(b.min_lon + turns * TURN == low + j * TURN && b.max_lon + turns * TURN == high + j * TURN)
                    by (nonlinear_arith)
                    requires
                        low == b.min_lon - m * TURN,
                        high == b.max_lon - m * TURN,
                        j == turns + m,
                ;
                assert(e.bbox.within(WORLD as int));
                assert(-3 <= j < 3);
                assert(meets_turned(e.bbox, b, j - m));
            }
        }
        false
    }

    /// Whether a ring whose bounding box is at most `max_feature` across meets the box.
    pub fn has_island_feature(
        &self,
        min_lon: i64,
        min_lat: i64,
        max_lon: i64,
        max_lat: i64,
        max_feature: i64,
    ) -> (r: bool)
        ensures
            r == exists|e: BoxEntry|
                #![trigger box_items(self.tree).contains(e)]
                box_items(self.tree).contains(e) && e.bbox.meets(
                    corner_box(min_lon, min_lat, max_lon, max_lat),
                ) && box_span(e.bbox) <= max_feature,
    {
        let b = box_between(min_lon, min_lat, max_lon, max_lat);
        let found = boxes_meeting(&self.tree, b);
        let ghost items = box_items(self.tree);
        let mut i: usize = 0;
        while i < found.len()
            invariant
                i <= found.len(),
                items == box_items(self.tree),
                b == corner_box(min_lon, min_lat, max_lon, max_lat),
                found@.to_multiset() == meeting(items, b),
                forall|k: int| 0 <= k < i ==> box_span((#[trigger] found@[k]).bbox) > max_feature,
            decreases found.len() - i,
        {
            let e = found[i];
            let w: i128 = e.bbox.max_lon as i128 - e.bbox.min_lon as i128;
            let h: i128 = e.bbox.max_lat as i128 - e.bbox.min_lat as i128;
            if w <= max_feature as i128 && h <= max_feature as i128 {
                proof {
                    broadcast use vstd::seq_lib::group_to_multiset_ensures;
                    broadcast use vstd::multiset::group_multiset_axioms;
                    assert(found@.contains(e));
                    assert(meeting(items, b).count(e) > 0);
                    assert(items.contains(e));
                }
                return true;
            }
            i = i + 1;
        }
        proof {
            broadcast use vstd::seq_lib::group_to_multiset_ensures;
            broadcast use vstd::multiset::group_multiset_axioms;
            assert forall|e: BoxEntry| #[trigger] items.contains(e) && e.bbox.meets(b) implies box_span(
                e.bbox) > max_feature by {
                assert(meeting(items, b).count(e) > 0);
                assert(found@.contains(e));
            }
        }
        false
    }

    /// The exact land test.
    pub fn is_land_precise(&self, lon: i64, lat: i64) -> (r: bool)
        requires
            self.wf(),
            -WORLD <= lon <= WORLD,
            -WORLD <= lat <= WORLD,
        ensures
            r == self.land_precise(Point { lon, lat }),
    {
        let p = Point { lon, lat };
        let query = BBox { min_lon: p.lon, min_lat: p.lat, max_lon: p.lon, max_lat: p.lat };
        let found = boxes_meeting(&self.island_tree, query);
        let ghost rings = ring_views(self.island_rings@);
        let ghost entries = ring_entries(rings);
        proof {
            lemma_meeting_of_seq(entries, query, found@);
            assert(entries.no_duplicates());
            assert forall|i: int| 0 <= i < found.len() implies {
                &&& (#[trigger] found@[i]).id < rings.len()
                &&& found@[i] == entries[found@[i].id as int]
                &&& ring_box(rings[found@[i].id as int]).holds(p)
            } by {
                assert(found@.contains(found@[i]));
                let k = choose|k: int| 0 <= k < entries.len() && entries[k] == found@[i];
            }
        }
        if found.len() == 0 {
            proof {
                assert forall|i: int| 0 <= i < rings.len() implies !(#[trigger] ring_box(rings[i])).holds(p) by {
                    assert(entries.contains(entries[i]));
                    if ring_box(rings[i]).holds(p) {
                        assert(found@.contains(entries[i]));
                    }
                }
            }
            return self.is_land(p.lon, p.lat);
        }
        let mut inside = false;
        let ghost mut hits: Set<int> = Set::empty();
        let mut k: usize = 0;
        while k < found.len()
            invariant
                self.wf(),
                p.within(WORLD as int),
                rings == ring_views(self.island_rings@),
                k <= found.len(),
                found@.no_duplicates(),
                forall|i: int|
                    0 <= i < found.len() ==> {
                        &&& (#[trigger] found@[i]).id < rings.len()
                        &&& found@[i] == entries[found@[i].id as int]
                    },
                hits.finite(),
                inside == (hits.len() % 2 == 1),
                forall|r: int|
                    #[trigger] hits.contains(r) <==> exists|i: int|
                        0 <= i < k && (#[trigger] found@[i]).id == r && encloses(rings[r], p),
            decreases found.len() - k,
        {
            let id = found[k].id;
            let ring = &self.island_rings[id];
            assert(rings[id as int] == self.island_rings@[id as int]@);
            assert(on_map(ring@));
            let flips = ring_encloses(ring, p);
            proof {
                if flips {
                    if hits.contains(id as int) {
                        let i = choose|i: int|
                            0 <= i < k && (#[trigger] found@[i]).id == id && encloses(rings[id as int], p);
                        assert(found@[i] == found@[k as int]);
                        assert(false);
                    }
                    hits = hits.insert(id as int);
                }
                assert forall|r: int| #[trigger] hits.contains(r) <==> exists|i: int|
                    0 <= i < k + 1 && (#[trigger] found@[i]).id == r && encloses(rings[r], p) by {
                    if r == id && flips {
                        assert(found@[k as int].id == r);
                    }
                }
            }
            if flips {
                inside = !inside;
            }
            k = k + 1;
        }
        proof {
            assert(hits =~= enclosing(rings, p)) by {
                assert forall|r: int| hits.contains(r) <==> enclosing(rings, p).contains(r) by {
                    if enclosing(rings, p).contains(r) {
                        assert(entries.contains(entries[r]));
                        assert(found@.contains(entries[r]));
                        let i = choose|i: int| 0 <= i < found.len() && found@[i] == entries[r];
                        assert(found@[i].id == r);
                    }
                }
            }
            assert(ring_box(rings[found@[0].id as int]).holds(p));
        }
        inside
    }

    /// Nothing is counted.
    pub fn ring_count(&self) -> (r: usize)
        ensures
            r == 0,
    {
        0
    }

    /// Paints raster cells, given as row and column, as water.
    pub fn carve(&mut self, cells: &Vec<(usize, usize)>)
        requires
            old(self).wf(),
            forall|i: int| 0 <= i < cells.len() ==> (#[trigger] cells[i]).0 < RASTER_ROWS && cells[i].1
                < RASTER_COLS,
        ensures
            final(self).wf(),
            final(self).tree == old(self).tree,
            final(self).island_rings == old(self).island_rings,
            final(self).island_tree == old(self).island_tree,
            forall|row: int, col: int|
                0 <= row < RASTER_ROWS && 0 <= col < RASTER_COLS ==> #[trigger] bit(
                    final(self).raster@,
                    cell_bit(row, col),
                ) == (bit(old(self).raster@, cell_bit(row, col)) && !cells@.contains(
                    (row as usize, col as usize),
                )),
    {
        let ghost before = self.raster@;
        let mut i: usize = 0;
        while i < cells.len()
            invariant
                i <= cells.len(),
                self.wf(),
                self.tree == old(self).tree,
                self.island_rings == old(self).island_rings,
                self.island_tree == old(self).island_tree,
                forall|k: int|
                    0 <= k < cells.len() ==> (#[trigger] cells[k]).0 < RASTER_ROWS && cells[k].1
                        < RASTER_COLS,
                forall|row: int, col: int|
                    0 <= row < RASTER_ROWS && 0 <= col < RASTER_COLS ==> #[trigger] bit(
                        self.raster@,
                        cell_bit(row, col),
                    ) == (bit(before, cell_bit(row, col)) && !cells@.take(i as int).contains(
                        (row as usize, col as usize),
                    )),
            decreases cells.len() - i,
        {
            let (row, col) = cells[i];
            let ghost now = self.raster@;
            clear_bit(&mut self.raster, row * RASTER_COLS + col);
            proof {
                let shorter = cells@.take(i as int);
                let longer = cells@.take(i + 1);
                assert(longer =~= shorter.push((row, col)));
                assert forall|r: int, c: int| 0 <= r < RASTER_ROWS && 0 <= c < RASTER_COLS implies
                #[trigger] bit(self.raster@, cell_bit(r, c)) == (bit(before, cell_bit(r, c))
                    && !longer.contains((r as usize, c as usize))) by {
                    let x = (r as usize, c as usize);
                    assert(bit(now, cell_bit(r, c)) == (bit(before, cell_bit(r, c))
                        && !shorter.contains(x)));
                    assert(cell_bit(r, c) == row * RASTER_COLS + col <==> r == row && c == col);
                    if shorter.contains(x) {
                        let k = choose|k: int| 0 <= k < shorter.len() && shorter[k] == x;
                        assert(longer[k] == x);
                    }
                    if r == row && c == col {
                        assert(longer[i as int] == x);
                    } else if longer.contains(x) {
                        let k = choose|k: int| 0 <= k < longer.len() && longer[k] == x;
                        assert(shorter[k] == x);
                    }
                }
            }
            i = i + 1;
        }
        assert(cells@.take(cells.len() as int) =~= cells@);
    }
}

proof fn lemma_map_product(a: int, b: int)
    by (nonlinear_arith)
    requires
        -0x200_0000_0000 <= a <= 0x200_0000_0000,
        -0x200_0000_0000 <= b <= 0x200_0000_0000,
    ensures
        -0x4_0000_0000_0000_0000_0000 <= a * b <= 0x4_0000_0000_0000_0000_0000,
{
}

fn ring_encloses(ring: &Ring, p: Point) -> (r: bool)
    requires
        on_map(ring@),
        ring.len() >= 3,
        p.within(WORLD as int),
    ensures
        r == encloses(ring@, p),
{
    let n = ring.len();
    let mut inside = false;
    let mut i: usize = 0;
    while i < n
        invariant
            n == ring.len(),
            n >= 3,
            i <= n,
            on_map(ring@),
            p.within(WORLD as int),
            inside == (ray_crossings(ring@, p, i as int) % 2 == 1),
        decreases n - i,
    {
        let a = ring[i];
        let b = if i == 0 {
            ring[n - 1]
        } else {
            ring[i - 1]
        };
        assert(a.within(WORLD as int));
        assert(ring@[n - 1].within(WORLD as int));
        assert(i > 0 ==> ring@[i - 1].within(WORLD as int));
        if (a.lat > p.lat) != (b.lat > p.lat) {
            let x: i128 = (p.lon - a.lon) as i128;
            let rise: i128 = (b.lat - a.lat) as i128;
            let run: i128 = (b.lon - a.lon) as i128;
            let y: i128 = (p.lat - a.lat) as i128;
            proof {
                lemma_map_product(x as int, rise as int);
                lemma_map_product(run as int, y as int);
            }
            if (b.lat > a.lat && x * rise < run * y) || (b.lat <= a.lat && x * rise > run * y) {
                inside = !inside;
            }
        }
        i = i + 1;
    }
    inside
}

/// The exact test finds what lies on one island: a position that one of the rings kept encloses,
/// and no other does, is land, whatever the raster shows.
pub proof fn lemma_precise_near_islands(c: LandClassifier, p: Point, i: int)
    requires
        0 <= i < c.island_rings.len(),
        forall|k: int| 0 <= k < c.island_rings.len() ==> (#[trigger] c.island_rings[k]).len() >= 1,
        encloses(c.island_rings[i]@, p),
        forall|k: int|
            0 <= k < c.island_rings.len() && k != i ==> !encloses((#[trigger] c.island_rings[k])@, p),
    ensures
        c.land_precise(p),
{
    let rings = ring_views(c.island_rings@);
    assert(rings[i] == c.island_rings[i]@);
    lemma_encloses_in_box(rings[i], p);
    assert(ring_box(rings[i]).holds(p));
    assert(enclosing(rings, p) =~= set![i]) by {
        assert forall|k: int| enclosing(rings, p).contains(k) implies k == i by {
            assert(rings[k] == c.island_rings[k]@);
        }
    }
}

/// The islands whose geometry is kept for the exact test are the polygons whose outer ring is not
/// wider or higher than three degrees.
pub proof fn lemma_islands_are_small(polygon: Seq<Seq<Point>>)
    requires
        polygon.len() > 0,
        polygon[0].len() >= 3,
        ({
            let b = ring_box(polygon[0]);
            b.max_lon - b.min_lon <= 3 * DEGREE && b.max_lat - b.min_lat <= 3 * DEGREE
        }),
    ensures
        chosen_rings(polygon, true) == proper_rings(polygon),
        chosen_rings(polygon, false) == proper_rings(polygon),
{
}

/// The geometry of a polygon that is wider or higher than three degrees is not kept.
pub proof fn lemma_mainland_is_left_out(polygon: Seq<Seq<Point>>)
    requires
        polygon.len() > 0,
        ({
            let b = ring_box(polygon[0]);
            b.max_lon - b.min_lon > 3 * DEGREE || b.max_lat - b.min_lat > 3 * DEGREE
        }),
    ensures
        chosen_rings(polygon, true) == Seq::<Seq<Point>>::empty(),
        chosen_rings(polygon, false) == proper_rings(polygon),
{
}

/// All rings of a polygon with three points or more are taken, its holes too, and no others.
pub proof fn lemma_rings_are_taken(rings: Seq<Seq<Point>>, ring: Seq<Point>)
    ensures
        proper_rings(rings).contains(ring) <==> rings.contains(ring) && ring.len() >= 3,
    decreases rings.len(),
{
    let taken = proper_rings(rings);
    if rings.len() > 0 {
        let less = rings.drop_last();
        let before = proper_rings(less);
        lemma_rings_are_taken(less, ring);
        if less.contains(ring) {
            let k = choose|k: int| 0 <= k < less.len() && less[k] == ring;
            assert(rings[k] == ring);
        }
        if rings.contains(ring) && ring != rings.last() {
            let k = choose|k: int| 0 <= k < rings.len() && rings[k] == ring;
            assert(less[k] == ring);
        }
        if before.contains(ring) {
            let k = choose|k: int| 0 <= k < before.len() && before[k] == ring;
            assert(taken[k] == ring);
        }
        if ring == rings.last() {
            assert(rings[rings.len() - 1] == ring);
            if ring.len() >= 3 {
                assert(taken[before.len() as int] == ring);
            }
        }
        if taken.contains(ring) {
            let k = choose|k: int| 0 <= k < taken.len() && taken[k] == ring;
            if k < before.len() {
                assert(before[k] == ring);
            }
        }
    }
}

/// A hole in an island is water: a position that two of the rings kept enclose, and no other
/// does, is not land.
pub proof fn lemma_hole_is_water(c: LandClassifier, p: Point, i: int, j: int)
    requires
        0 <= i < c.island_rings.len(),
        0 <= j < c.island_rings.len(),
        i != j,
        encloses(c.island_rings[i]@, p),
        encloses(c.island_rings[j]@, p),
        forall|k: int|
            0 <= k < c.island_rings.len() && k != i && k != j ==> !encloses((#[trigger] c.island_rings[k])@, p),
    ensures
        !c.land_precise(p),
{
    let rings = ring_views(c.island_rings@);
    assert(rings[i] == c.island_rings[i]@ && rings[j] == c.island_rings[j]@);
    lemma_encloses_in_box(rings[i], p);
    lemma_encloses_in_box(rings[j], p);
    assert(ring_box(rings[i]).holds(p));
    assert(enclosing(rings, p) =~= set![i, j]) by {
        assert forall|k: int| enclosing(rings, p).contains(k) implies k == i || k == j by {
            assert(rings[k] == c.island_rings[k]@);
        }
    }
    assert(set![i, j].len() == 2);
}

/// Close to an island but off it there is water, whatever the raster shows: a position in the
/// bounding box of a ring kept that none of them encloses is not land.
pub proof fn lemma_off_the_island_is_water(c: LandClassifier, p: Point, i: int)
    requires
        0 <= i < c.island_rings.len(),
        ring_box(c.island_rings[i]@).holds(p),
        forall|k: int| 0 <= k < c.island_rings.len() ==> !encloses((#[trigger] c.island_rings[k])@, p),
    ensures
        !c.land_precise(p),
{
    let rings = ring_views(c.island_rings@);
    assert(rings[i] == c.island_rings[i]@);
    assert(ring_box(rings[i]).holds(p));
    assert(enclosing(rings, p) =~= Set::empty()) by {
        assert forall|k: int| !enclosing(rings, p).contains(k) by {
            if 0 <= k < rings.len() {
                assert(rings[k] == c.island_rings[k]@);
            }
        }
    }
}

/// Away from islands the exact test is that of the raster.
pub proof fn lemma_far_from_islands_is_raster(c: LandClassifier, p: Point)
    requires
        forall|k: int| 0 <= k < c.island_rings.len() ==> !ring_box((#[trigger] c.island_rings[k])@).holds(p),
    ensures
        c.land_precise(p) == c.land(p.lon as int, p.lat as int),
{
    let rings = ring_views(c.island_rings@);
    assert forall|i: int| 0 <= i < rings.len() implies !(#[trigger] ring_box(rings[i])).holds(p) by {
        assert(rings[i] == c.island_rings[i]@);
    }
}

/// The box of a ring holds all of its points, and each of its sides has one of them on it.
pub proof fn lemma_ring_box_is_tight(ring: Seq<Point>, n: int)
    requires
        1 <= n <= ring.len(),
    ensures
        forall|i: int| 0 <= i < n ==> points_box(ring, n).holds(#[trigger] ring[i]),
        exists|i: int| 0 <= i < n && (#[trigger] ring[i]).lon == points_box(ring, n).min_lon,
        exists|i: int| 0 <= i < n && (#[trigger] ring[i]).lon == points_box(ring, n).max_lon,
        exists|i: int| 0 <= i < n && (#[trigger] ring[i]).lat == points_box(ring, n).min_lat,
        exists|i: int| 0 <= i < n && (#[trigger] ring[i]).lat == points_box(ring, n).max_lat,
    decreases n,
{
    lemma_points_box(ring, n);
    assert(ring[n - 1] == ring[n - 1]);
    if n > 1 {
        lemma_ring_box_is_tight(ring, n - 1);
        let b = points_box(ring, n - 1);
        let w = choose|i: int| 0 <= i < n - 1 && (#[trigger] ring[i]).lon == b.min_lon;
        let e = choose|i: int| 0 <= i < n - 1 && (#[trigger] ring[i]).lon == b.max_lon;
        let s = choose|i: int| 0 <= i < n - 1 && (#[trigger] ring[i]).lat == b.min_lat;
        let t = choose|i: int| 0 <= i < n - 1 && (#[trigger] ring[i]).lat == b.max_lat;
        assert(ring[w].lon == b.min_lon && ring[e].lon == b.max_lon && ring[s].lat == b.min_lat && ring[t].lat
            == b.max_lat);
    }
}

proof fn lemma_polygon_rings(polygons: Seq<Vec<Ring>>, k: int, ring: Seq<Point>)
    requires
        0 <= k < polygons.len(),
        ring_views(polygons[k]@).contains(ring),
        ring.len() >= 3,
    ensures
        polygon_rings(polygons, false).contains(ring),
    decreases polygons.len(),
{
    let less = polygons.drop_last();
    let before = polygon_rings(less, false);
    let new = chosen_rings(ring_views(polygons.last()@), false);
    let all = polygon_rings(polygons, false);
    if k == polygons.len() - 1 {
        lemma_rings_are_taken(ring_views(polygons.last()@), ring);
        let i = choose|i: int| 0 <= i < new.len() && new[i] == ring;
        assert(all[before.len() + i] == ring);
    } else {
        assert(less[k] == polygons[k]);
        lemma_polygon_rings(less, k, ring);
        let i = choose|i: int| 0 <= i < before.len() && before[i] == ring;
        assert(all[i] == ring);
    }
}

/// No land is left out: every ring of three points or more of every polygon of every feature is taken.
pub proof fn lemma_every_ring_is_land(features: Seq<Geometry>, f: int, k: int, ring: Seq<Point>)
    requires
        0 <= f < features.len(),
        match features[f] {
            Geometry::Polygon { coordinates } => ring_views(coordinates@).contains(ring),
            Geometry::MultiPolygon { coordinates } => 0 <= k < coordinates.len() && ring_views(
                coordinates[k]@,
            ).contains(ring),
        },
        ring.len() >= 3,
    ensures
        feature_rings(features, false).contains(ring),
    decreases features.len(),
{
    let less = features.drop_last();
    let before = feature_rings(less, false);
    let new = geometry_rings(features.last(), false);
    let all = feature_rings(features, false);
    if f == features.len() - 1 {
        match features[f] {
            Geometry::Polygon { coordinates } => {
                lemma_rings_are_taken(ring_views(coordinates@), ring);
            },
            Geometry::MultiPolygon { coordinates } => {
                lemma_polygon_rings(coordinates@, k, ring);
            },
        }
        let i = choose|i: int| 0 <= i < new.len() && new[i] == ring;
        assert(all[before.len() + i] == ring);
    } else {
        assert(less[f] == features[f]);
        lemma_every_ring_is_land(less, f, k, ring);
        let i = choose|i: int| 0 <= i < before.len() && before[i] == ring;
        assert(all[i] == ring);
    }
}

} // verus!
