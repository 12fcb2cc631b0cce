//! The port audit: how well each port is attached to the graph.
use vstd::multiset::Multiset;
use vstd::prelude::*;

use crate::channels::{cosine, is_cosine, scale, PORT_BOUND};
use crate::geo::{dist2, floor_div, is_measure, measure, measured, Point, DEGREE, KM, WORLD};
use crate::graph::{lemma_first_snap, lemma_snaps_to_main, Graph, RawGraph};
use crate::land::LandClassifier;
use crate::router::{connects, snap_to_water, snapped};
use crate::spatial::{
    is_nearest, lemma_node_items_of_seq, nearest_node, node_items, NodeEntry, NodeIndex,
};
use crate::text::{
    append_angle, four_decimals, is_text_before, lemma_angle_marks, lemma_text_chain,
    lemma_text_total, text_before,
};

verus! {

/// One port of the itinerary database.
pub struct Port {
    pub name: String,
    pub country: String,
    pub lat: i64,
    pub lon: i64,
    /// Itinerary days that call at this port, by which findings are ranked.
    pub days: u32,
}

impl Port {
    pub open spec fn at(&self) -> Point {
        Point { lon: self.lon, lat: self.lat }
    }

    /// Where the port lies.
    pub fn position(&self) -> (p: Point)
        ensures
            p == self.at(),
    {
        Point { lon: self.lon, lat: self.lat }
    }
}

/// How a port is attached to the graph. Lengths are in micrometres.
pub struct SnapReport {
    pub name: String,
    pub country: String,
    pub lat: i64,
    pub lon: i64,
    pub days: u32,
    /// Distance from the port to the graph node its routes start from.
    pub snap: u64,
    pub snap_lon: i64,
    pub snap_lat: i64,
    /// Whether the straight line to that node stays in water. Where it does not, the route
    /// starts at the node instead of the port.
    pub connector_clear: bool,
    /// Distance to the nearest node of any component, reachable or not; none if there is no
    /// node. Where this is far less than `snap`, the port lies on a water body that the
    /// router cannot reach.
    pub nearest_any: Option<u64>,
    /// Size of the component of that nearest node.
    pub nearest_any_comp_size: usize,
    /// Whether that node is in the component that routes run on.
    pub nearest_any_is_main: bool,
    /// Distance out to which the exact ring geometry shows water; none where there is no
    /// water anywhere near: a river berth above the coastline, which no graph resolution
    /// can fix.
    pub exact_water: Option<u64>,
}

/// How far out `scan_for_water` looks: 8 kilometres.
pub const WATER_SCAN_MAX: u64 = 8_000_000_000;

/// Radius of the rings that are scanned for water: 200 metres, then 1.35 times that of the
/// ring before.
pub open spec fn ring_radius(k: nat) -> int
    decreases k,
{
    if k == 0 {
        200_000_000
    } else {
        ring_radius((k - 1) as nat) * 27 / 20
    }
}

/// In how many places a ring is looked at: twelve for each kilometre of its radius, but 16
/// at least and 256 at most.
pub open spec fn ring_places(radius: int) -> int {
    let n = radius * 12 / 1_000_000_000;
    if n < 16 {
        16
    } else if n > 256 {
        256
    } else {
        n
    }
}

/// A function that gives cosine and sine, in billionths, of the angle that is the given part
/// of a turn: always, one answer only, and none beyond one.
pub open spec fn is_circle<T: Fn(u64, u64) -> (i64, i64)>(circle: T) -> bool {
    &&& forall|i: u64, n: u64| #[trigger] circle.requires((i, n))
    &&& forall|i: u64, n: u64, a: (i64, i64), b: (i64, i64)| #[trigger]
        circle.ensures((i, n), a) && #[trigger] circle.ensures((i, n), b) ==> a == b
    &&& forall|i: u64, n: u64, a: (i64, i64)| #[trigger]
        circle.ensures((i, n), a) ==> -1_000_000_000 <= a.0 <= 1_000_000_000 && -1_000_000_000 <= a.1
            <= 1_000_000_000
}

/// What such a function answers.
pub open spec fn circle_at<T: Fn(u64, u64) -> (i64, i64)>(circle: T, i: u64, n: u64) -> (i64, i64) {
    choose|a: (i64, i64)| #[trigger] circle.ensures((i, n), a)
}

/// The place on a ring around `p` that lies in a direction. A degree of latitude has 111
/// kilometres, one of longitude as much less as the scale says.
pub open spec fn ring_place(p: Point, scale: int, radius: int, dir: (i64, i64)) -> Point {
    Point {
        lon: (p.lon + (radius * dir.0 * 1_280_000_000) / (111_000_000_000 * scale)) as i64,
        lat: (p.lat + (radius * dir.1 * 1_280_000_000) / 111_000_000_000_000_000_000) as i64,
    }
}

/// The exact geometry shows water somewhere on the ring.
pub open spec fn ring_is_wet<T: Fn(u64, u64) -> (i64, i64)>(
    c: LandClassifier,
    scale: int,
    circle: T,
    p: Point,
    radius: int,
) -> bool {
    exists|i: u64|
        i < ring_places(radius) && !c.land_precise(
            ring_place(
                p,
                scale,
                radius,
                #[trigger] circle_at(circle, i, ring_places(radius) as u64),
            ),
        )
}

/// The answer of a scan: the radius of the first ring that is wet, none if all rings out to
/// the end of the scan are dry.
pub open spec fn is_scan<C: Fn(i64) -> u64, T: Fn(u64, u64) -> (i64, i64)>(
    c: LandClassifier,
    cos: C,
    circle: T,
    p: Point,
    r: Option<u64>,
) -> bool {
    let k = scale(cosine(cos, p.lat), 20_000_000);
    match r {
        None => forall|j: nat|
            #[trigger] ring_radius(j) <= WATER_SCAN_MAX ==> !ring_is_wet(c, k, circle, p, ring_radius(j)),
        Some(d) => exists|i: nat| {
            &&& #[trigger] ring_radius(i) == d
            &&& d <= WATER_SCAN_MAX
            &&& ring_is_wet(c, k, circle, p, d as int)
            &&& forall|j: nat| j < i ==> !ring_is_wet(c, k, circle, p, #[trigger] ring_radius(j))
        },
    }
}

proof fn lemma_radius_grows(j: nat, k: nat)
    requires
        j <= k,
    ensures
        200_000_000 <= ring_radius(j) <= ring_radius(k),
    decreases k,
{
    if k > 0 {
        if j < k {
            lemma_radius_grows(j, (k - 1) as nat);
        } else {
            lemma_radius_grows((k - 1) as nat, (k - 1) as nat);
        }
    }
}

proof fn lemma_ring_offset(radius: int, part: int, k: int)
    requires
        0 <= radius <= WATER_SCAN_MAX,
        -1_000_000_000 <= part <= 1_000_000_000,
        20_000_000 <= k,
    ensures
        -12_000_000_000_000_000_000_000_000_000 <= radius * part * 1_280_000_000
            <= 12_000_000_000_000_000_000_000_000_000,
        -6_000_000_000 <= (radius * part * 1_280_000_000) / (111_000_000_000 * k) <= 6_000_000_000,
{
    assert(-8_000_000_000_000_000_000 <= radius * part <= 8_000_000_000_000_000_000) by (nonlinear_arith)
        requires
            0 <= radius <= 8_000_000_000,
            -1_000_000_000 <= part <= 1_000_000_000,
    ;
    let n = radius * part * 1_280_000_000;
    let d = 111_000_000_000 * k;
    let q = n / d;
    let r = n % d;
    vstd::arithmetic::div_mod::lemma_fundamental_div_mod(n, d);
    assert(-6_000_000_000 <= q <= 6_000_000_000) by (nonlinear_arith)
        requires
            n == d * q + r,
            0 <= r < d,
            d >= 2_220_000_000_000_000_000,
            -12_000_000_000_000_000_000_000_000_000 <= n <= 12_000_000_000_000_000_000_000_000_000,
    ;
}

/// Whether the exact geometry shows water somewhere on the ring.
fn scan_ring<T: Fn(u64, u64) -> (i64, i64)>(
    classifier: &LandClassifier,
    p: Point,
    radius: u64,
    k: u64,
    circle: &T,
) -> (r: bool)
    requires
        classifier.wf(),
        p.within(PORT_BOUND as int),
        is_circle(*circle),
        radius <= WATER_SCAN_MAX,
        20_000_000 <= k,
    ensures
        r == ring_is_wet(*classifier, k as int, *circle, p, radius as int),
{
    let twelfths: u64 = radius * 12 / 1_000_000_000;
    let places: u64 = if twelfths < 16 {
        16
    } else if twelfths > 256 {
        256
    } else {
        twelfths
    };
    assert(places == ring_places(radius as int));
    let mut i: u64 = 0;
    while i < places
        invariant
            classifier.wf(),
            p.within(PORT_BOUND as int),
            is_circle(*circle),
            radius <= WATER_SCAN_MAX,
            20_000_000 <= k,
            places == ring_places(radius as int),
            i <= places,
            forall|j: u64|
                j < i ==> classifier.land_precise(
                    ring_place(p, k as int, radius as int, #[trigger] circle_at(*circle, j, places)),
                ),
        decreases places - i,
    {
        let dir = circle(i, places);
        assert(dir == circle_at(*circle, i, places));
        proof {
            lemma_ring_offset(radius as int, dir.0 as int, k as int);
            lemma_ring_offset(radius as int, dir.1 as int, 1_000_000_000);
            assert(radius * dir.0 == radius as i128 * dir.0 as i128);
        }
        let east = floor_div(
            radius as i128 * dir.0 as i128 * 1_280_000_000,
            111_000_000_000 * k as i128,
        ) as i64;
        let north = floor_div(
            radius as i128 * dir.1 as i128 * 1_280_000_000,
            111_000_000_000_000_000_000,
        ) as i64;
        assert(ring_place(p, k as int, radius as int, dir) == Point {
            lon: (p.lon + east) as i64,
            lat: (p.lat + north) as i64,
        });
        if !classifier.is_land_precise(p.lon + east, p.lat + north) {
            assert(circle_at(*circle, i, ring_places(radius as int) as u64) == dir);
            return true;
        }
        i = i + 1;
    }
    false
}

/// Distance to the nearest water that the exact ring geometry shows, by scanning rings of
/// increasing radius around the port. It does not ask the graph: it says whether there is
/// water here at all, not whether the quadtree found it.
pub fn scan_for_water<C: Fn(i64) -> u64, T: Fn(u64, u64) -> (i64, i64)>(
    classifier: &LandClassifier,
    p: Point,
    cos: &C,
    circle: &T,
) -> (r: Option<u64>)
    requires
        classifier.wf(),
        p.within(PORT_BOUND as int),
        is_cosine(*cos),
        is_circle(*circle),
    ensures
        is_scan(*classifier, *cos, *circle, p, r),
{
    let given = cos(p.lat);
    let k: u64 = if given >= 20_000_000 {
        given
    } else {
        20_000_000
    };
    let mut radius: u64 = 200_000_000;
    let ghost mut n: nat = 0;
    while radius <= WATER_SCAN_MAX
        invariant
            classifier.wf(),
            p.within(PORT_BOUND as int),
            is_circle(*circle),
            k == scale(cosine(*cos, p.lat), 20_000_000),
            radius == ring_radius(n),
            200_000_000 <= radius <= 20_000_000_000,
            forall|j: nat|
                j < n ==> !ring_is_wet(*classifier, k as int, *circle, p, #[trigger] ring_radius(j)),
        decreases 20_000_000_000 - radius,
    {
        if scan_ring(classifier, p, radius, k, circle) {
            return Some(radius);
        }
        radius = radius * 27 / 20;
        proof {
            n = n + 1;
            assert(ring_radius(n) == ring_radius((n - 1) as nat) * 27 / 20);
        }
    }
    proof {
        assert forall|j: nat| #[trigger] ring_radius(j) <= WATER_SCAN_MAX implies !ring_is_wet(
            *classifier,
            k as int,
            *circle,
            p,
            ring_radius(j),
        ) by {
            if j >= n {
                lemma_radius_grows(n, j);
            }
        }
    }
    None
}

/// What the report says of the nodes of all components: the distance of the nearest, the
/// size of its component, and whether that is the one that routes run on.
pub open spec fn is_nearest_any<D: Fn(Point, Point) -> u64>(
    graph: Graph,
    dist: D,
    items: Multiset<NodeEntry>,
    p: Point,
    found: (Option<u64>, usize, bool),
) -> bool {
    if items.len() == 0 {
        found == (None::<u64>, 0usize, false)
    } else {
        exists|e: NodeEntry| #[trigger]
            is_nearest(items, p, e) && {
                let comp = graph.component@[e.id as int];
                &&& found.0 == Some(measured(dist, p, e.at))
                &&& found.1 == if comp < graph.comp_sizes@.len() {
                    graph.comp_sizes@[comp as int]
                } else {
                    0
                }
                &&& found.2 == (comp == graph.main_comp)
            }
    }
}

/// The report is that of the port.
pub open spec fn is_report<C: Fn(i64) -> u64, T: Fn(u64, u64) -> (i64, i64), D: Fn(Point, Point) -> u64>(
    graph: Graph,
    c: LandClassifier,
    items: Multiset<NodeEntry>,
    cos: C,
    circle: T,
    dist: D,
    port: Port,
    r: SnapReport,
) -> bool {
    let s = snapped(graph, c, dist, port.at());
    &&& r.name@ == port.name@
    &&& r.country@ == port.country@
    &&& r.lat == port.lat
    &&& r.lon == port.lon
    &&& r.days == port.days
    &&& r.snap == measured(dist, port.at(), s.at)
    &&& r.snap_lon == s.at.lon
    &&& r.snap_lat == s.at.lat
    &&& r.connector_clear == s.connector_clear
    &&& is_nearest_any(
        graph,
        dist,
        items,
        port.at(),
        (r.nearest_any, r.nearest_any_comp_size, r.nearest_any_is_main),
    )
    &&& is_scan(c, cos, circle, port.at(), r.exact_water)
}

/// The entries of an index are nodes of the graph.
pub open spec fn indexes(graph: Graph, items: Multiset<NodeEntry>) -> bool {
    forall|e: NodeEntry| #[trigger]
        items.contains(e) ==> e.id < graph.node_count && e.at == graph.at(e.id as int)
}

/// The index of all nodes of a graph lists nodes of the graph.
pub proof fn lemma_full_index(graph: Graph, index: NodeIndex)
    requires
        graph.wf(),
        node_items(index) == graph.all_entries().to_multiset(),
    ensures
        indexes(graph, node_items(index)),
        node_items(index).len() == graph.node_count,
{
    lemma_node_items_of_seq(graph.all_entries());
    broadcast use vstd::seq_lib::group_to_multiset_ensures;

    assert forall|e: NodeEntry| #[trigger] node_items(index).contains(e) implies e.id < graph.node_count
        && e.at == graph.at(e.id as int) by {
        assert(graph.all_entries().contains(e));
    }
}

fn nearest_any<D: Fn(Point, Point) -> u64>(graph: &Graph, full_index: &NodeIndex, p: Point, dist: &D) -> (r: (
    Option<u64>,
    usize,
    bool,
))
    requires
        graph.wf(),
        indexes(*graph, node_items(*full_index)),
        p.within(WORLD as int),
        is_measure(*dist),
    ensures
        is_nearest_any(*graph, *dist, node_items(*full_index), p, r),
{
    proof {
        assert forall|e: NodeEntry| #[trigger] node_items(*full_index).contains(e) implies e.at.within(
            WORLD as int) by {
            assert(graph.at(e.id as int).within(WORLD as int));
        }
    }
    match nearest_node(full_index, p) {
        Some(e) => {
            let comp = graph.component[e.id as usize];
            let size: usize = if (comp as usize) < graph.comp_sizes.len() {
                graph.comp_sizes[comp as usize]
            } else {
                0
            };
            (Some(measure(dist, p, e.at)), size, comp == graph.main_comp)
        },
        None => (None, 0, false),
    }
}

/// Reports how each port is attached to the graph. The index lists nodes of all components.
pub fn snap_ports<C: Fn(i64) -> u64, T: Fn(u64, u64) -> (i64, i64), D: Fn(Point, Point) -> u64>(
    graph: &Graph,
    classifier: &LandClassifier,
    ports: &Vec<Port>,
    full_index: &NodeIndex,
    cos: &C,
    circle: &T,
    dist: &D,
) -> (reports: Vec<SnapReport>)
    requires
        graph.wf(),
        graph.node_count > 0,
        classifier.wf(),
        indexes(*graph, node_items(*full_index)),
        forall|i: int| 0 <= i < ports.len() ==> (#[trigger] ports[i]).at().within(PORT_BOUND as int),
        is_cosine(*cos),
        is_circle(*circle),
        is_measure(*dist),
    ensures
        reports.len() == ports.len(),
        forall|i: int|
            0 <= i < ports.len() ==> is_report(
                *graph,
                *classifier,
                node_items(*full_index),
                *cos,
                *circle,
                *dist,
                ports[i],
                #[trigger] reports[i],
            ),
{
    let mut reports: Vec<SnapReport> = Vec::new();
    let mut i: usize = 0;
    while i < ports.len()
        invariant
            graph.wf(),
            graph.node_count > 0,
            classifier.wf(),
            indexes(*graph, node_items(*full_index)),
            forall|k: int| 0 <= k < ports.len() ==> (#[trigger] ports[k]).at().within(PORT_BOUND as int),
            is_cosine(*cos),
            is_circle(*circle),
            is_measure(*dist),
            i <= ports.len(),
            reports.len() == i,
            forall|k: int|
                0 <= k < i ==> is_report(
                    *graph,
                    *classifier,
                    node_items(*full_index),
                    *cos,
                    *circle,
                    *dist,
                    ports[k],
                    #[trigger] reports[k],
                ),
        decreases ports.len() - i,
    {
        let port = &ports[i];
        let p = port.position();
        assert(ports[i as int].at().within(PORT_BOUND as int));
        let s = snap_to_water(graph, classifier, p, dist);
        let near = nearest_any(graph, full_index, p, dist);
        let report = SnapReport {
            name: port.name.clone(),
            country: port.country.clone(),
            lat: port.lat,
            lon: port.lon,
            days: port.days,
            snap: measure(dist, p, s.at),
            snap_lon: s.at.lon,
            snap_lat: s.at.lat,
            connector_clear: s.connector_clear,
            nearest_any: near.0,
            nearest_any_comp_size: near.1,
            nearest_any_is_main: near.2,
            exact_water: scan_for_water(classifier, p, cos, circle),
        };
        reports.push(report);
        i = i + 1;
    }
    reports
}

/// The whole, as a share: shares are counted in millionths.
pub const WHOLE: u64 = 1_000_000;

/// Position of the percentile in a list of `n` numbers: its share of the way from the first
/// to the last, rounded to the nearest, halves up.
pub open spec fn percentile_index(n: int, share: int) -> int {
    ((n - 1) * share + 500_000) / 1_000_000
}

proof fn lemma_percentile_index(n: int, share: int)
    requires
        1 <= n <= usize::MAX,
        0 <= share <= WHOLE,
    ensures
        0 <= (n - 1) * share <= 1_000_000 * (n - 1),
        0 <= percentile_index(n, share) < n,
{
    assert(0 <= (n - 1) * share <= 1_000_000 * (n - 1)) by (nonlinear_arith)
        requires
            1 <= n,
            0 <= share <= 1_000_000,
    ;
}

/// Percentile of a list of distances in ascending order; zero for an empty list.
pub fn percentile(sorted: &Vec<u64>, share: u64) -> (r: u64)
    requires
        share <= WHOLE,
    ensures
        r == if sorted.len() == 0 {
            0
        } else {
            sorted@[percentile_index(sorted.len() as int, share as int)]
        },
{
    if sorted.len() == 0 {
        return 0;
    }
    proof {
        lemma_percentile_index(sorted.len() as int, share as int);
    }
    let idx = ((sorted.len() - 1) as u128 * share as u128 + 500_000) / 1_000_000;
    sorted[idx as usize]
}

/// The percentile of a greater share is not less; that of nothing is the least number and
/// that of the whole the greatest.
pub proof fn lemma_percentiles(sorted: Seq<u64>, a: int, b: int)
    requires
        1 <= sorted.len() <= usize::MAX,
        forall|i: int, j: int| 0 <= i <= j < sorted.len() ==> sorted[i] <= sorted[j],
        0 <= a <= b <= WHOLE,
    ensures
        sorted[percentile_index(sorted.len() as int, a)] <= sorted[percentile_index(
            sorted.len() as int,
            b,
        )],
        percentile_index(sorted.len() as int, 0) == 0,
        percentile_index(sorted.len() as int, WHOLE as int) == sorted.len() - 1,
{
    let n = sorted.len() as int;
    lemma_percentile_index(n, a);
    lemma_percentile_index(n, b);
    assert((n - 1) * a <= (n - 1) * b) by (nonlinear_arith)
        requires
            1 <= n,
            a <= b,
    ;
    assert((n - 1) * 0 == 0);
    assert(percentile_index(n, a) <= percentile_index(n, b));
}

/// How a port was attached in a run known to be good. Ports are held against this.
pub struct Baseline {
    pub name: String,
    pub country: String,
    pub lat: i64,
    pub lon: i64,
    pub snap: u64,
    pub connector_clear: bool,
}

/// What identifies a port: name and country, and the coordinates with four decimals.
pub open spec fn key_text(name: Seq<char>, country: Seq<char>, lat: i64, lon: i64) -> Seq<char> {
    name + seq!['|'] + country + seq!['|'] + four_decimals(lat) + seq![','] + four_decimals(lon)
}

/// Stable identity of a port. Names alone are not unique: there are two Sydneys.
pub fn port_key(name: &str, country: &str, lat: i64, lon: i64) -> (r: String)
    ensures
        r@ == key_text(name@, country@, lat, lon),
{
    proof {
        reveal_strlit("|");
        reveal_strlit(",");
    }
    let mut key = name.to_string();
    key.append("|");
    key.append(country);
    key.append("|");
    append_angle(&mut key, lat);
    key.append(",");
    append_angle(&mut key, lon);
    assert("|"@ =~= seq!['|']);
    assert(","@ =~= seq![',']);
    assert(key@ =~= key_text(name@, country@, lat, lon));
    key
}

impl SnapReport {
    /// What identifies the port.
    pub fn key(&self) -> (r: String)
        ensures
            r@ == key_text(self.name@, self.country@, self.lat, self.lon),
    {
        port_key(self.name.as_str(), self.country.as_str(), self.lat, self.lon)
    }

    /// Name and country, for people.
    pub fn label(&self) -> (r: String)
        ensures
            r@ == self.name@ + seq![' ', '('] + self.country@ + seq![')'],
    {
        proof {
            reveal_strlit(" (");
            reveal_strlit(")");
        }
        let mut text = self.name.clone();
        text.append(" (");
        text.append(self.country.as_str());
        text.append(")");
        assert(" ("@ =~= seq![' ', '(']);
        assert(")"@ =~= seq![')']);
        assert(text@ =~= self.name@ + seq![' ', '('] + self.country@ + seq![')']);
        text
    }
}

impl Baseline {
    /// What identifies the port.
    pub fn key(&self) -> (r: String)
        ensures
            r@ == key_text(self.name@, self.country@, self.lat, self.lon),
    {
        port_key(self.name.as_str(), self.country.as_str(), self.lat, self.lon)
    }
}

proof fn lemma_split(a: Seq<char>, x: Seq<char>, b: Seq<char>, y: Seq<char>, mark: char)
    requires
        a + seq![mark] + x == b + seq![mark] + y,
        forall|i: int| 0 <= i < a.len() ==> a[i] != mark,
        forall|i: int| 0 <= i < b.len() ==> b[i] != mark,
    ensures
        a == b,
        x == y,
{
    let s = a + seq![mark] + x;
    let t = b + seq![mark] + y;
    if a.len() < b.len() {
        assert(s[a.len() as int] == mark);
        assert(t[a.len() as int] == b[a.len() as int]);
    } else if b.len() < a.len() {
        assert(t[b.len() as int] == mark);
        assert(s[b.len() as int] == a[b.len() as int]);
    }
    assert(s.take(a.len() as int) =~= a);
    assert(t.take(a.len() as int) =~= b);
    assert(s.skip(a.len() as int + 1) =~= x);
    assert(t.skip(a.len() as int + 1) =~= y);
}

/// A key identifies its port: ports with the same key have the same name and country, and
/// coordinates that read the same. Names and countries are written without bars.
pub proof fn lemma_key_identifies(
    name: Seq<char>,
    country: Seq<char>,
    lat: i64,
    lon: i64,
    name2: Seq<char>,
    country2: Seq<char>,
    lat2: i64,
    lon2: i64,
)
    requires
        !name.contains('|') && !name2.contains('|'),
        !country.contains('|') && !country2.contains('|'),
        key_text(name, country, lat, lon) == key_text(name2, country2, lat2, lon2),
    ensures
        name == name2,
        country == country2,
        four_decimals(lat) == four_decimals(lat2),
        four_decimals(lon) == four_decimals(lon2),
{
    let place = four_decimals(lat) + seq![','] + four_decimals(lon);
    let place2 = four_decimals(lat2) + seq![','] + four_decimals(lon2);
    let rest = country + seq!['|'] + place;
    let rest2 = country2 + seq!['|'] + place2;
    assert(key_text(name, country, lat, lon) =~= name + seq!['|'] + rest);
    assert(key_text(name2, country2, lat2, lon2) =~= name2 + seq!['|'] + rest2);
    assert forall|i: int| 0 <= i < name.len() implies name[i] != '|' by {
        assert(name.contains(name[i]));
    }
    assert forall|i: int| 0 <= i < name2.len() implies name2[i] != '|' by {
        assert(name2.contains(name2[i]));
    }
    lemma_split(name, rest, name2, rest2, '|');
    assert forall|i: int| 0 <= i < country.len() implies country[i] != '|' by {
        assert(country.contains(country[i]));
    }
    assert forall|i: int| 0 <= i < country2.len() implies country2[i] != '|' by {
        assert(country2.contains(country2[i]));
    }
    lemma_split(country, place, country2, place2, '|');
    assert forall|i: int| 0 <= i < four_decimals(lat).len() implies four_decimals(lat)[i] != ',' by {
        lemma_angle_marks(lat, i);
    }
    assert forall|i: int| 0 <= i < four_decimals(lat2).len() implies four_decimals(lat2)[i] != ',' by {
        lemma_angle_marks(lat2, i);
    }
    lemma_split(four_decimals(lat), four_decimals(lon), four_decimals(lat2), four_decimals(lon2), ',');
}

/// A distance rounded to ten metres, halves up.
pub open spec fn to_ten_metres(d: u64) -> int {
    (d + 5_000_000) / 10_000_000 * 10_000_000
}

/// The baseline freezes the report.
pub open spec fn freezes(b: Baseline, r: SnapReport) -> bool {
    &&& b.name@ == r.name@
    &&& b.country@ == r.country@
    &&& b.lat == r.lat
    &&& b.lon == r.lon
    &&& b.snap == to_ten_metres(r.snap)
    &&& b.connector_clear == r.connector_clear
}

/// The key of a report.
pub open spec fn report_key(r: SnapReport) -> Seq<char> {
    key_text(r.name@, r.country@, r.lat, r.lon)
}

/// Report `i` is listed before report `j`: its key comes first, or the keys are the same and
/// it came first.
#[verifier::opaque]
pub open spec fn listed_before(reports: Seq<SnapReport>, i: int, j: int) -> bool {
    ||| text_before(report_key(reports[i]), report_key(reports[j]))
    ||| report_key(reports[i]) == report_key(reports[j]) && i < j
}

/// `order` lists the first `n` reports by their keys.
pub open spec fn is_listing(reports: Seq<SnapReport>, order: Seq<int>, n: int) -> bool {
    &&& order.len() == n
    &&& forall|k: int| 0 <= k < n ==> 0 <= #[trigger] order[k] < n
    &&& forall|i: int| 0 <= i < n ==> order.contains(i)
    &&& forall|a: int, b: int| 0 <= a < b < n ==> listed_before(reports, #[trigger] order[a], #[trigger] order[b])
}

proof fn lemma_listed_chain(reports: Seq<SnapReport>, a: int, b: int, c: int)
    requires
        listed_before(reports, a, b),
        listed_before(reports, b, c),
    ensures
        listed_before(reports, a, c),
{
    reveal(listed_before);
    let x = report_key(reports[a]);
    let y = report_key(reports[b]);
    let z = report_key(reports[c]);
    if text_before(x, y) && text_before(y, z) {
        lemma_text_chain(x, y, z);
    }
}

/// Puts report `n` into the listing of the reports before it, at place `p`.
proof fn lemma_insert(reports: Seq<SnapReport>, order: Seq<int>, n: int, p: int)
    requires
        is_listing(reports, order, n),
        0 <= n,
        0 <= p <= n,
        p > 0 ==> listed_before(reports, order[p - 1], n),
        p < n ==> listed_before(reports, n, order[p]),
    ensures
        is_listing(reports, order.insert(p, n), n + 1),
{
    let next = order.insert(p, n);
    assert forall|i: int| 0 <= i < n + 1 implies next.contains(i) by {
        if i == n {
            assert(next[p] == n);
        } else {
            let k = choose|k: int| 0 <= k < order.len() && order[k] == i;
            assert(order.contains(i));
            if k < p {
                assert(next[k] == i);
            } else {
                assert(next[k + 1] == i);
            }
        }
    }
    assert forall|a: int, b: int| 0 <= a < b < n + 1 implies listed_before(
        reports,
        #[trigger] next[a],
        #[trigger] next[b],
    ) by {
        if b < p {
            assert(next[a] == order[a] && next[b] == order[b]);
        } else if b == p {
            assert(next[a] == order[a]);
            if a < p - 1 {
                assert(listed_before(reports, order[a], order[p - 1]));
                lemma_listed_chain(reports, order[a], order[p - 1], n);
            }
        } else {
            assert(next[b] == order[b - 1]);
            if a < p {
                assert(next[a] == order[a]);
            } else if a == p {
                if p < b - 1 {
                    assert(listed_before(reports, order[p], order[b - 1]));
                    lemma_listed_chain(reports, n, order[p], order[b - 1]);
                }
            } else {
                assert(next[a] == order[a - 1]);
            }
        }
    }
}

/// Freezes the reports as a baseline, listed by their keys.
pub fn to_baseline(reports: &Vec<SnapReport>) -> (b: Vec<Baseline>)
    requires
        forall|i: int| 0 <= i < reports.len() ==> to_ten_metres((#[trigger] reports[i]).snap) <= u64::MAX,
    ensures
        exists|order: Seq<int>| {
            &&& #[trigger] is_listing(reports@, order, reports.len() as int)
            &&& b.len() == reports.len()
            &&& forall|k: int| 0 <= k < b.len() ==> freezes(#[trigger] b[k], reports@[order[k]])
        },
{
    let mut keys: Vec<String> = Vec::new();
    let mut order: Vec<usize> = Vec::new();
    let ghost mut listing: Seq<int> = Seq::empty();
    let mut i: usize = 0;
    while i < reports.len()
        invariant
            i <= reports.len(),
            keys.len() == i,
            forall|k: int| 0 <= k < i ==> (#[trigger] keys[k])@ == report_key(reports@[k]),
            order.len() == i,
            listing.len() == i,
            forall|k: int| 0 <= k < i ==> #[trigger] order[k] == listing[k],
            is_listing(reports@, listing, i as int),
        decreases reports.len() - i,
    {
        let key = reports[i].key();
        let mut p: usize = i;
        let mut going: bool = true;
        while p > 0 && going
            invariant
                i < reports.len(),
                keys.len() == i,
                forall|k: int| 0 <= k < i ==> (#[trigger] keys[k])@ == report_key(reports@[k]),
                order.len() == i,
                listing.len() == i,
                forall|k: int| 0 <= k < i ==> #[trigger] order[k] == listing[k],
                is_listing(reports@, listing, i as int),
                key@ == report_key(reports@[i as int]),
                p <= i,
                p < i ==> listed_before(reports@, i as int, listing[p as int]),
                !going ==> p > 0 && listed_before(reports@, listing[p - 1], i as int),
            decreases p, if going {
                1int
            } else {
                0int
            },
        {
            let before = order[p - 1];
            assert(listing[p - 1] == before && before < i);
            proof {
                reveal(listed_before);
            }
            if is_text_before(key.as_str(), keys[before].as_str()) {
                p = p - 1;
            } else {
                proof {
                    lemma_text_total(key@, keys[before as int]@);
                }
                going = false;
            }
        }
        proof {
            lemma_insert(reports@, listing, i as int, p as int);
            listing = listing.insert(p as int, i as int);
        }
        order.insert(p, i);
        keys.push(key);
        i = i + 1;
    }
    let mut b: Vec<Baseline> = Vec::new();
    let mut k: usize = 0;
    while k < order.len()
        invariant
            forall|j: int| 0 <= j < reports.len() ==> to_ten_metres((#[trigger] reports[j]).snap) <= u64::MAX,
            order.len() == reports.len(),
            listing.len() == reports.len(),
            forall|j: int| 0 <= j < order.len() ==> #[trigger] order[j] == listing[j],
            is_listing(reports@, listing, reports.len() as int),
            k <= order.len(),
            b.len() == k,
            forall|j: int| 0 <= j < k ==> freezes(#[trigger] b[j], reports@[listing[j]]),
        decreases order.len() - k,
    {
        let at = order[k];
        assert(listing[k as int] == at && at < reports.len());
        let r = &reports[at];
        assert(to_ten_metres(reports[at as int].snap) <= u64::MAX);
        let frozen = Baseline {
            name: r.name.clone(),
            country: r.country.clone(),
            lat: r.lat,
            lon: r.lon,
            snap: ((r.snap as u128 + 5_000_000) / 10_000_000 * 10_000_000) as u64,
            connector_clear: r.connector_clear,
        };
        b.push(frozen);
        k = k + 1;
    }
    assert(is_listing(reports@, listing, reports.len() as int));
    b
}

/// A ring that is scanned is 1.35 times as wide as the one before, but for rounding, and the first
/// is 200 metres wide: no width is passed over by more than that.
pub proof fn lemma_rings_are_close(k: nat)
    ensures
        5 * ring_radius(0) == KM,
        20 * ring_radius(k + 1) <= 27 * ring_radius(k) < 20 * ring_radius(k + 1) + 20,
{
    assert(ring_radius(((k + 1) - 1) as nat) == ring_radius(k));
}

/// A ring is looked at in sixteen places or more, and in twelve for each kilometre of its width, up
/// to the end of the scan.
pub proof fn lemma_places_are_close(radius: int)
    requires
        0 <= radius <= 8 * KM,
    ensures
        ring_places(radius) >= 16,
        ring_places(radius) * KM > 12 * radius - KM,
        ring_places(radius) == 16 || ring_places(radius) * KM <= 12 * radius,
{
}

/// A scan that finds water finds it on a ring between 200 metres and eight kilometres wide, and none
/// of the narrower rings has any; one that finds none has looked at all rings out to eight.
pub proof fn lemma_scan_bounds<C: Fn(i64) -> u64, T: Fn(u64, u64) -> (i64, i64)>(
    c: LandClassifier,
    cos: C,
    circle: T,
    p: Point,
    r: Option<u64>,
    j: nat,
)
    requires
        is_scan(c, cos, circle, p, r),
    ensures
        r matches Some(d) ==> KM <= 5 * d <= 40 * KM,
        ({
            let k = cosine(cos, p.lat);
            let k = if k >= 20_000_000 {
                k as int
            } else {
                20_000_000
            };
            &&& r matches Some(d) ==> ring_is_wet(c, k, circle, p, d as int)
            &&& r matches Some(d) ==> ring_radius(j) < d ==> !ring_is_wet(c, k, circle, p, ring_radius(j))
            &&& r is None && ring_radius(j) <= 8 * KM ==> !ring_is_wet(c, k, circle, p, ring_radius(j))
        }),
{
    if let Some(d) = r {
        let k = scale(cosine(cos, p.lat), 20_000_000);
        let i = choose|i: nat| {
            &&& #[trigger] ring_radius(i) == d
            &&& d <= WATER_SCAN_MAX
            &&& ring_is_wet(c, k, circle, p, d as int)
            &&& forall|j: nat| j < i ==> !ring_is_wet(c, k, circle, p, #[trigger] ring_radius(j))
        };
        lemma_radius_grows(0, i);
        if j >= i {
            lemma_radius_grows(i, j);
        }
    }
}

/// A place on a ring lies as far from the middle as the ring is wide, in the given direction: a
/// degree of latitude has 111 kilometres, one of longitude as much less as the scale says. Both
/// coordinates are rounded down.
pub proof fn lemma_place_is_on_ring(p: Point, k: int, radius: int, dir: (i64, i64))
    requires
        p.within(PORT_BOUND as int),
        0 <= radius <= 8 * KM,
        20_000_000 <= k,
        -1_000_000_000 <= dir.0 <= 1_000_000_000,
        -1_000_000_000 <= dir.1 <= 1_000_000_000,
    ensures
        ({
            let q = ring_place(p, k, radius, dir);
            &&& 111 * KM * k * (q.lon - p.lon) <= radius * dir.0 * DEGREE < 111 * KM * k * (q.lon - p.lon) + 111 * KM * k
            &&& 111 * KM * (1_000_000_000 * (q.lat - p.lat)) <= radius * dir.1 * DEGREE < 111 * KM * (1_000_000_000 * (
            q.lat - p.lat)) + 111 * KM * 1_000_000_000
        }),
{
    lemma_ring_offset(radius, dir.0 as int, k);
    lemma_ring_offset(radius, dir.1 as int, 1_000_000_000);
    let n = radius * dir.0 * 1_280_000_000;
    let d = 111_000_000_000 * k;
    vstd::arithmetic::div_mod::lemma_fundamental_div_mod(n, d);
    let q = ring_place(p, k, radius, dir);
    assert(q.lon - p.lon == n / d);
    assert(111 * KM * k == d) by (nonlinear_arith)
        requires
            d == 111_000_000_000 * k,
            KM == 1_000_000_000,
    ;
}

/// A percentile stands at its share of the way from the first to the last, to the nearest place.
pub proof fn lemma_percentile_is_nearest(n: int, share: int)
    requires
        1 <= n <= usize::MAX,
        0 <= share <= WHOLE,
    ensures
        -500_000 <= 1_000_000 * percentile_index(n, share) - (n - 1) * share <= 500_000,
        0 <= percentile_index(n, share) < n,
{
    lemma_percentile_index(n, share);
}

/// A frozen distance is a multiple of ten metres, and not more than five metres off.
pub proof fn lemma_frozen_to_ten_metres(b: Baseline, r: SnapReport)
    requires
        freezes(b, r),
    ensures
        b.snap % 10_000_000 == 0,
        -5_000_000 <= b.snap - r.snap <= 5_000_000,
{
}

/// A port is reported at the node of the main component that is closest to it, and its connector as
/// clear if and only if a route from it would be drawn from the port itself.
pub proof fn lemma_report_names_the_closest<C: Fn(i64) -> u64, T: Fn(u64, u64) -> (i64, i64), D: Fn(Point, Point) -> u64>(
    graph: Graph,
    raw: RawGraph,
    c: LandClassifier,
    items: Multiset<NodeEntry>,
    cos: C,
    circle: T,
    dist: D,
    port: Port,
    r: SnapReport,
    v: int,
)
    requires
        is_report(graph, c, items, cos, circle, dist, port, r),
        graph.wf(),
        graph.is_of(raw),
        node_items(graph.spatial).len() > 0,
        0 <= v < graph.node_count,
        graph.component@[v] == graph.main_comp,
    ensures
        ({
            let at = Point { lon: r.snap_lon, lat: r.snap_lat };
            &&& dist2(at, port.at()) <= dist2(graph.at(v), port.at())
            &&& r.snap == measured(dist, port.at(), at)
            &&& r.connector_clear == connects(c, dist, port.at(), at)
        }),
{
    let id = graph.first_snap(port.at());
    lemma_first_snap(graph, port.at());
    lemma_snaps_to_main(graph, raw, port.at(), id);
    let s = snapped(graph, c, dist, port.at());
    assert(Point { lon: r.snap_lon, lat: r.snap_lat } == s.at);
}

/// A ring is looked at all the way round: it is wet if and only if one of its places, equal parts of a
/// turn apart, is water by the exact geometry.
pub proof fn lemma_ring_is_looked_at_all_round<T: Fn(u64, u64) -> (i64, i64)>(
    c: LandClassifier,
    k: int,
    circle: T,
    p: Point,
    radius: int,
    i: u64,
)
    requires
        0 <= radius <= 8 * KM,
    ensures
        i < ring_places(radius) && !c.land_precise(
            ring_place(p, k, radius, circle_at(circle, i, ring_places(radius) as u64)),
        ) ==> ring_is_wet(c, k, circle, p, radius),
        !ring_is_wet(c, k, circle, p, radius) && i < ring_places(radius) ==> c.land_precise(
            ring_place(p, k, radius, circle_at(circle, i, ring_places(radius) as u64)),
        ),
{
}

} // verus!
