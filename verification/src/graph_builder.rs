//! Building the routing graph from the water leaves of the quadtree.
use vstd::prelude::*;

use crate::generate::WaterLeaf;
use crate::geo::{
    dist2, is_measure, measure, measured, BBox, Point, DEGREE, DRAWN, HALF_TURN, TURN, WORLD,
};
use crate::land::LandClassifier;
use crate::sampling::{
    band_crosses_land, band_hits_land, clear_of_land, line_length, map_length, sideways,
    stays_clear, step_sideways,
};
use crate::reconnect::{links_within, reconnect_islands, reconnected};
use crate::canals::{canal_charts, canals, CanalPassage};
use crate::spatial::{
    are_nearest, box_items, boxes_meeting, lemma_meeting_of_seq, lemma_node_items_of_seq,
    load_boxes, load_nodes, nearest_nodes, node_items, BoxEntry, BoxIndex, NodeEntry, NodeIndex,
};

verus! {

/// A node of the graph: the middle of a water leaf, a port, or a waypoint of a canal.
#[derive(Clone, Copy, PartialEq, Eq, Structural, Debug)]
pub struct GNode {
    pub lon: i64,
    pub lat: i64,
    pub depth: u8,
}

impl GNode {
    pub open spec fn at(self) -> Point {
        Point { lon: self.lon, lat: self.lat }
    }

    pub fn point(&self) -> (p: Point)
        ensures
            p == self.at(),
    {
        Point { lon: self.lon, lat: self.lat }
    }
}

impl WaterLeaf {
    pub open spec fn bbox(self) -> BBox {
        BBox {
            min_lon: self.min_lon,
            min_lat: self.min_lat,
            max_lon: self.max_lon,
            max_lat: self.max_lat,
        }
    }

    /// The leaf is a box on the map.
    pub open spec fn wf(self) -> bool {
        self.bbox().ordered() && self.bbox().within(WORLD as int)
    }

    /// The node in the middle of the leaf.
    pub open spec fn centre(self) -> GNode {
        GNode {
            lon: ((self.min_lon + self.max_lon) / 2) as i64,
            lat: ((self.min_lat + self.max_lat) / 2) as i64,
            depth: self.depth,
        }
    }
}

/// The leaves touch at an edge or a corner: their boxes share a point, and their middles
/// differ.
pub open spec fn touching(a: WaterLeaf, b: WaterLeaf) -> bool {
    &&& a.bbox().meets(b.bbox())
    &&& a.min_lon + a.max_lon != b.min_lon + b.max_lon || a.min_lat + a.max_lat != b.min_lat + b.max_lat
}

/// It does not matter which of two leaves is asked for its neighbours.
pub proof fn lemma_touching_both_ways(a: WaterLeaf, b: WaterLeaf)
    ensures
        touching(a, b) == touching(b, a),
{
}

/// Whether two cells are adjacent: they touch at their edges or corners.
pub fn cells_adjacent(a: &WaterLeaf, b: &WaterLeaf) -> (r: bool)
    ensures
        r == touching(*a, *b),
{
    let dx: i128 = (a.min_lon as i128 + a.max_lon as i128) - (b.min_lon as i128 + b.max_lon as i128);
    let dy: i128 = (a.min_lat as i128 + a.max_lat as i128) - (b.min_lat as i128 + b.max_lat as i128);
    a.max_lon >= b.min_lon && b.max_lon >= a.min_lon && a.max_lat >= b.min_lat && b.max_lat >= a.min_lat && (
    dx != 0 || dy != 0)
}

/// A kilometre, in angle units, at 111 to the degree.
pub const EDGE_KM: u64 = 11_531_532;

/// How many steps an edge is sampled in: one for each 500 metres, and three at least.
pub open spec fn edge_samples(len: int) -> int {
    let n = (222 * len + DEGREE - 1) / DEGREE as int;
    if n >= 3 {
        n
    } else {
        3
    }
}

/// The offset of the band of so many kilometres: the full width beside an edge of two
/// kilometres or more, and in proportion beside a shorter one.
pub open spec fn edge_offset(a: Point, b: Point, len: int, km: int) -> (int, int) {
    if 111 * len >= 2 * DEGREE {
        sideways(a, b, EDGE_KM * km, len)
    } else {
        ((-(b.lat - a.lat) * km) / 2, ((b.lon - a.lon) * km) / 2)
    }
}

/// The edge crosses land or runs too close to it: land lies on it, or beside it in the band at
/// one kilometre or in the one at two.
pub open spec fn hits_land(c: LandClassifier, a: Point, b: Point) -> bool {
    let len = map_length(a, b);
    let n = edge_samples(len);
    a != b && (band_hits_land(c, a, b, n, edge_offset(a, b, len, 1)) || band_hits_land(
        c,
        a,
        b,
        n,
        edge_offset(a, b, len, 2),
    ))
}

/// A step of so many kilometres to the side of an edge.
fn edge_step(a: Point, b: Point, len: u64, km: u64) -> (off: (i64, i64))
    requires
        a.within(DRAWN as int),
        b.within(DRAWN as int),
        0 < len <= 0x7fff_ffff_ffff_ffff,
        dist2(a, b) < (len + 1) * (len + 1),
        1 <= km <= 2,
    ensures
        (off.0 as int, off.1 as int) == edge_offset(a, b, len as int, km as int),
        -0x1_ffff_ffff <= off.0 <= 0x1_ffff_ffff,
        -0x1_ffff_ffff <= off.1 <= 0x1_ffff_ffff,
{
    if 111 * (len as u128) >= 2 * (DEGREE as u128) {
        step_sideways(a, b, EDGE_KM * km, len)
    } else {
        proof {
            lemma_short_leg(a, b, len as int);
        }
        let dlon: i128 = b.lon as i128 - a.lon as i128;
        let dlat: i128 = b.lat as i128 - a.lat as i128;
        proof {
            lemma_once_or_twice(-dlat as int, km as int);
            lemma_once_or_twice(dlon as int, km as int);
        }
        (
            crate::geo::floor_div((-dlat) * (km as i128), 2) as i64,
            crate::geo::floor_div(dlon * (km as i128), 2) as i64,
        )
    }
}

proof fn lemma_once_or_twice(d: int, km: int)
    by (nonlinear_arith)
    requires
        1 <= km <= 2,
    ensures
        d * km == d || d * km == 2 * d,
{
}

/// Whether an edge crosses or runs too close to land: it is sampled every 500 metres, with
/// bands at one and two kilometres beside it, so that an edge along a coast within two
/// kilometres is caught. For edges under two kilometres the bands are narrower, so that ports
/// stay accessible.
pub fn edge_crosses_land(lon1: i64, lat1: i64, lon2: i64, lat2: i64, classifier: &LandClassifier) -> (r: bool)
    requires
        classifier.wf(),
        -DRAWN <= lon1 <= DRAWN,
        -DRAWN <= lat1 <= DRAWN,
        -DRAWN <= lon2 <= DRAWN,
        -DRAWN <= lat2 <= DRAWN,
    ensures
        r == hits_land(
            *classifier,
            Point { lon: lon1, lat: lat1 },
            Point { lon: lon2, lat: lat2 },
        ),
{
    let a = Point { lon: lon1, lat: lat1 };
    let b = Point { lon: lon2, lat: lat2 };
    let len = line_length(a, b);
    if len == 0 {
        return false;
    }
    let fine: u64 = ((222 * (len as u128) + (DEGREE as u128 - 1)) / (DEGREE as u128)) as u64;
    let n: u64 = if fine >= 3 {
        fine
    } else {
        3
    };
    let inner = edge_step(a, b, len, 1);
    let outer = edge_step(a, b, len, 2);
    band_crosses_land(classifier, a, b, n, inner) || band_crosses_land(classifier, a, b, n, outer)
}

proof fn lemma_short_leg(a: Point, b: Point, len: int)
    requires
        dist2(a, b) < (len + 1) * (len + 1),
        0 <= len,
        111 * len < 2 * DEGREE,
    ensures
        -0x2000_0000 <= b.lon - a.lon <= 0x2000_0000,
        -0x2000_0000 <= b.lat - a.lat <= 0x2000_0000,
{
    let x = a.lon - b.lon;
    let y = a.lat - b.lat;
    assert(x * x + y * y < (len + 1) * (len + 1));
    assert(-len <= x <= len && -len <= y <= len) by (nonlinear_arith)
        requires
            x * x + y * y < (len + 1) * (len + 1),
            0 <= len,
    ;
}

/// Whether the straight segment from `a` to `b` stays in water, sampled every two
/// kilometres. Land within `shore_tol` of either end is ignored, for island and port
/// cells often lie on land in the raster.
pub fn segment_clear<D: Fn(Point, Point) -> u64>(
    classifier: &LandClassifier,
    a: Point,
    b: Point,
    shore_tol: u64,
    dist: &D,
) -> (r: bool)
    requires
        classifier.wf(),
        a.within(DRAWN as int),
        b.within(DRAWN as int),
        is_measure(*dist),
    ensures
        r == clear_of_land(*classifier, a, b, shore_tol as int, measured(*dist, a, b) as int),
{
    let total = measure(dist, a, b);
    stays_clear(classifier, a, b, shore_tol, total)
}

/// An undirected edge: the numbers of its two nodes, and its length.
pub type Link = (u32, u32, u64);

/// The leaves are boxes on the map, and a `u32` can number them.
pub open spec fn leaves_wf(leaves: Seq<WaterLeaf>) -> bool {
    &&& leaves.len() <= u32::MAX
    &&& forall|i: int| 0 <= i < leaves.len() ==> (#[trigger] leaves[i]).wf()
}

/// The nodes in the middle of the leaves.
pub open spec fn centres(leaves: Seq<WaterLeaf>) -> Seq<GNode> {
    leaves.map_values(|l: WaterLeaf| l.centre())
}

/// The box in which the neighbours of a leaf are looked for.
spec fn search_box(l: WaterLeaf) -> BBox {
    let w = (l.max_lon - l.min_lon) / 100;
    let eps = if w >= 128_000 {
        w
    } else {
        128_000
    };
    BBox {
        min_lon: (l.min_lon - eps) as i64,
        min_lat: (l.min_lat - eps) as i64,
        max_lon: (l.max_lon + eps) as i64,
        max_lat: (l.max_lat + eps) as i64,
    }
}

/// The link joins two touching leaves, the lesser number first, over water.
pub open spec fn is_adjacent_link<D: Fn(Point, Point) -> u64>(
    leaves: Seq<WaterLeaf>,
    c: LandClassifier,
    dist: D,
    l: Link,
) -> bool {
    let a = leaves[l.0 as int];
    let b = leaves[l.1 as int];
    &&& l.0 < l.1 < leaves.len()
    &&& touching(a, b)
    &&& !hits_land(c, a.centre().at(), b.centre().at())
    &&& l.2 == measured(dist, a.centre().at(), b.centre().at())
}

/// How close to 180 degrees a leaf must reach to lie on the seam: 0.000001 degrees.
pub const SEAM_GAP: i64 = 1_280;

/// The link joins a leaf at the eastern edge of the map to one at the western edge whose
/// latitudes overlap, over water.
pub open spec fn is_seam_link<D: Fn(Point, Point) -> u64>(
    leaves: Seq<WaterLeaf>,
    c: LandClassifier,
    dist: D,
    l: Link,
) -> bool {
    let e = leaves[l.0 as int];
    let w = leaves[l.1 as int];
    &&& l.0 < leaves.len()
    &&& l.1 < leaves.len()
    &&& e.max_lon >= HALF_TURN - SEAM_GAP
    &&& w.min_lon <= -HALF_TURN + SEAM_GAP
    &&& e.min_lat < w.max_lat
    &&& w.min_lat < e.max_lat
    &&& !hits_land(
        c,
        e.centre().at(),
        Point { lon: (w.centre().lon + TURN) as i64, lat: w.centre().lat },
    )
    &&& l.2 == measured(dist, e.centre().at(), w.centre().at())
}

/// `links` lists the links that meet the condition, each once.
pub open spec fn lists_links(links: Seq<Link>, wanted: spec_fn(Link) -> bool) -> bool {
    &&& links.no_duplicates()
    &&& forall|l: Link| #[trigger] links.contains(l) <==> wanted(l)
}

fn leaf_centres(leaves: &Vec<WaterLeaf>) -> (nodes: Vec<GNode>)
    requires
        leaves_wf(leaves@),
    ensures
        nodes@ == centres(leaves@),
        forall|i: int| 0 <= i < nodes.len() ==> (#[trigger] nodes[i]).at().within(WORLD as int),
{
    let mut nodes: Vec<GNode> = Vec::new();
    let mut i: usize = 0;
    while i < leaves.len()
        invariant
            i <= leaves.len(),
            leaves_wf(leaves@),
            nodes@ =~= centres(leaves@).take(i as int),
            forall|k: int| 0 <= k < nodes.len() ==> (#[trigger] nodes[k]).at().within(WORLD as int),
        decreases leaves.len() - i,
    {
        let l = &leaves[i];
        assert(leaves[i as int].wf());
        let lon: i64 = crate::geo::floor_div((l.min_lon + l.max_lon) as i128, 2) as i64;
        let lat: i64 = crate::geo::floor_div((l.min_lat + l.max_lat) as i128, 2) as i64;
        nodes.push(GNode { lon, lat, depth: l.depth });
        i = i + 1;
    }
    assert(nodes@ =~= centres(leaves@));
    nodes
}

/// The boxes of the leaves, by their numbers.
pub open spec fn leaf_entries(leaves: Seq<WaterLeaf>) -> Seq<BoxEntry> {
    Seq::new(leaves.len(), |i: int| BoxEntry { id: i as usize, bbox: leaves[i].bbox() })
}

fn index_leaves(leaves: &Vec<WaterLeaf>) -> (index: BoxIndex)
    requires
        leaves_wf(leaves@),
    ensures
        box_items(index) == leaf_entries(leaves@).to_multiset(),
{
    let mut entries: Vec<BoxEntry> = Vec::new();
    let mut i: usize = 0;
    while i < leaves.len()
        invariant
            i <= leaves.len(),
            leaves_wf(leaves@),
            entries@ =~= leaf_entries(leaves@).take(i as int),
            forall|k: int| 0 <= k < entries.len() ==> (#[trigger] entries[k]).bbox.ordered(),
        decreases leaves.len() - i,
    {
        let l = &leaves[i];
        assert(leaves[i as int].wf());
        entries.push(
            BoxEntry {
                id: i,
                bbox: BBox {
                    min_lon: l.min_lon,
                    min_lat: l.min_lat,
                    max_lon: l.max_lon,
                    max_lat: l.max_lat,
                },
            },
        );
        i = i + 1;
    }
    assert(entries@ =~= leaf_entries(leaves@));
    load_boxes(&entries)
}

proof fn lemma_push_link(links: Seq<Link>, l: Link)
    requires
        links.no_duplicates(),
        !links.contains(l),
    ensures
        links.push(l).no_duplicates(),
        forall|x: Link| #[trigger] links.push(l).contains(x) <==> links.contains(x) || x == l,
{
    let more = links.push(l);
    assert forall|x: Link| #[trigger] more.contains(x) <==> links.contains(x) || x == l by {
        if links.contains(x) {
            let k = choose|k: int| 0 <= k < links.len() && links[k] == x;
            assert(more[k] == x);
        }
        if x == l {
            assert(more[links.len() as int] == x);
        }
        if more.contains(x) {
            let k = choose|k: int| 0 <= k < more.len() && more[k] == x;
            if k < links.len() {
                assert(links[k] == x);
            }
        }
    }
    assert forall|i: int, j: int| 0 <= i < more.len() && 0 <= j < more.len() && i != j implies more[i]
        != more[j] by {
        if i < links.len() {
            assert(links.contains(links[i]));
        }
        if j < links.len() {
            assert(links.contains(links[j]));
        }
    }
}

/// The links between touching leaves.
pub fn adjacent_links<D: Fn(Point, Point) -> u64>(
    leaves: &Vec<WaterLeaf>,
    nodes: &Vec<GNode>,
    classifier: &LandClassifier,
    dist: &D,
) -> (links: Vec<Link>)
    requires
        classifier.wf(),
        leaves_wf(leaves@),
        nodes@ == centres(leaves@),
        is_measure(*dist),
    ensures
        lists_links(links@, |l: Link| is_adjacent_link(leaves@, *classifier, *dist, l)),
{
    let tree = index_leaves(leaves);
    let ghost entries = leaf_entries(leaves@);
    let mut links: Vec<Link> = Vec::new();
    let mut i: usize = 0;
    while i < leaves.len()
        invariant
            i <= leaves.len(),
            classifier.wf(),
            leaves_wf(leaves@),
            nodes@ == centres(leaves@),
            is_measure(*dist),
            entries == leaf_entries(leaves@),
            box_items(tree) == entries.to_multiset(),
            links@.no_duplicates(),
            forall|l: Link| #[trigger]
                links@.contains(l) <==> l.0 < i && is_adjacent_link(leaves@, *classifier, *dist, l),
        decreases leaves.len() - i,
    {
        let leaf = leaves[i];
        assert(leaves[i as int].wf());
        let w: i64 = (leaf.max_lon - leaf.min_lon) / 100;
        let eps: i64 = if w >= 128_000 {
            w
        } else {
            128_000
        };
        let query = BBox {
            min_lon: leaf.min_lon - eps,
            min_lat: leaf.min_lat - eps,
            max_lon: leaf.max_lon + eps,
            max_lat: leaf.max_lat + eps,
        };
        let found = boxes_meeting(&tree, query);
        proof {
            lemma_meeting_of_seq(entries, query, found@);
            assert(entries.no_duplicates());
            assert forall|k: int| 0 <= k < found.len() implies {
                &&& (#[trigger] found@[k]).id < leaves.len()
                &&& found@[k] == entries[found@[k].id as int]
                &&& leaves@[found@[k].id as int].bbox().meets(query)
            } by {
                assert(found@.contains(found@[k]));
                let m = choose|m: int| 0 <= m < entries.len() && entries[m] == found@[k];
            }
            assert forall|j: int| 0 <= j < leaves.len() && leaves@[j].bbox().meets(query) implies exists|
                k: int,
            | 0 <= k < found.len() && (#[trigger] found@[k]).id == j by {
                assert(entries.contains(entries[j]));
                assert(found@.contains(entries[j]));
                let k = choose|k: int| 0 <= k < found.len() && found@[k] == entries[j];
                assert(found@[k].id == j);
            }
        }
        let mut k: usize = 0;
        while k < found.len()
            invariant
                k <= found.len(),
                i < leaves.len(),
                classifier.wf(),
                leaves_wf(leaves@),
                nodes@ == centres(leaves@),
                is_measure(*dist),
                query == search_box(leaves@[i as int]),
                found@.no_duplicates(),
                entries == leaf_entries(leaves@),
                forall|m: int|
                    0 <= m < found.len() ==> {
                        &&& (#[trigger] found@[m]).id < leaves.len()
                        &&& found@[m] == entries[found@[m].id as int]
                        &&& leaves@[found@[m].id as int].bbox().meets(query)
                    },
                links@.no_duplicates(),
                forall|l: Link| #[trigger]
                    links@.contains(l) <==> is_adjacent_link(leaves@, *classifier, *dist, l) && (l.0 < i
                        || (l.0 == i && exists|m: int|
                        0 <= m < k && (#[trigger] found@[m]).id == l.1)),
            decreases found.len() - k,
        {
            let j = found[k].id;
            let ghost before = links@;
            if j > i && cells_adjacent(&leaves[i], &leaves[j]) {
                let a = nodes[i].point();
                let b = nodes[j].point();
                assert(leaves@[i as int].wf() && leaves@[j as int].wf());
                if !edge_crosses_land(a.lon, a.lat, b.lon, b.lat, classifier) {
                    let d = measure(dist, a, b);
                    let l: Link = (i as u32, j as u32, d);
                    proof {
                        assert(is_adjacent_link(leaves@, *classifier, *dist, l));
                        if before.contains(l) {
                            let m = choose|m: int| 0 <= m < k && (#[trigger] found@[m]).id == l.1;
                            assert(found@[m] == found@[k as int]);
                            assert(false);
                        }
                        lemma_push_link(before, l);
                    }
                    links.push(l);
                }
            }
            proof {
                assert forall|l: Link| #[trigger]
                    links@.contains(l) <==> is_adjacent_link(leaves@, *classifier, *dist, l) && (l.0 < i
                        || (l.0 == i && exists|m: int|
                        0 <= m < k + 1 && (#[trigger] found@[m]).id == l.1)) by {
                    if is_adjacent_link(leaves@, *classifier, *dist, l) && l.0 == i && l.1 == j {
                        assert(found@[k as int].id == l.1);
                    }
                    if l.0 == i && exists|m: int| 0 <= m < k + 1 && (#[trigger] found@[m]).id == l.1 {
                        let m = choose|m: int| 0 <= m < k + 1 && (#[trigger] found@[m]).id == l.1;
                        assert(m < k || l.1 == j);
                    }
                }
            }
            k = k + 1;
        }
        proof {
            assert forall|l: Link| is_adjacent_link(leaves@, *classifier, *dist, l) && l.0 == i implies exists|m: int|
                0 <= m < found.len() && (#[trigger] found@[m]).id == l.1 by {
                assert(leaves@[l.1 as int].wf());
                assert(leaves@[l.1 as int].bbox().meets(query));
            }
        }
        i = i + 1;
    }
    links
}

/// The numbers of the leaves at the eastern edge of the map, or of those at the western.
fn seam_leaves(leaves: &Vec<WaterLeaf>, east: bool) -> (ids: Vec<usize>)
    requires
        leaves_wf(leaves@),
    ensures
        ids@.no_duplicates(),
        forall|i: usize| #[trigger]
            ids@.contains(i) <==> i < leaves.len() && if east {
                leaves[i as int].max_lon >= HALF_TURN - SEAM_GAP
            } else {
                leaves[i as int].min_lon <= -HALF_TURN + SEAM_GAP
            },
{
    let mut ids: Vec<usize> = Vec::new();
    let mut i: usize = 0;
    while i < leaves.len()
        invariant
            i <= leaves.len(),
            leaves_wf(leaves@),
            ids@.no_duplicates(),
            forall|k: int| 0 <= k < ids.len() ==> #[trigger] ids@[k] < i,
            forall|k: usize| #[trigger]
                ids@.contains(k) <==> k < i && if east {
                    leaves[k as int].max_lon >= HALF_TURN - SEAM_GAP
                } else {
                    leaves[k as int].min_lon <= -HALF_TURN + SEAM_GAP
                },
        decreases leaves.len() - i,
    {
        let l = &leaves[i];
        let on_seam = if east {
            l.max_lon >= HALF_TURN - SEAM_GAP
        } else {
            l.min_lon <= -HALF_TURN + SEAM_GAP
        };
        let ghost before = ids@;
        if on_seam {
            ids.push(i);
        }
        proof {
            assert forall|k: usize| #[trigger]
                ids@.contains(k) <==> k < i + 1 && if east {
                    leaves[k as int].max_lon >= HALF_TURN - SEAM_GAP
                } else {
                    leaves[k as int].min_lon <= -HALF_TURN + SEAM_GAP
                } by {
                if on_seam && k == i {
                    assert(ids@[before.len() as int] == k);
                }
                if before.contains(k) {
                    let m = choose|m: int| 0 <= m < before.len() && before[m] == k;
                    assert(ids@[m] == k);
                }
                if ids@.contains(k) && k != i {
                    let m = choose|m: int| 0 <= m < ids@.len() && ids@[m] == k;
                    assert(before[m] == k);
                }
            }
        }
        i = i + 1;
    }
    ids
}

/// The links across the antimeridian. The quadtree ends there, so the leaves on its two
/// sides never overlap; without these links the Pacific would be cut in two.
pub fn seam_links<D: Fn(Point, Point) -> u64>(
    leaves: &Vec<WaterLeaf>,
    nodes: &Vec<GNode>,
    classifier: &LandClassifier,
    dist: &D,
) -> (links: Vec<Link>)
    requires
        classifier.wf(),
        leaves_wf(leaves@),
        nodes@ == centres(leaves@),
        is_measure(*dist),
    ensures
        lists_links(links@, |l: Link| is_seam_link(leaves@, *classifier, *dist, l)),
{
    let east = seam_leaves(leaves, true);
    let west = seam_leaves(leaves, false);
    let mut links: Vec<Link> = Vec::new();
    let mut p: usize = 0;
    while p < east.len()
        invariant
            p <= east.len(),
            classifier.wf(),
            leaves_wf(leaves@),
            nodes@ == centres(leaves@),
            is_measure(*dist),
            east@.no_duplicates(),
            west@.no_duplicates(),
            forall|i: usize| #[trigger]
                east@.contains(i) <==> i < leaves.len() && leaves[i as int].max_lon >= HALF_TURN
                    - SEAM_GAP,
            forall|i: usize| #[trigger]
                west@.contains(i) <==> i < leaves.len() && leaves[i as int].min_lon <= -HALF_TURN
                    + SEAM_GAP,
            links@.no_duplicates(),
            forall|l: Link| #[trigger]
                links@.contains(l) <==> is_seam_link(leaves@, *classifier, *dist, l) && exists|m: int|
                    0 <= m < p && #[trigger] east@[m] == l.0,
        decreases east.len() - p,
    {
        let i = east[p];
        assert(east@.contains(i));
        let e = leaves[i];
        let mut q: usize = 0;
        while q < west.len()
            invariant
                q <= west.len(),
                p < east.len(),
                i == east@[p as int],
                i < leaves.len(),
                e == leaves@[i as int],
                e.max_lon >= HALF_TURN - SEAM_GAP,
                classifier.wf(),
                leaves_wf(leaves@),
                nodes@ == centres(leaves@),
                is_measure(*dist),
                east@.no_duplicates(),
                west@.no_duplicates(),
                forall|i: usize| #[trigger]
                    west@.contains(i) <==> i < leaves.len() && leaves[i as int].min_lon <= -HALF_TURN
                        + SEAM_GAP,
                links@.no_duplicates(),
                forall|l: Link| #[trigger]
                    links@.contains(l) <==> is_seam_link(leaves@, *classifier, *dist, l) && ((exists|
                        m: int,
                    |
                        0 <= m < p && #[trigger] east@[m] == l.0) || (l.0 == i && exists|m: int|
                        0 <= m < q && #[trigger] west@[m] == l.1)),
            decreases west.len() - q,
        {
            let j = west[q];
            assert(west@.contains(j));
            let w = leaves[j];
            let ghost before = links@;
            if e.min_lat < w.max_lat && w.min_lat < e.max_lat {
                let a = nodes[i].point();
                let b = nodes[j].point();
                assert(leaves@[i as int].wf() && leaves@[j as int].wf());
                if !edge_crosses_land(a.lon, a.lat, b.lon + TURN, b.lat, classifier) {
                    let d = measure(dist, a, b);
                    let l: Link = (i as u32, j as u32, d);
                    proof {
                        assert(is_seam_link(leaves@, *classifier, *dist, l));
                        if before.contains(l) {
                            if exists|m: int| 0 <= m < p && #[trigger] east@[m] == l.0 {
                                let m = choose|m: int| 0 <= m < p && #[trigger] east@[m] == l.0;
                                assert(east@[m] == east@[p as int]);
                            } else {
                                let m = choose|m: int| 0 <= m < q && #[trigger] west@[m] == l.1;
                                assert(west@[m] == west@[q as int]);
                            }
                            assert(false);
                        }
                        lemma_push_link(before, l);
                    }
                    links.push(l);
                }
            }
            proof {
                assert forall|l: Link| #[trigger]
                    links@.contains(l) <==> is_seam_link(leaves@, *classifier, *dist, l) && ((exists|
                        m: int,
                    |
                        0 <= m < p && #[trigger] east@[m] == l.0) || (l.0 == i && exists|m: int|
                        0 <= m < q + 1 && #[trigger] west@[m] == l.1)) by {
                    if l.0 == i && l.1 == j {
                        assert(west@[q as int] == l.1);
                    }
                    if l.0 == i && exists|m: int| 0 <= m < q + 1 && #[trigger] west@[m] == l.1 {
                        let m = choose|m: int| 0 <= m < q + 1 && #[trigger] west@[m] == l.1;
                        assert(m < q || l.1 == j);
                    }
                }
            }
            q = q + 1;
        }
        proof {
            assert forall|l: Link| #[trigger]
                links@.contains(l) <==> is_seam_link(leaves@, *classifier, *dist, l) && exists|m: int|
                    0 <= m < p + 1 && #[trigger] east@[m] == l.0 by {
                if is_seam_link(leaves@, *classifier, *dist, l) && l.0 == i {
                    assert(west@.contains(l.1 as usize));
                    let m = choose|m: int| 0 <= m < west.len() && west@[m] == l.1 as usize;
                    assert(west@[m] == l.1);
                    assert(east@[p as int] == l.0);
                }
                if exists|m: int| 0 <= m < p + 1 && #[trigger] east@[m] == l.0 {
                    let m = choose|m: int| 0 <= m < p + 1 && #[trigger] east@[m] == l.0;
                    assert(m < p || l.0 == i);
                }
            }
        }
        p = p + 1;
    }
    proof {
        assert forall|l: Link| #[trigger]
            links@.contains(l) <==> is_seam_link(leaves@, *classifier, *dist, l) by {
            if is_seam_link(leaves@, *classifier, *dist, l) {
                assert(east@.contains(l.0 as usize));
                let m = choose|m: int| 0 <= m < east.len() && east@[m] == l.0 as usize;
                assert(east@[m] == l.0);
            }
        }
    }
    links
}

/// Canal ends are linked to nodes closer than 100 kilometres.
pub const CANAL_LINK: u64 = 100_000_000_000;

/// How many nodes near each end of a canal are tried.
pub const CANAL_CANDIDATES: usize = 5;

/// The nodes in the order of their numbers.
pub open spec fn numbered(nodes: Seq<GNode>) -> Seq<NodeEntry> {
    Seq::new(nodes.len(), |i: int| NodeEntry { id: i as u32, at: nodes[i].at() })
}

/// The first `k` links along a path of waypoints that are numbered from `base` on.
pub open spec fn chain_links<D: Fn(Point, Point) -> u64>(
    dist: D,
    path: Seq<Point>,
    base: int,
    k: int,
) -> Seq<Link>
    decreases k,
{
    if k <= 0 {
        Seq::empty()
    } else {
        chain_links(dist, path, base, k - 1).push(
            ((base + k - 1) as u32, (base + k) as u32, measured(dist, path[k - 1], path[k])),
        )
    }
}

/// The links from node `id` to those of the first `k` nodes near it that are close enough.
pub open spec fn end_links<D: Fn(Point, Point) -> u64>(
    dist: D,
    at: Point,
    id: int,
    near: Seq<NodeEntry>,
    k: int,
) -> Seq<Link>
    decreases k,
{
    if k <= 0 {
        Seq::empty()
    } else {
        let before = end_links(dist, at, id, near, k - 1);
        let d = measured(dist, at, near[k - 1].at);
        if d < CANAL_LINK {
            before.push((id as u32, near[k - 1].id, d))
        } else {
            before
        }
    }
}

/// The links of one canal whose waypoints are numbered from `base` on: along it, and from
/// its two ends to the nodes near them.
pub open spec fn canal_links<D: Fn(Point, Point) -> u64>(
    dist: D,
    path: Seq<Point>,
    base: int,
    near: (Seq<NodeEntry>, Seq<NodeEntry>),
) -> Seq<Link> {
    chain_links(dist, path, base, path.len() - 1) + end_links(
        dist,
        path.first(),
        base,
        near.0,
        near.0.len() as int,
    ) + end_links(dist, path.last(), base + path.len() - 1, near.1, near.1.len() as int)
}

/// The nodes of the first `k` canals. Canals of fewer than two waypoints are left out.
pub open spec fn canals_nodes(charts: Seq<Seq<Point>>, k: int) -> Seq<GNode>
    decreases k,
{
    if k <= 0 {
        Seq::empty()
    } else if charts[k - 1].len() < 2 {
        canals_nodes(charts, k - 1)
    } else {
        canals_nodes(charts, k - 1) + charts[k - 1].map_values(
            |p: Point| GNode { lon: p.lon, lat: p.lat, depth: 1 },
        )
    }
}

/// The links of the first `k` canals, whose nodes are numbered from `n` on.
pub open spec fn canals_links<D: Fn(Point, Point) -> u64>(
    dist: D,
    charts: Seq<Seq<Point>>,
    n: int,
    near: Seq<(Seq<NodeEntry>, Seq<NodeEntry>)>,
    k: int,
) -> Seq<Link>
    decreases k,
{
    if k <= 0 {
        Seq::empty()
    } else if charts[k - 1].len() < 2 {
        canals_links(dist, charts, n, near, k - 1)
    } else {
        canals_links(dist, charts, n, near, k - 1) + canal_links(
            dist,
            charts[k - 1],
            n + canals_nodes(charts, k - 1).len(),
            near[k - 1],
        )
    }
}

/// The lists hold the nodes nearest to the two ends of each of the first `k` canals.
pub open spec fn near_ends(
    nodes: Seq<GNode>,
    charts: Seq<Seq<Point>>,
    near: Seq<(Seq<NodeEntry>, Seq<NodeEntry>)>,
    k: int,
) -> bool {
    let items = numbered(nodes).to_multiset();
    &&& near.len() == k
    &&& forall|i: int|
        0 <= i < k && charts[i].len() >= 2 ==> {
            &&& are_nearest(items, charts[i].first(), CANAL_CANDIDATES as int, (#[trigger] near[i]).0)
            &&& are_nearest(items, charts[i].last(), CANAL_CANDIDATES as int, near[i].1)
        }
}

/// The links are those of the canals.
pub open spec fn are_canal_links<D: Fn(Point, Point) -> u64>(
    dist: D,
    nodes: Seq<GNode>,
    charts: Seq<Seq<Point>>,
    links: Seq<Link>,
) -> bool {
    exists|near: Seq<(Seq<NodeEntry>, Seq<NodeEntry>)>| #[trigger]
        near_ends(nodes, charts, near, charts.len() as int) && links == canals_links(
            dist,
            charts,
            nodes.len() as int,
            near,
            charts.len() as int,
        )
}

proof fn lemma_chain_link<D: Fn(Point, Point) -> u64>(dist: D, path: Seq<Point>, base: int, k: int, i: int)
    requires
        0 <= i < k,
    ensures
        chain_links(dist, path, base, k).len() == k,
        chain_links(dist, path, base, k)[i] == (
            (base + i) as u32,
            (base + i + 1) as u32,
            measured(dist, path[i], path[i + 1]),
        ),
    decreases k,
{
    let before = chain_links(dist, path, base, k - 1);
    if k == 1 {
        assert(before =~= Seq::empty());
    } else if i < k - 1 {
        lemma_chain_link(dist, path, base, k - 1, i);
    } else {
        lemma_chain_link(dist, path, base, k - 1, 0);
    }
    if i == k - 1 {
        assert(base + k - 1 == base + i && base + k == base + i + 1);
    }
}

/// The links of one canal are among those of all.
pub proof fn lemma_canal_within<D: Fn(Point, Point) -> u64>(
    dist: D,
    charts: Seq<Seq<Point>>,
    n: int,
    near: Seq<(Seq<NodeEntry>, Seq<NodeEntry>)>,
    k: int,
    upto: int,
    l: Link,
)
    requires
        0 <= k < upto <= charts.len(),
        charts[k].len() >= 2,
        canal_links(dist, charts[k], n + canals_nodes(charts, k).len(), near[k]).contains(l),
    ensures
        canals_links(dist, charts, n, near, upto).contains(l),
    decreases upto,
{
    let before = canals_links(dist, charts, n, near, upto - 1);
    let all = canals_links(dist, charts, n, near, upto);
    if k == upto - 1 {
        let new = canal_links(dist, charts[k], n + canals_nodes(charts, k).len(), near[k]);
        let i = choose|i: int| 0 <= i < new.len() && new[i] == l;
        assert(all[before.len() + i] == l);
    } else {
        lemma_canal_within(dist, charts, n, near, k, upto - 1, l);
        let i = choose|i: int| 0 <= i < before.len() && before[i] == l;
        assert(all[i] == l);
    }
}

/// Canals can be passed: each waypoint of a canal is linked to the next.
pub proof fn lemma_canal_is_chained<D: Fn(Point, Point) -> u64>(
    dist: D,
    nodes: Seq<GNode>,
    charts: Seq<Seq<Point>>,
    links: Seq<Link>,
    k: int,
    i: int,
)
    requires
        are_canal_links(dist, nodes, charts, links),
        0 <= k < charts.len(),
        0 <= i < charts[k].len() - 1,
    ensures
        ({
            let base = nodes.len() + canals_nodes(charts, k).len();
            links.contains(
                ((base + i) as u32, (base + i + 1) as u32, measured(dist, charts[k][i], charts[k][i + 1])),
            )
        }),
{
    let near = choose|near: Seq<(Seq<NodeEntry>, Seq<NodeEntry>)>| #[trigger]
        near_ends(nodes, charts, near, charts.len() as int) && links == canals_links(
            dist,
            charts,
            nodes.len() as int,
            near,
            charts.len() as int,
        );
    let path = charts[k];
    let base = nodes.len() + canals_nodes(charts, k).len();
    let l = ((base + i) as u32, (base + i + 1) as u32, measured(dist, path[i], path[i + 1]));
    lemma_chain_link(dist, path, base as int, path.len() - 1, i);
    let own = canal_links(dist, path, base as int, near[k]);
    assert(own[i] == l);
    lemma_canal_within(dist, charts, nodes.len() as int, near, k, charts.len() as int, l);
}

/// The waypoints of each canal.
pub open spec fn charts_of(canals: Seq<CanalPassage>) -> Seq<Seq<Point>> {
    canals.map_values(|c: CanalPassage| c.waypoints@)
}

fn index_nodes(nodes: &Vec<GNode>) -> (index: NodeIndex)
    requires
        nodes.len() <= u32::MAX,
    ensures
        node_items(index) == numbered(nodes@).to_multiset(),
{
    let mut items: Vec<NodeEntry> = Vec::new();
    let mut i: usize = 0;
    while i < nodes.len()
        invariant
            i <= nodes.len() <= u32::MAX,
            items@ =~= numbered(nodes@).take(i as int),
        decreases nodes.len() - i,
    {
        items.push(NodeEntry { id: i as u32, at: nodes[i].point() });
        i = i + 1;
    }
    assert(items@ =~= numbered(nodes@));
    load_nodes(&items)
}

fn push_end_links<D: Fn(Point, Point) -> u64>(
    links: &mut Vec<Link>,
    dist: &D,
    at: Point,
    id: u32,
    near: &Vec<NodeEntry>,
)
    requires
        is_measure(*dist),
    ensures
        final(links)@ == old(links)@ + end_links(*dist, at, id as int, near@, near.len() as int),
{
    let ghost before = links@;
    let mut k: usize = 0;
    assert(links@ =~= before + end_links(*dist, at, id as int, near@, 0));
    while k < near.len()
        invariant
            k <= near.len(),
            is_measure(*dist),
            links@ == before + end_links(*dist, at, id as int, near@, k as int),
        decreases near.len() - k,
    {
        let m = near[k];
        let d = measure(dist, at, m.at);
        if d < CANAL_LINK {
            links.push((id, m.id, d));
        }
        assert(links@ =~= before + end_links(*dist, at, id as int, near@, k + 1));
        k = k + 1;
    }
}

fn push_chain_links<D: Fn(Point, Point) -> u64>(
    links: &mut Vec<Link>,
    dist: &D,
    path: &Vec<Point>,
    base: u32,
)
    requires
        is_measure(*dist),
        path.len() >= 2,
        base + path.len() <= u32::MAX,
    ensures
        final(links)@ == old(links)@ + chain_links(*dist, path@, base as int, path.len() - 1),
{
    let ghost before = links@;
    let mut k: usize = 1;
    assert(links@ =~= before + chain_links(*dist, path@, base as int, 0));
    while k < path.len()
        invariant
            1 <= k <= path.len(),
            base + path.len() <= u32::MAX,
            is_measure(*dist),
            links@ == before + chain_links(*dist, path@, base as int, k - 1),
        decreases path.len() - k,
    {
        let d = measure(dist, path[k - 1], path[k]);
        links.push((base + (k as u32 - 1), base + k as u32, d));
        assert(links@ =~= before + chain_links(*dist, path@, base as int, k as int));
        k = k + 1;
    }
}

proof fn lemma_canals_nodes_grow(charts: Seq<Seq<Point>>, j: int, k: int)
    requires
        0 <= j <= k,
    ensures
        canals_nodes(charts, j).len() <= canals_nodes(charts, k).len(),
    decreases k,
{
    if j < k {
        lemma_canals_nodes_grow(charts, j, k - 1);
    }
}

/// Adds the waypoints of the canals as nodes, and the links along and from them.
pub fn inject_canals<D: Fn(Point, Point) -> u64>(
    canals: &Vec<CanalPassage>,
    nodes: &mut Vec<GNode>,
    links: &mut Vec<Link>,
    dist: &D,
)
    requires
        is_measure(*dist),
        old(nodes).len() + canals_nodes(charts_of(canals@), canals.len() as int).len() <= u32::MAX,
        forall|i: int|
            0 <= i < old(nodes).len() ==> (#[trigger] old(nodes)@[i]).at().within(WORLD as int),
        forall|k: int, i: int|
            #![trigger canals[k].waypoints[i]]
            0 <= k < canals.len() && 0 <= i < canals[k].waypoints.len()
                ==> canals[k].waypoints[i].within(WORLD as int),
    ensures
        final(nodes)@ == old(nodes)@ + canals_nodes(charts_of(canals@), canals.len() as int),
        old(links).len() <= final(links).len(),
        final(links)@.take(old(links).len() as int) == old(links)@,
        are_canal_links(
            *dist,
            old(nodes)@,
            charts_of(canals@),
            final(links)@.skip(old(links).len() as int),
        ),
{
    let ghost base_nodes = nodes@;
    let ghost base_links = links@;
    let ghost charts = charts_of(canals@);
    let index = index_nodes(nodes);
    proof {
        lemma_node_items_of_seq(numbered(base_nodes));
        assert forall|e: NodeEntry| #[trigger] node_items(index).contains(e) implies e.at.within(
            WORLD as int) by {
            let items = numbered(base_nodes);
            assert(items.contains(e));
            let m = choose|m: int| 0 <= m < items.len() && items[m] == e;
            assert(base_nodes[m].at().within(WORLD as int));
        }
    }
    let ghost mut near: Seq<(Seq<NodeEntry>, Seq<NodeEntry>)> = Seq::empty();
    let mut k: usize = 0;
    assert(nodes@ =~= base_nodes + canals_nodes(charts, 0));
    assert(links@ =~= base_links + canals_links(*dist, charts, base_nodes.len() as int, near, 0));
    while k < canals.len()
        invariant
            k <= canals.len(),
            is_measure(*dist),
            charts == charts_of(canals@),
            base_nodes.len() + canals_nodes(charts, canals.len() as int).len() <= u32::MAX,
            node_items(index) == numbered(base_nodes).to_multiset(),
            forall|e: NodeEntry| #[trigger] node_items(index).contains(e) ==> e.at.within(WORLD as int),
            forall|k: int, i: int|
                #![trigger canals[k].waypoints[i]]
                0 <= k < canals.len() && 0 <= i < canals[k].waypoints.len()
                    ==> canals[k].waypoints[i].within(WORLD as int),
            near_ends(base_nodes, charts, near, k as int),
            nodes@ == base_nodes + canals_nodes(charts, k as int),
            links@ == base_links + canals_links(
                *dist,
                charts,
                base_nodes.len() as int,
                near,
                k as int,
            ),
        decreases canals.len() - k,
    {
        let wp = &canals[k].waypoints;
        let ghost near0 = near;
        let ghost had = links@;
        assert(charts[k as int] == wp@);
        if wp.len() < 2 {
            proof {
                near = near.push((Seq::empty(), Seq::empty()));
            }
        } else {
            proof {
                lemma_canals_nodes_grow(charts, k + 1, canals.len() as int);
                assert(canals[k as int].waypoints[0].within(WORLD as int));
                assert(canals[k as int].waypoints[wp.len() - 1].within(WORLD as int));
            }
            let base = nodes.len();
            let mut i: usize = 0;
            let ghost had_nodes = nodes@;
            let ghost fresh = wp@.map_values(|p: Point| GNode { lon: p.lon, lat: p.lat, depth: 1 });
            while i < wp.len()
                invariant
                    i <= wp.len(),
                    fresh == wp@.map_values(|p: Point| GNode { lon: p.lon, lat: p.lat, depth: 1 }),
                    nodes@ =~= had_nodes + fresh.take(i as int),
                decreases wp.len() - i,
            {
                let p = wp[i];
                nodes.push(GNode { lon: p.lon, lat: p.lat, depth: 1 });
                i = i + 1;
            }
            assert(fresh.take(wp.len() as int) =~= fresh);
            push_chain_links(links, dist, wp, base as u32);
            let near_first = nearest_nodes(&index, wp[0], CANAL_CANDIDATES);
            push_end_links(links, dist, wp[0], base as u32, &near_first);
            let last = wp.len() - 1;
            let near_last = nearest_nodes(&index, wp[last], CANAL_CANDIDATES);
            push_end_links(links, dist, wp[last], (base + last) as u32, &near_last);
            proof {
                near = near.push((near_first@, near_last@));
                assert(nodes@ =~= base_nodes + canals_nodes(charts, k + 1));
                assert(links@ =~= had + canal_links(
                    *dist,
                    wp@,
                    base as int,
                    (near_first@, near_last@),
                ));
            }
        }
        proof {
            lemma_canals_links_same(
                *dist,
                charts,
                base_nodes.len() as int,
                near0,
                near,
                k as int,
            );
            assert forall|i: int| 0 <= i < k + 1 && charts[i].len() >= 2 implies {
                &&& are_nearest(
                    numbered(base_nodes).to_multiset(),
                    charts[i].first(),
                    CANAL_CANDIDATES as int,
                    (#[trigger] near[i]).0,
                )
                &&& are_nearest(
                    numbered(base_nodes).to_multiset(),
                    charts[i].last(),
                    CANAL_CANDIDATES as int,
                    near[i].1,
                )
            } by {
                if i < k {
                    assert(near[i] == near0[i]);
                }
            }
            assert(links@ =~= base_links + canals_links(
                *dist,
                charts,
                base_nodes.len() as int,
                near,
                k + 1,
            ));
        }
        k = k + 1;
    }
    proof {
        assert(links@.take(base_links.len() as int) =~= base_links);
        assert(links@.skip(base_links.len() as int) =~= canals_links(
            *dist,
            charts,
            base_nodes.len() as int,
            near,
            charts.len() as int,
        ));
    }
}

proof fn lemma_canals_links_same<D: Fn(Point, Point) -> u64>(
    dist: D,
    charts: Seq<Seq<Point>>,
    n: int,
    a: Seq<(Seq<NodeEntry>, Seq<NodeEntry>)>,
    b: Seq<(Seq<NodeEntry>, Seq<NodeEntry>)>,
    k: int,
)
    requires
        k <= a.len(),
        k <= b.len(),
        forall|i: int| 0 <= i < k ==> #[trigger] a[i] == b[i],
    ensures
        canals_links(dist, charts, n, a, k) == canals_links(dist, charts, n, b, k),
    decreases k,
{
    if k > 0 {
        lemma_canals_links_same(dist, charts, n, a, b, k - 1);
        assert(a[k - 1] == b[k - 1]);
    }
}

/// The graph as flat lists of triples.
pub struct GraphOutput {
    pub node_count: usize,
    pub edge_count: usize,
    /// Longitude and latitude in units of 0.00001 degrees, and depth, of each node.
    pub nodes: Vec<i64>,
    /// The two nodes and the length, in units of 0.1 kilometres, of each edge.
    pub edges: Vec<i64>,
}

/// The quotient rounded to the nearest integer, halves away from zero.
pub open spec fn rounded(x: int, unit: int) -> int {
    if x >= 0 {
        (x + unit / 2) / unit
    } else {
        -((-x + unit / 2) / unit)
    }
}

/// The nodes as triples.
pub open spec fn flat_nodes(nodes: Seq<GNode>) -> Seq<i64> {
    Seq::new(
        3 * nodes.len(),
        |k: int|
            {
                let n = nodes[k / 3];
                if k % 3 == 0 {
                    rounded(n.lon as int, 12_800) as i64
                } else if k % 3 == 1 {
                    rounded(n.lat as int, 12_800) as i64
                } else {
                    n.depth as i64
                }
            },
    )
}

/// The links as triples.
pub open spec fn flat_edges(links: Seq<Link>) -> Seq<i64> {
    Seq::new(
        3 * links.len(),
        |k: int|
            {
                let l = links[k / 3];
                if k % 3 == 0 {
                    l.0 as i64
                } else if k % 3 == 1 {
                    l.1 as i64
                } else {
                    rounded(l.2 as int, 100_000_000) as i64
                }
            },
    )
}

fn round_angle(x: i64) -> (r: i64)
    ensures
        r == rounded(x as int, 12_800),
{
    if x >= 0 {
        ((x as i128 + 6_400) / 12_800) as i64
    } else {
        -(((-(x as i128) + 6_400) / 12_800) as i64)
    }
}

fn pack_nodes(nodes: &Vec<GNode>) -> (flat: Vec<i64>)
    ensures
        flat@ == flat_nodes(nodes@),
{
    let mut flat: Vec<i64> = Vec::new();
    let mut i: usize = 0;
    while i < nodes.len()
        invariant
            i <= nodes.len(),
            flat@ =~= flat_nodes(nodes@).take(3 * i),
        decreases nodes.len() - i,
    {
        let n = nodes[i];
        flat.push(round_angle(n.lon));
        flat.push(round_angle(n.lat));
        flat.push(n.depth as i64);
        i = i + 1;
    }
    assert(flat@ =~= flat_nodes(nodes@));
    flat
}

fn pack_edges(links: &Vec<Link>) -> (flat: Vec<i64>)
    ensures
        flat@ == flat_edges(links@),
{
    let mut flat: Vec<i64> = Vec::new();
    let mut i: usize = 0;
    while i < links.len()
        invariant
            i <= links.len(),
            flat@ =~= flat_edges(links@).take(3 * i),
        decreases links.len() - i,
    {
        let (from, to, length) = links[i];
        flat.push(from as i64);
        flat.push(to as i64);
        flat.push(((length as i128 + 50_000_000) / 100_000_000) as i64);
        i = i + 1;
    }
    assert(flat@ =~= flat_edges(links@));
    flat
}

/// The four parts of a graph's links.
pub ghost struct LinkParts {
    pub adjacent: Seq<Link>,
    pub seam: Seq<Link>,
    /// The links of the two parts above, followed by the bridges.
    pub joined: Seq<Link>,
    pub canal: Seq<Link>,
}

/// One node for each port, at its own position.
pub open spec fn port_nodes(ports: Seq<Point>) -> Seq<GNode> {
    ports.map_values(|p: Point| GNode { lon: p.lon, lat: p.lat, depth: 1 })
}

/// The nodes that are wired up over open water: the centres of the leaves, then the ports.
pub open spec fn sea_nodes(leaves: Seq<WaterLeaf>, ports: Seq<Point>) -> Seq<GNode> {
    centres(leaves) + port_nodes(ports)
}

/// The parts are those of the graph of the leaves, the ports and the canals. A port has no
/// link of its own but the bridge that joins it to the main component.
pub open spec fn parts_of<D: Fn(Point, Point) -> u64>(
    leaves: Seq<WaterLeaf>,
    c: LandClassifier,
    dist: D,
    charts: Seq<Seq<Point>>,
    ports: Seq<Point>,
    parts: LinkParts,
) -> bool {
    let nodes = sea_nodes(leaves, ports);
    &&& lists_links(parts.adjacent, |l: Link| is_adjacent_link(leaves, c, dist, l))
    &&& lists_links(parts.seam, |l: Link| is_seam_link(leaves, c, dist, l))
    &&& if nodes.len() == 0 {
        parts.joined == parts.adjacent + parts.seam
    } else {
        reconnected(c, dist, nodes, parts.adjacent + parts.seam, parts.joined)
    }
    &&& are_canal_links(dist, nodes, charts, parts.canal)
}

/// The output is the graph of the leaves, the ports and the canals.
pub open spec fn is_graph_of<D: Fn(Point, Point) -> u64>(
    out: GraphOutput,
    leaves: Seq<WaterLeaf>,
    c: LandClassifier,
    dist: D,
    charts: Seq<Seq<Point>>,
    ports: Seq<Point>,
) -> bool {
    let nodes = sea_nodes(leaves, ports) + canals_nodes(charts, charts.len() as int);
    &&& out.node_count == nodes.len()
    &&& out.nodes@ == flat_nodes(nodes)
    &&& exists|parts: LinkParts| #[trigger]
        parts_of(leaves, c, dist, charts, ports, parts) && out.edge_count == parts.joined.len()
            + parts.canal.len() && out.edges@ == flat_edges(parts.joined + parts.canal)
}

proof fn lemma_links_within<D: Fn(Point, Point) -> u64>(
    leaves: Seq<WaterLeaf>,
    c: LandClassifier,
    dist: D,
    adjacent: Seq<Link>,
    seam: Seq<Link>,
)
    requires
        lists_links(adjacent, |l: Link| is_adjacent_link(leaves, c, dist, l)),
        lists_links(seam, |l: Link| is_seam_link(leaves, c, dist, l)),
    ensures
        links_within(adjacent + seam, leaves.len() as int),
{
    let all = adjacent + seam;
    assert forall|i: int| 0 <= i < all.len() implies (#[trigger] all[i]).0 < leaves.len() && all[i].1
        < leaves.len() by {
        if i < adjacent.len() {
            assert(adjacent.contains(adjacent[i]));
            assert(is_adjacent_link(leaves, c, dist, adjacent[i]));
        } else {
            assert(seam.contains(seam[i - adjacent.len()]));
            assert(is_seam_link(leaves, c, dist, seam[i - adjacent.len()]));
        }
    }
}

/// Appends one node for each port.
fn push_ports(nodes: &mut Vec<GNode>, ports: &Vec<Point>)
    ensures
        final(nodes)@ == old(nodes)@ + port_nodes(ports@),
{
    let ghost before = nodes@;
    let mut i: usize = 0;
    while i < ports.len()
        invariant
            i <= ports.len(),
            nodes@ =~= before + port_nodes(ports@).take(i as int),
        decreases ports.len() - i,
    {
        let p = ports[i];
        nodes.push(GNode { lon: p.lon, lat: p.lat, depth: 1 });
        i = i + 1;
    }
    assert(port_nodes(ports@).take(ports.len() as int) =~= port_nodes(ports@));
}

/// The graph of the leaves, the given canals and the given ports.
pub fn build_graph_with<D: Fn(Point, Point) -> u64>(
    leaves: &Vec<WaterLeaf>,
    classifier: &LandClassifier,
    canals: &Vec<CanalPassage>,
    ports: &Vec<Point>,
    dist: &D,
) -> (out: GraphOutput)
    requires
        classifier.wf(),
        leaves_wf(leaves@),
        is_measure(*dist),
        leaves.len() + ports.len() + canals_nodes(charts_of(canals@), canals.len() as int).len()
            <= u32::MAX,
        forall|k: int, i: int|
            #![trigger canals[k].waypoints[i]]
            0 <= k < canals.len() && 0 <= i < canals[k].waypoints.len()
                ==> canals[k].waypoints[i].within(WORLD as int),
        forall|i: int| 0 <= i < ports.len() ==> (#[trigger] ports[i]).within(WORLD as int),
    ensures
        is_graph_of(out, leaves@, *classifier, *dist, charts_of(canals@), ports@),
{
    let mut nodes = leaf_centres(leaves);
    let ghost leaf_nodes = nodes@;
    let mut links = adjacent_links(leaves, &nodes, classifier, dist);
    let ghost adjacent = links@;
    let mut seam = seam_links(leaves, &nodes, classifier, dist);
    let ghost seam_part = seam@;
    links.append(&mut seam);
    assert(links@ =~= adjacent + seam_part);
    proof {
        lemma_links_within(leaves@, *classifier, *dist, adjacent, seam_part);
    }
    push_ports(&mut nodes, ports);
    proof {
        assert forall|i: int| 0 <= i < nodes@.len() implies (#[trigger] nodes@[i]).at().within(
            WORLD as int) by {
            if i < leaf_nodes.len() {
                assert(nodes@[i] == leaf_nodes[i]);
            } else {
                assert(ports@[i - leaf_nodes.len()].within(WORLD as int));
            }
        }
    }
    reconnect_islands(&nodes, &mut links, classifier, dist);
    let ghost joined = links@;
    inject_canals(canals, &mut nodes, &mut links, dist);
    let ghost canal = links@.skip(joined.len() as int);
    proof {
        assert(links@ =~= joined + canal);
        let parts = LinkParts { adjacent, seam: seam_part, joined, canal };
        assert(parts_of(leaves@, *classifier, *dist, charts_of(canals@), ports@, parts));
    }
    let flat_nodes = pack_nodes(&nodes);
    let flat_edges = pack_edges(&links);
    GraphOutput {
        node_count: nodes.len(),
        edge_count: links.len(),
        nodes: flat_nodes,
        edges: flat_edges,
    }
}

/// How many waypoints the canals have together.
pub const CANAL_WAYPOINTS: u32 = 57;

/// The canals add as many nodes as they have waypoints.
pub proof fn lemma_canal_waypoints()
    ensures
        canals_nodes(canal_charts(), 4).len() == CANAL_WAYPOINTS,
{
    let charts = canal_charts();
    assert(charts[0].len() == 28 && charts[1].len() == 14 && charts[2].len() == 11 && charts[3].len()
        == 4);
    reveal_with_fuel(canals_nodes, 5);
}

/// Build the adjacency graph from water leaves, with the canals and one node per port.
pub fn build_graph_with_ports<D: Fn(Point, Point) -> u64>(
    leaves: &Vec<WaterLeaf>,
    classifier: &LandClassifier,
    ports: &Vec<Point>,
    dist: &D,
) -> (out: GraphOutput)
    requires
        classifier.wf(),
        leaves_wf(leaves@),
        leaves.len() + ports.len() + CANAL_WAYPOINTS <= u32::MAX,
        forall|i: int| 0 <= i < ports.len() ==> (#[trigger] ports[i]).within(WORLD as int),
        is_measure(*dist),
    ensures
        is_graph_of(out, leaves@, *classifier, *dist, canal_charts(), ports@),
{
    let canals = canals();
    proof {
        lemma_canal_waypoints();
    }
    assert(charts_of(canals@) =~= canal_charts());
    build_graph_with(leaves, classifier, &canals, ports, dist)
}

/// Build the adjacency graph from water leaves, with the canals.
pub fn build_graph<D: Fn(Point, Point) -> u64>(
    leaves: &Vec<WaterLeaf>,
    classifier: &LandClassifier,
    dist: &D,
) -> (out: GraphOutput)
    requires
        classifier.wf(),
        leaves_wf(leaves@),
        leaves.len() + CANAL_WAYPOINTS <= u32::MAX,
        is_measure(*dist),
    ensures
        is_graph_of(out, leaves@, *classifier, *dist, canal_charts(), Seq::empty()),
{
    let ports: Vec<Point> = Vec::new();
    build_graph_with_ports(leaves, classifier, &ports, dist)
}

} // verus!
