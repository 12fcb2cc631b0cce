//! What the graph that is built promises of its nodes and edges.
use vstd::prelude::*;

use crate::generate::WaterLeaf;
use crate::geo::{dist2, measured, Point, DEGREE, HALF_TURN, KM, TURN, WORLD};
use crate::graph_builder::{
    are_canal_links, canal_links, canals_nodes, centres, end_links, flat_edges, flat_nodes, hits_land,
    is_adjacent_link, is_graph_of, is_seam_link, leaves_wf, lemma_canal_within, lists_links, near_ends,
    numbered, parts_of, port_nodes, rounded, sea_nodes, touching, GNode, GraphOutput, Link, LinkParts,
};
use crate::land::LandClassifier;
use crate::reconnect::{can_bridge, lemma_bridges_over_water};
use crate::spatial::{lemma_nearest_of_seq, lemma_others_further, NodeEntry};

verus! {

/// Leaves are neighbours where their boxes share a position, be it a corner, and their middles
/// differ.
pub proof fn lemma_neighbours_share_a_position(a: WaterLeaf, b: WaterLeaf)
    requires
        a.wf(),
        b.wf(),
    ensures
        touching(a, b) <==> {
            &&& exists|p: Point|
                a.min_lon <= p.lon <= a.max_lon && a.min_lat <= p.lat <= a.max_lat && b.min_lon <= p.lon
                    <= b.max_lon && #[trigger] b.bbox().holds(p)
            &&& {
                ||| a.min_lon + a.max_lon != b.min_lon + b.max_lon
                ||| a.min_lat + a.max_lat != b.min_lat + b.max_lat
            }
        },
{
    if touching(a, b) {
        let p = Point {
            lon: if a.min_lon >= b.min_lon {
                a.min_lon
            } else {
                b.min_lon
            },
            lat: if a.min_lat >= b.min_lat {
                a.min_lat
            } else {
                b.min_lat
            },
        };
        assert(b.bbox().holds(p));
    }
}

proof fn lemma_rounded(x: int, unit: int)
    requires
        0 < unit,
        unit % 2 == 0,
    ensures
        -unit <= 2 * (unit * rounded(x, unit) - x) <= unit,
{
    let h = unit / 2;
    if x >= 0 {
        vstd::arithmetic::div_mod::lemma_fundamental_div_mod(x + h, unit);
    } else {
        vstd::arithmetic::div_mod::lemma_fundamental_div_mod(-x + h, unit);
        let q = (-x + h) / unit;
        assert(unit * (-q) == -(unit * q)) by (nonlinear_arith);
    }
}

/// The output holds an edge between two nodes, with its length in tenths of a kilometre, rounded.
pub open spec fn holds_edge(out: GraphOutput, k: int, i: int, j: int, length: int) -> bool {
    &&& 0 <= k < out.edge_count
    &&& out.edges@.len() == 3 * out.edge_count
    &&& out.edges@[3 * k] == i
    &&& out.edges@[3 * k + 1] == j
    &&& -KM <= 20 * (out.edges@[3 * k + 2] * 100_000_000 - length) <= KM
}

proof fn lemma_flat_edge(links: Seq<Link>, k: int)
    requires
        0 <= k < links.len(),
    ensures
        flat_edges(links).len() == 3 * links.len(),
        flat_edges(links)[3 * k] == links[k].0,
        flat_edges(links)[3 * k + 1] == links[k].1,
        -100_000_000 <= 2 * (100_000_000 * flat_edges(links)[3 * k + 2] - links[k].2) <= 100_000_000,
{
    assert((3 * k) / 3 == k && (3 * k + 1) / 3 == k && (3 * k + 2) / 3 == k);
    assert((3 * k) % 3 == 0 && (3 * k + 1) % 3 == 1 && (3 * k + 2) % 3 == 2);
    lemma_rounded(links[k].2 as int, 100_000_000);
}

proof fn lemma_link_is_edge<D: Fn(Point, Point) -> u64>(
    out: GraphOutput,
    leaves: Seq<WaterLeaf>,
    c: LandClassifier,
    dist: D,
    charts: Seq<Seq<Point>>,
    ports: Seq<Point>,
    l: Link,
) -> (k: int)
    requires
        is_graph_of(out, leaves, c, dist, charts, ports),
        is_adjacent_link(leaves, c, dist, l) || is_seam_link(leaves, c, dist, l),
    ensures
        holds_edge(out, k, l.0 as int, l.1 as int, l.2 as int),
{
    let parts = choose|parts: LinkParts| #[trigger]
        parts_of(leaves, c, dist, charts, ports, parts) && out.edge_count == parts.joined.len()
            + parts.canal.len() && out.edges@ == flat_edges(parts.joined + parts.canal);
    let before = parts.adjacent + parts.seam;
    let all = parts.joined + parts.canal;
    let m = if is_adjacent_link(leaves, c, dist, l) {
        assert(parts.adjacent.contains(l));
        choose|m: int| 0 <= m < parts.adjacent.len() && parts.adjacent[m] == l
    } else {
        assert(parts.seam.contains(l));
        parts.adjacent.len() + choose|m: int| 0 <= m < parts.seam.len() && parts.seam[m] == l
    };
    assert(before[m] == l);
    if sea_nodes(leaves, ports).len() > 0 {
        assert(parts.joined.take(before.len() as int)[m] == parts.joined[m]);
    }
    assert(all[m] == l);
    lemma_flat_edge(all, m);
    m
}

/// Water that touches is connected: two leaves whose boxes share a position and whose middles
/// differ are joined by an edge, unless land lies on it or too close to it.
pub proof fn lemma_neighbours_are_linked<D: Fn(Point, Point) -> u64>(
    out: GraphOutput,
    leaves: Seq<WaterLeaf>,
    c: LandClassifier,
    dist: D,
    charts: Seq<Seq<Point>>,
    ports: Seq<Point>,
    i: int,
    j: int,
    p: Point,
) -> (k: int)
    requires
        is_graph_of(out, leaves, c, dist, charts, ports),
        leaves_wf(leaves),
        0 <= i < j < leaves.len(),
        leaves[i].min_lon <= p.lon <= leaves[i].max_lon,
        leaves[i].min_lat <= p.lat <= leaves[i].max_lat,
        leaves[j].min_lon <= p.lon <= leaves[j].max_lon,
        leaves[j].min_lat <= p.lat <= leaves[j].max_lat,
        leaves[i].min_lon + leaves[i].max_lon != leaves[j].min_lon + leaves[j].max_lon || leaves[i].min_lat
            + leaves[i].max_lat != leaves[j].min_lat + leaves[j].max_lat,
        !hits_land(c, leaves[i].centre().at(), leaves[j].centre().at()),
    ensures
        holds_edge(
            out,
            k,
            i,
            j,
            measured(dist, leaves[i].centre().at(), leaves[j].centre().at()) as int,
        ),
{
    let l: Link = (
        i as u32,
        j as u32,
        measured(dist, leaves[i].centre().at(), leaves[j].centre().at()),
    );
    assert(is_adjacent_link(leaves, c, dist, l));
    lemma_link_is_edge(out, leaves, c, dist, charts, ports, l)
}

/// The Pacific is not cut in two: a leaf that ends at 180 degrees east and one that starts at 180
/// degrees west, with a latitude in common inside both, are joined by an edge, unless land lies on
/// it or too close to it.
pub proof fn lemma_seam_is_linked<D: Fn(Point, Point) -> u64>(
    out: GraphOutput,
    leaves: Seq<WaterLeaf>,
    c: LandClassifier,
    dist: D,
    charts: Seq<Seq<Point>>,
    ports: Seq<Point>,
    e: int,
    w: int,
    lat: int,
    across: Point,
) -> (k: int)
    requires
        is_graph_of(out, leaves, c, dist, charts, ports),
        leaves_wf(leaves),
        0 <= e < leaves.len(),
        0 <= w < leaves.len(),
        leaves[e].max_lon == HALF_TURN,
        leaves[w].min_lon == -HALF_TURN,
        leaves[e].min_lat < lat < leaves[e].max_lat,
        leaves[w].min_lat < lat < leaves[w].max_lat,
        across.lon == leaves[w].centre().lon + TURN,
        across.lat == leaves[w].centre().lat,
        !hits_land(c, leaves[e].centre().at(), across),
    ensures
        holds_edge(
            out,
            k,
            e,
            w,
            measured(dist, leaves[e].centre().at(), leaves[w].centre().at()) as int,
        ),
{
    let l: Link = (
        e as u32,
        w as u32,
        measured(dist, leaves[e].centre().at(), leaves[w].centre().at()),
    );
    assert(leaves[w].wf());
    assert(Point { lon: (leaves[w].centre().lon + TURN) as i64, lat: leaves[w].centre().lat } == across);
    assert(is_seam_link(leaves, c, dist, l));
    lemma_link_is_edge(out, leaves, c, dist, charts, ports, l)
}

/// Every edge that does not belong to a canal keeps to the water: it joins two leaves that touch
/// and is not refused for land, joins the two sides of the map and is not, or is a bridge that may
/// be built.
pub proof fn lemma_edges_keep_to_the_water<D: Fn(Point, Point) -> u64>(
    out: GraphOutput,
    leaves: Seq<WaterLeaf>,
    c: LandClassifier,
    dist: D,
    charts: Seq<Seq<Point>>,
    ports: Seq<Point>,
    k: int,
) -> (canal: bool)
    requires
        is_graph_of(out, leaves, c, dist, charts, ports),
        leaves_wf(leaves),
        leaves.len() + ports.len() <= u32::MAX,
        forall|i: int| 0 <= i < ports.len() ==> (#[trigger] ports[i]).within(WORLD as int),
        0 <= k < out.edge_count,
    ensures
        out.edges@.len() == 3 * out.edge_count,
        canal ==> exists|links: Seq<Link>, m: int|
            0 <= m < links.len() && #[trigger] are_canal_links(dist, sea_nodes(leaves, ports), charts, links)
                && (#[trigger] links[m]).0 == out.edges@[3 * k] && links[m].1 == out.edges@[3 * k + 1],
        !canal ==> {
            let i = out.edges@[3 * k] as int;
            let j = out.edges@[3 * k + 1] as int;
            let nodes = sea_nodes(leaves, ports);
            let a = nodes[i].at();
            let b = nodes[j].at();
            &&& 0 <= i < nodes.len()
            &&& 0 <= j < nodes.len()
            &&& holds_edge(out, k, i, j, measured(dist, a, b) as int)
            &&& {
                ||| i < leaves.len() && j < leaves.len() && touching(leaves[i], leaves[j]) && !hits_land(c, a, b)
                ||| i < leaves.len() && j < leaves.len() && {
                    // The leaves reach 180 degrees to a millionth of a degree.
                    &&& 1_000_000 * (HALF_TURN - leaves[i].max_lon) <= DEGREE
                    &&& 1_000_000 * (leaves[j].min_lon + HALF_TURN) <= DEGREE
                    &&& leaves[i].min_lat < leaves[j].max_lat
                    &&& leaves[j].min_lat < leaves[i].max_lat
                    &&& !hits_land(c, a, Point { lon: (b.lon + TURN) as i64, lat: b.lat })
                }
                ||| can_bridge(c, dist, a, b)
            }
        },
{
    let nodes = sea_nodes(leaves, ports);
    let parts = choose|parts: LinkParts| #[trigger]
        parts_of(leaves, c, dist, charts, ports, parts) && out.edge_count == parts.joined.len()
            + parts.canal.len() && out.edges@ == flat_edges(parts.joined + parts.canal);
    let before = parts.adjacent + parts.seam;
    let all = parts.joined + parts.canal;
    lemma_flat_edge(all, k);
    let l = all[k];
    assert forall|i: int| 0 <= i < nodes.len() implies (#[trigger] nodes[i]).at().within(WORLD as int) by {
        if i < leaves.len() {
            assert(leaves[i].wf());
        } else {
            assert(ports[i - leaves.len()].within(WORLD as int));
        }
    }
    if k < before.len() && (nodes.len() == 0 || k < parts.joined.len()) {
        if nodes.len() > 0 {
            assert(parts.joined.take(before.len() as int)[k] == parts.joined[k]);
        }
        assert(before[k] == l);
        if k < parts.adjacent.len() {
            assert(parts.adjacent.contains(l));
            assert(is_adjacent_link(leaves, c, dist, l));
        } else {
            assert(parts.seam[k - parts.adjacent.len()] == l);
            assert(parts.seam.contains(l));
            assert(is_seam_link(leaves, c, dist, l));
        }
        assert(nodes[l.0 as int] == leaves[l.0 as int].centre());
        assert(nodes[l.1 as int] == leaves[l.1 as int].centre());
        false
    } else if k < parts.joined.len() {
        lemma_bridges_over_water(c, dist, nodes, before, parts.joined, k);
        false
    } else {
        let m = k - parts.joined.len();
        assert(parts.canal[m] == l);
        assert(are_canal_links(dist, nodes, charts, parts.canal));
        true
    }
}

/// The nodes of the output come in order, the middles of the leaves and then the ports, rounded to
/// a hundred-thousandth of a degree.
pub proof fn lemma_nodes_are_where_they_should<D: Fn(Point, Point) -> u64>(
    out: GraphOutput,
    leaves: Seq<WaterLeaf>,
    c: LandClassifier,
    dist: D,
    charts: Seq<Seq<Point>>,
    ports: Seq<Point>,
    v: int,
)
    requires
        is_graph_of(out, leaves, c, dist, charts, ports),
        leaves_wf(leaves),
        0 <= v < leaves.len() + ports.len(),
    ensures
        out.node_count >= leaves.len() + ports.len(),
        out.nodes@.len() == 3 * out.node_count,
        v < leaves.len() ==> {
            let l = leaves[v];
            &&& -25_602 <= 2 * (25_600 * out.nodes@[3 * v] - (l.min_lon + l.max_lon)) <= 25_602
            &&& -25_602 <= 2 * (25_600 * out.nodes@[3 * v + 1] - (l.min_lat + l.max_lat)) <= 25_602
            &&& out.nodes@[3 * v + 2] == l.depth
        },
        v >= leaves.len() ==> {
            let p = ports[v - leaves.len()];
            &&& -12_800 <= 2 * (12_800 * out.nodes@[3 * v] - p.lon) <= 12_800
            &&& -12_800 <= 2 * (12_800 * out.nodes@[3 * v + 1] - p.lat) <= 12_800
            &&& out.nodes@[3 * v + 2] == 1
        },
{
    let nodes = sea_nodes(leaves, ports) + canals_nodes(charts, charts.len() as int);
    let n = nodes[v];
    assert((3 * v) / 3 == v && (3 * v + 1) / 3 == v && (3 * v + 2) / 3 == v);
    assert((3 * v) % 3 == 0 && (3 * v + 1) % 3 == 1 && (3 * v + 2) % 3 == 2);
    lemma_rounded(n.lon as int, 12_800);
    lemma_rounded(n.lat as int, 12_800);
    assert(flat_nodes(nodes).len() == 3 * nodes.len());
    if v < leaves.len() {
        assert(leaves[v].wf());
        assert(n == leaves[v].centre());
    } else {
        assert(n == port_nodes(ports)[v - leaves.len()]);
    }
}

proof fn lemma_end_link<D: Fn(Point, Point) -> u64>(dist: D, at: Point, id: int, near: Seq<NodeEntry>, k: int, m: int)
    requires
        0 <= m < k <= near.len(),
        measured(dist, at, near[m].at) < 100 * KM,
    ensures
        end_links(dist, at, id, near, k).contains((id as u32, near[m].id, measured(dist, at, near[m].at))),
    decreases k,
{
    let l: Link = (id as u32, near[m].id, measured(dist, at, near[m].at));
    let before = end_links(dist, at, id, near, k - 1);
    let all = end_links(dist, at, id, near, k);
    if m == k - 1 {
        assert(all[before.len() as int] == l);
    } else {
        lemma_end_link(dist, at, id, near, k - 1, m);
        let i = choose|i: int| 0 <= i < before.len() && before[i] == l;
        assert(all[i] == l);
    }
}

/// Both ends of a canal lead out to sea: each is linked to all of the five nodes closest to it, or
/// of as many as there are, that are closer than 100 kilometres.
pub proof fn lemma_canal_leads_out<D: Fn(Point, Point) -> u64>(
    dist: D,
    nodes: Seq<GNode>,
    charts: Seq<Seq<Point>>,
    links: Seq<Link>,
    k: int,
    far_end: bool,
) -> (near: Seq<NodeEntry>)
    requires
        are_canal_links(dist, nodes, charts, links),
        0 <= k < charts.len(),
        charts[k].len() >= 2,
        nodes.len() <= u32::MAX,
    ensures
        near.len() == 5 || (near.len() < 5 && near.len() == nodes.len()),
        ({
            let base = nodes.len() + canals_nodes(charts, k).len();
            let at = if far_end {
                charts[k].last()
            } else {
                charts[k].first()
            };
            let id = if far_end {
                base + charts[k].len() - 1
            } else {
                base as int
            };
            &&& forall|m: int| 0 <= m < near.len() ==> (#[trigger] near[m]).id < nodes.len() && near[m].at
                == nodes[near[m].id as int].at()
            &&& forall|e: NodeEntry, m: int|
                0 <= m < near.len() && #[trigger] numbered(nodes).contains(e) && !near.contains(e) ==> dist2(
                    (#[trigger] near[m]).at,
                    at,
                ) <= dist2(e.at, at)
            &&& forall|m: int|
                0 <= m < near.len() && measured(dist, at, near[m].at) < 100 * KM ==> links.contains(
                    (id as u32, (#[trigger] near[m]).id, measured(dist, at, near[m].at)),
                )
        }),
{
    let lists = choose|near: Seq<(Seq<NodeEntry>, Seq<NodeEntry>)>| #[trigger]
        near_ends(nodes, charts, near, charts.len() as int) && links == crate::graph_builder::canals_links(
            dist,
            charts,
            nodes.len() as int,
            near,
            charts.len() as int,
        );
    let path = charts[k];
    let base = nodes.len() + canals_nodes(charts, k).len();
    let own = canal_links(dist, path, base as int, lists[k]);
    let (at, id, near) = if far_end {
        (path.last(), base + path.len() - 1, lists[k].1)
    } else {
        (path.first(), base as int, lists[k].0)
    };
    assert(numbered(nodes).to_multiset().len() == nodes.len()) by {
        crate::spatial::lemma_node_items_of_seq(numbered(nodes));
    }
    lemma_nearest_of_seq(numbered(nodes), at, 5, near);
    lemma_others_further(numbered(nodes), at, 5, near);
    assert forall|m: int| 0 <= m < near.len() && measured(dist, at, near[m].at) < 100 * KM implies links.contains(
        (id as u32, (#[trigger] near[m]).id, measured(dist, at, near[m].at)),
    ) by {
        let l: Link = (id as u32, near[m].id, measured(dist, at, near[m].at));
        lemma_end_link(dist, at, id, near, near.len() as int, m);
        let ends = end_links(dist, at, id, near, near.len() as int);
        let i = choose|i: int| 0 <= i < ends.len() && ends[i] == l;
        let chain = crate::graph_builder::chain_links(dist, path, base as int, path.len() - 1);
        let first = end_links(dist, path.first(), base as int, lists[k].0, lists[k].0.len() as int);
        if far_end {
            assert(own[chain.len() + first.len() + i] == l);
        } else {
            assert(own[chain.len() + i] == l);
        }
        assert(own.contains(l));
        lemma_canal_within(dist, charts, nodes.len() as int, lists, k, charts.len() as int, l);
    }
    near
}

} // verus!
