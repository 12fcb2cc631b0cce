//! The routing graph in compressed sparse rows, with an index of its main component.
use vstd::multiset::Multiset;
use vstd::prelude::*;

use crate::geo::{dist2, Point, WORLD};
use crate::components::{
    counts_labels, find_labels, is_last_greatest, joined, joins, label_components, label_count,
    lemma_component_count, lemma_label_count, linked, rows_hold_neighbours,
};
use crate::graph_builder::Link;
use crate::spatial::{
    closest_nodes, is_nearest, lemma_node_items_of_seq, load_nodes, nearest_node, node_items,
    NodeEntry, NodeIndex,
};

verus! {

/// Bound on depths.
pub const DEPTH_MAX: i64 = 1_048_576;

/// Bound on the length of one edge: about 35,184 kilometres.
pub const LENGTH_MAX: u64 = 35_184_372_088_832;

/// The mark of a node that belongs to no component, for it has no edges.
pub const NO_COMPONENT: u32 = 0xffff_ffff;

/// A graph as flat lists of triples: longitude, latitude and depth of each node; the two
/// nodes and the length of each edge.
pub struct RawGraph {
    pub node_count: usize,
    pub nodes: Vec<i64>,
    pub edges: Vec<u64>,
}

/// One direction of an edge, as seen from the node it leaves.
#[derive(Clone, Copy, PartialEq, Eq, Structural, Debug)]
pub struct HalfEdge {
    pub to: u32,
    pub length: u64,
    /// The greater of the depths of the two ends.
    pub depth: i64,
}

/// The edges of a flat list.
pub open spec fn raw_links(edges: Seq<u64>) -> Seq<Link> {
    Seq::new(
        edges.len() / 3,
        |e: int| (edges[3 * e] as u32, edges[3 * e + 1] as u32, edges[3 * e + 2]),
    )
}

impl RawGraph {
    /// There are as many nodes as the count says, and every edge joins two of them.
    pub open spec fn wf(&self) -> bool {
        &&& self.node_count < u32::MAX
        &&& 3 * self.node_count <= self.nodes.len()
        &&& forall|i: int| 0 <= i < self.node_count ==> #[trigger] node_valid(self.nodes@, i)
        &&& forall|e: int|
            0 <= e < self.edges.len() / 3 ==> #[trigger] edge_valid(
                self.edges@,
                self.node_count as int,
                e,
            )
    }
}

/// Node `i` of a flat list lies on the map, at a depth within bounds.
pub open spec fn node_valid(nodes: Seq<i64>, i: int) -> bool {
    &&& node_at(nodes, i).within(WORLD as int)
    &&& -DEPTH_MAX <= node_depth(nodes, i) <= DEPTH_MAX
}

/// Edge `e` of a flat list joins two of `n` nodes.
pub open spec fn edge_valid(edges: Seq<u64>, n: int, e: int) -> bool {
    edges[3 * e] < n && edges[3 * e + 1] < n && edges[3 * e + 2] <= LENGTH_MAX
}

/// The position of node `i` of a flat list.
pub open spec fn node_at(nodes: Seq<i64>, i: int) -> Point {
    Point { lon: nodes[3 * i], lat: nodes[3 * i + 1] }
}

/// The depth of node `i` of a flat list.
pub open spec fn node_depth(nodes: Seq<i64>, i: int) -> i64 {
    nodes[3 * i + 2]
}

/// The greater of the depths of the two ends of an edge.
pub open spec fn link_depth(nodes: Seq<i64>, l: Link) -> i64 {
    let a = node_depth(nodes, l.0 as int);
    let b = node_depth(nodes, l.1 as int);
    if a >= b {
        a
    } else {
        b
    }
}

/// What node `v` sees of an edge: each end that lies at `v` is a half edge to the other.
pub open spec fn seen(nodes: Seq<i64>, l: Link, v: int) -> Seq<HalfEdge> {
    let d = link_depth(nodes, l);
    let out = if l.0 == v {
        seq![HalfEdge { to: l.1, length: l.2, depth: d }]
    } else {
        Seq::empty()
    };
    if l.1 == v {
        out.push(HalfEdge { to: l.0, length: l.2, depth: d })
    } else {
        out
    }
}

/// The half edges of node `v` among the first `k` edges, in their order.
pub open spec fn half_edges(nodes: Seq<i64>, links: Seq<Link>, v: int, k: int) -> Seq<HalfEdge>
    decreases k,
{
    if k <= 0 {
        Seq::empty()
    } else {
        half_edges(nodes, links, v, k - 1) + seen(nodes, links[k - 1], v)
    }
}

/// The greatest depth of the first `k` nodes, and zero at least.
pub open spec fn deepest(nodes: Seq<i64>, k: int) -> i64
    decreases k,
{
    if k <= 0 {
        0
    } else {
        let before = deepest(nodes, k - 1);
        if node_depth(nodes, k - 1) > before {
            node_depth(nodes, k - 1)
        } else {
            before
        }
    }
}

/// How many half edges the first `v` nodes have among the first `k` edges.
spec fn total(nodes: Seq<i64>, links: Seq<Link>, v: int, k: int) -> int
    decreases v,
{
    if v <= 0 {
        0
    } else {
        total(nodes, links, v - 1, k) + half_edges(nodes, links, v - 1, k).len()
    }
}

proof fn lemma_total_step(nodes: Seq<i64>, links: Seq<Link>, v: int, k: int)
    requires
        0 <= v,
        0 < k <= links.len(),
    ensures
        total(nodes, links, v, k) == total(nodes, links, v, k - 1) + (if links[k - 1].0 < v {
            1int
        } else {
            0int
        }) + (if links[k - 1].1 < v {
            1int
        } else {
            0int
        }),
    decreases v,
{
    if v > 0 {
        lemma_total_step(nodes, links, v - 1, k);
    }
}

proof fn lemma_total_bound(nodes: Seq<i64>, links: Seq<Link>, v: int, k: int)
    requires
        0 <= v,
        0 <= k <= links.len(),
    ensures
        0 <= total(nodes, links, v, k) <= 2 * k,
    decreases k,
{
    if k > 0 {
        lemma_total_bound(nodes, links, v, k - 1);
        lemma_total_step(nodes, links, v, k);
    } else {
        lemma_total_zero(nodes, links, v);
    }
}

/// Every edge has two halves.
proof fn lemma_total_all(nodes: Seq<i64>, links: Seq<Link>, n: int, k: int)
    requires
        0 <= n,
        0 <= k <= links.len(),
        forall|e: int| 0 <= e < links.len() ==> (#[trigger] links[e]).0 < n && links[e].1 < n,
    ensures
        total(nodes, links, n, k) == 2 * k,
    decreases k,
{
    if k > 0 {
        lemma_total_all(nodes, links, n, k - 1);
        lemma_total_step(nodes, links, n, k);
        assert(links[k - 1].0 < n && links[k - 1].1 < n);
    } else {
        lemma_total_zero(nodes, links, n);
    }
}

proof fn lemma_total_zero(nodes: Seq<i64>, links: Seq<Link>, v: int)
    requires
        0 <= v,
    ensures
        total(nodes, links, v, 0) == 0,
    decreases v,
{
    if v > 0 {
        lemma_total_zero(nodes, links, v - 1);
    }
}

proof fn lemma_total_grows(nodes: Seq<i64>, links: Seq<Link>, u: int, v: int, k: int)
    requires
        0 <= u <= v,
    ensures
        total(nodes, links, u, k) <= total(nodes, links, v, k),
        u < v ==> total(nodes, links, u, k) + half_edges(nodes, links, u, k).len() <= total(
            nodes,
            links,
            v,
            k,
        ),
    decreases v - u,
{
    if u < v {
        lemma_total_grows(nodes, links, u, v - 1, k);
    }
}

/// Later edges only add half edges at the end.
proof fn lemma_half_edges_prefix(nodes: Seq<i64>, links: Seq<Link>, v: int, j: int, k: int)
    requires
        0 <= j <= k,
    ensures
        half_edges(nodes, links, v, j).len() <= half_edges(nodes, links, v, k).len(),
        forall|i: int|
            0 <= i < half_edges(nodes, links, v, j).len() ==> #[trigger] half_edges(
                nodes,
                links,
                v,
                k,
            )[i] == half_edges(nodes, links, v, j)[i],
    decreases k,
{
    if j < k {
        lemma_half_edges_prefix(nodes, links, v, j, k - 1);
    }
}

/// Row starts and the three columns of the rows.
struct Rows {
    offsets: Vec<usize>,
    targets: Vec<u32>,
    lengths: Vec<u64>,
    depths: Vec<i64>,
}

/// Slot `i` of the row that starts at `at` holds the half edge.
spec fn slot_holds(targets: Seq<u32>, lengths: Seq<u64>, depths: Seq<i64>, at: int, i: int, h: HalfEdge) -> bool {
    targets[at + i] == h.to && lengths[at + i] == h.length && depths[at + i] == h.depth
}

fn filled(n: usize, value: usize) -> (v: Vec<usize>)
    ensures
        v.len() == n,
        forall|i: int| 0 <= i < n ==> #[trigger] v[i] == value,
{
    let mut v: Vec<usize> = Vec::new();
    let mut i: usize = 0;
    while i < n
        invariant
            i <= n,
            v.len() == i,
            forall|k: int| 0 <= k < i ==> #[trigger] v[k] == value,
        decreases n - i,
    {
        v.push(value);
        i = i + 1;
    }
    v
}

/// Writing the two halves of edge `e` into the next free slots of their rows keeps what
/// the rows hold and adds the two halves.
proof fn lemma_place(
    nodes: Seq<i64>,
    links: Seq<Link>,
    n: int,
    e: int,
    u: int,
    i: int,
    targets: Seq<u32>,
    lengths: Seq<u64>,
    depths: Seq<i64>,
    p: int,
    q: int,
)
    requires
        0 <= e < links.len(),
        links[e].0 < n,
        links[e].1 < n,
        0 <= u < n,
        0 <= i < half_edges(nodes, links, u, e + 1).len(),
        targets.len() == total(nodes, links, n, links.len() as int),
        lengths.len() == targets.len(),
        depths.len() == targets.len(),
        p == total(nodes, links, links[e].0 as int, links.len() as int) + half_edges(
            nodes,
            links,
            links[e].0 as int,
            e,
        ).len(),
        q == total(nodes, links, links[e].1 as int, links.len() as int) + half_edges(
            nodes,
            links,
            links[e].1 as int,
            e,
        ).len() + (if links[e].0 == links[e].1 {
            1int
        } else {
            0int
        }),
        i < half_edges(nodes, links, u, e).len() ==> slot_holds(
            targets,
            lengths,
            depths,
            total(nodes, links, u, links.len() as int),
            i,
            half_edges(nodes, links, u, e)[i],
        ),
    ensures
        slot_holds(
            targets.update(p, links[e].1).update(q, links[e].0),
            lengths.update(p, links[e].2).update(q, links[e].2),
            depths.update(p, link_depth(nodes, links[e])).update(q, link_depth(nodes, links[e])),
            total(nodes, links, u, links.len() as int),
            i,
            half_edges(nodes, links, u, e + 1)[i],
        ),
{
    let m = links.len() as int;
    let l = links[e];
    let from = l.0 as int;
    let to = l.1 as int;
    let old_row = half_edges(nodes, links, u, e);
    let row = half_edges(nodes, links, u, e + 1);
    let at = total(nodes, links, u, m);
    lemma_half_edges_prefix(nodes, links, u, e + 1, m);
    lemma_half_edges_prefix(nodes, links, from, e + 1, m);
    lemma_half_edges_prefix(nodes, links, to, e + 1, m);
    lemma_total_bound(nodes, links, u, m);
    lemma_total_bound(nodes, links, from, m);
    lemma_total_bound(nodes, links, to, m);
    lemma_total_grows(nodes, links, u, n, m);
    lemma_total_grows(nodes, links, from, n, m);
    lemma_total_grows(nodes, links, to, n, m);
    if u < from {
        lemma_total_grows(nodes, links, u, from, m);
    } else if u > from {
        lemma_total_grows(nodes, links, from, u, m);
    }
    if u < to {
        lemma_total_grows(nodes, links, u, to, m);
    } else if u > to {
        lemma_total_grows(nodes, links, to, u, m);
    }
    if from < to {
        lemma_total_grows(nodes, links, from, to, m);
    } else if to < from {
        lemma_total_grows(nodes, links, to, from, m);
    }
    assert(p != q);
    assert(row =~= old_row + seen(nodes, l, u));
    if i < old_row.len() {
        assert(row[i] == old_row[i]);
        assert(at + i != p);
        assert(at + i != q);
    } else {
        let h = seen(nodes, l, u)[i - old_row.len()];
        assert(row[i] == h);
        if u == from && i == old_row.len() {
            assert(at + i == p);
        } else {
            assert(at + i == q);
        }
    }
}

/// The half edges of each node, row by row.
fn build_rows(raw: &RawGraph) -> (rows: Rows)
    requires
        raw.wf(),
    ensures
        rows_of(*raw, rows.offsets@, rows.targets@, rows.lengths@, rows.depths@),
{
    let n = raw.node_count;
    let m: usize = raw.edges.len() / 3;
    let ghost nodes = raw.nodes@;
    let ghost links = raw_links(raw.edges@);
    let mut degree = filled(n, 0);
    let mut e: usize = 0;
    while e < m
        invariant
            e <= m,
            m == raw.edges.len() / 3,
            n == raw.node_count,
            raw.wf(),
            nodes == raw.nodes@,
            links == raw_links(raw.edges@),
            degree.len() == n,
            forall|v: int|
                0 <= v < n ==> #[trigger] degree[v] == half_edges(nodes, links, v, e as int).len(),
        decreases m - e,
    {
        assert(edge_valid(raw.edges@, raw.node_count as int, e as int));
        let from = raw.edges[3 * e] as usize;
        let to = raw.edges[3 * e + 1] as usize;
        let ghost before = degree@;
        proof {
            lemma_total_bound(nodes, links, n as int, e as int);
            lemma_total_grows(nodes, links, from as int, n as int, e as int);
            lemma_total_grows(nodes, links, to as int, n as int, e as int);
            lemma_total_bound(nodes, links, from as int, e as int);
            lemma_total_bound(nodes, links, to as int, e as int);
            assert(links[e as int].0 == from && links[e as int].1 == to);
        }
        let d = degree[from];
        degree.set(from, d + 1);
        let d = degree[to];
        degree.set(to, d + 1);
        e = e + 1;
    }
    let mut offsets: Vec<usize> = Vec::new();
    offsets.push(0);
    let mut v: usize = 0;
    while v < n
        invariant
            v <= n,
            n == raw.node_count,
            m == raw.edges.len() / 3,
            links == raw_links(raw.edges@),
            degree.len() == n,
            forall|u: int|
                0 <= u < n ==> #[trigger] degree[u] == half_edges(nodes, links, u, m as int).len(),
            offsets.len() == v + 1,
            forall|u: int| 0 <= u <= v ==> #[trigger] offsets[u] == total(nodes, links, u, m as int),
        decreases n - v,
    {
        proof {
            lemma_total_bound(nodes, links, v + 1, m as int);
        }
        let next = offsets[v] + degree[v];
        offsets.push(next);
        v = v + 1;
    }
    let size = offsets[n];
    let mut targets: Vec<u32> = Vec::new();
    let mut lengths: Vec<u64> = Vec::new();
    let mut depths: Vec<i64> = Vec::new();
    let mut s: usize = 0;
    while s < size
        invariant
            s <= size,
            targets.len() == s,
            lengths.len() == s,
            depths.len() == s,
        decreases size - s,
    {
        targets.push(0);
        lengths.push(0);
        depths.push(0);
        s = s + 1;
    }
    let mut cursor = filled(n, 0);
    e = 0;
    while e < m
        invariant
            e <= m,
            m == raw.edges.len() / 3,
            n == raw.node_count,
            raw.wf(),
            nodes == raw.nodes@,
            links == raw_links(raw.edges@),
            offsets.len() == n + 1,
            forall|u: int| 0 <= u <= n ==> #[trigger] offsets[u] == total(nodes, links, u, m as int),
            size == total(nodes, links, n as int, m as int),
            targets.len() == size,
            lengths.len() == size,
            depths.len() == size,
            cursor.len() == n,
            forall|u: int|
                0 <= u < n ==> #[trigger] cursor[u] == half_edges(nodes, links, u, e as int).len(),
            forall|u: int, i: int|
                0 <= u < n && 0 <= i < half_edges(nodes, links, u, e as int).len() ==> slot_holds(
                    targets@,
                    lengths@,
                    depths@,
                    total(nodes, links, u, m as int),
                    i,
                    #[trigger] half_edges(nodes, links, u, e as int)[i],
                ),
        decreases m - e,
    {
        assert(edge_valid(raw.edges@, raw.node_count as int, e as int));
        let from = raw.edges[3 * e] as usize;
        let to = raw.edges[3 * e + 1] as usize;
        let w = raw.edges[3 * e + 2];
        let ghost l = links[e as int];
        proof {
            assert(l.0 == from && l.1 == to && l.2 == w);
            assert(from * 3 + 2 < nodes.len());
            assert(to * 3 + 2 < nodes.len());
        }
        let a = raw.nodes[from * 3 + 2];
        let b = raw.nodes[to * 3 + 2];
        let d: i64 = if a >= b {
            a
        } else {
            b
        };
        assert(d == link_depth(nodes, l));
        let ghost t0 = targets@;
        let ghost l0 = lengths@;
        let ghost d0 = depths@;
        let ghost c0 = cursor@;
        proof {
            lemma_half_edges_prefix(nodes, links, from as int, e + 1, m as int);
            lemma_half_edges_prefix(nodes, links, to as int, e + 1, m as int);
            lemma_total_grows(nodes, links, from as int, n as int, m as int);
            lemma_total_grows(nodes, links, to as int, n as int, m as int);
        }
        let c = cursor[from];
        let p = offsets[from] + c;
        targets.set(p, to as u32);
        lengths.set(p, w);
        depths.set(p, d);
        cursor.set(from, c + 1);
        let c = cursor[to];
        let q = offsets[to] + c;
        targets.set(q, from as u32);
        lengths.set(q, w);
        depths.set(q, d);
        cursor.set(to, c + 1);
        proof {
            assert forall|u: int, i: int|
                0 <= u < n && 0 <= i < half_edges(nodes, links, u, e + 1).len() implies slot_holds(
                targets@,
                lengths@,
                depths@,
                total(nodes, links, u, m as int),
                i,
                #[trigger] half_edges(nodes, links, u, e + 1)[i],
            ) by {
                lemma_place(nodes, links, n as int, e as int, u, i, t0, l0, d0, p as int, q as int);
            }
        }
        e = e + 1;
    }
    Rows { offsets, targets, lengths, depths }
}

/// A node's half edges lead to the nodes it is joined to.
pub(crate) proof fn lemma_half_edges_joined(nodes: Seq<i64>, links: Seq<Link>, v: int, k: int)
    requires
        0 <= k <= links.len(),
    ensures
        forall|i: int|
            0 <= i < half_edges(nodes, links, v, k).len() ==> {
                let h = #[trigger] half_edges(nodes, links, v, k)[i];
                exists|e: int| 0 <= e < k && joins(#[trigger] links[e], v, h.to as int)
            },
        forall|u: int, e: int|
            0 <= e < k && #[trigger] joins(links[e], v, u) ==> exists|i: int|
                0 <= i < half_edges(nodes, links, v, k).len() && (#[trigger] half_edges(
                    nodes,
                    links,
                    v,
                    k,
                )[i]).to == u,
    decreases k,
{
    if k > 0 {
        lemma_half_edges_joined(nodes, links, v, k - 1);
        let before = half_edges(nodes, links, v, k - 1);
        let new = seen(nodes, links[k - 1], v);
        let now = half_edges(nodes, links, v, k);
        assert(now == before + new);
        assert forall|i: int| 0 <= i < now.len() implies {
            let h = #[trigger] now[i];
            exists|e: int| 0 <= e < k && joins(#[trigger] links[e], v, h.to as int)
        } by {
            if i < before.len() {
                assert(now[i] == before[i]);
                let e = choose|e: int|
                    0 <= e < k - 1 && joins(#[trigger] links[e], v, before[i].to as int);
                assert(joins(links[e], v, now[i].to as int));
            } else {
                assert(now[i] == new[i - before.len()]);
                assert(joins(links[k - 1], v, now[i].to as int));
            }
        }
        assert forall|u: int, e: int| 0 <= e < k && #[trigger] joins(links[e], v, u) implies exists|i: int|
            0 <= i < now.len() && (#[trigger] now[i]).to == u by {
            if e < k - 1 {
                let i = choose|i: int| 0 <= i < before.len() && (#[trigger] before[i]).to == u;
                assert(now[i] == before[i]);
            } else {
                let l = links[k - 1];
                if l.0 == v && l.1 == u {
                    assert(new[0].to == u);
                    assert(now[before.len() as int] == new[0]);
                } else {
                    let j = new.len() - 1;
                    assert(new[j].to == u);
                    assert(now[before.len() + j] == new[j]);
                }
            }
        }
    }
}

/// The nodes of the main component among the first `k`.
pub open spec fn main_nodes(nodes: Seq<i64>, labels: Seq<u32>, main: u32, k: int) -> Seq<NodeEntry>
    decreases k,
{
    if k <= 0 {
        Seq::empty()
    } else {
        let before = main_nodes(nodes, labels, main, k - 1);
        if labels[k - 1] == main {
            before.push(NodeEntry { id: (k - 1) as u32, at: node_at(nodes, k - 1) })
        } else {
            before
        }
    }
}

pub struct Graph {
    pub node_count: usize,
    pub edge_count: usize,
    pub max_depth: i64,
    /// Longitude, latitude and depth of each node.
    pub nodes: Vec<i64>,
    /// The half edges of node `i` are at `offsets[i]` up to `offsets[i + 1]`.
    pub offsets: Vec<usize>,
    pub targets: Vec<u32>,
    pub base_weights: Vec<u64>,
    /// The greater of the depths of the two ends of each half edge.
    pub edge_depths: Vec<i64>,
    /// The component of each node.
    pub component: Vec<u32>,
    pub comp_sizes: Vec<usize>,
    /// The component that routes run on.
    pub main_comp: u32,
    /// The nodes of the main component.
    pub spatial: NodeIndex,
}

impl Graph {
    /// The position of a node.
    pub open spec fn at(&self, v: int) -> Point {
        node_at(self.nodes@, v)
    }

    /// The half edge in a slot of the rows.
    pub open spec fn slot(&self, i: int) -> HalfEdge {
        HalfEdge { to: self.targets@[i], length: self.base_weights@[i], depth: self.edge_depths@[i] }
    }

    /// The half edges of a node.
    pub open spec fn row(&self, v: int) -> Seq<HalfEdge> {
        Seq::new(
            (self.offsets@[v + 1] - self.offsets@[v]) as nat,
            |i: int| self.slot(self.offsets@[v] + i),
        )
    }

    /// The rows hold edges between nodes that there are, and the index lists nodes.
    pub open spec fn wf(&self) -> bool {
        let n = self.node_count as int;
        &&& n < u32::MAX
        &&& 3 * n <= self.nodes.len()
        &&& forall|v: int| 0 <= v < n ==> (#[trigger] self.at(v)).within(WORLD as int)
        &&& 0 <= self.max_depth <= DEPTH_MAX
        &&& self.offsets.len() == n + 1
        &&& self.base_weights.len() == self.targets.len()
        &&& self.edge_depths.len() == self.targets.len()
        &&& forall|v: int|
            0 <= v < n ==> self.offsets@[v] <= #[trigger] self.offsets@[v + 1] <= self.targets.len()
        &&& forall|i: int|
            0 <= i < self.targets.len() ==> {
                &&& (#[trigger] self.slot(i)).to < n
                &&& self.slot(i).length <= LENGTH_MAX
                &&& -DEPTH_MAX <= self.slot(i).depth <= self.max_depth
            }
        &&& self.component.len() == n
        &&& forall|e: NodeEntry| #[trigger]
            node_items(self.spatial).contains(e) ==> e.id < n && e.at == self.at(e.id as int)
    }

    /// The graph is the one that the flat lists describe.
    pub open spec fn is_of(&self, raw: RawGraph) -> bool {
        let n = raw.node_count as int;
        let links = raw_links(raw.edges@);
        &&& self.node_count == raw.node_count
        &&& self.edge_count == links.len()
        &&& self.nodes@ == raw.nodes@
        &&& self.max_depth == deepest(raw.nodes@, n)
        &&& self.offsets@[0] == 0
        &&& self.offsets@[n] == 2 * links.len()
        &&& self.targets.len() == 2 * links.len()
        &&& forall|v: int|
            0 <= v < n ==> #[trigger] self.row(v) == half_edges(raw.nodes@, links, v, links.len() as int)
        &&& exists|firsts: Seq<int>| #[trigger]
            label_components(links, self.component@, firsts) && firsts.len() == self.comp_sizes.len()
        &&& counts_labels(self.component@, self.comp_sizes@)
        &&& is_last_greatest(self.comp_sizes@, self.main_comp as int)
        &&& node_items(self.spatial) == main_nodes(
            raw.nodes@,
            self.component@,
            self.main_comp,
            n,
        ).to_multiset()
    }
}

/// The place of the greatest number, the last of several.
fn last_greatest(sizes: &Vec<usize>) -> (k: usize)
    ensures
        is_last_greatest(sizes@, k as int),
        sizes.len() > 0 ==> k < sizes.len(),
{
    let mut k: usize = 0;
    let mut i: usize = 1;
    while i < sizes.len()
        invariant
            1 <= i,
            sizes.len() > 0 ==> k < i <= sizes.len(),
            sizes.len() == 0 ==> k == 0,
            forall|j: int|
                0 <= j < i && j < sizes.len() ==> #[trigger] sizes[j] <= sizes[k as int] && (j > k
                    ==> sizes[j] < sizes[k as int]),
        decreases sizes.len() - i,
    {
        if sizes[i] >= sizes[k] {
            k = i;
        }
        i = i + 1;
    }
    k
}

proof fn lemma_main_nodes(nodes: Seq<i64>, labels: Seq<u32>, main: u32, k: int)
    requires
        0 <= k <= labels.len(),
        k < u32::MAX,
    ensures
        forall|e: NodeEntry| #[trigger]
            main_nodes(nodes, labels, main, k).contains(e) <==> e.id < k && labels[e.id as int] == main
                && e.at == node_at(nodes, e.id as int),
    decreases k,
{
    if k > 0 {
        lemma_main_nodes(nodes, labels, main, k - 1);
        let before = main_nodes(nodes, labels, main, k - 1);
        let now = main_nodes(nodes, labels, main, k);
        assert forall|e: NodeEntry| #[trigger] now.contains(e) <==> e.id < k && labels[e.id as int]
            == main && e.at == node_at(nodes, e.id as int) by {
            if now.contains(e) {
                let m = choose|m: int| 0 <= m < now.len() && now[m] == e;
                if m < before.len() {
                    assert(before[m] == e);
                    assert(before.contains(e));
                }
            }
            if before.contains(e) {
                let m = choose|m: int| 0 <= m < before.len() && before[m] == e;
                assert(now[m] == e);
            }
            if e.id == k - 1 && labels[k - 1] == main && e.at == node_at(nodes, k - 1) {
                assert(now[before.len() as int] == e);
            }
        }
    }
}

proof fn lemma_link_depth(nodes: Seq<i64>, n: int, k: int, i: int)
    requires
        0 <= i < k <= n,
    ensures
        node_depth(nodes, i) <= deepest(nodes, k),
        0 <= deepest(nodes, k),
    decreases k,
{
    if i < k - 1 {
        lemma_link_depth(nodes, n, k - 1, i);
    } else {
        lemma_deepest_positive(nodes, k - 1);
    }
}

proof fn lemma_deepest_positive(nodes: Seq<i64>, k: int)
    ensures
        0 <= deepest(nodes, k),
    decreases k,
{
    if k > 0 {
        lemma_deepest_positive(nodes, k - 1);
    }
}

/// Each half edge is part of an edge.
proof fn lemma_half_edge_source(nodes: Seq<i64>, links: Seq<Link>, v: int, k: int, i: int)
    requires
        0 <= k <= links.len(),
        0 <= i < half_edges(nodes, links, v, k).len(),
    ensures
        exists|e: int|
            0 <= e < k && joins(
                #[trigger] links[e],
                v,
                half_edges(nodes, links, v, k)[i].to as int,
            ) && half_edges(nodes, links, v, k)[i].length == links[e].2 && half_edges(
                nodes,
                links,
                v,
                k,
            )[i].depth == link_depth(nodes, links[e]),
    decreases k,
{
    let before = half_edges(nodes, links, v, k - 1);
    if i < before.len() {
        lemma_half_edge_source(nodes, links, v, k - 1, i);
    } else {
        assert(half_edges(nodes, links, v, k)[i] == seen(nodes, links[k - 1], v)[i - before.len()]);
        assert(joins(links[k - 1], v, half_edges(nodes, links, v, k)[i].to as int));
    }
}

/// Every slot lies in some row.
proof fn lemma_slot_row(nodes: Seq<i64>, links: Seq<Link>, n: int, k: int, i: int) -> (v: int)
    requires
        0 <= n,
        0 <= i < total(nodes, links, n, k),
    ensures
        0 <= v < n,
        total(nodes, links, v, k) <= i < total(nodes, links, v + 1, k),
    decreases n,
{
    if i >= total(nodes, links, n - 1, k) {
        n - 1
    } else {
        lemma_slot_row(nodes, links, n - 1, k, i)
    }
}

/// The rows hold the half edges of each node.
spec fn rows_of(
    raw: RawGraph,
    offsets: Seq<usize>,
    targets: Seq<u32>,
    lengths: Seq<u64>,
    depths: Seq<i64>,
) -> bool {
    let n = raw.node_count as int;
    let links = raw_links(raw.edges@);
    let m = links.len() as int;
    &&& offsets.len() == n + 1
    &&& forall|v: int| 0 <= v <= n ==> #[trigger] offsets[v] == total(raw.nodes@, links, v, m)
    &&& targets.len() == total(raw.nodes@, links, n, m)
    &&& lengths.len() == targets.len()
    &&& depths.len() == targets.len()
    &&& forall|v: int, i: int|
        0 <= v < n && 0 <= i < half_edges(raw.nodes@, links, v, m).len() ==> slot_holds(
            targets,
            lengths,
            depths,
            total(raw.nodes@, links, v, m),
            i,
            #[trigger] half_edges(raw.nodes@, links, v, m)[i],
        )
}

proof fn lemma_rows(
    raw: RawGraph,
    offsets: Seq<usize>,
    targets: Seq<u32>,
    lengths: Seq<u64>,
    depths: Seq<i64>,
)
    requires
        raw.wf(),
        rows_of(raw, offsets, targets, lengths, depths),
    ensures
        forall|v: int|
            0 <= v < raw.node_count ==> offsets[v] <= #[trigger] offsets[v + 1] <= targets.len(),
        forall|i: int|
            0 <= i < targets.len() ==> {
                &&& (#[trigger] targets[i]) < raw.node_count
                &&& lengths[i] <= LENGTH_MAX
                &&& -DEPTH_MAX <= depths[i] <= deepest(raw.nodes@, raw.node_count as int)
            },
        rows_hold_neighbours(raw_links(raw.edges@), offsets, targets),
        forall|v: int|
            #![trigger offsets[v]]
            0 <= v < raw.node_count ==> offsets[v + 1] - offsets[v] == half_edges(
                raw.nodes@,
                raw_links(raw.edges@),
                v,
                raw_links(raw.edges@).len() as int,
            ).len(),
{
    let n = raw.node_count as int;
    let nodes = raw.nodes@;
    let links = raw_links(raw.edges@);
    let m = links.len() as int;
    assert forall|v: int| 0 <= v < n implies offsets[v] <= #[trigger] offsets[v + 1] <= targets.len()
        && offsets[v + 1] - offsets[v] == half_edges(nodes, links, v, m).len() by {
        lemma_total_grows(nodes, links, v + 1, n, m);
        assert(offsets[v] == total(nodes, links, v, m));
    }
    assert forall|v: int|
        #![trigger offsets[v]]
        0 <= v < n implies offsets[v + 1] - offsets[v] == half_edges(nodes, links, v, m).len() by {
        assert(offsets[v] <= offsets[v + 1]);
    }
    assert forall|i: int| 0 <= i < targets.len() implies {
        &&& (#[trigger] targets[i]) < n
        &&& lengths[i] <= LENGTH_MAX
        &&& -DEPTH_MAX <= depths[i] <= deepest(nodes, n)
    } by {
        let v = lemma_slot_row(nodes, links, n, m, i);
        let at = total(nodes, links, v, m);
        let row = half_edges(nodes, links, v, m);
        assert(slot_holds(targets, lengths, depths, at, i - at, row[i - at]));
        lemma_half_edge_source(nodes, links, v, m, i - at);
        let e = choose|e: int|
            0 <= e < m && joins(#[trigger] links[e], v, row[i - at].to as int) && row[i - at].length
                == links[e].2 && row[i - at].depth == link_depth(nodes, links[e]);
        assert(edge_valid(raw.edges@, raw.node_count as int, e as int));
        let l = links[e];
        assert(l.0 < n && l.1 < n);
        lemma_link_depth(nodes, n, n, l.0 as int);
        lemma_link_depth(nodes, n, n, l.1 as int);
        assert(node_valid(nodes, l.0 as int) && node_valid(nodes, l.1 as int));
    }
    assert forall|v: int, i: int|
        #![trigger offsets[v], targets[i]]
        0 <= v < n && offsets[v] <= i < offsets[v + 1] implies joined(links, v, targets[i] as int) by {
        let at = total(nodes, links, v, m);
        let row = half_edges(nodes, links, v, m);
        assert(offsets[v] == at);
        assert(offsets[v] <= offsets[v + 1]);
        assert(slot_holds(targets, lengths, depths, at, i - at, row[i - at]));
        lemma_half_edge_source(nodes, links, v, m, i - at);
    }
    assert forall|v: int, u: int| 0 <= v < n && #[trigger] joined(links, v, u) implies exists|i: int|
        offsets[v] <= i < offsets[v + 1] && #[trigger] targets[i] == u by {
        let at = total(nodes, links, v, m);
        let row = half_edges(nodes, links, v, m);
        assert(offsets[v] <= offsets[v + 1]);
        let e = choose|e: int| 0 <= e < links.len() && joins(#[trigger] links[e], v, u);
        lemma_half_edges_joined(nodes, links, v, m);
        assert(joins(links[e], v, u));
        let i = choose|i: int| 0 <= i < row.len() && (#[trigger] row[i]).to == u;
        assert(slot_holds(targets, lengths, depths, at, i, row[i]));
        assert(targets[at + i] == u);
    }
}

impl Graph {
    /// Builds the rows, finds the components, and indexes the nodes of the largest one:
    /// routes always run on the main ocean.
    pub fn load(raw: RawGraph) -> (g: Graph)
        requires
            raw.wf(),
        ensures
            g.wf(),
            g.is_of(raw),
    {
        let n = raw.node_count;
        let ghost nodes = raw.nodes@;
        let ghost links = raw_links(raw.edges@);
        let ghost m = links.len() as int;
        let mut max_depth: i64 = 0;
        let mut i: usize = 0;
        while i < n
            invariant
                i <= n,
                n == raw.node_count,
                raw.wf(),
                max_depth == deepest(raw.nodes@, i as int),
                0 <= max_depth <= DEPTH_MAX,
            decreases n - i,
        {
            assert(node_valid(raw.nodes@, i as int));
            let d = raw.nodes[i * 3 + 2];
            if d > max_depth {
                max_depth = d;
            }
            i = i + 1;
        }
        let edge_count = raw.edges.len() / 3;
        let rows = build_rows(&raw);
        proof {
            lemma_rows(raw, rows.offsets@, rows.targets@, rows.lengths@, rows.depths@);
        }
        let (component, comp_sizes) = find_labels(&rows.offsets, &rows.targets, Ghost(links));
        let main = last_greatest(&comp_sizes);
        let ghost firsts = choose|firsts: Seq<int>| #[trigger]
            label_components(links, component@, firsts) && firsts.len() == comp_sizes.len();
        proof {
            lemma_component_count(links, component@, firsts);
        }
        let main_comp = main as u32;
        let mut entries: Vec<NodeEntry> = Vec::new();
        i = 0;
        while i < n
            invariant
                i <= n,
                n == raw.node_count,
                raw.wf(),
                component.len() == n,
                entries@ == main_nodes(raw.nodes@, component@, main_comp, i as int),
            decreases n - i,
        {
            if component[i] == main_comp {
                let at = Point { lon: raw.nodes[i * 3], lat: raw.nodes[i * 3 + 1] };
                entries.push(NodeEntry { id: i as u32, at });
            }
            i = i + 1;
        }
        let spatial = load_nodes(&entries);
        proof {
            lemma_node_items_of_seq(entries@);
            lemma_main_nodes(raw.nodes@, component@, main_comp, n as int);
        }
        let g = Graph {
            node_count: n,
            edge_count,
            max_depth,
            nodes: raw.nodes,
            offsets: rows.offsets,
            targets: rows.targets,
            base_weights: rows.lengths,
            edge_depths: rows.depths,
            component,
            comp_sizes,
            main_comp,
            spatial,
        };
        proof {
            assert forall|v: int| 0 <= v < n implies #[trigger] g.row(v) == half_edges(nodes, links, v, m) by {
                assert(g.offsets@[v] == total(nodes, links, v, m));
                let row = half_edges(nodes, links, v, m);
                assert forall|i: int| 0 <= i < row.len() implies g.row(v)[i] == row[i] by {
                    assert(slot_holds(
                        g.targets@,
                        g.base_weights@,
                        g.edge_depths@,
                        total(nodes, links, v, m),
                        i,
                        row[i],
                    ));
                }
                assert(g.row(v) =~= row);
            }
            assert forall|v: int| 0 <= v < n implies (#[trigger] g.at(v)).within(WORLD as int) by {
                assert(node_valid(nodes, v));
            }
            assert forall|e: int| 0 <= e < links.len() implies (#[trigger] links[e]).0 < n && links[e].1 < n by {
                assert(edge_valid(raw.edges@, n as int, e));
            }
            lemma_total_all(nodes, links, n as int, m);
            assert(total(nodes, links, 0, m) == 0);
            assert(g.offsets@[0] == total(nodes, links, 0, m));
            assert(g.offsets@[n as int] == total(nodes, links, n as int, m));
            assert(g.nodes@ == nodes);
            assert(g.max_depth == deepest(nodes, n as int));
            assert(label_components(links, g.component@, firsts));
            assert(counts_labels(g.component@, g.comp_sizes@));
            assert(is_last_greatest(g.comp_sizes@, g.main_comp as int));
            assert(node_items(g.spatial) == main_nodes(nodes, g.component@, g.main_comp, n as int).to_multiset());
        }
        g
    }
}

impl RawGraph {
    /// Whether the lists describe a graph.
    pub fn is_valid(&self) -> (r: bool)
        ensures
            r == self.wf(),
    {
        let n = self.node_count;
        if n as u64 >= 0xffff_ffff || self.nodes.len() / 3 < n {
            return false;
        }
        let mut i: usize = 0;
        while i < n
            invariant
                i <= n,
                n == self.node_count,
                n < u32::MAX,
                3 * n <= self.nodes.len(),
                forall|k: int| 0 <= k < i ==> #[trigger] node_valid(self.nodes@, k),
            decreases n - i,
        {
            let lon = self.nodes[3 * i];
            let lat = self.nodes[3 * i + 1];
            let depth = self.nodes[3 * i + 2];
            if !(-WORLD <= lon && lon <= WORLD && -WORLD <= lat && lat <= WORLD && -DEPTH_MAX <= depth
                && depth <= DEPTH_MAX) {
                assert(!node_valid(self.nodes@, i as int));
                return false;
            }
            i = i + 1;
        }
        let m = self.edges.len() / 3;
        let mut e: usize = 0;
        while e < m
            invariant
                e <= m,
                m == self.edges.len() / 3,
                n == self.node_count,
                n < u32::MAX,
                3 * n <= self.nodes.len(),
                forall|k: int| 0 <= k < n ==> #[trigger] node_valid(self.nodes@, k),
                forall|k: int|
                    0 <= k < e ==> #[trigger] edge_valid(self.edges@, self.node_count as int, k),
            decreases m - e,
        {
            let from = self.edges[3 * e];
            let to = self.edges[3 * e + 1];
            let length = self.edges[3 * e + 2];
            if !(from < self.node_count as u64 && to < self.node_count as u64 && length <= LENGTH_MAX) {
                assert(!edge_valid(self.edges@, self.node_count as int, e as int));
                return false;
            }
            e = e + 1;
        }
        true
    }
}

impl Graph {
    pub fn lon(&self, id: usize) -> (r: i64)
        requires
            self.wf(),
            id < self.node_count,
        ensures
            r == self.at(id as int).lon,
    {
        self.nodes[id * 3]
    }

    pub fn lat(&self, id: usize) -> (r: i64)
        requires
            self.wf(),
            id < self.node_count,
        ensures
            r == self.at(id as int).lat,
    {
        self.nodes[id * 3 + 1]
    }

    pub fn depth(&self, id: usize) -> (r: i64)
        requires
            self.wf(),
            id < self.node_count,
        ensures
            r == node_depth(self.nodes@, id as int),
    {
        self.nodes[id * 3 + 2]
    }

    pub fn point(&self, id: usize) -> (p: Point)
        requires
            self.wf(),
            id < self.node_count,
        ensures
            p == self.at(id as int),
            p.within(WORLD as int),
    {
        assert(self.at(id as int).within(WORLD as int));
        Point { lon: self.nodes[id * 3], lat: self.nodes[id * 3 + 1] }
    }

    /// The node is one of the main component closest to the position; node zero if there
    /// is none.
    pub open spec fn is_snap(&self, p: Point, id: int) -> bool {
        if node_items(self.spatial).len() == 0 {
            id == 0
        } else {
            exists|e: NodeEntry| #[trigger] is_nearest(node_items(self.spatial), p, e) && id == e.id
        }
    }

    /// Find nearest connected node.
    pub fn find_nearest(&self, lon: i64, lat: i64) -> (id: usize)
        requires
            self.wf(),
            -WORLD <= lon <= WORLD,
            -WORLD <= lat <= WORLD,
        ensures
            self.is_snap(Point { lon, lat }, id as int),
            id < self.node_count || (id == 0 && node_items(self.spatial).len() == 0),
    {
        proof {
            assert forall|e: NodeEntry| #[trigger]
                node_items(self.spatial).contains(e) implies e.at.within(WORLD as int) by {
                assert(self.at(e.id as int).within(WORLD as int));
            }
        }
        match nearest_node(&self.spatial, Point { lon, lat }) {
            Some(e) => e.id as usize,
            None => 0,
        }
    }

    /// The node is the first in the list of those of the main component closest to the
    /// position; node zero if there is none.
    pub open spec fn is_first_snap(&self, p: Point, id: int) -> bool {
        &&& self.is_snap(p, id)
        &&& forall|e: NodeEntry| #[trigger] is_nearest(node_items(self.spatial), p, e) ==> id <= e.id
    }

    /// The first of the nodes that a position snaps to.
    pub open spec fn first_snap(&self, p: Point) -> int {
        choose|id: int| self.is_first_snap(p, id)
    }

    /// Find the nearest connected node, the first of several equally close ones.
    pub fn find_first_nearest(&self, p: Point) -> (id: usize)
        requires
            self.wf(),
            p.within(WORLD as int),
        ensures
            self.is_first_snap(p, id as int),
            id == self.first_snap(p),
            id < self.node_count || (id == 0 && node_items(self.spatial).len() == 0),
    {
        let ghost items = node_items(self.spatial);
        proof {
            assert forall|e: NodeEntry| #[trigger] items.contains(e) implies e.at.within(WORLD as int) by {
                assert(self.at(e.id as int).within(WORLD as int));
            }
        }
        let found = closest_nodes(&self.spatial, p);
        proof {
            broadcast use vstd::seq_lib::group_to_multiset_ensures;
            broadcast use vstd::multiset::group_multiset_axioms;

            assert forall|e: NodeEntry| found@.contains(e) == #[trigger] is_nearest(items, p, e) by {
                assert(found@.contains(e) <==> found@.to_multiset().count(e) > 0);
            }
        }
        if found.len() == 0 {
            proof {
                lemma_some_nearest(items, p);
                assert(items.len() == 0);
                assert(self.is_first_snap(p, 0));
            }
            return 0;
        }
        let mut best: u32 = found[0].id;
        assert(found@.contains(found@[0]));
        let mut i: usize = 1;
        while i < found.len()
            invariant
                items == node_items(self.spatial),
                1 <= i <= found.len(),
                forall|e: NodeEntry| found@.contains(e) == #[trigger] is_nearest(items, p, e),
                forall|k: int| 0 <= k < i ==> best <= (#[trigger] found@[k]).id,
                exists|k: int| 0 <= k < i && best == (#[trigger] found@[k]).id,
            decreases found.len() - i,
        {
            if found[i].id < best {
                best = found[i].id;
            }
            i = i + 1;
        }
        proof {
            let k = choose|k: int| 0 <= k < found.len() && best == (#[trigger] found@[k]).id;
            assert(found@.contains(found@[k]));
            assert(is_nearest(items, p, found@[k]));
            assert(items.count(found@[k]) > 0);
            broadcast use vstd::multiset::group_multiset_axioms;
            assert(items.len() > 0) by {
                if items.len() == 0 {
                    assert(items =~= Multiset::empty());
                }
            }
            assert(self.is_first_snap(p, best as int));
        }
        best as usize
    }

    /// Every node, as an entry of an index.
    pub open spec fn all_entries(&self) -> Seq<NodeEntry> {
        Seq::new(self.node_count as nat, |i: int| NodeEntry { id: i as u32, at: self.at(i) })
    }

    /// An index of all nodes, those outside the main component too.
    pub fn build_full_index(&self) -> (index: NodeIndex)
        requires
            self.wf(),
        ensures
            node_items(index) == self.all_entries().to_multiset(),
    {
        let mut items: Vec<NodeEntry> = Vec::new();
        let mut i: usize = 0;
        while i < self.node_count
            invariant
                self.wf(),
                i <= self.node_count,
                items@ =~= self.all_entries().take(i as int),
            decreases self.node_count - i,
        {
            items.push(NodeEntry { id: i as u32, at: self.point(i) });
            i = i + 1;
        }
        assert(items@ =~= self.all_entries());
        load_nodes(&items)
    }

    /// The half edges of a node.
    pub fn edges(&self, node: usize) -> (r: Vec<HalfEdge>)
        requires
            self.wf(),
            node < self.node_count,
        ensures
            r@ == self.row(node as int),
    {
        let mut r: Vec<HalfEdge> = Vec::new();
        assert(self.offsets@[node as int] <= self.offsets@[node + 1] <= self.targets.len());
        let end = self.offsets[node + 1];
        let start = self.offsets[node];
        let mut i = start;
        while i < end
            invariant
                self.wf(),
                node < self.node_count,
                start == self.offsets@[node as int],
                end == self.offsets@[node + 1],
                start <= i <= end <= self.targets.len(),
                r@ =~= self.row(node as int).take(i - start),
            decreases end - i,
        {
            r.push(
                HalfEdge {
                    to: self.targets[i],
                    length: self.base_weights[i],
                    depth: self.edge_depths[i],
                },
            );
            i = i + 1;
        }
        assert(r@ =~= self.row(node as int));
        r
    }
}

/// Edges are undirected: what one end sees, the other end sees too.
pub proof fn lemma_undirected(nodes: Seq<i64>, links: Seq<Link>, v: int, u: int, length: u64, depth: i64, k: int)
    requires
        0 <= k <= links.len(),
        0 <= v <= u32::MAX,
        0 <= u <= u32::MAX,
        half_edges(nodes, links, v, k).contains(HalfEdge { to: u as u32, length, depth }),
    ensures
        half_edges(nodes, links, u, k).contains(HalfEdge { to: v as u32, length, depth }),
    decreases k,
{
    let h = HalfEdge { to: u as u32, length, depth };
    let back = HalfEdge { to: v as u32, length, depth };
    let row = half_edges(nodes, links, v, k);
    let i = choose|i: int| 0 <= i < row.len() && row[i] == h;
    let before = half_edges(nodes, links, v, k - 1);
    let other = half_edges(nodes, links, u, k - 1);
    let l = links[k - 1];
    let now = half_edges(nodes, links, u, k);
    if i < before.len() {
        assert(before[i] == h);
        assert(before.contains(h));
        lemma_undirected(nodes, links, v, u, length, depth, k - 1);
        let j = choose|j: int| 0 <= j < other.len() && other[j] == back;
        assert(now[j] == back);
    } else {
        assert(row[i] == seen(nodes, l, v)[i - before.len()]);
        let new = seen(nodes, l, u);
        if l.1 == u && l.0 == v {
            assert(new.last() == back);
            assert(now[now.len() - 1] == back);
        } else {
            assert(l.0 == u && l.1 == v);
            assert(new[0] == back);
            assert(now[other.len() as int] == back);
        }
    }
}

/// Among the entries of an index that is not empty, some one is nearest.
proof fn lemma_some_nearest(items: Multiset<NodeEntry>, p: Point)
    ensures
        items.len() > 0 ==> exists|e: NodeEntry| #[trigger] is_nearest(items, p, e),
    decreases items.len(),
{
    broadcast use vstd::multiset::group_multiset_axioms;

    if items.len() > 0 {
        let a = items.choose();
        assert(items.contains(a));
        let rest = items.remove(a);
        lemma_some_nearest(rest, p);
        if rest.len() > 0 {
            let b = choose|e: NodeEntry| #[trigger] is_nearest(rest, p, e);
            assert(items.contains(b));
            assert forall|o: NodeEntry| #[trigger] items.contains(o) implies o == a || rest.contains(o) by {
            }
            if dist2(a.at, p) <= dist2(b.at, p) {
                assert(is_nearest(items, p, a));
            } else {
                assert(is_nearest(items, p, b));
            }
        } else {
            assert forall|o: NodeEntry| #[trigger] items.contains(o) implies o == a by {
                if o != a {
                    assert(rest.contains(o));
                    assert(rest =~= Multiset::empty());
                }
            }
            assert(is_nearest(items, p, a));
        }
    }
}

proof fn lemma_least_nearest(items: Multiset<NodeEntry>, p: Point, e: NodeEntry) -> (least: NodeEntry)
    requires
        is_nearest(items, p, e),
    ensures
        is_nearest(items, p, least),
        forall|o: NodeEntry| #[trigger] is_nearest(items, p, o) ==> least.id <= o.id,
    decreases e.id,
{
    if forall|o: NodeEntry| #[trigger] is_nearest(items, p, o) ==> e.id <= o.id {
        e
    } else {
        let o = choose|o: NodeEntry| #[trigger] is_nearest(items, p, o) && o.id < e.id;
        lemma_least_nearest(items, p, o)
    }
}

/// Every position snaps to some first node.
pub proof fn lemma_first_snap(g: Graph, p: Point)
    ensures
        g.is_first_snap(p, g.first_snap(p)),
{
    broadcast use vstd::multiset::group_multiset_axioms;

    let items = node_items(g.spatial);
    if items.len() == 0 {
        assert(items =~= Multiset::empty());
        assert(g.is_first_snap(p, 0));
    } else {
        lemma_some_nearest(items, p);
        let e = lemma_least_nearest(items, p, choose|e: NodeEntry| #[trigger] is_nearest(items, p, e));
        assert(g.is_first_snap(p, e.id as int));
    }
}

/// A port that is a node of the main component snaps to its own position.
pub proof fn lemma_port_snaps_to_itself(g: Graph, raw: RawGraph, p: Point, v: int, id: int)
    requires
        g.is_of(raw),
        g.wf(),
        0 <= v < g.node_count,
        g.component@[v] == g.main_comp,
        g.at(v) == p,
        g.is_snap(p, id),
    ensures
        0 <= id < g.node_count,
        g.at(id) == p,
{
    let items = main_nodes(raw.nodes@, g.component@, g.main_comp, raw.node_count as int);
    lemma_main_nodes(raw.nodes@, g.component@, g.main_comp, raw.node_count as int);
    lemma_node_items_of_seq(items);
    let own = NodeEntry { id: v as u32, at: p };
    assert(items.contains(own));
    assert(node_items(g.spatial).contains(own));
    broadcast use vstd::multiset::group_multiset_axioms;

    assert(node_items(g.spatial).len() > 0) by {
        if node_items(g.spatial).len() == 0 {
            assert(node_items(g.spatial) =~= Multiset::empty());
        }
    }
    let e = choose|e: NodeEntry| #[trigger] is_nearest(node_items(g.spatial), p, e) && id == e.id;
    let dx = e.at.lon - p.lon;
    let dy = e.at.lat - p.lat;
    assert(dist2(own.at, p) == 0);
    assert(dx * dx + dy * dy <= 0);
    assert(dx == 0 && dy == 0) by (nonlinear_arith)
        requires
            dx * dx + dy * dy <= 0,
    ;
    assert(e.at == p);
}

/// Ports snap to the main component: the node closest to a position is one of it.
pub proof fn lemma_snaps_to_main(g: Graph, raw: RawGraph, p: Point, id: int)
    requires
        g.is_of(raw),
        g.wf(),
        node_items(g.spatial).len() > 0,
        g.is_snap(p, id),
    ensures
        0 <= id < g.node_count,
        g.component@[id] == g.main_comp,
        forall|v: int|
            0 <= v < g.node_count && #[trigger] g.component@[v] == g.main_comp ==> dist2(
                g.at(id),
                p,
            ) <= dist2(g.at(v), p),
{
    let items = main_nodes(raw.nodes@, g.component@, g.main_comp, raw.node_count as int);
    lemma_main_nodes(raw.nodes@, g.component@, g.main_comp, raw.node_count as int);
    lemma_node_items_of_seq(items);
    let e = choose|e: NodeEntry| #[trigger] is_nearest(node_items(g.spatial), p, e) && id == e.id;
    assert(items.contains(e));
    assert forall|v: int| 0 <= v < g.node_count && #[trigger] g.component@[v] == g.main_comp implies dist2(
        g.at(id),
        p,
    ) <= dist2(g.at(v), p) by {
        let o = NodeEntry { id: v as u32, at: g.at(v) };
        assert(items.contains(o));
        assert(node_items(g.spatial).contains(o));
    }
}

/// Nodes of one component, and only they, are linked by walks along edges.
pub proof fn lemma_same_component(g: Graph, raw: RawGraph, a: int, b: int)
    requires
        g.is_of(raw),
        g.wf(),
        0 <= a < g.node_count,
        0 <= b < g.node_count,
        g.component@[a] != NO_COMPONENT,
    ensures
        (g.component@[a] == g.component@[b]) == linked(raw_links(raw.edges@), a, b),
{
    reveal(label_components);
}

proof fn lemma_link_is_seen(nodes: Seq<i64>, links: Seq<Link>, k: int, e: int)
    requires
        0 <= e < k <= links.len(),
    ensures
        ({
            let l = links[e];
            let d = link_depth(nodes, l);
            &&& half_edges(nodes, links, l.0 as int, k).contains(HalfEdge { to: l.1, length: l.2, depth: d })
            &&& half_edges(nodes, links, l.1 as int, k).contains(HalfEdge { to: l.0, length: l.2, depth: d })
        }),
    decreases k,
{
    let l = links[e];
    let d = link_depth(nodes, l);
    let out = HalfEdge { to: l.1, length: l.2, depth: d };
    let back = HalfEdge { to: l.0, length: l.2, depth: d };
    let a = half_edges(nodes, links, l.0 as int, k - 1);
    let b = half_edges(nodes, links, l.1 as int, k - 1);
    let now_a = half_edges(nodes, links, l.0 as int, k);
    let now_b = half_edges(nodes, links, l.1 as int, k);
    if e == k - 1 {
        let see_a = seen(nodes, l, l.0 as int);
        let see_b = seen(nodes, l, l.1 as int);
        assert(see_a[0] == out);
        assert(see_b[see_b.len() - 1] == back);
        assert(now_a[a.len() as int] == out);
        assert(now_b[b.len() + see_b.len() - 1] == back);
    } else {
        lemma_link_is_seen(nodes, links, k - 1, e);
        let i = choose|i: int| 0 <= i < a.len() && a[i] == out;
        let j = choose|j: int| 0 <= j < b.len() && b[j] == back;
        assert(now_a[i] == out);
        assert(now_b[j] == back);
    }
}

proof fn lemma_seen_is_link(nodes: Seq<i64>, links: Seq<Link>, v: int, k: int, i: int) -> (e: int)
    requires
        0 <= k <= links.len(),
        0 <= i < half_edges(nodes, links, v, k).len(),
    ensures
        0 <= e < k,
        ({
            let l = links[e];
            let h = half_edges(nodes, links, v, k)[i];
            &&& (l.0 == v && l.1 == h.to) || (l.1 == v && l.0 == h.to)
            &&& h.length == l.2
            &&& h.depth == link_depth(nodes, l)
        }),
    decreases k,
{
    let before = half_edges(nodes, links, v, k - 1);
    if i < before.len() {
        lemma_seen_is_link(nodes, links, v, k - 1, i)
    } else {
        let new = seen(nodes, links[k - 1], v);
        assert(half_edges(nodes, links, v, k)[i] == new[i - before.len()]);
        k - 1
    }
}

/// The graph holds every edge of the file, from both of its ends, with the length that the file gives
/// and the greater of the depths of its ends.
pub proof fn lemma_graph_holds_every_edge(g: Graph, raw: RawGraph, e: int) -> (r: (int, int))
    requires
        g.wf(),
        g.is_of(raw),
        raw.wf(),
        0 <= e < raw.edges.len() / 3,
    ensures
        ({
            let a = raw.edges@[3 * e] as int;
            let b = raw.edges@[3 * e + 1] as int;
            let deeper = if raw.nodes@[3 * a + 2] >= raw.nodes@[3 * b + 2] {
                raw.nodes@[3 * a + 2]
            } else {
                raw.nodes@[3 * b + 2]
            };
            &&& g.offsets@[a] <= r.0 < g.offsets@[a + 1]
            &&& g.targets@[r.0] == b
            &&& g.base_weights@[r.0] == raw.edges@[3 * e + 2]
            &&& g.edge_depths@[r.0] == deeper
            &&& g.offsets@[b] <= r.1 < g.offsets@[b + 1]
            &&& g.targets@[r.1] == a
            &&& g.base_weights@[r.1] == raw.edges@[3 * e + 2]
            &&& g.edge_depths@[r.1] == deeper
        }),
{
    let links = raw_links(raw.edges@);
    let n = links.len() as int;
    assert(edge_valid(raw.edges@, raw.node_count as int, e));
    lemma_link_is_seen(raw.nodes@, links, n, e);
    let l = links[e];
    let a = l.0 as int;
    let b = l.1 as int;
    let d = link_depth(raw.nodes@, l);
    let out = HalfEdge { to: l.1, length: l.2, depth: d };
    let back = HalfEdge { to: l.0, length: l.2, depth: d };
    assert(g.row(a) == half_edges(raw.nodes@, links, a, n));
    assert(g.row(b) == half_edges(raw.nodes@, links, b, n));
    let i = choose|i: int| 0 <= i < g.row(a).len() && g.row(a)[i] == out;
    let j = choose|j: int| 0 <= j < g.row(b).len() && g.row(b)[j] == back;
    assert(g.slot(g.offsets@[a] + i) == out);
    assert(g.slot(g.offsets@[b] + j) == back);
    (g.offsets@[a] + i, g.offsets@[b] + j)
}

/// The graph holds no other edges than those of the file.
pub proof fn lemma_graph_holds_no_other_edge(g: Graph, raw: RawGraph, v: int, i: int) -> (e: int)
    requires
        g.wf(),
        g.is_of(raw),
        raw.wf(),
        0 <= v < g.node_count,
        g.offsets@[v] <= i < g.offsets@[v + 1],
    ensures
        0 <= e < raw.edges.len() / 3,
        ({
            let a = raw.edges@[3 * e] as int;
            let b = raw.edges@[3 * e + 1] as int;
            &&& (a == v && b == g.targets@[i]) || (b == v && a == g.targets@[i])
            &&& g.base_weights@[i] == raw.edges@[3 * e + 2]
        }),
{
    let links = raw_links(raw.edges@);
    let n = links.len() as int;
    assert(g.row(v) == half_edges(raw.nodes@, links, v, n));
    let k = i - g.offsets@[v];
    assert(g.row(v)[k] == g.slot(i));
    let e = lemma_seen_is_link(raw.nodes@, links, v, n, k);
    assert(edge_valid(raw.edges@, raw.node_count as int, e));
    e
}

/// The greatest depth of a graph is that of one of its nodes, or zero, and no node is deeper.
pub proof fn lemma_deepest(nodes: Seq<i64>, k: int)
    requires
        0 <= k,
    ensures
        deepest(nodes, k) >= 0,
        forall|v: int| 0 <= v < k ==> #[trigger] nodes[3 * v + 2] <= deepest(nodes, k),
        deepest(nodes, k) == 0 || exists|v: int| 0 <= v < k && #[trigger] nodes[3 * v + 2] == deepest(nodes, k),
    decreases k,
{
    if k > 0 {
        lemma_deepest(nodes, k - 1);
        assert(nodes[3 * (k - 1) + 2] == node_depth(nodes, k - 1));
        if deepest(nodes, k - 1) != 0 && node_depth(nodes, k - 1) <= deepest(nodes, k - 1) {
            let v = choose|v: int| 0 <= v < k - 1 && #[trigger] nodes[3 * v + 2] == deepest(nodes, k - 1);
            assert(nodes[3 * v + 2] == deepest(nodes, k));
        }
    }
}

/// Routes run on the largest component: no other has more nodes.
pub proof fn lemma_main_is_largest(g: Graph, raw: RawGraph, k: int)
    requires
        g.wf(),
        g.is_of(raw),
        0 <= k < g.comp_sizes.len(),
    ensures
        Set::new(|v: int| 0 <= v < g.node_count && g.component@[v] == k as u32).len() <= Set::new(
            |v: int| 0 <= v < g.node_count && g.component@[v] == g.main_comp,
        ).len(),
{
    let n = g.node_count as int;
    lemma_label_count(g.component@, k as u32, n);
    lemma_label_count(g.component@, g.main_comp, n);
    assert(g.comp_sizes@[k] <= g.comp_sizes@[g.main_comp as int]);
    assert(g.comp_sizes@[k] == label_count(g.component@, k as u32, n));
    assert(g.comp_sizes@[g.main_comp as int] == label_count(g.component@, g.main_comp as int as u32, n));
}

} // verus!
