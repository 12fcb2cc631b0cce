//! Generating the routing graph: from land to quadtree to graph.
use vstd::prelude::*;

use crate::canals::canal_charts;
use crate::generate::{
    build_quadtree, globe, is_tree, kind, land_in_cell, quarter, CellType, QuadCell,
};
use crate::geo::{is_measure, BBox, Point, DEGREE, WORLD};
use crate::graph_builder::{build_graph_with_ports, is_graph_of, GraphOutput, CANAL_WAYPOINTS};
use crate::land::LandClassifier;
use crate::quadtree::{
    cell_count, cell_count_of, coarsen, coarsened_by, collect_water_leaves, count_leaves,
    keeps_off_land, leaves, leaves_of, lemma_coarsening_boxes, lemma_coarsening_shows,
    lemma_leaf_is_classified, lemma_merged_water_keeps_off_land, lemma_open_water_is_merged,
    lemma_tree_tiles, lemma_water_leaves_wf, of_kind, open_water_merged, shows, MAX_PASSES,
};

verus! {

/// Bound on the depth of the quadtree.
pub const MAX_DEPTH: u8 = 30;

/// A generated graph, and how many leaves the quadtree had.
pub struct Generated {
    /// Leaves of water and of land before open water was merged.
    pub water: u64,
    pub land: u64,
    /// Leaves of water afterwards.
    pub merged_water: u64,
    pub graph: GraphOutput,
}

/// How many cells a full quadtree with this many levels below its root has.
spec fn full_count(levels: nat) -> nat
    decreases levels,
{
    if levels == 0 {
        1
    } else {
        1 + 4 * full_count((levels - 1) as nat)
    }
}

proof fn lemma_full_count(levels: nat)
    requires
        levels <= 30,
    ensures
        full_count(levels) <= u64::MAX,
{
    reveal_with_fuel(full_count, 31);
    lemma_full_grows(levels, 30);
}

proof fn lemma_full_grows(a: nat, b: nat)
    requires
        a <= b,
    ensures
        1 <= full_count(a) <= full_count(b),
    decreases b,
{
    if b > 0 {
        if a < b {
            lemma_full_grows(a, (b - 1) as nat);
        } else {
            lemma_full_grows((a - 1) as nat, (b - 1) as nat);
        }
    }
}

proof fn lemma_tree_count(q: QuadCell, c: LandClassifier, b: BBox, depth: int, max_depth: int)
    requires
        is_tree(q, c, b, depth, max_depth),
        depth <= max_depth,
    ensures
        cell_count(q) <= full_count((max_depth - depth) as nat),
    decreases max_depth - depth,
{
    let kids = q.children@;
    if kids.len() == 0 {
        assert(cell_count_of(kids, 0) == 0);
        lemma_full_grows(0, (max_depth - depth) as nat);
    } else {
        assert(kids.len() == 4);
        assert(is_tree(q.children[0], c, quarter(b, 0), depth + 1, max_depth));
        assert(is_tree(q.children[1], c, quarter(b, 1), depth + 1, max_depth));
        assert(is_tree(q.children[2], c, quarter(b, 2), depth + 1, max_depth));
        assert(is_tree(q.children[3], c, quarter(b, 3), depth + 1, max_depth));
        lemma_tree_count(kids[0], c, quarter(b, 0), depth + 1, max_depth);
        lemma_tree_count(kids[1], c, quarter(b, 1), depth + 1, max_depth);
        lemma_tree_count(kids[2], c, quarter(b, 2), depth + 1, max_depth);
        lemma_tree_count(kids[3], c, quarter(b, 3), depth + 1, max_depth);
        assert(cell_count_of(kids, 0) == 0);
        assert(cell_count_of(kids, 1) == cell_count(kids[0]));
        assert(cell_count_of(kids, 2) == cell_count(kids[1]) + cell_count_of(kids, 1));
        assert(cell_count_of(kids, 3) == cell_count(kids[2]) + cell_count_of(kids, 2));
        assert(cell_count_of(kids, 4) == cell_count(kids[3]) + cell_count_of(kids, 3));
    }
}

proof fn lemma_leaf_count(q: QuadCell)
    ensures
        leaves(q).len() <= cell_count(q),
    decreases q, 0nat,
{
    if q.children.len() > 0 {
        lemma_leaf_count_of(q.children@, q.children@.len());
    }
}

proof fn lemma_leaf_count_of(cells: Seq<QuadCell>, k: nat)
    requires
        k <= cells.len(),
    ensures
        leaves_of(cells, k).len() <= cell_count_of(cells, k),
    decreases cells, k,
{
    if k > 0 {
        lemma_leaf_count(cells[k - 1]);
        lemma_leaf_count_of(cells, (k - 1) as nat);
    }
}

/// The trees are the quadtree of the land, before and after its open water was merged.
pub open spec fn are_trees(c: LandClassifier, max_depth: u8, tree: QuadCell, merged: QuadCell) -> bool {
    is_tree(tree, c, globe(), 0, max_depth as int) && coarsened_by(tree, merged, MAX_PASSES as nat)
}

/// Generates the routing graph: the quadtree of the land is built, its open water merged, and
/// the leaves of water that remain are wired up with the ports and the canals. Nothing comes
/// of it where there would be more nodes than can be numbered.
pub fn generate_graph<D: Fn(Point, Point) -> u64>(
    classifier: &LandClassifier,
    max_depth: u8,
    ports: &Vec<Point>,
    dist: &D,
) -> (r: Option<Generated>)
    requires
        classifier.wf(),
        max_depth <= MAX_DEPTH,
        forall|i: int| 0 <= i < ports.len() ==> (#[trigger] ports[i]).within(WORLD as int),
        is_measure(*dist),
    ensures
        exists|tree: QuadCell, merged: QuadCell| #[trigger]
            are_trees(*classifier, max_depth, tree, merged) && {
                let sea = of_kind(leaves(merged), CellType::Water);
                match r {
                    Some(g) => {
                        &&& g.water == of_kind(leaves(tree), CellType::Water).len()
                        &&& g.land == of_kind(leaves(tree), CellType::Land).len()
                        &&& g.merged_water == sea.len()
                        &&& is_graph_of(g.graph, sea, *classifier, *dist, canal_charts(), ports@)
                    },
                    None => sea.len() + ports.len() + CANAL_WAYPOINTS > u32::MAX,
                }
            },
{
    let mut root = build_quadtree(classifier, max_depth);
    let ghost tree = root;
    proof {
        lemma_tree_count(tree, *classifier, globe(), 0, max_depth as int);
        lemma_full_count(max_depth as nat);
        lemma_leaf_count(tree);
        lemma_tree_tiles(tree, *classifier, globe(), 0, max_depth as int, Point { lon: 0, lat: 0 });
    }
    let (water, land) = count_leaves(&root);
    coarsen(&mut root);
    let ghost merged = root;
    proof {
        lemma_leaf_count(merged);
        assert(are_trees(*classifier, max_depth, tree, merged));
    }
    let (merged_water, _) = count_leaves(&root);
    let sea = collect_water_leaves(&root);
    if sea.len() as u128 + ports.len() as u128 + CANAL_WAYPOINTS as u128 > u32::MAX as u128 {
        return None;
    }
    proof {
        assert forall|i: int| 0 <= i < sea@.len() implies (#[trigger] sea@[i]).wf() by {
            lemma_water_leaves_wf(merged, i);
        }
    }
    let graph = build_graph_with_ports(&sea, classifier, ports, dist);
    Some(Generated { water, land, merged_water, graph })
}

/// What a graph is generated from: leaves of water that, together with the leaves of land, cover the
/// whole globe, that show water where the quadtree of the land does, and among which no four open ones
/// are left that could be merged.
pub proof fn lemma_sea_of_the_globe(c: LandClassifier, max_depth: u8, tree: QuadCell, merged: QuadCell, p: Point)
    requires
        are_trees(c, max_depth, tree, merged),
        -180 * DEGREE <= p.lon <= 180 * DEGREE,
        -90 * DEGREE <= p.lat <= 90 * DEGREE,
    ensures
        shows(leaves(merged), CellType::Water, p) || shows(leaves(merged), CellType::Land, p),
        shows(leaves(merged), CellType::Water, p) == shows(leaves(tree), CellType::Water, p),
        shows(leaves(merged), CellType::Land, p) == shows(leaves(tree), CellType::Land, p),
        open_water_merged(merged, leaves(merged)),
{
    lemma_tree_tiles(tree, c, globe(), 0, max_depth as int, p);
    lemma_coarsening_shows(tree, merged, MAX_PASSES as nat, p);
    lemma_coarsening_boxes(tree, merged, MAX_PASSES as nat);
    lemma_open_water_is_merged(tree, merged, MAX_PASSES as nat);
}

/// Where the sea of a graph was found: each leaf is water by its own samples, or at the greatest depth by
/// its middle, or was merged of such leaves and keeps off the leaves of land.
pub proof fn lemma_sea_is_water(c: LandClassifier, max_depth: u8, tree: QuadCell, merged: QuadCell, i: int)
    requires
        are_trees(c, max_depth, tree, merged),
        0 <= i < leaves(merged).len(),
        leaves(merged)[i].1 == CellType::Water,
    ensures
        ({
            let l = leaves(merged)[i].0;
            ||| keeps_off_land(leaves(tree), l)
            ||| kind(c, l.bbox()) == CellType::Water
            ||| l.depth >= max_depth && kind(c, l.bbox()) == CellType::Mixed && forall|p: Point|
                0 <= l.min_lon + l.max_lon - 2 * p.lon <= 1 && 0 <= l.min_lat + l.max_lat - 2 * p.lat <= 1
                    ==> !#[trigger] land_in_cell(c, l.max_lon - l.min_lon, p)
        }),
{
    let x = leaves(merged)[i];
    lemma_tree_tiles(tree, c, globe(), 0, max_depth as int, Point { lon: 0, lat: 0 });
    lemma_merged_water_keeps_off_land(tree, merged, MAX_PASSES as nat, i);
    if leaves(tree).contains(x) {
        let j = choose|j: int| 0 <= j < leaves(tree).len() && leaves(tree)[j] == x;
        lemma_leaf_is_classified(tree, c, globe(), 0, max_depth as int, j);
    }
}

} // verus!
