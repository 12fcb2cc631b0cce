//! Spatial indexes: boxes and points held in R-trees.
use vstd::multiset::Multiset;
use vstd::prelude::*;

use crate::geo::{dist2, BBox, Point, WORLD};

verus! {

/// A box together with the number it is found by.
#[derive(Clone, Copy, PartialEq, Eq, Structural, Debug)]
pub struct BoxEntry {
    pub id: usize,
    pub bbox: BBox,
}

/// A point together with the number it is found by.
#[derive(Clone, Copy, PartialEq, Eq, Structural, Debug)]
pub struct NodeEntry {
    pub id: u32,
    pub at: Point,
}

/// An R-tree of boxes, an `rstar::RTree`.
#[verifier::external_body]
pub struct BoxIndex {
    tree: rstar::RTree<rstar::primitives::GeomWithData<rstar::primitives::Rectangle<[i64; 2]>, usize>>,
}

/// An R-tree of points, an `rstar::RTree`. The coordinates are held in `i128`, so that
/// squared distances do not overflow.
#[verifier::external_body]
pub struct NodeIndex {
    tree: rstar::RTree<rstar::primitives::GeomWithData<[i128; 2], u32>>,
}

/// What a box index holds.
pub uninterp spec fn box_items(index: BoxIndex) -> Multiset<BoxEntry>;

/// What a point index holds.
pub uninterp spec fn node_items(index: NodeIndex) -> Multiset<NodeEntry>;

/// The entries of `items` whose box shares a point with `query`.
pub open spec fn meeting(items: Multiset<BoxEntry>, query: BBox) -> Multiset<BoxEntry> {
    items.filter(|e: BoxEntry| e.bbox.meets(query))
}

/// `e` is an entry of `items` that no other is closer to `query` than.
pub open spec fn is_nearest(items: Multiset<NodeEntry>, query: Point, e: NodeEntry) -> bool {
    &&& items.contains(e)
    &&& forall|o: NodeEntry| #[trigger] items.contains(o) ==> dist2(e.at, query) <= dist2(o.at, query)
}

/// The entries of `items` that no other is closer to `query` than.
pub open spec fn closest(items: Multiset<NodeEntry>, query: Point) -> Multiset<NodeEntry> {
    items.filter(|e: NodeEntry| is_nearest(items, query, e))
}

/// `found` lists the `count` entries of `items` closest to `query`, closest first, or
/// all of them where there are fewer.
pub open spec fn are_nearest(
    items: Multiset<NodeEntry>,
    query: Point,
    count: int,
    found: Seq<NodeEntry>,
) -> bool {
    &&& found.len() == if count <= items.len() { count } else { items.len() as int }
    &&& found.to_multiset().subset_of(items)
    &&& forall|i: int, j: int|
        0 <= i <= j < found.len() ==> dist2(found[i].at, query) <= dist2(found[j].at, query)
    &&& forall|o: NodeEntry, i: int|
        0 <= i < found.len() && found.to_multiset().count(o) < #[trigger] items.count(o)
            ==> dist2((#[trigger] found[i]).at, query) <= dist2(o.at, query)
}

/// `rstar::RTree::bulk_load`: the tree holds the given boxes and nothing else.
#[verifier::external_body]
pub(crate) fn load_boxes(items: &Vec<BoxEntry>) -> (index: BoxIndex)
    requires
        forall|i: int| 0 <= i < items.len() ==> (#[trigger] items[i]).bbox.ordered(),
    ensures
        box_items(index) == items@.to_multiset(),
{
    BoxIndex {
        tree: rstar::RTree::bulk_load(items.iter().map(|e| rstar::primitives::GeomWithData::new(
            rstar::primitives::Rectangle::from_corners(
                [e.bbox.min_lon, e.bbox.min_lat],
                [e.bbox.max_lon, e.bbox.max_lat]),
            e.id)).collect()),
    }
}

/// `rstar::RTree::locate_in_envelope_intersecting`: every held box that shares a point
/// with `query`, touching borders included, each as often as it is held. The order in
/// which they come is left open.
#[verifier::external_body]
pub(crate) fn boxes_meeting(index: &BoxIndex, query: BBox) -> (found: Vec<BoxEntry>)
    requires
        query.ordered(),
    ensures
        found@.to_multiset() == meeting(box_items(*index), query),
{
    let envelope = rstar::AABB::from_corners(
        [query.min_lon, query.min_lat], [query.max_lon, query.max_lat]);
    index.tree.locate_in_envelope_intersecting(&envelope).map(|e| BoxEntry {
        id: e.data,
        bbox: BBox {
            min_lon: e.geom().lower()[0],
            min_lat: e.geom().lower()[1],
            max_lon: e.geom().upper()[0],
            max_lat: e.geom().upper()[1],
        },
    }).collect()
}

/// `rstar::RTree::bulk_load`: the tree holds the given points and nothing else.
#[verifier::external_body]
pub(crate) fn load_nodes(items: &Vec<NodeEntry>) -> (index: NodeIndex)
    ensures
        node_items(index) == items@.to_multiset(),
{
    NodeIndex {
        tree: rstar::RTree::bulk_load(items.iter().map(|e| rstar::primitives::GeomWithData::new(
            [e.at.lon as i128, e.at.lat as i128], e.id)).collect()),
    }
}

/// `rstar::RTree::nearest_neighbor`: nothing if the tree is empty, else a held point
/// whose squared distance from `query` is the least. Which of several equally close
/// ones it is, is left open.
#[verifier::external_body]
pub(crate) fn nearest_node(index: &NodeIndex, query: Point) -> (found: Option<NodeEntry>)
    requires
        query.within(WORLD as int),
        forall|e: NodeEntry| #[trigger] node_items(*index).contains(e) ==> e.at.within(WORLD as int),
    ensures
        found is None <==> node_items(*index).len() == 0,
        found matches Some(e) ==> is_nearest(node_items(*index), query, e),
{
    index.tree.nearest_neighbor(&[query.lon as i128, query.lat as i128]).map(|e| NodeEntry {
        id: e.data,
        at: Point { lon: e.geom()[0] as i64, lat: e.geom()[1] as i64 },
    })
}

/// `rstar::RTree::nearest_neighbors`: every held point whose squared distance from `query`
/// is the least, each as often as it is held, and nothing if the tree is empty. The order
/// in which they come is left open.
#[verifier::external_body]
pub(crate) fn closest_nodes(index: &NodeIndex, query: Point) -> (found: Vec<NodeEntry>)
    requires
        query.within(WORLD as int),
        forall|e: NodeEntry| #[trigger] node_items(*index).contains(e) ==> e.at.within(WORLD as int),
    ensures
        found@.to_multiset() == closest(node_items(*index), query),
{
    index.tree.nearest_neighbors(&[query.lon as i128, query.lat as i128]).iter().map(|e| NodeEntry {
        id: e.data,
        at: Point { lon: e.geom()[0] as i64, lat: e.geom()[1] as i64 },
    }).collect()
}

/// `rstar::RTree::nearest_neighbor_iter`, its first `count` items: the held points in
/// order of their squared distance from `query`. The order among equally close ones is
/// left open.
#[verifier::external_body]
pub(crate) fn nearest_nodes(index: &NodeIndex, query: Point, count: usize) -> (found: Vec<NodeEntry>)
    requires
        query.within(WORLD as int),
        forall|e: NodeEntry| #[trigger] node_items(*index).contains(e) ==> e.at.within(WORLD as int),
    ensures
        are_nearest(node_items(*index), query, count as int, found@),
{
    index.tree.nearest_neighbor_iter(&[query.lon as i128, query.lat as i128]).take(count)
        .map(|e| NodeEntry {
            id: e.data,
            at: Point { lon: e.geom()[0] as i64, lat: e.geom()[1] as i64 },
        }).collect()
}

/// What a query of an index built from `items` gives back: the listed boxes that meet
/// the query, once each where the list has no repetition.
pub proof fn lemma_meeting_of_seq(items: Seq<BoxEntry>, query: BBox, found: Seq<BoxEntry>)
    requires
        found.to_multiset() == meeting(items.to_multiset(), query),
    ensures
        forall|e: BoxEntry| #[trigger] found.contains(e) <==> items.contains(e) && e.bbox.meets(query),
        items.no_duplicates() ==> found.no_duplicates(),
{
    broadcast use vstd::seq_lib::group_to_multiset_ensures;
    broadcast use vstd::multiset::group_multiset_axioms;

    assert forall|e: BoxEntry| #[trigger] found.contains(e) <==> items.contains(e)
        && e.bbox.meets(query) by {
        assert(found.to_multiset().count(e) > 0 <==> found.contains(e));
        assert(items.to_multiset().count(e) > 0 <==> items.contains(e));
    }
    if items.no_duplicates() {
        items.lemma_multiset_has_no_duplicates();
        assert forall|e: BoxEntry| found.to_multiset().contains(e) implies #[trigger] found.to_multiset().count(e) == 1 by {
            assert(items.to_multiset().contains(e));
        }
        found.lemma_multiset_has_no_duplicates_conv();
    }
}

/// The entries of an index built from `items` are the listed ones.
pub proof fn lemma_node_items_of_seq(items: Seq<NodeEntry>)
    ensures
        forall|e: NodeEntry| #[trigger] items.to_multiset().contains(e) <==> items.contains(e),
        items.to_multiset().len() == items.len(),
{
    broadcast use vstd::seq_lib::group_to_multiset_ensures;
}

/// The points found closest to a query are listed ones.
pub proof fn lemma_nearest_of_seq(items: Seq<NodeEntry>, query: Point, count: int, found: Seq<NodeEntry>)
    requires
        are_nearest(items.to_multiset(), query, count, found),
    ensures
        forall|i: int| 0 <= i < found.len() ==> items.contains(#[trigger] found[i]),
{
    broadcast use vstd::seq_lib::group_to_multiset_ensures;
    assert forall|i: int| 0 <= i < found.len() implies items.contains(#[trigger] found[i]) by {
        assert(found.contains(found[i]));
        assert(found.to_multiset().count(found[i]) > 0);
    }
}

/// What is not among the points found closest to a query is not closer than any of them.
pub proof fn lemma_others_further(items: Seq<NodeEntry>, query: Point, count: int, found: Seq<NodeEntry>)
    requires
        are_nearest(items.to_multiset(), query, count, found),
    ensures
        forall|e: NodeEntry, i: int|
            0 <= i < found.len() && #[trigger] items.contains(e) && !found.contains(e) ==> dist2(
                (#[trigger] found[i]).at,
                query,
            ) <= dist2(e.at, query),
{
    broadcast use vstd::seq_lib::group_to_multiset_ensures;
    assert forall|e: NodeEntry, i: int|
        0 <= i < found.len() && #[trigger] items.contains(e) && !found.contains(e) implies dist2(
        (#[trigger] found[i]).at,
        query,
    ) <= dist2(e.at, query) by {
        assert(items.to_multiset().count(e) > 0);
        assert(found.to_multiset().count(e) == 0);
    }
}

} // verus!
