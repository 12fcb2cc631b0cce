//! Reconnecting isolated water bodies: each component of the graph is bridged to the main
//! one by the shortest link over open water.
use vstd::prelude::*;

use crate::components::{
    is_walk, joins, leads, lemma_linked_symmetric, lemma_linked_transitive, linked, steps,
};
use crate::geo::{dist2, is_measure, measure, measured, Point, WORLD};
use crate::graph_builder::{GNode, Link};
use crate::land::LandClassifier;
use crate::sampling::{clear_of_land, stays_clear};
use crate::spatial::{
    are_nearest, lemma_nearest_of_seq, lemma_node_items_of_seq, lemma_others_further, load_nodes,
    nearest_nodes, node_items, NodeEntry, NodeIndex,
};
use crate::union_find::{is_forest, ranks, root, uf_find, uf_union};

verus! {

/// Bridges longer than 3000 kilometres span separate seas and are not built.
pub const MAX_BRIDGE: u64 = 3_000_000_000_000;

/// Land within 2 kilometres of either end of a bridge is ignored.
pub const BRIDGE_SHORE_TOL: u64 = 2_000_000_000;

/// How many nodes of the main component are tried as the far end of a bridge.
pub const BRIDGE_CANDIDATES: usize = 6;

/// The component of each of `n` nodes, named by one of its nodes, when the first `k`
/// links have been joined one after the other.
pub open spec fn components(n: nat, links: Seq<Link>, k: int) -> Seq<int>
    decreases k,
{
    if k <= 0 {
        Seq::new(n, |i: int| i)
    } else {
        let c = components(n, links, k - 1);
        let a = c[links[k - 1].0 as int];
        let b = c[links[k - 1].1 as int];
        Seq::new(
            n,
            |i: int|
                if c[i] == a {
                    b
                } else {
                    c[i]
                },
        )
    }
}

/// The number of the first `k` nodes that are in component `r`.
pub open spec fn component_size(comps: Seq<int>, r: int, k: int) -> int
    decreases k,
{
    if k <= 0 {
        0
    } else {
        component_size(comps, r, k - 1) + if comps[k - 1] == r {
            1int
        } else {
            0int
        }
    }
}

/// Component `r` is the main one: none is larger, and none with a greater name is as
/// large.
pub open spec fn is_main(comps: Seq<int>, r: int) -> bool {
    let n = comps.len() as int;
    &&& 0 <= r < n
    &&& forall|s: int|
        0 <= s < n ==> {
            &&& #[trigger] component_size(comps, s, n) <= component_size(comps, r, n)
            &&& s > r ==> component_size(comps, s, n) < component_size(comps, r, n)
        }
}

/// The first `k` nodes that are in component `r`.
pub open spec fn members(nodes: Seq<GNode>, comps: Seq<int>, r: int, k: int) -> Seq<NodeEntry>
    decreases k,
{
    if k <= 0 {
        Seq::empty()
    } else {
        let before = members(nodes, comps, r, k - 1);
        if comps[k - 1] == r {
            before.push(NodeEntry { id: (k - 1) as u32, at: nodes[k - 1].at() })
        } else {
            before
        }
    }
}

/// A bridge can be built between the two positions: they are not too far apart, and the
/// straight line between them stays in open water.
pub open spec fn can_bridge<D: Fn(Point, Point) -> u64>(c: LandClassifier, dist: D, from: Point, to: Point) -> bool {
    let d = measured(dist, from, to);
    d <= MAX_BRIDGE && clear_of_land(c, from, to, BRIDGE_SHORE_TOL as int, d as int)
}

/// The bridge from a node: the shortest to one of the first `k` nodes near it, and the first
/// of several.
pub open spec fn shortest_clear<D: Fn(Point, Point) -> u64>(
    c: LandClassifier,
    dist: D,
    from: Point,
    near: Seq<NodeEntry>,
    k: int,
) -> Option<(u64, u32)>
    decreases k,
{
    if k <= 0 {
        None
    } else {
        let before = shortest_clear(c, dist, from, near, k - 1);
        let d = measured(dist, from, near[k - 1].at);
        if can_bridge(c, dist, from, near[k - 1].at) && (before matches Some((least, _)) ==> d < least) {
            Some((d, near[k - 1].id))
        } else {
            before
        }
    }
}

/// What each node outside the main component can be bridged to, where `near` lists the
/// nodes of the main component close to each.
pub open spec fn node_bridge<D: Fn(Point, Point) -> u64>(
    c: LandClassifier,
    dist: D,
    nodes: Seq<GNode>,
    near: Seq<Seq<NodeEntry>>,
    i: int,
) -> Option<(u64, u32)> {
    shortest_clear(c, dist, nodes[i].at(), near[i], near[i].len() as int)
}

/// The link is the shortest bridge of its component, the first of several.
pub open spec fn is_best_bridge<D: Fn(Point, Point) -> u64>(
    c: LandClassifier,
    dist: D,
    nodes: Seq<GNode>,
    comps: Seq<int>,
    near: Seq<Seq<NodeEntry>>,
    l: Link,
) -> bool {
    &&& l.0 < nodes.len()
    &&& node_bridge(c, dist, nodes, near, l.0 as int) == Some((l.2, l.1))
    &&& forall|j: int|
        0 <= j < nodes.len() && comps[j] == comps[l.0 as int] ==> (#[trigger] node_bridge(
            c,
            dist,
            nodes,
            near,
            j,
        ) matches Some((d, _)) ==> l.2 <= d && (j < l.0 ==> l.2 < d))
}

/// The lists hold the nodes of the main component that are nearest to each other node.
pub open spec fn lists_near(
    nodes: Seq<GNode>,
    comps: Seq<int>,
    main: int,
    near: Seq<Seq<NodeEntry>>,
    k: int,
) -> bool {
    &&& near.len() == k
    &&& forall|i: int|
        0 <= i < k && comps[i] != main ==> are_nearest(
            members(nodes, comps, main, nodes.len() as int).to_multiset(),
            nodes[i].at(),
            BRIDGE_CANDIDATES as int,
            #[trigger] near[i],
        )
}

/// The links are the bridges of the components other than the main one: one for each
/// component that has a bridge at all.
pub open spec fn are_bridges<D: Fn(Point, Point) -> u64>(
    c: LandClassifier,
    dist: D,
    nodes: Seq<GNode>,
    comps: Seq<int>,
    main: int,
    near: Seq<Seq<NodeEntry>>,
    bridges: Seq<Link>,
) -> bool {
    &&& forall|b: int|
        0 <= b < bridges.len() ==> {
            &&& is_best_bridge(c, dist, nodes, comps, near, #[trigger] bridges[b])
            &&& comps[bridges[b].0 as int] != main
        }
    &&& forall|i: int|
        0 <= i < nodes.len() && comps[i] != main && (#[trigger] node_bridge(
            c,
            dist,
            nodes,
            near,
            i,
        )) is Some ==> exists|b: int|
            0 <= b < bridges.len() && comps[(#[trigger] bridges[b]).0 as int] == comps[i]
    &&& forall|a: int, b: int|
        0 <= a < b < bridges.len() ==> comps[(#[trigger] bridges[a]).0 as int]
            != comps[(#[trigger] bridges[b]).0 as int]
}

/// `after` is `before` followed by the bridges from the components that the links of
/// `before` leave apart.
pub open spec fn reconnected<D: Fn(Point, Point) -> u64>(
    c: LandClassifier,
    dist: D,
    nodes: Seq<GNode>,
    before: Seq<Link>,
    after: Seq<Link>,
) -> bool {
    let comps = components(nodes.len(), before, before.len() as int);
    &&& before.len() <= after.len()
    &&& after.take(before.len() as int) == before
    &&& exists|main: int, near: Seq<Seq<NodeEntry>>|
        is_main(comps, main) && #[trigger] lists_near(nodes, comps, main, near, nodes.len() as int)
            && are_bridges(
            c,
            dist,
            nodes,
            comps,
            main,
            near,
            after.skip(before.len() as int),
        )
}

/// The links join nodes that there are.
pub open spec fn links_within(links: Seq<Link>, n: int) -> bool {
    forall|i: int| 0 <= i < links.len() ==> (#[trigger] links[i]).0 < n && links[i].1 < n
}

proof fn lemma_components_within(n: nat, links: Seq<Link>, k: int)
    requires
        links_within(links, n as int),
        0 <= k <= links.len(),
    ensures
        components(n, links, k).len() == n,
        forall|i: int| 0 <= i < n ==> 0 <= #[trigger] components(n, links, k)[i] < n,
    decreases k,
{
    if k > 0 {
        lemma_components_within(n, links, k - 1);
        assert(links[k - 1].0 < n && links[k - 1].1 < n);
    }
}

/// The component of each node.
fn find_components(n: usize, links: &Vec<Link>) -> (comps: Vec<u32>)
    requires
        n <= u32::MAX,
        links_within(links@, n as int),
    ensures
        comps.len() == n,
        forall|i: int|
            0 <= i < n ==> #[trigger] comps[i] == components(n as nat, links@, links.len() as int)[i],
{
    let mut parent: Vec<u32> = Vec::new();
    let mut i: usize = 0;
    while i < n
        invariant
            i <= n <= u32::MAX,
            parent.len() == i,
            forall|k: int| 0 <= k < i ==> #[trigger] parent[k] == k,
        decreases n - i,
    {
        parent.push(i as u32);
        i = i + 1;
    }
    proof {
        assert(ranks(parent@, Seq::new(parent@.len(), |k: int| 0nat)));
        assert(is_forest(parent@));
    }
    let mut e: usize = 0;
    while e < links.len()
        invariant
            e <= links.len(),
            n <= u32::MAX,
            links_within(links@, n as int),
            parent.len() == n,
            is_forest(parent@),
            forall|y: int|
                0 <= y < n ==> #[trigger] root(parent@, y) == components(n as nat, links@, e as int)[y],
        decreases links.len() - e,
    {
        let (a, b, _) = links[e];
        proof {
            assert(links@[e as int].0 < n && links@[e as int].1 < n);
            lemma_components_within(n as nat, links@, e as int);
        }
        let ghost before = parent@;
        uf_union(parent.as_mut_slice(), a, b);
        proof {
            let now = components(n as nat, links@, e as int);
            let next = components(n as nat, links@, e + 1);
            assert forall|y: int| 0 <= y < n implies #[trigger] root(parent@, y) == next[y] by {
                assert(root(before, y) == now[y]);
                assert(root(before, a as int) == now[a as int]);
                assert(root(before, b as int) == now[b as int]);
            }
        }
        e = e + 1;
    }
    let mut comps: Vec<u32> = Vec::new();
    let mut j: usize = 0;
    while j < n
        invariant
            j <= n <= u32::MAX,
            parent.len() == n,
            is_forest(parent@),
            forall|y: int|
                0 <= y < n ==> #[trigger] root(parent@, y) == components(
                    n as nat,
                    links@,
                    links.len() as int,
                )[y],
            comps.len() == j,
            forall|y: int|
                0 <= y < j ==> #[trigger] comps[y] == components(n as nat, links@, links.len() as int)[y],
        decreases n - j,
    {
        let r = uf_find(parent.as_mut_slice(), j as u32);
        comps.push(r);
        j = j + 1;
    }
    comps
}

proof fn lemma_size_bound(comps: Seq<int>, r: int, k: int)
    requires
        0 <= k,
    ensures
        0 <= component_size(comps, r, k) <= k,
    decreases k,
{
    if k > 0 {
        lemma_size_bound(comps, r, k - 1);
    }
}

proof fn lemma_size_positive(comps: Seq<int>, i: int, k: int)
    requires
        0 <= i < k <= comps.len(),
    ensures
        component_size(comps, comps[i], k) >= 1,
    decreases k,
{
    lemma_size_bound(comps, comps[i], k - 1);
    if i < k - 1 {
        lemma_size_positive(comps, i, k - 1);
    }
}

/// The main component: the last of the largest.
fn find_main(comps: &Vec<u32>, Ghost(view): Ghost<Seq<int>>) -> (main: u32)
    requires
        0 < comps.len() <= u32::MAX,
        view.len() == comps.len(),
        forall|i: int| 0 <= i < comps.len() ==> #[trigger] comps[i] == view[i],
        forall|i: int| 0 <= i < comps.len() ==> #[trigger] comps[i] < comps.len(),
    ensures
        is_main(view, main as int),
{
    let n = comps.len();
    let mut size: Vec<u32> = Vec::new();
    let mut i: usize = 0;
    while i < n
        invariant
            i <= n,
            size.len() == i,
            forall|r: int| 0 <= r < i ==> #[trigger] size[r] == 0,
        decreases n - i,
    {
        size.push(0);
        i = i + 1;
    }
    i = 0;
    while i < n
        invariant
            i <= n,
            n == comps.len(),
            n <= u32::MAX,
            view.len() == n,
            size.len() == n,
            forall|k: int| 0 <= k < n ==> #[trigger] comps[k] == view[k],
            forall|k: int| 0 <= k < n ==> #[trigger] comps[k] < n,
            forall|r: int| 0 <= r < n ==> #[trigger] size[r] == component_size(view, r, i as int),
        decreases n - i,
    {
        let c = comps[i] as usize;
        proof {
            lemma_size_bound(view, c as int, i as int);
        }
        let s = size[c];
        size.set(c, s + 1);
        i = i + 1;
    }
    let mut main: usize = 0;
    let mut r: usize = 1;
    while r < n
        invariant
            1 <= r <= n,
            size.len() == n,
            main < r,
            forall|s: int|
                0 <= s < r ==> #[trigger] size[s] <= size[main as int] && (s > main ==> size[s]
                    < size[main as int]),
        decreases n - r,
    {
        if size[r] >= size[main] {
            main = r;
        }
        r = r + 1;
    }
    proof {
        assert forall|s: int| 0 <= s < n implies {
            &&& #[trigger] component_size(view, s, n as int) <= component_size(view, main as int, n as int)
            &&& s > main ==> component_size(view, s, n as int) < component_size(
                view,
                main as int,
                n as int,
            )
        } by {
            assert(size[s] <= size[main as int]);
        }
    }
    main as u32
}

proof fn lemma_members(nodes: Seq<GNode>, comps: Seq<int>, r: int, k: int)
    requires
        0 <= k <= nodes.len() <= u32::MAX,
        forall|i: int| 0 <= i < nodes.len() ==> (#[trigger] nodes[i]).at().within(WORLD as int),
    ensures
        forall|e: NodeEntry| #[trigger]
            members(nodes, comps, r, k).contains(e) ==> e.at.within(WORLD as int) && e.id < k
                && e.at == nodes[e.id as int].at() && comps[e.id as int] == r,
    decreases k,
{
    if k > 0 {
        lemma_members(nodes, comps, r, k - 1);
        let before = members(nodes, comps, r, k - 1);
        let now = members(nodes, comps, r, k);
        assert forall|e: NodeEntry| #[trigger] now.contains(e) implies e.at.within(WORLD as int)
            && e.id < k && e.at == nodes[e.id as int].at() && comps[e.id as int] == r by {
            let m = choose|m: int| 0 <= m < now.len() && now[m] == e;
            if m < before.len() {
                assert(before[m] == e);
                assert(before.contains(e));
            } else {
                assert(nodes[k - 1].at().within(WORLD as int));
            }
        }
    }
}

/// An index of the nodes in the main component.
fn index_members(
    nodes: &Vec<GNode>,
    comps: &Vec<u32>,
    main: u32,
    Ghost(view): Ghost<Seq<int>>,
) -> (index: NodeIndex)
    requires
        nodes.len() <= u32::MAX,
        comps.len() == nodes.len(),
        view.len() == comps.len(),
        forall|i: int| 0 <= i < comps.len() ==> #[trigger] comps[i] == view[i],
    ensures
        node_items(index) == members(nodes@, view, main as int, nodes.len() as int).to_multiset(),
{
    let mut items: Vec<NodeEntry> = Vec::new();
    let mut i: usize = 0;
    while i < nodes.len()
        invariant
            i <= nodes.len() <= u32::MAX,
            comps.len() == nodes.len(),
            view.len() == comps.len(),
            forall|k: int| 0 <= k < comps.len() ==> #[trigger] comps[k] == view[k],
            items@ == members(nodes@, view, main as int, i as int),
        decreases nodes.len() - i,
    {
        if comps[i] == main {
            items.push(NodeEntry { id: i as u32, at: nodes[i].point() });
        }
        i = i + 1;
    }
    load_nodes(&items)
}

/// The shortest bridge from a node to one of the nodes near it.
fn find_bridge<D: Fn(Point, Point) -> u64>(
    classifier: &LandClassifier,
    dist: &D,
    from: Point,
    near: &Vec<NodeEntry>,
) -> (r: Option<(u64, u32)>)
    requires
        classifier.wf(),
        is_measure(*dist),
        from.within(WORLD as int),
        forall|i: int| 0 <= i < near.len() ==> (#[trigger] near[i]).at.within(WORLD as int),
    ensures
        r == shortest_clear(*classifier, *dist, from, near@, near.len() as int),
{
    let mut best: Option<(u64, u32)> = None;
    let mut k: usize = 0;
    while k < near.len()
        invariant
            k <= near.len(),
            classifier.wf(),
            is_measure(*dist),
            from.within(WORLD as int),
            forall|i: int| 0 <= i < near.len() ==> (#[trigger] near[i]).at.within(WORLD as int),
            best == shortest_clear(*classifier, *dist, from, near@, k as int),
        decreases near.len() - k,
    {
        let m = near[k];
        let d = measure(dist, from, m.at);
        let shorter = match best {
            Some((least, _)) => d < least,
            None => true,
        };
        if shorter && d <= MAX_BRIDGE && stays_clear(classifier, from, m.at, BRIDGE_SHORE_TOL, d) {
            best = Some((d, m.id));
        }
        k = k + 1;
    }
    best
}

/// Finds the connected components of the graph and bridges every component but the main
/// one to it, by the shortest open-water link found among its nodes. The bridges are
/// appended to `raw_edges`. Lakes stay apart, for their bridges would cross land.
pub fn reconnect_islands<D: Fn(Point, Point) -> u64>(
    nodes: &Vec<GNode>,
    raw_edges: &mut Vec<Link>,
    classifier: &LandClassifier,
    dist: &D,
)
    requires
        classifier.wf(),
        is_measure(*dist),
        nodes.len() <= u32::MAX,
        forall|i: int| 0 <= i < nodes.len() ==> (#[trigger] nodes[i]).at().within(WORLD as int),
        links_within(old(raw_edges)@, nodes.len() as int),
    ensures
        nodes.len() == 0 ==> final(raw_edges)@ == old(raw_edges)@,
        nodes.len() > 0 ==> reconnected(
            *classifier,
            *dist,
            nodes@,
            old(raw_edges)@,
            final(raw_edges)@,
        ),
        links_within(final(raw_edges)@, nodes.len() as int),
{
    let n = nodes.len();
    if n == 0 {
        return;
    }
    let ghost before = raw_edges@;
    let ghost view = components(n as nat, before, before.len() as int);
    let comps = find_components(n, raw_edges);
    proof {
        lemma_components_within(n as nat, before, before.len() as int);
        assert forall|i: int| 0 <= i < n implies #[trigger] comps@[i] < n by {
            assert(0 <= view[i] < n);
        }
    }
    let main = find_main(&comps, Ghost(view));
    let index = index_members(nodes, &comps, main, Ghost(view));
    let ghost items = members(nodes@, view, main as int, n as int);
    proof {
        lemma_members(nodes@, view, main as int, n as int);
        lemma_node_items_of_seq(items);
    }
    let mut best: Vec<Option<Link>> = Vec::new();
    let mut i: usize = 0;
    while i < n
        invariant
            i <= n,
            best.len() == i,
            forall|r: int| 0 <= r < i ==> #[trigger] best[r] is None,
        decreases n - i,
    {
        best.push(None);
        i = i + 1;
    }
    let ghost mut near: Seq<Seq<NodeEntry>> = Seq::empty();
    let ghost mut cand: Seq<Option<(u64, u32)>> = Seq::empty();
    i = 0;
    while i < n
        invariant
            i <= n,
            n == nodes.len(),
            n <= u32::MAX,
            classifier.wf(),
            is_measure(*dist),
            forall|k: int| 0 <= k < n ==> (#[trigger] nodes[k]).at().within(WORLD as int),
            comps.len() == n,
            view.len() == n,
            forall|k: int| 0 <= k < n ==> #[trigger] comps[k] == view[k],
            forall|k: int| 0 <= k < n ==> #[trigger] comps[k] < n,
            items == members(nodes@, view, main as int, n as int),
            node_items(index) == items.to_multiset(),
            forall|e: NodeEntry| #[trigger] items.contains(e) ==> e.at.within(WORLD as int) && e.id < n,
            forall|e: NodeEntry| #[trigger] items.to_multiset().contains(e) <==> items.contains(e),
            lists_near(nodes@, view, main as int, near, i as int),
            cand.len() == i,
            forall|k: int|
                0 <= k < i && view[k] != main ==> #[trigger] cand[k] == shortest_clear(
                    *classifier,
                    *dist,
                    nodes[k].at(),
                    near[k],
                    near[k].len() as int,
                ),
            best.len() == n,
            forall|r: int|
                0 <= r < n ==> (#[trigger] best[r] matches Some(l) ==> {
                    &&& r != main
                    &&& l.0 < i
                    &&& l.1 < n
                    &&& view[l.0 as int] == r
                    &&& cand[l.0 as int] == Some((l.2, l.1))
                    &&& forall|j: int|
                        0 <= j < i && view[j] == r ==> (#[trigger] cand[j] matches Some((d, _)) ==> l.2
                            <= d && (j < l.0 ==> l.2 < d))
                }),
            forall|j: int|
                0 <= j < i && view[j] != main && (#[trigger] cand[j]) is Some ==> best[view[j]] is Some,
        decreases n - i,
    {
        let r = comps[i];
        if r == main {
            proof {
                near = near.push(Seq::empty());
                cand = cand.push(None);
            }
        } else {
            let from = nodes[i].point();
            assert(nodes[i as int].at().within(WORLD as int));
            let close = nearest_nodes(&index, from, BRIDGE_CANDIDATES);
            proof {
                lemma_nearest_of_seq(items, from, BRIDGE_CANDIDATES as int, close@);
                assert forall|k: int| 0 <= k < close.len() implies (#[trigger] close@[k]).at.within(
                    WORLD as int) && close@[k].id < n by {
                    assert(items.contains(close@[k]));
                }
                lemma_shortest_clear(*classifier, *dist, from, close@, close.len() as int);
            }
            let bridge = find_bridge(classifier, dist, from, &close);
            let ghost near0 = near;
            let ghost cand0 = cand;
            let ghost best0 = best@;
            proof {
                near = near.push(close@);
                cand = cand.push(bridge);
                assert forall|k: int| 0 <= k < i + 1 && view[k] != main implies are_nearest(
                    items.to_multiset(),
                    nodes[k].at(),
                    BRIDGE_CANDIDATES as int,
                    #[trigger] near[k],
                ) by {
                    if k < i {
                        assert(near[k] == near0[k]);
                    }
                }
                assert forall|k: int| 0 <= k < i + 1 && view[k] != main implies #[trigger] cand[k]
                    == shortest_clear(
                    *classifier,
                    *dist,
                    nodes[k].at(),
                    near[k],
                    near[k].len() as int,
                ) by {
                    if k < i {
                        assert(near[k] == near0[k]);
                        assert(cand[k] == cand0[k]);
                    }
                }
            }
            if let Some((d, id)) = bridge {
                let better = match best[r as usize] {
                    Some(l) => d < l.2,
                    None => true,
                };
                if better {
                    best.set(r as usize, Some((i as u32, id, d)));
                }
            }
            proof {
                assert forall|q: int| 0 <= q < n implies (#[trigger] best@[q] matches Some(l) ==> {
                    &&& q != main
                    &&& l.0 < i + 1
                    &&& l.1 < n
                    &&& view[l.0 as int] == q
                    &&& cand[l.0 as int] == Some((l.2, l.1))
                    &&& forall|j: int|
                        0 <= j < i + 1 && view[j] == q ==> (#[trigger] cand[j] matches Some((d, _))
                            ==> l.2 <= d && (j < l.0 ==> l.2 < d))
                }) by {
                    if best@[q] is Some {
                        let l = best@[q]->0;
                        let was = best0[q];
                        if q != r {
                            assert(best@[q] == best0[q]);
                        }
                        assert forall|j: int| 0 <= j < i + 1 && view[j] == q implies (
                        #[trigger] cand[j] matches Some((d, _)) ==> l.2 <= d && (j < l.0 ==> l.2 < d)) by {
                            if j < i {
                                assert(cand[j] == cand0[j]);
                                if cand0[j] is Some {
                                    assert(best0[view[j]] is Some);
                                }
                            }
                        }
                    }
                }
                assert forall|j: int|
                    0 <= j < i + 1 && view[j] != main && (#[trigger] cand[j]) is Some implies best@[view[j]] is Some by {
                    assert(comps@[j] == view[j]);
                    if j < i {
                        assert(cand[j] == cand0[j]);
                        assert(best0[view[j]] is Some);
                    }
                }
            }
        }
        i = i + 1;
    }
    let mut r: usize = 0;
    while r < n
        invariant
            r <= n,
            n == nodes.len(),
            view.len() == n,
            best.len() == n,
            before == old(raw_edges)@,
            links_within(raw_edges@, n as int),
            before.len() <= raw_edges.len(),
            raw_edges@.take(before.len() as int) =~= before,
            forall|q: int|
                0 <= q < n ==> (#[trigger] best[q] matches Some(l) ==> l.0 < n && l.1 < n && view[l.0 as int]
                    == q),
            forall|b: int|
                before.len() <= b < raw_edges.len() ==> {
                    &&& (#[trigger] raw_edges@[b]).0 < n
                    &&& view[raw_edges@[b].0 as int] < r
                    &&& best@[view[raw_edges@[b].0 as int]] == Some(raw_edges@[b])
                },
            forall|a: int, b: int|
                before.len() <= a < b < raw_edges.len() ==> view[(#[trigger] raw_edges@[a]).0 as int]
                    < view[(#[trigger] raw_edges@[b]).0 as int],
            forall|q: int|
                0 <= q < r && (#[trigger] best[q]) is Some ==> exists|b: int|
                    before.len() <= b < raw_edges.len() && #[trigger] raw_edges@[b] == best[q]->0,
        decreases n - r,
    {
        let ghost had = raw_edges@;
        if let Some(l) = best[r] {
            raw_edges.push(l);
            assert(raw_edges@[had.len() as int] == l);
        }
        proof {
            assert forall|q: int| 0 <= q < r + 1 && (#[trigger] best@[q]) is Some implies exists|b: int|
                before.len() <= b < raw_edges@.len() && #[trigger] raw_edges@[b] == best@[q]->0 by {
                if q < r {
                    let b = choose|b: int|
                        before.len() <= b < had.len() && #[trigger] had[b] == best@[q]->0;
                    assert(raw_edges@[b] == had[b]);
                }
            }
        }
        r = r + 1;
    }
    proof {
        let after = raw_edges@;
        let bridges = after.skip(before.len() as int);
        assert forall|i: int| 0 <= i < n && view[i] != main implies #[trigger] node_bridge(
            *classifier,
            *dist,
            nodes@,
            near,
            i,
        ) == cand[i] by {
            assert(cand[i] == shortest_clear(*classifier, *dist, nodes[i].at(), near[i], near[i].len() as int));
        }
        assert forall|b: int| 0 <= b < bridges.len() implies {
            &&& is_best_bridge(*classifier, *dist, nodes@, view, near, #[trigger] bridges[b])
            &&& view[bridges[b].0 as int] != main
        } by {
            assert(bridges[b] == after[before.len() + b]);
            let l = bridges[b];
            assert(best@[view[l.0 as int]] == Some(l));
            assert forall|j: int| 0 <= j < n && view[j] == view[l.0 as int] implies (
            #[trigger] node_bridge(*classifier, *dist, nodes@, near, j) matches Some((d, _)) ==> l.2 <= d
                && (j < l.0 ==> l.2 < d)) by {
                assert(node_bridge(*classifier, *dist, nodes@, near, j) == cand[j]);
            }
        }
        assert forall|i: int|
            0 <= i < n && view[i] != main && (#[trigger] node_bridge(
                *classifier,
                *dist,
                nodes@,
                near,
                i,
            )) is Some implies exists|b: int|
            0 <= b < bridges.len() && view[(#[trigger] bridges[b]).0 as int] == view[i] by {
            assert(cand[i] is Some);
            let q = view[i];
            assert(comps@[i] == view[i]);
            assert(best@[q] is Some);
            let b = choose|b: int| before.len() <= b < after.len() && #[trigger] after[b] == best@[q]->0;
            assert(bridges[b - before.len()] == after[b]);
        }
        assert forall|a: int, b: int| 0 <= a < b < bridges.len() implies view[(
        #[trigger] bridges[a]).0 as int] != view[(#[trigger] bridges[b]).0 as int] by {
            assert(bridges[a] == after[before.len() + a]);
            assert(bridges[b] == after[before.len() + b]);
        }
        assert(are_bridges(*classifier, *dist, nodes@, view, main as int, near, bridges));
    }
}

/// The bridge from a node leads to one of the nodes near it, over open water, and to none of
/// them leads a shorter one.
proof fn lemma_shortest_clear<D: Fn(Point, Point) -> u64>(
    c: LandClassifier,
    dist: D,
    from: Point,
    near: Seq<NodeEntry>,
    k: int,
)
    requires
        0 <= k <= near.len(),
    ensures
        shortest_clear(c, dist, from, near, k) matches Some((d, id)) ==> exists|m: int|
            0 <= m < k && (#[trigger] near[m]).id == id && d == measured(dist, from, near[m].at) && can_bridge(
                c,
                dist,
                from,
                near[m].at,
            ),
        forall|m: int|
            0 <= m < k && can_bridge(c, dist, from, (#[trigger] near[m]).at) ==> (shortest_clear(
                c,
                dist,
                from,
                near,
                k,
            ) matches Some((d, _)) && d <= measured(dist, from, near[m].at)),
    decreases k,
{
    if k > 0 {
        lemma_shortest_clear(c, dist, from, near, k - 1);
        let before = shortest_clear(c, dist, from, near, k - 1);
        if let Some((least, id)) = before {
            let m = choose|m: int|
                0 <= m < k - 1 && (#[trigger] near[m]).id == id && least == measured(dist, from, near[m].at)
                    && can_bridge(c, dist, from, near[m].at);
            assert(near[m].id == id);
        }
        assert(near[k - 1].id == near[k - 1].id);
    }
}

/// A bridge is the shortest of all that could be built from its component to the nodes of
/// the main one that are near: no candidate over open water is shorter.
pub proof fn lemma_bridge_is_shortest<D: Fn(Point, Point) -> u64>(
    c: LandClassifier,
    dist: D,
    nodes: Seq<GNode>,
    comps: Seq<int>,
    near: Seq<Seq<NodeEntry>>,
    l: Link,
    j: int,
    m: int,
)
    requires
        is_best_bridge(c, dist, nodes, comps, near, l),
        0 <= j < nodes.len(),
        comps[j] == comps[l.0 as int],
        0 <= m < near[j].len(),
        can_bridge(c, dist, nodes[j].at(), near[j][m].at),
    ensures
        l.2 <= measured(dist, nodes[j].at(), near[j][m].at),
{
    lemma_shortest_clear(c, dist, nodes[j].at(), near[j], near[j].len() as int);
    assert(node_bridge(c, dist, nodes, near, j) is Some);
}

/// A link joins its two ends: once it has been taken up, they are in one component.
pub proof fn lemma_link_joins(n: nat, links: Seq<Link>, k: int, e: int)
    requires
        links_within(links, n as int),
        0 <= e < k <= links.len(),
    ensures
        components(n, links, k)[links[e].0 as int] == components(n, links, k)[links[e].1 as int],
    decreases k,
{
    assert(links[e].0 < n && links[e].1 < n);
    if e < k - 1 {
        lemma_link_joins(n, links, k - 1, e);
    }
}

/// More links never part what fewer have joined.
pub proof fn lemma_joined_stays(n: nat, links: Seq<Link>, j: int, k: int, a: int, b: int)
    requires
        0 <= j <= k <= links.len(),
        0 <= a < n,
        0 <= b < n,
        components(n, links, j)[a] == components(n, links, j)[b],
    ensures
        components(n, links, k)[a] == components(n, links, k)[b],
    decreases k,
{
    if j < k {
        lemma_joined_stays(n, links, j, k - 1, a, b);
    }
}

proof fn lemma_components_prefix(n: nat, before: Seq<Link>, after: Seq<Link>, k: int)
    requires
        0 <= k <= before.len() <= after.len(),
        after.take(before.len() as int) == before,
    ensures
        components(n, before, k) == components(n, after, k),
    decreases k,
{
    if k > 0 {
        lemma_components_prefix(n, before, after, k - 1);
        assert(after.take(before.len() as int)[k - 1] == after[k - 1]);
    }
}

/// Every bridge leads from outside the main component into it, over open water and not
/// further than the longest bridge allowed.
pub proof fn lemma_bridges_over_water<D: Fn(Point, Point) -> u64>(
    c: LandClassifier,
    dist: D,
    nodes: Seq<GNode>,
    before: Seq<Link>,
    after: Seq<Link>,
    b: int,
)
    requires
        reconnected(c, dist, nodes, before, after),
        nodes.len() <= u32::MAX,
        forall|i: int| 0 <= i < nodes.len() ==> (#[trigger] nodes[i]).at().within(WORLD as int),
        before.len() <= b < after.len(),
    ensures
        ({
            let comps = components(nodes.len(), before, before.len() as int);
            let l = after[b];
            let p = nodes[l.0 as int].at();
            let q = nodes[l.1 as int].at();
            &&& l.0 < nodes.len()
            &&& l.1 < nodes.len()
            &&& is_main(comps, comps[l.1 as int])
            &&& comps[l.0 as int] != comps[l.1 as int]
            &&& l.2 == measured(dist, p, q)
            &&& l.2 <= MAX_BRIDGE
            &&& clear_of_land(c, p, q, BRIDGE_SHORE_TOL as int, l.2 as int)
        }),
{
    let comps = components(nodes.len(), before, before.len() as int);
    let n = nodes.len() as int;
    let (main, near) = choose|main: int, near: Seq<Seq<NodeEntry>>|
        is_main(comps, main) && #[trigger] lists_near(nodes, comps, main, near, n) && are_bridges(
            c,
            dist,
            nodes,
            comps,
            main,
            near,
            after.skip(before.len() as int),
        );
    let bridges = after.skip(before.len() as int);
    let l = after[b];
    assert(bridges[b - before.len()] == l);
    assert(is_best_bridge(c, dist, nodes, comps, near, bridges[b - before.len()]));
    let i = l.0 as int;
    let from = nodes[i].at();
    lemma_shortest_clear(c, dist, from, near[i], near[i].len() as int);
    let m = choose|m: int|
        0 <= m < near[i].len() && (#[trigger] near[i][m]).id == l.1 && l.2 == measured(
            dist,
            from,
            near[i][m].at,
        ) && can_bridge(c, dist, from, near[i][m].at);
    let items = members(nodes, comps, main, n);
    lemma_members(nodes, comps, main, n);
    lemma_nearest_of_seq(items, nodes[i].at(), BRIDGE_CANDIDATES as int, near[i]);
    assert(items.contains(near[i][m]));
}

/// A component that has a bridge is part of the main one afterwards.
pub proof fn lemma_bridged_joins_main<D: Fn(Point, Point) -> u64>(
    c: LandClassifier,
    dist: D,
    nodes: Seq<GNode>,
    before: Seq<Link>,
    after: Seq<Link>,
    b: int,
    i: int,
    m: int,
)
    requires
        reconnected(c, dist, nodes, before, after),
        nodes.len() <= u32::MAX,
        forall|i: int| 0 <= i < nodes.len() ==> (#[trigger] nodes[i]).at().within(WORLD as int),
        links_within(before, nodes.len() as int),
        before.len() <= b < after.len(),
        0 <= i < nodes.len(),
        0 <= m < nodes.len(),
        ({
            let comps = components(nodes.len(), before, before.len() as int);
            comps[i] == comps[after[b].0 as int] && is_main(comps, comps[m])
        }),
    ensures
        components(nodes.len(), after, after.len() as int)[i] == components(
            nodes.len(),
            after,
            after.len() as int,
        )[m],
{
    let n = nodes.len();
    let k = before.len() as int;
    let comps = components(n, before, k);
    lemma_bridges_over_water(c, dist, nodes, before, after, b);
    lemma_components_prefix(n, before, after, k);
    assert forall|e: int| 0 <= e < after.len() implies (#[trigger] after[e]).0 < n && after[e].1 < n by {
        if e < k {
            assert(after.take(k)[e] == before[e]);
            assert(before[e].0 < n && before[e].1 < n);
        } else {
            lemma_bridges_over_water(c, dist, nodes, before, after, e);
        }
    }
    let l = after[b];
    assert(comps[l.1 as int] == comps[m]) by {
        let r = comps[l.1 as int];
        let s = comps[m];
        assert(component_size(comps, s, comps.len() as int) <= component_size(
            comps,
            r,
            comps.len() as int,
        ));
        assert(component_size(comps, r, comps.len() as int) <= component_size(
            comps,
            s,
            comps.len() as int,
        ));
    }
    lemma_joined_stays(n, after, k, after.len() as int, i, l.0 as int);
    lemma_joined_stays(n, after, k, after.len() as int, l.1 as int, m);
    lemma_link_joins(n, after, after.len() as int, b);
}

proof fn lemma_linked_more(fewer: Seq<Link>, more: Seq<Link>, a: int, b: int)
    requires
        fewer.len() <= more.len(),
        forall|e: int| 0 <= e < fewer.len() ==> #[trigger] more[e] == fewer[e],
        linked(fewer, a, b),
    ensures
        linked(more, a, b),
{
    let w = choose|w: Seq<int>| #[trigger] leads(fewer, w, a, b);
    assert forall|i: int| 0 <= i < w.len() - 1 implies #[trigger] steps(more, w, i) by {
        assert(steps(fewer, w, i));
        let e = choose|e: int| 0 <= e < fewer.len() && joins(#[trigger] fewer[e], w[i], w[i + 1]);
        assert(joins(more[e], w[i], w[i + 1]));
    }
    assert(leads(more, w, a, b));
}

proof fn lemma_linked_self(links: Seq<Link>, a: int)
    ensures
        linked(links, a, a),
{
    assert(leads(links, seq![a], a, a));
}

proof fn lemma_one_step(links: Seq<Link>, e: int)
    requires
        0 <= e < links.len(),
    ensures
        linked(links, links[e].0 as int, links[e].1 as int),
        linked(links, links[e].1 as int, links[e].0 as int),
{
    let w = seq![links[e].0 as int, links[e].1 as int];
    assert(joins(links[e], w[0], w[1]));
    assert(steps(links, w, 0));
    assert(leads(links, w, w[0], w[1]));
    lemma_linked_symmetric(links, w[0], w[1]);
}

proof fn lemma_same_are_linked(n: nat, links: Seq<Link>, k: int, a: int, b: int)
    requires
        links_within(links, n as int),
        0 <= k <= links.len(),
        0 <= a < n,
        0 <= b < n,
        components(n, links, k)[a] == components(n, links, k)[b],
    ensures
        linked(links.take(k), a, b),
    decreases k,
{
    let part = links.take(k);
    if k == 0 {
        lemma_linked_self(part, a);
    } else {
        let before = components(n, links, k - 1);
        let l = links[k - 1];
        let less = links.take(k - 1);
        let x = l.0 as int;
        let y = l.1 as int;
        assert(l.0 < n && l.1 < n);
        assert(part[k - 1] == l);
        lemma_one_step(part, k - 1);
        if before[a] == before[b] {
            lemma_same_are_linked(n, links, k - 1, a, b);
            lemma_linked_more(less, part, a, b);
        } else if before[a] == before[x] {
            lemma_same_are_linked(n, links, k - 1, a, x);
            lemma_linked_more(less, part, a, x);
            lemma_same_are_linked(n, links, k - 1, y, b);
            lemma_linked_more(less, part, y, b);
            lemma_linked_transitive(part, a, x, y);
            lemma_linked_transitive(part, a, y, b);
        } else {
            assert(before[b] == before[x]);
            lemma_same_are_linked(n, links, k - 1, x, b);
            lemma_linked_more(less, part, x, b);
            lemma_same_are_linked(n, links, k - 1, a, y);
            lemma_linked_more(less, part, a, y);
            lemma_linked_transitive(part, a, y, x);
            lemma_linked_transitive(part, a, x, b);
        }
    }
}

proof fn lemma_walk_same(n: nat, links: Seq<Link>, walk: Seq<int>, i: int)
    requires
        links_within(links, n as int),
        is_walk(links, walk),
        0 <= walk[0] < n,
        0 <= i < walk.len(),
    ensures
        0 <= walk[i] < n,
        components(n, links, links.len() as int)[walk[i]] == components(n, links, links.len() as int)[walk[0]],
    decreases i,
{
    if i > 0 {
        lemma_walk_same(n, links, walk, i - 1);
        assert(steps(links, walk, i - 1));
        let e = choose|e: int| 0 <= e < links.len() && joins(#[trigger] links[e], walk[i - 1], walk[(i - 1) + 1]);
        assert(links[e].0 < n && links[e].1 < n);
        lemma_link_joins(n, links, links.len() as int, e);
    }
}

/// Two nodes are in one component if and only if a walk along links leads from one to the other.
pub proof fn lemma_components_are_linked(n: nat, links: Seq<Link>, a: int, b: int)
    requires
        links_within(links, n as int),
        0 <= a < n,
        0 <= b < n,
    ensures
        (components(n, links, links.len() as int)[a] == components(n, links, links.len() as int)[b]) <==> linked(
            links,
            a,
            b,
        ),
{
    let k = links.len() as int;
    assert(links.take(k) =~= links);
    if components(n, links, k)[a] == components(n, links, k)[b] {
        lemma_same_are_linked(n, links, k, a, b);
    }
    if linked(links, a, b) {
        let w = choose|w: Seq<int>| #[trigger] leads(links, w, a, b);
        lemma_walk_same(n, links, w, w.len() - 1);
    }
}

proof fn lemma_members_all(nodes: Seq<GNode>, comps: Seq<int>, r: int, k: int, i: int)
    requires
        0 <= i < k <= nodes.len(),
        comps[i] == r,
    ensures
        members(nodes, comps, r, k).contains(NodeEntry { id: i as u32, at: nodes[i].at() }),
    decreases k,
{
    let e = NodeEntry { id: i as u32, at: nodes[i].at() };
    let before = members(nodes, comps, r, k - 1);
    let now = members(nodes, comps, r, k);
    if i == k - 1 {
        assert(now[before.len() as int] == e);
    } else {
        lemma_members_all(nodes, comps, r, k - 1, i);
        let m = choose|m: int| 0 <= m < before.len() && before[m] == e;
        assert(now[m] == e);
    }
}

proof fn lemma_members_count(nodes: Seq<GNode>, comps: Seq<int>, r: int, k: int)
    requires
        0 <= k <= nodes.len(),
    ensures
        members(nodes, comps, r, k).len() == component_size(comps, r, k),
    decreases k,
{
    if k > 0 {
        lemma_members_count(nodes, comps, r, k - 1);
    }
}

/// Isolated water is joined wherever it can be: for each node outside the main component, if a
/// bridge can be built to one of the six nodes of the main component that are closest to it, or of
/// all where there are fewer, then a bridge leads from its component to the main one, and not a
/// longer one.
pub proof fn lemma_isolated_water_is_bridged<D: Fn(Point, Point) -> u64>(
    c: LandClassifier,
    dist: D,
    nodes: Seq<GNode>,
    before: Seq<Link>,
    after: Seq<Link>,
    i: int,
    main: int,
) -> (near: Seq<NodeEntry>)
    requires
        reconnected(c, dist, nodes, before, after),
        nodes.len() <= u32::MAX,
        forall|i: int| 0 <= i < nodes.len() ==> (#[trigger] nodes[i]).at().within(WORLD as int),
        0 <= i < nodes.len(),
        is_main(components(nodes.len(), before, before.len() as int), main),
        components(nodes.len(), before, before.len() as int)[i] != main,
    ensures
        ({
            let comps = components(nodes.len(), before, before.len() as int);
            &&& near.len() == 6 || (near.len() < 6 && near.len() == component_size(comps, main, nodes.len() as int))
            &&& forall|m: int|
                0 <= m < near.len() ==> (#[trigger] near[m]).id < nodes.len() && comps[near[m].id as int] == main
                    && near[m].at == nodes[near[m].id as int].at()
            &&& forall|v: int, m: int|
                0 <= m < near.len() && 0 <= v < nodes.len() && #[trigger] comps[v] == main && !near.contains(
                    NodeEntry { id: v as u32, at: nodes[v].at() },
                ) ==> dist2((#[trigger] near[m]).at, nodes[i].at()) <= dist2(nodes[v].at(), nodes[i].at())
            &&& forall|m: int|
                0 <= m < near.len() && can_bridge(c, dist, nodes[i].at(), (#[trigger] near[m]).at) ==> exists|
                    b: int,
                |
                    before.len() <= b < after.len() && comps[(#[trigger] after[b]).0 as int] == comps[i]
                        && comps[after[b].1 as int] == main && after[b].2 <= measured(
                        dist,
                        nodes[i].at(),
                        near[m].at,
                    )
        }),
{
    let n = nodes.len() as int;
    let comps = components(nodes.len(), before, before.len() as int);
    let (r, lists) = choose|main: int, near: Seq<Seq<NodeEntry>>|
        is_main(comps, main) && #[trigger] lists_near(nodes, comps, main, near, n) && are_bridges(
            c,
            dist,
            nodes,
            comps,
            main,
            near,
            after.skip(before.len() as int),
        );
    assert(r == main) by {
        assert(component_size(comps, r, comps.len() as int) <= component_size(comps, main, comps.len() as int));
        assert(component_size(comps, main, comps.len() as int) <= component_size(comps, r, comps.len() as int));
    }
    let near = lists[i];
    let items = members(nodes, comps, main, n);
    lemma_members(nodes, comps, main, n);
    lemma_members_count(nodes, comps, main, n);
    lemma_node_items_of_seq(items);
    lemma_nearest_of_seq(items, nodes[i].at(), 6, near);
    lemma_others_further(items, nodes[i].at(), 6, near);
    assert forall|v: int, m: int|
        0 <= m < near.len() && 0 <= v < nodes.len() && #[trigger] comps[v] == main && !near.contains(
            NodeEntry { id: v as u32, at: nodes[v].at() },
        ) implies dist2((#[trigger] near[m]).at, nodes[i].at()) <= dist2(nodes[v].at(), nodes[i].at()) by {
        lemma_members_all(nodes, comps, main, n, v);
    }
    let bridges = after.skip(before.len() as int);
    assert forall|m: int| 0 <= m < near.len() && can_bridge(c, dist, nodes[i].at(), (#[trigger] near[m]).at) implies exists|
        b: int,
    |
        before.len() <= b < after.len() && comps[(#[trigger] after[b]).0 as int] == comps[i] && comps[after[b].1 as int]
            == main && after[b].2 <= measured(dist, nodes[i].at(), near[m].at) by {
        lemma_shortest_clear(c, dist, nodes[i].at(), near, near.len() as int);
        assert(node_bridge(c, dist, nodes, lists, i) is Some);
        let k = choose|b: int| 0 <= b < bridges.len() && comps[(#[trigger] bridges[b]).0 as int] == comps[i];
        let b = before.len() + k;
        assert(after[b] == bridges[k]);
        assert(is_best_bridge(c, dist, nodes, comps, lists, bridges[k]));
        lemma_bridges_over_water(c, dist, nodes, before, after, b);
        assert(comps[after[b].1 as int] == main) by {
            let s = comps[after[b].1 as int];
            assert(component_size(comps, s, comps.len() as int) <= component_size(
                comps,
                main,
                comps.len() as int,
            ));
            assert(component_size(comps, main, comps.len() as int) <= component_size(
                comps,
                s,
                comps.len() as int,
            ));
        }
        assert(comps[after[b].0 as int] == comps[i]);
    }
    near
}

proof fn lemma_component_count(comps: Seq<int>, r: int, k: int)
    requires
        0 <= k,
    ensures
        Set::new(|i: int| 0 <= i < k && comps[i] == r).finite(),
        Set::new(|i: int| 0 <= i < k && comps[i] == r).len() == component_size(comps, r, k),
    decreases k,
{
    let now = Set::new(|i: int| 0 <= i < k && comps[i] == r);
    if k == 0 {
        assert(now =~= Set::empty());
    } else {
        lemma_component_count(comps, r, k - 1);
        let before = Set::new(|i: int| 0 <= i < k - 1 && comps[i] == r);
        if comps[k - 1] == r {
            assert(now =~= before.insert(k - 1));
        } else {
            assert(now =~= before);
        }
    }
}

/// Isolated water is joined to the largest component: no other has more nodes than the main one.
pub proof fn lemma_main_is_largest(comps: Seq<int>, main: int, other: int)
    requires
        is_main(comps, main),
        0 <= other < comps.len(),
    ensures
        Set::new(|i: int| 0 <= i < comps.len() && comps[i] == other).len() <= Set::new(
            |i: int| 0 <= i < comps.len() && comps[i] == main,
        ).len(),
{
    let n = comps.len() as int;
    lemma_component_count(comps, main, n);
    lemma_component_count(comps, other, n);
    assert(component_size(comps, other, n) <= component_size(comps, main, n));
}

} // verus!
