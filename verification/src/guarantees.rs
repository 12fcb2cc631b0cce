//! What the parts of the library guarantee together.
use vstd::prelude::*;

use crate::components::{joined, joins, leads, steps};
use crate::course::{lemma_one_trace, search_outcome};
use crate::geo::{dist2, measured, Point, DEGREE, TURN, WORLD};
use crate::graph::{
    half_edges, lemma_first_snap, lemma_half_edges_joined, lemma_same_component,
    lemma_snaps_to_main, raw_links, Graph, RawGraph, NO_COMPONENT,
};
use crate::land::LandClassifier;
use crate::router::{
    connects, direct, drawn, front_stitched, is_course, is_found, lemma_unwrapped, path_on_map,
    positions, problem, same_place, served, stitched, unwrapped, RouteResult, PATH_MAX,
};
use crate::search::{
    is_route, lemma_full_penalty, lemma_never_too_many, lemma_penalty_adds, reachable, route_cost, too_many, Problem,
    MAX_STEPS, PENALTY_ONE,
};
use crate::spatial::node_items;
use crate::sampling::lies_at;
use crate::thinning::{lemma_route_stays_close, lemma_thinned_ends, Rule};

verus! {

/// Two nodes that an edge joins are joined by a half edge in the rows of the graph.
proof fn lemma_joined_slot(g: Graph, raw: RawGraph, p: Problem, v: int, u: int) -> (i: int)
    requires
        g.wf(),
        g.is_of(raw),
        p.graph == g,
        g.max_depth > 0,
        0 <= v < g.node_count,
        joined(raw_links(raw.edges@), v, u),
    ensures
        p.leaves(v, i),
        p.target(i) == u,
{
    let links = raw_links(raw.edges@);
    let m = links.len() as int;
    let row = half_edges(raw.nodes@, links, v, m);
    lemma_half_edges_joined(raw.nodes@, links, v, m);
    let e = choose|e: int| 0 <= e < links.len() && joins(#[trigger] links[e], v, u);
    assert(joins(links[e], v, u));
    let k = choose|k: int| 0 <= k < row.len() && (#[trigger] row[k]).to == u;
    assert(g.row(v) == row);
    assert(g.row(v)[k] == g.slot(g.offsets@[v] + k));
    g.offsets@[v] + k
}

proof fn lemma_walk_within(g: Graph, raw: RawGraph, walk: Seq<int>, p: Problem, k: int)
    requires
        g.wf(),
        g.is_of(raw),
        p.graph == g,
        g.max_depth > 0,
        crate::components::is_walk(raw_links(raw.edges@), walk),
        0 <= walk[0] < g.node_count,
        0 <= k < walk.len(),
    ensures
        0 <= walk[k] < g.node_count,
    decreases k,
{
    if k > 0 {
        lemma_walk_within(g, raw, walk, p, k - 1);
        assert(steps(raw_links(raw.edges@), walk, k - 1));
        let i = lemma_joined_slot(g, raw, p, walk[k - 1], walk[k]);
        assert(g.offsets@[walk[k - 1]] <= g.offsets@[walk[k - 1] + 1] <= g.targets.len());
        assert(g.slot(i).to < g.node_count);
    }
}

/// Nodes of one component can be reached from one another.
pub proof fn lemma_component_reachable(g: Graph, raw: RawGraph, p: Problem, a: int, b: int)
    requires
        g.wf(),
        g.is_of(raw),
        p.graph == g,
        g.max_depth > 0,
        0 <= a < g.node_count,
        0 <= b < g.node_count,
        g.component@[a] != NO_COMPONENT,
        g.component@[a] == g.component@[b],
    ensures
        reachable(p, a, b),
{
    let links = raw_links(raw.edges@);
    lemma_same_component(g, raw, a, b);
    let walk = choose|w: Seq<int>| #[trigger] leads(links, w, a, b);
    let hops = Seq::new(
        (walk.len() - 1) as nat,
        |k: int| choose|i: int| #[trigger] p.leaves(walk[k], i) && p.target(i) == walk[k + 1],
    );
    assert forall|k: int| 0 <= k < hops.len() implies p.leaves(walk[k], #[trigger] hops[k]) && p.target(
        hops[k]) == walk[k + 1] by {
        lemma_walk_within(g, raw, walk, p, k);
        assert(steps(links, walk, k));
        let i = lemma_joined_slot(g, raw, p, walk[k], walk[k + 1]);
        assert(p.leaves(walk[k], i) && p.target(i) == walk[k + 1]);
    }
    assert(is_route(p, walk, hops));
}

/// Ports are always routed on the main component, so a route between any two is found, unless
/// the search has reason to close more nodes before the end than it may.
pub proof fn lemma_route_always_found<D: Fn(Point, Point) -> u64>(
    g: Graph,
    raw: RawGraph,
    c: LandClassifier,
    dist: D,
    penalty: i64,
    from: Point,
    to: Point,
    r: Option<RouteResult>,
)
    requires
        g.wf(),
        g.is_of(raw),
        g.max_depth > 0,
        !too_many(
            problem(g, penalty, dist, g.first_snap(from), g.first_snap(to)),
            g.first_snap(to),
        ),
        served(g, c, dist, penalty, from, to, r),
    ensures
        r is Some,
{
    reveal(served);
    let a = g.first_snap(from);
    let b = g.first_snap(to);
    lemma_first_snap(g, from);
    lemma_first_snap(g, to);
    if a != b {
        assert(node_items(g.spatial).len() > 0);
        lemma_snaps_to_main(g, raw, from, a);
        lemma_snaps_to_main(g, raw, to, b);
        let p = problem(g, penalty, dist, a, b);
        lemma_main_is_component(g, raw, a);
        lemma_component_reachable(g, raw, p, a, b);
    }
}

/// On a graph with fewer nodes than a search may close, a route between any two ports is found.
pub proof fn lemma_small_graph_routes<D: Fn(Point, Point) -> u64>(
    g: Graph,
    raw: RawGraph,
    c: LandClassifier,
    dist: D,
    penalty: i64,
    from: Point,
    to: Point,
    r: Option<RouteResult>,
)
    requires
        g.wf(),
        g.is_of(raw),
        g.max_depth > 0,
        g.node_count < 5_000_000,
        served(g, c, dist, penalty, from, to, r),
    ensures
        r is Some,
{
    lemma_never_too_many(
        problem(g, penalty, dist, g.first_snap(from), g.first_snap(to)),
        g.first_snap(to),
    );
    lemma_route_always_found(g, raw, c, dist, penalty, from, to, r);
}

/// A request has one answer, whatever the scratch space of the router held before: a router
/// that has been used answers as a fresh one does.
pub proof fn lemma_one_answer<D: Fn(Point, Point) -> u64>(
    g: Graph,
    c: LandClassifier,
    dist: D,
    penalty: i64,
    from: Point,
    to: Point,
    used: Option<RouteResult>,
    fresh: Option<RouteResult>,
)
    requires
        g.wf(),
        served(g, c, dist, penalty, from, to, used),
        served(g, c, dist, penalty, from, to, fresh),
    ensures
        used is Some <==> fresh is Some,
        used is Some ==> {
            &&& used->0.path@ == fresh->0.path@
            &&& used->0.distance == fresh->0.distance
            &&& used->0.nodes_explored == fresh->0.nodes_explored
        },
{
    reveal(served);
    let a = g.first_snap(from);
    let b = g.first_snap(to);
    let p = problem(g, penalty, dist, a, b);
    if a != b && used is Some && fresh is Some {
        let x = used->0;
        let y = fresh->0;
        let (one, steps) = choose|nodes: Seq<int>, hops: Seq<int>| #[trigger]
            is_found(p, b, nodes, hops) && is_course(p, b, nodes, route_cost(p, hops), x.nodes_explored as int)
                && x.path@ == drawn(c, dist, positions(g, nodes), from, to) && x.distance == route_cost(p, hops)
                + stitched(c, dist, positions(g, nodes), from, to).1;
        let (other, hops) = choose|nodes: Seq<int>, hops: Seq<int>| #[trigger]
            is_found(p, b, nodes, hops) && is_course(p, b, nodes, route_cost(p, hops), y.nodes_explored as int)
                && y.path@ == drawn(c, dist, positions(g, nodes), from, to) && y.distance == route_cost(p, hops)
                + stitched(c, dist, positions(g, nodes), from, to).1;
        let (marks, _) = search_outcome(p, b)->0;
        lemma_one_trace(marks, one, other);
    }
}

proof fn lemma_main_is_component(g: Graph, raw: RawGraph, a: int)
    requires
        g.wf(),
        g.is_of(raw),
        0 <= a < g.node_count,
        g.component@[a] == g.main_comp,
    ensures
        g.component@[a] != NO_COMPONENT,
{
    let links = raw_links(raw.edges@);
    let firsts = choose|firsts: Seq<int>| #[trigger]
        crate::components::label_components(links, g.component@, firsts) && firsts.len()
            == g.comp_sizes.len();
    crate::components::lemma_component_count(links, g.component@, firsts);
}

/// Where distances obey the triangle inequality but for `bend`, no edge is shorter than the
/// distance it spans but for `short`, and the penalty is one or more, the estimate is
/// consistent within the two together: lengths that a graph file has rounded cost the route
/// found no more than that on each edge, and exact ones nothing.
pub proof fn lemma_estimate_consistent<D: Fn(Point, Point) -> u64>(
    g: Graph,
    dist: D,
    penalty: i64,
    a: int,
    b: int,
    bend: int,
    short: int,
)
    requires
        g.wf(),
        penalty >= PENALTY_ONE,
        forall|x: Point, y: Point, z: Point| #[trigger]
            measured(dist, x, z) <= #[trigger] measured(dist, x, y) + measured(dist, y, z) + bend,
        forall|u: int, i: int|
            0 <= u < g.node_count && g.offsets@[u] <= i < g.offsets@[u + 1] ==> measured(
                dist,
                #[trigger] g.at(u),
                g.at(g.slot(i).to as int),
            ) <= (#[trigger] g.slot(i)).length + short,
    ensures
        problem(g, penalty, dist, a, b).consistent_within(bend + short),
{
    let p = problem(g, penalty, dist, a, b);
    assert forall|u: int, i: int| #[trigger] p.leaves(u, i) implies (p.rest)(u) <= p.cost(i) + (p.rest)(
        p.target(i)) + (bend + short) by {
        let x = g.at(u);
        let y = g.at(p.target(i));
        let z = g.at(b);
        assert(g.offsets@[u] <= g.offsets@[u + 1] <= g.targets.len());
        let h = g.slot(i);
        assert(h.depth <= g.max_depth);
        assert(measured(dist, x, y) <= h.length + short);
        assert(measured(dist, x, z) <= measured(dist, x, y) + measured(dist, y, z) + bend);
        lemma_penalty_adds(h.length as int, h.depth as int, g.max_depth as int, penalty as int);
    }
}

/// The drawn path starts at the true origin where the connector to the snapped node stays
/// in water, else at the snapped node; and so it ends, but for whole turns of longitude.
pub proof fn lemma_drawn_ends<D: Fn(Point, Point) -> u64>(
    c: LandClassifier,
    dist: D,
    path: Seq<Point>,
    from: Point,
    to: Point,
)
    requires
        1 <= path.len() <= PATH_MAX - 2,
        path_on_map(path),
        from.within(WORLD as int),
        to.within(WORLD as int),
    ensures
        ({
            let line = drawn(c, dist, path, from, to);
            let first = if !same_place(from, path.first()) && connects(c, dist, from, path.first()) {
                from
            } else {
                path.first()
            };
            let last = if !same_place(to, path.last()) && connects(c, dist, path.last(), to) {
                to
            } else {
                path.last()
            };
            &&& line.len() >= 1
            &&& line.first() == first
            &&& line.last().lat == last.lat
            &&& (line.last().lon - last.lon) % TURN as int == 0
        }),
{
    let front = front_stitched(c, dist, path, from).0;
    assert(front.last() == path.last());
    let whole = stitched(c, dist, path, from, to).0;
    assert forall|i: int| 0 <= i < whole.len() implies (#[trigger] whole[i]).within(WORLD as int) by {
        if i < front.len() {
            assert(whole[i] == front[i]);
            if front.len() > path.len() && i > 0 {
                assert(front[i] == path[i - 1]);
            } else if front.len() == path.len() {
                assert(front[i] == path[i]);
            }
        }
    }
    let n = whole.len() as int;
    lemma_unwrapped(whole, n);
    let line = unwrapped(whole, n);
    lemma_thinned_ends(Rule::Route, line);
    assert(line[n - 1].lat == whole[n - 1].lat);
    assert(line.first() == whole.first());
}

/// What a route is said to be long: the cost of the way over the graph, which no other way undercuts
/// where the estimate is consistent, and the lengths of the connectors at its ends that are drawn.
pub proof fn lemma_length_of_a_route<D: Fn(Point, Point) -> u64>(
    g: Graph,
    c: LandClassifier,
    dist: D,
    penalty: i64,
    from: Point,
    to: Point,
    route: RouteResult,
) -> (r: (Seq<int>, Seq<int>))
    requires
        served(g, c, dist, penalty, from, to, Some(route)),
        g.first_snap(from) != g.first_snap(to),
    ensures
        ({
            let a = g.first_snap(from);
            let b = g.first_snap(to);
            let p = problem(g, penalty, dist, a, b);
            let front = if !same_place(from, g.at(a)) && connects(c, dist, from, g.at(a)) {
                measured(dist, from, g.at(a)) as int
            } else {
                0
            };
            let back = if !same_place(to, g.at(b)) && connects(c, dist, g.at(b), to) {
                measured(dist, g.at(b), to) as int
            } else {
                0
            };
            &&& is_route(p, r.0, r.1)
            &&& r.0.first() == a
            &&& r.0.last() == b
            &&& route.distance == route_cost(p, r.1) + front + back
            &&& forall|others: Seq<int>, steps: Seq<int>| #[trigger]
                is_route(p, others, steps) && others.first() == a && others.last() == b
                    && p.consistent_within(0) ==> route_cost(p, r.1) <= route_cost(p, steps)
        }),
{
    reveal(served);
    let a = g.first_snap(from);
    let b = g.first_snap(to);
    let p = problem(g, penalty, dist, a, b);
    let (nodes, hops) = choose|nodes: Seq<int>, hops: Seq<int>| #[trigger]
        is_found(p, b, nodes, hops) && is_course(p, b, nodes, route_cost(p, hops), route.nodes_explored as int)
            && route.path@ == drawn(c, dist, positions(g, nodes), from, to) && route.distance == route_cost(p, hops)
            + stitched(c, dist, positions(g, nodes), from, to).1;
    let path = positions(g, nodes);
    assert(path.first() == g.at(a) && path.last() == g.at(b));
    let front = front_stitched(c, dist, path, from).0;
    assert(front.last() == path.last());
    assert forall|others: Seq<int>, steps: Seq<int>| #[trigger]
        is_route(p, others, steps) && others.first() == a && others.last() == b && p.consistent_within(0) implies route_cost(
        p,
        hops,
    ) <= route_cost(p, steps) by {
        assert(0 * steps.len() == 0);
    }
    (nodes, hops)
}

/// Two ports that snap to one node are joined directly: the line runs from one to the other, the short
/// way around the globe, and is as long as they are apart.
pub proof fn lemma_direct_route<D: Fn(Point, Point) -> u64>(
    g: Graph,
    c: LandClassifier,
    dist: D,
    penalty: i64,
    from: Point,
    to: Point,
    r: Option<RouteResult>,
)
    requires
        served(g, c, dist, penalty, from, to, r),
        g.first_snap(from) == g.first_snap(to),
        from.within(WORLD as int),
        to.within(WORLD as int),
    ensures
        r matches Some(route) && {
            &&& route.path.len() >= 1
            &&& route.path@.first() == from
            &&& route.distance == measured(dist, from, to)
            &&& route.nodes_explored == 0
            &&& same_place(to, from) ==> route.path.len() == 1
            &&& !same_place(to, from) ==> {
                &&& route.path.len() == 2
                &&& route.path@[1].lat == to.lat
                &&& (route.path@[1].lon - to.lon) % TURN as int == 0
                &&& -TURN <= 2 * (route.path@[1].lon - from.lon) <= TURN
            }
        },
{
    reveal(served);
    let line = direct(from, to);
    lemma_unwrapped(line, line.len() as int);
}

/// The line that is drawn follows the way over the graph: each node of it lies, but for whole turns,
/// within 0.01 degrees of a position on a leg of the line.
pub proof fn lemma_drawn_follows_path<D: Fn(Point, Point) -> u64>(
    c: LandClassifier,
    dist: D,
    path: Seq<Point>,
    from: Point,
    to: Point,
    i: int,
) -> (r: (int, int, Point, Point))
    requires
        2 <= path.len() <= PATH_MAX - 2,
        path_on_map(path),
        from.within(WORLD as int),
        to.within(WORLD as int),
        0 <= i < path.len(),
    ensures
        ({
            let line = drawn(c, dist, path, from, to);
            &&& 0 <= r.0 < line.len() - 1
            &&& 0 <= r.1 <= DEGREE
            &&& lies_at(line[r.0], line[r.0 + 1], r.1, DEGREE as int, r.2)
            &&& r.3.lat == path[i].lat
            &&& (r.3.lon - path[i].lon) % TURN as int == 0
            &&& 10_000 * dist2(r.3, r.2) <= DEGREE * DEGREE
        }),
{
    let front = front_stitched(c, dist, path, from).0;
    let whole = stitched(c, dist, path, from, to).0;
    assert forall|i: int| 0 <= i < whole.len() implies (#[trigger] whole[i]).within(WORLD as int) by {
        if i < front.len() {
            assert(whole[i] == front[i]);
            if front.len() > path.len() && i > 0 {
                assert(front[i] == path[i - 1]);
            } else if front.len() == path.len() {
                assert(front[i] == path[i]);
            }
        }
    }
    let k = if front.len() > path.len() {
        i + 1
    } else {
        i
    };
    assert(front[k] == path[i]);
    assert(whole[k] == path[i]);
    let n = whole.len() as int;
    lemma_unwrapped(whole, n);
    let pts = unwrapped(whole, n);
    let r = lemma_route_stays_close(pts, k);
    assert(pts[k].lat == whole[k].lat);
    (r.0, r.1, r.2, pts[k])
}

/// What a search weighs: it starts at the node of the origin, an edge of the open ocean costs its
/// length, one at the greatest depth as much more as the penalty says, and what is left from a node is
/// taken to be its distance from the end.
pub proof fn lemma_what_a_search_weighs<D: Fn(Point, Point) -> u64>(
    g: Graph,
    dist: D,
    penalty: i64,
    a: int,
    b: int,
    u: int,
    i: int,
)
    requires
        g.wf(),
        0 <= u < g.node_count,
        g.offsets@[u] <= i < g.offsets@[u + 1],
    ensures
        ({
            let p = problem(g, penalty, dist, a, b);
            let length = g.base_weights@[i] as int;
            let depth = g.edge_depths@[i] as int;
            &&& p.start == a
            &&& p.target(i) == g.targets@[i]
            &&& (p.rest)(u) == measured(dist, g.at(u), g.at(b))
            &&& g.max_depth > 0 ==> p.leaves(u, i)
            &&& 5 * depth <= g.max_depth ==> p.cost(i) == length
            &&& depth == g.max_depth && depth > 0 ==> p.cost(i) == length + (length * (penalty - 1_000_000))
                / 1_000_000
        }),
{
    let h = g.slot(i);
    if h.depth == g.max_depth && h.depth > 0 {
        lemma_full_penalty(h.length as int, g.max_depth as int, penalty as int);
    }
}

} // verus!
