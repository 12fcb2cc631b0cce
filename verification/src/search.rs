//! The invariants of the route search.
use vstd::multiset::Multiset;
use vstd::prelude::*;

use crate::graph::{Graph, HalfEdge, DEPTH_MAX, LENGTH_MAX};
use crate::heap::Keyed;

verus! {

/// One, as a coastal penalty: penalties are counted in millionths.
pub const PENALTY_ONE: i64 = 1_000_000;

/// Bound on coastal penalties.
pub const PENALTY_MAX: i64 = 68_719_476_736;

/// Bound on the cost of one edge.
pub const COST_MAX: i128 = 9_223_372_036_854_775_808;

/// How many nodes a search may close before it gives up.
pub const MAX_STEPS: usize = 5_000_000;

/// The cost of what has not been reached.
pub const UNREACHED: i128 = 0x7fff_ffff_ffff_ffff_ffff_ffff_ffff_ffff;

/// The mark of a node that no other leads to.
pub const NO_NODE: u32 = 0xffff_ffff;

/// An edge has a cost unless neither it nor any node has a depth to speak of.
pub open spec fn passable(h: HalfEdge, max_depth: int) -> bool {
    max_depth > 0 || h.depth < 0
}

/// Quadratic coastal penalty: an edge in the open ocean, whose depth is at most a fifth of
/// the greatest, costs its length; the factor grows to `penalty` at the greatest depth.
pub open spec fn edge_weight(length: int, depth: int, max_depth: int, penalty: int) -> int {
    if 5 * depth <= max_depth {
        length
    } else {
        let over = 5 * depth - max_depth;
        length + (length * (penalty - PENALTY_ONE) * (over * over)) / (16_000_000 * (max_depth
            * max_depth))
    }
}

/// What a search is about: a graph, a penalty, an estimate of what is left from each node
/// to the end, and the start.
pub ghost struct Problem {
    pub graph: Graph,
    pub penalty: int,
    pub rest: spec_fn(int) -> int,
    pub start: int,
}

impl Problem {
    /// The cost of the half edge in a slot.
    pub open spec fn cost(self, i: int) -> int {
        let h = self.graph.slot(i);
        edge_weight(h.length as int, h.depth as int, self.graph.max_depth as int, self.penalty)
    }

    /// The slot belongs to the row of node `u`, and its half edge can be taken.
    pub open spec fn leaves(self, u: int, i: int) -> bool {
        &&& 0 <= u < self.graph.node_count
        &&& self.graph.offsets@[u] <= i < self.graph.offsets@[u + 1]
        &&& passable(self.graph.slot(i), self.graph.max_depth as int)
    }

    /// The node that the half edge in a slot leads to.
    pub open spec fn target(self, i: int) -> int {
        self.graph.slot(i).to as int
    }

    /// Along an edge, the estimate falls by no more than the cost of the edge and the slack.
    pub open spec fn consistent_within(self, slack: int) -> bool {
        forall|u: int, i: int| #[trigger]
            self.leaves(u, i) ==> (self.rest)(u) <= self.cost(i) + (self.rest)(self.target(i)) + slack
    }
}

/// A route: its nodes, and the slots of the half edges that join them.
pub open spec fn is_route(p: Problem, nodes: Seq<int>, hops: Seq<int>) -> bool {
    &&& nodes.len() == hops.len() + 1
    &&& forall|k: int|
        0 <= k < hops.len() ==> p.leaves(nodes[k], #[trigger] hops[k]) && p.target(hops[k]) == nodes[k
            + 1]
}

/// What a route costs.
pub open spec fn route_cost(p: Problem, hops: Seq<int>) -> int
    decreases hops.len(),
{
    if hops.len() == 0 {
        0
    } else {
        p.cost(hops[0]) + route_cost(p, hops.skip(1))
    }
}

/// Some route leads from `a` to `b`.
pub open spec fn reachable(p: Problem, a: int, b: int) -> bool {
    exists|nodes: Seq<int>, hops: Seq<int>| #[trigger]
        is_route(p, nodes, hops) && nodes.first() == a && nodes.last() == b
}

/// What is noted of a node: the cost of the best route found to it, the node before it on
/// that route, and whether it has been dealt with.
#[derive(Clone, Copy, PartialEq, Eq, Structural, Debug)]
pub struct Mark {
    pub g_score: i128,
    pub came_from: u32,
    pub closed: bool,
}

impl Mark {
    /// Nothing is known yet.
    pub open spec fn fresh() -> Mark {
        Mark { g_score: UNREACHED, came_from: NO_NODE, closed: false }
    }

    pub open spec fn reached(self) -> bool {
        self.g_score != UNREACHED
    }
}

/// The state of a search. `via` holds the slot by which each node was reached, and `rank` the
/// order in which nodes were closed.
pub ghost struct Search {
    pub marks: Seq<Mark>,
    pub via: Seq<int>,
    pub rank: Seq<int>,
    pub heap: Multiset<Keyed>,
    pub explored: int,
}

/// Node `v` was reached from a closed node by the half edge noted for it.
pub open spec fn reached_well(p: Problem, s: Search, v: int) -> bool {
    let u = s.marks[v].came_from as int;
    &&& p.leaves(u, s.via[v])
    &&& s.marks[u].closed
    &&& s.marks[u].reached()
    &&& p.target(s.via[v]) == v
    &&& s.marks[v].g_score == s.marks[u].g_score + p.cost(s.via[v])
    &&& s.marks[v].closed ==> s.rank[u] < s.rank[v]
}

/// How many of the first `k` nodes are closed.
pub open spec fn closed_count(marks: Seq<Mark>, k: int) -> int
    decreases k,
{
    if k <= 0 {
        0
    } else {
        closed_count(marks, k - 1) + if marks[k - 1].closed {
            1int
        } else {
            0int
        }
    }
}

/// The mark of node `v` describes a route to it.
pub open spec fn marked_well(p: Problem, s: Search, v: int) -> bool {
    let m = s.marks[v];
    &&& m.reached() && v != p.start ==> reached_well(p, s, v)
    &&& m.closed ==> m.reached() && 0 <= s.rank[v] < s.explored && -s.rank[v] * COST_MAX <= m.g_score
        <= s.rank[v] * COST_MAX
    &&& m.reached() ==> -s.explored * COST_MAX <= m.g_score <= s.explored * COST_MAX
}

/// The marks describe routes from the start.
pub open spec fn sound(p: Problem, s: Search) -> bool {
    let n = p.graph.node_count as int;
    &&& p.graph.wf()
    &&& 0 <= p.start < n
    &&& s.marks.len() >= n
    &&& s.via.len() == n
    &&& s.rank.len() == n
    &&& s.marks[p.start].g_score == 0
    &&& s.marks[p.start].came_from == NO_NODE
    &&& 0 <= s.explored <= MAX_STEPS
    &&& s.explored > 0 ==> s.marks[p.start].closed
    &&& closed_count(s.marks, n) == s.explored
    &&& forall|v: int| 0 <= v < n ==> #[trigger] marked_well(p, s, v)
}

/// Every node that has been reached and not closed waits in the heap with its estimate, and
/// nothing waits with less.
pub open spec fn waiting(p: Problem, s: Search) -> bool {
    let n = p.graph.node_count as int;
    &&& forall|v: int|
        0 <= v < n && (#[trigger] s.marks[v]).reached() && !s.marks[v].closed ==> s.heap.contains(
            Keyed { key: (s.marks[v].g_score + (p.rest)(v)) as i128, item: v as u32 },
        )
    &&& forall|e: Keyed| #[trigger]
        s.heap.contains(e) ==> {
            &&& e.item < n
            &&& s.marks[e.item as int].reached()
            &&& e.key >= s.marks[e.item as int].g_score + (p.rest)(e.item as int)
        }
}

/// The half edges of closed nodes have been followed, those of `cur` below slot `upto`.
pub open spec fn relaxed(p: Problem, s: Search, cur: int, upto: int) -> bool {
    forall|u: int, i: int| #[trigger]
        p.leaves(u, i) && s.marks[u].closed && !(u == cur && i >= upto) ==> {
            let t = s.marks[p.target(i)];
            t.reached() && (t.closed || t.g_score <= s.marks[u].g_score + p.cost(i))
        }
}

/// A cost is that of the route at most, but for so much slack on each of its edges.
pub open spec fn near(p: Problem, cost: int, hops: Seq<int>, slack: int) -> bool {
    cost <= route_cost(p, hops) + slack * hops.len()
}

/// Where the estimate is consistent within a slack, the routes found to closed nodes are as
/// cheap as any, but for so much slack on each edge.
#[verifier::opaque]
pub open spec fn near_best(p: Problem, s: Search) -> bool {
    forall|slack: int, nodes: Seq<int>, hops: Seq<int>|
        0 <= slack && p.consistent_within(slack) && is_route(p, nodes, hops) && nodes.first() == p.start
            && 0 <= nodes.last() < p.graph.node_count && s.marks[nodes.last()].closed
            ==> #[trigger] near(p, s.marks[nodes.last()].g_score as int, hops, slack)
}

proof fn lemma_near_best(p: Problem, s: Search, slack: int, nodes: Seq<int>, hops: Seq<int>)
    requires
        near_best(p, s),
        0 <= slack,
        p.consistent_within(slack),
        is_route(p, nodes, hops),
        nodes.first() == p.start,
        0 <= nodes.last() < p.graph.node_count,
        s.marks[nodes.last()].closed,
    ensures
        s.marks[nodes.last()].g_score <= route_cost(p, hops) + slack * hops.len(),
{
    reveal(near_best);
    assert(near(p, s.marks[nodes.last()].g_score as int, hops, slack));
}

/// What is known of closed nodes stays true where their marks stay.
proof fn lemma_near_best_kept(p: Problem, s: Search, t: Search)
    requires
        near_best(p, s),
        forall|v: int| 0 <= v < p.graph.node_count && (#[trigger] t.marks[v]).closed ==> t.marks[v] == s.marks[v],
    ensures
        near_best(p, t),
{
    reveal(near_best);
    assert forall|slack: int, nodes: Seq<int>, hops: Seq<int>|
        0 <= slack && p.consistent_within(slack) && is_route(p, nodes, hops) && nodes.first() == p.start
            && 0 <= nodes.last() < p.graph.node_count && t.marks[nodes.last()].closed implies #[trigger] near(
        p,
        t.marks[nodes.last()].g_score as int,
        hops,
        slack,
    ) by {
        assert(near(p, s.marks[nodes.last()].g_score as int, hops, slack));
    }
}

/// The estimates are lengths.
pub open spec fn estimates(p: Problem) -> bool {
    forall|v: int| 0 <= #[trigger] (p.rest)(v) <= u64::MAX
}

/// All that is known between two steps of a search.
pub open spec fn search_inv(p: Problem, s: Search, cur: int, upto: int) -> bool {
    &&& sound(p, s)
    &&& waiting(p, s)
    &&& relaxed(p, s, cur, upto)
    &&& near_best(p, s)
    &&& estimates(p)
}

/// An edge costs no more than the bound.
pub proof fn lemma_edge_weight_bound(length: int, depth: int, max_depth: int, penalty: int)
    requires
        0 <= length <= LENGTH_MAX,
        -DEPTH_MAX <= depth <= max_depth <= DEPTH_MAX,
        0 <= max_depth,
        -PENALTY_MAX <= penalty <= PENALTY_MAX,
    ensures
        -COST_MAX <= edge_weight(length, depth, max_depth, penalty) <= COST_MAX,
        5 * depth > max_depth ==> {
            let over = 5 * depth - max_depth;
            &&& 0 < max_depth
            &&& 0 < over <= 4 * max_depth
            &&& 0 < over * over <= 16 * (max_depth * max_depth)
            &&& 0 < max_depth * max_depth <= 0x100_0000_0000
            &&& -0x4_0000_0000_0000_0000_0000 <= length * (penalty - PENALTY_ONE)
                <= 0x4_0000_0000_0000_0000_0000
            &&& -0x4000_0000_0000_0000_0000_0000_0000_0000 <= length * (penalty - PENALTY_ONE) * (over
                * over) <= 0x4000_0000_0000_0000_0000_0000_0000_0000
        },
{
    if 5 * depth > max_depth {
        let over = 5 * depth - max_depth;
        let m2 = max_depth * max_depth;
        let o2 = over * over;
        let x = length * (penalty - PENALTY_ONE);
        assert(0 < over <= 4 * max_depth);
        assert(0 < o2 <= 16 * m2) by (nonlinear_arith)
            requires
                0 < over <= 4 * max_depth,
                o2 == over * over,
                m2 == max_depth * max_depth,
        ;
        assert(0 < m2 <= 0x100_0000_0000) by (nonlinear_arith)
            requires
                0 < max_depth <= 1_048_576,
                m2 == max_depth * max_depth,
        ;
        assert(-2_417_888_000_000_000_000_000_000 <= x <= 2_417_888_000_000_000_000_000_000)
            by (nonlinear_arith)
            requires
                0 <= length <= 35_184_372_088_832,
                -68_720_476_736 <= penalty - PENALTY_ONE <= 68_720_476_736,
                x == length * (penalty - PENALTY_ONE),
        ;
        assert(-2_417_888_000_000_000_000_000_000 * o2 <= x * o2 <= 2_417_888_000_000_000_000_000_000
            * o2) by (nonlinear_arith)
            requires
                -2_417_888_000_000_000_000_000_000 <= x <= 2_417_888_000_000_000_000_000_000,
                0 < o2,
        ;
        let d = 16_000_000 * m2;
        let q = (x * o2) / d;
        let r = (x * o2) % d;
        vstd::arithmetic::div_mod::lemma_fundamental_div_mod(x * o2, d);
        assert(-2_417_888_000_000_000_000 * d - d < d * q <= 2_417_888_000_000_000_000 * d)
            by (nonlinear_arith)
            requires
                d * q + r == x * o2,
                0 <= r < d,
                d == 16_000_000 * m2,
                0 < o2 <= 16 * m2,
                -2_417_888_000_000_000_000_000_000 * o2 <= x * o2
                    <= 2_417_888_000_000_000_000_000_000 * o2,
        ;
        assert(-2_417_888_000_000_000_001 <= q <= 2_417_888_000_000_000_000) by (nonlinear_arith)
            requires
                0 < d,
                -2_417_888_000_000_000_000 * d - d < d * q <= 2_417_888_000_000_000_000 * d,
        ;
    }
}

/// With a penalty of one or more, no edge costs less than its length.
pub proof fn lemma_penalty_adds(length: int, depth: int, max_depth: int, penalty: int)
    requires
        0 <= length,
        0 <= max_depth,
        depth <= max_depth,
        penalty >= PENALTY_ONE,
    ensures
        edge_weight(length, depth, max_depth, penalty) >= length,
{
    if 5 * depth > max_depth {
        let over = 5 * depth - max_depth;
        let d = 16_000_000 * (max_depth * max_depth);
        assert(0 < d) by (nonlinear_arith)
            requires
                0 < max_depth,
                d == 16_000_000 * (max_depth * max_depth),
        ;
        let x = length * (penalty - PENALTY_ONE) * (over * over);
        assert(0 <= x) by (nonlinear_arith)
            requires
                0 <= length,
                0 <= penalty - PENALTY_ONE,
                x == length * (penalty - PENALTY_ONE) * (over * over),
        ;
        vstd::arithmetic::div_mod::lemma_div_pos_is_pos(x, d);
    }
}

/// A greater penalty never makes an edge cheaper.
pub proof fn lemma_penalty_monotone(length: int, depth: int, max_depth: int, p: int, q: int)
    requires
        0 <= length,
        0 <= max_depth,
        depth <= max_depth,
        p <= q,
    ensures
        edge_weight(length, depth, max_depth, p) <= edge_weight(length, depth, max_depth, q),
{
    if 5 * depth > max_depth {
        let over = 5 * depth - max_depth;
        let d = 16_000_000 * (max_depth * max_depth);
        assert(0 < d) by (nonlinear_arith)
            requires
                0 < max_depth,
                d == 16_000_000 * (max_depth * max_depth),
        ;
        let x = length * (p - PENALTY_ONE) * (over * over);
        let y = length * (q - PENALTY_ONE) * (over * over);
        assert(x <= y) by (nonlinear_arith)
            requires
                0 <= length,
                p <= q,
                x == length * (p - PENALTY_ONE) * (over * over),
                y == length * (q - PENALTY_ONE) * (over * over),
        ;
        vstd::arithmetic::div_mod::lemma_div_is_ordered(x, y, d);
    }
}

/// With a penalty of one or more, an edge closer to the coast never costs less than one of
/// the same length further out.
pub proof fn lemma_depth_monotone(length: int, a: int, b: int, max_depth: int, penalty: int)
    requires
        0 <= length,
        0 <= max_depth,
        a <= b <= max_depth,
        penalty >= PENALTY_ONE,
    ensures
        edge_weight(length, a, max_depth, penalty) <= edge_weight(length, b, max_depth, penalty),
{
    if 5 * a <= max_depth {
        lemma_penalty_adds(length, b, max_depth, penalty);
    } else {
        let d = 16_000_000 * (max_depth * max_depth);
        assert(0 < d) by (nonlinear_arith)
            requires
                0 < max_depth,
                d == 16_000_000 * (max_depth * max_depth),
        ;
        let u = 5 * a - max_depth;
        let v = 5 * b - max_depth;
        let k = length * (penalty - PENALTY_ONE);
        assert(0 <= k) by (nonlinear_arith)
            requires
                0 <= length,
                0 <= penalty - PENALTY_ONE,
                k == length * (penalty - PENALTY_ONE),
        ;
        assert(k * (u * u) <= k * (v * v)) by (nonlinear_arith)
            requires
                0 <= k,
                0 < u <= v,
        ;
        vstd::arithmetic::div_mod::lemma_div_is_ordered(k * (u * u), k * (v * v), d);
    }
}

/// In the open ocean, up to a fifth of the greatest depth, an edge costs its length.
pub proof fn lemma_open_ocean_is_free(length: int, depth: int, max_depth: int, penalty: int)
    requires
        5 * depth <= max_depth,
    ensures
        edge_weight(length, depth, max_depth, penalty) == length,
{
}

/// The coastal penalty is quadratic: twice as far beyond a fifth of the greatest depth, it adds
/// four times as much, but for rounding.
pub proof fn lemma_penalty_is_quadratic(length: int, a: int, b: int, max_depth: int, penalty: int)
    requires
        0 < max_depth,
        max_depth <= 5 * a,
        5 * b - max_depth == 2 * (5 * a - max_depth),
    ensures
        ({
            let near = edge_weight(length, a, max_depth, penalty) - length;
            let nearer = edge_weight(length, b, max_depth, penalty) - length;
            4 * near <= nearer <= 4 * near + 3
        }),
{
    let over = 5 * a - max_depth;
    let d = 16_000_000 * (max_depth * max_depth);
    assert(0 < d) by (nonlinear_arith)
        requires
            0 < max_depth,
            d == 16_000_000 * (max_depth * max_depth),
    ;
    let k = length * (penalty - PENALTY_ONE);
    let x = k * (over * over);
    let y = k * ((2 * over) * (2 * over));
    assert(y == 4 * x) by (nonlinear_arith)
        requires
            x == k * (over * over),
            y == k * ((2 * over) * (2 * over)),
    ;
    vstd::arithmetic::div_mod::lemma_fundamental_div_mod(x, d);
    vstd::arithmetic::div_mod::lemma_fundamental_div_mod(y, d);
    let p = x / d;
    let q = y / d;
    assert(4 * p <= q <= 4 * p + 3) by (nonlinear_arith)
        requires
            0 < d,
            d * p <= x < d * p + d,
            d * q <= 4 * x < d * q + d,
    ;
    if over == 0 {
        assert(x == 0) by (nonlinear_arith)
            requires
                over == 0,
                x == k * (over * over),
        ;
    }
}

/// At the greatest depth an edge costs its length times the penalty.
pub proof fn lemma_full_penalty(length: int, max_depth: int, penalty: int)
    requires
        0 <= length,
        0 < max_depth,
    ensures
        edge_weight(length, max_depth, max_depth, penalty) == length + (length * (penalty
            - PENALTY_ONE)) / 1_000_000,
{
    let over = 4 * max_depth;
    let m2 = max_depth * max_depth;
    let k = length * (penalty - PENALTY_ONE);
    assert(over * over == 16 * m2) by (nonlinear_arith)
        requires
            over == 4 * max_depth,
            m2 == max_depth * max_depth,
    ;
    assert(0 < m2) by (nonlinear_arith)
        requires
            0 < max_depth,
            m2 == max_depth * max_depth,
    ;
    let q = k / 1_000_000;
    let r = k % 1_000_000;
    assert(k * (16 * m2) == (16_000_000 * m2) * q + 16 * m2 * r) by (nonlinear_arith)
        requires
            k == 1_000_000 * q + r,
    ;
    assert(0 <= 16 * m2 * r < 16_000_000 * m2) by (nonlinear_arith)
        requires
            0 <= r < 1_000_000,
            0 < m2,
    ;
    vstd::arithmetic::div_mod::lemma_fundamental_div_mod_converse(
        k * (16 * m2),
        16_000_000 * m2,
        q,
        16 * m2 * r,
    );
}

proof fn lemma_closed_count(marks: Seq<Mark>, v: int, m: Mark, k: int)
    requires
        0 <= v < marks.len(),
        0 <= k <= marks.len(),
        !marks[v].closed,
    ensures
        closed_count(marks.update(v, m), k) == closed_count(marks, k) + (if v < k && m.closed {
            1int
        } else {
            0int
        }),
    decreases k,
{
    if k > 0 {
        lemma_closed_count(marks, v, m, k - 1);
    }
}

proof fn lemma_closed_bound(marks: Seq<Mark>, k: int)
    requires
        0 <= k,
    ensures
        0 <= closed_count(marks, k) <= k,
    decreases k,
{
    if k > 0 {
        lemma_closed_bound(marks, k - 1);
    }
}

/// No more nodes are closed than there are.
pub proof fn lemma_explored_bound(p: Problem, s: Search)
    requires
        sound(p, s),
    ensures
        s.explored <= p.graph.node_count,
{
    lemma_closed_bound(s.marks, p.graph.node_count as int);
}

proof fn lemma_none_closed(marks: Seq<Mark>, k: int)
    requires
        0 <= k <= marks.len(),
        forall|v: int| 0 <= v < k ==> !(#[trigger] marks[v]).closed,
    ensures
        closed_count(marks, k) == 0,
    decreases k,
{
    if k > 0 {
        lemma_none_closed(marks, k - 1);
    }
}

proof fn lemma_some_closed(marks: Seq<Mark>, v: int, k: int)
    requires
        0 <= v < k <= marks.len(),
        marks[v].closed,
    ensures
        closed_count(marks, k) >= 1,
    decreases k,
{
    lemma_closed_bound(marks, k - 1);
    if v < k - 1 {
        lemma_some_closed(marks, v, k - 1);
    }
}

/// The invariants hold when only the start has been reached.
pub proof fn lemma_search_starts(p: Problem, s: Search)
    requires
        p.graph.wf(),
        estimates(p),
        0 <= p.start < p.graph.node_count,
        s.marks.len() >= p.graph.node_count,
        s.marks[p.start] == (Mark { g_score: 0, came_from: NO_NODE, closed: false }),
        forall|v: int| 0 <= v < s.marks.len() && v != p.start ==> #[trigger] s.marks[v] == Mark::fresh(),
        s.via.len() == p.graph.node_count,
        s.rank.len() == p.graph.node_count,
        s.heap == Multiset::<Keyed>::empty().insert(
            Keyed { key: (p.rest)(p.start) as i128, item: p.start as u32 },
        ),
        s.explored == 0,
    ensures
        search_inv(p, s, -1, 0),
{
    broadcast use vstd::multiset::group_multiset_axioms;
    lemma_none_closed(s.marks, p.graph.node_count as int);
    assert(0 <= (p.rest)(p.start) <= u64::MAX);
    assert forall|v: int| 0 <= v < p.graph.node_count implies #[trigger] marked_well(p, s, v) by {
        assert(v != p.start ==> s.marks[v] == Mark::fresh());
    }
    assert forall|v: int|
        0 <= v < p.graph.node_count && (#[trigger] s.marks[v]).reached() && !s.marks[v].closed implies s.heap.contains(
        Keyed { key: (s.marks[v].g_score + (p.rest)(v)) as i128, item: v as u32 },
    ) by {
        assert(v != p.start ==> s.marks[v] == Mark::fresh());
    }
    assert forall|u: int, i: int| #[trigger] p.leaves(u, i) && s.marks[u].closed && !(u == -1 && i >= 0) implies {
        let t = s.marks[p.target(i)];
        t.reached() && (t.closed || t.g_score <= s.marks[u].g_score + p.cost(i))
    } by {
        assert(u != p.start ==> s.marks[u] == Mark::fresh());
    }
    assert(near_best(p, s)) by {
        reveal(near_best);
        assert forall|v: int| 0 <= v < p.graph.node_count implies !(#[trigger] s.marks[v]).closed by {
            assert(v != p.start ==> s.marks[v] == Mark::fresh());
        }
    }
}

/// Taking an entry of a closed node off the heap changes nothing else.
pub proof fn lemma_search_skips(p: Problem, s: Search, e: Keyed)
    requires
        search_inv(p, s, -1, 0),
        s.heap.contains(e),
        s.marks[e.item as int].closed,
    ensures
        search_inv(p, Search { heap: s.heap.remove(e), ..s }, -1, 0),
{
    broadcast use vstd::multiset::group_multiset_axioms;
    let t = Search { heap: s.heap.remove(e), ..s };
    assert(sound(p, t)) by {
        assert forall|v: int| 0 <= v < p.graph.node_count implies #[trigger] marked_well(p, t, v) by {
            assert(marked_well(p, s, v));
            assert(reached_well(p, s, v) == reached_well(p, t, v));
        }
    }
    assert forall|v: int|
        0 <= v < p.graph.node_count && (#[trigger] t.marks[v]).reached() && !t.marks[v].closed implies t.heap.contains(
        Keyed { key: (t.marks[v].g_score + (p.rest)(v)) as i128, item: v as u32 },
    ) by {
        let k = Keyed { key: (s.marks[v].g_score + (p.rest)(v)) as i128, item: v as u32 };
        assert(s.heap.contains(k));
        assert(k != e);
    }
    assert forall|k: Keyed| #[trigger] t.heap.contains(k) implies s.heap.contains(k) by {}
    lemma_near_best_kept(p, s, t);
}

/// Closing the node with the least key.
pub proof fn lemma_search_closes(p: Problem, s: Search, e: Keyed, t: Search)
    requires
        search_inv(p, s, -1, 0),
        s.explored < MAX_STEPS,
        s.heap.contains(e),
        forall|o: Keyed| #[trigger] s.heap.contains(o) ==> e.key <= o.key,
        !s.marks[e.item as int].closed,
        t == (Search {
            marks: s.marks.update(e.item as int, Mark { closed: true, ..s.marks[e.item as int] }),
            rank: s.rank.update(e.item as int, s.explored),
            heap: s.heap.remove(e),
            explored: s.explored + 1,
            ..s
        }),
    ensures
        e.key == s.marks[e.item as int].g_score + (p.rest)(e.item as int),
        search_inv(p, t, e.item as int, p.graph.offsets@[e.item as int] as int),
{
    broadcast use vstd::multiset::group_multiset_axioms;
    let n = p.graph.node_count as int;
    let cur = e.item as int;
    assert(cur < n && s.marks[cur].reached());
    assert(marked_well(p, s, cur));
    assert(0 <= (p.rest)(cur) <= u64::MAX);
    lemma_steps_bound(s.explored);
    let k = Keyed { key: (s.marks[cur].g_score + (p.rest)(cur)) as i128, item: cur as u32 };
    assert(s.heap.contains(k));
    assert(e.key == s.marks[cur].g_score + (p.rest)(cur));
    lemma_closed_count(s.marks, cur, t.marks[cur], n);
    if s.explored == 0 && cur != p.start {
        assert(reached_well(p, s, cur));
        let u = s.marks[cur].came_from as int;
        assert(marked_well(p, s, u));
        lemma_some_closed(s.marks, u, n);
        assert(false);
    }
    assert(sound(p, t)) by {
        lemma_steps_bound(s.explored + 1);
        assert forall|v: int| 0 <= v < n implies #[trigger] marked_well(p, t, v) by {
            assert(marked_well(p, s, v));
            lemma_more_steps(s.explored, s.marks[v].g_score as int);
            if t.marks[v].reached() && v != p.start {
                assert(reached_well(p, s, v));
                let u = s.marks[v].came_from as int;
                assert(u != cur);
                assert(marked_well(p, s, u));
                assert(reached_well(p, t, v));
            }
        }
    }
    assert forall|v: int| 0 <= v < n && (#[trigger] t.marks[v]).reached() && !t.marks[v].closed implies t.heap.contains(
        Keyed { key: (t.marks[v].g_score + (p.rest)(v)) as i128, item: v as u32 },
    ) by {
        let o = Keyed { key: (s.marks[v].g_score + (p.rest)(v)) as i128, item: v as u32 };
        assert(v != cur);
        assert(s.marks[v] == t.marks[v]);
        assert(s.heap.contains(o));
        assert(o != e);
    }
    assert forall|o: Keyed| #[trigger] t.heap.contains(o) implies {
        &&& o.item < n
        &&& t.marks[o.item as int].reached()
        &&& o.key >= t.marks[o.item as int].g_score + (p.rest)(o.item as int)
    } by {
        assert(s.heap.contains(o));
    }
    let upto = p.graph.offsets@[cur] as int;
    assert forall|u: int, i: int| #[trigger]
        p.leaves(u, i) && t.marks[u].closed && !(u == cur && i >= upto) implies {
        let x = t.marks[p.target(i)];
        x.reached() && (x.closed || x.g_score <= t.marks[u].g_score + p.cost(i))
    } by {
        assert(u != cur);
        assert(s.marks[u].closed);
        assert(p.leaves(u, i) && s.marks[u].closed && !(u == -1 && i >= 0));
    }
    assert(near_best(p, t)) by {
        reveal(near_best);
        assert forall|slack: int, nodes: Seq<int>, hops: Seq<int>|
            0 <= slack && p.consistent_within(slack) && is_route(p, nodes, hops) && nodes.first() == p.start
                && 0 <= nodes.last() < n && t.marks[nodes.last()].closed implies #[trigger] near(
            p,
            t.marks[nodes.last()].g_score as int,
            hops,
            slack,
        ) by {
            if nodes.last() == cur {
                lemma_search_optimal(p, s, e, nodes, hops, slack);
            } else {
                assert(near(p, s.marks[nodes.last()].g_score as int, hops, slack));
            }
        }
    }
}

proof fn lemma_steps_bound(k: int)
    by (nonlinear_arith)
    requires
        0 <= k <= 5_000_000,
    ensures
        0 <= k * COST_MAX <= 46_116_860_184_273_879_040_000_000,
        -k * COST_MAX == -(k * COST_MAX),
{
}

proof fn lemma_more_steps(k: int, g: int)
    by (nonlinear_arith)
    requires
        0 <= k,
    ensures
        -k * COST_MAX <= g <= k * COST_MAX ==> -(k + 1) * COST_MAX <= g <= (k + 1) * COST_MAX,
{
}

/// A half edge that cannot be taken, or leads to a closed node, or is no better than what
/// is known, changes nothing.
pub proof fn lemma_search_keeps(p: Problem, s: Search, cur: int, i: int)
    requires
        search_inv(p, s, cur, i),
        0 <= cur < p.graph.node_count,
        s.marks[cur].closed,
        p.graph.offsets@[cur] <= i < p.graph.offsets@[cur + 1],
        p.leaves(cur, i) ==> {
            let t = s.marks[p.target(i)];
            t.closed || (t.reached() && t.g_score <= s.marks[cur].g_score + p.cost(i))
        },
    ensures
        search_inv(p, s, cur, i + 1),
{
    assert forall|u: int, k: int| #[trigger]
        p.leaves(u, k) && s.marks[u].closed && !(u == cur && k >= i + 1) implies {
        let t = s.marks[p.target(k)];
        t.reached() && (t.closed || t.g_score <= s.marks[u].g_score + p.cost(k))
    } by {
        if u == cur && k == i {
            assert(p.graph.slot(i).to < p.graph.node_count);
            assert(marked_well(p, s, p.target(i)));
        }
    }
}

/// A half edge that leads to a node by a cheaper route.
pub proof fn lemma_search_improves(p: Problem, s: Search, cur: int, i: int, t: Search)
    requires
        search_inv(p, s, cur, i),
        0 <= cur < p.graph.node_count,
        s.marks[cur].closed,
        s.rank[cur] == s.explored - 1,
        p.leaves(cur, i),
        -COST_MAX <= p.cost(i) <= COST_MAX,
        !s.marks[p.target(i)].closed,
        s.marks[cur].g_score + p.cost(i) < s.marks[p.target(i)].g_score,
        ({
            let v = p.target(i);
            let g = (s.marks[cur].g_score + p.cost(i)) as i128;
            t == (Search {
                marks: s.marks.update(v, Mark { g_score: g, came_from: cur as u32, closed: false }),
                via: s.via.update(v, i),
                heap: s.heap.insert(Keyed { key: (g + (p.rest)(v)) as i128, item: v as u32 }),
                ..s
            })
        }),
    ensures
        search_inv(p, t, cur, i + 1),
{
    broadcast use vstd::multiset::group_multiset_axioms;
    let n = p.graph.node_count as int;
    let v = p.target(i);
    assert(p.graph.slot(i).to < n);
    assert(marked_well(p, s, cur));
    assert(marked_well(p, s, v));
    lemma_steps_bound(s.explored);
    lemma_one_more(s.explored, s.marks[cur].g_score as int, p.cost(i));
    let g = s.marks[cur].g_score + p.cost(i);
    assert(t.marks[v].g_score == g);
    assert(0 <= (p.rest)(v) <= u64::MAX);
    assert(v != p.start);
    lemma_closed_count(s.marks, v, t.marks[v], n);
    assert(sound(p, t)) by {
        assert forall|w: int| 0 <= w < n implies #[trigger] marked_well(p, t, w) by {
            assert(marked_well(p, s, w));
            if w == v {
                assert(reached_well(p, t, v));
            } else if s.marks[w].reached() && w != p.start {
                assert(reached_well(p, s, w));
                let u = s.marks[w].came_from as int;
                assert(u != v);
                assert(reached_well(p, t, w));
            }
        }
    }
    let new = Keyed { key: (g + (p.rest)(v)) as i128, item: v as u32 };
    assert forall|w: int| 0 <= w < n && (#[trigger] t.marks[w]).reached() && !t.marks[w].closed implies t.heap.contains(
        Keyed { key: (t.marks[w].g_score + (p.rest)(w)) as i128, item: w as u32 },
    ) by {
        if w != v {
            let o = Keyed { key: (s.marks[w].g_score + (p.rest)(w)) as i128, item: w as u32 };
            assert(s.marks[w].reached());
            assert(s.heap.contains(o));
        }
    }
    assert forall|o: Keyed| #[trigger] t.heap.contains(o) implies {
        &&& o.item < n
        &&& t.marks[o.item as int].reached()
        &&& o.key >= t.marks[o.item as int].g_score + (p.rest)(o.item as int)
    } by {
        if o != new {
            assert(s.heap.contains(o));
        }
    }
    assert forall|u: int, k: int| #[trigger]
        p.leaves(u, k) && t.marks[u].closed && !(u == cur && k >= i + 1) implies {
        let x = t.marks[p.target(k)];
        x.reached() && (x.closed || x.g_score <= t.marks[u].g_score + p.cost(k))
    } by {
        assert(u != v);
        assert(s.marks[u] == t.marks[u]);
    }
    lemma_near_best_kept(p, s, t);
}

proof fn lemma_one_more(k: int, g: int, c: int)
    by (nonlinear_arith)
    requires
        1 <= k,
        -(k - 1) * COST_MAX <= g <= (k - 1) * COST_MAX,
        -COST_MAX <= c <= COST_MAX,
    ensures
        -k * COST_MAX <= g + c <= k * COST_MAX,
{
}

/// When the whole row has been followed, the node needs no exception.
pub proof fn lemma_search_row_done(p: Problem, s: Search, cur: int)
    requires
        search_inv(p, s, cur, p.graph.offsets@[cur + 1] as int),
    ensures
        search_inv(p, s, -1, 0),
{
    assert forall|u: int, i: int| #[trigger]
        p.leaves(u, i) && s.marks[u].closed && !(u == -1 && i >= 0) implies {
        let t = s.marks[p.target(i)];
        t.reached() && (t.closed || t.g_score <= s.marks[u].g_score + p.cost(i))
    } by {
        assert(!(u == cur && i >= p.graph.offsets@[cur + 1]));
    }
}

proof fn lemma_route_closed(p: Problem, s: Search, nodes: Seq<int>, hops: Seq<int>, k: int)
    requires
        search_inv(p, s, -1, 0),
        s.heap.len() == 0,
        is_route(p, nodes, hops),
        nodes.first() == p.start,
        0 <= k < nodes.len(),
    ensures
        0 <= nodes[k] < p.graph.node_count,
        s.marks[nodes[k]].reached(),
        s.marks[nodes[k]].closed,
    decreases k,
{
    broadcast use vstd::multiset::group_multiset_axioms;
    if k > 0 {
        lemma_route_closed(p, s, nodes, hops, k - 1);
        let i = hops[k - 1];
        assert(p.leaves(nodes[k - 1], i));
        assert(p.graph.slot(i).to < p.graph.node_count);
        assert(!(nodes[k - 1] == -1 && i >= 0));
    }
    let v = nodes[k];
    if !s.marks[v].closed {
        assert(s.heap.contains(
            Keyed { key: (s.marks[v].g_score + (p.rest)(v)) as i128, item: v as u32 },
        ));
        vstd::multiset::lemma_multiset_empty_len(s.heap);
        assert(false);
    }
}

/// When nothing waits any more, a node that was not closed cannot be reached.
pub proof fn lemma_search_exhausted(p: Problem, s: Search, end: int)
    requires
        search_inv(p, s, -1, 0),
        s.heap.len() == 0,
        0 <= end < p.graph.node_count,
        !s.marks[end].closed,
    ensures
        !reachable(p, p.start, end),
{
    if reachable(p, p.start, end) {
        let (nodes, hops) = choose|nodes: Seq<int>, hops: Seq<int>| #[trigger]
            is_route(p, nodes, hops) && nodes.first() == p.start && nodes.last() == end;
        lemma_route_closed(p, s, nodes, hops, nodes.len() - 1);
    }
}

/// What a route costs is what its two parts cost.
pub proof fn lemma_route_cost_split(p: Problem, hops: Seq<int>, k: int)
    requires
        0 <= k <= hops.len(),
    ensures
        route_cost(p, hops) == route_cost(p, hops.take(k)) + route_cost(p, hops.skip(k)),
    decreases k,
{
    if k == 0 {
        assert(hops.skip(0) =~= hops);
    } else {
        lemma_route_cost_split(p, hops.skip(1), k - 1);
        assert(hops.skip(1).take(k - 1) =~= hops.take(k).skip(1));
        assert(hops.skip(1).skip(k - 1) =~= hops.skip(k));
        assert(hops.take(k)[0] == hops[0]);
    }
}

/// The first node of a route that is not closed has been reached about as cheaply as the
/// route leads there.
proof fn lemma_first_open(p: Problem, s: Search, nodes: Seq<int>, hops: Seq<int>, slack: int, k: int) -> (j: int)
    requires
        search_inv(p, s, -1, 0),
        0 <= slack,
        p.consistent_within(slack),
        is_route(p, nodes, hops),
        nodes.first() == p.start,
        !s.marks[nodes.last()].closed,
        0 <= k < nodes.len(),
        0 <= nodes[k] < p.graph.node_count,
        k > 0 ==> 0 <= nodes[k - 1] < p.graph.node_count && s.marks[nodes[k - 1]].closed,
    ensures
        k <= j < nodes.len(),
        0 <= nodes[j] < p.graph.node_count,
        s.marks[nodes[j]].reached(),
        !s.marks[nodes[j]].closed,
        s.marks[nodes[j]].g_score <= route_cost(p, hops.take(j)) + slack * j,
    decreases nodes.len() - k,
{
    if s.marks[nodes[k]].closed {
        assert(p.leaves(nodes[k], hops[k]));
        assert(p.graph.slot(hops[k]).to < p.graph.node_count);
        lemma_first_open(p, s, nodes, hops, slack, k + 1)
    } else {
        if k == 0 {
            assert(hops.take(0) =~= Seq::<int>::empty());
            assert(slack * 0 == 0);
        } else {
            let i = hops[k - 1];
            let u = nodes[k - 1];
            let first = nodes.take(k);
            let steps = hops.take(k - 1);
            assert(p.leaves(u, i));
            assert(!(u == -1 && i >= 0));
            assert forall|m: int| 0 <= m < steps.len() implies p.leaves(first[m], #[trigger] steps[m]) && p.target(
                steps[m]) == first[m + 1] by {
                assert(p.leaves(nodes[m], hops[m]) && p.target(hops[m]) == nodes[m + 1]);
            }
            assert(is_route(p, first, steps));
            lemma_near_best(p, s, slack, first, steps);
            lemma_route_cost_split(p, hops.take(k), k - 1);
            assert(hops.take(k).take(k - 1) =~= steps);
            assert(hops.take(k).skip(k - 1) =~= seq![i]);
            assert(seq![i].skip(1) =~= Seq::<int>::empty());
            assert(route_cost(p, seq![i]) == p.cost(i) + route_cost(p, seq![i].skip(1)));
            assert(slack * (k - 1) <= slack * k) by (nonlinear_arith)
                requires
                    0 <= slack,
            ;
        }
        k
    }
}

proof fn lemma_rest_along(p: Problem, nodes: Seq<int>, hops: Seq<int>, slack: int, k: int)
    requires
        p.consistent_within(slack),
        is_route(p, nodes, hops),
        0 <= k < nodes.len(),
    ensures
        (p.rest)(nodes[k]) <= route_cost(p, hops.skip(k)) + (p.rest)(nodes.last()) + slack * (hops.len() - k),
    decreases nodes.len() - k,
{
    if k < hops.len() {
        lemma_rest_along(p, nodes, hops, slack, k + 1);
        assert(p.leaves(nodes[k], hops[k]));
        assert(hops.skip(k).skip(1) =~= hops.skip(k + 1));
        assert(hops.skip(k)[0] == hops[k]);
        assert(slack * (hops.len() - k) == slack * (hops.len() - (k + 1)) + slack) by (nonlinear_arith);
    } else {
        assert(hops.skip(k).len() == 0);
        assert(slack * 0 == 0);
    }
}

/// Where the estimate is consistent within a slack, the route found to the node with the
/// least key is as cheap as any other, but for so much slack on each of the other's edges.
pub proof fn lemma_search_optimal(p: Problem, s: Search, e: Keyed, nodes: Seq<int>, hops: Seq<int>, slack: int)
    requires
        search_inv(p, s, -1, 0),
        s.heap.contains(e),
        forall|o: Keyed| #[trigger] s.heap.contains(o) ==> e.key <= o.key,
        !s.marks[e.item as int].closed,
        0 <= slack,
        p.consistent_within(slack),
        is_route(p, nodes, hops),
        nodes.first() == p.start,
        nodes.last() == e.item,
    ensures
        s.marks[e.item as int].g_score <= route_cost(p, hops) + slack * hops.len(),
{
    let j = lemma_first_open(p, s, nodes, hops, slack, 0);
    let v = nodes[j];
    assert(marked_well(p, s, v));
    assert(0 <= (p.rest)(v) <= u64::MAX);
    lemma_steps_bound(s.explored);
    assert(s.heap.contains(
        Keyed { key: (s.marks[v].g_score + (p.rest)(v)) as i128, item: v as u32 },
    ));
    assert(s.marks[e.item as int].g_score + (p.rest)(e.item as int) <= e.key);
    lemma_rest_along(p, nodes, hops, slack, j);
    lemma_route_cost_split(p, hops, j);
    assert(slack * j + slack * (hops.len() - j) == slack * hops.len()) by (nonlinear_arith);
}

/// Where in the order of closing a node stands; a node that is not closed comes last.
pub open spec fn closing_place(s: Search, v: int) -> int {
    if s.marks[v].closed {
        s.rank[v]
    } else {
        s.explored
    }
}

/// One step back along the route found to a node.
pub proof fn lemma_step_back(p: Problem, s: Search, nodes: Seq<int>, hops: Seq<int>)
    requires
        sound(p, s),
        is_route(p, nodes, hops),
        0 <= nodes[0] < p.graph.node_count,
        nodes[0] != p.start,
        s.marks[nodes[0]].reached(),
        0 <= nodes.last() < p.graph.node_count,
        route_cost(p, hops) == s.marks[nodes.last()].g_score - s.marks[nodes[0]].g_score,
    ensures
        ({
            let v = nodes[0];
            let u = s.marks[v].came_from as int;
            let longer = seq![u] + nodes;
            let more = seq![s.via[v]] + hops;
            &&& u < p.graph.node_count
            &&& s.marks[u].reached()
            &&& s.marks[u].closed
            &&& 0 <= closing_place(s, u) < closing_place(s, v)
            &&& is_route(p, longer, more)
            &&& longer.last() == nodes.last()
            &&& route_cost(p, more) == s.marks[nodes.last()].g_score - s.marks[u].g_score
        }),
{
    let v = nodes[0];
    assert(marked_well(p, s, v));
    let u = s.marks[v].came_from as int;
    assert(marked_well(p, s, u));
    let longer = seq![u] + nodes;
    let more = seq![s.via[v]] + hops;
    assert(more.skip(1) =~= hops);
    assert forall|k: int| 0 <= k < more.len() implies p.leaves(longer[k], #[trigger] more[k])
        && p.target(more[k]) == longer[k + 1] by {
        if k > 0 {
            assert(more[k] == hops[k - 1]);
            assert(longer[k] == nodes[k - 1]);
            assert(longer[k + 1] == nodes[k]);
        }
    }
}

/// A cost is no more than that of any route to `end` and the estimate there, but for the
/// slack on each edge of that route within which the estimate is consistent.
pub open spec fn cheap_enough(p: Problem, end: int, cost: int) -> bool {
    forall|slack: int, others: Seq<int>, steps: Seq<int>|
        0 <= slack && #[trigger] p.consistent_within(slack) && #[trigger] is_route(p, others, steps)
            && others.first() == p.start && others.last() == end ==> cost <= route_cost(p, steps) + (p.rest)(
            end,
        ) + slack * steps.len()
}

/// A search for `end` has reason to close node `v`: a route leads to it whose cost, with the
/// estimate of what is left, is no more than any route to the end costs.
pub open spec fn worth_closing(p: Problem, end: int, v: int) -> bool {
    exists|nodes: Seq<int>, hops: Seq<int>| #[trigger]
        is_route(p, nodes, hops) && nodes.first() == p.start && nodes.last() == v && cheap_enough(
            p,
            end,
            route_cost(p, hops) + (p.rest)(v),
        )
}

/// All of them are nodes before the end that a search has reason to close.
pub open spec fn all_worth(p: Problem, end: int, closed: Set<int>) -> bool {
    forall|v: int| #[trigger]
        closed.contains(v) ==> 0 <= v < p.graph.node_count && v != end && worth_closing(p, end, v)
}

/// There are so many nodes to close before the end that a search gives up.
pub open spec fn too_many(p: Problem, end: int) -> bool {
    exists|closed: Set<int>| closed.finite() && closed.len() >= MAX_STEPS && #[trigger] all_worth(p, end, closed)
}

/// The nodes that a search closed which found a route of this cost to `end`: none without
/// reason, and all from which, by cost and estimate, the end seemed closer than it was.
pub open spec fn closed_for(p: Problem, end: int, cost: int, closed: Set<int>) -> bool {
    &&& closed.finite()
    &&& all_worth(p, end, closed)
    &&& forall|slack: int, nodes: Seq<int>, hops: Seq<int>|
        0 <= slack && #[trigger] p.consistent_within(slack) && #[trigger] is_route(p, nodes, hops)
            && nodes.first() == p.start && route_cost(p, hops) + (p.rest)(nodes.last()) + slack * hops.len()
            < cost + (p.rest)(end) ==> closed.contains(nodes.last())
}

/// The nodes that are closed.
pub open spec fn closed_nodes(marks: Seq<Mark>, n: int) -> Set<int> {
    Set::new(|v: int| 0 <= v < n && marks[v].closed)
}

/// What was found of closed nodes gave reason to close them.
#[verifier::opaque]
pub open spec fn closed_rightly(p: Problem, s: Search, end: int) -> bool {
    forall|v: int|
        0 <= v < p.graph.node_count && (#[trigger] s.marks[v]).closed ==> cheap_enough(
            p,
            end,
            s.marks[v].g_score + (p.rest)(v),
        )
}

proof fn lemma_closed_nodes(marks: Seq<Mark>, k: int)
    requires
        0 <= k,
    ensures
        closed_nodes(marks, k).finite(),
        closed_nodes(marks, k).len() == closed_count(marks, k),
    decreases k,
{
    if k == 0 {
        assert(closed_nodes(marks, 0) =~= Set::<int>::empty());
    } else {
        lemma_closed_nodes(marks, k - 1);
        let before = closed_nodes(marks, k - 1);
        if marks[k - 1].closed {
            assert(closed_nodes(marks, k) =~= before.insert(k - 1));
        } else {
            assert(closed_nodes(marks, k) =~= before);
        }
    }
}

/// Nothing is closed when a search starts.
pub proof fn lemma_starts_rightly(p: Problem, s: Search, end: int)
    requires
        forall|v: int| 0 <= v < s.marks.len() ==> !(#[trigger] s.marks[v]).closed,
        s.marks.len() >= p.graph.node_count,
    ensures
        closed_rightly(p, s, end),
{
    reveal(closed_rightly);
}

/// What is known of closed nodes stays true where their marks stay.
pub proof fn lemma_rightly_kept(p: Problem, s: Search, t: Search, end: int)
    requires
        closed_rightly(p, s, end),
        forall|v: int| 0 <= v < p.graph.node_count && (#[trigger] t.marks[v]).closed ==> t.marks[v] == s.marks[v],
    ensures
        closed_rightly(p, t, end),
{
    reveal(closed_rightly);
    assert forall|v: int| 0 <= v < p.graph.node_count && (#[trigger] t.marks[v]).closed implies cheap_enough(
        p,
        end,
        t.marks[v].g_score + (p.rest)(v),
    ) by {
        assert(s.marks[v] == t.marks[v]);
    }
}

/// The least key is no more than any route costs that leads to a node not closed yet, with
/// the estimate there.
proof fn lemma_least_key(p: Problem, s: Search, e: Keyed, nodes: Seq<int>, hops: Seq<int>, slack: int)
    requires
        search_inv(p, s, -1, 0),
        forall|o: Keyed| #[trigger] s.heap.contains(o) ==> e.key <= o.key,
        0 <= slack,
        p.consistent_within(slack),
        is_route(p, nodes, hops),
        nodes.first() == p.start,
        !s.marks[nodes.last()].closed,
    ensures
        e.key <= route_cost(p, hops) + (p.rest)(nodes.last()) + slack * hops.len(),
{
    let j = lemma_first_open(p, s, nodes, hops, slack, 0);
    let v = nodes[j];
    assert(marked_well(p, s, v));
    assert(0 <= (p.rest)(v) <= u64::MAX);
    lemma_steps_bound(s.explored);
    assert(s.heap.contains(
        Keyed { key: (s.marks[v].g_score + (p.rest)(v)) as i128, item: v as u32 },
    ));
    lemma_rest_along(p, nodes, hops, slack, j);
    lemma_route_cost_split(p, hops, j);
    assert(slack * j + slack * (hops.len() - j) == slack * hops.len()) by (nonlinear_arith);
}

/// There is reason to close the node with the least key.
pub proof fn lemma_closes_rightly(p: Problem, s: Search, e: Keyed, t: Search, end: int)
    requires
        search_inv(p, s, -1, 0),
        closed_rightly(p, s, end),
        s.heap.contains(e),
        forall|o: Keyed| #[trigger] s.heap.contains(o) ==> e.key <= o.key,
        !s.marks[e.item as int].closed,
        !s.marks[end].closed,
        t.marks == s.marks.update(e.item as int, Mark { closed: true, ..s.marks[e.item as int] }),
    ensures
        closed_rightly(p, t, end),
{
    reveal(closed_rightly);
    let cur = e.item as int;
    assert(e.key >= s.marks[cur].g_score + (p.rest)(cur));
    assert forall|v: int| 0 <= v < p.graph.node_count && (#[trigger] t.marks[v]).closed implies cheap_enough(
        p,
        end,
        t.marks[v].g_score + (p.rest)(v),
    ) by {
        if v == cur {
            assert forall|slack: int, others: Seq<int>, steps: Seq<int>|
                0 <= slack && #[trigger] p.consistent_within(slack) && #[trigger] is_route(p, others, steps)
                    && others.first() == p.start && others.last() == end implies t.marks[v].g_score + (p.rest)(v)
                <= route_cost(p, steps) + (p.rest)(end) + slack * steps.len() by {
                lemma_least_key(p, s, e, others, steps, slack);
            }
        } else {
            assert(s.marks[v] == t.marks[v]);
        }
    }
}

/// The route found to a node: all nodes before it are closed.
proof fn lemma_route_to(p: Problem, s: Search, v: int) -> (r: (Seq<int>, Seq<int>))
    requires
        sound(p, s),
        0 <= v < p.graph.node_count,
        s.marks[v].reached(),
    ensures
        is_route(p, r.0, r.1),
        r.0.first() == p.start,
        r.0.last() == v,
        route_cost(p, r.1) == s.marks[v].g_score,
    decreases closing_place(s, v),
{
    if v == p.start {
        assert(route_cost(p, Seq::<int>::empty()) == 0);
        (seq![v], Seq::empty())
    } else {
        assert(marked_well(p, s, v));
        let u = s.marks[v].came_from as int;
        let i = s.via[v];
        assert(marked_well(p, s, u));
        let (nodes, hops) = lemma_route_to(p, s, u);
        let longer = nodes.push(v);
        let more = hops.push(i);
        assert forall|k: int| 0 <= k < more.len() implies p.leaves(longer[k], #[trigger] more[k]) && p.target(
            more[k]) == longer[k + 1] by {
            if k < hops.len() {
                assert(more[k] == hops[k]);
                assert(longer[k] == nodes[k] && longer[k + 1] == nodes[k + 1]);
            } else {
                assert(longer[k] == nodes.last());
            }
        }
        lemma_route_cost_split(p, more, hops.len() as int);
        assert(more.take(hops.len() as int) =~= hops);
        assert(more.skip(hops.len() as int) =~= seq![i]);
        assert(seq![i].skip(1) =~= Seq::<int>::empty());
        assert(route_cost(p, seq![i]) == p.cost(i) + route_cost(p, seq![i].skip(1)));
        (longer, more)
    }
}

/// The closed nodes are as many as were counted, and there was reason to close each.
pub proof fn lemma_all_worth(p: Problem, s: Search, end: int)
    requires
        sound(p, s),
        closed_rightly(p, s, end),
        0 <= end < p.graph.node_count,
        !s.marks[end].closed,
    ensures
        ({
            let closed = closed_nodes(s.marks, p.graph.node_count as int);
            closed.finite() && closed.len() == s.explored && all_worth(p, end, closed)
        }),
{
    let n = p.graph.node_count as int;
    let closed = closed_nodes(s.marks, n);
    lemma_closed_nodes(s.marks, n);
    assert forall|v: int| #[trigger] closed.contains(v) implies 0 <= v < n && v != end && worth_closing(p, end, v) by {
        reveal(closed_rightly);
        assert(s.marks[v].closed);
        assert(marked_well(p, s, v));
        let (nodes, hops) = lemma_route_to(p, s, v);
        assert(is_route(p, nodes, hops));
    }
}

/// When the end has the least key, the closed nodes are those for the route found to it.
pub proof fn lemma_closed_for(p: Problem, s: Search, e: Keyed)
    requires
        search_inv(p, s, -1, 0),
        closed_rightly(p, s, e.item as int),
        s.heap.contains(e),
        forall|o: Keyed| #[trigger] s.heap.contains(o) ==> e.key <= o.key,
        !s.marks[e.item as int].closed,
    ensures
        closed_for(
            p,
            e.item as int,
            s.marks[e.item as int].g_score as int,
            closed_nodes(s.marks, p.graph.node_count as int),
        ),
{
    let end = e.item as int;
    let n = p.graph.node_count as int;
    lemma_all_worth(p, s, end);
    assert(e.key >= s.marks[end].g_score + (p.rest)(end));
    assert forall|slack: int, nodes: Seq<int>, hops: Seq<int>|
        0 <= slack && #[trigger] p.consistent_within(slack) && #[trigger] is_route(p, nodes, hops)
            && nodes.first() == p.start && route_cost(p, hops) + (p.rest)(nodes.last()) + slack * hops.len()
            < s.marks[end].g_score + (p.rest)(end) implies closed_nodes(s.marks, n).contains(nodes.last()) by {
        if hops.len() > 0 {
            let i = hops[hops.len() - 1];
            assert(p.leaves(nodes[hops.len() - 1], i));
            assert(p.graph.slot(i).to < n);
        }
        if !s.marks[nodes.last()].closed {
            lemma_least_key(p, s, e, nodes, hops, slack);
        }
    }
}

/// A graph with fewer nodes than a search may close never makes it give up.
pub proof fn lemma_never_too_many(p: Problem, end: int)
    requires
        p.graph.node_count < MAX_STEPS,
    ensures
        !too_many(p, end),
{
    if too_many(p, end) {
        let closed = choose|closed: Set<int>|
            closed.finite() && closed.len() >= MAX_STEPS && #[trigger] all_worth(p, end, closed);
        let n = p.graph.node_count as int;
        vstd::set_lib::lemma_int_range(0, n);
        assert(closed.subset_of(vstd::set_lib::set_int_range(0, n)));
        vstd::set_lib::lemma_len_subset(closed, vstd::set_lib::set_int_range(0, n));
    }
}

} // verus!
