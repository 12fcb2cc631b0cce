//! Route search: A* over the sea graph, with scratch space that is kept between requests.
use vstd::prelude::*;

use crate::geo::{
    floor_div, is_measure, measure, measured, Point, DEGREE, DRAWN, HALF_TURN, TURN, WORLD,
};
use crate::course::{
    at_start, followed, followed_to, is_least, lemma_least, outcome, search_outcome, taken, traces, Stand,
};
use crate::graph::{Graph, DEPTH_MAX, LENGTH_MAX};
use crate::heap::{Keyed, MinHeap};
use crate::land::LandClassifier;
use crate::sampling::{clear_of_land, stays_clear};
use crate::search::{
    closed_for, closed_nodes, closed_rightly, closing_place, edge_weight, estimates, is_route,
    lemma_all_worth, lemma_closed_for, lemma_closes_rightly, lemma_edge_weight_bound,
    lemma_explored_bound, lemma_rightly_kept, lemma_search_closes, lemma_search_exhausted, lemma_search_improves, lemma_search_keeps,
    lemma_search_optimal, lemma_search_row_done, lemma_search_skips, lemma_search_starts,
    lemma_starts_rightly, lemma_step_back, marked_well, reachable, route_cost, search_inv, sound,
    too_many, Mark, Problem, Search, COST_MAX, MAX_STEPS, NO_NODE, PENALTY_MAX, PENALTY_ONE, UNREACHED,
};
use crate::thinning::{
    douglas_peucker, drawable, lemma_thinned_ends, lemma_thinned_subset, thinned, Rule,
};

verus! {

/// What is noted of one node. It counts only if it was written in the current generation,
/// so that all of them can be forgotten at once.
#[derive(Clone, Copy)]
struct Entry {
    epoch: u32,
    g_score: i128,
    came_from: u32,
    closed: bool,
}

/// Reusable scratch space for the search. It is allocated once; forgetting what it holds
/// between requests takes no time.
pub struct Router {
    entries: Vec<Entry>,
    generation: u32,
}

impl Router {
    /// Entries are of the current generation or older.
    pub closed spec fn wf(&self) -> bool {
        &&& self.generation >= 1
        &&& forall|i: int| 0 <= i < self.entries.len() ==> (#[trigger] self.entries[i]).epoch <= self.generation
    }

    /// The generation whose entries count.
    pub closed spec fn generation(&self) -> u32 {
        self.generation
    }

    /// The generation in which each entry was written.
    pub closed spec fn epochs(&self) -> Seq<u32> {
        self.entries@.map_values(|e: Entry| e.epoch)
    }

    /// What is noted of each node.
    pub closed spec fn marks(&self) -> Seq<Mark> {
        Seq::new(
            self.entries.len() as nat,
            |i: int|
                {
                    let e = self.entries[i];
                    if e.epoch == self.generation {
                        Mark { g_score: e.g_score, came_from: e.came_from, closed: e.closed }
                    } else {
                        Mark::fresh()
                    }
                },
        )
    }

    /// Scratch space for a graph of so many nodes.
    pub fn new(node_count: usize) -> (r: Router)
        ensures
            r.wf(),
            r.marks() == Seq::new(node_count as nat, |i: int| Mark::fresh()),
            r.generation() == 1,
            r.epochs() == Seq::new(node_count as nat, |i: int| 0u32),
    {
        let mut entries: Vec<Entry> = Vec::new();
        let mut i: usize = 0;
        while i < node_count
            invariant
                i <= node_count,
                entries.len() == i,
                forall|k: int| 0 <= k < i ==> (#[trigger] entries[k]).epoch == 0,
            decreases node_count - i,
        {
            entries.push(Entry { epoch: 0, g_score: UNREACHED, came_from: NO_NODE, closed: false });
            i = i + 1;
        }
        let r = Router { entries, generation: 1 };
        assert(r.marks() =~= Seq::new(node_count as nat, |i: int| Mark::fresh()));
        assert(r.epochs() =~= Seq::new(node_count as nat, |i: int| 0u32));
        r
    }

    /// Forgets everything. Only when the generations run out is anything cleared.
    pub fn reset(&mut self)
        requires
            old(self).wf(),
        ensures
            final(self).wf(),
            final(self).marks() == Seq::new(old(self).marks().len(), |i: int| Mark::fresh()),
            old(self).generation() < u32::MAX ==> final(self).generation() == old(self).generation() + 1
                && final(self).epochs() == old(self).epochs(),
            old(self).generation() == u32::MAX ==> final(self).generation() == 1 && final(self).epochs()
                == Seq::new(old(self).epochs().len(), |i: int| 0u32),
    {
        if self.generation == 0xffff_ffff {
            let n = self.entries.len();
            let mut i: usize = 0;
            while i < n
                invariant
                    i <= n,
                    n == self.entries.len(),
                    n == old(self).entries.len(),
                    forall|k: int| 0 <= k < i ==> (#[trigger] self.entries[k]).epoch == 0,
                decreases n - i,
            {
                let mut e = self.entries[i];
                e.epoch = 0;
                self.entries.set(i, e);
                i = i + 1;
            }
            self.generation = 1;
        } else {
            self.generation = self.generation + 1;
        }
        assert(self.marks() =~= Seq::new(old(self).marks().len(), |i: int| Mark::fresh()));
        assert(old(self).generation() == u32::MAX ==> self.epochs() =~= Seq::new(
            old(self).epochs().len(),
            |i: int| 0u32,
        ));
    }

    /// How many nodes there is space for.
    pub fn size(&self) -> (n: usize)
        ensures
            n == self.marks().len(),
    {
        self.entries.len()
    }

    /// What is noted of a node.
    pub fn get(&self, idx: usize) -> (m: Mark)
        requires
            self.wf(),
            idx < self.marks().len(),
        ensures
            m == self.marks()[idx as int],
    {
        let e = &self.entries[idx];
        if e.epoch == self.generation {
            Mark { g_score: e.g_score, came_from: e.came_from, closed: e.closed }
        } else {
            Mark { g_score: UNREACHED, came_from: NO_NODE, closed: false }
        }
    }

    /// Notes something of a node.
    fn put(&mut self, idx: usize, m: Mark)
        requires
            old(self).wf(),
            idx < old(self).marks().len(),
        ensures
            final(self).wf(),
            final(self).marks() == old(self).marks().update(idx as int, m),
    {
        let ghost before = self.marks();
        let e = Entry {
            epoch: self.generation,
            g_score: m.g_score,
            came_from: m.came_from,
            closed: m.closed,
        };
        self.entries.set(idx, e);
        assert(self.marks() =~= before.update(idx as int, m));
    }
}

/// The cost of an edge.
pub fn edge_cost(length: u64, depth: i64, max_depth: i64, penalty: i64) -> (c: i128)
    requires
        length <= LENGTH_MAX,
        -DEPTH_MAX <= depth <= max_depth <= DEPTH_MAX,
        0 <= max_depth,
        -PENALTY_MAX <= penalty <= PENALTY_MAX,
    ensures
        c == edge_weight(length as int, depth as int, max_depth as int, penalty as int),
        -COST_MAX <= c <= COST_MAX,
{
    proof {
        lemma_edge_weight_bound(length as int, depth as int, max_depth as int, penalty as int);
    }
    if 5 * depth <= max_depth {
        length as i128
    } else {
        let over: i128 = (5 * depth - max_depth) as i128;
        let m: i128 = max_depth as i128;
        let share: i128 = (length as i128) * ((penalty - PENALTY_ONE) as i128) * (over * over);
        length as i128 + floor_div(share, 16_000_000 * (m * m))
    }
}

/// The problem of finding a route to node `end`.
pub open spec fn problem<D: Fn(Point, Point) -> u64>(
    graph: Graph,
    penalty: i64,
    dist: D,
    start: int,
    end: int,
) -> Problem {
    Problem {
        graph,
        penalty: penalty as int,
        rest: |v: int| measured(dist, graph.at(v), graph.at(end)) as int,
        start,
    }
}

/// A route from the start to `end`. Where the estimate is consistent within a slack, no other
/// route is cheaper by more than that slack for each of its edges.
pub open spec fn is_found(p: Problem, end: int, nodes: Seq<int>, hops: Seq<int>) -> bool {
    &&& is_route(p, nodes, hops)
    &&& nodes.first() == p.start
    &&& nodes.last() == end
    &&& forall|k: int| 0 <= k < nodes.len() ==> 0 <= #[trigger] nodes[k] < p.graph.node_count
    &&& forall|slack: int, others: Seq<int>, steps: Seq<int>|
        0 <= slack && #[trigger] p.consistent_within(slack) && #[trigger] is_route(p, others, steps)
            && others.first() == p.start && others.last() == end ==> route_cost(p, hops) <= route_cost(
            p,
            steps,
        ) + slack * steps.len()
}

/// The route along these nodes is what comes of the search, at this cost and with so many
/// nodes closed: those of the route but the end, and else none without reason.
pub open spec fn is_course(p: Problem, end: int, nodes: Seq<int>, cost: int, explored: int) -> bool {
    search_outcome(p, end) matches Some((marks, count)) && {
        let closed = closed_nodes(marks, p.graph.node_count as int);
        &&& traces(marks, nodes)
        &&& cost == marks[end].g_score
        &&& explored == count
        &&& closed.len() == count
        &&& closed_for(p, end, cost, closed)
        &&& forall|k: int| 0 <= k < nodes.len() - 1 ==> closed.contains(#[trigger] nodes[k])
    }
}

/// The positions of nodes.
pub open spec fn positions(graph: Graph, nodes: Seq<int>) -> Seq<Point> {
    nodes.map_values(|v: int| graph.at(v))
}

/// What a search has noted of the nodes of the graph, and what waits.
spec fn stand(p: Problem, s: Search) -> Stand {
    Stand { marks: s.marks.take(p.graph.node_count as int), heap: s.heap }
}

/// What a search that succeeded brings back.
struct Found {
    path: Vec<Point>,
    cost: i128,
    explored: usize,
}

impl Router {
    /// Follows the half edges of a node that has just been closed.
    fn expand<D: Fn(Point, Point) -> u64>(
        &mut self,
        open: &mut MinHeap,
        graph: &Graph,
        penalty: i64,
        dist: &D,
        cur: usize,
        end: usize,
        Ghost(p): Ghost<Problem>,
        Ghost(s0): Ghost<Search>,
    ) -> (r: Ghost<Search>)
        requires
            old(self).wf(),
            is_measure(*dist),
            -PENALTY_MAX <= penalty <= PENALTY_MAX,
            cur < graph.node_count,
            end < graph.node_count,
            p == problem(*graph, penalty, *dist, p.start, end as int),
            s0.marks == old(self).marks(),
            s0.heap == old(open)@,
            search_inv(p, s0, cur as int, graph.offsets@[cur as int] as int),
            s0.marks[cur as int].closed,
            s0.rank[cur as int] == s0.explored - 1,
            !s0.marks[end as int].closed,
            closed_rightly(p, s0, end as int),
        ensures
            final(self).wf(),
            closed_rightly(p, r@, end as int),
            stand(p, r@) == followed_to(
                p,
                stand(p, s0),
                cur as int,
                graph.offsets@[cur + 1] as int,
            ),
            r@.marks == final(self).marks(),
            r@.heap == final(open)@,
            r@.explored == s0.explored,
            !r@.marks[end as int].closed,
            r@.marks.len() == s0.marks.len(),
            search_inv(p, r@, -1, 0),
    {
        let ghost mut s = s0;
        assert(graph.offsets@[cur as int] <= graph.offsets@[cur + 1] <= graph.targets.len());
        let stop = graph.offsets[cur + 1];
        let mut i = graph.offsets[cur];
        let cur_g = self.get(cur).g_score;
        let goal = graph.point(end);
        while i < stop
            invariant
                self.wf(),
                is_measure(*dist),
                -PENALTY_MAX <= penalty <= PENALTY_MAX,
                cur < graph.node_count,
                end < graph.node_count,
                goal == graph.at(end as int),
                p == problem(*graph, penalty, *dist, p.start, end as int),
                s.marks == self.marks(),
                s.heap == open@,
                s.explored == s0.explored,
                s.marks.len() == s0.marks.len(),
                graph.offsets@[cur as int] <= i <= stop,
                stop == graph.offsets@[cur + 1],
                stop <= graph.targets.len(),
                search_inv(p, s, cur as int, i as int),
                s.marks[cur as int].closed,
                s.marks[cur as int].g_score == cur_g,
                s.rank[cur as int] == s.explored - 1,
                !s.marks[end as int].closed,
                closed_rightly(p, s, end as int),
                stand(p, s) == followed_to(p, stand(p, s0), cur as int, i as int),
            decreases stop - i,
        {
            let to = graph.targets[i] as usize;
            let length = graph.base_weights[i];
            let depth = graph.edge_depths[i];
            let ghost slot = graph.slot(i as int);
            assert(slot.to == to && slot.length == length && slot.depth == depth);
            let open_way = graph.max_depth > 0 || depth < 0;
            assert(open_way == p.leaves(cur as int, i as int));
            let ghost was = stand(p, s);
            assert(was.marks[cur as int] == s.marks[cur as int]);
            assert(was.marks[to as int] == s.marks[to as int]);
            let known = self.get(to);
            if open_way && !known.closed {
                let w = edge_cost(length, depth, graph.max_depth, penalty);
                assert(w == p.cost(i as int));
                proof {
                    assert(marked_well(p, s, cur as int));
                    assert(marked_well(p, s, to as int));
                    lemma_score_bound(s.explored);
                }
                let tentative: i128 = cur_g + w;
                if tentative < known.g_score {
                    let h = measure(dist, graph.point(to), goal);
                    assert(h == (p.rest)(to as int));
                    let ghost t = Search {
                        marks: s.marks.update(
                            to as int,
                            Mark { g_score: tentative, came_from: cur as u32, closed: false },
                        ),
                        via: s.via.update(to as int, i as int),
                        heap: s.heap.insert(
                            Keyed { key: (tentative + h as i128) as i128, item: to as u32 },
                        ),
                        ..s
                    };
                    proof {
                        lemma_search_improves(p, s, cur as int, i as int, t);
                        lemma_rightly_kept(p, s, t, end as int);
                        assert(stand(p, t).marks =~= followed(p, was, cur as int, i as int).marks);
                        s = t;
                    }
                    self.put(to, Mark { g_score: tentative, came_from: cur as u32, closed: false });
                    open.push(tentative + h as i128, to as u32);
                } else {
                    proof {
                        lemma_search_keeps(p, s, cur as int, i as int);
                    }
                }
            } else {
                proof {
                    lemma_search_keeps(p, s, cur as int, i as int);
                }
            }
            assert(stand(p, s) == followed(p, was, cur as int, i as int));
            i = i + 1;
        }
        proof {
            lemma_search_row_done(p, s, cur as int);
        }
        Ghost(s)
    }
}

proof fn lemma_score_bound(k: int)
    by (nonlinear_arith)
    requires
        0 <= k <= 5_000_000,
    ensures
        0 <= k * COST_MAX <= 46_116_860_184_273_879_040_000_000,
        -k * COST_MAX == -(k * COST_MAX),
{
}

/// The path has the positions of the nodes, in reverse.
spec fn runs_back(graph: Graph, path: Seq<Point>, nodes: Seq<int>) -> bool {
    &&& path.len() == nodes.len()
    &&& forall|k: int|
        0 <= k < path.len() ==> #[trigger] path[k] == graph.at(nodes[nodes.len() - 1 - k])
}

impl Router {
    /// The positions along the route that was found to `end`.
    fn trace_back(&self, graph: &Graph, end: usize, Ghost(p): Ghost<Problem>, Ghost(s): Ghost<Search>) -> (r: (
        Vec<Point>,
        Ghost<(Seq<int>, Seq<int>)>,
    ))
        requires
            self.wf(),
            s.marks == self.marks(),
            sound(p, s),
            p.graph == *graph,
            end < graph.node_count,
            s.marks[end as int].reached(),
        ensures
            r.0@ == positions(*graph, r.1@.0),
            is_route(p, r.1@.0, r.1@.1),
            r.1@.0.first() == p.start,
            r.1@.0.last() == end,
            route_cost(p, r.1@.1) == s.marks[end as int].g_score,
            forall|k: int| 0 <= k < r.1@.0.len() ==> 0 <= #[trigger] r.1@.0[k] < graph.node_count,
            forall|k: int| 0 <= k < r.1@.0.len() - 1 ==> s.marks[#[trigger] r.1@.0[k]].closed,
            traces(s.marks, r.1@.0),
            r.0.len() <= s.explored + 1,
    {
        let mut back: Vec<Point> = Vec::new();
        let mut id: usize = end;
        back.push(graph.point(end));
        let ghost mut nodes: Seq<int> = seq![end as int];
        let ghost mut hops: Seq<int> = Seq::empty();
        let mut from = self.get(id).came_from;
        proof {
            assert(marked_well(p, s, end as int));
            assert(route_cost(p, hops) == 0);
        }
        while from != NO_NODE
            invariant
                self.wf(),
                s.marks == self.marks(),
                sound(p, s),
                p.graph == *graph,
                end < graph.node_count,
                id < graph.node_count,
                s.marks[id as int].reached(),
                from == s.marks[id as int].came_from,
                nodes.len() >= 1,
                nodes[0] == id,
                nodes.last() == end,
                is_route(p, nodes, hops),
                route_cost(p, hops) == s.marks[end as int].g_score - s.marks[id as int].g_score,
                forall|k: int| 0 <= k < nodes.len() ==> 0 <= #[trigger] nodes[k] < graph.node_count,
                forall|k: int| 0 <= k < nodes.len() - 1 ==> s.marks[#[trigger] nodes[k]].closed,
                forall|k: int| 0 < k < nodes.len() ==> s.marks[#[trigger] nodes[k]].came_from == nodes[k - 1],
                runs_back(*graph, back@, nodes),
                nodes.len() + closing_place(s, id as int) <= s.explored + 1,
                closing_place(s, id as int) >= 0,
            decreases closing_place(s, id as int),
        {
            assert(id != p.start);
            let ghost had = back@;
            let ghost was = nodes;
            proof {
                lemma_step_back(p, s, nodes, hops);
                hops = seq![s.via[id as int]] + hops;
                nodes = seq![from as int] + nodes;
                assert forall|k: int| 0 <= k < nodes.len() implies 0 <= #[trigger] nodes[k] < graph.node_count by {
                    if k > 0 {
                        assert(nodes[k] == was[k - 1]);
                    }
                }
                assert forall|k: int| 0 <= k < nodes.len() - 1 implies s.marks[#[trigger] nodes[k]].closed by {
                    if k > 0 {
                        assert(nodes[k] == was[k - 1]);
                    }
                }
                assert forall|k: int| 0 < k < nodes.len() implies s.marks[#[trigger] nodes[k]].came_from
                    == nodes[k - 1] by {
                    assert(nodes[k] == was[k - 1]);
                    if k > 1 {
                        assert(nodes[k - 1] == was[k - 2]);
                    }
                }
            }
            id = from as usize;
            back.push(graph.point(id));
            proof {
                assert forall|k: int| 0 <= k < back@.len() implies #[trigger] back@[k] == graph.at(
                    nodes[nodes.len() - 1 - k]) by {
                    if k < had.len() {
                        assert(back@[k] == had[k]);
                        assert(nodes[nodes.len() - 1 - k] == was[was.len() - 1 - k]);
                    }
                }
            }
            from = self.get(id).came_from;
        }
        proof {
            if id != p.start {
                assert(marked_well(p, s, id as int));
                assert(false);
            }
        }
        let mut path: Vec<Point> = Vec::new();
        let mut k: usize = back.len();
        while k > 0
            invariant
                k <= back.len(),
                runs_back(*graph, back@, nodes),
                path@ =~= positions(*graph, nodes).take(back.len() - k),
            decreases k,
        {
            k = k - 1;
            assert(back@[k as int] == graph.at(nodes[nodes.len() - 1 - k]));
            path.push(back[k]);
        }
        assert(path@ =~= positions(*graph, nodes));
        (path, Ghost((nodes, hops)))
    }

    /// Searches for a route between two different nodes: its positions and its cost, and
    /// how many nodes were closed on the way.
    fn search<D: Fn(Point, Point) -> u64>(
        &mut self,
        graph: &Graph,
        start: usize,
        end: usize,
        penalty: i64,
        dist: &D,
    ) -> (r: Option<Found>)
        requires
            old(self).wf(),
            old(self).marks().len() >= graph.node_count,
            graph.wf(),
            is_measure(*dist),
            -PENALTY_MAX <= penalty <= PENALTY_MAX,
            start < graph.node_count,
            end < graph.node_count,
            start != end,
        ensures
            final(self).wf(),
            final(self).marks().len() == old(self).marks().len(),
            r is None ==> {
                let p = problem(*graph, penalty, *dist, start as int, end as int);
                &&& search_outcome(p, end as int) is None
                &&& too_many(p, end as int) || !reachable(p, start as int, end as int)
            },
            r matches Some(f) ==> {
                let p = problem(*graph, penalty, *dist, start as int, end as int);
                &&& f.explored < MAX_STEPS
                &&& f.explored <= graph.node_count
                &&& f.path.len() <= f.explored + 1
                &&& -46_116_860_184_273_879_040_000_000 <= f.cost <= 46_116_860_184_273_879_040_000_000
                &&& exists|nodes: Seq<int>, hops: Seq<int>| #[trigger]
                    is_found(p, end as int, nodes, hops) && f.path@ == positions(*graph, nodes) && f.cost
                        == route_cost(p, hops) && is_course(
                        p,
                        end as int,
                        nodes,
                        f.cost as int,
                        f.explored as int,
                    )
            },
    {
        let ghost p = problem(*graph, penalty, *dist, start as int, end as int);
        self.reset();
        self.put(start, Mark { g_score: 0, came_from: NO_NODE, closed: false });
        let goal = graph.point(end);
        let h = measure(dist, graph.point(start), goal);
        let mut open = MinHeap::new();
        open.push(h as i128, start as u32);
        let ghost mut s = Search {
            marks: self.marks(),
            via: Seq::new(graph.node_count as nat, |v: int| 0int),
            rank: Seq::new(graph.node_count as nat, |v: int| 0int),
            heap: open@,
            explored: 0,
        };
        proof {
            assert(estimates(p));
            lemma_search_starts(p, s);
            lemma_starts_rightly(p, s, end as int);
            assert(stand(p, s).marks =~= at_start(p).marks);
            assert(stand(p, s).heap =~= at_start(p).heap);
        }
        let mut explored: usize = 0;
        loop
            invariant
                self.wf(),
                self.marks().len() == old(self).marks().len(),
                graph.wf(),
                is_measure(*dist),
                -PENALTY_MAX <= penalty <= PENALTY_MAX,
                start < graph.node_count,
                end < graph.node_count,
                p == problem(*graph, penalty, *dist, start as int, end as int),
                s.marks == self.marks(),
                s.heap == open@,
                s.explored == explored,
                explored < MAX_STEPS,
                !s.marks[end as int].closed,
                search_inv(p, s, -1, 0),
                closed_rightly(p, s, end as int),
                search_outcome(p, end as int) == outcome(p, end as int, stand(p, s), explored as int),
            decreases MAX_STEPS - explored, open@.len(),
        {
            let ghost before = open@;
            let ghost now = stand(p, s);
            let e = match open.pop() {
                Some(e) => e,
                None => {
                    proof {
                        lemma_search_exhausted(p, s, end as int);
                        vstd::multiset::lemma_multiset_empty_len(s.heap);
                    }
                    return None;
                },
            };
            let cur = e.item as usize;
            proof {
                assert(s.heap.contains(e));
                lemma_explored_bound(p, s);
                assert(is_least(now.heap, e));
                lemma_least(now.heap, e);
                assert(now.marks[cur as int] == s.marks[cur as int]);
            }
            if cur == end {
                let mark = self.get(end);
                let (path, Ghost(route)) = self.trace_back(graph, end, Ghost(p), Ghost(s));
                proof {
                    assert forall|slack: int, others: Seq<int>, steps: Seq<int>|
                        0 <= slack && #[trigger] p.consistent_within(slack) && #[trigger] is_route(
                            p,
                            others,
                            steps,
                        ) && others.first() == p.start && others.last() == end implies route_cost(p, route.1)
                        <= route_cost(p, steps) + slack * steps.len() by {
                        lemma_search_optimal(p, s, e, others, steps, slack);
                    }
                    assert(is_found(p, end as int, route.0, route.1));
                    assert(marked_well(p, s, end as int));
                    lemma_score_bound(s.explored);
                    lemma_closed_for(p, s, e);
                    lemma_all_worth(p, s, end as int);
                    assert(closed_nodes(now.marks, graph.node_count as int) =~= closed_nodes(
                        s.marks,
                        graph.node_count as int,
                    ));
                    assert forall|k: int| 0 < k < route.0.len() implies now.marks[#[trigger] route.0[k]].came_from
                        == route.0[k - 1] by {
                        assert(0 <= route.0[k] < graph.node_count);
                    }
                    assert(0 <= route.0[0] < graph.node_count);
                    assert(traces(now.marks, route.0));
                    assert(is_course(p, end as int, route.0, mark.g_score as int, explored as int));
                }
                return Some(Found { path, cost: mark.g_score, explored });
            }
            let mark = self.get(cur);
            if mark.closed {
                proof {
                    broadcast use vstd::multiset::group_multiset_axioms;
                    lemma_search_skips(p, s, e);
                    let t = Search { heap: s.heap.remove(e), ..s };
                    lemma_rightly_kept(p, s, t, end as int);
                    s = t;
                    assert(open@.len() < before.len());
                    assert(stand(p, s) == Stand { heap: now.heap.remove(e), ..now });
                }
                continue;
            }
            let ghost t = Search {
                marks: s.marks.update(cur as int, Mark { closed: true, ..s.marks[cur as int] }),
                rank: s.rank.update(cur as int, s.explored),
                heap: s.heap.remove(e),
                explored: s.explored + 1,
                ..s
            };
            proof {
                lemma_search_closes(p, s, e, t);
                lemma_closes_rightly(p, s, e, t, end as int);
                assert(stand(p, t).marks =~= taken(now, e).marks);
                s = t;
            }
            self.put(cur, Mark { g_score: mark.g_score, came_from: mark.came_from, closed: true });
            explored = explored + 1;
            if explored >= MAX_STEPS {
                proof {
                    lemma_all_worth(p, s, end as int);
                    assert(too_many(p, end as int));
                    let next = followed_to(
                        p,
                        taken(now, e),
                        cur as int,
                        graph.offsets@[cur + 1] as int,
                    );
                    assert(outcome(p, end as int, next, explored as int) is None);
                }
                return None;
            }
            let Ghost(next) = self.expand(&mut open, graph, penalty, dist, cur, end, Ghost(p), Ghost(s));
            proof {
                s = next;
            }
        }
    }
}

/// The longest path that can be drawn.
pub const PATH_MAX: usize = 5_000_010;

/// The longitude, moved by whole turns to lie within half a turn of `prev`.
pub open spec fn turned(lon: int, prev: int) -> int {
    let d = lon - prev;
    if d > HALF_TURN {
        lon - TURN * ((d - HALF_TURN + TURN - 1) / TURN as int)
    } else if d < -HALF_TURN {
        lon + TURN * ((-d - HALF_TURN + TURN - 1) / TURN as int)
    } else {
        lon
    }
}

/// The first `k` points of a path with continuous longitudes.
pub open spec fn unwrapped(path: Seq<Point>, k: int) -> Seq<Point>
    decreases k,
{
    if k <= 0 {
        Seq::empty()
    } else if k == 1 {
        seq![path[0]]
    } else {
        let before = unwrapped(path, k - 1);
        before.push(
            Point {
                lon: turned(path[k - 1].lon as int, before.last().lon as int) as i64,
                lat: path[k - 1].lat,
            },
        )
    }
}

/// Turning a longitude brings it within half a turn, by a whole number of turns.
pub proof fn lemma_turned(lon: int, prev: int)
    ensures
        -HALF_TURN <= turned(lon, prev) - prev <= HALF_TURN,
        (turned(lon, prev) - lon) % TURN as int == 0,
{
    let d = lon - prev;
    if d > HALF_TURN {
        let q = (d - HALF_TURN + TURN - 1) / TURN as int;
        assert(turned(lon, prev) - lon == TURN * (-q));
        vstd::arithmetic::div_mod::lemma_mod_multiples_basic(-q, TURN as int);
    } else if d < -HALF_TURN {
        let q = (-d - HALF_TURN + TURN - 1) / TURN as int;
        assert(turned(lon, prev) - lon == TURN * q);
        vstd::arithmetic::div_mod::lemma_mod_multiples_basic(q, TURN as int);
    }
}

/// The points of a path lie on the map.
pub open spec fn path_on_map(path: Seq<Point>) -> bool {
    forall|i: int| 0 <= i < path.len() ==> (#[trigger] path[i]).within(WORLD as int)
}

/// A path with continuous longitudes: it starts where the path does, no step is longer than
/// half a turn, and each point is the one of the path but for whole turns.
pub proof fn lemma_unwrapped(path: Seq<Point>, k: int)
    requires
        path_on_map(path),
        0 <= k <= path.len(),
        k <= PATH_MAX,
    ensures
        unwrapped(path, k).len() == k,
        k > 0 ==> unwrapped(path, k)[0] == path[0],
        forall|i: int|
            0 <= i < k ==> {
                let p = #[trigger] unwrapped(path, k)[i];
                &&& p.lat == path[i].lat
                &&& (p.lon - path[i].lon) % TURN as int == 0
                &&& -(WORLD + i * HALF_TURN) <= p.lon <= WORLD + i * HALF_TURN
                &&& drawable(p)
            },
        forall|i: int|
            1 <= i < k ==> -HALF_TURN <= (#[trigger] unwrapped(path, k)[i]).lon - unwrapped(path, k)[i
                - 1].lon <= HALF_TURN,
    decreases k,
{
    if k == 1 {
        assert(path[0].within(WORLD as int));
    } else if k > 1 {
        lemma_unwrapped(path, k - 1);
        let before = unwrapped(path, k - 1);
        assert(before.last() == before[k - 2]);
        lemma_turned(path[k - 1].lon as int, before.last().lon as int);
        assert(path[k - 1].within(WORLD as int));
        let now = unwrapped(path, k);
        assert forall|i: int| 0 <= i < k implies {
            let p = #[trigger] now[i];
            &&& p.lat == path[i].lat
            &&& (p.lon - path[i].lon) % TURN as int == 0
            &&& -(WORLD + i * HALF_TURN) <= p.lon <= WORLD + i * HALF_TURN
            &&& drawable(p)
        } by {
            if i < k - 1 {
                assert(now[i] == before[i]);
            }
        }
        assert forall|i: int| 1 <= i < k implies -HALF_TURN <= (#[trigger] now[i]).lon - now[i - 1].lon
            <= HALF_TURN by {
            if i < k - 1 {
                assert(now[i] == before[i]);
                assert(now[i - 1] == before[i - 1]);
            }
        }
    }
}

/// Moves a longitude by whole turns to lie within half a turn of another.
pub fn turn_towards(lon: i64, prev: i64) -> (r: i64)
    requires
        -WORLD <= lon <= WORLD,
        -DRAWN + HALF_TURN <= prev <= DRAWN - HALF_TURN,
    ensures
        r == turned(lon as int, prev as int),
{
    proof {
        lemma_turned(lon as int, prev as int);
    }
    let d: i64 = lon - prev;
    if d > HALF_TURN {
        let q: i64 = (d - HALF_TURN + TURN - 1) / TURN;
        lon - TURN * q
    } else if d < -HALF_TURN {
        let q: i64 = (-d - HALF_TURN + TURN - 1) / TURN;
        lon + TURN * q
    } else {
        lon
    }
}

/// Makes the longitudes of a path continuous, so that no step jumps more than half a turn.
/// A path across the antimeridian comes out as 178, 181, 183 degrees, not as 178, -179,
/// -177, which keeps plane geometry and drawing from going the wrong way around the map.
pub fn unwrap_lons(path: &mut Vec<Point>)
    requires
        path_on_map(old(path)@),
        old(path).len() <= PATH_MAX,
    ensures
        final(path)@ == unwrapped(old(path)@, old(path).len() as int),
{
    let ghost given = path@;
    let n = path.len();
    if n == 0 {
        assert(path@ =~= unwrapped(given, 0));
        return;
    }
    let mut i: usize = 1;
    assert(path@.take(1) =~= unwrapped(given, 1));
    while i < n
        invariant
            1 <= i <= n,
            n == path.len(),
            n == given.len(),
            n <= PATH_MAX,
            path_on_map(given),
            path@.take(i as int) == unwrapped(given, i as int),
            forall|k: int| i <= k < n ==> #[trigger] path@[k] == given[k],
        decreases n - i,
    {
        let ghost had = path@;
        proof {
            lemma_unwrapped(given, i as int);
            assert(had.take(i as int)[i - 1] == had[i - 1]);
            assert(unwrapped(given, i as int)[i - 1] == had[i - 1]);
            assert(given[i as int].within(WORLD as int));
        }
        let prev = path[i - 1];
        let p = path[i];
        let lon = turn_towards(p.lon, prev.lon);
        path.set(i, Point { lon, lat: p.lat });
        assert(path@.take(i + 1) =~= unwrapped(given, i + 1));
        i = i + 1;
    }
    assert(path@.take(n as int) =~= path@);
}

/// Land this close to an end of a connector is ignored: 3 kilometres. Ports are coastal,
/// and their cells often lie on land in the raster.
pub const SHORE_TOLERANCE: u64 = 3_000_000_000;

/// The two positions are the same, but for a billionth of a degree.
pub open spec fn same_place(a: Point, b: Point) -> bool {
    -1 <= a.lon - b.lon <= 1 && -1 <= a.lat - b.lat <= 1
}

/// Positions count as the same only where less than a billionth of a degree parts them in
/// longitude and in latitude.
pub proof fn lemma_same_place_is_tiny(a: Point, b: Point)
    ensures
        same_place(a, b) <==> {
            &&& -DEGREE < 1_000_000_000 * (a.lon - b.lon) < DEGREE
            &&& -DEGREE < 1_000_000_000 * (a.lat - b.lat) < DEGREE
        },
{
}

/// Whether two positions are the same, but for a billionth of a degree.
pub fn same_point(a: Point, b: Point) -> (r: bool)
    ensures
        r == same_place(a, b),
{
    let dx: i128 = a.lon as i128 - b.lon as i128;
    let dy: i128 = a.lat as i128 - b.lat as i128;
    -1 <= dx && dx <= 1 && -1 <= dy && dy <= 1
}

/// The straight connector between a port and a node stays in water.
pub open spec fn connects<D: Fn(Point, Point) -> u64>(c: LandClassifier, dist: D, a: Point, b: Point) -> bool {
    clear_of_land(c, a, b, SHORE_TOLERANCE as int, measured(dist, a, b) as int)
}

/// The path with the true start put before it, where a connector leads there, and what the
/// connector adds.
pub open spec fn front_stitched<D: Fn(Point, Point) -> u64>(
    c: LandClassifier,
    dist: D,
    path: Seq<Point>,
    from: Point,
) -> (Seq<Point>, int) {
    if path.len() > 0 && !same_place(from, path.first()) && connects(c, dist, from, path.first()) {
        (seq![from] + path, measured(dist, from, path.first()) as int)
    } else {
        (path, 0)
    }
}

/// The path with the true end put after it, where a connector leads there, and what the
/// connector adds.
pub open spec fn back_stitched<D: Fn(Point, Point) -> u64>(
    c: LandClassifier,
    dist: D,
    path: Seq<Point>,
    to: Point,
) -> (Seq<Point>, int) {
    if path.len() > 0 && !same_place(to, path.last()) && connects(c, dist, path.last(), to) {
        (path.push(to), measured(dist, path.last(), to) as int)
    } else {
        (path, 0)
    }
}

/// The path with its true ends, and what the connectors add.
pub open spec fn stitched<D: Fn(Point, Point) -> u64>(
    c: LandClassifier,
    dist: D,
    path: Seq<Point>,
    from: Point,
    to: Point,
) -> (Seq<Point>, int) {
    let front = front_stitched(c, dist, path, from);
    let back = back_stitched(c, dist, front.0, to);
    (back.0, front.1 + back.1)
}

/// Puts the real origin before a path and the real destination after it, where the straight
/// connector from the snapped node stays in open water. A connector that would cross land
/// is dropped, and the snapped node stays the end. The total length of the connectors.
pub fn stitch_endpoints<D: Fn(Point, Point) -> u64>(
    path: &mut Vec<Point>,
    classifier: &LandClassifier,
    from: Point,
    to: Point,
    dist: &D,
) -> (extra: i128)
    requires
        classifier.wf(),
        is_measure(*dist),
        path_on_map(old(path)@),
        from.within(WORLD as int),
        to.within(WORLD as int),
    ensures
        (final(path)@, extra as int) == stitched(*classifier, *dist, old(path)@, from, to),
        path_on_map(final(path)@),
        final(path).len() <= old(path).len() + 2,
        0 <= extra <= 0x2_0000_0000_0000_0000,
{
    let mut extra: i128 = 0;
    let ghost given = path@;
    if path.len() > 0 {
        let first = path[0];
        assert(given[0].within(WORLD as int));
        if !same_point(from, first) {
            let d = measure(dist, from, first);
            if stays_clear(classifier, from, first, SHORE_TOLERANCE, d) {
                extra = extra + d as i128;
                path.insert(0, from);
                assert(path@ =~= seq![from] + given);
                assert forall|i: int| 0 <= i < path@.len() implies (#[trigger] path@[i]).within(
                    WORLD as int) by {
                    if i > 0 {
                        assert(path@[i] == given[i - 1]);
                    }
                }
            }
        }
    }
    let ghost front = path@;
    if path.len() > 0 {
        let last = path[path.len() - 1];
        assert(front.last() == last);
        assert(front[front.len() - 1].within(WORLD as int));
        if !same_point(to, last) {
            let d = measure(dist, last, to);
            if stays_clear(classifier, last, to, SHORE_TOLERANCE, d) {
                extra = extra + d as i128;
                path.push(to);
                assert forall|i: int| 0 <= i < path@.len() implies (#[trigger] path@[i]).within(
                    WORLD as int) by {
                    if i < front.len() {
                        assert(path@[i] == front[i]);
                    }
                }
            }
        }
    }
    extra
}

/// A route: the path to draw, its length in micrometres, and how many nodes the search
/// closed.
pub struct RouteResult {
    pub path: Vec<Point>,
    pub distance: i128,
    pub nodes_explored: usize,
}

/// The path between two ports that snap to the same node: the ports themselves.
pub open spec fn direct(from: Point, to: Point) -> Seq<Point> {
    if same_place(to, from) {
        seq![from]
    } else {
        seq![from, to]
    }
}

/// The path to draw for a route along the given nodes.
pub open spec fn drawn<D: Fn(Point, Point) -> u64>(
    c: LandClassifier,
    dist: D,
    path: Seq<Point>,
    from: Point,
    to: Point,
) -> Seq<Point> {
    let whole = stitched(c, dist, path, from, to).0;
    thinned(Rule::Route, unwrapped(whole, whole.len() as int))
}

/// What a request is answered when the ports snap to the nodes `a` and `b`.
pub open spec fn answers<D: Fn(Point, Point) -> u64>(
    graph: Graph,
    c: LandClassifier,
    dist: D,
    penalty: i64,
    from: Point,
    to: Point,
    a: int,
    b: int,
    r: Option<RouteResult>,
) -> bool {
    let p = problem(graph, penalty, dist, a, b);
    if a == b {
        r matches Some(route) && {
            &&& route.path@ == unwrapped(direct(from, to), direct(from, to).len() as int)
            &&& route.distance == measured(dist, from, to)
            &&& route.nodes_explored == 0
        }
    } else {
        match r {
            None => search_outcome(p, b) is None && (too_many(p, b) || !reachable(p, a, b)),
            Some(route) => {
                &&& route.nodes_explored < MAX_STEPS
                &&& route.nodes_explored <= graph.node_count
                &&& exists|nodes: Seq<int>, hops: Seq<int>| #[trigger]
                    is_found(p, b, nodes, hops) && {
                        let path = positions(graph, nodes);
                        &&& is_course(p, b, nodes, route_cost(p, hops), route.nodes_explored as int)
                        &&& route.path@ == drawn(c, dist, path, from, to)
                        &&& route.distance == route_cost(p, hops) + stitched(c, dist, path, from, to).1
                    }
            },
        }
    }
}

/// A request is answered for the nodes that the ports snap to.
#[verifier::opaque]
pub open spec fn served<D: Fn(Point, Point) -> u64>(
    graph: Graph,
    c: LandClassifier,
    dist: D,
    penalty: i64,
    from: Point,
    to: Point,
    r: Option<RouteResult>,
) -> bool {
    answers(graph, c, dist, penalty, from, to, graph.first_snap(from), graph.first_snap(to), r)
}

/// Bound on the length of a route.
pub const DISTANCE_MAX: i128 = 100_000_000_000_000_000_000_000_000;

impl RouteResult {
    /// The path can be drawn, and starts on the map.
    pub open spec fn wf(&self) -> bool {
        &&& 1 <= self.path.len() <= PATH_MAX
        &&& self.path[0].within(WORLD as int)
        &&& forall|i: int| 0 <= i < self.path.len() ==> drawable(#[trigger] self.path[i])
        &&& -DISTANCE_MAX <= self.distance <= DISTANCE_MAX
        &&& self.nodes_explored < MAX_STEPS
    }
}

impl Router {
    /// Finds a route between two positions: they are snapped to the nearest nodes, the first
    /// of several, the search runs between these, and the true positions are put back on the
    /// ends of the path. Nothing is found where no route leads there, or where the search has
    /// closed too many nodes.
    pub fn find_route<D: Fn(Point, Point) -> u64>(
        &mut self,
        graph: &Graph,
        classifier: &LandClassifier,
        from_lon: i64,
        from_lat: i64,
        to_lon: i64,
        to_lat: i64,
        coastal_penalty: i64,
        dist: &D,
    ) -> (r: Option<RouteResult>)
        requires
            old(self).wf(),
            old(self).marks().len() >= graph.node_count,
            graph.wf(),
            classifier.wf(),
            is_measure(*dist),
            -WORLD <= from_lon <= WORLD,
            -WORLD <= from_lat <= WORLD,
            -WORLD <= to_lon <= WORLD,
            -WORLD <= to_lat <= WORLD,
            -PENALTY_MAX <= coastal_penalty <= PENALTY_MAX,
        ensures
            final(self).wf(),
            final(self).marks().len() == old(self).marks().len(),
            served(
                *graph,
                *classifier,
                *dist,
                coastal_penalty,
                Point { lon: from_lon, lat: from_lat },
                Point { lon: to_lon, lat: to_lat },
                r,
            ),
            r matches Some(route) ==> route.wf(),
    {
        reveal(served);
        let from = Point { lon: from_lon, lat: from_lat };
        let to = Point { lon: to_lon, lat: to_lat };
        let start = graph.find_first_nearest(from);
        let end = graph.find_first_nearest(to);
        if start == end {
            let mut path: Vec<Point> = Vec::new();
            path.push(from);
            if !same_point(to, from) {
                path.push(to);
            }
            assert(path@ =~= direct(from, to));
            proof {
                lemma_unwrapped(path@, path@.len() as int);
            }
            unwrap_lons(&mut path);
            let d = measure(dist, from, to);
            let r = Some(RouteResult { path, distance: d as i128, nodes_explored: 0 });
            proof {
                assert(answers(
                    *graph,
                    *classifier,
                    *dist,
                    coastal_penalty,
                    from,
                    to,
                    start as int,
                    end as int,
                    r,
                ));
            }
            return r;
        }
        match self.search(graph, start, end, coastal_penalty, dist) {
            None => {
                proof {
                    assert(answers(
                        *graph,
                        *classifier,
                        *dist,
                        coastal_penalty,
                        from,
                        to,
                        start as int,
                        end as int,
                        None,
                    ));
                }
                None
            },
            Some(found) => {
                let ghost p = problem(*graph, coastal_penalty, *dist, start as int, end as int);
                let Found { path: mut path, cost, explored } = found;
                let ghost route = choose|nodes: Seq<int>, hops: Seq<int>| #[trigger]
                    is_found(p, end as int, nodes, hops) && path@ == positions(*graph, nodes) && cost
                        == route_cost(p, hops) && is_course(p, end as int, nodes, cost as int, explored as int);
                let ghost straight = path@;
                proof {
                    assert forall|i: int| 0 <= i < path@.len() implies (#[trigger] path@[i]).within(
                        WORLD as int) by {
                        assert(0 <= route.0[i] < graph.node_count);
                        assert(graph.at(route.0[i]).within(WORLD as int));
                    }
                }
                let extra = stitch_endpoints(&mut path, classifier, from, to, dist);
                let ghost whole = path@;
                proof {
                    lemma_unwrapped(whole, whole.len() as int);
                }
                unwrap_lons(&mut path);
                proof {
                    assert forall|i: int| 0 <= i < path@.len() implies drawable(#[trigger] path@[i]) by {
                        assert(drawable(unwrapped(whole, whole.len() as int)[i]));
                    }
                }
                let thin = douglas_peucker(&path, Rule::Route);
                proof {
                    lemma_thinned_ends(Rule::Route, path@);
                    lemma_thinned_subset(Rule::Route, path@, path@.len() as int);
                }
                let r = Some(
                    RouteResult { path: thin, distance: cost + extra, nodes_explored: explored },
                );
                proof {
                    assert(is_found(p, end as int, route.0, route.1));
                    assert(answers(
                        *graph,
                        *classifier,
                        *dist,
                        coastal_penalty,
                        from,
                        to,
                        start as int,
                        end as int,
                        r,
                    ));
                }
                r
            },
        }
    }
}

/// Where the routes of a position start: a node of the main component, and whether the
/// straight connector to it stays in water. Where it does not, routes start at the node
/// instead of the position.
#[derive(Clone, Copy, PartialEq, Eq, Structural, Debug)]
pub struct Snap {
    pub node: usize,
    pub at: Point,
    pub connector_clear: bool,
}

/// What a position snaps to.
pub open spec fn snapped<D: Fn(Point, Point) -> u64>(graph: Graph, c: LandClassifier, dist: D, p: Point) -> Snap {
    let node = graph.first_snap(p);
    Snap {
        node: node as usize,
        at: graph.at(node),
        connector_clear: connects(c, dist, p, graph.at(node)),
    }
}

/// Snaps a position to the closest node of the main component.
pub fn snap_to_water<D: Fn(Point, Point) -> u64>(
    graph: &Graph,
    classifier: &LandClassifier,
    p: Point,
    dist: &D,
) -> (s: Snap)
    requires
        graph.wf(),
        graph.node_count > 0,
        classifier.wf(),
        is_measure(*dist),
        p.within(WORLD as int),
    ensures
        s == snapped(*graph, *classifier, *dist, p),
        s.node < graph.node_count,
        s.at.within(WORLD as int),
{
    let node = graph.find_first_nearest(p);
    let at = graph.point(node);
    let d = measure(dist, p, at);
    let connector_clear = stays_clear(classifier, p, at, SHORE_TOLERANCE, d);
    Snap { node, at, connector_clear }
}

} // verus!
