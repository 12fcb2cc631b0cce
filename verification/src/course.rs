//! The course of a search: what it notes, step by step, and so what comes of it.
use vstd::multiset::Multiset;
use vstd::prelude::*;

use crate::heap::{goes_before, Keyed};
use crate::search::{Mark, Problem, MAX_STEPS, NO_NODE};

verus! {

/// What a search has noted of the nodes, and what waits.
pub ghost struct Stand {
    pub marks: Seq<Mark>,
    pub heap: Multiset<Keyed>,
}

/// The entry is the least of those that wait.
pub open spec fn is_least(heap: Multiset<Keyed>, e: Keyed) -> bool {
    heap.contains(e) && forall|o: Keyed| #[trigger] heap.contains(o) ==> goes_before(e, o)
}

/// The least entry of those that wait.
pub open spec fn least(heap: Multiset<Keyed>) -> Keyed {
    choose|e: Keyed| is_least(heap, e)
}

/// Only one entry is the least.
pub(crate) proof fn lemma_least(heap: Multiset<Keyed>, e: Keyed)
    requires
        is_least(heap, e),
    ensures
        least(heap) == e,
{
    let o = least(heap);
    assert(is_least(heap, o));
    assert(goes_before(e, o) && goes_before(o, e));
}

/// Only the start has been reached.
pub open spec fn at_start(p: Problem) -> Stand {
    Stand {
        marks: Seq::new(
            p.graph.node_count as nat,
            |v: int|
                if v == p.start {
                    Mark { g_score: 0, came_from: NO_NODE, closed: false }
                } else {
                    Mark::fresh()
                },
        ),
        heap: Multiset::empty().insert(Keyed { key: (p.rest)(p.start) as i128, item: p.start as u32 }),
    }
}

/// The half edge in slot `i` of node `cur` has been followed: where it leads to a node that is
/// not closed, by a cheaper route than was known, that is noted.
pub open spec fn followed(p: Problem, s: Stand, cur: int, i: int) -> Stand {
    let v = p.target(i);
    let g = s.marks[cur].g_score + p.cost(i);
    if p.leaves(cur, i) && !s.marks[v].closed && g < s.marks[v].g_score {
        Stand {
            marks: s.marks.update(v, Mark { g_score: g as i128, came_from: cur as u32, closed: false }),
            heap: s.heap.insert(Keyed { key: (g + (p.rest)(v)) as i128, item: v as u32 }),
        }
    } else {
        s
    }
}

/// The half edges of node `cur` below slot `i` have been followed, in their order.
pub open spec fn followed_to(p: Problem, s: Stand, cur: int, i: int) -> Stand
    decreases i - p.graph.offsets@[cur],
{
    if i <= p.graph.offsets@[cur] {
        s
    } else {
        followed(p, followed_to(p, s, cur, i - 1), cur, i - 1)
    }
}

/// The entry has been taken, and its node closed.
pub open spec fn taken(s: Stand, e: Keyed) -> Stand {
    Stand {
        marks: s.marks.update(e.item as int, Mark { closed: true, ..s.marks[e.item as int] }),
        heap: s.heap.remove(e),
    }
}

/// What comes of a search for `end` that goes on from here, `explored` nodes being closed: what
/// it has noted when the end is next, and how many nodes it has closed by then; nothing where
/// nothing waits any more, or too many nodes are closed.
pub open spec fn outcome(p: Problem, end: int, s: Stand, explored: int) -> Option<(Seq<Mark>, int)>
    decreases MAX_STEPS - explored, s.heap.len(),
{
    let e = least(s.heap);
    if explored >= MAX_STEPS || !s.heap.contains(e) {
        None
    } else if e.item == end {
        Some((s.marks, explored))
    } else if s.marks[e.item as int].closed {
        proof {
            broadcast use vstd::multiset::group_multiset_axioms;

        }
        outcome(p, end, Stand { heap: s.heap.remove(e), ..s }, explored)
    } else {
        let cur = e.item as int;
        outcome(p, end, followed_to(p, taken(s, e), cur, p.graph.offsets@[cur + 1] as int), explored + 1)
    }
}

/// What comes of a search for `end`.
pub open spec fn search_outcome(p: Problem, end: int) -> Option<(Seq<Mark>, int)> {
    outcome(p, end, at_start(p), 0)
}

/// Each node of the list was reached from the one before it, and the first from none.
pub open spec fn traces(marks: Seq<Mark>, nodes: Seq<int>) -> bool {
    &&& nodes.len() >= 1
    &&& marks[nodes[0]].came_from == NO_NODE
    &&& forall|k: int| 0 < k < nodes.len() ==> marks[#[trigger] nodes[k]].came_from == nodes[k - 1]
}

proof fn lemma_same_tail(marks: Seq<Mark>, a: Seq<int>, b: Seq<int>, j: int)
    requires
        traces(marks, a),
        traces(marks, b),
        a.last() == b.last(),
        forall|k: int| 0 <= k < a.len() ==> 0 <= #[trigger] a[k] < NO_NODE,
        forall|k: int| 0 <= k < b.len() ==> 0 <= #[trigger] b[k] < NO_NODE,
        0 <= j < a.len(),
    ensures
        j < b.len(),
        a[a.len() - 1 - j] == b[b.len() - 1 - j],
    decreases j,
{
    if j > 0 {
        lemma_same_tail(marks, a, b, j - 1);
        let x = a[a.len() - j];
        assert(marks[x].came_from == a[a.len() - 1 - j]);
        assert(b[b.len() - j] == x);
    }
}

/// What was noted leads back to the start by one list of nodes only.
pub(crate) proof fn lemma_one_trace(marks: Seq<Mark>, a: Seq<int>, b: Seq<int>)
    requires
        traces(marks, a),
        traces(marks, b),
        a.last() == b.last(),
        forall|k: int| 0 <= k < a.len() ==> 0 <= #[trigger] a[k] < NO_NODE,
        forall|k: int| 0 <= k < b.len() ==> 0 <= #[trigger] b[k] < NO_NODE,
    ensures
        a == b,
{
    lemma_same_tail(marks, a, b, a.len() - 1);
    lemma_same_tail(marks, b, a, b.len() - 1);
    assert forall|i: int| 0 <= i < a.len() implies a[i] == b[i] by {
        lemma_same_tail(marks, a, b, a.len() - 1 - i);
    }
    assert(a =~= b);
}

} // verus!
