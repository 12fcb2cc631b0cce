//! The connected components of a graph.
use vstd::prelude::*;

use crate::graph::NO_COMPONENT;
use crate::graph_builder::Link;

verus! {

/// The edge joins `a` and `b`, in either direction.
pub open spec fn joins(l: Link, a: int, b: int) -> bool {
    (l.0 == a && l.1 == b) || (l.0 == b && l.1 == a)
}

/// An edge joins `a` and `b`.
pub open spec fn joined(links: Seq<Link>, a: int, b: int) -> bool {
    exists|e: int| 0 <= e < links.len() && joins(#[trigger] links[e], a, b)
}

/// Step `i` of the walk goes along an edge.
pub open spec fn steps(links: Seq<Link>, walk: Seq<int>, i: int) -> bool {
    joined(links, walk[i], walk[i + 1])
}

/// A walk along edges.
pub open spec fn is_walk(links: Seq<Link>, walk: Seq<int>) -> bool {
    &&& walk.len() >= 1
    &&& forall|i: int| 0 <= i < walk.len() - 1 ==> #[trigger] steps(links, walk, i)
}

/// A walk leads from `a` to `b`.
pub open spec fn leads(links: Seq<Link>, walk: Seq<int>, a: int, b: int) -> bool {
    is_walk(links, walk) && walk.first() == a && walk.last() == b
}

/// Some walk leads from `a` to `b`.
pub open spec fn linked(links: Seq<Link>, a: int, b: int) -> bool {
    exists|walk: Seq<int>| #[trigger] leads(links, walk, a, b)
}

/// The node has an edge.
pub open spec fn has_edge(links: Seq<Link>, v: int) -> bool {
    exists|u: int| #[trigger] joined(links, v, u)
}

/// How many of the first `k` labels are `id`.
pub open spec fn label_count(labels: Seq<u32>, id: u32, k: int) -> int
    decreases k,
{
    if k <= 0 {
        0
    } else {
        label_count(labels, id, k - 1) + if labels[k - 1] == id {
            1int
        } else {
            0int
        }
    }
}

/// The labels number the components of the graph in the order of their first nodes, which
/// `firsts` lists; nodes without edges belong to none.
#[verifier::opaque]
pub open spec fn label_components(links: Seq<Link>, labels: Seq<u32>, firsts: Seq<int>) -> bool {
    let n = labels.len() as int;
    &&& forall|v: int|
        0 <= v < n ==> {
            &&& (#[trigger] labels[v] == NO_COMPONENT) == !has_edge(links, v)
            &&& labels[v] != NO_COMPONENT ==> labels[v] < firsts.len() && firsts[labels[v] as int] <= v
        }
    &&& forall|a: int, b: int|
        0 <= a < n && 0 <= b < n && labels[a] != NO_COMPONENT ==> (#[trigger] labels[a]
            == #[trigger] labels[b]) == linked(links, a, b)
    &&& forall|k: int|
        0 <= k < firsts.len() ==> 0 <= #[trigger] firsts[k] < n && labels[firsts[k]] == k
    &&& forall|j: int, k: int|
        0 <= j < k < firsts.len() ==> #[trigger] firsts[j] < #[trigger] firsts[k]
}

/// The place of the greatest number, the last of several; zero if there is none.
pub open spec fn is_last_greatest(sizes: Seq<usize>, k: int) -> bool {
    if sizes.len() == 0 {
        k == 0
    } else {
        &&& 0 <= k < sizes.len()
        &&& forall|j: int|
            0 <= j < sizes.len() ==> #[trigger] sizes[j] <= sizes[k] && (j > k ==> sizes[j] < sizes[k])
    }
}

proof fn lemma_joined_symmetric(links: Seq<Link>, a: int, b: int)
    ensures
        joined(links, a, b) == joined(links, b, a),
{
    if joined(links, a, b) {
        let e = choose|e: int| 0 <= e < links.len() && joins(#[trigger] links[e], a, b);
        assert(joins(links[e], b, a));
    }
    if joined(links, b, a) {
        let e = choose|e: int| 0 <= e < links.len() && joins(#[trigger] links[e], b, a);
        assert(joins(links[e], a, b));
    }
}

/// Being linked is symmetric.
pub proof fn lemma_linked_symmetric(links: Seq<Link>, a: int, b: int)
    requires
        linked(links, a, b),
    ensures
        linked(links, b, a),
{
    let w = choose|w: Seq<int>| #[trigger] leads(links, w, a, b);
    let r = w.reverse();
    assert forall|i: int| 0 <= i < r.len() - 1 implies #[trigger] steps(links, r, i) by {
        assert(steps(links, w, w.len() - 2 - i));
        lemma_joined_symmetric(links, w[w.len() - 2 - i], w[w.len() - 1 - i]);
    }
    assert(leads(links, r, b, a));
}

/// Being linked is transitive.
pub proof fn lemma_linked_transitive(links: Seq<Link>, a: int, b: int, c: int)
    requires
        linked(links, a, b),
        linked(links, b, c),
    ensures
        linked(links, a, c),
{
    let v = choose|w: Seq<int>| #[trigger] leads(links, w, a, b);
    let w = choose|w: Seq<int>| #[trigger] leads(links, w, b, c);
    let all = v + w.skip(1);
    assert forall|i: int| 0 <= i < all.len() - 1 implies #[trigger] steps(links, all, i) by {
        if i < v.len() - 1 {
            assert(steps(links, v, i));
        } else {
            let j = i - (v.len() - 1);
            assert(steps(links, w, j));
            assert(all[i + 1] == w[j + 1]);
            assert(all[i] == w[j]);
        }
    }
    assert(all.last() == c) by {
        if w.len() == 1 {
            assert(all =~= v);
        }
    }
    assert(leads(links, all, a, c));
}

proof fn lemma_linked_step(links: Seq<Link>, a: int, b: int, c: int)
    requires
        linked(links, a, b),
        joined(links, b, c),
    ensures
        linked(links, a, c),
{
    let w = seq![b, c];
    assert forall|i: int| 0 <= i < w.len() - 1 implies #[trigger] steps(links, w, i) by {}
    assert(leads(links, w, b, c));
    lemma_linked_transitive(links, a, b, c);
}

proof fn lemma_linked_self(links: Seq<Link>, a: int)
    ensures
        linked(links, a, a),
{
    assert(leads(links, seq![a], a, a));
}

/// The neighbours of `v` carry its label.
spec fn closed(links: Seq<Link>, labels: Seq<u32>, v: int) -> bool {
    forall|u: int| #[trigger] joined(links, v, u) ==> 0 <= u < labels.len() && labels[u] == labels[v]
}

proof fn lemma_closed_walk(links: Seq<Link>, labels: Seq<u32>, walk: Seq<int>, k: int)
    requires
        is_walk(links, walk),
        0 <= k < walk.len(),
        0 <= walk[0] < labels.len(),
        labels[walk[0]] != NO_COMPONENT,
        forall|v: int| 0 <= v < labels.len() && labels[v] != NO_COMPONENT ==> #[trigger] closed(links, labels, v),
    ensures
        0 <= walk[k] < labels.len(),
        labels[walk[k]] == labels[walk[0]],
    decreases k,
{
    if k > 0 {
        lemma_closed_walk(links, labels, walk, k - 1);
        assert(steps(links, walk, k - 1));
        assert(closed(links, labels, walk[k - 1]));
    }
}

proof fn lemma_count_set(labels: Seq<u32>, u: int, id: u32, k: int)
    requires
        0 <= u < labels.len(),
        labels[u] != id,
        0 <= k <= labels.len(),
    ensures
        label_count(labels.update(u, id), id, k) == label_count(labels, id, k) + (if u < k {
            1int
        } else {
            0int
        }),
        forall|j: u32|
            j != id && j != labels[u] ==> #[trigger] label_count(labels.update(u, id), j, k)
                == label_count(labels, j, k),
        label_count(labels.update(u, id), labels[u], k) == label_count(labels, labels[u], k) - (if u
            < k {
            1int
        } else {
            0int
        }),
    decreases k,
{
    if k > 0 {
        lemma_count_set(labels, u, id, k - 1);
        assert forall|j: u32| j != id && j != labels[u] implies #[trigger] label_count(
            labels.update(u, id),
            j,
            k,
        ) == label_count(labels, j, k) by {
            assert(label_count(labels.update(u, id), j, k - 1) == label_count(labels, j, k - 1));
        }
    }
}

proof fn lemma_count_bound(labels: Seq<u32>, id: u32, k: int)
    requires
        0 <= k,
    ensures
        0 <= label_count(labels, id, k) <= k,
    decreases k,
{
    if k > 0 {
        lemma_count_bound(labels, id, k - 1);
    }
}

proof fn lemma_count_none(labels: Seq<u32>, id: u32, k: int)
    requires
        0 <= k <= labels.len(),
        forall|v: int| 0 <= v < k ==> #[trigger] labels[v] != id,
    ensures
        label_count(labels, id, k) == 0,
    decreases k,
{
    if k > 0 {
        lemma_count_none(labels, id, k - 1);
    }
}

/// The slots of the rows hold the neighbours.
pub open spec fn rows_hold_neighbours(links: Seq<Link>, offsets: Seq<usize>, targets: Seq<u32>) -> bool {
    let n = offsets.len() - 1;
    &&& n >= 0
    &&& forall|v: int| 0 <= v < n ==> offsets[v] <= #[trigger] offsets[v + 1] <= targets.len()
    &&& forall|i: int| 0 <= i < targets.len() ==> #[trigger] targets[i] < n
    &&& forall|v: int, i: int|
        #![trigger offsets[v], targets[i]]
        0 <= v < n && offsets[v] <= i < offsets[v + 1] ==> joined(links, v, targets[i] as int)
    &&& forall|v: int, u: int|
        0 <= v < n && #[trigger] joined(links, v, u) ==> exists|i: int|
            offsets[v] <= i < offsets[v + 1] && #[trigger] targets[i] == u
}

/// What is known while component `id` is being labelled: the labels below `id` are done,
/// and `queue` lists the nodes labelled `id`, all linked to `start`; the first `head` of
/// them have had their neighbours labelled.
spec fn spreading(
    links: Seq<Link>,
    labels: Seq<u32>,
    id: u32,
    start: int,
    queue: Seq<usize>,
    head: int,
) -> bool {
    let n = labels.len() as int;
    &&& id != NO_COMPONENT
    &&& forall|v: int|
        0 <= v < n && #[trigger] labels[v] != NO_COMPONENT && labels[v] != id ==> labels[v] < id && closed(
            links,
            labels,
            v,
        )
    &&& forall|h: int|
        0 <= h < queue.len() ==> (#[trigger] queue[h]) < n && labels[queue[h] as int] == id && linked(
            links,
            start,
            queue[h] as int,
        ) && start <= queue[h]
    &&& forall|v: int| 0 <= v < n && #[trigger] labels[v] == id ==> queue.contains(v as usize)
    &&& forall|h: int| 0 <= h < head ==> closed(links, labels, #[trigger] queue[h] as int)
    &&& label_count(labels, id, n) == queue.len()
}

/// Labelling a neighbour that has no label yet.
proof fn lemma_spread(
    links: Seq<Link>,
    labels: Seq<u32>,
    id: u32,
    start: int,
    queue: Seq<usize>,
    head: int,
    v: int,
    u: usize,
)
    requires
        spreading(links, labels, id, start, queue, head),
        0 <= head < queue.len(),
        v == queue[head],
        u < labels.len(),
        labels[u as int] == NO_COMPONENT,
        joined(links, v, u as int),
        start <= u,
    ensures
        spreading(links, labels.update(u as int, id), id, start, queue.push(u), head),
{
    let n = labels.len() as int;
    let after = labels.update(u as int, id);
    let longer = queue.push(u);
    assert forall|w: int| 0 <= w < n && #[trigger] after[w] != NO_COMPONENT && after[w] != id implies after[w]
        < id && closed(links, after, w) by {
        assert(labels[w] == after[w]);
        assert(closed(links, labels, w));
        assert forall|x: int| #[trigger] joined(links, w, x) implies 0 <= x < after.len() && after[x]
            == after[w] by {
            assert(labels[x] == labels[w]);
        }
    }
    assert forall|h: int| 0 <= h < longer.len() implies (#[trigger] longer[h]) < n
        && after[longer[h] as int] == id && linked(links, start, longer[h] as int) && start
        <= longer[h] by {
        if h < queue.len() {
            assert(longer[h] == queue[h]);
        } else {
            lemma_linked_step(links, start, v, u as int);
        }
    }
    assert forall|w: int| 0 <= w < n && #[trigger] after[w] == id implies longer.contains(w as usize) by {
        if w == u {
            assert(longer[queue.len() as int] == u);
        } else {
            assert(labels[w] == id);
            let h = choose|h: int| 0 <= h < queue.len() && queue[h] == w as usize;
            assert(longer[h] == w as usize);
        }
    }
    assert forall|h: int| 0 <= h < head implies closed(links, after, #[trigger] longer[h] as int) by {
        assert(longer[h] == queue[h]);
        assert(closed(links, labels, queue[h] as int));
        assert forall|x: int| #[trigger] joined(links, queue[h] as int, x) implies 0 <= x < after.len()
            && after[x] == after[queue[h] as int] by {
            assert(labels[x] == labels[queue[h] as int]);
        }
    }
    lemma_count_set(labels, u as int, id, n);
}

/// Labels everything that is linked to `start` with `id`; the number of nodes labelled.
fn spread_label(
    offsets: &Vec<usize>,
    targets: &Vec<u32>,
    labels: &mut Vec<u32>,
    start: usize,
    id: u32,
    Ghost(links): Ghost<Seq<Link>>,
) -> (size: usize)
    requires
        rows_hold_neighbours(links, offsets@, targets@),
        old(labels).len() == offsets.len() - 1,
        old(labels).len() < u32::MAX,
        start < old(labels).len(),
        id < NO_COMPONENT,
        old(labels)@[start as int] == NO_COMPONENT,
        forall|v: int| 0 <= v < old(labels).len() && (#[trigger] old(labels)@[v]) != NO_COMPONENT ==> old(
            labels,
        )@[v] < id && closed(links, old(labels)@, v),
        forall|v: int|
            0 <= v < start && has_edge(links, v) ==> (#[trigger] old(labels)@[v]) != NO_COMPONENT,
    ensures
        final(labels).len() == old(labels).len(),
        forall|v: int|
            0 <= v < old(labels).len() ==> if old(labels)@[v] != NO_COMPONENT {
                #[trigger] final(labels)@[v] == old(labels)@[v]
            } else {
                final(labels)@[v] == NO_COMPONENT || (final(labels)@[v] == id && linked(
                    links,
                    start as int,
                    v,
                ) && start <= v)
            },
        final(labels)@[start as int] == id,
        forall|v: int|
            0 <= v < old(labels).len() && final(labels)@[v] != NO_COMPONENT ==> #[trigger] closed(
                links,
                final(labels)@,
                v,
            ),
        size == label_count(final(labels)@, id, old(labels).len() as int),
        forall|j: u32|
            j < id ==> #[trigger] label_count(final(labels)@, j, old(labels).len() as int)
                == label_count(old(labels)@, j, old(labels).len() as int),
{
    let n = labels.len();
    let ghost first = labels@;
    let mut queue: Vec<usize> = Vec::new();
    proof {
        lemma_count_none(first, id, n as int);
        lemma_count_set(first, start as int, id, n as int);
        lemma_linked_self(links, start as int);
    }
    labels.set(start, id);
    queue.push(start);
    assert(queue@[0] == start);
    assert(queue@.contains(start));
    let mut head: usize = 0;
    proof {
        assert forall|v: int|
            0 <= v < n && #[trigger] labels@[v] != NO_COMPONENT && labels@[v] != id implies labels@[v]
            < id && closed(links, labels@, v) by {
            assert(first[v] == labels@[v]);
            assert(closed(links, first, v));
            assert forall|x: int| #[trigger] joined(links, v, x) implies 0 <= x < labels@.len()
                && labels@[x] == labels@[v] by {
                assert(first[x] == first[v]);
            }
        }
    }
    while head < queue.len()
        invariant
            head <= queue.len(),
            n == labels.len(),
            n == offsets.len() - 1,
            n < u32::MAX,
            start < n,
            first.len() == n,
            rows_hold_neighbours(links, offsets@, targets@),
            spreading(links, labels@, id, start as int, queue@, head as int),
            forall|v: int|
                0 <= v < start && has_edge(links, v) ==> (#[trigger] labels@[v]) != NO_COMPONENT,
            forall|v: int|
                0 <= v < n ==> if first[v] != NO_COMPONENT {
                    #[trigger] labels@[v] == first[v]
                } else {
                    labels@[v] == NO_COMPONENT || labels@[v] == id
                },
            labels@[start as int] == id,
            forall|j: u32|
                j < id ==> #[trigger] label_count(labels@, j, n as int) == label_count(
                    first,
                    j,
                    n as int,
                ),
        decreases label_count(labels@, NO_COMPONENT, n as int), queue.len() - head,
    {
        let v = queue[head];
        let ghost unlabelled = label_count(labels@, NO_COMPONENT, n as int);
        let ghost waiting = queue.len() - head;
        assert(labels@[v as int] == id);
        assert(offsets@[v as int] <= offsets@[v + 1] <= targets@.len());
        let end = offsets[v + 1];
        let mut i = offsets[v];
        proof {
            lemma_count_bound(labels@, NO_COMPONENT, n as int);
        }
        while i < end
            invariant
                n == labels.len(),
                n == offsets.len() - 1,
                n < u32::MAX,
                start < n,
                first.len() == n,
                head < queue.len(),
                v == queue@[head as int],
                v < n,
                offsets@[v as int] <= i <= end,
                end == offsets@[v + 1],
                end <= targets.len(),
                rows_hold_neighbours(links, offsets@, targets@),
                spreading(links, labels@, id, start as int, queue@, head as int),
                labels@[v as int] == id,
                forall|w: int|
                    0 <= w < start && has_edge(links, w) ==> (#[trigger] labels@[w]) != NO_COMPONENT,
                forall|w: int|
                    0 <= w < n ==> if first[w] != NO_COMPONENT {
                        #[trigger] labels@[w] == first[w]
                    } else {
                        labels@[w] == NO_COMPONENT || labels@[w] == id
                    },
                labels@[start as int] == id,
                forall|j: u32|
                    j < id ==> #[trigger] label_count(labels@, j, n as int) == label_count(
                        first,
                        j,
                        n as int,
                    ),
                forall|k: int|
                    offsets@[v as int] <= k < i ==> labels@[#[trigger] targets@[k] as int] == id,
                0 <= label_count(labels@, NO_COMPONENT, n as int),
                label_count(labels@, NO_COMPONENT, n as int) + queue.len() - head == unlabelled
                    + waiting,
                label_count(labels@, NO_COMPONENT, n as int) <= unlabelled,
            decreases end - i,
        {
            let u = targets[i] as usize;
            proof {
                assert(offsets@[v as int] <= i);
                assert(joined(links, v as int, targets@[i as int] as int));
                lemma_joined_symmetric(links, v as int, u as int);
                assert(targets@[i as int] < n);
            }
            if labels[u] == NO_COMPONENT {
                proof {
                    assert(has_edge(links, u as int));
                    assert(start <= u);
                    lemma_spread(
                        links,
                        labels@,
                        id,
                        start as int,
                        queue@,
                        head as int,
                        v as int,
                        u,
                    );
                    lemma_count_set(labels@, u as int, id, n as int);
                    lemma_count_bound(labels@.update(u as int, id), NO_COMPONENT, n as int);
                }
                labels.set(u, id);
                queue.push(u);
            } else {
                proof {
                    if labels@[u as int] != id {
                        assert(closed(links, labels@, u as int));
                        assert(joined(links, u as int, v as int));
                        assert(false);
                    }
                }
            }
            i = i + 1;
        }
        proof {
            assert(closed(links, labels@, v as int)) by {
                assert forall|u: int| #[trigger] joined(links, v as int, u) implies 0 <= u
                    < labels@.len() && labels@[u] == labels@[v as int] by {
                    let k = choose|k: int|
                        offsets@[v as int] <= k < offsets@[v + 1] && #[trigger] targets@[k] == u;
                    assert(targets@[k] < n);
                }
            }
        }
        head = head + 1;
    }
    proof {
        assert forall|v: int| 0 <= v < n && labels@[v] != NO_COMPONENT implies #[trigger] closed(
            links,
            labels@,
            v,
        ) by {
            if labels@[v] == id {
                assert(queue@.contains(v as usize));
                let h = choose|h: int| 0 <= h < queue.len() && queue@[h] == v as usize;
                assert(closed(links, labels@, queue@[h] as int));
            }
        }
        assert forall|v: int| 0 <= v < n implies if first[v] != NO_COMPONENT {
            #[trigger] labels@[v] == first[v]
        } else {
            labels@[v] == NO_COMPONENT || (labels@[v] == id && linked(links, start as int, v)
                && start <= v)
        } by {
            if labels@[v] == id {
                assert(queue@.contains(v as usize));
                let h = choose|h: int| 0 <= h < queue.len() && queue@[h] == v as usize;
                assert(linked(links, start as int, queue@[h] as int));
            }
        }
    }
    queue.len()
}

/// The sizes count the labels.
pub open spec fn counts_labels(labels: Seq<u32>, sizes: Seq<usize>) -> bool {
    forall|k: int|
        0 <= k < sizes.len() ==> #[trigger] sizes[k] == label_count(labels, k as u32, labels.len() as int)
}

/// What is known when the nodes below `start` have been dealt with.
#[verifier::opaque]
spec fn labelled(links: Seq<Link>, labels: Seq<u32>, firsts: Seq<int>, start: int) -> bool {
    let n = labels.len() as int;
    &&& forall|v: int|
        0 <= v < n && (#[trigger] labels[v]) != NO_COMPONENT ==> {
            &&& labels[v] < firsts.len()
            &&& closed(links, labels, v)
            &&& firsts[labels[v] as int] <= v
            &&& linked(links, firsts[labels[v] as int], v)
            &&& has_edge(links, v)
        }
    &&& forall|v: int|
        0 <= v < start && has_edge(links, v) ==> (#[trigger] labels[v]) != NO_COMPONENT
    &&& forall|k: int|
        0 <= k < firsts.len() ==> 0 <= #[trigger] firsts[k] < start && labels[firsts[k]] == k
    &&& forall|j: int, k: int|
        0 <= j < k < firsts.len() ==> #[trigger] firsts[j] < #[trigger] firsts[k]
}

proof fn lemma_next_component(
    links: Seq<Link>,
    before: Seq<u32>,
    labels: Seq<u32>,
    firsts: Seq<int>,
    start: int,
)
    requires
        labelled(links, before, firsts, start),
        labels.len() == before.len(),
        0 <= start < labels.len(),
        before[start] == NO_COMPONENT,
        has_edge(links, start),
        firsts.len() < NO_COMPONENT,
        forall|v: int|
            0 <= v < before.len() ==> if before[v] != NO_COMPONENT {
                #[trigger] labels[v] == before[v]
            } else {
                labels[v] == NO_COMPONENT || (labels[v] == firsts.len() && linked(links, start, v)
                    && start <= v)
            },
        labels[start] == firsts.len(),
        forall|v: int|
            0 <= v < labels.len() && labels[v] != NO_COMPONENT ==> #[trigger] closed(links, labels, v),
    ensures
        labelled(links, labels, firsts.push(start), start + 1),
{
    reveal(labelled);
    let more = firsts.push(start);
    let n = labels.len() as int;
    assert forall|v: int| 0 <= v < n && (#[trigger] labels[v]) != NO_COMPONENT implies {
        &&& labels[v] < more.len()
        &&& closed(links, labels, v)
        &&& more[labels[v] as int] <= v
        &&& linked(links, more[labels[v] as int], v)
        &&& has_edge(links, v)
    } by {
        assert(closed(links, labels, v));
        if before[v] != NO_COMPONENT {
            assert(labels[v] == before[v]);
            assert(more[labels[v] as int] == firsts[before[v] as int]);
        } else {
            assert(more[labels[v] as int] == start);
            lemma_linked_has_edge(links, start, v);
        }
    }
    assert forall|v: int| 0 <= v < start + 1 && has_edge(links, v) implies (#[trigger] labels[v])
        != NO_COMPONENT by {
        if v < start {
            assert(before[v] != NO_COMPONENT);
        }
    }
    assert forall|k: int| 0 <= k < more.len() implies 0 <= #[trigger] more[k] < start + 1
        && labels[more[k]] == k by {
        if k < firsts.len() {
            assert(more[k] == firsts[k]);
            assert(before[firsts[k]] == k);
            assert(labels[more[k]] == before[more[k]]);
        }
    }
}

/// A row is empty where the node has no edge.
proof fn lemma_row_edges(links: Seq<Link>, offsets: Seq<usize>, targets: Seq<u32>, v: int)
    requires
        rows_hold_neighbours(links, offsets, targets),
        0 <= v < offsets.len() - 1,
    ensures
        offsets[v] <= offsets[v + 1],
        has_edge(links, v) == (offsets[v] < offsets[v + 1]),
{
    assert(offsets[v] <= offsets[v + 1]);
    if offsets[v] < offsets[v + 1] {
        let u = targets[offsets[v] as int] as int;
        assert(joined(links, v, u));
    }
    if has_edge(links, v) {
        let u = choose|u: int| #[trigger] joined(links, v, u);
        let k = choose|k: int| offsets[v] <= k < offsets[v + 1] && #[trigger] targets[k] == u;
    }
}

proof fn lemma_labelled_below(links: Seq<Link>, labels: Seq<u32>, firsts: Seq<int>, start: int)
    requires
        labelled(links, labels, firsts, start),
    ensures
        forall|v: int|
            0 <= v < labels.len() && (#[trigger] labels[v]) != NO_COMPONENT ==> labels[v] < firsts.len()
                && closed(links, labels, v),
        forall|v: int|
            0 <= v < start && has_edge(links, v) ==> (#[trigger] labels[v]) != NO_COMPONENT,
{
    reveal(labelled);
}

proof fn lemma_no_component(links: Seq<Link>, labels: Seq<u32>, firsts: Seq<int>, start: int)
    requires
        labelled(links, labels, firsts, start),
        0 <= start < labels.len(),
        has_edge(links, start) ==> labels[start] != NO_COMPONENT,
    ensures
        labelled(links, labels, firsts, start + 1),
{
    reveal(labelled);
}

proof fn lemma_counts_next(before: Seq<u32>, labels: Seq<u32>, sizes: Seq<usize>, size: usize)
    requires
        counts_labels(before, sizes),
        labels.len() == before.len(),
        sizes.len() < NO_COMPONENT,
        size == label_count(labels, sizes.len() as u32, labels.len() as int),
        forall|j: u32|
            j < sizes.len() as u32 ==> #[trigger] label_count(labels, j, labels.len() as int)
                == label_count(before, j, labels.len() as int),
    ensures
        counts_labels(labels, sizes.push(size)),
{
    let more = sizes.push(size);
    assert forall|k: int| 0 <= k < more.len() implies #[trigger] more[k] == label_count(
        labels,
        k as u32,
        labels.len() as int,
    ) by {
        if k < sizes.len() {
            assert(more[k] == sizes[k]);
            assert(label_count(labels, k as u32, labels.len() as int) == label_count(
                before,
                k as u32,
                labels.len() as int,
            ));
        }
    }
}

proof fn lemma_labelled(links: Seq<Link>, labels: Seq<u32>, firsts: Seq<int>)
    requires
        labelled(links, labels, firsts, labels.len() as int),
    ensures
        label_components(links, labels, firsts),
{
    reveal(labelled);
    reveal(label_components);
    let n = labels.len() as int;
    assert forall|a: int, b: int|
        0 <= a < n && 0 <= b < n && labels[a] != NO_COMPONENT implies (#[trigger] labels[a]
        == #[trigger] labels[b]) == linked(links, a, b) by {
        if labels[a] == labels[b] {
            let f = firsts[labels[a] as int];
            lemma_linked_symmetric(links, f, a);
            lemma_linked_transitive(links, a, f, b);
        }
        if linked(links, a, b) {
            let walk = choose|w: Seq<int>| #[trigger] leads(links, w, a, b);
            assert forall|v: int|
                0 <= v < labels.len() && labels[v] != NO_COMPONENT implies #[trigger] closed(
                links,
                labels,
                v,
            ) by {
                assert(labels[v] != NO_COMPONENT);
            }
            lemma_closed_walk(links, labels, walk, walk.len() - 1);
        }
    }
}

/// The components of a graph given by its rows: the label of each node, and the size of
/// each component.
pub(crate) fn find_labels(
    offsets: &Vec<usize>,
    targets: &Vec<u32>,
    Ghost(links): Ghost<Seq<Link>>,
) -> (r: (Vec<u32>, Vec<usize>))
    requires
        rows_hold_neighbours(links, offsets@, targets@),
        offsets.len() <= u32::MAX,
    ensures
        r.0.len() == offsets.len() - 1,
        exists|firsts: Seq<int>| #[trigger]
            label_components(links, r.0@, firsts) && firsts.len() == r.1.len(),
        counts_labels(r.0@, r.1@),
{
    let n: usize = offsets.len() - 1;
    let mut labels: Vec<u32> = Vec::new();
    let mut i: usize = 0;
    while i < n
        invariant
            i <= n,
            labels.len() == i,
            forall|v: int| 0 <= v < i ==> #[trigger] labels@[v] == NO_COMPONENT,
        decreases n - i,
    {
        labels.push(NO_COMPONENT);
        i = i + 1;
    }
    let mut sizes: Vec<usize> = Vec::new();
    let ghost mut firsts: Seq<int> = Seq::empty();
    let mut start: usize = 0;
    assert(labelled(links, labels@, firsts, 0)) by {
        reveal(labelled);
    }
    while start < n
        invariant
            start <= n,
            n == offsets.len() - 1,
            n < u32::MAX,
            labels.len() == n,
            rows_hold_neighbours(links, offsets@, targets@),
            sizes.len() == firsts.len(),
            sizes.len() <= start,
            labelled(links, labels@, firsts, start as int),
            counts_labels(labels@, sizes@),
        decreases n - start,
    {
        proof {
            lemma_row_edges(links, offsets@, targets@, start as int);
        }
        if labels[start] == NO_COMPONENT && offsets[start + 1] != offsets[start] {
            let id = sizes.len() as u32;
            let ghost before = labels@;
            let ghost old_firsts = firsts;
            let ghost old_sizes = sizes@;
            proof {
                lemma_labelled_below(links, before, firsts, start as int);
            }
            let size = spread_label(offsets, targets, &mut labels, start, id, Ghost(links));
            sizes.push(size);
            proof {
                firsts = firsts.push(start as int);
                lemma_next_component(links, before, labels@, old_firsts, start as int);
                lemma_counts_next(before, labels@, old_sizes, size);
            }
        } else {
            proof {
                lemma_no_component(links, labels@, firsts, start as int);
            }
        }
        start = start + 1;
    }
    proof {
        lemma_labelled(links, labels@, firsts);
        assert(label_components(links, labels@, firsts));
    }
    (labels, sizes)
}

proof fn lemma_linked_has_edge(links: Seq<Link>, a: int, b: int)
    requires
        linked(links, a, b),
        has_edge(links, a),
    ensures
        has_edge(links, b),
{
    let w = choose|w: Seq<int>| #[trigger] leads(links, w, a, b);
    if w.len() > 1 {
        let k = w.len() - 2;
        assert(steps(links, w, k));
        lemma_joined_symmetric(links, w[k], w[k + 1]);
        assert(joined(links, b, w[k]));
    }
}

/// There are no more components than nodes.
pub proof fn lemma_component_count(links: Seq<Link>, labels: Seq<u32>, firsts: Seq<int>)
    requires
        label_components(links, labels, firsts),
    ensures
        firsts.len() <= labels.len(),
{
    reveal(label_components);
    if firsts.len() > 0 {
        lemma_increasing(firsts, firsts.len() - 1);
    }
}

proof fn lemma_increasing(firsts: Seq<int>, k: int)
    requires
        0 <= k < firsts.len(),
        0 <= firsts[0],
        forall|i: int, j: int| 0 <= i < j < firsts.len() ==> #[trigger] firsts[i] < #[trigger] firsts[j],
    ensures
        firsts[k] >= k,
    decreases k,
{
    if k > 0 {
        lemma_increasing(firsts, k - 1);
        assert(firsts[k - 1] < firsts[k]);
    }
}

/// The nodes with a label are as many as are counted.
pub proof fn lemma_label_count(labels: Seq<u32>, id: u32, k: int)
    requires
        0 <= k,
    ensures
        Set::new(|v: int| 0 <= v < k && labels[v] == id).finite(),
        Set::new(|v: int| 0 <= v < k && labels[v] == id).len() == label_count(labels, id, k),
    decreases k,
{
    let now = Set::new(|v: int| 0 <= v < k && labels[v] == id);
    if k == 0 {
        assert(now =~= Set::empty());
    } else {
        lemma_label_count(labels, id, k - 1);
        let before = Set::new(|v: int| 0 <= v < k - 1 && labels[v] == id);
        if labels[k - 1] == id {
            assert(now =~= before.insert(k - 1));
        } else {
            assert(now =~= before);
        }
    }
}

} // verus!
