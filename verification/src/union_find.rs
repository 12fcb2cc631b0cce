//! Union-find with path compression over `u32` parent links.
use vstd::prelude::*;

verus! {

/// `rank` falls along every parent link of `parent`.
pub open spec fn ranks(parent: Seq<u32>, rank: Seq<nat>) -> bool {
    &&& rank.len() == parent.len()
    &&& forall|i: int|
        0 <= i < parent.len() && parent[i] != i ==> rank[parent[i] as int] < #[trigger] rank[i]
}

/// The links stay inside the sequence and never run in a circle.
pub open spec fn is_forest(parent: Seq<u32>) -> bool {
    &&& forall|i: int| 0 <= i < parent.len() ==> (#[trigger] parent[i]) < parent.len()
    &&& exists|rank: Seq<nat>| #[trigger] ranks(parent, rank)
}

/// Some rank of a forest.
pub open spec fn some_rank(parent: Seq<u32>) -> Seq<nat> {
    choose|rank: Seq<nat>| #[trigger] ranks(parent, rank)
}

/// The root that the links from `x` lead to: the name of the component of `x`.
pub open spec fn root(parent: Seq<u32>, x: int) -> int
    decreases some_rank(parent)[x],
    when is_forest(parent) && 0 <= x < parent.len()
{
    if parent[x] == x {
        x
    } else {
        root(parent, parent[x] as int)
    }
}

proof fn lemma_root(parent: Seq<u32>, rank: Seq<nat>, x: int)
    requires
        is_forest(parent),
        ranks(parent, rank),
        0 <= x < parent.len(),
    ensures
        0 <= root(parent, x) < parent.len(),
        parent[root(parent, x)] == root(parent, x),
        root(parent, root(parent, x)) == root(parent, x),
        rank[root(parent, x)] <= rank[x],
        root(parent, x) != x ==> rank[root(parent, x)] < rank[x],
        root(parent, parent[x] as int) == root(parent, x),
    decreases rank[x],
{
    if parent[x] != x {
        lemma_root(parent, rank, parent[x] as int);
    }
}

/// Every link leads on to a root, which is its own parent.
pub proof fn lemma_root_is_root(parent: Seq<u32>, x: int)
    requires
        is_forest(parent),
        0 <= x < parent.len(),
    ensures
        0 <= root(parent, x) < parent.len(),
        parent[root(parent, x)] == root(parent, x),
        root(parent, root(parent, x)) == root(parent, x),
{
    lemma_root(parent, some_rank(parent), x);
}

/// Pointing `c` straight at its root changes no component.
proof fn lemma_compress(parent: Seq<u32>, rank: Seq<nat>, c: int, r: u32)
    requires
        is_forest(parent),
        ranks(parent, rank),
        0 <= c < parent.len(),
        r == root(parent, c),
    ensures
        is_forest(parent.update(c, r)),
        ranks(parent.update(c, r), rank),
        forall|y: int|
            0 <= y < parent.len() ==> #[trigger] root(parent.update(c, r), y) == root(parent, y),
{
    let p2 = parent.update(c, r);
    lemma_root(parent, rank, c);
    assert(ranks(p2, rank));
    assert(is_forest(p2));
    assert forall|y: int| 0 <= y < parent.len() implies #[trigger] root(p2, y) == root(parent, y) by {
        lemma_compress_root(parent, rank, c, r, y);
    }
}

proof fn lemma_compress_root(parent: Seq<u32>, rank: Seq<nat>, c: int, r: u32, y: int)
    requires
        is_forest(parent),
        ranks(parent, rank),
        0 <= c < parent.len(),
        r == root(parent, c),
        is_forest(parent.update(c, r)),
        0 <= y < parent.len(),
    ensures
        root(parent.update(c, r), y) == root(parent, y),
    decreases rank[y],
{
    let p2 = parent.update(c, r);
    lemma_root(parent, rank, c);
    lemma_root(parent, rank, y);
    if y == c {
        assert(parent[r as int] == r);
        assert(p2[r as int] == r);
        assert(root(p2, r as int) == r);
    } else if parent[y] != y {
        lemma_compress_root(parent, rank, c, r, parent[y] as int);
    }
}

/// The links from `x` lead through `y`, or `y` is `x` itself.
pub open spec fn on_chain(parent: Seq<u32>, x: int, y: int) -> bool
    decreases some_rank(parent)[x],
    when is_forest(parent) && 0 <= x < parent.len()
{
    x == y || (parent[x] != x && on_chain(parent, parent[x] as int, y))
}

/// The links, with all on the chain from `x` pointed straight at the root.
pub open spec fn compressed(parent: Seq<u32>, x: int) -> Seq<u32> {
    Seq::new(
        parent.len(),
        |y: int|
            if on_chain(parent, x, y) {
                root(parent, x) as u32
            } else {
                parent[y]
            },
    )
}

/// What lies on the chain is no higher than where it starts, and has the same root.
proof fn lemma_on_chain(parent: Seq<u32>, rank: Seq<nat>, x: int, y: int)
    requires
        is_forest(parent),
        ranks(parent, rank),
        0 <= x < parent.len(),
        on_chain(parent, x, y),
    ensures
        0 <= y < parent.len(),
        rank[y] <= rank[x],
        root(parent, y) == root(parent, x),
    decreases rank[x],
{
    if x != y {
        lemma_on_chain(parent, rank, parent[x] as int, y);
    }
}

/// A chain that goes through `y` goes on as the one from `y` does.
proof fn lemma_chain_on(parent: Seq<u32>, rank: Seq<nat>, x: int, y: int, z: int)
    requires
        is_forest(parent),
        ranks(parent, rank),
        0 <= x < parent.len(),
        on_chain(parent, x, y),
        on_chain(parent, y, z),
    ensures
        on_chain(parent, x, z),
    decreases rank[x],
{
    if x != y {
        lemma_chain_on(parent, rank, parent[x] as int, y, z);
    }
}

/// The root of the component of `x`; every link on the way is pointed straight at it.
pub fn uf_find(parent: &mut [u32], x: u32) -> (r: u32)
    requires
        is_forest(old(parent)@),
        x < old(parent).len(),
    ensures
        r == root(old(parent)@, x as int),
        final(parent).len() == old(parent).len(),
        is_forest(final(parent)@),
        forall|y: int|
            0 <= y < old(parent).len() ==> #[trigger] root(final(parent)@, y) == root(
                old(parent)@,
                y,
            ),
        final(parent)@ == compressed(old(parent)@, x as int),
{
    let ghost before = parent@;
    let ghost rank = some_rank(parent@);
    let mut root_found: u32 = x;
    while parent[root_found as usize] != root_found
        invariant
            parent@ == before,
            is_forest(before),
            ranks(before, rank),
            root_found < parent.len(),
            x < parent.len(),
            root(before, root_found as int) == root(before, x as int),
        decreases rank[root_found as int],
    {
        proof {
            lemma_root(before, rank, root_found as int);
        }
        root_found = parent[root_found as usize];
    }
    let mut cur: u32 = x;
    proof {
        lemma_root(before, rank, x as int);
    }
    while parent[cur as usize] != root_found
        invariant
            parent.len() == before.len(),
            on_chain(before, x as int, cur as int),
            forall|y: int|
                0 <= y < before.len() ==> #[trigger] parent@[y] == if on_chain(before, x as int, y) && !on_chain(
                    before,
                    cur as int,
                    y,
                ) {
                    root_found
                } else {
                    before[y]
                },
            is_forest(before),
            is_forest(parent@),
            ranks(before, rank),
            ranks(parent@, rank),
            x < parent.len(),
            cur < parent.len(),
            root_found < parent.len(),
            root_found == root(before, x as int),
            root(parent@, cur as int) == root_found,
            forall|y: int|
                0 <= y < before.len() ==> #[trigger] root(parent@, y) == root(before, y),
        decreases rank[cur as int],
    {
        let ghost now = parent@;
        let ghost at = cur as int;
        proof {
            lemma_root(now, rank, cur as int);
            lemma_compress(now, rank, cur as int, root_found);
            assert(now[cur as int] != cur) by {
                if now[cur as int] == cur {
                    assert(root(now, cur as int) == cur);
                }
            }
        }
        let next = parent[cur as usize];
        parent[cur as usize] = root_found;
        assert(parent@ =~= now.update(cur as int, root_found));
        cur = next;
        proof {
            assert(next == before[at]);
            assert(on_chain(before, next as int, next as int));
            assert(on_chain(before, at, next as int));
            lemma_chain_on(before, rank, x as int, at, next as int);
            assert(!on_chain(before, next as int, at)) by {
                if on_chain(before, next as int, at) {
                    lemma_on_chain(before, rank, next as int, at);
                }
            }
        }
    }
    proof {
        assert(parent@[cur as int] == before[cur as int]);
        assert forall|y: int| 0 <= y < before.len() implies #[trigger] parent@[y] == compressed(
            before,
            x as int,
        )[y] by {
            if on_chain(before, cur as int, y) {
                lemma_chain_on(before, rank, x as int, cur as int, y);
                assert(on_chain(before, root_found as int, y) ==> y == root_found);
            }
        }
        assert(parent@ =~= compressed(before, x as int));
    }
    root_found
}

/// The links after the components of `a` and `b` are joined: the chains from both are
/// compressed, and the root of `a` is linked to the root of `b`.
pub open spec fn united(parent: Seq<u32>, a: int, b: int) -> Seq<u32> {
    let short = compressed(compressed(parent, a), b);
    if root(parent, a) == root(parent, b) {
        short
    } else {
        short.update(root(parent, a), root(parent, b) as u32)
    }
}

/// Joins the components of `a` and `b`: the root of `a` is linked to the root of `b`.
pub fn uf_union(parent: &mut [u32], a: u32, b: u32)
    requires
        is_forest(old(parent)@),
        a < old(parent).len(),
        b < old(parent).len(),
    ensures
        final(parent).len() == old(parent).len(),
        is_forest(final(parent)@),
        forall|y: int|
            0 <= y < old(parent).len() ==> #[trigger] root(final(parent)@, y) == (if root(
                old(parent)@,
                y,
            ) == root(old(parent)@, a as int) {
                root(old(parent)@, b as int)
            } else {
                root(old(parent)@, y)
            }),
        final(parent)@ == united(old(parent)@, a as int, b as int),
{
    let ra = uf_find(parent, a);
    let rb = uf_find(parent, b);
    proof {
        lemma_root_is_root(parent@, a as int);
        lemma_root_is_root(parent@, b as int);
    }
    if ra != rb {
        proof {
            lemma_link(parent@, ra, rb);
        }
        let ghost now = parent@;
        parent[ra as usize] = rb;
        assert(parent@ =~= now.update(ra as int, rb));
    }
}

proof fn lemma_link(parent: Seq<u32>, ra: u32, rb: u32)
    requires
        is_forest(parent),
        ra < parent.len(),
        rb < parent.len(),
        ra != rb,
        parent[ra as int] == ra,
        parent[rb as int] == rb,
    ensures
        is_forest(parent.update(ra as int, rb)),
        forall|y: int|
            0 <= y < parent.len() ==> #[trigger] root(parent.update(ra as int, rb), y) == (if root(
                parent,
                y,
            ) == ra {
                rb as int
            } else {
                root(parent, y)
            }),
{
    let p2 = parent.update(ra as int, rb);
    let rank = some_rank(parent);
    let rank2 = Seq::new(
        parent.len(),
        |y: int|
            if root(parent, y) == ra {
                rank[y] + rank[rb as int] + 1
            } else {
                rank[y]
            },
    );
    assert forall|i: int| 0 <= i < p2.len() && p2[i] != i implies rank2[p2[i] as int]
        < #[trigger] rank2[i] by {
        lemma_root(parent, rank, i);
        assert(root(parent, rb as int) == rb);
        assert(root(parent, ra as int) == ra);
        if i != ra {
            assert(rank[parent[i] as int] < rank[i]);
        }
    }
    assert(ranks(p2, rank2));
    assert(is_forest(p2));
    assert forall|y: int| 0 <= y < parent.len() implies #[trigger] root(p2, y) == (if root(
        parent,
        y,
    ) == ra {
        rb as int
    } else {
        root(parent, y)
    }) by {
        lemma_link_root(parent, ra, rb, rank2, y);
    }
}

proof fn lemma_link_root(parent: Seq<u32>, ra: u32, rb: u32, rank: Seq<nat>, y: int)
    requires
        is_forest(parent),
        ra < parent.len(),
        rb < parent.len(),
        ra != rb,
        parent[ra as int] == ra,
        parent[rb as int] == rb,
        is_forest(parent.update(ra as int, rb)),
        ranks(parent.update(ra as int, rb), rank),
        0 <= y < parent.len(),
    ensures
        root(parent.update(ra as int, rb), y) == (if root(parent, y) == ra {
            rb as int
        } else {
            root(parent, y)
        }),
    decreases rank[y],
{
    let p2 = parent.update(ra as int, rb);
    if y == ra {
        assert(p2[rb as int] == rb);
        assert(root(p2, rb as int) == rb);
        assert(root(parent, y) == ra);
    } else if parent[y] == y {
        assert(root(p2, y) == y);
    } else {
        assert(p2[y] == parent[y]);
        assert(rank[p2[y] as int] < rank[y]);
        lemma_link_root(parent, ra, rb, rank, parent[y] as int);
    }
}

} // verus!
