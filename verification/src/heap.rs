//! A binary min-heap of keyed numbers, and the sort that it gives.
use vstd::multiset::Multiset;
use vstd::prelude::*;

verus! {

broadcast use {vstd::seq_lib::group_to_multiset_ensures, vstd::multiset::group_multiset_axioms};

/// What waits in the heap: the number `item`, in order of `key`, and in its own order where
/// keys are equal.
#[derive(Clone, Copy, PartialEq, Eq, Structural, Debug)]
pub struct Keyed {
    pub key: i128,
    pub item: u32,
}

/// Entry `a` comes out before entry `b`, or they are the same.
pub open spec fn goes_before(a: Keyed, b: Keyed) -> bool {
    a.key < b.key || (a.key == b.key && a.item <= b.item)
}

/// Whether entry `a` comes out before entry `b`, or they are the same.
fn is_before(a: Keyed, b: Keyed) -> (r: bool)
    ensures
        r == goes_before(a, b),
{
    a.key < b.key || (a.key == b.key && a.item <= b.item)
}

/// A binary heap with the least entry on top.
pub struct MinHeap {
    items: Vec<Keyed>,
}

/// No entry goes before the entry above it.
spec fn heap_ordered(s: Seq<Keyed>) -> bool {
    forall|i: int| 0 < i < s.len() ==> goes_before(s[(i - 1) / 2], #[trigger] s[i])
}

/// The top of a heap is the least entry.
proof fn lemma_top_is_least(s: Seq<Keyed>, i: int)
    requires
        heap_ordered(s),
        0 <= i < s.len(),
    ensures
        goes_before(s[0], s[i]),
    decreases i,
{
    if i > 0 {
        lemma_top_is_least(s, (i - 1) / 2);
    }
}

proof fn lemma_swap_multiset(s: Seq<Keyed>, i: int, j: int)
    requires
        0 <= i < s.len(),
        0 <= j < s.len(),
    ensures
        s.update(i, s[j]).update(j, s[i]).to_multiset() =~= s.to_multiset(),
{
    let t = s.update(i, s[j]);
    vstd::seq_lib::to_multiset_update(s, i, s[j]);
    vstd::seq_lib::to_multiset_update(t, j, s[i]);
    assert(s.contains(s[i]) && s.contains(s[j]));
    assert(t.contains(t[j]));
}

impl MinHeap {
    /// What the heap holds.
    pub closed spec fn view(&self) -> Multiset<Keyed> {
        self.items@.to_multiset()
    }

    #[verifier::type_invariant]
    spec fn inv(&self) -> bool {
        heap_ordered(self.items@)
    }

    /// An empty heap.
    pub fn new() -> (h: MinHeap)
        ensures
            h@ == Multiset::<Keyed>::empty(),
    {
        let h = MinHeap { items: Vec::new() };
        assert(h.items@.to_multiset() =~= Multiset::<Keyed>::empty());
        h
    }

    /// Puts one entry in.
    pub fn push(&mut self, key: i128, item: u32)
        ensures
            final(self)@ == old(self)@.insert(Keyed { key, item }),
    {
        proof {
            use_type_invariant(&*self);
        }
        let e = Keyed { key, item };
        let mut v: Vec<Keyed> = Vec::new();
        std::mem::swap(&mut v, &mut self.items);
        let ghost before = v@.to_multiset().insert(e);
        v.push(e);
        let mut i: usize = v.len() - 1;
        while i > 0 && !is_before(v[(i - 1) / 2], v[i])
            invariant
                i < v.len(),
                v@.to_multiset() == before,
                forall|j: int| 0 < j < v.len() && j != i ==> goes_before(v@[(j - 1) / 2], #[trigger] v@[j]),
                forall|j: int|
                    0 < j < v.len() && (j - 1) / 2 == i && i > 0 ==> goes_before(
                        v@[(i - 1) / 2],
                        #[trigger] v@[j],
                    ),
            decreases i,
        {
            let p: usize = (i - 1) / 2;
            let a = v[i];
            let b = v[p];
            let ghost now = v@;
            proof {
                lemma_swap_multiset(now, i as int, p as int);
            }
            v.set(i, b);
            v.set(p, a);
            i = p;
        }
        self.items = v;
    }

    /// Takes out the least entry; nothing if the heap is empty.
    pub fn pop(&mut self) -> (r: Option<Keyed>)
        ensures
            r is None <==> old(self)@.len() == 0,
            r is None ==> final(self)@ == old(self)@,
            r matches Some(e) ==> {
                &&& old(self)@.contains(e)
                &&& final(self)@ == old(self)@.remove(e)
                &&& forall|o: Keyed| #[trigger] old(self)@.contains(o) ==> goes_before(e, o)
            },
    {
        proof {
            use_type_invariant(&*self);
        }
        if self.items.len() == 0 {
            return None;
        }
        let mut v: Vec<Keyed> = Vec::new();
        std::mem::swap(&mut v, &mut self.items);
        let ghost whole = v@;
        let top = v[0];
        let n: usize = v.len() - 1;
        let last = v[n];
        proof {
            assert forall|o: Keyed| #[trigger] whole.to_multiset().contains(o) implies goes_before(
                top,
                o,
            ) by {
                assert(whole.contains(o));
                let k = choose|k: int| 0 <= k < whole.len() && whole[k] == o;
                lemma_top_is_least(whole, k);
            }
            assert(whole.contains(top));
            lemma_swap_multiset(whole, 0, n as int);
        }
        v.set(0, last);
        v.set(n, top);
        v.pop();
        proof {
            let swapped = whole.update(0, last).update(n as int, top);
            assert(swapped.last() == top);
            assert(v@ =~= swapped.drop_last());
            assert(swapped =~= v@.push(top));
            assert(v@.to_multiset() =~= whole.to_multiset().remove(top));
        }
        let mut i: usize = 0;
        let ghost after = v@.to_multiset();
        while going_down(&v, i)
            invariant
                i == 0 || i < v.len(),
                v@.to_multiset() == after,
                forall|j: int|
                    0 < j < v.len() && (j - 1) / 2 != i ==> goes_before(v@[(j - 1) / 2], #[trigger] v@[j]),
                forall|j: int|
                    0 < j < v.len() && (j - 1) / 2 == i && i > 0 ==> goes_before(
                        v@[(i - 1) / 2],
                        #[trigger] v@[j],
                    ),
            decreases v.len() - i,
        {
            let l: usize = 2 * i + 1;
            let c: usize = if l + 1 < v.len() && !is_before(v[l], v[l + 1]) {
                l + 1
            } else {
                l
            };
            let a = v[i];
            let b = v[c];
            let ghost now = v@;
            proof {
                lemma_swap_multiset(now, i as int, c as int);
            }
            v.set(i, b);
            v.set(c, a);
            i = c;
        }
        self.items = v;
        Some(top)
    }
}

/// Some entry below position `i` goes before the entry there.
fn going_down(v: &Vec<Keyed>, i: usize) -> (r: bool)
    requires
        i == 0 || i < v.len(),
    ensures
        r == (exists|j: int| 0 < j < v.len() && (j - 1) / 2 == i && !goes_before(v@[i as int], #[trigger] v@[j])),
        r ==> 2 * i + 1 < v.len(),
{
    let n = v.len();
    if n < 2 || i > (n - 2) / 2 {
        return false;
    }
    let l: usize = 2 * i + 1;
    assert((l - 1) / 2 == i);
    assert((l + 1 - 1) / 2 == i);
    if !is_before(v[i], v[l]) {
        assert(!goes_before(v@[i as int], v@[l as int]));
        return true;
    }
    if l + 1 < n && !is_before(v[i], v[l + 1]) {
        assert(!goes_before(v@[i as int], v@[l + 1]));
        return true;
    }
    false
}

/// `s` in ascending order.
pub open spec fn ascending(s: Seq<i64>) -> Seq<i64> {
    s.sort_by(|a: i64, b: i64| a <= b)
}

/// The same numbers in ascending order.
pub fn sort_ascending(v: &Vec<i64>) -> (r: Vec<i64>)
    ensures
        r@ == ascending(v@),
{
    let mut heap = MinHeap::new();
    let n = v.len();
    let ghost keyed = |x: i64| Keyed { key: x as i128, item: 0 };
    let mut i: usize = 0;
    assert(v@.take(0).map_values(keyed).to_multiset() =~= Multiset::<Keyed>::empty());
    while i < n
        invariant
            n == v.len(),
            i <= n,
            keyed == (|x: i64| Keyed { key: x as i128, item: 0 }),
            heap@ == v@.take(i as int).map_values(keyed).to_multiset(),
        decreases n - i,
    {
        let ghost s = v@.take(i as int).map_values(keyed);
        heap.push(v[i] as i128, 0);
        assert(v@.take(i + 1).map_values(keyed) =~= s.push(keyed(v@[i as int])));
        i = i + 1;
    }
    assert(v@.take(n as int) =~= v@);
    let mut r: Vec<i64> = Vec::new();
    assert(r@.map_values(keyed).to_multiset().add(heap@) =~= heap@);
    let mut k: usize = 0;
    while k < n
        invariant
            n == v.len(),
            k <= n,
            r.len() == k,
            keyed == (|x: i64| Keyed { key: x as i128, item: 0 }),
            r@.map_values(keyed).to_multiset().add(heap@) == v@.map_values(keyed).to_multiset(),
            forall|a: int, b: int| 0 <= a <= b < r.len() ==> r@[a] <= r@[b],
            forall|a: int, o: Keyed| 0 <= a < r.len() && #[trigger] heap@.contains(o) ==> (#[trigger] r@[a]) <= o.key,
            forall|o: Keyed| #[trigger] heap@.contains(o) ==> i64::MIN <= o.key <= i64::MAX && o.item == 0,
            heap@.len() == n - k,
        decreases n - k,
    {
        let ghost held = heap@;
        match heap.pop() {
            Some(e) => {
                let x = e.key as i64;
                let ghost rs = r@.map_values(keyed);
                r.push(x);
                assert(r@.map_values(keyed) =~= rs.push(e));
                assert(held =~= heap@.insert(e));
                assert(r@.map_values(keyed).to_multiset() =~= rs.to_multiset().insert(e));
                assert forall|o: Keyed| #[trigger] heap@.contains(o) implies held.contains(o) by {}
            },
            None => {
                assert(false);
            },
        }
        k = k + 1;
    }
    proof {
        assert(heap@ =~= Multiset::<Keyed>::empty());
        assert(r@.map_values(keyed).to_multiset() =~= v@.map_values(keyed).to_multiset());
        lemma_same_keys(r@, v@, keyed);
        let leq = |a: i64, b: i64| a <= b;
        v@.lemma_sort_by_ensures(leq);
        vstd::seq_lib::lemma_sorted_unique(r@, v@.sort_by(leq), leq);
    }
    r
}

proof fn lemma_same_keys(a: Seq<i64>, b: Seq<i64>, keyed: spec_fn(i64) -> Keyed)
    requires
        keyed == (|x: i64| Keyed { key: x as i128, item: 0 }),
        a.map_values(keyed).to_multiset() == b.map_values(keyed).to_multiset(),
    ensures
        a.to_multiset() == b.to_multiset(),
{
    assert forall|x: i64| #[trigger] a.to_multiset().count(x) == b.to_multiset().count(x) by {
        lemma_mapped_count(a, keyed, x);
        lemma_mapped_count(b, keyed, x);
    }
    assert(a.to_multiset() =~= b.to_multiset());
}

proof fn lemma_mapped_count(a: Seq<i64>, keyed: spec_fn(i64) -> Keyed, x: i64)
    requires
        keyed == (|x: i64| Keyed { key: x as i128, item: 0 }),
    ensures
        a.map_values(keyed).to_multiset().count(keyed(x)) == a.to_multiset().count(x),
    decreases a.len(),
{
    if a.len() > 0 {
        let h = a.drop_last();
        lemma_mapped_count(h, keyed, x);
        assert(a =~= h.push(a.last()));
        assert(a.map_values(keyed) =~= h.map_values(keyed).push(keyed(a.last())));
    } else {
        assert(a.map_values(keyed) =~= Seq::<Keyed>::empty());
    }
}

} // verus!
