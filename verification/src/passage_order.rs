//! Which of several shortest passages the search finds: the one that goes first.
use vstd::prelude::*;

use crate::passage::{
    beside, entered_by, entry_ok, is_passage, is_seed, is_shortest, is_step, lemma_not_special,
    lemma_origin_is_seed, lemma_shortest, lemma_within_level, note, seeded, spread, wave_ok, Waters, Wave,
    UNSEEN,
};

verus! {

/// The number of the direction from a cell to one beside it: east, west, north, south, then
/// north-east, south-east, north-west and south-west.
pub open spec fn direction(a: (i32, i32), b: (i32, i32)) -> int {
    let dx = b.0 - a.0;
    let dy = b.1 - a.1;
    if dy == 0 {
        if dx > 0 {
            0
        } else {
            1
        }
    } else if dx == 0 {
        if dy > 0 {
            2
        } else {
            3
        }
    } else if dx > 0 {
        if dy > 0 {
            4
        } else {
            5
        }
    } else if dy > 0 {
        6
    } else {
        7
    }
}

/// The rank of a step. From the origin, the cells of the seed are taken row by row from the
/// south-west; from other cells, the cells beside them by their directions.
pub open spec fn step_rank(a: (i32, i32), b: (i32, i32)) -> int {
    if a == (0i32, 0i32) {
        (b.1 + 10) * 21 + (b.0 + 10)
    } else {
        direction(a, b)
    }
}

/// The passages are the same up to step `k`, which has the lower rank in `p`.
pub open spec fn parts_at(p: Seq<(i32, i32)>, q: Seq<(i32, i32)>, k: int) -> bool {
    &&& 0 < k < p.len()
    &&& p.len() == q.len()
    &&& p.take(k) == q.take(k)
    &&& step_rank(p[k - 1], p[k]) < step_rank(q[k - 1], q[k])
}

/// Passage `p` goes before passage `q`, which is as long: where they part, the step of `p`
/// has the lower rank.
pub open spec fn goes_first(p: Seq<(i32, i32)>, q: Seq<(i32, i32)>) -> bool {
    exists|k: int| #[trigger] parts_at(p, q, k)
}

/// Among the shortest passages to a way out, the one that goes first.
pub open spec fn is_first_shortest(w: Waters, cells: Seq<(i32, i32)>) -> bool {
    &&& is_shortest(w, cells)
    &&& forall|others: Seq<(i32, i32)>| #[trigger]
        is_shortest(w, others) ==> others == cells || goes_first(cells, others)
}

/// No two passages are both the first.
pub proof fn lemma_one_first(w: Waters, p: Seq<(i32, i32)>, q: Seq<(i32, i32)>)
    requires
        is_first_shortest(w, p),
        is_first_shortest(w, q),
    ensures
        p == q,
{
    if p != q {
        lemma_one_way(p, q);
    }
}

proof fn lemma_one_way(p: Seq<(i32, i32)>, q: Seq<(i32, i32)>)
    requires
        goes_first(p, q),
    ensures
        !goes_first(q, p),
{
    let j = choose|k: int| #[trigger] parts_at(p, q, k);
    assert forall|k: int| !#[trigger] parts_at(q, p, k) by {
        if parts_at(q, p, k) {
            if j < k {
                assert(q.take(k)[j] == p.take(k)[j] && q.take(k)[j - 1] == p.take(k)[j - 1]);
            } else if k < j {
                assert(p.take(j)[k] == q.take(j)[k] && p.take(j)[k - 1] == q.take(j)[k - 1]);
            } else {
                assert(p.take(j)[j - 1] == q.take(j)[j - 1]);
            }
        }
    }
}

proof fn lemma_first_chain(p: Seq<(i32, i32)>, q: Seq<(i32, i32)>, r: Seq<(i32, i32)>)
    requires
        goes_first(p, q),
        goes_first(q, r),
    ensures
        goes_first(p, r),
{
    let j = choose|k: int| #[trigger] parts_at(p, q, k);
    let k = choose|k: int| #[trigger] parts_at(q, r, k);
    if j < k {
        assert(q.take(k)[j] == r.take(k)[j] && q.take(k)[j - 1] == r.take(k)[j - 1]);
        assert(q.take(k).take(j) =~= q.take(j));
        assert(r.take(k).take(j) =~= r.take(j));
        assert(parts_at(p, r, j));
    } else if k < j {
        assert(p.take(j)[k] == q.take(j)[k] && p.take(j)[k - 1] == q.take(j)[k - 1]);
        assert(p.take(j).take(k) =~= p.take(k));
        assert(q.take(j).take(k) =~= q.take(k));
        assert(parts_at(p, r, k));
    } else {
        assert(parts_at(p, r, j));
    }
}

proof fn lemma_first_push(p: Seq<(i32, i32)>, q: Seq<(i32, i32)>, a: (i32, i32), b: (i32, i32))
    requires
        goes_first(p, q),
    ensures
        goes_first(p.push(a), q.push(b)),
{
    let k = choose|k: int| #[trigger] parts_at(p, q, k);
    assert(p.push(a).take(k) =~= p.take(k));
    assert(q.push(b).take(k) =~= q.take(k));
    assert(parts_at(p.push(a), q.push(b), k));
}

proof fn lemma_first_last(p: Seq<(i32, i32)>, a: (i32, i32), b: (i32, i32))
    requires
        p.len() > 0,
        step_rank(p.last(), a) < step_rank(p.last(), b),
    ensures
        goes_first(p.push(a), p.push(b)),
{
    let k = p.len() as int;
    assert(p.push(a).take(k) =~= p);
    assert(p.push(b).take(k) =~= p);
    assert(parts_at(p.push(a), p.push(b), k));
}

/// Entry `i` of the queue was entered before entry `j`: from an earlier place, or from the
/// same place by a step of lower rank.
pub open spec fn entered_before(s: Wave, i: int, j: int) -> bool {
    ||| s.par[i] < s.par[j]
    ||| s.par[i] == s.par[j] && step_rank(s.queue[s.par[i]], s.queue[i]) < step_rank(
        s.queue[s.par[j]],
        s.queue[j],
    )
}

/// No cell is entered twice, and the queue lists cells in the order of entering.
pub open spec fn orderly(s: Wave) -> bool {
    &&& forall|i: int, j: int|
        0 <= i < j < s.queue.len() ==> #[trigger] s.queue[i] != #[trigger] s.queue[j]
    &&& forall|i: int, j: int| 1 <= i < j < s.queue.len() ==> #[trigger] entered_before(s, i, j)
}

/// Entering one more cell keeps the queue orderly.
pub(crate) proof fn lemma_enter_orderly(w: Waters, s: Wave, from: int, c: (i32, i32), t: Wave)
    requires
        wave_ok(w, s),
        orderly(s),
        0 <= from < s.queue.len(),
        w.in_grid(c),
        note(w, s, c) == UNSEEN,
        t.queue == s.queue.push(c),
        t.par == s.par.push(from),
        forall|m: int|
            1 <= m < s.queue.len() ==> #[trigger] s.par[m] < from || (s.par[m] == from && step_rank(
                s.queue[from],
                s.queue[m],
            ) < step_rank(s.queue[from], c)),
    ensures
        orderly(t),
{
    let n = s.queue.len() as int;
    assert forall|i: int, j: int| 0 <= i < j < t.queue.len() implies #[trigger] t.queue[i]
        != #[trigger] t.queue[j] by {
        if j == n {
            lemma_not_special(w, s, i);
        }
    }
    assert forall|i: int, j: int| 1 <= i < j < t.queue.len() implies #[trigger] entered_before(t, i, j) by {
        assert(entry_ok(w, s, i));
        assert(t.queue[i] == s.queue[i] && t.par[i] == s.par[i]);
        assert(t.queue[t.par[i]] == s.queue[s.par[i]]);
        if j < n {
            assert(entry_ok(w, s, j));
            assert(t.queue[t.par[j]] == s.queue[s.par[j]]);
            assert(entered_before(s, i, j));
        } else {
            assert(s.par[i] <= from);
            assert(t.queue[from] == s.queue[from]);
        }
    }
}

/// The passage by which the cell in place `m` of the queue was entered.
pub open spec fn trail(s: Wave, m: int) -> Seq<(i32, i32)>
    decreases m,
{
    if 0 < m && 0 <= s.par[m] < m {
        trail(s, s.par[m]).push(s.queue[m])
    } else {
        seq![s.queue[0]]
    }
}

pub(crate) proof fn lemma_trail(w: Waters, s: Wave, m: int)
    requires
        wave_ok(w, s),
        0 <= m < s.queue.len(),
    ensures
        is_passage(w, trail(s, m)),
        trail(s, m).last() == s.queue[m],
        trail(s, m).len() == s.level[m] + 1,
        s.level[m] >= 0,
        m > 0 ==> s.level[m] >= 1 && trail(s, m) == trail(s, s.par[m]).push(s.queue[m]),
    decreases m,
{
    assert(entry_ok(w, s, m));
    if m > 0 {
        lemma_trail(w, s, s.par[m]);
        let before = trail(s, s.par[m]);
        let now = trail(s, m);
        assert forall|k: int| 0 < k < now.len() implies is_step(now[k - 1], #[trigger] now[k]) && w.open_cell(
            now[k],
        ) by {
            if k < before.len() {
                assert(now[k] == before[k] && now[k - 1] == before[k - 1]);
            }
        }
    } else {
        assert(entry_ok(w, s, 0));
    }
}

/// Of two cells entered in as many steps, the one entered earlier was so by the passage that
/// goes first.
proof fn lemma_trail_order(w: Waters, s: Wave, i: int, j: int)
    requires
        wave_ok(w, s),
        orderly(s),
        0 <= i < j < s.queue.len(),
        s.level[i] == s.level[j],
    ensures
        goes_first(trail(s, i), trail(s, j)),
    decreases j,
{
    lemma_trail(w, s, i);
    lemma_trail(w, s, j);
    assert(entry_ok(w, s, i));
    assert(entry_ok(w, s, j));
    assert(entered_before(s, i, j));
    let a = s.par[i];
    let b = s.par[j];
    lemma_trail(w, s, a);
    lemma_trail(w, s, b);
    if a < b {
        lemma_trail_order(w, s, a, b);
        lemma_first_push(trail(s, a), trail(s, b), s.queue[i], s.queue[j]);
    } else {
        lemma_first_last(trail(s, a), s.queue[i], s.queue[j]);
    }
}

/// The passages are the same, or `p` goes first.
spec fn not_after(p: Seq<(i32, i32)>, q: Seq<(i32, i32)>) -> bool {
    p == q || goes_first(p, q)
}

/// A shortest passage cannot be cut short.
proof fn lemma_no_shortcut(w: Waters, s: Wave, cells: Seq<(i32, i32)>, i: int, m: int)
    requires
        wave_ok(w, s),
        is_shortest(w, cells),
        0 <= i < cells.len(),
        0 <= m < s.queue.len(),
        s.queue[m] == cells[i],
        s.level[m] <= i,
    ensures
        s.level[m] == i,
{
    if s.level[m] < i {
        lemma_trail(w, s, m);
        let start = trail(s, m);
        let short = start + cells.skip(i + 1);
        assert forall|k: int| 0 < k < short.len() implies is_step(short[k - 1], #[trigger] short[k])
            && w.open_cell(short[k]) by {
            let n = start.len() as int;
            if k < n {
                assert(short[k] == start[k] && short[k - 1] == start[k - 1]);
            } else {
                let j = k - n + i + 1;
                assert(short[k] == cells[j]);
                assert(is_step(cells[j - 1], cells[j]) && w.open_cell(cells[j]));
                if k == n {
                    assert(short[k - 1] == start.last());
                } else {
                    assert(short[k - 1] == cells[j - 1]);
                }
            }
        }
        assert(short[0] == start[0]);
        assert(is_passage(w, short));
        if i + 1 < cells.len() {
            assert(short.last() == cells.last());
        } else {
            assert(short =~= start);
            assert(short.last() == cells.last());
        }
        assert(short.len() < cells.len());
    }
}

/// The cells of a shortest passage were entered in as many steps, by trails that do not come
/// after it.
proof fn lemma_along_shortest(w: Waters, s: Wave, head: int, cells: Seq<(i32, i32)>, i: int) -> (m: int)
    requires
        wave_ok(w, s),
        orderly(s),
        seeded(w, s),
        spread(w, s, head),
        0 <= head < s.queue.len(),
        is_shortest(w, cells),
        0 <= i < cells.len(),
        i <= s.level[head],
    ensures
        0 <= m < s.queue.len(),
        s.queue[m] == cells[i],
        s.level[m] == i,
        not_after(trail(s, m), cells.take(i + 1)),
    decreases i,
{
    lemma_within_level(w, s, head, cells, i);
    let m = choose|m: int| 0 <= m < s.queue.len() && #[trigger] s.queue[m] == cells[i] && s.level[m] <= i;
    lemma_no_shortcut(w, s, cells, i, m);
    lemma_trail(w, s, m);
    assert(entry_ok(w, s, m));
    if i == 0 {
        assert(m == 0);
        assert(trail(s, 0) =~= cells.take(1));
    } else {
        let a = lemma_along_shortest(w, s, head, cells, i - 1);
        let c = cells[i];
        let b = s.par[m];
        assert(is_step(cells[i - 1], cells[i]) && w.open_cell(cells[i]));
        assert(m > 0);
        assert(cells.take(i + 1) =~= cells.take(i).push(c));
        lemma_trail(w, s, b);
        assert(b <= a) by {
            if is_seed(c) {
                assert(entered_by(s, c, 0));
                let k = choose|k: int| 0 <= k < s.queue.len() && #[trigger] s.queue[k] == c && s.par[k] <= 0;
                assert(k == m) by {
                    if k < m {
                        assert(s.queue[k] != s.queue[m]);
                    } else if m < k {
                        assert(s.queue[m] != s.queue[k]);
                    }
                }
            } else {
                if a >= head {
                    assert(s.level[head] <= s.level[a]);
                }
                assert(beside(s.queue[a], c));
                assert(entered_by(s, c, a));
                let k = choose|k: int| 0 <= k < s.queue.len() && #[trigger] s.queue[k] == c && s.par[k] <= a;
                assert(k == m) by {
                    if k < m {
                        assert(s.queue[k] != s.queue[m]);
                    } else if m < k {
                        assert(s.queue[m] != s.queue[k]);
                    }
                }
            }
        }
        if b == a {
            if trail(s, a) != cells.take(i) {
                lemma_first_push(trail(s, a), cells.take(i), c, c);
            }
        } else {
            lemma_trail_order(w, s, b, a);
            if trail(s, a) != cells.take(i) {
                lemma_first_chain(trail(s, b), trail(s, a), cells.take(i));
            }
            lemma_first_push(trail(s, b), cells.take(i), c, c);
        }
    }
    m
}

/// A way out found from the cell at `head` lies at the end of the first of the shortest
/// passages, if the cells beside that cell in directions of lower rank have been dealt with.
pub(crate) proof fn lemma_first_shortest(w: Waters, s: Wave, head: int, out: (i32, i32))
    requires
        wave_ok(w, s),
        orderly(s),
        seeded(w, s),
        spread(w, s, head),
        0 <= head < s.queue.len(),
        beside(s.queue[head], out),
        w.way_out(out),
        forall|c: (i32, i32)| #[trigger]
            beside(s.queue[head], c) && w.open_cell(c) && direction(s.queue[head], c) < direction(
                s.queue[head],
                out,
            ) ==> entered_by(s, c, head),
    ensures
        is_first_shortest(w, trail(s, head).push(out)),
{
    let cells = trail(s, head).push(out);
    lemma_trail(w, s, head);
    let before = trail(s, head);
    assert forall|k: int| 0 < k < cells.len() implies is_step(cells[k - 1], #[trigger] cells[k]) && w.open_cell(
        cells[k],
    ) by {
        if k < before.len() {
            assert(cells[k] == before[k] && cells[k - 1] == before[k - 1]);
        }
    }
    lemma_shortest(w, s, head, cells);
    if head == 0 {
        assert(entry_ok(w, s, 0));
        lemma_beside_origin(out);
    }
    assert forall|others: Seq<(i32, i32)>| #[trigger] is_shortest(w, others) implies others == cells || goes_first(
        cells,
        others,
    ) by {
        let last = s.level[head];
        assert(others.len() == cells.len());
        let a = lemma_along_shortest(w, s, head, others, last);
        let exit = others[last + 1];
        assert(is_step(others[last], others[last + 1]) && w.open_cell(others[last + 1]));
        assert(others =~= others.take(last + 1).push(exit));
        assert(beside(s.queue[a], exit));
        if a < head {
            assert(entered_by(s, exit, a));
            lemma_entered_no_exit(w, s, exit, a);
        } else if a > head {
            lemma_trail_order(w, s, head, a);
            if trail(s, a) != others.take(last + 1) {
                lemma_first_chain(before, trail(s, a), others.take(last + 1));
            }
            lemma_first_push(before, others.take(last + 1), out, exit);
        } else {
            let d = direction(s.queue[head], out);
            let e = direction(s.queue[head], exit);
            if e < d {
                assert(entered_by(s, exit, head));
                lemma_entered_no_exit(w, s, exit, head);
            }
            if before != others.take(last + 1) {
                lemma_first_push(before, others.take(last + 1), out, exit);
            } else if e == d {
                assert(exit == out);
            } else {
                assert(s.queue[head] != (0i32, 0i32)) by {
                    if s.queue[head] == (0i32, 0i32) && head > 0 {
                        assert(entry_ok(w, s, 0));
                        assert(s.queue[0] != s.queue[head]);
                    }
                }
                lemma_first_last(before, out, exit);
            }
        }
    }
}

/// The cells beside the origin belong to the seed.
pub(crate) proof fn lemma_beside_origin(c: (i32, i32))
    requires
        beside((0i32, 0i32), c),
    ensures
        is_seed(c),
{
    reveal(is_seed);
    let x = c.0 as int;
    let y = c.1 as int;
    assert(x * x + y * y <= 100) by (nonlinear_arith)
        requires
            -1 <= x <= 1,
            -1 <= y <= 1,
    ;
}

proof fn lemma_entered_no_exit(w: Waters, s: Wave, c: (i32, i32), k: int)
    requires
        wave_ok(w, s),
        entered_by(s, c, k),
    ensures
        !w.way_out(c),
{
    let m = choose|m: int| 0 <= m < s.queue.len() && #[trigger] s.queue[m] == c && s.par[m] <= k;
    assert(entry_ok(w, s, m));
    if m == 0 {
        lemma_origin_is_seed();
    }
}

} // verus!
