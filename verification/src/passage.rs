//! Breadth-first search for the shortest passage through a grid of cells.
use vstd::prelude::*;

use crate::channels::{SEED_RADIUS, SEED_RADIUS_2};

verus! {

/// A grid around the origin: how far it reaches, which cells are water, and which of them
/// are ways out.
pub ghost struct Waters {
    pub half: int,
    pub water: spec_fn((i32, i32)) -> bool,
    pub exits: spec_fn((i32, i32)) -> bool,
}

/// The cell lies so close to the origin that it may be entered whatever it is.
#[verifier::opaque]
pub open spec fn is_seed(c: (i32, i32)) -> bool {
    c.0 * c.0 + c.1 * c.1 <= SEED_RADIUS_2
}

pub(crate) proof fn lemma_origin_is_seed()
    ensures
        is_seed((0i32, 0i32)),
{
    reveal(is_seed);
    assert(0 * 0 + 0 * 0 <= SEED_RADIUS_2) by (nonlinear_arith);
}

impl Waters {
    pub open spec fn in_grid(self, c: (i32, i32)) -> bool {
        -self.half <= c.0 <= self.half && -self.half <= c.1 <= self.half
    }

    /// The cell can be entered.
    pub open spec fn open_cell(self, c: (i32, i32)) -> bool {
        self.in_grid(c) && (is_seed(c) || (self.water)(c))
    }

    /// The cell is a way out.
    pub open spec fn way_out(self, c: (i32, i32)) -> bool {
        self.in_grid(c) && !is_seed(c) && (self.water)(c) && (self.exits)(c)
    }
}

/// The cells touch, at a side or at a corner.
pub open spec fn beside(a: (i32, i32), b: (i32, i32)) -> bool {
    a != b && -1 <= a.0 - b.0 <= 1 && -1 <= a.1 - b.1 <= 1
}

/// A step of a passage: to a cell beside, or from the origin straight through the seed.
pub open spec fn is_step(a: (i32, i32), b: (i32, i32)) -> bool {
    beside(a, b) || (a == (0i32, 0i32) && is_seed(b) && b != (0i32, 0i32))
}

/// A passage: it starts at the origin, and every cell after that can be entered.
pub open spec fn is_passage(w: Waters, cells: Seq<(i32, i32)>) -> bool {
    &&& cells.len() >= 1
    &&& cells[0] == (0i32, 0i32)
    &&& forall|k: int|
        0 < k < cells.len() ==> is_step(cells[k - 1], #[trigger] cells[k]) && w.open_cell(cells[k])
}

/// A passage to a way out that no other is shorter than.
pub open spec fn is_shortest(w: Waters, cells: Seq<(i32, i32)>) -> bool {
    &&& is_passage(w, cells)
    &&& w.way_out(cells.last())
    &&& forall|others: Seq<(i32, i32)>| #[trigger]
        is_passage(w, others) && w.way_out(others.last()) ==> cells.len() <= others.len()
}

/// The number of a cell.
pub open spec fn cell_number(half: int, c: (i32, i32)) -> int {
    (c.1 + half) * (2 * half + 1) + (c.0 + half)
}

pub(crate) proof fn lemma_cell_number(half: int, c: (i32, i32))
    requires
        0 <= half,
        -half <= c.0 <= half,
        -half <= c.1 <= half,
    ensures
        0 <= cell_number(half, c) < (2 * half + 1) * (2 * half + 1),
        cell_number(half, c) % (2 * half + 1) == c.0 + half,
        cell_number(half, c) / (2 * half + 1) == c.1 + half,
{
    let side = 2 * half + 1;
    let q = c.1 + half;
    let r = c.0 + half;
    assert(cell_number(half, c) == side * q + r) by (nonlinear_arith)
        requires
            cell_number(half, c) == q * side + r,
    ;
    vstd::arithmetic::div_mod::lemma_fundamental_div_mod_converse(cell_number(half, c), side, q, r);
    assert(0 <= side * q + r < side * side) by (nonlinear_arith)
        requires
            0 <= q <= side - 1,
            0 <= r < side,
    ;
}

/// What is noted of cells that have no cell before them.
pub const UNSEEN: u32 = 0xffff_ffff;

pub const ORIGIN: u32 = 0xffff_fffe;

pub const BLOCKED: u32 = 0xffff_fffd;

/// The state of the search. `queue` lists the cells entered, `par` the place in the queue of
/// the cell that each was entered from, and `level` how many steps that took.
pub ghost struct Wave {
    pub came: Seq<u32>,
    pub queue: Seq<(i32, i32)>,
    pub par: Seq<int>,
    pub level: Seq<int>,
}

/// What is noted of a cell.
pub open spec fn note(w: Waters, s: Wave, c: (i32, i32)) -> u32 {
    s.came[cell_number(w.half, c)]
}

/// The queue holds `c`, entered from place `k` or before.
pub open spec fn entered_by(s: Wave, c: (i32, i32), k: int) -> bool {
    exists|m: int| 0 <= m < s.queue.len() && #[trigger] s.queue[m] == c && s.par[m] <= k
}

/// The cell in place `k` of the queue was entered properly.
pub open spec fn entry_ok(w: Waters, s: Wave, k: int) -> bool {
    let c = s.queue[k];
    &&& w.open_cell(c)
    &&& if k == 0 {
        c == (0i32, 0i32) && note(w, s, c) == ORIGIN && s.par[0] == 0 && s.level[0] == 0
    } else {
        &&& 0 <= s.par[k] < k
        &&& note(w, s, c) == cell_number(w.half, s.queue[s.par[k]])
        &&& is_step(s.queue[s.par[k]], c)
        &&& s.level[k] == s.level[s.par[k]] + 1
        &&& !w.way_out(c)
    }
}

pub open spec fn wave_ok(w: Waters, s: Wave) -> bool {
    let side = 2 * w.half + 1;
    &&& SEED_RADIUS <= w.half <= 2_800
    &&& s.came.len() == side * side
    &&& s.queue.len() >= 1
    &&& s.par.len() == s.queue.len()
    &&& s.level.len() == s.queue.len()
    &&& forall|k: int| 0 <= k < s.queue.len() ==> #[trigger] entry_ok(w, s, k)
    &&& forall|j: int, k: int|
        0 <= j <= k < s.queue.len() ==> #[trigger] s.level[j] <= #[trigger] s.level[k]
    &&& forall|c: (i32, i32)|
        #![trigger note(w, s, c)]
        w.in_grid(c) ==> {
            ||| note(w, s, c) == UNSEEN
            ||| note(w, s, c) == BLOCKED && !w.open_cell(c)
            ||| s.queue.contains(c)
        }
}

/// All cells of the seed have been entered from the origin.
pub open spec fn seeded(w: Waters, s: Wave) -> bool {
    forall|c: (i32, i32)| #[trigger] is_seed(c) ==> entered_by(s, c, 0)
}

/// The cells beside the first `head` cells of the queue have been dealt with.
pub open spec fn spread(w: Waters, s: Wave, head: int) -> bool {
    forall|k: int, c: (i32, i32)|
        0 <= k < head && #[trigger] beside(s.queue[k], c) && w.open_cell(c) ==> entered_by(s, c, k)
}

/// A cell of a passage that is no longer than the level reached has been entered, in as few
/// steps.
pub(crate) proof fn lemma_within_level(w: Waters, s: Wave, head: int, cells: Seq<(i32, i32)>, i: int)
    requires
        wave_ok(w, s),
        seeded(w, s),
        spread(w, s, head),
        0 <= head <= s.queue.len(),
        is_passage(w, cells),
        0 <= i < cells.len(),
        head < s.queue.len() ==> i <= s.level[head],
    ensures
        exists|m: int|
            0 <= m < s.queue.len() && #[trigger] s.queue[m] == cells[i] && s.level[m] <= i,
    decreases i,
{
    if i == 0 {
        assert(entry_ok(w, s, 0));
        assert(s.queue[0] == cells[0]);
    } else {
        lemma_within_level(w, s, head, cells, i - 1);
        let a = cells[i - 1];
        let c = cells[i];
        assert(is_step(cells[i - 1], cells[i]) && w.open_cell(cells[i]));
        let q = choose|m: int| 0 <= m < s.queue.len() && #[trigger] s.queue[m] == a && s.level[m] <= i - 1;
        if is_seed(c) {
            lemma_entered_level(w, s, c, 0);
            assert(entry_ok(w, s, 0));
        } else {
            assert(beside(a, c));
            if q >= head {
                assert(s.level[head] <= s.level[q]);
            }
            assert(beside(s.queue[q], c));
            lemma_entered_level(w, s, c, q);
        }
    }
}

/// A cell that was entered from place `k` or before took at most one step more.
proof fn lemma_entered_level(w: Waters, s: Wave, c: (i32, i32), k: int)
    requires
        wave_ok(w, s),
        0 <= k < s.queue.len(),
        entered_by(s, c, k),
    ensures
        exists|m: int|
            0 <= m < s.queue.len() && #[trigger] s.queue[m] == c && s.level[m] <= s.level[k] + 1,
{
    let m = choose|m: int| 0 <= m < s.queue.len() && #[trigger] s.queue[m] == c && s.par[m] <= k;
    assert(entry_ok(w, s, m));
    if m > 0 {
        assert(s.level[s.par[m]] <= s.level[k]);
    } else {
        assert(s.level[0] <= s.level[k]);
    }
}

/// When all cells entered have been dealt with, no passage leads to a way out.
pub(crate) proof fn lemma_no_passage(w: Waters, s: Wave)
    requires
        wave_ok(w, s),
        seeded(w, s),
        spread(w, s, s.queue.len() as int),
    ensures
        forall|cells: Seq<(i32, i32)>| #[trigger] is_passage(w, cells) ==> !w.way_out(cells.last()),
{
    assert forall|cells: Seq<(i32, i32)>| #[trigger] is_passage(w, cells) implies !w.way_out(cells.last()) by {
        lemma_within_level(w, s, s.queue.len() as int, cells, cells.len() - 1);
        let m = choose|m: int|
            0 <= m < s.queue.len() && #[trigger] s.queue[m] == cells[cells.len() - 1] && s.level[m]
                <= cells.len() - 1;
        assert(entry_ok(w, s, m));
        if m == 0 {
            lemma_origin_is_seed();
        }
    }
}

/// A way out found from the cell at `head` is reached by no shorter passage.
pub(crate) proof fn lemma_shortest(w: Waters, s: Wave, head: int, cells: Seq<(i32, i32)>)
    requires
        wave_ok(w, s),
        seeded(w, s),
        spread(w, s, head),
        0 <= head < s.queue.len(),
        is_passage(w, cells),
        w.way_out(cells.last()),
        cells.len() == s.level[head] + 2,
    ensures
        is_shortest(w, cells),
{
    assert forall|others: Seq<(i32, i32)>| #[trigger]
        is_passage(w, others) && w.way_out(others.last()) implies cells.len() <= others.len() by {
        if others.len() < cells.len() {
            lemma_within_level(w, s, head, others, others.len() - 1);
            let m = choose|m: int|
                0 <= m < s.queue.len() && #[trigger] s.queue[m] == others[others.len() - 1] && s.level[m]
                    <= others.len() - 1;
            assert(entry_ok(w, s, m));
            if m == 0 {
                lemma_origin_is_seed();
            }
        }
    }
}

/// Entering a cell that was not seen yet.
pub(crate) proof fn lemma_enter(w: Waters, s: Wave, from: int, c: (i32, i32), t: Wave)
    requires
        wave_ok(w, s),
        0 <= from < s.queue.len(),
        w.open_cell(c),
        !w.way_out(c),
        note(w, s, c) == UNSEEN,
        is_step(s.queue[from], c),
        s.level.last() <= s.level[from] + 1,
        t == (Wave {
            came: s.came.update(
                cell_number(w.half, c),
                cell_number(w.half, s.queue[from]) as u32,
            ),
            queue: s.queue.push(c),
            par: s.par.push(from),
            level: s.level.push(s.level[from] + 1),
        }),
    ensures
        wave_ok(w, t),
        entered_by(t, c, from),
        forall|o: (i32, i32), k: int| #[trigger] entered_by(s, o, k) ==> entered_by(t, o, k),
{
    let half = w.half;
    lemma_cell_number(half, c);
    assert(entry_ok(w, s, from));
    lemma_cell_number(half, s.queue[from]);
    lemma_grid_size(half);
    assert forall|o: (i32, i32)| w.in_grid(o) && o != c implies #[trigger] note(w, t, o) == note(w, s, o) by {
        lemma_cell_number(half, o);
        if cell_number(half, o) == cell_number(half, c) {
            assert(o.0 == c.0 && o.1 == c.1);
        }
    }
    assert forall|k: int| 0 <= k < t.queue.len() implies #[trigger] entry_ok(w, t, k) by {
        if k < s.queue.len() {
            assert(entry_ok(w, s, k));
            let o = s.queue[k];
            assert(t.queue[k] == o);
            if o == c {
                lemma_not_special(w, s, k);
            }
            assert(note(w, t, o) == note(w, s, o));
            if k > 0 {
                assert(t.queue[t.par[k]] == s.queue[s.par[k]]);
            }
        } else {
            assert(t.queue[k] == c);
            assert(t.queue[from] == s.queue[from]);
        }
    }
    assert forall|j: int, k: int| 0 <= j <= k < t.queue.len() implies #[trigger] t.level[j]
        <= #[trigger] t.level[k] by {
        if k == s.queue.len() && j < k {
            assert(s.level[j] <= s.level[s.queue.len() - 1]);
            assert(entry_ok(w, s, from));
            assert(s.level.last() <= s.level[from] + 1);
        }
    }
    assert forall|o: (i32, i32)|
        #![trigger note(w, t, o)]
        w.in_grid(o) implies {
        ||| note(w, t, o) == UNSEEN
        ||| note(w, t, o) == BLOCKED && !w.open_cell(o)
        ||| t.queue.contains(o)
    } by {
        if o == c {
            assert(t.queue[s.queue.len() as int] == c);
        } else {
            assert(note(w, t, o) == note(w, s, o));
            if s.queue.contains(o) {
                let m = choose|m: int| 0 <= m < s.queue.len() && s.queue[m] == o;
                assert(t.queue[m] == o);
            }
        }
    }
    assert(t.queue[s.queue.len() as int] == c);
    assert forall|o: (i32, i32), k: int| #[trigger] entered_by(s, o, k) implies entered_by(t, o, k) by {
        let m = choose|m: int| 0 <= m < s.queue.len() && #[trigger] s.queue[m] == o && s.par[m] <= k;
        assert(t.queue[m] == o);
    }
}

pub(crate) proof fn lemma_grid_size(half: int)
    by (nonlinear_arith)
    requires
        0 <= half <= 2_800,
    ensures
        (2 * half + 1) * (2 * half + 1) <= 31_371_201,
{
}

/// A cell in the queue is not unseen.
pub(crate) proof fn lemma_not_special(w: Waters, s: Wave, k: int)
    requires
        wave_ok(w, s),
        0 <= k < s.queue.len(),
    ensures
        note(w, s, s.queue[k]) != UNSEEN,
        note(w, s, s.queue[k]) != BLOCKED,
        k > 0 ==> note(w, s, s.queue[k]) != ORIGIN,
{
    assert(entry_ok(w, s, k));
    if k > 0 {
        assert(entry_ok(w, s, s.par[k]));
        lemma_cell_number(w.half, s.queue[s.par[k]]);
        lemma_grid_size(w.half);
    }
}

/// Noting a cell that cannot be entered.
pub(crate) proof fn lemma_block(w: Waters, s: Wave, c: (i32, i32), t: Wave)
    requires
        wave_ok(w, s),
        w.in_grid(c),
        !w.open_cell(c),
        note(w, s, c) == UNSEEN,
        t == (Wave { came: s.came.update(cell_number(w.half, c), BLOCKED), ..s }),
    ensures
        wave_ok(w, t),
        forall|o: (i32, i32), k: int| #[trigger] entered_by(s, o, k) ==> entered_by(t, o, k),
{
    let half = w.half;
    lemma_cell_number(half, c);
    assert forall|o: (i32, i32)| w.in_grid(o) && o != c implies #[trigger] note(w, t, o) == note(w, s, o) by {
        lemma_cell_number(half, o);
        if cell_number(half, o) == cell_number(half, c) {
            assert(o.0 == c.0 && o.1 == c.1);
        }
    }
    assert forall|k: int| 0 <= k < t.queue.len() implies #[trigger] entry_ok(w, t, k) by {
        assert(entry_ok(w, s, k));
        assert(s.queue[k] != c);
        assert(note(w, t, s.queue[k]) == note(w, s, s.queue[k]));
    }
    assert forall|o: (i32, i32)|
        #![trigger note(w, t, o)]
        w.in_grid(o) implies {
        ||| note(w, t, o) == UNSEEN
        ||| note(w, t, o) == BLOCKED && !w.open_cell(o)
        ||| t.queue.contains(o)
    } by {
        if o != c {
            assert(note(w, t, o) == note(w, s, o));
        }
    }
    assert forall|o: (i32, i32), k: int| #[trigger] entered_by(s, o, k) implies entered_by(t, o, k) by {
        let m = choose|m: int| 0 <= m < s.queue.len() && #[trigger] s.queue[m] == o && s.par[m] <= k;
        assert(t.queue[m] == o);
    }
}

/// A passage leads from the port over cells that touch, at a side or at a corner, each of which lies in
/// the grid and is water, or lies within ten steps of the port, where a passage may go straight to any
/// cell.
pub proof fn lemma_what_a_passage_is(w: Waters, cells: Seq<(i32, i32)>)
    requires
        cells.len() >= 1,
        cells[0].0 == 0,
        cells[0].1 == 0,
    ensures
        is_passage(w, cells) <==> forall|k: int|
            0 < k < cells.len() ==> {
                let a = cells[k - 1];
                let b = #[trigger] cells[k];
                &&& a.0 != b.0 || a.1 != b.1
                &&& {
                    ||| -1 <= a.0 - b.0 <= 1 && -1 <= a.1 - b.1 <= 1
                    ||| a.0 == 0 && a.1 == 0 && b.0 * b.0 + b.1 * b.1 <= 100
                }
                &&& -w.half <= b.0 <= w.half
                &&& -w.half <= b.1 <= w.half
                &&& b.0 * b.0 + b.1 * b.1 <= 100 || (w.water)(b)
            },
{
    reveal(is_seed);
}

/// A way out lies in the grid, further than ten steps from the port, in water, and is an exit.
pub proof fn lemma_what_a_way_out_is(w: Waters, c: (i32, i32))
    ensures
        w.way_out(c) <==> {
            &&& -w.half <= c.0 <= w.half
            &&& -w.half <= c.1 <= w.half
            &&& c.0 * c.0 + c.1 * c.1 > 100
            &&& (w.water)(c)
            &&& (w.exits)(c)
        },
{
    reveal(is_seed);
}

} // verus!
