//! The land raster: a bitmap of the globe filled ring by ring with the even-odd rule.
use rayon::iter::{IntoParallelRefIterator, ParallelIterator};
use vstd::prelude::*;

use crate::geo::{floor_div, spec_max, spec_min, Point, HALF_TURN, QUARTER_TURN, WORLD};
use crate::heap::{ascending, sort_ascending};

verus! {

/// Side of a raster cell: 0.02 degrees.
pub const RASTER_CELL: i64 = 25_600_000;

pub const RASTER_COLS: usize = 18_000;

pub const RASTER_ROWS: usize = 9_000;

/// Words of 64 cells in the raster.
pub const RASTER_WORDS: usize = 2_531_250;

/// A closed ring of coordinates; the last point is joined to the first.
pub type Ring = Vec<Point>;

/// The coordinates of each ring.
pub open spec fn ring_views(rings: Seq<Ring>) -> Seq<Seq<Point>> {
    rings.map_values(|r: Ring| r@)
}

/// All points of the ring are on the map.
pub open spec fn on_map(ring: Seq<Point>) -> bool {
    forall|i: int| 0 <= i < ring.len() ==> (#[trigger] ring[i]).within(WORLD as int)
}

/// Bit `idx` of a bitmap held in words of 64 bits, lowest bit first.
pub open spec fn bit(words: Seq<u64>, idx: int) -> bool {
    (words[idx / 64] >> ((idx % 64) as u64)) & 1u64 == 1u64
}

/// Position of a cell's bit.
pub open spec fn cell_bit(row: int, col: int) -> int {
    row * RASTER_COLS + col
}

/// Latitude of the middle of a row of cells.
pub open spec fn row_lat(row: int) -> int {
    -QUARTER_TURN + row * RASTER_CELL + RASTER_CELL / 2
}

/// The edge from `a` to `b` crosses the parallel `lat`; its upper end does not count.
pub open spec fn crosses(a: Point, b: Point, lat: int) -> bool {
    a.lat <= lat < b.lat || b.lat <= lat < a.lat
}

/// Column in which the edge from `a` to `b` crosses the parallel `lat`, the columns
/// left of the map counted as the first and those right of it as `RASTER_COLS`.
pub open spec fn crossing_col(a: Point, b: Point, lat: int) -> i64 {
    let rise = b.lat - a.lat;
    let over = (a.lon + HALF_TURN) * rise + (lat - a.lat) * (b.lon - a.lon);
    let col = if rise > 0 {
        over / (rise * RASTER_CELL)
    } else {
        (-over) / ((-rise) * RASTER_CELL)
    };
    spec_min(spec_max(col, 0), RASTER_COLS as int) as i64
}

/// The columns in which the first `n` edges of a ring cross a parallel.
pub open spec fn crossings(ring: Seq<Point>, lat: int, n: int) -> Seq<i64>
    decreases n,
{
    if n <= 0 {
        Seq::empty()
    } else {
        let a = ring[n - 1];
        let b = ring[n % ring.len() as int];
        let before = crossings(ring, lat, n - 1);
        if crosses(a, b, lat) {
            before.push(crossing_col(a, b, lat))
        } else {
            before
        }
    }
}

/// The number of the first `k` pairs of `cols` that column `col` lies between is odd.
pub open spec fn between_pairs(cols: Seq<i64>, col: int, k: int) -> bool
    decreases k,
{
    if k <= 0 {
        false
    } else {
        between_pairs(cols, col, k - 1) != (cols[2 * k - 2] <= col <= cols[2 * k - 1])
    }
}

/// The even-odd fill of one ring reaches the cell: its crossings of the row, taken in
/// ascending order, are paired, and the cell lies in an odd number of pairs.
pub open spec fn ring_fills(ring: Seq<Point>, row: int, col: int) -> bool {
    let cols = ascending(crossings(ring, row_lat(row), ring.len() as int));
    between_pairs(cols, col, cols.len() as int / 2)
}

/// An odd number of the rings fill the cell.
pub open spec fn rings_fill(rings: Seq<Seq<Point>>, row: int, col: int) -> bool
    decreases rings.len(),
{
    if rings.len() == 0 {
        false
    } else {
        rings_fill(rings.drop_last(), row, col) != ring_fills(rings.last(), row, col)
    }
}

/// A ring that is drawn a second time takes away what it filled, as a hole does where it
/// lies within a ring.
pub proof fn lemma_ring_cancels(rings: Seq<Seq<Point>>, ring: Seq<Point>, row: int, col: int)
    ensures
        rings_fill(rings.push(ring), row, col) == (rings_fill(rings, row, col) != ring_fills(ring, row, col)),
        rings_fill(rings.push(ring).push(ring), row, col) == rings_fill(rings, row, col),
{
    assert(rings.push(ring).drop_last() =~= rings);
    assert(rings.push(ring).push(ring).drop_last() =~= rings.push(ring));
}

/// Cells `start` up to but not including `end` of a row.
#[derive(Clone, Copy, PartialEq, Eq, Structural, Debug)]
pub struct Span {
    pub row: u32,
    pub start: u32,
    pub end: u32,
}

impl Span {
    pub open spec fn on_raster(self) -> bool {
        self.row < RASTER_ROWS && self.start <= self.end <= RASTER_COLS
    }

    pub open spec fn covers(self, row: int, col: int) -> bool {
        self.row == row && self.start <= col < self.end
    }
}

/// An odd number of the spans cover the cell.
pub open spec fn spans_cover(spans: Seq<Span>, row: int, col: int) -> bool
    decreases spans.len(),
{
    if spans.len() == 0 {
        false
    } else {
        spans_cover(spans.drop_last(), row, col) != spans.last().covers(row, col)
    }
}

/// The spans are the fill of the ring.
pub open spec fn spans_of(ring: Seq<Point>, spans: Seq<Span>) -> bool {
    &&& forall|i: int| 0 <= i < spans.len() ==> (#[trigger] spans[i]).on_raster()
    &&& forall|row: int, col: int|
        0 <= row < RASTER_ROWS && 0 <= col < RASTER_COLS ==> #[trigger] spans_cover(spans, row, col)
            == ring_fills(ring, row, col)
}

// ---- Bits -------------------------------------------------------------------------

proof fn lemma_toggle_bit(w: u64, s: u64, t: u64)
    by (bit_vector)
    requires
        s < 64,
        t < 64,
    ensures
        s == t ==> (((w ^ (1u64 << s)) >> t) & 1u64 == 1u64) == !((w >> t) & 1u64 == 1u64),
        s != t ==> ((w ^ (1u64 << s)) >> t) & 1u64 == (w >> t) & 1u64,
{
}

proof fn lemma_clear_bit(w: u64, s: u64, t: u64)
    by (bit_vector)
    requires
        s < 64,
        t < 64,
    ensures
        s == t ==> ((w & !(1u64 << s)) >> t) & 1u64 == 0u64,
        s != t ==> ((w & !(1u64 << s)) >> t) & 1u64 == (w >> t) & 1u64,
{
}

/// Bit `idx` of the bitmap.
pub fn get_bit(words: &Vec<u64>, idx: usize) -> (r: bool)
    requires
        idx / 64 < words.len(),
    ensures
        r == bit(words@, idx as int),
{
    (words[idx / 64] >> ((idx % 64) as u64)) & 1u64 == 1u64
}

/// Flips one bit.
pub fn toggle_bit(words: &mut Vec<u64>, idx: usize)
    requires
        idx / 64 < old(words).len(),
    ensures
        final(words).len() == old(words).len(),
        forall|j: int|
            0 <= j < 64 * old(words).len() ==> #[trigger] bit(final(words)@, j) == (bit(
                old(words)@,
                j,
            ) != (j == idx)),
{
    let w = words[idx / 64];
    let s: u64 = (idx % 64) as u64;
    let ghost before = words@;
    words.set(idx / 64, w ^ (1u64 << s));
    proof {
        assert forall|j: int| 0 <= j < 64 * before.len() implies #[trigger] bit(words@, j) == (bit(
            before,
            j,
        ) != (j == idx)) by {
            if j / 64 == idx as int / 64 {
                lemma_toggle_bit(w, s, (j % 64) as u64);
            }
        }
    }
}

/// Clears one bit.
pub fn clear_bit(words: &mut Vec<u64>, idx: usize)
    requires
        idx / 64 < old(words).len(),
    ensures
        final(words).len() == old(words).len(),
        forall|j: int|
            0 <= j < 64 * old(words).len() ==> #[trigger] bit(final(words)@, j) == (bit(
                old(words)@,
                j,
            ) && j != idx),
{
    let w = words[idx / 64];
    let s: u64 = (idx % 64) as u64;
    let ghost before = words@;
    words.set(idx / 64, w & !(1u64 << s));
    proof {
        assert forall|j: int| 0 <= j < 64 * before.len() implies #[trigger] bit(words@, j) == (bit(
            before,
            j,
        ) && j != idx) by {
            if j / 64 == idx as int / 64 {
                lemma_clear_bit(w, s, (j % 64) as u64);
            }
        }
    }
}

// ---- Scanline fill ----------------------------------------------------------------

fn exec_crossing_col(a: Point, b: Point, lat: i64) -> (r: i64)
    requires
        a.within(WORLD as int),
        b.within(WORLD as int),
        crosses(a, b, lat as int),
    ensures
        r == crossing_col(a, b, lat as int),
        0 <= r <= RASTER_COLS,
{
    let rise: i128 = (b.lat - a.lat) as i128;
    let x: i128 = (a.lon + HALF_TURN) as i128;
    let dy: i128 = (lat - a.lat) as i128;
    let dx: i128 = (b.lon - a.lon) as i128;
    proof {
        lemma_small_product(x as int, rise as int);
        lemma_small_product(dy as int, dx as int);
        lemma_small_product(rise as int, RASTER_CELL as int);
        assert((-rise) * RASTER_CELL == -(rise * RASTER_CELL)) by (nonlinear_arith);
    }
    let over: i128 = x * rise + dy * dx;
    let col: i128 = if rise > 0 {
        assert(rise * RASTER_CELL > 0) by (nonlinear_arith)
            requires
                rise > 0,
        ;
        floor_div(over, rise * (RASTER_CELL as i128))
    } else {
        assert((-rise) * RASTER_CELL > 0) by (nonlinear_arith)
            requires
                rise < 0,
        ;
        floor_div(-over, (-rise) * (RASTER_CELL as i128))
    };
    if col < 0 {
        0
    } else if col > RASTER_COLS as i128 {
        RASTER_COLS as i64
    } else {
        col as i64
    }
}

proof fn lemma_small_product(a: int, b: int)
    by (nonlinear_arith)
    requires
        -0x400_0000_0000 <= a <= 0x400_0000_0000,
        -0x400_0000_0000 <= b <= 0x400_0000_0000,
    ensures
        -0x10_0000_0000_0000_0000_0000 <= a * b <= 0x10_0000_0000_0000_0000_0000,
{
}

fn ring_crossings(ring: &Ring, lat: i64) -> (cols: Vec<i64>)
    requires
        on_map(ring@),
        -WORLD <= lat <= WORLD,
    ensures
        cols@ == crossings(ring@, lat as int, ring.len() as int),
        forall|i: int| 0 <= i < cols.len() ==> 0 <= (#[trigger] cols[i]) <= RASTER_COLS,
{
    let n = ring.len();
    let mut cols: Vec<i64> = Vec::new();
    let mut i: usize = 0;
    while i < n
        invariant
            n == ring.len(),
            i <= n,
            on_map(ring@),
            -WORLD <= lat <= WORLD,
            cols@ == crossings(ring@, lat as int, i as int),
            forall|k: int| 0 <= k < cols.len() ==> 0 <= (#[trigger] cols[k]) <= RASTER_COLS,
        decreases n - i,
    {
        let a = ring[i];
        let j: usize = if i + 1 < n {
            i + 1
        } else {
            0
        };
        let b = ring[j];
        proof {
            assert(ring@[i as int].within(WORLD as int));
            assert(ring@[j as int].within(WORLD as int));
            if i + 1 < n {
                vstd::arithmetic::div_mod::lemma_small_mod((i + 1) as nat, n as nat);
            } else {
                vstd::arithmetic::div_mod::lemma_mod_self_0(n as int);
            }
            assert(j == (i + 1) % (n as int));
        }
        if (a.lat <= lat && lat < b.lat) || (b.lat <= lat && lat < a.lat) {
            cols.push(exec_crossing_col(a, b, lat));
        }
        i = i + 1;
    }
    cols
}

proof fn lemma_spans_push(spans: Seq<Span>, s: Span, row: int, col: int)
    ensures
        spans_cover(spans.push(s), row, col) == (spans_cover(spans, row, col) != s.covers(row, col)),
{
    assert(spans.push(s).drop_last() =~= spans);
}

/// A ring crosses no parallel that all its points lie on one side of.
proof fn lemma_no_crossing(ring: Seq<Point>, lat: int, n: int)
    requires
        0 <= n <= ring.len(),
        (forall|i: int| 0 <= i < ring.len() ==> (#[trigger] ring[i]).lat > lat) || (forall|i: int|
            0 <= i < ring.len() ==> (#[trigger] ring[i]).lat < lat),
    ensures
        crossings(ring, lat, n) == Seq::<i64>::empty(),
    decreases n,
{
    if n > 0 {
        lemma_no_crossing(ring, lat, n - 1);
        vstd::arithmetic::div_mod::lemma_mod_bound(n, ring.len() as int);
        let a = ring[n - 1];
        let b = ring[n % ring.len() as int];
    }
}

proof fn lemma_empty_row(ring: Seq<Point>, row: int, col: int)
    requires
        crossings(ring, row_lat(row), ring.len() as int) == Seq::<i64>::empty(),
    ensures
        !ring_fills(ring, row, col),
{
    let leq = |a: i64, b: i64| a <= b;
    Seq::<i64>::empty().lemma_sort_by_ensures(leq);
    vstd::seq_lib::to_multiset_len(Seq::<i64>::empty());
    vstd::seq_lib::to_multiset_len(ascending(Seq::<i64>::empty()));
}

proof fn lemma_ascending_same(s: Seq<i64>)
    ensures
        ascending(s).len() == s.len(),
        forall|i: int| 0 <= i < s.len() ==> s.contains(#[trigger] ascending(s)[i]),
        forall|i: int, j: int| 0 <= i <= j < s.len() ==> ascending(s)[i] <= ascending(s)[j],
{
    broadcast use vstd::seq_lib::group_to_multiset_ensures;
    let leq = |a: i64, b: i64| a <= b;
    s.lemma_sort_by_ensures(leq);
    let t = ascending(s);
    vstd::seq_lib::to_multiset_len(s);
    vstd::seq_lib::to_multiset_len(t);
    assert forall|i: int| 0 <= i < s.len() implies s.contains(#[trigger] t[i]) by {
        assert(t.contains(t[i]));
        assert(s.to_multiset().count(t[i]) > 0);
    }
    assert forall|i: int, j: int| 0 <= i <= j < s.len() implies t[i] <= t[j] by {
        if i < j {
            assert(vstd::relations::sorted_by(t, leq));
            assert(leq(t[i], t[j]));
        }
    }
}

/// The spans of one row of a ring's fill, added to `spans`.
fn push_row_spans(spans: &mut Vec<Span>, cols: &Vec<i64>, row: usize)
    requires
        row < RASTER_ROWS,
        forall|i: int| 0 <= i < cols.len() ==> 0 <= (#[trigger] cols[i]) <= RASTER_COLS,
        forall|i: int, j: int| 0 <= i <= j < cols.len() ==> cols[i] <= cols[j],
        forall|i: int| 0 <= i < old(spans).len() ==> (#[trigger] old(spans)@[i]).on_raster(),
    ensures
        forall|i: int| 0 <= i < final(spans).len() ==> (#[trigger] final(spans)@[i]).on_raster(),
        forall|r: int, c: int|
            0 <= c < RASTER_COLS ==> #[trigger] spans_cover(final(spans)@, r, c) == (spans_cover(
                old(spans)@,
                r,
                c,
            ) != (r == row && between_pairs(cols@, c, cols.len() as int / 2))),
{
    let pairs = cols.len() / 2;
    let ghost before = spans@;
    let mut k: usize = 0;
    while k < pairs
        invariant
            row < RASTER_ROWS,
            pairs == cols.len() / 2,
            k <= pairs,
            forall|i: int| 0 <= i < cols.len() ==> 0 <= (#[trigger] cols[i]) <= RASTER_COLS,
            forall|i: int, j: int| 0 <= i <= j < cols.len() ==> cols[i] <= cols[j],
            forall|i: int| 0 <= i < spans.len() ==> (#[trigger] spans@[i]).on_raster(),
            forall|r: int, c: int|
                0 <= c < RASTER_COLS ==> #[trigger] spans_cover(spans@, r, c) == (spans_cover(
                    before,
                    r,
                    c,
                ) != (r == row && between_pairs(cols@, c, k as int))),
        decreases pairs - k,
    {
        let start = cols[2 * k];
        let last = cols[2 * k + 1];
        assert(cols[2 * k as int] <= cols[2 * k + 1]);
        let end: i64 = if last + 1 < RASTER_COLS as i64 {
            last + 1
        } else {
            RASTER_COLS as i64
        };
        let s = Span { row: row as u32, start: start as u32, end: end as u32 };
        let ghost now = spans@;
        spans.push(s);
        k = k + 1;
        proof {
            assert forall|r: int, c: int| 0 <= c < RASTER_COLS implies #[trigger] spans_cover(
                spans@,
                r,
                c,
            ) == (spans_cover(before, r, c) != (r == row && between_pairs(cols@, c, k as int))) by {
                lemma_spans_push(now, s, r, c);
                assert(spans_cover(now, r, c) == (spans_cover(before, r, c) != (r == row
                    && between_pairs(cols@, c, k - 1))));
                assert(s.covers(r, c) == (r == row && cols@[2 * k - 2] <= c <= cols@[2 * k - 1]));
            }
        }
    }
}

/// The fill of one ring, row by row.
pub fn ring_spans(ring: &Ring) -> (spans: Vec<Span>)
    requires
        on_map(ring@),
    ensures
        spans_of(ring@, spans@),
{
    let mut spans: Vec<Span> = Vec::new();
    let n = ring.len();
    if n == 0 {
        proof {
            assert forall|row: int, col: int| 0 <= row < RASTER_ROWS && 0 <= col < RASTER_COLS implies
            #[trigger] spans_cover(spans@, row, col) == ring_fills(ring@, row, col) by {
                lemma_empty_row(ring@, row, col);
            }
        }
        return spans;
    }
    let mut min_lat: i64 = ring[0].lat;
    let mut max_lat: i64 = ring[0].lat;
    let mut i: usize = 1;
    assert(ring@[0].within(WORLD as int));
    while i < n
        invariant
            n == ring.len(),
            1 <= i <= n,
            on_map(ring@),
            -WORLD <= min_lat <= max_lat <= WORLD,
            forall|k: int| 0 <= k < i ==> min_lat <= (#[trigger] ring@[k]).lat <= max_lat,
        decreases n - i,
    {
        let lat = ring[i].lat;
        assert(ring@[i as int].within(WORLD as int));
        if lat < min_lat {
            min_lat = lat;
        }
        if lat > max_lat {
            max_lat = lat;
        }
        i = i + 1;
    }
    let low = row_of(min_lat) as usize;
    let row_start: usize = if low > 0 {
        low - 1
    } else {
        0
    };
    let high = row_of(max_lat) as usize;
    let row_end: usize = if high + 2 < RASTER_ROWS {
        high + 2
    } else {
        RASTER_ROWS
    };
    let mut row: usize = row_start;
    proof {
        assert forall|r: int, col: int| 0 <= r < RASTER_ROWS && r < row_start && 0 <= col < RASTER_COLS implies
        #[trigger] spans_cover(spans@, r, col) == ring_fills(ring@, r, col) by {
            assert(row_lat(r) < min_lat);
            lemma_no_crossing(ring@, row_lat(r), n as int);
            lemma_empty_row(ring@, r, col);
        }
    }
    while row < row_end
        invariant
            n == ring.len(),
            on_map(ring@),
            row_end <= RASTER_ROWS,
            row_start <= row,
            row <= row_end || row == row_start,
            forall|k: int| 0 <= k < spans.len() ==> (#[trigger] spans@[k]).on_raster(),
            forall|r: int, col: int|
                0 <= r < RASTER_ROWS && r < row && 0 <= col < RASTER_COLS ==> #[trigger] spans_cover(
                    spans@,
                    r,
                    col,
                ) == ring_fills(ring@, r, col),
            forall|r: int, col: int|
                row <= r && 0 <= col < RASTER_COLS ==> !(#[trigger] spans_cover(spans@, r, col)),
        decreases row_end - row,
    {
        let lat: i64 = (row as i64) * RASTER_CELL + RASTER_CELL / 2 - QUARTER_TURN;
        let found = ring_crossings(ring, lat);
        let cols = sort_ascending(&found);
        proof {
            lemma_ascending_same(found@);
            assert forall|k: int| 0 <= k < cols.len() implies 0 <= (#[trigger] cols[k]) <= RASTER_COLS by {
                assert(found@.contains(ascending(found@)[k]));
            }
        }
        let ghost before = spans@;
        push_row_spans(&mut spans, &cols, row);
        proof {
            assert forall|r: int, col: int|
                0 <= r < RASTER_ROWS && r < row + 1 && 0 <= col < RASTER_COLS implies #[trigger] spans_cover(
                spans@, r, col) == ring_fills(ring@, r, col) by {
                assert(spans_cover(before, r, col) == (r < row && ring_fills(ring@, r, col)));
                assert(lat == row_lat(row as int));
            }
            assert forall|r: int, col: int| row + 1 <= r && 0 <= col < RASTER_COLS implies !(
            #[trigger] spans_cover(spans@, r, col)) by {
                assert(!spans_cover(before, r, col));
            }
        }
        row = row + 1;
    }
    proof {
        assert forall|r: int, col: int| 0 <= r < RASTER_ROWS && 0 <= col < RASTER_COLS implies
        #[trigger] spans_cover(spans@, r, col) == ring_fills(ring@, r, col) by {
            if r >= row {
                assert(row_lat(r) > max_lat);
                lemma_no_crossing(ring@, row_lat(r), n as int);
                lemma_empty_row(ring@, r, col);
            }
        }
    }
    spans
}

/// Row of the raster that a latitude falls in, the rows below the map counted as the
/// first one.
pub open spec fn lat_row(lat: int) -> int {
    if lat + QUARTER_TURN < 0 {
        0
    } else {
        (lat + QUARTER_TURN) / RASTER_CELL as int
    }
}

pub fn row_of(lat: i64) -> (row: u64)
    requires
        lat <= i64::MAX - QUARTER_TURN,
    ensures
        row == lat_row(lat as int),
{
    let y: i64 = lat + QUARTER_TURN;
    if y < 0 {
        0
    } else {
        (y / RASTER_CELL) as u64
    }
}

/// `rayon`'s `par_iter`, `map` and `collect`: the fill of each ring, computed on all
/// cores, in the order of the rings.
#[verifier::external_body]
fn all_ring_spans(rings: &Vec<Ring>) -> (spans: Vec<Vec<Span>>)
    requires
        forall|i: int| 0 <= i < rings.len() ==> on_map((#[trigger] rings[i])@),
    ensures
        spans.len() == rings.len(),
        forall|i: int| 0 <= i < rings.len() ==> spans_of((#[trigger] rings[i])@, spans[i]@),
{
    rings.par_iter().map(|ring| ring_spans(ring)).collect()
}

/// Flips every cell that the spans cover.
fn toggle_spans(words: &mut Vec<u64>, spans: &Vec<Span>)
    requires
        old(words).len() == RASTER_WORDS,
        forall|i: int| 0 <= i < spans.len() ==> (#[trigger] spans[i]).on_raster(),
    ensures
        final(words).len() == RASTER_WORDS,
        forall|row: int, col: int|
            0 <= row < RASTER_ROWS && 0 <= col < RASTER_COLS ==> #[trigger] bit(
                final(words)@,
                cell_bit(row, col),
            ) == (bit(old(words)@, cell_bit(row, col)) != spans_cover(spans@, row, col)),
{
    let ghost before = words@;
    let mut i: usize = 0;
    assert(spans@.take(0) =~= Seq::<Span>::empty());
    while i < spans.len()
        invariant
            i <= spans.len(),
            words.len() == RASTER_WORDS,
            forall|k: int| 0 <= k < spans.len() ==> (#[trigger] spans[k]).on_raster(),
            forall|row: int, col: int|
                0 <= row < RASTER_ROWS && 0 <= col < RASTER_COLS ==> #[trigger] bit(
                    words@,
                    cell_bit(row, col),
                ) == (bit(before, cell_bit(row, col)) != spans_cover(spans@.take(i as int), row, col)),
        decreases spans.len() - i,
    {
        let s = spans[i];
        let ghost outer = words@;
        let mut col: u32 = s.start;
        while col < s.end
            invariant
                s.on_raster(),
                s.start <= col <= s.end,
                words.len() == RASTER_WORDS,
                forall|r: int, c: int|
                    0 <= r < RASTER_ROWS && 0 <= c < RASTER_COLS ==> #[trigger] bit(
                        words@,
                        cell_bit(r, c),
                    ) == (bit(outer, cell_bit(r, c)) != (r == s.row && s.start <= c < col)),
            decreases s.end - col,
        {
            let ghost inner = words@;
            let idx: usize = (s.row as usize) * RASTER_COLS + (col as usize);
            toggle_bit(words, idx);
            proof {
                assert forall|r: int, c: int| 0 <= r < RASTER_ROWS && 0 <= c < RASTER_COLS implies
                #[trigger] bit(words@, cell_bit(r, c)) == (bit(outer, cell_bit(r, c)) != (r == s.row
                    && s.start <= c < col + 1)) by {
                    assert(bit(inner, cell_bit(r, c)) == (bit(outer, cell_bit(r, c)) != (r == s.row
                        && s.start <= c < col)));
                    assert(cell_bit(r, c) == idx <==> r == s.row && c == col);
                }
            }
            col = col + 1;
        }
        proof {
            assert(spans@.take(i + 1) =~= spans@.take(i as int).push(s));
            assert forall|r: int, c: int| 0 <= r < RASTER_ROWS && 0 <= c < RASTER_COLS implies
            #[trigger] bit(words@, cell_bit(r, c)) == (bit(before, cell_bit(r, c)) != spans_cover(
                spans@.take(i + 1), r, c)) by {
                lemma_spans_push(spans@.take(i as int), s, r, c);
                assert(bit(outer, cell_bit(r, c)) == (bit(before, cell_bit(r, c)) != spans_cover(
                    spans@.take(i as int), r, c)));
            }
        }
        i = i + 1;
    }
    assert(spans@.take(spans.len() as int) =~= spans@);
}

/// Scanline rasterization with the even-odd rule. Each ring toggles the cells it fills,
/// so a hole cancels the ring around it.
pub fn build_raster_scanline(rings: &Vec<Ring>) -> (words: Vec<u64>)
    requires
        forall|i: int| 0 <= i < rings.len() ==> on_map((#[trigger] rings[i])@),
    ensures
        words.len() == RASTER_WORDS,
        forall|row: int, col: int|
            0 <= row < RASTER_ROWS && 0 <= col < RASTER_COLS ==> #[trigger] bit(
                words@,
                cell_bit(row, col),
            ) == rings_fill(ring_views(rings@), row, col),
{
    let mut words: Vec<u64> = vec![0u64; RASTER_WORDS];
    let all = all_ring_spans(rings);
    let ghost views = ring_views(rings@);
    let mut i: usize = 0;
    proof {
        assert(views.take(0) =~= Seq::<Seq<Point>>::empty());
        assert forall|row: int, col: int| 0 <= row < RASTER_ROWS && 0 <= col < RASTER_COLS implies
        #[trigger] bit(words@, cell_bit(row, col)) == rings_fill(views.take(0), row, col) by {
            let s = (cell_bit(row, col) % 64) as u64;
            assert((0u64 >> s) & 1u64 == 0u64) by (bit_vector);
        }
    }
    while i < rings.len()
        invariant
            i <= rings.len(),
            all.len() == rings.len(),
            views == ring_views(rings@),
            words.len() == RASTER_WORDS,
            forall|k: int| 0 <= k < rings.len() ==> spans_of((#[trigger] rings[k])@, all[k]@),
            forall|row: int, col: int|
                0 <= row < RASTER_ROWS && 0 <= col < RASTER_COLS ==> #[trigger] bit(
                    words@,
                    cell_bit(row, col),
                ) == rings_fill(views.take(i as int), row, col),
        decreases rings.len() - i,
    {
        assert(spans_of(rings[i as int]@, all[i as int]@));
        let ghost before = words@;
        toggle_spans(&mut words, &all[i]);
        proof {
            assert(views.take(i + 1).drop_last() =~= views.take(i as int));
            assert(views.take(i + 1).last() == rings[i as int]@);
            assert forall|row: int, col: int| 0 <= row < RASTER_ROWS && 0 <= col < RASTER_COLS implies
            #[trigger] bit(words@, cell_bit(row, col)) == rings_fill(views.take(i + 1), row, col) by {
                assert(bit(before, cell_bit(row, col)) == rings_fill(views.take(i as int), row, col));
                assert(spans_cover(all[i as int]@, row, col) == ring_fills(rings[i as int]@, row, col));
            }
        }
        i = i + 1;
    }
    assert(views.take(rings.len() as int) =~= views);
    words
}

} // verus!
