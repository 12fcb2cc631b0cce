//! Painting corridors into the land raster: a cell becomes water where its middle lies within
//! half the width of a corridor from its centreline.
use vstd::prelude::*;

use crate::channels::{cosine, is_cosine, COSINE_ONE};
use crate::geo::{Point, DEGREE, HALF_TURN, QUARTER_TURN, TURN, WORLD};
use crate::land::LandClassifier;
use crate::raster::{bit, cell_bit, lat_row, row_lat, RASTER_CELL, RASTER_COLS, RASTER_ROWS};
use crate::waterways::{views, Corridor, Waterway, DEFAULT_HALF_WIDTH};

verus! {

/// Bound on half the width of a corridor: 40,000 kilometres.
pub const HALF_WIDTH_MAX: u64 = 40_000_000_000_000;

/// A difference of latitude in metres: a degree has 111 kilometres.
pub open spec fn metres(d: int) -> int {
    d * 111_000 / 1_280_000_000
}

/// A difference of longitude in metres, where the cosine of the latitude is `k` billionths.
pub open spec fn east_metres(d: int, k: int) -> int {
    metres(d) * k / 1_000_000_000
}

/// A cosine, one at most.
pub open spec fn clipped(cos: u64) -> int {
    if cos < COSINE_ONE {
        cos as int
    } else {
        COSINE_ONE as int
    }
}

/// Longitude of the middle of a column of cells.
pub open spec fn col_lon(col: int) -> int {
    -HALF_TURN + col * RASTER_CELL + RASTER_CELL / 2
}

/// The line from `a` to `b` comes as close to the origin as `reach`.
pub open spec fn comes_close(a: (int, int), b: (int, int), reach: int) -> bool {
    let dx = b.0 - a.0;
    let dy = b.1 - a.1;
    let len2 = dx * dx + dy * dy;
    let t = -(a.0 * dx + a.1 * dy);
    let cross = a.0 * b.1 - a.1 * b.0;
    if t <= 0 {
        a.0 * a.0 + a.1 * a.1 <= reach * reach
    } else if t >= len2 {
        b.0 * b.0 + b.1 * b.1 <= reach * reach
    } else {
        cross * cross <= reach * reach * len2
    }
}

/// Where a point lies, in metres, seen from the middle of a cell.
pub open spec fn seen_from(p: Point, row: int, col: int, k: int) -> (int, int) {
    (east_metres(p.lon - col_lon(col), k), metres(p.lat - row_lat(row)))
}

/// The cell lies on the corridor of one leg of a centreline.
pub open spec fn leg_paints<C: Fn(i64) -> u64>(a: Point, b: Point, reach: int, cos: C, row: int, col: int) -> bool {
    let k = clipped(cosine(cos, row_lat(row) as i64));
    comes_close(seen_from(a, row, col, k), seen_from(b, row, col, k), reach)
}

/// Half the width of a corridor, in metres.
pub open spec fn reach_of(w: Corridor) -> int {
    w.half_width as int / 1_000_000
}

/// The cell lies on the corridor.
pub open spec fn way_paints<C: Fn(i64) -> u64>(w: Corridor, cos: C, row: int, col: int) -> bool {
    exists|i: int|
        0 <= i < w.points.len() - 1 && leg_paints(
            #[trigger] w.points[i],
            w.points[i + 1],
            reach_of(w),
            cos,
            row,
            col,
        )
}

/// The cell lies on one of the corridors.
pub open spec fn painted<C: Fn(i64) -> u64>(ways: Seq<Corridor>, cos: C, row: int, col: int) -> bool {
    exists|i: int| 0 <= i < ways.len() && way_paints(#[trigger] ways[i], cos, row, col)
}

/// The corridor can be painted: its points are on the map.
pub open spec fn paintable(w: Corridor) -> bool {
    &&& w.half_width <= HALF_WIDTH_MAX
    &&& forall|i: int| 0 <= i < w.points.len() ==> (#[trigger] w.points[i]).within(WORLD as int)
}

proof fn lemma_square_grows(x: int, reach: int)
    requires
        0 <= reach,
        x > reach || x < -reach,
    ensures
        x * x > reach * reach,
{
    assert(x * x > reach * reach) by (nonlinear_arith)
        requires
            0 <= reach,
            x > reach || x < -reach,
    ;
}

/// Between its ends, a line that stays beyond `reach` along one axis is further away than
/// that.
proof fn lemma_beyond(p1: int, q1: int, p2: int, q2: int, reach: int)
    requires
        0 <= reach,
        p1 > reach,
        p2 > reach,
        -(p1 * (p2 - p1) + q1 * (q2 - q1)) > 0,
        -(p1 * (p2 - p1) + q1 * (q2 - q1)) < (p2 - p1) * (p2 - p1) + (q2 - q1) * (q2 - q1),
    ensures
        (p1 * q2 - q1 * p2) * (p1 * q2 - q1 * p2) > reach * reach * ((p2 - p1) * (p2 - p1) + (q2 - q1) * (
        q2 - q1)),
{
    let d = p2 - p1;
    let e = q2 - q1;
    let len2 = d * d + e * e;
    let t = -(p1 * d + q1 * e);
    let c = p1 * q2 - q1 * p2;
    let r = reach + 1;
    assert(c == p1 * e - q1 * d) by (nonlinear_arith)
        requires
            d == p2 - p1,
            e == q2 - q1,
            c == p1 * q2 - q1 * p2,
    ;
    assert(p1 * (len2 - t) + p2 * t == p1 * len2 + d * t) by (nonlinear_arith)
        requires
            d == p2 - p1,
    ;
    assert(p1 * len2 == p1 * (d * d) + p1 * (e * e)) by (nonlinear_arith)
        requires
            len2 == d * d + e * e,
    ;
    assert(d * t == -(p1 * (d * d)) - q1 * (d * e)) by (nonlinear_arith)
        requires
            t == -(p1 * d + q1 * e),
    ;
    assert(e * c == p1 * (e * e) - q1 * (d * e)) by (nonlinear_arith)
        requires
            c == p1 * e - q1 * d,
    ;
    assert(p1 * (len2 - t) >= r * (len2 - t)) by (nonlinear_arith)
        requires
            p1 >= r,
            len2 - t > 0,
    ;
    assert(p2 * t >= r * t) by (nonlinear_arith)
        requires
            p2 >= r,
            t > 0,
    ;
    assert(r * (len2 - t) + r * t == r * len2) by (nonlinear_arith);
    let v = e * c;
    assert(v >= r * len2);
    assert(r * len2 > 0) by (nonlinear_arith)
        requires
            r > 0,
            len2 > 0,
    ;
    assert(v * v >= (r * len2) * (r * len2)) by (nonlinear_arith)
        requires
            v >= r * len2,
            r * len2 > 0,
    ;
    let c2 = c * c;
    assert(v * v == (e * e) * c2) by (nonlinear_arith)
        requires
            v == e * c,
            c2 == c * c,
    ;
    assert(d * d >= 0 && c2 >= 0) by (nonlinear_arith)
        requires
            c2 == c * c,
    ;
    assert((e * e) * c2 <= len2 * c2) by (nonlinear_arith)
        requires
            e * e <= len2,
            c2 >= 0,
    ;
    assert((r * len2) * (r * len2) == len2 * (r * r * len2)) by (nonlinear_arith);
    assert(c2 >= r * r * len2) by (nonlinear_arith)
        requires
            len2 * c2 >= len2 * (r * r * len2),
            len2 > 0,
    ;
    assert(r * r > reach * reach) by (nonlinear_arith)
        requires
            r == reach + 1,
            reach >= 0,
    ;
    assert(r * r * len2 > reach * reach * len2) by (nonlinear_arith)
        requires
            r * r > reach * reach,
            len2 > 0,
    ;
}

/// A line whose ends are both beyond `reach` on one side does not come close.
proof fn lemma_far_off(a: (int, int), b: (int, int), reach: int)
    requires
        0 <= reach,
        (a.1 > reach && b.1 > reach) || (a.1 < -reach && b.1 < -reach) || (a.0 > reach && b.0 > reach) || (
        a.0 < -reach && b.0 < -reach),
    ensures
        !comes_close(a, b, reach),
{
    let dx = b.0 - a.0;
    let dy = b.1 - a.1;
    let len2 = dx * dx + dy * dy;
    let t = -(a.0 * dx + a.1 * dy);
    let cross = a.0 * b.1 - a.1 * b.0;
    let vertical = (a.1 > reach && b.1 > reach) || (a.1 < -reach && b.1 < -reach);
    if vertical {
        lemma_square_grows(a.1, reach);
        lemma_square_grows(b.1, reach);
    } else {
        lemma_square_grows(a.0, reach);
        lemma_square_grows(b.0, reach);
    }
    assert(a.0 * a.0 >= 0 && a.1 * a.1 >= 0 && b.0 * b.0 >= 0 && b.1 * b.1 >= 0) by (nonlinear_arith);
    if 0 < t < len2 {
        if a.1 > reach && b.1 > reach {
            lemma_beyond(a.1, a.0, b.1, b.0, reach);
            assert((a.1 * b.0 - a.0 * b.1) * (a.1 * b.0 - a.0 * b.1) == cross * cross) by (nonlinear_arith)
                requires
                    cross == a.0 * b.1 - a.1 * b.0,
            ;
        } else if a.1 < -reach && b.1 < -reach {
            lemma_turned_about(a, b);
            lemma_beyond(-a.1, -a.0, -b.1, -b.0, reach);
            assert((a.1 * b.0 - a.0 * b.1) * (a.1 * b.0 - a.0 * b.1) == cross * cross) by (nonlinear_arith)
                requires
                    cross == a.0 * b.1 - a.1 * b.0,
            ;
        } else if a.0 > reach && b.0 > reach {
            lemma_beyond(a.0, a.1, b.0, b.1, reach);
        } else {
            lemma_turned_about(a, b);
            lemma_beyond(-a.0, -a.1, -b.0, -b.1, reach);
        }
    }
}

proof fn lemma_turned_about(a: (int, int), b: (int, int))
    ensures
        (-a.0) * (-b.0 + a.0) == a.0 * (b.0 - a.0),
        (-a.1) * (-b.1 + a.1) == a.1 * (b.1 - a.1),
        (-b.0 + a.0) * (-b.0 + a.0) == (b.0 - a.0) * (b.0 - a.0),
        (-b.1 + a.1) * (-b.1 + a.1) == (b.1 - a.1) * (b.1 - a.1),
        (-a.0) * (-b.1) == a.0 * b.1,
        (-a.1) * (-b.0) == a.1 * b.0,
{
    assert((-a.0) * (-b.0 + a.0) == a.0 * (b.0 - a.0)) by (nonlinear_arith);
    assert((-a.1) * (-b.1 + a.1) == a.1 * (b.1 - a.1)) by (nonlinear_arith);
    assert((-b.0 + a.0) * (-b.0 + a.0) == (b.0 - a.0) * (b.0 - a.0)) by (nonlinear_arith);
    assert((-b.1 + a.1) * (-b.1 + a.1) == (b.1 - a.1) * (b.1 - a.1)) by (nonlinear_arith);
    assert((-a.0) * (-b.1) == a.0 * b.1) by (nonlinear_arith);
    assert((-a.1) * (-b.0) == a.1 * b.0) by (nonlinear_arith);
}

fn to_metres(d: i64) -> (m: i64)
    requires
        -2_000_000_000_000 <= d <= 2_000_000_000_000,
    ensures
        m == metres(d as int),
        -200_000_000 <= m <= 200_000_000,
{
    (d * 111_000 + 1_280_000_000_000_000_000) / 1_280_000_000 - 1_000_000_000
}

fn to_east_metres(d: i64, k: i64) -> (m: i64)
    requires
        -2_000_000_000_000 <= d <= 2_000_000_000_000,
        0 <= k <= 1_000_000_000,
    ensures
        m == east_metres(d as int, k as int),
        -200_000_000 <= m <= 200_000_000,
{
    let whole = to_metres(d);
    proof {
        assert(-200_000_000_000_000_000 <= whole * k <= 200_000_000_000_000_000) by (nonlinear_arith)
            requires
                -200_000_000 <= whole <= 200_000_000,
                0 <= k <= 1_000_000_000,
        ;
    }
    (whole * k + 1_000_000_000_000_000_000) / 1_000_000_000 - 1_000_000_000
}

proof fn lemma_metre_product(x: int, y: int)
    requires
        -400_000_000 <= x <= 400_000_000,
        -400_000_000 <= y <= 400_000_000,
    ensures
        -160_000_000_000_000_000 <= x * y <= 160_000_000_000_000_000,
{
    assert(-160_000_000_000_000_000 <= x * y <= 160_000_000_000_000_000) by (nonlinear_arith)
        requires
            -400_000_000 <= x <= 400_000_000,
            -400_000_000 <= y <= 400_000_000,
    ;
}

proof fn lemma_wide_square(x: int, y: int)
    requires
        -400_000_000_000_000_000 <= x <= 400_000_000_000_000_000,
        -400_000_000_000_000_000 <= y <= 400_000_000_000_000_000,
    ensures
        -160_000_000_000_000_000_000_000_000_000_000_000 <= x * y
            <= 160_000_000_000_000_000_000_000_000_000_000_000,
{
    assert(-160_000_000_000_000_000_000_000_000_000_000_000 <= x * y
        <= 160_000_000_000_000_000_000_000_000_000_000_000) by (nonlinear_arith)
        requires
            -400_000_000_000_000_000 <= x <= 400_000_000_000_000_000,
            -400_000_000_000_000_000 <= y <= 400_000_000_000_000_000,
    ;
}

/// Whether the line from `a` to `b` comes as close to the origin as `reach`.
fn is_close(a: (i64, i64), b: (i64, i64), reach: i64) -> (r: bool)
    requires
        -200_000_000 <= a.0 <= 200_000_000,
        -200_000_000 <= a.1 <= 200_000_000,
        -200_000_000 <= b.0 <= 200_000_000,
        -200_000_000 <= b.1 <= 200_000_000,
        0 <= reach <= 40_000_000,
    ensures
        r == comes_close((a.0 as int, a.1 as int), (b.0 as int, b.1 as int), reach as int),
{
    let dx: i64 = b.0 - a.0;
    let dy: i64 = b.1 - a.1;
    proof {
        lemma_metre_product(dx as int, dx as int);
        lemma_metre_product(dy as int, dy as int);
        lemma_metre_product(a.0 as int, dx as int);
        lemma_metre_product(a.1 as int, dy as int);
        lemma_metre_product(a.0 as int, a.0 as int);
        lemma_metre_product(a.1 as int, a.1 as int);
        lemma_metre_product(b.0 as int, b.0 as int);
        lemma_metre_product(b.1 as int, b.1 as int);
        lemma_metre_product(a.0 as int, b.1 as int);
        lemma_metre_product(a.1 as int, b.0 as int);
        lemma_metre_product(reach as int, reach as int);
    }
    let len2: i64 = dx * dx + dy * dy;
    let t: i64 = -(a.0 * dx + a.1 * dy);
    let reach2: i64 = reach * reach;
    if t <= 0 {
        a.0 * a.0 + a.1 * a.1 <= reach2
    } else if t >= len2 {
        b.0 * b.0 + b.1 * b.1 <= reach2
    } else {
        let cross: i64 = a.0 * b.1 - a.1 * b.0;
        proof {
            lemma_wide_square(cross as int, cross as int);
            lemma_wide_square(reach2 as int, len2 as int);
        }
        cross as i128 * cross as i128 <= reach2 as i128 * len2 as i128
    }
}

/// All cells listed are cells of the raster.
pub open spec fn on_raster(cells: Seq<(usize, usize)>) -> bool {
    forall|i: int| 0 <= i < cells.len() ==> (#[trigger] cells[i]).0 < RASTER_ROWS && cells[i].1 < RASTER_COLS
}

proof fn lemma_push(cells: Seq<(usize, usize)>, x: (usize, usize), y: (usize, usize))
    ensures
        cells.push(x).contains(y) == (cells.contains(y) || x == y),
{
    let next = cells.push(x);
    if cells.contains(y) {
        let i = choose|i: int| 0 <= i < cells.len() && cells[i] == y;
        assert(next[i] == y);
    }
    if x == y {
        assert(next[cells.len() as int] == y);
    }
    if next.contains(y) {
        let i = choose|i: int| 0 <= i < next.len() && next[i] == y;
        if i < cells.len() {
            assert(cells[i] == y);
        }
    }
}

/// Notes the cells of one row that lie on the corridor of a leg.
fn paint_row<C: Fn(i64) -> u64>(
    cells: &mut Vec<(usize, usize)>,
    a: Point,
    b: Point,
    reach: i64,
    row: usize,
    cos: &C,
)
    requires
        is_cosine(*cos),
        a.within(WORLD as int),
        b.within(WORLD as int),
        0 <= reach <= 40_000_000,
        row < RASTER_ROWS,
        on_raster(old(cells)@),
    ensures
        on_raster(final(cells)@),
        forall|r: usize, c: usize|
            r < RASTER_ROWS && c < RASTER_COLS ==> #[trigger] final(cells)@.contains((r, c)) == (old(
                cells,
            )@.contains((r, c)) || (r == row && leg_paints(a, b, reach as int, *cos, r as int, c as int))),
{
    let ghost before = cells@;
    let lat: i64 = -QUARTER_TURN + row as i64 * RASTER_CELL + RASTER_CELL / 2;
    assert(lat == row_lat(row as int));
    let ay = to_metres(a.lat - lat);
    let by = to_metres(b.lat - lat);
    if (ay > reach && by > reach) || (ay < -reach && by < -reach) {
        proof {
            let k = clipped(cosine(*cos, row_lat(row as int) as i64));
            assert forall|c: usize| c < RASTER_COLS implies !leg_paints(
                a,
                b,
                reach as int,
                *cos,
                row as int,
                c as int,
            ) by {
                lemma_far_off(
                    seen_from(a, row as int, c as int, k),
                    seen_from(b, row as int, c as int, k),
                    reach as int,
                );
            }
        }
        return;
    }
    let given = cos(lat);
    let k: i64 = if given < COSINE_ONE {
        given as i64
    } else {
        COSINE_ONE as i64
    };
    assert(k == clipped(cosine(*cos, row_lat(row as int) as i64)));
    let mut col: usize = 0;
    while col < RASTER_COLS
        invariant
            a.within(WORLD as int),
            b.within(WORLD as int),
            0 <= reach <= 40_000_000,
            row < RASTER_ROWS,
            0 <= k <= 1_000_000_000,
            k == clipped(cosine(*cos, row_lat(row as int) as i64)),
            ay == metres(a.lat - row_lat(row as int)),
            by == metres(b.lat - row_lat(row as int)),
            -200_000_000 <= ay <= 200_000_000,
            -200_000_000 <= by <= 200_000_000,
            col <= RASTER_COLS,
            on_raster(cells@),
            forall|r: usize, c: usize|
                r < RASTER_ROWS && c < RASTER_COLS ==> #[trigger] cells@.contains((r, c)) == (before.contains(
                    (r, c),
                ) || (r == row && c < col && leg_paints(a, b, reach as int, *cos, r as int, c as int))),
        decreases RASTER_COLS - col,
    {
        let lon: i64 = -HALF_TURN + col as i64 * RASTER_CELL + RASTER_CELL / 2;
        assert(lon == col_lon(col as int));
        let ax = to_east_metres(a.lon - lon, k);
        let bx = to_east_metres(b.lon - lon, k);
        let near = is_close((ax, ay), (bx, by), reach);
        assert(near == leg_paints(a, b, reach as int, *cos, row as int, col as int));
        let ghost now = cells@;
        if near {
            cells.push((row, col));
        }
        proof {
            assert forall|r: usize, c: usize| r < RASTER_ROWS && c < RASTER_COLS implies
            #[trigger] cells@.contains((r, c)) == (before.contains((r, c)) || (r == row && c < col + 1
                && leg_paints(a, b, reach as int, *cos, r as int, c as int))) by {
                lemma_push(now, (row, col), (r, c));
                assert(now.contains((r, c)) == (before.contains((r, c)) || (r == row && c < col
                    && leg_paints(a, b, reach as int, *cos, r as int, c as int))));
            }
        }
        col = col + 1;
    }
}

/// Notes the cells that lie on the corridor of a leg.
fn paint_leg<C: Fn(i64) -> u64>(cells: &mut Vec<(usize, usize)>, a: Point, b: Point, reach: i64, cos: &C)
    requires
        is_cosine(*cos),
        a.within(WORLD as int),
        b.within(WORLD as int),
        0 <= reach <= 40_000_000,
        on_raster(old(cells)@),
    ensures
        on_raster(final(cells)@),
        forall|r: usize, c: usize|
            r < RASTER_ROWS && c < RASTER_COLS ==> #[trigger] final(cells)@.contains((r, c)) == (old(
                cells,
            )@.contains((r, c)) || leg_paints(a, b, reach as int, *cos, r as int, c as int)),
{
    let ghost before = cells@;
    let mut row: usize = 0;
    while row < RASTER_ROWS
        invariant
            is_cosine(*cos),
            a.within(WORLD as int),
            b.within(WORLD as int),
            0 <= reach <= 40_000_000,
            row <= RASTER_ROWS,
            on_raster(cells@),
            forall|r: usize, c: usize|
                r < RASTER_ROWS && c < RASTER_COLS ==> #[trigger] cells@.contains((r, c)) == (before.contains(
                    (r, c),
                ) || (r < row && leg_paints(a, b, reach as int, *cos, r as int, c as int))),
        decreases RASTER_ROWS - row,
    {
        let ghost now = cells@;
        paint_row(cells, a, b, reach, row, cos);
        proof {
            assert forall|r: usize, c: usize| r < RASTER_ROWS && c < RASTER_COLS implies
            #[trigger] cells@.contains((r, c)) == (before.contains((r, c)) || (r < row + 1 && leg_paints(
                a,
                b,
                reach as int,
                *cos,
                r as int,
                c as int,
            ))) by {
                assert(now.contains((r, c)) == (before.contains((r, c)) || (r < row && leg_paints(
                    a,
                    b,
                    reach as int,
                    *cos,
                    r as int,
                    c as int,
                ))));
            }
        }
        row = row + 1;
    }
}

/// The first `n` legs of the corridor paint the cell.
spec fn legs_paint<C: Fn(i64) -> u64>(w: Corridor, cos: C, row: int, col: int, n: int) -> bool {
    exists|i: int|
        0 <= i < n && leg_paints(#[trigger] w.points[i], w.points[i + 1], reach_of(w), cos, row, col)
}

proof fn lemma_next_leg<C: Fn(i64) -> u64>(w: Corridor, cos: C, row: int, col: int, n: int)
    requires
        0 <= n,
    ensures
        legs_paint(w, cos, row, col, n + 1) == (legs_paint(w, cos, row, col, n) || leg_paints(
            w.points[n],
            w.points[n + 1],
            reach_of(w),
            cos,
            row,
            col,
        )),
{
    if legs_paint(w, cos, row, col, n) {
        let i = choose|i: int|
            0 <= i < n && leg_paints(#[trigger] w.points[i], w.points[i + 1], reach_of(w), cos, row, col);
        assert(leg_paints(w.points[i], w.points[i + 1], reach_of(w), cos, row, col));
    }
}

/// Notes the cells that lie on the corridor.
fn paint_way<C: Fn(i64) -> u64>(cells: &mut Vec<(usize, usize)>, way: &Waterway, cos: &C)
    requires
        is_cosine(*cos),
        paintable(way@),
        on_raster(old(cells)@),
    ensures
        on_raster(final(cells)@),
        forall|r: usize, c: usize|
            r < RASTER_ROWS && c < RASTER_COLS ==> #[trigger] final(cells)@.contains((r, c)) == (old(
                cells,
            )@.contains((r, c)) || way_paints(way@, *cos, r as int, c as int)),
{
    let ghost before = cells@;
    let reach: i64 = (way.half_width / 1_000_000) as i64;
    if way.points.len() == 0 {
        return;
    }
    let mut i: usize = 0;
    while i < way.points.len() - 1
        invariant
            is_cosine(*cos),
            paintable(way@),
            reach == reach_of(way@),
            0 <= reach <= 40_000_000,
            i <= way.points.len() - 1,
            on_raster(cells@),
            forall|r: usize, c: usize|
                r < RASTER_ROWS && c < RASTER_COLS ==> #[trigger] cells@.contains((r, c)) == (before.contains(
                    (r, c),
                ) || legs_paint(way@, *cos, r as int, c as int, i as int)),
        decreases way.points.len() - i,
    {
        let a = way.points[i];
        let b = way.points[i + 1];
        proof {
            assert(way@.points[i as int].within(WORLD as int));
            assert(way@.points[i + 1].within(WORLD as int));
        }
        let ghost now = cells@;
        paint_leg(cells, a, b, reach, cos);
        proof {
            assert forall|r: usize, c: usize| r < RASTER_ROWS && c < RASTER_COLS implies
            #[trigger] cells@.contains((r, c)) == (before.contains((r, c)) || legs_paint(
                way@,
                *cos,
                r as int,
                c as int,
                i + 1,
            )) by {
                lemma_next_leg(way@, *cos, r as int, c as int, i as int);
                assert(now.contains((r, c)) == (before.contains((r, c)) || legs_paint(
                    way@,
                    *cos,
                    r as int,
                    c as int,
                    i as int,
                )));
            }
        }
        i = i + 1;
    }
    proof {
        assert forall|r: usize, c: usize| r < RASTER_ROWS && c < RASTER_COLS implies
        #[trigger] cells@.contains((r, c)) == (before.contains((r, c)) || way_paints(
            way@,
            *cos,
            r as int,
            c as int,
        )) by {
            assert(legs_paint(way@, *cos, r as int, c as int, i as int) == way_paints(
                way@,
                *cos,
                r as int,
                c as int,
            ));
        }
    }
}

proof fn lemma_next_way<C: Fn(i64) -> u64>(ways: Seq<Corridor>, cos: C, row: int, col: int, n: int)
    requires
        0 <= n < ways.len(),
    ensures
        painted(ways.take(n + 1), cos, row, col) == (painted(ways.take(n), cos, row, col) || way_paints(
            ways[n],
            cos,
            row,
            col,
        )),
{
    let shorter = ways.take(n);
    let longer = ways.take(n + 1);
    if painted(shorter, cos, row, col) {
        let i = choose|i: int| 0 <= i < shorter.len() && way_paints(#[trigger] shorter[i], cos, row, col);
        assert(way_paints(longer[i], cos, row, col));
    }
    if painted(longer, cos, row, col) {
        let i = choose|i: int| 0 <= i < longer.len() && way_paints(#[trigger] longer[i], cos, row, col);
        if i < n {
            assert(way_paints(shorter[i], cos, row, col));
        }
    }
    if way_paints(ways[n], cos, row, col) {
        assert(way_paints(longer[n], cos, row, col));
    }
}

/// The cells of the raster that lie on one of the corridors.
pub fn corridor_cells<C: Fn(i64) -> u64>(ways: &Vec<Waterway>, cos: &C) -> (cells: Vec<(usize, usize)>)
    requires
        is_cosine(*cos),
        forall|i: int| 0 <= i < ways.len() ==> paintable((#[trigger] ways[i])@),
    ensures
        on_raster(cells@),
        forall|r: usize, c: usize|
            r < RASTER_ROWS && c < RASTER_COLS ==> #[trigger] cells@.contains((r, c)) == painted(
                views(ways@),
                *cos,
                r as int,
                c as int,
            ),
{
    let mut cells: Vec<(usize, usize)> = Vec::new();
    let ghost all = views(ways@);
    let mut i: usize = 0;
    while i < ways.len()
        invariant
            is_cosine(*cos),
            all == views(ways@),
            forall|k: int| 0 <= k < ways.len() ==> paintable((#[trigger] ways[k])@),
            i <= ways.len(),
            on_raster(cells@),
            forall|r: usize, c: usize|
                r < RASTER_ROWS && c < RASTER_COLS ==> #[trigger] cells@.contains((r, c)) == painted(
                    all.take(i as int),
                    *cos,
                    r as int,
                    c as int,
                ),
        decreases ways.len() - i,
    {
        let ghost now = cells@;
        assert(paintable(ways[i as int]@));
        paint_way(&mut cells, &ways[i], cos);
        proof {
            assert forall|r: usize, c: usize| r < RASTER_ROWS && c < RASTER_COLS implies
            #[trigger] cells@.contains((r, c)) == painted(all.take(i + 1), *cos, r as int, c as int) by {
                lemma_next_way(all, *cos, r as int, c as int, i as int);
                assert(all[i as int] == ways[i as int]@);
                assert(now.contains((r, c)) == painted(all.take(i as int), *cos, r as int, c as int));
            }
        }
        i = i + 1;
    }
    assert(all.take(ways.len() as int) =~= all);
    cells
}

/// Paints the corridors into the land raster as water.
pub fn paint_corridors<C: Fn(i64) -> u64>(classifier: &mut LandClassifier, ways: &Vec<Waterway>, cos: &C)
    requires
        old(classifier).wf(),
        is_cosine(*cos),
        forall|i: int| 0 <= i < ways.len() ==> paintable((#[trigger] ways[i])@),
    ensures
        final(classifier).wf(),
        final(classifier).tree == old(classifier).tree,
        final(classifier).island_rings == old(classifier).island_rings,
        final(classifier).island_tree == old(classifier).island_tree,
        forall|row: int, col: int|
            0 <= row < RASTER_ROWS && 0 <= col < RASTER_COLS ==> #[trigger] bit(
                final(classifier).raster@,
                cell_bit(row, col),
            ) == (bit(old(classifier).raster@, cell_bit(row, col)) && !painted(views(ways@), *cos, row, col)),
{
    let cells = corridor_cells(ways, cos);
    classifier.carve(&cells);
    proof {
        assert forall|row: int, col: int| 0 <= row < RASTER_ROWS && 0 <= col < RASTER_COLS implies
        #[trigger] bit(classifier.raster@, cell_bit(row, col)) == (bit(
            old(classifier).raster@,
            cell_bit(row, col),
        ) && !painted(views(ways@), *cos, row, col)) by {
            assert(cells@.contains((row as usize, col as usize)) == painted(views(ways@), *cos, row, col));
        }
    }
}

proof fn lemma_exchange(a: int, b: int, c: int, d: int)
    ensures
        (a * b) * (c * d) == (a * c) * (b * d),
{
    assert((a * b) * (c * d) == (a * c) * (b * d)) by (nonlinear_arith);
}

proof fn lemma_binomial(u: int, v: int)
    ensures
        (u + v) * (u + v) == u * u + 2 * (u * v) + v * v,
        (u - v) * (u - v) == u * u - 2 * (u * v) + v * v,
{
    assert((u + v) * (u + v) == u * u + 2 * (u * v) + v * v) by (nonlinear_arith);
    assert((u - v) * (u - v) == u * u - 2 * (u * v) + v * v) by (nonlinear_arith);
}

proof fn lemma_square_of_sum(p: int, d: int, n: int, s: int)
    ensures
        (p * n + d * s) * (p * n + d * s) == (p * p) * (n * n) + 2 * (p * d) * (n * s) + (d * d) * (s * s),
        (p * n - d * s) * (p * n - d * s) == (p * p) * (n * n) - 2 * (p * d) * (n * s) + (d * d) * (s * s),
{
    lemma_binomial(p * n, d * s);
    lemma_exchange(p, n, p, n);
    lemma_exchange(d, s, d, s);
    lemma_exchange(p, n, d, s);
    let c = p * d;
    let v = n * s;
    assert(2 * c * v == 2 * (c * v)) by (nonlinear_arith);
}

proof fn lemma_collect(a: int, b: int, c: int, d: int, e: int, f: int, u: int, v: int, w: int)
    ensures
        a * u + 2 * c * v + e * w + (b * u + 2 * d * v + f * w) == (a + b) * u + 2 * (c + d) * v + (e + f) * w,
        2 * (-(-(c + d))) * v == 2 * (c + d) * v,
        2 * (-(c + d)) * v == -(2 * (c + d) * v),
        a * u - 2 * c * v + e * w + (b * u - 2 * d * v + f * w) == (a + b) * u - 2 * (c + d) * v + (e + f) * w,
{
    assert(a * u + b * u == (a + b) * u) by (nonlinear_arith);
    assert(2 * c * v + 2 * d * v == 2 * (c + d) * v) by (nonlinear_arith);
    assert(e * w + f * w == (e + f) * w) by (nonlinear_arith);
    assert(2 * (-(c + d)) * v == -(2 * (c + d) * v)) by (nonlinear_arith);
}

/// The squares of cross and dot product add up to the product of the squared lengths.
proof fn lemma_cross_and_dot(x: int, y: int, dx: int, dy: int)
    ensures
        (x * dy - y * dx) * (x * dy - y * dx) + (x * dx + y * dy) * (x * dx + y * dy) == (x * x + y * y) * (dx
            * dx + dy * dy),
{
    let p = (x * x) * (dx * dx);
    let q = (x * x) * (dy * dy);
    let r = (y * y) * (dx * dx);
    let t = (y * y) * (dy * dy);
    lemma_binomial(x * dy, y * dx);
    lemma_binomial(x * dx, y * dy);
    lemma_exchange(x, dy, x, dy);
    lemma_exchange(y, dx, y, dx);
    lemma_exchange(x, dx, x, dx);
    lemma_exchange(y, dy, y, dy);
    lemma_exchange(x, dy, y, dx);
    lemma_exchange(x, dx, y, dy);
    assert(dy * dx == dx * dy) by (nonlinear_arith);
    assert((x * x + y * y) * (dx * dx + dy * dy) == p + q + r + t) by (nonlinear_arith)
        requires
            p == (x * x) * (dx * dx),
            q == (x * x) * (dy * dy),
            r == (y * y) * (dx * dx),
            t == (y * y) * (dy * dy),
    ;
}

/// A line comes as close as any of its points: here the one at `s` of `n` parts of the way.
proof fn lemma_point_close(a: (int, int), b: (int, int), s: int, n: int, reach: int)
    requires
        0 <= s <= n,
        0 < n,
        0 <= reach,
        ({
            let x = a.0 * (n - s) + b.0 * s;
            let y = a.1 * (n - s) + b.1 * s;
            x * x + y * y <= (reach * n) * (reach * n)
        }),
    ensures
        comes_close(a, b, reach),
{
    let dx = b.0 - a.0;
    let dy = b.1 - a.1;
    let len2 = dx * dx + dy * dy;
    let t = -(a.0 * dx + a.1 * dy);
    let cross = a.0 * b.1 - a.1 * b.0;
    let x = a.0 * (n - s) + b.0 * s;
    let y = a.1 * (n - s) + b.1 * s;
    let near = x * x + y * y;
    let a2 = a.0 * a.0 + a.1 * a.1;
    let b2 = b.0 * b.0 + b.1 * b.1;
    assert(x == a.0 * n + dx * s && y == a.1 * n + dy * s) by (nonlinear_arith)
        requires
            x == a.0 * (n - s) + b.0 * s,
            y == a.1 * (n - s) + b.1 * s,
            dx == b.0 - a.0,
            dy == b.1 - a.1,
    ;
    assert((reach * n) * (reach * n) == (reach * reach) * (n * n)) by (nonlinear_arith);
    assert(n * n > 0) by (nonlinear_arith)
        requires
            n > 0,
    ;
    if t <= 0 {
        lemma_square_of_sum(a.0, dx, n, s);
        lemma_square_of_sum(a.1, dy, n, s);
        lemma_collect(a.0 * a.0, a.1 * a.1, a.0 * dx, a.1 * dy, dx * dx, dy * dy, n * n, n * s, s * s);
        assert(near == a2 * (n * n) + 2 * (-t) * (n * s) + len2 * (s * s));
        assert(2 * (-t) * (n * s) >= 0) by (nonlinear_arith)
            requires
                t <= 0,
                n > 0,
                s >= 0,
        ;
        assert(len2 * (s * s) >= 0) by (nonlinear_arith)
            requires
                len2 == dx * dx + dy * dy,
        ;
        assert(a2 <= reach * reach) by (nonlinear_arith)
            requires
                a2 * (n * n) <= (reach * reach) * (n * n),
                n * n > 0,
        ;
    } else if t >= len2 {
        let r = n - s;
        let u = t - len2;
        assert(u == -(b.0 * dx + b.1 * dy)) by (nonlinear_arith)
            requires
                u == t - len2,
                t == -(a.0 * dx + a.1 * dy),
                len2 == dx * dx + dy * dy,
                dx == b.0 - a.0,
                dy == b.1 - a.1,
        ;
        assert(x == b.0 * n - dx * r && y == b.1 * n - dy * r) by (nonlinear_arith)
            requires
                x == a.0 * n + dx * s,
                y == a.1 * n + dy * s,
                dx == b.0 - a.0,
                dy == b.1 - a.1,
                r == n - s,
        ;
        lemma_square_of_sum(b.0, dx, n, r);
        lemma_square_of_sum(b.1, dy, n, r);
        lemma_collect(b.0 * b.0, b.1 * b.1, b.0 * dx, b.1 * dy, dx * dx, dy * dy, n * n, n * r, r * r);
        assert(near == b2 * (n * n) + 2 * u * (n * r) + len2 * (r * r));
        assert(2 * u * (n * r) >= 0) by (nonlinear_arith)
            requires
                u >= 0,
                n > 0,
                r >= 0,
        ;
        assert(len2 * (r * r) >= 0) by (nonlinear_arith)
            requires
                len2 == dx * dx + dy * dy,
        ;
        assert(b2 <= reach * reach) by (nonlinear_arith)
            requires
                b2 * (n * n) <= (reach * reach) * (n * n),
                n * n > 0,
        ;
    } else {
        assert(cross == a.0 * dy - a.1 * dx) by (nonlinear_arith)
            requires
                cross == a.0 * b.1 - a.1 * b.0,
                dx == b.0 - a.0,
                dy == b.1 - a.1,
        ;
        assert((a.0 * n + dx * s) * dy - (a.1 * n + dy * s) * dx == n * (a.0 * dy - a.1 * dx))
            by (nonlinear_arith);
        let w = x * dy - y * dx;
        let dot = x * dx + y * dy;
        lemma_cross_and_dot(x, y, dx, dy);
        assert(w == n * cross);
        assert(dot * dot >= 0 && len2 >= 0) by (nonlinear_arith)
            requires
                len2 == dx * dx + dy * dy,
        ;
        assert(near * len2 <= ((reach * reach) * (n * n)) * len2) by (nonlinear_arith)
            requires
                near <= (reach * reach) * (n * n),
                len2 >= 0,
        ;
        assert(w * w == (n * n) * (cross * cross)) by (nonlinear_arith)
            requires
                w == n * cross,
        ;
        assert(((reach * reach) * (n * n)) * len2 == (n * n) * (reach * reach * len2)) by (nonlinear_arith);
        assert(cross * cross <= reach * reach * len2) by (nonlinear_arith)
            requires
                (n * n) * (cross * cross) <= (n * n) * (reach * reach * len2),
                n * n > 0,
        ;
    }
}

/// From one column to the next, a point moves west by a cell at most.
proof fn lemma_next_col(d: int, k: int)
    requires
        0 <= k <= 1_000_000_000,
    ensures
        east_metres(d, k) - 2_221 <= east_metres(d - RASTER_CELL, k) <= east_metres(d, k),
{
    let m = metres(d);
    assert(metres(d - RASTER_CELL) == m - 2_220);
    let p = m * k;
    let q = (m - 2_220) * k;
    assert(p - 2_220_000_000_000 <= q <= p) by (nonlinear_arith)
        requires
            p == m * k,
            q == (m - 2_220) * k,
            0 <= k <= 1_000_000_000,
    ;
}

proof fn lemma_near_map_edge(d: int, k: int)
    requires
        0 <= k <= 1_000_000_000,
    ensures
        d >= -(RASTER_CELL / 2) ==> east_metres(d, k) >= -1_110,
        d <= RASTER_CELL / 2 ==> east_metres(d, k) <= 1_110,
{
    let m = metres(d);
    let p = m * k;
    assert(m >= -1_110 ==> p >= -1_110_000_000_000) by (nonlinear_arith)
        requires
            p == m * k,
            0 <= k <= 1_000_000_000,
    ;
    assert(m <= 1_110 ==> p <= 1_110_000_000_000) by (nonlinear_arith)
        requires
            p == m * k,
            0 <= k <= 1_000_000_000,
    ;
}

/// Where the leg crosses the middle of the row, seen from a column, times `n`.
spec fn crossing(a: Point, b: Point, col: int, k: int, s: int, n: int) -> int {
    east_metres(a.lon - col_lon(col), k) * (n - s) + east_metres(b.lon - col_lon(col), k) * s
}

/// A column, from `col` on, that the crossing is close to.
proof fn lemma_close_col(a: Point, b: Point, col: int, k: int, s: int, n: int) -> (found: int)
    requires
        -HALF_TURN <= a.lon <= HALF_TURN,
        -HALF_TURN <= b.lon <= HALF_TURN,
        0 <= k <= 1_000_000_000,
        0 <= s <= n,
        0 < n,
        0 <= col < RASTER_COLS,
        crossing(a, b, col, k, s, n) >= -1_111 * n,
    ensures
        col <= found < RASTER_COLS,
        -1_111 * n <= crossing(a, b, found, k, s, n) <= 1_111 * n,
    decreases RASTER_COLS - col,
{
    let x = east_metres(a.lon - col_lon(col), k);
    let y = east_metres(b.lon - col_lon(col), k);
    if crossing(a, b, col, k, s, n) <= 1_110 * n {
        assert(1_110 * n <= 1_111 * n);
        col
    } else if col == RASTER_COLS - 1 {
        lemma_near_map_edge(a.lon - col_lon(col), k);
        lemma_near_map_edge(b.lon - col_lon(col), k);
        assert(x * (n - s) + y * s <= 1_110 * n) by (nonlinear_arith)
            requires
                x <= 1_110,
                y <= 1_110,
                0 <= s <= n,
        ;
        col
    } else {
        lemma_next_col(a.lon - col_lon(col), k);
        lemma_next_col(b.lon - col_lon(col), k);
        assert(a.lon - col_lon(col + 1) == a.lon - col_lon(col) - RASTER_CELL);
        assert(b.lon - col_lon(col + 1) == b.lon - col_lon(col) - RASTER_CELL);
        let x2 = east_metres(a.lon - col_lon(col + 1), k);
        let y2 = east_metres(b.lon - col_lon(col + 1), k);
        assert(x2 * (n - s) + y2 * s >= x * (n - s) + y * s - 2_221 * n) by (nonlinear_arith)
            requires
                x2 >= x - 2_221,
                y2 >= y - 2_221,
                0 <= s <= n,
        ;
        lemma_close_col(a, b, col + 1, k, s, n)
    }
}

/// A corridor of the default width survives rasterization: in every row of the raster that a
/// leg of its centreline crosses the middle of, some cell is painted.
pub proof fn lemma_corridor_survives<C: Fn(i64) -> u64>(a: Point, b: Point, reach: int, cos: C, row: int) -> (col: int)
    requires
        -HALF_TURN <= a.lon <= HALF_TURN,
        -HALF_TURN <= b.lon <= HALF_TURN,
        0 <= row < RASTER_ROWS,
        a.lat <= row_lat(row) <= b.lat || b.lat <= row_lat(row) <= a.lat,
        reach >= DEFAULT_HALF_WIDTH / 1_000_000,
    ensures
        0 <= col < RASTER_COLS,
        leg_paints(a, b, reach, cos, row, col),
{
    let k = clipped(cosine(cos, row_lat(row) as i64));
    let ay = metres(a.lat - row_lat(row));
    let by = metres(b.lat - row_lat(row));
    let (s, n) = if ay < 0 && by >= 0 {
        (-ay, by - ay)
    } else if ay > 0 && by <= 0 {
        (ay, ay - by)
    } else if ay == 0 {
        (0, 1)
    } else {
        (1, 1)
    };
    assert(ay * (n - s) + by * s == 0) by (nonlinear_arith)
        requires
            (ay < 0 && by >= 0 && s == -ay && n == by - ay) || (ay > 0 && by <= 0 && s == ay && n == ay - by)
                || (ay == 0 && s == 0 && n == 1) || (by == 0 && s == 1 && n == 1),
    ;
    let x = east_metres(a.lon - col_lon(0), k);
    let y = east_metres(b.lon - col_lon(0), k);
    lemma_near_map_edge(a.lon - col_lon(0), k);
    lemma_near_map_edge(b.lon - col_lon(0), k);
    assert(x * (n - s) + y * s >= -1_110 * n) by (nonlinear_arith)
        requires
            x >= -1_110,
            y >= -1_110,
            0 <= s <= n,
    ;
    let col = lemma_close_col(a, b, 0, k, s, n);
    let v = crossing(a, b, col, k, s, n);
    assert(v * v <= (reach * n) * (reach * n)) by (nonlinear_arith)
        requires
            -1_111 * n <= v <= 1_111 * n,
            reach >= 1_200,
            n > 0,
    ;
    assert(0 * 0 == 0int);
    lemma_point_close(seen_from(a, row, col, k), seen_from(b, row, col, k), s, n, reach);
    col
}

/// A difference of longitude in metres is what it would be without rounding, but for two.
proof fn lemma_east_rounding(d: int, k: int)
    requires
        0 <= k <= 1_000_000_000,
    ensures
        (111_000 * k) * d - 2_560_000_000_000_000_000 <= 1_280_000_000_000_000_000 * east_metres(d, k) <= (111_000
            * k) * d,
{
    let m = metres(d);
    let p = m * k;
    let high = (111_000 * d) * k;
    assert(111_000 * d - 1_280_000_000 <= 1_280_000_000 * m <= 111_000 * d);
    assert(high - 1_280_000_000 * k <= (1_280_000_000 * m) * k <= high) by (nonlinear_arith)
        requires
            111_000 * d - 1_280_000_000 <= 1_280_000_000 * m <= 111_000 * d,
            high == (111_000 * d) * k,
            0 <= k,
    ;
    assert((1_280_000_000 * m) * k == 1_280_000_000 * p) by (nonlinear_arith)
        requires
            p == m * k,
    ;
    assert(high == (111_000 * k) * d) by (nonlinear_arith)
        requires
            high == (111_000 * d) * k,
    ;
}

/// The row whose middle is closest to latitude `height` of `n` parts.
proof fn lemma_close_row(height: int, n: int) -> (row: int)
    requires
        0 < n,
        -QUARTER_TURN * n <= height <= QUARTER_TURN * n,
    ensures
        0 <= row < RASTER_ROWS,
        -(RASTER_CELL / 2) * n <= height - row_lat(row) * n <= (RASTER_CELL / 2) * n,
{
    let h = height + QUARTER_TURN * n;
    let c = RASTER_CELL * n;
    let q = h / c;
    vstd::arithmetic::div_mod::lemma_fundamental_div_mod(h, c);
    let r = h % c;
    let half = (RASTER_CELL / 2) * n;
    assert(c == 2 * half && 0 < c) by (nonlinear_arith)
        requires
            c == RASTER_CELL * n,
            half == (RASTER_CELL / 2) * n,
            0 < n,
    ;
    assert(0 <= h <= 2 * QUARTER_TURN * n) by (nonlinear_arith)
        requires
            h == height + QUARTER_TURN * n,
            -QUARTER_TURN * n <= height <= QUARTER_TURN * n,
    ;
    assert(0 <= q <= RASTER_ROWS && (q == RASTER_ROWS ==> r == 0)) by (nonlinear_arith)
        requires
            h == c * q + r,
            0 <= r < c,
            c == RASTER_CELL * n,
            0 < n,
            0 <= h <= 2 * QUARTER_TURN * n,
    ;
    let row = if q < RASTER_ROWS {
        q
    } else {
        q - 1
    };
    assert(row_lat(row) * n == row * c + (RASTER_CELL / 2) * n - QUARTER_TURN * n) by (nonlinear_arith)
        requires
            row_lat(row) == -QUARTER_TURN + row * RASTER_CELL + RASTER_CELL / 2,
            c == RASTER_CELL * n,
    ;
    assert(c * q == row * c + (if q < RASTER_ROWS {
        0
    } else {
        c
    })) by (nonlinear_arith)
        requires
            row == if q < RASTER_ROWS {
                q
            } else {
                q - 1
            },
    ;
    assert(-half <= height - row_lat(row) * n <= half);
    assert(-(RASTER_CELL / 2) * n == -half) by (nonlinear_arith)
        requires
            half == (RASTER_CELL / 2) * n,
    ;
    row
}

/// A corridor of the default width survives rasterization from side to side too: in every
/// column of the raster that a leg of its centreline crosses the middle of, some cell is
/// painted.
pub proof fn lemma_corridor_survives_across<C: Fn(i64) -> u64>(a: Point, b: Point, reach: int, cos: C, col: int) -> (row: int)
    requires
        -QUARTER_TURN <= a.lat <= QUARTER_TURN,
        -QUARTER_TURN <= b.lat <= QUARTER_TURN,
        0 <= col < RASTER_COLS,
        a.lon <= col_lon(col) <= b.lon || b.lon <= col_lon(col) <= a.lon,
        reach >= DEFAULT_HALF_WIDTH / 1_000_000,
    ensures
        0 <= row < RASTER_ROWS,
        leg_paints(a, b, reach, cos, row, col),
{
    let ax = a.lon - col_lon(col);
    let bx = b.lon - col_lon(col);
    let (s, n) = if ax < bx {
        (-ax, bx - ax)
    } else if ax > bx {
        (ax, ax - bx)
    } else {
        (0, 1)
    };
    assert(ax * (n - s) + bx * s == 0) by (nonlinear_arith)
        requires
            (s == -ax && n == bx - ax) || (s == ax && n == ax - bx) || (s == 0 && ax == 0),
    ;
    let height = a.lat * (n - s) + b.lat * s;
    assert(-QUARTER_TURN * n <= height <= QUARTER_TURN * n) by (nonlinear_arith)
        requires
            height == a.lat * (n - s) + b.lat * s,
            -QUARTER_TURN <= a.lat <= QUARTER_TURN,
            -QUARTER_TURN <= b.lat <= QUARTER_TURN,
            0 <= s <= n,
    ;
    let row = lemma_close_row(height, n);
    let k = clipped(cosine(cos, row_lat(row) as i64));
    let from = seen_from(a, row, col, k);
    let to = seen_from(b, row, col, k);
    let x = from.0 * (n - s) + to.0 * s;
    let y = from.1 * (n - s) + to.1 * s;
    lemma_east_rounding(ax, k);
    lemma_east_rounding(bx, k);
    lemma_weighed(
        1_280_000_000_000_000_000 * from.0,
        1_280_000_000_000_000_000 * to.0,
        (111_000 * k) * ax,
        (111_000 * k) * bx,
        2_560_000_000_000_000_000,
        s,
        n,
    );
    assert(((111_000 * k) * ax) * (n - s) + ((111_000 * k) * bx) * s == (111_000 * k) * (ax * (n - s) + bx * s))
        by (nonlinear_arith);
    assert((111_000 * k) * 0 == 0) by (nonlinear_arith);
    assert((1_280_000_000_000_000_000 * from.0) * (n - s) + (1_280_000_000_000_000_000 * to.0) * s
        == 1_280_000_000_000_000_000 * x) by (nonlinear_arith)
        requires
            x == from.0 * (n - s) + to.0 * s,
    ;
    let ay = a.lat - row_lat(row);
    let by = b.lat - row_lat(row);
    lemma_weighed(
        1_280_000_000 * from.1,
        1_280_000_000 * to.1,
        111_000 * ay,
        111_000 * by,
        1_280_000_000,
        s,
        n,
    );
    assert((111_000 * ay) * (n - s) + (111_000 * by) * s == 111_000 * (height - row_lat(row) * n))
        by (nonlinear_arith)
        requires
            height == a.lat * (n - s) + b.lat * s,
            ay == a.lat - row_lat(row),
            by == b.lat - row_lat(row),
    ;
    assert((1_280_000_000 * from.1) * (n - s) + (1_280_000_000 * to.1) * s == 1_280_000_000 * y)
        by (nonlinear_arith)
        requires
            y == from.1 * (n - s) + to.1 * s,
    ;
    assert(-2 * n <= x <= 0);
    assert(-1_111 * n <= y <= 1_111 * n);
    assert(x * x + y * y <= (reach * n) * (reach * n)) by (nonlinear_arith)
        requires
            -2 * n <= x <= 0,
            -1_111 * n <= y <= 1_111 * n,
            reach >= 1_200,
            n > 0,
    ;
    lemma_point_close(from, to, s, n, reach);
    row
}

/// Two numbers that lie below others by a slack at most, weighed alike.
proof fn lemma_weighed(p: int, q: int, u: int, v: int, slack: int, s: int, n: int)
    requires
        u - slack <= p <= u,
        v - slack <= q <= v,
        0 <= s <= n,
    ensures
        u * (n - s) + v * s - slack * n <= p * (n - s) + q * s <= u * (n - s) + v * s,
{
    assert(u * (n - s) + v * s - slack * n <= p * (n - s) + q * s <= u * (n - s) + v * s) by (nonlinear_arith)
        requires
            u - slack <= p <= u,
            v - slack <= q <= v,
            0 <= s <= n,
    ;
}

/// Painting takes land away and adds none: a position in a painted cell is water afterwards,
/// and all others are what they were.
pub proof fn lemma_painted_is_water<C: Fn(i64) -> u64>(
    before: LandClassifier,
    after: LandClassifier,
    ways: Seq<Corridor>,
    cos: C,
    lon: int,
    lat: int,
)
    requires
        forall|row: int, col: int|
            0 <= row < RASTER_ROWS && 0 <= col < RASTER_COLS ==> #[trigger] bit(
                after.raster@,
                cell_bit(row, col),
            ) == (bit(before.raster@, cell_bit(row, col)) && !painted(ways, cos, row, col)),
    ensures
        ({
            let col = ((lon + HALF_TURN) % TURN as int) / RASTER_CELL as int;
            let row = lat_row(lat);
            after.land(lon, lat) == (before.land(lon, lat) && !painted(ways, cos, row, col))
        }),
{
    let col = ((lon + HALF_TURN) % TURN as int) / RASTER_CELL as int;
    let row = lat_row(lat);
    assert(0 <= col < RASTER_COLS);
    assert(0 <= row);
    if row < RASTER_ROWS {
        assert(bit(after.raster@, cell_bit(row, col)) == (bit(before.raster@, cell_bit(row, col)) && !painted(
            ways,
            cos,
            row,
            col,
        )));
    }
}

/// Where a position lies, in whole metres, seen from the middle of a cell: a degree of latitude
/// has 111 kilometres, one of longitude `k` billionths of that.
pub open spec fn lies_off(p: Point, mid: Point, k: int, off: (int, int)) -> bool {
    &&& exists|m: int|
        {
            &&& #[trigger] (1_280_000 * m) <= 111 * (p.lon - mid.lon) < 1_280_000 * m + 1_280_000
            &&& 1_000_000_000 * off.0 <= m * k < 1_000_000_000 * off.0 + 1_000_000_000
        }
    &&& 1_280_000 * off.1 <= 111 * (p.lat - mid.lat) < 1_280_000 * off.1 + 1_280_000
}

/// At `s` of `n` parts of the way from `a` to `b`, the line is not further than `reach` from the
/// origin.
pub open spec fn passes_within(a: (int, int), b: (int, int), s: int, n: int, reach: int) -> bool {
    let x = n * a.0 + s * (b.0 - a.0);
    let y = n * a.1 + s * (b.1 - a.1);
    0 <= s <= n && 0 < n && x * x + y * y <= (reach * n) * (reach * n)
}

/// Square of the distance at a share of the way.
proof fn lemma_share_square(a: (int, int), b: (int, int), s: int, n: int)
    ensures
        ({
            let dx = b.0 - a.0;
            let dy = b.1 - a.1;
            let x = n * a.0 + s * dx;
            let y = n * a.1 + s * dy;
            let cross = a.0 * b.1 - a.1 * b.0;
            &&& x * x + y * y == n * n * (a.0 * a.0 + a.1 * a.1) + 2 * (n * s) * (a.0 * dx + a.1 * dy) + s * s * (dx
                * dx + dy * dy)
            &&& x * dy - y * dx == n * cross
            &&& (x * dx + y * dy) == n * (a.0 * dx + a.1 * dy) + s * (dx * dx + dy * dy)
        }),
{
    let dx = b.0 - a.0;
    let dy = b.1 - a.1;
    let x = n * a.0 + s * dx;
    let y = n * a.1 + s * dy;
    lemma_one_square(a.0, dx, s, n);
    lemma_one_square(a.1, dy, s, n);
    let p = a.0 * a.0;
    let q = a.1 * a.1;
    let g = a.0 * dx;
    let h = a.1 * dy;
    let u = dx * dx;
    let v = dy * dy;
    assert(n * n * p + n * n * q == n * n * (p + q)) by (nonlinear_arith);
    assert(2 * (n * s) * g + 2 * (n * s) * h == 2 * (n * s) * (g + h)) by (nonlinear_arith);
    assert(s * s * u + s * s * v == s * s * (u + v)) by (nonlinear_arith);
    assert(x * dx == n * g + s * u) by (nonlinear_arith)
        requires
            x == n * a.0 + s * dx,
            g == a.0 * dx,
            u == dx * dx,
    ;
    assert(y * dy == n * h + s * v) by (nonlinear_arith)
        requires
            y == n * a.1 + s * dy,
            h == a.1 * dy,
            v == dy * dy,
    ;
    assert(n * g + n * h == n * (g + h)) by (nonlinear_arith);
    assert(s * u + s * v == s * (u + v)) by (nonlinear_arith);
    assert(x * dy == n * (a.0 * dy) + s * (dx * dy)) by (nonlinear_arith)
        requires
            x == n * a.0 + s * dx,
    ;
    assert(y * dx == n * (a.1 * dx) + s * (dx * dy)) by (nonlinear_arith)
        requires
            y == n * a.1 + s * dy,
    ;
    assert(n * (a.0 * dy) - n * (a.1 * dx) == n * (a.0 * b.1 - a.1 * b.0)) by (nonlinear_arith)
        requires
            dx == b.0 - a.0,
            dy == b.1 - a.1,
    ;
}

proof fn lemma_one_square(a: int, d: int, s: int, n: int)
    ensures
        (n * a + s * d) * (n * a + s * d) == n * n * (a * a) + 2 * (n * s) * (a * d) + s * s * (d * d),
{
    lemma_binomial(n * a, s * d);
    lemma_exchange(n, a, n, a);
    lemma_exchange(s, d, s, d);
    lemma_exchange(n, a, s, d);
    let c = n * s;
    let e = a * d;
    assert(2 * c * e == 2 * (c * e)) by (nonlinear_arith);
}

/// A vector, by its two parts along and across another.
proof fn lemma_parts_of_vector(x: int, y: int, u: int, v: int)
    ensures
        (x * u + y * v) * (x * u + y * v) + (x * v - y * u) * (x * v - y * u) == (x * x + y * y) * (u * u + v
            * v),
{
    lemma_binomial(x * u, y * v);
    lemma_binomial(x * v, y * u);
    lemma_exchange(x, u, x, u);
    lemma_exchange(y, v, y, v);
    lemma_exchange(x, v, x, v);
    lemma_exchange(y, u, y, u);
    assert((x * u) * (y * v) == (x * v) * (y * u)) by (nonlinear_arith);
    let p = x * x;
    let q = y * y;
    let c = u * u;
    let d = v * v;
    assert((p + q) * (c + d) == p * c + p * d + q * c + q * d) by (nonlinear_arith);
}

/// A line comes as close as `reach` if and only if some position on it does.
pub proof fn lemma_comes_close(a: (int, int), b: (int, int), reach: int, s: int, n: int)
    requires
        0 <= reach,
    ensures
        passes_within(a, b, s, n, reach) ==> comes_close(a, b, reach),
        comes_close(a, b, reach) ==> exists|s: int, n: int| #[trigger] passes_within(a, b, s, n, reach),
{
    let dx = b.0 - a.0;
    let dy = b.1 - a.1;
    let len2 = dx * dx + dy * dy;
    let dot = a.0 * dx + a.1 * dy;
    let t = -dot;
    let a2 = a.0 * a.0 + a.1 * a.1;
    let b2 = b.0 * b.0 + b.1 * b.1;
    let cross = a.0 * b.1 - a.1 * b.0;
    let r2 = reach * reach;
    assert(len2 >= 0 && a2 >= 0) by (nonlinear_arith)
        requires
            len2 == dx * dx + dy * dy,
            a2 == a.0 * a.0 + a.1 * a.1,
    ;
    assert(b2 == a2 + 2 * dot + len2) by {
        lemma_share_square(a, b, 1, 1);
        assert(1 * a.0 + 1 * dx == b.0 && 1 * a.1 + 1 * dy == b.1);
        assert(1 * 1 * a2 == a2 && 2 * (1 * 1) * dot == 2 * dot && 1 * 1 * len2 == len2);
    }
    if passes_within(a, b, s, n, reach) {
        lemma_share_square(a, b, s, n);
        let x = n * a.0 + s * dx;
        let y = n * a.1 + s * dy;
        let z = x * x + y * y;
        assert((reach * n) * (reach * n) == r2 * (n * n)) by (nonlinear_arith)
            requires
                r2 == reach * reach,
        ;
        let ns = n * s;
        let nn = n * n;
        let ss = s * s;
        assert(ss - 2 * ns + nn >= 0) by (nonlinear_arith)
            requires
                nn == n * n,
                ss == s * s,
                ns == n * s,
        ;
        assert(nn > 0 && ss >= 0 && ns >= 0 && ss <= ns <= nn) by (nonlinear_arith)
            requires
                nn == n * n,
                ss == s * s,
                ns == n * s,
                0 < n,
                0 <= s <= n,
        ;
        assert(z == nn * a2 + 2 * ns * dot + ss * len2);
        if t <= 0 {
            assert(a2 <= r2) by (nonlinear_arith)
                requires
                    nn * a2 + 2 * ns * dot + ss * len2 <= r2 * nn,
                    nn > 0,
                    ns >= 0,
                    ss >= 0,
                    dot >= 0,
                    len2 >= 0,
            {
                assert(2 * ns * dot >= 0);
                assert(ss * len2 >= 0);
                assert(nn * a2 <= nn * r2);
            }
        } else if t >= len2 {
            assert(b2 <= r2) by (nonlinear_arith)
                requires
                    nn * a2 + 2 * ns * dot + ss * len2 <= r2 * nn,
                    nn > 0,
                    ss <= ns <= nn,
                    ss - 2 * ns + nn >= 0,
                    dot <= -len2,
                    len2 >= 0,
                    b2 == a2 + 2 * dot + len2,
            {
                // The distance falls all the way to the end.
                assert(nn * b2 == nn * a2 + 2 * nn * dot + nn * len2);
                assert(2 * (nn - ns) * dot <= -(2 * (nn - ns) * len2));
                assert(nn * b2 - (nn * a2 + 2 * ns * dot + ss * len2) == 2 * (nn - ns) * dot + (nn - ss) * len2);
                assert((nn - ss) * len2 - 2 * (nn - ns) * len2 == -((ss - 2 * ns + nn) * len2));
                assert((ss - 2 * ns + nn) * len2 >= 0);
                assert(nn * b2 <= nn * r2);
            }
        } else {
            lemma_parts_of_vector(x, y, dx, dy);
            let along = x * dx + y * dy;
            let side = x * dy - y * dx;
            assert(side == n * cross);
            assert(side * side <= z * len2) by (nonlinear_arith)
                requires
                    along * along + side * side == z * len2,
            ;
            assert(side * side == nn * (cross * cross)) by (nonlinear_arith)
                requires
                    side == n * cross,
                    nn == n * n,
            ;
            let c2 = cross * cross;
            assert(z * len2 <= (r2 * nn) * len2) by (nonlinear_arith)
                requires
                    z <= r2 * nn,
                    len2 >= 0,
            ;
            assert((r2 * nn) * len2 == nn * (r2 * len2)) by (nonlinear_arith);
            assert(c2 <= r2 * len2) by (nonlinear_arith)
                requires
                    nn * c2 <= nn * (r2 * len2),
                    nn > 0,
            ;
        }
    }
    if comes_close(a, b, reach) {
        if t <= 0 {
            assert(1 * a.0 + 0 * dx == a.0 && 1 * a.1 + 0 * dy == a.1);
            assert((reach * 1) * (reach * 1) == r2);
            assert(passes_within(a, b, 0, 1, reach));
        } else if t >= len2 {
            assert(1 * a.0 + 1 * dx == b.0 && 1 * a.1 + 1 * dy == b.1);
            assert((reach * 1) * (reach * 1) == r2);
            assert(passes_within(a, b, 1, 1, reach));
        } else {
            lemma_share_square(a, b, t, len2);
            let x = len2 * a.0 + t * dx;
            let y = len2 * a.1 + t * dy;
            lemma_parts_of_vector(x, y, dx, dy);
            let along = x * dx + y * dy;
            let side = x * dy - y * dx;
            assert(along == 0) by (nonlinear_arith)
                requires
                    along == len2 * dot + t * len2,
                    t == -dot,
            ;
            let z = x * x + y * y;
            let c2 = cross * cross;
            assert(side * side == len2 * len2 * c2) by (nonlinear_arith)
                requires
                    side == len2 * cross,
                    c2 == cross * cross,
            ;
            assert(along * along == 0) by (nonlinear_arith)
                requires
                    along == 0,
            ;
            assert(z == len2 * c2) by (nonlinear_arith)
                requires
                    len2 * len2 * c2 == z * len2,
                    len2 > 0,
            {
                assert(len2 * (len2 * c2) == len2 * z);
            }
            assert(len2 * c2 <= len2 * (r2 * len2)) by (nonlinear_arith)
                requires
                    c2 <= r2 * len2,
                    len2 > 0,
            ;
            assert(len2 * (r2 * len2) == (reach * len2) * (reach * len2)) by (nonlinear_arith)
                requires
                    r2 == reach * reach,
            ;
            assert(passes_within(a, b, t, len2, reach));
        }
    }
}

proof fn lemma_seen_lies_off(p: Point, row: int, col: int, k: int, mid: Point)
    requires
        mid.lon == col_lon(col),
        mid.lat == row_lat(row),
    ensures
        lies_off(p, mid, k, seen_from(p, row, col, k)),
{
    let d = p.lon - mid.lon;
    let m = metres(d);
    assert(1_280_000 * m <= 111 * d < 1_280_000 * m + 1_280_000);
    let e = p.lat - mid.lat;
    assert(1_280_000 * metres(e) <= 111 * e < 1_280_000 * metres(e) + 1_280_000);
    assert(1_000_000_000 * east_metres(d, k) <= m * k < 1_000_000_000 * east_metres(d, k) + 1_000_000_000);
}

proof fn lemma_lies_off_once(p: Point, row: int, col: int, k: int, mid: Point, off: (int, int))
    requires
        mid.lon == col_lon(col),
        mid.lat == row_lat(row),
        lies_off(p, mid, k, off),
    ensures
        off == seen_from(p, row, col, k),
{
    let d = p.lon - mid.lon;
    let m = choose|m: int|
        {
            &&& #[trigger] (1_280_000 * m) <= 111 * (p.lon - mid.lon) < 1_280_000 * m + 1_280_000
            &&& 1_000_000_000 * off.0 <= m * k < 1_000_000_000 * off.0 + 1_000_000_000
        };
    assert(m == metres(d));
    assert(off.0 == east_metres(d, k));
    assert(off.1 == metres(p.lat - mid.lat));
}

/// The middle of a cell.
pub open spec fn is_cell_middle(row: int, col: int, mid: Point) -> bool {
    &&& 100 * (mid.lon + HALF_TURN) == (2 * col + 1) * DEGREE
    &&& 100 * (mid.lat + QUARTER_TURN) == (2 * row + 1) * DEGREE
}

/// What is painted lies on a corridor: some position on a leg of the centreline is not further than
/// half the width, in whole metres, from the middle of the cell. A degree of longitude is taken as
/// the cosine of the latitude says.
pub proof fn lemma_painted_lies_on_corridor<C: Fn(i64) -> u64>(
    ways: Seq<Corridor>,
    cos: C,
    row: int,
    col: int,
    mid: Point,
) -> (r: (int, int, (int, int), (int, int), int, int))
    requires
        painted(ways, cos, row, col),
        is_cell_middle(row, col, mid),
    ensures
        0 <= r.0 < ways.len(),
        0 <= r.1 < ways[r.0].points.len() - 1,
        ({
            let k = cosine(cos, mid.lat);
            let k = if k < 1_000_000_000 {
                k as int
            } else {
                1_000_000_000
            };
            &&& lies_off(ways[r.0].points[r.1], mid, k, r.2)
            &&& lies_off(ways[r.0].points[r.1 + 1], mid, k, r.3)
        }),
        passes_within(r.2, r.3, r.4, r.5, ways[r.0].half_width as int / 1_000_000),
{
    let w = choose|i: int| 0 <= i < ways.len() && way_paints(#[trigger] ways[i], cos, row, col);
    let way = ways[w];
    let i = choose|i: int|
        0 <= i < way.points.len() - 1 && leg_paints(
            #[trigger] way.points[i],
            way.points[i + 1],
            reach_of(way),
            cos,
            row,
            col,
        );
    assert(mid.lon == col_lon(col) && mid.lat == row_lat(row));
    let k = clipped(cosine(cos, row_lat(row) as i64));
    let a = seen_from(way.points[i], row, col, k);
    let b = seen_from(way.points[i + 1], row, col, k);
    lemma_seen_lies_off(way.points[i], row, col, k, mid);
    lemma_seen_lies_off(way.points[i + 1], row, col, k, mid);
    lemma_comes_close(a, b, reach_of(way), 0, 1);
    let (s, n) = choose|s: int, n: int| #[trigger] passes_within(a, b, s, n, reach_of(way));
    (w, i, a, b, s, n)
}

/// All of a corridor is painted: a cell is, if some position on a leg of the centreline is not
/// further than half the width, in whole metres, from the middle of the cell.
pub proof fn lemma_corridor_is_painted<C: Fn(i64) -> u64>(
    ways: Seq<Corridor>,
    cos: C,
    row: int,
    col: int,
    mid: Point,
    w: int,
    i: int,
    a: (int, int),
    b: (int, int),
    s: int,
    n: int,
)
    requires
        is_cell_middle(row, col, mid),
        0 <= w < ways.len(),
        0 <= i < ways[w].points.len() - 1,
        ({
            let k = cosine(cos, mid.lat);
            let k = if k < 1_000_000_000 {
                k as int
            } else {
                1_000_000_000
            };
            &&& lies_off(ways[w].points[i], mid, k, a)
            &&& lies_off(ways[w].points[i + 1], mid, k, b)
        }),
        passes_within(a, b, s, n, ways[w].half_width as int / 1_000_000),
    ensures
        painted(ways, cos, row, col),
{
    assert(mid.lon == col_lon(col) && mid.lat == row_lat(row));
    let k = clipped(cosine(cos, row_lat(row) as i64));
    lemma_lies_off_once(ways[w].points[i], row, col, k, mid, a);
    lemma_lies_off_once(ways[w].points[i + 1], row, col, k, mid, b);
    lemma_comes_close(a, b, reach_of(ways[w]), s, n);
    assert(leg_paints(ways[w].points[i], ways[w].points[i + 1], reach_of(ways[w]), cos, row, col));
    assert(way_paints(ways[w], cos, row, col));
}

} // verus!
