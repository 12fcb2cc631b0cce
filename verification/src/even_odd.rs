//! The raster and the exact test agree: a cell is filled where its middle is enclosed.
use vstd::prelude::*;

use crate::corridors::col_lon;
use crate::geo::{Point, DEGREE, HALF_TURN, QUARTER_TURN};
use crate::heap::ascending;
use crate::land::{encloses, ray_crosses, ray_crossings};
use crate::raster::{
    between_pairs, crosses, crossing_col, crossings, ring_fills, rings_fill, row_lat, RASTER_CELL,
    RASTER_COLS, RASTER_ROWS,
};

verus! {

/// How many of the numbers are less than `x`.
spec fn fewer(s: Seq<i64>, x: int) -> int
    decreases s.len(),
{
    if s.len() == 0 {
        0
    } else {
        fewer(s.drop_last(), x) + if s.last() < x {
            1int
        } else {
            0int
        }
    }
}

proof fn lemma_fewer_range(s: Seq<i64>, x: int)
    ensures
        0 <= fewer(s, x) <= s.len(),
    decreases s.len(),
{
    if s.len() > 0 {
        lemma_fewer_range(s.drop_last(), x);
    }
}

proof fn lemma_fewer_remove(s: Seq<i64>, j: int, x: int)
    requires
        0 <= j < s.len(),
    ensures
        fewer(s, x) == fewer(s.remove(j), x) + if s[j] < x {
            1int
        } else {
            0int
        },
    decreases s.len(),
{
    let t = s.remove(j);
    if j == s.len() - 1 {
        assert(t =~= s.drop_last());
    } else {
        lemma_fewer_remove(s.drop_last(), j, x);
        assert(t.drop_last() =~= s.drop_last().remove(j));
        assert(t.last() == s.last());
    }
}

proof fn lemma_fewer_same(s: Seq<i64>, t: Seq<i64>, x: int)
    requires
        s.to_multiset() == t.to_multiset(),
    ensures
        fewer(s, x) == fewer(t, x),
        s.len() == t.len(),
    decreases s.len(),
{
    broadcast use vstd::seq_lib::group_to_multiset_ensures;

    assert(s.to_multiset().len() == s.len() && t.to_multiset().len() == t.len());
    if s.len() > 0 {
        let last = s.last();
        assert(s.contains(last)) by {
            assert(s[s.len() - 1] == last);
        }
        assert(t.to_multiset().count(last) > 0);
        assert(t.contains(last));
        let j = choose|j: int| 0 <= j < t.len() && t[j] == last;
        lemma_fewer_remove(t, j, x);
        lemma_fewer_remove(s, s.len() - 1, x);
        let a = s.remove(s.len() - 1);
        let b = t.remove(j);
        assert(a.to_multiset() =~= b.to_multiset());
        lemma_fewer_same(a, b, x);
    }
}

proof fn lemma_fewer_sorted(s: Seq<i64>, x: int, i: int)
    requires
        forall|i: int, j: int| 0 <= i <= j < s.len() ==> s[i] <= s[j],
        0 <= i < s.len(),
    ensures
        s[i] < x <==> i < fewer(s, x),
    decreases s.len(),
{
    let t = s.drop_last();
    lemma_fewer_range(t, x);
    if s.last() < x {
        if t.len() > 0 {
            lemma_fewer_sorted(t, x, t.len() - 1);
            assert(t[t.len() - 1] <= s.last());
        }
        assert(fewer(s, x) == s.len());
        assert(s[i] <= s[s.len() - 1]);
    } else if i < t.len() {
        lemma_fewer_sorted(t, x, i);
    }
}

proof fn lemma_pairs(s: Seq<i64>, x: int, k: int)
    requires
        forall|i: int, j: int| 0 <= i <= j < s.len() ==> s[i] <= s[j],
        forall|i: int| 0 <= i < s.len() ==> #[trigger] s[i] != x,
        0 <= k,
        2 * k <= s.len(),
    ensures
        between_pairs(s, x, k) == (fewer(s, x) % 2 == 1 && fewer(s, x) < 2 * k),
    decreases k,
{
    lemma_fewer_range(s, x);
    if k > 0 {
        lemma_pairs(s, x, k - 1);
        assert(s[2 * k - 1] != x && s[2 * k - 2] != x);
        lemma_fewer_sorted(s, x, 2 * k - 2);
        lemma_fewer_sorted(s, x, 2 * k - 1);
    }
}

proof fn lemma_crossing_parity(ring: Seq<Point>, lat: int, n: int)
    requires
        0 <= n < ring.len(),
    ensures
        (crossings(ring, lat, n).len() % 2 == 1) == ((ring[0].lat <= lat) != (ring[n].lat <= lat)),
    decreases n,
{
    if n > 0 {
        lemma_crossing_parity(ring, lat, n - 1);
        assert(n % ring.len() as int == n) by {
            vstd::arithmetic::div_mod::lemma_small_mod(n as nat, ring.len());
        }
    }
}

/// A ring crosses a parallel an even number of times.
proof fn lemma_crossings_even(ring: Seq<Point>, lat: int)
    requires
        ring.len() >= 1,
    ensures
        crossings(ring, lat, ring.len() as int).len() % 2 == 0,
{
    let n = ring.len() as int;
    lemma_crossing_parity(ring, lat, n - 1);
    assert(n % n == 0) by {
        vstd::arithmetic::div_mod::lemma_mod_self_0(n);
    }
}

proof fn lemma_ray_either_way(a: Point, b: Point, p: Point)
    ensures
        ray_crosses(a, b, p) == ray_crosses(b, a, p),
{
    let x = p.lon - a.lon;
    let y = p.lat - a.lat;
    let u = b.lon - a.lon;
    let v = b.lat - a.lat;
    assert((p.lon - b.lon) * (a.lat - b.lat) == -(x * v) + u * v) by (nonlinear_arith)
        requires
            x == p.lon - a.lon,
            u == b.lon - a.lon,
            v == b.lat - a.lat,
    ;
    assert((a.lon - b.lon) * (p.lat - b.lat) == -(u * y) + u * v) by (nonlinear_arith)
        requires
            y == p.lat - a.lat,
            u == b.lon - a.lon,
            v == b.lat - a.lat,
    ;
}

/// An edge that crosses the middle of a row in another column crosses the ray eastward from the
/// middle of the cell if and only if that column lies further east.
proof fn lemma_column_of_ray(a: Point, b: Point, row: int, col: int, p: Point)
    requires
        0 <= col < RASTER_COLS,
        p.lon == col_lon(col),
        p.lat == row_lat(row),
        crosses(a, b, row_lat(row)),
        crossing_col(a, b, row_lat(row)) != col,
    ensures
        ray_crosses(a, b, p) == (crossing_col(a, b, row_lat(row)) > col),
{
    let lat = row_lat(row);
    let rise = b.lat - a.lat;
    let x = p.lon + HALF_TURN;
    let over = (a.lon + HALF_TURN) * rise + (lat - a.lat) * (b.lon - a.lon);
    let cell = RASTER_CELL as int;
    assert(x == col * cell + cell / 2);
    assert((p.lon - a.lon) * rise == x * rise - (a.lon + HALF_TURN) * rise) by (nonlinear_arith)
        requires
            x == p.lon + HALF_TURN,
    ;
    assert((b.lon - a.lon) * (p.lat - a.lat) == (lat - a.lat) * (b.lon - a.lon)) by (nonlinear_arith)
        requires
            lat == p.lat,
    ;
    let (h, o) = if rise > 0 {
        (rise, over)
    } else {
        (-rise, -over)
    };
    assert(x * (-rise) == -(x * rise)) by (nonlinear_arith);
    assert(ray_crosses(a, b, p) == (x * h < o));
    let d = h * cell;
    assert(d > 0) by (nonlinear_arith)
        requires
            d == h * cell,
            h > 0,
            cell == 25_600_000,
    ;
    let q = o / d;
    vstd::arithmetic::div_mod::lemma_fundamental_div_mod(o, d);
    if q > col {
        assert(x * h < o) by (nonlinear_arith)
            requires
                d * q <= o,
                q >= col + 1,
                d == h * cell,
                h > 0,
                cell == 25_600_000,
                x == col * cell + cell / 2,
        {
            assert(d * q >= d * (col + 1));
            assert(d * (col + 1) == h * (cell * col + cell));
            assert(x * h == h * (col * cell + cell / 2));
            assert(h * (col * cell + cell / 2) < h * (cell * col + cell));
        }
    }
    if q < col {
        assert(x * h > o) by (nonlinear_arith)
            requires
                o < d * q + d,
                q <= col - 1,
                d == h * cell,
                h > 0,
                cell == 25_600_000,
                x == col * cell + cell / 2,
        {
            assert(d * q + d <= d * col);
            assert(d * col == h * (cell * col));
            assert(x * h == h * (col * cell + cell / 2));
            assert(h * (col * cell + cell / 2) > h * (cell * col));
        }
    }
}

/// How many of the first `n` edges the ray eastward crosses, in the order of the edges.
spec fn rays(ring: Seq<Point>, p: Point, n: int) -> int
    decreases n,
{
    if n <= 0 {
        0
    } else {
        rays(ring, p, n - 1) + if ray_crosses(ring[n - 1], ring[n % ring.len() as int], p) {
            1int
        } else {
            0int
        }
    }
}

proof fn lemma_rays_shifted(ring: Seq<Point>, p: Point, n: int)
    requires
        1 <= n <= ring.len(),
    ensures
        ray_crossings(ring, p, n) == rays(ring, p, n - 1) + if ray_crosses(ring.last(), ring[0], p) {
            1int
        } else {
            0int
        },
    decreases n,
{
    if n > 1 {
        lemma_rays_shifted(ring, p, n - 1);
        lemma_ray_either_way(ring[n - 1], ring[n - 2], p);
        assert((n - 1) % ring.len() as int == n - 1) by {
            vstd::arithmetic::div_mod::lemma_small_mod((n - 1) as nat, ring.len());
        }
    } else {
        assert(ray_crossings(ring, p, 0) == 0);
        lemma_ray_either_way(ring[0], ring.last(), p);
    }
}

proof fn lemma_rays_all(ring: Seq<Point>, p: Point)
    requires
        ring.len() >= 1,
    ensures
        ray_crossings(ring, p, ring.len() as int) == rays(ring, p, ring.len() as int),
{
    let n = ring.len() as int;
    lemma_rays_shifted(ring, p, n);
    assert(n % n == 0) by {
        vstd::arithmetic::div_mod::lemma_mod_self_0(n);
    }
}

/// No edge of the ring crosses the middle of the row within the column.
pub open spec fn misses_cell(ring: Seq<Point>, row: int, col: int) -> bool {
    forall|j: int|
        0 <= j < ring.len() && crosses(#[trigger] ring[j], ring[(j + 1) % ring.len() as int], row_lat(row))
            ==> crossing_col(ring[j], ring[(j + 1) % ring.len() as int], row_lat(row)) != col
}

proof fn lemma_rays_count(ring: Seq<Point>, row: int, col: int, p: Point, n: int)
    requires
        0 <= n <= ring.len(),
        0 <= col < RASTER_COLS,
        p.lon == col_lon(col),
        p.lat == row_lat(row),
        misses_cell(ring, row, col),
    ensures
        rays(ring, p, n) + fewer(crossings(ring, row_lat(row), n), col) == crossings(ring, row_lat(row), n).len(),
        forall|i: int| 0 <= i < crossings(ring, row_lat(row), n).len() ==> #[trigger] crossings(
            ring,
            row_lat(row),
            n,
        )[i] != col,
    decreases n,
{
    let lat = row_lat(row);
    if n > 0 {
        lemma_rays_count(ring, row, col, p, n - 1);
        let a = ring[n - 1];
        let b = ring[n % ring.len() as int];
        let before = crossings(ring, lat, n - 1);
        assert(ring[(n - 1 + 1) % ring.len() as int] == b);
        if crosses(a, b, lat) {
            lemma_column_of_ray(a, b, row, col, p);
            assert(before.push(crossing_col(a, b, lat)).drop_last() =~= before);
        }
    }
}

/// The raster shows what the exact geometry does: where no edge of a ring crosses the middle of a
/// row within a cell, the ring fills the cell if and only if it encloses the middle of the cell.
pub proof fn lemma_fill_is_enclosure(ring: Seq<Point>, row: int, col: int, p: Point)
    requires
        ring.len() >= 3,
        0 <= row < RASTER_ROWS,
        0 <= col < RASTER_COLS,
        50 * 2 * (p.lon + HALF_TURN) == (2 * col + 1) * DEGREE,
        50 * 2 * (p.lat + QUARTER_TURN) == (2 * row + 1) * DEGREE,
        misses_cell(ring, row, col),
    ensures
        ring_fills(ring, row, col) == encloses(ring, p),
{
    assert(p.lon == col_lon(col) && p.lat == row_lat(row)) by (nonlinear_arith)
        requires
            50 * 2 * (p.lon + HALF_TURN) == (2 * col + 1) * DEGREE,
            50 * 2 * (p.lat + QUARTER_TURN) == (2 * row + 1) * DEGREE,
            col_lon(col) == -HALF_TURN + col * RASTER_CELL + RASTER_CELL / 2,
            row_lat(row) == -QUARTER_TURN + row * RASTER_CELL + RASTER_CELL / 2,
            RASTER_CELL == 25_600_000,
            DEGREE == 1_280_000_000,
    ;
    let n = ring.len() as int;
    let cols = crossings(ring, row_lat(row), n);
    let sorted = ascending(cols);
    let leq = |a: i64, b: i64| a <= b;
    cols.lemma_sort_by_ensures(leq);
    lemma_fewer_same(cols, sorted, col);
    lemma_rays_all(ring, p);
    lemma_rays_count(ring, row, col, p, n);
    lemma_crossings_even(ring, row_lat(row));
    assert forall|i: int, j: int| 0 <= i <= j < sorted.len() implies sorted[i] <= sorted[j] by {
        if i < j {
            assert(leq(sorted[i], sorted[j]));
        }
    }
    assert forall|i: int| 0 <= i < sorted.len() implies #[trigger] sorted[i] != col by {
        broadcast use vstd::seq_lib::group_to_multiset_ensures;

        assert(sorted.contains(sorted[i]));
        assert(cols.to_multiset().count(sorted[i]) > 0);
        assert(cols.contains(sorted[i]));
        let k = choose|k: int| 0 <= k < cols.len() && cols[k] == sorted[i];
    }
    let m = sorted.len() as int / 2;
    lemma_pairs(sorted, col, m);
    lemma_fewer_range(sorted, col);
}

/// An odd number of the rings enclose the position.
pub open spec fn oddly_enclosed(rings: Seq<Seq<Point>>, p: Point) -> bool
    decreases rings.len(),
{
    if rings.len() == 0 {
        false
    } else {
        oddly_enclosed(rings.drop_last(), p) != encloses(rings.last(), p)
    }
}

/// Where no edge of any ring crosses the middle of a row within a cell, the cell is filled if and
/// only if an odd number of the rings enclose its middle.
pub proof fn lemma_raster_is_exact(rings: Seq<Seq<Point>>, row: int, col: int, p: Point)
    requires
        forall|i: int| 0 <= i < rings.len() ==> (#[trigger] rings[i]).len() >= 3 && misses_cell(rings[i], row, col),
        0 <= row < RASTER_ROWS,
        0 <= col < RASTER_COLS,
        50 * 2 * (p.lon + HALF_TURN) == (2 * col + 1) * DEGREE,
        50 * 2 * (p.lat + QUARTER_TURN) == (2 * row + 1) * DEGREE,
    ensures
        rings_fill(rings, row, col) == oddly_enclosed(rings, p),
    decreases rings.len(),
{
    if rings.len() > 0 {
        let less = rings.drop_last();
        assert forall|i: int| 0 <= i < less.len() implies (#[trigger] less[i]).len() >= 3 && misses_cell(
            less[i],
            row,
            col,
        ) by {
            assert(less[i] == rings[i]);
        }
        lemma_raster_is_exact(less, row, col, p);
        assert(rings[rings.len() - 1].len() >= 3);
        lemma_fill_is_enclosure(rings.last(), row, col, p);
    }
}

/// A rectangle encloses what lies inside it, whichever of its corners comes first.
pub proof fn lemma_rectangle_encloses(a: Point, b: Point, p: Point)
    requires
        a.lon < p.lon < b.lon || b.lon < p.lon < a.lon,
        a.lat < p.lat < b.lat || b.lat < p.lat < a.lat,
    ensures
        encloses(
            seq![a, Point { lon: b.lon, lat: a.lat }, b, Point { lon: a.lon, lat: b.lat }],
            p,
        ),
{
    let ring = seq![a, Point { lon: b.lon, lat: a.lat }, b, Point { lon: a.lon, lat: b.lat }];
    let rise = b.lat - a.lat;
    assert(ray_crossings(ring, p, 0) == 0);
    assert(ray_crossings(ring, p, 1) == if ray_crosses(ring[0], ring[3], p) { 1nat } else { 0nat });
    assert(!ray_crosses(ring[1], ring[0], p));
    assert(!ray_crosses(ring[3], ring[2], p));
    let w = p.lon - a.lon;
    let e = p.lon - b.lon;
    assert((ring[3].lon - ring[0].lon) * (p.lat - ring[0].lat) == 0) by (nonlinear_arith)
        requires
            ring[3].lon - ring[0].lon == 0,
    ;
    assert((ring[1].lon - ring[2].lon) * (p.lat - ring[2].lat) == 0) by (nonlinear_arith)
        requires
            ring[1].lon - ring[2].lon == 0,
    ;
    assert((w > 0 ==> (rise > 0 ==> w * rise > 0) && (rise < 0 ==> w * rise < 0)) && (w < 0 ==> (rise > 0 ==> w
        * rise < 0) && (rise < 0 ==> w * rise > 0))) by (nonlinear_arith);
    let fall = -rise;
    assert((e > 0 ==> (fall > 0 ==> e * fall > 0) && (fall < 0 ==> e * fall < 0)) && (e < 0 ==> (fall > 0 ==> e
        * fall < 0) && (fall < 0 ==> e * fall > 0))) by (nonlinear_arith);
    assert(ray_crosses(ring[0], ring[3], p) == (w < 0));
    assert(ray_crosses(ring[2], ring[1], p) == (e < 0));
    assert(ray_crossings(ring, p, 2) == ray_crossings(ring, p, 1));
    assert(ray_crossings(ring, p, 3) == ray_crossings(ring, p, 2) + if e < 0 { 1nat } else { 0nat });
    assert(ray_crossings(ring, p, 4) == ray_crossings(ring, p, 3));
}

/// The edge from the corner with this index to the next crosses the parallel.
pub open spec fn edge_crosses(ring: Seq<Point>, k: int, lat: int) -> bool {
    crosses(ring[k], ring[(k + 1) % ring.len() as int], lat)
}

/// The column in which that edge does so.
pub open spec fn edge_col(ring: Seq<Point>, k: int, lat: int) -> int {
    crossing_col(ring[k], ring[(k + 1) % ring.len() as int], lat) as int
}

proof fn lemma_two_crossings(ring: Seq<Point>, lat: int, i: int, j: int, n: int)
    requires
        0 <= i < j < ring.len(),
        0 <= n <= ring.len(),
        forall|k: int| 0 <= k < ring.len() ==> (#[trigger] edge_crosses(ring, k, lat) <==> k == i || k == j),
    ensures
        crossings(ring, lat, n).len() == if n <= i {
            0int
        } else if n <= j {
            1int
        } else {
            2int
        },
        n > i ==> crossings(ring, lat, n)[0] == edge_col(ring, i, lat),
        n > j ==> crossings(ring, lat, n)[1] == edge_col(ring, j, lat),
    decreases n,
{
    if n > 0 {
        lemma_two_crossings(ring, lat, i, j, n - 1);
        assert(edge_crosses(ring, n - 1, lat) <==> n - 1 == i || n - 1 == j);
        assert(n - 1 + 1 == n);
    }
}

proof fn lemma_two_sorted(cols: Seq<i64>)
    requires
        cols.len() == 2,
    ensures
        ascending(cols).len() == 2,
        ascending(cols)[0] <= ascending(cols)[1],
        ascending(cols)[0] == cols[0] || ascending(cols)[0] == cols[1],
        ascending(cols)[1] == cols[0] || ascending(cols)[1] == cols[1],
        cols[0] == ascending(cols)[0] || cols[0] == ascending(cols)[1],
        cols[1] == ascending(cols)[0] || cols[1] == ascending(cols)[1],
{
    broadcast use vstd::seq_lib::group_to_multiset_ensures;

    let sorted = ascending(cols);
    let leq = |a: i64, b: i64| a <= b;
    cols.lemma_sort_by_ensures(leq);
    lemma_fewer_same(cols, sorted, 0);
    assert(leq(sorted[0], sorted[1]));
    assert forall|v: i64| cols.contains(v) == sorted.contains(v) by {
        assert(cols.contains(v) <==> cols.to_multiset().count(v) > 0);
        assert(sorted.contains(v) <==> sorted.to_multiset().count(v) > 0);
    }
    assert(cols.contains(cols[0]) && cols.contains(cols[1]));
    assert(sorted.contains(sorted[0]) && sorted.contains(sorted[1]));
    assert(sorted.contains(cols[0]) && sorted.contains(cols[1]));
    assert(cols.contains(sorted[0]) && cols.contains(sorted[1]));
}

/// The shore counts as land, so that no island is too narrow to show: where two edges of a ring
/// cross the middle of a row and no others do, the ring fills the cells that they cross it in and
/// those between them, and no others.
pub proof fn lemma_shore_is_filled(ring: Seq<Point>, row: int, col: int, i: int, j: int)
    requires
        0 <= i < j < ring.len(),
        forall|k: int|
            0 <= k < ring.len() ==> (#[trigger] edge_crosses(ring, k, row_lat(row)) <==> k == i || k == j),
    ensures
        ring_fills(ring, row, col) <==> {
            ||| edge_col(ring, i, row_lat(row)) <= col <= edge_col(ring, j, row_lat(row))
            ||| edge_col(ring, j, row_lat(row)) <= col <= edge_col(ring, i, row_lat(row))
        },
{
    let cols = crossings(ring, row_lat(row), ring.len() as int);
    lemma_two_crossings(ring, row_lat(row), i, j, ring.len() as int);
    lemma_two_sorted(cols);
    let sorted = ascending(cols);
    assert(!between_pairs(sorted, col, 0));
    assert(between_pairs(sorted, col, 1) == (sorted[0] <= col <= sorted[1]));
}

} // verus!
