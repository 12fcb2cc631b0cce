//! The quadtree of the globe: its cells are split until they are all water or all land.
use vstd::prelude::*;

use crate::geo::{floor_div, BBox, Point, DEGREE, HALF_TURN, QUARTER_TURN, WORLD};
use crate::land::{box_span, corner_box, LandClassifier, ISLAND_MAX};
use crate::quadtree::{cell_count, cell_count_of, leaves, leaves_of};
use crate::raster::RASTER_CELL;
use crate::spatial::{box_items, BoxEntry};

verus! {

/// Cell types in the quadtree.
#[derive(Clone, Copy, PartialEq, Eq, Structural, Debug)]
pub enum CellType {
    Water,
    Land,
    Mixed,
}

/// A leaf of the quadtree that is water.
#[derive(Clone, Copy, PartialEq, Eq, Structural, Debug)]
pub struct WaterLeaf {
    pub min_lon: i64,
    pub min_lat: i64,
    pub max_lon: i64,
    pub max_lat: i64,
    pub depth: u8,
}

/// A cell of the quadtree. It has no children, or four.
pub struct QuadCell {
    pub min_lon: i64,
    pub min_lat: i64,
    pub max_lon: i64,
    pub max_lat: i64,
    pub depth: u8,
    pub cell_type: CellType,
    pub children: Vec<QuadCell>,
}

impl QuadCell {
    pub open spec fn bbox(&self) -> BBox {
        BBox {
            min_lon: self.min_lon,
            min_lat: self.min_lat,
            max_lon: self.max_lon,
            max_lat: self.max_lat,
        }
    }

    pub fn is_leaf(&self) -> (r: bool)
        ensures
            r == (self.children.len() == 0),
    {
        self.children.len() == 0
    }
}

/// How far apart the samples of a cell may be: 0.25 degrees.
pub const MAX_SPACING: i64 = 320_000_000;

/// How many samples are taken along a side of a cell: three at least.
pub open spec fn side_samples(side: int) -> int {
    let n = (side + MAX_SPACING - 1) / MAX_SPACING as int + 1;
    if n >= 3 {
        n
    } else {
        3
    }
}

/// The land test for a cell: the raster, or the exact test once the cell is smaller than a
/// cell of the raster.
pub open spec fn cell_land(c: LandClassifier, b: BBox, p: Point) -> bool {
    if b.max_lon - b.min_lon < RASTER_CELL {
        c.land_precise(p)
    } else {
        c.land(p.lon as int, p.lat as int)
    }
}

/// The sample of a cell in column `x` and row `y` of its grid.
pub open spec fn cell_sample(b: BBox, x: int, y: int) -> Point {
    let w = b.max_lon - b.min_lon;
    let h = b.max_lat - b.min_lat;
    Point {
        lon: (b.min_lon + (x * w) / (side_samples(w) - 1)) as i64,
        lat: (b.min_lat + (y * h) / (side_samples(h) - 1)) as i64,
    }
}

/// A sample of the cell is land, or is water, as asked.
pub open spec fn some_sample(c: LandClassifier, b: BBox, land: bool) -> bool {
    exists|x: int, y: int|
        0 <= x < side_samples(b.max_lon - b.min_lon) && 0 <= y < side_samples(b.max_lat - b.min_lat)
            && cell_land(c, b, #[trigger] cell_sample(b, x, y)) == land
}

/// A ring of an island meets the cell.
pub open spec fn island_near(c: LandClassifier, b: BBox) -> bool {
    exists|e: BoxEntry|
        #![trigger box_items(c.tree).contains(e)]
        box_items(c.tree).contains(e) && e.bbox.meets(b) && box_span(e.bbox) <= ISLAND_MAX
}

/// What a cell is: water where no land ring is near; else by its samples. Where none of them
/// is land but an island is near, the samples may have stepped over it, and the cell is
/// mixed.
pub open spec fn kind(c: LandClassifier, b: BBox) -> CellType {
    if !c.near_land(b) {
        CellType::Water
    } else if some_sample(c, b, true) {
        if some_sample(c, b, false) {
            CellType::Mixed
        } else {
            CellType::Land
        }
    } else if island_near(c, b) {
        CellType::Mixed
    } else {
        CellType::Water
    }
}

/// The middle of a cell.
pub open spec fn middle(b: BBox) -> Point {
    Point { lon: ((b.min_lon + b.max_lon) / 2) as i64, lat: ((b.min_lat + b.max_lat) / 2) as i64 }
}

/// The four quarters of a cell: south-west, south-east, north-west, north-east.
pub open spec fn quarter(b: BBox, k: int) -> BBox {
    let m = middle(b);
    BBox {
        min_lon: if k % 2 == 0 { b.min_lon } else { m.lon },
        min_lat: if k < 2 { b.min_lat } else { m.lat },
        max_lon: if k % 2 == 0 { m.lon } else { b.max_lon },
        max_lat: if k < 2 { m.lat } else { b.max_lat },
    }
}

/// The cell is the root of the tree that comes of splitting mixed cells down to the
/// greatest depth; what is still mixed there is what its middle is.
pub open spec fn is_tree(q: QuadCell, c: LandClassifier, b: BBox, depth: int, max_depth: int) -> bool
    decreases max_depth - depth,
{
    &&& q.bbox() == b
    &&& q.depth == depth
    &&& if kind(c, b) != CellType::Mixed {
        q.cell_type == kind(c, b) && q.children.len() == 0
    } else if depth >= max_depth {
        &&& q.cell_type == if cell_land(c, b, middle(b)) {
            CellType::Land
        } else {
            CellType::Water
        }
        &&& q.children.len() == 0
    } else {
        &&& q.cell_type == CellType::Mixed
        &&& q.children.len() == 4
        &&& is_tree(q.children[0], c, quarter(b, 0), depth + 1, max_depth)
        &&& is_tree(q.children[1], c, quarter(b, 1), depth + 1, max_depth)
        &&& is_tree(q.children[2], c, quarter(b, 2), depth + 1, max_depth)
        &&& is_tree(q.children[3], c, quarter(b, 3), depth + 1, max_depth)
    }
}

/// The whole globe.
pub open spec fn globe() -> BBox {
    BBox {
        min_lon: (-HALF_TURN) as i64,
        min_lat: (-QUARTER_TURN) as i64,
        max_lon: HALF_TURN,
        max_lat: QUARTER_TURN,
    }
}

fn samples_along(side: i64) -> (n: u64)
    requires
        0 <= side <= 2 * WORLD,
    ensures
        n == side_samples(side as int),
        3 <= n <= 10_000,
{
    let n: u64 = ((side + (MAX_SPACING - 1)) / MAX_SPACING) as u64 + 1;
    if n >= 3 {
        n
    } else {
        3
    }
}

fn is_cell_land(classifier: &LandClassifier, small: bool, p: Point) -> (r: bool)
    requires
        classifier.wf(),
        p.within(WORLD as int),
    ensures
        r == if small {
            classifier.land_precise(p)
        } else {
            classifier.land(p.lon as int, p.lat as int)
        },
{
    if small {
        classifier.is_land_precise(p.lon, p.lat)
    } else {
        classifier.is_land(p.lon, p.lat)
    }
}

fn sample_at(min: i64, side: i64, i: u64, n: u64) -> (r: i64)
    requires
        -WORLD <= min <= WORLD,
        0 <= side <= 2 * WORLD,
        min + side <= WORLD,
        i < n,
        3 <= n <= 10_000,
    ensures
        r == min + (i * side) / (n - 1),
        min <= r <= min + side,
{
    proof {
        let d = n - 1;
        assert(0 <= i * side <= d * side) by (nonlinear_arith)
            requires
                0 <= i <= d,
                0 <= side,
        ;
        assert(d * side <= 0x2000_0000_0000_0000) by (nonlinear_arith)
            requires
                0 <= d <= 10_000,
                0 <= side <= 2_199_023_255_552,
        ;
        let q = (i * side) / d;
        let r = (i * side) % d;
        vstd::arithmetic::div_mod::lemma_fundamental_div_mod(i * side, d);
        assert(0 <= q <= side) by (nonlinear_arith)
            requires
                d * q + r == i * side,
                0 <= r < d,
                0 <= i * side <= d * side,
        ;
    }
    let step: i64 = ((i as i64) * side) / (n as i64 - 1);
    min + step
}

/// Classify a cell by a grid of samples, at most 0.25 degrees apart.
pub fn classify_cell(classifier: &LandClassifier, min_lon: i64, min_lat: i64, max_lon: i64, max_lat: i64) -> (r: CellType)
    requires
        classifier.wf(),
        -WORLD <= min_lon <= max_lon <= WORLD,
        -WORLD <= min_lat <= max_lat <= WORLD,
    ensures
        r == kind(*classifier, BBox { min_lon, min_lat, max_lon, max_lat }),
{
    let ghost b = BBox { min_lon, min_lat, max_lon, max_lat };
    assert(corner_box(min_lon, min_lat, max_lon, max_lat) == b);
    if !classifier.overlaps_land(min_lon, min_lat, max_lon, max_lat) {
        return CellType::Water;
    }
    let w: i64 = max_lon - min_lon;
    let h: i64 = max_lat - min_lat;
    let nx = samples_along(w);
    let ny = samples_along(h);
    let small = w < RASTER_CELL;
    let mut some_land = false;
    let mut some_water = false;
    let mut x: u64 = 0;
    while x < nx
        invariant
            classifier.wf(),
            -WORLD <= min_lon <= max_lon <= WORLD,
            -WORLD <= min_lat <= max_lat <= WORLD,
            b == (BBox { min_lon, min_lat, max_lon, max_lat }),
            classifier.near_land(b),
            w == max_lon - min_lon,
            h == max_lat - min_lat,
            nx == side_samples(w as int),
            ny == side_samples(h as int),
            3 <= nx <= 10_000,
            3 <= ny <= 10_000,
            small == (w < RASTER_CELL),
            x <= nx,
            !(some_land && some_water),
            forall|i: int, j: int|
                0 <= i < x && 0 <= j < ny ==> if cell_land(
                    *classifier,
                    b,
                    #[trigger] cell_sample(b, i, j),
                ) {
                    some_land
                } else {
                    some_water
                },
            some_land ==> some_sample(*classifier, b, true),
            some_water ==> some_sample(*classifier, b, false),
        decreases nx - x,
    {
        let lon = sample_at(min_lon, w, x, nx);
        let mut y: u64 = 0;
        while y < ny
            invariant
                classifier.wf(),
                -WORLD <= min_lon <= max_lon <= WORLD,
                -WORLD <= min_lat <= max_lat <= WORLD,
                b == (BBox { min_lon, min_lat, max_lon, max_lat }),
                classifier.near_land(b),
                w == max_lon - min_lon,
                h == max_lat - min_lat,
                nx == side_samples(w as int),
                ny == side_samples(h as int),
                3 <= ny <= 10_000,
                small == (w < RASTER_CELL),
                x < nx,
                y <= ny,
                lon == min_lon + (x * w) / (nx - 1),
                min_lon <= lon <= max_lon,
                !(some_land && some_water),
                forall|i: int, j: int|
                    (0 <= i < x && 0 <= j < ny) || (i == x && 0 <= j < y) ==> if cell_land(
                        *classifier,
                        b,
                        #[trigger] cell_sample(b, i, j),
                    ) {
                        some_land
                    } else {
                        some_water
                    },
                some_land ==> some_sample(*classifier, b, true),
                some_water ==> some_sample(*classifier, b, false),
            decreases ny - y,
        {
            let lat = sample_at(min_lat, h, y, ny);
            let p = Point { lon, lat };
            assert(p == cell_sample(b, x as int, y as int));
            if is_cell_land(classifier, small, p) {
                assert(some_sample(*classifier, b, true));
                some_land = true;
            } else {
                assert(some_sample(*classifier, b, false));
                some_water = true;
            }
            if some_land && some_water {
                return CellType::Mixed;
            }
            y = y + 1;
        }
        x = x + 1;
    }
    proof {
        assert(some_sample(*classifier, b, true) ==> some_land);
        assert(some_sample(*classifier, b, false) ==> some_water);
    }
    if some_land {
        CellType::Land
    } else if classifier.has_island_feature(min_lon, min_lat, max_lon, max_lat, ISLAND_MAX) {
        CellType::Mixed
    } else {
        CellType::Water
    }
}

/// How many cells and leaves a quadtree has been given so far.
pub struct BuildStats {
    pub cells: u64,
    pub leaves: u64,
}

/// The count after so many more; it stays at its greatest value once it is there.
pub open spec fn counted(before: u64, more: nat) -> u64 {
    if before + more <= u64::MAX {
        (before + more) as u64
    } else {
        u64::MAX
    }
}

fn count_one(n: u64) -> (r: u64)
    ensures
        r == counted(n, 1),
{
    if n < u64::MAX {
        n + 1
    } else {
        n
    }
}

proof fn lemma_count_tree(q: QuadCell)
    ensures
        q.children.len() == 0 ==> cell_count(q) == 1 && leaves(q).len() == 1,
        q.children.len() == 4 ==> {
            &&& cell_count(q) == 1 + cell_count(q.children[0]) + cell_count(q.children[1]) + cell_count(
                q.children[2],
            ) + cell_count(q.children[3])
            &&& leaves(q).len() == leaves(q.children[0]).len() + leaves(q.children[1]).len() + leaves(
                q.children[2],
            ).len() + leaves(q.children[3]).len()
        },
{
    let kids = q.children@;
    assert(cell_count_of(kids, 0) == 0);
    assert(leaves_of(kids, 0).len() == 0);
    if kids.len() == 4 {
        assert(cell_count_of(kids, 1) == cell_count(kids[0]) + cell_count_of(kids, 0));
        assert(cell_count_of(kids, 2) == cell_count(kids[1]) + cell_count_of(kids, 1));
        assert(cell_count_of(kids, 3) == cell_count(kids[2]) + cell_count_of(kids, 2));
        assert(cell_count_of(kids, 4) == cell_count(kids[3]) + cell_count_of(kids, 3));
        assert(leaves_of(kids, 1) == leaves(kids[0]) + leaves_of(kids, 0));
        assert(leaves_of(kids, 2) == leaves(kids[1]) + leaves_of(kids, 1));
        assert(leaves_of(kids, 3) == leaves(kids[2]) + leaves_of(kids, 2));
        assert(leaves_of(kids, 4) == leaves(kids[3]) + leaves_of(kids, 3));
    }
}

/// Splits a cell as long as it is mixed, and counts the cells and leaves it is given.
pub fn subdivide(
    classifier: &LandClassifier,
    min_lon: i64,
    min_lat: i64,
    max_lon: i64,
    max_lat: i64,
    depth: u8,
    max_depth: u8,
    stats: &mut BuildStats,
) -> (q: QuadCell)
    requires
        classifier.wf(),
        -WORLD <= min_lon <= max_lon <= WORLD,
        -WORLD <= min_lat <= max_lat <= WORLD,
        depth <= max_depth,
    ensures
        is_tree(
            q,
            *classifier,
            BBox { min_lon, min_lat, max_lon, max_lat },
            depth as int,
            max_depth as int,
        ),
        final(stats).cells == counted(old(stats).cells, cell_count(q)),
        final(stats).leaves == counted(old(stats).leaves, leaves(q).len()),
    decreases max_depth - depth,
{
    stats.cells = count_one(stats.cells);
    let cell_type = classify_cell(classifier, min_lon, min_lat, max_lon, max_lat);
    let ghost b = BBox { min_lon, min_lat, max_lon, max_lat };
    let mid_lon: i64 = floor_div((min_lon + max_lon) as i128, 2) as i64;
    let mid_lat: i64 = floor_div((min_lat + max_lat) as i128, 2) as i64;
    if cell_type != CellType::Mixed || depth >= max_depth {
        let final_type = if cell_type == CellType::Mixed {
            let p = Point { lon: mid_lon, lat: mid_lat };
            if is_cell_land(classifier, max_lon - min_lon < RASTER_CELL, p) {
                CellType::Land
            } else {
                CellType::Water
            }
        } else {
            cell_type
        };
        stats.leaves = count_one(stats.leaves);
        let q = QuadCell {
            min_lon,
            min_lat,
            max_lon,
            max_lat,
            depth,
            cell_type: final_type,
            children: Vec::new(),
        };
        proof {
            lemma_count_tree(q);
        }
        return q;
    }
    let mut children: Vec<QuadCell> = Vec::new();
    children.push(subdivide(classifier, min_lon, min_lat, mid_lon, mid_lat, depth + 1, max_depth, stats));
    children.push(subdivide(classifier, mid_lon, min_lat, max_lon, mid_lat, depth + 1, max_depth, stats));
    children.push(subdivide(classifier, min_lon, mid_lat, mid_lon, max_lat, depth + 1, max_depth, stats));
    children.push(subdivide(classifier, mid_lon, mid_lat, max_lon, max_lat, depth + 1, max_depth, stats));
    let q = QuadCell { min_lon, min_lat, max_lon, max_lat, depth, cell_type: CellType::Mixed, children };
    proof {
        lemma_count_tree(q);
    }
    q
}

/// Build the quadtree for the entire world.
pub fn build_quadtree(classifier: &LandClassifier, max_depth: u8) -> (q: QuadCell)
    requires
        classifier.wf(),
    ensures
        is_tree(q, *classifier, globe(), 0, max_depth as int),
{
    let mut stats = BuildStats { cells: 0, leaves: 0 };
    subdivide(classifier, -HALF_TURN, -QUARTER_TURN, HALF_TURN, QUARTER_TURN, 0, max_depth, &mut stats)
}

/// A part of a side that is a quarter of a degree long, or half of the side, holds a sample.
proof fn lemma_side_sampled(side: int, lo: int, hi: int) -> (x: int)
    requires
        0 <= lo <= hi <= side,
        4 * (hi - lo) >= DEGREE || 2 * (hi - lo) >= side,
    ensures
        0 <= x < side_samples(side),
        lo <= (x * side) / (side_samples(side) - 1) <= hi,
{
    let d = side_samples(side) - 1;
    assert(2 <= d && 4 * side <= d * DEGREE) by {
        assert(side <= ((side + MAX_SPACING - 1) / MAX_SPACING as int) * MAX_SPACING);
    }
    if side == 0 {
        assert(0 * side == 0);
        vstd::arithmetic::div_mod::lemma_fundamental_div_mod_converse(0, d, 0, 0);
        0
    } else {
        let n = lo * d + side - 1;
        let x = n / side;
        vstd::arithmetic::div_mod::lemma_fundamental_div_mod(n, side);
        let r = n % side;
        assert(side * x == x * side) by (nonlinear_arith);
        assert(lo * d <= x * side <= lo * d + side - 1);
        assert(0 <= x <= d) by (nonlinear_arith)
            requires
                lo * d <= x * side <= lo * d + side - 1,
                0 <= lo <= side,
                2 <= d,
                0 < side,
        {
            assert(lo * d <= side * d);
            assert(lo * d >= 0);
            assert(x * side < side * (d + 1));
        }
        let y = (x * side) / d;
        vstd::arithmetic::div_mod::lemma_fundamental_div_mod(x * side, d);
        assert(lo <= y) by (nonlinear_arith)
            requires
                lo * d <= x * side,
                x * side < d * y + d,
                2 <= d,
        ;
        assert(y <= hi) by (nonlinear_arith)
            requires
                d * y <= x * side,
                x * side <= lo * d + side - 1,
                2 <= d,
                0 < side,
                lo <= hi,
                4 * side <= d * DEGREE,
                4 * (hi - lo) >= DEGREE || 2 * (hi - lo) >= side,
        {
            let g = hi - lo;
            assert(d * (y - lo) <= side - 1);
            if 4 * g >= DEGREE {
                assert(4 * (d * g) >= d * DEGREE);
                assert(d * (y - lo) < d * g);
            } else {
                assert(d * g >= 2 * g);
                assert(d * (y - lo) < d * g);
            }
        }
        x
    }
}

/// Both ends of a side are samples.
proof fn lemma_side_ends(side: int)
    requires
        0 <= side,
    ensures
        (0 * side) / (side_samples(side) - 1) == 0,
        ((side_samples(side) - 1) * side) / (side_samples(side) - 1) == side,
{
    let d = side_samples(side) - 1;
    assert(0 * side == 0);
    vstd::arithmetic::div_mod::lemma_fundamental_div_mod_converse(0, d, 0, 0);
    vstd::arithmetic::div_mod::lemma_fundamental_div_mod_converse(d * side, d, side, 0);
}

/// Land as a cell of the given width is tested for it: by the exact test where the cell is
/// narrower than 0.02 degrees.
pub open spec fn land_in_cell(c: LandClassifier, width: int, p: Point) -> bool {
    if 50 * width < DEGREE {
        c.land_precise(p)
    } else {
        c.land(p.lon as int, p.lat as int)
    }
}

/// Samples of a cell lie close enough that no part of it is passed over: where a cell that a
/// land ring's bounding box meets is found to be all water or all land, each part of it that is
/// 0.25 degrees wide and high, or half as wide or high as the cell, holds a position of that
/// kind. So a cell of water holds no such square of land, whatever its size.
pub proof fn lemma_cell_is_sampled(c: LandClassifier, b: BBox, e: BoxEntry, part: BBox) -> (p: Point)
    requires
        b.ordered(),
        b.within(WORLD as int),
        box_items(c.tree).contains(e),
        e.bbox.min_lon <= b.max_lon,
        b.min_lon <= e.bbox.max_lon,
        e.bbox.min_lat <= b.max_lat,
        b.min_lat <= e.bbox.max_lat,
        kind(c, b) != CellType::Mixed,
        b.min_lon <= part.min_lon <= part.max_lon <= b.max_lon,
        b.min_lat <= part.min_lat <= part.max_lat <= b.max_lat,
        4 * (part.max_lon - part.min_lon) >= DEGREE || 2 * (part.max_lon - part.min_lon) >= b.max_lon
            - b.min_lon,
        4 * (part.max_lat - part.min_lat) >= DEGREE || 2 * (part.max_lat - part.min_lat) >= b.max_lat
            - b.min_lat,
    ensures
        part.min_lon <= p.lon <= part.max_lon,
        part.min_lat <= p.lat <= part.max_lat,
        land_in_cell(c, b.max_lon - b.min_lon, p) == (kind(c, b) == CellType::Land),
{
    assert(e.bbox.meets(b));
    assert(c.near_land(b));
    let x = lemma_side_sampled(
        b.max_lon - b.min_lon,
        part.min_lon - b.min_lon,
        part.max_lon - b.min_lon,
    );
    let y = lemma_side_sampled(
        b.max_lat - b.min_lat,
        part.min_lat - b.min_lat,
        part.max_lat - b.min_lat,
    );
    let p = cell_sample(b, x, y);
    assert(cell_land(c, b, cell_sample(b, x, y)) == cell_land(c, b, p));
    p
}

/// The corners of a cell that is found to be all water or all land, near a land ring, are of
/// that kind.
pub proof fn lemma_corners_are_sampled(c: LandClassifier, b: BBox, e: BoxEntry, p: Point)
    requires
        b.ordered(),
        b.within(WORLD as int),
        box_items(c.tree).contains(e),
        e.bbox.min_lon <= b.max_lon,
        b.min_lon <= e.bbox.max_lon,
        e.bbox.min_lat <= b.max_lat,
        b.min_lat <= e.bbox.max_lat,
        kind(c, b) != CellType::Mixed,
        p.lon == b.min_lon || p.lon == b.max_lon,
        p.lat == b.min_lat || p.lat == b.max_lat,
    ensures
        land_in_cell(c, b.max_lon - b.min_lon, p) == (kind(c, b) == CellType::Land),
{
    assert(e.bbox.meets(b));
    assert(c.near_land(b));
    let w = b.max_lon - b.min_lon;
    let h = b.max_lat - b.min_lat;
    lemma_side_ends(w);
    lemma_side_ends(h);
    let x = if p.lon == b.min_lon {
        0
    } else {
        side_samples(w) - 1
    };
    let y = if p.lat == b.min_lat {
        0
    } else {
        side_samples(h) - 1
    };
    assert(cell_sample(b, x, y) == p);
    assert(cell_land(c, b, cell_sample(b, x, y)) == cell_land(c, b, p));
}

/// A cell that no land ring's bounding box meets is water.
pub proof fn lemma_open_cell_is_water(c: LandClassifier, b: BBox)
    requires
        forall|e: BoxEntry| #[trigger]
            box_items(c.tree).contains(e) ==> e.bbox.max_lon < b.min_lon || b.max_lon < e.bbox.min_lon
                || e.bbox.max_lat < b.min_lat || b.max_lat < e.bbox.min_lat,
    ensures
        kind(c, b) == CellType::Water,
{
}

proof fn lemma_sample_within(b: BBox, x: int, y: int)
    requires
        b.ordered(),
        b.within(WORLD as int),
        0 <= x < side_samples(b.max_lon - b.min_lon),
        0 <= y < side_samples(b.max_lat - b.min_lat),
    ensures
        b.min_lon <= cell_sample(b, x, y).lon <= b.max_lon,
        b.min_lat <= cell_sample(b, x, y).lat <= b.max_lat,
{
    lemma_share_within(b.max_lon - b.min_lon, x, side_samples(b.max_lon - b.min_lon) - 1);
    lemma_share_within(b.max_lat - b.min_lat, y, side_samples(b.max_lat - b.min_lat) - 1);
}

proof fn lemma_share_within(side: int, x: int, d: int)
    requires
        0 <= side,
        0 <= x <= d,
        0 < d,
    ensures
        0 <= (x * side) / d <= side,
{
    vstd::arithmetic::div_mod::lemma_fundamental_div_mod(x * side, d);
    let q = (x * side) / d;
    assert(0 <= q <= side) by (nonlinear_arith)
        requires
            d * q <= x * side < d * q + d,
            0 <= side,
            0 <= x <= d,
            0 < d,
    {
        assert(0 <= x * side <= d * side);
    }
}

/// A cell is divided only where there is water in it, and land or a ring of an island: one whose
/// bounding box is not wider or higher than three degrees.
pub proof fn lemma_mixed_has_both(c: LandClassifier, b: BBox)
    requires
        b.ordered(),
        b.within(WORLD as int),
        kind(c, b) == CellType::Mixed,
    ensures
        exists|p: Point| #[trigger] b.holds(p) && !land_in_cell(c, b.max_lon - b.min_lon, p),
        (exists|p: Point| #[trigger] b.holds(p) && land_in_cell(c, b.max_lon - b.min_lon, p)) || exists|
            e: BoxEntry,
        | #[trigger]
            box_items(c.tree).contains(e) && e.bbox.max_lon - e.bbox.min_lon <= 3 * DEGREE && e.bbox.max_lat
                - e.bbox.min_lat <= 3 * DEGREE && e.bbox.min_lon <= b.max_lon && b.min_lon <= e.bbox.max_lon
                && e.bbox.min_lat <= b.max_lat && b.min_lat <= e.bbox.max_lat,
{
    let w = b.max_lon - b.min_lon;
    let h = b.max_lat - b.min_lat;
    if some_sample(c, b, true) {
        let (x, y) = choose|x: int, y: int|
            0 <= x < side_samples(w) && 0 <= y < side_samples(h) && cell_land(
                c,
                b,
                #[trigger] cell_sample(b, x, y),
            ) == true;
        lemma_sample_within(b, x, y);
        assert(b.holds(cell_sample(b, x, y)));
        let (u, v) = choose|x: int, y: int|
            0 <= x < side_samples(w) && 0 <= y < side_samples(h) && cell_land(
                c,
                b,
                #[trigger] cell_sample(b, x, y),
            ) == false;
        lemma_sample_within(b, u, v);
        assert(b.holds(cell_sample(b, u, v)));
    } else {
        lemma_sample_within(b, 0, 0);
        assert(!cell_land(c, b, cell_sample(b, 0, 0)));
        assert(b.holds(cell_sample(b, 0, 0)));
    }
}

/// An island near a cell without land samples is not passed over: the cell is divided.
pub proof fn lemma_island_divides(c: LandClassifier, b: BBox, e: BoxEntry)
    requires
        box_items(c.tree).contains(e),
        e.bbox.max_lon - e.bbox.min_lon <= 3 * DEGREE,
        e.bbox.max_lat - e.bbox.min_lat <= 3 * DEGREE,
        e.bbox.min_lon <= b.max_lon,
        b.min_lon <= e.bbox.max_lon,
        e.bbox.min_lat <= b.max_lat,
        b.min_lat <= e.bbox.max_lat,
    ensures
        kind(c, b) != CellType::Water,
{
    assert(e.bbox.meets(b));
    assert(box_span(e.bbox) <= ISLAND_MAX);
}

} // verus!
