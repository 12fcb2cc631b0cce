//! Land and corridors together: the raster of the land alone is what a cache keeps, and the
//! corridors are painted into a copy of it each time.
use vstd::prelude::*;

use crate::channels::is_cosine;
use crate::corridors::{paint_corridors, paintable, painted};
use crate::geo::{Point, HALF_TURN, TURN};
use crate::land::{feature_rings, geometry_on_map, ring_entries, Geometry, LandClassifier};
use crate::raster::{
    bit, cell_bit, lat_row, ring_views, rings_fill, RASTER_CELL, RASTER_COLS, RASTER_ROWS,
    RASTER_WORDS,
};
use crate::spatial::box_items;
use crate::waterways::{views, Corridor, Waterway};

verus! {

/// The words are the raster of the land polygons, without corridors.
#[verifier::opaque]
pub open spec fn land_alone(features: Seq<Geometry>, words: Seq<u64>) -> bool {
    &&& words.len() >= RASTER_WORDS
    &&& forall|row: int, col: int|
        0 <= row < RASTER_ROWS && 0 <= col < RASTER_COLS ==> #[trigger] bit(words, cell_bit(row, col))
            == rings_fill(feature_rings(features, false), row, col)
}

/// A cell is land in one raster where it is in the other and no corridor paints it.
pub open spec fn painted_over<C: Fn(i64) -> u64>(
    before: Seq<u64>,
    after: Seq<u64>,
    ways: Seq<Corridor>,
    cos: C,
) -> bool {
    forall|row: int, col: int|
        0 <= row < RASTER_ROWS && 0 <= col < RASTER_COLS ==> #[trigger] bit(after, cell_bit(row, col)) == (bit(
            before,
            cell_bit(row, col),
        ) && !painted(ways, cos, row, col))
}

/// The classifier is that of the land polygons with the corridors painted in, and the words
/// are those to cache: the words that were cached, or the raster of the land alone.
pub open spec fn charted<C: Fn(i64) -> u64>(
    features: Seq<Geometry>,
    cached: Option<Seq<u64>>,
    ways: Seq<Corridor>,
    cos: C,
    c: LandClassifier,
    words: Seq<u64>,
) -> bool {
    &&& c.wf()
    &&& box_items(c.tree) == ring_entries(feature_rings(features, false)).to_multiset()
    &&& ring_views(c.island_rings@) == feature_rings(features, true)
    &&& match cached {
        Some(had) => words == had,
        None => words.len() == RASTER_WORDS && land_alone(features, words),
    }
    &&& painted_over(words, c.raster@, ways, cos)
}

fn copy_words(words: &Vec<u64>) -> (r: Vec<u64>)
    ensures
        r@ == words@,
{
    let mut r: Vec<u64> = Vec::new();
    let mut i: usize = 0;
    while i < words.len()
        invariant
            i <= words.len(),
            r@ =~= words@.take(i as int),
        decreases words.len() - i,
    {
        r.push(words[i]);
        i = i + 1;
    }
    assert(r@ =~= words@);
    r
}

/// Builds the classifier with the corridors painted in, from the cached raster if there is
/// one. The second result is the raster to cache, which holds no corridors.
pub fn load_with_corridors<C: Fn(i64) -> u64>(
    features: &Vec<Geometry>,
    cached: Option<Vec<u64>>,
    ways: &Vec<Waterway>,
    cos: &C,
) -> (r: (LandClassifier, Vec<u64>))
    requires
        forall|i: int| 0 <= i < features.len() ==> geometry_on_map(#[trigger] features[i]),
        cached matches Some(words) ==> words.len() >= RASTER_WORDS,
        is_cosine(*cos),
        forall|i: int| 0 <= i < ways.len() ==> paintable((#[trigger] ways[i])@),
    ensures
        charted(
            features@,
            match cached {
                Some(words) => Some(words@),
                None => None,
            },
            views(ways@),
            *cos,
            r.0,
            r.1@,
        ),
{
    let mut classifier = LandClassifier::load(features, cached);
    let words = copy_words(&classifier.raster);
    paint_corridors(&mut classifier, ways, cos);
    proof {
        reveal(land_alone);
    }
    (classifier, words)
}

/// What is cached is always the raster of the land alone, whatever corridors there are.
pub proof fn lemma_cache_holds_land_alone<C: Fn(i64) -> u64>(
    features: Seq<Geometry>,
    cached: Option<Seq<u64>>,
    ways: Seq<Corridor>,
    cos: C,
    c: LandClassifier,
    words: Seq<u64>,
)
    requires
        charted(features, cached, ways, cos, c, words),
        cached matches Some(had) ==> land_alone(features, had),
    ensures
        land_alone(features, words),
{
}

/// A cell is land exactly where the land polygons fill it and no corridor paints it, cached
/// or not.
pub proof fn lemma_charted_cell<C: Fn(i64) -> u64>(
    features: Seq<Geometry>,
    cached: Option<Seq<u64>>,
    ways: Seq<Corridor>,
    cos: C,
    c: LandClassifier,
    words: Seq<u64>,
    row: int,
    col: int,
)
    requires
        charted(features, cached, ways, cos, c, words),
        cached matches Some(had) ==> land_alone(features, had),
        0 <= row < RASTER_ROWS,
        0 <= col < RASTER_COLS,
    ensures
        bit(c.raster@, cell_bit(row, col)) == (rings_fill(feature_rings(features, false), row, col) && !painted(
            ways,
            cos,
            row,
            col,
        )),
{
    reveal(land_alone);
    assert(bit(c.raster@, cell_bit(row, col)) == (bit(words, cell_bit(row, col)) && !painted(
        ways,
        cos,
        row,
        col,
    )));
}

/// A change of the corridors takes effect at once: loaded from a raster that was cached with
/// other corridors, the classifier answers at every position as one built afresh.
pub proof fn lemma_new_corridors_take_effect<C: Fn(i64) -> u64>(
    features: Seq<Geometry>,
    cached: Option<Seq<u64>>,
    before: Seq<Corridor>,
    now: Seq<Corridor>,
    cos: C,
    first: (LandClassifier, Seq<u64>),
    second: (LandClassifier, Seq<u64>),
    fresh: (LandClassifier, Seq<u64>),
    p: Point,
)
    requires
        cached matches Some(had) ==> land_alone(features, had),
        charted(features, cached, before, cos, first.0, first.1),
        charted(features, Some(first.1), now, cos, second.0, second.1),
        charted(features, None, now, cos, fresh.0, fresh.1),
    ensures
        second.0.land(p.lon as int, p.lat as int) == fresh.0.land(p.lon as int, p.lat as int),
        second.0.land_precise(p) == fresh.0.land_precise(p),
        box_items(second.0.tree) == box_items(fresh.0.tree),
{
    let col = ((p.lon + HALF_TURN) % TURN as int) / RASTER_CELL as int;
    let row = lat_row(p.lat as int);
    assert(0 <= col < RASTER_COLS);
    assert(0 <= row);
    if row < RASTER_ROWS {
        lemma_charted_cell(features, Some(first.1), now, cos, second.0, second.1, row, col);
        lemma_charted_cell(features, None, now, cos, fresh.0, fresh.1, row, col);
    }
}

} // verus!
