use sea_router::generate::{build_quadtree, classify_cell, subdivide, BuildStats, CellType, QuadCell};
use sea_router::generation::generate_graph;
use sea_router::geo::Point;
use sea_router::heap::{sort_ascending, MinHeap};
use sea_router::land::{Geometry, LandClassifier};
use sea_router::quadtree::{coarsen, collect_water_leaves, count_leaves};

fn deg(x: f64) -> i64 {
    (x * 1.28e9).round() as i64
}

fn pt(lon: f64, lat: f64) -> Point {
    Point { lon: deg(lon), lat: deg(lat) }
}

fn plane(a: Point, b: Point) -> u64 {
    let x = (b.lon - a.lon) as f64;
    let y = (b.lat - a.lat) as f64;
    (x.hypot(y) / 1.28e9 * 111e9).round() as u64
}

fn all_water() -> LandClassifier {
    LandClassifier::load(&vec![], None)
}

fn land_box(x0: f64, y0: f64, x1: f64, y1: f64) -> LandClassifier {
    let ring = vec![pt(x0, y0), pt(x1, y0), pt(x1, y1), pt(x0, y1), pt(x0, y0)];
    LandClassifier::load(&vec![Geometry::Polygon { coordinates: vec![ring] }], None)
}

fn classify(c: &LandClassifier, b: [f64; 4]) -> CellType {
    classify_cell(c, deg(b[0]), deg(b[1]), deg(b[2]), deg(b[3]))
}

fn show(q: &QuadCell, lon: i64, lat: i64) -> CellType {
    if q.is_leaf() {
        return q.cell_type;
    }
    for k in &q.children {
        if k.min_lon <= lon && lon <= k.max_lon && k.min_lat <= lat && lat <= k.max_lat {
            return show(k, lon, lat);
        }
    }
    panic!("no child holds the point");
}

#[test]
fn cells_are_classified_by_samples() {
    let c = land_box(0.0, 0.0, 10.0, 10.0);
    assert_eq!(classify(&c, [20.0, 20.0, 21.0, 21.0]), CellType::Water);
    assert_eq!(classify(&c, [4.0, 4.0, 5.0, 5.0]), CellType::Land);
    assert_eq!(classify(&c, [9.0, 9.0, 11.0, 11.0]), CellType::Mixed);
}

#[test]
fn an_island_between_the_samples_is_not_stepped_over() {
    let c = land_box(0.06, 0.06, 0.07, 0.07);
    assert_eq!(classify(&c, [0.0, 0.0, 0.5, 0.5]), CellType::Mixed);
}

#[test]
fn cells_smaller_than_the_raster_use_the_exact_test() {
    // A sliver that the raster does not show.
    let c = land_box(0.0005, 0.0005, 0.0055, 0.0055);
    assert!(!c.is_land(deg(0.003), deg(0.003)));
    assert_eq!(classify(&c, [0.001, 0.001, 0.005, 0.005]), CellType::Land);
}

#[test]
fn mixed_cells_are_divided_down_to_the_depth() {
    let c = land_box(0.0, 0.0, 10.0, 10.0);
    let mut stats = BuildStats { cells: 1, leaves: 0 };
    let q = subdivide(&c, deg(-16.0), deg(-16.0), deg(16.0), deg(16.0), 0, 1, &mut stats);
    assert_eq!(q.cell_type, CellType::Mixed);
    assert_eq!(q.children.len(), 4);
    assert_eq!((stats.cells, stats.leaves), (6, 4));
    assert!(q.children.iter().all(|k| k.is_leaf() && k.depth == 1));
    assert_eq!(show(&q, deg(5.0), deg(5.0)), CellType::Land);
    assert_eq!(show(&q, deg(-5.0), deg(-5.0)), CellType::Water);
}

#[test]
fn an_ocean_world_is_one_leaf() {
    let q = build_quadtree(&all_water(), 16);
    assert!(q.is_leaf());
    assert_eq!(count_leaves(&q), (1, 0));
    let leaves = collect_water_leaves(&q);
    assert_eq!(leaves.len(), 1);
    assert_eq!((leaves[0].min_lon, leaves[0].max_lat), (deg(-180.0), deg(90.0)));
}

#[test]
fn leaves_are_counted_by_kind() {
    let q = build_quadtree(&land_box(0.0, 0.0, 180.0, 90.0), 3);
    let (water, land) = count_leaves(&q);
    assert_eq!(water as usize, collect_water_leaves(&q).len());
    assert!(land >= 1);
    assert_eq!(show(&q, deg(-90.0), deg(-45.0)), CellType::Water);
    assert_eq!(show(&q, deg(90.0), deg(45.0)), CellType::Land);
}

#[test]
fn coarsening_merges_open_water_and_changes_no_place() {
    let c = land_box(100.0, 50.0, 101.0, 51.0);
    let before = build_quadtree(&c, 7);
    let mut after = build_quadtree(&c, 7);
    coarsen(&mut after);
    let (water, land) = count_leaves(&before);
    let (merged_water, merged_land) = count_leaves(&after);
    assert!(merged_water <= water);
    assert_eq!(merged_land, land);
    for i in -17..=17 {
        for j in -8..=8 {
            let (x, y) = (deg(i as f64 * 10.1), deg(j as f64 * 10.1));
            assert!(show(&before, x, y) == show(&after, x, y));
        }
    }
}

#[test]
fn four_leaves_of_open_water_become_one() {
    let c = land_box(0.0, 0.0, 10.0, 10.0);
    let mut stats = BuildStats { cells: 0, leaves: 0 };
    let mut q = subdivide(&c, deg(-180.0), deg(-90.0), deg(180.0), deg(90.0), 0, 1, &mut stats);
    // Land removed from the tree: all four quarters are water now.
    for k in q.children.iter_mut() {
        k.cell_type = CellType::Water;
    }
    coarsen(&mut q);
    assert!(q.is_leaf());
    assert_eq!(q.cell_type, CellType::Water);
}

#[test]
fn a_graph_is_generated_from_land() {
    let c = land_box(0.0, 0.0, 90.0, 45.0);
    let g = generate_graph(&c, 4, &vec![pt(-30.0, 20.0)], &plane).unwrap();
    let tree = build_quadtree(&c, 4);
    assert_eq!((g.water, g.land), count_leaves(&tree));
    assert!(g.merged_water <= g.water);
    assert_eq!(g.graph.node_count as u64, g.merged_water + 1 + 57);
    assert_eq!(g.graph.nodes.len(), 3 * g.graph.node_count);
}

#[test]
fn the_heap_gives_back_the_least_key_first() {
    let mut h = MinHeap::new();
    for (key, item) in [(5, 50), (1, 10), (3, 30), (1, 11), (9, 90)] {
        h.push(key, item);
    }
    let mut keys = Vec::new();
    while let Some(e) = h.pop() {
        keys.push(e.key);
    }
    assert_eq!(keys, vec![1, 1, 3, 5, 9]);
    assert!(h.pop().is_none());
}

#[test]
fn numbers_are_sorted_with_their_repetitions() {
    assert_eq!(sort_ascending(&vec![3, -1, 2, 3, -7]), vec![-7, -1, 2, 3, 3]);
    assert_eq!(sort_ascending(&vec![]), vec![]);
}

fn same(a: &QuadCell, b: &QuadCell) -> bool {
    (a.min_lon, a.min_lat, a.max_lon, a.max_lat, a.depth) == (b.min_lon, b.min_lat, b.max_lon, b.max_lat, b.depth)
        && a.cell_type == b.cell_type
        && a.children.len() == b.children.len()
        && a.children.iter().zip(&b.children).all(|(x, y)| same(x, y))
}

#[test]
fn coarsening_a_second_time_changes_nothing() {
    let c = land_box(100.0, 50.0, 101.0, 51.0);
    let mut once = build_quadtree(&c, 7);
    let mut twice = build_quadtree(&c, 7);
    coarsen(&mut once);
    coarsen(&mut twice);
    assert!(same(&once, &twice));
    coarsen(&mut twice);
    assert!(same(&once, &twice));
}

#[test]
fn equal_keys_come_out_by_number() {
    let mut h = MinHeap::new();
    for item in [3u32, 1, 2] {
        h.push(7, item);
    }
    let items: Vec<u32> = (0..3).map(|_| h.pop().unwrap().item).collect();
    assert_eq!(items, vec![1, 2, 3]);
}
