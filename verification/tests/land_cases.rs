use sea_router::geo::Point;
use sea_router::land::{Geometry, LandClassifier};

fn deg(x: f64) -> i64 {
    (x * 1.28e9).round() as i64
}

fn ring(points: &[[f64; 2]]) -> Vec<Point> {
    points.iter().map(|p| Point { lon: deg(p[0]), lat: deg(p[1]) }).collect()
}

fn square(x0: f64, y0: f64, x1: f64, y1: f64) -> Vec<Point> {
    ring(&[[x0, y0], [x1, y0], [x1, y1], [x0, y1], [x0, y0]])
}

fn load(features: Vec<Geometry>) -> LandClassifier {
    LandClassifier::load(&features, None)
}

fn has_island(c: &LandClassifier, b: [f64; 4], max_feature: f64) -> bool {
    c.has_island_feature(deg(b[0]), deg(b[1]), deg(b[2]), deg(b[3]), deg(max_feature))
}

#[test]
fn island_feature_detected_only_for_small_rings() {
    // A small island (~0.1°) near (10,10) and a large landmass (~6°) near (50,0).
    let c = load(vec![
        Geometry::Polygon {
            coordinates: vec![ring(&[[10.0, 10.0], [10.1, 10.0], [10.1, 10.1], [10.0, 10.1], [10.0, 10.0]])],
        },
        Geometry::Polygon {
            coordinates: vec![ring(&[[50.0, 0.0], [56.0, 0.0], [56.0, 6.0], [50.0, 6.0], [50.0, 0.0]])],
        },
    ]);
    assert!(has_island(&c, [9.5, 9.5, 10.5, 10.5], 1.0), "small island ring must be detected");
    assert!(
        !has_island(&c, [49.0, -1.0, 57.0, 7.0], 1.0),
        "large continental ring must NOT trip the island detector"
    );
    assert!(
        !has_island(&c, [-30.0, -30.0, -29.0, -29.0], 1.0),
        "open ocean must have no island feature"
    );
}

#[test]
fn island_limit_is_inclusive() {
    let c = load(vec![Geometry::Polygon { coordinates: vec![square(0.0, 0.0, 1.0, 1.0)] }]);
    assert!(has_island(&c, [0.5, 0.5, 0.6, 0.6], 1.0));
    assert!(!has_island(&c, [0.5, 0.5, 0.6, 0.6], 0.99));
}

#[test]
fn raster_fills_polygons_and_leaves_holes() {
    let c = load(vec![Geometry::Polygon {
        coordinates: vec![square(0.0, 0.0, 10.0, 10.0), square(4.0, 4.0, 6.0, 6.0)],
    }]);
    assert!(c.is_land(deg(1.0), deg(1.0)));
    assert!(c.is_land(deg(9.99), deg(9.99)));
    assert!(!c.is_land(deg(5.0), deg(5.0)));
    assert!(!c.is_land(deg(10.03), deg(5.0)));
    assert!(!c.is_land(deg(-0.03), deg(5.0)));
    assert!(!c.is_land(deg(1.0), deg(10.03)));
}

#[test]
fn a_ring_drawn_twice_is_water() {
    let c = load(vec![
        Geometry::Polygon { coordinates: vec![square(0.0, 0.0, 5.0, 5.0)] },
        Geometry::Polygon { coordinates: vec![square(0.0, 0.0, 5.0, 5.0)] },
    ]);
    assert!(!c.is_land(deg(2.0), deg(2.0)));
}

#[test]
fn all_polygons_of_a_multipolygon_count() {
    let c = load(vec![Geometry::MultiPolygon {
        coordinates: vec![vec![square(0.0, 0.0, 5.0, 5.0)], vec![square(20.0, 0.0, 25.0, 5.0)]],
    }]);
    assert!(c.is_land(deg(2.0), deg(2.0)));
    assert!(c.is_land(deg(22.0), deg(2.0)));
    assert!(!c.is_land(deg(12.0), deg(2.0)));
}

#[test]
fn rings_of_fewer_than_three_points_are_skipped() {
    let c = load(vec![Geometry::Polygon { coordinates: vec![ring(&[[0.0, 0.0], [1.0, 1.0]])] }]);
    assert!(!c.overlaps_land(deg(-1.0), deg(-1.0), deg(2.0), deg(2.0)));
    assert_eq!(c.island_rings.len(), 0);
}

#[test]
fn longitudes_go_around_the_globe() {
    let c = load(vec![Geometry::Polygon { coordinates: vec![square(170.0, 0.0, 179.0, 10.0)] }]);
    for turns in -3..=3 {
        assert!(c.is_land(deg(175.0 + 360.0 * turns as f64), deg(5.0)));
        assert!(!c.is_land(deg(165.0 + 360.0 * turns as f64), deg(5.0)));
    }
}

#[test]
fn latitudes_beyond_the_poles_are_clamped_or_water() {
    let c = load(vec![Geometry::Polygon { coordinates: vec![square(0.0, -90.0, 10.0, -80.0)] }]);
    assert!(c.is_land(deg(5.0), deg(-89.99)));
    assert!(c.is_land(deg(5.0), deg(-95.0)));
    assert!(!c.is_land(deg(5.0), deg(95.0)));
}

#[test]
fn bounding_boxes_tell_open_ocean() {
    let c = load(vec![Geometry::Polygon { coordinates: vec![square(0.0, 0.0, 5.0, 5.0)] }]);
    assert!(c.overlaps_land(deg(5.0), deg(5.0), deg(6.0), deg(6.0)));
    assert!(c.overlaps_land(deg(6.0), deg(6.0), deg(4.0), deg(4.0)));
    assert!(!c.overlaps_land(deg(5.1), deg(5.1), deg(6.0), deg(6.0)));
}

#[test]
fn exact_test_resolves_what_the_raster_smears() {
    // An island smaller than a raster cell, off its middle.
    let c = load(vec![Geometry::Polygon { coordinates: vec![square(10.001, 10.001, 10.006, 10.006)] }]);
    assert!(c.is_land_precise(deg(10.003), deg(10.003)));
    assert!(!c.is_land(deg(10.003), deg(10.003)));
    assert!(!c.is_land_precise(deg(10.05), deg(10.05)));
}

#[test]
fn exact_test_falls_back_to_the_raster_on_continents() {
    let c = load(vec![Geometry::Polygon { coordinates: vec![square(0.0, 0.0, 10.0, 10.0)] }]);
    assert_eq!(c.island_rings.len(), 0);
    assert!(c.is_land_precise(deg(5.0), deg(5.0)));
    assert!(!c.is_land_precise(deg(15.0), deg(5.0)));
}

#[test]
fn exact_test_is_even_odd() {
    let c = load(vec![Geometry::Polygon {
        coordinates: vec![square(0.0, 0.0, 2.0, 2.0), square(0.5, 0.5, 1.5, 1.5)],
    }]);
    assert!(c.is_land_precise(deg(0.25), deg(1.0)));
    assert!(!c.is_land_precise(deg(1.0), deg(1.0)));
}

#[test]
fn cached_raster_is_taken_as_it_is() {
    let plain = load(vec![Geometry::Polygon { coordinates: vec![square(0.0, 0.0, 10.0, 10.0)] }]);
    let cached = LandClassifier::load(&vec![], Some(plain.raster));
    assert!(cached.is_land(deg(5.0), deg(5.0)));
    assert!(!cached.overlaps_land(deg(4.0), deg(4.0), deg(6.0), deg(6.0)));
}

#[test]
fn carved_cells_become_water() {
    let mut c = load(vec![Geometry::Polygon { coordinates: vec![square(0.0, 0.0, 10.0, 10.0)] }]);
    // The cell whose corner is at 5 degrees: row (5 + 90) / 0.02, column (5 + 180) / 0.02.
    c.carve(&vec![(4750, 9250)]);
    assert!(!c.is_land(deg(5.01), deg(5.01)));
    assert!(c.is_land(deg(5.03), deg(5.01)));
    assert!(c.is_land(deg(5.01), deg(5.03)));
}

#[test]
fn rings_are_not_counted() {
    let c = load(vec![Geometry::Polygon { coordinates: vec![square(0.0, 0.0, 10.0, 10.0)] }]);
    assert_eq!(c.ring_count(), 0);
}

#[test]
fn a_small_hole_in_a_continent_is_water() {
    let c = load(vec![Geometry::Polygon {
        coordinates: vec![square(50.0, 0.0, 56.0, 6.0), square(52.0, 2.0, 53.0, 3.0)],
    }]);
    assert!(!c.is_land_precise(deg(52.5), deg(2.5)));
    assert!(c.is_land_precise(deg(51.0), deg(1.0)));
    assert_eq!(c.island_rings.len(), 0);
}

#[test]
fn boxes_overlap_land_around_the_globe() {
    let c = load(vec![Geometry::Polygon { coordinates: vec![square(-179.6, -0.1, -179.4, 0.1)] }]);
    assert!(!c.overlaps_land(deg(178.0), deg(0.0), deg(183.0), deg(0.0)));
    assert!(c.overlaps_land_around(deg(178.0), deg(0.0), deg(183.0), deg(0.0)));
    assert!(c.overlaps_land_around(deg(-179.5), deg(0.0), deg(-179.5), deg(0.0)));
    assert!(!c.overlaps_land_around(deg(178.0), deg(1.0), deg(183.0), deg(1.0)));
    assert!(c.overlaps_land_around(deg(0.0), deg(0.0), deg(3600.0), deg(0.0)));
}
