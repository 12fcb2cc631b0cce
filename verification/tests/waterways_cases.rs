use sea_router::chart::load_with_corridors;
use sea_router::corridors::{corridor_cells, paint_corridors};
use sea_router::geo::{Point, KM};
use sea_router::land::{Geometry, LandClassifier};
use sea_router::waterways::{fingerprint, load, Feature, Lines, Waterway};

fn deg(x: f64) -> i64 {
    (x * 1.28e9).round() as i64
}

fn pt(lon: f64, lat: f64) -> Point {
    Point { lon: deg(lon), lat: deg(lat) }
}

fn cosine(lat: i64) -> u64 {
    ((lat as f64 / 1.28e9).to_radians().cos().abs() * 1e9).round() as u64
}

fn corridors() -> Vec<Waterway> {
    load(&vec![
        Feature {
            name: Some("Hamburg — Elbe".to_string()),
            half_width: Some(1_200_000_000),
            geometry: Lines::LineString { coordinates: vec![pt(10.005, 53.539), pt(9.5, 53.6), pt(8.8, 53.9)] },
        },
        Feature {
            name: None,
            half_width: None,
            geometry: Lines::MultiLineString {
                coordinates: vec![
                    vec![pt(-60.0, -3.1), pt(-58.0, -3.0)],
                    vec![pt(1.0, 1.0)],
                    vec![],
                    vec![pt(-58.0, -3.0), pt(-55.0, -2.0), pt(-50.0, 0.0)],
                ],
            },
        },
    ])
}

#[test]
fn corridors_are_well_formed() {
    for w in corridors() {
        assert!(w.points.len() >= 2, "{}: needs at least 2 points", w.name);
        assert!(
            w.half_width > 0 && w.half_width < 25 * KM,
            "{}: implausible half-width {}", w.name, w.half_width
        );
        for p in &w.points {
            assert!(
                (deg(-180.0)..=deg(180.0)).contains(&p.lon) && (deg(-90.0)..=deg(90.0)).contains(&p.lat),
                "{}: point out of range {:?}", w.name, p
            );
        }
    }
}

#[test]
fn lines_of_one_point_are_left_out() {
    let ways = corridors();
    assert_eq!(ways.iter().map(|w| w.points.len()).collect::<Vec<_>>(), vec![3, 2, 3]);
}

#[test]
fn corridors_have_default_names_and_widths() {
    let ways = corridors();
    assert_eq!(ways[0].name, "Hamburg — Elbe");
    assert_eq!(ways[1].name, "unnamed");
    assert_eq!(ways[2].name, "unnamed");
    assert_eq!(ways[1].half_width, 1_200_000_000);
}

#[test]
fn no_features_are_no_corridors() {
    assert_eq!(load(&vec![]).len(), 0);
}

#[test]
fn fingerprints_are_those_of_the_known_hash() {
    assert_eq!(fingerprint(Some(&b"".to_vec())), 0xcbf29ce484222325);
    assert_eq!(fingerprint(Some(&b"a".to_vec())), 0xaf63dc4c8601ec8c);
    assert_eq!(fingerprint(Some(&b"foobar".to_vec())), 0x85944171f73967e8);
}

#[test]
fn a_missing_file_has_fingerprint_zero() {
    assert_eq!(fingerprint(None), 0);
}

#[test]
fn an_edit_changes_the_fingerprint() {
    let before = b"{\"features\":[]}".to_vec();
    for i in 0..before.len() {
        let mut after = before.clone();
        after[i] ^= 1;
        assert_ne!(fingerprint(Some(&before)), fingerprint(Some(&after)));
    }
}

fn way(points: Vec<Point>, half_width: u64) -> Waterway {
    Waterway { name: "w".to_string(), points, half_width }
}

#[test]
fn cells_within_half_the_width_are_painted() {
    // Along the middles of a row of cells, from column 9050 to 9054.
    let w = way(vec![pt(1.01, 1.01), pt(1.09, 1.01)], 1_200_000_000);
    let mut cells = corridor_cells(&vec![w], &cosine);
    cells.sort();
    assert_eq!(cells, vec![(4550, 9050), (4550, 9051), (4550, 9052), (4550, 9053), (4550, 9054)]);
}

#[test]
fn a_wider_corridor_paints_more_rows() {
    let w = way(vec![pt(1.01, 1.01), pt(1.09, 1.01)], 2_300_000_000);
    let cells = corridor_cells(&vec![w], &cosine);
    for row in 4549..=4551 {
        assert!(cells.contains(&(row, 9052)));
    }
    assert!(!cells.contains(&(4552, 9052)));
    assert!(cells.contains(&(4550, 9049)));
}

#[test]
fn a_corridor_of_the_default_width_crosses_every_row() {
    let w = way(vec![pt(1.0, 1.0), pt(3.7, 2.0)], 1_200_000_000);
    let cells = corridor_cells(&vec![w], &cosine);
    for row in 4550..4600 {
        assert!(cells.iter().any(|c| c.0 == row), "row {} is cut", row);
    }
}

#[test]
fn a_corridor_of_the_default_width_crosses_every_column() {
    let w = way(vec![pt(1.0, 1.0), pt(3.7, 1.5)], 1_200_000_000);
    let cells = corridor_cells(&vec![w], &cosine);
    for col in 9050..9185 {
        assert!(cells.iter().any(|c| c.1 == col), "column {} is cut", col);
    }
}

#[test]
fn corridors_are_painted_as_water() {
    let ring = vec![pt(0.0, 0.0), pt(10.0, 0.0), pt(10.0, 10.0), pt(0.0, 10.0)];
    let mut c = LandClassifier::load(&vec![Geometry::Polygon { coordinates: vec![ring] }], None);
    assert!(c.is_land(deg(5.0), deg(5.01)));
    paint_corridors(&mut c, &vec![way(vec![pt(-1.0, 5.01), pt(6.0, 5.01)], 1_200_000_000)], &cosine);
    assert!(!c.is_land(deg(5.0), deg(5.01)));
    assert!(!c.is_land(deg(0.5), deg(5.01)));
    assert!(c.is_land(deg(5.0), deg(5.05)));
    assert!(c.is_land(deg(8.0), deg(5.01)));
    assert!(!c.is_land_precise(deg(5.0), deg(5.01)));
}

#[test]
fn edited_corridors_take_effect_with_a_cached_raster() {
    let ring = vec![pt(0.0, 0.0), pt(10.0, 0.0), pt(10.0, 10.0), pt(0.0, 10.0)];
    let features = vec![Geometry::Polygon { coordinates: vec![ring] }];
    let old = vec![way(vec![pt(-1.0, 5.01), pt(6.0, 5.01)], 1_200_000_000)];
    let new = vec![way(vec![pt(-1.0, 7.01), pt(6.0, 7.01)], 1_200_000_000)];
    let (first, words) = load_with_corridors(&features, None, &old, &cosine);
    assert!(!first.is_land(deg(5.0), deg(5.01)));
    assert!(first.is_land(deg(5.0), deg(7.01)));
    // The cache holds the land without the corridor.
    let plain = LandClassifier::load(&features, None);
    assert!(words == plain.raster);

    let (second, kept) = load_with_corridors(&features, Some(words.clone()), &new, &cosine);
    assert!(second.is_land(deg(5.0), deg(5.01)));
    assert!(!second.is_land(deg(5.0), deg(7.01)));
    assert!(kept == words);
    let (fresh, _) = load_with_corridors(&features, None, &new, &cosine);
    assert!(second.raster == fresh.raster);
}
