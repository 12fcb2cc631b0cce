use sea_router::audit::{
    percentile, port_key, scan_for_water, snap_ports, to_baseline, Baseline, Port, SnapReport,
};
use sea_router::channels::{find_channel, find_channel_within, is_exit, is_open_water};
use sea_router::geo::{Point, KM};
use sea_router::graph::{Graph, RawGraph};
use sea_router::land::{Geometry, LandClassifier};
use sea_router::text::{append_angle, is_text_before};

fn deg(x: f64) -> i64 {
    (x * 1.28e9).round() as i64
}

fn pt(lon: f64, lat: f64) -> Point {
    Point { lon: deg(lon), lat: deg(lat) }
}

fn haversine(a: Point, b: Point) -> u64 {
    let rad = |x: i64| (x as f64 / 1.28e9).to_radians();
    let dlat = rad(b.lat) - rad(a.lat);
    let dlon = rad(b.lon) - rad(a.lon);
    let h = (dlat / 2.0).sin().powi(2) + rad(a.lat).cos() * rad(b.lat).cos() * (dlon / 2.0).sin().powi(2);
    (6371.0 * 2.0 * h.sqrt().asin() * 1e9).round() as u64
}

fn cosine(lat: i64) -> u64 {
    ((lat as f64 / 1.28e9).to_radians().cos().abs() * 1e9).round() as u64
}

fn circle(i: u64, n: u64) -> (i64, i64) {
    let theta = std::f64::consts::TAU * i as f64 / n as f64;
    ((theta.cos() * 1e9).round() as i64, (theta.sin() * 1e9).round() as i64)
}

fn all_water() -> LandClassifier {
    LandClassifier::load(&vec![], None)
}

fn land_box(x0: f64, y0: f64, x1: f64, y1: f64) -> LandClassifier {
    let ring = vec![pt(x0, y0), pt(x1, y0), pt(x1, y1), pt(x0, y1), pt(x0, y0)];
    LandClassifier::load(&vec![Geometry::Polygon { coordinates: vec![ring] }], None)
}

fn graph(at: &[[f64; 2]], edges: &[(u64, u64)]) -> Graph {
    let mut nodes = Vec::new();
    for p in at {
        nodes.push(deg(p[0]));
        nodes.push(deg(p[1]));
        nodes.push(1);
    }
    let mut flat = Vec::new();
    for e in edges {
        flat.push(e.0);
        flat.push(e.1);
        flat.push(100 * KM);
    }
    let raw = RawGraph { node_count: at.len(), nodes, edges: flat };
    assert!(raw.is_valid());
    Graph::load(raw)
}

fn port(name: &str, country: &str, lon: f64, lat: f64) -> Port {
    Port { name: name.to_string(), country: country.to_string(), lat: deg(lat), lon: deg(lon), days: 3 }
}

fn report(name: &str, country: &str, snap: u64) -> SnapReport {
    SnapReport {
        name: name.to_string(),
        country: country.to_string(),
        lat: deg(1.0),
        lon: deg(2.0),
        days: 1,
        snap,
        snap_lon: 0,
        snap_lat: 0,
        connector_clear: true,
        nearest_any: None,
        nearest_any_comp_size: 0,
        nearest_any_is_main: false,
        exact_water: None,
    }
}

#[test]
fn ports_are_reported_with_their_snap() {
    let g = graph(&[[0.0, 0.0], [1.0, 0.0], [0.0, 1.0], [5.0, 5.0], [6.0, 5.0]], &[(0, 1), (1, 2), (3, 4)]);
    let ports = vec![port("A", "X", 0.1, 0.0), port("B", "Y", 5.0, 4.9)];
    let full = g.build_full_index();
    let r = snap_ports(&g, &all_water(), &ports, &full, &cosine, &circle, &haversine);
    assert_eq!(r.len(), 2);
    assert_eq!((r[0].name.as_str(), r[0].country.as_str(), r[0].days), ("A", "X", 3));
    assert_eq!((r[0].lon, r[0].lat), (deg(0.1), 0));
    assert_eq!((r[0].snap_lon, r[0].snap_lat), (0, 0));
    assert_eq!(r[0].snap, haversine(pt(0.1, 0.0), pt(0.0, 0.0)));
    assert!(r[0].connector_clear);
    assert_eq!(r[0].nearest_any, Some(r[0].snap));
    assert_eq!((r[0].nearest_any_comp_size, r[0].nearest_any_is_main), (3, true));
    assert_eq!(r[0].exact_water, Some(200_000_000));
    // Beside stranded water: the closest node is not of the main component.
    assert_eq!(r[1].nearest_any, Some(haversine(pt(5.0, 4.9), pt(5.0, 5.0))));
    assert_eq!((r[1].nearest_any_comp_size, r[1].nearest_any_is_main), (2, false));
    assert!(r[1].snap > r[1].nearest_any.unwrap());
}

#[test]
fn an_isolated_node_has_no_component() {
    let g = graph(&[[0.0, 0.0], [1.0, 0.0], [5.0, 5.0]], &[(0, 1)]);
    let full = g.build_full_index();
    let r = snap_ports(&g, &all_water(), &vec![port("C", "Z", 5.0, 5.0)], &full, &cosine, &circle, &haversine);
    assert_eq!(r[0].nearest_any, Some(0));
    assert_eq!((r[0].nearest_any_comp_size, r[0].nearest_any_is_main), (0, false));
}

#[test]
fn water_is_found_on_the_first_wet_ring() {
    // On land, 0.03 degrees (3.3 km) from the water in the east.
    let c = land_box(0.0, 0.0, 1.999, 2.0);
    let found = scan_for_water(&c, pt(1.97, 1.0), &cosine, &circle).unwrap();
    // 0.2 km times 1.35 to the power of ten.
    assert_eq!(found, 4_021_311_167);
}

#[test]
fn inland_there_is_no_water() {
    let c = land_box(0.0, 0.0, 2.0, 2.0);
    assert_eq!(scan_for_water(&c, pt(1.0, 1.0), &cosine, &circle), None);
    assert_eq!(scan_for_water(&c, pt(5.0, 5.0), &cosine, &circle), Some(200_000_000));
}

#[test]
fn percentiles_are_taken_by_rounded_position() {
    let v = vec![10, 20, 30, 40, 50];
    assert_eq!(percentile(&v, 0), 10);
    assert_eq!(percentile(&v, 500_000), 30);
    assert_eq!(percentile(&v, 900_000), 50);
    assert_eq!(percentile(&v, 800_000), 40);
    assert_eq!(percentile(&v, 1_000_000), 50);
    assert_eq!(percentile(&vec![], 500_000), 0);
}

#[test]
fn keys_hold_four_decimals() {
    assert_eq!(port_key("Sydney", "AU", deg(-33.85678), deg(151.21)), "Sydney|AU|-33.8568,151.2100");
    assert_eq!(port_key("", "", 0, 0), "||0.0000,0.0000");
    assert_ne!(port_key("Sydney", "AU", 0, 0), port_key("Sydney", "CA", 0, 0));
}

#[test]
fn angles_are_rounded_like_decimals() {
    let show = |x: i64| {
        let mut s = String::new();
        append_angle(&mut s, x);
        s
    };
    assert_eq!(show(deg(0.03125)), format!("{:.4}", 0.03125));
    assert_eq!(show(deg(0.09375)), format!("{:.4}", 0.09375));
    assert_eq!(show(-1), "-0.0000");
    assert_eq!(show(deg(-179.99999)), "-180.0000");
    assert_eq!(show(deg(12.3456789)), "12.3457");
}

#[test]
fn reports_are_labelled_for_people() {
    let r = report("St. John's", "AG", 0);
    assert_eq!(r.label(), "St. John's (AG)");
    assert_eq!(r.key(), "St. John's|AG|1.0000,2.0000");
}

#[test]
fn baselines_are_listed_by_key_and_rounded() {
    let reports = vec![
        report("Sydney", "CA", 1_234_999_999),
        report("Aalborg", "DK", 1_235_000_000),
        report("Sydney", "AU", 0),
        report("Sydney", "CA", 5_000_000),
    ];
    let b = to_baseline(&reports);
    let keys: Vec<String> = b.iter().map(|x| x.key()).collect();
    let mut sorted: Vec<String> = reports.iter().map(|x| x.key()).collect();
    sorted.sort();
    assert_eq!(keys, sorted);
    // Equal keys stay in the order they came in.
    assert_eq!(b.iter().map(|x| x.snap).collect::<Vec<_>>(), vec![1_240_000_000, 0, 1_230_000_000, 10_000_000]);
    assert!(b[0].connector_clear);
}

#[test]
fn a_baseline_has_the_key_of_its_report() {
    let b = Baseline {
        name: "A".to_string(),
        country: "B".to_string(),
        lat: deg(1.5),
        lon: deg(-2.25),
        snap: 0,
        connector_clear: false,
    };
    assert_eq!(b.key(), "A|B|1.5000,-2.2500");
}

#[test]
fn texts_are_ordered_by_character_codes() {
    let words = ["", "A", "Aa", "B", "a", "é", "日本", "🌊"];
    for a in words {
        for b in words {
            assert_eq!(is_text_before(a, b), a < b, "{} {}", a, b);
        }
    }
}

#[test]
fn open_water_is_clear_on_all_sides() {
    assert!(is_open_water(&all_water(), pt(0.0, 0.0), &cosine));
    // Land four kilometres to the north.
    let c = land_box(-1.0, 0.02, 1.0, 1.0);
    assert!(!is_open_water(&c, pt(0.0, 0.0), &cosine));
    assert!(is_open_water(&c, pt(0.0, -0.1), &cosine));
}

#[test]
fn an_exit_needs_a_node_close_by() {
    let g = graph(&[[0.0, 0.0], [1.0, 0.0]], &[(0, 1)]);
    assert!(is_exit(&g, &all_water(), pt(0.01, 0.0), &cosine, &haversine));
    assert!(!is_exit(&g, &all_water(), pt(0.03, 0.0), &cosine, &haversine));
    let none = graph(&[], &[]);
    assert!(!is_exit(&none, &all_water(), pt(0.01, 0.0), &cosine, &haversine));
}

#[test]
fn a_port_in_open_water_has_a_short_channel() {
    let g = graph(&[[0.0, 0.0], [1.0, 0.0]], &[(0, 1)]);
    let c = find_channel(&g, &all_water(), &port("P", "Q", 0.0, 0.0), &cosine, &haversine).unwrap();
    assert_eq!(c.port, "P");
    assert_eq!(c.points.len(), 2);
    assert_eq!(c.points[0], pt(0.0, 0.0));
    // The first cell beyond the harbour: one step east, ten south.
    assert_eq!(c.points[1], Point { lon: 1_729_729, lat: -17_297_298 });
}

#[test]
fn a_channel_leads_around_land() {
    // A wall in the south of the port; the router starts beyond it.
    let c = land_box(-0.06, -0.06, 0.06, -0.04);
    let g = graph(&[[0.0, -0.15], [0.0, -1.0]], &[(0, 1)]);
    let found = find_channel_within(&g, &c, "P", pt(0.0, 0.0), 200, &cosine, &haversine).unwrap();
    let last = *found.points.last().unwrap();
    assert_eq!(found.points[0], pt(0.0, 0.0));
    assert!(haversine(last, pt(0.0, -0.15)) <= 2 * KM);
    assert!(found.points.len() > 2);
}

#[test]
fn a_landlocked_port_has_no_channel() {
    let c = land_box(-1.0, -1.0, 1.0, 1.0);
    let g = graph(&[[0.0, -3.0], [0.0, -4.0]], &[(0, 1)]);
    assert!(find_channel_within(&g, &c, "P", pt(0.0, 0.0), 60, &cosine, &haversine).is_none());
}

#[test]
fn a_channel_goes_by_water_to_an_exit() {
    let c = land_box(-0.06, -0.06, 0.06, -0.04);
    let g = graph(&[[0.0, -0.15], [0.0, -1.0]], &[(0, 1)]);
    let found = find_channel_within(&g, &c, "P", pt(0.0, 0.0), 200, &cosine, &haversine).unwrap();
    for p in &found.points {
        assert!(!c.is_land_precise(p.lon, p.lat));
    }
    let last = *found.points.last().unwrap();
    assert!(is_exit(&g, &c, last, &cosine, &haversine));
    assert!(!c.is_land(last.lon, last.lat));
    let again = find_channel_within(&g, &c, "P", pt(0.0, 0.0), 200, &cosine, &haversine).unwrap();
    assert_eq!(again.points, found.points);
}
