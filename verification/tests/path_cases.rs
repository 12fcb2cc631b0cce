use sea_router::geo::{Point, DRAWN, KM};
use sea_router::graph::{Graph, RawGraph};
use sea_router::itinerary::{multi_route, FarPoint, Itinerary, LegError};
use sea_router::land::{Geometry, LandClassifier};
use sea_router::los::{can_skip, simplify};
use sea_router::pipeline::{chaikin_smooth, finish_route, route_pipeline, whole_km, DEFAULT_PENALTY};
use sea_router::router::{RouteResult, Router};
use sea_router::thinning::{douglas_peucker, Rule};

fn deg(x: f64) -> i64 {
    (x * 1.28e9).round() as i64
}

fn pt(lon: f64, lat: f64) -> Point {
    Point { lon: deg(lon), lat: deg(lat) }
}

fn far(points: &[Point]) -> Vec<FarPoint> {
    points.iter().map(|p| FarPoint { lon: p.lon as i128, lat: p.lat }).collect()
}

fn plane(a: Point, b: Point) -> u64 {
    let x = (b.lon - a.lon) as f64;
    let y = (b.lat - a.lat) as f64;
    (x.hypot(y) / 1.28e9 * 111e9).round() as u64
}

fn all_water() -> LandClassifier {
    LandClassifier::load(&vec![], None)
}

fn land_box(x0: f64, y0: f64, x1: f64, y1: f64) -> LandClassifier {
    let ring = vec![pt(x0, y0), pt(x1, y0), pt(x1, y1), pt(x0, y1), pt(x0, y0)];
    LandClassifier::load(&vec![Geometry::Polygon { coordinates: vec![ring] }], None)
}

fn line_graph(lons: &[f64], depth: i64) -> Graph {
    let mut nodes = Vec::new();
    let mut edges = Vec::new();
    for (i, lon) in lons.iter().enumerate() {
        nodes.push(deg(*lon));
        nodes.push(deg(0.0));
        nodes.push(depth);
        if i > 0 {
            edges.push(i as u64 - 1);
            edges.push(i as u64);
            edges.push(1200 * KM);
        }
    }
    let raw = RawGraph { node_count: lons.len(), nodes, edges };
    assert!(raw.is_valid());
    Graph::load(raw)
}

#[test]
fn thinning_drops_points_near_the_chord() {
    let path = vec![pt(0.0, 0.0), pt(0.5, 0.005), pt(1.0, 0.0)];
    assert_eq!(douglas_peucker(&path, Rule::Route), vec![pt(0.0, 0.0), pt(1.0, 0.0)]);
}

#[test]
fn thinning_keeps_points_off_the_chord() {
    let path = vec![pt(0.0, 0.0), pt(0.5, 0.05), pt(1.0, 0.0)];
    assert_eq!(douglas_peucker(&path, Rule::Route), path);
}

#[test]
fn channels_are_thinned_more_finely() {
    let path = vec![pt(0.0, 0.0), pt(0.5, 0.005), pt(1.0, 0.0)];
    assert_eq!(douglas_peucker(&path, Rule::Channel), path);
    let path = vec![pt(0.0, 0.0), pt(0.5, 0.001), pt(1.0, 0.0)];
    assert_eq!(douglas_peucker(&path, Rule::Channel).len(), 2);
}

#[test]
fn short_paths_are_not_thinned() {
    assert_eq!(douglas_peucker(&vec![], Rule::Route), vec![]);
    let two = vec![pt(0.0, 0.0), pt(0.0, 0.0)];
    assert_eq!(douglas_peucker(&two, Rule::Route), two);
}

#[test]
fn a_loop_is_measured_from_its_common_end() {
    let path = vec![pt(0.0, 0.0), pt(1.0, 1.0), pt(0.0, 0.0)];
    assert_eq!(douglas_peucker(&path, Rule::Route), path);
    let tight = vec![pt(0.0, 0.0), pt(0.001, 0.001), pt(0.0, 0.0)];
    assert_eq!(douglas_peucker(&tight, Rule::Route).len(), 2);
}

#[test]
fn open_sea_is_in_sight() {
    assert!(can_skip(&pt(0.0, 0.0), &pt(100.0, 40.0), &all_water()));
}

#[test]
fn land_blocks_the_line_of_sight() {
    let c = land_box(4.0, -1.0, 6.0, 1.0);
    assert!(!can_skip(&pt(0.0, 0.0), &pt(10.0, 0.0), &c));
    assert!(!can_skip(&pt(3.5, 0.0), &pt(4.5, 0.0), &c));
    assert!(can_skip(&pt(0.0, 5.0), &pt(10.0, 5.0), &c));
}

#[test]
fn land_beside_the_line_blocks_it_too() {
    let ring = vec![pt(4.0, 0.01), pt(5.0, 0.01), pt(5.5, -0.5), pt(6.0, 0.01), pt(6.0, 1.0), pt(4.0, 1.0)];
    let c = LandClassifier::load(&vec![Geometry::Polygon { coordinates: vec![ring] }], None);
    // The line itself runs in water, but within 0.027 degrees of land.
    assert!(!can_skip(&pt(3.5, -0.01), &pt(4.5, -0.01), &c));
    assert!(can_skip(&pt(3.5, -0.1), &pt(4.5, -0.1), &c));
}

#[test]
fn simplifying_skips_what_can_be_seen_past() {
    let path = vec![pt(0.0, 0.0), pt(1.0, 0.5), pt(2.0, -0.5), pt(3.0, 0.0)];
    assert_eq!(simplify(&path, &all_water(), 500_000), vec![pt(0.0, 0.0), pt(3.0, 0.0)]);
}

#[test]
fn simplifying_goes_around_land() {
    let c = land_box(1.0, -1.0, 2.0, 1.0);
    let path = vec![pt(0.0, 0.0), pt(0.5, 1.5), pt(2.5, 1.5), pt(3.0, 0.0)];
    let r = simplify(&path, &c, 500_000);
    assert_eq!(r.first(), path.first());
    assert_eq!(r.last(), path.last());
    assert!(r.len() > 2);
}

#[test]
fn short_paths_are_not_simplified() {
    let two = vec![pt(0.0, 0.0), pt(1.0, 0.0)];
    assert_eq!(simplify(&two, &all_water(), 500_000), two);
}

#[test]
fn corners_are_cut_at_a_quarter() {
    let path = vec![pt(0.0, 0.0), pt(4.0, 0.0), pt(4.0, 4.0)];
    let once = chaikin_smooth(&path, 1, &all_water());
    assert_eq!(
        once,
        vec![pt(0.0, 0.0), pt(1.0, 0.0), pt(3.0, 0.0), pt(4.0, 1.0), pt(4.0, 3.0), pt(4.0, 4.0)]
    );
}

#[test]
fn smoothing_keeps_the_ends() {
    let path = vec![pt(0.0, 0.0), pt(4.0, 0.0), pt(4.0, 4.0), pt(8.0, 4.0)];
    let r = chaikin_smooth(&path, 4, &all_water());
    assert_eq!(r.first(), path.first());
    assert_eq!(r.last(), path.last());
    assert!(r.len() > 20);
}

#[test]
fn smoothing_puts_no_point_on_land() {
    let c = land_box(2.2, 0.3, 3.6, 2.0);
    let path = vec![pt(0.0, 0.0), pt(4.0, 0.0), pt(4.0, 4.0)];
    let r = chaikin_smooth(&path, 4, &c);
    for p in &r {
        assert!(!c.is_land(p.lon, p.lat));
    }
}

#[test]
fn lines_without_corners_are_not_smoothed() {
    let path = vec![pt(0.0, 0.0), pt(4.0, 0.0)];
    assert_eq!(chaikin_smooth(&path, 4, &all_water()), path);
    let corner = vec![pt(0.0, 0.0), pt(4.0, 0.0), pt(4.0, 4.0)];
    assert_eq!(chaikin_smooth(&corner, 0, &all_water()), corner);
}

#[test]
fn a_route_is_drawn_in_three_ways() {
    let g = line_graph(&[0.0, 10.0, 20.0], 1);
    let mut router = Router::new(g.node_count);
    let r = route_pipeline(&g, &all_water(), &mut router, pt(0.0, 0.0), pt(20.0, 0.0), DEFAULT_PENALTY, &plane)
        .unwrap();
    assert_eq!(r.raw, vec![pt(0.0, 0.0), pt(20.0, 0.0)]);
    assert_eq!(r.los, vec![pt(0.0, 0.0), pt(20.0, 0.0)]);
    assert_eq!(r.smoothed, r.los);
    assert_eq!(r.nodes_explored, 2);
    // Both ends are as deep as it gets, so the penalty is five.
    assert_eq!(r.distance, 5 * 2400 * KM as i128);
    assert_eq!(whole_km(r.distance), 12_000);
}

#[test]
fn no_route_is_no_drawing() {
    let g = line_graph(&[0.0, 10.0], 0);
    let mut router = Router::new(g.node_count);
    let r = route_pipeline(&g, &all_water(), &mut router, pt(0.0, 0.0), pt(10.0, 0.0), DEFAULT_PENALTY, &plane);
    assert!(r.is_none());
}

#[test]
fn long_routes_are_smoothed_in_fewer_rounds() {
    // 25 points that cannot see past one another: land lies inside every corner.
    let mut path = Vec::new();
    for i in 0..25 {
        path.push(pt(i as f64 * 0.2, if i % 2 == 0 { 0.0 } else { 3.0 }));
    }
    let rings: Vec<Geometry> = (0..24)
        .map(|i| {
            let x = i as f64 * 0.2;
            let y = if i % 2 == 0 { 2.0 } else { 1.0 };
            let ring = vec![pt(x - 0.05, y), pt(x + 0.05, y), pt(x, y + 0.05)];
            Geometry::Polygon { coordinates: vec![ring] }
        })
        .collect();
    let c = LandClassifier::load(&rings, None);
    let route = RouteResult { path: path.clone(), distance: 0, nodes_explored: 0 };
    let r = finish_route(route, &c);
    assert_eq!(r.raw, path);
    let rounds = if r.los.len() > 20 { 2 } else { 4 };
    assert_eq!(r.smoothed, chaikin_smooth(&r.los, rounds, &c));
}

#[test]
fn whole_kilometres_are_rounded_down() {
    assert_eq!(whole_km(1_999_999_999), 1);
    assert_eq!(whole_km(0), 0);
    assert_eq!(whole_km(-5), 0);
}

#[test]
fn an_itinerary_joins_its_legs() {
    let g = line_graph(&[0.0, 10.0, 20.0], 1);
    let mut router = Router::new(g.node_count);
    let ports = vec![pt(0.0, 0.0), pt(10.0, 0.0), pt(20.0, 0.0)];
    let r = multi_route(&g, &all_water(), &mut router, &ports, 1_000_000, &plane).unwrap();
    assert_eq!(r.raw, far(&ports));
    assert_eq!(r.los, far(&ports));
    assert_eq!(r.smoothed, far(&ports));
    assert_eq!(r.legs, 2);
    assert_eq!(r.distance, 2400 * KM as i128);
}

#[test]
fn legs_go_on_across_the_antimeridian() {
    let g = line_graph(&[170.0, -175.0, -160.0], 1);
    let mut router = Router::new(g.node_count);
    let ports = vec![pt(170.0, 0.0), pt(-175.0, 0.0), pt(-160.0, 0.0)];
    let r = multi_route(&g, &all_water(), &mut router, &ports, 1_000_000, &plane).unwrap();
    assert_eq!(r.raw, far(&[pt(170.0, 0.0), pt(185.0, 0.0), pt(200.0, 0.0)]));
}

#[test]
fn an_itinerary_needs_two_ports() {
    let g = line_graph(&[0.0, 10.0], 1);
    let mut router = Router::new(g.node_count);
    let r = multi_route(&g, &all_water(), &mut router, &vec![pt(0.0, 0.0)], 1_000_000, &plane);
    assert!(matches!(r, Err(LegError::TooFewPorts)));
}

#[test]
fn the_leg_without_a_route_is_named() {
    let g = line_graph(&[0.0, 10.0], 0);
    let mut router = Router::new(g.node_count);
    // The first leg stays at one node; the second would need an edge.
    let ports = vec![pt(0.0, 0.0), pt(1.0, 0.0), pt(10.0, 0.0)];
    let r = multi_route(&g, &all_water(), &mut router, &ports, 1_000_000, &plane);
    assert!(matches!(r, Err(LegError::NoRoute(2))));
}

#[test]
fn a_line_may_wind_around_the_globe_without_end() {
    let mut whole = Itinerary::new();
    for _ in 0..20 {
        let path = vec![pt(0.0, 0.0), Point { lon: DRAWN, lat: 0 }];
        whole.add_leg(RouteResult { path, distance: 1, nodes_explored: 3 }, &all_water());
    }
    assert_eq!(whole.legs, 20);
    assert_eq!(whole.distance, 20);
    assert_eq!(whole.nodes_explored, 60);
    assert_eq!(whole.raw.len(), 21);
    assert_eq!(whole.smoothed, whole.raw);
    // Each leg starts anew at a whole number of turns, half a turn at most from the last end.
    let turn = deg(360.0) as i128;
    let mut end = DRAWN as i128;
    for p in &whole.raw[2..] {
        let start = p.lon - DRAWN as i128;
        assert_eq!(start % turn, 0);
        assert!((start - end).abs() <= turn / 2);
        end = p.lon;
    }
    assert!(end > i64::MAX as i128);
    assert_eq!(whole.anchor, Some(end));
}

#[test]
fn a_leg_moved_by_whole_turns_is_drawn_alike() {
    let c = land_box(1.0, -0.5, 2.0, 0.5);
    let path = vec![pt(0.0, 0.0), pt(0.5, 0.8), pt(1.5, 1.0), pt(2.5, 0.8), pt(3.0, 0.0)];
    let on: Vec<Point> = path.iter().map(|p| Point { lon: p.lon - deg(720.0), lat: p.lat }).collect();
    let los = simplify(&path, &c, 500_000_000);
    assert!(los.len() > 2);
    let smooth = chaikin_smooth(&los, 4, &c);
    let back = |line: Vec<Point>| -> Vec<Point> {
        line.iter().map(|p| Point { lon: p.lon + deg(720.0), lat: p.lat }).collect()
    };
    let los_on = simplify(&on, &c, 500_000_000);
    let smooth_on = chaikin_smooth(&los_on, 4, &c);
    assert_eq!(back(los_on), los);
    assert_eq!(back(smooth_on), smooth);

    // Joined to a leg that ends two turns to the west.
    let mut whole = Itinerary::new();
    let west = vec![pt(-719.0, 0.0), pt(-720.0, 0.0)];
    whole.add_leg(RouteResult { path: west, distance: 0, nodes_explored: 0 }, &c);
    whole.add_leg(RouteResult { path: path.clone(), distance: 0, nodes_explored: 0 }, &c);
    assert_eq!(whole.raw[2..], far(&on)[1..]);
    assert_eq!(whole.los[2..], far(&simplify(&on, &c, 500_000_000))[1..]);
    assert_eq!(
        whole.smoothed[2..],
        far(&chaikin_smooth(&simplify(&on, &c, 500_000_000), 4, &c))[1..]
    );
}

#[test]
fn points_on_the_chord_are_dropped() {
    let path = vec![pt(0.0, 0.0), pt(1.0, 0.0), pt(2.0, 0.0)];
    assert_eq!(douglas_peucker(&path, Rule::Route), vec![pt(0.0, 0.0), pt(2.0, 0.0)]);
    let slope = vec![pt(0.0, 0.0), pt(3.0, 1.0), pt(6.0, 2.0), pt(9.0, 3.0)];
    assert_eq!(douglas_peucker(&slope, Rule::Route), vec![pt(0.0, 0.0), pt(9.0, 3.0)]);
    // Beyond the end of the chord, the distance is that to the end.
    let past = vec![pt(0.0, 0.0), pt(3.0, 0.0), pt(2.0, 0.0)];
    assert_eq!(douglas_peucker(&past, Rule::Route), past);
}

#[test]
fn land_is_seen_across_the_antimeridian() {
    let c = land_box(-179.6, -0.1, -179.4, 0.1);
    assert!(!can_skip(&pt(178.0, 0.0), &pt(183.0, 0.0), &c));
    assert!(!can_skip(&pt(-182.0, 0.0), &pt(-177.0, 0.0), &c));
    assert!(!can_skip(&pt(538.0, 0.0), &pt(543.0, 0.0), &c));
    assert!(can_skip(&pt(178.0, 5.0), &pt(183.0, 5.0), &c));
    assert!(can_skip(&pt(178.0, 0.0), &pt(180.2, 0.0), &c));
    // Once around the globe there is land on the way.
    assert!(!can_skip(&pt(0.0, 0.0), &pt(400.0, 0.0), &c));
}
