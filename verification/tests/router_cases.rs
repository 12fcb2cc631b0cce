use sea_router::geo::{Point, KM};
use sea_router::graph::{Graph, RawGraph};
use sea_router::land::{Geometry, LandClassifier};
use sea_router::router::{
    edge_cost, same_point, snap_to_water, stitch_endpoints, turn_towards, unwrap_lons, Router,
};
use sea_router::search::{NO_NODE, UNREACHED};

fn deg(x: f64) -> i64 {
    (x * 1.28e9).round() as i64
}

fn degrees(x: i64) -> f64 {
    x as f64 / 1.28e9
}

fn pt(lon: f64, lat: f64) -> Point {
    Point { lon: deg(lon), lat: deg(lat) }
}

fn haversine(a: Point, b: Point) -> u64 {
    let rad = |x: i64| (x as f64 / 1.28e9).to_radians();
    let dlat = rad(b.lat) - rad(a.lat);
    let mut d = (degrees(b.lon) - degrees(a.lon)).abs() % 360.0;
    if d > 180.0 {
        d = 360.0 - d;
    }
    let dlon = d.to_radians();
    let h = (dlat / 2.0).sin().powi(2) + rad(a.lat).cos() * rad(b.lat).cos() * (dlon / 2.0).sin().powi(2);
    (6371.0 * 2.0 * h.sqrt().asin() * 1e9).round() as u64
}

fn all_water() -> LandClassifier {
    LandClassifier::load(&vec![], None)
}

fn land_box(x0: f64, y0: f64, x1: f64, y1: f64) -> LandClassifier {
    let ring = vec![pt(x0, y0), pt(x1, y0), pt(x1, y1), pt(x0, y1), pt(x0, y0)];
    LandClassifier::load(&vec![Geometry::Polygon { coordinates: vec![ring] }], None)
}

fn graph(at: &[[f64; 2]], depths: &[i64], edges: &[(u64, u64, u64)]) -> Graph {
    let mut nodes = Vec::new();
    for (p, d) in at.iter().zip(depths) {
        nodes.push(deg(p[0]));
        nodes.push(deg(p[1]));
        nodes.push(*d);
    }
    let mut flat = Vec::new();
    for e in edges {
        flat.push(e.0);
        flat.push(e.1);
        flat.push(e.2);
    }
    let raw = RawGraph { node_count: at.len(), nodes, edges: flat };
    assert!(raw.is_valid());
    Graph::load(raw)
}

/// Two open-ocean nodes at lat 36, joined by one edge of 90 kilometres.
fn two_node_graph() -> Graph {
    graph(&[[-61.0, 36.0], [-60.0, 36.0]], &[1, 1], &[(0, 1, 90 * KM)])
}

#[test]
fn stitches_true_port_coords_over_open_water() {
    let graph = two_node_graph();
    let classifier = all_water();
    let mut router = Router::new(graph.node_count);

    // Ports sit offshore of each snapped node; the gap is open water.
    let from = [-61.2, 36.0];
    let to = [-59.9, 36.0];
    let r = router
        .find_route(
            &graph, &classifier, deg(from[0]), deg(from[1]), deg(to[0]), deg(to[1]), 8_000_000, &haversine,
        )
        .expect("route");

    let first = *r.path.first().unwrap();
    let last = *r.path.last().unwrap();
    assert!(
        (degrees(first.lon) - from[0]).abs() < 1e-6 && (degrees(first.lat) - from[1]).abs() < 1e-6,
        "path should start at the true origin port, got {:?}", first
    );
    assert!(
        (degrees(last.lon) - to[0]).abs() < 1e-6 && (degrees(last.lat) - to[1]).abs() < 1e-6,
        "path should end at the true destination port, got {:?}", last
    );
}

#[test]
fn drops_connector_that_would_cross_land() {
    let graph = two_node_graph();
    // Land strip between the origin port (-61.2) and its snapped node (-61.0),
    // clear of both endpoints' 3km shore tolerance.
    let classifier = land_box(-61.15, 35.9, -61.05, 36.1);
    let mut router = Router::new(graph.node_count);

    let r = router
        .find_route(
            &graph, &classifier, deg(-61.2), deg(36.0), deg(-59.9), deg(36.0), 8_000_000, &haversine,
        )
        .expect("route");

    // Front connector crosses land → dropped → path starts at snapped node.
    let first = *r.path.first().unwrap();
    assert!(
        (degrees(first.lon) - (-61.0)).abs() < 1e-6 && (degrees(first.lat) - 36.0).abs() < 1e-6,
        "land-crossing connector should be dropped, leaving the snapped node; got {:?}", first
    );
}

#[test]
fn distance_is_the_cost_of_the_edges_and_the_connectors() {
    let graph = two_node_graph();
    let mut router = Router::new(graph.node_count);
    let from = pt(-61.2, 36.0);
    let to = pt(-59.9, 36.0);
    let r = router
        .find_route(&graph, &all_water(), from.lon, from.lat, to.lon, to.lat, 1_000_000, &haversine)
        .unwrap();
    let connectors = haversine(from, graph.point(0)) + haversine(graph.point(1), to);
    assert_eq!(r.distance, (90 * KM + connectors) as i128);
    assert_eq!(r.nodes_explored, 1);
}

#[test]
fn ports_that_share_a_node_are_joined_directly() {
    let graph = two_node_graph();
    let mut router = Router::new(graph.node_count);
    let a = pt(-61.2, 36.1);
    let b = pt(-61.1, 36.0);
    let r = router.find_route(&graph, &all_water(), a.lon, a.lat, b.lon, b.lat, 5_000_000, &haversine).unwrap();
    assert_eq!(r.path, vec![a, b]);
    assert_eq!(r.distance, haversine(a, b) as i128);
    assert_eq!(r.nodes_explored, 0);
    let same = router.find_route(&graph, &all_water(), a.lon, a.lat, a.lon, a.lat, 5_000_000, &haversine).unwrap();
    assert_eq!(same.path, vec![a]);
    assert_eq!(same.distance, 0);
}

#[test]
fn the_coastal_penalty_turns_the_route_out_to_sea() {
    // Straight along the coast through node 1, or around through the open node 2.
    let at = [[0.0, 0.0], [1.0, 0.0], [1.0, 1.0], [2.0, 0.0]];
    let depths = [1, 10, 1, 1];
    let edges = [(0, 1, 112 * KM), (1, 3, 112 * KM), (0, 2, 158 * KM), (2, 3, 158 * KM)];
    let g = graph(&at, &depths, &edges);
    let mut router = Router::new(g.node_count);
    let mut go = |penalty: i64| {
        router.find_route(&g, &all_water(), deg(0.0), deg(0.0), deg(2.0), deg(0.0), penalty, &haversine).unwrap()
    };
    let coast = go(1_000_000);
    assert_eq!(coast.distance, (224 * KM) as i128);
    assert_eq!(coast.path, vec![pt(0.0, 0.0), pt(2.0, 0.0)]);
    let sea = go(5_000_000);
    assert_eq!(sea.distance, (316 * KM) as i128);
    assert_eq!(sea.path, vec![pt(0.0, 0.0), pt(1.0, 1.0), pt(2.0, 0.0)]);
}

#[test]
fn no_route_is_found_where_no_node_has_a_depth() {
    let g = graph(&[[0.0, 0.0], [1.0, 0.0]], &[0, 0], &[(0, 1, 112 * KM)]);
    let mut router = Router::new(g.node_count);
    let r = router.find_route(&g, &all_water(), deg(0.0), deg(0.0), deg(1.0), deg(0.0), 5_000_000, &haversine);
    assert!(r.is_none());
}

#[test]
fn a_router_serves_one_request_after_the_other() {
    let graph = two_node_graph();
    let mut router = Router::new(graph.node_count);
    let mut distances = Vec::new();
    for _ in 0..5 {
        let r = router
            .find_route(&graph, &all_water(), deg(-61.0), deg(36.0), deg(-60.0), deg(36.0), 1_000_000, &haversine)
            .unwrap();
        distances.push(r.distance);
    }
    assert_eq!(distances, vec![(90 * KM) as i128; 5]);
}

#[test]
fn a_fresh_router_knows_nothing() {
    let mut router = Router::new(3);
    assert_eq!(router.size(), 3);
    router.reset();
    let m = router.get(2);
    assert_eq!((m.g_score, m.came_from, m.closed), (UNREACHED, NO_NODE, false));
}

#[test]
fn open_ocean_costs_its_length() {
    assert_eq!(edge_cost(100 * KM, 2, 10, 5_000_000), (100 * KM) as i128);
}

#[test]
fn the_greatest_depth_costs_the_full_penalty() {
    assert_eq!(edge_cost(100 * KM, 10, 10, 5_000_000), (500 * KM) as i128);
}

#[test]
fn the_penalty_is_quadratic() {
    // Halfway from a fifth to the whole: a quarter of what the penalty adds.
    assert_eq!(edge_cost(100 * KM, 6, 10, 5_000_000), (200 * KM) as i128);
    assert_eq!(edge_cost(100 * KM, 6, 10, 1_000_000), (100 * KM) as i128);
}

#[test]
fn longitudes_are_unwrapped_across_the_antimeridian() {
    let mut path = vec![pt(170.0, 0.0), pt(-175.0, 1.0), pt(-160.0, 2.0), pt(170.0, 3.0)];
    unwrap_lons(&mut path);
    assert_eq!(path, vec![pt(170.0, 0.0), pt(185.0, 1.0), pt(200.0, 2.0), pt(170.0, 3.0)]);
}

#[test]
fn longitudes_turn_by_the_least_amount() {
    assert_eq!(turn_towards(deg(-175.0), deg(170.0)), deg(185.0));
    assert_eq!(turn_towards(deg(10.0), deg(530.0)), deg(370.0));
    assert_eq!(turn_towards(deg(10.0), deg(-540.0)), deg(-710.0));
    assert_eq!(turn_towards(deg(10.0), deg(100.0)), deg(10.0));
}

#[test]
fn points_a_billionth_apart_are_the_same() {
    let a = pt(1.0, 2.0);
    assert!(same_point(a, Point { lon: a.lon + 1, lat: a.lat - 1 }));
    assert!(!same_point(a, Point { lon: a.lon + 2, lat: a.lat }));
}

#[test]
fn stitching_leaves_matching_ends_alone() {
    let mut path = vec![pt(0.0, 0.0), pt(1.0, 0.0)];
    let extra = stitch_endpoints(&mut path, &all_water(), pt(0.0, 0.0), pt(1.0, 0.0), &haversine);
    assert_eq!(extra, 0);
    assert_eq!(path.len(), 2);
    let extra = stitch_endpoints(&mut path, &all_water(), pt(-0.5, 0.0), pt(1.0, 0.0), &haversine);
    assert_eq!(extra, haversine(pt(-0.5, 0.0), pt(0.0, 0.0)) as i128);
    assert_eq!(path, vec![pt(-0.5, 0.0), pt(0.0, 0.0), pt(1.0, 0.0)]);
}

#[test]
fn snapping_tells_whether_the_connector_is_clear() {
    let graph = two_node_graph();
    let clear = snap_to_water(&graph, &all_water(), pt(-61.2, 36.0), &haversine);
    assert_eq!((clear.node, clear.at, clear.connector_clear), (0, pt(-61.0, 36.0), true));
    let blocked = snap_to_water(&graph, &land_box(-61.15, 35.9, -61.05, 36.1), pt(-61.2, 36.0), &haversine);
    assert_eq!((blocked.node, blocked.connector_clear), (0, false));
}

#[test]
fn a_used_router_answers_as_a_fresh_one() {
    let at = [[0.0, 0.0], [1.0, 0.0], [1.0, 1.0], [2.0, 0.0]];
    let edges = [(0, 1, 112 * KM), (1, 3, 112 * KM), (0, 2, 158 * KM), (2, 3, 158 * KM)];
    let g = graph(&at, &[1, 10, 1, 1], &edges);
    let mut used = Router::new(g.node_count);
    for penalty in [1_000_000, 5_000_000, 1_000_000] {
        let mut fresh = Router::new(g.node_count);
        let a = used.find_route(&g, &all_water(), deg(0.0), deg(0.0), deg(2.0), deg(0.0), penalty, &haversine).unwrap();
        let b = fresh.find_route(&g, &all_water(), deg(0.0), deg(0.0), deg(2.0), deg(0.0), penalty, &haversine).unwrap();
        assert_eq!((a.path, a.distance, a.nodes_explored), (b.path, b.distance, b.nodes_explored));
    }
}

#[test]
fn the_nodes_closed_are_counted() {
    // Nodes 0 to 3 in a row; node 4 lies behind the start, and is never worth closing.
    let at = [[0.0, 0.0], [1.0, 0.0], [2.0, 0.0], [3.0, 0.0], [-1.0, 0.0]];
    let edges = [(0, 1, 112 * KM), (1, 2, 112 * KM), (2, 3, 112 * KM), (0, 4, 112 * KM)];
    let g = graph(&at, &[1, 1, 1, 1, 1], &edges);
    let mut router = Router::new(g.node_count);
    let r = router
        .find_route(&g, &all_water(), deg(0.0), deg(0.0), deg(3.0), deg(0.0), 1_000_000, &haversine)
        .unwrap();
    assert_eq!(r.nodes_explored, 3);
    for v in 0..3 {
        assert!(router.get(v).closed);
    }
    assert!(!router.get(3).closed);
    assert!(!router.get(4).closed);
}
