use sea_router::canals::{canals, CanalPassage};
use sea_router::generate::WaterLeaf;
use sea_router::geo::{Point, KM};
use sea_router::graph_builder::{
    adjacent_links, build_graph, build_graph_with, build_graph_with_ports, cells_adjacent, edge_crosses_land,
    inject_canals, seam_links, segment_clear, GNode, Link,
};
use sea_router::land::{Geometry, LandClassifier};
use sea_router::reconnect::reconnect_islands;
use sea_router::union_find::{uf_find, uf_union};

fn deg(x: f64) -> i64 {
    (x * 1.28e9).round() as i64
}

fn pt(lon: f64, lat: f64) -> Point {
    Point { lon: deg(lon), lat: deg(lat) }
}

fn haversine(a: Point, b: Point) -> u64 {
    let rad = |x: i64| (x as f64 / 1.28e9).to_radians();
    let dlat = rad(b.lat) - rad(a.lat);
    let dlon = rad(b.lon) - rad(a.lon);
    let h = (dlat / 2.0).sin().powi(2) + rad(a.lat).cos() * rad(b.lat).cos() * (dlon / 2.0).sin().powi(2);
    (6371.0 * 2.0 * h.sqrt().asin() * 1e9).round() as u64
}

fn all_water() -> LandClassifier {
    LandClassifier::load(&vec![], None)
}

fn land_box(x0: f64, y0: f64, x1: f64, y1: f64) -> LandClassifier {
    let ring = vec![pt(x0, y0), pt(x1, y0), pt(x1, y1), pt(x0, y1), pt(x0, y0)];
    LandClassifier::load(&vec![Geometry::Polygon { coordinates: vec![ring] }], None)
}

fn gnode(lon: f64, lat: f64) -> GNode {
    GNode { lon: deg(lon), lat: deg(lat), depth: 1 }
}

fn leaf(x0: f64, y0: f64, x1: f64, y1: f64, depth: u8) -> WaterLeaf {
    WaterLeaf { min_lon: deg(x0), min_lat: deg(y0), max_lon: deg(x1), max_lat: deg(y1), depth }
}

fn centres(leaves: &Vec<WaterLeaf>) -> Vec<GNode> {
    leaves
        .iter()
        .map(|l| GNode { lon: (l.min_lon + l.max_lon) / 2, lat: (l.min_lat + l.max_lat) / 2, depth: l.depth })
        .collect()
}

#[test]
fn bridges_isolated_island_to_main_component() {
    // Nodes 0,1,2 form the main component; node 3 is an isolated island cell
    // sitting in open water near the main component, with no edges.
    let nodes = vec![gnode(-61.0, 36.0), gnode(-60.0, 36.0), gnode(-60.0, 35.0), gnode(-61.0, 35.0)];
    let mut raw_edges: Vec<Link> = vec![(0u32, 1u32, 90 * KM), (1, 2, 90 * KM), (0, 2, 120 * KM)];

    reconnect_islands(&nodes, &mut raw_edges, &all_water(), &haversine);

    let touches_island = raw_edges.iter().any(|&(a, b, _)| a == 3 || b == 3);
    assert!(touches_island, "isolated island node 3 should be bridged into the graph");
}

#[test]
fn bridge_is_the_shortest_one() {
    let nodes = vec![
        gnode(-61.0, 36.0),
        gnode(-60.0, 36.0),
        gnode(-60.0, 35.0),
        gnode(-63.0, 35.5),
        gnode(-62.0, 35.5),
    ];
    let mut links: Vec<Link> = vec![(0u32, 1u32, 90 * KM), (1, 2, 90 * KM), (3, 4, 90 * KM)];
    reconnect_islands(&nodes, &mut links, &all_water(), &haversine);
    assert_eq!(links.len(), 4);
    assert_eq!(links[3], (4, 0, haversine(nodes[4].point(), nodes[0].point())));
}

#[test]
fn bridge_over_land_is_not_built() {
    let nodes = vec![gnode(-61.0, 35.0), gnode(-60.9, 35.0), gnode(-60.0, 35.0)];
    let mut links: Vec<Link> = vec![(0u32, 1u32, 9 * KM)];
    reconnect_islands(&nodes, &mut links, &land_box(-60.6, 34.0, -60.4, 36.0), &haversine);
    assert_eq!(links.len(), 1);
}

#[test]
fn segment_clear_passes_open_water_and_blocks_land() {
    let water = all_water();
    let a = pt(-61.0, 35.0);
    let b = pt(-60.0, 35.0);
    assert!(segment_clear(&water, a, b, 2 * KM, &haversine), "open-water segment must be clear");

    // Land box squarely on the midpoint of a→b, clear of both endpoints.
    let classifier = land_box(-60.6, 34.9, -60.4, 35.1);
    assert!(
        !segment_clear(&classifier, a, b, 2 * KM, &haversine),
        "segment crossing a land box must be rejected (keeps lakes from welding to the ocean)"
    );
}

#[test]
fn segment_clear_ignores_the_shore() {
    let a = pt(-61.0, 35.0);
    let b = pt(-60.0, 35.0);
    // Land within two kilometres of the start only.
    let shore = land_box(-61.02, 34.9, -60.99, 35.1);
    assert!(segment_clear(&shore, a, b, 2 * KM, &haversine));
    assert!(!segment_clear(&shore, a, b, 0, &haversine) || shore.is_land(a.lon, a.lat));
}

#[test]
fn cells_touch_along_edges_and_corners() {
    let a = leaf(0.0, 0.0, 1.0, 1.0, 8);
    assert!(cells_adjacent(&a, &leaf(1.0, 0.0, 2.0, 1.0, 8)));
    assert!(cells_adjacent(&a, &leaf(1.0, 1.0, 2.0, 2.0, 8)));
    assert!(cells_adjacent(&a, &leaf(1.0, 0.5, 1.5, 1.0, 9)));
    assert!(!cells_adjacent(&a, &a));
    assert!(!cells_adjacent(&a, &leaf(2.0, 0.0, 3.0, 1.0, 8)));
}

#[test]
fn edges_keep_clear_of_land() {
    let c = land_box(0.4, 0.4, 0.6, 0.6);
    assert!(edge_crosses_land(deg(0.0), deg(0.5), deg(1.0), deg(0.5), &c));
    assert!(!edge_crosses_land(deg(0.0), deg(0.9), deg(1.0), deg(0.9), &c));
}

#[test]
fn neighbouring_leaves_are_linked_once() {
    let leaves = vec![leaf(0.0, 0.0, 1.0, 1.0, 8), leaf(1.0, 0.0, 2.0, 1.0, 8), leaf(5.0, 0.0, 6.0, 1.0, 8)];
    let nodes = centres(&leaves);
    let links = adjacent_links(&leaves, &nodes, &all_water(), &haversine);
    assert_eq!(links, vec![(0, 1, haversine(pt(0.5, 0.5), pt(1.5, 0.5)))]);
}

#[test]
fn leaves_are_linked_across_the_antimeridian() {
    let leaves = vec![leaf(-180.0, 0.0, -179.0, 1.0, 8), leaf(0.0, 0.0, 1.0, 1.0, 8), leaf(179.0, 0.0, 180.0, 1.0, 8)];
    let nodes = centres(&leaves);
    let links = seam_links(&leaves, &nodes, &all_water(), &haversine);
    assert_eq!(links.len(), 1);
    assert_eq!((links[0].0, links[0].1), (2, 0));
    // One degree on the equator, near enough.
    assert!((links[0].2 as f64 / 1e9 - 111.19).abs() < 0.02);
}

#[test]
fn the_four_canals_are_charted() {
    let all = canals();
    assert_eq!(all.len(), 4);
    assert_eq!(all.iter().map(|c| c.waypoints.len()).sum::<usize>(), 57);
    for c in &all {
        assert!(c.waypoints.len() >= 2, "{} needs two waypoints", c.name);
    }
}

#[test]
fn canals_are_chained_and_linked_to_the_sea() {
    let canal = CanalPassage { name: "ditch", waypoints: vec![pt(0.0, 0.0), pt(0.1, 0.0), pt(0.2, 0.0)] };
    let mut nodes = vec![gnode(-0.5, 0.0), gnode(0.7, 0.0), gnode(40.0, 0.0)];
    let mut links: Vec<Link> = vec![];
    inject_canals(&vec![canal], &mut nodes, &mut links, &haversine);
    assert_eq!(nodes.len(), 6);
    assert_eq!(nodes[3].point(), pt(0.0, 0.0));
    assert_eq!(nodes[5].depth, 1);
    let ends: Vec<(u32, u32)> = links.iter().map(|l| (l.0, l.1)).collect();
    // Along the canal, then from each end to the nodes within a hundred kilometres.
    assert_eq!(ends, vec![(3, 4), (4, 5), (3, 0), (3, 1), (5, 1), (5, 0)]);
}

#[test]
fn a_canal_of_one_waypoint_is_left_out() {
    let canal = CanalPassage { name: "dot", waypoints: vec![pt(0.0, 0.0)] };
    let mut nodes = vec![gnode(0.5, 0.0)];
    let mut links: Vec<Link> = vec![];
    inject_canals(&vec![canal], &mut nodes, &mut links, &haversine);
    assert_eq!((nodes.len(), links.len()), (1, 0));
}

#[test]
fn output_is_rounded_to_the_file_format() {
    let leaves = vec![leaf(0.0, 0.0, 0.1, 0.1, 8), leaf(0.1, 0.0, 0.2, 0.1, 9)];
    let out = build_graph_with(&leaves, &all_water(), &vec![], &vec![], &haversine);
    assert_eq!(out.node_count, 2);
    assert_eq!(out.edge_count, 1);
    assert_eq!(out.nodes, vec![5000, 5000, 8, 15000, 5000, 9]);
    // 11.1195 kilometres, in tenths.
    assert_eq!(out.edges, vec![0, 1, 111]);
}

#[test]
fn canal_waypoints_come_after_the_cells() {
    let leaves = vec![leaf(0.0, 0.0, 0.1, 0.1, 8)];
    let out = build_graph(&leaves, &all_water(), &haversine);
    assert_eq!(out.node_count, 58);
    assert_eq!(out.nodes.len(), 3 * 58);
    assert_eq!(out.edges.len(), 3 * out.edge_count);
}

#[test]
fn every_port_is_a_node_linked_over_open_water() {
    let leaves = vec![leaf(0.0, 0.0, 0.1, 0.1, 8), leaf(0.1, 0.0, 0.2, 0.1, 8)];
    let ports = vec![pt(0.12345, 0.06)];
    let out = build_graph_with(&leaves, &all_water(), &vec![], &ports, &haversine);
    assert_eq!(out.nodes[6..9], [12345, 6000, 1]);
    assert_eq!(out.edge_count, 2);
    assert_eq!((out.edges[3], out.edges[4]), (2, 1));
    let with_canals = build_graph_with_ports(&leaves, &all_water(), &ports, &haversine);
    assert_eq!(with_canals.node_count, 60);
}

#[test]
fn union_find_joins_sets() {
    let mut parent: Vec<u32> = (0..6).collect();
    uf_union(&mut parent, 0, 1);
    uf_union(&mut parent, 2, 3);
    uf_union(&mut parent, 1, 3);
    let r = uf_find(&mut parent, 0);
    assert_eq!(uf_find(&mut parent, 1), r);
    assert_eq!(uf_find(&mut parent, 2), r);
    assert_eq!(uf_find(&mut parent, 3), r);
    assert_ne!(uf_find(&mut parent, 4), r);
    assert_eq!(uf_find(&mut parent, 5), 5);
}

#[test]
fn cells_with_a_cell_between_them_are_not_adjacent() {
    let a = leaf(0.0, 0.0, 2.0, 1.0, 8);
    assert!(!cells_adjacent(&a, &leaf(0.0, 2.0, 2.0, 3.0, 8)));
    assert!(cells_adjacent(&a, &leaf(0.0, 1.0, 2.0, 2.0, 8)));
    // A wide leaf and a narrow one, a narrow cell apart.
    let leaves = vec![leaf(0.0, 0.0, 90.0, 45.0, 2), leaf(0.0, 45.7, 1.4, 46.4, 8), leaf(1.4, 45.0, 2.8, 45.7, 8)];
    let links = adjacent_links(&leaves, &centres(&leaves), &all_water(), &haversine);
    let mut ends: Vec<(u32, u32)> = links.iter().map(|l| (l.0, l.1)).collect();
    ends.sort();
    assert_eq!(ends, vec![(0, 2), (1, 2)]);
}

#[test]
fn edges_along_a_coast_within_two_kilometres_are_caught() {
    // The coast lies 1.78 kilometres north of the edge.
    let c = land_box(-1.0, 0.021, 2.0, 0.039);
    assert!(edge_crosses_land(deg(0.0), deg(0.005), deg(1.0), deg(0.005), &c));
    assert!(edge_crosses_land(deg(1.0), deg(0.005), deg(0.0), deg(0.005), &c));
    assert!(!edge_crosses_land(deg(0.0), deg(-0.005), deg(1.0), deg(-0.005), &c));
    // A kilometre long, its band is a kilometre wide at most.
    assert!(!edge_crosses_land(deg(0.0), deg(0.005), deg(0.009), deg(0.005), &c));
}

#[test]
fn bridge_is_the_shortest_on_the_globe_not_on_the_map() {
    let nodes = vec![gnode(0.0, 60.0), gnode(0.0, 61.0), gnode(1.5, 60.0)];
    let mut links: Vec<Link> = vec![(1, 2, 139 * KM)];
    reconnect_islands(&nodes, &mut links, &all_water(), &haversine);
    assert_eq!(links.len(), 2);
    assert_eq!((links[1].0, links[1].1), (0, 2));
    assert!((links[1].2 as f64 / 1e9 - 83.4).abs() < 0.1);
}

#[test]
fn finding_a_root_compresses_its_chain() {
    let mut parent: Vec<u32> = vec![1, 2, 3, 3, 0];
    assert_eq!(uf_find(&mut parent, 0), 3);
    assert_eq!(parent, vec![3, 3, 3, 3, 0]);
}

#[test]
fn joining_links_one_root_to_the_other() {
    let mut parent: Vec<u32> = vec![1, 1, 2, 2];
    uf_union(&mut parent, 0, 3);
    assert_eq!(parent, vec![1, 2, 2, 2]);
}
