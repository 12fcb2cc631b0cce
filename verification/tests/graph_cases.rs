use sea_router::geo::{Point, KM};
use sea_router::graph::{Graph, RawGraph, LENGTH_MAX, NO_COMPONENT};

fn deg(x: f64) -> i64 {
    (x * 1.28e9).round() as i64
}

/// A triangle, a pair, and a node on its own.
fn raw() -> RawGraph {
    let at = [[0.0, 0.0], [1.0, 0.0], [0.0, 1.0], [10.0, 10.0], [11.0, 10.0], [50.0, 50.0]];
    let depths = [1, 2, 3, 4, 5, 6];
    let mut nodes = Vec::new();
    for (p, d) in at.iter().zip(depths) {
        nodes.push(deg(p[0]));
        nodes.push(deg(p[1]));
        nodes.push(d);
    }
    let edges = vec![0, 1, 111 * KM, 1, 2, 157 * KM, 0, 2, 111 * KM, 3, 4, 110 * KM];
    RawGraph { node_count: 6, nodes, edges }
}

#[test]
fn nodes_and_edges_are_counted() {
    let g = Graph::load(raw());
    assert_eq!(g.node_count, 6);
    assert_eq!(g.edge_count, 4);
    assert_eq!(g.max_depth, 6);
}

#[test]
fn rows_hold_both_directions_of_every_edge() {
    let g = Graph::load(raw());
    let row = |v: usize| -> Vec<(u32, u64, i64)> { g.edges(v).iter().map(|h| (h.to, h.length, h.depth)).collect() };
    assert_eq!(g.offsets, vec![0, 2, 4, 6, 7, 8, 8]);
    assert_eq!(row(0), vec![(1, 111 * KM, 2), (2, 111 * KM, 3)]);
    assert_eq!(row(1), vec![(0, 111 * KM, 2), (2, 157 * KM, 3)]);
    assert_eq!(row(2), vec![(1, 157 * KM, 3), (0, 111 * KM, 3)]);
    assert_eq!(row(4), vec![(3, 110 * KM, 5)]);
    assert_eq!(row(5), vec![]);
}

#[test]
fn components_are_labelled_and_the_largest_is_main() {
    let g = Graph::load(raw());
    assert_eq!(g.component, vec![0, 0, 0, 1, 1, NO_COMPONENT]);
    assert_eq!(g.comp_sizes, vec![3, 2]);
    assert_eq!(g.main_comp, 0);
}

#[test]
fn of_two_largest_components_the_last_is_main() {
    let mut r = raw();
    r.edges = vec![0, 1, KM, 3, 4, KM];
    let g = Graph::load(r);
    assert_eq!(g.comp_sizes, vec![2, 2]);
    assert_eq!(g.main_comp, 1);
}

#[test]
fn coordinates_are_read_back() {
    let g = Graph::load(raw());
    assert_eq!((g.lon(4), g.lat(4), g.depth(4)), (deg(11.0), deg(10.0), 5));
    assert_eq!(g.point(2), Point { lon: deg(0.0), lat: deg(1.0) });
}

#[test]
fn positions_snap_to_the_main_component() {
    let g = Graph::load(raw());
    // Right beside the pair, but that is no part of the main component.
    assert_eq!(g.find_nearest(deg(10.0), deg(9.0)), 1);
    assert_eq!(g.find_nearest(deg(0.2), deg(0.1)), 0);
    assert_eq!(g.find_nearest(deg(-3.0), deg(40.0)), 2);
}

#[test]
fn of_equally_close_nodes_the_first_is_taken() {
    let g = Graph::load(raw());
    assert_eq!(g.find_first_nearest(Point { lon: deg(0.5), lat: deg(0.0) }), 0);
    assert_eq!(g.find_first_nearest(Point { lon: deg(1.0), lat: deg(1.0) }), 1);
}

#[test]
fn a_port_that_is_a_node_snaps_to_itself() {
    let g = Graph::load(raw());
    for v in 0..3 {
        let p = g.point(v);
        assert_eq!(g.find_nearest(p.lon, p.lat), v);
        assert_eq!(g.find_first_nearest(p), v);
    }
}

#[test]
fn an_empty_graph_snaps_to_node_zero() {
    let g = Graph::load(RawGraph { node_count: 0, nodes: vec![], edges: vec![] });
    assert_eq!(g.find_nearest(0, 0), 0);
    assert_eq!(g.find_first_nearest(Point { lon: 0, lat: 0 }), 0);
    assert_eq!(g.offsets, vec![0]);
    assert_eq!(g.max_depth, 0);
}

#[test]
fn edges_to_missing_nodes_are_not_valid() {
    assert!(raw().is_valid());
    let mut r = raw();
    r.edges[1] = 6;
    assert!(!r.is_valid());
}

#[test]
fn missing_coordinates_are_not_valid() {
    let mut r = raw();
    r.node_count = 7;
    assert!(!r.is_valid());
}

#[test]
fn coordinates_off_the_map_are_not_valid() {
    let mut r = raw();
    r.nodes[0] = deg(1000.0);
    assert!(!r.is_valid());
    let mut r = raw();
    r.nodes[2] = 2_000_000;
    assert!(!r.is_valid());
}

#[test]
fn edges_longer_than_the_earth_are_not_valid() {
    let mut r = raw();
    r.edges[2] = LENGTH_MAX + 1;
    assert!(!r.is_valid());
}

#[test]
fn what_is_left_over_of_the_edge_list_is_ignored() {
    let mut r = raw();
    r.edges.push(77);
    assert!(r.is_valid());
    assert_eq!(Graph::load(r).edge_count, 4);
}
