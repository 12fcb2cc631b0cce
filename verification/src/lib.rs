//! Maritime routes between any two ports on Earth: the logic of the sea router, verified.
//!
//! Everything is computed in integers: angles in units of `1 / geo::DEGREE` degrees, lengths
//! in micrometres. What takes trigonometry comes in as functions of the caller: distances on
//! the globe, cosines of latitudes, directions of the compass.

// Angles, lengths, points; the outside spatial indexes; small tools.
pub mod geo;
pub mod heap;
pub mod spatial;
pub mod text;
pub mod union_find;

// Land: raster, exact geometry, corridors, and lines sampled for land.
pub mod chart;
pub mod corridors;
pub mod even_odd;
pub mod land;
pub mod raster;
pub mod raster_cache;
pub mod sampling;
pub mod waterways;

// From land to quadtree to graph.
pub mod canals;
pub mod generate;
pub mod generation;
pub mod graph_builder;
pub mod quadtree;
pub mod reconnect;
pub mod wiring;

// Routes on the graph, and the lines that are drawn of them.
pub mod clearance;
pub mod components;
pub mod course;
pub mod graph;
pub mod guarantees;
pub mod itinerary;
pub mod los;
pub mod pipeline;
pub mod router;
pub mod search;
pub mod thinning;

// How ports are attached to the graph.
pub mod audit;
pub mod channels;
pub mod passage;
pub mod passage_order;
