//! Shortest navigable path cost across a square grid with rectangular
//! obstacles: quadtree decomposition, proximity graph, Dijkstra search.

pub mod dijkstra;
pub mod distance;
pub mod frontier;
pub mod geometry;
pub mod graph;
pub mod input;
pub mod quadtree;
pub mod regions;
pub mod route;
