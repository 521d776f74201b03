//! Layered reachability over directed graphs: the nodes whose shortest
//! forward distance from a source is exactly `d`, found by breadth-first
//! layer expansion.
pub mod graph_view;

pub use graph_view::DirectedGraphView;
pub mod petgraph_view;
pub mod visited;
pub mod descendants;

pub use descendants::descendants_at_distance;
