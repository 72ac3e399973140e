pub mod color_id;
pub mod dsu;
pub mod edge_map;
pub mod graph;
pub mod islands;
