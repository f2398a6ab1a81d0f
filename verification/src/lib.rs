pub mod cnf;
pub mod colorizer;
pub mod dummies;
pub mod edge_map;
pub mod graph;
pub mod johnson;
pub mod randomized;
pub mod spanning;
pub mod vars;
pub mod vertex_map;
pub mod vizing;
pub mod witness;
