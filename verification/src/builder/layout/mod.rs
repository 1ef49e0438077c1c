//! Layout engine: layering, crossing reduction and solver selection.

pub mod analyze;
pub mod convert;
pub mod coord;
pub mod crossing;
pub mod directed;
pub mod engine;
pub mod graph_names;
pub mod ir;
pub mod layer_index;
pub mod layer_sweep;
pub mod layered;
pub mod layers;
pub mod longest_path;
pub mod position;
pub mod recognize;
pub mod route;
pub mod solver;
pub mod state_nodes;
pub mod simplex;
pub mod sugiyama;
pub mod tarjan;
pub mod types;
pub mod work_graph;
