//! Connected components of a citation graph, the statistics built on them,
//! and a collision-free circle layout that groups each component in a region
//! of its own.

pub mod component_functions;
pub mod graph;
pub mod node_placer;
pub mod node_record;
pub mod subgraphs;
pub mod visualization_support;
