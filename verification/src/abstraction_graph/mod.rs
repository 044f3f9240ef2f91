pub mod graph;
pub mod graph_types;
pub mod project_structure;
