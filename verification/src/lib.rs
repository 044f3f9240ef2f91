pub mod parser;
pub mod text;
pub mod types;
pub mod resolved_types;
pub mod name_resolution;
pub mod abstraction_graph;
pub mod wasm_api;
pub mod path_rules;
