//! Ontology-to-code compiler core: class discovery, property resolution,
//! type mapping and schema assembly over an RDF graph.
pub mod text;
pub mod types;
pub mod order;
pub mod schema;
pub mod graph;
pub mod render;
