pub mod builder;
pub mod edge;
pub mod graph;
pub mod node;
pub mod policy;
pub mod semantic;
pub mod solver;
pub mod type_registry;
