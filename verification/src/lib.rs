//! context-footprint library: context graph construction and Context Footprint computation.

pub mod adapters;
pub mod domain;
pub mod graph;
pub mod scip;
pub mod symbol;
pub mod text;
