pub mod heuristic;
pub mod simple;
