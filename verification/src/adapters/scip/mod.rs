pub mod adapter;
pub mod parser;
