pub mod doc_scorer;
pub mod fs;
pub mod policy;
pub mod scip;
pub mod size_function;
pub mod test_detector;
