//! Camau: assessment, compilation and stepwise execution of JSON workflow routing specifications.
pub mod diagnostics;
pub mod diagram;
pub mod execution;
pub mod json_parser;
pub mod json_parsing;
pub mod json_pointer;
pub mod json_value;
pub mod text;
pub mod graph;
