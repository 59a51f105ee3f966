pub mod graph;
pub mod json;
pub mod parser;
pub mod query;
pub mod text;
pub mod tracer;
