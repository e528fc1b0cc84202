//! A small query engine over in-memory tables: filter the rows, group them by a
//! column, and aggregate every group into one integer.
pub mod dataset;
pub mod parse;
pub mod query;
pub mod server;
pub mod solution;
