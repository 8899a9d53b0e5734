//! Source-tree dependency analysis: text measures, import extraction and a
//! dependency graph with reachability, cycle and impact queries.
pub mod text;
pub mod path;
pub mod types;
pub mod metrics;
pub mod extract;
pub mod graph;
pub mod analysis;
pub mod config;
pub mod resolve;
pub mod sources;
pub mod report;
pub mod json;
pub mod commands;
