//! Code-knowledge-graph library: the graph model, identifier naming, parsing
//! walks, edge resolution, traversal and the indexing decisions, with contracts.

pub mod text;
pub mod types;
pub mod sgraph;
pub mod edges;
pub mod loaded;
pub mod reach;
pub mod qualname;
pub mod coverage;
pub mod pattern;
pub mod search;
pub mod syntax;
pub mod treesitter;
pub mod langs;
pub mod extract;
pub mod harvest;
pub mod parse;
pub mod spans;
pub mod rename;
pub mod precise;
pub mod registry;
pub mod ingest;
pub mod indexing;
pub mod mcp;
pub mod cli;
pub mod communities;
pub mod cochange;
