//! Call-graph construction and querying.
//!
//! Two ingestion pipelines build a [`graph::CallGraph`]: a semantic one that
//! resolves the references of a precomputed symbol index to their enclosing
//! definitions, and a syntactic one that walks function bodies and resolves
//! the calls it finds.  A bounded depth-first path explorer then answers
//! forward and reverse reachability queries over the graph.
pub mod range;
pub mod text;
pub mod graph;
pub mod collector;
pub mod scip_ingest;
pub mod syntax;
pub mod trace;
pub mod export;
pub mod ports;
pub mod application;
pub mod source_manager;
