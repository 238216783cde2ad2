//! A concept-graph ranking engine: co-occurring concepts of a text become
//! edges of a graph, and a query walks that graph to rank documents.

pub mod codec;
pub mod graph;
pub mod ingest;
pub mod matcher;
pub mod rank;
pub mod search_result;
pub mod tables;
pub mod text;
