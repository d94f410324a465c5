//! Chunk-graph correctness passes of a JavaScript module bundler, with the
//! supporting dependency bookkeeping.
//!
//! The heart of the crate is [`optimize`], which enforces two structural
//! invariants on a chunk graph after initial chunk construction: entry chunks
//! never leak their modules as dependency targets of other chunks, and an
//! entry point whose runtime bootstrap is still fused with a multi-chunk
//! initial group gets a dedicated runtime chunk. [`chunk_graph`] holds the
//! registry-based graph model the passes read and mutate.
//!
//! Around the passes stand the bookkeeping pieces of the same pipeline:
//! [`location`] turns byte ranges into line/column locations incrementally,
//! [`scope`] resolves variables through scope chains with cached negative
//! lookups, and [`dependency`] and [`rsc`] carry the dependency records the
//! graph is built from.

pub mod chunk_graph;
pub mod optimize;
pub mod dependency;
pub mod location;
pub mod rsc;
pub mod scope;
