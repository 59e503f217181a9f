//! Verified core of a CRDT document library: the binary value encoding,
//! position compression, op grouping, the replicated document model and the
//! multi-site convergence harness.
pub mod common;
pub mod encoding;
pub mod estimated_size;
pub mod event;
pub mod group;
pub mod json_schema;
pub mod op;
pub mod oplog;
pub mod richtext;
pub mod state;
pub mod state_laws;
pub mod tree;
pub mod version;
pub mod loro;
pub mod fuzz;
