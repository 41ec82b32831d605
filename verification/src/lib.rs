//! Chunked replication proofs for an authenticated, sorted key-value tree.
//!
//! A full-tree Merkle proof is split into independently fetchable,
//! independently verifiable pieces ("chunks"): chunk 0 is the proof of the
//! tree's upper levels (the "trunk"), and every later chunk proves one
//! contiguous run of leaf entries.  [`chunks::ChunkProducer`] owns the trunk,
//! the boundary keys derived from it, and a cursor over the snapshot's sorted
//! entries, and serves any chunk by index or all chunks in order.

pub mod chunks;
pub mod cursor;
pub mod encoding;
pub mod error;
pub mod ops;
