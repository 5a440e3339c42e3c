//! Near-duplicate detection over rolling content chunks.
//!
//! The library holds the integer core of the engine: the rolling chunk
//! hasher, the corpus model with its chunk counts, the selection of the
//! terms that make up a document digest, the bounded top-k heap and the
//! consistency check between a corpus model and its documents. The hash
//! tables that hold per-file counts and sets of paths are hashbrown's.
pub mod chunker;
pub mod config;
pub mod similarities;
pub mod heap;
pub mod tables;
