//! Merging per-worker call stacks into one annotated prefix tree.
//!
//! The engine builds a trie over canonical frame strings, tracks for every
//! node the set of worker ranks whose stack passes through it, renders rank
//! sets as compact ascending ranges, and emits one annotated line per
//! distinct stack-terminating path.

pub mod bytes;
pub mod config_rankpid;
pub mod endpoints;
pub mod frames;
pub mod laws;
pub mod merge;
pub mod ranges;
pub mod rankset;
pub mod trie;
