//! A path-component trie: ingests filesystem paths, decomposed into ordered
//! component sequences, and exposes their shared-prefix structure with
//! per-node occurrence counts.

pub mod model;
pub mod trie;
pub mod laws;
