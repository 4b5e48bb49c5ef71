//! hasami: Japanese sentence splitting, dictionary container formats and tries.

pub mod hsd;
pub mod lattice;
pub mod mmap_dict;
pub mod le;
pub mod pos;
pub mod sentence;
pub mod text;
pub mod trie;
