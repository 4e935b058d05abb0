//! A character-level trie (prefix tree).
//!
//! Words are inserted character by character along shared edges; membership
//! is an exact lookup, `len` counts the nodes of the tree (the root itself
//! excluded), and every stored word below a node can be enumerated for
//! autocomplete-style suggestions.
//!
//! The structure has no internal locking and is not designed for concurrent
//! mutation: several writers, or a writer beside a reader, need external
//! synchronization, such as one exclusive lock around the whole trie, or a
//! read-write lock if concurrent reads are wanted.

pub mod trie;
pub mod trie_node;
