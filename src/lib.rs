//! Persistent collections: every operation leaves the version it was called on as it was
//! and returns a new version that shares the unchanged nodes of the old one.
pub mod deque;
pub mod hashmap;
pub mod list;
pub mod trie;
