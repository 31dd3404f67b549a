//! Streaming hash-tree-root computation for SSZ-encoded data.
//!
//! The engine reads a serialized value against a type descriptor, splits it
//! into 32-byte chunks, and folds them into a balanced binary Merkle tree
//! with a small height-ordered stack, without building the typed value.
pub mod hash;
pub mod laws;
pub mod layout;
pub mod merkle;
pub mod root;
pub mod types;
