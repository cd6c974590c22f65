//! Nodes of a versioned, authenticated key-value tree: 16-way internal nodes
//! hashed as compressed binary trees, leaves, their sibling proofs, and their
//! byte encoding.

pub mod hash;
pub mod internal;
pub mod nibble;
pub mod node;
pub mod node_key;
