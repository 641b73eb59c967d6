//! Merkle hash trees over an ordered collection of byte items.
//!
//! A tree summarises its items in one root hash, can be rebuilt after a leaf
//! is appended, removed or replaced, and hands out inclusion proofs that a
//! verifier checks against the root alone.
//!
//! - [`utils`]: evenness of integers; [`utils::crypto`]: the hash capability
//!   and two ready-made hashers.
//! - [`tree`]: the nodes of a materialised tree, kept in a flat arena.
//! - [`mk`]: the tree containers and the theory of their roots and proofs.
pub mod mk;
pub mod tree;
pub mod utils;
