//! A Merkle-sum sparse Merkle tree over 256-bit keys: an authenticated map
//! in which every subtree commits to a digest and to the sum of the leaves
//! below it, and in which a subtree with a single entry is kept as one
//! compacted leaf.
//!
//! `tree` holds the tree itself; `node`, `model` and `context` the nodes,
//! their mathematical model and the ladder of empty subtrees; `update` and
//! `walk` the algorithms on subtrees; `merkle_proof` the proofs and their
//! compressed form; `store`, `table` and `registry` the in-memory store;
//! `content`, `sums` and `laws` what is proved of all of them.

pub mod content;
pub mod context;
pub mod errors;
pub mod hashing;
pub mod key;
pub mod laws;
pub mod merkle_proof;
pub mod model;
pub mod node;
pub mod registry;
pub mod store;
pub mod sums;
pub mod table;
pub mod tree;
pub mod update;
pub mod walk;
