//! A Merkle tree whose integrity is proved by recursive composition of proofs.
//!
//! The tree stores every digest in level order. Before any proving it is
//! checked in plain values: its shape, each stored digest against the hash of
//! its input, and the declared root against the top digest; a mismatch names
//! the node by level and position. The ascent then hands out, level by level,
//! the nodes to prove: pairs of leaves first, then pairs of proofs from the
//! level below. The hash function and the prover are supplied by the caller.
pub mod ascent;
pub mod digest;
pub mod laws;
pub mod layout;
pub mod merkle_tree;
pub mod pairwise_hash;
pub mod recursive_hash;
