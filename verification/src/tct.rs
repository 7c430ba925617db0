//! The tiered commitment tree.
//!
//! What a tree stands for is a [`tree::TreeView`]: the hashes of the finished
//! epochs, of the finished blocks of the open epoch and of the commitments of
//! the open block, with the positions of the witnessed commitments. The root
//! is the Merkle hash ([`math::merkle`]) of these, tier by tier.

pub mod complete;
pub mod error;
pub mod frontier;
pub mod hash;
pub mod inclusion;
pub mod index;
pub mod insert;
pub mod math;
pub mod path;
pub mod position;
pub mod tree;
