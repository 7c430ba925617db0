//! A tiered, prunable commitment tree for a shielded ledger, together with the
//! state keys of its governance component and the plans for detection clues.
//!
//! The tree is a quaternary Merkle tree of three nested tiers of height 8: an
//! epoch holds up to 65536 blocks, a block up to 65536 commitments, and the
//! tree up to 65536 epochs. Its rightmost path is kept in a mutable
//! "frontier" form, everything to its left in an immutable "complete" form
//! that can be pruned down to bare hashes without changing the root.
//!
//! - [`tct::tree::Tree`] is the tree: insert commitments, end blocks and
//!   epochs, witness and forget commitments, read the root.
//! - [`tct::inclusion::Proof`] is a proof of inclusion, checked against a
//!   root without the tree.
//! - [`governance::state_key`] names the records of the governance component.
//! - [`plan::clue`] fixes a detection clue ahead of making it.

pub mod governance;
pub mod plan;
pub mod tct;
