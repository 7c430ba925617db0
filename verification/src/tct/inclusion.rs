//! Proofs that a commitment lies at a position of a tree with a given root.

use vstd::prelude::*;
use vstd::arithmetic::div_mod::lemma_fundamental_div_mod;
use crate::tct::error::Error;
use crate::tct::hash;
use crate::tct::hash::{leaf_hash, Commitment};
use crate::tct::math::{lemma_pow4_positive, lemma_pow4_values, pow4, TREE_CAPACITY, TREE_HEIGHT};
use crate::tct::path::{climb, Siblings};
use crate::tct::position::Position;

verus! {

/// A commitment, its position, and the hashes of the siblings of every node
/// on the way from the commitment up to the root: first the siblings of the
/// commitment itself, last those of the child of the root.
#[derive(Clone, Debug, PartialEq, Eq)]
pub struct Proof {
    pub commitment: Commitment,
    pub position: Position,
    pub auth_path: Vec<Siblings>,
}

/// The hash of the subtree of `height` that the path leads to.
fn climb_path(path: &Vec<Siblings>, height: u8, width: u64, index: u64, leaf: &hash::Hash) -> (r:
    hash::Hash)
    requires
        height <= path@.len(),
        width == pow4(height as nat),
        index < width,
    ensures
        r@ == climb(path@, height as nat, index as nat, leaf@),
    decreases height,
{
    if height == 0 {
        *leaf
    } else {
        let w = width / 4;
        proof {
            lemma_pow4_positive((height - 1) as nat);
            lemma_fundamental_div_mod(index as int, w as int);
        }
        let below = climb_path(path, height - 1, w, index % w, leaf);
        path[(height - 1) as usize].place(height, index / w, &below)
    }
}

impl Proof {
    /// The proof has the shape of a proof for this tree: a path of 24 levels
    /// and the position of a commitment.
    pub open spec fn well_formed(&self) -> bool {
        self.auth_path@.len() == 24 && self.position.is_leaf()
    }

    /// The root that the proof leads to.
    pub open spec fn root_spec(&self) -> Seq<u8> {
        climb(self.auth_path@, 24, self.position.index_spec(), leaf_hash(self.commitment@))
    }

    /// The proof shows that its commitment lies at its position in a tree
    /// with this root.
    pub open spec fn verifies(&self, root: Seq<u8>) -> bool {
        self.well_formed() && self.root_spec() == root
    }

    /// A proof from its parts.
    pub fn new(commitment: Commitment, position: Position, auth_path: Vec<Siblings>) -> (proof:
        Proof)
        ensures
            proof.commitment == commitment,
            proof.position == position,
            proof.auth_path == auth_path,
    {
        Proof { commitment, position, auth_path }
    }

    /// The commitment that the proof is about.
    pub fn commitment(&self) -> (commitment: Commitment)
        ensures
            commitment == self.commitment,
    {
        self.commitment
    }

    /// The position that the proof claims for the commitment.
    pub fn position(&self) -> (position: Position)
        ensures
            position == self.position,
    {
        self.position
    }

    /// The sibling hashes, from the commitment up to the root.
    pub fn auth_path(&self) -> (path: &Vec<Siblings>)
        ensures
            *path == self.auth_path,
    {
        &self.auth_path
    }

    /// The root that the proof leads to, if the proof has the right shape.
    pub fn root(&self) -> (root: Option<hash::Hash>)
        ensures
            match root {
                Some(h) => self.well_formed() && h@ == self.root_spec(),
                None => !self.well_formed(),
            },
    {
        let p = self.position;
        if self.auth_path.len() == 24 && p.epoch < 65536 && p.block < 65536 && p.commitment
            < 65536 {
            proof {
                lemma_pow4_values();
            }
            let leaf = hash::Hash::of(&self.commitment);
            Some(climb_path(&self.auth_path, TREE_HEIGHT, TREE_CAPACITY, p.index(), &leaf))
        } else {
            None
        }
    }

    /// Checks the proof against a root: recomputes the root from the
    /// commitment, the position and the sibling hashes, and compares.
    pub fn verify(&self, root: &hash::Hash) -> (r: Result<(), Error>)
        ensures
            r is Ok <==> self.verifies(root@),
            r is Err ==> r == Err::<(), Error>(Error::ProofVerificationFailed),
    {
        match self.root() {
            Some(h) => {
                if h.same(root) {
                    Ok(())
                } else {
                    Err(Error::ProofVerificationFailed)
                }
            },
            None => Err(Error::ProofVerificationFailed),
        }
    }
}

} // verus!
