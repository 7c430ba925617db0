//! Positions in the tree.

use vstd::prelude::*;
use crate::tct::math::{TIER_CAPACITY, TREE_CAPACITY};

verus! {

/// The place of a commitment: the number of its epoch, of its block within
/// the epoch, and its own number within the block. As the place of the next
/// insertion, `commitment` is the number of commitments in the block so far,
/// which is `65536` when the block is full.
#[derive(Clone, Copy, Debug, PartialEq, Eq, Structural)]
pub struct Position {
    pub epoch: u64,
    pub block: u64,
    pub commitment: u64,
}

impl Position {
    /// Every component is within the capacity of its tier.
    pub open spec fn wf(self) -> bool {
        self.epoch <= 65536 && self.block <= 65536 && self.commitment <= 65536
    }

    /// The position is one that a commitment can have.
    pub open spec fn is_leaf(self) -> bool {
        self.epoch < 65536 && self.block < 65536 && self.commitment < 65536
    }

    /// The position packed into one number: the number of the commitment
    /// among all the places of the tree.
    pub open spec fn index_spec(self) -> nat {
        (self.epoch * 4294967296 + self.block * 65536 + self.commitment) as nat
    }

    /// The order of positions: by epoch, then by block, then by commitment.
    pub open spec fn lex_le(self, other: Position) -> bool {
        ||| self.epoch < other.epoch
        ||| self.epoch == other.epoch && self.block < other.block
        ||| self.epoch == other.epoch && self.block == other.block && self.commitment
            <= other.commitment
    }

    /// The position with these components, if each is within the capacity of
    /// its tier.
    pub fn new(epoch: u64, block: u64, commitment: u64) -> (position: Option<Position>)
        ensures
            position == if epoch <= 65536 && block <= 65536 && commitment <= 65536 {
                Some(Position { epoch, block, commitment })
            } else {
                None
            },
    {
        if epoch <= TIER_CAPACITY && block <= TIER_CAPACITY && commitment <= TIER_CAPACITY {
            Some(Position { epoch, block, commitment })
        } else {
            None
        }
    }

    /// The number of the epoch.
    pub fn epoch(&self) -> (epoch: u64)
        ensures
            epoch == self.epoch,
    {
        self.epoch
    }

    /// The number of the block within its epoch.
    pub fn block(&self) -> (block: u64)
        ensures
            block == self.block,
    {
        self.block
    }

    /// The number of the commitment within its block.
    pub fn commitment(&self) -> (commitment: u64)
        ensures
            commitment == self.commitment,
    {
        self.commitment
    }

    /// The position packed into one number.
    pub fn index(&self) -> (index: u64)
        requires
            self.wf(),
        ensures
            index == self.index_spec(),
            self.is_leaf() ==> index < 281474976710656,
    {
        self.epoch * 4294967296 + self.block * 65536 + self.commitment
    }

    /// The position of a commitment packed into one number; `None` for a
    /// position that no commitment can have.
    pub fn checked_index(&self) -> (index: Option<u64>)
        ensures
            index == if self.is_leaf() {
                Some(self.index_spec() as u64)
            } else {
                None
            },
    {
        if self.epoch < TIER_CAPACITY && self.block < TIER_CAPACITY && self.commitment
            < TIER_CAPACITY {
            Some(self.index())
        } else {
            None
        }
    }

    /// The position of the commitment with the number `index` among all the
    /// places of the tree.
    pub fn from_index(index: u64) -> (position: Option<Position>)
        ensures
            index < 281474976710656 <==> position is Some,
            position matches Some(p) ==> p.is_leaf() && p.index_spec() == index,
    {
        if index < TREE_CAPACITY {
            let epoch = index / 4294967296;
            let rest = index % 4294967296;
            Some(Position { epoch, block: rest / 65536, commitment: rest % 65536 })
        } else {
            None
        }
    }

    /// Whether this position comes before `other`, or is the same.
    pub fn le(&self, other: &Position) -> (before: bool)
        ensures
            before == self.lex_le(*other),
    {
        self.epoch < other.epoch || (self.epoch == other.epoch && (self.block < other.block || (
        self.block == other.block && self.commitment <= other.commitment)))
    }

    /// Among the positions of commitments, the order of the packed numbers is
    /// the order of the positions, and no two positions share a number.
    pub proof fn lemma_index_order(self, other: Position)
        requires
            self.is_leaf(),
            other.is_leaf(),
        ensures
            self.lex_le(other) <==> self.index_spec() <= other.index_spec(),
            self.index_spec() == other.index_spec() <==> self == other,
    {
    }
}

} // verus!
