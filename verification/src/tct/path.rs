//! Authentication paths: the sibling hashes from a leaf up to a root.

use vstd::prelude::*;
use crate::tct::hash;
use crate::tct::hash::node_hash;
use crate::tct::math::{pow4, quot, rem};

verus! {

/// The hashes of the three siblings of a node, from left to right.
#[derive(Clone, Copy, Debug, PartialEq, Eq)]
pub struct Siblings {
    pub first: hash::Hash,
    pub second: hash::Hash,
    pub third: hash::Hash,
}

/// The hash of a node at `height` whose child number `which` has the hash
/// `below` and whose other children have the hashes `siblings`.
pub open spec fn place(height: nat, which: nat, below: Seq<u8>, siblings: Siblings) -> Seq<u8> {
    if which == 0 {
        node_hash(height, below, siblings.first@, siblings.second@, siblings.third@)
    } else if which == 1 {
        node_hash(height, siblings.first@, below, siblings.second@, siblings.third@)
    } else if which == 2 {
        node_hash(height, siblings.first@, siblings.second@, below, siblings.third@)
    } else {
        node_hash(height, siblings.first@, siblings.second@, siblings.third@, below)
    }
}

/// The hash of the subtree of `height` that holds a leaf with hash `leaf` as
/// its item number `index`, when `path[0]` are the leaf's siblings, `path[1]`
/// those of its parent, and so on upwards.
pub open spec fn climb(path: Seq<Siblings>, height: nat, index: nat, leaf: Seq<u8>) -> Seq<u8>
    decreases height,
{
    if height == 0 {
        leaf
    } else {
        let below = (height - 1) as nat;
        let w = pow4(below);
        place(height, quot(index, w), climb(path, below, rem(index, w), leaf), path[below as int])
    }
}

/// Only the first `height` entries of a path count for a subtree of `height`.
pub proof fn lemma_climb_prefix(
    p: Seq<Siblings>,
    q: Seq<Siblings>,
    height: nat,
    index: nat,
    leaf: Seq<u8>,
)
    requires
        height <= p.len(),
        height <= q.len(),
        forall|k: int| 0 <= k < height ==> p[k] == q[k],
    ensures
        climb(p, height, index, leaf) == climb(q, height, index, leaf),
    decreases height,
{
    if height > 0 {
        let below = (height - 1) as nat;
        lemma_climb_prefix(p, q, below, rem(index, pow4(below)), leaf);
        assert(p[below as int] == q[below as int]);
    }
}

impl Siblings {
    /// Hashes the node at `height` whose child number `which` has the hash
    /// `below` and whose other children are these siblings.
    pub fn place(&self, height: u8, which: u64, below: &hash::Hash) -> (hash: hash::Hash)
        ensures
            hash@ == place(height as nat, which as nat, below@, *self),
    {
        if which == 0 {
            hash::Hash::node(height, below, &self.first, &self.second, &self.third)
        } else if which == 1 {
            hash::Hash::node(height, &self.first, below, &self.second, &self.third)
        } else if which == 2 {
            hash::Hash::node(height, &self.first, &self.second, below, &self.third)
        } else {
            hash::Hash::node(height, &self.first, &self.second, &self.third, below)
        }
    }

    /// The siblings of child number `which` among four children.
    pub fn around(which: u64, a: hash::Hash, b: hash::Hash, c: hash::Hash, d: hash::Hash) -> (siblings: Siblings)
        ensures
            siblings == if which == 0 {
                (Siblings { first: b, second: c, third: d })
            } else if which == 1 {
                (Siblings { first: a, second: c, third: d })
            } else if which == 2 {
                (Siblings { first: a, second: b, third: d })
            } else {
                (Siblings { first: a, second: b, third: c })
            },
    {
        if which == 0 {
            Siblings { first: b, second: c, third: d }
        } else if which == 1 {
            Siblings { first: a, second: c, third: d }
        } else if which == 2 {
            Siblings { first: a, second: b, third: d }
        } else {
            Siblings { first: a, second: b, third: c }
        }
    }
}

} // verus!
