//! What a slot of a finalized node holds.

use vstd::prelude::*;
use crate::tct::hash;

verus! {

/// Either the thing itself, or only its hash: a pruned subtree keeps its hash
/// and nothing else.
#[derive(Debug)]
pub enum Insert<T> {
    /// The subtree is retained.
    Keep(T),
    /// The subtree was pruned down to its hash.
    Hash(hash::Hash),
}

impl<T> Insert<T> {
    /// Whether the thing itself is retained.
    pub fn is_keep(&self) -> (kept: bool)
        ensures
            kept == (self is Keep),
    {
        match self {
            Insert::Keep(_) => true,
            Insert::Hash(_) => false,
        }
    }

    /// Whether only the hash is left.
    pub fn is_hash(&self) -> (pruned: bool)
        ensures
            pruned == (self is Hash),
    {
        match self {
            Insert::Keep(_) => false,
            Insert::Hash(_) => true,
        }
    }

    /// The thing itself, if it is retained.
    pub fn keep(self) -> (kept: Option<T>)
        ensures
            kept == match self {
                Insert::Keep(item) => Some(item),
                Insert::Hash(_) => None,
            },
    {
        match self {
            Insert::Keep(item) => Some(item),
            Insert::Hash(_) => None,
        }
    }
}

} // verus!
