//! Finalized subtrees. A finalized node holds exactly four children, each
//! retained or pruned down to its hash; its own hash was computed when it was
//! finalized and never changes.

use vstd::prelude::*;
use vstd::arithmetic::div_mod::lemma_fundamental_div_mod;
use crate::tct::hash;
use crate::tct::hash::{leaf_hash, node_hash, Commitment};
use crate::tct::insert::Insert;
use crate::tct::math::{lemma_pow4_positive, pow4, quot, rem};
use crate::tct::path::{climb, lemma_climb_prefix, place, Siblings};

verus! {

/// A retained commitment with its hash.
#[derive(Debug)]
pub struct Leaf {
    pub(crate) commitment: Commitment,
    pub(crate) hash: hash::Hash,
}

/// A finalized node: its hash and its four children.
#[derive(Debug)]
pub struct Node {
    pub(crate) hash: hash::Hash,
    pub(crate) children: Vec<Insert<Complete>>,
}

/// A finalized subtree that is still retained.
#[derive(Debug)]
pub enum Complete {
    Leaf(Leaf),
    Node(Node),
}

impl Leaf {
    /// The hash is that of the commitment.
    pub open(crate) spec fn wf(&self) -> bool {
        self.hash@ == leaf_hash(self.commitment@)
    }

    pub open(crate) spec fn commitment_spec(&self) -> Commitment {
        self.commitment
    }

    pub open(crate) spec fn hash_spec(&self) -> Seq<u8> {
        self.hash@
    }

    /// The leaf that retains a commitment.
    pub fn new(commitment: Commitment) -> (leaf: Leaf)
        ensures
            leaf.commitment_spec() == commitment,
            leaf.hash_spec() == leaf_hash(commitment@),
    {
        Leaf { hash: hash::Hash::of(&commitment), commitment }
    }

    /// The commitment.
    pub fn commitment(&self) -> (commitment: Commitment)
        ensures
            commitment == self.commitment_spec(),
    {
        self.commitment
    }

    /// The hash of the commitment.
    pub fn hash(&self) -> (hash: hash::Hash)
        ensures
            hash@ == self.hash_spec(),
    {
        self.hash
    }
}

impl Complete {
    /// The hash of the subtree.
    pub open(crate) spec fn hash_spec(&self) -> Seq<u8> {
        match self {
            Complete::Leaf(l) => l.hash@,
            Complete::Node(n) => n.hash@,
        }
    }

    /// The subtree has `height`, every node in it has four children, and every
    /// hash in it is the hash of what it stands for.
    pub open(crate) spec fn wf(&self, height: nat) -> bool
        decreases self,
    {
        match self {
            Complete::Leaf(l) => height == 0 && l.wf(),
            Complete::Node(n) => {
                let below = (height - 1) as nat;
                &&& height > 0
                &&& n.children@.len() == 4
                &&& (n.children@[0] matches Insert::Keep(c) ==> c.wf(below))
                &&& (n.children@[1] matches Insert::Keep(c) ==> c.wf(below))
                &&& (n.children@[2] matches Insert::Keep(c) ==> c.wf(below))
                &&& (n.children@[3] matches Insert::Keep(c) ==> c.wf(below))
                &&& n.hash@ == node_hash(
                    height,
                    n.children@[0].hash_spec(),
                    n.children@[1].hash_spec(),
                    n.children@[2].hash_spec(),
                    n.children@[3].hash_spec(),
                )
            },
        }
    }

    /// The commitment retained as item number `index` of the subtree, if one
    /// is retained there.
    pub open(crate) spec fn kept_at(&self, height: nat, index: nat) -> Option<Seq<u8>>
        decreases self,
    {
        match self {
            Complete::Leaf(l) => if index == 0 {
                Some(l.commitment@)
            } else {
                None
            },
            Complete::Node(n) => {
                let below = (height - 1) as nat;
                let which = quot(index, pow4(below)) as int;
                if height > 0 && 0 <= which < n.children@.len() {
                    match n.children@[which] {
                        Insert::Keep(c) => c.kept_at(below, rem(index, pow4(below))),
                        Insert::Hash(_) => None,
                    }
                } else {
                    None
                }
            },
        }
    }
}

/// The commitment retained as item number `index` below a node of `height`
/// with these children, if one is retained there.
pub open(crate) spec fn kept_among(
    children: Seq<Insert<Complete>>,
    height: nat,
    index: nat,
) -> Option<Seq<u8>> {
    let below = (height - 1) as nat;
    let which = quot(index, pow4(below)) as int;
    if 0 <= which < children.len() {
        children[which].kept_at(below, rem(index, pow4(below)))
    } else {
        None
    }
}

/// Two item numbers that lie in the same child at the same place are one.
pub proof fn lemma_same_slot(i: nat, j: nat, width: nat)
    requires
        width > 0,
        quot(i, width) == quot(j, width),
        rem(i, width) == rem(j, width),
    ensures
        i == j,
{
    lemma_fundamental_div_mod(i as int, width as int);
    lemma_fundamental_div_mod(j as int, width as int);
}

/// Whether every one of the children is pruned.
fn all_pruned(children: &Vec<Insert<Complete>>) -> (pruned: bool)
    ensures
        pruned == (forall|j: int| 0 <= j < children@.len() ==> #[trigger] children@[j] is Hash),
{
    let mut j: usize = 0;
    while j < children.len()
        invariant
            j <= children@.len(),
            forall|k: int| 0 <= k < j ==> #[trigger] children@[k] is Hash,
        decreases children@.len() - j,
    {
        if children[j].is_keep() {
            return false;
        }
        j += 1;
    }
    true
}

impl Node {
    /// Finalizes a node of `height` over four children. A node below which
    /// nothing is retained is pruned at once: only its hash is kept.
    pub(crate) fn from_children(height: u8, children: Vec<Insert<Complete>>) -> (node: Insert<
        Complete,
    >)
        requires
            1 <= height <= 24,
            children@.len() == 4,
            forall|j: int| 0 <= j < 4 ==> (#[trigger] children@[j]).wf((height - 1) as nat),
        ensures
            node.wf(height as nat),
            node.hash_spec() == node_hash(
                height as nat,
                children@[0].hash_spec(),
                children@[1].hash_spec(),
                children@[2].hash_spec(),
                children@[3].hash_spec(),
            ),
            forall|index: nat| #[trigger]
                node.kept_at(height as nat, index) == kept_among(children@, height as nat, index),
    {
        let hash = hash::Hash::node(
            height,
            &children[0].hash(),
            &children[1].hash(),
            &children[2].hash(),
            &children[3].hash(),
        );
        Node::with_hash(height, hash, children)
    }

    /// Puts a node of `height` together from its hash and its children, or
    /// keeps the hash alone where nothing is retained below.
    fn with_hash(height: u8, hash: hash::Hash, children: Vec<Insert<Complete>>) -> (node: Insert<
        Complete,
    >)
        requires
            1 <= height <= 24,
            children@.len() == 4,
            forall|j: int| 0 <= j < 4 ==> (#[trigger] children@[j]).wf((height - 1) as nat),
            hash@ == node_hash(
                height as nat,
                children@[0].hash_spec(),
                children@[1].hash_spec(),
                children@[2].hash_spec(),
                children@[3].hash_spec(),
            ),
        ensures
            node.wf(height as nat),
            node.hash_spec() == hash@,
            forall|index: nat| #[trigger]
                node.kept_at(height as nat, index) == kept_among(children@, height as nat, index),
    {
        let ghost kids = children@;
        assert(kids[0].wf((height - 1) as nat) && kids[1].wf((height - 1) as nat) && kids[2].wf(
            (height - 1) as nat,
        ) && kids[3].wf((height - 1) as nat));
        if all_pruned(&children) {
            let node = Insert::Hash(hash);
            assert forall|index: nat| #[trigger]
                node.kept_at(height as nat, index) == kept_among(kids, height as nat, index) by {
                let which = quot(index, pow4((height - 1) as nat)) as int;
                if 0 <= which < 4 {
                    assert(kids[which] is Hash);
                }
            }
            node
        } else {
            Insert::Keep(Complete::Node(Node { hash, children }))
        }
    }
}

impl Insert<Complete> {
    /// The hash of the subtree, retained or pruned.
    pub open(crate) spec fn hash_spec(&self) -> Seq<u8> {
        match self {
            Insert::Keep(c) => c.hash_spec(),
            Insert::Hash(h) => h@,
        }
    }

    /// What is retained of the subtree is well formed.
    pub open(crate) spec fn wf(&self, height: nat) -> bool {
        match self {
            Insert::Keep(c) => c.wf(height),
            Insert::Hash(_) => true,
        }
    }

    /// The commitment retained as item number `index`, if one is.
    pub open(crate) spec fn kept_at(&self, height: nat, index: nat) -> Option<Seq<u8>> {
        match self {
            Insert::Keep(c) => c.kept_at(height, index),
            Insert::Hash(_) => None,
        }
    }

    /// The hash of the subtree.
    pub fn hash(&self) -> (hash: hash::Hash)
        ensures
            hash@ == self.hash_spec(),
    {
        match self {
            Insert::Keep(Complete::Leaf(l)) => l.hash,
            Insert::Keep(Complete::Node(n)) => n.hash,
            Insert::Hash(h) => *h,
        }
    }

    /// The authentication path of item number `index` up to the root of this
    /// subtree, with the commitment retained there.
    pub(crate) fn witness(&self, height: u8, width: u64, index: u64) -> (found: Option<
        (Vec<Siblings>, Commitment),
    >)
        requires
            self.wf(height as nat),
            width == pow4(height as nat),
            index < width,
        ensures
            match found {
                Some((path, commitment)) => {
                    &&& self.kept_at(height as nat, index as nat) == Some(commitment@)
                    &&& path@.len() == height
                    &&& climb(path@, height as nat, index as nat, leaf_hash(commitment@))
                        == self.hash_spec()
                },
                None => self.kept_at(height as nat, index as nat) is None,
            },
        decreases height,
    {
        match self {
            Insert::Hash(_) => None,
            Insert::Keep(Complete::Leaf(l)) => {
                proof {
                    assert(pow4(0) == 1);
                }
                Some((Vec::new(), l.commitment))
            },
            Insert::Keep(Complete::Node(n)) => {
                let w = width / 4;
                let which = index / w;
                let rest = index % w;
                proof {
                    lemma_pow4_positive((height - 1) as nat);
                    lemma_fundamental_div_mod(index as int, w as int);
                }
                assert(which < 4) by (nonlinear_arith)
                    requires
                        index < 4 * w,
                        which == index / w,
                        w > 0,
                ;
                let child = &n.children[which as usize];
                match child.witness(height - 1, w, rest) {
                    None => None,
                    Some((mut path, commitment)) => {
                        let ghost below = path@;
                        let siblings = Siblings::around(
                            which,
                            n.children[0].hash(),
                            n.children[1].hash(),
                            n.children[2].hash(),
                            n.children[3].hash(),
                        );
                        path.push(siblings);
                        proof {
                            lemma_climb_prefix(
                                below,
                                path@,
                                (height - 1) as nat,
                                rest as nat,
                                leaf_hash(commitment@),
                            );
                        }
                        Some((path, commitment))
                    },
                }
            },
        }
    }

    /// Prunes item number `index`: the leaf there, if it is retained, is
    /// replaced by its hash, and so is every node that retains nothing any
    /// more. Says whether a leaf was pruned. No hash changes.
    pub(crate) fn forget(self, height: u8, width: u64, index: u64) -> (r: (Insert<Complete>, bool))
        requires
            self.wf(height as nat),
            height <= 24,
            width == pow4(height as nat),
            index < width,
        ensures
            r.0.wf(height as nat),
            r.0.hash_spec() == self.hash_spec(),
            r.1 == (self.kept_at(height as nat, index as nat) is Some),
            forall|j: nat| #[trigger]
                r.0.kept_at(height as nat, j) == if j == index {
                    None
                } else {
                    self.kept_at(height as nat, j)
                },
        decreases height,
    {
        match self {
            Insert::Hash(h) => (Insert::Hash(h), false),
            Insert::Keep(Complete::Leaf(l)) => {
                proof {
                    assert(pow4(0) == 1);
                }
                (Insert::Hash(l.hash), true)
            },
            Insert::Keep(Complete::Node(n)) => {
                let ghost before = n.children@;
                let hash = n.hash;
                let mut children = n.children;
                let w = width / 4;
                let which = index / w;
                let rest = index % w;
                proof {
                    lemma_pow4_positive((height - 1) as nat);
                    lemma_fundamental_div_mod(index as int, w as int);
                }
                assert(which < 4) by (nonlinear_arith)
                    requires
                        index < 4 * w,
                        which == index / w,
                        w > 0,
                ;
                let child = children.remove(which as usize);
                let (child, forgotten) = child.forget(height - 1, w, rest);
                children.insert(which as usize, child);
                let ghost after = children@;
                assert(after =~= before.update(which as int, child));
                assert forall|j: int| 0 <= j < 4 implies (#[trigger] after[j]).wf(
                    (height - 1) as nat,
                ) by {
                    if j != which {
                        assert(after[j] == before[j]);
                    }
                }
                assert(after[0].hash_spec() == before[0].hash_spec());
                assert(after[1].hash_spec() == before[1].hash_spec());
                assert(after[2].hash_spec() == before[2].hash_spec());
                assert(after[3].hash_spec() == before[3].hash_spec());
                let r = Node::with_hash(height, hash, children);
                assert forall|j: nat| #[trigger]
                    r.kept_at(height as nat, j) == if j == index {
                        None
                    } else {
                        self.kept_at(height as nat, j)
                    } by {
                    let slot = quot(j, w as nat) as int;
                    assert(r.kept_at(height as nat, j) == kept_among(after, height as nat, j));
                    assert(self.kept_at(height as nat, j) == kept_among(before, height as nat, j));
                    if slot == which && j != index {
                        if rem(j, w as nat) == rest {
                            lemma_same_slot(j, index as nat, w as nat);
                        }
                    }
                }
                (r, forgotten)
            },
        }
    }
}

} // verus!
