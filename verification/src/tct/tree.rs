//! The tree: three nested tiers, and the record of the witnessed commitments.

use vstd::prelude::*;
use crate::tct::error::Error;
use crate::tct::frontier::{inserted, landing, room, same_items, tier_end, Item, Tier};
use crate::tct::hash;
use crate::tct::hash::{leaf_hash, Commitment};
use crate::tct::index::Index;
use crate::tct::math::{
    lemma_pow4_values, lemma_reach_values, merkle, pow4, TIER_CAPACITY, TREE_CAPACITY,
};
use crate::tct::position::Position;
use crate::tct::inclusion::Proof;

verus! {

/// Whether a commitment is to be witnessed: whether the tree keeps what it
/// takes to prove that the commitment is in it.
#[derive(Clone, Copy, Debug, PartialEq, Eq, Structural)]
pub enum Witness {
    /// Keep the commitment, so that it can be proved to be in the tree.
    Keep,
    /// Keep only the hash of the commitment.
    Forget,
}

/// The commitment tree.
pub struct Tree {
    top: Tier,
    index: Index,
}

/// What a tree stands for: the hashes of its finished epochs, the hashes of
/// the finished blocks of the epoch that is still open, the hashes of the
/// commitments in the block that is still open, and the positions of the
/// witnessed commitments.
pub struct TreeView {
    pub epochs: Seq<Seq<u8>>,
    pub blocks: Seq<Seq<u8>>,
    pub leaves: Seq<Seq<u8>>,
    pub index: Map<Seq<u8>, Position>,
}

impl TreeView {
    /// The position of the next insertion.
    pub open spec fn position(self) -> Position {
        Position {
            epoch: self.epochs.len() as u64,
            block: self.blocks.len() as u64,
            commitment: self.leaves.len() as u64,
        }
    }

    /// The hash of the open block.
    pub open spec fn block_root(self) -> Seq<u8> {
        merkle(self.leaves, 0, 8, 0)
    }

    /// The hash of the open epoch: that of its finished blocks and the open one.
    pub open spec fn epoch_root(self) -> Seq<u8> {
        merkle(self.blocks.push(self.block_root()), 8, 8, 0)
    }

    /// The root of the tree: the hash of the finished epochs and the open one.
    pub open spec fn root(self) -> Seq<u8> {
        merkle(self.epochs.push(self.epoch_root()), 16, 8, 0)
    }

    /// The open block holds as many commitments as fit.
    pub open spec fn block_full(self) -> bool {
        self.leaves.len() == 65536
    }

    /// The open epoch has no place for another block.
    pub open spec fn epoch_full(self) -> bool {
        self.blocks.len() == 65535
    }

    /// The tree has no place for another epoch.
    pub open spec fn top_full(self) -> bool {
        self.epochs.len() == 65535
    }

    /// Nothing more can be inserted, and no block or epoch can be ended.
    pub open spec fn full(self) -> bool {
        self.block_full() && self.epoch_full() && self.top_full()
    }

    /// The empty tree.
    pub open spec fn empty() -> TreeView {
        TreeView {
            epochs: Seq::empty(),
            blocks: Seq::empty(),
            leaves: Seq::empty(),
            index: Map::empty(),
        }
    }

    /// The tree after a commitment was inserted.
    pub open spec fn inserted(self, witness: Witness, commitment: Seq<u8>) -> TreeView {
        TreeView {
            leaves: self.leaves.push(leaf_hash(commitment)),
            index: if witness == Witness::Keep {
                self.index.insert(commitment, self.position())
            } else {
                self.index
            },
            ..self
        }
    }

    /// The tree after the open block was ended.
    pub open spec fn block_ended(self) -> TreeView {
        TreeView { blocks: self.blocks.push(self.block_root()), leaves: Seq::empty(), ..self }
    }

    /// The tree after the open epoch was ended.
    pub open spec fn epoch_ended(self) -> TreeView {
        TreeView {
            epochs: self.epochs.push(self.epoch_root()),
            blocks: Seq::empty(),
            leaves: Seq::empty(),
            ..self
        }
    }

    /// The tree after a commitment was forgotten.
    pub open spec fn forgotten(self, commitment: Seq<u8>) -> TreeView {
        TreeView { index: self.index.remove(commitment), ..self }
    }

    /// An insertion moves the position on by one commitment and leaves the
    /// block and the epoch as they are.
    pub proof fn lemma_insert_advances(self, witness: Witness, commitment: Seq<u8>)
        requires
            self.leaves.len() < 65536,
            self.blocks.len() < 65536,
            self.epochs.len() < 65536,
        ensures
            self.inserted(witness, commitment).position().epoch == self.position().epoch,
            self.inserted(witness, commitment).position().block == self.position().block,
            self.inserted(witness, commitment).position().commitment == self.position().commitment
                + 1,
            self.position().lex_le(self.inserted(witness, commitment).position()),
    {
    }

    /// Ending a block moves the position on by one block, to the first
    /// commitment of it.
    pub proof fn lemma_end_block_advances(self)
        requires
            self.blocks.len() < 65535,
            self.epochs.len() < 65536,
        ensures
            self.block_ended().position().epoch == self.position().epoch,
            self.block_ended().position().block == self.position().block + 1,
            self.block_ended().position().commitment == 0,
            self.position().lex_le(self.block_ended().position()),
    {
    }

    /// Ending an epoch moves the position on by one epoch, to the first
    /// commitment of its first block.
    pub proof fn lemma_end_epoch_advances(self)
        requires
            self.epochs.len() < 65535,
        ensures
            self.epoch_ended().position().epoch == self.position().epoch + 1,
            self.epoch_ended().position().block == 0,
            self.epoch_ended().position().commitment == 0,
            self.position().lex_le(self.epoch_ended().position()),
    {
    }

    /// A commitment inserted to be kept is on record at the position where
    /// it was inserted, and stays on record while other commitments are
    /// inserted, forgotten, and blocks and epochs end.
    pub proof fn lemma_kept_is_recorded(self, commitment: Seq<u8>, other: Seq<u8>, witness: Witness)
        ensures
            self.inserted(Witness::Keep, commitment).index.contains_key(commitment),
            self.inserted(Witness::Keep, commitment).index[commitment] == self.position(),
            self.index.contains_key(commitment) ==> self.inserted(
                witness,
                other,
            ).index.contains_key(commitment),
            self.index.contains_key(commitment) && other != commitment ==> self.forgotten(
                other,
            ).index.contains_key(commitment),
            self.block_ended().index == self.index,
            self.epoch_ended().index == self.index,
    {
    }

    /// A commitment inserted to be forgotten is not put on record.
    pub proof fn lemma_forget_is_not_recorded(self, commitment: Seq<u8>)
        ensures
            self.inserted(Witness::Forget, commitment).index == self.index,
    {
    }

    /// Once forgotten, a commitment is off the record: forgetting it again
    /// finds nothing and changes nothing.
    pub proof fn lemma_forget_once(self, commitment: Seq<u8>)
        ensures
            !self.forgotten(commitment).index.contains_key(commitment),
            self.forgotten(commitment).forgotten(commitment) == self.forgotten(commitment),
            !self.index.contains_key(commitment) ==> self.forgotten(commitment) == self,
    {
        assert(self.index.remove(commitment).remove(commitment) =~= self.index.remove(commitment));
        if !self.index.contains_key(commitment) {
            assert(self.index.remove(commitment) =~= self.index);
        }
    }

    /// Forgetting changes neither the root nor the position.
    pub proof fn lemma_forget_keeps_root(self, commitment: Seq<u8>)
        ensures
            self.forgotten(commitment).root() == self.root(),
            self.forgotten(commitment).position() == self.position(),
    {
    }
}

impl View for Tree {
    type V = TreeView;

    closed spec fn view(&self) -> TreeView {
        TreeView {
            epochs: self.top.items@.drop_last(),
            blocks: self.top.below().items@.drop_last(),
            leaves: self.top.below().below().items@,
            index: self.index@,
        }
    }
}

/// The number of the place where the commitments of a tree end, written out
/// from the numbers of items in its three tiers.
spec fn place(top: Tier) -> int {
    (top.items@.len() - 1) * 4294967296 + (top.below().items@.len() - 1) * 65536
        + top.below().below().items@.len()
}

/// How the tiers of a well-formed top tier hang together.
proof fn lemma_tiers(top: Tier)
    requires
        top.wf(2),
    ensures
        top.inner is Some,
        top.below().wf(1),
        top.below().inner is Some,
        top.below().below().wf(0),
        top.inner.unwrap().focus_item() == Item::Tier(Box::new(top.below())),
        top.below().inner.unwrap().focus_item() == Item::Tier(Box::new(top.below().below())),
        1 <= top.items@.len() <= 65536,
        1 <= top.below().items@.len() <= 65536,
        top.below().below().items@.len() <= 65536,
        top.items@[top.items@.len() - 1] == top.below().root(1),
        top.below().items@[top.below().items@.len() - 1] == top.below().below().root(0),
        top.below().below().inner matches Some(f) ==> f.focus_item() is Commitment
            && top.below().below().items@.len() >= 1,
{
    lemma_pow4_values();
    let f2 = top.inner.unwrap();
    f2.lemma_span(2, 8, top.items@, 0);
    let epoch = top.below();
    let f1 = epoch.inner.unwrap();
    f1.lemma_span(1, 8, epoch.items@, 0);
    let block = epoch.below();
    match block.inner {
        Some(f0) => {
            f0.lemma_span(0, 8, block.items@, 0);
        },
        None => {},
    }
}

/// Where the commitments of a tree end, and where an item lands that is
/// inserted into one of its tiers.
proof fn lemma_ends(top: Tier)
    requires
        top.wf(2),
    ensures
        tier_end(top, 2) == place(top),
        landing(top, 2, 0) == place(top),
        landing(top, 2, 1) == (top.items@.len() - 1) * 4294967296 + top.below().items@.len()
            * 65536,
        landing(top, 2, 2) == top.items@.len() * 4294967296,
        0 <= place(top) <= 281474976710656,
{
    reveal_with_fuel(tier_end, 3);
    reveal_with_fuel(landing, 3);
    lemma_tiers(top);
    let e = top.items@.len() - 1;
    let b = top.below().items@.len() - 1;
    let c = top.below().below().items@.len() as int;
    lemma_reach_values(e);
    lemma_reach_values(e + 1);
    lemma_reach_values(b);
    lemma_reach_values(b + 1);
    lemma_reach_values(c);
    if c > 0 {
        lemma_reach_values(c - 1);
    }
}

/// The commitment in the leaf of the open block is retained at the last
/// place before the end.
proof fn lemma_last(top: Tier)
    requires
        top.wf(2),
        top.below().below().inner is Some,
    ensures
        place(top) >= 1,
        top.kept_at(2, (place(top) - 1) as nat)
            == top.below().below().inner.unwrap().focus_item().kept_at(0, 0),
{
    lemma_pow4_values();
    lemma_tiers(top);
    let f2 = top.inner.unwrap();
    let epoch = top.below();
    let f1 = epoch.inner.unwrap();
    let block = epoch.below();
    let f0 = block.inner.unwrap();
    f0.lemma_span(0, 8, block.items@, 0);
    let c = (block.items@.len() - 1) as nat;
    let b = (epoch.items@.len() - 1) as nat;
    let e = (top.items@.len() - 1) as nat;
    f0.lemma_reach(0, 8, block.items@, 0, 0);
    assert(c * pow4(0) + 0 == c) by (nonlinear_arith)
        requires
            pow4(0) == 1,
    ;
    f1.lemma_reach(1, 8, epoch.items@, 0, c);
    assert(b * pow4(8) + c == b * 65536 + c) by (nonlinear_arith)
        requires
            pow4(8) == 65536,
    ;
    f2.lemma_reach(2, 8, top.items@, 0, b * 65536 + c);
    assert(e * pow4(16) + (b * 65536 + c) == e * 4294967296 + b * 65536 + c) by (nonlinear_arith)
        requires
            pow4(16) == 4294967296,
    ;
}

impl Tree {
    /// The tiers are well formed, and the tree retains exactly the
    /// commitments on record, each at the position recorded for it.
    pub closed spec fn wf(&self) -> bool {
        &&& self.top.wf(2)
        &&& self.index.wf()
        &&& forall|c: Seq<u8>| #[trigger]
            self.index@.contains_key(c) ==> self.index@[c].is_leaf() && self.top.kept_at(
                2,
                self.index@[c].index_spec(),
            ) == Some(c)
        &&& forall|i: nat|
            (#[trigger] self.top.kept_at(2, i)) is Some ==> self.index@.contains_key(
                self.top.kept_at(2, i).unwrap(),
            ) && self.index@[self.top.kept_at(2, i).unwrap()].index_spec() == i
    }

    /// The commitment that the tree retains at a position, with what it takes
    /// to prove it: `None` where the place is empty or holds a hash only.
    pub closed spec fn retained(&self, position: Position) -> Option<Seq<u8>> {
        if position.is_leaf() {
            self.top.kept_at(2, position.index_spec())
        } else {
            None
        }
    }

    /// The tree retains a commitment at a position exactly when the
    /// commitment is on record at that position: whatever is forgotten, or
    /// was never to be kept, is pruned.
    pub proof fn lemma_retained_is_recorded(&self, position: Position, commitment: Seq<u8>)
        requires
            self.wf(),
        ensures
            self.retained(position) == Some(commitment) <==> self@.index.contains_key(commitment)
                && self@.index[commitment] == position,
    {
        if self.retained(position) == Some(commitment) {
            let i = position.index_spec();
            assert(self.top.kept_at(2, i) is Some);
            self.index@[commitment].lemma_index_order(position);
        }
    }

    /// In a well-formed tree no tier holds more than fits, and the positions
    /// on record are those of commitments.
    pub proof fn lemma_bounds(&self)
        requires
            self.wf(),
        ensures
            self@.epochs.len() <= 65535,
            self@.blocks.len() <= 65535,
            self@.leaves.len() <= 65536,
            forall|c: Seq<u8>| #[trigger] self@.index.contains_key(c) ==> self@.index[c].is_leaf(),
    {
        self.lemma_shape();
    }

    /// How the view hangs together with the tiers.
    proof fn lemma_shape(&self)
        requires
            self.top.wf(2),
        ensures
            self.top.inner is Some,
            self.top.below().wf(1),
            self.top.below().inner is Some,
            self.top.below().below().wf(0),
            1 <= self.top.items@.len() <= 65536,
            1 <= self.top.below().items@.len() <= 65536,
            self.top.below().below().items@.len() <= 65536,
            self.top.items@ == self@.epochs.push(self.top.below().root(1)),
            self.top.below().items@ == self@.blocks.push(self.top.below().below().root(0)),
            self.top.root(2) == self@.root(),
            self@.position().is_leaf() ==> self@.position().index_spec() == place(self.top),
    {
        lemma_tiers(self.top);
        let top = self.top;
        let epoch = top.below();
        let block = epoch.below();
        assert(top.items@ =~= top.items@.drop_last().push(epoch.root(1)));
        assert(epoch.items@ =~= epoch.items@.drop_last().push(block.root(0)));
    }

    /// The empty tree: its first epoch and the first block of it are open,
    /// and nothing is in them.
    pub fn new() -> (tree: Tree)
        ensures
            tree.wf(),
            tree@ == TreeView::empty(),
    {
        let block = Tier::empty();
        let epoch = Tier::holding(Item::Tier(Box::new(block)), 1);
        let top = Tier::holding(Item::Tier(Box::new(epoch)), 2);
        let tree = Tree { top, index: Index::new() };
        proof {
            assert(tree@.epochs =~= Seq::empty());
            assert(tree@.blocks =~= Seq::empty());
            assert(tree@.leaves =~= Seq::empty());
            lemma_ends(tree.top);
            assert forall|i: nat| (#[trigger] tree.top.kept_at(2, i)) is None by {
                tree.top.lemma_end(2, i);
            }
        }
        tree
    }

    /// The root of the tree. It covers what is finalized and what is still
    /// open alike.
    pub fn root(&self) -> (root: hash::Hash)
        requires
            self.wf(),
        ensures
            root@ == self@.root(),
    {
        proof {
            self.lemma_shape();
        }
        self.top.hash(2)
    }

    /// The counts of the three tiers as a position.
    fn cursor(&self) -> (position: Position)
        requires
            self.wf(),
        ensures
            position == self@.position(),
            position.epoch == self@.epochs.len(),
            position.block == self@.blocks.len(),
            position.commitment == self@.leaves.len(),
            position.epoch < 65536,
            position.block < 65536,
            position.commitment <= 65536,
    {
        proof {
            self.lemma_shape();
        }
        let epoch = self.top.below_ref(Ghost(2));
        let block = epoch.below_ref(Ghost(1));
        Position {
            epoch: self.top.count(2) - 1,
            block: epoch.count(1) - 1,
            commitment: block.count(0),
        }
    }

    /// The position of the next insertion, unless the tree is full.
    pub fn position(&self) -> (position: Option<Position>)
        requires
            self.wf(),
        ensures
            position == if self@.full() {
                None
            } else {
                Some(self@.position())
            },
    {
        let p = self.cursor();
        if p.epoch == TIER_CAPACITY - 1 && p.block == TIER_CAPACITY - 1 && p.commitment
            == TIER_CAPACITY {
            None
        } else {
            Some(p)
        }
    }

    /// The position of a witnessed commitment.
    pub fn position_of(&self, commitment: &Commitment) -> (position: Option<Position>)
        requires
            self.wf(),
        ensures
            position == if self@.index.contains_key(commitment@) {
                Some(self@.index[commitment@])
            } else {
                None
            },
    {
        self.index.get(commitment)
    }

    /// Inserts a commitment into the open block, at the position of the next
    /// insertion. A witnessed commitment is recorded at that position; if it
    /// was witnessed at an earlier position, that one is forgotten. Fails, and
    /// changes nothing, when the block is full.
    pub fn insert(&mut self, witness: Witness, commitment: Commitment) -> (r: Result<(), Error>)
        requires
            old(self).wf(),
        ensures
            final(self).wf(),
            r is Ok <==> !old(self)@.block_full(),
            r is Err ==> r == Err::<(), Error>(Error::CapacityExceeded) && final(self)@ == old(
                self,
            )@,
            r is Ok ==> final(self)@ == old(self)@.inserted(witness, commitment@),
            r is Ok ==> final(self)@.position() == (Position {
                commitment: (old(self)@.position().commitment + 1) as u64,
                ..old(self)@.position()
            }) && old(self)@.position().lex_le(final(self)@.position()),
    {
        let position = self.cursor();
        if position.commitment == TIER_CAPACITY {
            return Err(Error::CapacityExceeded);
        }
        match witness {
            Witness::Keep => {
                // A commitment is witnessed at one position only: the one
                // kept before, if there is one, gives way to the new one.
                self.forget(&commitment);
            },
            Witness::Forget => {},
        }
        let ghost mid = *self;
        proof {
            self.lemma_shape();
            reveal_with_fuel(room, 3);
            reveal_with_fuel(inserted, 3);
        }
        let item = match witness {
            Witness::Keep => Item::keep(commitment),
            Witness::Forget => Item::forgotten(commitment),
        };
        let ghost before = self.top;
        let mut top = Tier::empty();
        core::mem::swap(&mut self.top, &mut top);
        let top = top.insert_at(2, 0, item);
        self.top = top;
        match witness {
            Witness::Keep => {
                self.index.insert(commitment, position);
            },
            Witness::Forget => {},
        }
        proof {
            let after = self.top;
            let here = position.index_spec();
            assert(after.below().below().items@ == before.below().below().items@.push(
                leaf_hash(commitment@),
            ));
            assert(after.items@.drop_last() =~= before.items@.drop_last());
            assert(after.below().items@.drop_last() =~= before.below().items@.drop_last());
            lemma_ends(before);
            lemma_ends(after);
            lemma_last(after);
            assert(place(before) == here);
            assert(place(after) == here + 1);
            if witness == Witness::Keep {
                assert(self.index@ =~= old(self)@.index.insert(commitment@, position));
                assert(!mid.index@.contains_key(commitment@));
            }
            // What the tree retains is what it retained, and the new
            // commitment at its place.
            assert forall|i: nat| #[trigger]
                after.kept_at(2, i) == if i == here {
                    item.kept_at(0, 0)
                } else {
                    before.kept_at(2, i)
                } by {
                if i > here {
                    after.lemma_end(2, i);
                    before.lemma_end(2, i);
                } else if i == here {
                    before.lemma_end(2, i);
                }
            }
            assert forall|c: Seq<u8>| #[trigger] self.index@.contains_key(c) implies self.index@[c].is_leaf()
                && self.top.kept_at(2, self.index@[c].index_spec()) == Some(c) by {
                if witness == Witness::Keep && c == commitment@ {
                } else {
                    assert(mid.index@.contains_key(c));
                    let at = mid.index@[c].index_spec();
                    assert(before.kept_at(2, at) == Some(c));
                    before.lemma_end(2, here);
                    assert(after.kept_at(2, at) == before.kept_at(2, at));
                }
            }
            assert forall|i: nat| (#[trigger] self.top.kept_at(2, i)) is Some implies self.index@.contains_key(
                self.top.kept_at(2, i).unwrap(),
            ) && self.index@[self.top.kept_at(2, i).unwrap()].index_spec() == i by {
                if i != here {
                    assert(before.kept_at(2, i) is Some);
                    assert(mid.index@.contains_key(before.kept_at(2, i).unwrap()));
                }
            }
        }
        Ok(())
    }

    /// Ends the open block and opens the next one, which is empty. The block
    /// is finalized as far as it was filled. Fails, and changes nothing, when
    /// the epoch has no place for another block.
    pub fn end_block(&mut self) -> (r: Result<(), Error>)
        requires
            old(self).wf(),
        ensures
            final(self).wf(),
            r is Ok <==> !old(self)@.epoch_full(),
            r is Err ==> r == Err::<(), Error>(Error::CapacityExceeded) && final(self)@ == old(
                self,
            )@,
            r is Ok ==> final(self)@ == old(self)@.block_ended(),
            r is Ok ==> final(self)@.position() == (Position {
                block: (old(self)@.position().block + 1) as u64,
                commitment: 0,
                ..old(self)@.position()
            }) && old(self)@.position().lex_le(final(self)@.position()),
    {
        proof {
            self.lemma_shape();
        }
        if self.top.below_ref(Ghost(2)).is_full(Ghost(1)) {
            return Err(Error::CapacityExceeded);
        }
        proof {
            reveal_with_fuel(room, 3);
            reveal_with_fuel(inserted, 3);
        }
        let item = Item::Tier(Box::new(Tier::empty()));
        let ghost before = self.top;
        let mut top = Tier::empty();
        core::mem::swap(&mut self.top, &mut top);
        let top = top.insert_at(2, 1, item);
        self.top = top;
        proof {
            let after = self.top;
            assert(after.items@.drop_last() =~= before.items@.drop_last());
            assert(after.below().items@.drop_last() =~= before.below().items@);
            assert(after.below().below().items@ =~= Seq::empty());
            lemma_ends(before);
            lemma_ends(after);
            assert forall|i: nat| #[trigger] after.kept_at(2, i) == before.kept_at(2, i) by {
                if i >= landing(before, 2, 1) {
                    after.lemma_end(2, i);
                    before.lemma_end(2, i);
                }
            }
        }
        Ok(())
    }

    /// Ends the open epoch and opens the next one, with an empty first block.
    /// The epoch and its open block are finalized as far as they were filled.
    /// Fails, and changes nothing, when the tree has no place for another
    /// epoch.
    pub fn end_epoch(&mut self) -> (r: Result<(), Error>)
        requires
            old(self).wf(),
        ensures
            final(self).wf(),
            r is Ok <==> !old(self)@.top_full(),
            r is Err ==> r == Err::<(), Error>(Error::CapacityExceeded) && final(self)@ == old(
                self,
            )@,
            r is Ok ==> final(self)@ == old(self)@.epoch_ended(),
            r is Ok ==> final(self)@.position() == (Position {
                epoch: (old(self)@.position().epoch + 1) as u64,
                block: 0,
                commitment: 0,
            }) && old(self)@.position().lex_le(final(self)@.position()),
    {
        proof {
            self.lemma_shape();
        }
        if self.top.is_full(Ghost(2)) {
            return Err(Error::CapacityExceeded);
        }
        proof {
            reveal_with_fuel(room, 3);
            reveal_with_fuel(inserted, 3);
        }
        let epoch = Tier::holding(Item::Tier(Box::new(Tier::empty())), 1);
        let item = Item::Tier(Box::new(epoch));
        let ghost before = self.top;
        let mut top = Tier::empty();
        core::mem::swap(&mut self.top, &mut top);
        let top = top.insert_at(2, 2, item);
        self.top = top;
        proof {
            let after = self.top;
            assert(after.items@.drop_last() =~= before.items@);
            assert(after.below().items@.drop_last() =~= Seq::empty());
            assert(after.below().below().items@ =~= Seq::empty());
            lemma_ends(before);
            lemma_ends(after);
            assert forall|i: nat| #[trigger] after.kept_at(2, i) == before.kept_at(2, i) by {
                if i >= landing(before, 2, 2) {
                    after.lemma_end(2, i);
                    before.lemma_end(2, i);
                }
            }
        }
        Ok(())
    }

    /// A proof that a witnessed commitment lies in the tree, at the position
    /// on record for it and under the present root. Fails for a commitment
    /// that is not witnessed: one never inserted, inserted to be forgotten,
    /// or forgotten since.
    pub fn witness(&self, commitment: &Commitment) -> (r: Result<Proof, Error>)
        requires
            self.wf(),
        ensures
            r is Ok <==> self@.index.contains_key(commitment@),
            r matches Err(e) ==> e == Error::NotFound,
            r matches Ok(proof) ==> {
                &&& proof.commitment@ == commitment@
                &&& proof.position == self@.index[commitment@]
                &&& proof.verifies(self@.root())
            },
    {
        match self.index.get(commitment) {
            None => Err(Error::NotFound),
            Some(position) => {
                proof {
                    lemma_pow4_values();
                    self.lemma_shape();
                }
                match self.top.witness(2, TREE_CAPACITY, position.index(), true).1 {
                    Some((auth_path, found)) => Ok(
                        Proof { commitment: found, position, auth_path },
                    ),
                    None => vstd::pervasive::unreached(),
                }
            },
        }
    }

    /// Forgets a witnessed commitment: prunes what was kept to prove it, and
    /// takes it off the record. Says whether the commitment was witnessed.
    /// The root, the position and every other proof stay as they are.
    pub fn forget(&mut self, commitment: &Commitment) -> (forgotten: bool)
        requires
            old(self).wf(),
        ensures
            final(self).wf(),
            forgotten == old(self)@.index.contains_key(commitment@),
            final(self)@ == old(self)@.forgotten(commitment@),
            final(self)@.root() == old(self)@.root(),
    {
        match self.index.remove(commitment) {
            None => {
                proof {
                    assert(self.index@ =~= old(self).index@);
                }
                false
            },
            Some(position) => {
                proof {
                    lemma_pow4_values();
                    reveal_with_fuel(same_items, 3);
                }
                let ghost before = self.top;
                let mut top = Tier::empty();
                core::mem::swap(&mut self.top, &mut top);
                let (top, forgotten) = top.forget(2, TREE_CAPACITY, position.index());
                self.top = top;
                proof {
                    assert(before.kept_at(2, position.index_spec()) == Some(commitment@));
                    assert forall|c: Seq<u8>| #[trigger] self.index@.contains_key(c) implies self.index@[c].is_leaf()
                        && self.top.kept_at(2, self.index@[c].index_spec()) == Some(c) by {
                        assert(old(self).index@.contains_key(c));
                        assert(c != commitment@);
                        assert(before.kept_at(2, old(self).index@[c].index_spec()) == Some(c));
                    }
                    assert forall|i: nat| (#[trigger] self.top.kept_at(2, i)) is Some implies self.index@.contains_key(
                        self.top.kept_at(2, i).unwrap(),
                    ) && self.index@[self.top.kept_at(2, i).unwrap()].index_spec() == i by {
                        assert(before.kept_at(2, i) is Some);
                    }
                }
                forgotten
            },
        }
    }
}

} // verus!
