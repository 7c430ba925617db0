//! The frontier: the rightmost path of the tree, which is still growing.
//!
//! A tier is a quaternary tree of height 8 over its items. Within a tier only
//! the path from the root to the item inserted last is in frontier form; what
//! lies to its left is finalized. The items of the lowest tier are
//! commitments, the items of the tiers above are tiers themselves: a block is
//! an item of its epoch, an epoch an item of the top tier.

use vstd::prelude::*;
use crate::tct::complete;
use crate::tct::complete::Complete;
use crate::tct::hash;
use crate::tct::hash::{leaf_hash, node_hash, Commitment};
use crate::tct::insert::Insert;
use crate::tct::complete::lemma_same_slot;
use crate::tct::math::{
    lemma_merkle_agree, lemma_pow4_positive, lemma_pow4_split, lemma_pow4_values,
    lemma_reach_arith, lemma_slot, merkle, offset, pow4, quot, reach, rem,
};
use vstd::arithmetic::div_mod::{lemma_fundamental_div_mod, lemma_fundamental_div_mod_converse};
use crate::tct::path::{climb, lemma_climb_prefix, place, Siblings};

verus! {

/// The frontier leaf: the item inserted last. Nothing can be inserted into a
/// leaf; the node above it opens a new leaf for the next item.
#[derive(Debug)]
pub struct Leaf<T> {
    pub(crate) item: T,
}

/// What a frontier leaf holds.
pub enum Item {
    /// In the lowest tier: a commitment, retained or only hashed.
    Commitment(Insert<complete::Leaf>),
    /// In the tiers above: the tier below that is still growing.
    Tier(Box<Tier>),
}

/// A frontier node: up to three finalized children, and to their right the
/// child that is still growing.
pub struct Node {
    pub(crate) siblings: Vec<Insert<Complete>>,
    pub(crate) focus: Focus,
}

/// The growing child of a frontier node.
pub enum Focus {
    Leaf(Leaf<Item>),
    Node(Box<Node>),
}

/// One tier: empty, or a frontier of height 8. `items` are the hashes of the
/// items inserted so far, the last one being that of the item in the leaf.
pub struct Tier {
    pub(crate) inner: Option<Focus>,
    pub(crate) items: Ghost<Seq<Seq<u8>>>,
}

/// The answer of a full frontier to an insertion: the item comes back, with
/// the finalized form of the frontier that refused it.
pub struct Full {
    pub item: Item,
    pub complete: Insert<Complete>,
}

impl Item {
    /// The hash of the item.
    pub open(crate) spec fn root(&self, lvl: nat) -> Seq<u8> {
        match self {
            Item::Commitment(Insert::Keep(l)) => l.hash@,
            Item::Commitment(Insert::Hash(h)) => h@,
            Item::Tier(t) => merkle(t.items@, (8 * (lvl - 1)) as nat, 8, 0),
        }
    }

    /// The item is one of the tier `lvl`, and well formed.
    pub open(crate) spec fn wf(&self, lvl: nat) -> bool {
        match self {
            Item::Commitment(x) => lvl == 0 && (x matches Insert::Keep(l) ==> l.wf()),
            Item::Tier(t) => lvl >= 1 && t.wf((lvl - 1) as nat),
        }
    }

    /// The commitment retained as number `index` below the item, if one is.
    pub open(crate) spec fn kept_at(&self, lvl: nat, index: nat) -> Option<Seq<u8>> {
        match self {
            Item::Commitment(Insert::Keep(l)) => if index == 0 {
                Some(l.commitment@)
            } else {
                None
            },
            Item::Commitment(Insert::Hash(_)) => None,
            Item::Tier(t) => t.kept_at((lvl - 1) as nat, index),
        }
    }
}

impl Tier {
    /// The tier is one of level `lvl` (0 for a block, 1 for an epoch, 2 for the
    /// top), its frontier is well formed and stands for `items`. Only a block
    /// can be empty.
    pub open(crate) spec fn wf(&self, lvl: nat) -> bool {
        &&& lvl <= 2
        &&& match self.inner {
            None => lvl == 0 && self.items@.len() == 0,
            Some(f) => f.wf(lvl, 8, self.items@, 0),
        }
    }

    /// The commitment retained as number `index` below the tier, if one is.
    pub open(crate) spec fn kept_at(&self, lvl: nat, index: nat) -> Option<Seq<u8>> {
        match self.inner {
            None => None,
            Some(f) => f.kept_at(lvl, 8, index),
        }
    }

    /// The hash of the tier.
    pub open(crate) spec fn root(&self, lvl: nat) -> Seq<u8> {
        merkle(self.items@, 8 * lvl, 8, 0)
    }

    /// The tier below that is still growing: the item in the leaf.
    pub open(crate) spec fn below(&self) -> Tier {
        match self.inner {
            Some(f) => match f.focus_item() {
                Item::Tier(t) => *t,
                _ => *self,
            },
            None => *self,
        }
    }
}

impl Focus {
    /// The frontier below a node of height `h` in the tier `lvl` is well
    /// formed, and stands for the items from number `start` on: each finalized
    /// child has the hash of the items below it, and the leaf holds the last
    /// item.
    pub open(crate) spec fn wf(&self, lvl: nat, h: nat, items: Seq<Seq<u8>>, start: int) -> bool
        decreases self,
    {
        match self {
            Focus::Leaf(l) => {
                &&& h == 0
                &&& 0 <= start
                &&& start + 1 == items.len()
                &&& l.item.root(lvl) == items[start]
                &&& match l.item {
                    Item::Commitment(x) => lvl == 0 && (x matches Insert::Keep(c) ==> c.wf()),
                    Item::Tier(t) => {
                        &&& 1 <= lvl <= 3
                        &&& match t.inner {
                            None => lvl == 1 && t.items@.len() == 0,
                            Some(f) => f.wf((lvl - 1) as nat, 8, t.items@, 0),
                        }
                    },
                }
            },
            Focus::Node(n) => {
                let below = (h - 1) as nat;
                let w = pow4(below) as int;
                let k = n.siblings@.len() as int;
                let g = (8 * lvl + h - 1) as nat;
                &&& 1 <= h <= 8
                &&& 0 <= start
                &&& k <= 3
                &&& (0 < k ==> n.siblings@[0].wf(g) && n.siblings@[0].hash_spec() == merkle(
                    items,
                    8 * lvl,
                    below,
                    start,
                ))
                &&& (1 < k ==> n.siblings@[1].wf(g) && n.siblings@[1].hash_spec() == merkle(
                    items,
                    8 * lvl,
                    below,
                    start + w,
                ))
                &&& (2 < k ==> n.siblings@[2].wf(g) && n.siblings@[2].hash_spec() == merkle(
                    items,
                    8 * lvl,
                    below,
                    start + 2 * w,
                ))
                &&& n.focus.wf(lvl, below, items, start + offset(k, w))
            },
        }
    }

    /// No further item fits below this node.
    pub open(crate) spec fn full(&self) -> bool
        decreases self,
    {
        match self {
            Focus::Leaf(_) => true,
            Focus::Node(n) => n.siblings@.len() == 3 && n.focus.full(),
        }
    }

    /// The item in the leaf: the one inserted last.
    pub open(crate) spec fn focus_item(&self) -> Item
        decreases self,
    {
        match self {
            Focus::Leaf(l) => l.item,
            Focus::Node(n) => n.focus.focus_item(),
        }
    }

    /// The commitment retained as number `index` below this node, if one is.
    pub open(crate) spec fn kept_at(&self, lvl: nat, h: nat, index: nat) -> Option<Seq<u8>>
        decreases self,
    {
        match self {
            Focus::Leaf(l) => match l.item {
                Item::Commitment(Insert::Keep(c)) => if index == 0 {
                    Some(c.commitment@)
                } else {
                    None
                },
                Item::Commitment(Insert::Hash(_)) => None,
                Item::Tier(t) => match t.inner {
                    None => None,
                    Some(f) => f.kept_at((lvl - 1) as nat, 8, index),
                },
            },
            Focus::Node(n) => {
                let g = (8 * lvl + h - 1) as nat;
                let which = quot(index, pow4(g)) as int;
                let rest = rem(index, pow4(g));
                let k = n.siblings@.len() as int;
                if 0 <= which < k {
                    n.siblings@[which].kept_at(g, rest)
                } else if which == k {
                    n.focus.kept_at(lvl, (h - 1) as nat, rest)
                } else {
                    None
                }
            },
        }
    }

    /// A well-formed frontier holds at least one item and no more than fit,
    /// and it is full exactly when as many items as fit are below it.
    pub(crate) proof fn lemma_span(&self, lvl: nat, h: nat, items: Seq<Seq<u8>>, start: int)
        requires
            self.wf(lvl, h, items, start),
        ensures
            h <= 8,
            0 <= start < items.len() <= start + pow4(h),
            self.full() <==> items.len() == start + pow4(h),
            self.focus_item().wf(lvl),
            self.focus_item().root(lvl) == items[items.len() - 1],
        decreases self,
    {
        match self {
            Focus::Leaf(l) => {},
            Focus::Node(n) => {
                let below = (h - 1) as nat;
                let w = pow4(below) as int;
                let k = n.siblings@.len() as int;
                lemma_pow4_positive(below);
                n.focus.lemma_span(lvl, below, items, start + offset(k, w));
            },
        }
    }
}

impl Item {
    /// The hash of the item.
    pub fn hash(&self, lvl: u8) -> (r: hash::Hash)
        requires
            self.wf(lvl as nat),
        ensures
            r@ == self.root(lvl as nat),
        decreases self,
    {
        match self {
            Item::Commitment(Insert::Keep(l)) => l.hash,
            Item::Commitment(Insert::Hash(h)) => *h,
            Item::Tier(t) => t.hash(lvl - 1),
        }
    }
}

impl Tier {
    /// The hash of the tier: that of its frontier, or the empty hash.
    pub(crate) fn hash(&self, lvl: u8) -> (r: hash::Hash)
        requires
            self.wf(lvl as nat),
        ensures
            r@ == self.root(lvl as nat),
        decreases self,
    {
        match &self.inner {
            None => hash::Hash::empty(lvl * 8 + 8),
            Some(f) => f.hash(lvl, 8, Ghost(self.items@), Ghost(0)),
        }
    }

    /// The number of items in the tier.
    pub(crate) fn count(&self, lvl: u8) -> (n: u64)
        requires
            self.wf(lvl as nat),
        ensures
            n == self.items@.len(),
            n <= 65536,
    {
        match &self.inner {
            None => 0,
            Some(f) => {
                proof {
                    lemma_pow4_values();
                    f.lemma_span(lvl as nat, 8, self.items@, 0);
                }
                f.count(8, 65536, Ghost(lvl as nat), Ghost(self.items@), Ghost(0))
            },
        }
    }
}

impl Focus {
    /// The hashes of the four children of a frontier node: the finalized
    /// ones, the growing one, and the empty hash for those not yet there.
    pub(crate) fn slots(
        &self,
        lvl: u8,
        h: u8,
        Ghost(items): Ghost<Seq<Seq<u8>>>,
        Ghost(start): Ghost<int>,
    ) -> (r: (hash::Hash, hash::Hash, hash::Hash, hash::Hash))
        requires
            self.wf(lvl as nat, h as nat, items, start),
            self is Node,
            lvl <= 2,
        ensures
            r.0@ == merkle(items, (8 * lvl) as nat, (h - 1) as nat, start),
            r.1@ == merkle(items, (8 * lvl) as nat, (h - 1) as nat, start + pow4((h - 1) as nat)),
            r.2@ == merkle(
                items,
                (8 * lvl) as nat,
                (h - 1) as nat,
                start + 2 * pow4((h - 1) as nat),
            ),
            r.3@ == merkle(
                items,
                (8 * lvl) as nat,
                (h - 1) as nat,
                start + 3 * pow4((h - 1) as nat),
            ),
        decreases self, 0nat,
    {
        match self {
            Focus::Leaf(_) => {
                let e = hash::Hash::empty(0);
                (e, e, e, e)
            },
            Focus::Node(n) => {
                let ghost w = pow4((h - 1) as nat) as int;
                let k = n.siblings.len();
                let pad = hash::Hash::empty(lvl * 8 + h - 1);
                let ghost at = start + offset(k as int, w);
                proof {
                    lemma_pow4_positive((h - 1) as nat);
                    n.focus.lemma_span(lvl as nat, (h - 1) as nat, items, at);
                }
                let grown = n.focus.hash(lvl, h - 1, Ghost(items), Ghost(at));
                let a = if k > 0 {
                    n.siblings[0].hash()
                } else {
                    grown
                };
                let b = if k > 1 {
                    n.siblings[1].hash()
                } else if k == 1 {
                    grown
                } else {
                    pad
                };
                let c = if k > 2 {
                    n.siblings[2].hash()
                } else if k == 2 {
                    grown
                } else {
                    pad
                };
                let d = if k == 3 {
                    grown
                } else {
                    pad
                };
                (a, b, c, d)
            },
        }
    }

    /// The hash of the frontier, computed from the hashes of the finalized
    /// children and the live hash of the growing one.
    pub(crate) fn hash(
        &self,
        lvl: u8,
        h: u8,
        Ghost(items): Ghost<Seq<Seq<u8>>>,
        Ghost(start): Ghost<int>,
    ) -> (r: hash::Hash)
        requires
            self.wf(lvl as nat, h as nat, items, start),
            lvl <= 2,
        ensures
            r@ == merkle(items, (8 * lvl) as nat, h as nat, start),
        decreases self, 1nat,
    {
        match self {
            Focus::Leaf(l) => l.item.hash(lvl),
            Focus::Node(n) => {
                proof {
                    self.lemma_span(lvl as nat, h as nat, items, start);
                }
                let (a, b, c, d) = self.slots(lvl, h, Ghost(items), Ghost(start));
                hash::Hash::node(lvl * 8 + h, &a, &b, &c, &d)
            },
        }
    }

    /// The number of items below this node.
    pub(crate) fn count(
        &self,
        h: u8,
        width: u64,
        Ghost(lvl): Ghost<nat>,
        Ghost(items): Ghost<Seq<Seq<u8>>>,
        Ghost(start): Ghost<int>,
    ) -> (n: u64)
        requires
            self.wf(lvl, h as nat, items, start),
            width == pow4(h as nat),
            width <= 65536,
        ensures
            n == items.len() - start,
            1 <= n <= width,
        decreases self,
    {
        proof {
            self.lemma_span(lvl, h as nat, items, start);
        }
        match self {
            Focus::Leaf(_) => 1,
            Focus::Node(n) => {
                let w = width / 4;
                let k = n.siblings.len() as u64;
                let ghost at = start + offset(k as int, w as int);
                proof {
                    n.focus.lemma_span(lvl, (h - 1) as nat, items, at);
                }
                let below = n.focus.count(h - 1, w, Ghost(lvl), Ghost(items), Ghost(at));
                let left = if k == 0 {
                    0
                } else if k == 1 {
                    w
                } else if k == 2 {
                    2 * w
                } else {
                    3 * w
                };
                left + below
            },
        }
    }
}

/// Where the commitments of a tier end: the number of places up to the last
/// commitment of the tier, counted from the start of the tier.
pub open(crate) spec fn tier_end(tier: Tier, lvl: nat) -> nat
    decreases lvl,
{
    match tier.inner {
        None => 0,
        Some(f) => reach(tier.items@.len() - 1, lvl) + match f.focus_item() {
            Item::Commitment(_) => 1nat,
            Item::Tier(t) => if lvl >= 1 {
                tier_end(*t, (lvl - 1) as nat)
            } else {
                0
            },
        },
    }
}

/// Where the commitments of an item end, counted from the start of the item.
pub open(crate) spec fn item_end(item: Item, lvl: nat) -> nat {
    match item {
        Item::Commitment(_) => 1,
        Item::Tier(t) => if lvl >= 1 {
            tier_end(*t, (lvl - 1) as nat)
        } else {
            0
        },
    }
}

/// Where an item lands that is inserted into the growing tier of level
/// `target` within `tier`: the number of places before it.
pub open(crate) spec fn landing(tier: Tier, lvl: nat, target: nat) -> nat
    decreases lvl,
{
    if lvl <= target {
        reach(tier.items@.len() as int, lvl)
    } else {
        reach(tier.items@.len() - 1, lvl) + landing(tier.below(), (lvl - 1) as nat, target)
    }
}

/// Where an item lands that is inserted into the growing tier of level
/// `target` below an item of the tier `lvl`.
pub open(crate) spec fn landing_below(item: Item, lvl: nat, target: nat) -> nat {
    match item {
        Item::Tier(t) => landing(*t, (lvl - 1) as nat, target),
        Item::Commitment(_) => 0,
    }
}

/// The tier `after` is the tier `before` with `item` inserted into the
/// growing tier of level `target` within it: that tier has one more item, and
/// in each tier above it only the hash of the last item has changed.
pub open(crate) spec fn inserted(before: Tier, after: Tier, lvl: nat, target: nat, item: Item) -> bool
    decreases lvl,
{
    if lvl <= target {
        &&& after.items@ == before.items@.push(item.root(lvl))
        &&& after.inner is Some
        &&& after.inner.unwrap().focus_item() == item
    } else {
        &&& after.items@.len() == before.items@.len()
        &&& after.items@.drop_last() == before.items@.drop_last()
        &&& inserted(before.below(), after.below(), (lvl - 1) as nat, target, item)
    }
}

/// The growing tier of level `target` within `tier` has room for an item.
pub open(crate) spec fn room(tier: Tier, lvl: nat, target: nat) -> bool
    decreases lvl,
{
    if lvl <= target {
        tier.items@.len() < 65536
    } else {
        room(tier.below(), (lvl - 1) as nat, target)
    }
}

impl Item {
    /// The finalized form of the item.
    pub(crate) fn finalize(self, lvl: u8) -> (r: Insert<Complete>)
        requires
            self.wf(lvl as nat),
            lvl <= 2,
        ensures
            r.wf((8 * lvl) as nat),
            r.hash_spec() == self.root(lvl as nat),
            forall|i: nat| #[trigger] r.kept_at((8 * lvl) as nat, i) == self.kept_at(lvl as nat, i),
        decreases self,
    {
        match self {
            Item::Commitment(Insert::Keep(l)) => Insert::Keep(Complete::Leaf(l)),
            Item::Commitment(Insert::Hash(h)) => Insert::Hash(h),
            Item::Tier(t) => {
                let t = *t;
                t.finalize(lvl - 1)
            },
        }
    }
}

impl Tier {
    /// An empty block.
    pub(crate) fn empty() -> (r: Tier)
        ensures
            r.wf(0),
            r.items@ == Seq::<Seq<u8>>::empty(),
            r.inner is None,
    {
        Tier { inner: None, items: Ghost(Seq::empty()) }
    }

    /// The finalized form of the tier, whether it is full or not: the places
    /// that no item has taken keep the empty hash.
    pub(crate) fn finalize(self, lvl: u8) -> (r: Insert<Complete>)
        requires
            self.wf(lvl as nat),
        ensures
            r.wf((8 * lvl + 8) as nat),
            r.hash_spec() == self.root(lvl as nat),
            forall|i: nat| #[trigger]
                r.kept_at((8 * lvl + 8) as nat, i) == self.kept_at(lvl as nat, i),
        decreases self,
    {
        let ghost items = self.items@;
        match self.inner {
            None => Insert::Hash(hash::Hash::empty(lvl * 8 + 8)),
            Some(f) => f.finalize(lvl, 8, Ghost(items), Ghost(0)),
        }
    }

    /// Inserts an item into this tier, which has room for it.
    pub(crate) fn insert(self, item: Item, lvl: u8) -> (r: Tier)
        requires
            self.wf(lvl as nat),
            item.wf(lvl as nat),
            self.items@.len() < 65536,
        ensures
            r.wf(lvl as nat),
            r.items@ == self.items@.push(item.root(lvl as nat)),
            r.inner is Some,
            r.inner.unwrap().focus_item() == item,
            forall|i: nat|
                i < reach(self.items@.len() as int, lvl as nat) ==> #[trigger] r.kept_at(
                    lvl as nat,
                    i,
                ) == self.kept_at(lvl as nat, i),
    {
        let ghost items = self.items@;
        let ghost grown = items.push(item.root(lvl as nat));
        match self.inner {
            None => {
                let f = Focus::new(item, lvl, 8, Ghost(grown), Ghost(0));
                Tier { inner: Some(f), items: Ghost(grown) }
            },
            Some(f) => {
                proof {
                    lemma_pow4_values();
                    f.lemma_span(lvl as nat, 8, items, 0);
                }
                match f.insert_owned(item, lvl, 8, Ghost(items), Ghost(0)) {
                    Ok(f) => Tier { inner: Some(f), items: Ghost(grown) },
                    Err(_) => vstd::pervasive::unreached(),
                }
            },
        }
    }

    /// Inserts an item into the growing tier of level `target` within this
    /// tier, which has room for it.
    pub(crate) fn insert_at(self, lvl: u8, target: u8, item: Item) -> (r: Tier)
        requires
            self.wf(lvl as nat),
            target <= lvl,
            item.wf(target as nat),
            room(self, lvl as nat, target as nat),
        ensures
            r.wf(lvl as nat),
            inserted(self, r, lvl as nat, target as nat, item),
            forall|i: nat|
                i < landing(self, lvl as nat, target as nat) ==> #[trigger] r.kept_at(
                    lvl as nat,
                    i,
                ) == self.kept_at(lvl as nat, i),
        decreases self,
    {
        if lvl == target {
            self.insert(item, lvl)
        } else {
            let ghost items = self.items@;
            match self.inner {
                Some(f) => {
                    proof {
                        f.lemma_span(lvl as nat, 8, items, 0);
                    }
                    let f = f.insert_below(lvl, 8, target, item, Ghost(items), Ghost(0));
                    let ghost changed = items.update(
                        items.len() - 1,
                        f.focus_item().root(lvl as nat),
                    );
                    assert(changed.drop_last() =~= items.drop_last());
                    Tier { inner: Some(f), items: Ghost(changed) }
                },
                None => vstd::pervasive::unreached(),
            }
        }
    }
}

impl Focus {
    /// The frontier of height `h` that holds one item and nothing else.
    pub(crate) fn new(
        item: Item,
        lvl: u8,
        h: u8,
        Ghost(items): Ghost<Seq<Seq<u8>>>,
        Ghost(start): Ghost<int>,
    ) -> (r: Focus)
        requires
            item.wf(lvl as nat),
            h <= 8,
            0 <= start,
            start + 1 == items.len(),
            items[start] == item.root(lvl as nat),
        ensures
            r.wf(lvl as nat, h as nat, items, start),
            r.focus_item() == item,
        decreases h,
    {
        if h == 0 {
            Focus::Leaf(Leaf { item })
        } else {
            let focus = Focus::new(item, lvl, h - 1, Ghost(items), Ghost(start));
            Focus::Node(Box::new(Node { siblings: Vec::new(), focus }))
        }
    }

    /// The finalized form of the frontier below this node: the finalized
    /// children as they are, the growing child finalized in turn, and the
    /// empty hash in the places that no child has taken.
    pub(crate) fn finalize(
        self,
        lvl: u8,
        h: u8,
        Ghost(items): Ghost<Seq<Seq<u8>>>,
        Ghost(start): Ghost<int>,
    ) -> (r: Insert<Complete>)
        requires
            self.wf(lvl as nat, h as nat, items, start),
            lvl <= 2,
        ensures
            r.wf((8 * lvl + h) as nat),
            r.hash_spec() == merkle(items, (8 * lvl) as nat, h as nat, start),
            forall|i: nat| #[trigger]
                r.kept_at((8 * lvl + h) as nat, i) == self.kept_at(lvl as nat, h as nat, i),
        decreases self,
    {
        match self {
            Focus::Leaf(l) => {
                assert(merkle(items, (8 * lvl) as nat, 0, start) == items[start]);
                l.item.finalize(lvl)
            },
            Focus::Node(n) => {
                let n = *n;
                let ghost w = pow4((h - 1) as nat) as int;
                let ghost k = n.siblings@.len() as int;
                let ghost at = start + offset(k, w);
                let ghost before = n.siblings@;
                proof {
                    lemma_pow4_positive((h - 1) as nat);
                    n.focus.lemma_span(lvl as nat, (h - 1) as nat, items, at);
                }
                let mut children = n.siblings;
                let grown = n.focus.finalize(lvl, h - 1, Ghost(items), Ghost(at));
                children.push(grown);
                if children.len() < 4 {
                    children.push(Insert::Hash(hash::Hash::empty(lvl * 8 + h - 1)));
                }
                if children.len() < 4 {
                    children.push(Insert::Hash(hash::Hash::empty(lvl * 8 + h - 1)));
                }
                if children.len() < 4 {
                    children.push(Insert::Hash(hash::Hash::empty(lvl * 8 + h - 1)));
                }
                let ghost kids = children@;
                assert forall|j: int| 0 <= j < 4 implies (#[trigger] kids[j]).wf(
                    (8 * lvl + h - 1) as nat,
                ) by {
                    if j < k {
                        assert(kids[j] == before[j]);
                    }
                }
                assert forall|j: int| 0 <= j < k implies kids[j] == before[j] by {}
                let r = complete::Node::from_children(lvl * 8 + h, children);
                let ghost base = (8 * lvl) as nat;
                let ghost below = (h - 1) as nat;
                // The hashes of the four children are those of the four
                // quarters of the items below this node.
                assert(kids.len() == 4);
                assert(kids[k] == grown);
                assert(kids[0].hash_spec() == merkle(items, base, below, start));
                assert(kids[1].hash_spec() == merkle(items, base, below, start + w));
                assert(kids[2].hash_spec() == merkle(items, base, below, start + 2 * w));
                assert(kids[3].hash_spec() == merkle(items, base, below, start + 3 * w));
                assert(r.hash_spec() == merkle(items, base, h as nat, start));
                assert forall|i: nat| #[trigger]
                    r.kept_at((8 * lvl + h) as nat, i) == self.kept_at(
                        lvl as nat,
                        h as nat,
                        i,
                    ) by {
                    assert(r.kept_at((8 * lvl + h) as nat, i) == complete::kept_among(
                        kids,
                        (8 * lvl + h) as nat,
                        i,
                    ));
                    let which = quot(i, pow4((8 * lvl + h - 1) as nat)) as int;
                    if 0 <= which < k {
                        assert(kids[which] == before[which]);
                    }
                }
                r
            },
        }
    }

    /// Inserts an item below this node, as its rightmost item. Where the
    /// growing child has no room, it is finalized and a new growing child is
    /// opened for the item; where there is no place for a new child either,
    /// the item comes back with the finalized form of this node.
    pub(crate) fn insert_owned(
        self,
        item: Item,
        lvl: u8,
        h: u8,
        Ghost(items): Ghost<Seq<Seq<u8>>>,
        Ghost(start): Ghost<int>,
    ) -> (r: Result<Focus, Full>)
        requires
            self.wf(lvl as nat, h as nat, items, start),
            item.wf(lvl as nat),
            lvl <= 2,
        ensures
            match r {
                Ok(f) => {
                    &&& !self.full()
                    &&& f.wf(lvl as nat, h as nat, items.push(item.root(lvl as nat)), start)
                    &&& f.focus_item() == item
                    &&& forall|i: nat|
                        i < reach(items.len() - start, lvl as nat) ==> #[trigger] f.kept_at(
                            lvl as nat,
                            h as nat,
                            i,
                        ) == self.kept_at(lvl as nat, h as nat, i)
                },
                Err(full) => {
                    &&& self.full()
                    &&& full.item == item
                    &&& full.complete.wf((8 * lvl + h) as nat)
                    &&& full.complete.hash_spec() == merkle(
                        items,
                        (8 * lvl) as nat,
                        h as nat,
                        start,
                    )
                    &&& forall|i: nat| #[trigger]
                        full.complete.kept_at((8 * lvl + h) as nat, i) == self.kept_at(
                            lvl as nat,
                            h as nat,
                            i,
                        )
                },
            },
        decreases self,
    {
        match self {
            Focus::Leaf(l) => {
                assert(merkle(items, (8 * lvl) as nat, 0, start) == items[start]);
                Err(Full { item, complete: l.item.finalize(lvl) })
            },
            Focus::Node(n) => {
                let n = *n;
                let ghost below = (h - 1) as nat;
                let ghost w = pow4(below) as int;
                let ghost k = n.siblings@.len() as int;
                let ghost at = start + offset(k, w);
                let ghost before = n.siblings@;
                let ghost grown = items.push(item.root(lvl as nat));
                let ghost base = (8 * lvl) as nat;
                proof {
                    lemma_pow4_positive(below);
                    n.focus.lemma_span(lvl as nat, below, items, at);
                    if 0 < k {
                        lemma_merkle_agree(items, grown, base, below, start);
                    }
                    if 1 < k {
                        lemma_merkle_agree(items, grown, base, below, start + w);
                    }
                    if 2 < k {
                        lemma_merkle_agree(items, grown, base, below, start + 2 * w);
                    }
                }
                let siblings = n.siblings;
                let ghost grew = n.focus;
                match n.focus.insert_owned(item, lvl, h - 1, Ghost(items), Ghost(at)) {
                    Ok(focus) => {
                        let r = Focus::Node(Box::new(Node { siblings, focus }));
                        assert(r.wf(lvl as nat, h as nat, grown, start));
                        assert forall|i: nat|
                            i < reach(items.len() - start, lvl as nat) implies #[trigger] r.kept_at(
                            lvl as nat,
                            h as nat,
                            i,
                        ) == self.kept_at(lvl as nat, h as nat, i) by {
                            let g = (8 * lvl + h - 1) as nat;
                            lemma_slot(lvl as nat, below, i, k, items.len() - at);
                            assert(g == 8 * lvl + below);
                            let which = quot(i, pow4(g)) as int;
                            let rest = rem(i, pow4(g));
                            if which == k {
                                assert(rest < reach(items.len() - at, lvl as nat));
                                assert(focus.kept_at(lvl as nat, below, rest) == grew.kept_at(
                                    lvl as nat,
                                    below,
                                    rest,
                                ));
                            }
                        }
                        Ok(r)
                    },
                    Err(full) => {
                        if siblings.len() < 3 {
                            proof {
                                lemma_merkle_agree(items, grown, base, below, at);
                            }
                            let mut siblings = siblings;
                            siblings.push(full.complete);
                            let focus = Focus::new(
                                full.item,
                                lvl,
                                h - 1,
                                Ghost(grown),
                                Ghost(at + w),
                            );
                            let ghost after = siblings@;
                            assert forall|j: int| 0 <= j < k implies after[j] == before[j] by {}
                            let r = Focus::Node(Box::new(Node { siblings, focus }));
                            assert(r.wf(lvl as nat, h as nat, grown, start));
                            assert forall|i: nat|
                                i < reach(
                                    items.len() - start,
                                    lvl as nat,
                                ) implies #[trigger] r.kept_at(lvl as nat, h as nat, i)
                                == self.kept_at(lvl as nat, h as nat, i) by {
                                let g = (8 * lvl + h - 1) as nat;
                                lemma_slot(lvl as nat, below, i, k, w);
                                assert(g == 8 * lvl + below);
                                assert(items.len() - start == offset(k, w) + w);
                                let which = quot(i, pow4(g)) as int;
                                if 0 <= which < k {
                                    assert(after[which] == before[which]);
                                } else if which == k {
                                    assert(after[k] == full.complete);
                                }
                            }
                            Ok(r)
                        } else {
                            let mut children = siblings;
                            children.push(full.complete);
                            let ghost kids = children@;
                            assert forall|j: int| 0 <= j < 4 implies (#[trigger] kids[j]).wf(
                                (8 * lvl + h - 1) as nat,
                            ) by {
                                if j < 3 {
                                    assert(kids[j] == before[j]);
                                }
                            }
                            assert(kids[0] == before[0] && kids[1] == before[1] && kids[2]
                                == before[2]);
                            let complete = complete::Node::from_children(lvl * 8 + h, children);
                            assert forall|i: nat| #[trigger]
                                complete.kept_at((8 * lvl + h) as nat, i) == self.kept_at(
                                    lvl as nat,
                                    h as nat,
                                    i,
                                ) by {
                                assert(complete.kept_at((8 * lvl + h) as nat, i)
                                    == complete::kept_among(kids, (8 * lvl + h) as nat, i));
                                let which = quot(i, pow4((8 * lvl + h - 1) as nat)) as int;
                                if 0 <= which < 3 {
                                    assert(kids[which] == before[which]);
                                }
                            }
                            Err(Full { item: full.item, complete })
                        }
                    },
                }
            },
        }
    }

    /// Inserts an item into the growing tier of level `target` below the leaf
    /// of this frontier. The frontier keeps its shape; the hash of its last
    /// item changes.
    pub(crate) fn insert_below(
        self,
        lvl: u8,
        h: u8,
        target: u8,
        item: Item,
        Ghost(items): Ghost<Seq<Seq<u8>>>,
        Ghost(start): Ghost<int>,
    ) -> (r: Focus)
        requires
            self.wf(lvl as nat, h as nat, items, start),
            target < lvl <= 2,
            item.wf(target as nat),
            self.focus_item() matches Item::Tier(t) && room(*t, (lvl - 1) as nat, target as nat),
        ensures
            r.wf(
                lvl as nat,
                h as nat,
                items.update(items.len() - 1, r.focus_item().root(lvl as nat)),
                start,
            ),
            self.focus_item() matches Item::Tier(t1) && r.focus_item() matches Item::Tier(t2)
                && inserted(*t1, *t2, (lvl - 1) as nat, target as nat, item),
            forall|i: nat|
                i < reach(items.len() - 1 - start, lvl as nat) + landing_below(
                    self.focus_item(),
                    lvl as nat,
                    target as nat,
                ) ==> #[trigger] r.kept_at(lvl as nat, h as nat, i) == self.kept_at(
                    lvl as nat,
                    h as nat,
                    i,
                ),
        decreases self,
    {
        match self {
            Focus::Leaf(l) => {
                match l.item {
                    Item::Tier(t) => {
                        let t = *t;
                        let grown = t.insert_at(lvl - 1, target, item);
                        let r = Focus::Leaf(Leaf { item: Item::Tier(Box::new(grown)) });
                        assert forall|i: nat|
                            i < reach(items.len() - 1 - start, lvl as nat) + landing_below(
                                self.focus_item(),
                                lvl as nat,
                                target as nat,
                            ) implies #[trigger] r.kept_at(lvl as nat, h as nat, i)
                            == self.kept_at(lvl as nat, h as nat, i) by {
                            assert(self.kept_at(lvl as nat, h as nat, i) == t.kept_at(
                                (lvl - 1) as nat,
                                i,
                            ));
                            assert(r.kept_at(lvl as nat, h as nat, i) == grown.kept_at(
                                (lvl - 1) as nat,
                                i,
                            ));
                        }
                        r
                    },
                    Item::Commitment(_) => vstd::pervasive::unreached(),
                }
            },
            Focus::Node(n) => {
                let n = *n;
                let ghost below = (h - 1) as nat;
                let ghost w = pow4(below) as int;
                let ghost k = n.siblings@.len() as int;
                let ghost at = start + offset(k, w);
                let ghost base = (8 * lvl) as nat;
                proof {
                    lemma_pow4_positive(below);
                    n.focus.lemma_span(lvl as nat, below, items, at);
                }
                let siblings = n.siblings;
                let ghost grew = n.focus;
                let focus = n.focus.insert_below(lvl, h - 1, target, item, Ghost(items), Ghost(at));
                let ghost changed = items.update(
                    items.len() - 1,
                    focus.focus_item().root(lvl as nat),
                );
                proof {
                    if 0 < k {
                        lemma_merkle_agree(items, changed, base, below, start);
                    }
                    if 1 < k {
                        lemma_merkle_agree(items, changed, base, below, start + w);
                    }
                    if 2 < k {
                        lemma_merkle_agree(items, changed, base, below, start + 2 * w);
                    }
                }
                let r = Focus::Node(Box::new(Node { siblings, focus }));
                assert(r.wf(lvl as nat, h as nat, changed, start));
                assert forall|i: nat|
                    i < reach(items.len() - 1 - start, lvl as nat) + landing_below(
                        self.focus_item(),
                        lvl as nat,
                        target as nat,
                    ) implies #[trigger] r.kept_at(lvl as nat, h as nat, i) == self.kept_at(
                    lvl as nat,
                    h as nat,
                    i,
                ) by {
                    let g = (8 * lvl + h - 1) as nat;
                    lemma_slot(lvl as nat, below, i, k, items.len() - 1 - at);
                    assert(g == 8 * lvl + below);
                    let which = quot(i, pow4(g)) as int;
                    let rest = rem(i, pow4(g));
                    if which == k {
                        assert(rest < reach(items.len() - 1 - at, lvl as nat) + landing_below(
                            grew.focus_item(),
                            lvl as nat,
                            target as nat,
                        ));
                        assert(focus.kept_at(lvl as nat, below, rest) == grew.kept_at(
                            lvl as nat,
                            below,
                            rest,
                        ));
                    }
                }
                r
            },
        }
    }
}

/// Two tiers hold the same items, and so do the growing tiers within them.
pub open(crate) spec fn same_items(a: Tier, b: Tier, lvl: nat) -> bool
    decreases lvl,
{
    &&& a.items@ == b.items@
    &&& (a.inner is Some) == (b.inner is Some)
    &&& (lvl > 0 ==> same_items(a.below(), b.below(), (lvl - 1) as nat))
}

/// Every tier holds the items that it holds.
pub(crate) proof fn lemma_same_items_refl(t: Tier, lvl: nat)
    ensures
        same_items(t, t, lvl),
    decreases lvl,
{
    if lvl > 0 {
        lemma_same_items_refl(t.below(), (lvl - 1) as nat);
    }
}

/// Two items of the tier `lvl` are both commitments, or tiers that hold the
/// same items.
pub open(crate) spec fn alike(a: Item, b: Item, lvl: nat) -> bool {
    match (a, b) {
        (Item::Tier(s), Item::Tier(t)) => lvl >= 1 && same_items(*s, *t, (lvl - 1) as nat),
        (Item::Commitment(_), Item::Commitment(_)) => true,
        _ => false,
    }
}

impl Item {
    /// The hash of the item and, where it is `wanted`, the authentication
    /// path of the commitment number `index` below the item, up to the item,
    /// with the commitment retained there.
    pub(crate) fn witness(&self, lvl: u8, width: u64, index: u64, wanted: bool) -> (r: (
        hash::Hash,
        Option<(Vec<Siblings>, Commitment)>,
    ))
        requires
            self.wf(lvl as nat),
            width == pow4((8 * lvl) as nat),
            index < width,
        ensures
            r.0@ == self.root(lvl as nat),
            !wanted ==> r.1 is None,
            wanted ==> match r.1 {
                Some((path, commitment)) => {
                    &&& self.kept_at(lvl as nat, index as nat) == Some(commitment@)
                    &&& path@.len() == 8 * lvl
                    &&& climb(path@, (8 * lvl) as nat, index as nat, leaf_hash(commitment@))
                        == self.root(lvl as nat)
                },
                None => self.kept_at(lvl as nat, index as nat) is None,
            },
        decreases self,
    {
        match self {
            Item::Commitment(Insert::Keep(l)) => {
                proof {
                    assert(pow4(0) == 1);
                }
                if wanted {
                    (l.hash, Some((Vec::new(), l.commitment)))
                } else {
                    (l.hash, None)
                }
            },
            Item::Commitment(Insert::Hash(h)) => (*h, None),
            Item::Tier(t) => t.witness(lvl - 1, width, index, wanted),
        }
    }

    /// Prunes the commitment number `index` below the item, if it is
    /// retained, and says whether it was.
    pub(crate) fn forget(self, lvl: u8, width: u64, index: u64) -> (r: (Item, bool))
        requires
            self.wf(lvl as nat),
            width == pow4((8 * lvl) as nat),
            index < width,
        ensures
            r.0.wf(lvl as nat),
            r.0.root(lvl as nat) == self.root(lvl as nat),
            alike(self, r.0, lvl as nat),
            r.1 == (self.kept_at(lvl as nat, index as nat) is Some),
            forall|j: nat| #[trigger]
                r.0.kept_at(lvl as nat, j) == if j == index {
                    None
                } else {
                    self.kept_at(lvl as nat, j)
                },
        decreases self,
    {
        match self {
            Item::Commitment(Insert::Keep(l)) => {
                proof {
                    assert(pow4(0) == 1);
                }
                (Item::Commitment(Insert::Hash(l.hash)), true)
            },
            Item::Commitment(Insert::Hash(h)) => (Item::Commitment(Insert::Hash(h)), false),
            Item::Tier(t) => {
                let t = *t;
                let (t, forgotten) = t.forget(lvl - 1, width, index);
                (Item::Tier(Box::new(t)), forgotten)
            },
        }
    }
}

impl Tier {
    /// The hash of the tier and, where it is `wanted`, the authentication
    /// path of the commitment number `index` below the tier, up to its root,
    /// with the commitment retained there.
    pub(crate) fn witness(&self, lvl: u8, width: u64, index: u64, wanted: bool) -> (r: (
        hash::Hash,
        Option<(Vec<Siblings>, Commitment)>,
    ))
        requires
            self.wf(lvl as nat),
            width == pow4((8 * lvl + 8) as nat),
            index < width,
        ensures
            r.0@ == self.root(lvl as nat),
            !wanted ==> r.1 is None,
            wanted ==> match r.1 {
                Some((path, commitment)) => {
                    &&& self.kept_at(lvl as nat, index as nat) == Some(commitment@)
                    &&& path@.len() == 8 * lvl + 8
                    &&& climb(path@, (8 * lvl + 8) as nat, index as nat, leaf_hash(commitment@))
                        == self.root(lvl as nat)
                },
                None => self.kept_at(lvl as nat, index as nat) is None,
            },
        decreases self,
    {
        match &self.inner {
            None => (hash::Hash::empty(lvl * 8 + 8), None),
            Some(f) => f.witness(lvl, 8, width, index, wanted, Ghost(self.items@), Ghost(0)),
        }
    }

    /// Prunes the commitment number `index` below the tier, if it is
    /// retained, and says whether it was. No hash and no item changes.
    pub(crate) fn forget(self, lvl: u8, width: u64, index: u64) -> (r: (Tier, bool))
        requires
            self.wf(lvl as nat),
            width == pow4((8 * lvl + 8) as nat),
            index < width,
        ensures
            r.0.wf(lvl as nat),
            same_items(self, r.0, lvl as nat),
            r.1 == (self.kept_at(lvl as nat, index as nat) is Some),
            forall|j: nat| #[trigger]
                r.0.kept_at(lvl as nat, j) == if j == index {
                    None
                } else {
                    self.kept_at(lvl as nat, j)
                },
        decreases self,
    {
        let ghost items = self.items@;
        match self.inner {
            None => (Tier { inner: None, items: Ghost(items) }, false),
            Some(f) => {
                proof {
                    f.lemma_span(lvl as nat, 8, items, 0);
                }
                let (f, forgotten) = f.forget(lvl, 8, width, index, Ghost(items), Ghost(0));
                (Tier { inner: Some(f), items: Ghost(items) }, forgotten)
            },
        }
    }
}

impl Focus {
    /// The hash of the frontier below this node and, where it is `wanted`,
    /// the authentication path of the commitment number `index` below this
    /// node, up to this node, with the commitment retained there.
    pub(crate) fn witness(
        &self,
        lvl: u8,
        h: u8,
        width: u64,
        index: u64,
        wanted: bool,
        Ghost(items): Ghost<Seq<Seq<u8>>>,
        Ghost(start): Ghost<int>,
    ) -> (r: (hash::Hash, Option<(Vec<Siblings>, Commitment)>))
        requires
            self.wf(lvl as nat, h as nat, items, start),
            lvl <= 2,
            width == pow4((8 * lvl + h) as nat),
            index < width,
        ensures
            r.0@ == merkle(items, (8 * lvl) as nat, h as nat, start),
            !wanted ==> r.1 is None,
            wanted ==> match r.1 {
                Some((path, commitment)) => {
                    &&& self.kept_at(lvl as nat, h as nat, index as nat) == Some(commitment@)
                    &&& path@.len() == 8 * lvl + h
                    &&& climb(path@, (8 * lvl + h) as nat, index as nat, leaf_hash(commitment@))
                        == merkle(items, (8 * lvl) as nat, h as nat, start)
                },
                None => self.kept_at(lvl as nat, h as nat, index as nat) is None,
            },
        decreases self,
    {
        match self {
            Focus::Leaf(l) => {
                assert(merkle(items, (8 * lvl) as nat, 0, start) == items[start]);
                let r = l.item.witness(lvl, width, index, wanted);
                assert(self.kept_at(lvl as nat, h as nat, index as nat) == l.item.kept_at(
                    lvl as nat,
                    index as nat,
                ));
                r
            },
            Focus::Node(n) => {
                let ghost below = (h - 1) as nat;
                let ghost g = (8 * lvl + h - 1) as nat;
                let ghost ws = pow4(below) as int;
                let k = n.siblings.len() as u64;
                let ghost at = start + offset(k as int, ws);
                let w = width / 4;
                let which = index / w;
                let rest = index % w;
                proof {
                    lemma_pow4_positive(g);
                    lemma_pow4_positive(below);
                    lemma_fundamental_div_mod(index as int, w as int);
                    self.lemma_span(lvl as nat, h as nat, items, start);
                    n.focus.lemma_span(lvl as nat, below, items, at);
                }
                assert(which < 4) by (nonlinear_arith)
                    requires
                        index < 4 * w,
                        which == index / w,
                        w > 0,
                ;
                let pad = hash::Hash::empty(lvl * 8 + h - 1);
                let (grown, in_focus) = n.focus.witness(
                    lvl,
                    h - 1,
                    w,
                    rest,
                    wanted && which == k,
                    Ghost(items),
                    Ghost(at),
                );
                let a = if k > 0 {
                    n.siblings[0].hash()
                } else {
                    grown
                };
                let b = if k > 1 {
                    n.siblings[1].hash()
                } else if k == 1 {
                    grown
                } else {
                    pad
                };
                let c = if k > 2 {
                    n.siblings[2].hash()
                } else if k == 2 {
                    grown
                } else {
                    pad
                };
                let d = if k == 3 {
                    grown
                } else {
                    pad
                };
                let whole = hash::Hash::node(lvl * 8 + h, &a, &b, &c, &d);
                proof {
                    let base = (8 * lvl) as nat;
                    assert(a@ == merkle(items, base, below, start));
                    assert(b@ == merkle(items, base, below, start + ws));
                    assert(c@ == merkle(items, base, below, start + 2 * ws));
                    assert(d@ == merkle(items, base, below, start + 3 * ws));
                    assert(whole@ == merkle(items, base, h as nat, start));
                }
                let found = if !wanted {
                    None
                } else if which < k {
                    n.siblings[which as usize].witness(lvl * 8 + h - 1, w, rest)
                } else if which == k {
                    in_focus
                } else {
                    None
                };
                match found {
                    None => (whole, None),
                    Some((mut path, commitment)) => {
                        let ghost lower = path@;
                        let siblings = Siblings::around(which, a, b, c, d);
                        path.push(siblings);
                        proof {
                            let leaf = leaf_hash(commitment@);
                            lemma_climb_prefix(lower, path@, g, rest as nat, leaf);
                            let up = climb(lower, g, rest as nat, leaf);
                            assert(up == merkle(
                                items,
                                (8 * lvl) as nat,
                                below,
                                start + offset(which as int, ws),
                            ));
                            assert(place((g + 1) as nat, which as nat, up, siblings) == node_hash(
                                (g + 1) as nat,
                                a@,
                                b@,
                                c@,
                                d@,
                            ));
                            assert(path@[g as int] == siblings);
                        }
                        (whole, Some((path, commitment)))
                    },
                }
            },
        }
    }

    /// Prunes the commitment number `index` below this node, if it is
    /// retained, and says whether it was. No hash and no item changes.
    #[verifier::rlimit(60)]
    pub(crate) fn forget(
        self,
        lvl: u8,
        h: u8,
        width: u64,
        index: u64,
        Ghost(items): Ghost<Seq<Seq<u8>>>,
        Ghost(start): Ghost<int>,
    ) -> (r: (Focus, bool))
        requires
            self.wf(lvl as nat, h as nat, items, start),
            lvl <= 2,
            width == pow4((8 * lvl + h) as nat),
            index < width,
        ensures
            r.0.wf(lvl as nat, h as nat, items, start),
            alike(self.focus_item(), r.0.focus_item(), lvl as nat),
            r.1 == (self.kept_at(lvl as nat, h as nat, index as nat) is Some),
            forall|j: nat| #[trigger]
                r.0.kept_at(lvl as nat, h as nat, j) == if j == index {
                    None
                } else {
                    self.kept_at(lvl as nat, h as nat, j)
                },
        decreases self,
    {
        match self {
            Focus::Leaf(l) => {
                let ghost item = l.item;
                let (changed, forgotten) = l.item.forget(lvl, width, index);
                let r = Focus::Leaf(Leaf { item: changed });
                assert forall|j: nat| #[trigger]
                    r.kept_at(lvl as nat, h as nat, j) == if j == index {
                        None
                    } else {
                        self.kept_at(lvl as nat, h as nat, j)
                    } by {
                    assert(r.kept_at(lvl as nat, h as nat, j) == changed.kept_at(lvl as nat, j));
                    assert(self.kept_at(lvl as nat, h as nat, j) == item.kept_at(lvl as nat, j));
                }
                assert(self.kept_at(lvl as nat, h as nat, index as nat) == item.kept_at(
                    lvl as nat,
                    index as nat,
                ));
                (r, forgotten)
            },
            Focus::Node(n) => {
                let n = *n;
                let ghost below = (h - 1) as nat;
                let ghost g = (8 * lvl + h - 1) as nat;
                let ghost ws = pow4(below) as int;
                let ghost before = n.siblings@;
                let ghost grew = n.focus;
                let k = n.siblings.len() as u64;
                let ghost at = start + offset(k as int, ws);
                let w = width / 4;
                let which = index / w;
                let rest = index % w;
                proof {
                    lemma_pow4_positive(g);
                    lemma_fundamental_div_mod(index as int, w as int);
                    n.focus.lemma_span(lvl as nat, below, items, at);
                    match n.focus.focus_item() {
                        Item::Tier(t) => lemma_same_items_refl(*t, (lvl - 1) as nat),
                        Item::Commitment(_) => {},
                    }
                }
                if which < k {
                    let mut siblings = n.siblings;
                    let sibling = siblings.remove(which as usize);
                    let (sibling, forgotten) = sibling.forget(lvl * 8 + h - 1, w, rest);
                    siblings.insert(which as usize, sibling);
                    let ghost after = siblings@;
                    assert(after =~= before.update(which as int, sibling));
                    assert forall|j: int| 0 <= j < k && j != which implies after[j]
                        == before[j] by {}
                    assert(after.len() == k);
                    assert(after[which as int] == sibling);
                    let r = Focus::Node(Box::new(Node { siblings, focus: n.focus }));
                    assert(r.focus_item() == self.focus_item());
                    assert(r.wf(lvl as nat, h as nat, items, start)) by {
                        if 0 < k && which != 0 {
                            assert(after[0] == before[0]);
                        }
                        if 1 < k && which != 1 {
                            assert(after[1] == before[1]);
                        }
                        if 2 < k && which != 2 {
                            assert(after[2] == before[2]);
                        }
                    }
                    assert forall|j: nat| #[trigger]
                        r.kept_at(lvl as nat, h as nat, j) == if j == index {
                            None
                        } else {
                            self.kept_at(lvl as nat, h as nat, j)
                        } by {
                        let slot = quot(j, w as nat) as int;
                        if slot == which && j != index {
                            if rem(j, w as nat) == rest {
                                lemma_same_slot(j, index as nat, w as nat);
                            }
                        } else if 0 <= slot < k && slot != which {
                            assert(after[slot] == before[slot]);
                        }
                    }
                    (r, forgotten)
                } else if which == k {
                    let (focus, forgotten) = n.focus.forget(
                        lvl,
                        h - 1,
                        w,
                        rest,
                        Ghost(items),
                        Ghost(at),
                    );
                    let r = Focus::Node(Box::new(Node { siblings: n.siblings, focus }));
                    assert forall|j: nat| #[trigger]
                        r.kept_at(lvl as nat, h as nat, j) == if j == index {
                            None
                        } else {
                            self.kept_at(lvl as nat, h as nat, j)
                        } by {
                        let slot = quot(j, w as nat) as int;
                        if slot == which {
                            assert(focus.kept_at(lvl as nat, below, rem(j, w as nat)) == if rem(
                                j,
                                w as nat,
                            ) == rest {
                                None
                            } else {
                                grew.kept_at(lvl as nat, below, rem(j, w as nat))
                            });
                            if j != index && rem(j, w as nat) == rest {
                                lemma_same_slot(j, index as nat, w as nat);
                            }
                        }
                    }
                    (r, forgotten)
                } else {
                    let r = Focus::Node(Box::new(n));
                    assert(r.focus_item() == self.focus_item());
                    (r, false)
                }
            },
        }
    }

    /// The commitments below the item in the leaf are, counted from the start
    /// of this node, those behind all the items before it.
    pub(crate) proof fn lemma_reach(
        &self,
        lvl: nat,
        h: nat,
        items: Seq<Seq<u8>>,
        start: int,
        j: nat,
    )
        requires
            self.wf(lvl, h, items, start),
            lvl <= 2,
            j < pow4(8 * lvl),
        ensures
            self.kept_at(lvl, h, ((items.len() - 1 - start) * pow4(8 * lvl) + j) as nat)
                == self.focus_item().kept_at(lvl, j),
        decreases self,
    {
        match self {
            Focus::Leaf(l) => {
                let d = items.len() - 1 - start;
                let unit = pow4(8 * lvl) as int;
                assert(d * unit + j == j) by (nonlinear_arith)
                    requires
                        d == 0,
                ;
            },
            Focus::Node(n) => {
                let below = (h - 1) as nat;
                let w = pow4(below) as int;
                let k = n.siblings@.len() as int;
                let at = start + offset(k, w);
                let unit = pow4(8 * lvl) as int;
                let g = (8 * lvl + h - 1) as nat;
                let width = pow4(g) as int;
                let d = items.len() - 1 - start;
                let e = items.len() - 1 - at;
                lemma_pow4_positive(below);
                lemma_pow4_positive(8 * lvl);
                lemma_pow4_split(lvl, below);
                n.focus.lemma_span(lvl, below, items, at);
                n.focus.lemma_reach(lvl, below, items, at, j);
                assert(offset(k, w) == k * w) by {
                    if k == 0 {
                    } else if k == 1 {
                    } else if k == 2 {
                    } else {
                    }
                }
                assert(width == w * unit) by {
                    assert(8 * lvl + below == g);
                    assert(pow4(8 * lvl) * pow4(below) == pow4(below) * pow4(8 * lvl))
                        by (nonlinear_arith);
                }
                lemma_reach_arith(d, k, w, e, unit, j as int, width);
                lemma_fundamental_div_mod_converse(d * unit + j, width, k, e * unit + j);
            },
        }
    }
}

impl Focus {
    /// Whether no further item fits below this node: whether each node on
    /// the way down to the leaf has three finalized children.
    pub(crate) fn is_full(&self) -> (full: bool)
        ensures
            full == self.full(),
        decreases self,
    {
        match self {
            Focus::Leaf(_) => true,
            Focus::Node(n) => n.siblings.len() == 3 && n.focus.is_full(),
        }
    }

    /// The item in the leaf.
    pub(crate) fn focus_item_ref(&self) -> (r: &Item)
        ensures
            *r == self.focus_item(),
        decreases self,
    {
        match self {
            Focus::Leaf(l) => &l.item,
            Focus::Node(n) => n.focus.focus_item_ref(),
        }
    }
}

impl Tier {
    /// The tier that holds one item and nothing else.
    pub(crate) fn holding(item: Item, lvl: u8) -> (r: Tier)
        requires
            item.wf(lvl as nat),
            lvl <= 2,
        ensures
            r.wf(lvl as nat),
            r.items@ == seq![item.root(lvl as nat)],
            r.inner is Some,
            r.inner.unwrap().focus_item() == item,
    {
        let ghost items = seq![item.root(lvl as nat)];
        let f = Focus::new(item, lvl, 8, Ghost(items), Ghost(0));
        Tier { inner: Some(f), items: Ghost(items) }
    }

    /// Whether the tier holds as many items as fit.
    pub(crate) fn is_full(&self, Ghost(lvl): Ghost<nat>) -> (full: bool)
        requires
            self.wf(lvl),
        ensures
            full == (self.items@.len() == 65536),
    {
        match &self.inner {
            None => false,
            Some(f) => {
                proof {
                    lemma_pow4_values();
                    f.lemma_span(lvl, 8, self.items@, 0);
                }
                f.is_full()
            },
        }
    }

    /// The tier below that is still growing.
    pub(crate) fn below_ref(&self, Ghost(lvl): Ghost<nat>) -> (r: &Tier)
        requires
            self.wf(lvl),
            lvl >= 1,
        ensures
            *r == self.below(),
            r.wf((lvl - 1) as nat),
            self.inner is Some,
            self.inner.unwrap().focus_item() == Item::Tier(Box::new(*r)),
            self.items@.len() >= 1,
            self.items@[self.items@.len() - 1] == r.root((lvl - 1) as nat),
    {
        match &self.inner {
            Some(f) => {
                proof {
                    f.lemma_span(lvl, 8, self.items@, 0);
                }
                match f.focus_item_ref() {
                    Item::Tier(t) => t,
                    Item::Commitment(_) => vstd::pervasive::unreached(),
                }
            },
            None => vstd::pervasive::unreached(),
        }
    }
}

impl Item {
    /// The item for a commitment that is to be witnessed.
    pub fn keep(commitment: Commitment) -> (item: Item)
        ensures
            item.wf(0),
            item.root(0) == leaf_hash(commitment@),
            item.kept_at(0, 0) == Some(commitment@),
    {
        Item::Commitment(Insert::Keep(complete::Leaf::new(commitment)))
    }

    /// The item for a commitment of which only the hash is kept.
    pub fn forgotten(commitment: Commitment) -> (item: Item)
        ensures
            item.wf(0),
            item.root(0) == leaf_hash(commitment@),
            item.kept_at(0, 0) is None,
    {
        Item::Commitment(Insert::Hash(hash::Hash::of(&commitment)))
    }
}

impl<T> Leaf<T> {
    /// The item that the leaf holds.
    pub open(crate) spec fn item_spec(&self) -> T {
        self.item
    }

    /// The leaf that holds an item.
    pub fn new(item: T) -> (leaf: Leaf<T>)
        ensures
            leaf.item_spec() == item,
    {
        Leaf { item }
    }

    /// The item of the leaf. A leaf always has one.
    pub fn focus(&self) -> (item: Option<&T>)
        ensures
            item == Some(&self.item_spec()),
    {
        Some(&self.item)
    }

    /// Puts another item in the place of the one that the leaf holds, and
    /// returns the one that it held.
    pub fn update(&mut self, item: T) -> (before: Option<T>)
        ensures
            final(self).item_spec() == item,
            before == Some(old(self).item_spec()),
    {
        let mut item = item;
        core::mem::swap(&mut self.item, &mut item);
        Some(item)
    }

    /// A leaf is always full: it holds one item and cannot take another.
    pub fn is_full(&self) -> (full: bool)
        ensures
            full,
    {
        true
    }

    /// Gives the item up.
    pub fn into_item(self) -> (item: T)
        ensures
            item == self.item_spec(),
    {
        self.item
    }
}

impl Leaf<Item> {
    /// The hash of the leaf: that of its item.
    pub fn hash(&self, lvl: u8) -> (r: hash::Hash)
        requires
            self.item_spec().wf(lvl as nat),
        ensures
            r@ == self.item_spec().root(lvl as nat),
    {
        self.item.hash(lvl)
    }

    /// The finalized form of the leaf: that of its item.
    pub fn finalize_owned(self, lvl: u8) -> (r: Insert<Complete>)
        requires
            self.item_spec().wf(lvl as nat),
            lvl <= 2,
        ensures
            r.wf((8 * lvl) as nat),
            r.hash_spec() == self.item_spec().root(lvl as nat),
            forall|i: nat| #[trigger]
                r.kept_at((8 * lvl) as nat, i) == self.item_spec().kept_at(lvl as nat, i),
    {
        self.item.finalize(lvl)
    }

    /// Insertion into a leaf always fails: the item comes back, together with
    /// the finalized form of the leaf, for the node above to open a new leaf.
    pub fn insert_owned(self, item: Item, lvl: u8) -> (r: Result<Leaf<Item>, Full>)
        requires
            self.item_spec().wf(lvl as nat),
            lvl <= 2,
        ensures
            r matches Err(full) && {
                &&& full.item == item
                &&& full.complete.wf((8 * lvl) as nat)
                &&& full.complete.hash_spec() == self.item_spec().root(lvl as nat)
                &&& forall|i: nat| #[trigger]
                    full.complete.kept_at((8 * lvl) as nat, i) == self.item_spec().kept_at(
                        lvl as nat,
                        i,
                    )
            },
    {
        Err(Full { item, complete: self.finalize_owned(lvl) })
    }

    /// The authentication path of the commitment number `index` below the
    /// leaf, up to the leaf, with the commitment retained there.
    pub fn witness(&self, lvl: u8, index: u64) -> (found: Option<(Vec<Siblings>, Commitment)>)
        requires
            self.item_spec().wf(lvl as nat),
            lvl <= 2,
            index < pow4((8 * lvl) as nat),
        ensures
            match found {
                Some((path, commitment)) => {
                    &&& self.item_spec().kept_at(lvl as nat, index as nat) == Some(commitment@)
                    &&& path@.len() == 8 * lvl
                    &&& climb(path@, (8 * lvl) as nat, index as nat, leaf_hash(commitment@))
                        == self.item_spec().root(lvl as nat)
                },
                None => self.item_spec().kept_at(lvl as nat, index as nat) is None,
            },
    {
        proof {
            lemma_pow4_values();
        }
        let width: u64 = if lvl == 0 {
            1
        } else if lvl == 1 {
            65536
        } else {
            4294967296
        };
        self.item.witness(lvl, width, index, true).1
    }

    /// Prunes the commitment number `index` below the leaf, if it is
    /// retained, and says whether it was. The hash of the leaf stays.
    pub fn forget(self, lvl: u8, index: u64) -> (r: (Leaf<Item>, bool))
        requires
            self.item_spec().wf(lvl as nat),
            lvl <= 2,
            index < pow4((8 * lvl) as nat),
        ensures
            r.0.item_spec().wf(lvl as nat),
            r.0.item_spec().root(lvl as nat) == self.item_spec().root(lvl as nat),
            r.1 == (self.item_spec().kept_at(lvl as nat, index as nat) is Some),
            forall|j: nat| #[trigger]
                r.0.item_spec().kept_at(lvl as nat, j) == if j == index {
                    None
                } else {
                    self.item_spec().kept_at(lvl as nat, j)
                },
    {
        proof {
            lemma_pow4_values();
        }
        let width: u64 = if lvl == 0 {
            1
        } else if lvl == 1 {
            65536
        } else {
            4294967296
        };
        let (item, forgotten) = self.item.forget(lvl, width, index);
        (Leaf { item }, forgotten)
    }
}

impl Focus {
    /// Nothing is retained behind the end of the item in the leaf.
    pub(crate) proof fn lemma_end(
        &self,
        lvl: nat,
        h: nat,
        items: Seq<Seq<u8>>,
        start: int,
        i: nat,
    )
        requires
            self.wf(lvl, h, items, start),
            lvl <= 2,
            i >= reach(items.len() - 1 - start, lvl) + item_end(self.focus_item(), lvl),
        ensures
            self.kept_at(lvl, h, i) is None,
        decreases self,
    {
        match self {
            Focus::Leaf(l) => {
                match l.item {
                    Item::Commitment(_) => {},
                    Item::Tier(t) => {
                        match t.inner {
                            None => {},
                            Some(f) => {
                                f.lemma_end((lvl - 1) as nat, 8, t.items@, 0, i);
                            },
                        }
                    },
                }
            },
            Focus::Node(n) => {
                let below = (h - 1) as nat;
                let w = pow4(below) as int;
                let k = n.siblings@.len() as int;
                let at = start + offset(k, w);
                let g = (8 * lvl + h - 1) as nat;
                lemma_pow4_positive(below);
                n.focus.lemma_span(lvl, below, items, at);
                lemma_slot(lvl, below, i, k, items.len() - 1 - at);
                assert(g == 8 * lvl + below);
                let which = quot(i, pow4(g)) as int;
                let rest = rem(i, pow4(g));
                if which == k {
                    n.focus.lemma_end(lvl, below, items, at, rest);
                }
            },
        }
    }
}

impl Tier {
    /// Nothing is retained behind the end of the tier.
    pub(crate) proof fn lemma_end(&self, lvl: nat, i: nat)
        requires
            self.wf(lvl),
            i >= tier_end(*self, lvl),
        ensures
            self.kept_at(lvl, i) is None,
    {
        match self.inner {
            None => {},
            Some(f) => {
                f.lemma_end(lvl, 8, self.items@, 0, i);
            },
        }
    }
}

} // verus!
