//! Powers of four, and the hash of a quaternary Merkle tree over a sequence of
//! item hashes.

use vstd::arithmetic::div_mod::lemma_fundamental_div_mod;
use vstd::prelude::*;
use crate::tct::hash::{empty_hash, node_hash};

verus! {

/// Branching factor of every node.
pub const ARITY: usize = 4;

/// Height of one tier.
pub const TIER_HEIGHT: u8 = 8;

/// Number of items that one tier holds: `4^8`. A block holds so many
/// commitments, an epoch so many blocks, the tree so many epochs.
pub const TIER_CAPACITY: u64 = 65536;

/// Height of the whole tree: three tiers.
pub const TREE_HEIGHT: u8 = 24;

/// Number of places for commitments in the whole tree: `4^24`.
pub const TREE_CAPACITY: u64 = 281474976710656;

/// `4^n`: the number of leaves below a node of height `n`.
pub open spec fn pow4(n: nat) -> nat
    decreases n,
{
    if n == 0 {
        1
    } else {
        4 * pow4((n - 1) as nat)
    }
}

/// The child of a node that holds item number `index`, when each child holds
/// `width` items.
pub open spec fn quot(index: nat, width: nat) -> nat {
    index / width
}

/// The number of item number `index` within the child that holds it, when
/// each child holds `width` items.
pub open spec fn rem(index: nat, width: nat) -> nat {
    index % width
}

pub proof fn lemma_pow4_positive(n: nat)
    ensures
        pow4(n) >= 1,
    decreases n,
{
    if n > 0 {
        lemma_pow4_positive((n - 1) as nat);
    }
}

/// Eight more levels multiply the width by `65536`.
pub proof fn lemma_pow4_tier(n: nat)
    ensures
        pow4(n + 8) == 65536 * pow4(n),
    decreases n,
{
    if n == 0 {
        reveal_with_fuel(pow4, 9);
    } else {
        lemma_pow4_tier((n - 1) as nat);
    }
}

/// The widths at the borders of the tiers.
pub proof fn lemma_pow4_values()
    ensures
        pow4(0) == 1,
        pow4(8) == 65536,
        pow4(16) == 4294967296,
        pow4(24) == 281474976710656,
        pow4(TIER_HEIGHT as nat) == TIER_CAPACITY,
        pow4(TREE_HEIGHT as nat) == TREE_CAPACITY,
{
    lemma_pow4_tier(0);
    lemma_pow4_tier(8);
    lemma_pow4_tier(16);
}

/// The width of a node that lies `n` levels above the items of the tier `lvl`
/// is the width of the tier's items times `4^n`.
pub proof fn lemma_pow4_split(lvl: nat, n: nat)
    requires
        lvl <= 2,
    ensures
        pow4(8 * lvl + n) == pow4(8 * lvl) * pow4(n),
{
    lemma_pow4_values();
    lemma_pow4_tier(n);
    lemma_pow4_tier(n + 8);
    let p = pow4(n);
    let unit = pow4(8 * lvl);
    if lvl == 0 {
        assert(8 * lvl + n == n);
        assert(unit == 1);
        assert(unit * p == p) by (nonlinear_arith)
            requires
                unit == 1,
        ;
    } else if lvl == 1 {
        assert(8 * lvl + n == n + 8);
        assert(unit == 65536);
        assert(unit * p == 65536 * p) by (nonlinear_arith)
            requires
                unit == 65536,
        ;
    } else {
        assert(8 * lvl + n == n + 8 + 8);
        assert(8 * lvl == 16);
        assert(unit == 4294967296);
        assert(pow4(n + 8 + 8) == 65536 * (65536 * p));
        assert(unit * p == 4294967296 * p) by (nonlinear_arith)
            requires
                unit == 4294967296,
        ;
    }
}

/// The item number `e * unit + j` of the child number `k` is the item number
/// `d * unit + j` of its node, when the child is the `e`-th of width `w`
/// counted in units.
pub proof fn lemma_reach_arith(d: int, k: int, w: int, e: int, unit: int, j: int, width: int)
    by (nonlinear_arith)
    requires
        0 <= k <= 3,
        w > 0,
        unit > 0,
        0 <= e < w,
        d == k * w + e,
        0 <= j < unit,
        width == w * unit,
    ensures
        d * unit + j == k * width + (e * unit + j),
        0 <= e * unit + j < width,
{
}

/// Where the child number `which` of a node starts, counted in items from the
/// start of the node, when each child holds `width` items.
pub open spec fn offset(which: int, width: int) -> int {
    if which <= 0 {
        0
    } else if which == 1 {
        width
    } else if which == 2 {
        2 * width
    } else {
        3 * width
    }
}

/// The number of places for commitments that `count` items of the tier `lvl`
/// take.
pub open spec fn reach(count: int, lvl: nat) -> nat {
    if count <= 0 {
        0
    } else {
        (count * pow4(8 * lvl)) as nat
    }
}

/// What items take in each of the three tiers.
pub proof fn lemma_reach_values(count: int)
    requires
        0 <= count,
    ensures
        reach(count, 0) == count,
        reach(count, 1) == count * 65536,
        reach(count, 2) == count * 4294967296,
{
    lemma_pow4_values();
    assert(count * pow4(0) == count) by (nonlinear_arith)
        requires
            pow4(0) == 1,
    ;
    assert(count * pow4(8) == count * 65536) by (nonlinear_arith)
        requires
            pow4(8) == 65536,
    ;
    assert(count * pow4(16) == count * 4294967296) by (nonlinear_arith)
        requires
            pow4(16) == 4294967296,
    ;
    assert(8 * 1nat == 8 && 8 * 2nat == 16 && 8 * 0nat == 0);
}

/// How the number `i` of a place below a node splits into the child that
/// holds the place and the number of the place within that child, when the
/// node lies `below + 1` levels above the items of the tier `lvl` and has `k`
/// children before the growing one, which holds `inner` items.
pub proof fn lemma_slot(lvl: nat, below: nat, i: nat, k: int, inner: int)
    requires
        lvl <= 2,
        0 <= k <= 3,
        0 <= inner,
    ensures
        ({
            let big = pow4(8 * lvl + below);
            let w = pow4(below) as int;
            let which = quot(i, big) as int;
            let rest = rem(i, big) as int;
            &&& big > 0
            &&& 0 <= which
            &&& 0 <= rest < big
            &&& reach(offset(k, w) + inner, lvl) == k * big + reach(inner, lvl)
            &&& reach(w, lvl) == big
            &&& (which < k ==> i < k * big)
            &&& (which > k ==> i >= k * big + big)
            &&& (which == k ==> i == k * big + rest)
        }),
{
    let big = pow4(8 * lvl + below) as int;
    let unit = pow4(8 * lvl) as int;
    let w = pow4(below) as int;
    lemma_pow4_positive(8 * lvl + below);
    lemma_pow4_positive(8 * lvl);
    lemma_pow4_positive(below);
    lemma_pow4_split(lvl, below);
    lemma_fundamental_div_mod(i as int, big);
    let which = (i as int) / big;
    let rest = (i as int) % big;
    assert(big == unit * w);
    assert(offset(k, w) == k * w) by {
        if k == 0 {
        } else if k == 1 {
        } else if k == 2 {
        } else {
        }
    }
    assert(0 <= which) by (nonlinear_arith)
        requires
            i >= 0,
            big > 0,
            which == (i as int) / big,
    ;
    assert((k * w + inner) * unit == k * big + inner * unit) by (nonlinear_arith)
        requires
            big == unit * w,
    ;
    assert(w * unit == big) by (nonlinear_arith)
        requires
            big == unit * w,
    ;
    assert(k * w + inner >= 0 && inner * unit >= 0 && k * big >= 0) by (nonlinear_arith)
        requires
            0 <= k,
            0 <= inner,
            w > 0,
            unit > 0,
            big > 0,
    ;
    if which < k {
        assert(big * which + rest < k * big) by (nonlinear_arith)
            requires
                which + 1 <= k,
                0 <= rest < big,
        ;
    }
    if which > k {
        assert(big * which + rest >= k * big + big) by (nonlinear_arith)
            requires
                which >= k + 1,
                0 <= rest,
                big > 0,
        ;
    }
    if which == k {
        assert(big * which == k * big) by (nonlinear_arith)
            requires
                which == k,
        ;
    }
}

/// The hash of the subtree of `height` whose leftmost item is `items[start]`,
/// in a tier whose items sit at height `base` of the whole tree. A subtree
/// that starts behind the last item holds nothing and has the empty hash; a
/// subtree of height 0 is an item; any other node hashes its four children.
pub open spec fn merkle(items: Seq<Seq<u8>>, base: nat, height: nat, start: int) -> Seq<u8>
    decreases height,
{
    if start >= items.len() {
        empty_hash(base + height)
    } else if height == 0 {
        items[start]
    } else {
        let below = (height - 1) as nat;
        let w = pow4(below) as int;
        node_hash(
            base + height,
            merkle(items, base, below, start),
            merkle(items, base, below, start + w),
            merkle(items, base, below, start + 2 * w),
            merkle(items, base, below, start + 3 * w),
        )
    }
}

/// The hash of a subtree depends only on the items below it: two sequences
/// that both cover the subtree and agree on it give the same hash.
pub proof fn lemma_merkle_agree(
    a: Seq<Seq<u8>>,
    b: Seq<Seq<u8>>,
    base: nat,
    height: nat,
    start: int,
)
    requires
        0 <= start,
        start + pow4(height) <= a.len(),
        start + pow4(height) <= b.len(),
        forall|j: int| start <= j < start + pow4(height) ==> a[j] == b[j],
    ensures
        merkle(a, base, height, start) == merkle(b, base, height, start),
    decreases height,
{
    lemma_pow4_positive(height);
    if height > 0 {
        let below = (height - 1) as nat;
        let w = pow4(below) as int;
        lemma_pow4_positive(below);
        lemma_merkle_agree(a, b, base, below, start);
        lemma_merkle_agree(a, b, base, below, start + w);
        lemma_merkle_agree(a, b, base, below, start + 2 * w);
        lemma_merkle_agree(a, b, base, below, start + 3 * w);
    }
}

} // verus!
