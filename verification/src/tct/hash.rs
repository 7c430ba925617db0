//! Hashes and commitments, and the Poseidon calls that produce the hashes.

use vstd::prelude::*;

verus! {

/// Separates the hashes of this tree from other uses of the hash function.
/// The height of a node is added to it, so that no two heights share a domain.
pub const DOMAIN_SEPARATOR: u64 = 0x7463_7400_0000_0000;

/// What `poseidon377::hash_1` returns for the field elements that stand for
/// `domain` and the little-endian bytes `value`, as little-endian bytes.
pub uninterp spec fn poseidon_hash_1(domain: u64, value: Seq<u8>) -> Seq<u8>;

/// What `poseidon377::hash_4` returns for the field elements that stand for
/// `domain` and the little-endian bytes `a`, `b`, `c`, `d`, as little-endian
/// bytes.
pub uninterp spec fn poseidon_hash_4(
    domain: u64,
    a: Seq<u8>,
    b: Seq<u8>,
    c: Seq<u8>,
    d: Seq<u8>,
) -> Seq<u8>;

/// Calls `poseidon377::hash_1`. The domain becomes a field element by
/// `Fq::from`, the value by `Fq::from_le_bytes_mod_order`; the digest comes
/// back through `Fq::to_bytes`. Trusted: the result is the one function of the
/// arguments that `poseidon_hash_1` names.
#[verifier::external_body]
fn hash_1(domain: u64, value: &[u8; 32]) -> (digest: [u8; 32])
    ensures
        digest@ == poseidon_hash_1(domain, value@),
{
    let value = decaf377::Fq::from_le_bytes_mod_order(value);
    poseidon377::hash_1(&decaf377::Fq::from(domain), value).to_bytes()
}

/// Calls `poseidon377::hash_4`, converting as `hash_1` does. Trusted: the
/// result is the one function of the arguments that `poseidon_hash_4` names.
#[verifier::external_body]
fn hash_4(domain: u64, a: &[u8; 32], b: &[u8; 32], c: &[u8; 32], d: &[u8; 32]) -> (digest: [
    u8;
    32
])
    ensures
        digest@ == poseidon_hash_4(domain, a@, b@, c@, d@),
{
    let a = decaf377::Fq::from_le_bytes_mod_order(a);
    let b = decaf377::Fq::from_le_bytes_mod_order(b);
    let c = decaf377::Fq::from_le_bytes_mod_order(c);
    let d = decaf377::Fq::from_le_bytes_mod_order(d);
    poseidon377::hash_4(&decaf377::Fq::from(domain), (a, b, c, d)).to_bytes()
}

/// The hash of a commitment: the leaf hash of the tree.
pub open spec fn leaf_hash(commitment: Seq<u8>) -> Seq<u8> {
    poseidon_hash_1(DOMAIN_SEPARATOR, commitment)
}

/// The hash of a node at `height` (at least 1) over the hashes of its four
/// children, in order.
pub open spec fn node_hash(height: nat, a: Seq<u8>, b: Seq<u8>, c: Seq<u8>, d: Seq<u8>) -> Seq<
    u8,
> {
    poseidon_hash_4((DOMAIN_SEPARATOR + height) as u64, a, b, c, d)
}

/// The hash that stands for a subtree of `height` that holds nothing.
pub open spec fn empty_hash(height: nat) -> Seq<u8> {
    Seq::new(32, |i: int| if i == 0 { height as u8 } else { 0u8 })
}

/// A commitment: an opaque 32-byte scalar.
#[derive(Clone, Copy, Debug)]
pub struct Commitment {
    pub bytes: [u8; 32],
}

impl View for Commitment {
    type V = Seq<u8>;

    open spec fn view(&self) -> Seq<u8> {
        self.bytes@
    }
}

/// The hash of a leaf or of a node: 32 bytes.
#[derive(Clone, Copy, Debug)]
pub struct Hash {
    bytes: [u8; 32],
}

impl View for Hash {
    type V = Seq<u8>;

    closed spec fn view(&self) -> Seq<u8> {
        self.bytes@
    }
}

/// Whether two byte strings of 32 bytes are the same.
fn bytes_eq(a: &[u8; 32], b: &[u8; 32]) -> (same: bool)
    ensures
        same == (a@ == b@),
{
    let mut i: usize = 0;
    while i < 32
        invariant
            i <= 32,
            forall|j: int| 0 <= j < i ==> a@[j] == b@[j],
        decreases 32 - i,
    {
        if a[i] != b[i] {
            return false;
        }
        i += 1;
    }
    assert(a@ =~= b@);
    true
}

impl PartialEq for Commitment {
    fn eq(&self, other: &Commitment) -> (same: bool) {
        bytes_eq(&self.bytes, &other.bytes)
    }
}

impl vstd::std_specs::cmp::PartialEqSpecImpl for Commitment {
    open spec fn obeys_eq_spec() -> bool {
        true
    }

    open spec fn eq_spec(&self, other: &Commitment) -> bool {
        self@ == other@
    }
}

impl Eq for Commitment {

}

impl PartialEq for Hash {
    fn eq(&self, other: &Hash) -> (same: bool) {
        bytes_eq(&self.bytes, &other.bytes)
    }
}

impl vstd::std_specs::cmp::PartialEqSpecImpl for Hash {
    open spec fn obeys_eq_spec() -> bool {
        true
    }

    open spec fn eq_spec(&self, other: &Hash) -> bool {
        self@ == other@
    }
}

impl Eq for Hash {

}

impl Commitment {
    /// Whether two commitments are the same scalar.
    pub fn same(&self, other: &Commitment) -> (same: bool)
        ensures
            same == (self@ == other@),
    {
        bytes_eq(&self.bytes, &other.bytes)
    }
}

impl Hash {
    /// A hash from its 32 bytes.
    pub fn from_bytes(bytes: [u8; 32]) -> (hash: Hash)
        ensures
            hash@ == bytes@,
    {
        Hash { bytes }
    }

    /// The 32 bytes of a hash.
    pub fn to_bytes(&self) -> (bytes: [u8; 32])
        ensures
            bytes@ == self@,
    {
        self.bytes
    }

    /// Every hash is 32 bytes long.
    pub proof fn lemma_len(self)
        ensures
            self@.len() == 32,
    {
    }

    /// Whether two hashes are the same.
    pub fn same(&self, other: &Hash) -> (same: bool)
        ensures
            same == (self@ == other@),
    {
        bytes_eq(&self.bytes, &other.bytes)
    }

    /// The hash of a commitment.
    pub fn of(commitment: &Commitment) -> (hash: Hash)
        ensures
            hash@ == leaf_hash(commitment@),
    {
        Hash { bytes: hash_1(DOMAIN_SEPARATOR, &commitment.bytes) }
    }

    /// The hash of a node at `height` over the hashes of its four children.
    pub fn node(height: u8, a: &Hash, b: &Hash, c: &Hash, d: &Hash) -> (hash: Hash)
        ensures
            hash@ == node_hash(height as nat, a@, b@, c@, d@),
    {
        let domain: u64 = DOMAIN_SEPARATOR + height as u64;
        Hash { bytes: hash_4(domain, &a.bytes, &b.bytes, &c.bytes, &d.bytes) }
    }

    /// The hash that stands for a subtree of `height` that holds nothing.
    pub fn empty(height: u8) -> (hash: Hash)
        ensures
            hash@ == empty_hash(height as nat),
    {
        let mut bytes = [0u8; 32];
        bytes[0] = height;
        assert(bytes@ =~= empty_hash(height as nat));
        Hash { bytes }
    }
}

} // verus!
