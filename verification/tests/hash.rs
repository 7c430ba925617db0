use decaf377::Fq;
use tiered_commitment_tree::tct::math::{
    ARITY, TIER_CAPACITY, TIER_HEIGHT, TREE_CAPACITY, TREE_HEIGHT,
};
use tiered_commitment_tree::tct::hash;
use tiered_commitment_tree::tct::hash::{Commitment, DOMAIN_SEPARATOR};
use tiered_commitment_tree::tct::path::Siblings;
use tiered_commitment_tree::tct::position::Position;

fn bytes(seed: u8) -> [u8; 32] {
    let mut b = [0u8; 32];
    for (i, x) in b.iter_mut().enumerate() {
        *x = seed.wrapping_add(i as u8).wrapping_mul(7);
    }
    b[31] = 0;
    b
}

#[test]
fn leaf_hash_is_poseidon() {
    let c = Commitment { bytes: bytes(3) };
    let expected =
        poseidon377::hash_1(&Fq::from(DOMAIN_SEPARATOR), Fq::from_le_bytes_mod_order(&c.bytes))
            .to_bytes();
    let got = hash::Hash::of(&c).to_bytes();
    assert_eq!(got, expected);
    assert_ne!(got, c.bytes);
}

#[test]
fn node_hash_is_poseidon() {
    let (a, b, c, d) = (bytes(1), bytes(2), bytes(3), bytes(4));
    for height in [1u8, 8, 24] {
        let expected = poseidon377::hash_4(
            &Fq::from(DOMAIN_SEPARATOR + height as u64),
            (
                Fq::from_le_bytes_mod_order(&a),
                Fq::from_le_bytes_mod_order(&b),
                Fq::from_le_bytes_mod_order(&c),
                Fq::from_le_bytes_mod_order(&d),
            ),
        )
        .to_bytes();
        let got = hash::Hash::node(
            height,
            &hash::Hash::from_bytes(a),
            &hash::Hash::from_bytes(b),
            &hash::Hash::from_bytes(c),
            &hash::Hash::from_bytes(d),
        )
        .to_bytes();
        assert_eq!(got, expected);
        assert_ne!(got, a);
        assert_ne!(got, d);
    }
}

#[test]
fn node_hash_depends_on_height_and_order() {
    let (a, b) = (hash::Hash::from_bytes(bytes(1)), hash::Hash::from_bytes(bytes(2)));
    let h1 = hash::Hash::node(1, &a, &b, &a, &b);
    let h2 = hash::Hash::node(2, &a, &b, &a, &b);
    let h3 = hash::Hash::node(1, &b, &a, &a, &b);
    assert!(!h1.same(&h2));
    assert!(!h1.same(&h3));
    assert!(h1.same(&hash::Hash::node(1, &a, &b, &a, &b)));
}

#[test]
fn hashes_compare_by_their_bytes() {
    let (a, b) = (hash::Hash::from_bytes(bytes(1)), hash::Hash::from_bytes(bytes(2)));
    assert_eq!(a, hash::Hash::from_bytes(bytes(1)));
    assert_ne!(a, b);
    assert_eq!(Commitment { bytes: bytes(1) }, Commitment { bytes: bytes(1) });
    assert_ne!(Commitment { bytes: bytes(1) }, Commitment { bytes: bytes(2) });
    assert_eq!(Siblings::around(0, a, b, a, b), Siblings::around(0, b, b, a, b));
    assert_ne!(Siblings::around(0, a, b, a, b), Siblings::around(1, a, b, a, b));
}

#[test]
fn capacities() {
    assert_eq!((ARITY as u64).pow(TIER_HEIGHT as u32), TIER_CAPACITY);
    assert_eq!((ARITY as u64).pow(TREE_HEIGHT as u32), TREE_CAPACITY);
    assert_eq!(TIER_CAPACITY * TIER_CAPACITY * TIER_CAPACITY, TREE_CAPACITY);
}

#[test]
fn empty_hash() {
    let mut expected = [0u8; 32];
    assert_eq!(hash::Hash::empty(0).to_bytes(), expected);
    expected[0] = 8;
    assert_eq!(hash::Hash::empty(8).to_bytes(), expected);
    assert!(!hash::Hash::empty(8).same(&hash::Hash::empty(16)));
}

#[test]
fn hash_bytes_round_trip() {
    let b = bytes(9);
    assert_eq!(hash::Hash::from_bytes(b).to_bytes(), b);
    assert!(hash::Hash::from_bytes(b).same(&hash::Hash::from_bytes(b)));
    assert!(!hash::Hash::from_bytes(b).same(&hash::Hash::from_bytes(bytes(10))));
    let c = Commitment { bytes: b };
    assert!(c.same(&Commitment { bytes: b }));
    assert!(!c.same(&Commitment { bytes: bytes(11) }));
}

#[test]
fn siblings_place() {
    let (a, b, c, d) = (
        hash::Hash::from_bytes(bytes(1)),
        hash::Hash::from_bytes(bytes(2)),
        hash::Hash::from_bytes(bytes(3)),
        hash::Hash::from_bytes(bytes(4)),
    );
    let whole = hash::Hash::node(5, &a, &b, &c, &d);
    let children = [a, b, c, d];
    for which in 0..4u64 {
        let siblings = Siblings::around(which, a, b, c, d);
        let got = siblings.place(5, which, &children[which as usize]);
        assert!(got.same(&whole));
    }
    let siblings = Siblings::around(2, a, b, c, d);
    assert!(siblings.first.same(&a));
    assert!(siblings.second.same(&b));
    assert!(siblings.third.same(&d));
}

#[test]
fn position_index() {
    let p = Position::new(1, 2, 3).unwrap();
    assert_eq!(p.index(), 4295098371);
    assert_eq!(Position::from_index(4295098371), Some(p));
    assert_eq!(Position::new(0, 0, 0).unwrap().index(), 0);
    assert_eq!(Position::new(65535, 65535, 65535).unwrap().index(), 281474976710655);
    assert_eq!(Position::from_index(281474976710655), Position::new(65535, 65535, 65535));
    assert_eq!(Position::from_index(281474976710656), None);
    assert_eq!(Position::new(0, 0, 65536).map(|p| p.commitment()), Some(65536));
    assert_eq!(Position::new(0, 0, 65537), None);
    assert_eq!(p.checked_index(), Some(4295098371));
    assert_eq!(Position::new(0, 0, 65536).unwrap().checked_index(), None);
    assert_eq!(Position::new(65536, 0, 0).unwrap().checked_index(), None);
    assert_eq!(Position::new(65537, 0, 0), None);
}

#[test]
fn position_order() {
    let p = |e, b, c| Position::new(e, b, c).unwrap();
    assert!(p(0, 0, 0).le(&p(0, 0, 0)));
    assert!(p(0, 0, 5).le(&p(0, 1, 0)));
    assert!(p(0, 9, 9).le(&p(1, 0, 0)));
    assert!(!p(1, 0, 0).le(&p(0, 9, 9)));
    assert!(!p(0, 1, 0).le(&p(0, 0, 9)));
    assert!(!p(0, 0, 2).le(&p(0, 0, 1)));
    assert_eq!(p(3, 4, 5).epoch(), 3);
    assert_eq!(p(3, 4, 5).block(), 4);
    assert_eq!(p(3, 4, 5).commitment(), 5);
}
