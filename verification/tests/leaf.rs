use tiered_commitment_tree::tct::frontier::{Item, Leaf};
use tiered_commitment_tree::tct::hash;
use tiered_commitment_tree::tct::hash::Commitment;
use tiered_commitment_tree::tct::index::Index;
use tiered_commitment_tree::tct::insert::Insert;
use tiered_commitment_tree::tct::position::Position;

fn commitment(seed: u8) -> Commitment {
    let mut bytes = [0u8; 32];
    bytes[0] = seed;
    Commitment { bytes }
}

#[test]
fn a_leaf_is_full() {
    let leaf = Leaf::new(5u32);
    assert!(leaf.is_full());
    assert_eq!(leaf.focus(), Some(&5));
    assert_eq!(leaf.into_item(), 5);
}

#[test]
fn a_leaf_update_swaps_the_item() {
    let mut leaf = Leaf::new(5u32);
    assert_eq!(leaf.update(6), Some(5));
    assert_eq!(leaf.focus(), Some(&6));
}

#[test]
fn insertion_into_a_leaf_fails() {
    let (c1, c2) = (commitment(1), commitment(2));
    let leaf = Leaf::new(Item::keep(c1));
    assert!(leaf.hash(0).same(&hash::Hash::of(&c1)));
    match leaf.insert_owned(Item::keep(c2), 0) {
        Ok(_) => panic!("a leaf took a second item"),
        Err(full) => {
            assert!(full.item.hash(0).same(&hash::Hash::of(&c2)));
            assert!(full.complete.is_keep());
            assert!(full.complete.hash().same(&hash::Hash::of(&c1)));
        }
    }
}

#[test]
fn a_forgotten_leaf_finalizes_to_its_hash() {
    let c1 = commitment(1);
    let leaf = Leaf::new(Item::forgotten(c1));
    assert!(leaf.witness(0, 0).is_none());
    match leaf.finalize_owned(0) {
        Insert::Hash(h) => assert!(h.same(&hash::Hash::of(&c1))),
        Insert::Keep(_) => panic!("a forgotten commitment was kept"),
    }
}

#[test]
fn a_kept_leaf_is_witnessed_until_it_is_forgotten() {
    let c1 = commitment(1);
    let leaf = Leaf::new(Item::keep(c1));
    let (path, found) = leaf.witness(0, 0).unwrap();
    assert!(path.is_empty());
    assert!(found.same(&c1));
    let (leaf, forgotten) = leaf.forget(0, 0);
    assert!(forgotten);
    assert!(leaf.hash(0).same(&hash::Hash::of(&c1)));
    assert!(leaf.witness(0, 0).is_none());
    let (leaf, again) = leaf.forget(0, 0);
    assert!(!again);
    assert!(leaf.is_full());
}

#[test]
fn insert_keep() {
    let kept: Insert<u8> = Insert::Keep(3);
    assert!(kept.is_keep());
    assert!(!kept.is_hash());
    assert_eq!(kept.keep(), Some(3));
    let pruned: Insert<u8> = Insert::Hash(hash::Hash::empty(0));
    assert!(pruned.is_hash());
    assert_eq!(pruned.keep(), None);
}

#[test]
fn index_records() {
    let p = |c| Position::new(0, 0, c).unwrap();
    let mut index = Index::new();
    assert_eq!(index.get(&commitment(1)), None);
    index.insert(commitment(1), p(0));
    index.insert(commitment(2), p(1));
    index.insert(commitment(1), p(2));
    assert_eq!(index.get(&commitment(1)), Some(p(2)));
    assert_eq!(index.get(&commitment(2)), Some(p(1)));
    assert_eq!(index.remove(&commitment(3)), None);
    assert_eq!(index.remove(&commitment(1)), Some(p(2)));
    assert_eq!(index.remove(&commitment(1)), None);
    assert_eq!(index.get(&commitment(1)), None);
    assert_eq!(index.get(&commitment(2)), Some(p(1)));
}

#[test]
fn index_keeps_commitments_with_one_key_apart() {
    let p = |c| Position::new(0, 0, c).unwrap();
    let mut a = commitment(1);
    let mut b = commitment(1);
    a.bytes[8] = 1;
    b.bytes[31] = 1;
    let mut index = Index::new();
    index.insert(a, p(1));
    index.insert(b, p(2));
    index.insert(commitment(1), p(3));
    assert_eq!(index.get(&a), Some(p(1)));
    assert_eq!(index.get(&b), Some(p(2)));
    assert_eq!(index.get(&commitment(1)), Some(p(3)));
    assert_eq!(index.remove(&b), Some(p(2)));
    assert_eq!(index.get(&a), Some(p(1)));
    assert_eq!(index.get(&b), None);
    assert_eq!(index.get(&commitment(1)), Some(p(3)));
    assert_eq!(index.remove(&a), Some(p(1)));
    assert_eq!(index.remove(&commitment(1)), Some(p(3)));
    assert_eq!(index.get(&commitment(1)), None);
}
