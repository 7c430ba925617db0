use tiered_commitment_tree::tct::error::Error;
use tiered_commitment_tree::tct::hash;
use tiered_commitment_tree::tct::hash::Commitment;
use tiered_commitment_tree::tct::inclusion::Proof;
use tiered_commitment_tree::tct::position::Position;
use tiered_commitment_tree::tct::tree::{Tree, Witness};

fn commitment(seed: u8) -> Commitment {
    let mut bytes = [0u8; 32];
    bytes[0] = seed;
    bytes[1] = seed.wrapping_mul(31).wrapping_add(5);
    bytes[17] = 0xa5;
    Commitment { bytes }
}

fn position(epoch: u64, block: u64, commitment: u64) -> Position {
    Position { epoch, block, commitment }
}

/// The root of a tree in which the one thing of `height` with this hash is
/// the leftmost, and nothing is to its right.
fn leftmost(mut hash: hash::Hash, height: u8) -> hash::Hash {
    for g in (height + 1)..=24 {
        let e = hash::Hash::empty(g - 1);
        hash = hash::Hash::node(g, &hash, &e, &e, &e);
    }
    hash
}

#[test]
fn empty_tree() {
    let tree = Tree::new();
    assert_eq!(tree.position(), Some(position(0, 0, 0)));
    assert_eq!(tree.position_of(&commitment(1)), None);
    assert!(matches!(tree.witness(&commitment(1)), Err(Error::NotFound)));
    assert!(tree.root().same(&leftmost(hash::Hash::empty(8), 8)));
}

#[test]
fn root_of_one_commitment() {
    let mut tree = Tree::new();
    tree.insert(Witness::Keep, commitment(1)).unwrap();
    let expected = leftmost(hash::Hash::of(&commitment(1)), 0);
    assert!(tree.root().same(&expected));

    let mut other = Tree::new();
    other.insert(Witness::Forget, commitment(1)).unwrap();
    assert!(other.root().same(&expected));
}

#[test]
fn root_of_five_commitments() {
    let mut tree = Tree::new();
    for seed in 1..=5 {
        tree.insert(Witness::Forget, commitment(seed)).unwrap();
    }
    let e0 = hash::Hash::empty(0);
    let e1 = hash::Hash::empty(1);
    let first = hash::Hash::node(
        1,
        &hash::Hash::of(&commitment(1)),
        &hash::Hash::of(&commitment(2)),
        &hash::Hash::of(&commitment(3)),
        &hash::Hash::of(&commitment(4)),
    );
    let second = hash::Hash::node(1, &hash::Hash::of(&commitment(5)), &e0, &e0, &e0);
    let above = hash::Hash::node(2, &first, &second, &e1, &e1);
    assert!(tree.root().same(&leftmost(above, 2)));
}

#[test]
fn keep_forget_keep() {
    let (c1, c2, c3) = (commitment(1), commitment(2), commitment(3));
    let mut tree = Tree::new();
    tree.insert(Witness::Keep, c1).unwrap();
    tree.insert(Witness::Forget, c2).unwrap();
    tree.insert(Witness::Keep, c3).unwrap();

    assert_eq!(tree.position(), Some(position(0, 0, 3)));
    assert!(matches!(tree.witness(&c2), Err(Error::NotFound)));
    assert_eq!(tree.position_of(&c2), None);

    let root = tree.root();
    let first = tree.witness(&c1).unwrap();
    let third = tree.witness(&c3).unwrap();
    assert!(first.commitment().same(&c1));
    assert!(third.commitment().same(&c3));
    assert_eq!(first.position(), position(0, 0, 0));
    assert_eq!(third.position(), position(0, 0, 2));
    assert_eq!(first.auth_path().len(), 24);
    assert_eq!(first.verify(&root), Ok(()));
    assert_eq!(third.verify(&root), Ok(()));
}

#[test]
fn end_block_then_end_epoch() {
    let mut tree = Tree::new();
    tree.end_block().unwrap();
    assert_eq!(tree.position(), Some(position(0, 1, 0)));
    tree.end_epoch().unwrap();
    assert_eq!(tree.position(), Some(position(1, 0, 0)));
    let root = tree.root();
    assert!(tree.root().same(&root));
    assert_eq!(root.to_bytes().len(), 32);
}

#[test]
fn forget_then_witness() {
    let c1 = commitment(1);
    let mut tree = Tree::new();
    tree.insert(Witness::Keep, c1).unwrap();
    let before = tree.root();
    assert!(tree.forget(&c1));
    assert!(matches!(tree.witness(&c1), Err(Error::NotFound)));
    assert!(tree.root().same(&before));
}

#[test]
fn forget_once() {
    let (c1, c2, c3) = (commitment(1), commitment(2), commitment(3));
    let mut tree = Tree::new();
    tree.insert(Witness::Keep, c1).unwrap();
    tree.insert(Witness::Forget, c2).unwrap();
    assert!(!tree.forget(&c2));
    assert!(!tree.forget(&c3));
    assert!(tree.forget(&c1));
    assert!(!tree.forget(&c1));
    assert!(!tree.forget(&c1));
    assert_eq!(tree.position(), Some(position(0, 0, 2)));
}

#[test]
fn forgetting_keeps_the_other_proofs() {
    let mut tree = Tree::new();
    for seed in 1..=9 {
        tree.insert(Witness::Keep, commitment(seed)).unwrap();
    }
    let root = tree.root();
    for gone in [2u8, 5, 9, 1] {
        assert!(tree.forget(&commitment(gone)));
        assert!(tree.root().same(&root));
    }
    for seed in [3u8, 4, 6, 7, 8] {
        let proof = tree.witness(&commitment(seed)).unwrap();
        assert_eq!(proof.position(), position(0, 0, seed as u64 - 1));
        assert_eq!(proof.verify(&root), Ok(()));
    }
    for gone in [2u8, 5, 9, 1] {
        assert!(matches!(tree.witness(&commitment(gone)), Err(Error::NotFound)));
    }
}

#[test]
fn positions_advance() {
    let mut tree = Tree::new();
    let mut last = tree.position().unwrap();
    for step in 0..40u8 {
        let before = tree.position().unwrap();
        match step % 7 {
            3 => {
                tree.end_block().unwrap();
                let after = tree.position().unwrap();
                assert_eq!(after, position(before.epoch(), before.block() + 1, 0));
            }
            6 => {
                tree.end_epoch().unwrap();
                let after = tree.position().unwrap();
                assert_eq!(after, position(before.epoch() + 1, 0, 0));
            }
            _ => {
                tree.insert(Witness::Forget, commitment(step)).unwrap();
                let after = tree.position().unwrap();
                assert_eq!(
                    after,
                    position(before.epoch(), before.block(), before.commitment() + 1)
                );
            }
        }
        let now = tree.position().unwrap();
        assert!(last.le(&now));
        last = now;
    }
}

#[test]
fn proofs_across_blocks_and_epochs() {
    let mut tree = Tree::new();
    let mut kept = Vec::new();
    for step in 0..30u8 {
        let c = commitment(step + 1);
        let at = tree.position().unwrap();
        if step % 3 == 0 {
            tree.insert(Witness::Forget, c).unwrap();
        } else {
            tree.insert(Witness::Keep, c).unwrap();
            assert_eq!(tree.position_of(&c), Some(at));
            kept.push((c, at));
        }
        if step % 5 == 4 {
            tree.end_block().unwrap();
        }
        if step % 11 == 10 {
            tree.end_epoch().unwrap();
        }
        if step % 10 == 9 {
            let root = tree.root();
            for (c, at) in &kept {
                let proof = tree.witness(c).unwrap();
                assert!(proof.commitment().same(c));
                assert_eq!(proof.position(), *at);
                assert_eq!(proof.verify(&root), Ok(()));
            }
        }
    }
    assert_eq!(tree.position().unwrap().epoch(), 2);
}

#[test]
fn index_correct() {
    // A fixed run of the actions that the tree offers, with the checks that
    // hold after each of them.
    let pool = [commitment(7), commitment(8)];
    let mut state: u32 = 12345;
    for _run in 0..20 {
        let mut tree = Tree::new();
        let mut added: Vec<u8> = Vec::new();
        for _ in 0..9 {
            state = state.wrapping_mul(1664525).wrapping_add(1013904223);
            let action = (state >> 16) % 5;
            let which = ((state >> 8) & 1) as usize;
            let c = pool[which];
            let predicted = tree.position();
            match action {
                0 | 1 => {
                    let witness = if action == 0 { Witness::Keep } else { Witness::Forget };
                    tree.insert(witness, c).unwrap();
                    assert!(predicted.is_some());
                    if witness == Witness::Keep {
                        assert_eq!(tree.position_of(&c), predicted);
                        let proof = tree.witness(&c).unwrap();
                        assert!(proof.commitment().same(&c));
                        assert_eq!(proof.verify(&tree.root()), Ok(()));
                        if !added.contains(&(which as u8)) {
                            added.push(which as u8);
                        }
                    }
                    let old = predicted.unwrap();
                    let new = tree.position().unwrap();
                    assert_eq!(new.epoch(), old.epoch());
                    assert_eq!(new.block(), old.block());
                    assert_eq!(new.commitment(), old.commitment() + 1);
                }
                2 => {
                    tree.end_block().unwrap();
                    let old = predicted.unwrap();
                    let new = tree.position().unwrap();
                    assert_eq!(new.epoch(), old.epoch());
                    assert_eq!(new.block(), old.block() + 1);
                    assert_eq!(new.commitment(), 0);
                }
                3 => {
                    tree.end_epoch().unwrap();
                    let old = predicted.unwrap();
                    let new = tree.position().unwrap();
                    assert_eq!(new.epoch(), old.epoch() + 1);
                    assert_eq!(new.block(), 0);
                    assert_eq!(new.commitment(), 0);
                }
                _ => {
                    let exists = tree.witness(&c).is_ok();
                    let result = tree.forget(&c);
                    assert_eq!(exists, result);
                    added.retain(|w| *w != which as u8);
                }
            }
        }
        for which in added {
            let c = pool[which as usize];
            assert!(tree.position_of(&c).is_some());
            let proof = tree.witness(&c).unwrap();
            assert!(proof.commitment().same(&c));
            assert_eq!(proof.verify(&tree.root()), Ok(()));
        }
    }
}

#[test]
fn same_commitment_twice() {
    let c = commitment(1);
    let mut tree = Tree::new();
    tree.insert(Witness::Keep, c).unwrap();
    tree.insert(Witness::Keep, c).unwrap();
    assert_eq!(tree.position_of(&c), Some(position(0, 0, 1)));
    let proof = tree.witness(&c).unwrap();
    assert_eq!(proof.verify(&tree.root()), Ok(()));
    assert!(tree.forget(&c));
    assert!(!tree.forget(&c));
}

#[test]
fn a_proof_fails_against_another_root() {
    let (c1, c2) = (commitment(1), commitment(2));
    let mut tree = Tree::new();
    tree.insert(Witness::Keep, c1).unwrap();
    let old_root = tree.root();
    let proof = tree.witness(&c1).unwrap();
    tree.insert(Witness::Keep, c2).unwrap();
    assert!(!tree.root().same(&old_root));
    assert_eq!(proof.verify(&old_root), Ok(()));
    assert_eq!(proof.verify(&tree.root()), Err(Error::ProofVerificationFailed));
    let fresh = tree.witness(&c1).unwrap();
    assert_eq!(fresh.verify(&tree.root()), Ok(()));
}

#[test]
fn a_changed_proof_fails() {
    let (c1, c2) = (commitment(1), commitment(2));
    let mut tree = Tree::new();
    tree.insert(Witness::Keep, c1).unwrap();
    tree.insert(Witness::Keep, c2).unwrap();
    let root = tree.root();
    let proof = tree.witness(&c2).unwrap();
    assert_eq!(proof.verify(&root), Ok(()));

    let wrong_commitment = Proof::new(c1, proof.position(), proof.auth_path().clone());
    assert_eq!(wrong_commitment.verify(&root), Err(Error::ProofVerificationFailed));

    let wrong_position = Proof::new(c2, position(0, 0, 0), proof.auth_path().clone());
    assert_eq!(wrong_position.verify(&root), Err(Error::ProofVerificationFailed));

    let mut path = proof.auth_path().clone();
    path[3].second = hash::Hash::empty(9);
    let wrong_path = Proof::new(c2, proof.position(), path);
    assert_eq!(wrong_path.verify(&root), Err(Error::ProofVerificationFailed));

    let mut short = proof.auth_path().clone();
    short.pop();
    let too_short = Proof::new(c2, proof.position(), short);
    assert_eq!(too_short.root().map(|h| h.to_bytes()), None);
    assert_eq!(too_short.verify(&root), Err(Error::ProofVerificationFailed));

    let off = Proof::new(c2, position(0, 65536, 1), proof.auth_path().clone());
    assert_eq!(off.verify(&root), Err(Error::ProofVerificationFailed));
}

#[test]
fn proof_root_by_hand() {
    let (c1, c2) = (commitment(1), commitment(2));
    let mut tree = Tree::new();
    tree.insert(Witness::Forget, c1).unwrap();
    tree.insert(Witness::Keep, c2).unwrap();
    let proof = tree.witness(&c2).unwrap();
    let path = proof.auth_path();
    assert!(path[0].first.same(&hash::Hash::of(&c1)));
    assert!(path[0].second.same(&hash::Hash::empty(0)));
    assert!(path[0].third.same(&hash::Hash::empty(0)));
    for g in 2..=24u8 {
        let level = &path[(g - 1) as usize];
        assert!(level.first.same(&hash::Hash::empty(g - 1)));
        assert!(level.second.same(&hash::Hash::empty(g - 1)));
        assert!(level.third.same(&hash::Hash::empty(g - 1)));
    }
    let e0 = hash::Hash::empty(0);
    let bottom = hash::Hash::node(1, &hash::Hash::of(&c1), &hash::Hash::of(&c2), &e0, &e0);
    assert!(tree.root().same(&leftmost(bottom, 1)));
    assert!(proof.root().unwrap().same(&tree.root()));
}

#[test]
fn error_messages() {
    assert_eq!(Error::NotFound.message(), "commitment not found");
    assert_eq!(Error::CapacityExceeded.message(), "capacity exceeded");
    assert_eq!(Error::ProofVerificationFailed.message(), "proof verification failed");
}
