use tiered_commitment_tree::plan::clue::{Address, CluePlan, CluePlanMessage, PlanError};

fn valid_key() -> [u8; 32] {
    decaf377::Element::GENERATOR.vartime_compress().0
}

fn address(clue_key: [u8; 32]) -> Address {
    let mut diversifier = [0u8; 16];
    let mut transmission_key = [0u8; 32];
    for i in 0..16 {
        diversifier[i] = i as u8 + 1;
    }
    for i in 0..32 {
        transmission_key[i] = 100 + i as u8;
    }
    Address { diversifier, transmission_key, clue_key }
}

fn same_address(a: &Address, b: &Address) -> bool {
    a.diversifier == b.diversifier
        && a.transmission_key == b.transmission_key
        && a.clue_key == b.clue_key
}

#[test]
fn a_plan_keeps_what_it_was_made_of() {
    let plan = CluePlan::new([7u8; 32], address(valid_key()), 3);
    assert_eq!(plan.rseed(), [7u8; 32]);
    assert_eq!(plan.precision_bits(), 3);
    assert!(same_address(&plan.address(), &address(valid_key())));
    assert_eq!(plan.address().clue_key(), valid_key());
}

#[test]
fn the_clue_is_the_one_of_the_scheme() {
    let rseed = [9u8; 32];
    let plan = CluePlan::new(rseed, address(valid_key()), 5);
    let clue = plan.clue().unwrap();
    assert_eq!(clue.len(), 68);
    assert_eq!(clue[64], 5);

    let key = decaf377_fmd::ExpandedClueKey::new(&decaf377_fmd::ClueKey(valid_key())).unwrap();
    let precision = decaf377_fmd::Precision::new(5).unwrap();
    let expected: Vec<u8> = key.create_clue_deterministic(precision, rseed).unwrap().into();
    assert_eq!(clue, expected);
    assert_ne!(&clue[..32], &valid_key()[..]);
    assert_ne!(&clue[..32], &rseed[..]);
}

#[test]
fn the_same_plan_gives_the_same_clue() {
    let plan = CluePlan::new([1u8; 32], address(valid_key()), 2);
    assert_eq!(plan.clue(), plan.clue());
    let other = CluePlan::new([2u8; 32], address(valid_key()), 2);
    assert_ne!(plan.clue(), other.clue());
}

#[test]
fn the_detection_key_of_the_address_detects_the_clue() {
    let detection_key = decaf377_fmd::DetectionKey::new(rand::rngs::OsRng);
    let clue_key = detection_key.clue_key().0;
    let plan = CluePlan::new([3u8; 32], address(clue_key), 4);
    let bytes = plan.clue().unwrap();
    let clue = decaf377_fmd::Clue::try_from(bytes.as_slice()).unwrap();
    assert!(detection_key.examine(&clue));
}

#[test]
fn no_clue_for_a_precision_that_is_too_large() {
    assert!(CluePlan::new([1u8; 32], address(valid_key()), 24).clue().is_some());
    assert_eq!(CluePlan::new([1u8; 32], address(valid_key()), 25).clue(), None);
    assert_eq!(CluePlan::new([1u8; 32], address(valid_key()), 256).clue(), None);
    assert_eq!(CluePlan::new([1u8; 32], address(valid_key()), usize::MAX).clue(), None);
}

#[test]
fn no_clue_for_a_key_that_is_no_key() {
    assert_eq!(CluePlan::new([1u8; 32], address([0xff; 32]), 3).clue(), None);
}

#[test]
fn address_bytes() {
    let a = address(valid_key());
    let bytes = a.to_bytes();
    assert_eq!(bytes.len(), 80);
    assert_eq!(&bytes[..16], &a.diversifier[..]);
    assert_eq!(&bytes[16..48], &a.transmission_key[..]);
    assert_eq!(&bytes[48..], &a.clue_key[..]);
    let back = Address::from_bytes(&bytes).unwrap();
    assert!(same_address(&a, &back));
    assert!(Address::from_bytes(&bytes[..79].to_vec()).is_none());
    let mut long = bytes.clone();
    long.push(0);
    assert!(Address::from_bytes(&long).is_none());
    assert!(Address::from_bytes(&Vec::new()).is_none());
}

#[test]
fn message_round_trip() {
    let plan = CluePlan::new([5u8; 32], address(valid_key()), 11);
    let msg = plan.to_message();
    assert_eq!(msg.address, Some(address(valid_key()).to_bytes()));
    assert_eq!(msg.rseed, vec![5u8; 32]);
    assert_eq!(msg.precision_bits, 11);
    let back = CluePlan::from_message(&msg).unwrap();
    assert_eq!(back.rseed(), plan.rseed());
    assert_eq!(back.precision_bits(), plan.precision_bits());
    assert!(same_address(&back.address(), &plan.address()));
    assert_eq!(back.clue(), plan.clue());
}

#[test]
fn messages_that_are_no_plans() {
    let good = CluePlan::new([5u8; 32], address(valid_key()), 11).to_message();

    let missing = CluePlanMessage { address: None, ..good.clone() };
    assert_eq!(CluePlan::from_message(&missing).err(), Some(PlanError::MissingAddress));

    let short = CluePlanMessage { address: Some(vec![1u8; 79]), ..good.clone() };
    assert_eq!(CluePlan::from_message(&short).err(), Some(PlanError::InvalidAddress));

    let seed = CluePlanMessage { rseed: vec![0u8; 31], ..good.clone() };
    assert_eq!(CluePlan::from_message(&seed).err(), Some(PlanError::InvalidSeed));

    let both = CluePlanMessage { address: None, rseed: Vec::new(), precision_bits: 0 };
    assert_eq!(CluePlan::from_message(&both).err(), Some(PlanError::MissingAddress));

    let seed_and_address =
        CluePlanMessage { address: Some(Vec::new()), rseed: Vec::new(), precision_bits: 0 };
    assert_eq!(CluePlan::from_message(&seed_and_address).err(), Some(PlanError::InvalidAddress));
}
