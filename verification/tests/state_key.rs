use tiered_commitment_tree::governance::state_key;

#[test]
fn fixed_keys() {
    assert_eq!(state_key::next_proposal_id(), "governance/next_proposal_id");
    assert_eq!(state_key::unfinished_proposals(), "governance/unfinished_proposals");
}

#[test]
fn proposal_keys() {
    assert_eq!(state_key::proposal_definition(7), "governance/proposal/7/data");
    assert_eq!(state_key::proposal_state(7), "governance/proposal/7/state");
    assert_eq!(
        state_key::proposal_deposit_amount(7),
        "governance/proposal/7/deposit_amount"
    );
    assert_eq!(state_key::proposal_voting_start(7), "governance/proposal/7/voting_start");
    assert_eq!(state_key::proposal_voting_end(7), "governance/proposal/7/voting_end");
    assert_eq!(state_key::voting_validators_list(7), "governance/proposal/7/validator_vote/");
}

#[test]
fn proposal_key_of_zero_and_of_the_largest_id() {
    assert_eq!(state_key::proposal_definition(0), "governance/proposal/0/data");
    assert_eq!(
        state_key::proposal_state(u64::MAX),
        "governance/proposal/18446744073709551615/state"
    );
    assert_eq!(state_key::proposal_voting_end(1000), "governance/proposal/1000/voting_end");
}

#[test]
fn validator_vote_key() {
    assert_eq!(
        state_key::validator_vote(12, "valid1qxyz"),
        "governance/proposal/12/validator_vote/valid1qxyz"
    );
    assert_eq!(state_key::validator_vote(0, ""), "governance/proposal/0/validator_vote/");
}

#[test]
fn validator_vote_key_extends_the_list_key() {
    let list = state_key::voting_validators_list(99);
    let vote = state_key::validator_vote(99, "key");
    assert!(vote.starts_with(&list));
    assert_eq!(&vote[list.len()..], "key");
}

#[test]
fn decimal_rendering() {
    assert_eq!(state_key::render_decimal(0), "0");
    assert_eq!(state_key::render_decimal(9), "9");
    assert_eq!(state_key::render_decimal(10), "10");
    assert_eq!(state_key::render_decimal(1234567890), "1234567890");
    let mut n: u64 = 1;
    for _ in 0..64 {
        assert_eq!(state_key::render_decimal(n), format!("{}", n));
        assert_eq!(state_key::render_decimal(n - 1), format!("{}", n - 1));
        n = n.wrapping_mul(3).wrapping_add(7);
    }
}

#[test]
fn keys_of_different_proposals_differ() {
    let ids = [0u64, 1, 10, 11, 101, 110, 111, u64::MAX];
    let mut keys: Vec<String> = Vec::new();
    for id in ids {
        keys.push(state_key::proposal_definition(id));
        keys.push(state_key::proposal_state(id));
        keys.push(state_key::proposal_deposit_amount(id));
        keys.push(state_key::proposal_voting_start(id));
        keys.push(state_key::proposal_voting_end(id));
        keys.push(state_key::voting_validators_list(id));
        keys.push(state_key::validator_vote(id, "1/data"));
        keys.push(state_key::validator_vote(id, "0"));
    }
    for i in 0..keys.len() {
        for j in 0..i {
            assert_ne!(keys[i], keys[j]);
        }
    }
}
