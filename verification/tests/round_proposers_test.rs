use libra_twins::block::Block;
use libra_twins::round_proposers::RoundProposers;
use libra_twins::types::{AccountAddress, Round};
use std::collections::HashMap;

fn author(first_byte: u8) -> AccountAddress {
    let mut bytes = [0u8; 32];
    bytes[0] = first_byte;
    bytes[31] = 7;
    AccountAddress::new(bytes)
}

#[test]
fn test_round_proposers() {
    let first_author = author(1);
    let second_author = author(2);
    let third_author = author(3);

    // A map that tells who is the proposer(s) per round
    let mut round_proposers: HashMap<Round, Vec<AccountAddress>> = HashMap::new();
    // Both first and second authors are leaders of round 1
    round_proposers.insert(1, vec![first_author, second_author]);
    // Only third author is leader of round 2
    round_proposers.insert(2, vec![third_author]);

    let mut pe = RoundProposers::new(Some(round_proposers), first_author);

    let good_proposal_round1_1 = Block::new_proposal(1u32, 1, 1, first_author);
    let good_proposal_round1_2 = Block::new_proposal(2u32, 1, 1, second_author);
    let bad_proposal_round1 = Block::new_proposal(2u32, 1, 2, third_author);
    let good_proposal_round2 = Block::new_proposal(3u32, 2, 2, third_author);

    // Testing "is_valid_proposer"
    assert_eq!(pe.is_valid_proposer(first_author, 1), Some(first_author));
    assert_eq!(pe.is_valid_proposer(second_author, 1), Some(second_author));
    assert_eq!(pe.is_valid_proposer(third_author, 1), None);

    assert_eq!(pe.is_valid_proposer(third_author, 2), Some(third_author));
    assert_eq!(pe.is_valid_proposer(second_author, 2), None);

    // Testing "get_valid_proposers"
    assert_eq!(pe.get_valid_proposers(1), vec![first_author, second_author]);

    assert_eq!(pe.get_valid_proposers(2), vec![third_author]);

    // Testing "process_proposal"
    assert_eq!(
        pe.process_proposal(good_proposal_round1_1.clone()),
        Some(good_proposal_round1_1)
    );

    assert_eq!(
        pe.process_proposal(good_proposal_round1_2.clone()),
        Some(good_proposal_round1_2)
    );

    assert_eq!(pe.process_proposal(bad_proposal_round1.clone()), None);

    assert_eq!(
        pe.process_proposal(good_proposal_round2.clone()),
        Some(good_proposal_round2)
    );
}

#[test]
fn rounds_missing_from_the_map_fall_back_to_the_default_proposer() {
    let first_author = author(1);
    let second_author = author(2);
    let mut round_proposers: HashMap<Round, Vec<AccountAddress>> = HashMap::new();
    round_proposers.insert(1, vec![second_author]);
    let pe = RoundProposers::new(Some(round_proposers), first_author);
    assert_eq!(pe.get_valid_proposers(5), vec![first_author]);
    assert_eq!(pe.is_valid_proposer(first_author, 5), Some(first_author));
    assert_eq!(pe.is_valid_proposer(second_author, 5), None);
    assert_eq!(pe.is_valid_proposer(first_author, 1), None);
}

#[test]
fn without_a_map_the_default_proposer_leads_every_round() {
    let first_author = author(1);
    let second_author = author(2);
    let mut pe = RoundProposers::new(None, first_author);
    for round in 0..4u64 {
        assert_eq!(pe.get_valid_proposers(round), vec![first_author]);
        assert_eq!(pe.is_valid_proposer(second_author, round), None);
    }
    let proposal = Block::new_proposal(9u32, 3, 10, first_author);
    assert_eq!(pe.process_proposal(proposal.clone()), Some(proposal));
    let other = Block::new_proposal(9u32, 3, 10, second_author);
    assert_eq!(pe.process_proposal(other), None);
}

#[test]
fn blocks_without_an_author_are_dropped() {
    let first_author = author(1);
    let mut pe = RoundProposers::new(None, first_author);
    let nil: Block<u32> = Block::new_nil(4, 40);
    assert_eq!(nil.author(), None);
    assert_eq!(nil.round(), 4);
    assert_eq!(pe.process_proposal(nil), None);
}

#[test]
fn there_is_never_a_backup_proposal() {
    let mut pe = RoundProposers::new(None, author(1));
    let backup: Option<Block<u32>> = pe.take_backup_proposal(1);
    assert_eq!(backup, None);
}
