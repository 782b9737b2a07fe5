use libra_twins::twins::addresses::{partitions_by_author, proposers_by_author};
use libra_twins::twins::partitions::{filter_partitions, stirling2};
use libra_twins::twins::scenarios::{
    generate_test_cases, node_layout, random_test_cases, round_schedule, scenarios_with_leaders,
    test_cases_with_replacement, test_cases_without_replacement, twin_index_map, MAX_TESTCASES,
};
use libra_twins::types::AccountAddress;
use std::collections::HashMap;

#[test]
fn node_layout_puts_targets_then_honest_nodes_then_twins() {
    let layout = node_layout(4);
    assert_eq!(layout.target_nodes, vec![0]);
    assert_eq!(layout.honest_nodes, vec![1, 2, 3]);
    assert_eq!(layout.twin_nodes, vec![4]);
    assert_eq!(layout.nodes, vec![0, 1, 2, 3, 4]);

    let layout = node_layout(7);
    assert_eq!(layout.target_nodes, vec![0, 1]);
    assert_eq!(layout.honest_nodes, vec![2, 3, 4, 5, 6]);
    assert_eq!(layout.twin_nodes, vec![7, 8]);
    assert_eq!(layout.nodes, (0..9).collect::<Vec<usize>>());

    let layout = node_layout(1);
    assert!(layout.target_nodes.is_empty());
    assert_eq!(layout.nodes, vec![0]);
}

#[test]
fn twins_follow_the_nodes_they_stand_for() {
    let node_to_twin = twin_index_map(4, &vec![0, 1]);
    assert_eq!(node_to_twin.len(), 2);
    assert_eq!(node_to_twin.get(&0), Some(&4));
    assert_eq!(node_to_twin.get(&1), Some(&5));
    let node_to_twin = twin_index_map(4, &vec![2]);
    assert_eq!(node_to_twin.get(&2), Some(&4));
    assert_eq!(node_to_twin.get(&0), None);
}

#[test]
fn every_leader_is_paired_with_every_scenario() {
    let scenarios = vec![vec![vec![0, 1], vec![2]], vec![vec![0], vec![1, 2]]];
    let pairs = scenarios_with_leaders(&vec![0, 1], &scenarios);
    assert_eq!(
        pairs,
        vec![
            (0, scenarios[0].clone()),
            (0, scenarios[1].clone()),
            (1, scenarios[0].clone()),
            (1, scenarios[1].clone()),
        ]
    );
    assert!(scenarios_with_leaders(&vec![], &scenarios).is_empty());
}

#[test]
fn with_replacement_lists_every_arrangement_in_lexicographic_order() {
    assert_eq!(
        test_cases_with_replacement(2, 2),
        vec![vec![0, 0], vec![0, 1], vec![1, 0], vec![1, 1]]
    );
    assert_eq!(test_cases_with_replacement(3, 0), vec![Vec::<usize>::new()]);
    assert!(test_cases_with_replacement(0, 2).is_empty());
    // The count is the number of pairs to the power of the number of rounds.
    assert_eq!(test_cases_with_replacement(3, 4).len(), 81);
    assert_eq!(generate_test_cases(2, 7, 1).len(), 128);
}

#[test]
fn without_replacement_lists_every_permutation() {
    let cases = test_cases_without_replacement(3, 2);
    assert_eq!(
        cases,
        vec![vec![0, 1], vec![0, 2], vec![1, 0], vec![1, 2], vec![2, 0], vec![2, 1]]
    );
    assert_eq!(generate_test_cases(3, 3, 0).len(), 6);
    assert_eq!(test_cases_without_replacement(4, 0), vec![Vec::<usize>::new()]);
}

#[test]
fn random_test_cases_stay_in_range() {
    let cases = random_test_cases(5, 4, 30);
    assert_eq!(cases.len(), 30);
    for case in &cases {
        assert_eq!(case.len(), 4);
        assert!(case.iter().all(|&c| c < 5));
    }
    let cases = generate_test_cases(3, 2, 2);
    assert_eq!(cases.len(), MAX_TESTCASES);
    assert!(cases.iter().all(|case| case.len() == 2 && case.iter().all(|&c| c < 3)));
}

#[test]
fn a_test_case_is_scheduled_round_by_round() {
    let target_nodes = vec![0];
    let node_to_twin = twin_index_map(4, &target_nodes);
    let scenarios = filter_partitions(stirling2(5, 2), 4);
    let combinations = scenarios_with_leaders(&target_nodes, &scenarios);
    let mut combinations_with_honest_leader = combinations.clone();
    combinations_with_honest_leader.push((2, vec![vec![0, 1, 2, 3], vec![4]]));
    let test_case = vec![1, 0, 8];
    let schedule = round_schedule(&test_case, &combinations_with_honest_leader, 5, &target_nodes, &node_to_twin);
    assert_eq!(schedule.next_round, 8);
    assert_eq!(schedule.round_partitions_idx.len(), 3);
    assert_eq!(schedule.round_partitions_idx.get(&5), Some(&combinations[1].1));
    assert_eq!(schedule.round_partitions_idx.get(&6), Some(&combinations[0].1));
    assert_eq!(schedule.round_partitions_idx.get(&7), Some(&vec![vec![0, 1, 2, 3], vec![4]]));
    // A target node leads together with its twin; an honest node leads alone.
    assert_eq!(schedule.twins_round_proposers_idx.get(&5), Some(&vec![0, 4]));
    assert_eq!(schedule.twins_round_proposers_idx.get(&6), Some(&vec![0, 4]));
    assert_eq!(schedule.twins_round_proposers_idx.get(&7), Some(&vec![2]));
    assert_eq!(schedule.twins_round_proposers_idx.get(&8), None);

    // The next test case starts where this one stopped.
    let next = round_schedule(&vec![2], &combinations, schedule.next_round, &target_nodes, &node_to_twin);
    assert_eq!(next.next_round, 9);
    assert_eq!(next.round_partitions_idx.get(&8), Some(&combinations[2].1));
}

fn address(b: u8) -> AccountAddress {
    AccountAddress::new([b; 32])
}

#[test]
fn indices_become_addresses() {
    let authors = vec![address(10), address(11), address(12), address(13), address(14)];
    let mut proposers: HashMap<u64, Vec<usize>> = HashMap::new();
    proposers.insert(1, vec![0, 4]);
    proposers.insert(2, vec![3]);
    let by_author = proposers_by_author(&proposers, &authors);
    assert_eq!(by_author.len(), 2);
    assert_eq!(by_author.get(&1), Some(&vec![address(10), address(14)]));
    assert_eq!(by_author.get(&2), Some(&vec![address(13)]));

    let mut partitions: HashMap<u64, Vec<Vec<usize>>> = HashMap::new();
    partitions.insert(0, vec![vec![0, 1, 2], vec![4, 3]]);
    let by_author = partitions_by_author(&partitions, &authors);
    assert_eq!(by_author.len(), 1);
    assert_eq!(
        by_author.get(&0),
        Some(&vec![vec![address(10), address(11), address(12)], vec![address(14), address(13)]])
    );
}

#[test]
fn random_test_cases_of_no_rounds_need_no_pairs() {
    let cases = generate_test_cases(0, 0, 2);
    assert_eq!(cases.len(), MAX_TESTCASES);
    assert!(cases.iter().all(|c| c.is_empty()));
}
