use libra_twins::twins::safety::{commits_by_round, compare_vectors, is_safe, longest_vector};
use libra_twins::types::HashValue;

fn h(b: u8) -> HashValue {
    HashValue::new([b; 32])
}

fn z() -> HashValue {
    HashValue::zero()
}

#[test]
fn longest_vector_finds_the_first_longest_branch() {
    let vecs = vec![vec![h(1)], vec![h(1), h(2), h(3)], vec![h(4), h(5), h(6)], vec![]];
    assert_eq!(longest_vector(&vecs), (1, 3));
    assert_eq!(longest_vector(&vec![]), (0, 0));
    assert_eq!(longest_vector(&vec![vec![], vec![]]), (0, 0));
    assert_eq!(longest_vector(&vec![vec![], vec![h(1)]]), (1, 1));
}

#[test]
fn branches_that_match_where_both_commit_are_safe() {
    let branches = vec![
        vec![h(1), h(2), h(3)],
        vec![h(1), z(), h(3), h(4)],
        vec![z(), h(2)],
        vec![],
    ];
    assert!(compare_vectors(&branches));
    assert!(is_safe(branches));
}

#[test]
fn two_blocks_committed_at_one_round_are_a_conflict() {
    let branches = vec![vec![h(1), h(2), h(3)], vec![h(1), h(9)]];
    assert!(!compare_vectors(&branches));
    assert!(!is_safe(branches));
    // A conflict past the end of the shorter branches still counts.
    let branches = vec![vec![h(1)], vec![h(1), z(), h(5)], vec![z(), z(), h(6)]];
    assert!(!is_safe(branches));
}

#[test]
fn zero_entries_never_conflict() {
    let branches = vec![vec![z(), z()], vec![h(7), z()], vec![z(), h(8)]];
    assert!(is_safe(branches));
    assert!(is_safe(vec![]));
}

#[test]
fn commits_are_laid_out_by_round() {
    let commits = vec![(2, h(2)), (1, h(1)), (4, h(4))];
    assert_eq!(commits_by_round(&commits), vec![h(1), h(2), z(), h(4)]);
    assert_eq!(commits_by_round(&vec![]), Vec::<HashValue>::new());
}

#[test]
fn a_later_commit_of_a_round_replaces_an_earlier_one() {
    let commits = vec![(1, h(1)), (2, h(2)), (1, h(3))];
    assert_eq!(commits_by_round(&commits), vec![h(3), h(2)]);
}

#[test]
fn repeated_commits_leave_the_branch_as_it_was() {
    let commits = vec![(1, h(1)), (2, h(2))];
    let mut repeated = commits.clone();
    repeated.push((2, h(2)));
    repeated.push((1, h(1)));
    assert_eq!(commits_by_round(&repeated), commits_by_round(&commits));
}

#[test]
fn branches_along_one_chain_are_safe() {
    let chain = vec![h(1), h(2), h(3), h(4)];
    let branches = vec![chain[..2].to_vec(), vec![z(), h(2), h(3)], chain.clone()];
    assert!(is_safe(branches));
}
