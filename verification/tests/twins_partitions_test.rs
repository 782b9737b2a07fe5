use libra_twins::twins::partitions::{copy_partition, filter_partitions, stirling2, stirling_count};

#[test]
fn test_stirling2() {
    let mut ret = stirling2(4, 3);
    assert_eq!(
        ret,
        vec![
            vec![vec![0, 1], vec![2], vec![3]],
            vec![vec![0, 2], vec![1], vec![3]],
            vec![vec![0], vec![1, 2], vec![3]],
            vec![vec![0, 3], vec![1], vec![2]],
            vec![vec![0], vec![1, 3], vec![2]],
            vec![vec![0], vec![1], vec![2, 3]],
        ]
    );

    ret = stirling2(5, 2);
    assert_eq!(
        ret,
        vec![
            vec![vec![0, 1, 2, 3], vec![4]],
            vec![vec![0, 1, 2, 4], vec![3]],
            vec![vec![0, 1, 3, 4], vec![2]],
            vec![vec![0, 2, 3, 4], vec![1]],
            vec![vec![0, 3, 4], vec![1, 2]],
            vec![vec![0, 1, 4], vec![2, 3]],
            vec![vec![0, 2, 4], vec![1, 3]],
            vec![vec![0, 4], vec![1, 2, 3]],
            vec![vec![0, 1, 2], vec![3, 4]],
            vec![vec![0, 1, 3], vec![2, 4]],
            vec![vec![0, 2, 3], vec![1, 4]],
            vec![vec![0, 3], vec![1, 2, 4]],
            vec![vec![0, 1], vec![2, 3, 4]],
            vec![vec![0, 2], vec![1, 3, 4]],
            vec![vec![0], vec![1, 2, 3, 4]],
        ]
    );

    ret = stirling2(10, 4);
    assert_eq!(ret.len(), 34105);

    ret = stirling2(7, 1);
    assert_eq!(ret.len(), 1);
}

#[test]
fn test_filter_partitions() {
    let num_of_nodes = 4;
    let f = 1;
    let list_of_partitions = stirling2(num_of_nodes + f, 2);
    let filtered_list_of_partitions = filter_partitions(list_of_partitions, num_of_nodes);
    assert_eq!(
        filtered_list_of_partitions,
        vec![
            vec![vec![0, 1, 2, 3], vec![4]],
            vec![vec![0, 1, 2], vec![3, 4]],
            vec![vec![0, 1, 3], vec![2, 4]],
            vec![vec![0, 2, 3], vec![1, 4]],
            vec![vec![0, 3], vec![1, 2, 4]],
            vec![vec![0, 1], vec![2, 3, 4]],
            vec![vec![0, 2], vec![1, 3, 4]],
            vec![vec![0], vec![1, 2, 3, 4]],
        ]
    );
}

#[test]
fn stirling2_edge_cases() {
    assert_eq!(stirling2(0, 0), vec![Vec::<Vec<usize>>::new()]);
    assert_eq!(stirling2(3, 3), vec![vec![vec![0], vec![1], vec![2]]]);
    assert_eq!(stirling2(3, 1), vec![vec![vec![0, 1, 2]]]);
    assert_eq!(stirling2(1, 1), vec![vec![vec![0]]]);
    assert_eq!(stirling2(0, 1), vec![vec![Vec::<usize>::new()]]);
}

fn stirling_number(n: usize, k: usize) -> usize {
    if k == 1 || n == k {
        1
    } else if n == 0 || k == 0 {
        0
    } else {
        stirling_number(n - 1, k - 1) + k * stirling_number(n - 1, k)
    }
}

#[test]
fn stirling2_lists_distinct_partitions_of_all_nodes() {
    for n in 1..8usize {
        for k in 1..=n {
            let ret = stirling2(n, k);
            assert_eq!(ret.len(), stirling_number(n, k));
            for p in &ret {
                assert_eq!(p.len(), k);
                let mut seen = vec![false; n];
                for group in p {
                    assert!(!group.is_empty());
                    for &x in group {
                        assert!(x < n);
                        assert!(!seen[x]);
                        seen[x] = true;
                    }
                }
                assert!(seen.iter().all(|&s| s));
            }
            for i in 0..ret.len() {
                for j in (i + 1)..ret.len() {
                    assert_ne!(ret[i], ret[j]);
                }
            }
        }
    }
}

#[test]
fn filter_partitions_drops_scenarios_that_group_a_node_with_its_twin() {
    // Seven nodes tolerate two faults: nodes 0 and 1 have twins 7 and 8.
    let list = vec![
        vec![vec![0, 7], vec![1, 2, 3, 4, 5, 6, 8]],
        vec![vec![0, 1], vec![2, 3, 4, 5, 6, 7, 8]],
        vec![vec![1, 8, 0], vec![2, 3, 4, 5, 6, 7]],
        vec![vec![0, 8], vec![1, 7, 2, 3, 4, 5, 6]],
    ];
    let kept = filter_partitions(list, 7);
    assert_eq!(
        kept,
        vec![
            vec![vec![0, 1], vec![2, 3, 4, 5, 6, 7, 8]],
            vec![vec![0, 8], vec![1, 7, 2, 3, 4, 5, 6]],
        ]
    );
    // Filtering again keeps every kept scenario.
    let again = filter_partitions(kept.clone(), 7);
    assert_eq!(again, kept);
}

#[test]
fn filter_partitions_keeps_everything_without_faults() {
    // Three nodes tolerate no fault, so there are no twins to separate.
    let list = stirling2(3, 2);
    assert_eq!(filter_partitions(list.clone(), 3), list);
}

#[test]
fn copy_partition_copies_every_group() {
    let p = vec![vec![3, 1], vec![], vec![2]];
    assert_eq!(copy_partition(&p), p);
}

#[test]
fn stirling_count_follows_the_recurrence() {
    assert_eq!(stirling_count(4, 3), Some(6));
    assert_eq!(stirling_count(5, 2), Some(15));
    assert_eq!(stirling_count(10, 4), Some(34105));
    assert_eq!(stirling_count(7, 1), Some(1));
    assert_eq!(stirling_count(0, 0), Some(1));
    assert_eq!(stirling_count(3, 0), Some(0));
    assert_eq!(stirling_count(6, 3), Some(stirling2(6, 3).len()));
    // S(n, 2) = 2^(n-1) - 1, which no 64-bit usize holds for n = 70.
    assert_eq!(stirling_count(20, 2), Some((1 << 19) - 1));
    assert_eq!(stirling_count(70, 2), None);
}

#[test]
fn stirling2_groups_are_increasing_and_ordered_by_first_node() {
    for (n, k) in [(5, 2), (6, 3), (4, 4), (7, 1)] {
        for p in stirling2(n, k) {
            for g in &p {
                assert!(g.windows(2).all(|w| w[0] < w[1]));
            }
            assert!(p.windows(2).all(|w| w[0][0] < w[1][0]));
        }
    }
}
