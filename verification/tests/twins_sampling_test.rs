use libra_twins::twins::sampling::{entries_at, filter_n_elements, positions_without_replacement};

#[test]
fn option_zero_keeps_the_first_n() {
    let mut list = vec![10, 11, 12, 13];
    filter_n_elements(&mut list, 2, 0);
    assert_eq!(list, vec![10, 11]);
    let mut list = vec![10, 11];
    filter_n_elements(&mut list, 5, 0);
    assert_eq!(list, vec![10, 11]);
}

#[test]
fn option_one_picks_distinct_entries() {
    let source: Vec<u32> = (0..20).collect();
    for _ in 0..20 {
        let mut list = source.clone();
        filter_n_elements(&mut list, 7, 1);
        assert_eq!(list.len(), 7);
        for x in &list {
            assert!(source.contains(x));
        }
        for i in 0..list.len() {
            for j in (i + 1)..list.len() {
                assert_ne!(list[i], list[j]);
            }
        }
    }
    let mut small = vec![1, 2, 3];
    filter_n_elements(&mut small, 3, 1);
    assert_eq!(small, vec![1, 2, 3]);
    // Picking all but none still leaves distinct entries.
    let mut list = source.clone();
    filter_n_elements(&mut list, 19, 1);
    let mut sorted = list.clone();
    sorted.sort();
    sorted.dedup();
    assert_eq!(sorted.len(), 19);
}

#[test]
fn option_two_picks_with_replacement_and_may_grow_the_list() {
    let source = vec![5u8, 6, 7];
    let mut list = source.clone();
    filter_n_elements(&mut list, 10, 2);
    assert_eq!(list.len(), 10);
    for x in &list {
        assert!(source.contains(x));
    }
    let mut list = source.clone();
    filter_n_elements(&mut list, 0, 2);
    assert!(list.is_empty());
}

#[test]
fn draws_pick_by_rank_among_the_positions_left() {
    // Pool 0..5: rank 2 picks 2, then pool [0,1,3,4]: rank 3 picks 4,
    // then pool [0,1,3]: rank 0 picks 0.
    assert_eq!(positions_without_replacement(5, &vec![2, 3, 0]), vec![2, 4, 0]);
    assert_eq!(positions_without_replacement(3, &vec![]), Vec::<usize>::new());
    assert_eq!(positions_without_replacement(3, &vec![2, 1, 0]), vec![2, 1, 0]);
}

#[test]
fn entries_at_follows_the_positions() {
    let source = vec!["a", "b", "c"];
    assert_eq!(entries_at(&source, &vec![2, 0, 2]), vec!["c", "a", "c"]);
}
