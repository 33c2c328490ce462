use consensus_core::ordering::sort_positions;

#[test]
fn test_sort_positions_orders_by_both_parts_of_the_key() {
    let keys = vec![(3, 1), (1, 2), (3, 0), (2, 9), (1, 0)];
    assert_eq!(sort_positions(&keys), vec![4, 1, 3, 2, 0]);
}

#[test]
fn test_sort_positions_keeps_equal_keys_in_place() {
    let keys = vec![(2, 2), (1, 1), (2, 2), (1, 1), (2, 2), (0, 7)];
    assert_eq!(sort_positions(&keys), vec![5, 1, 3, 0, 2, 4]);
}

#[test]
fn test_sort_positions_of_nothing_and_of_one() {
    assert_eq!(sort_positions(&vec![]), Vec::<usize>::new());
    assert_eq!(sort_positions(&vec![(u64::MAX, u64::MAX)]), vec![0]);
}

#[test]
fn test_sort_positions_of_a_descending_run() {
    let keys = (0..50u64).rev().map(|k| (k / 5, k % 5)).collect::<Vec<_>>();
    let order = sort_positions(&keys);
    assert_eq!(order, (0..50).rev().collect::<Vec<_>>());
}
