use disk_reclaim::ranking::descending_order;

#[test]
fn ranking_puts_larger_keys_first_and_keeps_ties_in_place() {
    assert_eq!(descending_order(&vec![]), Vec::<usize>::new());
    assert_eq!(descending_order(&vec![5]), vec![0]);
    assert_eq!(descending_order(&vec![1, 2, 3]), vec![2, 1, 0]);
    assert_eq!(descending_order(&vec![3, 2, 1]), vec![0, 1, 2]);
    assert_eq!(descending_order(&vec![7, 7, 7, 7]), vec![0, 1, 2, 3]);
    assert_eq!(descending_order(&vec![2, 9, 2, 9, 0, u64::MAX, 2]), vec![5, 1, 3, 0, 2, 6, 4]);
}

#[test]
fn ranking_is_a_permutation() {
    let keys: Vec<u64> = (0..1000u64).map(|k| (k * 7919) % 101).collect();
    let order = descending_order(&keys);
    let mut seen = vec![false; keys.len()];
    for &p in &order {
        assert!(!seen[p]);
        seen[p] = true;
    }
    assert_eq!(order.len(), keys.len());
    for pair in order.windows(2) {
        assert!(keys[pair[0]] > keys[pair[1]] || (keys[pair[0]] == keys[pair[1]] && pair[0] < pair[1]));
    }
}
