use mpsm::ideal::hash_join_ideal;
use mpsm::ideal::mem_scan;
use mpsm::ideal::mem_strided_4_scan;
use mpsm::ideal::mem_strided_scan;
use mpsm::ideal::rust_sort;
use mpsm::ideal::sort_ideal;
use mpsm::ideal::sort_merge_join_ideal;
use mpsm::join::nested_loop_join;
use mpsm::tuples::Joined;
use mpsm::tuples::Tuple;

#[test]
fn mem_scan_folds_everything() {
    assert_eq!(mem_scan(&vec![1, 2, 4, 8]), 15);
    assert_eq!(mem_scan(&vec![7, 7]), 0);
    assert_eq!(mem_scan(&Vec::new()), 0);
}

#[test]
fn strided_scans_match_plain_scan_on_even_lengths() {
    let input = vec![3, 1, 4, 1, 5, 9, 2, 6];
    assert_eq!(mem_strided_scan(&input), mem_scan(&input));
    assert_eq!(mem_strided_4_scan(&input), mem_scan(&input));
}

#[test]
fn sort_ideal_places_each_value() {
    assert_eq!(sort_ideal(&vec![3, 1, 0, 2]), vec![0, 1, 2, 3]);
}

#[test]
fn rust_sort_sorts_permutation() {
    assert_eq!(rust_sort(vec![4, 2, 0, 3, 1]), vec![0, 1, 2, 3, 4]);
}

#[test]
fn rust_sort_sorts_arbitrary_values() {
    assert_eq!(rust_sort(vec![9, 1, 9, 3]), vec![1, 3, 9, 9]);
    assert_eq!(rust_sort(Vec::new()), Vec::<usize>::new());
}

#[test]
fn ideal_joins_produce_zero_deltas() {
    let left = vec![2, 0, 1];
    let right = vec![3, 1, 0, 2];
    assert_eq!(sort_merge_join_ideal(&left, &right), vec![0, 0, 0]);
    assert_eq!(hash_join_ideal(&left, &right), vec![0, 0, 0]);
}

#[test]
fn duplicate_keys_cross_product_counts() {
    // Key 7 appears three times on the left and twice on the right: the join
    // holds exactly six records with that key.
    let left = vec![
        Tuple::new(7, 1),
        Tuple::new(7, 2),
        Tuple::new(7, 3),
        Tuple::new(1, 4),
    ];
    let right = vec![Tuple::new(7, 5), Tuple::new(2, 6), Tuple::new(7, 7)];
    let out = nested_loop_join(&left, &right);
    let with_key_7 = out.iter().filter(|j: &&Joined| j.key == 7).count();
    assert_eq!(with_key_7, 6);
    assert_eq!(out.len(), 6);
}
