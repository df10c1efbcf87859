use itemset_mining::canonical::insert_item;
use itemset_mining::itemset::{contains_item, copy_items, same_items};
use itemset_mining::patterns::{add_count, find_pattern, merge_add, set_count};
use itemset_mining::tids::{copy_tids, intersect_tids, tids_of_item};

#[test]
fn insert_keeps_itemsets_canonical() {
    let mut s: Vec<i32> = Vec::new();
    insert_item(&mut s, 5);
    insert_item(&mut s, -3);
    insert_item(&mut s, 9);
    insert_item(&mut s, 5);
    insert_item(&mut s, 7);
    assert_eq!(s, vec![-3, 5, 7, 9]);
    insert_item(&mut s, i32::MIN);
    insert_item(&mut s, i32::MAX);
    assert_eq!(s, vec![i32::MIN, -3, 5, 7, 9, i32::MAX]);
}

#[test]
fn item_sequences_compare_and_copy() {
    assert!(contains_item(&vec![3, 1, 2], 2));
    assert!(!contains_item(&vec![3, 1, 2], 4));
    assert!(!contains_item(&Vec::new(), 0));
    assert!(same_items(&vec![1, 2], &vec![1, 2]));
    assert!(!same_items(&vec![1, 2], &vec![2, 1]));
    assert!(!same_items(&vec![1, 2], &vec![1, 2, 3]));
    assert_eq!(copy_items(&vec![4, 4, 1]), vec![4, 4, 1]);
    assert_eq!(copy_tids(&vec![0, 8]), vec![0, 8]);
}

#[test]
fn transaction_id_lists_intersect() {
    let dataset = vec![vec![1, 2], vec![2], vec![1], vec![2, 1, 1]];
    assert_eq!(tids_of_item(&dataset, 1), vec![0, 2, 3]);
    assert_eq!(tids_of_item(&dataset, 2), vec![0, 1, 3]);
    assert!(tids_of_item(&dataset, 3).is_empty());
    assert_eq!(intersect_tids(&vec![0, 2, 3], &vec![0, 1, 3]), vec![0, 3]);
    assert_eq!(intersect_tids(&vec![1, 4, 6, 9], &vec![0, 4, 5, 9, 11]), vec![4, 9]);
    assert!(intersect_tids(&vec![1, 2], &Vec::new()).is_empty());
    assert!(intersect_tids(&vec![1, 3], &vec![2, 4]).is_empty());
}

#[test]
fn pattern_tables_set_and_add() {
    let mut t: Vec<(Vec<i32>, usize)> = Vec::new();
    set_count(&mut t, vec![1, 2], 3);
    set_count(&mut t, vec![2], 5);
    set_count(&mut t, vec![1, 2], 4);
    assert_eq!(t, vec![(vec![1, 2], 4), (vec![2], 5)]);
    add_count(&mut t, vec![2], 2);
    add_count(&mut t, vec![7], 1);
    assert_eq!(t, vec![(vec![1, 2], 4), (vec![2], 7), (vec![7], 1)]);
    assert_eq!(find_pattern(&t, &vec![2]), Some(1));
    assert_eq!(find_pattern(&t, &vec![3]), None);
    let other = vec![(vec![7], 10usize), (vec![8, 9], 2usize)];
    merge_add(&mut t, &other);
    assert_eq!(t, vec![(vec![1, 2], 4), (vec![2], 7), (vec![7], 11), (vec![8, 9], 2)]);
}
