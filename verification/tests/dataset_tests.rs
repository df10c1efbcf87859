use itemset_mining::apriori::apriori;
use itemset_mining::dataset::{generate_dataset, item_range, take_sorted};
use itemset_mining::fpgrowth::fpgrowth;
use std::collections::HashMap;

#[test]
fn item_range_counts_from_one() {
    assert_eq!(item_range(5), vec![1, 2, 3, 4, 5]);
    assert_eq!(item_range(1), vec![1]);
    assert!(item_range(0).is_empty());
}

#[test]
fn take_sorted_takes_the_head() {
    assert_eq!(take_sorted(&vec![4, 1, 5, 2, 3], 3), vec![1, 4, 5]);
    assert_eq!(take_sorted(&vec![4, 1, 5, 2, 3], 9), vec![1, 2, 3, 4, 5]);
    assert_eq!(take_sorted(&vec![4, 1, 5, 2, 3], 1), vec![4]);
    assert!(take_sorted(&vec![4, 1], 0).is_empty());
    assert_eq!(take_sorted(&vec![2, 2, 1], 3), vec![1, 2]);
}

#[test]
fn generated_transactions_are_canonical_samples() {
    let dataset = generate_dataset(200, 10, 4);
    assert_eq!(dataset.len(), 200);
    for t in dataset.iter() {
        assert!(!t.is_empty());
        assert!(t.len() <= 4);
        assert!(t.windows(2).all(|w| w[0] < w[1]));
        assert!(t.iter().all(|x| 1 <= *x && *x <= 10));
    }
    let short = generate_dataset(50, 2, 5);
    for t in short.iter() {
        assert!(!t.is_empty() && t.len() <= 2);
    }
    assert!(generate_dataset(0, 10, 4).is_empty());
    for t in generate_dataset(3, 0, 4).iter() {
        assert!(t.is_empty());
    }
}

#[test]
fn engines_agree_on_generated_data() {
    let dataset = generate_dataset(300, 12, 6);
    for min in [1usize, 5, 20, 60] {
        let a: HashMap<Vec<i32>, usize> = apriori(&dataset, min).into_iter().collect();
        let f: HashMap<Vec<i32>, usize> = fpgrowth(&dataset, min).into_iter().collect();
        assert_eq!(a, f);
        for (itemset, count) in a.iter() {
            let n = dataset.iter().filter(|t| itemset.iter().all(|x| t.contains(x))).count();
            assert_eq!(n, *count);
            assert!(n >= min);
        }
    }
}
