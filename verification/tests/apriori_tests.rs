use itemset_mining::apriori::{
    apriori, apriori_gen, apriori_orig, gen_lk, generate_l1, has_infrequent_subset, level_contains,
    same_prefix,
};
use std::collections::HashMap;

fn as_map(rows: Vec<(Vec<i32>, usize)>) -> HashMap<Vec<i32>, usize> {
    let n = rows.len();
    let m: HashMap<Vec<i32>, usize> = rows.into_iter().collect();
    assert_eq!(m.len(), n);
    m
}

fn scenario() -> Vec<Vec<i32>> {
    vec![vec![1, 2, 3], vec![1, 2], vec![1, 3], vec![2, 3], vec![1]]
}

fn true_support(dataset: &Vec<Vec<i32>>, itemset: &Vec<i32>) -> usize {
    dataset.iter().filter(|t| itemset.iter().all(|x| t.contains(x))).count()
}

#[test]
fn apriori_concrete_scenario() {
    let got = as_map(apriori(&scenario(), 2));
    let mut want: HashMap<Vec<i32>, usize> = HashMap::new();
    want.insert(vec![1], 4);
    want.insert(vec![2], 3);
    want.insert(vec![3], 3);
    want.insert(vec![1, 2], 2);
    want.insert(vec![1, 3], 2);
    want.insert(vec![2, 3], 2);
    assert_eq!(got, want);
}

#[test]
fn apriori_scenario_levels() {
    let dataset = scenario();
    let l1 = generate_l1(&dataset, 2);
    assert_eq!(
        l1,
        vec![
            (vec![1], vec![0, 1, 2, 4]),
            (vec![2], vec![0, 1, 3]),
            (vec![3], vec![0, 2, 3]),
        ]
    );
    let c2 = apriori_gen(&l1);
    let c2_map: HashMap<Vec<i32>, Vec<usize>> = c2.iter().cloned().collect();
    assert_eq!(c2_map.len(), 3);
    assert_eq!(c2_map[&vec![1, 2]], vec![0, 1]);
    assert_eq!(c2_map[&vec![1, 3]], vec![0, 2]);
    assert_eq!(c2_map[&vec![2, 3]], vec![0, 3]);
    let l2 = gen_lk(c2, 2);
    assert_eq!(l2.len(), 3);
    let c3 = apriori_gen(&l2);
    assert_eq!(c3, vec![(vec![1, 2, 3], vec![0])]);
    let l3 = gen_lk(c3, 2);
    assert!(l3.is_empty());
}

#[test]
fn apriori_orig_returns_levels() {
    let levels = apriori_orig(&scenario(), 2);
    assert_eq!(levels.len(), 2);
    assert_eq!(levels[0].len(), 3);
    assert_eq!(levels[1].len(), 3);
    let all = apriori_orig(&scenario(), 1);
    assert_eq!(all.len(), 3);
    assert_eq!(all[2], vec![(vec![1, 2, 3], vec![0])]);
    assert!(apriori_orig(&scenario(), 0).is_empty());
    let none = apriori_orig(&scenario(), 6);
    assert_eq!(none.len(), 1);
    assert!(none[0].is_empty());
}

#[test]
fn apriori_is_sound_and_complete_on_a_small_dataset() {
    let dataset = vec![
        vec![5, 1, 9],
        vec![9, 5],
        vec![1, 5, 7, 9],
        vec![7],
        vec![1, 9, 5],
        vec![2, 7, 9],
    ];
    for min in 1..=6usize {
        let got = as_map(apriori(&dataset, min));
        for (itemset, count) in got.iter() {
            assert!(true_support(&dataset, itemset) >= min);
            assert_eq!(true_support(&dataset, itemset), *count);
            assert!(itemset.windows(2).all(|w| w[0] < w[1]));
        }
        let items = vec![1, 2, 5, 7, 9];
        for mask in 1u32..(1 << items.len()) {
            let mut itemset: Vec<i32> = Vec::new();
            for (i, x) in items.iter().enumerate() {
                if mask & (1 << i) != 0 {
                    itemset.push(*x);
                }
            }
            let n = true_support(&dataset, &itemset);
            if n >= min {
                assert_eq!(got.get(&itemset), Some(&n));
            } else {
                assert_eq!(got.get(&itemset), None);
            }
        }
    }
}

#[test]
fn apriori_ignores_order() {
    let a = vec![vec![1, 2, 3], vec![1, 2], vec![1, 3], vec![2, 3], vec![1]];
    let b = vec![vec![1], vec![3, 2], vec![3, 1], vec![2, 1], vec![3, 1, 2]];
    assert_eq!(as_map(apriori(&a, 2)), as_map(apriori(&b, 2)));
    assert_eq!(as_map(apriori(&a, 1)), as_map(apriori(&b, 1)));
}

#[test]
fn apriori_counts_a_repeated_item_once() {
    let dataset = vec![vec![4, 4, 4], vec![4, 6, 6], vec![6]];
    let got = as_map(apriori(&dataset, 2));
    let mut want: HashMap<Vec<i32>, usize> = HashMap::new();
    want.insert(vec![4], 2);
    want.insert(vec![6], 2);
    assert_eq!(got, want);
}

#[test]
fn apriori_empty_inputs() {
    let empty: Vec<Vec<i32>> = Vec::new();
    assert!(apriori(&empty, 1).is_empty());
    assert!(apriori(&empty, 0).is_empty());
    assert!(apriori(&scenario(), 6).is_empty());
    assert!(apriori(&scenario(), 0).is_empty());
    assert!(apriori(&vec![Vec::new(), Vec::new()], 1).is_empty());
}

#[test]
fn apriori_threshold_equal_to_dataset_size() {
    let dataset = vec![vec![1, 2], vec![2, 1, 3], vec![2, 1]];
    let got = as_map(apriori(&dataset, 3));
    let mut want: HashMap<Vec<i32>, usize> = HashMap::new();
    want.insert(vec![1], 3);
    want.insert(vec![2], 3);
    want.insert(vec![1, 2], 3);
    assert_eq!(got, want);
}

#[test]
fn prune_test_looks_at_every_subset() {
    let level = vec![
        (vec![1, 2], vec![0usize]),
        (vec![1, 3], vec![0usize]),
        (vec![2, 3], vec![0usize]),
        (vec![2, 4], vec![0usize]),
    ];
    assert!(!has_infrequent_subset(&vec![1, 2, 3], &level));
    assert!(has_infrequent_subset(&vec![1, 2, 4], &level));
    assert!(has_infrequent_subset(&vec![2, 3, 4], &level));
    assert!(has_infrequent_subset(&vec![1, 2], &level));
    let singles = vec![(vec![7], vec![0usize])];
    assert!(has_infrequent_subset(&vec![7], &singles));
    let with_empty = vec![(Vec::new(), vec![0usize])];
    assert!(!has_infrequent_subset(&vec![7], &with_empty));
}

#[test]
fn join_takes_pairs_that_differ_in_the_last_item_only() {
    let level = vec![
        (vec![1, 2], vec![0usize, 1, 2]),
        (vec![1, 3], vec![1usize, 2, 5]),
        (vec![2, 3], vec![1usize, 2, 7]),
        (vec![2, 5], vec![2usize]),
    ];
    let got = apriori_gen(&level);
    assert_eq!(got, vec![(vec![1, 2, 3], vec![1usize, 2])]);
    assert!(same_prefix(&vec![1, 2], &vec![1, 3]));
    assert!(!same_prefix(&vec![1, 2], &vec![2, 3]));
    assert!(!same_prefix(&vec![1, 2], &vec![1, 2, 3]));
    assert!(same_prefix(&vec![4], &vec![9]));
    assert!(level_contains(&level, &vec![2, 3]));
    assert!(!level_contains(&level, &vec![3, 2]));
}

#[test]
fn filter_keeps_rows_that_reach_the_threshold() {
    let candidates = vec![
        (vec![1, 2], vec![0usize, 1, 2]),
        (vec![1, 3], vec![1usize]),
        (vec![2, 3], vec![1usize, 2]),
    ];
    assert_eq!(
        gen_lk(candidates.clone(), 2),
        vec![(vec![1, 2], vec![0usize, 1, 2]), (vec![2, 3], vec![1usize, 2])]
    );
    assert_eq!(gen_lk(candidates.clone(), 0), candidates);
    assert!(gen_lk(candidates, 4).is_empty());
}

#[test]
fn level_one_is_empty_at_threshold_zero() {
    assert!(generate_l1(&scenario(), 0).is_empty());
    assert_eq!(generate_l1(&scenario(), 4), vec![(vec![1], vec![0, 1, 2, 4])]);
    assert!(generate_l1(&scenario(), 5).is_empty());
}
