use itemset_mining::apriori::apriori;
use itemset_mining::fpgrowth::{ascending_items, fpgrowth};
use itemset_mining::fptree::{reversed, rank_of, FPNode, FPTree};
use itemset_mining::frequency::{distinct_items, find_frequent_items, item_support, project};
use itemset_mining::single_path::min_count;
use std::collections::HashMap;

fn to_map(rows: Vec<(Vec<i32>, usize)>) -> HashMap<Vec<i32>, usize> {
    let n = rows.len();
    let m: HashMap<Vec<i32>, usize> = rows.into_iter().collect();
    assert_eq!(m.len(), n);
    m
}

fn shop() -> Vec<Vec<i32>> {
    vec![vec![1, 2, 3], vec![1, 2], vec![1, 3], vec![2, 3], vec![1]]
}

fn count_holding(dataset: &Vec<Vec<i32>>, itemset: &Vec<i32>) -> usize {
    dataset.iter().filter(|t| itemset.iter().all(|x| t.contains(x))).count()
}

#[test]
fn fpgrowth_concrete_scenario() {
    let got = to_map(fpgrowth(&shop(), 2));
    let mut want: HashMap<Vec<i32>, usize> = HashMap::new();
    want.insert(vec![1], 4);
    want.insert(vec![2], 3);
    want.insert(vec![3], 3);
    want.insert(vec![1, 2], 2);
    want.insert(vec![1, 3], 2);
    want.insert(vec![2, 3], 2);
    assert_eq!(got, want);
}

#[test]
fn fpgrowth_single_path_dataset() {
    let dataset = vec![vec![3, 1, 2], vec![1, 2], vec![1]];
    let got = to_map(fpgrowth(&dataset, 1));
    let mut want: HashMap<Vec<i32>, usize> = HashMap::new();
    want.insert(vec![1], 3);
    want.insert(vec![2], 2);
    want.insert(vec![3], 1);
    want.insert(vec![1, 2], 2);
    want.insert(vec![1, 3], 1);
    want.insert(vec![2, 3], 1);
    want.insert(vec![1, 2, 3], 1);
    assert_eq!(got, want);
}

#[test]
fn engines_agree_on_singletons() {
    let dataset = vec![
        vec![10, 20, 30, 40],
        vec![20, 40],
        vec![10, 30],
        vec![50, 20, 10],
        vec![40, 30, 20],
        vec![10],
    ];
    for min in 1..=4usize {
        let a = to_map(apriori(&dataset, min));
        let f = to_map(fpgrowth(&dataset, min));
        for item in [10, 20, 30, 40, 50, 60] {
            assert_eq!(a.get(&vec![item]), f.get(&vec![item]));
        }
    }
}

#[test]
fn engines_agree_on_every_itemset() {
    let dataset = vec![
        vec![1, 2, 5],
        vec![2, 4],
        vec![2, 3],
        vec![1, 2, 4],
        vec![1, 3],
        vec![2, 3],
        vec![1, 3],
        vec![1, 2, 3, 5],
        vec![1, 2, 3],
    ];
    for min in 1..=9usize {
        let a = to_map(apriori(&dataset, min));
        let f = to_map(fpgrowth(&dataset, min));
        assert_eq!(a, f);
        for (itemset, count) in f.iter() {
            assert_eq!(count_holding(&dataset, itemset), *count);
        }
    }
    let got = to_map(fpgrowth(&dataset, 2));
    assert_eq!(got.len(), 13);
    assert_eq!(got[&vec![1, 2, 5]], 2);
    assert_eq!(got[&vec![1, 2, 3]], 2);
    assert_eq!(got[&vec![2, 4]], 2);
    assert_eq!(got[&vec![2]], 7);
}

#[test]
fn fpgrowth_ignores_order() {
    let a = vec![vec![1, 2, 3], vec![1, 2], vec![1, 3], vec![2, 3], vec![1]];
    let b = vec![vec![3, 2], vec![1], vec![2, 1], vec![2, 3, 1], vec![3, 1]];
    assert_eq!(to_map(fpgrowth(&a, 2)), to_map(fpgrowth(&b, 2)));
    assert_eq!(to_map(fpgrowth(&a, 1)), to_map(fpgrowth(&b, 1)));
}

#[test]
fn fpgrowth_counts_a_repeated_item_once() {
    let dataset = vec![vec![4, 4, 4], vec![4, 6, 6], vec![6]];
    let got = to_map(fpgrowth(&dataset, 2));
    let mut want: HashMap<Vec<i32>, usize> = HashMap::new();
    want.insert(vec![4], 2);
    want.insert(vec![6], 2);
    assert_eq!(got, want);
    let all = to_map(fpgrowth(&dataset, 1));
    assert_eq!(all.len(), 3);
    assert_eq!(all[&vec![4, 6]], 1);
}

#[test]
fn fpgrowth_empty_inputs() {
    let empty: Vec<Vec<i32>> = Vec::new();
    assert!(fpgrowth(&empty, 1).is_empty());
    assert!(fpgrowth(&empty, 0).is_empty());
    assert!(fpgrowth(&shop(), 6).is_empty());
    assert!(fpgrowth(&shop(), 0).is_empty());
    assert!(fpgrowth(&vec![Vec::new()], 1).is_empty());
}

#[test]
fn frequency_filter_counts_transactions() {
    assert_eq!(find_frequent_items(&shop(), 2), vec![(1, 4), (2, 3), (3, 3)]);
    assert_eq!(find_frequent_items(&shop(), 4), vec![(1, 4)]);
    assert!(find_frequent_items(&shop(), 5).is_empty());
    let dataset = vec![vec![9, 9, 2], vec![7, 9], vec![7, 2], vec![7]];
    assert_eq!(find_frequent_items(&dataset, 0), vec![(7, 3), (2, 2), (9, 2)]);
    assert_eq!(item_support(&dataset, 9), 2);
    assert_eq!(item_support(&dataset, 5), 0);
    assert_eq!(distinct_items(&dataset), vec![2, 7, 9]);
}

#[test]
fn projection_filters_and_orders() {
    let table = vec![(7, 3usize), (2, 2usize), (9, 2usize)];
    assert_eq!(project(&vec![9, 4, 2, 9], &table), vec![2, 9]);
    assert_eq!(project(&vec![9, 7], &table), vec![7, 9]);
    assert!(project(&vec![1, 3], &table).is_empty());
    assert_eq!(ascending_items(&table), vec![2, 7, 9]);
    assert_eq!(rank_of(&table, 9), 2);
    assert_eq!(min_count(&table, &vec![7, 9]), 2);
    assert_eq!(min_count(&table, &vec![7]), 3);
    assert_eq!(min_count(&table, &Vec::new()), 0);
    assert_eq!(reversed(&vec![1, 2, 3]), vec![3, 2, 1]);
}

#[test]
fn tree_shape_scenario() {
    let tree = FPTree::new(&shop(), 2, None);
    assert_eq!(tree.frequent, vec![(1, 4), (2, 3), (3, 3)]);
    let root = &tree.nodes[0];
    assert_eq!(root.value, None);
    assert!(root.parent.is_none());
    // the transaction [2, 3] does not hold item 1, so the root has a second child
    assert_eq!(root.children.len(), 2);
    let first = &tree.nodes[root.children[0]];
    assert_eq!(first.value, Some(1));
    assert_eq!(first.count, 4);
    let second = &tree.nodes[root.children[1]];
    assert_eq!(second.value, Some(2));
    assert_eq!(second.count, 1);
    let labelled_one: Vec<&FPNode> =
        root.children.iter().map(|c| &tree.nodes[*c]).filter(|n| n.value == Some(1)).collect();
    assert_eq!(labelled_one.len(), 1);

    let chain1 = tree.header_chain(rank_of(&tree.frequent, 1));
    assert_eq!(chain1.len(), 1);
    assert_eq!(tree.nodes[chain1[0]].count, 4);
    let chain2 = tree.header_chain(rank_of(&tree.frequent, 2));
    assert_eq!(chain2.len(), 2);
    assert_eq!(chain2.iter().map(|n| tree.nodes[*n].count).sum::<usize>(), 3);
    // first the node under item 1, then the node under the root
    assert_eq!(tree.nodes[chain2[0]].count, 2);
    assert_eq!(tree.prefix_path(chain2[0]), vec![1]);
    assert_eq!(tree.nodes[chain2[1]].count, 1);
    assert!(tree.prefix_path(chain2[1]).is_empty());
    let chain3 = tree.header_chain(rank_of(&tree.frequent, 3));
    assert_eq!(chain3.len(), 3);
    assert_eq!(chain3.iter().map(|n| tree.nodes[*n].count).sum::<usize>(), 3);
    // under 1 -> 2, then under 1, then under 2
    assert_eq!(tree.prefix_path(chain3[0]), vec![1, 2]);
    assert_eq!(tree.prefix_path(chain3[1]), vec![1]);
    assert_eq!(tree.prefix_path(chain3[2]), vec![2]);
    for n in chain3.iter() {
        assert_eq!(tree.nodes[*n].count, 1);
    }
    for n in chain3.iter() {
        assert_eq!(tree.nodes[*n].value, Some(3));
    }
    assert_eq!(tree.headers[0], Some(chain1[0]));
    assert_eq!(tree.nodes[chain2[0]].link, Some(chain2[1]));
    assert_eq!(tree.nodes[chain2[1]].link, None);
    assert!(!tree.tree_has_single_path(0));
    assert_eq!(tree.nodes.len(), 7);
}

#[test]
fn tree_paths_and_conditional_transactions() {
    let tree = FPTree::new(&shop(), 2, None);
    let chain3 = tree.header_chain(2);
    let mut paths: Vec<Vec<i32>> = chain3.iter().map(|n| tree.prefix_path(*n)).collect();
    paths.sort();
    assert_eq!(paths, vec![vec![1], vec![1, 2], vec![2]]);
    let rooted = FPTree::new(&vec![vec![1], vec![1, 2], vec![2]], 2, Some((3, 3)));
    assert_eq!(rooted.nodes[0].value, Some(3));
    assert_eq!(rooted.nodes[0].count, 3);
    assert_eq!(rooted.root_pair(), Some((3, 3)));
    assert_eq!(rooted.frequent, vec![(1, 2), (2, 2)]);
    assert_eq!(tree.root_pair(), None);
}

#[test]
fn single_path_tree_is_recognised() {
    let tree = FPTree::new(&vec![vec![3, 1, 2], vec![1, 2], vec![1]], 1, None);
    assert!(tree.tree_has_single_path(0));
    assert_eq!(tree.nodes.len(), 4);
    assert_eq!(tree.nodes[1].value, Some(1));
    assert_eq!(tree.nodes[1].count, 3);
    assert_eq!(tree.nodes[3].value, Some(3));
    assert_eq!(tree.nodes[3].parent, Some(2));
    let empty = FPTree::new(&Vec::new(), 1, None);
    assert!(empty.tree_has_single_path(0));
    assert_eq!(empty.nodes.len(), 1);
}

#[test]
fn mining_under_a_root() {
    let rooted = FPTree::new(&vec![vec![1], vec![1, 2], vec![2]], 2, Some((3, 3)));
    assert!(!rooted.tree_has_single_path(0));
    let found = to_map(rooted.mine_sub_trees(2));
    let mut plain: HashMap<Vec<i32>, usize> = HashMap::new();
    plain.insert(vec![1], 2);
    plain.insert(vec![2], 2);
    assert_eq!(found, plain);
    let got = to_map(rooted.mine_patterns(2));
    let mut want: HashMap<Vec<i32>, usize> = HashMap::new();
    want.insert(vec![3], 3);
    want.insert(vec![1, 3], 2);
    want.insert(vec![2, 3], 2);
    assert_eq!(got, want);

    let path = FPTree::new(&vec![vec![5, 9], vec![5], vec![5, 9]], 2, Some((7, 4)));
    assert!(path.tree_has_single_path(0));
    let listed = to_map(path.generate_pattern_list());
    let mut expect: HashMap<Vec<i32>, usize> = HashMap::new();
    expect.insert(vec![7], 4);
    expect.insert(vec![5, 7], 3);
    expect.insert(vec![7, 9], 2);
    expect.insert(vec![5, 7, 9], 2);
    assert_eq!(listed, expect);
    assert_eq!(to_map(path.mine_patterns(2)), expect);

    let mut base = FPTree::new(&shop(), 2, None).conditional_base(2);
    base.sort();
    assert_eq!(base, vec![vec![1], vec![1, 2], vec![2]]);
}

#[test]
fn zip_puts_the_root_item_in_place() {
    let patterns = vec![(vec![1, 9], 2usize), (vec![7], 5usize), (vec![2, 3], 1usize)];
    let rooted = FPTree::new(&Vec::new(), 1, Some((4, 8)));
    let got = rooted.zip_patterns(patterns.clone());
    assert_eq!(got, vec![(vec![1, 4, 9], 2), (vec![4, 7], 5), (vec![2, 3, 4], 1)]);
    let plain = FPTree::new(&Vec::new(), 1, None);
    assert_eq!(plain.zip_patterns(patterns.clone()), patterns);
}

#[test]
fn transactions_without_frequent_items_add_nothing() {
    let got = to_map(fpgrowth(&shop(), 4));
    let mut want: HashMap<Vec<i32>, usize> = HashMap::new();
    want.insert(vec![1], 4);
    assert_eq!(got, want);
    let tree = FPTree::new(&shop(), 4, None);
    assert_eq!(tree.nodes.len(), 2);
    assert_eq!(tree.nodes[1].count, 4);
    let three = to_map(fpgrowth(&shop(), 3));
    assert_eq!(three.len(), 3);
    assert_eq!(three[&vec![2]], 3);
}

#[test]
fn nodes_are_numbered_in_order_of_creation() {
    let tree = FPTree::new(&shop(), 2, None);
    let mut paths: Vec<Vec<i32>> = Vec::new();
    for n in 1..tree.nodes.len() {
        let mut path = tree.prefix_path(n);
        path.push(tree.nodes[n].value.unwrap());
        paths.push(path);
    }
    assert_eq!(
        paths,
        vec![vec![1], vec![1, 2], vec![1, 2, 3], vec![1, 3], vec![2], vec![2, 3]]
    );
    assert_eq!(tree.nodes[0].children, vec![1, 5]);
    assert_eq!(tree.nodes[1].children, vec![2, 4]);
    assert_eq!(tree.nodes[2].children, vec![3]);
    let counts: Vec<usize> = tree.nodes.iter().skip(1).map(|n| n.count).collect();
    assert_eq!(counts, vec![4, 2, 1, 1, 1, 1]);
    for node in tree.nodes.iter() {
        let mut kids = node.children.clone();
        kids.sort();
        kids.dedup();
        assert_eq!(kids.len(), node.children.len());
    }
}

#[test]
fn a_threshold_of_zero_mines_nothing() {
    let tree = FPTree::new(&shop(), 0, None);
    assert_eq!(tree.threshold, 0);
    assert_eq!(tree.frequent, vec![(1, 4), (2, 3), (3, 3)]);
    assert!(tree.mine_patterns(0).is_empty());
    assert!(tree.mine_sub_trees(0).is_empty());
    let path = FPTree::new(&vec![vec![5, 9], vec![5]], 0, Some((7, 4)));
    assert!(path.tree_has_single_path(0));
    assert!(path.generate_pattern_list().is_empty());
    assert!(path.mine_patterns(0).is_empty());
}
