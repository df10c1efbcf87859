use itemset_mining::apriori::apriori;
use itemset_mining::fpgrowth::fpgrowth;
use itemset_mining::fptree::FPTree;
use std::collections::HashMap;

struct Lcg(u64);

impl Lcg {
    fn next(&mut self, bound: u64) -> u64 {
        self.0 = self.0.wrapping_mul(6364136223846793005).wrapping_add(1442695040888963407);
        (self.0 >> 33) % bound
    }
}

fn make_dataset(rng: &mut Lcg, transactions: u64, items: u64, longest: u64) -> Vec<Vec<i32>> {
    let mut dataset = Vec::new();
    for _ in 0..transactions {
        let len = rng.next(longest + 1);
        let mut t = Vec::new();
        for _ in 0..len {
            t.push(rng.next(items) as i32 - 3);
        }
        dataset.push(t);
    }
    dataset
}

fn holders(dataset: &Vec<Vec<i32>>, itemset: &Vec<i32>) -> usize {
    dataset.iter().filter(|t| itemset.iter().all(|x| t.contains(x))).count()
}

fn all_itemsets(items: u64) -> Vec<Vec<i32>> {
    let mut out = Vec::new();
    for mask in 1u64..(1 << items) {
        let mut s = Vec::new();
        for i in 0..items {
            if mask & (1 << i) != 0 {
                s.push(i as i32 - 3);
            }
        }
        out.push(s);
    }
    out
}

#[test]
fn both_engines_match_a_direct_count() {
    let mut rng = Lcg(2024);
    for round in 0..40u64 {
        let items = 2 + round % 6;
        let dataset = make_dataset(&mut rng, 1 + round % 17, items, 1 + round % 7);
        for min in 1..=4usize {
            let a: HashMap<Vec<i32>, usize> = apriori(&dataset, min).into_iter().collect();
            let f: HashMap<Vec<i32>, usize> = fpgrowth(&dataset, min).into_iter().collect();
            let mut want: HashMap<Vec<i32>, usize> = HashMap::new();
            for s in all_itemsets(items) {
                let n = holders(&dataset, &s);
                if n >= min {
                    want.insert(s, n);
                }
            }
            assert_eq!(a, want);
            assert_eq!(f, want);
        }
    }
}

#[test]
fn tree_counts_add_up() {
    let mut rng = Lcg(7);
    for round in 0..20u64 {
        let dataset = make_dataset(&mut rng, 5 + round, 6, 5);
        let tree = FPTree::new(&dataset, 2, None);
        for (r, row) in tree.frequent.iter().enumerate() {
            assert_eq!(holders(&dataset, &vec![row.0]), row.1);
            let chain = tree.header_chain(r);
            let total: usize = chain.iter().map(|n| tree.nodes[*n].count).sum();
            assert_eq!(total, row.1);
            for n in chain.iter() {
                assert_eq!(tree.nodes[*n].value, Some(row.0));
            }
            assert_eq!(tree.conditional_base(r).len(), row.1);
        }
        for (n, node) in tree.nodes.iter().enumerate().skip(1) {
            let below: usize = node.children.iter().map(|c| tree.nodes[*c].count).sum();
            assert!(below <= node.count);
            assert!(node.parent.unwrap() < n);
        }
        for w in tree.frequent.windows(2) {
            assert!(w[0].1 > w[1].1 || (w[0].1 == w[1].1 && w[0].0 < w[1].0));
        }
    }
}
