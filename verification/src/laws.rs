//! Laws of the mining result and of the tree. Both engines return a table
//! whose map is `mined(rows, threshold)`, so what is shown here of `mined`
//! holds of both.

use vstd::prelude::*;
use vstd::seq_lib::*;
use crate::itemset::{
    is_itemset, holds_all, support, covers, frequent, mined, lemma_count_permutation,
    lemma_count_pointwise, lemma_count_le_len,
};
use crate::patterns::{table_has, table_distinct, table_map, lemma_table_row};
use crate::tids::increasing;
use crate::frequency::projections;
use crate::fptree::{FPTree, created_before};

verus! {

/// Every itemset of the result is held by at least as many transactions as
/// the threshold asks, and stands with the exact number of them.
pub proof fn law_soundness(d: Seq<Seq<i32>>, min: nat, result: Seq<(Vec<i32>, usize)>, i: int)
    requires
        table_distinct(result),
        table_map(result) == mined(d, min),
        0 <= i < result.len(),
    ensures
        support(d, result[i].0@) >= min,
        result[i].1 == support(d, result[i].0@),
        is_itemset(result[i].0@),
        result[i].0@.len() >= 1,
{
    lemma_table_row(result, i);
}

/// Every non-empty canonical itemset that reaches a positive threshold
/// stands in the result with its exact support.
pub proof fn law_completeness(d: Seq<Seq<i32>>, min: nat, result: Seq<(Vec<i32>, usize)>, s: Seq<i32>)
    requires
        table_map(result) == mined(d, min),
        min >= 1,
        s.len() >= 1,
        is_itemset(s),
        support(d, s) >= min,
    ensures
        table_has(result, s),
        table_map(result)[s] == support(d, s),
{
    assert(frequent(d, min, s));
    assert(table_map(result).contains_key(s));
}

/// Putting the transactions in another order does not change what is mined.
pub proof fn law_transaction_order(d1: Seq<Seq<i32>>, d2: Seq<Seq<i32>>, min: nat)
    requires
        d1.to_multiset() == d2.to_multiset(),
    ensures
        mined(d1, min) == mined(d2, min),
{
    assert forall|s: Seq<i32>| support(d1, s) == support(d2, s) by {
        lemma_count_permutation(d1, d2, covers(s));
    }
    assert(mined(d1, min) =~= mined(d2, min));
}

/// Putting the items of each transaction in another order does not change
/// what is mined.
pub proof fn law_item_order(d1: Seq<Seq<i32>>, d2: Seq<Seq<i32>>, min: nat)
    requires
        d1.len() == d2.len(),
        forall|i: int| 0 <= i < d1.len() ==> (#[trigger] d1[i]).to_multiset() == d2[i].to_multiset(),
    ensures
        mined(d1, min) == mined(d2, min),
{
    assert forall|s: Seq<i32>| support(d1, s) == support(d2, s) by {
        assert forall|i: int| 0 <= i < d1.len() implies covers(s)(#[trigger] d1[i]) == covers(s)(
            d2[i],
        ) by {
            assert forall|x: i32| d1[i].contains(x) == d2[i].contains(x) by {
                to_multiset_contains(d1[i], x);
                to_multiset_contains(d2[i], x);
            }
            if holds_all(d1[i], s) {
                assert forall|j: int| 0 <= j < s.len() implies d2[i].contains(#[trigger] s[j]) by {
                    assert(d1[i].contains(s[j]));
                }
            }
            if holds_all(d2[i], s) {
                assert forall|j: int| 0 <= j < s.len() implies d1[i].contains(#[trigger] s[j]) by {
                    assert(d2[i].contains(s[j]));
                }
            }
        }
        lemma_count_pointwise(d1, covers(s), d2, covers(s));
    }
    assert(mined(d1, min) =~= mined(d2, min));
}

/// On the same input, the results of the two engines give every one-item
/// itemset the same count: the number of transactions that hold the item.
pub proof fn law_singletons_agree(
    d: Seq<Seq<i32>>,
    min: nat,
    by_levels: Seq<(Vec<i32>, usize)>,
    by_tree: Seq<(Vec<i32>, usize)>,
    item: i32,
)
    requires
        table_map(by_levels) == mined(d, min),
        table_map(by_tree) == mined(d, min),
    ensures
        table_has(by_levels, seq![item]) <==> table_has(by_tree, seq![item]),
        table_has(by_levels, seq![item]) ==> table_map(by_levels)[seq![item]] == table_map(
            by_tree,
        )[seq![item]] && table_map(by_tree)[seq![item]] == support(d, seq![item]),
{
    let one = seq![item];
    assert(table_map(by_levels).contains_key(one) == table_has(by_levels, one));
    assert(table_map(by_tree).contains_key(one) == table_has(by_tree, one));
}

/// With an empty dataset, or a threshold above the number of transactions,
/// nothing is mined.
pub proof fn law_empty_input(d: Seq<Seq<i32>>, min: nat)
    requires
        d.len() == 0 || min > d.len(),
    ensures
        mined(d, min) == Map::<Seq<i32>, nat>::empty(),
{
    assert forall|s: Seq<i32>| !frequent(d, min, s) by {
        lemma_count_le_len(d, covers(s));
    }
    assert(mined(d, min) =~= Map::<Seq<i32>, nat>::empty());
}

/// In a tree built from transactions, a header chain runs in order of
/// creation: of two nodes of an ascending list of nodes, the one that
/// stands first was created first.
pub proof fn law_chain_order(
    tree: FPTree,
    d: Seq<Seq<i32>>,
    min: nat,
    root: Option<(i32, usize)>,
    chain: Seq<usize>,
    i: int,
    j: int,
)
    requires
        tree.represents(d, min, root),
        increasing(chain),
        forall|x: int| 0 <= x < chain.len() ==> 1 <= #[trigger] chain[x] < tree.nodes.len(),
        0 <= i < j < chain.len(),
    ensures
        created_before(
            tree.nodes@,
            projections(d, tree.order()),
            chain[i] as int,
            chain[j] as int,
        ),
{
    assert(chain[i] < chain[j]);
}

} // verus!
