//! Counting items over a dataset: which items occur, and in how many
//! transactions each of them is present.

use vstd::prelude::*;
use crate::itemset::{
    is_itemset, holds_all, support, covers, rows, contains_item, lemma_count_take_succ,
    lemma_count_positive,
};
use crate::canonical::{insert_item, lemma_with_item};

verus! {

/// Some transaction of `d` holds the item `x`.
pub open spec fn occurs(d: Seq<Seq<i32>>, x: i32) -> bool {
    exists|t: int| 0 <= t < d.len() && (#[trigger] d[t]).contains(x)
}

/// A transaction holds the one-item itemset of `x` exactly when it contains
/// `x`.
pub proof fn lemma_holds_single(t: Seq<i32>, x: i32)
    ensures
        holds_all(t, seq![x]) <==> t.contains(x),
{
    if t.contains(x) {
        assert forall|i: int| 0 <= i < seq![x].len() implies t.contains(#[trigger] seq![x][i]) by {}
    }
    if holds_all(t, seq![x]) {
        assert(t.contains(seq![x][0]));
    }
}

/// An item occurs in the first `t + 1` transactions if it occurs in the first
/// `t` or in the next one.
pub proof fn lemma_occurs_take_succ(d: Seq<Seq<i32>>, t: int, x: i32)
    requires
        0 <= t < d.len(),
    ensures
        occurs(d.take(t + 1), x) <==> (occurs(d.take(t), x) || d[t].contains(x)),
{
    let e1 = d.take(t + 1);
    let e0 = d.take(t);
    if occurs(e1, x) {
        let u = choose|u: int| 0 <= u < e1.len() && (#[trigger] e1[u]).contains(x);
        if u < t {
            assert(e0[u] == e1[u]);
        }
    }
    if occurs(e0, x) {
        let u = choose|u: int| 0 <= u < e0.len() && (#[trigger] e0[u]).contains(x);
        assert(e1[u] == e0[u]);
    }
    if d[t].contains(x) {
        assert(e1[t] == d[t]);
    }
}

/// An item with positive support occurs in the dataset.
pub proof fn lemma_supported_occurs(d: Seq<Seq<i32>>, x: i32)
    requires
        support(d, seq![x]) > 0,
    ensures
        occurs(d, x),
{
    let w = crate::itemset::lemma_support_witness(d, seq![x]);
    lemma_holds_single(d[w], x);
}

/// The items that occur in the dataset, each once, in ascending order.
pub fn distinct_items(dataset: &Vec<Vec<i32>>) -> (items: Vec<i32>)
    ensures
        is_itemset(items@),
        forall|x: i32| items@.contains(x) <==> occurs(rows(dataset@), x),
{
    let ghost d = rows(dataset@);
    let mut items: Vec<i32> = Vec::new();
    let mut t: usize = 0;
    while t < dataset.len()
        invariant
            t <= dataset.len(),
            d == rows(dataset@),
            is_itemset(items@),
            forall|x: i32| items@.contains(x) <==> occurs(d.take(t as int), x),
        decreases dataset.len() - t,
    {
        let txn = &dataset[t];
        let mut j: usize = 0;
        while j < txn.len()
            invariant
                j <= txn.len(),
                t < dataset.len(),
                d == rows(dataset@),
                txn@ == d[t as int],
                is_itemset(items@),
                forall|x: i32|
                    items@.contains(x) <==> (occurs(d.take(t as int), x) || txn@.take(
                        j as int,
                    ).contains(x)),
            decreases txn.len() - j,
        {
            let ghost before = items@;
            let v = txn[j];
            insert_item(&mut items, v);
            proof {
                if !before.contains(v) {
                    lemma_with_item(before, v);
                }
                assert(txn@.take(j + 1) =~= txn@.take(j as int).push(v));
                assert forall|x: i32|
                    items@.contains(x) <==> (occurs(d.take(t as int), x) || txn@.take(
                        j + 1,
                    ).contains(x)) by {
                    vstd::seq_lib::lemma_seq_contains_after_push(txn@.take(j as int), v, x);
                    if before.contains(v) {
                        assert(items@ == before);
                    } else {
                        assert(items@ == crate::canonical::with_item(before, v));
                        assert(items@.contains(x) <==> (x == v || before.contains(x)));
                    }
                }
            }
            j += 1;
        }
        proof {
            assert(txn@.take(txn.len() as int) =~= txn@);
            assert forall|x: i32| items@.contains(x) <==> occurs(d.take(t + 1), x) by {
                lemma_occurs_take_succ(d, t as int, x);
            }
        }
        t += 1;
    }
    proof {
        assert(d.take(d.len() as int) =~= d);
    }
    items
}

/// The number of transactions of the dataset that hold `item`.
pub fn item_support(dataset: &Vec<Vec<i32>>, item: i32) -> (c: usize)
    ensures
        c == support(rows(dataset@), seq![item]),
{
    let ghost d = rows(dataset@);
    let mut c: usize = 0;
    let mut t: usize = 0;
    while t < dataset.len()
        invariant
            t <= dataset.len(),
            d == rows(dataset@),
            c <= t,
            c == support(d.take(t as int), seq![item]),
        decreases dataset.len() - t,
    {
        proof {
            lemma_count_take_succ(d, t as int, covers(seq![item]));
            lemma_holds_single(d[t as int], item);
        }
        if contains_item(&dataset[t], item) {
            c += 1;
        }
        t += 1;
    }
    proof {
        assert(d.take(d.len() as int) =~= d);
    }
    c
}

/// An item that occurs in the dataset has positive support.
pub proof fn lemma_occurs_supported(d: Seq<Seq<i32>>, x: i32)
    requires
        occurs(d, x),
    ensures
        support(d, seq![x]) >= 1,
{
    let t = choose|t: int| 0 <= t < d.len() && (#[trigger] d[t]).contains(x);
    lemma_holds_single(d[t], x);
    assert(covers(seq![x])(d[t]));
    lemma_count_positive(d, covers(seq![x]));
}

/// The items of a frequency table, in its order.
pub open spec fn table_items(frequent: Seq<(i32, usize)>) -> Seq<i32> {
    Seq::new(frequent.len(), |i: int| frequent[i].0)
}

/// The order of a frequency table: the larger count first, and of two
/// equal counts the smaller item first.
pub open spec fn ordered_before(x: (i32, usize), y: (i32, usize)) -> bool {
    x.1 > y.1 || (x.1 == y.1 && x.0 < y.0)
}

/// `f` lists the items that occur in `d` and are held by at least `min`
/// transactions, each with the number of transactions that hold it, by
/// descending count and, among equal counts, ascending item.
pub open spec fn is_frequency_table(d: Seq<Seq<i32>>, min: nat, f: Seq<(i32, usize)>) -> bool {
    &&& forall|j: int|
        0 <= j < f.len() ==> {
            &&& (#[trigger] f[j]).1 == support(d, seq![f[j].0])
            &&& f[j].1 >= min
            &&& f[j].1 >= 1
        }
    &&& forall|x: i32|
        #[trigger] table_items(f).contains(x) <==> (occurs(d, x) && support(d, seq![x]) >= min)
    &&& forall|i: int, j: int|
        0 <= i < j < f.len() ==> ordered_before(#[trigger] f[i], #[trigger] f[j])
}

/// No item stands twice in a frequency table.
pub proof fn lemma_table_items_distinct(d: Seq<Seq<i32>>, min: nat, f: Seq<(i32, usize)>)
    requires
        is_frequency_table(d, min, f),
    ensures
        table_items(f).no_duplicates(),
{
    let o = table_items(f);
    assert forall|i: int, j: int| 0 <= i < o.len() && 0 <= j < o.len() && i != j implies o[i]
        != o[j] by {
        if i < j {
            assert(ordered_before(f[i], f[j]));
        } else {
            assert(ordered_before(f[j], f[i]));
        }
    }
}

/// A table with a row inserted has the items it had, and the item of the new
/// row.
pub proof fn lemma_table_items_insert(f: Seq<(i32, usize)>, p: int, e: (i32, usize), x: i32)
    requires
        0 <= p <= f.len(),
    ensures
        table_items(f.insert(p, e)).contains(x) <==> (x == e.0 || table_items(f).contains(x)),
{
    let g = f.insert(p, e);
    let o = table_items(f);
    let q = table_items(g);
    if q.contains(x) {
        let i = choose|i: int| 0 <= i < q.len() && q[i] == x;
        if i < p {
            assert(o[i] == x);
        } else if i > p {
            assert(o[i - 1] == x);
        }
    }
    if x == e.0 {
        assert(q[p] == x);
    }
    if o.contains(x) {
        let i = choose|i: int| 0 <= i < o.len() && o[i] == x;
        if i < p {
            assert(q[i] == x);
        } else {
            assert(q[i + 1] == x);
        }
    }
}

/// The frequency filter: the items that at least `min_support_count`
/// transactions hold, with their counts, most frequent first.
pub fn find_frequent_items(transactions: &Vec<Vec<i32>>, min_support_count: usize) -> (f: Vec<
    (i32, usize),
>)
    ensures
        is_frequency_table(rows(transactions@), min_support_count as nat, f@),
{
    let ghost d = rows(transactions@);
    let ghost min = min_support_count as nat;
    let items = distinct_items(transactions);
    let mut f: Vec<(i32, usize)> = Vec::new();
    let mut m: usize = 0;
    while m < items.len()
        invariant
            m <= items.len(),
            d == rows(transactions@),
            min == min_support_count as nat,
            is_itemset(items@),
            forall|x: i32| items@.contains(x) <==> occurs(d, x),
            forall|j: int|
                0 <= j < f.len() ==> {
                    &&& (#[trigger] f[j]).1 == support(d, seq![f[j].0])
                    &&& f[j].1 >= min
                    &&& f[j].1 >= 1
                    &&& items@.contains(f[j].0)
                },
            forall|j: int, m1: int|
                0 <= j < f.len() && m <= m1 < items.len() ==> (#[trigger] f[j]).0
                    < #[trigger] items[m1],
            forall|m0: int|
                0 <= m0 < m && support(d, seq![#[trigger] items[m0]]) >= min ==> table_items(
                    f@,
                ).contains(items[m0]),
            forall|i: int, j: int|
                0 <= i < j < f.len() ==> ordered_before(#[trigger] f[i], #[trigger] f[j]),
        decreases items.len() - m,
    {
        let item = items[m];
        let c = item_support(transactions, item);
        if c >= min_support_count {
            let ghost before = f@;
            let mut p: usize = 0;
            while p < f.len() && f[p].1 >= c
                invariant
                    p <= f.len(),
                    f@ == before,
                    forall|i: int| 0 <= i < p ==> (#[trigger] f[i]).1 >= c,
                decreases f.len() - p,
            {
                p += 1;
            }
            f.insert(p, (item, c));
            proof {
                let e = (item, c);
                assert(items@.contains(items[m as int]));
                lemma_occurs_supported(d, item);
                assert(forall|i: int| 0 <= i < p ==> f[i] == before[i]);
                assert(f[p as int] == e);
                assert(forall|i: int| p < i < f.len() ==> f[i] == before[i - 1]);
                assert forall|j: int| p <= j < before.len() implies (#[trigger] before[j]).1 < c by {
                    if j > p {
                        assert(ordered_before(before[p as int], before[j]));
                    }
                }
                assert forall|i: int, j: int| 0 <= i < j < f.len() implies ordered_before(
                    #[trigger] f[i],
                    #[trigger] f[j],
                ) by {
                    if j < p {
                        assert(ordered_before(before[i], before[j]));
                    } else if j == p {
                        assert(before[i].1 >= c);
                        assert(before[i].0 < items[m as int]);
                    } else if i < p {
                        assert(ordered_before(before[i], before[j - 1]));
                    } else if i == p {
                        assert(before[j - 1].1 < c);
                    } else {
                        assert(ordered_before(before[i - 1], before[j - 1]));
                    }
                }
                assert forall|j: int| 0 <= j < f.len() implies {
                    &&& (#[trigger] f[j]).1 == support(d, seq![f[j].0])
                    &&& f[j].1 >= min
                    &&& f[j].1 >= 1
                    &&& items@.contains(f[j].0)
                } by {
                    if j < p {
                        assert(f[j] == before[j]);
                    } else if j > p {
                        assert(f[j] == before[j - 1]);
                    }
                }
                assert forall|j: int, m1: int|
                    0 <= j < f.len() && m + 1 <= m1 < items.len() implies (#[trigger] f[j]).0
                    < #[trigger] items[m1] by {
                    if j < p {
                        assert(f[j] == before[j]);
                    } else if j > p {
                        assert(f[j] == before[j - 1]);
                    } else {
                        assert(items[m as int] < items[m1]);
                    }
                }
                assert forall|m0: int|
                    0 <= m0 < m + 1 && support(d, seq![#[trigger] items[m0]])
                        >= min implies table_items(f@).contains(items[m0]) by {
                    lemma_table_items_insert(before, p as int, e, items[m0]);
                }
            }
        }
        m += 1;
    }
    proof {
        assert forall|x: i32|
            #[trigger] table_items(f@).contains(x) <==> (occurs(d, x) && support(d, seq![x])
                >= min) by {
            if table_items(f@).contains(x) {
                let j = choose|j: int| 0 <= j < table_items(f@).len() && table_items(f@)[j] == x;
                assert(f[j].0 == x);
            }
            if occurs(d, x) && support(d, seq![x]) >= min {
                assert(items@.contains(x));
                let m0 = choose|m0: int| 0 <= m0 < items.len() && items[m0] == x;
                assert(table_items(f@).contains(items[m0]));
            }
        }
    }
    f
}

/// The items of the order that the transaction holds, in that order.
pub open spec fn projection(order: Seq<i32>, t: Seq<i32>) -> Seq<i32> {
    order.filter(held_by(t))
}

/// The predicate "the transaction `t` holds this item".
pub open spec fn held_by(t: Seq<i32>) -> spec_fn(i32) -> bool {
    |x: i32| t.contains(x)
}

/// The projections of all transactions of the dataset.
pub open spec fn projections(d: Seq<Seq<i32>>, order: Seq<i32>) -> Seq<Seq<i32>> {
    Seq::new(d.len(), |i: int| projection(order, d[i]))
}

/// Keeps the frequent items of a transaction and puts them in the order
/// of the frequency table.
pub fn project(t: &Vec<i32>, frequent: &Vec<(i32, usize)>) -> (r: Vec<i32>)
    ensures
        r@ == projection(table_items(frequent@), t@),
{
    let ghost order = table_items(frequent@);
    let ghost p = held_by(t@);
    let mut r: Vec<i32> = Vec::new();
    let mut i: usize = 0;
    proof {
        reveal(Seq::filter);
        assert(order.take(0) =~= Seq::empty());
    }
    while i < frequent.len()
        invariant
            i <= frequent.len(),
            order == table_items(frequent@),
            p == held_by(t@),
            r@ == order.take(i as int).filter(p),
        decreases frequent.len() - i,
    {
        let x = frequent[i].0;
        proof {
            assert(order.take(i + 1) =~= order.take(i as int).push(x));
            order.take(i as int).lemma_filter_push(x, p);
        }
        if contains_item(t, x) {
            r.push(x);
        }
        i += 1;
    }
    proof {
        assert(order.take(frequent.len() as int) =~= order);
    }
    r
}

/// The projection of a transaction holds exactly the items of the order
/// that the transaction holds.
pub proof fn lemma_projection_members(order: Seq<i32>, t: Seq<i32>, x: i32)
    ensures
        projection(order, t).contains(x) <==> (order.contains(x) && t.contains(x)),
{
    let p = held_by(t);
    let f = order.filter(p);
    if f.contains(x) {
        order.lemma_filter_contains_rev(p, x);
        let i = choose|i: int| 0 <= i < f.len() && f[i] == x;
        order.lemma_filter_pred(p, i);
    }
    if order.contains(x) && t.contains(x) {
        let i = choose|i: int| 0 <= i < order.len() && order[i] == x;
        order.lemma_filter_contains(p, i);
    }
}

/// Every item of a projection is an item of the order.
pub proof fn lemma_projection_in_order(order: Seq<i32>, t: Seq<i32>)
    ensures
        holds_all(order, projection(order, t)),
{
    let f = projection(order, t);
    assert forall|i: int| 0 <= i < f.len() implies order.contains(#[trigger] f[i]) by {
        assert(f.contains(f[i]));
        lemma_projection_members(order, t, f[i]);
    }
}

} // verus!
