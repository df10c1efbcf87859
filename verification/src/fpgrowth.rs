//! The compressed-tree engine: mines a prefix tree either directly, when
//! it is a single path, or item by item through conditional trees.

use vstd::prelude::*;
use crate::itemset::{
    is_itemset, holds_all, support, frequent, mined, rows, count_where, copy_items,
    lemma_count_positive, lemma_count_le_len, lemma_itemset_fits, lemma_distinct_fits,
    lemma_support_witness, covers,
};
use crate::canonical::{with_item, insert_item, lemma_with_item};
use crate::patterns::{
    table_has, table_distinct, table_map, merged, lemma_table_row, lemma_table_push,
    lemma_table_empty, lemma_table_take_succ, set_count, merge_add,
};
use crate::frequency::{
    table_items, is_frequency_table, projections, occurs, lemma_table_items_distinct,
};
use crate::fptree::{
    FPTree, FPNode, structure_ok, counts_ok, counted, covered, has_path, path_of, starts_with,
    lemma_path_nonempty, single_path_from,
};
use crate::conditional::{
    occurrences, mined_above, lemma_occurrences_push, lemma_occurrences_empty,
    lemma_cond_rows, lemma_conditional_result, lemma_merge_tops, lemma_mined_above_all,
    lemma_frequent_in_table,
};
use crate::single_path::{
    is_chain, table_count, min_count, lemma_chain, lemma_single_path_support, lemma_table_count,
};
use crate::combos::{combos, combinations, lemma_combos_sound, lemma_combos_complete};
use crate::tids::increasing;
use crate::rooted::{
    zipped, rooted_map, lifted, avoids_root, mined_tree, lemma_zipped_empty, lemma_zipped_insert,
    lemma_rooted_insert,
};

verus! {

/// One of the first `j` nodes of the chain has the path `q`.
pub open spec fn chain_hit(nodes: Seq<FPNode>, chain: Seq<usize>, j: int, q: Seq<i32>) -> bool {
    exists|m: int| 0 <= m < j && path_of(nodes, (#[trigger] chain[m]) as int) == q
}

/// The item of the root stands in no transaction of `d`.
pub open spec fn root_free(root: Option<(i32, usize)>, d: Seq<Seq<i32>>) -> bool {
    match root {
        None => true,
        Some(rc) => forall|i: int| 0 <= i < d.len() ==> !(#[trigger] d[i]).contains(rc.0),
    }
}

/// An itemset made of items of `items` that the enumeration by size has
/// reached: it is shorter than `size`, or it has `size` items and stands
/// among the first `upto` combinations of that size.
pub open spec fn listed(items: Seq<i32>, size: nat, upto: int, x: Seq<i32>) -> bool {
    &&& is_itemset(x)
    &&& holds_all(items, x)
    &&& x.len() >= 1
    &&& (x.len() < size || (x.len() == size && exists|j: int|
        0 <= j < upto && #[trigger] combos(items, size)[j] == x))
}

/// The itemsets that the enumeration has reached, with their supports.
pub open spec fn listed_map(d: Seq<Seq<i32>>, items: Seq<i32>, size: nat, upto: int) -> Map<
    Seq<i32>,
    nat,
> {
    Map::new(|x: Seq<i32>| listed(items, size, upto, x), |x: Seq<i32>| support(d, x))
}

/// Before the enumeration starts, nothing is listed.
pub proof fn lemma_listed_first(d: Seq<Seq<i32>>, items: Seq<i32>)
    ensures
        listed_map(d, items, 1, 0) == Map::<Seq<i32>, nat>::empty(),
{
    assert(listed_map(d, items, 1, 0) =~= Map::<Seq<i32>, nat>::empty());
}

/// Taking the next combination lists one more itemset.
pub proof fn lemma_listed_step(d: Seq<Seq<i32>>, items: Seq<i32>, size: nat, j: int, s: Seq<i32>)
    requires
        0 <= j < combos(items, size).len(),
        s == combos(items, size)[j],
        is_itemset(s),
        holds_all(items, s),
        s.len() == size,
        size >= 1,
    ensures
        listed_map(d, items, size, j + 1) == listed_map(d, items, size, j).insert(s, support(d, s)),
        forall|x: Seq<i32>| listed(items, size, j + 1, x) <==> (listed(items, size, j, x) || x == s),
{
    assert forall|x: Seq<i32>| listed(items, size, j + 1, x) <==> (listed(items, size, j, x) || x
        == s) by {
        if listed(items, size, j + 1, x) && x.len() == size {
            let m = choose|m: int| 0 <= m < j + 1 && #[trigger] combos(items, size)[m] == x;
            if m < j {
                assert(combos(items, size)[m] == x);
            }
        }
        if listed(items, size, j, x) && x.len() == size {
            let m = choose|m: int| 0 <= m < j && #[trigger] combos(items, size)[m] == x;
            assert(combos(items, size)[m] == x);
        }
        if x == s {
            assert(combos(items, size)[j] == x);
        }
    }
    assert(listed_map(d, items, size, j + 1) =~= listed_map(d, items, size, j).insert(
        s,
        support(d, s),
    ));
}

/// When the combinations of one size are through, the enumeration stands at
/// the start of the next size.
pub proof fn lemma_listed_next(d: Seq<Seq<i32>>, items: Seq<i32>, size: nat)
    requires
        is_itemset(items),
    ensures
        listed_map(d, items, size, combos(items, size).len() as int) == listed_map(
            d,
            items,
            size + 1,
            0,
        ),
        forall|x: Seq<i32>|
            listed(items, size, combos(items, size).len() as int, x) <==> listed(
                items,
                size + 1,
                0,
                x,
            ),
{
    let n = combos(items, size).len() as int;
    assert forall|x: Seq<i32>| listed(items, size, n, x) <==> listed(items, size + 1, 0, x) by {
        if listed(items, size + 1, 0, x) && x.len() == size {
            lemma_combos_complete(items, x);
            let m = choose|m: int| 0 <= m < n && combos(items, size)[m] == x;
            assert(combos(items, size)[m] == x);
        }
    }
    assert(listed_map(d, items, size, n) =~= listed_map(d, items, size + 1, 0));
}

/// When every size is through, the listed itemsets are the frequent ones, if
/// each of them is frequent.
pub proof fn lemma_listed_all(d: Seq<Seq<i32>>, min: nat, f: Seq<(i32, usize)>, items: Seq<i32>)
    requires
        is_frequency_table(d, min, f),
        is_itemset(items),
        forall|x: i32| items.contains(x) <==> table_items(f).contains(x),
        forall|x: Seq<i32>| listed(items, items.len() + 1, 0, x) ==> frequent(d, min, x),
    ensures
        listed_map(d, items, items.len() + 1, 0) == mined(d, min),
{
    assert forall|x: Seq<i32>| frequent(d, min, x) implies listed(items, items.len() + 1, 0, x) by {
        lemma_frequent_in_table(d, min, f, x);
        assert forall|i: int| 0 <= i < x.len() implies items.contains(#[trigger] x[i]) by {
            assert(table_items(f).contains(x[i]));
        }
        lemma_itemset_fits(items, x);
    }
    assert(listed_map(d, items, items.len() + 1, 0) =~= mined(d, min));
}

/// No item of the frequency table is the root's item, when the root's
/// item stands in no transaction.
pub proof fn lemma_table_avoids_root(
    d: Seq<Seq<i32>>,
    min: nat,
    f: Seq<(i32, usize)>,
    root: Option<(i32, usize)>,
)
    requires
        is_frequency_table(d, min, f),
        root_free(root, d),
    ensures
        avoids_root(root, table_items(f)),
{
    match root {
        None => {},
        Some(rc) => {
            if table_items(f).contains(rc.0) {
                assert(occurs(d, rc.0));
                let t = choose|t: int| 0 <= t < d.len() && (#[trigger] d[t]).contains(rc.0);
                assert(!d[t].contains(rc.0));
            }
        },
    }
}

/// A frequent itemset does not hold the root's item, when the root's item
/// stands in no transaction.
pub proof fn lemma_frequent_avoids_root(
    d: Seq<Seq<i32>>,
    min: nat,
    root: Option<(i32, usize)>,
    k: Seq<i32>,
)
    requires
        frequent(d, min, k),
        root_free(root, d),
    ensures
        avoids_root(root, k),
{
    match root {
        None => {},
        Some(rc) => {
            if k.contains(rc.0) {
                let w = lemma_support_witness(d, k);
                let j = choose|j: int| 0 <= j < k.len() && k[j] == rc.0;
                assert(d[w].contains(k[j]));
            }
        },
    }
}

/// The frequent items in ascending order.
pub fn ascending_items(frequent: &Vec<(i32, usize)>) -> (items: Vec<i32>)
    ensures
        is_itemset(items@),
        forall|x: i32| items@.contains(x) <==> table_items(frequent@).contains(x),
{
    let ghost order = table_items(frequent@);
    let mut items: Vec<i32> = Vec::new();
    let mut i: usize = 0;
    while i < frequent.len()
        invariant
            i <= frequent.len(),
            order == table_items(frequent@),
            is_itemset(items@),
            forall|x: i32| items@.contains(x) <==> order.take(i as int).contains(x),
        decreases frequent.len() - i,
    {
        let ghost before = items@;
        let v = frequent[i].0;
        insert_item(&mut items, v);
        proof {
            if !before.contains(v) {
                lemma_with_item(before, v);
            }
            assert(order.take(i + 1) =~= order.take(i as int).push(v));
            assert forall|x: i32| items@.contains(x) <==> order.take(i + 1).contains(x) by {
                vstd::seq_lib::lemma_seq_contains_after_push(order.take(i as int), v, x);
                if before.contains(v) {
                    assert(items@ == before);
                } else {
                    assert(items@ == with_item(before, v));
                    assert(items@.contains(x) <==> (x == v || before.contains(x)));
                }
            }
        }
        i += 1;
    }
    proof {
        assert(order.take(frequent.len() as int) =~= order);
    }
    items
}

impl FPTree {
    /// The root's item with the root's count, if the root has an item.
    pub fn root_pair(&self) -> (r: Option<(i32, usize)>)
        requires
            self.nodes.len() >= 1,
        ensures
            r == self.root(),
    {
        match self.nodes[0].value {
            Some(v) => Some((v, self.nodes[0].count)),
            None => None,
        }
    }

    /// The conditional transactions of the item at position `r` of the
    /// table: for every node that holds the item, the path to its parent,
    /// as many times as the node's count says.
    pub fn conditional_base(&self, r: usize) -> (cb: Vec<Vec<i32>>)
        requires
            self.wf(),
            r < self.frequent.len(),
        ensures
            forall|u: Seq<i32>|
                #[trigger] occurrences(rows(cb@), u) == count_where(
                    projections(self.source@, self.order()),
                    starts_with(u.push(self.frequent[r as int].0)),
                ),
    {
        let ghost nodes = self.nodes@;
        let ghost p = projections(self.source@, self.order());
        let ghost a = self.frequent[r as int].0;
        let chain = self.header_chain(r);
        let mut cb: Vec<Vec<i32>> = Vec::new();
        let mut j: usize = 0;
        proof {
            assert(rows(cb@) =~= Seq::empty());
            assert forall|u: Seq<i32>| #[trigger]
                occurrences(rows(cb@), u) == if chain_hit(nodes, chain@, 0, u.push(a)) {
                    count_where(p, starts_with(u.push(a)))
                } else {
                    0
                } by {
                lemma_occurrences_empty(u);
            }
        }
        while j < chain.len()
            invariant
                j <= chain.len(),
                nodes == self.nodes@,
                p == projections(self.source@, self.order()),
                r < self.frequent.len(),
                a == self.frequent[r as int].0,
                structure_ok(nodes),
                counts_ok(nodes, p),
                increasing(chain@),
                forall|n: usize|
                    #[trigger] chain@.contains(n) <==> (1 <= n < nodes.len() && nodes[n as int].value
                        == Some(a)),
                forall|u: Seq<i32>| #[trigger]
                    occurrences(rows(cb@), u) == if chain_hit(nodes, chain@, j as int, u.push(a)) {
                        count_where(p, starts_with(u.push(a)))
                    } else {
                        0
                    },
            decreases chain.len() - j,
        {
            let n = chain[j];
            assert(chain@.contains(chain[j as int]));
            let path = self.prefix_path(n);
            let frequency = self.nodes[n].count;
            let ghost start = rows(cb@);
            proof {
                lemma_path_nonempty(nodes, n as int);
                assert(path_of(nodes, n as int) == path@.push(a));
                assert(counted(nodes, p, Seq::empty(), n as int));
                assert(!chain_hit(nodes, chain@, j as int, path@.push(a))) by {
                    if chain_hit(nodes, chain@, j as int, path@.push(a)) {
                        let m = choose|m: int|
                            0 <= m < j && path_of(nodes, (#[trigger] chain@[m]) as int)
                                == path@.push(a);
                        assert(chain@.contains(chain@[m]));
                        assert(chain@[m] < chain@[j as int]);
                    }
                }
            }
            let mut c: usize = 0;
            while c < frequency
                invariant
                    c <= frequency,
                    forall|u: Seq<i32>| #[trigger]
                        occurrences(rows(cb@), u) == occurrences(start, u) + if u == path@ {
                            c as nat
                        } else {
                            0nat
                        },
                decreases frequency - c,
            {
                let ghost before = rows(cb@);
                let copy = copy_items(&path);
                cb.push(copy);
                proof {
                    assert(rows(cb@) =~= before.push(path@));
                    assert forall|u: Seq<i32>| #[trigger]
                        occurrences(rows(cb@), u) == occurrences(start, u) + if u == path@ {
                            (c + 1) as nat
                        } else {
                            0nat
                        } by {
                        lemma_occurrences_push(before, path@, u);
                    }
                }
                c += 1;
            }
            proof {
                assert forall|u: Seq<i32>| #[trigger]
                    occurrences(rows(cb@), u) == if chain_hit(nodes, chain@, j + 1, u.push(a)) {
                        count_where(p, starts_with(u.push(a)))
                    } else {
                        0
                    } by {
                    assert(occurrences(start, u) == if chain_hit(nodes, chain@, j as int, u.push(a)) {
                        count_where(p, starts_with(u.push(a)))
                    } else {
                        0
                    });
                    if u == path@ {
                        assert(path_of(nodes, chain@[j as int] as int) == u.push(a));
                    } else {
                        assert(u.push(a) != path@.push(a)) by {
                            assert(u.push(a).drop_last() =~= u);
                            assert(path@.push(a).drop_last() =~= path@);
                        }
                        if chain_hit(nodes, chain@, j as int, u.push(a)) {
                            let m = choose|m: int|
                                0 <= m < j && path_of(nodes, (#[trigger] chain@[m]) as int)
                                    == u.push(a);
                            assert(path_of(nodes, chain@[m] as int) == u.push(a));
                        }
                        if chain_hit(nodes, chain@, j + 1, u.push(a)) {
                            let m = choose|m: int|
                                0 <= m < j + 1 && path_of(nodes, (#[trigger] chain@[m]) as int)
                                    == u.push(a);
                            assert(m < j);
                        }
                    }
                }
            }
            j += 1;
        }
        proof {
            assert forall|u: Seq<i32>| #[trigger]
                occurrences(rows(cb@), u) == count_where(p, starts_with(u.push(a))) by {
                let q = u.push(a);
                if !chain_hit(nodes, chain@, chain.len() as int, q) {
                    if count_where(p, starts_with(q)) > 0 {
                        lemma_count_positive(p, starts_with(q));
                        let i = choose|i: int| 0 <= i < p.len() && starts_with(q)(#[trigger] p[i]);
                        assert(q.is_prefix_of(p[i]));
                        assert(p[i].take(q.len() as int) =~= q);
                        assert(covered(nodes, p[i], p[i].len() as int));
                        assert(has_path(nodes, p[i].take(q.len() as int)));
                        let n = choose|n: int| 1 <= n < nodes.len() && #[trigger] path_of(nodes, n) == q;
                        lemma_path_nonempty(nodes, n);
                        assert(q.last() == a);
                        assert(nodes[n].value == Some(a));
                        assert(nodes.len() == self.nodes.len());
                        assert(chain@.contains(n as usize));
                        let m = choose|m: int| 0 <= m < chain.len() && chain@[m] == n as usize;
                        assert(path_of(nodes, chain@[m] as int) == q);
                    }
                }
            }
        }
        cb
    }

    /// Puts the root's item into every pattern, keeping the itemsets
    /// canonical; without a root the patterns stay as they are.
    pub fn zip_patterns(&self, patterns: Vec<(Vec<i32>, usize)>) -> (result: Vec<(Vec<i32>, usize)>)
        requires
            self.nodes.len() >= 1,
            table_distinct(patterns@),
            forall|i: int|
                0 <= i < patterns.len() ==> {
                    &&& is_itemset((#[trigger] patterns[i]).0@)
                    &&& patterns[i].0@.len() >= 1
                    &&& avoids_root(self.root(), patterns[i].0@)
                },
        ensures
            table_distinct(result@),
            table_map(result@) == zipped(self.root(), table_map(patterns@)),
    {
        let root = self.root_pair();
        match root {
            None => patterns,
            Some(rc) => {
                let mut result: Vec<(Vec<i32>, usize)> = Vec::new();
                let mut j: usize = 0;
                proof {
                    lemma_table_empty();
                    lemma_zipped_empty(root);
                    assert(patterns@.take(0) =~= Seq::empty());
                }
                while j < patterns.len()
                    invariant
                        j <= patterns.len(),
                        root == Some(rc),
                        root == self.root(),
                        table_distinct(patterns@),
                        forall|i: int|
                            0 <= i < patterns.len() ==> {
                                &&& is_itemset((#[trigger] patterns[i]).0@)
                                &&& patterns[i].0@.len() >= 1
                                &&& avoids_root(root, patterns[i].0@)
                            },
                        table_distinct(result@),
                        table_map(result@) == zipped(root, table_map(patterns@.take(j as int))),
                    decreases patterns.len() - j,
                {
                    let mut key = copy_items(&patterns[j].0);
                    let count = patterns[j].1;
                    let ghost s = patterns[j as int].0@;
                    let ghost part = table_map(patterns@.take(j as int));
                    proof {
                        lemma_table_take_succ(patterns@, j as int);
                        lemma_zipped_insert(root, part, s, count as nat);
                    }
                    insert_item(&mut key, rc.0);
                    proof {
                        assert(key@ == lifted(root, s));
                        assert(!table_has(result@, key@)) by {
                            if table_has(result@, key@) {
                                assert(table_map(result@).contains_key(key@));
                                assert(part.contains_key(s));
                            }
                        }
                        lemma_table_push(result@, (key, count));
                    }
                    result.push((key, count));
                    j += 1;
                }
                proof {
                    assert(patterns@.take(patterns.len() as int) =~= patterns@);
                }
                result
            },
        }
    }

    /// Mines a tree that is a single path: every non-empty set of its
    /// frequent items is a pattern, counted by the least frequent of its
    /// members, and carries the root's item if there is a root. A tree
    /// built with a threshold of zero gives an empty result.
    pub fn generate_pattern_list(&self) -> (patterns: Vec<(Vec<i32>, usize)>)
        requires
            self.wf(),
            root_free(self.root(), self.source@),
            single_path_from(self.nodes@, 0),
        ensures
            table_distinct(patterns@),
            table_map(patterns@) == mined_tree(self.source@, self.threshold as nat, self.root()),
    {
        if self.threshold == 0 {
            proof {
                lemma_table_empty();
            }
            return Vec::new();
        }
        let ghost d = self.source@;
        let ghost min = self.threshold as nat;
        let ghost order = self.order();
        let ghost nodes = self.nodes@;
        let ghost f = self.frequent@;
        let root = self.root_pair();
        let items = ascending_items(&self.frequent);
        let mut patterns: Vec<(Vec<i32>, usize)> = Vec::new();
        proof {
            lemma_table_empty();
            lemma_zipped_empty(root);
            assert(nodes.len() == self.nodes.len());
            lemma_chain(nodes, 0);
            lemma_table_items_distinct(d, min, f);
            lemma_table_avoids_root(d, min, f, root);
            lemma_listed_first(d, items@);
        }
        match root {
            Some(rc) => {
                let mut suffix: Vec<i32> = Vec::new();
                suffix.push(rc.0);
                assert(suffix@ =~= seq![rc.0]);
                set_count(&mut patterns, suffix, rc.1);
            },
            None => {},
        }
        let mut size: usize = 0;
        while size < items.len()
            invariant
                size <= items.len(),
                root == self.root(),
                order == self.order(),
                nodes == self.nodes@,
                f == self.frequent@,
                d == self.source@,
                min == self.threshold as nat,
                self.wf(),
                min >= 1,
                is_chain(nodes),
                nodes.len() <= usize::MAX,
                order.no_duplicates(),
                avoids_root(root, order),
                is_itemset(items@),
                forall|x: i32| items@.contains(x) <==> order.contains(x),
                table_distinct(patterns@),
                table_map(patterns@) == rooted_map(
                    root,
                    listed_map(d, items@, (size + 1) as nat, 0),
                ),
                forall|x: Seq<i32>|
                    listed(items@, (size + 1) as nat, 0, x) ==> #[trigger] frequent(d, min, x),
            decreases items.len() - size,
        {
            size += 1;
            let subsets = combinations(&items, size);
            let ghost all = combos(items@, size as nat);
            proof {
                lemma_combos_sound(items@, size as nat);
            }
            let mut j: usize = 0;
            while j < subsets.len()
                invariant
                    j <= subsets.len(),
                    1 <= size <= items.len(),
                    rows(subsets@) == all,
                    all == combos(items@, size as nat),
                    forall|m: int|
                        0 <= m < all.len() ==> {
                            &&& is_itemset(#[trigger] all[m])
                            &&& all[m].len() == size
                            &&& holds_all(items@, all[m])
                        },
                    root == self.root(),
                    order == self.order(),
                    nodes == self.nodes@,
                    f == self.frequent@,
                    d == self.source@,
                    min == self.threshold as nat,
                    self.wf(),
                    min >= 1,
                    is_chain(nodes),
                    nodes.len() <= usize::MAX,
                    order.no_duplicates(),
                    avoids_root(root, order),
                    is_itemset(items@),
                    forall|x: i32| items@.contains(x) <==> order.contains(x),
                    table_distinct(patterns@),
                    table_map(patterns@) == rooted_map(
                        root,
                        listed_map(d, items@, size as nat, j as int),
                    ),
                    forall|x: Seq<i32>|
                        listed(items@, size as nat, j as int, x) ==> #[trigger] frequent(d, min, x),
                decreases subsets.len() - j,
            {
                let subset = &subsets[j];
                let ghost s = subset@;
                proof {
                    assert(rows(subsets@)[j as int] == subsets[j as int]@);
                    assert(s == all[j as int]);
                    assert forall|m: int| 0 <= m < s.len() implies order.contains(#[trigger] s[m]) by {
                        assert(items@.contains(s[m]));
                    }
                }
                let count = min_count(&self.frequent, subset);
                proof {
                    let w = choose|w: int|
                        0 <= w < s.len() && count == table_count(f, #[trigger] s[w]);
                    assert forall|m: int| 0 <= m < s.len() implies support(d, seq![s[w]]) <= support(
                        d,
                        seq![#[trigger] s[m]],
                    ) by {
                        lemma_table_count(d, min, f, s[m]);
                        lemma_table_count(d, min, f, s[w]);
                    }
                    lemma_single_path_support(d, order, nodes, s, w);
                    lemma_table_count(d, min, f, s[w]);
                    assert(count == support(d, s));
                    assert(avoids_root(root, s)) by {
                        match root {
                            None => {},
                            Some(rc) => {
                                if s.contains(rc.0) {
                                    let m = choose|m: int| 0 <= m < s.len() && s[m] == rc.0;
                                    assert(order.contains(s[m]));
                                }
                            },
                        }
                    }
                    lemma_rooted_insert(
                        root,
                        listed_map(d, items@, size as nat, j as int),
                        s,
                        count as nat,
                    );
                    lemma_listed_step(d, items@, size as nat, j as int, s);
                }
                let mut pattern = copy_items(subset);
                match root {
                    Some(rc) => {
                        insert_item(&mut pattern, rc.0);
                    },
                    None => {},
                }
                assert(pattern@ == lifted(root, s));
                set_count(&mut patterns, pattern, count);
                j += 1;
            }
            proof {
                lemma_listed_next(d, items@, size as nat);
            }
        }
        proof {
            lemma_listed_all(d, min, f, items@);
        }
        patterns
    }

    /// Mines the tree item by item, from the least frequent item on: the
    /// conditional transactions of the item are mined as a tree of their
    /// own under that item as root, and the counts of what comes back are
    /// added into the running result. A threshold of zero gives an empty
    /// result.
    pub fn mine_sub_trees(&self, min_support_count: usize) -> (patterns: Vec<(Vec<i32>, usize)>)
        requires
            self.wf(),
            min_support_count == self.threshold,
        ensures
            table_distinct(patterns@),
            table_map(patterns@) == mined(self.source@, self.threshold as nat),
        decreases self.frequent.len(), 0nat,
    {
        let ghost d = self.source@;
        let ghost min = min_support_count as nat;
        let ghost order = self.order();
        let ghost f = self.frequent@;
        let mut patterns: Vec<(Vec<i32>, usize)> = Vec::new();
        if min_support_count == 0 {
            proof {
                lemma_table_empty();
                assert(mined(d, 0) =~= Map::<Seq<i32>, nat>::empty());
            }
            return patterns;
        }
        let mut r: usize = self.frequent.len();
        proof {
            lemma_table_empty();
            lemma_mined_above_all(d, min, f);
            lemma_table_items_distinct(d, min, f);
        }
        while r > 0
            invariant
                r <= self.frequent.len(),
                min == min_support_count as nat,
                min >= 1,
                d == self.source@,
                min == self.threshold as nat,
                order == self.order(),
                f == self.frequent@,
                order.no_duplicates(),
                self.wf(),
                table_distinct(patterns@),
                table_map(patterns@) == mined_above(d, min, order, r as int),
            decreases r,
        {
            r -= 1;
            let item = self.frequent[r].0;
            let count = self.frequent[r].1;
            let conditional_tree_input = self.conditional_base(r);
            let ghost cb = rows(conditional_tree_input@);
            let subtree = FPTree::new(&conditional_tree_input, min_support_count, Some((item, count)));
            proof {
                assert(order[r as int] == item);
                assert(cb.len() == conditional_tree_input.len());
                lemma_conditional_result(d, min, f, r as int, cb);
                assert forall|i: int| 0 <= i < cb.len() implies !(#[trigger] cb[i]).contains(item) by {
                    lemma_cond_rows(d, order, r as int, cb, i);
                }
                let f2 = subtree.frequent@;
                lemma_table_items_distinct(cb, min, f2);
                assert forall|q: int| 0 <= q < table_items(f2).len() implies order.take(
                    r as int,
                ).contains(#[trigger] table_items(f2)[q]) by {
                    let x = table_items(f2)[q];
                    assert(table_items(f2).contains(x));
                    assert(occurs(cb, x));
                    let i = choose|i: int| 0 <= i < cb.len() && (#[trigger] cb[i]).contains(x);
                    lemma_cond_rows(d, order, r as int, cb, i);
                    let m = choose|m: int| 0 <= m < cb[i].len() && cb[i][m] == x;
                    assert(order.take(r as int).contains(cb[i][m]));
                }
                lemma_distinct_fits(order.take(r as int), table_items(f2));
                assert(subtree.frequent.len() < self.frequent.len());
            }
            let subtree_patterns = subtree.mine_patterns(min_support_count);
            proof {
                lemma_merge_tops(d, min, order, r as int);
                assert forall|k: Seq<i32>| table_has(subtree_patterns@, k) implies #[trigger] merged(
                    table_map(patterns@),
                    table_map(subtree_patterns@),
                )[k] <= usize::MAX by {
                    assert(mined_above(d, min, order, r as int).contains_key(k));
                    lemma_count_le_len(d, covers(k));
                }
            }
            merge_add(&mut patterns, &subtree_patterns);
        }
        patterns
    }

    /// Mines the tree: directly if it is a single path, else item by item;
    /// under a root, every pattern gets the root's item, and the root's
    /// item alone is a pattern with the root's count. A threshold of zero
    /// gives an empty result.
    pub fn mine_patterns(&self, min_support_count: usize) -> (patterns: Vec<(Vec<i32>, usize)>)
        requires
            self.wf(),
            min_support_count == self.threshold,
            root_free(self.root(), self.source@),
        ensures
            table_distinct(patterns@),
            table_map(patterns@) == mined_tree(self.source@, self.threshold as nat, self.root()),
        decreases self.frequent.len(), 1nat,
    {
        let ghost d = self.source@;
        let ghost min = min_support_count as nat;
        if min_support_count == 0 {
            proof {
                lemma_table_empty();
            }
            return Vec::new();
        }
        if self.tree_has_single_path(0) {
            self.generate_pattern_list()
        } else {
            let root = self.root_pair();
            let found = self.mine_sub_trees(min_support_count);
            proof {
                assert forall|i: int| 0 <= i < found.len() implies {
                    &&& is_itemset((#[trigger] found[i]).0@)
                    &&& found[i].0@.len() >= 1
                    &&& avoids_root(root, found[i].0@)
                } by {
                    lemma_table_row(found@, i);
                    assert(frequent(d, min, found[i].0@));
                    lemma_frequent_avoids_root(d, min, root, found[i].0@);
                }
            }
            let mut patterns = self.zip_patterns(found);
            match root {
                Some(rc) => {
                    let mut one: Vec<i32> = Vec::new();
                    one.push(rc.0);
                    assert(one@ =~= seq![rc.0]);
                    set_count(&mut patterns, one, rc.1);
                },
                None => {},
            }
            patterns
        }
    }
}

/// Mines the frequent itemsets through a compressed prefix tree. The
/// result lists every non-empty canonical itemset that at least
/// `min_support_count` (and at least one) transactions hold, each once,
/// with the number of transactions that hold it. A threshold of zero gives
/// an empty result.
pub fn fpgrowth(transactions: &Vec<Vec<i32>>, min_support_count: usize) -> (result: Vec<
    (Vec<i32>, usize),
>)
    ensures
        table_distinct(result@),
        table_map(result@) == mined(rows(transactions@), min_support_count as nat),
        forall|i: int|
            0 <= i < result.len() ==> {
                &&& is_itemset((#[trigger] result[i]).0@)
                &&& result[i].1 == support(rows(transactions@), result[i].0@)
                &&& result[i].1 >= min_support_count
            },
        forall|s: Seq<i32>|
            s.len() >= 1 && is_itemset(s) && min_support_count >= 1 && support(rows(transactions@), s)
                >= min_support_count ==> table_has(result@, s) && table_map(result@)[s] == support(
                rows(transactions@),
                s,
            ),
        transactions.len() == 0 || min_support_count > transactions.len() ==> result.len() == 0,
{
    let ghost d = rows(transactions@);
    let ghost min = min_support_count as nat;
    let mut result: Vec<(Vec<i32>, usize)> = Vec::new();
    if min_support_count == 0 {
        proof {
            lemma_table_empty();
            assert(mined(d, 0) =~= Map::<Seq<i32>, nat>::empty());
        }
        return result;
    }
    let tree = FPTree::new(transactions, min_support_count, None);
    result = tree.mine_patterns(min_support_count);
    proof {
        assert forall|i: int| 0 <= i < result.len() implies {
            &&& is_itemset((#[trigger] result[i]).0@)
            &&& result[i].1 == support(d, result[i].0@)
            &&& result[i].1 >= min_support_count
        } by {
            lemma_table_row(result@, i);
        }
        assert forall|s: Seq<i32>|
            s.len() >= 1 && is_itemset(s) && min_support_count >= 1 && support(d, s)
                >= min_support_count implies table_has(result@, s) && table_map(result@)[s]
            == support(d, s) by {
            assert(frequent(d, min, s));
            assert(table_map(result@).contains_key(s));
        }
        if transactions.len() == 0 || min_support_count > transactions.len() {
            crate::laws::law_empty_input(d, min);
            if result.len() > 0 {
                lemma_table_row(result@, 0);
            }
        }
    }
    result
}

} // verus!
