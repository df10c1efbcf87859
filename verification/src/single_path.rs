//! Trees that are a single path: every transaction's projection is a
//! prefix of one path, so the transactions that hold an item also hold
//! every item above it.

use vstd::prelude::*;
use crate::itemset::{
    holds_all, support, covers, lemma_support_antimonotone, lemma_count_monotone,
    lemma_count_strict,
};
use crate::frequency::{
    table_items, is_frequency_table, projections, lemma_projection_members, lemma_holds_single,
};
use crate::fptree::{
    FPNode, structure_ok, counts_ok, covered, has_path, path_of, child_ok, listed_ok,
    single_path_from, lemma_path_nonempty, rank_of,
};

verus! {

/// Every node below the root is the child of the node created just before it.
pub open spec fn is_chain(nodes: Seq<FPNode>) -> bool {
    forall|n: int| 1 <= n < nodes.len() ==> (#[trigger] nodes[n]).parent == Some((n - 1) as usize)
}

/// In a tree that is a single path from the root, the nodes form a chain
/// in order of creation.
pub proof fn lemma_chain(nodes: Seq<FPNode>, cur: int)
    requires
        structure_ok(nodes),
        nodes.len() <= usize::MAX,
        0 <= cur < nodes.len(),
        forall|n: int| 1 <= n <= cur ==> (#[trigger] nodes[n]).parent == Some((n - 1) as usize),
        forall|p: int| 0 <= p < cur ==> (#[trigger] nodes[p]).children@.len() == 1,
        single_path_from(nodes, cur),
    ensures
        is_chain(nodes),
    decreases nodes.len() - cur,
{
    let kids = nodes[cur].children@;
    if cur + 1 < nodes.len() {
        assert(child_ok(nodes, cur + 1));
        let p = nodes[cur + 1].parent.unwrap() as int;
        if p < cur {
            assert(child_ok(nodes, p + 1));
            let c = nodes[p].children@;
            assert(nodes[p + 1].parent == Some(p as usize));
            assert(c.contains((cur + 1) as usize));
            assert(c.contains((p + 1) as usize));
            let i1 = choose|i: int| 0 <= i < c.len() && c[i] == (cur + 1) as usize;
            let i2 = choose|i: int| 0 <= i < c.len() && c[i] == (p + 1) as usize;
            assert(i1 == 0 && i2 == 0);
            assert(false);
        }
        assert(kids.contains((cur + 1) as usize));
    }
    if kids.len() == 0 {
        assert(cur + 1 == nodes.len());
    } else {
        assert(kids.len() == 1);
        assert(listed_ok(nodes, cur, 0));
        let j = choose|j: int| 0 <= j < kids.len() && kids[j] == (cur + 1) as usize;
        assert(kids[0] == cur + 1);
        lemma_chain(nodes, cur + 1);
    }
}

/// In a chain, the path of a node is a prefix of the path of every later node.
pub proof fn lemma_chain_prefix(nodes: Seq<FPNode>, n: int, m: int)
    requires
        structure_ok(nodes),
        is_chain(nodes),
        nodes.len() <= usize::MAX,
        0 <= n <= m < nodes.len(),
    ensures
        path_of(nodes, m).len() == m,
        path_of(nodes, n) == path_of(nodes, m).take(n),
    decreases m,
{
    if m == 0 {
        assert(path_of(nodes, 0).take(0) =~= path_of(nodes, 0));
    } else {
        lemma_path_nonempty(nodes, m);
        assert(nodes[m].parent == Some((m - 1) as usize));
        lemma_chain_prefix(nodes, m - 1, m - 1);
        if n == m {
            assert(path_of(nodes, m).take(m) =~= path_of(nodes, m));
        } else {
            lemma_chain_prefix(nodes, n, m - 1);
            assert(path_of(nodes, m - 1).take(n) =~= path_of(nodes, m).take(n));
        }
    }
}

/// In a single-path tree, if some transaction holds `b` but not `x`, then
/// every transaction that holds `x` holds `b` too.
pub proof fn lemma_single_path_nested(
    d: Seq<Seq<i32>>,
    order: Seq<i32>,
    nodes: Seq<FPNode>,
    i: int,
    j: int,
    b: i32,
    x: i32,
)
    requires
        structure_ok(nodes),
        is_chain(nodes),
        nodes.len() <= usize::MAX,
        counts_ok(nodes, projections(d, order)),
        0 <= i < d.len(),
        0 <= j < d.len(),
        order.contains(b),
        order.contains(x),
        d[i].contains(b),
        !d[i].contains(x),
        d[j].contains(x),
    ensures
        d[j].contains(b),
{
    let p = projections(d, order);
    let pi = p[i];
    let pj = p[j];
    lemma_projection_members(order, d[i], b);
    lemma_projection_members(order, d[i], x);
    lemma_projection_members(order, d[j], x);
    lemma_projection_members(order, d[j], b);
    assert(covered(nodes, pi, pi.len() as int));
    assert(covered(nodes, pj, pj.len() as int));
    assert(pi.take(pi.len() as int) =~= pi);
    assert(pj.take(pj.len() as int) =~= pj);
    assert(has_path(nodes, pi.take(pi.len() as int)));
    assert(has_path(nodes, pj.take(pj.len() as int)));
    let ni = choose|n: int| 1 <= n < nodes.len() && #[trigger] path_of(nodes, n) == pi;
    let nj = choose|n: int| 1 <= n < nodes.len() && #[trigger] path_of(nodes, n) == pj;
    if ni <= nj {
        lemma_chain_prefix(nodes, ni, nj);
        let q = choose|q: int| 0 <= q < pi.len() && pi[q] == b;
        assert(pj.take(ni)[q] == pj[q]);
        assert(pj[q] == b);
    } else {
        lemma_chain_prefix(nodes, nj, ni);
        let q = choose|q: int| 0 <= q < pj.len() && pj[q] == x;
        assert(pi.take(nj)[q] == pi[q]);
        assert(pi[q] == x);
    }
}

/// In a single-path tree, the support of a set of frequent items is the
/// smallest of the supports of its members.
pub proof fn lemma_single_path_support(
    d: Seq<Seq<i32>>,
    order: Seq<i32>,
    nodes: Seq<FPNode>,
    s: Seq<i32>,
    w: int,
)
    requires
        structure_ok(nodes),
        is_chain(nodes),
        nodes.len() <= usize::MAX,
        counts_ok(nodes, projections(d, order)),
        holds_all(order, s),
        0 <= w < s.len(),
        forall|m: int| 0 <= m < s.len() ==> support(d, seq![s[w]]) <= support(d, seq![#[trigger] s[m]]),
    ensures
        support(d, s) == support(d, seq![s[w]]),
{
    let b = s[w];
    let one = seq![b];
    assert(holds_all(s, one)) by {
        assert forall|i: int| 0 <= i < one.len() implies s.contains(#[trigger] one[i]) by {
            assert(one[i] == s[w]);
        }
    }
    lemma_support_antimonotone(d, one, s);
    assert forall|t: int| 0 <= t < d.len() && covers(one)(#[trigger] d[t]) implies covers(s)(
        d[t],
    ) by {
        lemma_holds_single(d[t], b);
        assert forall|m: int| 0 <= m < s.len() implies d[t].contains(#[trigger] s[m]) by {
            let x = s[m];
            if !d[t].contains(x) {
                let px = covers(seq![x]);
                assert forall|j: int| 0 <= j < d.len() && px(#[trigger] d[j]) implies covers(one)(
                    d[j],
                ) by {
                    lemma_holds_single(d[j], x);
                    lemma_holds_single(d[j], b);
                    assert(order.contains(s[w]));
                    assert(order.contains(s[m]));
                    lemma_single_path_nested(d, order, nodes, t, j, b, x);
                }
                lemma_holds_single(d[t], x);
                lemma_count_strict(d, px, covers(one), t);
            }
        }
    }
    lemma_count_monotone(d, covers(one), covers(s));
}

/// A position of the item `x` in the table.
pub open spec fn table_rank(f: Seq<(i32, usize)>, x: i32) -> int {
    choose|j: int| 0 <= j < f.len() && (#[trigger] f[j]).0 == x
}

/// The count that the table gives to the item `x`.
pub open spec fn table_count(f: Seq<(i32, usize)>, x: i32) -> usize {
    f[table_rank(f, x)].1
}

/// The count that a frequency table gives to one of its items is the item's
/// support.
pub proof fn lemma_table_count(d: Seq<Seq<i32>>, min: nat, f: Seq<(i32, usize)>, x: i32)
    requires
        is_frequency_table(d, min, f),
        table_items(f).contains(x),
    ensures
        table_count(f, x) == support(d, seq![x]),
        table_count(f, x) >= min,
{
    let q = choose|q: int| 0 <= q < table_items(f).len() && table_items(f)[q] == x;
    assert(f[q].0 == x);
    let j = table_rank(f, x);
    assert(0 <= j < f.len() && f[j].0 == x);
}

/// The count that the table gives to the item of row `r` is the count of row
/// `r`.
pub proof fn lemma_table_count_at(f: Seq<(i32, usize)>, r: int, x: i32)
    requires
        table_items(f).no_duplicates(),
        0 <= r < f.len(),
        f[r].0 == x,
    ensures
        table_count(f, x) == f[r].1,
{
    let j = table_rank(f, x);
    assert(0 <= j < f.len() && f[j].0 == x);
    assert(table_items(f)[j] == x && table_items(f)[r] == x);
}

/// The smallest of the table's counts of the items of `subset`; zero for
/// an empty subset.
pub fn min_count(frequent: &Vec<(i32, usize)>, subset: &Vec<i32>) -> (c: usize)
    requires
        holds_all(table_items(frequent@), subset@),
        table_items(frequent@).no_duplicates(),
    ensures
        subset.len() == 0 ==> c == 0,
        subset.len() > 0 ==> exists|w: int|
            0 <= w < subset.len() && c == table_count(frequent@, #[trigger] subset[w]),
        forall|i: int| 0 <= i < subset.len() ==> c <= table_count(frequent@, #[trigger] subset[i]),
{
    if subset.len() == 0 {
        return 0;
    }
    let ghost f = frequent@;
    let mut best: usize = 0;
    let ghost mut at: int = 0;
    let mut i: usize = 0;
    while i < subset.len()
        invariant
            i <= subset.len(),
            f == frequent@,
            holds_all(table_items(f), subset@),
            table_items(f).no_duplicates(),
            i > 0 ==> 0 <= at < i && best == table_count(f, subset[at]),
            forall|m: int| 0 <= m < i ==> best <= table_count(f, #[trigger] subset[m]),
        decreases subset.len() - i,
    {
        let x = subset[i];
        assert(table_items(f).contains(subset@[i as int]));
        let r = rank_of(frequent, x);
        let c = frequent[r].1;
        proof {
            lemma_table_count_at(f, r as int, x);
            assert(c == table_count(f, subset[i as int]));
        }
        if i == 0 || c < best {
            best = c;
            proof {
                at = i as int;
            }
        }
        i += 1;
    }
    assert(best == table_count(f, subset[at]));
    best
}

} // verus!
