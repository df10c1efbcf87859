//! Conditional pattern bases: for an item, the part of each projected
//! transaction that stands in front of the item.

use vstd::prelude::*;
use vstd::seq_lib::*;
use crate::itemset::{
    is_itemset, holds_all, count_where, covers, support, frequent, mined, lemma_count_pointwise,
    lemma_count_positive, lemma_count_permutation, lemma_support_antimonotone,
};
use crate::canonical::{without_item, lemma_without_item};
use crate::patterns::merged;
use crate::frequency::{
    projection, projections, held_by, table_items, is_frequency_table, occurs,
    lemma_projection_members, lemma_projection_in_order, lemma_table_items_distinct,
    lemma_supported_occurs,
};
use crate::fptree::starts_with;
use crate::rooted::{mined_tree, zipped};

verus! {

/// The part of `u` in front of its item `a`.
pub open spec fn before(u: Seq<i32>, a: i32) -> Seq<i32> {
    u.take(u.index_of(a))
}

/// The conditional pattern base of the item `a`: for every sequence that
/// holds `a`, in their order, the part in front of `a`.
pub open spec fn cond_base(p: Seq<Seq<i32>>, a: i32) -> Seq<Seq<i32>>
    decreases p.len(),
{
    if p.len() == 0 {
        Seq::empty()
    } else {
        let rest = cond_base(p.drop_last(), a);
        if p.last().contains(a) {
            rest.push(before(p.last(), a))
        } else {
            rest
        }
    }
}

/// The predicate "this sequence holds `a`, and the part in front of `a` satisfies `q`".
pub open spec fn through(a: i32, q: spec_fn(Seq<i32>) -> bool) -> spec_fn(Seq<i32>) -> bool {
    |u: Seq<i32>| u.contains(a) && q(before(u, a))
}

/// How often `u` occurs in `s`.
pub open spec fn occurrences(s: Seq<Seq<i32>>, u: Seq<i32>) -> nat {
    s.to_multiset().count(u)
}

/// Appending `x` adds one to the occurrences of `x` and to no other.
pub proof fn lemma_occurrences_push(s: Seq<Seq<i32>>, x: Seq<i32>, u: Seq<i32>)
    ensures
        occurrences(s.push(x), u) == occurrences(s, u) + if x == u { 1nat } else { 0nat },
{
    broadcast use vstd::multiset::group_multiset_axioms;

    to_multiset_build(s, x);
}

/// Nothing occurs in the empty sequence.
pub proof fn lemma_occurrences_empty(u: Seq<i32>)
    ensures
        occurrences(Seq::<Seq<i32>>::empty(), u) == 0,
{
    broadcast use vstd::multiset::group_multiset_axioms;

    to_multiset_len(Seq::<Seq<i32>>::empty());
    assert(Seq::<Seq<i32>>::empty().to_multiset() =~= vstd::multiset::Multiset::empty());
}

/// Filtering a sequence without duplicates gives a sequence without
/// duplicates.
pub proof fn lemma_filter_no_duplicates(o: Seq<i32>, p: spec_fn(i32) -> bool)
    requires
        o.no_duplicates(),
    ensures
        o.filter(p).no_duplicates(),
    decreases o.len(),
{
    reveal(Seq::filter);
    if o.len() > 0 {
        let e = o.drop_last();
        let fe = e.filter(p);
        assert(e.no_duplicates()) by {
            assert forall|i: int, j: int| 0 <= i < e.len() && 0 <= j < e.len() && i != j implies e[i]
                != e[j] by {
                assert(e[i] == o[i] && e[j] == o[j]);
            }
        }
        lemma_filter_no_duplicates(e, p);
        if p(o.last()) {
            let f = fe.push(o.last());
            if fe.contains(o.last()) {
                e.lemma_filter_contains_rev(p, o.last());
                let i = choose|i: int| 0 <= i < e.len() && e[i] == o.last();
                assert(o[i] == o[o.len() - 1]);
            }
            assert forall|i: int, j: int| 0 <= i < f.len() && 0 <= j < f.len() && i != j implies f[i]
                != f[j] by {
                if i < fe.len() && j < fe.len() {
                    assert(f[i] == fe[i] && f[j] == fe[j]);
                } else if i < fe.len() {
                    assert(f[i] == fe[i]);
                    assert(fe.contains(fe[i]));
                } else {
                    assert(f[j] == fe[j]);
                    assert(fe.contains(fe[j]));
                }
            }
        }
    }
}

/// In the projection of a transaction that holds the item at position `r`
/// of the order, the part in front of that item is the projection on the
/// items before position `r`.
pub proof fn lemma_before_projection(order: Seq<i32>, r: int, t: Seq<i32>)
    requires
        order.no_duplicates(),
        0 <= r < order.len(),
        t.contains(order[r]),
    ensures
        projection(order, t).contains(order[r]),
        before(projection(order, t), order[r]) == projection(order.take(r), t),
{
    let a = order[r];
    let p = held_by(t);
    let o1 = order.take(r);
    let o2 = order.skip(r + 1);
    assert(order =~= o1.push(a) + o2);
    Seq::filter_distributes_over_add(o1.push(a), o2, p);
    o1.lemma_filter_push(a, p);
    let f1 = o1.filter(p);
    let proj = order.filter(p);
    assert(proj == f1.push(a) + o2.filter(p));
    assert(proj[f1.len() as int] == a);
    lemma_filter_no_duplicates(order, p);
    let idx = proj.index_of(a);
    assert(proj[idx] == a);
    assert(idx == f1.len());
    assert(proj.take(f1.len() as int) =~= f1);
}

/// A projection on an order without duplicates has no duplicates.
pub proof fn lemma_projection_no_duplicates(order: Seq<i32>, t: Seq<i32>)
    requires
        order.no_duplicates(),
    ensures
        projection(order, t).no_duplicates(),
{
    lemma_filter_no_duplicates(order, held_by(t));
}

/// A sequence without duplicates starts with `u` followed by `a` exactly
/// when it holds `a` and `u` is the part in front of `a`.
pub proof fn lemma_before_prefix(x: Seq<i32>, a: i32, u: Seq<i32>)
    requires
        x.no_duplicates(),
    ensures
        (x.contains(a) && before(x, a) == u) <==> u.push(a).is_prefix_of(x),
{
    let q = u.push(a);
    if x.contains(a) && before(x, a) == u {
        let idx = x.index_of(a);
        assert(x[idx] == a);
        assert(q =~= x.subrange(0, q.len() as int));
    }
    if q.is_prefix_of(x) {
        assert(q[u.len() as int] == a);
        assert(x.subrange(0, q.len() as int)[u.len() as int] == x[u.len() as int]);
        assert(x[u.len() as int] == a);
        let idx = x.index_of(a);
        assert(x[idx] == a);
        assert(idx == u.len());
        assert forall|i: int| 0 <= i < u.len() implies x.take(u.len() as int)[i] == u[i] by {
            assert(q[i] == u[i]);
            assert(x.subrange(0, q.len() as int)[i] == x[i]);
        }
        assert(x.take(u.len() as int) =~= u);
    }
}

/// How often `u` occurs in the conditional pattern base of `a` is the
/// number of sequences that start with `u` followed by `a`.
pub proof fn lemma_cond_base_occurrences(p: Seq<Seq<i32>>, a: i32, u: Seq<i32>)
    requires
        forall|i: int| 0 <= i < p.len() ==> (#[trigger] p[i]).no_duplicates(),
    ensures
        occurrences(cond_base(p, a), u) == count_where(p, starts_with(u.push(a))),
    decreases p.len(),
{
    if p.len() == 0 {
        lemma_occurrences_empty(u);
    } else {
        let e = p.drop_last();
        assert forall|i: int| 0 <= i < e.len() implies (#[trigger] e[i]).no_duplicates() by {
            assert(e[i] == p[i]);
        }
        lemma_cond_base_occurrences(e, a, u);
        assert(p.last() == p[p.len() - 1]);
        lemma_before_prefix(p.last(), a, u);
        if p.last().contains(a) {
            lemma_occurrences_push(cond_base(e, a), before(p.last(), a), u);
        }
    }
}

/// Counting in the conditional pattern base is counting the sequences
/// that hold `a` and satisfy the predicate in front of it.
pub proof fn lemma_cond_base_count(p: Seq<Seq<i32>>, a: i32, q: spec_fn(Seq<i32>) -> bool)
    ensures
        count_where(cond_base(p, a), q) == count_where(p, through(a, q)),
    decreases p.len(),
{
    if p.len() > 0 {
        lemma_cond_base_count(p.drop_last(), a, q);
        if p.last().contains(a) {
            crate::itemset::lemma_count_push(cond_base(p.drop_last(), a), before(p.last(), a), q);
        }
    }
}

/// The support of `s` among the conditional transactions of the item at
/// position `r`: if every item of `s` stands before position `r`, it is the
/// support, in the dataset, of `s` together with that item; otherwise zero.
pub proof fn lemma_cond_support(d: Seq<Seq<i32>>, order: Seq<i32>, r: int, s: Seq<i32>, k: Seq<i32>)
    requires
        order.no_duplicates(),
        0 <= r < order.len(),
        forall|x: i32| k.contains(x) <==> (x == order[r] || s.contains(x)),
    ensures
        support(cond_base(projections(d, order), order[r]), s) == if holds_all(order.take(r), s) {
            support(d, k)
        } else {
            0
        },
{
    let a = order[r];
    let p = projections(d, order);
    let o1 = order.take(r);
    lemma_cond_base_count(p, a, covers(s));
    let lhs = through(a, covers(s));
    assert forall|i: int| 0 <= i < d.len() implies (lhs(#[trigger] p[i]) <==> (holds_all(o1, s)
        && holds_all(d[i], k))) by {
        let t = d[i];
        lemma_projection_members(order, t, a);
        assert(order.contains(order[r]));
        if t.contains(a) {
            lemma_before_projection(order, r, t);
            let b = projection(o1, t);
            assert(before(p[i], a) == b);
            if holds_all(b, s) {
                assert forall|j: int| 0 <= j < s.len() implies o1.contains(#[trigger] s[j])
                    && t.contains(s[j]) by {
                    assert(b.contains(s[j]));
                    lemma_projection_members(o1, t, s[j]);
                }
                assert forall|j: int| 0 <= j < k.len() implies t.contains(#[trigger] k[j]) by {
                    assert(k.contains(k[j]));
                    if k[j] != a {
                        let m = choose|m: int| 0 <= m < s.len() && s[m] == k[j];
                        assert(t.contains(s[m]));
                    }
                }
            }
            if holds_all(o1, s) && holds_all(t, k) {
                assert forall|j: int| 0 <= j < s.len() implies b.contains(#[trigger] s[j]) by {
                    assert(s.contains(s[j]));
                    assert(k.contains(s[j]));
                    let m = choose|m: int| 0 <= m < k.len() && k[m] == s[j];
                    assert(t.contains(k[m]));
                    assert(o1.contains(s[j]));
                    lemma_projection_members(o1, t, s[j]);
                }
            }
        } else {
            if holds_all(t, k) {
                assert(k.contains(a));
                let m = choose|m: int| 0 <= m < k.len() && k[m] == a;
                assert(t.contains(k[m]));
            }
        }
    }
    if holds_all(o1, s) {
        lemma_count_pointwise(p, lhs, d, covers(k));
    } else {
        if count_where(p, lhs) > 0 {
            lemma_count_positive(p, lhs);
        }
    }
}

/// Two datasets with the same transactions in another order give every
/// itemset the same support.
pub proof fn lemma_support_permutation(d1: Seq<Seq<i32>>, d2: Seq<Seq<i32>>, s: Seq<i32>)
    requires
        d1.to_multiset() == d2.to_multiset(),
    ensures
        support(d1, s) == support(d2, s),
{
    lemma_count_permutation(d1, d2, covers(s));
}

/// Every conditional transaction of the item at position `r` is made of
/// items that stand before position `r`.
pub proof fn lemma_cond_rows(d: Seq<Seq<i32>>, order: Seq<i32>, r: int, cb: Seq<Seq<i32>>, i: int)
    requires
        order.no_duplicates(),
        0 <= r < order.len(),
        forall|u: Seq<i32>| #[trigger]
            occurrences(cb, u) == count_where(projections(d, order), starts_with(u.push(order[r]))),
        0 <= i < cb.len(),
    ensures
        holds_all(order.take(r), cb[i]),
        !cb[i].contains(order[r]),
{
    let a = order[r];
    let p = projections(d, order);
    let u = cb[i];
    assert(cb.contains(u));
    to_multiset_contains(cb, u);
    assert(occurrences(cb, u) > 0);
    lemma_count_positive(p, starts_with(u.push(a)));
    let m = choose|m: int| 0 <= m < p.len() && starts_with(u.push(a))(#[trigger] p[m]);
    lemma_projection_no_duplicates(order, d[m]);
    lemma_before_prefix(p[m], a, u);
    lemma_projection_members(order, d[m], a);
    lemma_before_projection(order, r, d[m]);
    lemma_projection_in_order(order.take(r), d[m]);
    if u.contains(a) {
        let j = choose|j: int| 0 <= j < u.len() && u[j] == a;
        assert(order.take(r).contains(u[j]));
        let q = choose|q: int| 0 <= q < order.take(r).len() && order.take(r)[q] == a;
        assert(order[q] == order[r]);
    }
}

/// The itemset `k` holds the item at position `r` of the order, and no
/// item of a later position.
pub open spec fn tops(order: Seq<i32>, r: int, k: Seq<i32>) -> bool {
    &&& 0 <= r < order.len()
    &&& k.contains(order[r])
    &&& holds_all(order.take(r + 1), k)
}

/// The frequent itemsets whose last item in tree order stands at position `r`.
pub open spec fn top_map(d: Seq<Seq<i32>>, min: nat, order: Seq<i32>, r: int) -> Map<
    Seq<i32>,
    nat,
> {
    Map::new(|k: Seq<i32>| frequent(d, min, k) && tops(order, r, k), |k: Seq<i32>| support(d, k))
}

/// The frequent itemsets whose last item in tree order stands at position `lo` or later.
pub open spec fn mined_above(d: Seq<Seq<i32>>, min: nat, order: Seq<i32>, lo: int) -> Map<
    Seq<i32>,
    nat,
> {
    Map::new(
        |k: Seq<i32>| frequent(d, min, k) && exists|r: int| lo <= r && #[trigger] tops(order, r, k),
        |k: Seq<i32>| support(d, k),
    )
}

/// What `lemma_conditional_result` says, for one itemset.
proof fn lemma_conditional_key(
    d: Seq<Seq<i32>>,
    min: nat,
    f: Seq<(i32, usize)>,
    r: int,
    cb: Seq<Seq<i32>>,
    k: Seq<i32>,
)
    requires
        is_frequency_table(d, min, f),
        min >= 1,
        0 <= r < f.len(),
        table_items(f).no_duplicates(),
        cb.to_multiset() == cond_base(projections(d, table_items(f)), f[r].0).to_multiset(),
    ensures
        mined_tree(cb, min, Some((f[r].0, f[r].1))).contains_key(k) <==> top_map(
            d,
            min,
            table_items(f),
            r,
        ).contains_key(k),
        mined_tree(cb, min, Some((f[r].0, f[r].1))).contains_key(k) ==> mined_tree(
            cb,
            min,
            Some((f[r].0, f[r].1)),
        )[k] == support(d, k),
{
    let order = table_items(f);
    let a = f[r].0;
    let c = f[r].1;
    let root = Some((a, c));
    assert(order[r] == a);
    let p = projections(d, order);
    let cbase = cond_base(p, a);
    let lhs = mined_tree(cb, min, root);
    let rhs = top_map(d, min, order, r);
    let o1 = order.take(r);
    let o2 = order.take(r + 1);
    {
        if is_itemset(k) && k.contains(a) {
            let s = without_item(k, a);
            lemma_without_item(k, a);
            lemma_support_permutation(cb, cbase, s);
            lemma_cond_support(d, order, r, s, k);
            if k.len() == 1 {
                assert(k[0] == a);
                assert(k =~= seq![a]);
                assert(o2[r] == a);
                assert(lhs.contains_key(k));
                assert(lhs[k] == c);
            } else {
                assert(k != seq![a]);
                assert(holds_all(o1, s) <==> holds_all(o2, k)) by {
                    if holds_all(o1, s) {
                        assert forall|j: int| 0 <= j < k.len() implies o2.contains(#[trigger] k[j]) by {
                            assert(k.contains(k[j]));
                            if k[j] == a {
                                assert(o2[r] == a);
                            } else {
                                assert(s.contains(k[j]));
                                let m = choose|m: int| 0 <= m < s.len() && s[m] == k[j];
                                assert(o1.contains(s[m]));
                                let q = choose|q: int| 0 <= q < o1.len() && o1[q] == s[m];
                                assert(o2[q] == o1[q]);
                            }
                        }
                    }
                    if holds_all(o2, k) {
                        assert forall|j: int| 0 <= j < s.len() implies o1.contains(#[trigger] s[j]) by {
                            assert(s.contains(s[j]));
                            assert(k.contains(s[j]));
                            let m = choose|m: int| 0 <= m < k.len() && k[m] == s[j];
                            assert(o2.contains(k[m]));
                            let q = choose|q: int| 0 <= q < o2.len() && o2[q] == k[m];
                            assert(order[q] == o2[q]);
                            assert(q != r);
                            assert(o1[q] == o2[q]);
                        }
                    }
                }
                assert(lhs.contains_key(k) <==> frequent(cb, min, s));
                if lhs.contains_key(k) {
                    assert(lhs[k] == support(cb, s));
                }
            }
        } else {
            if rhs.contains_key(k) {
                assert(k.contains(order[r]));
            }
            if lhs.contains_key(k) {
                assert(zipped(root, mined(cb, min)).contains_key(k) || k == seq![a]);
                if k == seq![a] {
                    assert(k[0] == a);
                }
            }
        }
    }
}

/// Mining the conditional transactions of an item, under that item as
/// root, gives exactly the frequent itemsets of the dataset whose last item
/// in tree order is that item, each with its support in the dataset.
pub proof fn lemma_conditional_result(
    d: Seq<Seq<i32>>,
    min: nat,
    f: Seq<(i32, usize)>,
    r: int,
    cb: Seq<Seq<i32>>,
)
    requires
        is_frequency_table(d, min, f),
        min >= 1,
        0 <= r < f.len(),
        forall|u: Seq<i32>| #[trigger]
            occurrences(cb, u) == count_where(
                projections(d, table_items(f)),
                starts_with(u.push(f[r].0)),
            ),
    ensures
        mined_tree(cb, min, Some((f[r].0, f[r].1))) == top_map(d, min, table_items(f), r),
{
    let order = table_items(f);
    let a = f[r].0;
    let root = Some((a, f[r].1));
    lemma_table_items_distinct(d, min, f);
    let p = projections(d, order);
    let cbase = cond_base(p, a);
    assert forall|i: int| 0 <= i < p.len() implies (#[trigger] p[i]).no_duplicates() by {
        lemma_projection_no_duplicates(order, d[i]);
    }
    assert forall|u: Seq<i32>| cb.to_multiset().count(u) == cbase.to_multiset().count(u) by {
        lemma_cond_base_occurrences(p, a, u);
        assert(occurrences(cb, u) == occurrences(cbase, u));
    }
    assert(cb.to_multiset() =~= cbase.to_multiset());
    let lhs = mined_tree(cb, min, root);
    let rhs = top_map(d, min, order, r);
    assert forall|k: Seq<i32>| lhs.contains_key(k) <==> rhs.contains_key(k) by {
        lemma_conditional_key(d, min, f, r, cb, k);
    }
    assert forall|k: Seq<i32>| lhs.contains_key(k) implies #[trigger] lhs[k] == rhs[k] by {
        lemma_conditional_key(d, min, f, r, cb, k);
    }
    assert(lhs =~= rhs);
}

/// A frequent itemset cannot have its last item in tree order at two positions.
pub proof fn lemma_tops_unique(order: Seq<i32>, r1: int, r2: int, k: Seq<i32>)
    requires
        order.no_duplicates(),
        tops(order, r1, k),
        tops(order, r2, k),
    ensures
        r1 == r2,
{
    if r1 < r2 {
        let j = choose|j: int| 0 <= j < k.len() && k[j] == order[r2];
        let o = order.take(r1 + 1);
        assert(o.contains(k[j]));
        let q = choose|q: int| 0 <= q < o.len() && o[q] == k[j];
        assert(order[q] == order[r2]);
    }
    if r2 < r1 {
        let j = choose|j: int| 0 <= j < k.len() && k[j] == order[r1];
        let o = order.take(r2 + 1);
        assert(o.contains(k[j]));
        let q = choose|q: int| 0 <= q < o.len() && o[q] == k[j];
        assert(order[q] == order[r1]);
    }
}

/// Adding the itemsets of position `r` to those of the later positions
/// gives those of position `r` and later; no count is added to another.
pub proof fn lemma_merge_tops(d: Seq<Seq<i32>>, min: nat, order: Seq<i32>, r: int)
    requires
        order.no_duplicates(),
        0 <= r < order.len(),
    ensures
        merged(mined_above(d, min, order, r + 1), top_map(d, min, order, r)) == mined_above(
            d,
            min,
            order,
            r,
        ),
{
    let a = mined_above(d, min, order, r + 1);
    let b = top_map(d, min, order, r);
    let m = merged(a, b);
    let t = mined_above(d, min, order, r);
    assert forall|k: Seq<i32>| (m.contains_key(k) <==> t.contains_key(k)) && (m.contains_key(k)
        ==> m[k] == t[k]) by {
        if a.contains_key(k) {
            let r2 = choose|r2: int| r + 1 <= r2 && #[trigger] tops(order, r2, k);
            assert(tops(order, r2, k));
            if b.contains_key(k) {
                lemma_tops_unique(order, r, r2, k);
            }
        }
        if b.contains_key(k) {
            assert(tops(order, r, k));
        }
        if t.contains_key(k) {
            let r2 = choose|r2: int| r <= r2 && #[trigger] tops(order, r2, k);
            if r2 > r {
                assert(tops(order, r2, k));
                assert(a.contains_key(k));
            }
        }
    }
    assert(m =~= t);
}

/// A non-empty itemset made of items of the order has its last item in tree
/// order at some position.
pub proof fn lemma_top_exists(order: Seq<i32>, k: Seq<i32>, hi: int)
    requires
        k.len() >= 1,
        0 <= hi <= order.len(),
        holds_all(order.take(hi), k),
    ensures
        exists|r: int| 0 <= r && #[trigger] tops(order, r, k),
    decreases hi,
{
    if hi == 0 {
        assert(order.take(0).contains(k[0]));
    } else if k.contains(order[hi - 1]) {
        assert(order.take(hi - 1 + 1) =~= order.take(hi));
        assert(tops(order, hi - 1, k));
    } else {
        assert forall|j: int| 0 <= j < k.len() implies order.take(hi - 1).contains(
            #[trigger] k[j],
        ) by {
            let o = order.take(hi);
            assert(o.contains(k[j]));
            let q = choose|q: int| 0 <= q < o.len() && o[q] == k[j];
            assert(k.contains(k[j]));
            assert(q != hi - 1);
            assert(order.take(hi - 1)[q] == k[j]);
        }
        lemma_top_exists(order, k, hi - 1);
    }
}

/// Every item of a frequent itemset stands in the frequency table.
pub proof fn lemma_frequent_in_table(d: Seq<Seq<i32>>, min: nat, f: Seq<(i32, usize)>, k: Seq<i32>)
    requires
        is_frequency_table(d, min, f),
        frequent(d, min, k),
    ensures
        holds_all(table_items(f), k),
{
    assert forall|j: int| 0 <= j < k.len() implies table_items(f).contains(#[trigger] k[j]) by {
        let one = seq![k[j]];
        assert(holds_all(k, one)) by {
            assert forall|i: int| 0 <= i < one.len() implies k.contains(#[trigger] one[i]) by {
                assert(one[i] == k[j]);
            }
        }
        lemma_support_antimonotone(d, one, k);
        lemma_supported_occurs(d, k[j]);
    }
}

/// Over all positions, the itemsets by position are all frequent itemsets.
pub proof fn lemma_mined_above_all(d: Seq<Seq<i32>>, min: nat, f: Seq<(i32, usize)>)
    requires
        is_frequency_table(d, min, f),
    ensures
        mined_above(d, min, table_items(f), 0) == mined(d, min),
        mined_above(d, min, table_items(f), f.len() as int) == Map::<Seq<i32>, nat>::empty(),
{
    let order = table_items(f);
    let a = mined_above(d, min, order, 0);
    assert forall|k: Seq<i32>| frequent(d, min, k) implies a.contains_key(k) by {
        lemma_frequent_in_table(d, min, f, k);
        assert(order.take(order.len() as int) =~= order);
        lemma_top_exists(order, k, order.len() as int);
    }
    assert(a =~= mined(d, min));
    assert(mined_above(d, min, order, f.len() as int) =~= Map::<Seq<i32>, nat>::empty());
}

} // verus!
