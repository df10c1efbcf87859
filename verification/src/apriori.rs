//! The level-wise candidate engine: frequent itemsets of `k` items are
//! joined from those of `k - 1` items, pruned, and counted by intersecting
//! transaction-id lists.

use vstd::prelude::*;
use crate::itemset::{
    is_itemset, holds_all, support, frequent, mined, rows, same_items, copy_items,
    lemma_support_witness, lemma_support_antimonotone, lemma_itemset_fits,
};
use crate::tids::{
    increasing, is_tid_list, is_intersection, lemma_tid_list_len, lemma_tid_list_intersection,
    tids_of_item, intersect_tids, copy_tids,
};
use crate::frequency::{distinct_items, lemma_supported_occurs};
use crate::combos::{combos, combinations, leaves_one_out, lemma_combos_leave_one_out};
use crate::patterns::{table_has, table_distinct, table_map, lemma_table_row, lemma_table_push};
use crate::canonical::lemma_itemset_prefix;

verus! {

/// Some row of the level has the itemset `k`.
pub open spec fn level_has(l: Seq<(Vec<i32>, Vec<usize>)>, k: Seq<i32>) -> bool {
    exists|i: int| 0 <= i < l.len() && (#[trigger] l[i]).0@ == k
}

/// No itemset stands in two rows of the level.
pub open spec fn level_distinct(l: Seq<(Vec<i32>, Vec<usize>)>) -> bool {
    forall|i: int, j: int| 0 <= i < j < l.len() ==> (#[trigger] l[i]).0@ != (#[trigger] l[j]).0@
}

/// A level of candidates: canonical itemsets of `k` items, each once and
/// with its transaction-id list, among them every frequent one.
pub open spec fn is_candidate_level(
    d: Seq<Seq<i32>>,
    min: nat,
    k: nat,
    l: Seq<(Vec<i32>, Vec<usize>)>,
) -> bool {
    &&& level_distinct(l)
    &&& forall|i: int|
        0 <= i < l.len() ==> {
            &&& is_itemset((#[trigger] l[i]).0@)
            &&& l[i].0@.len() == k
            &&& is_tid_list(d, l[i].0@, l[i].1@)
        }
    &&& forall|s: Seq<i32>| s.len() == k && #[trigger] frequent(d, min, s) ==> level_has(l, s)
}

/// A level of frequent itemsets: candidates whose support reaches the threshold.
pub open spec fn is_frequent_level(
    d: Seq<Seq<i32>>,
    min: nat,
    k: nat,
    l: Seq<(Vec<i32>, Vec<usize>)>,
) -> bool {
    &&& is_candidate_level(d, min, k, l)
    &&& forall|i: int| 0 <= i < l.len() ==> (#[trigger] l[i]).1@.len() >= min
}

/// A level with one more row has the itemsets it had, and the itemset of the
/// new row.
pub proof fn lemma_level_push_has(
    l: Seq<(Vec<i32>, Vec<usize>)>,
    e: (Vec<i32>, Vec<usize>),
    k: Seq<i32>,
)
    ensures
        level_has(l.push(e), k) <==> (level_has(l, k) || e.0@ == k),
{
    let u = l.push(e);
    if level_has(u, k) {
        let i = choose|i: int| 0 <= i < u.len() && (#[trigger] u[i]).0@ == k;
        if i < l.len() {
            assert(l[i].0@ == k);
        }
    }
    if level_has(l, k) {
        let i = choose|i: int| 0 <= i < l.len() && (#[trigger] l[i]).0@ == k;
        assert(u[i].0@ == k);
    }
    if e.0@ == k {
        assert(u[l.len() as int].0@ == k);
    }
}

/// The frequent one-item itemsets, each with the list of the transactions
/// that hold its item, in ascending order of the item. A threshold of zero
/// gives an empty level.
pub fn generate_l1(dataset: &Vec<Vec<i32>>, min_support_count: usize) -> (l1: Vec<
    (Vec<i32>, Vec<usize>),
>)
    ensures
        is_frequent_level(rows(dataset@), min_support_count as nat, 1, l1@),
        forall|i: int, j: int|
            0 <= i < j < l1.len() ==> (#[trigger] l1[i]).0@[0] < (#[trigger] l1[j]).0@[0],
        min_support_count == 0 ==> l1.len() == 0,
{
    let ghost d = rows(dataset@);
    let ghost min = min_support_count as nat;
    if min_support_count == 0 {
        return Vec::new();
    }
    let items = distinct_items(dataset);
    let mut l1: Vec<(Vec<i32>, Vec<usize>)> = Vec::new();
    let mut m: usize = 0;
    while m < items.len()
        invariant
            m <= items.len(),
            d == rows(dataset@),
            min == min_support_count,
            is_itemset(items@),
            forall|i: int|
                0 <= i < l1.len() ==> {
                    &&& (#[trigger] l1[i]).0@.len() == 1
                    &&& is_tid_list(d, l1[i].0@, l1[i].1@)
                    &&& l1[i].1@.len() >= min
                },
            forall|i: int, m1: int|
                0 <= i < l1.len() && m <= m1 < items.len() ==> (#[trigger] l1[i]).0@[0]
                    < #[trigger] items[m1],
            level_distinct(l1@),
            forall|i: int, j: int|
                0 <= i < j < l1.len() ==> (#[trigger] l1[i]).0@[0] < (#[trigger] l1[j]).0@[0],
            forall|m0: int|
                0 <= m0 < m && support(d, seq![#[trigger] items[m0]]) >= min ==> level_has(
                    l1@,
                    seq![items[m0]],
                ),
        decreases items.len() - m,
    {
        let item = items[m];
        let tids = tids_of_item(dataset, item);
        let ghost before = l1@;
        proof {
            assert(d.len() == dataset.len());
            lemma_tid_list_len(d, seq![item], tids@);
        }
        if tids.len() >= min_support_count {
            let mut key: Vec<i32> = Vec::new();
            key.push(item);
            assert(key@ =~= seq![item]);
            l1.push((key, tids));
            proof {
                assert forall|i: int, j: int| 0 <= i < j < l1.len() implies (#[trigger] l1[i]).0@[0]
                    < (#[trigger] l1[j]).0@[0] by {
                    if j == before.len() {
                        assert(l1[i] == before[i]);
                        assert(before[i].0@[0] < items[m as int]);
                    } else {
                        assert(l1[i] == before[i] && l1[j] == before[j]);
                    }
                }
                assert forall|i: int, m1: int|
                    0 <= i < l1.len() && m + 1 <= m1 < items.len() implies (#[trigger] l1[i]).0@[0]
                    < #[trigger] items[m1] by {
                    if i < before.len() {
                        assert(l1[i] == before[i]);
                    } else {
                        assert(items[m as int] < items[m1]);
                    }
                }
                assert forall|m0: int|
                    0 <= m0 < m + 1 && support(d, seq![#[trigger] items[m0]]) >= min implies level_has(
                    l1@,
                    seq![items[m0]],
                ) by {
                    lemma_level_push_has(before, l1[before.len() as int], seq![items[m0]]);
                }
            }
        }
        m += 1;
    }
    proof {
        assert forall|s: Seq<i32>| s.len() == 1 && #[trigger] frequent(d, min, s) implies level_has(
            l1@,
            s,
        ) by {
            assert(s =~= seq![s[0]]);
            lemma_supported_occurs(d, s[0]);
            assert(items@.contains(s[0]));
            let m0 = choose|m0: int| 0 <= m0 < items.len() && items[m0] == s[0];
            assert(s =~= seq![items[m0]]);
        }
    }
    l1
}

/// Whether some row of the level has the itemset `key`.
pub fn level_contains(l: &Vec<(Vec<i32>, Vec<usize>)>, key: &Vec<i32>) -> (b: bool)
    ensures
        b == level_has(l@, key@),
{
    let mut i: usize = 0;
    while i < l.len()
        invariant
            i <= l.len(),
            forall|j: int| 0 <= j < i ==> (#[trigger] l[j]).0@ != key@,
        decreases l.len() - i,
    {
        if same_items(&l[i].0, key) {
            return true;
        }
        i += 1;
    }
    false
}

/// Leaving out some one item of `c` gives an itemset that the level lacks.
pub open spec fn prunable(c: Seq<i32>, prev: Seq<(Vec<i32>, Vec<usize>)>) -> bool {
    exists|i: int| 0 <= i < c.len() && !level_has(prev, #[trigger] c.remove(i))
}

/// The prune test: whether some subset of the candidate with one item
/// fewer is missing from the previous level.
pub fn has_infrequent_subset(candidate: &Vec<i32>, prev_l: &Vec<(Vec<i32>, Vec<usize>)>) -> (b:
    bool)
    requires
        candidate.len() >= 1,
    ensures
        b == prunable(candidate@, prev_l@),
{
    let subsets = combinations(candidate, candidate.len() - 1);
    let ghost c = candidate@;
    let ghost all = combos(c, (c.len() - 1) as nat);
    proof {
        lemma_combos_leave_one_out(c);
    }
    let mut j: usize = 0;
    while j < subsets.len()
        invariant
            j <= subsets.len(),
            c == candidate@,
            c.len() >= 1,
            all == combos(c, (c.len() - 1) as nat),
            rows(subsets@) == all,
            forall|m: int| 0 <= m < all.len() ==> leaves_one_out(c, #[trigger] all[m]),
            forall|m: int| 0 <= m < j ==> level_has(prev_l@, #[trigger] all[m]),
        decreases subsets.len() - j,
    {
        assert(rows(subsets@)[j as int] == subsets[j as int]@);
        if !level_contains(prev_l, &subsets[j]) {
            proof {
                assert(leaves_one_out(c, all[j as int]));
                let i = choose|i: int| 0 <= i < c.len() && all[j as int] == #[trigger] c.remove(i);
                assert(!level_has(prev_l@, c.remove(i)));
            }
            return true;
        }
        j += 1;
    }
    proof {
        assert forall|i: int| 0 <= i < c.len() implies level_has(prev_l@, #[trigger] c.remove(i)) by {
            assert(all.contains(c.remove(i)));
            let m = choose|m: int| 0 <= m < all.len() && all[m] == c.remove(i);
            assert(level_has(prev_l@, all[m]));
        }
    }
    false
}

/// Two itemsets of the same level can be joined: they agree but for their
/// last items, and the first one's last item is the smaller.
pub open spec fn joinable(a: Seq<i32>, b: Seq<i32>) -> bool {
    &&& a.len() >= 1
    &&& b.len() >= 1
    &&& a.drop_last() == b.drop_last()
    &&& a.last() < b.last()
}

/// The join of two joinable itemsets: the first with the last item of the second appended.
pub open spec fn joined(a: Seq<i32>, b: Seq<i32>) -> Seq<i32> {
    a.push(b.last())
}

/// The candidate row `c` is the join of rows `i` and `j` of `prev`, with
/// the intersection of their transaction-id lists.
pub open spec fn joins(
    prev: Seq<(Vec<i32>, Vec<usize>)>,
    i: int,
    j: int,
    c: (Vec<i32>, Vec<usize>),
) -> bool {
    &&& 0 <= i < prev.len()
    &&& 0 <= j < prev.len()
    &&& joinable(prev[i].0@, prev[j].0@)
    &&& c.0@ == joined(prev[i].0@, prev[j].0@)
    &&& is_intersection(c.1@, prev[i].1@, prev[j].1@)
}

/// `ck` holds, each once, the joins of the joinable pairs of `prev` that
/// the prune test lets through.
pub open spec fn is_join_of(
    prev: Seq<(Vec<i32>, Vec<usize>)>,
    ck: Seq<(Vec<i32>, Vec<usize>)>,
) -> bool {
    &&& level_distinct(ck)
    &&& forall|r: int|
        0 <= r < ck.len() ==> !prunable((#[trigger] ck[r]).0@, prev) && exists|i: int, j: int|
            #[trigger] joins(prev, i, j, ck[r])
    &&& forall|i: int, j: int|
        0 <= i < prev.len() && 0 <= j < prev.len() && joinable(
            (#[trigger] prev[i]).0@,
            (#[trigger] prev[j]).0@,
        ) && !prunable(joined(prev[i].0@, prev[j].0@), prev) ==> level_has(
            ck,
            joined(prev[i].0@, prev[j].0@),
        )
}

/// Whether two non-empty itemsets agree on all but their last items.
pub fn same_prefix(a: &Vec<i32>, b: &Vec<i32>) -> (eq: bool)
    requires
        a.len() >= 1,
        b.len() >= 1,
    ensures
        eq == (a@.drop_last() == b@.drop_last()),
{
    if a.len() != b.len() {
        assert(a@.drop_last().len() != b@.drop_last().len());
        return false;
    }
    let n = a.len() - 1;
    let mut i: usize = 0;
    while i < n
        invariant
            i <= n,
            n == a.len() - 1,
            a.len() == b.len(),
            forall|j: int| 0 <= j < i ==> a[j] == b[j],
        decreases n - i,
    {
        if a[i] != b[i] {
            assert(a@.drop_last()[i as int] != b@.drop_last()[i as int]);
            return false;
        }
        i += 1;
    }
    assert(a@.drop_last() =~= b@.drop_last());
    true
}

/// Two joinable pairs of rows with the same join are the same pair.
pub proof fn lemma_join_injective(prev: Seq<(Vec<i32>, Vec<usize>)>, i: int, j: int, i2: int, j2: int)
    requires
        level_distinct(prev),
        0 <= i < prev.len(),
        0 <= j < prev.len(),
        0 <= i2 < prev.len(),
        0 <= j2 < prev.len(),
        joinable(prev[i].0@, prev[j].0@),
        joinable(prev[i2].0@, prev[j2].0@),
        joined(prev[i].0@, prev[j].0@) == joined(prev[i2].0@, prev[j2].0@),
    ensures
        i == i2,
        j == j2,
{
    let a = prev[i].0@;
    let b = prev[j].0@;
    let a2 = prev[i2].0@;
    let b2 = prev[j2].0@;
    assert(a.push(b.last()).drop_last() =~= a);
    assert(a2.push(b2.last()).drop_last() =~= a2);
    assert(a == a2);
    assert(a.push(b.last()).last() == b.last());
    assert(a2.push(b2.last()).last() == b2.last());
    assert(b =~= b.drop_last().push(b.last()));
    assert(b2 =~= b2.drop_last().push(b2.last()));
    assert(b == b2);
}

/// The join step with the prune test: every ordered pair of rows that
/// agree but for their last items, the first one's being the smaller, gives
/// the candidate with one item more, unless some subset of it with one item
/// fewer is missing from the level. The candidate's transaction-id list is
/// the intersection of the two rows' lists.
pub fn apriori_gen(prev_l: &Vec<(Vec<i32>, Vec<usize>)>) -> (ck: Vec<(Vec<i32>, Vec<usize>)>)
    requires
        level_distinct(prev_l@),
        forall|i: int|
            0 <= i < prev_l.len() ==> (#[trigger] prev_l[i]).0@.len() >= 1 && increasing(
                prev_l[i].1@,
            ),
    ensures
        is_join_of(prev_l@, ck@),
{
    let ghost prev = prev_l@;
    let mut ck: Vec<(Vec<i32>, Vec<usize>)> = Vec::new();
    let ghost mut src: Seq<(int, int)> = Seq::empty();
    let mut i: usize = 0;
    while i < prev_l.len()
        invariant
            i <= prev_l.len(),
            prev == prev_l@,
            level_distinct(prev),
            forall|m: int|
                0 <= m < prev.len() ==> (#[trigger] prev[m]).0@.len() >= 1 && increasing(prev[m].1@),
            src.len() == ck.len(),
            level_distinct(ck@),
            forall|r: int|
                0 <= r < ck.len() ==> {
                    &&& joins(prev, src[r].0, src[r].1, #[trigger] ck[r])
                    &&& !prunable(ck[r].0@, prev)
                },
            forall|r: int| 0 <= r < src.len() ==> (#[trigger] src[r]).0 < i,
            forall|i0: int, j0: int|
                0 <= i0 < i && 0 <= j0 < prev.len() && joinable(
                    (#[trigger] prev[i0]).0@,
                    (#[trigger] prev[j0]).0@,
                ) && !prunable(joined(prev[i0].0@, prev[j0].0@), prev) ==> level_has(
                    ck@,
                    joined(prev[i0].0@, prev[j0].0@),
                ),
        decreases prev_l.len() - i,
    {
        let mut j: usize = 0;
        while j < prev_l.len()
            invariant
                i < prev_l.len(),
                j <= prev_l.len(),
                prev == prev_l@,
                level_distinct(prev),
                forall|m: int|
                    0 <= m < prev.len() ==> (#[trigger] prev[m]).0@.len() >= 1 && increasing(
                        prev[m].1@,
                    ),
                src.len() == ck.len(),
                level_distinct(ck@),
                forall|r: int|
                    0 <= r < ck.len() ==> {
                        &&& joins(prev, src[r].0, src[r].1, #[trigger] ck[r])
                        &&& !prunable(ck[r].0@, prev)
                    },
                forall|r: int|
                    0 <= r < src.len() ==> ((#[trigger] src[r]).0 < i || (src[r].0 == i && src[r].1
                        < j)),
                forall|i0: int, j0: int|
                    (0 <= i0 < i || (i0 == i && j0 < j)) && 0 <= j0 < prev.len() && joinable(
                        (#[trigger] prev[i0]).0@,
                        (#[trigger] prev[j0]).0@,
                    ) && !prunable(joined(prev[i0].0@, prev[j0].0@), prev) ==> level_has(
                        ck@,
                        joined(prev[i0].0@, prev[j0].0@),
                    ),
            decreases prev_l.len() - j,
        {
            let a = &prev_l[i].0;
            let b = &prev_l[j].0;
            let ghost before = ck@;
            let ghost old_src = src;
            if same_prefix(a, b) && a[a.len() - 1] < b[b.len() - 1] {
                let mut new_item = copy_items(a);
                new_item.push(b[b.len() - 1]);
                assert(new_item@ == joined(prev[i as int].0@, prev[j as int].0@));
                if !has_infrequent_subset(&new_item, prev_l) {
                    let new_tids = intersect_tids(&prev_l[i].1, &prev_l[j].1);
                    proof {
                        assert forall|r: int| 0 <= r < before.len() implies (#[trigger] before[r]).0@
                            != new_item@ by {
                            if before[r].0@ == new_item@ {
                                lemma_join_injective(
                                    prev,
                                    src[r].0,
                                    src[r].1,
                                    i as int,
                                    j as int,
                                );
                            }
                        }
                    }
                    ck.push((new_item, new_tids));
                    proof {
                        src = src.push((i as int, j as int));
                        let row = ck[before.len() as int];
                        assert forall|r: int, q: int| 0 <= r < q < ck.len() implies (#[trigger] ck[r]).0@
                            != (#[trigger] ck[q]).0@ by {
                            if q < before.len() {
                                assert(ck[r] == before[r] && ck[q] == before[q]);
                            } else {
                                assert(ck[r] == before[r]);
                            }
                        }
                        assert forall|r: int| 0 <= r < ck.len() implies {
                            &&& joins(prev, src[r].0, src[r].1, #[trigger] ck[r])
                            &&& !prunable(ck[r].0@, prev)
                        } by {
                            if r < before.len() {
                                assert(ck[r] == before[r]);
                                assert(src[r] == old_src[r]);
                            }
                        }
                        assert forall|i0: int, j0: int|
                            (0 <= i0 < i || (i0 == i && j0 < j + 1)) && 0 <= j0 < prev.len()
                                && joinable((#[trigger] prev[i0]).0@, (#[trigger] prev[j0]).0@)
                                && !prunable(
                                joined(prev[i0].0@, prev[j0].0@),
                                prev,
                            ) implies level_has(ck@, joined(prev[i0].0@, prev[j0].0@)) by {
                            lemma_level_push_has(before, row, joined(prev[i0].0@, prev[j0].0@));
                        }
                    }
                }
            }
            j += 1;
        }
        i += 1;
    }
    proof {
        assert forall|r: int| 0 <= r < ck.len() implies !prunable((#[trigger] ck[r]).0@, prev)
            && exists|i: int, j: int| #[trigger] joins(prev, i, j, ck[r]) by {
            assert(joins(prev, src[r].0, src[r].1, ck[r]));
        }
    }
    ck
}

/// A level as plain values: each row's itemset and transaction-id list.
pub open spec fn level_view(l: Seq<(Vec<i32>, Vec<usize>)>) -> Seq<(Seq<i32>, Seq<usize>)> {
    Seq::new(l.len(), |i: int| (l[i].0@, l[i].1@))
}

/// The test that a row's transaction-id list has at least `min` members.
pub open spec fn supported(min: nat) -> spec_fn((Seq<i32>, Seq<usize>)) -> bool {
    |e: (Seq<i32>, Seq<usize>)| e.1.len() >= min
}

/// The filter step: the rows of the candidates whose transaction-id lists
/// reach the threshold, in their order.
pub fn gen_lk(ck: Vec<(Vec<i32>, Vec<usize>)>, min_support_count: usize) -> (lk: Vec<
    (Vec<i32>, Vec<usize>),
>)
    ensures
        level_view(lk@) == level_view(ck@).filter(supported(min_support_count as nat)),
{
    let ghost p = supported(min_support_count as nat);
    let ghost cv = level_view(ck@);
    let mut lk: Vec<(Vec<i32>, Vec<usize>)> = Vec::new();
    let mut i: usize = 0;
    proof {
        assert(cv.take(0) =~= Seq::empty());
        assert(level_view(lk@) =~= Seq::empty());
        reveal(Seq::filter);
    }
    while i < ck.len()
        invariant
            i <= ck.len(),
            cv == level_view(ck@),
            p == supported(min_support_count as nat),
            level_view(lk@) == cv.take(i as int).filter(p),
        decreases ck.len() - i,
    {
        let ghost before = lk@;
        proof {
            assert(cv.take(i + 1) =~= cv.take(i as int).push(cv[i as int]));
            cv.take(i as int).lemma_filter_push(cv[i as int], p);
        }
        if ck[i].1.len() >= min_support_count {
            let items = copy_items(&ck[i].0);
            let tids = copy_tids(&ck[i].1);
            lk.push((items, tids));
            proof {
                assert(level_view(lk@) =~= level_view(before).push(cv[i as int]));
            }
        }
        i += 1;
    }
    proof {
        assert(cv.take(ck.len() as int) =~= cv);
    }
    lk
}

/// A canonical itemset with one position removed is a canonical itemset made
/// of its items.
pub proof fn lemma_remove_itemset(s: Seq<i32>, i: int)
    requires
        is_itemset(s),
        0 <= i < s.len(),
    ensures
        is_itemset(s.remove(i)),
        holds_all(s, s.remove(i)),
        s.remove(i).len() == s.len() - 1,
{
    let r = s.remove(i);
    assert forall|a: int, b: int| 0 <= a < b < r.len() implies r[a] < r[b] by {
        let a2 = if a < i { a } else { a + 1 };
        let b2 = if b < i { b } else { b + 1 };
        assert(r[a] == s[a2]);
        assert(r[b] == s[b2]);
    }
    assert forall|a: int| 0 <= a < r.len() implies s.contains(#[trigger] r[a]) by {
        let a2 = if a < i { a } else { a + 1 };
        assert(r[a] == s[a2]);
    }
}

/// Leaving one item out of a frequent itemset of two or more items gives a frequent itemset.
pub proof fn lemma_remove_frequent(d: Seq<Seq<i32>>, min: nat, s: Seq<i32>, i: int)
    requires
        frequent(d, min, s),
        s.len() >= 2,
        0 <= i < s.len(),
    ensures
        frequent(d, min, s.remove(i)),
{
    lemma_remove_itemset(s, i);
    lemma_support_antimonotone(d, s.remove(i), s);
}

/// Every non-empty prefix of a frequent itemset is frequent.
pub proof fn lemma_prefix_frequent(d: Seq<Seq<i32>>, min: nat, s: Seq<i32>, m: int)
    requires
        frequent(d, min, s),
        1 <= m <= s.len(),
    ensures
        frequent(d, min, s.take(m)),
{
    lemma_itemset_prefix(s, m);
    let e = s.take(m);
    assert forall|a: int| 0 <= a < e.len() implies s.contains(#[trigger] e[a]) by {
        assert(e[a] == s[a]);
    }
    lemma_support_antimonotone(d, e, s);
}

/// The join of a level of frequent itemsets is a level of candidates: it
/// misses no frequent itemset with one item more, and the intersected
/// lists are the candidates' transaction-id lists.
pub proof fn lemma_candidates(
    d: Seq<Seq<i32>>,
    min: nat,
    k: nat,
    prev: Seq<(Vec<i32>, Vec<usize>)>,
    ck: Seq<(Vec<i32>, Vec<usize>)>,
)
    requires
        k >= 2,
        min >= 1,
        is_frequent_level(d, min, (k - 1) as nat, prev),
        is_join_of(prev, ck),
    ensures
        is_candidate_level(d, min, k, ck),
{
    assert forall|r: int| 0 <= r < ck.len() implies {
        &&& is_itemset((#[trigger] ck[r]).0@)
        &&& ck[r].0@.len() == k
        &&& is_tid_list(d, ck[r].0@, ck[r].1@)
    } by {
        let (i, j) = choose|i: int, j: int| #[trigger] joins(prev, i, j, ck[r]);
        let a = prev[i].0@;
        let b = prev[j].0@;
        let c = ck[r].0@;
        assert(is_itemset(a) && is_itemset(b));
        assert forall|x: int, y: int| 0 <= x < y < c.len() implies c[x] < c[y] by {
            if y < a.len() {
                assert(c[x] == a[x] && c[y] == a[y]);
            } else {
                assert(c[y] == b.last());
                assert(c[x] == a[x]);
                if x < a.len() - 1 {
                    assert(a[x] < a[a.len() - 1]);
                }
            }
        }
        assert(holds_all(c, a)) by {
            assert forall|x: int| 0 <= x < a.len() implies c.contains(#[trigger] a[x]) by {
                assert(c[x] == a[x]);
            }
        }
        assert(holds_all(c, b)) by {
            assert forall|x: int| 0 <= x < b.len() implies c.contains(#[trigger] b[x]) by {
                if x < b.len() - 1 {
                    assert(b[x] == b.drop_last()[x]);
                    assert(a.drop_last()[x] == a[x]);
                    assert(c[x] == a[x]);
                } else {
                    assert(c[c.len() - 1] == b[x]);
                }
            }
        }
        assert forall|x: int| 0 <= x < c.len() implies a.contains(#[trigger] c[x]) || b.contains(
            c[x],
        ) by {
            if x < a.len() {
                assert(a[x] == c[x]);
            } else {
                assert(b[b.len() - 1] == c[x]);
            }
        }
        lemma_tid_list_intersection(d, a, b, c, prev[i].1@, prev[j].1@, ck[r].1@);
    }
    assert forall|s: Seq<i32>| s.len() == k && #[trigger] frequent(d, min, s) implies level_has(
        ck,
        s,
    ) by {
        let a = s.drop_last();
        let b = s.remove(k - 2);
        assert(a =~= s.remove(k - 1));
        lemma_remove_frequent(d, min, s, k - 1);
        lemma_remove_frequent(d, min, s, k - 2);
        assert(level_has(prev, a));
        assert(level_has(prev, b));
        let i = choose|i: int| 0 <= i < prev.len() && (#[trigger] prev[i]).0@ == a;
        let j = choose|j: int| 0 <= j < prev.len() && (#[trigger] prev[j]).0@ == b;
        assert(a.drop_last() =~= b.drop_last());
        assert(a.last() == s[k - 2]);
        assert(b.last() == s[k - 1]);
        assert(joinable(a, b));
        assert(joined(a, b) =~= s);
        assert(!prunable(s, prev)) by {
            assert forall|m: int| 0 <= m < s.len() implies level_has(prev, #[trigger] s.remove(m)) by {
                lemma_remove_frequent(d, min, s, m);
            }
        }
        assert(joinable(prev[i].0@, prev[j].0@));
    }
}

/// No itemset stands in two rows.
pub open spec fn keys_distinct(v: Seq<(Seq<i32>, Seq<usize>)>) -> bool {
    forall|i: int, j: int| 0 <= i < j < v.len() ==> (#[trigger] v[i]).0 != (#[trigger] v[j]).0
}

/// Filtering rows keeps their itemsets distinct.
pub proof fn lemma_filter_keys_distinct(
    v: Seq<(Seq<i32>, Seq<usize>)>,
    p: spec_fn((Seq<i32>, Seq<usize>)) -> bool,
)
    requires
        keys_distinct(v),
    ensures
        keys_distinct(v.filter(p)),
    decreases v.len(),
{
    reveal(Seq::filter);
    if v.len() > 0 {
        let e = v.drop_last();
        let fe = e.filter(p);
        assert(keys_distinct(e)) by {
            assert forall|i: int, j: int| 0 <= i < j < e.len() implies (#[trigger] e[i]).0 != (
            #[trigger] e[j]).0 by {
                assert(e[i] == v[i] && e[j] == v[j]);
            }
        }
        lemma_filter_keys_distinct(e, p);
        if p(v.last()) {
            let f = fe.push(v.last());
            assert forall|i: int, j: int| 0 <= i < j < f.len() implies (#[trigger] f[i]).0 != (
            #[trigger] f[j]).0 by {
                if j < fe.len() {
                    assert(f[i] == fe[i] && f[j] == fe[j]);
                } else {
                    assert(f[i] == fe[i]);
                    assert(fe.contains(fe[i]));
                    e.lemma_filter_contains_rev(p, fe[i]);
                    let m = choose|m: int| 0 <= m < e.len() && e[m] == fe[i];
                    assert(e[m] == v[m]);
                    assert(v[m].0 != v[v.len() - 1].0);
                }
            }
        }
    }
}

/// The candidates that reach the threshold form the level of frequent itemsets.
pub proof fn lemma_frequent_level(
    d: Seq<Seq<i32>>,
    min: nat,
    k: nat,
    ck: Seq<(Vec<i32>, Vec<usize>)>,
    lk: Seq<(Vec<i32>, Vec<usize>)>,
)
    requires
        d.len() <= usize::MAX,
        is_candidate_level(d, min, k, ck),
        level_view(lk) == level_view(ck).filter(supported(min)),
    ensures
        is_frequent_level(d, min, k, lk),
{
    let p = supported(min);
    let cv = level_view(ck);
    let f = cv.filter(p);
    let lv = level_view(lk);
    assert(keys_distinct(cv)) by {
        assert forall|i: int, j: int| 0 <= i < j < cv.len() implies (#[trigger] cv[i]).0 != (
        #[trigger] cv[j]).0 by {
            assert(ck[i].0@ != ck[j].0@);
        }
    }
    lemma_filter_keys_distinct(cv, p);
    assert forall|i: int, j: int| 0 <= i < j < lk.len() implies (#[trigger] lk[i]).0@ != (
    #[trigger] lk[j]).0@ by {
        assert(lv[i].0 == lk[i].0@ && lv[j].0 == lk[j].0@);
        assert(f[i].0 != f[j].0);
    }
    assert forall|r: int| 0 <= r < lk.len() implies {
        &&& is_itemset((#[trigger] lk[r]).0@)
        &&& lk[r].0@.len() == k
        &&& is_tid_list(d, lk[r].0@, lk[r].1@)
        &&& lk[r].1@.len() >= min
    } by {
        assert(lv[r] == (lk[r].0@, lk[r].1@));
        assert(f.contains(f[r]));
        cv.lemma_filter_contains_rev(p, f[r]);
        cv.lemma_filter_pred(p, r);
        let i = choose|i: int| 0 <= i < cv.len() && cv[i] == f[r];
        assert(cv[i] == (ck[i].0@, ck[i].1@));
    }
    assert forall|s: Seq<i32>| s.len() == k && #[trigger] frequent(d, min, s) implies level_has(
        lk,
        s,
    ) by {
        let i = choose|i: int| 0 <= i < ck.len() && (#[trigger] ck[i]).0@ == s;
        lemma_tid_list_len(d, s, ck[i].1@);
        assert(cv[i] == (ck[i].0@, ck[i].1@));
        assert(p(cv[i]));
        cv.lemma_filter_contains(p, i);
        let r = choose|r: int| 0 <= r < f.len() && f[r] == cv[i];
        assert(lv[r] == (lk[r].0@, lk[r].1@));
        assert(lk[r].0@ == s);
    }
}

/// The length of the longest transaction.
pub open spec fn longest(d: Seq<Seq<i32>>) -> nat
    decreases d.len(),
{
    if d.len() == 0 {
        0
    } else {
        let m = longest(d.drop_last());
        if d.last().len() > m {
            d.last().len()
        } else {
            m
        }
    }
}

/// No transaction is longer than the longest.
pub proof fn lemma_longest(d: Seq<Seq<i32>>, t: int)
    requires
        0 <= t < d.len(),
    ensures
        d[t].len() <= longest(d),
    decreases d.len(),
{
    if t < d.len() - 1 {
        lemma_longest(d.drop_last(), t);
    }
}

/// A non-empty level of frequent itemsets of `k` items shows that some
/// transaction has at least `k` items.
pub proof fn lemma_level_bound(
    d: Seq<Seq<i32>>,
    min: nat,
    k: nat,
    l: Seq<(Vec<i32>, Vec<usize>)>,
)
    requires
        d.len() <= usize::MAX,
        min >= 1,
        is_frequent_level(d, min, k, l),
        l.len() >= 1,
    ensures
        k <= longest(d),
{
    let s = l[0].0@;
    lemma_tid_list_len(d, s, l[0].1@);
    let w = lemma_support_witness(d, s);
    lemma_itemset_fits(d[w], s);
    lemma_longest(d, w);
}

/// A level with fewer than two rows has no frequent itemset above it:
/// such an itemset would put two different rows into the level.
pub proof fn lemma_small_level_ends(
    d: Seq<Seq<i32>>,
    min: nat,
    k: nat,
    l: Seq<(Vec<i32>, Vec<usize>)>,
)
    requires
        k >= 1,
        is_frequent_level(d, min, k, l),
        l.len() < 2,
    ensures
        forall|s: Seq<i32>| #[trigger] frequent(d, min, s) ==> s.len() <= k,
{
    assert forall|s: Seq<i32>| #[trigger] frequent(d, min, s) implies s.len() <= k by {
        if s.len() > k {
            let e = s.take(k as int + 1);
            lemma_prefix_frequent(d, min, s, k as int + 1);
            let a = e.remove(k as int);
            let b = e.remove(k - 1);
            lemma_remove_frequent(d, min, e, k as int);
            lemma_remove_frequent(d, min, e, k - 1);
            assert(level_has(l, a));
            assert(level_has(l, b));
            let i = choose|i: int| 0 <= i < l.len() && (#[trigger] l[i]).0@ == a;
            let j = choose|j: int| 0 <= j < l.len() && (#[trigger] l[j]).0@ == b;
            assert(a[k - 1] == e[k - 1]);
            assert(b[k - 1] == e[k as int]);
            assert(e[k - 1] < e[k as int]);
            assert(i != j);
        }
    }
}

/// An empty level of `k` items has no frequent itemset of `k` or more items.
pub proof fn lemma_empty_level_ends(
    d: Seq<Seq<i32>>,
    min: nat,
    k: nat,
    l: Seq<(Vec<i32>, Vec<usize>)>,
)
    requires
        k >= 1,
        is_frequent_level(d, min, k, l),
        l.len() == 0,
    ensures
        forall|s: Seq<i32>| #[trigger] frequent(d, min, s) ==> s.len() < k,
{
    assert forall|s: Seq<i32>| #[trigger] frequent(d, min, s) implies s.len() < k by {
        if s.len() >= k {
            lemma_prefix_frequent(d, min, s, k as int);
            assert(level_has(l, s.take(k as int)));
        }
    }
}

/// The levels of frequent itemsets: the row at position `k` is the level
/// of `k + 1` items, no level after the first is empty, and no frequent
/// itemset is longer than the number of levels.
pub open spec fn is_level_list(
    d: Seq<Seq<i32>>,
    min: nat,
    levels: Seq<Vec<(Vec<i32>, Vec<usize>)>>,
) -> bool {
    &&& forall|k: int|
        0 <= k < levels.len() ==> is_frequent_level(d, min, (k + 1) as nat, (#[trigger] levels[k])@)
    &&& forall|k: int| 1 <= k < levels.len() ==> (#[trigger] levels[k]).len() >= 1
    &&& forall|s: Seq<i32>| #[trigger] frequent(d, min, s) ==> s.len() <= levels.len()
    &&& (min >= 1 ==> levels.len() >= 1)
}

/// Mines level by level and returns the levels with their transaction-id
/// lists. A threshold of zero gives no level at all.
pub fn apriori_orig(dataset: &Vec<Vec<i32>>, min_support_count: usize) -> (levels: Vec<
    Vec<(Vec<i32>, Vec<usize>)>,
>)
    ensures
        is_level_list(rows(dataset@), min_support_count as nat, levels@),
        min_support_count == 0 ==> levels.len() == 0,
{
    let ghost d = rows(dataset@);
    let ghost min = min_support_count as nat;
    let mut levels: Vec<Vec<(Vec<i32>, Vec<usize>)>> = Vec::new();
    if min_support_count == 0 {
        return levels;
    }
    let l1 = generate_l1(dataset, min_support_count);
    levels.push(l1);
    proof {
        assert(d.len() == dataset.len());
    }
    loop
        invariant
            d == rows(dataset@),
            d.len() <= usize::MAX,
            min == min_support_count as nat,
            min >= 1,
            1 <= levels.len() <= longest(d) + 1,
            forall|k: int|
                0 <= k < levels.len() ==> is_frequent_level(
                    d,
                    min,
                    (k + 1) as nat,
                    (#[trigger] levels[k])@,
                ),
            forall|k: int| 1 <= k < levels.len() ==> (#[trigger] levels[k]).len() >= 1,
        ensures
            forall|s: Seq<i32>| #[trigger] frequent(d, min, s) ==> s.len() <= levels.len(),
        decreases longest(d) + 1 - levels.len(),
    {
        let n = levels.len();
        let ghost top = levels[n - 1]@;
        if levels[n - 1].len() < 2 {
            proof {
                lemma_small_level_ends(d, min, n as nat, top);
            }
            break ;
        }
        let ck = apriori_gen(&levels[n - 1]);
        let ghost ckv = ck@;
        proof {
            lemma_candidates(d, min, (n + 1) as nat, top, ckv);
        }
        let lk = gen_lk(ck, min_support_count);
        proof {
            lemma_frequent_level(d, min, (n + 1) as nat, ckv, lk@);
        }
        if lk.len() == 0 {
            proof {
                lemma_empty_level_ends(d, min, (n + 1) as nat, lk@);
            }
            break ;
        }
        proof {
            lemma_level_bound(d, min, (n + 1) as nat, lk@);
        }
        levels.push(lk);
    }
    levels
}

/// Mines the frequent itemsets level by level. The result lists every
/// non-empty canonical itemset that at least `min_support_count` (and at
/// least one) transactions hold, each once, with the exact number of
/// transactions that hold it. A threshold of zero gives an empty result.
pub fn apriori(dataset: &Vec<Vec<i32>>, min_support_count: usize) -> (result: Vec<
    (Vec<i32>, usize),
>)
    ensures
        table_distinct(result@),
        table_map(result@) == mined(rows(dataset@), min_support_count as nat),
        forall|i: int|
            0 <= i < result.len() ==> {
                &&& is_itemset((#[trigger] result[i]).0@)
                &&& result[i].1 == support(rows(dataset@), result[i].0@)
                &&& result[i].1 >= min_support_count
            },
        forall|s: Seq<i32>|
            s.len() >= 1 && is_itemset(s) && min_support_count >= 1 && support(rows(dataset@), s)
                >= min_support_count ==> table_has(result@, s) && table_map(result@)[s] == support(
                rows(dataset@),
                s,
            ),
        dataset.len() == 0 || min_support_count > dataset.len() ==> result.len() == 0,
{
    let ghost d = rows(dataset@);
    let ghost min = min_support_count as nat;
    let levels = apriori_orig(dataset, min_support_count);
    let mut result: Vec<(Vec<i32>, usize)> = Vec::new();
    let mut k: usize = 0;
    proof {
        assert(d.len() == dataset.len());
    }
    while k < levels.len()
        invariant
            k <= levels.len(),
            d == rows(dataset@),
            d.len() <= usize::MAX,
            min == min_support_count as nat,
            is_level_list(d, min, levels@),
            min == 0 ==> levels.len() == 0,
            table_distinct(result@),
            forall|a: int|
                0 <= a < result.len() ==> {
                    &&& frequent(d, min, (#[trigger] result[a]).0@)
                    &&& result[a].1 == support(d, result[a].0@)
                    &&& result[a].0@.len() <= k
                },
            forall|s: Seq<i32>|
                #[trigger] frequent(d, min, s) && s.len() <= k ==> table_has(result@, s),
        decreases levels.len() - k,
    {
        let level = &levels[k];
        let mut r: usize = 0;
        while r < level.len()
            invariant
                k < levels.len(),
                r <= level.len(),
                level == levels[k as int],
                d == rows(dataset@),
                d.len() <= usize::MAX,
                min == min_support_count as nat,
                is_level_list(d, min, levels@),
                min >= 1,
                table_distinct(result@),
                forall|a: int|
                    0 <= a < result.len() ==> {
                        &&& frequent(d, min, (#[trigger] result[a]).0@)
                        &&& result[a].1 == support(d, result[a].0@)
                        &&& (result[a].0@.len() <= k || exists|r0: int|
                            0 <= r0 < r && (#[trigger] level[r0]).0@ == result[a].0@)
                    },
                forall|s: Seq<i32>|
                    #[trigger] frequent(d, min, s) && s.len() <= k ==> table_has(result@, s),
                forall|r0: int| 0 <= r0 < r ==> table_has(result@, (#[trigger] level[r0]).0@),
            decreases level.len() - r,
        {
            let ghost before = result@;
            let items = copy_items(&level[r].0);
            let count = level[r].1.len();
            proof {
                assert(is_frequent_level(d, min, (k + 1) as nat, level@));
                lemma_tid_list_len(d, level[r as int].0@, level[r as int].1@);
                assert(!table_has(before, items@)) by {
                    if table_has(before, items@) {
                        let a = choose|a: int| 0 <= a < before.len() && (#[trigger] before[a]).0@
                            == items@;
                        if before[a].0@.len() > k {
                            let r0 = choose|r0: int|
                                0 <= r0 < r && (#[trigger] level[r0]).0@ == before[a].0@;
                            assert(level[r0].0@ != level[r as int].0@);
                        }
                    }
                }
                lemma_table_push(before, (items, count));
            }
            result.push((items, count));
            proof {
                let row = result[before.len() as int];
                assert forall|a: int| 0 <= a < result.len() implies {
                    &&& frequent(d, min, (#[trigger] result[a]).0@)
                    &&& result[a].1 == support(d, result[a].0@)
                    &&& (result[a].0@.len() <= k || exists|r0: int|
                        0 <= r0 < r + 1 && (#[trigger] level[r0]).0@ == result[a].0@)
                } by {
                    if a < before.len() {
                        assert(result[a] == before[a]);
                        if before[a].0@.len() > k {
                            let r0 = choose|r0: int|
                                0 <= r0 < r && (#[trigger] level[r0]).0@ == before[a].0@;
                            assert(level[r0].0@ == result[a].0@);
                        }
                    } else {
                        assert(level[r as int].0@ == result[a].0@);
                    }
                }
                assert forall|s: Seq<i32>| table_has(before, s) implies table_has(result@, s) by {
                    let a = choose|a: int| 0 <= a < before.len() && (#[trigger] before[a]).0@ == s;
                    assert(result[a].0@ == s);
                }
                assert(table_has(result@, level[r as int].0@)) by {
                    assert(result[before.len() as int].0@ == level[r as int].0@);
                }
            }
            r += 1;
        }
        proof {
            assert forall|s: Seq<i32>| #[trigger] frequent(d, min, s) && s.len() <= k + 1 implies table_has(
                result@,
                s,
            ) by {
                if s.len() == k + 1 {
                    assert(is_frequent_level(d, min, (k + 1) as nat, level@));
                    assert(level_has(level@, s));
                    let r0 = choose|r0: int| 0 <= r0 < level.len() && (#[trigger] level[r0]).0@ == s;
                    assert(table_has(result@, level[r0].0@));
                }
            }
            assert forall|a: int| 0 <= a < result.len() implies (#[trigger] result[a]).0@.len() <= k
                + 1 by {
                if result[a].0@.len() > k {
                    let r0 = choose|r0: int|
                        0 <= r0 < level.len() && (#[trigger] level[r0]).0@ == result[a].0@;
                }
            }
        }
        k += 1;
    }
    proof {
        assert forall|s: Seq<i32>| table_has(result@, s) <==> frequent(d, min, s) by {
            if table_has(result@, s) {
                let a = choose|a: int| 0 <= a < result.len() && (#[trigger] result[a]).0@ == s;
            }
        }
        assert forall|s: Seq<i32>| table_has(result@, s) implies #[trigger] table_map(result@)[s]
            == support(d, s) by {
            let a = choose|a: int| 0 <= a < result.len() && (#[trigger] result[a]).0@ == s;
            lemma_table_row(result@, a);
        }
        assert(table_map(result@) =~= mined(d, min));
        if dataset.len() == 0 || min_support_count > dataset.len() {
            crate::laws::law_empty_input(d, min);
            if result.len() > 0 {
                lemma_table_row(result@, 0);
            }
        }
        assert forall|i: int| 0 <= i < result.len() implies (#[trigger] result[i]).1
            >= min_support_count by {}
    }
    result
}

} // verus!
