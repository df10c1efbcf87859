//! The mathematical model shared by both mining engines: transactions,
//! canonical itemsets, support counts and the map of frequent itemsets.

use vstd::prelude::*;
use vstd::seq_lib::*;

verus! {

/// The transactions of a dataset, each as a sequence of item identifiers.
pub open spec fn rows(v: Seq<Vec<i32>>) -> Seq<Seq<i32>> {
    Seq::new(v.len(), |i: int| v[i]@)
}

/// An itemset in canonical form: strictly ascending, hence free of duplicates.
pub open spec fn is_itemset(s: Seq<i32>) -> bool {
    forall|i: int, j: int| 0 <= i < j < s.len() ==> s[i] < s[j]
}

/// Every item of `s` occurs in the transaction `t`.
pub open spec fn holds_all(t: Seq<i32>, s: Seq<i32>) -> bool {
    forall|i: int| 0 <= i < s.len() ==> t.contains(#[trigger] s[i])
}

/// The number of positions of `d` whose element satisfies `p`.
pub open spec fn count_where<T>(d: Seq<T>, p: spec_fn(T) -> bool) -> nat
    decreases d.len(),
{
    if d.len() == 0 {
        0
    } else {
        count_where(d.drop_last(), p) + if p(d.last()) {
            1nat
        } else {
            0nat
        }
    }
}

/// The predicate "this transaction holds every item of `s`".
pub open spec fn covers(s: Seq<i32>) -> spec_fn(Seq<i32>) -> bool {
    |t: Seq<i32>| holds_all(t, s)
}

/// The support of `s`: the number of transactions that hold every item of `s`.
pub open spec fn support(d: Seq<Seq<i32>>, s: Seq<i32>) -> nat {
    count_where(d, covers(s))
}

/// `s` is a non-empty canonical itemset whose support reaches a positive threshold.
pub open spec fn frequent(d: Seq<Seq<i32>>, min: nat, s: Seq<i32>) -> bool {
    &&& min >= 1
    &&& s.len() >= 1
    &&& is_itemset(s)
    &&& support(d, s) >= min
}

/// The result of mining: every frequent itemset, mapped to its support.
/// With a threshold of zero the map is empty.
pub open spec fn mined(d: Seq<Seq<i32>>, min: nat) -> Map<Seq<i32>, nat> {
    Map::new(|s: Seq<i32>| frequent(d, min, s), |s: Seq<i32>| support(d, s))
}

/// A count is at most the length of the sequence.
pub proof fn lemma_count_le_len<T>(d: Seq<T>, p: spec_fn(T) -> bool)
    ensures
        count_where(d, p) <= d.len(),
    decreases d.len(),
{
    if d.len() > 0 {
        lemma_count_le_len(d.drop_last(), p);
    }
}

/// Appending an element adds one to the count if the element satisfies the
/// predicate.
pub proof fn lemma_count_push<T>(d: Seq<T>, x: T, p: spec_fn(T) -> bool)
    ensures
        count_where(d.push(x), p) == count_where(d, p) + if p(x) { 1nat } else { 0nat },
{
    assert(d.push(x).drop_last() =~= d);
}

/// The count over the first `i + 1` elements is the count over the first `i`,
/// plus one if the next satisfies the predicate.
pub proof fn lemma_count_take_succ<T>(d: Seq<T>, i: int, p: spec_fn(T) -> bool)
    requires
        0 <= i < d.len(),
    ensures
        count_where(d.take(i + 1), p) == count_where(d.take(i), p) + if p(d[i]) { 1nat } else { 0nat },
{
    assert(d.take(i + 1).drop_last() =~= d.take(i));
}

/// Counting is pointwise: two sequences whose predicates agree position by
/// position have the same count.
pub proof fn lemma_count_pointwise<A, B>(
    d1: Seq<A>,
    p1: spec_fn(A) -> bool,
    d2: Seq<B>,
    p2: spec_fn(B) -> bool,
)
    requires
        d1.len() == d2.len(),
        forall|i: int| 0 <= i < d1.len() ==> p1(#[trigger] d1[i]) == p2(d2[i]),
    ensures
        count_where(d1, p1) == count_where(d2, p2),
    decreases d1.len(),
{
    if d1.len() > 0 {
        let e1 = d1.drop_last();
        let e2 = d2.drop_last();
        assert forall|i: int| 0 <= i < e1.len() implies p1(#[trigger] e1[i]) == p2(e2[i]) by {
            assert(e1[i] == d1[i]);
            assert(e2[i] == d2[i]);
        }
        lemma_count_pointwise(e1, p1, e2, p2);
        assert(p1(d1[d1.len() - 1]) == p2(d2[d1.len() - 1]));
    }
}

/// A predicate that implies another on every element has the smaller count.
pub proof fn lemma_count_monotone<T>(d: Seq<T>, p: spec_fn(T) -> bool, q: spec_fn(T) -> bool)
    requires
        forall|i: int| 0 <= i < d.len() && p(#[trigger] d[i]) ==> q(d[i]),
    ensures
        count_where(d, p) <= count_where(d, q),
    decreases d.len(),
{
    if d.len() > 0 {
        let e = d.drop_last();
        assert forall|i: int| 0 <= i < e.len() && p(#[trigger] e[i]) implies q(e[i]) by {
            assert(e[i] == d[i]);
        }
        lemma_count_monotone(e, p, q);
        assert(p(d[d.len() - 1]) ==> q(d[d.len() - 1]));
    }
}

/// The count is strictly smaller if, besides, some element satisfies the
/// second predicate only.
pub proof fn lemma_count_strict<T>(d: Seq<T>, p: spec_fn(T) -> bool, q: spec_fn(T) -> bool, w: int)
    requires
        forall|i: int| 0 <= i < d.len() && p(#[trigger] d[i]) ==> q(d[i]),
        0 <= w < d.len(),
        q(d[w]),
        !p(d[w]),
    ensures
        count_where(d, p) < count_where(d, q),
    decreases d.len(),
{
    let e = d.drop_last();
    assert forall|i: int| 0 <= i < e.len() && p(#[trigger] e[i]) implies q(e[i]) by {
        assert(e[i] == d[i]);
    }
    assert(p(d[d.len() - 1]) ==> q(d[d.len() - 1]));
    if w == d.len() - 1 {
        lemma_count_monotone(e, p, q);
    } else {
        assert(e[w] == d[w]);
        lemma_count_strict(e, p, q, w);
    }
}

/// A count is positive exactly when some element satisfies the predicate.
pub proof fn lemma_count_positive<T>(d: Seq<T>, p: spec_fn(T) -> bool)
    ensures
        count_where(d, p) > 0 <==> exists|i: int| 0 <= i < d.len() && p(#[trigger] d[i]),
    decreases d.len(),
{
    if d.len() > 0 {
        let e = d.drop_last();
        lemma_count_positive(e, p);
        if count_where(d, p) > 0 {
            if p(d.last()) {
                assert(p(d[d.len() - 1]));
            } else {
                let i = choose|i: int| 0 <= i < e.len() && p(#[trigger] e[i]);
                assert(e[i] == d[i]);
            }
        }
        if exists|i: int| 0 <= i < d.len() && p(#[trigger] d[i]) {
            let i = choose|i: int| 0 <= i < d.len() && p(#[trigger] d[i]);
            if i < d.len() - 1 {
                assert(e[i] == d[i]);
            }
        }
    }
}

/// Removing an element takes one off the count if the element satisfies the
/// predicate.
pub proof fn lemma_count_remove<T>(d: Seq<T>, j: int, p: spec_fn(T) -> bool)
    requires
        0 <= j < d.len(),
    ensures
        count_where(d, p) == count_where(d.remove(j), p) + if p(d[j]) { 1nat } else { 0nat },
    decreases d.len(),
{
    if j == d.len() - 1 {
        assert(d.remove(j) =~= d.drop_last());
    } else {
        lemma_count_remove(d.drop_last(), j, p);
        assert(d.remove(j).drop_last() =~= d.drop_last().remove(j));
        assert(d.remove(j).last() == d.last());
    }
}

/// Counting does not depend on the order of the sequence.
pub proof fn lemma_count_permutation<T>(d1: Seq<T>, d2: Seq<T>, p: spec_fn(T) -> bool)
    requires
        d1.to_multiset() == d2.to_multiset(),
    ensures
        count_where(d1, p) == count_where(d2, p),
    decreases d1.len(),
{
    to_multiset_len(d1);
    to_multiset_len(d2);
    if d1.len() > 0 {
        let n = d1.len() - 1;
        let x = d1[n];
        to_multiset_contains(d1, x);
        to_multiset_contains(d2, x);
        assert(d1.contains(x));
        let j = choose|j: int| 0 <= j < d2.len() && d2[j] == x;
        to_multiset_remove(d1, n);
        to_multiset_remove(d2, j);
        assert(d1.remove(n) =~= d1.drop_last());
        lemma_count_permutation(d1.drop_last(), d2.remove(j), p);
        lemma_count_remove(d2, j, p);
    }
}

/// A sequence without duplicates whose items all stand in `t` is no longer than `t`.
pub proof fn lemma_distinct_fits(t: Seq<i32>, s: Seq<i32>)
    requires
        s.no_duplicates(),
        holds_all(t, s),
    ensures
        s.len() <= t.len(),
{
    s.unique_seq_to_set();
    t.lemma_cardinality_of_set();
    seq_to_set_is_finite(t);
    assert forall|x: i32| s.to_set().contains(x) implies t.to_set().contains(x) by {
        let i = choose|i: int| 0 <= i < s.len() && s[i] == x;
        assert(t.contains(s[i]));
    }
    vstd::set_lib::lemma_len_subset(s.to_set(), t.to_set());
}

/// A canonical itemset held by a transaction is no longer than the transaction.
pub proof fn lemma_itemset_fits(t: Seq<i32>, s: Seq<i32>)
    requires
        is_itemset(s),
        holds_all(t, s),
    ensures
        s.len() <= t.len(),
{
    assert(s.no_duplicates());
    lemma_distinct_fits(t, s);
}

/// Support is anti-monotone: an itemset made of items of `s` is held by
/// every transaction that holds `s`.
pub proof fn lemma_support_antimonotone(d: Seq<Seq<i32>>, part: Seq<i32>, s: Seq<i32>)
    requires
        holds_all(s, part),
    ensures
        support(d, s) <= support(d, part),
{
    assert forall|i: int| 0 <= i < d.len() && covers(s)(#[trigger] d[i]) implies covers(part)(d[i]) by {
        lemma_holds_all_transitive(d[i], s, part);
    }
    lemma_count_monotone(d, covers(s), covers(part));
}

/// A transaction that holds `s` holds every itemset made of items of `s`.
pub proof fn lemma_holds_all_transitive(t: Seq<i32>, s: Seq<i32>, part: Seq<i32>)
    requires
        holds_all(t, s),
        holds_all(s, part),
    ensures
        holds_all(t, part),
{
    assert forall|i: int| 0 <= i < part.len() implies t.contains(#[trigger] part[i]) by {
        assert(s.contains(part[i]));
        let j = choose|j: int| 0 <= j < s.len() && s[j] == part[i];
        assert(t.contains(s[j]));
    }
}

/// An itemset with positive support is held by some transaction.
pub proof fn lemma_support_witness(d: Seq<Seq<i32>>, s: Seq<i32>) -> (w: int)
    requires
        support(d, s) > 0,
    ensures
        0 <= w < d.len(),
        holds_all(d[w], s),
{
    lemma_count_positive(d, covers(s));
    let w = choose|i: int| 0 <= i < d.len() && covers(s)(#[trigger] d[i]);
    w
}

/// Linear search for an item in a transaction.
pub fn contains_item(t: &Vec<i32>, x: i32) -> (found: bool)
    ensures
        found == t@.contains(x),
{
    let mut i: usize = 0;
    while i < t.len()
        invariant
            i <= t.len(),
            forall|j: int| 0 <= j < i ==> t[j] != x,
        decreases t.len() - i,
    {
        if t[i] == x {
            return true;
        }
        i += 1;
    }
    false
}

/// Whether two item sequences are equal, element by element.
pub fn same_items(a: &Vec<i32>, b: &Vec<i32>) -> (eq: bool)
    ensures
        eq == (a@ == b@),
{
    if a.len() != b.len() {
        return false;
    }
    let mut i: usize = 0;
    while i < a.len()
        invariant
            i <= a.len(),
            a.len() == b.len(),
            forall|j: int| 0 <= j < i ==> a[j] == b[j],
        decreases a.len() - i,
    {
        if a[i] != b[i] {
            return false;
        }
        i += 1;
    }
    assert(a@ =~= b@);
    true
}

/// A copy of an item sequence.
pub fn copy_items(a: &Vec<i32>) -> (r: Vec<i32>)
    ensures
        r@ == a@,
{
    let mut r: Vec<i32> = Vec::new();
    let mut i: usize = 0;
    while i < a.len()
        invariant
            i <= a.len(),
            r@ == a@.take(i as int),
        decreases a.len() - i,
    {
        r.push(a[i]);
        assert(a@.take(i + 1) =~= a@.take(i as int).push(a[i as int]));
        i += 1;
    }
    assert(a@.take(a.len() as int) =~= a@);
    r
}

} // verus!
