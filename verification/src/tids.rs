//! Transaction-id lists: for an itemset, the indices of the transactions
//! that hold it, in ascending order.

use vstd::prelude::*;
use crate::itemset::{holds_all, support, contains_item, rows};

verus! {

/// Strictly ascending.
pub open spec fn increasing(tids: Seq<usize>) -> bool {
    forall|i: int, j: int| 0 <= i < j < tids.len() ==> tids[i] < tids[j]
}

/// `tids` lists, in ascending order, exactly the transactions of `d` that
/// hold every item of `s`.
pub open spec fn is_tid_list(d: Seq<Seq<i32>>, s: Seq<i32>, tids: Seq<usize>) -> bool {
    &&& increasing(tids)
    &&& forall|x: usize| #[trigger] tids.contains(x) <==> (x < d.len() && holds_all(d[x as int], s))
}

/// `r` lists, in ascending order, exactly the members that `a` and `b` have in common.
pub open spec fn is_intersection(r: Seq<usize>, a: Seq<usize>, b: Seq<usize>) -> bool {
    &&& increasing(r)
    &&& forall|x: usize| #[trigger] r.contains(x) <==> (a.contains(x) && b.contains(x))
}

/// The length of a transaction-id list is the support of its itemset.
pub proof fn lemma_tid_list_len(d: Seq<Seq<i32>>, s: Seq<i32>, tids: Seq<usize>)
    requires
        is_tid_list(d, s, tids),
        d.len() <= usize::MAX,
    ensures
        tids.len() == support(d, s),
    decreases d.len(),
{
    if d.len() == 0 {
        if tids.len() > 0 {
            assert(tids.contains(tids[0]));
        }
    } else {
        let n1 = (d.len() - 1) as usize;
        let e = d.drop_last();
        if holds_all(d[n1 as int], s) {
            assert(tids.contains(n1));
            let j = choose|j: int| 0 <= j < tids.len() && tids[j] == n1;
            let last = tids.len() - 1;
            if j < last {
                assert(tids[j] < tids[last]);
                assert(tids.contains(tids[last]));
            }
            assert(j == last);
            let rest = tids.drop_last();
            assert(is_tid_list(e, s, rest)) by {
                assert forall|a: int, b: int| 0 <= a < b < rest.len() implies rest[a] < rest[b] by {
                    assert(rest[a] == tids[a]);
                    assert(rest[b] == tids[b]);
                }
                assert forall|x: usize| #[trigger]
                    rest.contains(x) <==> (x < e.len() && holds_all(e[x as int], s)) by {
                    if rest.contains(x) {
                        let a = choose|a: int| 0 <= a < rest.len() && rest[a] == x;
                        assert(tids[a] == x);
                        assert(tids[a] < tids[last]);
                        assert(tids.contains(x));
                        assert(e[x as int] == d[x as int]);
                    }
                    if x < e.len() && holds_all(e[x as int], s) {
                        assert(e[x as int] == d[x as int]);
                        assert(tids.contains(x));
                        let a = choose|a: int| 0 <= a < tids.len() && tids[a] == x;
                        assert(a != last);
                        assert(rest[a] == x);
                    }
                }
            }
            lemma_tid_list_len(e, s, rest);
        } else {
            assert forall|x: usize| #[trigger]
                tids.contains(x) <==> (x < e.len() && holds_all(e[x as int], s)) by {
                if tids.contains(x) {
                    assert(x != n1);
                    assert(e[x as int] == d[x as int]);
                }
                if x < e.len() && holds_all(e[x as int], s) {
                    assert(e[x as int] == d[x as int]);
                }
            }
            lemma_tid_list_len(e, s, tids);
        }
    }
}

/// The transactions that hold both of two itemsets are those that hold
/// every item of `c`, when `c` is made of the items of the two.
pub proof fn lemma_tid_list_intersection(
    d: Seq<Seq<i32>>,
    a: Seq<i32>,
    b: Seq<i32>,
    c: Seq<i32>,
    ta: Seq<usize>,
    tb: Seq<usize>,
    tc: Seq<usize>,
)
    requires
        is_tid_list(d, a, ta),
        is_tid_list(d, b, tb),
        is_intersection(tc, ta, tb),
        holds_all(c, a),
        holds_all(c, b),
        forall|i: int| 0 <= i < c.len() ==> a.contains(#[trigger] c[i]) || b.contains(c[i]),
    ensures
        is_tid_list(d, c, tc),
{
    assert forall|x: usize| #[trigger] tc.contains(x) <==> (x < d.len() && holds_all(d[x as int], c)) by {
        let t = d[x as int];
        if tc.contains(x) {
            assert(ta.contains(x) && tb.contains(x));
            assert forall|i: int| 0 <= i < c.len() implies t.contains(#[trigger] c[i]) by {
                if a.contains(c[i]) {
                    let m = choose|m: int| 0 <= m < a.len() && a[m] == c[i];
                    assert(t.contains(a[m]));
                } else {
                    let m = choose|m: int| 0 <= m < b.len() && b[m] == c[i];
                    assert(t.contains(b[m]));
                }
            }
        }
        if x < d.len() && holds_all(t, c) {
            crate::itemset::lemma_holds_all_transitive(t, c, a);
            crate::itemset::lemma_holds_all_transitive(t, c, b);
            assert(ta.contains(x) && tb.contains(x));
        }
    }
}

/// The transactions of the dataset that hold `item`, in ascending order.
pub fn tids_of_item(dataset: &Vec<Vec<i32>>, item: i32) -> (tids: Vec<usize>)
    ensures
        is_tid_list(rows(dataset@), seq![item], tids@),
{
    let ghost d = rows(dataset@);
    let mut tids: Vec<usize> = Vec::new();
    let mut tid: usize = 0;
    while tid < dataset.len()
        invariant
            tid <= dataset.len(),
            d == rows(dataset@),
            increasing(tids@),
            forall|i: int| 0 <= i < tids.len() ==> (#[trigger] tids[i]) < tid,
            forall|x: usize| #[trigger] tids@.contains(x) <==> (x < tid && d[x as int].contains(item)),
        decreases dataset.len() - tid,
    {
        let ghost before = tids@;
        if contains_item(&dataset[tid], item) {
            tids.push(tid);
            proof {
                assert forall|x: usize| #[trigger]
                    tids@.contains(x) <==> (x < tid + 1 && d[x as int].contains(item)) by {
                    if tids@.contains(x) {
                        let i = choose|i: int| 0 <= i < tids.len() && tids[i] == x;
                        if i < before.len() {
                            assert(before[i] == x);
                            assert(before.contains(x));
                        }
                    }
                    if x < tid + 1 && d[x as int].contains(item) {
                        if x < tid {
                            assert(before.contains(x));
                            let i = choose|i: int| 0 <= i < before.len() && before[i] == x;
                            assert(tids[i] == x);
                        } else {
                            assert(tids[before.len() as int] == x);
                        }
                    }
                }
            }
        }
        tid += 1;
    }
    proof {
        assert forall|x: usize| #[trigger]
            tids@.contains(x) <==> (x < d.len() && holds_all(d[x as int], seq![item])) by {
            if x < d.len() {
                let t = d[x as int];
                if t.contains(item) {
                    assert forall|i: int| 0 <= i < seq![item].len() implies t.contains(
                        #[trigger] seq![item][i],
                    ) by {}
                }
                if holds_all(t, seq![item]) {
                    assert(t.contains(seq![item][0]));
                }
            }
        }
    }
    tids
}

/// The members that two ascending lists have in common, by one pass over both.
pub fn intersect_tids(a: &Vec<usize>, b: &Vec<usize>) -> (r: Vec<usize>)
    requires
        increasing(a@),
        increasing(b@),
    ensures
        is_intersection(r@, a@, b@),
{
    let mut r: Vec<usize> = Vec::new();
    let mut i: usize = 0;
    let mut j: usize = 0;
    while i < a.len() && j < b.len()
        invariant
            i <= a.len(),
            j <= b.len(),
            increasing(a@),
            increasing(b@),
            increasing(r@),
            forall|m: int|
                0 <= m < r.len() ==> {
                    &&& a@.contains(#[trigger] r[m])
                    &&& b@.contains(r[m])
                    &&& (i < a.len() ==> r[m] < a[i as int])
                    &&& (j < b.len() ==> r[m] < b[j as int])
                },
            forall|ia: int, jb: int|
                #![trigger a[ia], b[jb]]
                0 <= ia < i && 0 <= jb < b.len() && a[ia] == b[jb] ==> r@.contains(a[ia]),
            forall|ia: int, jb: int|
                #![trigger a[ia], b[jb]]
                0 <= ia < a.len() && 0 <= jb < j && a[ia] == b[jb] ==> r@.contains(b[jb]),
        decreases a.len() - i + b.len() - j,
    {
        let x = a[i];
        let y = b[j];
        let ghost before = r@;
        if x < y {
            proof {
                assert forall|jb: int| 0 <= jb < b.len() implies b[jb] != x by {
                    if jb < j {
                        if b[jb] == x {
                            assert(a[i as int] == b[jb]);
                            assert(before.contains(b[jb]));
                            let m = choose|m: int| 0 <= m < before.len() && before[m] == b[jb];
                            assert(before[m] < a[i as int]);
                        }
                    } else if jb > j {
                        assert(b[j as int] < b[jb]);
                    }
                }
                if i + 1 < a.len() {
                    assert(a[i as int] < a[i + 1]);
                }
            }
            i += 1;
        } else if y < x {
            proof {
                assert forall|ia: int| 0 <= ia < a.len() implies a[ia] != y by {
                    if ia < i {
                        if a[ia] == y {
                            assert(a[ia] == b[j as int]);
                            assert(before.contains(a[ia]));
                            let m = choose|m: int| 0 <= m < before.len() && before[m] == a[ia];
                            assert(before[m] < b[j as int]);
                        }
                    } else if ia > i {
                        assert(a[i as int] < a[ia]);
                    }
                }
                if j + 1 < b.len() {
                    assert(b[j as int] < b[j + 1]);
                }
            }
            j += 1;
        } else {
            r.push(x);
            proof {
                assert(a@.contains(a[i as int]));
                assert(b@.contains(b[j as int]));
                if i + 1 < a.len() {
                    assert(a[i as int] < a[i + 1]);
                }
                if j + 1 < b.len() {
                    assert(b[j as int] < b[j + 1]);
                }
                assert forall|m: int| 0 <= m < r.len() implies {
                    &&& a@.contains(#[trigger] r[m])
                    &&& b@.contains(r[m])
                    &&& (i + 1 < a.len() ==> r[m] < a[i + 1])
                    &&& (j + 1 < b.len() ==> r[m] < b[j + 1])
                } by {
                    if m < before.len() {
                        assert(r[m] == before[m]);
                    }
                }
                assert forall|m: int, n: int| 0 <= m < n < r.len() implies r[m] < r[n] by {
                    if n < before.len() {
                        assert(before[m] < before[n]);
                    } else {
                        assert(r[m] == before[m]);
                    }
                }
                assert forall|ia: int, jb: int|
                    #![trigger a[ia], b[jb]]
                    0 <= ia < i + 1 && 0 <= jb < b.len() && a[ia] == b[jb] implies r@.contains(
                    a[ia],
                ) by {
                    if ia < i {
                        assert(before.contains(a[ia]));
                        let m = choose|m: int| 0 <= m < before.len() && before[m] == a[ia];
                        assert(r[m] == a[ia]);
                    } else {
                        assert(r[before.len() as int] == a[ia]);
                    }
                }
                assert forall|ia: int, jb: int|
                    #![trigger a[ia], b[jb]]
                    0 <= ia < a.len() && 0 <= jb < j + 1 && a[ia] == b[jb] implies r@.contains(
                    b[jb],
                ) by {
                    if jb < j {
                        assert(before.contains(b[jb]));
                        let m = choose|m: int| 0 <= m < before.len() && before[m] == b[jb];
                        assert(r[m] == b[jb]);
                    } else {
                        assert(r[before.len() as int] == b[jb]);
                    }
                }
            }
            i += 1;
            j += 1;
        }
    }
    proof {
        assert forall|x: usize| #[trigger] r@.contains(x) <==> (a@.contains(x) && b@.contains(x)) by {
            if r@.contains(x) {
                let m = choose|m: int| 0 <= m < r.len() && r[m] == x;
                assert(a@.contains(r[m]));
            }
            if a@.contains(x) && b@.contains(x) {
                let ia = choose|ia: int| 0 <= ia < a.len() && a[ia] == x;
                let jb = choose|jb: int| 0 <= jb < b.len() && b[jb] == x;
                if i >= a.len() {
                    assert(r@.contains(a[ia]));
                } else {
                    assert(r@.contains(b[jb]));
                }
            }
        }
    }
    r
}

/// A copy of a transaction-id list.
pub fn copy_tids(a: &Vec<usize>) -> (r: Vec<usize>)
    ensures
        r@ == a@,
{
    let mut r: Vec<usize> = Vec::new();
    let mut i: usize = 0;
    while i < a.len()
        invariant
            i <= a.len(),
            r@ == a@.take(i as int),
        decreases a.len() - i,
    {
        r.push(a[i]);
        assert(a@.take(i + 1) =~= a@.take(i as int).push(a[i as int]));
        i += 1;
    }
    assert(a@.take(a.len() as int) =~= a@);
    r
}

} // verus!
