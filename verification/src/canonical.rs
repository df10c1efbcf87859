//! Keeping itemsets in canonical (strictly ascending) order while one item
//! is added or taken away.

use vstd::prelude::*;
use crate::itemset::is_itemset;

verus! {

/// For a canonical `s`: how many of its items are smaller than `x`, which is
/// also the position at which `x` stands or would have to be inserted.
pub open spec fn below(s: Seq<i32>, x: i32) -> int
    decreases s.len(),
{
    if s.len() == 0 {
        0
    } else if s.last() < x {
        s.len() as int
    } else {
        below(s.drop_last(), x)
    }
}

/// The canonical itemset `s` with the new item `x` put in its place.
pub open spec fn with_item(s: Seq<i32>, x: i32) -> Seq<i32> {
    s.insert(below(s, x), x)
}

/// The canonical itemset `s` with its item `x` taken out.
pub open spec fn without_item(s: Seq<i32>, x: i32) -> Seq<i32> {
    s.remove(below(s, x))
}

/// Every prefix of a canonical itemset is canonical.
pub proof fn lemma_itemset_prefix(s: Seq<i32>, n: int)
    requires
        is_itemset(s),
        0 <= n <= s.len(),
    ensures
        is_itemset(s.take(n)),
{
    let e = s.take(n);
    assert forall|i: int, j: int| 0 <= i < j < e.len() implies e[i] < e[j] by {
        assert(e[i] == s[i]);
        assert(e[j] == s[j]);
    }
}

/// The position `below(s, x)` splits a canonical `s` into the items smaller
/// than `x` and the rest.
pub proof fn lemma_below(s: Seq<i32>, x: i32)
    requires
        is_itemset(s),
    ensures
        0 <= below(s, x) <= s.len(),
        forall|i: int| 0 <= i < below(s, x) ==> s[i] < x,
        forall|i: int| below(s, x) <= i < s.len() ==> s[i] >= x,
    decreases s.len(),
{
    if s.len() > 0 {
        if s.last() < x {
            assert forall|i: int| 0 <= i < s.len() implies s[i] < x by {
                if i < s.len() - 1 {
                    assert(s[i] < s[s.len() - 1]);
                }
            }
        } else {
            let e = s.drop_last();
            assert(e =~= s.take(s.len() - 1));
            lemma_itemset_prefix(s, s.len() - 1);
            lemma_below(e, x);
            assert forall|i: int| 0 <= i < below(s, x) implies s[i] < x by {
                assert(e[i] == s[i]);
            }
            assert forall|i: int| below(s, x) <= i < s.len() implies s[i] >= x by {
                if i < e.len() {
                    assert(e[i] == s[i]);
                }
            }
        }
    }
}

/// The only position that splits a canonical `s` at `x` is `below(s, x)`.
pub proof fn lemma_below_unique(s: Seq<i32>, x: i32, p: int)
    requires
        is_itemset(s),
        0 <= p <= s.len(),
        forall|i: int| 0 <= i < p ==> s[i] < x,
        forall|i: int| p <= i < s.len() ==> s[i] >= x,
    ensures
        below(s, x) == p,
{
    lemma_below(s, x);
    let b = below(s, x);
    if b < p {
        assert(s[b] < x);
        assert(s[b] >= x);
    }
    if p < b {
        assert(s[p] < x);
        assert(s[p] >= x);
    }
}

/// Putting a new item into a canonical itemset gives a canonical itemset
/// with exactly one more member, and taking it out again gives the old one.
pub proof fn lemma_with_item(s: Seq<i32>, x: i32)
    requires
        is_itemset(s),
        !s.contains(x),
    ensures
        is_itemset(with_item(s, x)),
        with_item(s, x).len() == s.len() + 1,
        forall|y: i32| with_item(s, x).contains(y) <==> (y == x || s.contains(y)),
        without_item(with_item(s, x), x) == s,
{
    lemma_below(s, x);
    let p = below(s, x);
    let k = s.insert(p, x);
    assert(k.len() == s.len() + 1);
    assert(forall|i: int| 0 <= i < p ==> k[i] == s[i]);
    assert(k[p] == x);
    assert(forall|i: int| p < i < k.len() ==> k[i] == s[i - 1]);
    assert forall|i: int| p <= i < s.len() implies s[i] > x by {
        assert(s.contains(s[i]));
    }
    assert forall|i: int, j: int| 0 <= i < j < k.len() implies k[i] < k[j] by {
        if j < p {
            assert(s[i] < s[j]);
        } else if j == p {
        } else if i < p {
            assert(s[i] < x);
            assert(s[j - 1] > x);
        } else if i == p {
            assert(s[j - 1] > x);
        } else {
            assert(s[i - 1] < s[j - 1]);
        }
    }
    assert forall|y: i32| k.contains(y) <==> (y == x || s.contains(y)) by {
        if k.contains(y) {
            let i = choose|i: int| 0 <= i < k.len() && k[i] == y;
            if i < p {
                assert(s[i] == y);
            } else if i > p {
                assert(s[i - 1] == y);
            }
        }
        if y == x {
            assert(k[p] == y);
        }
        if s.contains(y) {
            let i = choose|i: int| 0 <= i < s.len() && s[i] == y;
            if i < p {
                assert(k[i] == y);
            } else {
                assert(k[i + 1] == y);
            }
        }
    }
    lemma_below_unique(k, x, p);
    assert(k.remove(p) =~= s);
}

/// Taking an item out of a canonical itemset gives a canonical itemset
/// without it, and putting it back gives the old one.
pub proof fn lemma_without_item(k: Seq<i32>, x: i32)
    requires
        is_itemset(k),
        k.contains(x),
    ensures
        0 <= below(k, x) < k.len(),
        k[below(k, x)] == x,
        is_itemset(without_item(k, x)),
        without_item(k, x).len() == k.len() - 1,
        !without_item(k, x).contains(x),
        forall|y: i32| without_item(k, x).contains(y) <==> (y != x && k.contains(y)),
        with_item(without_item(k, x), x) == k,
{
    lemma_below(k, x);
    let p = below(k, x);
    let idx = choose|i: int| 0 <= i < k.len() && k[i] == x;
    if idx < p {
        assert(k[idx] < x);
    }
    if idx > p {
        assert(k[p] < k[idx]);
    }
    assert(idx == p);
    let s = k.remove(p);
    assert(forall|i: int| 0 <= i < p ==> s[i] == k[i]);
    assert(forall|i: int| p <= i < s.len() ==> s[i] == k[i + 1]);
    assert forall|i: int, j: int| 0 <= i < j < s.len() implies s[i] < s[j] by {
        if j < p {
            assert(k[i] < k[j]);
        } else if i < p {
            assert(k[i] < k[j + 1]);
        } else {
            assert(k[i + 1] < k[j + 1]);
        }
    }
    assert forall|i: int| 0 <= i < s.len() implies s[i] != x by {
        if i < p {
            assert(k[i] < k[p]);
        } else {
            assert(k[p] < k[i + 1]);
        }
    }
    assert forall|y: i32| s.contains(y) <==> (y != x && k.contains(y)) by {
        if s.contains(y) {
            let i = choose|i: int| 0 <= i < s.len() && s[i] == y;
            if i < p {
                assert(k[i] == y);
            } else {
                assert(k[i + 1] == y);
            }
        }
        if y != x && k.contains(y) {
            let i = choose|i: int| 0 <= i < k.len() && k[i] == y;
            if i < p {
                assert(s[i] == y);
            } else {
                assert(s[i - 1] == y);
            }
        }
    }
    assert forall|i: int| 0 <= i < p implies s[i] < x by {
        assert(k[i] < k[p]);
    }
    assert forall|i: int| p <= i < s.len() implies s[i] >= x by {
        assert(k[p] < k[i + 1]);
    }
    lemma_below_unique(s, x, p);
    assert(s.insert(p, x) =~= k);
}

/// Adds `x` to the canonical itemset `s` in place, keeping it canonical; an
/// item that is already a member is not added again.
pub fn insert_item(s: &mut Vec<i32>, x: i32)
    requires
        is_itemset(old(s)@),
    ensures
        final(s)@ == if old(s)@.contains(x) { old(s)@ } else { with_item(old(s)@, x) },
{
    let mut p: usize = 0;
    while p < s.len() && s[p] < x
        invariant
            s@ == old(s)@,
            p <= s.len(),
            forall|i: int| 0 <= i < p ==> s[i] < x,
        decreases s.len() - p,
    {
        p += 1;
    }
    if p < s.len() && s[p] == x {
        assert(s@.contains(s[p as int]));
        return ;
    }
    proof {
        assert forall|i: int| p <= i < s@.len() implies s@[i] >= x by {
            if i > p {
                assert(s@[p as int] < s@[i]);
            }
        }
        lemma_below_unique(s@, x, p as int);
        assert(!s@.contains(x)) by {
            if s@.contains(x) {
                let i = choose|i: int| 0 <= i < s@.len() && s@[i] == x;
                if i < p {
                    assert(s@[i] < x);
                } else if i > p {
                    assert(s@[p as int] < s@[i]);
                }
            }
        }
    }
    s.insert(p, x);
}

} // verus!
