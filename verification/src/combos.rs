//! The `k`-element combinations of a sequence, as listed by the `itertools`
//! crate, and what follows from their definition.

use vstd::prelude::*;
use itertools::Itertools;
use crate::itemset::{is_itemset, holds_all, rows};

verus! {

/// Every sequence of `cs` with `x` put in front.
pub open spec fn prepend_each(x: i32, cs: Seq<Seq<i32>>) -> Seq<Seq<i32>> {
    Seq::new(cs.len(), |i: int| seq![x] + cs[i])
}

/// The selections of `k` positions of `s`, each in the order of `s`, listed
/// in lexicographic order of the positions: first those that take the first
/// element, then those that leave it out.
pub open spec fn combos(s: Seq<i32>, k: nat) -> Seq<Seq<i32>>
    decreases s.len(),
{
    if k == 0 {
        seq![Seq::empty()]
    } else if s.len() == 0 {
        Seq::empty()
    } else {
        prepend_each(s[0], combos(s.drop_first(), (k - 1) as nat)) + combos(s.drop_first(), k)
    }
}

/// Calls `Itertools::combinations` on the items and collects what it yields.
/// Trusted: the outcome is the list `combos(items, k)`, that is every choice
/// of `k` positions exactly once, in lexicographic order of the positions,
/// and one empty combination for `k == 0`. The outside function sets up `k`
/// indices before it looks at the items, so `k` may not exceed their number.
#[verifier::external_body]
pub(crate) fn combinations(items: &Vec<i32>, k: usize) -> (r: Vec<Vec<i32>>)
    requires
        k <= items@.len(),
    ensures
        rows(r@) == combos(items@, k as nat),
{
    items.iter().cloned().combinations(k).collect()
}

/// There is no combination of more items than the sequence has.
pub proof fn lemma_combos_too_long(s: Seq<i32>, k: nat)
    requires
        k > s.len(),
    ensures
        combos(s, k).len() == 0,
    decreases s.len(),
{
    if s.len() > 0 {
        lemma_combos_too_long(s.drop_first(), (k - 1) as nat);
        lemma_combos_too_long(s.drop_first(), k);
    }
}

/// The only combination of all items is the sequence itself.
pub proof fn lemma_combos_full(s: Seq<i32>)
    ensures
        combos(s, s.len()) == seq![s],
    decreases s.len(),
{
    if s.len() == 0 {
        assert(s =~= Seq::empty());
    } else {
        let rest = s.drop_first();
        lemma_combos_full(rest);
        lemma_combos_too_long(rest, s.len());
        let first = prepend_each(s[0], combos(rest, (s.len() - 1) as nat));
        assert(first.len() == 1);
        assert(first[0] =~= s);
        assert(combos(s, s.len()) =~= seq![s]);
    }
}

/// `s` is `c` with one position removed.
pub open spec fn leaves_one_out(c: Seq<i32>, s: Seq<i32>) -> bool {
    exists|i: int| 0 <= i < c.len() && s == #[trigger] c.remove(i)
}

/// The combinations that leave out one element are the sequence with one
/// position removed, for each position.
pub proof fn lemma_combos_leave_one_out(c: Seq<i32>)
    requires
        c.len() >= 1,
    ensures
        forall|j: int|
            0 <= j < combos(c, (c.len() - 1) as nat).len() ==> leaves_one_out(
                c,
                #[trigger] combos(c, (c.len() - 1) as nat)[j],
            ),
        forall|i: int|
            0 <= i < c.len() ==> combos(c, (c.len() - 1) as nat).contains(#[trigger] c.remove(i)),
    decreases c.len(),
{
    let n = c.len();
    let all = combos(c, (n - 1) as nat);
    if n == 1 {
        assert(c.remove(0) =~= Seq::empty());
        assert(all[0] == c.remove(0));
    } else {
        let rest = c.drop_first();
        let inner = combos(rest, (n - 2) as nat);
        let first = prepend_each(c[0], inner);
        let second = combos(rest, (n - 1) as nat);
        lemma_combos_leave_one_out(rest);
        lemma_combos_full(rest);
        assert(all == first + second);
        assert(rest =~= c.remove(0));
        assert forall|j: int| 0 <= j < all.len() implies leaves_one_out(c, #[trigger] all[j]) by {
            if j < first.len() {
                assert(leaves_one_out(rest, inner[j]));
                let i = choose|i: int| 0 <= i < rest.len() && inner[j] == #[trigger] rest.remove(i);
                assert(all[j] == seq![c[0]] + inner[j]);
                assert(seq![c[0]] + rest.remove(i) =~= c.remove(i + 1));
            } else {
                assert(all[j] == second[j - first.len()]);
                assert(all[j] == c.remove(0));
            }
        }
        assert forall|i: int| 0 <= i < c.len() implies all.contains(#[trigger] c.remove(i)) by {
            if i == 0 {
                assert(all[first.len() as int] == second[0]);
            } else {
                assert(inner.contains(rest.remove(i - 1)));
                let j = choose|j: int| 0 <= j < inner.len() && inner[j] == rest.remove(i - 1);
                assert(all[j] == seq![c[0]] + inner[j]);
                assert(seq![c[0]] + rest.remove(i - 1) =~= c.remove(i));
            }
        }
    }
}

/// A canonical itemset without its first item is canonical, and all its items
/// are larger than the first.
pub proof fn lemma_itemset_tail(s: Seq<i32>)
    requires
        is_itemset(s),
        s.len() >= 1,
    ensures
        is_itemset(s.drop_first()),
        forall|i: int| 0 <= i < s.drop_first().len() ==> s[0] < #[trigger] s.drop_first()[i],
{
    let e = s.drop_first();
    assert forall|i: int, j: int| 0 <= i < j < e.len() implies e[i] < e[j] by {
        assert(e[i] == s[i + 1]);
        assert(e[j] == s[j + 1]);
    }
    assert forall|i: int| 0 <= i < e.len() implies s[0] < #[trigger] e[i] by {
        assert(e[i] == s[i + 1]);
    }
}

/// Every combination of a canonical itemset is a canonical itemset of the
/// asked length, made of items of that itemset.
pub proof fn lemma_combos_sound(items: Seq<i32>, k: nat)
    requires
        is_itemset(items),
    ensures
        forall|j: int|
            0 <= j < combos(items, k).len() ==> {
                &&& is_itemset(#[trigger] combos(items, k)[j])
                &&& combos(items, k)[j].len() == k
                &&& holds_all(items, combos(items, k)[j])
            },
    decreases items.len(),
{
    let all = combos(items, k);
    if k == 0 {
    } else if items.len() == 0 {
    } else {
        let rest = items.drop_first();
        let inner = combos(rest, (k - 1) as nat);
        let first = prepend_each(items[0], inner);
        let second = combos(rest, k);
        lemma_itemset_tail(items);
        lemma_combos_sound(rest, (k - 1) as nat);
        lemma_combos_sound(rest, k);
        assert forall|j: int| 0 <= j < all.len() implies {
            &&& is_itemset(#[trigger] all[j])
            &&& all[j].len() == k
            &&& holds_all(items, all[j])
        } by {
            let c = all[j];
            if j < first.len() {
                let c1 = inner[j];
                assert(c == seq![items[0]] + c1);
                assert(is_itemset(c1) && holds_all(rest, c1));
                assert forall|a: int| 0 <= a < c1.len() implies items[0] < c1[a] && items.contains(
                    #[trigger] c1[a],
                ) by {
                    assert(rest.contains(c1[a]));
                    let m = choose|m: int| 0 <= m < rest.len() && rest[m] == c1[a];
                    assert(rest[m] == items[m + 1]);
                }
                assert forall|a: int, b: int| 0 <= a < b < c.len() implies c[a] < c[b] by {
                    if a == 0 {
                        assert(c[b] == c1[b - 1]);
                    } else {
                        assert(c[a] == c1[a - 1]);
                        assert(c[b] == c1[b - 1]);
                    }
                }
                assert forall|a: int| 0 <= a < c.len() implies items.contains(#[trigger] c[a]) by {
                    if a == 0 {
                        assert(items[0] == c[0]);
                    } else {
                        assert(c[a] == c1[a - 1]);
                    }
                }
            } else {
                let c2 = second[j - first.len()];
                assert(c == c2);
                assert forall|a: int| 0 <= a < c.len() implies items.contains(#[trigger] c[a]) by {
                    assert(rest.contains(c2[a]));
                    let m = choose|m: int| 0 <= m < rest.len() && rest[m] == c2[a];
                    assert(rest[m] == items[m + 1]);
                }
            }
        }
    }
}

/// Every canonical itemset made of items of a canonical `items` is among
/// the combinations of its length.
pub proof fn lemma_combos_complete(items: Seq<i32>, s: Seq<i32>)
    requires
        is_itemset(items),
        is_itemset(s),
        holds_all(items, s),
    ensures
        combos(items, s.len()).contains(s),
    decreases items.len(),
{
    let k = s.len();
    let all = combos(items, k);
    if k == 0 {
        assert(s =~= Seq::empty());
        assert(all[0] == s);
    } else {
        assert(items.contains(s[0]));
        let m0 = choose|m: int| 0 <= m < items.len() && items[m] == s[0];
        let rest = items.drop_first();
        let inner = combos(rest, (k - 1) as nat);
        let first = prepend_each(items[0], inner);
        let second = combos(rest, k);
        lemma_itemset_tail(items);
        lemma_itemset_tail(s);
        if s[0] == items[0] {
            let t = s.drop_first();
            assert forall|a: int| 0 <= a < t.len() implies rest.contains(#[trigger] t[a]) by {
                assert(t[a] == s[a + 1]);
                assert(items.contains(s[a + 1]));
                let m = choose|m: int| 0 <= m < items.len() && items[m] == s[a + 1];
                assert(m > 0);
                assert(rest[m - 1] == items[m]);
            }
            lemma_combos_complete(rest, t);
            let j = choose|j: int| 0 <= j < inner.len() && inner[j] == t;
            assert(all[j] == seq![items[0]] + inner[j]);
            assert(seq![s[0]] + t =~= s);
        } else {
            assert(m0 > 0);
            assert(items[0] < items[m0]);
            assert forall|a: int| 0 <= a < s.len() implies rest.contains(#[trigger] s[a]) by {
                assert(items.contains(s[a]));
                let m = choose|m: int| 0 <= m < items.len() && items[m] == s[a];
                if a > 0 {
                    assert(s[0] < s[a]);
                }
                assert(m > 0);
                assert(rest[m - 1] == items[m]);
            }
            lemma_combos_complete(rest, s);
            let j = choose|j: int| 0 <= j < second.len() && second[j] == s;
            assert(all[first.len() + j] == second[j]);
        }
    }
}

} // verus!
