//! Synthetic datasets: random transactions over the items `1..=max`.

use vstd::prelude::*;
use vstd::seq_lib::*;
use rand::Rng;
use rand::seq::SliceRandom;
use crate::itemset::{is_itemset, holds_all, lemma_distinct_fits};
use crate::canonical::{insert_item, with_item, lemma_with_item};

verus! {

/// Calls `Rng::gen_range` on the thread's generator for a size from 1 to
/// `itemset_len`. Trusted: the value lies in the range asked for; which
/// value it is, is not said. The call panics on an empty range, so
/// `itemset_len` must be at least 1.
#[verifier::external_body]
fn random_size(itemset_len: usize) -> (size: usize)
    requires
        itemset_len >= 1,
    ensures
        1 <= size <= itemset_len,
{
    rand::thread_rng().gen_range(1..=itemset_len)
}

/// Calls `SliceRandom::shuffle` with the thread's generator. Trusted: the
/// items are rearranged, none is added or lost; in which order they come
/// out, is not said.
#[verifier::external_body]
fn shuffle_items(items: &mut Vec<i32>)
    ensures
        final(items)@.to_multiset() == old(items)@.to_multiset(),
{
    items.shuffle(&mut rand::thread_rng());
}

/// The items `1, 2, .., itemset_max`.
pub fn item_range(itemset_max: usize) -> (items: Vec<i32>)
    requires
        itemset_max <= i32::MAX,
    ensures
        items.len() == itemset_max,
        forall|i: int| 0 <= i < items.len() ==> items[i] == i + 1,
{
    let mut items: Vec<i32> = Vec::new();
    let mut next: i32 = 0;
    while items.len() < itemset_max
        invariant
            itemset_max <= i32::MAX,
            items.len() <= itemset_max,
            next == items.len(),
            forall|i: int| 0 <= i < items.len() ==> items[i] == i + 1,
        decreases itemset_max - items.len(),
    {
        next = next + 1;
        items.push(next);
    }
    items
}

/// The smaller of the two.
pub open spec fn at_most(size: int, len: int) -> int {
    if size <= len {
        size
    } else {
        len
    }
}

/// The first `size` items of `shuffled` (all of them if there are fewer),
/// in ascending order, each once.
pub fn take_sorted(shuffled: &Vec<i32>, size: usize) -> (t: Vec<i32>)
    ensures
        is_itemset(t@),
        forall|x: i32|
            t@.contains(x) <==> shuffled@.take(at_most(size as int, shuffled.len() as int)).contains(
                x,
            ),
        shuffled@.no_duplicates() ==> t.len() == at_most(size as int, shuffled.len() as int),
{
    let n = if size <= shuffled.len() {
        size
    } else {
        shuffled.len()
    };
    let ghost head = shuffled@.take(n as int);
    let mut t: Vec<i32> = Vec::new();
    let mut i: usize = 0;
    while i < n
        invariant
            i <= n,
            n <= shuffled.len(),
            is_itemset(t@),
            forall|x: i32| t@.contains(x) <==> shuffled@.take(i as int).contains(x),
        decreases n - i,
    {
        let ghost before = t@;
        let v = shuffled[i];
        insert_item(&mut t, v);
        proof {
            if !before.contains(v) {
                lemma_with_item(before, v);
            }
            assert(shuffled@.take(i + 1) =~= shuffled@.take(i as int).push(v));
            assert forall|x: i32| t@.contains(x) <==> shuffled@.take(i + 1).contains(x) by {
                lemma_seq_contains_after_push(shuffled@.take(i as int), v, x);
                if before.contains(v) {
                    assert(t@ == before);
                } else {
                    assert(t@ == with_item(before, v));
                    assert(t@.contains(x) <==> (x == v || before.contains(x)));
                }
            }
        }
        i += 1;
    }
    proof {
        if shuffled@.no_duplicates() {
            assert(head.no_duplicates()) by {
                assert forall|a: int, b: int|
                    0 <= a < head.len() && 0 <= b < head.len() && a != b implies head[a]
                    != head[b] by {
                    assert(head[a] == shuffled@[a] && head[b] == shuffled@[b]);
                }
            }
            assert(holds_all(t@, head)) by {
                assert forall|a: int| 0 <= a < head.len() implies t@.contains(#[trigger] head[a]) by {
                    assert(head.contains(head[a]));
                }
            }
            assert(holds_all(head, t@)) by {
                assert forall|a: int| 0 <= a < t@.len() implies head.contains(#[trigger] t@[a]) by {
                    assert(t@.contains(t@[a]));
                }
            }
            assert(t@.no_duplicates());
            lemma_distinct_fits(t@, head);
            lemma_distinct_fits(head, t@);
        }
    }
    t
}

/// A transaction as `generate_dataset` makes them: a non-empty canonical
/// itemset of at most `itemset_len` of the items `1..=itemset_max`.
pub open spec fn is_sample(t: Seq<i32>, itemset_max: int, itemset_len: int) -> bool {
    &&& is_itemset(t)
    &&& t.len() <= itemset_len
    &&& t.len() <= itemset_max
    &&& (itemset_max >= 1 ==> t.len() >= 1)
    &&& forall|j: int| 0 <= j < t.len() ==> 1 <= #[trigger] t[j] <= itemset_max
}

/// A dataset of `dataset_size` random transactions: for each, a random
/// number from 1 to `itemset_len` of distinct items out of
/// `1..=itemset_max`, in ascending order.
pub fn generate_dataset(dataset_size: usize, itemset_max: usize, itemset_len: usize) -> (dataset:
    Vec<Vec<i32>>)
    requires
        itemset_len >= 1,
        itemset_max <= i32::MAX,
    ensures
        dataset.len() == dataset_size,
        forall|i: int|
            0 <= i < dataset.len() ==> is_sample(
                (#[trigger] dataset[i])@,
                itemset_max as int,
                itemset_len as int,
            ),
{
    let mut dataset: Vec<Vec<i32>> = Vec::new();
    while dataset.len() < dataset_size
        invariant
            itemset_len >= 1,
            itemset_max <= i32::MAX,
            dataset.len() <= dataset_size,
            forall|i: int|
                0 <= i < dataset.len() ==> is_sample(
                    (#[trigger] dataset[i])@,
                    itemset_max as int,
                    itemset_len as int,
                ),
        decreases dataset_size - dataset.len(),
    {
        let size = random_size(itemset_len);
        let mut transaction = item_range(itemset_max);
        let ghost all = transaction@;
        shuffle_items(&mut transaction);
        let sample = take_sorted(&transaction, size);
        proof {
            let s = transaction@;
            to_multiset_len(all);
            to_multiset_len(s);
            assert(all.no_duplicates());
            all.lemma_multiset_has_no_duplicates();
            s.lemma_multiset_has_no_duplicates_conv();
            assert forall|j: int| 0 <= j < sample@.len() implies 1 <= #[trigger] sample@[j]
                <= itemset_max by {
                let x = sample@[j];
                assert(sample@.contains(x));
                let head = s.take(at_most(size as int, s.len() as int));
                assert(head.contains(x));
                let a = choose|a: int| 0 <= a < head.len() && head[a] == x;
                assert(s[a] == x);
                assert(s.contains(x));
                to_multiset_contains(s, x);
                to_multiset_contains(all, x);
                assert(all.contains(x));
                let b = choose|b: int| 0 <= b < all.len() && all[b] == x;
            }
        }
        let ghost before = dataset@;
        dataset.push(sample);
        proof {
            assert forall|i: int| 0 <= i < dataset.len() implies is_sample(
                (#[trigger] dataset[i])@,
                itemset_max as int,
                itemset_len as int,
            ) by {
                if i < before.len() {
                    assert(dataset[i] == before[i]);
                }
            }
        }
    }
    dataset
}

} // verus!
