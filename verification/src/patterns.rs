//! Tables of itemsets with their counts: the finite maps that the mining
//! engines build and return, kept as vectors of (itemset, count) pairs.

use vstd::prelude::*;
use crate::itemset::{same_items, copy_items};

verus! {

/// Some row of the table has the itemset `k`.
pub open spec fn table_has(t: Seq<(Vec<i32>, usize)>, k: Seq<i32>) -> bool {
    exists|i: int| 0 <= i < t.len() && (#[trigger] t[i]).0@ == k
}

/// A row of the table that has the itemset `k`.
pub open spec fn table_index(t: Seq<(Vec<i32>, usize)>, k: Seq<i32>) -> int {
    choose|i: int| 0 <= i < t.len() && (#[trigger] t[i]).0@ == k
}

/// No itemset stands in two rows.
pub open spec fn table_distinct(t: Seq<(Vec<i32>, usize)>) -> bool {
    forall|i: int, j: int| 0 <= i < j < t.len() ==> (#[trigger] t[i]).0@ != (#[trigger] t[j]).0@
}

/// The table as a map from itemset to count.
pub open spec fn table_map(t: Seq<(Vec<i32>, usize)>) -> Map<Seq<i32>, nat> {
    Map::new(|k: Seq<i32>| table_has(t, k), |k: Seq<i32>| t[table_index(t, k)].1 as nat)
}

/// In a table without repeated itemsets, the map gives each row's itemset
/// that row's count.
pub proof fn lemma_table_row(t: Seq<(Vec<i32>, usize)>, i: int)
    requires
        table_distinct(t),
        0 <= i < t.len(),
    ensures
        table_has(t, t[i].0@),
        table_map(t).contains_key(t[i].0@),
        table_map(t)[t[i].0@] == t[i].1,
{
    let k = t[i].0@;
    let j = table_index(t, k);
    assert(j == i);
}

/// Appending a row with a new itemset inserts it into the map.
pub proof fn lemma_table_push(t: Seq<(Vec<i32>, usize)>, e: (Vec<i32>, usize))
    requires
        table_distinct(t),
        !table_has(t, e.0@),
    ensures
        table_distinct(t.push(e)),
        table_map(t.push(e)) == table_map(t).insert(e.0@, e.1 as nat),
{
    let u = t.push(e);
    assert forall|i: int, j: int| 0 <= i < j < u.len() implies (#[trigger] u[i]).0@ != (#[trigger] u[j]).0@ by {
        if j < t.len() {
            assert(u[i] == t[i] && u[j] == t[j]);
        } else {
            assert(u[i] == t[i]);
        }
    }
    assert forall|k: Seq<i32>| table_has(u, k) <==> (k == e.0@ || table_has(t, k)) by {
        if table_has(u, k) {
            let i = table_index(u, k);
            if i < t.len() {
                assert(t[i].0@ == k);
            }
        }
        if k == e.0@ {
            assert(u[t.len() as int].0@ == k);
        }
        if table_has(t, k) {
            let i = table_index(t, k);
            assert(u[i].0@ == k);
        }
    }
    assert forall|k: Seq<i32>| table_has(u, k) implies #[trigger] table_map(u)[k] == table_map(t).insert(e.0@, e.1 as nat)[k] by {
        let i = table_index(u, k);
        lemma_table_row(u, i);
        if i < t.len() {
            assert(u[i] == t[i]);
            lemma_table_row(t, i);
        }
    }
    assert(table_map(u) =~= table_map(t).insert(e.0@, e.1 as nat));
}

/// Replacing the count of a row replaces it in the map.
pub proof fn lemma_table_update(t: Seq<(Vec<i32>, usize)>, i: int, e: (Vec<i32>, usize))
    requires
        table_distinct(t),
        0 <= i < t.len(),
        e.0@ == t[i].0@,
    ensures
        table_distinct(t.update(i, e)),
        table_map(t.update(i, e)) == table_map(t).insert(e.0@, e.1 as nat),
{
    let u = t.update(i, e);
    assert forall|a: int, b: int| 0 <= a < b < u.len() implies (#[trigger] u[a]).0@ != (#[trigger] u[b]).0@ by {
        assert(u[a].0@ == t[a].0@);
        assert(u[b].0@ == t[b].0@);
    }
    assert forall|k: Seq<i32>| table_has(u, k) <==> (k == e.0@ || table_has(t, k)) by {
        if table_has(u, k) {
            let j = table_index(u, k);
            assert(t[j].0@ == k);
        }
        if k == e.0@ {
            assert(u[i].0@ == k);
        }
        if table_has(t, k) {
            let j = table_index(t, k);
            assert(u[j].0@ == k);
        }
    }
    assert forall|k: Seq<i32>| table_has(u, k) implies #[trigger] table_map(u)[k] == table_map(t).insert(e.0@, e.1 as nat)[k] by {
        let j = table_index(u, k);
        lemma_table_row(u, j);
        if j != i {
            assert(u[j] == t[j]);
            lemma_table_row(t, j);
        }
    }
    assert(table_map(u) =~= table_map(t).insert(e.0@, e.1 as nat));
}

/// The empty table is the empty map.
pub proof fn lemma_table_empty()
    ensures
        table_distinct(Seq::<(Vec<i32>, usize)>::empty()),
        table_map(Seq::<(Vec<i32>, usize)>::empty()) == Map::<Seq<i32>, nat>::empty(),
{
    assert(table_map(Seq::<(Vec<i32>, usize)>::empty()) =~= Map::<Seq<i32>, nat>::empty());
}

/// The row that holds the itemset `key`, if there is one.
pub fn find_pattern(t: &Vec<(Vec<i32>, usize)>, key: &Vec<i32>) -> (r: Option<usize>)
    ensures
        match r {
            Some(i) => i < t.len() && t[i as int].0@ == key@,
            None => !table_has(t@, key@),
        },
{
    let mut i: usize = 0;
    while i < t.len()
        invariant
            i <= t.len(),
            forall|j: int| 0 <= j < i ==> (#[trigger] t[j]).0@ != key@,
        decreases t.len() - i,
    {
        if same_items(&t[i].0, key) {
            return Some(i);
        }
        i += 1;
    }
    None
}

/// Sets the count of `key` to `count`, adding a row if the table has none for it.
pub fn set_count(t: &mut Vec<(Vec<i32>, usize)>, key: Vec<i32>, count: usize)
    requires
        table_distinct(old(t)@),
    ensures
        table_distinct(final(t)@),
        table_map(final(t)@) == table_map(old(t)@).insert(key@, count as nat),
{
    match find_pattern(t, &key) {
        Some(i) => {
            proof {
                lemma_table_update(t@, i as int, (key, count));
            }
            t[i] = (key, count);
        },
        None => {
            proof {
                lemma_table_push(t@, (key, count));
            }
            t.push((key, count));
        },
    }
}

/// The count that the table gives to `k`, zero if it has no row for it.
pub open spec fn count_of(t: Seq<(Vec<i32>, usize)>, k: Seq<i32>) -> nat {
    if table_has(t, k) {
        table_map(t)[k]
    } else {
        0
    }
}

/// Adds `count` to the count of `key`, starting from zero if the table has no row for it.
pub fn add_count(t: &mut Vec<(Vec<i32>, usize)>, key: Vec<i32>, count: usize)
    requires
        table_distinct(old(t)@),
        count_of(old(t)@, key@) + count <= usize::MAX,
    ensures
        table_distinct(final(t)@),
        table_map(final(t)@) == table_map(old(t)@).insert(
            key@,
            (count_of(old(t)@, key@) + count) as nat,
        ),
{
    match find_pattern(t, &key) {
        Some(i) => {
            proof {
                lemma_table_row(t@, i as int);
            }
            let sum = t[i].1 + count;
            proof {
                lemma_table_update(t@, i as int, (key, sum));
            }
            t[i] = (key, sum);
        },
        None => {
            proof {
                lemma_table_push(t@, (key, count));
            }
            t.push((key, count));
        },
    }
}

/// The two maps put together, the counts of a common itemset added up.
pub open spec fn merged(a: Map<Seq<i32>, nat>, b: Map<Seq<i32>, nat>) -> Map<Seq<i32>, nat> {
    Map::new(
        |k: Seq<i32>| a.contains_key(k) || b.contains_key(k),
        |k: Seq<i32>|
            (if a.contains_key(k) {
                a[k]
            } else {
                0nat
            }) + (if b.contains_key(k) {
                b[k]
            } else {
                0nat
            }),
    )
}

/// The first `j + 1` rows are the first `j` rows with row `j` inserted.
pub proof fn lemma_table_take_succ(t: Seq<(Vec<i32>, usize)>, j: int)
    requires
        table_distinct(t),
        0 <= j < t.len(),
    ensures
        table_distinct(t.take(j)),
        !table_has(t.take(j), t[j].0@),
        table_map(t.take(j + 1)) == table_map(t.take(j)).insert(t[j].0@, t[j].1 as nat),
{
    let u = t.take(j);
    assert forall|a: int, b: int| 0 <= a < b < u.len() implies (#[trigger] u[a]).0@ != (
    #[trigger] u[b]).0@ by {
        assert(u[a] == t[a] && u[b] == t[b]);
    }
    if table_has(u, t[j].0@) {
        let i = table_index(u, t[j].0@);
        assert(u[i] == t[i]);
    }
    lemma_table_push(u, t[j]);
    assert(t.take(j + 1) =~= u.push(t[j]));
}

/// Adds the counts of `from` into the table `into`, itemset by itemset.
pub fn merge_add(into: &mut Vec<(Vec<i32>, usize)>, from: &Vec<(Vec<i32>, usize)>)
    requires
        table_distinct(old(into)@),
        table_distinct(from@),
        forall|k: Seq<i32>|
            table_has(from@, k) ==> #[trigger] merged(table_map(old(into)@), table_map(from@))[k]
                <= usize::MAX,
    ensures
        table_distinct(final(into)@),
        table_map(final(into)@) == merged(table_map(old(into)@), table_map(from@)),
{
    let ghost m0 = table_map(into@);
    let ghost mf = table_map(from@);
    let mut j: usize = 0;
    proof {
        lemma_table_empty();
        assert(from@.take(0) =~= Seq::empty());
        assert(table_map(into@) =~= merged(m0, table_map(from@.take(0))));
    }
    while j < from.len()
        invariant
            j <= from.len(),
            m0 == table_map(old(into)@),
            mf == table_map(from@),
            table_distinct(from@),
            table_distinct(into@),
            table_map(into@) == merged(m0, table_map(from@.take(j as int))),
            forall|k: Seq<i32>| table_has(from@, k) ==> #[trigger] merged(m0, mf)[k] <= usize::MAX,
        decreases from.len() - j,
    {
        let key = copy_items(&from[j].0);
        let count = from[j].1;
        let ghost before = table_map(into@);
        let ghost part = table_map(from@.take(j as int));
        proof {
            lemma_table_take_succ(from@, j as int);
            lemma_table_row(from@, j as int);
            assert(!part.contains_key(key@));
            assert(merged(m0, mf)[key@] <= usize::MAX);
            assert(table_has(into@, key@) == table_map(into@).contains_key(key@));
            assert(merged(m0, part).contains_key(key@) == m0.contains_key(key@));
            if m0.contains_key(key@) {
                assert(merged(m0, part)[key@] == m0[key@]);
            }
            assert(mf.contains_key(key@) && mf[key@] == count);
            assert(table_has(from@, key@));
            assert(count_of(into@, key@) == if m0.contains_key(key@) { m0[key@] } else { 0 });
        }
        add_count(into, key, count);
        proof {
            let next = table_map(from@.take(j + 1));
            assert(next == part.insert(from[j as int].0@, count as nat));
            assert(table_map(into@) =~= merged(m0, next));
        }
        j += 1;
    }
    proof {
        assert(from@.take(from.len() as int) =~= from@);
    }
}

} // verus!
