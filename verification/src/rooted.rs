//! Patterns mined under a root item: every pattern of the conditional
//! transactions gets the root's item, and the root's item alone stands
//! with the root's count.

use vstd::prelude::*;
use crate::itemset::{is_itemset, mined};
use crate::canonical::{with_item, without_item, lemma_with_item, lemma_without_item};

verus! {

/// The patterns of `base`, each with the root's item put in; with no root,
/// `base` itself.
pub open spec fn zipped(root: Option<(i32, usize)>, base: Map<Seq<i32>, nat>) -> Map<
    Seq<i32>,
    nat,
> {
    match root {
        None => base,
        Some(rc) => Map::new(
            |k: Seq<i32>|
                is_itemset(k) && k.contains(rc.0) && k.len() >= 2 && base.contains_key(
                    without_item(k, rc.0),
                ),
            |k: Seq<i32>| base[without_item(k, rc.0)],
        ),
    }
}

/// What mining under a root adds to `base`: every pattern gets the root's
/// item, and the root's item alone stands with the root's count.
pub open spec fn rooted_map(root: Option<(i32, usize)>, base: Map<Seq<i32>, nat>) -> Map<
    Seq<i32>,
    nat,
> {
    match root {
        None => base,
        Some(rc) => zipped(root, base).insert(seq![rc.0], rc.1 as nat),
    }
}

/// The itemset `s` with the root's item put in, if there is a root.
pub open spec fn lifted(root: Option<(i32, usize)>, s: Seq<i32>) -> Seq<i32> {
    match root {
        None => s,
        Some(rc) => with_item(s, rc.0),
    }
}

/// The item of the root does not stand in `s`.
pub open spec fn avoids_root(root: Option<(i32, usize)>, s: Seq<i32>) -> bool {
    match root {
        None => true,
        Some(rc) => !s.contains(rc.0),
    }
}

/// The result of mining the transactions `d` under an optional root;
/// with a threshold of zero, nothing.
pub open spec fn mined_tree(d: Seq<Seq<i32>>, min: nat, root: Option<(i32, usize)>) -> Map<
    Seq<i32>,
    nat,
> {
    if min == 0 {
        Map::empty()
    } else {
        rooted_map(root, mined(d, min))
    }
}

/// Nothing comes of an empty base.
pub proof fn lemma_zipped_empty(root: Option<(i32, usize)>)
    ensures
        zipped(root, Map::<Seq<i32>, nat>::empty()) == Map::<Seq<i32>, nat>::empty(),
{
    assert(zipped(root, Map::<Seq<i32>, nat>::empty()) =~= Map::<Seq<i32>, nat>::empty());
}

/// Putting one more pattern into the base puts that pattern, with the root's
/// item, into the zipped map.
pub proof fn lemma_zipped_insert(
    root: Option<(i32, usize)>,
    base: Map<Seq<i32>, nat>,
    s: Seq<i32>,
    v: nat,
)
    requires
        is_itemset(s),
        s.len() >= 1,
        avoids_root(root, s),
    ensures
        zipped(root, base.insert(s, v)) == zipped(root, base).insert(lifted(root, s), v),
        is_itemset(lifted(root, s)),
        lifted(root, s).len() >= 1,
        root.is_some() ==> lifted(root, s).len() >= 2 && without_item(lifted(root, s), root.unwrap().0)
            == s,
{
    match root {
        None => {},
        Some(rc) => {
            let r = rc.0;
            let k0 = with_item(s, r);
            lemma_with_item(s, r);
            let lhs = zipped(root, base.insert(s, v));
            let rhs = zipped(root, base).insert(k0, v);
            assert forall|k: Seq<i32>| lhs.contains_key(k) <==> rhs.contains_key(k) by {
                if lhs.contains_key(k) && k != k0 {
                    lemma_without_item(k, r);
                }
                if k == k0 {
                    assert(k0.contains(r));
                }
            }
            assert forall|k: Seq<i32>| lhs.contains_key(k) implies #[trigger] lhs[k] == rhs[k] by {
                if k != k0 {
                    lemma_without_item(k, r);
                }
            }
            assert(lhs =~= rhs);
        },
    }
}

/// Putting one more pattern into the base puts one more pattern, with the
/// root's item, into the result.
pub proof fn lemma_rooted_insert(
    root: Option<(i32, usize)>,
    base: Map<Seq<i32>, nat>,
    s: Seq<i32>,
    v: nat,
)
    requires
        is_itemset(s),
        s.len() >= 1,
        avoids_root(root, s),
    ensures
        rooted_map(root, base.insert(s, v)) == rooted_map(root, base).insert(lifted(root, s), v),
{
    lemma_zipped_insert(root, base, s, v);
    match root {
        None => {},
        Some(rc) => {
            let k0 = lifted(root, s);
            let one = seq![rc.0];
            assert(one.len() == 1);
            assert(k0 != one);
            assert(zipped(root, base).insert(k0, v).insert(one, rc.1 as nat) =~= zipped(
                root,
                base,
            ).insert(one, rc.1 as nat).insert(k0, v));
        },
    }
}

} // verus!
