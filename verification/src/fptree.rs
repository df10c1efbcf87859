//! The compressed prefix tree: an arena of nodes addressed by index, with
//! a header table that chains the nodes of each item in order of creation.

use vstd::prelude::*;
use crate::itemset::{
    holds_all, count_where, rows, lemma_count_le_len, lemma_count_positive, lemma_count_push,
};
use crate::tids::increasing;
use crate::frequency::{
    table_items, is_frequency_table, find_frequent_items, projection, projections, project,
    lemma_table_items_distinct, lemma_projection_in_order,
};

verus! {

/// A node of the tree. The root is the only node without a parent; `link`
/// leads to the next node created for the same item.
pub struct FPNode {
    pub value: Option<i32>,
    pub count: usize,
    pub parent: Option<usize>,
    pub link: Option<usize>,
    pub children: Vec<usize>,
}

impl FPNode {
    /// A node without children and without a successor in its item's chain.
    pub fn new(value: Option<i32>, count: usize, parent: Option<usize>) -> (node: FPNode)
        ensures
            node.value == value,
            node.count == count,
            node.parent == parent,
            node.link.is_none(),
            node.children@.len() == 0,
    {
        FPNode { value, count, parent, link: None, children: Vec::new() }
    }
}

/// The items on the way from below the root down to node `n`.
pub open spec fn path_of(nodes: Seq<FPNode>, n: int) -> Seq<i32>
    decreases n,
{
    if 0 < n < nodes.len() {
        match (nodes[n].parent, nodes[n].value) {
            (Some(p), Some(v)) => if p < n {
                path_of(nodes, p as int).push(v)
            } else {
                Seq::empty()
            },
            _ => Seq::empty(),
        }
    } else {
        Seq::empty()
    }
}

/// Node `n` is a proper child: it has an item, and its parent is an
/// earlier node that lists it.
pub open spec fn child_ok(nodes: Seq<FPNode>, n: int) -> bool {
    &&& nodes[n].value.is_some()
    &&& nodes[n].parent.is_some()
    &&& nodes[n].parent.unwrap() < n
    &&& nodes[nodes[n].parent.unwrap() as int].children@.contains(n as usize)
}

/// Entry `i` of the child list of `p` is a later node whose parent is `p`.
pub open spec fn listed_ok(nodes: Seq<FPNode>, p: int, i: int) -> bool {
    let c = nodes[p].children@[i];
    &&& p < c < nodes.len()
    &&& nodes[c as int].parent == Some(p as usize)
}

/// No node stands twice in the child list of `p`.
pub open spec fn kids_distinct(nodes: Seq<FPNode>, p: int) -> bool {
    nodes[p].children@.no_duplicates()
}

/// The arena is a tree rooted at node 0: every node below the root stands
/// once in the child list of its parent, and no two nodes have the same path.
pub open spec fn structure_ok(nodes: Seq<FPNode>) -> bool {
    &&& nodes.len() >= 1
    &&& nodes[0].parent.is_none()
    &&& forall|n: int| 1 <= n < nodes.len() ==> #[trigger] child_ok(nodes, n)
    &&& forall|p: int| 0 <= p < nodes.len() ==> #[trigger] kids_distinct(nodes, p)
    &&& forall|p: int, i: int|
        0 <= p < nodes.len() && 0 <= i < nodes[p].children@.len() ==> #[trigger] listed_ok(
            nodes,
            p,
            i,
        )
    &&& forall|n: int, m: int|
        #![trigger path_of(nodes, n), path_of(nodes, m)]
        0 <= n < nodes.len() && 0 <= m < nodes.len() && path_of(nodes, n) == path_of(nodes, m)
            ==> n == m
}

/// `r` is the first node at or after `from` that holds the item `v`, if any.
pub open spec fn is_next(nodes: Seq<FPNode>, v: i32, from: int, r: Option<usize>) -> bool {
    match r {
        Some(m) => {
            &&& from <= m < nodes.len()
            &&& nodes[m as int].value == Some(v)
            &&& forall|x: int| from <= x < m ==> (#[trigger] nodes[x]).value != Some(v)
        },
        None => forall|x: int| from <= x < nodes.len() ==> (#[trigger] nodes[x]).value != Some(v),
    }
}

/// Node `n` holds an item of the table, and its link leads to the next
/// node that holds the same item.
pub open spec fn linked_ok(nodes: Seq<FPNode>, order: Seq<i32>, n: int) -> bool {
    &&& nodes[n].value.is_some()
    &&& order.contains(nodes[n].value.unwrap())
    &&& is_next(nodes, nodes[n].value.unwrap(), n + 1, nodes[n].link)
}

/// The header table gives, for each item, the first node that holds it,
/// and the links chain all the nodes of an item in order of creation.
pub open spec fn links_ok(nodes: Seq<FPNode>, order: Seq<i32>, headers: Seq<Option<usize>>) -> bool {
    &&& headers.len() == order.len()
    &&& order.no_duplicates()
    &&& forall|n: int| 1 <= n < nodes.len() ==> #[trigger] linked_ok(nodes, order, n)
    &&& forall|r: int| 0 <= r < order.len() ==> #[trigger] is_next(nodes, order[r], 1, headers[r])
}

/// The predicate "this sequence starts with `q`".
pub open spec fn starts_with(q: Seq<i32>) -> spec_fn(Seq<i32>) -> bool {
    |u: Seq<i32>| q.is_prefix_of(u)
}

/// Some node below the root has the path `q`.
pub open spec fn has_path(nodes: Seq<FPNode>, q: Seq<i32>) -> bool {
    exists|n: int| 1 <= n < nodes.len() && #[trigger] path_of(nodes, n) == q
}

/// The count of node `n` is the number of inserted sequences that start
/// with its path, plus one if the sequence being inserted has reached it.
pub open spec fn counted(nodes: Seq<FPNode>, ins: Seq<Seq<i32>>, done: Seq<i32>, n: int) -> bool {
    &&& nodes[n].count >= 1
    &&& nodes[n].count == count_where(ins, starts_with(path_of(nodes, n))) + if path_of(
        nodes,
        n,
    ).is_prefix_of(done) {
        1int
    } else {
        0int
    }
}

/// Every node below the root is counted, the sequence `done` in progress
/// included.
pub open spec fn counts_partial(nodes: Seq<FPNode>, ins: Seq<Seq<i32>>, done: Seq<i32>) -> bool {
    forall|n: int| 1 <= n < nodes.len() ==> #[trigger] counted(nodes, ins, done, n)
}

/// Every prefix of `u` of 1 to `upto` items is the path of a node.
pub open spec fn covered(nodes: Seq<FPNode>, u: Seq<i32>, upto: int) -> bool {
    forall|k: int| 1 <= k <= upto ==> has_path(nodes, #[trigger] u.take(k))
}

/// Every non-empty prefix of every inserted sequence is the path of a node.
pub open spec fn all_covered(nodes: Seq<FPNode>, ins: Seq<Seq<i32>>) -> bool {
    forall|i: int| 0 <= i < ins.len() ==> covered(nodes, #[trigger] ins[i], ins[i].len() as int)
}

/// The tree holds exactly the sequences `ins`: each node counts the
/// sequences that start with its path, and every non-empty prefix of a
/// sequence is the path of a node.
pub open spec fn counts_ok(nodes: Seq<FPNode>, ins: Seq<Seq<i32>>) -> bool {
    &&& counts_partial(nodes, ins, Seq::empty())
    &&& all_covered(nodes, ins)
}

/// Two arenas agree on the parent and the item of every node up to `n`.
pub open spec fn same_shape(a: Seq<FPNode>, b: Seq<FPNode>, n: int) -> bool {
    &&& n < a.len()
    &&& n < b.len()
    &&& forall|m: int|
        0 <= m <= n ==> (#[trigger] a[m]).parent == (#[trigger] b[m]).parent && a[m].value
            == b[m].value
}

/// Paths depend on the parents and items of the nodes alone.
pub proof fn lemma_path_frame(a: Seq<FPNode>, b: Seq<FPNode>, n: int)
    requires
        same_shape(a, b, n),
    ensures
        path_of(a, n) == path_of(b, n),
    decreases n,
{
    if 0 < n {
        assert(a[n].parent == b[n].parent && a[n].value == b[n].value);
        match (a[n].parent, a[n].value) {
            (Some(p), Some(v)) => {
                if p < n {
                    lemma_path_frame(a, b, p as int);
                }
            },
            _ => {},
        }
    }
}

/// An arena that agrees with `a` on the parents and items of all nodes of `a`
/// gives them the same paths.
pub proof fn lemma_path_frame_all(a: Seq<FPNode>, b: Seq<FPNode>)
    requires
        a.len() >= 1,
        a.len() <= b.len(),
        same_shape(a, b, a.len() - 1),
    ensures
        forall|n: int| 0 <= n < a.len() ==> #[trigger] path_of(b, n) == path_of(a, n),
{
    assert forall|n: int| 0 <= n < a.len() implies #[trigger] path_of(b, n) == path_of(a, n) by {
        lemma_path_frame(a, b, n);
    }
}

/// The path of a node below the root is its parent's path followed by its own
/// item.
pub proof fn lemma_path_nonempty(nodes: Seq<FPNode>, n: int)
    requires
        structure_ok(nodes),
        1 <= n < nodes.len(),
    ensures
        path_of(nodes, n).len() >= 1,
        path_of(nodes, n) == path_of(nodes, nodes[n].parent.unwrap() as int).push(
            nodes[n].value.unwrap(),
        ),
{
    assert(child_ok(nodes, n));
}

/// A prefix of the first `k + 1` items is a prefix of the first `k` items, or
/// all `k + 1` of them.
pub proof fn lemma_prefix_take_succ(q: Seq<i32>, s: Seq<i32>, k: int)
    requires
        0 <= k < s.len(),
    ensures
        q.is_prefix_of(s.take(k + 1)) <==> (q.is_prefix_of(s.take(k)) || q == s.take(k + 1)),
{
    let s1 = s.take(k + 1);
    let s0 = s.take(k);
    if q.is_prefix_of(s1) {
        if q.len() <= k {
            assert(q =~= s0.subrange(0, q.len() as int));
        } else {
            assert(q =~= s1);
        }
    }
    if q.is_prefix_of(s0) {
        assert(q =~= s1.subrange(0, q.len() as int));
    }
    if q == s1 {
        assert(q =~= s1.subrange(0, q.len() as int));
    }
}

/// The child of `cur` that holds the item `v`, if there is one.
pub fn find_child(nodes: &Vec<FPNode>, cur: usize, v: i32) -> (r: Option<usize>)
    requires
        structure_ok(nodes@),
        cur < nodes.len(),
    ensures
        match r {
            Some(c) => {
                &&& cur < c < nodes.len()
                &&& nodes[c as int].parent == Some(cur)
                &&& nodes[c as int].value == Some(v)
            },
            None => forall|m: int|
                1 <= m < nodes.len() && (#[trigger] nodes[m]).parent == Some(cur) ==> nodes[m].value
                    != Some(v),
        },
{
    let mut i: usize = 0;
    while i < nodes[cur].children.len()
        invariant
            structure_ok(nodes@),
            cur < nodes.len(),
            i <= nodes[cur as int].children.len(),
            forall|j: int|
                0 <= j < i ==> nodes[(#[trigger] nodes[cur as int].children[j]) as int].value
                    != Some(v),
        decreases nodes[cur as int].children.len() - i,
    {
        let c = nodes[cur].children[i];
        assert(listed_ok(nodes@, cur as int, i as int));
        if nodes[c].value == Some(v) {
            return Some(c);
        }
        i += 1;
    }
    proof {
        assert forall|m: int|
            1 <= m < nodes.len() && (#[trigger] nodes[m]).parent == Some(cur) implies nodes[m].value
            != Some(v) by {
            assert(child_ok(nodes@, m));
            let j = choose|j: int|
                0 <= j < nodes[cur as int].children@.len() && nodes[cur as int].children@[j] == m;
            assert(nodes[(nodes[cur as int].children[j]) as int].value != Some(v));
        }
    }
    None
}

/// The position of the item `v` in the frequency table.
pub fn rank_of(frequent: &Vec<(i32, usize)>, v: i32) -> (r: usize)
    requires
        table_items(frequent@).contains(v),
    ensures
        r < frequent.len(),
        frequent[r as int].0 == v,
{
    let mut r: usize = 0;
    while r < frequent.len()
        invariant
            r <= frequent.len(),
            table_items(frequent@).contains(v),
            forall|j: int| 0 <= j < r ==> (#[trigger] frequent[j]).0 != v,
        decreases frequent.len() - r,
    {
        if frequent[r].0 == v {
            return r;
        }
        r += 1;
    }
    proof {
        let j = choose|j: int| 0 <= j < table_items(frequent@).len() && table_items(frequent@)[j] == v;
        assert(frequent[j].0 == v);
    }
    r
}

/// What holds while the sequence `u` is being inserted: its first `pos`
/// items have been followed down to node `cur`, and the nodes on the way
/// have been counted once more.
pub open spec fn inserting(
    nodes: Seq<FPNode>,
    order: Seq<i32>,
    headers: Seq<Option<usize>>,
    ins: Seq<Seq<i32>>,
    u: Seq<i32>,
    pos: int,
    cur: int,
) -> bool {
    &&& structure_ok(nodes)
    &&& links_ok(nodes, order, headers)
    &&& 0 <= pos <= u.len()
    &&& 0 <= cur < nodes.len()
    &&& path_of(nodes, cur) == u.take(pos)
    &&& counts_partial(nodes, ins, u.take(pos))
    &&& all_covered(nodes, ins)
    &&& covered(nodes, u, pos)
}

/// A path that some node has is kept when the arena grows and keeps its
/// paths.
pub proof fn lemma_has_path_extends(a: Seq<FPNode>, b: Seq<FPNode>, q: Seq<i32>)
    requires
        a.len() <= b.len(),
        forall|n: int| 0 <= n < a.len() ==> #[trigger] path_of(b, n) == path_of(a, n),
        has_path(a, q),
    ensures
        has_path(b, q),
{
    let n = choose|n: int| 1 <= n < a.len() && #[trigger] path_of(a, n) == q;
    assert(path_of(b, n) == q);
}

/// The inserted sequences stay covered when the arena grows and keeps its
/// paths.
pub proof fn lemma_covered_extends(a: Seq<FPNode>, b: Seq<FPNode>, ins: Seq<Seq<i32>>)
    requires
        a.len() <= b.len(),
        forall|n: int| 0 <= n < a.len() ==> #[trigger] path_of(b, n) == path_of(a, n),
        all_covered(a, ins),
    ensures
        all_covered(b, ins),
{
    assert forall|i: int| 0 <= i < ins.len() implies covered(
        b,
        #[trigger] ins[i],
        ins[i].len() as int,
    ) by {
        assert(covered(a, ins[i], ins[i].len() as int));
        assert forall|k: int| 1 <= k <= ins[i].len() implies has_path(b, #[trigger] ins[i].take(k)) by {
            lemma_has_path_extends(a, b, ins[i].take(k));
        }
    }
}

/// A well-counted tree is ready for the insertion of any sequence, at the
/// root.
pub proof fn lemma_insert_begin(
    nodes: Seq<FPNode>,
    order: Seq<i32>,
    headers: Seq<Option<usize>>,
    ins: Seq<Seq<i32>>,
    u: Seq<i32>,
)
    requires
        structure_ok(nodes),
        links_ok(nodes, order, headers),
        counts_ok(nodes, ins),
    ensures
        inserting(nodes, order, headers, ins, u, 0, 0),
{
    assert(u.take(0) =~= Seq::empty());
}

/// When the whole sequence has been followed, the tree holds it together with
/// those before.
pub proof fn lemma_insert_end(
    nodes: Seq<FPNode>,
    order: Seq<i32>,
    headers: Seq<Option<usize>>,
    ins: Seq<Seq<i32>>,
    u: Seq<i32>,
    cur: int,
)
    requires
        inserting(nodes, order, headers, ins, u, u.len() as int, cur),
    ensures
        counts_ok(nodes, ins.push(u)),
{
    let ins2 = ins.push(u);
    assert(u.take(u.len() as int) =~= u);
    assert forall|n: int| 1 <= n < nodes.len() implies #[trigger] counted(
        nodes,
        ins2,
        Seq::empty(),
        n,
    ) by {
        assert(counted(nodes, ins, u, n));
        lemma_path_nonempty(nodes, n);
        lemma_count_push(ins, u, starts_with(path_of(nodes, n)));
    }
    assert forall|i: int| 0 <= i < ins2.len() implies covered(
        nodes,
        #[trigger] ins2[i],
        ins2[i].len() as int,
    ) by {
        if i < ins.len() {
            assert(ins2[i] == ins[i]);
        }
    }
}

/// The count of a node that the sequence being inserted has not reached
/// yet is at most the number of sequences inserted before.
pub proof fn lemma_bump_bound(
    a: Seq<FPNode>,
    order: Seq<i32>,
    headers: Seq<Option<usize>>,
    ins: Seq<Seq<i32>>,
    u: Seq<i32>,
    pos: int,
    cur: usize,
    x: usize,
)
    requires
        inserting(a, order, headers, ins, u, pos, cur as int),
        pos < u.len(),
        cur < x < a.len(),
        a[x as int].parent == Some(cur),
        a[x as int].value == Some(u[pos]),
    ensures
        a[x as int].count <= ins.len(),
        path_of(a, x as int) == u.take(pos + 1),
{
    assert(child_ok(a, x as int));
    assert(u.take(pos).push(u[pos]) =~= u.take(pos + 1));
    assert(counted(a, ins, u.take(pos), x as int));
    lemma_count_le_len(ins, starts_with(path_of(a, x as int)));
}

/// Following an item into an existing child and counting the child once more
/// advances the insertion by one item.
pub proof fn lemma_step_bump(
    a: Seq<FPNode>,
    c: Seq<FPNode>,
    order: Seq<i32>,
    headers: Seq<Option<usize>>,
    ins: Seq<Seq<i32>>,
    u: Seq<i32>,
    pos: int,
    cur: usize,
    x: usize,
)
    requires
        inserting(a, order, headers, ins, u, pos, cur as int),
        pos < u.len(),
        cur < x < a.len(),
        a[x as int].parent == Some(cur),
        a[x as int].value == Some(u[pos]),
        c.len() == a.len(),
        forall|n: int|
            0 <= n < a.len() ==> {
                &&& (#[trigger] c[n]).value == a[n].value
                &&& c[n].parent == a[n].parent
                &&& c[n].link == a[n].link
                &&& c[n].children == a[n].children
                &&& c[n].count == if n == x { a[n].count + 1 } else { a[n].count as int }
            },
    ensures
        inserting(c, order, headers, ins, u, pos + 1, x as int),
{
    lemma_bump_bound(a, order, headers, ins, u, pos, cur, x);
    lemma_path_frame_all(a, c);
    assert(structure_ok(c)) by {
        assert forall|n: int| 1 <= n < c.len() implies #[trigger] child_ok(c, n) by {
            assert(child_ok(a, n));
        }
        assert forall|p: int| 0 <= p < c.len() implies #[trigger] kids_distinct(c, p) by {
            assert(kids_distinct(a, p));
        }
        assert forall|p: int, i: int|
            0 <= p < c.len() && 0 <= i < c[p].children@.len() implies #[trigger] listed_ok(
            c,
            p,
            i,
        ) by {
            assert(listed_ok(a, p, i));
        }
    }
    assert(links_ok(c, order, headers)) by {
        assert forall|n: int| 1 <= n < c.len() implies #[trigger] linked_ok(c, order, n) by {
            assert(linked_ok(a, order, n));
        }
        assert forall|r: int| 0 <= r < order.len() implies #[trigger] is_next(
            c,
            order[r],
            1,
            headers[r],
        ) by {
            assert(is_next(a, order[r], 1, headers[r]));
        }
    }
    assert forall|n: int| 1 <= n < c.len() implies #[trigger] counted(
        c,
        ins,
        u.take(pos + 1),
        n,
    ) by {
        assert(counted(a, ins, u.take(pos), n));
        lemma_prefix_take_succ(path_of(a, n), u, pos);
    }
    lemma_covered_extends(a, c, ins);
    assert forall|k: int| 1 <= k <= pos + 1 implies has_path(c, #[trigger] u.take(k)) by {
        if k <= pos {
            lemma_has_path_extends(a, c, u.take(k));
        } else {
            assert(path_of(c, x as int) == u.take(k));
        }
    }
}

/// Following an item into a newly attached child advances the insertion by
/// one item.
pub proof fn lemma_step_attach(
    a: Seq<FPNode>,
    c: Seq<FPNode>,
    order: Seq<i32>,
    h0: Seq<Option<usize>>,
    h1: Seq<Option<usize>>,
    ins: Seq<Seq<i32>>,
    u: Seq<i32>,
    pos: int,
    cur: int,
)
    requires
        inserting(a, order, h0, ins, u, pos, cur),
        pos < u.len(),
        structure_ok(c),
        links_ok(c, order, h1),
        c.len() == a.len() + 1,
        c[a.len() as int].count == 1,
        path_of(c, a.len() as int) == path_of(a, cur).push(u[pos]),
        forall|n: int|
            0 <= n < a.len() ==> (#[trigger] c[n]).count == a[n].count && path_of(c, n) == path_of(
                a,
                n,
            ),
    ensures
        inserting(c, order, h1, ins, u, pos + 1, a.len() as int),
{
    let k = a.len() as int;
    let q = u.take(pos + 1);
    assert(u.take(pos).push(u[pos]) =~= q);
    assert(path_of(c, k) == q);
    assert(count_where(ins, starts_with(q)) == 0) by {
        if count_where(ins, starts_with(q)) > 0 {
            lemma_count_positive(ins, starts_with(q));
            let i = choose|i: int| 0 <= i < ins.len() && starts_with(q)(#[trigger] ins[i]);
            assert(q.is_prefix_of(ins[i]));
            assert(ins[i].take(pos + 1) =~= q);
            assert(covered(a, ins[i], ins[i].len() as int));
            assert(has_path(a, ins[i].take(pos + 1)));
            let n = choose|n: int| 1 <= n < a.len() && #[trigger] path_of(a, n) == q;
            assert(path_of(c, n) == path_of(c, k));
        }
    }
    assert forall|n: int| 1 <= n < c.len() implies #[trigger] counted(
        c,
        ins,
        u.take(pos + 1),
        n,
    ) by {
        if n < k {
            assert(counted(a, ins, u.take(pos), n));
            lemma_prefix_take_succ(path_of(a, n), u, pos);
            assert(path_of(c, n) == path_of(a, n));
            if path_of(a, n) == q {
                assert(path_of(c, n) == path_of(c, k));
            }
        } else {
            assert(q.is_prefix_of(q));
        }
    }
    assert forall|n: int| 0 <= n < a.len() implies #[trigger] path_of(c, n) == path_of(a, n) by {
        assert(c[n].count == a[n].count);
    }
    lemma_covered_extends(a, c, ins);
    assert forall|m: int| 1 <= m <= pos + 1 implies has_path(c, #[trigger] u.take(m)) by {
        if m <= pos {
            lemma_has_path_extends(a, c, u.take(m));
        } else {
            assert(path_of(c, k) == u.take(m));
        }
    }
}

/// Node `n` of the arena `a` as it stands in `c` while a sequence is being
/// inserted of which `done` has been followed: it keeps its item, parent
/// and path, its child list has grown at the end at most, a link that it
/// had is unchanged, and its count has gone up by one exactly if its
/// non-empty path is a prefix of `done`.
pub open spec fn kept(a: Seq<FPNode>, c: Seq<FPNode>, done: Seq<i32>, n: int) -> bool {
    &&& c[n].value == a[n].value
    &&& c[n].parent == a[n].parent
    &&& path_of(c, n) == path_of(a, n)
    &&& a[n].children@.is_prefix_of(c[n].children@)
    &&& (a[n].link.is_some() ==> c[n].link == a[n].link)
    &&& c[n].count == a[n].count + if path_of(a, n).len() >= 1 && path_of(a, n).is_prefix_of(
        done,
    ) {
        1int
    } else {
        0int
    }
}

/// Node `n` was created for the sequence of which `done` has been
/// followed: it has count 1, and its path is a non-empty prefix of `done`.
pub open spec fn fresh(c: Seq<FPNode>, done: Seq<i32>, n: int) -> bool {
    &&& c[n].count == 1
    &&& path_of(c, n).len() >= 1
    &&& path_of(c, n).is_prefix_of(done)
}

/// The arena `c` with the header table `h1` has grown out of `a` with
/// `h0` by following `done`: the nodes of `a` are kept, the nodes behind
/// them are fresh and stand in order of depth, and a header entry that
/// was there is unchanged.
pub open spec fn grown_from(
    a: Seq<FPNode>,
    h0: Seq<Option<usize>>,
    c: Seq<FPNode>,
    h1: Seq<Option<usize>>,
    done: Seq<i32>,
) -> bool {
    &&& a.len() <= c.len()
    &&& h1.len() == h0.len()
    &&& forall|n: int| 0 <= n < a.len() ==> #[trigger] kept(a, c, done, n)
    &&& forall|n: int| a.len() <= n < c.len() ==> #[trigger] fresh(c, done, n)
    &&& forall|n: int, m: int|
        #![trigger path_of(c, n), path_of(c, m)]
        a.len() <= n < m < c.len() ==> path_of(c, n).len() < path_of(c, m).len()
    &&& forall|r: int| 0 <= r < h0.len() && (#[trigger] h0[r]).is_some() ==> h1[r] == h0[r]
}

/// Before anything has been followed, the arena has grown out of itself.
pub proof fn lemma_grow_begin(a: Seq<FPNode>, h: Seq<Option<usize>>)
    ensures
        grown_from(a, h, a, h, Seq::empty()),
{
    assert forall|n: int| 0 <= n < a.len() implies #[trigger] kept(a, a, Seq::empty(), n) by {
        assert(a[n].children@.is_prefix_of(a[n].children@));
    }
}

/// Counting an existing child once more keeps the growth, one item further.
pub proof fn lemma_grow_bump(
    a0: Seq<FPNode>,
    h0: Seq<Option<usize>>,
    a: Seq<FPNode>,
    h: Seq<Option<usize>>,
    c: Seq<FPNode>,
    u: Seq<i32>,
    pos: int,
    x: int,
)
    requires
        grown_from(a0, h0, a, h, u.take(pos)),
        structure_ok(a),
        0 <= pos < u.len(),
        1 <= x < a.len(),
        path_of(a, x) == u.take(pos + 1),
        c.len() == a.len(),
        forall|n: int|
            0 <= n < a.len() ==> {
                &&& (#[trigger] c[n]).value == a[n].value
                &&& c[n].parent == a[n].parent
                &&& c[n].link == a[n].link
                &&& c[n].children == a[n].children
                &&& c[n].count == if n == x { a[n].count + 1 } else { a[n].count as int }
            },
    ensures
        grown_from(a0, h0, c, h, u.take(pos + 1)),
        x < a0.len(),
{
    let d0 = u.take(pos);
    let d1 = u.take(pos + 1);
    lemma_path_frame_all(a, c);
    if x >= a0.len() {
        assert(fresh(a, d0, x));
    }
    assert forall|n: int| 0 <= n < a0.len() implies #[trigger] kept(a0, c, d1, n) by {
        assert(kept(a0, a, d0, n));
        lemma_prefix_take_succ(path_of(a0, n), u, pos);
        assert(path_of(c, n) == path_of(a, n));
        if path_of(a0, n) == d1 {
            assert(path_of(a, n) == path_of(a, x));
        }
        if n == x {
            assert(d1.is_prefix_of(d1));
        }
    }
    assert forall|n: int| a0.len() <= n < c.len() implies #[trigger] fresh(c, d1, n) by {
        assert(fresh(a, d0, n));
        assert(path_of(c, n) == path_of(a, n));
        lemma_prefix_take_succ(path_of(a, n), u, pos);
    }
    assert forall|n: int, m: int|
        #![trigger path_of(c, n), path_of(c, m)]
        a0.len() <= n < m < c.len() implies path_of(c, n).len() < path_of(c, m).len() by {
        assert(path_of(c, n) == path_of(a, n));
        assert(path_of(c, m) == path_of(a, m));
        assert(path_of(a, n).len() < path_of(a, m).len());
    }
}

/// Attaching a new child keeps the growth, one item further.
pub proof fn lemma_grow_attach(
    a0: Seq<FPNode>,
    h0: Seq<Option<usize>>,
    a: Seq<FPNode>,
    h: Seq<Option<usize>>,
    c: Seq<FPNode>,
    h1: Seq<Option<usize>>,
    u: Seq<i32>,
    pos: int,
)
    requires
        grown_from(a0, h0, a, h, u.take(pos)),
        structure_ok(c),
        0 <= pos < u.len(),
        c.len() == a.len() + 1,
        c[a.len() as int].count == 1,
        path_of(c, a.len() as int) == u.take(pos + 1),
        forall|n: int|
            0 <= n < a.len() ==> {
                &&& (#[trigger] c[n]).count == a[n].count
                &&& c[n].value == a[n].value
                &&& c[n].parent == a[n].parent
                &&& path_of(c, n) == path_of(a, n)
                &&& a[n].children@.is_prefix_of(c[n].children@)
                &&& (a[n].link.is_some() ==> c[n].link == a[n].link)
            },
        h1.len() == h.len(),
        forall|r: int| 0 <= r < h.len() && (#[trigger] h[r]).is_some() ==> h1[r] == h[r],
    ensures
        grown_from(a0, h0, c, h1, u.take(pos + 1)),
{
    let d0 = u.take(pos);
    let d1 = u.take(pos + 1);
    let k = a.len() as int;
    assert forall|n: int| 0 <= n < a0.len() implies #[trigger] kept(a0, c, d1, n) by {
        assert(kept(a0, a, d0, n));
        assert(c[n].count == a[n].count);
        lemma_prefix_take_succ(path_of(a0, n), u, pos);
        if path_of(a0, n) == d1 {
            assert(path_of(c, n) == path_of(c, k));
        }
        let k0 = a0[n].children@;
        let k1 = a[n].children@;
        let k2 = c[n].children@;
        assert(k0.is_prefix_of(k2)) by {
            assert(k0 =~= k1.subrange(0, k0.len() as int));
            assert(k1 =~= k2.subrange(0, k1.len() as int));
            assert(k0 =~= k2.subrange(0, k0.len() as int));
        }
    }
    assert forall|n: int| a0.len() <= n < c.len() implies #[trigger] fresh(c, d1, n) by {
        if n < k {
            assert(fresh(a, d0, n));
            assert(c[n].count == a[n].count);
            lemma_prefix_take_succ(path_of(a, n), u, pos);
        } else {
            assert(d1.is_prefix_of(d1));
        }
    }
    assert forall|n: int, m: int|
        #![trigger path_of(c, n), path_of(c, m)]
        a0.len() <= n < m < c.len() implies path_of(c, n).len() < path_of(c, m).len() by {
        assert(c[n].count == a[n].count);
        assert(fresh(a, d0, n));
        if m < k {
            assert(c[m].count == a[m].count);
            assert(path_of(a, n).len() < path_of(a, m).len());
        }
    }
    assert forall|r: int| 0 <= r < h0.len() && (#[trigger] h0[r]).is_some() implies h1[r]
        == h0[r] by {
        assert(h[r] == h0[r]);
    }
}

/// The position of the first sequence that starts with `q`; the number
/// of sequences if none does.
pub open spec fn first_start(ins: Seq<Seq<i32>>, q: Seq<i32>) -> int
    decreases ins.len(),
{
    if ins.len() == 0 {
        0
    } else {
        let f = first_start(ins.drop_last(), q);
        if f < ins.len() - 1 {
            f
        } else if q.is_prefix_of(ins.last()) {
            ins.len() - 1
        } else {
            ins.len() as int
        }
    }
}

/// `first_start` is the least position of a sequence that starts with `q`.
pub proof fn lemma_first_start(ins: Seq<Seq<i32>>, q: Seq<i32>)
    ensures
        0 <= first_start(ins, q) <= ins.len(),
        first_start(ins, q) < ins.len() ==> q.is_prefix_of(ins[first_start(ins, q)]),
        forall|j: int| 0 <= j < first_start(ins, q) ==> !q.is_prefix_of(#[trigger] ins[j]),
        first_start(ins, q) < ins.len() <==> count_where(ins, starts_with(q)) > 0,
    decreases ins.len(),
{
    if ins.len() > 0 {
        let e = ins.drop_last();
        lemma_first_start(e, q);
        let f = first_start(e, q);
        if f < e.len() {
            assert(e[f] == ins[f]);
        }
        assert forall|j: int| 0 <= j < first_start(ins, q) implies !q.is_prefix_of(
            #[trigger] ins[j],
        ) by {
            if j < e.len() {
                assert(e[j] == ins[j]);
            }
        }
    }
}

/// Node `n` was created before node `m`: the first sequence that starts
/// with its path comes earlier, or it is the same sequence and `n` lies
/// nearer to the root.
pub open spec fn created_before(nodes: Seq<FPNode>, ins: Seq<Seq<i32>>, n: int, m: int) -> bool {
    let f = first_start(ins, path_of(nodes, n));
    let g = first_start(ins, path_of(nodes, m));
    f < g || (f == g && path_of(nodes, n).len() < path_of(nodes, m).len())
}

/// The nodes below the root are numbered in order of creation.
pub open spec fn creation_ok(nodes: Seq<FPNode>, ins: Seq<Seq<i32>>) -> bool {
    forall|n: int, m: int| 1 <= n < m < nodes.len() ==> #[trigger] created_before(nodes, ins, n, m)
}

/// After the insertion of `u`, the nodes are still numbered in order of
/// creation: the new ones come behind the old ones, in order of depth.
pub proof fn lemma_creation_grows(
    a: Seq<FPNode>,
    h0: Seq<Option<usize>>,
    c: Seq<FPNode>,
    h1: Seq<Option<usize>>,
    ins: Seq<Seq<i32>>,
    u: Seq<i32>,
)
    requires
        a.len() >= 1,
        counts_ok(a, ins),
        counts_ok(c, ins.push(u)),
        creation_ok(a, ins),
        grown_from(a, h0, c, h1, u),
    ensures
        creation_ok(c, ins.push(u)),
{
    let ins2 = ins.push(u);
    assert(ins2.drop_last() =~= ins);
    assert forall|n: int, m: int| 1 <= n < m < c.len() implies #[trigger] created_before(
        c,
        ins2,
        n,
        m,
    ) by {
        let pn = path_of(c, n);
        let pm = path_of(c, m);
        lemma_first_start(ins, pn);
        lemma_first_start(ins, pm);
        if m < a.len() {
            assert(kept(a, c, u, n) && kept(a, c, u, m));
            assert(counted(a, ins, Seq::empty(), n));
            assert(counted(a, ins, Seq::empty(), m));
            assert(created_before(a, ins, n, m));
        } else {
            assert(fresh(c, u, m));
            assert(counted(c, ins2, Seq::empty(), m));
            lemma_count_push(ins, u, starts_with(pm));
            assert(first_start(ins2, pm) == ins.len());
            if n < a.len() {
                assert(kept(a, c, u, n));
                assert(counted(a, ins, Seq::empty(), n));
            } else {
                assert(fresh(c, u, n));
                assert(counted(c, ins2, Seq::empty(), n));
                lemma_count_push(ins, u, starts_with(pn));
                assert(first_start(ins2, pn) == ins.len());
                assert(pn.len() < pm.len());
            }
        }
    }
}

/// A new last node for the item `v` below `cur`, entered in the child list
/// of `cur` and at the end of the chain of `v`, keeps the tree and its
/// chains in order, and leaves every older path as it was.
pub proof fn lemma_attach(
    a: Seq<FPNode>,
    c: Seq<FPNode>,
    order: Seq<i32>,
    h0: Seq<Option<usize>>,
    h1: Seq<Option<usize>>,
    cur: usize,
    k: usize,
    v: i32,
    r: int,
    tail: Option<usize>,
)
    requires
        structure_ok(a),
        links_ok(a, order, h0),
        k == a.len(),
        c.len() == k + 1,
        cur < k,
        0 <= r < order.len(),
        order[r] == v,
        forall|m: int|
            1 <= m < a.len() && (#[trigger] a[m]).parent == Some(cur) ==> a[m].value != Some(v),
        c[k as int].value == Some(v),
        c[k as int].parent == Some(cur),
        c[k as int].link.is_none(),
        c[k as int].children@.len() == 0,
        forall|n: int|
            0 <= n < k ==> {
                &&& (#[trigger] c[n]).value == a[n].value
                &&& c[n].parent == a[n].parent
                &&& c[n].children@ == (if n == cur {
                    a[n].children@.push(k)
                } else {
                    a[n].children@
                })
                &&& c[n].link == (if tail.is_some() && tail.unwrap() == n {
                    Some(k)
                } else {
                    a[n].link
                })
            },
        match h0[r] {
            None => tail.is_none() && h1 == h0.update(r, Some(k)),
            Some(h) => {
                &&& h1 == h0
                &&& tail.is_some()
                &&& 1 <= tail.unwrap() < k
                &&& a[tail.unwrap() as int].value == Some(v)
                &&& a[tail.unwrap() as int].link.is_none()
            },
        },
    ensures
        structure_ok(c),
        links_ok(c, order, h1),
        path_of(c, k as int) == path_of(a, cur as int).push(v),
        forall|n: int| 0 <= n < k ==> #[trigger] path_of(c, n) == path_of(a, n),
{
    let ki = k as int;
    lemma_path_frame_all(a, c);
    assert(path_of(c, ki) == path_of(c, cur as int).push(v));
    assert forall|n: int| 1 <= n < c.len() implies #[trigger] child_ok(c, n) by {
        if n < ki {
            assert(child_ok(a, n));
            let p = a[n].parent.unwrap() as int;
            let j = choose|j: int| 0 <= j < a[p].children@.len() && a[p].children@[j] == n as usize;
            assert(c[p].children@[j] == n as usize);
        } else {
            assert(c[cur as int].children@[a[cur as int].children@.len() as int] == k);
        }
    }
    assert forall|p: int, i: int|
        0 <= p < c.len() && 0 <= i < c[p].children@.len() implies #[trigger] listed_ok(c, p, i) by {
        if p < ki {
            if i < a[p].children@.len() {
                assert(listed_ok(a, p, i));
                assert(c[p].children@[i] == a[p].children@[i]);
            }
        }
    }
    assert forall|p: int| 0 <= p < c.len() implies #[trigger] kids_distinct(c, p) by {
        if p < ki {
            assert(kids_distinct(a, p));
            if p == cur {
                let old_kids = a[p].children@;
                let kids = c[p].children@;
                assert forall|i: int, j: int|
                    0 <= i < kids.len() && 0 <= j < kids.len() && i != j implies kids[i]
                    != kids[j] by {
                    if i < old_kids.len() {
                        assert(listed_ok(a, p, i));
                        assert(kids[i] == old_kids[i]);
                    }
                    if j < old_kids.len() {
                        assert(listed_ok(a, p, j));
                        assert(kids[j] == old_kids[j]);
                    }
                }
            }
        }
    }
    assert forall|n: int, m: int|
        #![trigger path_of(c, n), path_of(c, m)]
        0 <= n < c.len() && 0 <= m < c.len() && path_of(c, n) == path_of(c, m) implies n == m by {
        if n < ki && m < ki {
            assert(path_of(a, n) == path_of(a, m));
        } else if n != m {
            let o = if n < ki { n } else { m };
            assert(path_of(c, o) == path_of(a, o));
            assert(path_of(a, o) == path_of(a, cur as int).push(v));
            if o >= 1 {
                lemma_path_nonempty(a, o);
                let po = a[o].parent.unwrap() as int;
                let vo = a[o].value.unwrap();
                let lhs = path_of(a, po).push(vo);
                let rhs = path_of(a, cur as int).push(v);
                assert(lhs.drop_last() =~= path_of(a, po));
                assert(rhs.drop_last() =~= path_of(a, cur as int));
                assert(lhs.last() == vo);
                assert(rhs.last() == v);
                assert(child_ok(a, o));
                assert(path_of(a, po) == path_of(a, cur as int));
                assert(po == cur);
            }
        }
    }
    assert forall|n: int| 1 <= n < c.len() implies #[trigger] linked_ok(c, order, n) by {
        if n < ki {
            assert(linked_ok(a, order, n));
            let w = a[n].value.unwrap();
            if w == v && a[n].link.is_none() {
                assert(is_next(a, v, 1, h0[r]));
                match h0[r] {
                    None => {
                        assert(a[n].value != Some(v));
                    },
                    Some(h) => {
                        let t = tail.unwrap() as int;
                        assert(linked_ok(a, order, t));
                        if n < t {
                            assert(a[t].value != Some(v));
                        }
                        if t < n {
                            assert(a[n].value != Some(v));
                        }
                    },
                }
            } else {
                if tail.is_some() && tail.unwrap() == n {
                    assert(is_next(a, v, 1, h0[r]));
                }
            }
        }
    }
    assert forall|q: int| 0 <= q < order.len() implies #[trigger] is_next(c, order[q], 1, h1[q]) by {
        assert(is_next(a, order[q], 1, h0[q]));
    }
}

/// Creates the child of `cur` for the item `v`, with count 1, and appends
/// it to the chain of `v` by walking the chain to its last node.
pub fn attach_child(
    nodes: &mut Vec<FPNode>,
    headers: &mut Vec<Option<usize>>,
    frequent: &Vec<(i32, usize)>,
    cur: usize,
    v: i32,
) -> (k: usize)
    requires
        structure_ok(old(nodes)@),
        links_ok(old(nodes)@, table_items(frequent@), old(headers)@),
        cur < old(nodes).len(),
        table_items(frequent@).contains(v),
        forall|m: int|
            1 <= m < old(nodes).len() && (#[trigger] old(nodes)[m]).parent == Some(cur) ==> old(nodes)[m].value != Some(v),
    ensures
        k == old(nodes).len(),
        final(nodes).len() == k + 1,
        structure_ok(final(nodes)@),
        links_ok(final(nodes)@, table_items(frequent@), final(headers)@),
        final(nodes)[k as int].count == 1,
        final(nodes)[k as int].value == Some(v),
        final(nodes)[k as int].parent == Some(cur),
        path_of(final(nodes)@, k as int) == path_of(old(nodes)@, cur as int).push(v),
        final(nodes)[k as int].link.is_none(),
        final(nodes)[k as int].children@.len() == 0,
        forall|n: int|
            0 <= n < k ==> {
                &&& (#[trigger] final(nodes)[n]).count == old(nodes)[n].count
                &&& final(nodes)[n].value == old(nodes)[n].value
                &&& final(nodes)[n].parent == old(nodes)[n].parent
                &&& path_of(final(nodes)@, n) == path_of(old(nodes)@, n)
                &&& final(nodes)[n].children@ == (if n == cur {
                    old(nodes)[n].children@.push(k)
                } else {
                    old(nodes)[n].children@
                })
                &&& (old(nodes)[n].link.is_some() ==> final(nodes)[n].link == old(nodes)[n].link)
                &&& (old(nodes)[n].link.is_none() ==> final(nodes)[n].link.is_none() || final(nodes)[n].link == Some(k))
            },
        final(headers).len() == old(headers).len(),
        forall|r: int|
            0 <= r < old(headers).len() ==> {
                &&& ((#[trigger] old(headers)[r]).is_some() ==> final(headers)[r] == old(headers)[r])
                &&& (old(headers)[r].is_none() ==> final(headers)[r].is_none() || final(headers)[r] == Some(k))
            },
{
    let ghost a = nodes@;
    let ghost h0 = headers@;
    let ghost order = table_items(frequent@);
    let k = nodes.len();
    nodes.push(FPNode::new(Some(v), 1, Some(cur)));
    let n1 = nodes.len();
    nodes[cur].children.push(k);
    let ghost b = nodes@;
    let r = rank_of(frequent, v);
    assert(order[r as int] == v);
    let ghost mut tail: Option<usize> = None;
    match headers[r] {
        None => {
            headers[r] = Some(k);
        },
        Some(h) => {
            assert(is_next(a, v, 1, h0[r as int]));
            let mut t = h;
            while nodes[t].link.is_some()
                invariant
                    nodes@ == b,
                    k == a.len(),
                    b.len() == k + 1,
                    1 <= t < k,
                    a[t as int].value == Some(v),
                    links_ok(a, order, h0),
                    forall|n: int| 0 <= n < k ==> (#[trigger] b[n]).link == a[n].link,
                decreases k - t,
            {
                assert(linked_ok(a, order, t as int));
                t = nodes[t].link.unwrap();
            }
            nodes[t].link = Some(k);
            proof {
                tail = Some(t);
            }
        },
    }
    proof {
        lemma_attach(a, nodes@, order, h0, headers@, cur, k, v, r as int, tail);
    }
    k
}

/// The item of an optional (item, count) pair.
pub open spec fn root_value(root: Option<(i32, usize)>) -> Option<i32> {
    match root {
        Some(r) => Some(r.0),
        None => None,
    }
}

/// The count of an optional (item, count) pair, zero if there is none.
pub open spec fn root_count(root: Option<(i32, usize)>) -> usize {
    match root {
        Some(r) => r.1,
        None => 0,
    }
}

/// From node `n` down, every node has at most one child.
pub open spec fn single_path_from(nodes: Seq<FPNode>, n: int) -> bool
    decreases nodes.len() - n,
{
    if 0 <= n < nodes.len() {
        let kids = nodes[n].children@;
        if kids.len() == 0 {
            true
        } else if kids.len() == 1 && n < kids[0] < nodes.len() {
            single_path_from(nodes, kids[0] as int)
        } else {
            false
        }
    } else {
        false
    }
}

/// A compressed prefix tree with its frequency table and header table.
/// The table `frequent` is in tree order; `headers` runs parallel to it;
/// `nodes[0]` is the root. The tree remembers the threshold and, as ghost
/// state, the transactions it was built from.
pub struct FPTree {
    pub frequent: Vec<(i32, usize)>,
    pub headers: Vec<Option<usize>>,
    pub nodes: Vec<FPNode>,
    pub source: Ghost<Seq<Seq<i32>>>,
    pub threshold: usize,
}

impl FPTree {
    /// The frequent items in tree order.
    pub open spec fn order(&self) -> Seq<i32> {
        table_items(self.frequent@)
    }

    /// The tree was built from the transactions `d` with the threshold
    /// `min` under the given root: its table is their frequency table, and
    /// its nodes hold the projections of the transactions, counted, chained
    /// and numbered in order of creation.
    pub open spec fn represents(&self, d: Seq<Seq<i32>>, min: nat, root: Option<(i32, usize)>) -> bool {
        &&& is_frequency_table(d, min, self.frequent@)
        &&& structure_ok(self.nodes@)
        &&& links_ok(self.nodes@, self.order(), self.headers@)
        &&& counts_ok(self.nodes@, projections(d, self.order()))
        &&& creation_ok(self.nodes@, projections(d, self.order()))
        &&& self.nodes[0].value == root_value(root)
        &&& self.nodes[0].count == root_count(root)
    }

    /// The tree represents the transactions it remembers, under its own root.
    pub open spec fn wf(&self) -> bool {
        &&& self.represents(self.source@, self.threshold as nat, self.root())
        &&& self.source@.len() <= usize::MAX
    }

    /// Builds the tree of the transactions: counts the items, keeps the
    /// frequent ones, and inserts each transaction's frequent items in
    /// order of descending frequency. With a root, the root node carries
    /// the given item and count.
    pub fn new(
        transactions: &Vec<Vec<i32>>,
        min_support_count: usize,
        root: Option<(i32, usize)>,
    ) -> (tree: FPTree)
        ensures
            tree.wf(),
            tree.source@ == rows(transactions@),
            tree.threshold == min_support_count,
            tree.root() == root,
            tree.represents(rows(transactions@), min_support_count as nat, root),
    {
        let frequent = find_frequent_items(transactions, min_support_count);
        proof {
            lemma_table_items_distinct(
                rows(transactions@),
                min_support_count as nat,
                frequent@,
            );
        }
        let mut headers = Self::build_header_table(&frequent);
        let nodes = Self::build_fptree(transactions, root, &frequent, &mut headers);
        proof {
            assert(rows(transactions@).len() == transactions.len());
        }
        FPTree {
            frequent,
            headers,
            nodes,
            source: Ghost(rows(transactions@)),
            threshold: min_support_count,
        }
    }

    /// A header table with no node yet for any item.
    pub fn build_header_table(frequent: &Vec<(i32, usize)>) -> (headers: Vec<Option<usize>>)
        ensures
            headers.len() == frequent.len(),
            forall|r: int| 0 <= r < headers.len() ==> (#[trigger] headers[r]).is_none(),
    {
        let mut headers: Vec<Option<usize>> = Vec::new();
        let mut i: usize = 0;
        while i < frequent.len()
            invariant
                i <= frequent.len(),
                headers.len() == i,
                forall|r: int| 0 <= r < headers.len() ==> (#[trigger] headers[r]).is_none(),
            decreases frequent.len() - i,
        {
            headers.push(None);
            i += 1;
        }
        headers
    }

    /// Creates the root and inserts the projection of every transaction.
    pub fn build_fptree(
        transactions: &Vec<Vec<i32>>,
        root: Option<(i32, usize)>,
        frequent: &Vec<(i32, usize)>,
        headers: &mut Vec<Option<usize>>,
    ) -> (nodes: Vec<FPNode>)
        requires
            table_items(frequent@).no_duplicates(),
            old(headers).len() == frequent.len(),
            forall|r: int| 0 <= r < old(headers).len() ==> (#[trigger] old(headers)[r]).is_none(),
        ensures
            structure_ok(nodes@),
            links_ok(nodes@, table_items(frequent@), final(headers)@),
            counts_ok(nodes@, projections(rows(transactions@), table_items(frequent@))),
            creation_ok(nodes@, projections(rows(transactions@), table_items(frequent@))),
            nodes[0].value == root_value(root),
            nodes[0].count == root_count(root),
    {
        let ghost d = rows(transactions@);
        let ghost order = table_items(frequent@);
        let ghost all = projections(d, order);
        let mut nodes: Vec<FPNode> = Vec::new();
        match root {
            Some(r) => {
                nodes.push(FPNode::new(Some(r.0), r.1, None));
            },
            None => {
                nodes.push(FPNode::new(None, 0, None));
            },
        }
        proof {
            assert forall|r: int| 0 <= r < order.len() implies #[trigger] is_next(
                nodes@,
                order[r],
                1,
                headers@[r],
            ) by {}
            assert(all.take(0) =~= Seq::empty());
        }
        let mut i: usize = 0;
        while i < transactions.len()
            invariant
                i <= transactions.len(),
                d == rows(transactions@),
                order == table_items(frequent@),
                all == projections(d, order),
                structure_ok(nodes@),
                links_ok(nodes@, order, headers@),
                counts_ok(nodes@, all.take(i as int)),
                creation_ok(nodes@, all.take(i as int)),
                nodes[0].value == root_value(root),
                nodes[0].count == root_count(root),
            decreases transactions.len() - i,
        {
            let freq_items = project(&transactions[i], frequent);
            proof {
                lemma_projection_in_order(order, d[i as int]);
                assert(all.take(i + 1) =~= all.take(i as int).push(freq_items@));
            }
            Self::insert_tree(&freq_items, &mut nodes, headers, frequent, Ghost(all.take(i as int)));
            i += 1;
        }
        proof {
            assert(all.take(transactions.len() as int) =~= all);
        }
        nodes
    }

    /// Inserts one sequence of items below the root: along an existing path
    /// the counts go up by one; where the path ends, new nodes are created,
    /// each as the last child of its parent and the last node of its item's
    /// chain. Every other node stays as it is, and an empty sequence changes
    /// nothing.
    fn insert_tree(
        items: &Vec<i32>,
        nodes: &mut Vec<FPNode>,
        headers: &mut Vec<Option<usize>>,
        frequent: &Vec<(i32, usize)>,
        Ghost(ins): Ghost<Seq<Seq<i32>>>,
    )
        requires
            structure_ok(old(nodes)@),
            links_ok(old(nodes)@, table_items(frequent@), old(headers)@),
            counts_ok(old(nodes)@, ins),
            creation_ok(old(nodes)@, ins),
            holds_all(table_items(frequent@), items@),
            ins.len() < usize::MAX,
        ensures
            structure_ok(final(nodes)@),
            links_ok(final(nodes)@, table_items(frequent@), final(headers)@),
            counts_ok(final(nodes)@, ins.push(items@)),
            creation_ok(final(nodes)@, ins.push(items@)),
            final(nodes)[0].value == old(nodes)[0].value,
            final(nodes)[0].count == old(nodes)[0].count,
            final(nodes).len() >= old(nodes).len(),
            final(headers).len() == old(headers).len(),
            forall|n: int|
                0 <= n < old(nodes).len() ==> {
                    &&& (#[trigger] final(nodes)[n]).value == old(nodes)[n].value
                    &&& final(nodes)[n].parent == old(nodes)[n].parent
                    &&& path_of(final(nodes)@, n) == path_of(old(nodes)@, n)
                    &&& old(nodes)[n].children@.is_prefix_of(final(nodes)[n].children@)
                    &&& (old(nodes)[n].link.is_some() ==> final(nodes)[n].link == old(nodes)[n].link)
                    &&& final(nodes)[n].count == old(nodes)[n].count + if path_of(
                        old(nodes)@,
                        n,
                    ).len() >= 1 && path_of(old(nodes)@, n).is_prefix_of(items@) {
                        1int
                    } else {
                        0int
                    }
                },
            forall|n: int|
                old(nodes).len() <= n < final(nodes).len() ==> {
                    &&& (#[trigger] final(nodes)[n]).count == 1
                    &&& path_of(final(nodes)@, n).len() >= 1
                    &&& path_of(final(nodes)@, n).is_prefix_of(items@)
                },
            forall|n: int, m: int|
                #![trigger path_of(final(nodes)@, n), path_of(final(nodes)@, m)]
                old(nodes).len() <= n < m < final(nodes).len() ==> path_of(final(nodes)@, n).len()
                    < path_of(final(nodes)@, m).len(),
            forall|r: int|
                0 <= r < old(headers).len() && (#[trigger] old(headers)[r]).is_some() ==> final(headers)[r] == old(headers)[r],
            items@.len() == 0 ==> final(nodes)@ == old(nodes)@ && final(headers)@ == old(headers)@,
    {
        let ghost order = table_items(frequent@);
        let ghost u = items@;
        let ghost a0 = nodes@;
        let ghost h00 = headers@;
        let mut cur: usize = 0;
        let mut pos: usize = 0;
        proof {
            lemma_insert_begin(nodes@, order, headers@, ins, u);
            lemma_grow_begin(a0, h00);
            assert(u.take(0) =~= Seq::empty());
        }
        while pos < items.len()
            invariant
                pos <= items.len(),
                u == items@,
                order == table_items(frequent@),
                holds_all(order, u),
                ins.len() < usize::MAX,
                inserting(nodes@, order, headers@, ins, u, pos as int, cur as int),
                a0 == old(nodes)@,
                h00 == old(headers)@,
                grown_from(a0, h00, nodes@, headers@, u.take(pos as int)),
                pos == 0 ==> nodes@ == a0 && headers@ == h00,
            decreases items.len() - pos,
        {
            let v = items[pos];
            let ghost a = nodes@;
            let ghost h0 = headers@;
            match find_child(nodes, cur, v) {
                Some(c) => {
                    proof {
                        lemma_bump_bound(a, order, h0, ins, u, pos as int, cur, c);
                    }
                    nodes[c].count = nodes[c].count + 1;
                    proof {
                        lemma_step_bump(a, nodes@, order, h0, ins, u, pos as int, cur, c);
                        lemma_grow_bump(a0, h00, a, h0, nodes@, u, pos as int, c as int);
                    }
                    cur = c;
                },
                None => {
                    assert(order.contains(u[pos as int]));
                    let k = attach_child(nodes, headers, frequent, cur, v);
                    proof {
                        lemma_step_attach(a, nodes@, order, h0, headers@, ins, u, pos as int, cur as int);
                        assert(u.take(pos as int).push(u[pos as int]) =~= u.take(pos + 1));
                        assert forall|n: int| 0 <= n < a.len() implies a[n].children@.is_prefix_of(
                            (#[trigger] nodes@[n]).children@,
                        ) by {
                            let k0 = a[n].children@;
                            assert(k0 =~= nodes@[n].children@.subrange(0, k0.len() as int));
                        }
                        lemma_grow_attach(a0, h00, a, h0, nodes@, headers@, u, pos as int);
                    }
                    cur = k;
                },
            }
            pos += 1;
        }
        proof {
            lemma_insert_end(nodes@, order, headers@, ins, u, cur as int);
            assert(u.take(u.len() as int) =~= u);
            lemma_creation_grows(a0, h00, nodes@, headers@, ins, u);
            assert forall|n: int| 0 <= n < a0.len() implies {
                &&& (#[trigger] nodes@[n]).value == a0[n].value
                &&& nodes@[n].parent == a0[n].parent
                &&& path_of(nodes@, n) == path_of(a0, n)
                &&& a0[n].children@.is_prefix_of(nodes@[n].children@)
                &&& (a0[n].link.is_some() ==> nodes@[n].link == a0[n].link)
                &&& nodes@[n].count == a0[n].count + if path_of(a0, n).len() >= 1 && path_of(
                    a0,
                    n,
                ).is_prefix_of(u) {
                    1int
                } else {
                    0int
                }
            } by {
                assert(kept(a0, nodes@, u, n));
            }
            assert forall|n: int| a0.len() <= n < nodes@.len() implies {
                &&& (#[trigger] nodes@[n]).count == 1
                &&& path_of(nodes@, n).len() >= 1
                &&& path_of(nodes@, n).is_prefix_of(u)
            } by {
                assert(fresh(nodes@, u, n));
            }
            assert(kept(a0, nodes@, u, 0));
        }
    }

    /// Whether the tree below `node` is a single path: every node down to
    /// a leaf has at most one child.
    pub fn tree_has_single_path(&self, node: usize) -> (b: bool)
        requires
            structure_ok(self.nodes@),
            node < self.nodes.len(),
        ensures
            b == single_path_from(self.nodes@, node as int),
    {
        let mut cur = node;
        loop
            invariant
                structure_ok(self.nodes@),
                cur < self.nodes.len(),
                single_path_from(self.nodes@, node as int) == single_path_from(
                    self.nodes@,
                    cur as int,
                ),
            decreases self.nodes.len() - cur,
        {
            let n = self.nodes[cur].children.len();
            if n == 0 {
                return true;
            } else if n == 1 {
                assert(listed_ok(self.nodes@, cur as int, 0));
                cur = self.nodes[cur].children[0];
            } else {
                return false;
            }
        }
    }

    /// The root's item with the root's count, if the root has an item.
    pub open spec fn root(&self) -> Option<(i32, usize)> {
        match self.nodes[0].value {
            Some(v) => Some((v, self.nodes[0].count)),
            None => None,
        }
    }

    /// The nodes that hold the item at position `r` of the table, as
    /// reached from the header table along the links: in ascending order,
    /// which in a tree built by `new` is the order of their creation.
    pub fn header_chain(&self, r: usize) -> (chain: Vec<usize>)
        requires
            links_ok(self.nodes@, self.order(), self.headers@),
            r < self.frequent.len(),
        ensures
            increasing(chain@),
            forall|n: usize|
                #[trigger] chain@.contains(n) <==> (1 <= n < self.nodes.len() && self.nodes[n as int].value
                    == Some(self.frequent[r as int].0)),
    {
        let ghost nodes = self.nodes@;
        let ghost v = self.frequent[r as int].0;
        let mut chain: Vec<usize> = Vec::new();
        let mut next: Option<usize> = self.headers[r];
        let ghost mut lower: int = 1;
        proof {
            assert(self.order()[r as int] == v);
            assert(is_next(nodes, self.order()[r as int], 1, self.headers@[r as int]));
        }
        loop
            invariant
                nodes == self.nodes@,
                links_ok(nodes, self.order(), self.headers@),
                1 <= lower,
                is_next(nodes, v, lower, next),
                increasing(chain@),
                forall|i: int| 0 <= i < chain.len() ==> (#[trigger] chain[i]) < lower,
                forall|n: usize|
                    #[trigger] chain@.contains(n) <==> (1 <= n < lower && n < nodes.len()
                        && nodes[n as int].value == Some(v)),
            ensures
                increasing(chain@),
                forall|n: usize|
                    #[trigger] chain@.contains(n) <==> (1 <= n < nodes.len() && nodes[n as int].value
                        == Some(v)),
            decreases nodes.len() - lower,
        {
            match next {
                None => {
                    break ;
                },
                Some(m) => {
                    let ghost before = chain@;
                    chain.push(m);
                    proof {
                        assert(linked_ok(nodes, self.order(), m as int));
                        assert forall|n: usize|
                            #[trigger] chain@.contains(n) <==> (1 <= n < m + 1 && n < nodes.len()
                                && nodes[n as int].value == Some(v)) by {
                            if chain@.contains(n) {
                                let i = choose|i: int| 0 <= i < chain.len() && chain[i] == n;
                                if i < before.len() {
                                    assert(before[i] == n);
                                    assert(before.contains(n));
                                }
                            }
                            if 1 <= n < m + 1 && n < nodes.len() && nodes[n as int].value == Some(v) {
                                if n < lower {
                                    assert(before.contains(n));
                                    let i = choose|i: int| 0 <= i < before.len() && before[i] == n;
                                    assert(chain[i] == n);
                                } else {
                                    assert(n == m);
                                    assert(chain[before.len() as int] == n);
                                }
                            }
                        }
                        assert forall|i: int, j: int| 0 <= i < j < chain.len() implies chain[i]
                            < chain[j] by {
                            if j < before.len() {
                                assert(before[i] < before[j]);
                            } else {
                                assert(chain[i] == before[i]);
                            }
                        }
                        lower = m + 1;
                    }
                    next = self.nodes[m].link;
                },
            }
        }
        chain
    }

    /// The items on the way from below the root down to the parent of node `n`.
    pub fn prefix_path(&self, n: usize) -> (path: Vec<i32>)
        requires
            structure_ok(self.nodes@),
            1 <= n < self.nodes.len(),
        ensures
            path@ == path_of(self.nodes@, self.nodes[n as int].parent.unwrap() as int),
    {
        let ghost nodes = self.nodes@;
        assert(child_ok(nodes, n as int));
        let start = self.nodes[n].parent.unwrap();
        let mut cur = start;
        let mut up: Vec<i32> = Vec::new();
        proof {
            assert(path_of(nodes, start as int) =~= path_of(nodes, cur as int) + up@.reverse());
        }
        while cur != 0
            invariant
                nodes == self.nodes@,
                structure_ok(nodes),
                cur < nodes.len(),
                path_of(nodes, start as int) == path_of(nodes, cur as int) + up@.reverse(),
            decreases cur,
        {
            let ghost before = up@;
            proof {
                lemma_path_nonempty(nodes, cur as int);
            }
            up.push(self.nodes[cur].value.unwrap());
            let above = self.nodes[cur].parent.unwrap();
            proof {
                let v = nodes[cur as int].value.unwrap();
                assert(up@.reverse() =~= seq![v] + before.reverse());
                assert(path_of(nodes, above as int).push(v) + before.reverse() =~= path_of(
                    nodes,
                    above as int,
                ) + (seq![v] + before.reverse()));
            }
            cur = above;
        }
        let path = reversed(&up);
        proof {
            assert(path_of(nodes, 0) =~= Seq::<i32>::empty());
            assert(path_of(nodes, start as int) =~= up@.reverse());
        }
        path
    }
}

/// The sequence in reverse order.
pub fn reversed(v: &Vec<i32>) -> (r: Vec<i32>)
    ensures
        r@ == v@.reverse(),
{
    let mut r: Vec<i32> = Vec::new();
    let mut i: usize = v.len();
    while i > 0
        invariant
            i <= v.len(),
            r.len() == v.len() - i,
            forall|j: int| 0 <= j < r.len() ==> r[j] == v[v.len() - 1 - j],
        decreases i,
    {
        i -= 1;
        r.push(v[i]);
    }
    assert(r@ =~= v@.reverse());
    r
}

} // verus!
