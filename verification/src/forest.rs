//! What makes the edges of a hierarchy a forest, and the subtrees of one.

use vstd::prelude::*;
use crate::hierarchy::ObjectView;
use crate::hierarchy::is_chain;
use crate::hierarchy::lemma_chain_bounded;
use crate::hierarchy::records_parent;

verus! {

/// `depth` gives every root the depth zero and every other object one more
/// than its parent, which it must have among the objects.
pub open spec fn is_depth_assignment(h: Seq<ObjectView>, depth: Seq<nat>) -> bool {
    &&& depth.len() == h.len()
    &&& forall|c: int|
        0 <= c < h.len() ==> match (#[trigger] h[c]).parent {
            None => depth[c] == 0,
            Some(p) => p < h.len() && depth[c] == depth[p as int] + 1,
        }
}

/// Every handle that an object lists as a child names an object that records
/// the lister as its parent.
pub open spec fn children_agree(h: Seq<ObjectView>) -> bool {
    forall|p: int, k: int|
        0 <= p < h.len() && 0 <= k < h[p].children.len() ==> {
            &&& (#[trigger] h[p].children[k]) < h.len()
            &&& records_parent(h, h[p].children[k] as int, p)
        }
}

/// No object lists a child twice.
pub open spec fn children_listed_once(h: Seq<ObjectView>) -> bool {
    forall|p: int, k: int, m: int|
        0 <= p < h.len() && 0 <= k < m < h[p].children.len() ==> #[trigger] h[p].children[k]
            != #[trigger] h[p].children[m]
}

/// Every object that records a parent is listed by it.
pub open spec fn parents_agree(h: Seq<ObjectView>) -> bool {
    forall|c: int|
        0 <= c < h.len() ==> match (#[trigger] h[c]).parent {
            None => true,
            Some(p) => p < h.len() && exists|k: int|
                0 <= k < h[p as int].children.len() && #[trigger] h[p as int].children[k] == c,
        }
}

/// The edges form a forest: each object with a parent occurs exactly once
/// among that parent's children, each listed child records the lister, and no
/// object is its own ancestor, which is to say that the objects can be laid
/// out in levels with each child one level below its parent. Every object has
/// a handle.
pub open spec fn is_forest(h: Seq<ObjectView>) -> bool {
    &&& h.len() <= usize::MAX
    &&& children_agree(h)
    &&& children_listed_once(h)
    &&& parents_agree(h)
    &&& exists|depth: Seq<nat>| is_depth_assignment(h, depth)
}

/// The ancestor of `n` at depth `level`, or `n` itself where it lies no deeper.
pub open spec fn ancestor_at(h: Seq<ObjectView>, depth: Seq<nat>, n: int, level: nat) -> int
    decreases depth[n],
{
    if depth[n] <= level {
        n
    } else {
        match h[n].parent {
            Some(p) => if depth[p as int] < depth[n] {
                ancestor_at(h, depth, p as int, level)
            } else {
                n
            },
            None => n,
        }
    }
}

/// `n` is `c` or lies below it.
pub open spec fn in_subtree(h: Seq<ObjectView>, depth: Seq<nat>, n: int, c: int) -> bool {
    &&& 0 <= n < h.len()
    &&& depth[c] <= depth[n]
    &&& ancestor_at(h, depth, n, depth[c]) == c
}

/// The ancestor at a level is an object of that level.
pub proof fn lemma_ancestor_at(h: Seq<ObjectView>, depth: Seq<nat>, n: int, level: nat)
    requires
        is_depth_assignment(h, depth),
        0 <= n < h.len(),
        level <= depth[n],
    ensures
        0 <= ancestor_at(h, depth, n, level) < h.len(),
        depth[ancestor_at(h, depth, n, level)] == level,
    decreases depth[n],
{
    if depth[n] > level {
        assert(h[n].parent is Some);
        let p = h[n].parent.unwrap() as int;
        lemma_ancestor_at(h, depth, p, level);
    }
}

/// Going up to a level and from there to a higher one is going up to the
/// higher one.
pub proof fn lemma_ancestor_twice(h: Seq<ObjectView>, depth: Seq<nat>, n: int, level: nat, higher: nat)
    requires
        is_depth_assignment(h, depth),
        0 <= n < h.len(),
        higher <= level <= depth[n],
    ensures
        ancestor_at(h, depth, ancestor_at(h, depth, n, level), higher) == ancestor_at(
            h,
            depth,
            n,
            higher,
        ),
    decreases depth[n],
{
    if depth[n] > level {
        assert(h[n].parent is Some);
        let p = h[n].parent.unwrap() as int;
        lemma_ancestor_twice(h, depth, p, level, higher);
    }
}

/// What lies below a child lies below its parent.
pub proof fn lemma_subtree_of_child(h: Seq<ObjectView>, depth: Seq<nat>, n: int, c: int, p: int)
    requires
        is_depth_assignment(h, depth),
        0 <= c < h.len(),
        records_parent(h, c, p),
        in_subtree(h, depth, n, c),
    ensures
        in_subtree(h, depth, n, p),
        n != p,
{
    assert(depth[c] == depth[p] + 1);
    lemma_ancestor_twice(h, depth, n, depth[c], depth[p]);
    assert(ancestor_at(h, depth, c, depth[p]) == ancestor_at(h, depth, p, depth[p]));
}

/// The parent of an object below `c` is `c` or lies below it.
pub proof fn lemma_parent_in_subtree(h: Seq<ObjectView>, depth: Seq<nat>, n: int, c: int)
    requires
        is_depth_assignment(h, depth),
        in_subtree(h, depth, n, c),
        n != c,
    ensures
        h[n].parent is Some,
        in_subtree(h, depth, h[n].parent.unwrap() as int, c),
{
    if depth[n] == depth[c] {
        assert(ancestor_at(h, depth, n, depth[c]) == n);
    }
    assert(h[n].parent is Some);
}

/// The object `k` parent records above `n`, if the records lead that far.
pub open spec fn nth_ancestor(h: Seq<ObjectView>, n: int, k: nat) -> Option<int>
    decreases k,
{
    if k == 0 {
        Some(n)
    } else {
        match h[n].parent {
            None => None,
            Some(p) => nth_ancestor(h, p as int, (k - 1) as nat),
        }
    }
}

/// `n` is `c`, or the parent records lead from `n` up to `c`.
pub open spec fn is_under(h: Seq<ObjectView>, n: int, c: int) -> bool {
    exists|k: nat| nth_ancestor(h, n, k) == Some(c)
}

/// In a forest laid out in levels, the parent records lead from `n` up to
/// `c` in `k` steps only if `n` lies `k` levels below `c`, in its subtree.
pub proof fn lemma_nth_ancestor_in_subtree(h: Seq<ObjectView>, depth: Seq<nat>, n: int, c: int, k: nat)
    requires
        is_depth_assignment(h, depth),
        0 <= n < h.len(),
        nth_ancestor(h, n, k) == Some(c),
    ensures
        0 <= c < h.len(),
        depth[n] == depth[c] + k,
        in_subtree(h, depth, n, c),
    decreases k,
{
    if k > 0 {
        let p = h[n].parent.unwrap() as int;
        lemma_nth_ancestor_in_subtree(h, depth, p, c, (k - 1) as nat);
        lemma_child_in_subtree(h, depth, n, c);
    }
}

/// In a forest no object is its own ancestor: the parent records never lead
/// from an object back to itself.
pub proof fn lemma_forest_is_acyclic(h: Seq<ObjectView>, n: int, k: nat)
    requires
        is_forest(h),
        0 <= n < h.len(),
        k >= 1,
    ensures
        nth_ancestor(h, n, k) != Some(n),
{
    let depth = choose|depth: Seq<nat>| is_depth_assignment(h, depth);
    if nth_ancestor(h, n, k) == Some(n) {
        lemma_nth_ancestor_in_subtree(h, depth, n, n, k);
    }
}

/// In a forest laid out in levels, the parent records lead from every object
/// of a subtree up to its top.
pub proof fn lemma_subtree_is_under(h: Seq<ObjectView>, depth: Seq<nat>, n: int, c: int)
    requires
        is_depth_assignment(h, depth),
        in_subtree(h, depth, n, c),
    ensures
        nth_ancestor(h, n, (depth[n] - depth[c]) as nat) == Some(c),
        is_under(h, n, c),
    decreases depth[n],
{
    if depth[n] > depth[c] {
        lemma_parent_in_subtree(h, depth, n, c);
        lemma_subtree_is_under(h, depth, h[n].parent.unwrap() as int, c);
    } else {
        assert(ancestor_at(h, depth, n, depth[c]) == n);
    }
}

/// A child of `c`, or of an object below it, lies below `c`.
pub proof fn lemma_child_in_subtree(h: Seq<ObjectView>, depth: Seq<nat>, n: int, c: int)
    requires
        is_depth_assignment(h, depth),
        0 <= n < h.len(),
        h[n].parent is Some,
        in_subtree(h, depth, h[n].parent.unwrap() as int, c),
    ensures
        in_subtree(h, depth, n, c),
        n != c,
{
}

/// An object below `c` is, or lies below, an object that records `c` as its
/// parent: the ancestor one level below `c`.
pub proof fn lemma_below_a_child(h: Seq<ObjectView>, depth: Seq<nat>, n: int, c: int)
    requires
        is_depth_assignment(h, depth),
        0 <= c < h.len(),
        in_subtree(h, depth, n, c),
        n != c,
    ensures
        depth[n] > depth[c],
        0 <= ancestor_at(h, depth, n, depth[c] + 1) < h.len(),
        records_parent(h, ancestor_at(h, depth, n, depth[c] + 1), c),
        in_subtree(h, depth, n, ancestor_at(h, depth, n, depth[c] + 1)),
{
    if depth[n] == depth[c] {
        assert(ancestor_at(h, depth, n, depth[c]) == n);
    }
    let level = depth[c] + 1;
    let a = ancestor_at(h, depth, n, level);
    lemma_ancestor_at(h, depth, n, level);
    lemma_ancestor_twice(h, depth, n, level, depth[c]);
    assert(h[a].parent is Some);
    let q = h[a].parent.unwrap() as int;
    assert(depth[q] == depth[c]);
    assert(ancestor_at(h, depth, q, depth[c]) == q);
    assert(ancestor_at(h, depth, a, depth[c]) == q);
}

/// In a hierarchy of `n` objects no object lies `n` levels deep.
pub proof fn lemma_depth_bounded(h: Seq<ObjectView>, depth: Seq<nat>, n: int)
    requires
        is_depth_assignment(h, depth),
        0 <= n < h.len(),
    ensures
        depth[n] < h.len(),
{
    let path = Seq::new(depth[n] + 1, |i: int| ancestor_at(h, depth, n, i as nat));
    assert forall|i: int| 0 <= i < path.len() implies 0 <= #[trigger] path[i] < h.len() && depth[path[i]]
        == i by {
        lemma_ancestor_at(h, depth, n, i as nat);
    }
    assert(depth[path[0]] == 0);
    assert(h[path[0]].parent is None);
    assert forall|i: int| 1 <= i < path.len() implies records_parent(
        h,
        #[trigger] path[i],
        path[i - 1],
    ) by {
        let a = path[i];
        assert(depth[a] == i);
        assert(depth[path[i - 1]] == i - 1);
        lemma_ancestor_twice(h, depth, n, i as nat, (i - 1) as nat);
        assert(h[a].parent is Some);
        let q = h[a].parent.unwrap() as int;
        assert(depth[q] == i - 1);
        assert(ancestor_at(h, depth, q, (i - 1) as nat) == q);
        assert(ancestor_at(h, depth, a, (i - 1) as nat) == q);
    }
    assert(is_chain(h, path));
    lemma_chain_bounded(h, path);
}

} // verus!
