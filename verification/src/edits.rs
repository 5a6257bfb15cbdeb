//! Edits of a hierarchy that leave a forest a forest.

use vstd::prelude::*;
use crate::forest::ancestor_at;
use crate::forest::children_agree;
use crate::forest::children_listed_once;
use crate::forest::in_subtree;
use crate::forest::is_depth_assignment;
use crate::forest::is_forest;
use crate::forest::is_under;
use crate::forest::lemma_child_in_subtree;
use crate::forest::lemma_parent_in_subtree;
use crate::forest::lemma_subtree_is_under;
use crate::forest::nth_ancestor;
use crate::forest::parents_agree;
use crate::hierarchy::ObjectView;
use crate::hierarchy::attached;
use crate::hierarchy::cleared;
use crate::hierarchy::detached;
use crate::hierarchy::records_parent;
use crate::hierarchy::reparented;
use crate::hierarchy::without;

verus! {

/// What is left of a list without `x` are the entries other than `x`: each of
/// them, none else, and none more often than before.
pub proof fn lemma_without(s: Seq<usize>, x: usize)
    ensures
        forall|i: int|
            0 <= i < without(s, x).len() ==> (#[trigger] without(s, x)[i]) != x && s.contains(
                without(s, x)[i],
            ),
        forall|j: int| 0 <= j < s.len() && (#[trigger] s[j]) != x ==> without(s, x).contains(s[j]),
        s.no_duplicates() ==> without(s, x).no_duplicates(),
    decreases s.len(),
{
    if s.len() > 0 {
        let front = s.drop_last();
        let rest = without(front, x);
        let w = without(s, x);
        lemma_without(front, x);
        assert forall|i: int| 0 <= i < w.len() implies (#[trigger] w[i]) != x && s.contains(w[i]) by {
            if i < rest.len() {
                assert(w[i] == rest[i]);
                assert(front.contains(rest[i]));
                let j = choose|j: int| 0 <= j < front.len() && front[j] == rest[i];
                assert(s[j] == rest[i]);
            } else {
                assert(w[i] == s[s.len() - 1]);
            }
        }
        assert forall|j: int| 0 <= j < s.len() && (#[trigger] s[j]) != x implies w.contains(s[j]) by {
            if j < front.len() {
                assert(front[j] == s[j]);
                assert(rest.contains(front[j]));
                let i = choose|i: int| 0 <= i < rest.len() && rest[i] == front[j];
                assert(w[i] == s[j]);
            } else {
                assert(w[w.len() - 1] == s[j]);
            }
        }
        if s.no_duplicates() {
            assert(front.no_duplicates());
            assert forall|i: int, k: int| 0 <= i < w.len() && 0 <= k < w.len() && i != k implies w[i]
                != w[k] by {
                if i < rest.len() && k < rest.len() {
                    assert(w[i] == rest[i] && w[k] == rest[k]);
                } else {
                    let inner = if i < rest.len() { i } else { k };
                    assert(w[inner] == rest[inner]);
                    assert(front.contains(rest[inner]));
                    let j = choose|j: int| 0 <= j < front.len() && front[j] == rest[inner];
                    assert(s[j] == rest[inner]);
                    assert(s[s.len() - 1] != s[j]);
                }
            }
        }
    }
}

/// A hierarchy without objects is a forest.
pub proof fn lemma_empty_is_forest()
    ensures
        is_forest(Seq::<ObjectView>::empty()),
{
    assert(is_depth_assignment(Seq::<ObjectView>::empty(), Seq::<nat>::empty()));
}

/// A new root without children leaves a forest a forest, as long as there is
/// a handle for it.
pub proof fn lemma_spawned_is_forest(h: Seq<ObjectView>, root: ObjectView)
    requires
        is_forest(h),
        h.len() < usize::MAX,
        root.parent is None,
        root.children.len() == 0,
    ensures
        is_forest(h.push(root)),
{
    let after = h.push(root);
    let depth = choose|depth: Seq<nat>| is_depth_assignment(h, depth);
    assert forall|n: int| 0 <= n < h.len() implies #[trigger] after[n] == h[n] by {}
    assert(children_agree(after)) by {
        assert forall|p: int, k: int|
            0 <= p < after.len() && 0 <= k < after[p].children.len() implies (
        #[trigger] after[p].children[k]) < after.len() && records_parent(
            after,
            after[p].children[k] as int,
            p,
        ) by {
            assert(after[p] == h[p]);
            assert(records_parent(h, h[p].children[k] as int, p));
        }
    }
    assert(children_listed_once(after)) by {
        assert forall|p: int, k: int, m: int|
            0 <= p < after.len() && 0 <= k < m < after[p].children.len() implies (
        #[trigger] after[p].children[k]) != (#[trigger] after[p].children[m]) by {
            assert(h[p].children[k] != h[p].children[m]);
        }
    }
    assert(parents_agree(after)) by {
        assert forall|c: int| 0 <= c < after.len() implies match (#[trigger] after[c]).parent {
            None => true,
            Some(p) => p < after.len() && exists|k: int|
                0 <= k < after[p as int].children.len() && #[trigger] after[p as int].children[k]
                    == c,
        } by {
            if c < h.len() {
                match h[c].parent {
                    None => {},
                    Some(p) => {
                        let k = choose|k: int|
                            0 <= k < h[p as int].children.len() && #[trigger] h[p as int].children[k]
                                == c;
                        assert(after[p as int].children[k] == c);
                    },
                }
            }
        }
    }
    assert(is_depth_assignment(after, depth.push(0))) by {
        assert forall|c: int| 0 <= c < after.len() implies match (#[trigger] after[c]).parent {
            None => depth.push(0)[c] == 0,
            Some(p) => p < after.len() && depth.push(0)[c] == depth.push(0)[p as int] + 1,
        } by {
            if c < h.len() {
                assert(after[c] == h[c]);
            }
        }
    }
}

/// Clearing the change flags leaves a forest a forest.
pub proof fn lemma_cleared_is_forest(h: Seq<ObjectView>)
    requires
        is_forest(h),
    ensures
        is_forest(cleared(h)),
{
    let after = cleared(h);
    let depth = choose|depth: Seq<nat>| is_depth_assignment(h, depth);
    assert(children_agree(after)) by {
        assert forall|p: int, k: int|
            0 <= p < after.len() && 0 <= k < after[p].children.len() implies (
        #[trigger] after[p].children[k]) < after.len() && records_parent(
            after,
            after[p].children[k] as int,
            p,
        ) by {
            assert(records_parent(h, h[p].children[k] as int, p));
        }
    }
    assert(children_listed_once(after)) by {
        assert forall|p: int, k: int, m: int|
            0 <= p < after.len() && 0 <= k < m < after[p].children.len() implies (
        #[trigger] after[p].children[k]) != (#[trigger] after[p].children[m]) by {
            assert(h[p].children[k] != h[p].children[m]);
        }
    }
    assert(parents_agree(after)) by {
        assert forall|c: int| 0 <= c < after.len() implies match (#[trigger] after[c]).parent {
            None => true,
            Some(p) => p < after.len() && exists|k: int|
                0 <= k < after[p as int].children.len() && #[trigger] after[p as int].children[k]
                    == c,
        } by {
            match h[c].parent {
                None => {},
                Some(p) => {
                    let k = choose|k: int|
                        0 <= k < h[p as int].children.len() && #[trigger] h[p as int].children[k]
                            == c;
                    assert(after[p as int].children[k] == c);
                },
            }
        }
    }
    assert(is_depth_assignment(after, depth)) by {
        assert forall|c: int| 0 <= c < after.len() implies match (#[trigger] after[c]).parent {
            None => depth[c] == 0,
            Some(p) => p < after.len() && depth[c] == depth[p as int] + 1,
        } by {
            assert(after[c].parent == h[c].parent);
        }
    }
}

/// Taking an object from its parent leaves a forest a forest.
pub proof fn lemma_detached_is_forest(h: Seq<ObjectView>, x: int)
    requires
        is_forest(h),
        0 <= x < h.len(),
    ensures
        is_forest(detached(h, x)),
{
    let after = detached(h, x);
    match h[x].parent {
        None => {},
        Some(a) => {
            let depth = choose|depth: Seq<nat>| is_depth_assignment(h, depth);
            let old_list = h[a as int].children;
            let new_list = without(old_list, x as usize);
            lemma_without(old_list, x as usize);
            assert(a < h.len());
            assert(a != x);
            assert(after.len() == h.len());
            assert(after[a as int].children == new_list);
            assert(after[x].parent is None);
            assert forall|n: int| 0 <= n < h.len() && n != x implies (#[trigger] after[n]).parent
                == h[n].parent by {}
            assert forall|n: int| 0 <= n < h.len() && n != a implies (#[trigger] after[n]).children
                == h[n].children by {}
            assert(old_list.no_duplicates()) by {
                assert forall|i: int, j: int|
                    0 <= i < old_list.len() && 0 <= j < old_list.len() && i != j implies old_list[i]
                    != old_list[j] by {
                    if i < j {
                        assert(h[a as int].children[i] != h[a as int].children[j]);
                    } else {
                        assert(h[a as int].children[j] != h[a as int].children[i]);
                    }
                }
            }
            assert(children_agree(after)) by {
                assert forall|p: int, k: int|
                    0 <= p < after.len() && 0 <= k < after[p].children.len() implies (
                #[trigger] after[p].children[k]) < after.len() && records_parent(
                    after,
                    after[p].children[k] as int,
                    p,
                ) by {
                    let c = after[p].children[k];
                    if p == a {
                        assert(c == new_list[k]);
                        assert(old_list.contains(c));
                        let j = choose|j: int| 0 <= j < old_list.len() && old_list[j] == c;
                        assert(h[p].children[j] == c);
                    } else {
                        assert(c == h[p].children[k]);
                        assert(records_parent(h, c as int, p));
                    }
                    assert(c != x);
                    assert(after[c as int].parent == h[c as int].parent);
                }
            }
            assert(children_listed_once(after)) by {
                assert forall|p: int, k: int, m: int|
                    0 <= p < after.len() && 0 <= k < m < after[p].children.len() implies (
                #[trigger] after[p].children[k]) != (#[trigger] after[p].children[m]) by {
                    if p != a {
                        assert(h[p].children[k] != h[p].children[m]);
                    }
                }
            }
            assert(parents_agree(after)) by {
                assert forall|c: int| 0 <= c < after.len() implies match (#[trigger] after[c]).parent {
                    None => true,
                    Some(p) => p < after.len() && exists|k: int|
                        0 <= k < after[p as int].children.len() && #[trigger] after[p as int].children[k]
                            == c,
                } by {
                    if c != x {
                        match h[c].parent {
                            None => {},
                            Some(p) => {
                                let k = choose|k: int|
                                    0 <= k < h[p as int].children.len() && #[trigger] h[p as int].children[k]
                                        == c;
                                if p == a {
                                    assert(old_list[k] != x);
                                    assert(new_list.contains(old_list[k]));
                                    let i = choose|i: int|
                                        0 <= i < new_list.len() && new_list[i] == old_list[k];
                                    assert(after[p as int].children[i] == c);
                                } else {
                                    assert(after[p as int].children[k] == c);
                                }
                            },
                        }
                    }
                }
            }
            let shifted = Seq::new(
                h.len(),
                |n: int|
                    if in_subtree(h, depth, n, x) {
                        (depth[n] - depth[x]) as nat
                    } else {
                        depth[n]
                    },
            );
            assert(is_depth_assignment(after, shifted)) by {
                assert forall|c: int| 0 <= c < after.len() implies match (#[trigger] after[c]).parent {
                    None => shifted[c] == 0,
                    Some(p) => p < after.len() && shifted[c] == shifted[p as int] + 1,
                } by {
                    if c == x {
                    } else {
                        match h[c].parent {
                            None => {},
                            Some(p) => {
                                if in_subtree(h, depth, c, x) {
                                    lemma_parent_in_subtree(h, depth, c, x);
                                } else if in_subtree(h, depth, p as int, x) {
                                    lemma_child_in_subtree(h, depth, c, x);
                                }
                            },
                        }
                    }
                }
            }
        },
    }
}

/// Putting a root below an object that is not in its tree leaves a forest a
/// forest.
pub proof fn lemma_attached_is_forest(h: Seq<ObjectView>, x: int, b: int)
    requires
        is_forest(h),
        0 <= x < h.len(),
        0 <= b < h.len(),
        h[x].parent is None,
        !is_under(h, b, x),
    ensures
        is_forest(attached(h, x, b)),
{
    let after = attached(h, x, b);
    let depth = choose|depth: Seq<nat>| is_depth_assignment(h, depth);
    let old_list = h[b].children;
    assert(nth_ancestor(h, x, 0) == Some(x));
    assert(b != x);
    if in_subtree(h, depth, b, x) {
        lemma_subtree_is_under(h, depth, b, x);
    }
    assert(after.len() == h.len());
    assert(after[b].children == old_list.push(x as usize));
    assert(after[x].parent == Some(b as usize));
    assert forall|n: int| 0 <= n < h.len() && n != x implies (#[trigger] after[n]).parent
        == h[n].parent by {}
    assert forall|n: int| 0 <= n < h.len() && n != b implies (#[trigger] after[n]).children
        == h[n].children by {}
    assert forall|p: int, k: int| 0 <= p < h.len() && 0 <= k < h[p].children.len() implies (
    #[trigger] h[p].children[k]) != x by {
        assert(records_parent(h, h[p].children[k] as int, p));
    }
    assert(children_agree(after)) by {
        assert forall|p: int, k: int|
            0 <= p < after.len() && 0 <= k < after[p].children.len() implies (
        #[trigger] after[p].children[k]) < after.len() && records_parent(
            after,
            after[p].children[k] as int,
            p,
        ) by {
            let c = after[p].children[k];
            if p == b && k == old_list.len() {
            } else {
                assert(c == h[p].children[k]);
                assert(records_parent(h, c as int, p));
                assert(after[c as int].parent == h[c as int].parent);
            }
        }
    }
    assert(children_listed_once(after)) by {
        assert forall|p: int, k: int, m: int|
            0 <= p < after.len() && 0 <= k < m < after[p].children.len() implies (
        #[trigger] after[p].children[k]) != (#[trigger] after[p].children[m]) by {
            if p == b && m == old_list.len() {
                assert(after[p].children[k] == h[p].children[k]);
            } else {
                assert(h[p].children[k] != h[p].children[m]);
            }
        }
    }
    assert(parents_agree(after)) by {
        assert forall|c: int| 0 <= c < after.len() implies match (#[trigger] after[c]).parent {
            None => true,
            Some(p) => p < after.len() && exists|k: int|
                0 <= k < after[p as int].children.len() && #[trigger] after[p as int].children[k]
                    == c,
        } by {
            if c == x {
                assert(after[b].children[old_list.len() as int] == c);
            } else {
                match h[c].parent {
                    None => {},
                    Some(p) => {
                        let k = choose|k: int|
                            0 <= k < h[p as int].children.len() && #[trigger] h[p as int].children[k]
                                == c;
                        assert(after[p as int].children[k] == c);
                    },
                }
            }
        }
    }
    let shifted = Seq::new(
        h.len(),
        |n: int|
            if in_subtree(h, depth, n, x) {
                depth[n] + depth[b] + 1
            } else {
                depth[n]
            },
    );
    assert(is_depth_assignment(after, shifted)) by {
        assert forall|c: int| 0 <= c < after.len() implies match (#[trigger] after[c]).parent {
            None => shifted[c] == 0,
            Some(p) => p < after.len() && shifted[c] == shifted[p as int] + 1,
        } by {
            if c == x {
                assert(in_subtree(h, depth, x, x));
            } else {
                match h[c].parent {
                    None => {
                        assert(ancestor_at(h, depth, c, 0) == c);
                    },
                    Some(p) => {
                        if in_subtree(h, depth, c, x) {
                            lemma_parent_in_subtree(h, depth, c, x);
                        } else if in_subtree(h, depth, p as int, x) {
                            lemma_child_in_subtree(h, depth, c, x);
                        }
                    },
                }
            }
        }
    }
}

/// What the parent records in a hierarchy lead up to after an object was
/// made a root, they led up to before.
pub proof fn lemma_detached_under(h: Seq<ObjectView>, x: int, n: int, k: nat)
    requires
        is_forest(h),
        0 <= x < h.len(),
        0 <= n < h.len(),
        nth_ancestor(detached(h, x), n, k) == Some(x),
    ensures
        nth_ancestor(h, n, k) == Some(x),
    decreases k,
{
    let after = detached(h, x);
    if k > 0 && h[x].parent is Some {
        assert(after[x].parent is None);
        assert(n != x);
        assert(after[n].parent == h[n].parent);
        let p = h[n].parent.unwrap() as int;
        lemma_detached_under(h, x, p, (k - 1) as nat);
    }
}

/// Moving an object leaves a forest a forest, unless the object is moved
/// below itself: to where its own parent records lead up from.
pub proof fn lemma_reparented_is_forest(h: Seq<ObjectView>, x: int, parent: Option<usize>)
    requires
        is_forest(h),
        0 <= x < h.len(),
        parent matches Some(b) ==> b < h.len() && !is_under(h, b as int, x),
    ensures
        is_forest(reparented(h, x, parent)),
        parent matches Some(b) ==> records_parent(reparented(h, x, parent), x, b as int)
            && reparented(h, x, parent)[b as int].children_changed,
{
    lemma_detached_is_forest(h, x);
    match parent {
        None => {},
        Some(b) => {
            let mid = detached(h, x);
            assert(mid.len() == h.len());
            assert(mid[x].parent is None);
            if is_under(mid, b as int, x) {
                let k = choose|k: nat| nth_ancestor(mid, b as int, k) == Some(x);
                lemma_detached_under(h, x, b as int, k);
            }
            lemma_attached_is_forest(mid, x, b as int);
        },
    }
}

} // verus!
