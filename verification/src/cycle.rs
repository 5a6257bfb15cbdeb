//! Runs of updates: what holds of the run that each step of a cycle over a
//! forest gives. The laws of a whole cycle are drawn from these.

use vstd::prelude::*;
use crate::forest::ancestor_at;
use crate::forest::children_agree;
use crate::forest::children_listed_once;
use crate::forest::in_subtree;
use crate::forest::is_depth_assignment;
use crate::forest::lemma_ancestor_at;
use crate::forest::lemma_below_a_child;
use crate::forest::lemma_depth_bounded;
use crate::forest::lemma_parent_in_subtree;
use crate::forest::lemma_subtree_of_child;
use crate::forest::parents_agree;
use crate::hierarchy::ObjectView;
use crate::hierarchy::policy_of;
use crate::hierarchy::records_parent;
use crate::systems::Update;
use crate::systems::own_update;
use crate::systems::resolve;
use crate::systems::visit;
use crate::systems::visit_children;
use crate::systems::visit_root;
use crate::systems::visit_roots;

verus! {

/// Some update of `w` writes the object `n`.
pub open spec fn writes(w: Seq<Update>, n: int) -> bool {
    exists|i: int| 0 <= i < w.len() && (#[trigger] w[i]).object == n
}

/// Every update names an object and carries the parent that the object
/// records and, below a parent, the policy in force for it.
pub open spec fn faithful(h: Seq<ObjectView>, w: Seq<Update>) -> bool {
    forall|i: int|
        0 <= i < w.len() ==> {
            &&& (#[trigger] w[i]).object < h.len()
            &&& w[i].parent == h[w[i].object as int].parent
            &&& w[i].parent is Some ==> w[i].policy == policy_of(h, w[i].object as int)
        }
}

/// No object is written twice.
pub open spec fn unique(w: Seq<Update>) -> bool {
    forall|i: int, j: int|
        0 <= i < j < w.len() ==> (#[trigger] w[i]).object != (#[trigger] w[j]).object
}

/// Top-down: a parent is never written after a child of its own.
pub open spec fn ordered(h: Seq<ObjectView>, w: Seq<Update>) -> bool {
    forall|i: int, j: int|
        0 <= i < w.len() && 0 <= j < w.len() && records_parent(
            h,
            (#[trigger] w[j]).object as int,
            (#[trigger] w[i]).object as int,
        ) ==> i < j
}

/// With an object, every object that records it as its parent is written.
pub open spec fn closed(h: Seq<ObjectView>, w: Seq<Update>) -> bool {
    forall|i: int, c: int|
        0 <= i < w.len() && 0 <= c < h.len() && #[trigger] records_parent(
            h,
            c,
            w[i].object as int,
        ) ==> writes(w, c)
}

/// Every update writes `c` or an object below it.
pub open spec fn within(h: Seq<ObjectView>, depth: Seq<nat>, w: Seq<Update>, c: int) -> bool {
    forall|i: int| 0 <= i < w.len() ==> in_subtree(h, depth, (#[trigger] w[i]).object as int, c)
}

/// `n` is, or lies below, one of the children that `p` lists from position
/// `from` on.
pub open spec fn below_children(h: Seq<ObjectView>, depth: Seq<nat>, n: int, p: int, from: nat) -> bool {
    exists|k: int|
        from <= k < h[p].children.len() && in_subtree(
            h,
            depth,
            n,
            #[trigger] h[p].children[k] as int,
        )
}

/// Every update writes an object that is, or lies below, one of the children
/// that `p` lists from position `from` on.
pub open spec fn within_children(
    h: Seq<ObjectView>,
    depth: Seq<nat>,
    w: Seq<Update>,
    p: int,
    from: nat,
) -> bool {
    forall|i: int| 0 <= i < w.len() ==> below_children(h, depth, (#[trigger] w[i]).object as int, p, from)
}

/// The edges are those of a forest, laid out in the levels that `depth` gives.
pub open spec fn laid_out(h: Seq<ObjectView>, depth: Seq<nat>) -> bool {
    &&& h.len() <= usize::MAX
    &&& children_agree(h)
    &&& children_listed_once(h)
    &&& parents_agree(h)
    &&& is_depth_assignment(h, depth)
}

/// Two runs of updates that share no object, the second of which writes no
/// parent of an object of the first, make one run that is as well-behaved as
/// each of them.
pub proof fn lemma_join(h: Seq<ObjectView>, x: Seq<Update>, y: Seq<Update>)
    requires
        faithful(h, x),
        faithful(h, y),
        unique(x),
        unique(y),
        ordered(h, x),
        ordered(h, y),
        forall|i: int, j: int|
            0 <= i < x.len() && 0 <= j < y.len() ==> (#[trigger] x[i]).object != (#[trigger] y[j]).object,
        forall|i: int, j: int|
            0 <= i < x.len() && 0 <= j < y.len() ==> !records_parent(
                h,
                (#[trigger] x[i]).object as int,
                (#[trigger] y[j]).object as int,
            ),
    ensures
        faithful(h, x + y),
        unique(x + y),
        ordered(h, x + y),
{
    let w = x + y;
    assert forall|i: int| 0 <= i < w.len() implies {
        &&& (#[trigger] w[i]).object < h.len()
        &&& w[i].parent == h[w[i].object as int].parent
        &&& w[i].parent is Some ==> w[i].policy == policy_of(h, w[i].object as int)
    } by {
        if i < x.len() {
            assert(w[i] == x[i]);
        } else {
            assert(w[i] == y[i - x.len()]);
        }
    }
    assert forall|i: int, j: int| 0 <= i < j < w.len() implies (#[trigger] w[i]).object != (
    #[trigger] w[j]).object by {
        if j < x.len() {
            assert(w[i] == x[i] && w[j] == x[j]);
        } else if i < x.len() {
            assert(w[i] == x[i] && w[j] == y[j - x.len()]);
        } else {
            assert(w[i] == y[i - x.len()] && w[j] == y[j - x.len()]);
        }
    }
    assert forall|i: int, j: int|
        0 <= i < w.len() && 0 <= j < w.len() && records_parent(
            h,
            (#[trigger] w[j]).object as int,
            (#[trigger] w[i]).object as int,
        ) implies i < j by {
        if i < x.len() && j < x.len() {
            assert(w[i] == x[i] && w[j] == x[j]);
        } else if i < x.len() {
        } else if j < x.len() {
            assert(w[i] == y[i - x.len()] && w[j] == x[j]);
        } else {
            assert(w[i] == y[i - x.len()] && w[j] == y[j - x.len()]);
        }
    }
}

/// What one of two runs writes, both together write.
pub proof fn lemma_writes_join(x: Seq<Update>, y: Seq<Update>, n: int)
    ensures
        writes(x, n) ==> writes(x + y, n),
        writes(y, n) ==> writes(x + y, n),
        writes(x + y, n) ==> writes(x, n) || writes(y, n),
{
    let w = x + y;
    if writes(x, n) {
        let i = choose|i: int| 0 <= i < x.len() && (#[trigger] x[i]).object == n;
        assert(w[i] == x[i]);
    }
    if writes(y, n) {
        let i = choose|i: int| 0 <= i < y.len() && (#[trigger] y[i]).object == n;
        assert(w[i + x.len()] == y[i]);
    }
    if writes(w, n) {
        let i = choose|i: int| 0 <= i < w.len() && (#[trigger] w[i]).object == n;
        if i < x.len() {
            assert(w[i] == x[i]);
        } else {
            assert(w[i] == y[i - x.len()]);
        }
    }
}

/// Two closed runs make a closed run.
pub proof fn lemma_join_closed(h: Seq<ObjectView>, x: Seq<Update>, y: Seq<Update>)
    requires
        closed(h, x),
        closed(h, y),
    ensures
        closed(h, x + y),
{
    let w = x + y;
    assert forall|i: int, c: int|
        0 <= i < w.len() && 0 <= c < h.len() && #[trigger] records_parent(
            h,
            c,
            w[i].object as int,
        ) implies writes(w, c) by {
        lemma_writes_join(x, y, c);
        if i < x.len() {
            assert(w[i] == x[i]);
            assert(records_parent(h, c, x[i].object as int));
        } else {
            assert(w[i] == y[i - x.len()]);
            assert(records_parent(h, c, y[i - x.len()].object as int));
        }
    }
}

/// What the descent from an object of a forest asks for: no corruption, and
/// a well-behaved run of updates that stays at and below the object, and that
/// writes the object itself where `changed` says so.
pub proof fn lemma_resolve(
    h: Seq<ObjectView>,
    depth: Seq<nat>,
    c: usize,
    parent: Option<usize>,
    changed: bool,
    budget: nat,
)
    requires
        laid_out(h, depth),
        c < h.len(),
        h[c as int].parent == parent,
        budget + depth[c as int] + 1 >= h.len(),
    ensures
        resolve(h, c, parent, changed, budget).corruption is None,
        faithful(h, resolve(h, c, parent, changed, budget).updates),
        unique(resolve(h, c, parent, changed, budget).updates),
        ordered(h, resolve(h, c, parent, changed, budget).updates),
        closed(h, resolve(h, c, parent, changed, budget).updates),
        within(h, depth, resolve(h, c, parent, changed, budget).updates, c as int),
        changed ==> writes(resolve(h, c, parent, changed, budget).updates, c as int),
    decreases budget, 2 + h[c as int].children.len(),
{
    let own = own_update(h, c, parent, changed);
    let down = changed || h[c as int].children_changed;
    let y = visit_children(h, c, 0, down, budget).updates;
    let w = own + y;
    lemma_visit_children(h, depth, c, 0, down, budget);
    assert(resolve(h, c, parent, changed, budget).updates == w);
    assert forall|j: int| 0 <= j < y.len() implies in_subtree(
        h,
        depth,
        (#[trigger] y[j]).object as int,
        c as int,
    ) && y[j].object != c by {
        let n = y[j].object as int;
        assert(below_children(h, depth, n, c as int, 0));
        let k = choose|k: int|
            0 <= k < h[c as int].children.len() && in_subtree(
                h,
                depth,
                n,
                #[trigger] h[c as int].children[k] as int,
            );
        lemma_subtree_of_child(h, depth, n, h[c as int].children[k] as int, c as int);
    }
    assert(!records_parent(h, c as int, c as int));
    assert forall|i: int, j: int| 0 <= i < own.len() && 0 <= j < y.len() implies !records_parent(
        h,
        (#[trigger] own[i]).object as int,
        (#[trigger] y[j]).object as int,
    ) by {
        assert(in_subtree(h, depth, y[j].object as int, c as int));
    }
    lemma_join(h, own, y);
    assert forall|i: int| 0 <= i < w.len() implies in_subtree(
        h,
        depth,
        (#[trigger] w[i]).object as int,
        c as int,
    ) by {
        if i < own.len() {
            assert(w[i] == own[i]);
        } else {
            assert(w[i] == y[i - own.len()]);
        }
    }
    assert forall|i: int, child: int|
        0 <= i < w.len() && 0 <= child < h.len() && #[trigger] records_parent(
            h,
            child,
            w[i].object as int,
        ) implies writes(w, child) by {
        lemma_writes_join(own, y, child);
        if i < own.len() {
            assert(w[i] == own[i]);
            assert(records_parent(h, child, c as int));
            assert(h[child].parent is Some);
            let k = choose|k: int|
                0 <= k < h[c as int].children.len() && #[trigger] h[c as int].children[k] == child;
            assert(writes(y, h[c as int].children[k] as int));
        } else {
            assert(w[i] == y[i - own.len()]);
            assert(records_parent(h, child, y[i - own.len()].object as int));
        }
    }
    if changed {
        assert(w[0].object == c);
    }
}

/// What the recursive step on an object of a forest asks for, where the
/// object is reached through the parent that it records.
pub proof fn lemma_visit(
    h: Seq<ObjectView>,
    depth: Seq<nat>,
    c: usize,
    p: usize,
    changed_in: bool,
    budget: nat,
)
    requires
        laid_out(h, depth),
        c < h.len(),
        records_parent(h, c as int, p as int),
        budget + depth[c as int] >= h.len(),
    ensures
        visit(h, c, p, changed_in, budget).corruption is None,
        faithful(h, visit(h, c, p, changed_in, budget).updates),
        unique(visit(h, c, p, changed_in, budget).updates),
        ordered(h, visit(h, c, p, changed_in, budget).updates),
        closed(h, visit(h, c, p, changed_in, budget).updates),
        within(h, depth, visit(h, c, p, changed_in, budget).updates, c as int),
        changed_in ==> writes(visit(h, c, p, changed_in, budget).updates, c as int),
    decreases budget, 0nat,
{
    lemma_depth_bounded(h, depth, c as int);
    lemma_resolve(
        h,
        depth,
        c,
        Some(p),
        changed_in || h[c as int].local_changed,
        (budget - 1) as nat,
    );
}

/// What the recursive step on the children of an object of a forest asks for,
/// from position `from` on.
pub proof fn lemma_visit_children(
    h: Seq<ObjectView>,
    depth: Seq<nat>,
    p: usize,
    from: nat,
    changed: bool,
    budget: nat,
)
    requires
        laid_out(h, depth),
        p < h.len(),
        budget + depth[p as int] + 1 >= h.len(),
    ensures
        visit_children(h, p, from, changed, budget).corruption is None,
        faithful(h, visit_children(h, p, from, changed, budget).updates),
        unique(visit_children(h, p, from, changed, budget).updates),
        ordered(h, visit_children(h, p, from, changed, budget).updates),
        closed(h, visit_children(h, p, from, changed, budget).updates),
        within_children(h, depth, visit_children(h, p, from, changed, budget).updates, p as int, from),
        changed ==> forall|k: int|
            from <= k < h[p as int].children.len() ==> writes(
                visit_children(h, p, from, changed, budget).updates,
                #[trigger] h[p as int].children[k] as int,
            ),
    decreases budget, 1 + h[p as int].children.len() - from,
{
    let children = h[p as int].children;
    if from < children.len() {
        let c = children[from as int];
        let x = visit(h, c, p, changed, budget).updates;
        let y = visit_children(h, p, from + 1, changed, budget).updates;
        let w = x + y;
        lemma_visit(h, depth, c, p, changed, budget);
        lemma_visit_children(h, depth, p, from + 1, changed, budget);
        assert(visit_children(h, p, from, changed, budget).updates == w);
        assert forall|i: int, j: int| 0 <= i < x.len() && 0 <= j < y.len() implies (#[trigger] x[i]).object
            != (#[trigger] y[j]).object && !records_parent(
            h,
            x[i].object as int,
            y[j].object as int,
        ) by {
            let n = x[i].object as int;
            let m = y[j].object as int;
            assert(in_subtree(h, depth, n, c as int));
            assert(below_children(h, depth, m, p as int, from + 1));
            let k = choose|k: int|
                from + 1 <= k < children.len() && in_subtree(
                    h,
                    depth,
                    m,
                    #[trigger] h[p as int].children[k] as int,
                );
            let other = children[k];
            assert(other != c);
            assert(depth[other as int] == depth[c as int]);
            if records_parent(h, n, m) {
                if n == c {
                    assert(m == p);
                } else {
                    lemma_parent_in_subtree(h, depth, n, c as int);
                }
            }
        }
        lemma_join(h, x, y);
        lemma_join_closed(h, x, y);
        assert forall|i: int| 0 <= i < w.len() implies below_children(
            h,
            depth,
            (#[trigger] w[i]).object as int,
            p as int,
            from,
        ) by {
            if i < x.len() {
                assert(w[i] == x[i]);
                assert(in_subtree(h, depth, x[i].object as int, children[from as int] as int));
            } else {
                assert(w[i] == y[i - x.len()]);
                let m = y[i - x.len()].object as int;
                assert(below_children(h, depth, m, p as int, from + 1));
                let k = choose|k: int|
                    from + 1 <= k < children.len() && in_subtree(
                        h,
                        depth,
                        m,
                        #[trigger] h[p as int].children[k] as int,
                    );
                assert(in_subtree(h, depth, m, h[p as int].children[k] as int));
            }
        }
        if changed {
            assert forall|k: int| from <= k < children.len() implies writes(
                w,
                #[trigger] h[p as int].children[k] as int,
            ) by {
                lemma_writes_join(x, y, children[k] as int);
            }
        }
    }
}

/// The run `w` writes every object that records `n` as its parent.
pub open spec fn children_written(h: Seq<ObjectView>, w: Seq<Update>, n: int) -> bool {
    forall|child: int|
        0 <= child < h.len() && #[trigger] records_parent(h, child, n) ==> writes(w, child)
}

/// The run `w` writes what the change flags of `n` ask for: `n` itself if its
/// local transform changed, and its children if its list of children changed.
pub open spec fn owed(h: Seq<ObjectView>, w: Seq<Update>, n: int) -> bool {
    &&& h[n].local_changed ==> writes(w, n)
    &&& h[n].children_changed ==> children_written(h, w, n)
}

/// There is a reason to write `n`: its local transform changed, or its parent
/// is written by `w` or has a changed list of children.
pub open spec fn due(h: Seq<ObjectView>, w: Seq<Update>, n: int) -> bool {
    h[n].local_changed || (h[n].parent matches Some(p) && (h[p as int].children_changed || writes(
        w,
        p as int,
    )))
}

/// What a run owes and what is due in it stay so when the run goes on, or
/// when another went before.
pub proof fn lemma_grow(h: Seq<ObjectView>, x: Seq<Update>, y: Seq<Update>, n: int)
    ensures
        owed(h, x, n) ==> owed(h, x + y, n),
        owed(h, y, n) ==> owed(h, x + y, n),
        due(h, x, n) ==> due(h, x + y, n),
        due(h, y, n) ==> due(h, x + y, n),
{
    lemma_writes_join(x, y, n);
    if h[n].parent is Some {
        lemma_writes_join(x, y, h[n].parent.unwrap() as int);
    }
    assert forall|child: int|
        0 <= child < h.len() && #[trigger] records_parent(h, child, n) implies (writes(x, child)
        ==> writes(x + y, child)) && (writes(y, child) ==> writes(x + y, child)) by {
        lemma_writes_join(x, y, child);
    }
}

/// The descent from an object of a forest writes all that the change flags
/// at and below the object ask for, and nothing without a reason.
pub proof fn lemma_resolve_exact(
    h: Seq<ObjectView>,
    depth: Seq<nat>,
    c: usize,
    parent: Option<usize>,
    changed: bool,
    budget: nat,
)
    requires
        laid_out(h, depth),
        c < h.len(),
        h[c as int].parent == parent,
        budget + depth[c as int] + 1 >= h.len(),
        h[c as int].local_changed ==> changed,
    ensures
        forall|n: int| #[trigger]
            in_subtree(h, depth, n, c as int) ==> owed(
                h,
                resolve(h, c, parent, changed, budget).updates,
                n,
            ),
        forall|i: int|
            0 <= i < resolve(h, c, parent, changed, budget).updates.len() ==> due(
                h,
                resolve(h, c, parent, changed, budget).updates,
                (#[trigger] resolve(h, c, parent, changed, budget).updates[i]).object as int,
            ) || (resolve(h, c, parent, changed, budget).updates[i].object == c && changed),
    decreases budget, 2 + h[c as int].children.len(),
{
    let own = own_update(h, c, parent, changed);
    let down = changed || h[c as int].children_changed;
    let y = visit_children(h, c, 0, down, budget).updates;
    let w = own + y;
    lemma_visit_children(h, depth, c, 0, down, budget);
    lemma_visit_children_exact(h, depth, c, 0, down, budget);
    assert(resolve(h, c, parent, changed, budget).updates == w);
    assert forall|n: int| #[trigger] in_subtree(h, depth, n, c as int) implies owed(h, w, n) by {
        if n == c {
            if changed {
                assert(w[0].object == c);
            }
            if h[n].children_changed {
                assert forall|child: int|
                    0 <= child < h.len() && #[trigger] records_parent(h, child, n) implies writes(
                    w,
                    child,
                ) by {
                    assert(h[child].parent is Some);
                    let k = choose|k: int|
                        0 <= k < h[c as int].children.len() && #[trigger] h[c as int].children[k]
                            == child;
                    assert(writes(y, h[c as int].children[k] as int));
                    lemma_writes_join(own, y, child);
                }
            }
        } else {
            lemma_below_a_child(h, depth, n, c as int);
            let a = ancestor_at(h, depth, n, depth[c as int] + 1);
            assert(h[a].parent is Some);
            let k = choose|k: int|
                0 <= k < h[c as int].children.len() && #[trigger] h[c as int].children[k] == a;
            assert(in_subtree(h, depth, n, h[c as int].children[k] as int));
            assert(below_children(h, depth, n, c as int, 0));
            lemma_grow(h, own, y, n);
        }
    }
    assert forall|i: int| 0 <= i < w.len() implies due(h, w, (#[trigger] w[i]).object as int) || (
    w[i].object == c && changed) by {
        if i < own.len() {
            assert(w[i] == own[i]);
        } else {
            let j = i - own.len();
            assert(w[i] == y[j]);
            let n = y[j].object as int;
            lemma_grow(h, own, y, n);
            if !due(h, y, n) {
                assert(records_parent(h, n, c as int) && down);
                if changed {
                    assert(w[0].object == c);
                    assert(writes(w, c as int));
                }
            }
        }
    }
}

/// The recursive step on an object of a forest writes all that the change
/// flags at and below the object ask for, and nothing without a reason.
pub proof fn lemma_visit_exact(
    h: Seq<ObjectView>,
    depth: Seq<nat>,
    c: usize,
    p: usize,
    changed_in: bool,
    budget: nat,
)
    requires
        laid_out(h, depth),
        c < h.len(),
        records_parent(h, c as int, p as int),
        budget + depth[c as int] >= h.len(),
    ensures
        forall|n: int| #[trigger]
            in_subtree(h, depth, n, c as int) ==> owed(
                h,
                visit(h, c, p, changed_in, budget).updates,
                n,
            ),
        forall|i: int|
            0 <= i < visit(h, c, p, changed_in, budget).updates.len() ==> due(
                h,
                visit(h, c, p, changed_in, budget).updates,
                (#[trigger] visit(h, c, p, changed_in, budget).updates[i]).object as int,
            ) || (visit(h, c, p, changed_in, budget).updates[i].object == c && changed_in),
    decreases budget, 0nat,
{
    lemma_depth_bounded(h, depth, c as int);
    lemma_resolve_exact(
        h,
        depth,
        c,
        Some(p),
        changed_in || h[c as int].local_changed,
        (budget - 1) as nat,
    );
}

/// The recursive step on the children of an object of a forest writes all
/// that the change flags at and below these children ask for, and nothing
/// without a reason.
pub proof fn lemma_visit_children_exact(
    h: Seq<ObjectView>,
    depth: Seq<nat>,
    p: usize,
    from: nat,
    changed: bool,
    budget: nat,
)
    requires
        laid_out(h, depth),
        p < h.len(),
        budget + depth[p as int] + 1 >= h.len(),
    ensures
        forall|n: int| #[trigger]
            below_children(h, depth, n, p as int, from) ==> owed(
                h,
                visit_children(h, p, from, changed, budget).updates,
                n,
            ),
        forall|i: int|
            0 <= i < visit_children(h, p, from, changed, budget).updates.len() ==> due(
                h,
                visit_children(h, p, from, changed, budget).updates,
                (#[trigger] visit_children(h, p, from, changed, budget).updates[i]).object as int,
            ) || (records_parent(
                h,
                visit_children(h, p, from, changed, budget).updates[i].object as int,
                p as int,
            ) && changed),
    decreases budget, 1 + h[p as int].children.len() - from,
{
    let children = h[p as int].children;
    if from < children.len() {
        let c = children[from as int];
        let x = visit(h, c, p, changed, budget).updates;
        let y = visit_children(h, p, from + 1, changed, budget).updates;
        let w = x + y;
        lemma_visit(h, depth, c, p, changed, budget);
        lemma_visit_exact(h, depth, c, p, changed, budget);
        lemma_visit_children_exact(h, depth, p, from + 1, changed, budget);
        assert(visit_children(h, p, from, changed, budget).updates == w);
        assert forall|n: int| #[trigger] below_children(h, depth, n, p as int, from) implies owed(
            h,
            w,
            n,
        ) by {
            let k = choose|k: int|
                from <= k < children.len() && in_subtree(
                    h,
                    depth,
                    n,
                    #[trigger] h[p as int].children[k] as int,
                );
            lemma_grow(h, x, y, n);
            if k == from {
                assert(in_subtree(h, depth, n, c as int));
            } else {
                assert(in_subtree(h, depth, n, h[p as int].children[k] as int));
                assert(below_children(h, depth, n, p as int, from + 1));
            }
        }
        assert forall|i: int| 0 <= i < w.len() implies due(h, w, (#[trigger] w[i]).object as int) || (
        records_parent(h, w[i].object as int, p as int) && changed) by {
            if i < x.len() {
                assert(w[i] == x[i]);
                lemma_grow(h, x, y, x[i].object as int);
            } else {
                assert(w[i] == y[i - x.len()]);
                lemma_grow(h, x, y, y[i - x.len()].object as int);
            }
        }
    } else {
        assert forall|n: int| #[trigger] below_children(h, depth, n, p as int, from) implies owed(
            h,
            visit_children(h, p, from, changed, budget).updates,
            n,
        ) by {}
    }
}

/// The cycle over the roots of a forest, from handle `from` on, writes all
/// that the change flags in their trees ask for, and nothing without a
/// reason.
pub proof fn lemma_visit_roots_exact(h: Seq<ObjectView>, depth: Seq<nat>, from: nat)
    requires
        laid_out(h, depth),
    ensures
        forall|n: int|
            0 <= n < h.len() && #[trigger] ancestor_at(h, depth, n, 0) >= from ==> owed(
                h,
                visit_roots(h, from).updates,
                n,
            ),
        forall|i: int|
            0 <= i < visit_roots(h, from).updates.len() ==> due(
                h,
                visit_roots(h, from).updates,
                (#[trigger] visit_roots(h, from).updates[i]).object as int,
            ),
    decreases h.len() - from,
{
    if from < h.len() {
        let r = from as usize;
        let x = visit_root(h, r).updates;
        let y = visit_roots(h, from + 1).updates;
        let w = x + y;
        lemma_visit_roots(h, depth, from + 1);
        lemma_visit_roots_exact(h, depth, from + 1);
        if h[r as int].parent is None {
            lemma_resolve(h, depth, r, None, h[r as int].local_changed, (h.len() - 1) as nat);
            lemma_resolve_exact(h, depth, r, None, h[r as int].local_changed, (h.len() - 1) as nat);
        }
        assert(visit_roots(h, from).updates == w);
        assert forall|n: int|
            0 <= n < h.len() && #[trigger] ancestor_at(h, depth, n, 0) >= from implies owed(
            h,
            w,
            n,
        ) by {
            lemma_grow(h, x, y, n);
            let top = ancestor_at(h, depth, n, 0);
            if top == from {
                lemma_ancestor_at(h, depth, n, 0);
                assert(h[top].parent is None);
                assert(in_subtree(h, depth, n, r as int));
            }
        }
        assert forall|i: int| 0 <= i < w.len() implies due(h, w, (#[trigger] w[i]).object as int) by {
            if i < x.len() {
                assert(w[i] == x[i]);
                lemma_grow(h, x, y, x[i].object as int);
            } else {
                assert(w[i] == y[i - x.len()]);
                lemma_grow(h, x, y, y[i - x.len()].object as int);
            }
        }
    } else {
        assert forall|n: int|
            0 <= n < h.len() && #[trigger] ancestor_at(h, depth, n, 0) >= from implies owed(
            h,
            visit_roots(h, from).updates,
            n,
        ) by {
            lemma_ancestor_at(h, depth, n, 0);
        }
    }
}

/// Every update writes an object of a tree whose root has handle `from` or a
/// later one.
pub open spec fn rooted_from(h: Seq<ObjectView>, depth: Seq<nat>, w: Seq<Update>, from: nat) -> bool {
    forall|i: int| 0 <= i < w.len() ==> ancestor_at(h, depth, (#[trigger] w[i]).object as int, 0) >= from
}

/// What the cycle over the roots of a forest asks for, from handle `from` on.
pub proof fn lemma_visit_roots(h: Seq<ObjectView>, depth: Seq<nat>, from: nat)
    requires
        laid_out(h, depth),
    ensures
        visit_roots(h, from).corruption is None,
        faithful(h, visit_roots(h, from).updates),
        unique(visit_roots(h, from).updates),
        ordered(h, visit_roots(h, from).updates),
        closed(h, visit_roots(h, from).updates),
        rooted_from(h, depth, visit_roots(h, from).updates, from),
    decreases h.len() - from,
{
    if from < h.len() {
        let r = from as usize;
        let x = visit_root(h, r).updates;
        let y = visit_roots(h, from + 1).updates;
        let w = x + y;
        lemma_visit_roots(h, depth, from + 1);
        if h[r as int].parent is None {
            lemma_resolve(h, depth, r, None, h[r as int].local_changed, (h.len() - 1) as nat);
        }
        assert(visit_roots(h, from).updates == w);
        assert(within(h, depth, x, r as int));
        assert forall|i: int, j: int| 0 <= i < x.len() && 0 <= j < y.len() implies (#[trigger] x[i]).object
            != (#[trigger] y[j]).object && !records_parent(
            h,
            x[i].object as int,
            y[j].object as int,
        ) by {
            let n = x[i].object as int;
            let m = y[j].object as int;
            assert(in_subtree(h, depth, n, r as int));
            assert(ancestor_at(h, depth, m, 0) >= from + 1);
            if records_parent(h, n, m) {
                lemma_parent_in_subtree(h, depth, n, r as int);
            }
        }
        lemma_join(h, x, y);
        lemma_join_closed(h, x, y);
        assert forall|i: int| 0 <= i < w.len() implies ancestor_at(
            h,
            depth,
            (#[trigger] w[i]).object as int,
            0,
        ) >= from by {
            if i < x.len() {
                assert(w[i] == x[i]);
                assert(in_subtree(h, depth, x[i].object as int, r as int));
            } else {
                assert(w[i] == y[i - x.len()]);
            }
        }
    }
}

} // verus!
