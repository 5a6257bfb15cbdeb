//! What a propagation cycle achieves.

use vstd::prelude::*;
use crate::cycle::closed;
use crate::cycle::due;
use crate::cycle::faithful;
use crate::cycle::lemma_visit_roots;
use crate::cycle::lemma_visit_roots_exact;
use crate::cycle::ordered;
use crate::cycle::owed;
use crate::cycle::unique;
use crate::cycle::writes;
use crate::edits::lemma_reparented_is_forest;
use crate::forest::ancestor_at;
use crate::forest::is_depth_assignment;
use crate::forest::is_forest;
use crate::forest::is_under;
use crate::forest::lemma_ancestor_at;
use crate::forest::parents_agree;
use crate::hierarchy::ObjectView;
use crate::hierarchy::is_chain;
use crate::hierarchy::lemma_chain_bounded;
use crate::hierarchy::lemma_distinct_bounded;
use crate::hierarchy::policy_of;
use crate::hierarchy::quiet;
use crate::hierarchy::records_parent;
use crate::hierarchy::reparented;
use crate::propagate::Propagate;
use crate::systems::Update;
use crate::systems::propagation;
use crate::systems::resolve;
use crate::systems::visit;
use crate::systems::visit_children;
use crate::systems::visit_root;
use crate::systems::visit_roots;

verus! {

/// The value that the update `u` writes, where `locals` and `globals` hold
/// the transforms of the objects by handle and `propagate` gives the global
/// transform of a child from its parent's global transform, its own local
/// transform and its policy.
pub open spec fn written<T>(
    u: Update,
    locals: Seq<T>,
    globals: Seq<T>,
    propagate: spec_fn(T, T, Propagate) -> T,
) -> T {
    match u.parent {
        None => locals[u.object as int],
        Some(p) => propagate(globals[p as int], locals[u.object as int], u.policy),
    }
}

/// The update `u` can be made: its object has both transforms, and its
/// parent, if any, has a global transform.
pub open spec fn can_be_made<T>(u: Update, locals: Seq<T>, globals: Seq<T>) -> bool {
    &&& u.object < globals.len()
    &&& u.object < locals.len()
    &&& u.parent matches Some(p) ==> p < globals.len()
}

/// The global transforms after the updates `w` were made in order. An update
/// that cannot be made changes nothing.
pub open spec fn applied<T>(
    w: Seq<Update>,
    locals: Seq<T>,
    globals: Seq<T>,
    propagate: spec_fn(T, T, Propagate) -> T,
) -> Seq<T>
    decreases w.len(),
{
    if w.len() == 0 {
        globals
    } else {
        let before = applied(w.drop_last(), locals, globals, propagate);
        if can_be_made(w.last(), locals, before) {
            before.update(w.last().object as int, written(w.last(), locals, before, propagate))
        } else {
            before
        }
    }
}

/// The global transform of `n` is what its local transform and its parent's
/// global transform make it: the local transform for a root, and for a child
/// the parent's global transform propagated under the child's policy.
pub open spec fn settled<T>(
    h: Seq<ObjectView>,
    locals: Seq<T>,
    globals: Seq<T>,
    propagate: spec_fn(T, T, Propagate) -> T,
    n: int,
) -> bool {
    globals[n] == match h[n].parent {
        None => locals[n],
        Some(p) => propagate(globals[p as int], locals[n], policy_of(h, n)),
    }
}

/// A cycle over `h` writes the global transform of `n`.
pub open spec fn rewritten(h: Seq<ObjectView>, n: int) -> bool {
    writes(propagation(h).updates, n)
}

/// Updates change no length.
pub proof fn lemma_applied_len<T>(
    w: Seq<Update>,
    locals: Seq<T>,
    globals: Seq<T>,
    propagate: spec_fn(T, T, Propagate) -> T,
)
    ensures
        applied(w, locals, globals, propagate).len() == globals.len(),
    decreases w.len(),
{
    if w.len() > 0 {
        lemma_applied_len(w.drop_last(), locals, globals, propagate);
    }
}

/// An object that no update from position `j` on writes has, in the end, the
/// global transform that it had after the first `j` updates.
pub proof fn lemma_applied_stable<T>(
    w: Seq<Update>,
    locals: Seq<T>,
    globals: Seq<T>,
    propagate: spec_fn(T, T, Propagate) -> T,
    j: int,
    q: int,
)
    requires
        0 <= j <= w.len(),
        0 <= q < globals.len(),
        forall|i: int| j <= i < w.len() ==> (#[trigger] w[i]).object != q,
    ensures
        applied(w, locals, globals, propagate)[q] == applied(w.take(j), locals, globals, propagate)[q],
    decreases w.len(),
{
    if j == w.len() {
        assert(w.take(j) =~= w);
    } else {
        let front = w.drop_last();
        lemma_applied_len(front, locals, globals, propagate);
        assert(front.take(j) =~= w.take(j));
        assert forall|i: int| j <= i < front.len() implies (#[trigger] front[i]).object != q by {
            assert(front[i] == w[i]);
        }
        lemma_applied_stable(front, locals, globals, propagate, j, q);
        assert(w.last() == w[w.len() - 1]);
    }
}

/// Where no object is written twice, the object of update `j` has, in the
/// end, the value that this update wrote.
pub proof fn lemma_applied_at<T>(
    w: Seq<Update>,
    locals: Seq<T>,
    globals: Seq<T>,
    propagate: spec_fn(T, T, Propagate) -> T,
    j: int,
)
    requires
        unique(w),
        0 <= j < w.len(),
        can_be_made(w[j], locals, globals),
    ensures
        applied(w, locals, globals, propagate)[w[j].object as int] == written(
            w[j],
            locals,
            applied(w.take(j), locals, globals, propagate),
            propagate,
        ),
{
    let upto = w.take(j + 1);
    assert(upto.drop_last() =~= w.take(j));
    assert(upto.last() == w[j]);
    lemma_applied_len(w.take(j), locals, globals, propagate);
    assert forall|i: int| j + 1 <= i < w.len() implies (#[trigger] w[i]).object != w[j].object by {}
    lemma_applied_stable(w, locals, globals, propagate, j + 1, w[j].object as int);
}

/// After a well-behaved run of updates every written object is settled, and
/// every other object has the global transform that it had.
pub proof fn lemma_applied_settles<T>(
    h: Seq<ObjectView>,
    w: Seq<Update>,
    locals: Seq<T>,
    globals: Seq<T>,
    propagate: spec_fn(T, T, Propagate) -> T,
    n: int,
)
    requires
        parents_agree(h),
        faithful(h, w),
        unique(w),
        ordered(h, w),
        locals.len() == h.len(),
        globals.len() == h.len(),
        0 <= n < h.len(),
    ensures
        writes(w, n) ==> settled(h, locals, applied(w, locals, globals, propagate), propagate, n),
        !writes(w, n) ==> applied(w, locals, globals, propagate)[n] == globals[n],
{
    let after = applied(w, locals, globals, propagate);
    if writes(w, n) {
        let j = choose|j: int| 0 <= j < w.len() && (#[trigger] w[j]).object == n;
        lemma_applied_at(w, locals, globals, propagate, j);
        match h[n].parent {
            None => {},
            Some(p) => {
                assert forall|i: int| j <= i < w.len() implies (#[trigger] w[i]).object != p by {
                    if w[i].object == p {
                        assert(records_parent(h, w[j].object as int, w[i].object as int));
                    }
                }
                assert(w[j].object < h.len());
                assert(records_parent(h, n, p as int));
                lemma_applied_stable(w, locals, globals, propagate, j, p as int);
            },
        }
    } else {
        assert(w.take(0) =~= Seq::<Update>::empty());
        lemma_applied_stable(w, locals, globals, propagate, 0, n);
    }
}

/// What a cycle over a forest asks for is a run of updates without a
/// corruption, in which every update carries the records of its object, no
/// object is written twice, no parent is written after a child of its own,
/// and with an object all its children are written. There are no more
/// updates than objects.
pub proof fn lemma_cycle_well_behaved(h: Seq<ObjectView>)
    requires
        is_forest(h),
    ensures
        propagation(h).corruption is None,
        faithful(h, propagation(h).updates),
        unique(propagation(h).updates),
        ordered(h, propagation(h).updates),
        closed(h, propagation(h).updates),
        propagation(h).updates.len() <= h.len(),
{
    let depth = choose|depth: Seq<nat>| is_depth_assignment(h, depth);
    lemma_visit_roots(h, depth, 0);
    let w = propagation(h).updates;
    let objects = Seq::new(w.len(), |i: int| w[i].object as int);
    assert forall|i: int| 0 <= i < objects.len() implies 0 <= #[trigger] objects[i] < h.len() by {
        assert(w[i].object < h.len());
    }
    assert forall|i: int, j: int| 0 <= i < j < objects.len() implies objects[i] != objects[j] by {
        assert(w[i].object != w[j].object);
    }
    lemma_distinct_bounded(objects, h.len());
}

/// The effect of one cycle over a forest on one object: an object that the
/// cycle writes is settled afterwards, whatever the global transforms were
/// before, and every other object keeps its global transform.
pub proof fn lemma_cycle_effect<T>(
    h: Seq<ObjectView>,
    locals: Seq<T>,
    globals: Seq<T>,
    propagate: spec_fn(T, T, Propagate) -> T,
    n: int,
)
    requires
        is_forest(h),
        locals.len() == h.len(),
        globals.len() == h.len(),
        0 <= n < h.len(),
    ensures
        propagation(h).corruption is None,
        rewritten(h, n) ==> settled(
            h,
            locals,
            applied(propagation(h).updates, locals, globals, propagate),
            propagate,
            n,
        ),
        !rewritten(h, n) ==> applied(propagation(h).updates, locals, globals, propagate)[n]
            == globals[n],
{
    lemma_cycle_well_behaved(h);
    lemma_applied_settles(h, propagation(h).updates, locals, globals, propagate, n);
}

/// After one cycle over a forest every object is settled: the global
/// transform of every root is its local transform, and that of every other
/// object is its parent's global transform propagated to it under its policy.
/// The objects that the cycle passes over must have been settled before.
pub proof fn lemma_cycle_settles<T>(
    h: Seq<ObjectView>,
    locals: Seq<T>,
    globals: Seq<T>,
    propagate: spec_fn(T, T, Propagate) -> T,
)
    requires
        is_forest(h),
        locals.len() == h.len(),
        globals.len() == h.len(),
        forall|n: int|
            0 <= n < h.len() && !rewritten(h, n) ==> #[trigger] settled(
                h,
                locals,
                globals,
                propagate,
                n,
            ),
    ensures
        propagation(h).corruption is None,
        forall|n: int|
            0 <= n < h.len() ==> #[trigger] settled(
                h,
                locals,
                applied(propagation(h).updates, locals, globals, propagate),
                propagate,
                n,
            ),
{
    let w = propagation(h).updates;
    let after = applied(w, locals, globals, propagate);
    lemma_cycle_well_behaved(h);
    let depth = choose|depth: Seq<nat>| is_depth_assignment(h, depth);
    assert forall|n: int| 0 <= n < h.len() implies #[trigger] settled(
        h,
        locals,
        after,
        propagate,
        n,
    ) by {
        lemma_applied_settles(h, w, locals, globals, propagate, n);
        if !rewritten(h, n) {
            assert(settled(h, locals, globals, propagate, n));
            match h[n].parent {
                None => {},
                Some(p) => {
                    assert(p < h.len());
                    lemma_applied_settles(h, w, locals, globals, propagate, p as int);
                    if writes(w, p as int) {
                        let i = choose|i: int| 0 <= i < w.len() && (#[trigger] w[i]).object == p;
                        assert(records_parent(h, n, w[i].object as int));
                    }
                },
            }
        }
    }
}

/// A cycle over a forest writes exactly the changed subtrees: an object is
/// written if and only if its local transform changed, or its parent's list
/// of children changed, or its parent is written.
pub proof fn lemma_cycle_writes_what_changed(h: Seq<ObjectView>, n: int)
    requires
        is_forest(h),
        0 <= n < h.len(),
    ensures
        rewritten(h, n) <==> h[n].local_changed || (h[n].parent matches Some(p) && (h[p as int].children_changed
            || rewritten(h, p as int))),
{
    let w = propagation(h).updates;
    let depth = choose|depth: Seq<nat>| is_depth_assignment(h, depth);
    lemma_visit_roots(h, depth, 0);
    lemma_visit_roots_exact(h, depth, 0);
    if rewritten(h, n) {
        let i = choose|i: int| 0 <= i < w.len() && (#[trigger] w[i]).object == n;
        assert(due(h, w, w[i].object as int));
    }
    lemma_ancestor_at(h, depth, n, 0);
    assert(ancestor_at(h, depth, n, 0) >= 0);
    assert(owed(h, w, n));
    match h[n].parent {
        None => {},
        Some(p) => {
            assert(records_parent(h, n, p as int));
            lemma_ancestor_at(h, depth, p as int, 0);
            assert(ancestor_at(h, depth, p as int, 0) >= 0);
            assert(owed(h, w, p as int));
            if writes(w, p as int) {
                let i = choose|i: int| 0 <= i < w.len() && (#[trigger] w[i]).object == p;
                assert(records_parent(h, n, w[i].object as int));
            }
        },
    }
}

/// The first cycle: where the local transform of every object counts as
/// changed, as it does for new objects, one cycle over a forest settles every
/// object, whatever the global transforms were before.
pub proof fn lemma_first_cycle_settles<T>(
    h: Seq<ObjectView>,
    locals: Seq<T>,
    globals: Seq<T>,
    propagate: spec_fn(T, T, Propagate) -> T,
)
    requires
        is_forest(h),
        locals.len() == h.len(),
        globals.len() == h.len(),
        forall|n: int| 0 <= n < h.len() ==> (#[trigger] h[n]).local_changed,
    ensures
        propagation(h).corruption is None,
        forall|n: int|
            0 <= n < h.len() ==> #[trigger] settled(
                h,
                locals,
                applied(propagation(h).updates, locals, globals, propagate),
                propagate,
                n,
            ),
{
    assert forall|n: int| 0 <= n < h.len() implies rewritten(h, n) by {
        assert(h[n].local_changed);
        lemma_cycle_writes_what_changed(h, n);
    }
    lemma_cycle_settles(h, locals, globals, propagate);
}

/// An object that was given a new parent depends on that parent alone: where
/// the list of children of the parent `b` that `x` records has changed, the
/// next cycle over the forest writes `x`, and makes its global transform that
/// of `b` propagated to `x` under the policy of `x`, whatever the global
/// transforms were before.
pub proof fn lemma_reparented_follows_new_parent<T>(
    h: Seq<ObjectView>,
    locals: Seq<T>,
    globals: Seq<T>,
    propagate: spec_fn(T, T, Propagate) -> T,
    x: int,
    b: int,
)
    requires
        is_forest(h),
        locals.len() == h.len(),
        globals.len() == h.len(),
        0 <= x < h.len(),
        records_parent(h, x, b),
        h[b].children_changed,
    ensures
        propagation(h).corruption is None,
        rewritten(h, x),
        applied(propagation(h).updates, locals, globals, propagate)[x] == propagate(
            applied(propagation(h).updates, locals, globals, propagate)[b],
            locals[x],
            policy_of(h, x),
        ),
{
    lemma_cycle_writes_what_changed(h, x);
    lemma_cycle_effect(h, locals, globals, propagate, x);
}

/// Re-parenting: after `x` was moved from where it was to below `b`, one
/// cycle makes the global transform of `x` that of `b` propagated to `x`
/// under the policy of `x`. Where `x` was before, and what its global
/// transform was, has no part in it.
pub proof fn lemma_moved_object_follows_new_parent<T>(
    h: Seq<ObjectView>,
    locals: Seq<T>,
    globals: Seq<T>,
    propagate: spec_fn(T, T, Propagate) -> T,
    x: int,
    b: usize,
)
    requires
        is_forest(h),
        locals.len() == h.len(),
        globals.len() == h.len(),
        0 <= x < h.len(),
        b < h.len(),
        !is_under(h, b as int, x),
    ensures
        is_forest(reparented(h, x, Some(b))),
        propagation(reparented(h, x, Some(b))).corruption is None,
        rewritten(reparented(h, x, Some(b)), x),
        applied(propagation(reparented(h, x, Some(b))).updates, locals, globals, propagate)[x]
            == propagate(
            applied(propagation(reparented(h, x, Some(b))).updates, locals, globals, propagate)[b as int],
            locals[x],
            policy_of(h, x),
        ),
{
    let moved = reparented(h, x, Some(b));
    lemma_reparented_is_forest(h, x, Some(b));
    assert(moved.len() == h.len());
    assert(moved[x].policy == h[x].policy);
    lemma_reparented_follows_new_parent(moved, locals, globals, propagate, x, b as int);
}

/// `p` lists `c` among its children.
pub open spec fn lists(h: Seq<ObjectView>, p: int, c: int) -> bool {
    exists|k: int| 0 <= k < h[p].children.len() && #[trigger] h[p].children[k] == c
}

/// `path` is a way that a cycle takes: it starts at a root, and each object
/// on it is listed by the one before and records it as its parent.
pub open spec fn is_descent(h: Seq<ObjectView>, path: Seq<int>) -> bool {
    &&& is_chain(h, path)
    &&& forall|i: int| 1 <= i < path.len() ==> lists(h, path[i - 1], #[trigger] path[i])
}

/// A corruption below one child stops the step on all the children.
pub proof fn lemma_children_stopped(
    h: Seq<ObjectView>,
    parent: usize,
    from: nat,
    changed: bool,
    budget: nat,
    k: int,
)
    requires
        parent < h.len(),
        from <= k < h[parent as int].children.len(),
        visit(h, h[parent as int].children[k], parent, changed, budget).corruption is Some,
    ensures
        visit_children(h, parent, from, changed, budget).corruption is Some,
    decreases k - from,
{
    if from < k {
        lemma_children_stopped(h, parent, from + 1, changed, budget, k);
    }
}

/// A corruption in the tree of one root stops the cycle.
pub proof fn lemma_roots_stopped(h: Seq<ObjectView>, from: nat, root: int)
    requires
        h.len() <= usize::MAX,
        from <= root < h.len(),
        visit_root(h, root as usize).corruption is Some,
    ensures
        visit_roots(h, from).corruption is Some,
    decreases root - from,
{
    if from < root {
        lemma_roots_stopped(h, from + 1, root);
    }
}

/// The step on the object `i` of a descent is stopped when the last object of
/// the descent lists an object that records another parent.
pub proof fn lemma_descent_stopped(
    h: Seq<ObjectView>,
    path: Seq<int>,
    c: int,
    i: int,
    changed: bool,
)
    requires
        h.len() <= usize::MAX,
        is_descent(h, path),
        lists(h, path.last(), c),
        0 <= c < h.len(),
        !records_parent(h, c, path.last()),
        0 <= i < path.len(),
    ensures
        visit_children(h, path[i] as usize, 0, changed, (h.len() - i - 1) as nat).corruption is Some,
    decreases path.len() - i,
{
    lemma_chain_bounded(h, path);
    let p = path[i] as usize;
    let budget = (h.len() - i - 1) as nat;
    if i == path.len() - 1 {
        let k = choose|k: int| 0 <= k < h[p as int].children.len() && #[trigger] h[p as int].children[k] == c;
        assert(visit(h, c as usize, p, changed, budget).corruption is Some);
        lemma_children_stopped(h, p, 0, changed, budget, k);
    } else {
        let next = path[i + 1];
        assert(lists(h, path[i + 1 - 1], path[i + 1]));
        let k = choose|k: int|
            0 <= k < h[p as int].children.len() && #[trigger] h[p as int].children[k] == next;
        assert(records_parent(h, path[i + 1], path[i + 1 - 1]));
        let below = changed || h[next].local_changed;
        lemma_descent_stopped(h, path, c, i + 1, below || h[next].children_changed);
        assert(visit(h, next as usize, p, changed, budget) == resolve(
            h,
            next as usize,
            Some(p),
            below,
            (budget - 1) as nat,
        ));
        lemma_children_stopped(h, p, 0, changed, budget, k);
    }
}

/// A cycle never passes over a corruption that it comes to: where an object
/// on a way that the cycle takes lists an object that records another
/// parent, or none, the cycle is stopped.
pub proof fn lemma_corruption_detected(h: Seq<ObjectView>, path: Seq<int>, c: int)
    requires
        h.len() <= usize::MAX,
        is_descent(h, path),
        lists(h, path.last(), c),
        0 <= c < h.len(),
        !records_parent(h, c, path.last()),
    ensures
        propagation(h).corruption is Some,
{
    let root = path[0];
    lemma_descent_stopped(
        h,
        path,
        c,
        0,
        h[root].local_changed || h[root].children_changed,
    );
    lemma_roots_stopped(h, 0, root);
}

/// In a quiet hierarchy the recursive step on an object asks for no write,
/// unless something above the object changed.
pub proof fn lemma_quiet_visit(h: Seq<ObjectView>, object: usize, expected_parent: usize, budget: nat)
    requires
        quiet(h),
    ensures
        visit(h, object, expected_parent, false, budget).updates == Seq::<Update>::empty(),
    decreases budget, 0nat,
{
    if object < h.len() && h[object as int].parent == Some(expected_parent) && budget > 0 {
        lemma_quiet_visit_children(h, object, 0, (budget - 1) as nat);
        assert(resolve(h, object, Some(expected_parent), false, (budget - 1) as nat).updates
            =~= Seq::<Update>::empty());
    }
}

/// In a quiet hierarchy the recursive step on the children of an object asks
/// for no write, unless the object or something above it changed.
pub proof fn lemma_quiet_visit_children(h: Seq<ObjectView>, parent: usize, from: nat, budget: nat)
    requires
        quiet(h),
    ensures
        visit_children(h, parent, from, false, budget).updates == Seq::<Update>::empty(),
    decreases budget, 1 + h[parent as int].children.len() - from,
{
    if parent < h.len() && from < h[parent as int].children.len() {
        lemma_quiet_visit(h, h[parent as int].children[from as int], parent, budget);
        lemma_quiet_visit_children(h, parent, from + 1, budget);
        assert(visit_children(h, parent, from, false, budget).updates =~= Seq::<Update>::empty());
    }
}

/// In a quiet hierarchy the cycle over the roots asks for no write.
pub proof fn lemma_quiet_visit_roots(h: Seq<ObjectView>, from: nat)
    requires
        quiet(h),
        h.len() <= usize::MAX,
    ensures
        visit_roots(h, from).updates == Seq::<Update>::empty(),
    decreases h.len() - from,
{
    if from < h.len() {
        let root = from as usize;
        if h[root as int].parent is None {
            lemma_quiet_visit_children(h, root, 0, (h.len() - 1) as nat);
            assert(visit_root(h, root).updates =~= Seq::<Update>::empty());
        }
        lemma_quiet_visit_roots(h, from + 1);
        assert(visit_roots(h, from).updates =~= Seq::<Update>::empty());
    }
}

/// A cycle over a hierarchy in which nothing changed, be it a forest or not,
/// asks for no write: every global transform stays as it is, bit for bit.
pub proof fn lemma_quiet_cycle_changes_nothing<T>(
    h: Seq<ObjectView>,
    locals: Seq<T>,
    globals: Seq<T>,
    propagate: spec_fn(T, T, Propagate) -> T,
)
    requires
        quiet(h),
        h.len() <= usize::MAX,
    ensures
        propagation(h).updates == Seq::<Update>::empty(),
        applied(propagation(h).updates, locals, globals, propagate) == globals,
{
    lemma_quiet_visit_roots(h, 0);
}

} // verus!
