//! The propagation cycle.

use vstd::prelude::*;
use crate::cycle::due;
use crate::cycle::faithful;
use crate::cycle::ordered;
use crate::cycle::unique;
use crate::cycle::writes;
use crate::forest::is_forest;
use crate::hierarchy::Hierarchy;
use crate::hierarchy::ObjectView;
use crate::hierarchy::is_chain;
use crate::hierarchy::lemma_chain_bounded;
use crate::hierarchy::lemma_chain_extends;
use crate::hierarchy::policy_of;
use crate::laws::lemma_cycle_well_behaved;
use crate::laws::lemma_cycle_writes_what_changed;
use crate::propagate::ALL_BITS;
use crate::propagate::Propagate;

verus! {

/// One write of a global transform that a cycle asks for.
///
/// For a root, `parent` is `None` and the global transform becomes the local
/// one. Otherwise the global transform becomes the parent's global transform
/// composed with the object's local one, axis by axis as `policy` selects.
#[derive(Clone, Copy, Debug, PartialEq, Eq, Structural)]
pub struct Update {
    pub object: usize,
    pub parent: Option<usize>,
    pub policy: Propagate,
}

/// An object was reached through a parent that it does not record.
#[derive(Clone, Copy, Debug, PartialEq, Eq, Structural)]
pub struct HierarchyCorruption {
    /// The object that was reached.
    pub object: usize,
    /// The parent whose list of children led to it.
    pub expected_parent: usize,
    /// The parent that the object records.
    pub recorded_parent: Option<usize>,
}

/// What one propagation cycle asks for: the writes, in the order in which they
/// are to be made, and the corruption that stopped the cycle, if any.
#[derive(Clone, Debug, PartialEq, Eq)]
pub struct Propagation {
    pub updates: Vec<Update>,
    pub corruption: Option<HierarchyCorruption>,
}

/// The mathematical value of a [`Propagation`].
pub struct PropagationView {
    pub updates: Seq<Update>,
    pub corruption: Option<HierarchyCorruption>,
}

impl View for Propagation {
    type V = PropagationView;

    open spec fn view(&self) -> PropagationView {
        PropagationView { updates: self.updates@, corruption: self.corruption }
    }
}

/// A cycle that asks for nothing and met no corruption.
pub open spec fn nothing() -> PropagationView {
    PropagationView { updates: Seq::empty(), corruption: None }
}

/// `first`, and after it `rest` unless `first` was stopped by a corruption.
pub open spec fn then_unless_stopped(first: PropagationView, rest: PropagationView) -> PropagationView {
    if first.corruption is Some {
        first
    } else {
        PropagationView { updates: first.updates + rest.updates, corruption: rest.corruption }
    }
}

/// The write of `object` itself, if `changed` asks for one. A root, which has
/// no `parent`, has nothing to inherit: its policy is that of every axis.
pub open spec fn own_update(h: Seq<ObjectView>, object: usize, parent: Option<usize>, changed: bool) -> Seq<
    Update,
> {
    if changed {
        seq![
            (Update {
                object,
                parent,
                policy: if parent is Some {
                    policy_of(h, object as int)
                } else {
                    Propagate(ALL_BITS)
                },
            }),
        ]
    } else {
        Seq::empty()
    }
}

/// The write of `object`, if `changed` asks for one, and then the recursive
/// step on each of its children in order. The children are told that
/// something above them changed if `object` is written or its list of
/// children changed.
pub open spec fn resolve(
    h: Seq<ObjectView>,
    object: usize,
    parent: Option<usize>,
    changed: bool,
    budget: nat,
) -> PropagationView
    decreases budget, 2 + h[object as int].children.len(),
{
    then_unless_stopped(
        PropagationView { updates: own_update(h, object, parent, changed), corruption: None },
        visit_children(h, object, 0, changed || h[object as int].children_changed, budget),
    )
}

/// The recursive step on `object`, reached through the children of
/// `expected_parent`, where `changed_in` tells whether anything above changed.
///
/// A handle that names no object is passed over. An object that records
/// another parent stops the cycle. Otherwise the object is written when
/// anything above it or its own local transform changed, and its children are
/// visited in order. `budget` bounds the depth below `object`.
pub open spec fn visit(
    h: Seq<ObjectView>,
    object: usize,
    expected_parent: usize,
    changed_in: bool,
    budget: nat,
) -> PropagationView
    decreases budget, 0nat,
{
    if object >= h.len() {
        nothing()
    } else if h[object as int].parent != Some(expected_parent) {
        PropagationView {
            updates: Seq::empty(),
            corruption: Some(
                HierarchyCorruption {
                    object,
                    expected_parent,
                    recorded_parent: h[object as int].parent,
                },
            ),
        }
    } else {
        let changed = changed_in || h[object as int].local_changed;
        if budget == 0 {
            PropagationView {
                updates: own_update(h, object, Some(expected_parent), changed),
                corruption: None,
            }
        } else {
            resolve(h, object, Some(expected_parent), changed, (budget - 1) as nat)
        }
    }
}

/// The recursive step on the children of `parent` from position `from` on.
pub open spec fn visit_children(
    h: Seq<ObjectView>,
    parent: usize,
    from: nat,
    changed: bool,
    budget: nat,
) -> PropagationView
    decreases budget, 1 + h[parent as int].children.len() - from,
{
    if parent >= h.len() || from >= h[parent as int].children.len() {
        nothing()
    } else {
        then_unless_stopped(
            visit(h, h[parent as int].children[from as int], parent, changed, budget),
            visit_children(h, parent, from + 1, changed, budget),
        )
    }
}

/// The root phase and the descent for one object, which does nothing unless the
/// object is a root.
pub open spec fn visit_root(h: Seq<ObjectView>, root: usize) -> PropagationView {
    if root >= h.len() || h[root as int].parent is Some {
        nothing()
    } else {
        resolve(h, root, None, h[root as int].local_changed, (h.len() - 1) as nat)
    }
}

/// The cycle over the objects from handle `from` on.
pub open spec fn visit_roots(h: Seq<ObjectView>, from: nat) -> PropagationView
    decreases h.len() - from,
{
    if from >= h.len() {
        nothing()
    } else {
        then_unless_stopped(visit_root(h, from as usize), visit_roots(h, from + 1))
    }
}

/// One whole propagation cycle: every root in the order of the handles, each
/// with all that hangs below it, up to the first corruption.
pub open spec fn propagation(h: Seq<ObjectView>) -> PropagationView {
    visit_roots(h, 0)
}

/// The budget is only a measure: along a descent, every budget that is at
/// least the number of objects that are not on the descent gives the same, so
/// that a cycle, which starts each root with one less than the number of
/// objects, never uses its budget up.
pub proof fn lemma_ample_budget(
    h: Seq<ObjectView>,
    path: Seq<int>,
    object: usize,
    expected_parent: usize,
    changed_in: bool,
    budget: nat,
    other: nat,
)
    requires
        is_chain(h, path),
        path.last() == expected_parent,
        budget + path.len() >= h.len(),
        other + path.len() >= h.len(),
    ensures
        visit(h, object, expected_parent, changed_in, budget) == visit(
            h,
            object,
            expected_parent,
            changed_in,
            other,
        ),
    decreases h.len() - path.len(), 0nat,
{
    lemma_chain_bounded(h, path);
    if object < h.len() && h[object as int].parent == Some(expected_parent) {
        let below = path.push(object as int);
        lemma_chain_extends(h, path, object as int);
        lemma_chain_bounded(h, below);
        let changed = changed_in || h[object as int].local_changed;
        lemma_ample_budget_children(
            h,
            below,
            object,
            0,
            changed || h[object as int].children_changed,
            (budget - 1) as nat,
            (other - 1) as nat,
        );
    }
}

/// The same for the step on the children of the last object of a descent.
pub proof fn lemma_ample_budget_children(
    h: Seq<ObjectView>,
    path: Seq<int>,
    parent: usize,
    from: nat,
    changed: bool,
    budget: nat,
    other: nat,
)
    requires
        is_chain(h, path),
        path.last() == parent,
        budget + path.len() >= h.len(),
        other + path.len() >= h.len(),
    ensures
        visit_children(h, parent, from, changed, budget) == visit_children(
            h,
            parent,
            from,
            changed,
            other,
        ),
    decreases h.len() - path.len(), 1 + h[parent as int].children.len() - from,
{
    lemma_chain_bounded(h, path);
    if parent < h.len() && from < h[parent as int].children.len() {
        lemma_ample_budget(
            h,
            path,
            h[parent as int].children[from as int],
            parent,
            changed,
            budget,
            other,
        );
        lemma_ample_budget_children(h, path, parent, from + 1, changed, budget, other);
    }
}

/// The recursive step of a cycle on `object`, reached through the children of
/// `expected_parent`. The writes are appended to `updates`.
///
/// `path` is the chain from the root to `expected_parent` along which the
/// descent came. It is what bounds the depth: a recorded parent that agrees
/// with the descent at every step cannot lead back to an object already on it.
pub(crate) fn propagate_recursive(
    h: &Hierarchy,
    object: usize,
    expected_parent: usize,
    changed_in: bool,
    updates: &mut Vec<Update>,
    Ghost(path): Ghost<Seq<int>>,
) -> (corruption: Option<HierarchyCorruption>)
    requires
        is_chain(h@, path),
        path.last() == expected_parent,
    ensures
        final(updates)@ == old(updates)@ + visit(
            h@,
            object,
            expected_parent,
            changed_in,
            (h@.len() - path.len()) as nat,
        ).updates,
        corruption == visit(
            h@,
            object,
            expected_parent,
            changed_in,
            (h@.len() - path.len()) as nat,
        ).corruption,
    decreases h@.len() - path.len(), 0nat,
{
    proof {
        lemma_chain_bounded(h@, path);
    }
    if object >= h.objects.len() {
        assert(updates@ =~= old(updates)@ + Seq::<Update>::empty());
        return None;
    }
    let recorded_parent = h.objects[object].parent;
    let agrees = match recorded_parent {
        Some(p) => p == expected_parent,
        None => false,
    };
    if !agrees {
        assert(updates@ =~= old(updates)@ + Seq::<Update>::empty());
        return Some(HierarchyCorruption { object, expected_parent, recorded_parent });
    }
    let ghost below = path.push(object as int);
    proof {
        lemma_chain_extends(h@, path, object as int);
        lemma_chain_bounded(h@, below);
    }
    let changed = changed_in || h.objects[object].local_changed;
    if changed {
        updates.push(
            Update { object, parent: Some(expected_parent), policy: h.policy_of(object) },
        );
    }
    let ghost own = own_update(h@, object, Some(expected_parent), changed);
    assert(updates@ =~= old(updates)@ + own);
    let down = changed || h.objects[object].children_changed;
    let stopped = propagate_children(h, object, down, updates, Ghost(below));
    proof {
        let all = visit_children(h@, object, 0, down, (h@.len() - below.len()) as nat);
        assert(updates@ =~= old(updates)@ + (own + all.updates));
    }
    stopped
}

/// The recursive step on each child of `parent` in order, up to the first
/// corruption. The writes are appended to `updates`.
///
/// `path` is the chain from the root to `parent`.
pub(crate) fn propagate_children(
    h: &Hierarchy,
    parent: usize,
    changed: bool,
    updates: &mut Vec<Update>,
    Ghost(path): Ghost<Seq<int>>,
) -> (corruption: Option<HierarchyCorruption>)
    requires
        is_chain(h@, path),
        path.last() == parent,
    ensures
        final(updates)@ == old(updates)@ + visit_children(
            h@,
            parent,
            0,
            changed,
            (h@.len() - path.len()) as nat,
        ).updates,
        corruption == visit_children(
            h@,
            parent,
            0,
            changed,
            (h@.len() - path.len()) as nat,
        ).corruption,
    decreases h@.len() - path.len(), 1nat,
{
    let ghost budget = (h@.len() - path.len()) as nat;
    let ghost all = visit_children(h@, parent, 0, changed, budget);
    let ghost done = Seq::<Update>::empty();
    let n = h.objects[parent].children.len();
    let mut i: usize = 0;
    while i < n
        invariant
            parent < h@.len(),
            n == h@[parent as int].children.len(),
            0 <= i <= n,
            is_chain(h@, path),
            path.last() == parent,
            budget == (h@.len() - path.len()) as nat,
            updates@ == old(updates)@ + done,
            all == visit_children(h@, parent, 0, changed, budget),
            all == then_unless_stopped(
                (PropagationView { updates: done, corruption: None }),
                visit_children(h@, parent, i as nat, changed, budget),
            ),
        decreases n - i,
    {
        let child = h.objects[parent].children[i];
        let ghost first = visit(h@, child, parent, changed, budget);
        let ghost rest = visit_children(h@, parent, (i + 1) as nat, changed, budget);
        assert(visit_children(h@, parent, i as nat, changed, budget) == then_unless_stopped(
            first,
            rest,
        ));
        let stopped = propagate_recursive(h, child, parent, changed, updates, Ghost(path));
        proof {
            assert(updates@ =~= old(updates)@ + (done + first.updates));
            done = done + first.updates;
        }
        if stopped.is_some() {
            assert(all.updates =~= done);
            return stopped;
        }
        assert(all.updates =~= done + rest.updates);
        i = i + 1;
    }
    assert(all.updates =~= done);
    None
}

/// The root phase and the descent for every root in the order of the handles,
/// up to the first corruption.
fn propagate_roots(h: &Hierarchy) -> (r: Propagation)
    ensures
        r@ == propagation(h@),
{
    let mut updates: Vec<Update> = Vec::new();
    let n = h.objects.len();
    let mut root: usize = 0;
    while root < n
        invariant
            n == h@.len(),
            0 <= root <= n,
            propagation(h@) == then_unless_stopped(
                (PropagationView { updates: updates@, corruption: None }),
                visit_roots(h@, root as nat),
            ),
        decreases n - root,
    {
        let ghost before = updates@;
        let ghost rest = visit_roots(h@, (root + 1) as nat);
        assert(visit_roots(h@, root as nat) == then_unless_stopped(visit_root(h@, root), rest));
        if h.objects[root].parent.is_none() {
            let local_changed = h.objects[root].local_changed;
            if local_changed {
                updates.push(Update { object: root, parent: None, policy: Propagate(ALL_BITS) });
            }
            let ghost own = own_update(h@, root, None, local_changed);
            assert(updates@ =~= before + own);
            let down = local_changed || h.objects[root].children_changed;
            let ghost path = seq![root as int];
            let stopped = propagate_children(h, root, down, &mut updates, Ghost(path));
            proof {
                let below = visit_children(h@, root, 0, down, (h@.len() - 1) as nat);
                assert(updates@ =~= before + (own + below.updates));
            }
            if stopped.is_some() {
                return Propagation { updates, corruption: stopped };
            }
        } else {
            assert(updates@ =~= before + Seq::<Update>::empty());
        }
        assert(propagation(h@).updates =~= updates@ + rest.updates);
        root = root + 1;
    }
    assert(propagation(h@).updates =~= updates@);
    Propagation { updates, corruption: None }
}

/// Runs one propagation cycle over `h`.
///
/// Returns the writes of global transforms that the cycle asks for, in the
/// order in which they are to be made, and the corruption that stopped it, if
/// one was met: the writes before it stand.
///
/// Over a forest no corruption is met, and the writes are those of the
/// changed subtrees, each object once and no child before its parent: an
/// object is written if and only if its local transform changed, or its
/// parent's list of children changed, or its parent is written.
pub fn transform_2d_propagate_system(h: &Hierarchy) -> (r: Propagation)
    ensures
        r@ == propagation(h@),
        is_forest(h@) ==> {
            &&& r@.corruption is None
            &&& faithful(h@, r@.updates)
            &&& unique(r@.updates)
            &&& ordered(h@, r@.updates)
            &&& forall|n: int|
                0 <= n < h@.len() ==> (#[trigger] writes(r@.updates, n) <==> due(h@, r@.updates, n))
        },
{
    proof {
        if is_forest(h@) {
            lemma_cycle_well_behaved(h@);
            assert forall|n: int| 0 <= n < h@.len() implies (#[trigger] writes(
                propagation(h@).updates,
                n,
            ) <==> due(h@, propagation(h@).updates, n)) by {
                lemma_cycle_writes_what_changed(h@, n);
            }
        }
    }
    propagate_roots(h)
}

} // verus!
