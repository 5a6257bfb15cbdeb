//! Making the writes that a cycle asks for.

use vstd::prelude::*;
use crate::laws::applied;
use crate::laws::can_be_made;
use crate::laws::written;
use crate::propagate::Propagate;
use crate::systems::Update;
use crate::transform2::GlobalTransform2;
use crate::transform2::Transform2;
use crate::transform2::propagated;

verus! {

/// `after` is `before` with the update `u` made, where `compose` gave the
/// composition of the parent's global transform with the local one.
///
/// An update that names an object without transforms, or a parent without a
/// global transform, changes nothing.
pub open spec fn update_made<F: Fn(Transform2, Transform2) -> Transform2>(
    u: Update,
    locals: Seq<Transform2>,
    before: Seq<GlobalTransform2>,
    after: Seq<GlobalTransform2>,
    compose: F,
) -> bool {
    if u.object >= before.len() || u.object >= locals.len() {
        after == before
    } else {
        match u.parent {
            None => after == before.update(
                u.object as int,
                GlobalTransform2(locals[u.object as int]),
            ),
            Some(p) => if p >= before.len() {
                after == before
            } else {
                exists|composed: Transform2|
                    #[trigger] compose.ensures(
                        (before[p as int].0, locals[u.object as int]),
                        composed,
                    ) && after == before.update(
                        u.object as int,
                        GlobalTransform2(propagated(composed, locals[u.object as int], u.policy)),
                    )
            },
        }
    }
}

/// `after` is `before` with the updates `w` made in order.
pub open spec fn updates_made<F: Fn(Transform2, Transform2) -> Transform2>(
    w: Seq<Update>,
    locals: Seq<Transform2>,
    before: Seq<GlobalTransform2>,
    after: Seq<GlobalTransform2>,
    compose: F,
) -> bool
    decreases w.len(),
{
    if w.len() == 0 {
        after == before
    } else {
        exists|mid: Seq<GlobalTransform2>|
            updates_made(w.drop_last(), locals, before, mid, compose) && #[trigger] update_made(
                w.last(),
                locals,
                mid,
                after,
                compose,
            )
    }
}

/// The transforms that the global transforms hold.
pub open spec fn bare(globals: Seq<GlobalTransform2>) -> Seq<Transform2> {
    Seq::new(globals.len(), |i: int| globals[i].0)
}

/// Propagation where `composition` composes: each axis from the composition
/// of parent and child where the policy inherits it, and from the child where
/// it does not.
pub open spec fn propagate_with(composition: spec_fn(Transform2, Transform2) -> Transform2) -> spec_fn(
    Transform2,
    Transform2,
    Propagate,
) -> Transform2 {
    |parent: Transform2, local: Transform2, policy: Propagate|
        propagated(composition(parent, local), local, policy)
}

/// Where `compose` computes the function `composition`, the updates when
/// made give what the laws of a cycle speak of.
pub proof fn lemma_updates_made_as_applied<F: Fn(Transform2, Transform2) -> Transform2>(
    w: Seq<Update>,
    locals: Seq<Transform2>,
    before: Seq<GlobalTransform2>,
    after: Seq<GlobalTransform2>,
    compose: F,
    composition: spec_fn(Transform2, Transform2) -> Transform2,
)
    requires
        forall|parent: Transform2, local: Transform2, r: Transform2| #[trigger]
            compose.ensures((parent, local), r) ==> r == composition(parent, local),
        updates_made(w, locals, before, after, compose),
    ensures
        bare(after) == applied(w, locals, bare(before), propagate_with(composition)),
    decreases w.len(),
{
    if w.len() > 0 {
        let u = w.last();
        let mid = choose|mid: Seq<GlobalTransform2>|
            updates_made(w.drop_last(), locals, before, mid, compose) && #[trigger] update_made(
                u,
                locals,
                mid,
                after,
                compose,
            );
        lemma_updates_made_as_applied(w.drop_last(), locals, before, mid, compose, composition);
        let step = propagate_with(composition);
        if can_be_made(u, locals, bare(mid)) {
            let value = written(u, locals, bare(mid), step);
            assert(after == mid.update(u.object as int, GlobalTransform2(value)));
            assert(bare(after) =~= bare(mid).update(u.object as int, value));
        }
    }
}

/// Makes the writes that a cycle asked for, in order.
///
/// `locals` and `globals` hold the transforms of the objects by handle.
/// `compose` is called with the parent's global transform and the child's
/// local one, and gives their composition; which of its axes the child takes
/// is decided here, by the policy of the update.
pub fn apply_updates<F: Fn(Transform2, Transform2) -> Transform2>(
    updates: &Vec<Update>,
    locals: &Vec<Transform2>,
    globals: &mut Vec<GlobalTransform2>,
    compose: F,
)
    requires
        forall|parent: Transform2, local: Transform2| compose.requires((parent, local)),
    ensures
        updates_made(updates@, locals@, old(globals)@, final(globals)@, compose),
{
    let n = updates.len();
    let mut i: usize = 0;
    while i < n
        invariant
            n == updates@.len(),
            0 <= i <= n,
            forall|parent: Transform2, local: Transform2| compose.requires((parent, local)),
            updates_made(updates@.take(i as int), locals@, old(globals)@, globals@, compose),
        decreases n - i,
    {
        let ghost mid = globals@;
        let u = updates[i];
        if u.object < globals.len() && u.object < locals.len() {
            let local = locals[u.object];
            match u.parent {
                None => {
                    globals[u.object] = GlobalTransform2(local);
                },
                Some(p) => {
                    if p < globals.len() {
                        let composed = compose(globals[p].0, local);
                        globals[u.object] = GlobalTransform2::propagate_transform(
                            composed,
                            local,
                            u.policy,
                        );
                    }
                },
            }
        }
        proof {
            let upto = updates@.take(i + 1);
            assert(upto.drop_last() =~= updates@.take(i as int));
            assert(upto.last() == u);
            assert(update_made(u, locals@, mid, globals@, compose));
            assert(updates_made(upto.drop_last(), locals@, old(globals)@, mid, compose));
            assert(update_made(upto.last(), locals@, mid, globals@, compose));
        }
        i = i + 1;
    }
    assert(updates@.take(n as int) =~= updates@);
}

} // verus!
