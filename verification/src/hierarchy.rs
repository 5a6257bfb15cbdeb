//! The hierarchy that a cycle reads: objects by handle, with their parent
//! records, lists of children, change flags and policies.

use vstd::prelude::*;
use crate::edits::lemma_cleared_is_forest;
use crate::edits::lemma_detached_is_forest;
use crate::edits::lemma_empty_is_forest;
use crate::edits::lemma_reparented_is_forest;
use crate::edits::lemma_spawned_is_forest;
use crate::forest::is_forest;
use crate::forest::is_under;
use crate::propagate::ALL_BITS;
use crate::propagate::Propagate;

verus! {

/// One object of the scene graph, as a propagation cycle reads it.
///
/// Objects are named by their index in the [`Hierarchy`] that holds them.
#[derive(Clone, Debug, PartialEq, Eq)]
pub struct Object {
    /// The parent that the object itself records; `None` for a root.
    pub parent: Option<usize>,
    /// The children that the object lists, in order.
    pub children: Vec<usize>,
    /// Whether the local transform changed since the last cycle.
    pub local_changed: bool,
    /// Whether the list of children changed since the last cycle.
    pub children_changed: bool,
    /// The inheritance policy; `None` inherits every axis.
    pub policy: Option<Propagate>,
}

/// The mathematical value of an [`Object`].
pub struct ObjectView {
    pub parent: Option<usize>,
    pub children: Seq<usize>,
    pub local_changed: bool,
    pub children_changed: bool,
    pub policy: Option<Propagate>,
}

impl View for Object {
    type V = ObjectView;

    open spec fn view(&self) -> ObjectView {
        ObjectView {
            parent: self.parent,
            children: self.children@,
            local_changed: self.local_changed,
            children_changed: self.children_changed,
            policy: self.policy,
        }
    }
}

/// The parent and child edges of a scene, with the change flags of each object.
///
/// Nothing is required of the edges: a propagation cycle defends itself
/// against records that contradict each other.
#[derive(Clone, Debug, PartialEq, Eq)]
pub struct Hierarchy {
    pub objects: Vec<Object>,
}

impl View for Hierarchy {
    type V = Seq<ObjectView>;

    open spec fn view(&self) -> Seq<ObjectView> {
        Seq::new(self.objects@.len(), |i: int| self.objects@[i]@)
    }
}

/// The policy in force for `object`: its own, or every axis where it has
/// none, or where the handle names no object.
pub open spec fn policy_of(h: Seq<ObjectView>, object: int) -> Propagate {
    if 0 <= object < h.len() {
        match h[object].policy {
            Some(policy) => policy,
            None => Propagate(ALL_BITS),
        }
    } else {
        Propagate(ALL_BITS)
    }
}

/// The list `s` without the handle `x`, in the same order.
pub open spec fn without(s: Seq<usize>, x: usize) -> Seq<usize>
    decreases s.len(),
{
    if s.len() == 0 {
        s
    } else if s.last() == x {
        without(s.drop_last(), x)
    } else {
        without(s.drop_last(), x).push(s.last())
    }
}

/// Nothing changed since the last cycle: no local transform and no list of
/// children.
pub open spec fn quiet(h: Seq<ObjectView>) -> bool {
    forall|n: int|
        0 <= n < h.len() ==> !(#[trigger] h[n]).local_changed && !h[n].children_changed
}

/// The hierarchy after every change flag was cleared.
pub open spec fn cleared(h: Seq<ObjectView>) -> Seq<ObjectView> {
    Seq::new(
        h.len(),
        |i: int| ObjectView { local_changed: false, children_changed: false, ..h[i] },
    )
}

/// The hierarchy after `x` was taken from its parent and made a root. The
/// parent's list of children counts as changed, and so does the local
/// transform of `x`, which from now on is relative to the world.
pub open spec fn detached(h: Seq<ObjectView>, x: int) -> Seq<ObjectView> {
    match h[x].parent {
        None => h,
        Some(a) => {
            let unlisted = if a < h.len() {
                h.update(
                    a as int,
                    ObjectView {
                        children: without(h[a as int].children, x as usize),
                        children_changed: true,
                        ..h[a as int]
                    },
                )
            } else {
                h
            };
            unlisted.update(x, ObjectView { parent: None, local_changed: true, ..unlisted[x] })
        },
    }
}

/// The hierarchy after `x` was put last among the children of `b` and made
/// to record `b`. The list of children of `b` counts as changed.
pub open spec fn attached(h: Seq<ObjectView>, x: int, b: int) -> Seq<ObjectView> {
    let listed = h.update(
        b,
        ObjectView { children: h[b].children.push(x as usize), children_changed: true, ..h[b] },
    );
    listed.update(x, ObjectView { parent: Some(b as usize), ..listed[x] })
}

/// The hierarchy after `x` was moved from where it was to `parent`, or made
/// a root where `parent` is `None`.
pub open spec fn reparented(h: Seq<ObjectView>, x: int, parent: Option<usize>) -> Seq<ObjectView> {
    match parent {
        None => detached(h, x),
        Some(b) => attached(detached(h, x), x, b as int),
    }
}

impl Hierarchy {
    /// A hierarchy without objects.
    pub fn new() -> (r: Hierarchy)
        ensures
            r@ == Seq::<ObjectView>::empty(),
            is_forest(r@),
    {
        let r = Hierarchy { objects: Vec::new() };
        assert(r@ =~= Seq::<ObjectView>::empty());
        proof {
            lemma_empty_is_forest();
        }
        r
    }

    /// The number of objects.
    pub fn len(&self) -> (n: usize)
        ensures
            n == self@.len(),
    {
        self.objects.len()
    }

    /// Adds a root object without children and returns its handle.
    ///
    /// A new object counts as changed, so that the next cycle resolves it.
    pub fn spawn(&mut self, policy: Option<Propagate>) -> (object: usize)
        ensures
            object == old(self)@.len(),
            final(self)@ == old(self)@.push(
                (ObjectView {
                    parent: None,
                    children: Seq::empty(),
                    local_changed: true,
                    children_changed: false,
                    policy,
                }),
            ),
            is_forest(old(self)@) && old(self)@.len() < usize::MAX ==> is_forest(final(self)@),
    {
        let object = self.objects.len();
        self.objects.push(
            Object {
                parent: None,
                children: Vec::new(),
                local_changed: true,
                children_changed: false,
                policy,
            },
        );
        assert(self@ =~= old(self)@.push(
            (ObjectView {
                parent: None,
                children: Seq::empty(),
                local_changed: true,
                children_changed: false,
                policy,
            }),
        ));
        proof {
            if is_forest(old(self)@) && old(self)@.len() < usize::MAX {
                lemma_spawned_is_forest(
                    old(self)@,
                    ObjectView {
                        parent: None,
                        children: Seq::empty(),
                        local_changed: true,
                        children_changed: false,
                        policy,
                    },
                );
            }
        }
        object
    }

    /// Clears every change flag, as the store does between two cycles.
    pub fn clear_changes(&mut self)
        ensures
            final(self)@ == cleared(old(self)@),
            quiet(final(self)@),
            is_forest(old(self)@) ==> is_forest(final(self)@),
    {
        let n = self.objects.len();
        let mut i: usize = 0;
        while i < n
            invariant
                n == old(self)@.len(),
                self@.len() == n,
                0 <= i <= n,
                forall|k: int| 0 <= k < i ==> #[trigger] self@[k] == cleared(old(self)@)[k],
                forall|k: int| i <= k < n ==> #[trigger] self@[k] == old(self)@[k],
            decreases n - i,
        {
            let ghost before = self@;
            self.objects[i].local_changed = false;
            self.objects[i].children_changed = false;
            assert(self@ =~= before.update(
                i as int,
                ObjectView { local_changed: false, children_changed: false, ..before[i as int] },
            ));
            i = i + 1;
        }
        assert(self@ =~= cleared(old(self)@));
        proof {
            if is_forest(old(self)@) {
                lemma_cleared_is_forest(old(self)@);
            }
        }
    }

    /// Takes `x` from its parent, if it has one, and makes it a root.
    /// Nothing happens where `x` names no object.
    pub fn detach(&mut self, x: usize)
        ensures
            x < old(self)@.len() ==> final(self)@ == detached(old(self)@, x as int),
            x >= old(self)@.len() ==> final(self)@ == old(self)@,
            is_forest(old(self)@) ==> is_forest(final(self)@),
    {
        if x >= self.objects.len() {
            return ;
        }
        proof {
            if is_forest(old(self)@) {
                lemma_detached_is_forest(old(self)@, x as int);
            }
        }
        match self.objects[x].parent {
            None => {},
            Some(a) => {
                if a < self.objects.len() {
                    let mut kept: Vec<usize> = Vec::new();
                    let n = self.objects[a].children.len();
                    let mut i: usize = 0;
                    while i < n
                        invariant
                            self@ == old(self)@,
                            a < self@.len(),
                            n == self@[a as int].children.len(),
                            0 <= i <= n,
                            kept@ == without(self@[a as int].children.take(i as int), x),
                        decreases n - i,
                    {
                        let c = self.objects[a].children[i];
                        proof {
                            let list = self@[a as int].children;
                            assert(list.take(i + 1).drop_last() =~= list.take(i as int));
                            assert(list.take(i + 1).last() == c);
                        }
                        if c != x {
                            kept.push(c);
                        }
                        i = i + 1;
                    }
                    proof {
                        let list = self@[a as int].children;
                        assert(list.take(n as int) =~= list);
                    }
                    self.objects[a].children = kept;
                    self.objects[a].children_changed = true;
                }
                self.objects[x].parent = None;
                self.objects[x].local_changed = true;
                assert(self@ =~= detached(old(self)@, x as int));
            },
        }
    }

    /// Puts `x` last among the children of `b` and makes it record `b`.
    fn attach(&mut self, x: usize, b: usize)
        requires
            x < old(self)@.len(),
            b < old(self)@.len(),
        ensures
            final(self)@ == attached(old(self)@, x as int, b as int),
    {
        self.objects[b].children.push(x);
        self.objects[b].children_changed = true;
        self.objects[x].parent = Some(b);
        assert(self@ =~= attached(old(self)@, x as int, b as int));
    }

    /// Moves `x` below `parent`, last among its children, or makes it a root
    /// where `parent` is `None`. Returns whether the move was made: nothing
    /// happens where `x` or `parent` names no object.
    ///
    /// The edges stay those of a forest unless `x` is moved below itself.
    pub fn set_parent(&mut self, x: usize, parent: Option<usize>) -> (moved: bool)
        ensures
            moved == (x < old(self)@.len() && (parent matches Some(b) ==> b < old(self)@.len())),
            moved ==> final(self)@ == reparented(old(self)@, x as int, parent),
            !moved ==> final(self)@ == old(self)@,
            is_forest(old(self)@) && (parent matches Some(b) ==> !is_under(
                old(self)@,
                b as int,
                x as int,
            )) ==> is_forest(final(self)@),
    {
        if x >= self.objects.len() {
            return false;
        }
        if let Some(b) = parent {
            if b >= self.objects.len() {
                return false;
            }
        }
        self.detach(x);
        if let Some(b) = parent {
            assert(self@.len() == old(self)@.len());
            self.attach(x, b);
        }
        proof {
            if is_forest(old(self)@) && (parent matches Some(b) ==> !is_under(
                old(self)@,
                b as int,
                x as int,
            )) {
                lemma_reparented_is_forest(old(self)@, x as int, parent);
            }
        }
        true
    }

    /// The roots, in the order of their handles.
    pub fn roots(&self) -> (r: Vec<usize>)
        ensures
            forall|i: int| 0 <= i < r@.len() ==> r@[i] < self@.len() && self@[r@[i] as int].parent is None,
            forall|i: int, j: int| 0 <= i < j < r@.len() ==> r@[i] < r@[j],
            forall|n: int|
                0 <= n < self@.len() && (#[trigger] self@[n]).parent is None ==> r@.contains(
                    n as usize,
                ),
    {
        let mut r: Vec<usize> = Vec::new();
        let n = self.objects.len();
        let mut i: usize = 0;
        while i < n
            invariant
                n == self@.len(),
                0 <= i <= n,
                forall|k: int| 0 <= k < r@.len() ==> r@[k] < i && self@[r@[k] as int].parent is None,
                forall|k: int, j: int| 0 <= k < j < r@.len() ==> r@[k] < r@[j],
                forall|m: int|
                    0 <= m < i && (#[trigger] self@[m]).parent is None ==> r@.contains(m as usize),
            decreases n - i,
        {
            if self.objects[i].parent.is_none() {
                let ghost before = r@;
                r.push(i);
                assert forall|m: int|
                    0 <= m < i + 1 && (#[trigger] self@[m]).parent is None implies r@.contains(
                    m as usize,
                ) by {
                    if m < i {
                        let k = choose|k: int| 0 <= k < before.len() && before[k] == m as usize;
                        assert(r@[k] == m as usize);
                    } else {
                        assert(r@[r@.len() - 1] == m as usize);
                    }
                }
            }
            i = i + 1;
        }
        r
    }

    /// The parent that `object` records, or `None` for a root and for a
    /// handle that names no object.
    pub fn parent_of(&self, object: usize) -> (parent: Option<usize>)
        ensures
            parent == if object < self@.len() {
                self@[object as int].parent
            } else {
                None
            },
    {
        if object < self.objects.len() {
            self.objects[object].parent
        } else {
            None
        }
    }

    /// The children that `object` lists, in order; none for a handle that
    /// names no object.
    pub fn children_of(&self, object: usize) -> (children: &[usize])
        ensures
            children@ == if object < self@.len() {
                self@[object as int].children
            } else {
                Seq::empty()
            },
    {
        if object < self.objects.len() {
            self.objects[object].children.as_slice()
        } else {
            &[]
        }
    }

    /// Whether the local transform of `object` changed since the last cycle.
    pub fn local_changed(&self, object: usize) -> (changed: bool)
        ensures
            changed == (object < self@.len() && self@[object as int].local_changed),
    {
        object < self.objects.len() && self.objects[object].local_changed
    }

    /// Whether the list of children of `object` changed since the last cycle.
    pub fn children_changed(&self, object: usize) -> (changed: bool)
        ensures
            changed == (object < self@.len() && self@[object as int].children_changed),
    {
        object < self.objects.len() && self.objects[object].children_changed
    }

    /// The policy in force for `object`: its own, or every axis where it has
    /// none, or where the handle names no object.
    pub fn policy_of(&self, object: usize) -> (policy: Propagate)
        ensures
            policy == policy_of(self@, object as int),
    {
        if object < self.objects.len() {
            match self.objects[object].policy {
                Some(policy) => policy,
                None => Propagate(ALL_BITS),
            }
        } else {
            Propagate(ALL_BITS)
        }
    }
}

/// `child` records `parent` as its parent.
pub open spec fn records_parent(h: Seq<ObjectView>, child: int, parent: int) -> bool {
    h[child].parent matches Some(p) && p == parent
}

/// `path` leads from a root down to its last object, each object recording
/// the one before it as its parent.
pub open spec fn is_chain(h: Seq<ObjectView>, path: Seq<int>) -> bool {
    &&& path.len() >= 1
    &&& forall|i: int| 0 <= i < path.len() ==> 0 <= #[trigger] path[i] < h.len()
    &&& h[path[0]].parent is None
    &&& forall|i: int| 1 <= i < path.len() ==> records_parent(h, #[trigger] path[i], path[i - 1])
}

/// A chain goes on with an object that records its last object as parent.
pub proof fn lemma_chain_extends(h: Seq<ObjectView>, path: Seq<int>, c: int)
    requires
        is_chain(h, path),
        0 <= c < h.len(),
        records_parent(h, c, path.last()),
    ensures
        is_chain(h, path.push(c)),
{
    let longer = path.push(c);
    assert forall|i: int| 0 <= i < longer.len() implies 0 <= #[trigger] longer[i] < h.len() by {
        if i < path.len() {
            assert(longer[i] == path[i]);
        }
    }
    assert forall|i: int| 1 <= i < longer.len() implies records_parent(
        h,
        #[trigger] longer[i],
        longer[i - 1],
    ) by {
        if i < path.len() {
            assert(longer[i] == path[i]);
            assert(longer[i - 1] == path[i - 1]);
            assert(records_parent(h, path[i], path[i - 1]));
        }
    }
    assert(longer[0] == path[0]);
}

/// No object occurs twice on a chain: each has one parent record, and the
/// first has none.
pub proof fn lemma_chain_distinct(h: Seq<ObjectView>, path: Seq<int>, i: int, j: int)
    requires
        is_chain(h, path),
        0 <= i < j < path.len(),
    ensures
        path[i] != path[j],
    decreases i,
{
    if path[i] == path[j] {
        assert(records_parent(h, path[j], path[j - 1]));
        if i > 0 {
            assert(records_parent(h, path[i], path[i - 1]));
            lemma_chain_distinct(h, path, i - 1, j - 1);
        }
    }
}

/// A sequence of distinct naturals below `bound` has at most `bound` entries.
pub proof fn lemma_distinct_bounded(s: Seq<int>, bound: nat)
    requires
        forall|i: int| 0 <= i < s.len() ==> 0 <= #[trigger] s[i] < bound,
        forall|i: int, j: int| 0 <= i < j < s.len() ==> s[i] != s[j],
    ensures
        s.len() <= bound,
    decreases bound,
{
    if bound == 0 {
        if s.len() > 0 {
            assert(s[0] < bound);
        }
    } else if exists|k: int| 0 <= k < s.len() && s[k] == bound - 1 {
        let k = choose|k: int| 0 <= k < s.len() && s[k] == bound - 1;
        let rest = s.remove(k);
        assert forall|i: int| 0 <= i < rest.len() implies 0 <= #[trigger] rest[i] < bound - 1 by {
            if i < k {
                assert(rest[i] == s[i]);
                assert(s[i] != s[k]);
            } else {
                assert(rest[i] == s[i + 1]);
                assert(s[k] != s[i + 1]);
            }
        }
        assert forall|i: int, j: int| 0 <= i < j < rest.len() implies rest[i] != rest[j] by {
            let a = if i < k { i } else { i + 1 };
            let b = if j < k { j } else { j + 1 };
            assert(rest[i] == s[a]);
            assert(rest[j] == s[b]);
        }
        lemma_distinct_bounded(rest, (bound - 1) as nat);
    } else {
        assert forall|i: int| 0 <= i < s.len() implies 0 <= #[trigger] s[i] < bound - 1 by {
            assert(s[i] < bound);
        }
        lemma_distinct_bounded(s, (bound - 1) as nat);
    }
}

/// A chain is no longer than the hierarchy has objects.
pub proof fn lemma_chain_bounded(h: Seq<ObjectView>, path: Seq<int>)
    requires
        is_chain(h, path),
    ensures
        path.len() <= h.len(),
{
    assert forall|i: int, j: int| 0 <= i < j < path.len() implies path[i] != path[j] by {
        lemma_chain_distinct(h, path, i, j);
    }
    lemma_distinct_bounded(path, h.len());
}

} // verus!
