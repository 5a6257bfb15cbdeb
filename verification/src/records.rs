//! Hierarchies from the records of a store that names objects by identity.

use vstd::prelude::*;
use crate::hierarchy::Hierarchy;
use crate::hierarchy::Object;
use crate::hierarchy::ObjectView;
use crate::propagate::Propagate;
use std::collections::HashMap;

verus! {

broadcast use vstd::std_specs::hash::group_hash_axioms;

/// The handle that names no object: there are never that many.
pub const NO_OBJECT: usize = usize::MAX;

/// What a store holds of one object, with the objects named by the stable
/// identities that the store gives them.
#[derive(Clone, Debug, PartialEq, Eq)]
pub struct Record {
    /// The identity of the object.
    pub id: u64,
    /// The identity of the parent that the object records.
    pub parent: Option<u64>,
    /// The identities of the children that the object lists, in order.
    pub children: Vec<u64>,
    /// Whether the local transform changed since the last cycle.
    pub local_changed: bool,
    /// Whether the list of children changed since the last cycle.
    pub children_changed: bool,
    /// The inheritance policy; `None` inherits every axis.
    pub policy: Option<Propagate>,
}

/// The mathematical value of a [`Record`].
pub struct RecordView {
    pub id: u64,
    pub parent: Option<u64>,
    pub children: Seq<u64>,
    pub local_changed: bool,
    pub children_changed: bool,
    pub policy: Option<Propagate>,
}

impl View for Record {
    type V = RecordView;

    open spec fn view(&self) -> RecordView {
        RecordView {
            id: self.id,
            parent: self.parent,
            children: self.children@,
            local_changed: self.local_changed,
            children_changed: self.children_changed,
            policy: self.policy,
        }
    }
}

/// The views of the records, in order.
pub open spec fn views(records: Seq<Record>) -> Seq<RecordView> {
    Seq::new(records.len(), |i: int| records[i]@)
}

/// The handle of the object with the identity `id`: the position of the last
/// record of that identity, or [`NO_OBJECT`] where there is none.
pub open spec fn handle_of(records: Seq<RecordView>, id: u64) -> usize
    decreases records.len(),
{
    if records.len() == 0 {
        NO_OBJECT
    } else if records.last().id == id {
        (records.len() - 1) as usize
    } else {
        handle_of(records.drop_last(), id)
    }
}

/// The object that record `i` describes, with handles in place of identities.
pub open spec fn object_of(records: Seq<RecordView>, i: int) -> ObjectView {
    ObjectView {
        parent: match records[i].parent {
            Some(p) => Some(handle_of(records, p)),
            None => None,
        },
        children: Seq::new(
            records[i].children.len(),
            |k: int| handle_of(records, records[i].children[k]),
        ),
        local_changed: records[i].local_changed,
        children_changed: records[i].children_changed,
        policy: records[i].policy,
    }
}

/// The hierarchy that the records describe: one object for each record, in
/// order, so that the handle of an object is the position of its record.
pub open spec fn hierarchy_of(records: Seq<RecordView>) -> Seq<ObjectView> {
    Seq::new(records.len(), |i: int| object_of(records, i))
}

/// The handle that `index` holds for `id`.
fn lookup(index: &HashMap<u64, usize>, id: u64) -> (handle: usize)
    ensures
        handle == if index@.contains_key(id) {
            index@[id]
        } else {
            NO_OBJECT
        },
{
    match index.get(&id) {
        Some(handle) => *handle,
        None => NO_OBJECT,
    }
}

impl Hierarchy {
    /// The hierarchy that the records of a store describe.
    ///
    /// The handle of an object is the position of its record. An identity
    /// that no record has becomes [`NO_OBJECT`], which a cycle passes over
    /// among the children and takes for a corruption in a parent record.
    pub fn from_records(records: &Vec<Record>) -> (h: Hierarchy)
        ensures
            h@ == hierarchy_of(views(records@)),
    {
        let ghost all = views(records@);
        let n = records.len();
        let mut index: HashMap<u64, usize> = HashMap::new();
        let mut i: usize = 0;
        while i < n
            invariant
                n == records@.len(),
                all == views(records@),
                0 <= i <= n,
                forall|id: u64|
                    (if index@.contains_key(id) {
                        index@[id]
                    } else {
                        NO_OBJECT
                    }) == #[trigger] handle_of(all.take(i as int), id),
            decreases n - i,
        {
            let ghost before = index@;
            index.insert(records[i].id, i);
            proof {
                let upto = all.take(i + 1);
                assert(upto.drop_last() =~= all.take(i as int));
                assert(upto.last() == all[i as int]);
                assert(index@ == before.insert(records@[i as int].id, i));
                assert forall|id: u64|
                    (if index@.contains_key(id) {
                        index@[id]
                    } else {
                        NO_OBJECT
                    }) == #[trigger] handle_of(upto, id) by {
                    assert(handle_of(all.take(i as int), id) == handle_of(upto.drop_last(), id));
                }
            }
            i = i + 1;
        }
        assert(all.take(n as int) =~= all);
        let mut objects: Vec<Object> = Vec::new();
        let mut i: usize = 0;
        while i < n
            invariant
                n == records@.len(),
                all == views(records@),
                0 <= i <= n,
                forall|id: u64|
                    (if index@.contains_key(id) {
                        index@[id]
                    } else {
                        NO_OBJECT
                    }) == #[trigger] handle_of(all, id),
                objects@.len() == i,
                forall|k: int| 0 <= k < i ==> (#[trigger] objects@[k])@ == object_of(all, k),
            decreases n - i,
        {
            let record = &records[i];
            let parent = match record.parent {
                Some(p) => Some(lookup(&index, p)),
                None => None,
            };
            let mut children: Vec<usize> = Vec::new();
            let m = record.children.len();
            let mut k: usize = 0;
            while k < m
                invariant
                    m == record.children@.len(),
                    0 <= k <= m,
                    forall|id: u64|
                        (if index@.contains_key(id) {
                            index@[id]
                        } else {
                            NO_OBJECT
                        }) == #[trigger] handle_of(all, id),
                    children@.len() == k,
                    forall|j: int|
                        0 <= j < k ==> #[trigger] children@[j] == handle_of(
                            all,
                            record.children@[j],
                        ),
                decreases m - k,
            {
                children.push(lookup(&index, record.children[k]));
                k = k + 1;
            }
            let object = Object {
                parent,
                children,
                local_changed: record.local_changed,
                children_changed: record.children_changed,
                policy: record.policy,
            };
            assert(object@.children =~= object_of(all, i as int).children);
            objects.push(object);
            i = i + 1;
        }
        let h = Hierarchy { objects };
        assert(h@ =~= hierarchy_of(all));
        h
    }
}

} // verus!
