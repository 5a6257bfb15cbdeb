use transform2d::apply::apply_updates;
use transform2d::hierarchy::Hierarchy;
use transform2d::hierarchy::Object;
use transform2d::propagate::Propagate;
use transform2d::records::Record;
use transform2d::records::NO_OBJECT;
use transform2d::systems::transform_2d_propagate_system;
use transform2d::systems::HierarchyCorruption;
use transform2d::systems::Update;
use transform2d::transform2::GlobalTransform2;
use transform2d::transform2::Scalar;
use transform2d::transform2::Transform2;
use transform2d::transform2::Vec2;

fn num(s: Scalar) -> f32 {
    f32::from_bits(s.to_bits())
}

fn scalar(v: f32) -> Scalar {
    Scalar::from_bits(v.to_bits())
}

fn transform(x: f32, y: f32, depth: f32, rotation: f32, scale: f32) -> Transform2 {
    Transform2 {
        translation: Vec2 { x: scalar(x), y: scalar(y) },
        depth: scalar(depth),
        rotation: scalar(rotation),
        scale: scalar(scale),
    }
}

fn compose(parent: Transform2, local: Transform2) -> Transform2 {
    let (sin, cos) = num(parent.rotation).sin_cos();
    let s = num(parent.scale);
    let (x, y) = (num(local.translation.x), num(local.translation.y));
    Transform2 {
        translation: Vec2 {
            x: scalar(s * cos * x - s * sin * y + num(parent.translation.x)),
            y: scalar(s * sin * x + s * cos * y + num(parent.translation.y)),
        },
        depth: scalar(num(parent.depth) + num(local.depth)),
        rotation: scalar(num(parent.rotation) + num(local.rotation)),
        scale: scalar(s * num(local.scale)),
    }
}

fn object(parent: Option<usize>, children: Vec<usize>, local_changed: bool) -> Object {
    Object { parent, children, local_changed, children_changed: false, policy: None }
}

fn identities(n: usize) -> Vec<GlobalTransform2> {
    (0..n).map(|_| GlobalTransform2::identity()).collect()
}

fn update(object: usize, parent: Option<usize>, policy: Propagate) -> Update {
    Update { object, parent, policy }
}

/// 0 is a root with the children 1 and 2; 3 is a child of 1; 4 is a root.
fn two_trees() -> Hierarchy {
    Hierarchy {
        objects: vec![
            object(None, vec![1, 2], true),
            object(Some(0), vec![3], true),
            object(Some(0), vec![], true),
            object(Some(1), vec![], true),
            object(None, vec![], true),
        ],
    }
}

#[test]
fn first_cycle_writes_every_object_top_down() {
    let h = two_trees();
    let p = transform_2d_propagate_system(&h);
    assert_eq!(p.corruption, None);
    assert_eq!(
        p.updates,
        vec![
            update(0, None, Propagate::all()),
            update(1, Some(0), Propagate::all()),
            update(3, Some(1), Propagate::all()),
            update(2, Some(0), Propagate::all()),
            update(4, None, Propagate::all()),
        ]
    );
}

#[test]
fn cycle_settles_every_object() {
    let h = two_trees();
    let locals = vec![
        transform(10.0, 0.0, 5.0, 0.0, 2.0),
        transform(1.0, 0.0, 3.0, 0.5, 1.0),
        transform(0.0, 1.0, 0.0, 0.0, 3.0),
        transform(2.0, 2.0, 1.0, 0.25, 0.5),
        transform(-4.0, 7.0, 0.0, 1.0, 1.0),
    ];
    let mut globals = identities(5);
    let p = transform_2d_propagate_system(&h);
    apply_updates(&p.updates, &locals, &mut globals, compose);
    assert_eq!(globals[0].0, locals[0]);
    assert_eq!(globals[4].0, locals[4]);
    assert_eq!(globals[1].0, compose(globals[0].0, locals[1]));
    assert_eq!(globals[2].0, compose(globals[0].0, locals[2]));
    assert_eq!(globals[3].0, compose(globals[1].0, locals[3]));
    assert_eq!(num(globals[1].0.translation.x), 12.0);
    assert_eq!(num(globals[1].0.depth), 8.0);
    assert_eq!(num(globals[2].0.translation.y), 2.0);
    assert_eq!(num(globals[2].0.scale), 6.0);
}

#[test]
fn second_cycle_without_changes_writes_nothing() {
    let mut h = two_trees();
    let locals: Vec<Transform2> = (0..5).map(|i| transform(i as f32, 1.0, 0.5, 0.1, 1.5)).collect();
    let mut globals = identities(5);
    let first = transform_2d_propagate_system(&h);
    apply_updates(&first.updates, &locals, &mut globals, compose);
    let settled = globals.clone();
    h.clear_changes();
    let second = transform_2d_propagate_system(&h);
    assert_eq!(second.corruption, None);
    assert!(second.updates.is_empty());
    apply_updates(&second.updates, &locals, &mut globals, compose);
    assert_eq!(globals, settled);
}

#[test]
fn only_the_changed_subtree_is_written() {
    let mut h = two_trees();
    h.clear_changes();
    h.objects[1].local_changed = true;
    let p = transform_2d_propagate_system(&h);
    assert_eq!(p.corruption, None);
    assert_eq!(
        p.updates,
        vec![update(1, Some(0), Propagate::all()), update(3, Some(1), Propagate::all())]
    );
}

#[test]
fn changed_children_list_writes_the_children_not_the_parent() {
    let mut h = two_trees();
    h.clear_changes();
    h.objects[0].children_changed = true;
    let p = transform_2d_propagate_system(&h);
    assert_eq!(
        p.updates,
        vec![
            update(1, Some(0), Propagate::all()),
            update(3, Some(1), Propagate::all()),
            update(2, Some(0), Propagate::all()),
        ]
    );
}

#[test]
fn selective_inheritance_of_translation() {
    let mut h = Hierarchy::new();
    let parent = h.spawn(None);
    let child = h.spawn(Some(Propagate(Propagate::all().0 & !Propagate::translation().0)));
    assert!(h.set_parent(child, Some(parent)));
    let locals = vec![Transform2::from_xy(scalar(10.0), scalar(0.0)), Transform2::from_xy(scalar(1.0), scalar(0.0))];
    let mut globals = identities(2);
    let p = transform_2d_propagate_system(&h);
    apply_updates(&p.updates, &locals, &mut globals, compose);
    assert_eq!(num(globals[child].0.translation.x), 1.0);
    assert_eq!(num(globals[child].0.translation.y), 0.0);

    h.objects[child].policy = Some(Propagate::all());
    let p = transform_2d_propagate_system(&h);
    apply_updates(&p.updates, &locals, &mut globals, compose);
    assert_eq!(num(globals[child].0.translation.x), 11.0);
    assert_eq!(num(globals[child].0.translation.y), 0.0);
}

#[test]
fn depth_accumulates_where_inherited() {
    let mut h = Hierarchy::new();
    let parent = h.spawn(None);
    let child = h.spawn(None);
    assert!(h.set_parent(child, Some(parent)));
    let locals = vec![Transform2::from_depth(scalar(5.0)), Transform2::from_depth(scalar(3.0))];
    let mut globals = identities(2);
    let p = transform_2d_propagate_system(&h);
    apply_updates(&p.updates, &locals, &mut globals, compose);
    assert_eq!(num(globals[child].depth()), 8.0);

    h.objects[child].policy = Some(Propagate(Propagate::all().0 & !Propagate::depth().0));
    let p = transform_2d_propagate_system(&h);
    apply_updates(&p.updates, &locals, &mut globals, compose);
    assert_eq!(num(globals[child].depth()), 3.0);
}

#[test]
fn reparented_object_follows_its_new_parent() {
    let mut h = Hierarchy::new();
    let a = h.spawn(None);
    let b = h.spawn(None);
    let x = h.spawn(None);
    assert!(h.set_parent(x, Some(a)));
    let locals = vec![
        transform(100.0, 0.0, 1.0, 0.0, 1.0),
        transform(0.0, -7.0, 2.0, 0.0, 2.0),
        transform(1.0, 1.0, 0.0, 0.0, 1.0),
    ];
    let mut globals = identities(3);
    let p = transform_2d_propagate_system(&h);
    apply_updates(&p.updates, &locals, &mut globals, compose);
    assert_eq!(globals[x].0, compose(locals[a], locals[x]));
    h.clear_changes();

    assert!(h.set_parent(x, Some(b)));
    assert_eq!(h.objects[a].children, Vec::<usize>::new());
    assert_eq!(h.objects[b].children, vec![x]);
    assert_eq!(h.objects[x].parent, Some(b));
    let p = transform_2d_propagate_system(&h);
    assert_eq!(p.corruption, None);
    assert_eq!(p.updates, vec![update(x, Some(b), Propagate::all())]);
    apply_updates(&p.updates, &locals, &mut globals, compose);
    assert_eq!(globals[x].0, compose(globals[b].0, locals[x]));
    assert_eq!(num(globals[x].0.translation.x), 2.0);
    assert_eq!(num(globals[x].0.translation.y), -5.0);
}

#[test]
fn detached_object_becomes_a_changed_root() {
    let mut h = two_trees();
    h.clear_changes();
    assert!(h.set_parent(1, None));
    assert_eq!(h.objects[0].children, vec![2]);
    assert!(h.objects[0].children_changed);
    assert_eq!(h.objects[1].parent, None);
    assert_eq!(h.roots(), vec![0, 1, 4]);
    let p = transform_2d_propagate_system(&h);
    assert_eq!(
        p.updates,
        vec![
            update(2, Some(0), Propagate::all()),
            update(1, None, Propagate::all()),
            update(3, Some(1), Propagate::all()),
        ]
    );
}

#[test]
fn set_parent_refuses_unknown_handles() {
    let mut h = two_trees();
    assert!(!h.set_parent(9, Some(0)));
    assert!(!h.set_parent(1, Some(9)));
    h.detach(9);
    assert_eq!(h.objects[1].parent, Some(0));
    assert_eq!(h.objects[0].children, vec![1, 2]);
    assert_eq!(h.len(), 5);
}

#[test]
fn swapped_parent_record_is_a_corruption() {
    // 0 is a root, 1 its child and 2 its grandchild; 3 is another root.
    let mut h = Hierarchy {
        objects: vec![
            object(None, vec![1], true),
            object(Some(0), vec![2], true),
            object(Some(1), vec![], true),
            object(None, vec![], true),
        ],
    };
    h.objects[1].parent = Some(3);
    let p = transform_2d_propagate_system(&h);
    assert_eq!(
        p.corruption,
        Some(HierarchyCorruption { object: 1, expected_parent: 0, recorded_parent: Some(3) })
    );
    assert_eq!(p.updates, vec![update(0, None, Propagate::all())]);
}

#[test]
fn listed_child_without_parent_record_is_a_corruption() {
    let h = Hierarchy {
        objects: vec![object(None, vec![1], false), object(None, vec![], false)],
    };
    let p = transform_2d_propagate_system(&h);
    assert_eq!(
        p.corruption,
        Some(HierarchyCorruption { object: 1, expected_parent: 0, recorded_parent: None })
    );
    assert!(p.updates.is_empty());
}

#[test]
fn corruption_keeps_the_writes_made_before_it() {
    let mut h = two_trees();
    h.objects[2].parent = Some(4);
    let p = transform_2d_propagate_system(&h);
    assert_eq!(
        p.corruption,
        Some(HierarchyCorruption { object: 2, expected_parent: 0, recorded_parent: Some(4) })
    );
    assert_eq!(
        p.updates,
        vec![
            update(0, None, Propagate::all()),
            update(1, Some(0), Propagate::all()),
            update(3, Some(1), Propagate::all()),
        ]
    );
}

#[test]
fn cycle_of_edges_ends_in_a_corruption() {
    // 1 and 2 list each other; 0 lists 1, which records 0.
    let h = Hierarchy {
        objects: vec![
            object(None, vec![1], true),
            object(Some(0), vec![2], false),
            object(Some(1), vec![1], false),
        ],
    };
    let p = transform_2d_propagate_system(&h);
    assert_eq!(
        p.corruption,
        Some(HierarchyCorruption { object: 1, expected_parent: 2, recorded_parent: Some(0) })
    );
    assert_eq!(
        p.updates,
        vec![
            update(0, None, Propagate::all()),
            update(1, Some(0), Propagate::all()),
            update(2, Some(1), Propagate::all()),
        ]
    );
}

#[test]
fn objects_without_a_root_above_them_are_never_reached() {
    let h = Hierarchy {
        objects: vec![object(Some(1), vec![1], true), object(Some(0), vec![0], true)],
    };
    let p = transform_2d_propagate_system(&h);
    assert_eq!(p.corruption, None);
    assert!(p.updates.is_empty());
}

#[test]
fn handle_of_no_object_is_passed_over() {
    let h = Hierarchy { objects: vec![object(None, vec![7, 1], true), object(Some(0), vec![], false)] };
    let p = transform_2d_propagate_system(&h);
    assert_eq!(p.corruption, None);
    assert_eq!(
        p.updates,
        vec![update(0, None, Propagate::all()), update(1, Some(0), Propagate::all())]
    );
}

#[test]
fn update_carries_the_policy_of_the_child() {
    let mut h = Hierarchy::new();
    let root = h.spawn(Some(Propagate::nothing()));
    let child = h.spawn(Some(Propagate::rotation()));
    assert!(h.set_parent(child, Some(root)));
    assert_eq!(h.policy_of(child), Propagate::rotation());
    assert_eq!(h.policy_of(root), Propagate::nothing());
    let p = transform_2d_propagate_system(&h);
    assert_eq!(
        p.updates,
        vec![update(root, None, Propagate::all()), update(child, Some(root), Propagate::rotation())]
    );
}

#[test]
fn updates_that_cannot_be_made_change_nothing() {
    let locals = vec![transform(1.0, 2.0, 3.0, 0.0, 1.0)];
    let mut globals = identities(1);
    let updates = vec![
        update(3, None, Propagate::all()),
        update(0, Some(5), Propagate::all()),
    ];
    apply_updates(&updates, &locals, &mut globals, compose);
    assert_eq!(globals, identities(1));
}

#[test]
fn empty_hierarchy_asks_for_nothing() {
    let h = Hierarchy::new();
    assert_eq!(h.len(), 0);
    assert_eq!(h.roots(), Vec::<usize>::new());
    let p = transform_2d_propagate_system(&h);
    assert_eq!(p.corruption, None);
    assert!(p.updates.is_empty());
}

#[test]
fn records_become_objects_in_order() {
    let record = |id: u64, parent: Option<u64>, children: Vec<u64>| Record {
        id,
        parent,
        children,
        local_changed: true,
        children_changed: false,
        policy: None,
    };
    let records = vec![
        record(700, Some(40), vec![]),
        record(40, None, vec![700, 9, 55]),
        record(55, Some(40), vec![]),
        record(8, Some(1234), vec![]),
    ];
    let h = Hierarchy::from_records(&records);
    assert_eq!(h.len(), 4);
    assert_eq!(h.objects[0].parent, Some(1));
    assert_eq!(h.objects[1].parent, None);
    assert_eq!(h.objects[1].children, vec![0, NO_OBJECT, 2]);
    assert_eq!(h.objects[2].parent, Some(1));
    assert_eq!(h.objects[3].parent, Some(NO_OBJECT));
    assert!(h.objects[0].local_changed);
    assert!(!h.objects[0].children_changed);
    assert_eq!(h.roots(), vec![1]);
    let p = transform_2d_propagate_system(&h);
    assert_eq!(p.corruption, None);
    assert_eq!(
        p.updates,
        vec![
            update(1, None, Propagate::all()),
            update(0, Some(1), Propagate::all()),
            update(2, Some(1), Propagate::all()),
        ]
    );
}

#[test]
fn last_record_of_an_identity_has_the_handle() {
    let record = |id: u64, parent: Option<u64>| Record {
        id,
        parent,
        children: vec![],
        local_changed: false,
        children_changed: false,
        policy: Some(Propagate::scale()),
    };
    let h = Hierarchy::from_records(&vec![record(5, None), record(5, None), record(6, Some(5))]);
    assert_eq!(h.objects[2].parent, Some(1));
    assert_eq!(h.objects[2].policy, Some(Propagate::scale()));
    assert_eq!(NO_OBJECT, usize::MAX);
}

#[test]
fn child_listed_twice_is_written_twice() {
    let h = Hierarchy {
        objects: vec![object(None, vec![1, 1], true), object(Some(0), vec![], false)],
    };
    let p = transform_2d_propagate_system(&h);
    assert_eq!(p.corruption, None);
    assert_eq!(
        p.updates,
        vec![
            update(0, None, Propagate::all()),
            update(1, Some(0), Propagate::all()),
            update(1, Some(0), Propagate::all()),
        ]
    );
}

#[test]
fn hierarchy_answers_for_every_handle() {
    let mut h = two_trees();
    h.objects[2].policy = Some(Propagate::depth());
    h.objects[1].local_changed = false;
    h.objects[1].children_changed = true;
    assert_eq!(h.roots(), vec![0, 4]);
    assert_eq!(h.parent_of(0), None);
    assert_eq!(h.parent_of(3), Some(1));
    assert_eq!(h.parent_of(17), None);
    assert_eq!(h.children_of(0), &[1, 2]);
    assert_eq!(h.children_of(4), &[] as &[usize]);
    assert_eq!(h.children_of(17), &[] as &[usize]);
    assert!(h.local_changed(0));
    assert!(!h.local_changed(1));
    assert!(!h.local_changed(17));
    assert!(h.children_changed(1));
    assert!(!h.children_changed(0));
    assert!(!h.children_changed(17));
    assert_eq!(h.policy_of(2), Propagate::depth());
    assert_eq!(h.policy_of(1), Propagate::all());
    assert_eq!(h.policy_of(17), Propagate::all());
}
