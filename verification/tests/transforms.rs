use transform2d::propagate::policy;
use transform2d::propagate::Propagate;
use transform2d::propagate::Transform2dPropagationDescriptor;
use transform2d::transform2::GlobalTransform2;
use transform2d::transform2::Scalar;
use transform2d::transform2::Transform2;
use transform2d::transform2::Vec2;
use transform2d::transform2::Vec3;
use transform2d::transform2::ONE_BITS;
use transform2d::transform_2d::GlobalTransform2d;
use transform2d::transform_2d::Transform2d;

fn scalar(v: f32) -> Scalar {
    Scalar::from_bits(v.to_bits())
}

fn num(s: Scalar) -> f32 {
    f32::from_bits(s.to_bits())
}

fn vec2(x: f32, y: f32) -> Vec2 {
    Vec2 { x: scalar(x), y: scalar(y) }
}

fn sample() -> (Transform2, Transform2) {
    let composed = Transform2 {
        translation: vec2(11.0, 0.5),
        depth: scalar(8.0),
        rotation: scalar(2.5),
        scale: scalar(6.0),
    };
    let local = Transform2 {
        translation: vec2(1.0, -0.5),
        depth: scalar(3.0),
        rotation: scalar(0.5),
        scale: scalar(2.0),
    };
    (composed, local)
}

#[test]
fn scalars_are_bit_patterns() {
    assert_eq!(ONE_BITS, 1.0f32.to_bits());
    assert_eq!(num(Scalar::one()), 1.0);
    assert_eq!(Scalar::zero().to_bits(), 0.0f32.to_bits());
    assert_eq!(Scalar::from_bits(0x4049_0fdb).to_bits(), 0x4049_0fdb);
    let nan = f32::NAN.to_bits() | 1;
    assert_eq!(Scalar::from_bits(nan).to_bits(), nan);
}

#[test]
fn identity_is_zero_offset_and_unit_scale() {
    let t = Transform2::identity();
    assert_eq!(num(t.translation.x), 0.0);
    assert_eq!(num(t.translation.y), 0.0);
    assert_eq!(num(t.depth), 0.0);
    assert_eq!(num(t.rotation), 0.0);
    assert_eq!(num(t.scale), 1.0);
    assert_eq!(Transform2::default(), t);
    assert_eq!(GlobalTransform2::default().0, t);
    assert_eq!(GlobalTransform2::identity().0, t);
}

#[test]
fn constructors_set_one_component() {
    let id = Transform2::identity();
    assert_eq!(
        Transform2::from_translation(vec2(3.0, 4.0)),
        Transform2 { translation: vec2(3.0, 4.0), ..id }
    );
    assert_eq!(
        Transform2::from_xy(scalar(3.0), scalar(4.0)),
        Transform2 { translation: vec2(3.0, 4.0), ..id }
    );
    assert_eq!(
        Transform2::from_xyz(scalar(3.0), scalar(4.0), scalar(5.0)),
        Transform2 { translation: vec2(3.0, 4.0), depth: scalar(5.0), ..id }
    );
    assert_eq!(
        Transform2::from_translation3(Vec3 { x: scalar(3.0), y: scalar(4.0), z: scalar(5.0) }),
        Transform2 { translation: vec2(3.0, 4.0), depth: scalar(5.0), ..id }
    );
    assert_eq!(
        Transform2::from_translation_z(vec2(3.0, 4.0), scalar(5.0)),
        Transform2 { translation: vec2(3.0, 4.0), depth: scalar(5.0), ..id }
    );
    assert_eq!(Transform2::from_rotation(scalar(2.0)), Transform2 { rotation: scalar(2.0), ..id });
    assert_eq!(Transform2::from_scale(scalar(4.0)), Transform2 { scale: scalar(4.0), ..id });
    assert_eq!(Transform2::from_depth(scalar(7.0)), Transform2 { depth: scalar(7.0), ..id });
}

#[test]
fn builders_replace_one_component() {
    let (t, _) = sample();
    assert_eq!(t.with_translation(vec2(0.0, 9.0)), Transform2 { translation: vec2(0.0, 9.0), ..t });
    assert_eq!(t.with_rotation(scalar(1.0)), Transform2 { rotation: scalar(1.0), ..t });
    assert_eq!(t.with_depth(scalar(-1.0)), Transform2 { depth: scalar(-1.0), ..t });
    assert_eq!(t.with_scale(scalar(0.5)), Transform2 { scale: scalar(0.5), ..t });
}

#[test]
fn global_transform_getters() {
    let (t, _) = sample();
    let g = GlobalTransform2::from(t);
    assert_eq!(g, GlobalTransform2(t));
    assert_eq!(*g.transform(), t);
    assert_eq!(g.translation(), t.translation);
    assert_eq!(g.rotation(), t.rotation);
    assert_eq!(g.scale(), t.scale);
    assert_eq!(g.depth(), t.depth);
}

#[test]
fn propagation_with_every_axis_is_composition() {
    let (composed, local) = sample();
    assert_eq!(GlobalTransform2::propagate_transform(composed, local, Propagate::all()).0, composed);
    assert_eq!(GlobalTransform2::propagate_transform(composed, local, Propagate(0xff)).0, composed);
    assert_eq!(GlobalTransform2::propagate_transform(composed, local, Propagate(0x1f)).0, composed);
}

#[test]
fn propagation_with_no_axis_is_the_local_transform() {
    let (composed, local) = sample();
    assert_eq!(GlobalTransform2::propagate_transform(composed, local, Propagate::nothing()).0, local);
    assert_eq!(GlobalTransform2::propagate_transform(composed, local, Propagate(0xf0)).0, local);
}

#[test]
fn propagation_selects_axis_by_axis() {
    let (composed, local) = sample();
    for bits in 0u8..=15 {
        let r = GlobalTransform2::propagate_transform(composed, local, Propagate(bits)).0;
        let expected = Transform2 {
            translation: if bits & 1 != 0 { composed.translation } else { local.translation },
            depth: if bits & 2 != 0 { composed.depth } else { local.depth },
            rotation: if bits & 4 != 0 { composed.rotation } else { local.rotation },
            scale: if bits & 8 != 0 { composed.scale } else { local.scale },
        };
        assert_eq!(r, expected);
    }
    let r = GlobalTransform2::propagate_transform(composed, local, Propagate::depth()).0;
    assert_eq!(num(r.depth), 8.0);
    assert_eq!(num(r.translation.x), 1.0);
    assert_eq!(num(r.rotation), 0.5);
    assert_eq!(num(r.scale), 2.0);
}

#[test]
fn descriptor_and_mask_agree() {
    for bits in 0u8..=15 {
        let d = Transform2dPropagationDescriptor {
            inherit_translation: bits & 1 != 0,
            inherit_z: bits & 2 != 0,
            inherit_rotation: bits & 4 != 0,
            inherit_scale: bits & 8 != 0,
        };
        assert_eq!(d.mask(), Propagate(bits));
        assert_eq!(policy(Some(&d)), Propagate(bits));
    }
    assert_eq!(policy(None), Propagate::all());
    assert_eq!(Transform2dPropagationDescriptor::default().mask(), Propagate::nothing());
}

#[test]
fn descriptor_selects_axis_by_axis() {
    let composed = Transform2d {
        translation: vec2(11.0, 0.5),
        z: scalar(8.0),
        rotation: scalar(2.5),
        scale: scalar(6.0),
    };
    let local = Transform2d {
        translation: vec2(1.0, -0.5),
        z: scalar(3.0),
        rotation: scalar(0.5),
        scale: scalar(2.0),
    };
    assert_eq!(GlobalTransform2d::propagate_transform(composed, local, None).0, composed);
    let none = Transform2dPropagationDescriptor::default();
    assert_eq!(GlobalTransform2d::propagate_transform(composed, local, Some(&none)).0, local);
    let d = Transform2dPropagationDescriptor { inherit_z: true, inherit_scale: true, ..none };
    let r = GlobalTransform2d::propagate_transform(composed, local, Some(&d));
    assert_eq!(r.translation(), local.translation);
    assert_eq!(num(r.transform().z), 8.0);
    assert_eq!(num(r.rotation()), 0.5);
    assert_eq!(num(r.scale()), 6.0);
}

#[test]
fn second_family_constructors() {
    let id = Transform2d::identity();
    assert_eq!(num(id.scale), 1.0);
    assert_eq!(id.z.to_bits(), 0);
    assert_eq!(Transform2d::default(), id);
    assert_eq!(GlobalTransform2d::default().0, id);
    assert_eq!(GlobalTransform2d::identity().0, id);
    assert_eq!(
        Transform2d::from_translation(vec2(3.0, 4.0)),
        Transform2d { translation: vec2(3.0, 4.0), ..id }
    );
    assert_eq!(
        Transform2d::from_xy(scalar(3.0), scalar(4.0)),
        Transform2d { translation: vec2(3.0, 4.0), ..id }
    );
    assert_eq!(
        Transform2d::from_xyz(scalar(3.0), scalar(4.0), scalar(5.0)),
        Transform2d { translation: vec2(3.0, 4.0), z: scalar(5.0), ..id }
    );
    assert_eq!(
        Transform2d::from_translation3(Vec3 { x: scalar(3.0), y: scalar(4.0), z: scalar(5.0) }),
        Transform2d { translation: vec2(3.0, 4.0), z: scalar(5.0), ..id }
    );
    assert_eq!(
        Transform2d::from_translation_z(vec2(3.0, 4.0), scalar(5.0)),
        Transform2d { translation: vec2(3.0, 4.0), z: scalar(5.0), ..id }
    );
    assert_eq!(Transform2d::from_rotation(scalar(2.0)), Transform2d { rotation: scalar(2.0), ..id });
    assert_eq!(Transform2d::from_scale(scalar(4.0)), Transform2d { scale: scalar(4.0), ..id });
    assert_eq!(Transform2d::from_z(scalar(7.0)), Transform2d { z: scalar(7.0), ..id });
    let t = Transform2d::from_xy(scalar(1.0), scalar(2.0));
    assert_eq!(t.with_translation(vec2(0.0, 9.0)).translation, vec2(0.0, 9.0));
    assert_eq!(t.with_rotation(scalar(1.0)), Transform2d { rotation: scalar(1.0), ..t });
    assert_eq!(t.with_z(scalar(-1.0)), Transform2d { z: scalar(-1.0), ..t });
    assert_eq!(t.with_scale(scalar(0.5)), Transform2d { scale: scalar(0.5), ..t });
    assert_eq!(GlobalTransform2d::from(t), GlobalTransform2d(t));
}
