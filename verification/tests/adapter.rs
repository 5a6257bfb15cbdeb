use bevy::math::vec2;
use bevy::math::Affine3A;
use bevy::math::Mat3A;
use bevy::math::Quat;
use bevy::math::Vec2 as Vec2f;
use bevy::math::Vec3A;
use bevy::transform::components::GlobalTransform;
use bevy::transform::components::Transform;
use transform2d::adapter::derive_global_transform;
use transform2d::adapter::Affine3;
use transform2d::adapter::SIGN_BIT;
use transform2d::propagate::Propagate;
use transform2d::systems::Update;
use transform2d::transform2::GlobalTransform2;
use transform2d::transform2::Scalar;
use transform2d::transform2::Transform2;
use transform2d::transform2::Vec2;
use transform2d::transform2::Vec3;

fn scalar(v: f32) -> Scalar {
    Scalar::from_bits(v.to_bits())
}

fn num(s: Scalar) -> f32 {
    f32::from_bits(s.to_bits())
}

fn scaled_sin_cos(rotation: Scalar, scale: Scalar) -> (Scalar, Scalar) {
    let (sin, cos) = num(rotation).sin_cos();
    (scalar(num(scale) * sin), scalar(num(scale) * cos))
}

fn blank() -> Affine3 {
    let zero = Vec3 { x: Scalar::zero(), y: Scalar::zero(), z: Scalar::zero() };
    Affine3 { x_axis: zero, y_axis: zero, z_axis: zero, translation: zero }
}

fn sample() -> Transform2 {
    Transform2 {
        translation: Vec2 { x: scalar(1.0), y: scalar(2.0) },
        depth: scalar(5.0),
        rotation: scalar(2.0),
        scale: scalar(4.0),
    }
}

#[test]
fn negation_flips_the_sign_bit() {
    assert_eq!(SIGN_BIT, (-0.0f32).to_bits());
    let values = [0.0f32, -0.0, 1.0, -2.5, f32::INFINITY, f32::NEG_INFINITY, f32::MIN_POSITIVE, f32::NAN, 1.0e-40];
    for v in values {
        assert_eq!(scalar(v).neg().to_bits(), (-v).to_bits());
    }
    assert_eq!(num(scalar(3.0).neg()), -3.0);
}

#[test]
fn affine_form_embeds_the_plane() {
    let t = sample();
    let (sin, cos) = scaled_sin_cos(t.rotation, t.scale);
    let a = t.to_affine(sin, cos);
    let (s, c) = 2.0f32.sin_cos();
    assert_eq!(num(a.x_axis.x), 4.0 * c);
    assert_eq!(num(a.x_axis.y), 4.0 * s);
    assert_eq!(num(a.x_axis.z), 0.0);
    assert_eq!(num(a.y_axis.x), -(4.0 * s));
    assert_eq!(num(a.y_axis.y), 4.0 * c);
    assert_eq!(num(a.y_axis.z), 0.0);
    assert_eq!(num(a.z_axis.x), 0.0);
    assert_eq!(num(a.z_axis.y), 0.0);
    assert_eq!(num(a.z_axis.z), 1.0);
    assert_eq!(num(a.translation.x), 1.0);
    assert_eq!(num(a.translation.y), 2.0);
    assert_eq!(num(a.translation.z), 5.0);
}

#[test]
fn affine_form_maps_points_as_the_transform_does() {
    let t = sample();
    let (sin, cos) = scaled_sin_cos(t.rotation, t.scale);
    let a = t.to_affine(sin, cos);
    let points = [(100.0f32, -100.0f32), (10.0, -100.0), (-100.0, -10.0), (0.0, 100.0), (3.0, 0.0), (0.1, 0.5)];
    let (s, c) = 2.0f32.sin_cos();
    for (x, y) in points {
        let by_matrix = (
            num(a.x_axis.x) * x + num(a.y_axis.x) * y + num(a.translation.x),
            num(a.x_axis.y) * x + num(a.y_axis.y) * y + num(a.translation.y),
        );
        let direct = (4.0 * (c * x - s * y) + 1.0, 4.0 * (s * x + c * y) + 2.0);
        assert!((by_matrix.0 - direct.0).abs() < 0.001);
        assert!((by_matrix.1 - direct.1).abs() < 0.001);
    }
}

#[test]
fn only_written_objects_are_refreshed() {
    let globals = vec![
        GlobalTransform2(sample()),
        GlobalTransform2(Transform2::from_depth(scalar(9.0))),
        GlobalTransform2(Transform2::from_xy(scalar(7.0), scalar(8.0))),
    ];
    let mut published = vec![blank(), blank(), blank()];
    let updates = vec![
        Update { object: 2, parent: None, policy: Propagate::all() },
        Update { object: 0, parent: Some(2), policy: Propagate::all() },
        Update { object: 5, parent: None, policy: Propagate::all() },
    ];
    derive_global_transform(&updates, &globals, &mut published, scaled_sin_cos);
    let (sin, cos) = scaled_sin_cos(globals[0].0.rotation, globals[0].0.scale);
    assert_eq!(published[0], globals[0].0.to_affine(sin, cos));
    assert_eq!(published[1], blank());
    assert_eq!(published[2], globals[2].0.to_affine(Scalar::zero(), Scalar::one()));
    assert_eq!(num(published[2].translation.x), 7.0);
    assert_eq!(num(published[2].x_axis.x), 1.0);
    assert_eq!(published.len(), 3);
}

fn mul_vec2(t: &Transform2, v: Vec2f) -> Vec2f {
    let (sin, cos) = scaled_sin_cos(t.rotation, t.scale);
    let (sin, cos) = (num(sin), num(cos));
    vec2(
        cos * v.x - sin * v.y + num(t.translation.x),
        sin * v.x + cos * v.y + num(t.translation.y),
    )
}

fn mul_transform(t: &Transform2, other: &Transform2) -> Transform2 {
    let at = mul_vec2(t, vec2(num(other.translation.x), num(other.translation.y)));
    Transform2 {
        translation: Vec2 { x: scalar(at.x), y: scalar(at.y) },
        depth: scalar(num(t.depth) + num(other.depth)),
        rotation: scalar(num(t.rotation) + num(other.rotation)),
        scale: scalar(num(t.scale) * num(other.scale)),
    }
}

fn global_transform(t: &Transform2) -> GlobalTransform {
    let (sin, cos) = scaled_sin_cos(t.rotation, t.scale);
    let a = t.to_affine(sin, cos);
    let column = |v: Vec3| Vec3A::new(num(v.x), num(v.y), num(v.z));
    GlobalTransform::from(Affine3A {
        matrix3: Mat3A {
            x_axis: column(a.x_axis),
            y_axis: column(a.y_axis),
            z_axis: column(a.z_axis),
        },
        translation: column(a.translation),
    })
}

#[test]
fn transform2_vs_transform() {
    let transform2 = Transform2 {
        translation: Vec2 { x: scalar(1.), y: scalar(2.) },
        depth: scalar(5.),
        rotation: scalar(2.),
        scale: scalar(4.),
    };
    let transform = Transform {
        translation: vec2(1., 2.).extend(5.),
        rotation: Quat::from_rotation_z(2.),
        scale: Vec2f::splat(4.).extend(1.0),
    };

    let vs = [
        vec2(100., -100.),
        vec2(10., -100.),
        vec2(-100., -10.),
        vec2(0., 100.),
        vec2(3., 0.),
        vec2(0.1, 0.5),
    ];

    let e = 0.001;

    for &v in &vs {
        let a = mul_vec2(&transform2, v);
        let b = transform.mul_vec3(v.extend(0.0));
        assert!((a.x - b.x).abs() < e);
        assert!((a.y - b.y).abs() < e);
    }

    let f = mul_transform(&transform2, &transform2);
    let g = transform.mul_transform(transform);

    for &v in &vs {
        let a = mul_vec2(&f, v);
        let b = g.mul_vec3(v.extend(0.0));
        assert!((a.x - b.x).abs() < e);
        assert!((a.y - b.y).abs() < e);
    }

    let i = global_transform(&f);
    let j = GlobalTransform::from(g);

    for &v in &vs {
        let a = i.mul_vec3(v.extend(0.0));
        let b = j.mul_vec3(v.extend(0.0));
        assert!((a.x - b.x).abs() < e);
        assert!((a.y - b.y).abs() < e);
    }
}
