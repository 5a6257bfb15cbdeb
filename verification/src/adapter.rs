//! The generic 3D form of a resolved transform, and its refresh after a cycle.

use vstd::prelude::*;
use crate::cycle::writes;
use crate::systems::Update;
use crate::transform2::GlobalTransform2;
use crate::transform2::ONE_BITS;
use crate::transform2::Scalar;
use crate::transform2::Transform2;
use crate::transform2::Vec3;

verus! {

/// The sign bit of a binary32 number.
pub const SIGN_BIT: u32 = 0x8000_0000;

/// A transform of space in the generic form that stages after propagation
/// read: the images of the three axes, and an offset.
#[derive(Clone, Copy, Debug, PartialEq, Eq, Structural)]
pub struct Affine3 {
    pub x_axis: Vec3,
    pub y_axis: Vec3,
    pub z_axis: Vec3,
    pub translation: Vec3,
}

/// The number with the other sign: negation flips the sign bit and nothing else.
pub open spec fn negated(s: Scalar) -> Scalar {
    Scalar(s.0 ^ SIGN_BIT)
}

/// The generic form of `t`, where `sin` and `cos` are the sine and the cosine
/// of its rotation, each times its scale: the offset is the translation with
/// the depth, the first two axes are turned and scaled in the plane, and the
/// third axis stays.
pub open spec fn affine_of(t: Transform2, sin: Scalar, cos: Scalar) -> Affine3 {
    Affine3 {
        x_axis: Vec3 { x: cos, y: sin, z: Scalar(0) },
        y_axis: Vec3 { x: negated(sin), y: cos, z: Scalar(0) },
        z_axis: Vec3 { x: Scalar(0), y: Scalar(0), z: Scalar(ONE_BITS) },
        translation: Vec3 { x: t.translation.x, y: t.translation.y, z: t.depth },
    }
}

impl Scalar {
    /// The number with the other sign.
    pub fn neg(self) -> (r: Scalar)
        ensures
            r == negated(self),
    {
        Scalar(self.0 ^ SIGN_BIT)
    }
}

impl Transform2 {
    /// The generic form of this transform, where `sin` and `cos` are the sine
    /// and the cosine of its rotation, each times its scale.
    pub fn to_affine(&self, sin: Scalar, cos: Scalar) -> (r: Affine3)
        ensures
            r == affine_of(*self, sin, cos),
    {
        Affine3 {
            x_axis: Vec3 { x: cos, y: sin, z: Scalar(0) },
            y_axis: Vec3 { x: sin.neg(), y: cos, z: Scalar(0) },
            z_axis: Vec3 { x: Scalar(0), y: Scalar(0), z: Scalar(ONE_BITS) },
            translation: Vec3 { x: self.translation.x, y: self.translation.y, z: self.depth },
        }
    }
}

/// `published` holds the generic form of the global transform `global`, with
/// a sine and cosine that `scaled_sin_cos` gave for its rotation and scale.
pub open spec fn derived<F: Fn(Scalar, Scalar) -> (Scalar, Scalar)>(
    global: GlobalTransform2,
    published: Affine3,
    scaled_sin_cos: F,
) -> bool {
    exists|sin: Scalar, cos: Scalar|
        #[trigger] scaled_sin_cos.ensures((global.0.rotation, global.0.scale), (sin, cos))
            && published == affine_of(global.0, sin, cos)
}

/// Refreshes the generic form of every global transform that a cycle wrote,
/// and of no other.
///
/// `globals` and `published` hold the global transforms and their generic
/// forms by handle. `scaled_sin_cos` is called with a rotation and a scale,
/// and gives the sine and the cosine of the rotation, each times the scale.
pub fn derive_global_transform<F: Fn(Scalar, Scalar) -> (Scalar, Scalar)>(
    updates: &Vec<Update>,
    globals: &Vec<GlobalTransform2>,
    published: &mut Vec<Affine3>,
    scaled_sin_cos: F,
)
    requires
        forall|rotation: Scalar, scale: Scalar| scaled_sin_cos.requires((rotation, scale)),
    ensures
        final(published)@.len() == old(published)@.len(),
        forall|n: int|
            0 <= n < old(published)@.len() ==> if writes(updates@, n) && n < globals@.len() {
                derived(globals@[n], #[trigger] final(published)@[n], scaled_sin_cos)
            } else {
                final(published)@[n] == old(published)@[n]
            },
{
    let count = updates.len();
    let mut i: usize = 0;
    while i < count
        invariant
            count == updates@.len(),
            0 <= i <= count,
            forall|rotation: Scalar, scale: Scalar| scaled_sin_cos.requires((rotation, scale)),
            published@.len() == old(published)@.len(),
            forall|n: int|
                0 <= n < old(published)@.len() ==> if writes(updates@.take(i as int), n) && n
                    < globals@.len() {
                    derived(globals@[n], #[trigger] published@[n], scaled_sin_cos)
                } else {
                    published@[n] == old(published)@[n]
                },
        decreases count - i,
    {
        let object = updates[i].object;
        let ghost before = published@;
        if object < globals.len() && object < published.len() {
            let global = globals[object];
            let (sin, cos) = scaled_sin_cos(global.0.rotation, global.0.scale);
            published[object] = global.0.to_affine(sin, cos);
        }
        proof {
            let done = updates@.take(i as int);
            let upto = updates@.take(i + 1);
            assert(upto[i as int].object == object);
            assert forall|n: int| 0 <= n < old(published)@.len() implies if writes(upto, n) && n
                < globals@.len() {
                derived(globals@[n], #[trigger] published@[n], scaled_sin_cos)
            } else {
                published@[n] == old(published)@[n]
            } by {
                if writes(done, n) {
                    let k = choose|k: int| 0 <= k < done.len() && (#[trigger] done[k]).object == n;
                    assert(upto[k].object == n);
                }
                if writes(upto, n) && n != object {
                    let k = choose|k: int| 0 <= k < upto.len() && (#[trigger] upto[k]).object == n;
                    assert(done[k].object == n);
                }
                assert(before[n] == published@[n] || n == object);
            }
        }
        i = i + 1;
    }
    assert(updates@.take(count as int) =~= updates@);
}

} // verus!
