//! Transforms, and the selection of axes that makes a child's global transform.

use vstd::prelude::*;
use crate::propagate::ALL_BITS;
use crate::propagate::Propagate;

verus! {

/// The bit pattern of the binary32 value one.
pub const ONE_BITS: u32 = 0x3f80_0000;

/// A single-precision number, held by its IEEE 754 binary32 bit pattern.
///
/// The library moves such numbers and never computes with them, so what it
/// hands on is bit for bit what it was given.
#[derive(Clone, Copy, Debug, PartialEq, Eq, Structural)]
pub struct Scalar(pub u32);

impl Scalar {
    /// The number with the given bit pattern.
    pub fn from_bits(bits: u32) -> (r: Scalar)
        ensures
            r.0 == bits,
    {
        Scalar(bits)
    }

    /// The bit pattern of the number.
    pub fn to_bits(self) -> (bits: u32)
        ensures
            bits == self.0,
    {
        self.0
    }

    /// Positive zero.
    pub fn zero() -> (r: Scalar)
        ensures
            r.0 == 0,
    {
        Scalar(0)
    }

    /// One.
    pub fn one() -> (r: Scalar)
        ensures
            r.0 == ONE_BITS,
    {
        Scalar(ONE_BITS)
    }
}

/// A point or an offset in the plane.
#[derive(Clone, Copy, Debug, PartialEq, Eq, Structural)]
pub struct Vec2 {
    pub x: Scalar,
    pub y: Scalar,
}

/// A point in space: a point in the plane and its depth.
#[derive(Clone, Copy, Debug, PartialEq, Eq, Structural)]
pub struct Vec3 {
    pub x: Scalar,
    pub y: Scalar,
    pub z: Scalar,
}

/// A transform relative to the parent: an offset, a depth, an angle in
/// radians and a uniform scale.
#[derive(Clone, Copy, Debug, PartialEq, Eq, Structural)]
pub struct Transform2 {
    pub translation: Vec2,
    pub depth: Scalar,
    pub rotation: Scalar,
    pub scale: Scalar,
}

/// The transform that changes nothing: no offset, depth zero, angle zero,
/// scale one.
pub open spec fn identity() -> Transform2 {
    Transform2 {
        translation: Vec2 { x: Scalar(0), y: Scalar(0) },
        depth: Scalar(0),
        rotation: Scalar(0),
        scale: Scalar(ONE_BITS),
    }
}

impl Transform2 {
    /// The transform that changes nothing.
    pub fn identity() -> (r: Transform2)
        ensures
            r == identity(),
    {
        Transform2 {
            translation: Vec2 { x: Scalar(0), y: Scalar(0) },
            depth: Scalar(0),
            rotation: Scalar(0),
            scale: Scalar(ONE_BITS),
        }
    }

    /// The transform that only moves by `translation`.
    pub fn from_translation(translation: Vec2) -> (r: Transform2)
        ensures
            r == (Transform2 { translation, ..identity() }),
    {
        Transform2 { translation, ..Transform2::identity() }
    }

    /// The transform that only moves by `translation`, in the plane and in depth.
    pub fn from_translation3(translation: Vec3) -> (r: Transform2)
        ensures
            r == (Transform2 {
                translation: Vec2 { x: translation.x, y: translation.y },
                depth: translation.z,
                ..identity()
            }),
    {
        Transform2::from_xy(translation.x, translation.y).with_depth(translation.z)
    }

    /// The transform that only moves by `(x, y)`.
    pub fn from_xy(x: Scalar, y: Scalar) -> (r: Transform2)
        ensures
            r == (Transform2 { translation: Vec2 { x, y }, ..identity() }),
    {
        Transform2 { translation: Vec2 { x, y }, ..Transform2::identity() }
    }

    /// The transform that only moves by `(x, y)` and to the depth `z`.
    pub fn from_xyz(x: Scalar, y: Scalar, z: Scalar) -> (r: Transform2)
        ensures
            r == (Transform2 { translation: Vec2 { x, y }, depth: z, ..identity() }),
    {
        Transform2::from_xy(x, y).with_depth(z)
    }

    /// The transform that only moves by `translation` and to the depth `z`.
    pub fn from_translation_z(translation: Vec2, z: Scalar) -> (r: Transform2)
        ensures
            r == (Transform2 { translation, depth: z, ..identity() }),
    {
        Transform2 { translation, depth: z, ..Transform2::identity() }
    }

    /// The transform that only turns by `rotation` radians.
    pub fn from_rotation(rotation: Scalar) -> (r: Transform2)
        ensures
            r == (Transform2 { rotation, ..identity() }),
    {
        Transform2 { rotation, ..Transform2::identity() }
    }

    /// The transform that only scales by `scale`.
    pub fn from_scale(scale: Scalar) -> (r: Transform2)
        ensures
            r == (Transform2 { scale, ..identity() }),
    {
        Transform2 { scale, ..Transform2::identity() }
    }

    /// The transform that only moves to the depth `depth`.
    pub fn from_depth(depth: Scalar) -> (r: Transform2)
        ensures
            r == (Transform2 { depth, ..identity() }),
    {
        Transform2 { depth, ..Transform2::identity() }
    }

    /// This transform with another translation.
    pub fn with_translation(self, translation: Vec2) -> (r: Transform2)
        ensures
            r == (Transform2 { translation, ..self }),
    {
        Transform2 { translation, ..self }
    }

    /// This transform with another rotation.
    pub fn with_rotation(self, rotation: Scalar) -> (r: Transform2)
        ensures
            r == (Transform2 { rotation, ..self }),
    {
        Transform2 { rotation, ..self }
    }

    /// This transform with another depth.
    pub fn with_depth(self, depth: Scalar) -> (r: Transform2)
        ensures
            r == (Transform2 { depth, ..self }),
    {
        Transform2 { depth, ..self }
    }

    /// This transform with another scale.
    pub fn with_scale(self, scale: Scalar) -> (r: Transform2)
        ensures
            r == (Transform2 { scale, ..self }),
    {
        Transform2 { scale, ..self }
    }
}

impl Default for Transform2 {
    fn default() -> (r: Transform2)
        ensures
            r == identity(),
    {
        Transform2::identity()
    }
}

/// The global transform of a child, axis by axis: from `composed`, the
/// parent's global transform composed with the child's local one, where the
/// policy inherits the axis, and from `local` verbatim where it does not.
pub open spec fn propagated(composed: Transform2, local: Transform2, policy: Propagate) -> Transform2 {
    Transform2 {
        translation: if policy.inherits_translation() {
            composed.translation
        } else {
            local.translation
        },
        depth: if policy.inherits_depth() {
            composed.depth
        } else {
            local.depth
        },
        rotation: if policy.inherits_rotation() {
            composed.rotation
        } else {
            local.rotation
        },
        scale: if policy.inherits_scale() {
            composed.scale
        } else {
            local.scale
        },
    }
}

/// A transform in world space, as a propagation cycle resolved it.
#[derive(Clone, Copy, Debug, PartialEq, Eq, Structural)]
pub struct GlobalTransform2(pub Transform2);

impl GlobalTransform2 {
    /// The global transform that changes nothing.
    pub fn identity() -> (r: GlobalTransform2)
        ensures
            r.0 == identity(),
    {
        GlobalTransform2(Transform2::identity())
    }

    /// The transform that this global transform holds.
    pub fn transform(&self) -> (r: &Transform2)
        ensures
            *r == self.0,
    {
        &self.0
    }

    pub fn translation(&self) -> (r: Vec2)
        ensures
            r == self.0.translation,
    {
        self.0.translation
    }

    pub fn rotation(&self) -> (r: Scalar)
        ensures
            r == self.0.rotation,
    {
        self.0.rotation
    }

    pub fn scale(&self) -> (r: Scalar)
        ensures
            r == self.0.scale,
    {
        self.0.scale
    }

    pub fn depth(&self) -> (r: Scalar)
        ensures
            r == self.0.depth,
    {
        self.0.depth
    }

    /// The global transform of a child with local transform `other`, where
    /// `composed` is the parent's global transform composed with `other`.
    pub fn propagate_transform(composed: Transform2, other: Transform2, propagation: Propagate) -> (r:
        GlobalTransform2)
        ensures
            r.0 == propagated(composed, other, propagation),
    {
        if propagation.0 == ALL_BITS {
            proof {
                assert(15u8 & 15u8 == 15u8) by (bit_vector);
                lemma_inherit_all(propagation);
            }
            GlobalTransform2(composed)
        } else {
            GlobalTransform2(
                Transform2 {
                    translation: if propagation.inherits(Propagate::translation()) {
                        composed.translation
                    } else {
                        other.translation
                    },
                    depth: if propagation.inherits(Propagate::depth()) {
                        composed.depth
                    } else {
                        other.depth
                    },
                    rotation: if propagation.inherits(Propagate::rotation()) {
                        composed.rotation
                    } else {
                        other.rotation
                    },
                    scale: if propagation.inherits(Propagate::scale()) {
                        composed.scale
                    } else {
                        other.scale
                    },
                },
            )
        }
    }
}

impl Default for GlobalTransform2 {
    fn default() -> (r: GlobalTransform2)
        ensures
            r.0 == identity(),
    {
        GlobalTransform2::identity()
    }
}

impl From<Transform2> for GlobalTransform2 {
    fn from(transform2: Transform2) -> (r: GlobalTransform2) {
        GlobalTransform2(transform2)
    }
}

impl vstd::std_specs::convert::FromSpecImpl<Transform2> for GlobalTransform2 {
    open spec fn obeys_from_spec() -> bool {
        true
    }

    /// The global transform of a root is its local transform.
    open spec fn from_spec(transform2: Transform2) -> GlobalTransform2 {
        GlobalTransform2(transform2)
    }
}

/// A policy with all four axis bits inherits each axis.
pub proof fn lemma_inherit_all(policy: Propagate)
    requires
        policy.0 & ALL_BITS == ALL_BITS,
    ensures
        policy.inherits_translation(),
        policy.inherits_depth(),
        policy.inherits_rotation(),
        policy.inherits_scale(),
{
    let p = policy.0;
    assert(p & 15 == 15 ==> p & 1 != 0 && p & 2 != 0 && p & 4 != 0 && p & 8 != 0) by (bit_vector);
}

/// Where the policy inherits every axis, propagation is composition.
pub proof fn lemma_propagated_all(composed: Transform2, local: Transform2, policy: Propagate)
    requires
        policy.0 & ALL_BITS == ALL_BITS,
    ensures
        propagated(composed, local, policy) == composed,
{
    lemma_inherit_all(policy);
}

/// Where the policy inherits no axis, the global transform is the local one.
pub proof fn lemma_propagated_nothing(composed: Transform2, local: Transform2, policy: Propagate)
    requires
        policy.0 & ALL_BITS == 0,
    ensures
        propagated(composed, local, policy) == local,
{
    let p = policy.0;
    assert(p & 15 == 0 ==> p & 1 == 0 && p & 2 == 0 && p & 4 == 0 && p & 8 == 0) by (bit_vector);
}

} // verus!
