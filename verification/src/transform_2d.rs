//! Transforms whose inheritance is given by four switches.

use vstd::prelude::*;
use crate::propagate::Transform2dPropagationDescriptor;
use crate::propagate::lemma_mask_of;
use crate::propagate::policy_for;
use crate::transform2::ONE_BITS;
use crate::transform2::Scalar;
use crate::transform2::Transform2;
use crate::transform2::Vec2;
use crate::transform2::Vec3;
use crate::transform2::lemma_inherit_all;
use crate::transform2::propagated;

verus! {

/// A transform relative to the parent, with its inheritance given by a
/// [`Transform2dPropagationDescriptor`]: an offset, a depth `z`, an angle in
/// radians and a uniform scale.
#[derive(Clone, Copy, Debug, PartialEq, Eq, Structural)]
pub struct Transform2d {
    pub translation: Vec2,
    pub z: Scalar,
    pub rotation: Scalar,
    pub scale: Scalar,
}

/// The transform that changes nothing: no offset, depth zero, angle zero,
/// scale one.
pub open spec fn identity_2d() -> Transform2d {
    Transform2d {
        translation: Vec2 { x: Scalar(0), y: Scalar(0) },
        z: Scalar(0),
        rotation: Scalar(0),
        scale: Scalar(ONE_BITS),
    }
}

impl Transform2d {
    /// The transform that changes nothing.
    pub fn identity() -> (r: Transform2d)
        ensures
            r == identity_2d(),
    {
        Transform2d {
            translation: Vec2 { x: Scalar(0), y: Scalar(0) },
            z: Scalar(0),
            rotation: Scalar(0),
            scale: Scalar(ONE_BITS),
        }
    }

    pub fn from_translation(translation: Vec2) -> (r: Transform2d)
        ensures
            r == (Transform2d { translation, ..identity_2d() }),
    {
        Transform2d { translation, ..Transform2d::identity() }
    }

    pub fn from_translation3(translation: Vec3) -> (r: Transform2d)
        ensures
            r == (Transform2d {
                translation: Vec2 { x: translation.x, y: translation.y },
                z: translation.z,
                ..identity_2d()
            }),
    {
        Transform2d::from_xy(translation.x, translation.y).with_z(translation.z)
    }

    pub fn from_xy(x: Scalar, y: Scalar) -> (r: Transform2d)
        ensures
            r == (Transform2d { translation: Vec2 { x, y }, ..identity_2d() }),
    {
        Transform2d { translation: Vec2 { x, y }, ..Transform2d::identity() }
    }

    pub fn from_xyz(x: Scalar, y: Scalar, z: Scalar) -> (r: Transform2d)
        ensures
            r == (Transform2d { translation: Vec2 { x, y }, z, ..identity_2d() }),
    {
        Transform2d::from_xy(x, y).with_z(z)
    }

    pub fn from_translation_z(translation: Vec2, z: Scalar) -> (r: Transform2d)
        ensures
            r == (Transform2d { translation, z, ..identity_2d() }),
    {
        Transform2d { translation, z, ..Transform2d::identity() }
    }

    pub fn from_rotation(rotation: Scalar) -> (r: Transform2d)
        ensures
            r == (Transform2d { rotation, ..identity_2d() }),
    {
        Transform2d { rotation, ..Transform2d::identity() }
    }

    pub fn from_scale(scale: Scalar) -> (r: Transform2d)
        ensures
            r == (Transform2d { scale, ..identity_2d() }),
    {
        Transform2d { scale, ..Transform2d::identity() }
    }

    pub fn from_z(z: Scalar) -> (r: Transform2d)
        ensures
            r == (Transform2d { z, ..identity_2d() }),
    {
        Transform2d { z, ..Transform2d::identity() }
    }

    pub fn with_translation(self, translation: Vec2) -> (r: Transform2d)
        ensures
            r == (Transform2d { translation, ..self }),
    {
        Transform2d { translation, ..self }
    }

    pub fn with_rotation(self, rotation: Scalar) -> (r: Transform2d)
        ensures
            r == (Transform2d { rotation, ..self }),
    {
        Transform2d { rotation, ..self }
    }

    pub fn with_z(self, z: Scalar) -> (r: Transform2d)
        ensures
            r == (Transform2d { z, ..self }),
    {
        Transform2d { z, ..self }
    }

    pub fn with_scale(self, scale: Scalar) -> (r: Transform2d)
        ensures
            r == (Transform2d { scale, ..self }),
    {
        Transform2d { scale, ..self }
    }
}

impl Default for Transform2d {
    fn default() -> (r: Transform2d)
        ensures
            r == identity_2d(),
    {
        Transform2d::identity()
    }
}

/// The global transform of a child, axis by axis: from `composed`, the
/// parent's global transform composed with the child's local one, where the
/// descriptor inherits the axis, and from `local` verbatim where it does not.
/// A child without a descriptor inherits every axis.
pub open spec fn propagated_2d(
    composed: Transform2d,
    local: Transform2d,
    desc: Option<Transform2dPropagationDescriptor>,
) -> Transform2d {
    match desc {
        None => composed,
        Some(d) => Transform2d {
            translation: if d.inherit_translation {
                composed.translation
            } else {
                local.translation
            },
            z: if d.inherit_z {
                composed.z
            } else {
                local.z
            },
            rotation: if d.inherit_rotation {
                composed.rotation
            } else {
                local.rotation
            },
            scale: if d.inherit_scale {
                composed.scale
            } else {
                local.scale
            },
        },
    }
}

/// The same transform with its depth under the other name.
pub open spec fn with_depth_for_z(t: Transform2d) -> Transform2 {
    Transform2 { translation: t.translation, depth: t.z, rotation: t.rotation, scale: t.scale }
}

/// The two forms of a policy select alike: propagating under a descriptor,
/// or under none, is propagating under the mask that stands for it.
pub proof fn lemma_descriptor_selects_as_mask(
    composed: Transform2d,
    local: Transform2d,
    desc: Option<Transform2dPropagationDescriptor>,
)
    ensures
        with_depth_for_z(propagated_2d(composed, local, desc)) == propagated(
            with_depth_for_z(composed),
            with_depth_for_z(local),
            policy_for(desc),
        ),
{
    match desc {
        Some(d) => {
            lemma_mask_of(d);
        },
        None => {
            assert(15u8 & 15u8 == 15u8) by (bit_vector);
            lemma_inherit_all(policy_for(desc));
        },
    }
}

/// A transform in world space, as a propagation cycle resolved it.
#[derive(Clone, Copy, Debug, PartialEq, Eq, Structural)]
pub struct GlobalTransform2d(pub Transform2d);

impl GlobalTransform2d {
    /// The global transform that changes nothing.
    pub fn identity() -> (r: GlobalTransform2d)
        ensures
            r.0 == identity_2d(),
    {
        GlobalTransform2d(Transform2d::identity())
    }

    /// The transform that this global transform holds.
    pub fn transform(&self) -> (r: &Transform2d)
        ensures
            *r == self.0,
    {
        &self.0
    }

    pub fn translation(&self) -> (r: Vec2)
        ensures
            r == self.0.translation,
    {
        self.0.translation
    }

    pub fn rotation(&self) -> (r: Scalar)
        ensures
            r == self.0.rotation,
    {
        self.0.rotation
    }

    pub fn scale(&self) -> (r: Scalar)
        ensures
            r == self.0.scale,
    {
        self.0.scale
    }

    /// The global transform of a child with local transform `other`, where
    /// `composed` is the parent's global transform composed with `other`.
    pub fn propagate_transform(
        composed: Transform2d,
        other: Transform2d,
        desc: Option<&Transform2dPropagationDescriptor>,
    ) -> (r: GlobalTransform2d)
        ensures
            r.0 == propagated_2d(
                composed,
                other,
                match desc {
                    Some(d) => Some(*d),
                    None => None,
                },
            ),
    {
        match desc {
            Some(desc) => GlobalTransform2d(
                Transform2d {
                    translation: if desc.inherit_translation {
                        composed.translation
                    } else {
                        other.translation
                    },
                    z: if desc.inherit_z {
                        composed.z
                    } else {
                        other.z
                    },
                    rotation: if desc.inherit_rotation {
                        composed.rotation
                    } else {
                        other.rotation
                    },
                    scale: if desc.inherit_scale {
                        composed.scale
                    } else {
                        other.scale
                    },
                },
            ),
            None => GlobalTransform2d(composed),
        }
    }
}

impl Default for GlobalTransform2d {
    fn default() -> (r: GlobalTransform2d)
        ensures
            r.0 == identity_2d(),
    {
        GlobalTransform2d::identity()
    }
}

impl From<Transform2d> for GlobalTransform2d {
    fn from(transform2d: Transform2d) -> (r: GlobalTransform2d) {
        GlobalTransform2d(transform2d)
    }
}

impl vstd::std_specs::convert::FromSpecImpl<Transform2d> for GlobalTransform2d {
    open spec fn obeys_from_spec() -> bool {
        true
    }

    /// The global transform of a root is its local transform.
    open spec fn from_spec(transform2d: Transform2d) -> GlobalTransform2d {
        GlobalTransform2d(transform2d)
    }
}

} // verus!
