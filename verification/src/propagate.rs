//! Inheritance policies: which axes of its parent's transform an object takes.

use vstd::prelude::*;

verus! {

/// Bit of the translation axis in a [`Propagate`] mask.
pub const TRANSLATION_BIT: u8 = 1;

/// Bit of the depth axis in a [`Propagate`] mask.
pub const DEPTH_BIT: u8 = 2;

/// Bit of the rotation axis in a [`Propagate`] mask.
pub const ROTATION_BIT: u8 = 4;

/// Bit of the scale axis in a [`Propagate`] mask.
pub const SCALE_BIT: u8 = 8;

/// All four axis bits.
pub const ALL_BITS: u8 = 15;

/// Which axes of its parent's global transform an object inherits.
///
/// One bit per axis. An axis whose bit is clear is taken verbatim from the
/// object's local transform. Bits above [`ALL_BITS`] name no axis.
#[derive(Clone, Copy, Debug, PartialEq, Eq, Structural)]
pub struct Propagate(pub u8);

impl Propagate {
    /// Whether the two masks have an axis in common.
    pub open spec fn spec_inherits(self, rule: Propagate) -> bool {
        self.0 & rule.0 != 0
    }

    pub open spec fn inherits_translation(self) -> bool {
        self.0 & TRANSLATION_BIT != 0
    }

    pub open spec fn inherits_depth(self) -> bool {
        self.0 & DEPTH_BIT != 0
    }

    pub open spec fn inherits_rotation(self) -> bool {
        self.0 & ROTATION_BIT != 0
    }

    pub open spec fn inherits_scale(self) -> bool {
        self.0 & SCALE_BIT != 0
    }

    /// The mask that inherits no axis.
    pub fn nothing() -> (r: Propagate)
        ensures
            r.0 == 0,
    {
        Propagate(0)
    }

    /// The mask that inherits the translation only.
    pub fn translation() -> (r: Propagate)
        ensures
            r.0 == TRANSLATION_BIT,
    {
        Propagate(TRANSLATION_BIT)
    }

    /// The mask that inherits the depth only.
    pub fn depth() -> (r: Propagate)
        ensures
            r.0 == DEPTH_BIT,
    {
        Propagate(DEPTH_BIT)
    }

    /// The mask that inherits the rotation only.
    pub fn rotation() -> (r: Propagate)
        ensures
            r.0 == ROTATION_BIT,
    {
        Propagate(ROTATION_BIT)
    }

    /// The mask that inherits the scale only.
    pub fn scale() -> (r: Propagate)
        ensures
            r.0 == SCALE_BIT,
    {
        Propagate(SCALE_BIT)
    }

    /// The mask that inherits every axis.
    pub fn all() -> (r: Propagate)
        ensures
            r.0 == ALL_BITS,
    {
        Propagate(ALL_BITS)
    }

    #[verifier::when_used_as_spec(spec_inherits)]
    pub fn inherits(self, rule: Propagate) -> (r: bool)
        ensures
            r == self.spec_inherits(rule),
    {
        self.0 & rule.0 != 0
    }
}

impl Default for Propagate {
    fn default() -> (r: Propagate)
        ensures
            r.0 == ALL_BITS,
    {
        Propagate(ALL_BITS)
    }
}

impl std::ops::BitAnd for Propagate {
    type Output = Propagate;

    fn bitand(self, rhs: Propagate) -> (r: Propagate) {
        Propagate(self.0 & rhs.0)
    }
}

impl vstd::std_specs::ops::BitAndSpecImpl for Propagate {
    open spec fn obeys_bitand_spec() -> bool {
        true
    }

    open spec fn bitand_req(self, rhs: Propagate) -> bool {
        true
    }

    /// The axes that both masks inherit.
    open spec fn bitand_spec(self, rhs: Propagate) -> Propagate {
        Propagate(self.0 & rhs.0)
    }
}

impl std::ops::BitAndAssign for Propagate {
    fn bitand_assign(&mut self, rhs: Propagate)
        ensures
            final(self).0 == old(self).0 & rhs.0,
    {
        self.0 = self.0 & rhs.0;
    }
}

impl std::ops::BitOr for Propagate {
    type Output = Propagate;

    fn bitor(self, rhs: Propagate) -> (r: Propagate) {
        Propagate(self.0 | rhs.0)
    }
}

impl vstd::std_specs::ops::BitOrSpecImpl for Propagate {
    open spec fn obeys_bitor_spec() -> bool {
        true
    }

    open spec fn bitor_req(self, rhs: Propagate) -> bool {
        true
    }

    /// The axes that either mask inherits.
    open spec fn bitor_spec(self, rhs: Propagate) -> Propagate {
        Propagate(self.0 | rhs.0)
    }
}

impl std::ops::BitOrAssign for Propagate {
    fn bitor_assign(&mut self, rhs: Propagate)
        ensures
            final(self).0 == old(self).0 | rhs.0,
    {
        self.0 = self.0 | rhs.0;
    }
}

/// The empty mask shares no axis with any mask, and the full mask shares one
/// with every mask that names an axis.
pub proof fn lemma_inherits_bounds(rule: Propagate)
    ensures
        !Propagate(0).spec_inherits(rule),
        rule.0 & ALL_BITS != 0 ==> Propagate(ALL_BITS).spec_inherits(rule),
{
    let r = rule.0;
    assert(0u8 & r == 0 && (r & 15 != 0 ==> 15u8 & r != 0)) by (bit_vector);
}

/// A mask that is not empty shares an axis with itself, and none with what
/// is left of another mask when its own axes are taken out.
pub proof fn lemma_inherits_own(p: Propagate, q: Propagate)
    ensures
        p.0 != 0 ==> p.spec_inherits(p),
        !p.spec_inherits(Propagate(q.0 & !p.0)),
{
    let a = p.0;
    let b = q.0;
    assert((a != 0 ==> a & a != 0) && a & (b & !a) == 0) by (bit_vector);
}

/// The union of two masks shares an axis with a rule where one of them does,
/// and their intersection only where both do.
pub proof fn lemma_inherits_union(a: Propagate, b: Propagate, rule: Propagate)
    ensures
        Propagate(a.0 | b.0).spec_inherits(rule) == (a.spec_inherits(rule) || b.spec_inherits(rule)),
        Propagate(a.0 & b.0).spec_inherits(rule) ==> a.spec_inherits(rule) && b.spec_inherits(rule),
{
    let x = a.0;
    let y = b.0;
    let r = rule.0;
    assert((((x | y) & r != 0) == (x & r != 0 || y & r != 0)) && (((x & y) & r != 0) ==> x & r != 0
        && y & r != 0)) by (bit_vector);
}

/// Which axes of its parent's global transform an object inherits, as four
/// switches.
///
/// An object without a descriptor inherits every axis, while the default
/// descriptor inherits none: see [`policy`].
#[derive(Clone, Copy, Debug, PartialEq, Eq, Structural)]
pub struct Transform2dPropagationDescriptor {
    pub inherit_translation: bool,
    pub inherit_z: bool,
    pub inherit_rotation: bool,
    pub inherit_scale: bool,
}

impl Default for Transform2dPropagationDescriptor {
    fn default() -> (r: Transform2dPropagationDescriptor)
        ensures
            !r.inherit_translation,
            !r.inherit_z,
            !r.inherit_rotation,
            !r.inherit_scale,
    {
        Transform2dPropagationDescriptor {
            inherit_translation: false,
            inherit_z: false,
            inherit_rotation: false,
            inherit_scale: false,
        }
    }
}

/// The mask with the bit of each axis that the descriptor inherits.
pub open spec fn mask_of(d: Transform2dPropagationDescriptor) -> Propagate {
    Propagate(
        (if d.inherit_translation {
            TRANSLATION_BIT
        } else {
            0u8
        }) | (if d.inherit_z {
            DEPTH_BIT
        } else {
            0u8
        }) | (if d.inherit_rotation {
            ROTATION_BIT
        } else {
            0u8
        }) | (if d.inherit_scale {
            SCALE_BIT
        } else {
            0u8
        }),
    )
}

/// The policy of an object with the descriptor `d`, or with none: an object
/// without a descriptor inherits every axis.
pub open spec fn policy_for(d: Option<Transform2dPropagationDescriptor>) -> Propagate {
    match d {
        Some(d) => mask_of(d),
        None => Propagate(ALL_BITS),
    }
}

/// The mask of a descriptor inherits the axes that the descriptor inherits,
/// and has no other bit.
pub proof fn lemma_mask_of(d: Transform2dPropagationDescriptor)
    ensures
        mask_of(d).inherits_translation() == d.inherit_translation,
        mask_of(d).inherits_depth() == d.inherit_z,
        mask_of(d).inherits_rotation() == d.inherit_rotation,
        mask_of(d).inherits_scale() == d.inherit_scale,
        mask_of(d).0 <= ALL_BITS,
{
    let t: u8 = if d.inherit_translation { 1 } else { 0 };
    let z: u8 = if d.inherit_z { 2 } else { 0 };
    let r: u8 = if d.inherit_rotation { 4 } else { 0 };
    let s: u8 = if d.inherit_scale { 8 } else { 0 };
    assert(((t | z | r | s) & 1 != 0) == (t != 0) && ((t | z | r | s) & 2 != 0) == (z != 0) && ((t
        | z | r | s) & 4 != 0) == (r != 0) && ((t | z | r | s) & 8 != 0) == (s != 0) && (t | z | r
        | s) <= 15) by (bit_vector)
        requires
            t == 0 || t == 1,
            z == 0 || z == 2,
            r == 0 || r == 4,
            s == 0 || s == 8,
    ;
}

impl Transform2dPropagationDescriptor {
    /// The mask with the bit of each axis that the descriptor inherits.
    pub fn mask(&self) -> (r: Propagate)
        ensures
            r == mask_of(*self),
    {
        let t: u8 = if self.inherit_translation { TRANSLATION_BIT } else { 0 };
        let z: u8 = if self.inherit_z { DEPTH_BIT } else { 0 };
        let r: u8 = if self.inherit_rotation { ROTATION_BIT } else { 0 };
        let s: u8 = if self.inherit_scale { SCALE_BIT } else { 0 };
        Propagate(t | z | r | s)
    }
}

/// The policy of an object with the descriptor `d`, or with none.
pub fn policy(d: Option<&Transform2dPropagationDescriptor>) -> (r: Propagate)
    ensures
        r == policy_for(
            match d {
                Some(d) => Some(*d),
                None => None,
            },
        ),
{
    match d {
        Some(d) => d.mask(),
        None => Propagate(ALL_BITS),
    }
}

} // verus!
