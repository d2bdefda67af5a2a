//! The abstract rigid-transform payload carried by frames and poses.

use vstd::prelude::*;

verus! {

/// Operations a rigid-transform value must offer so that the tree can
/// compose transforms along ancestor chains.
///
/// The tree never looks inside a transform: it only stores values, composes
/// them with [`RigidOps::compose`] in the order fixed by the chain, and
/// inverts the target-side accumulation with [`RigidOps::inverse`]. Callers
/// implement this trait for their concrete transform type (typically a rigid
/// isometry: rotation plus translation, no scale).
///
/// Each executable method is pinned to a spec-level function of its
/// arguments alone: an implementation must be pure, and the tree's
/// contracts can then say exactly which composition of which stored
/// transforms a result is. No algebraic law (associativity, inverses
/// cancelling) is demanded — floating-point implementations satisfy such
/// laws only approximately, and the tree's own correctness needs none of
/// them.
pub trait RigidOps: Sized + Copy {
    /// What the identity transform of this type is.
    spec fn spec_identity() -> Self;

    /// What composing `self` after `other` yields.
    spec fn spec_compose(self, other: Self) -> Self;

    /// What inverting `self` yields.
    spec fn spec_inverse(self) -> Self;

    /// The identity transform (what a root frame stores).
    fn identity() -> (r: Self)
        ensures
            r == Self::spec_identity(),
    ;

    /// The composition `self` after `other`: applied to a point, `other`
    /// acts first, then `self`.
    fn compose(&self, other: &Self) -> (r: Self)
        ensures
            r == self.spec_compose(*other),
    ;

    /// The inverse transform.
    fn inverse(&self) -> (r: Self)
        ensures
            r == self.spec_inverse(),
    ;
}

} // verus!
