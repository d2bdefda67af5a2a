//! A hierarchical spatial-transform tree: named coordinate frames connected by
//! rigid transforms, plus lightweight poses anchored to a frame, with
//! resolution of a pose into an arbitrary other frame's coordinates.
//!
//! Frames live in a [`FrameArena`], a single owning store of nodes addressed
//! by stable identifiers. A [`Frame`] is a counted handle over a node: a node
//! stays alive as long as some handle to it, or to an ancestor of it, is still
//! held. A [`Pose`] references its anchor frame weakly and never keeps it
//! alive. The rigid-transform payload itself is abstract: callers supply any
//! type implementing [`RigidOps`] (typically an isometry), and the tree
//! composes those values along ancestor chains.

use vstd::prelude::*;

pub mod frame;
pub mod pose;
pub mod rigid;
pub mod snapshot;
pub mod tree;

pub use frame::Frame;
pub use frame::FrameArena;
pub use pose::Pose;
pub use rigid::RigidOps;
pub use snapshot::FrameSnapshot;

verus! {

/// The failures a tree operation can report.
#[derive(Debug, PartialEq, Eq)]
pub enum CartesianTreeError {
    /// A sibling with this name already exists under the target frame.
    NameCollision(String),
    /// A referenced frame has been reclaimed.
    WeakUpgradeFailed,
    /// Cross-frame resolution was attempted across disjoint trees; carries
    /// the names of the two frames involved.
    NoCommonAncestor(String, String),
    /// An ancestor walk could not complete because an intermediate frame was
    /// reclaimed.
    BrokenChain,
    /// The operation asked for the parent-facing transform of a root frame.
    RootHasNoParent,
}

/// Relies on std's `format!` to splice the colliding name into the fixed
/// collision wording.
#[verifier::external_body]
fn name_collision_message(name: &String) -> (r: String)
    ensures
        r@ == "A child with name '"@ + name@ + "' already exists!"@,
{
    format!("A child with name '{}' already exists!", name)
}

/// Relies on std's `format!` to splice the two frame names into the
/// no-common-ancestor wording.
#[verifier::external_body]
fn no_common_ancestor_message(name_a: &String, name_b: &String) -> (r: String)
    ensures
        r@ == "Frames '"@ + name_a@ + "' and '"@ + name_b@ + "' have no common ancestor!"@,
{
    format!("Frames '{}' and '{}' have no common ancestor!", name_a, name_b)
}

impl CartesianTreeError {
    /// The human-readable message of this failure, as it crosses any
    /// reporting boundary.
    pub open spec fn spec_message(self) -> Seq<char> {
        match self {
            CartesianTreeError::NameCollision(name) => "A child with name '"@ + name@
                + "' already exists!"@,
            CartesianTreeError::WeakUpgradeFailed => "The referenced frame has been reclaimed!"@,
            CartesianTreeError::NoCommonAncestor(name_a, name_b) => "Frames '"@ + name_a@ + "' and '"@
                + name_b@ + "' have no common ancestor!"@,
            CartesianTreeError::BrokenChain => "An intermediate frame of the chain has been reclaimed!"@,
            CartesianTreeError::RootHasNoParent => "A root frame has no parent!"@,
        }
    }

    /// A human-readable description of the failure.
    pub fn message(&self) -> (r: String)
        ensures
            r@ == self.spec_message(),
    {
        match self {
            CartesianTreeError::NameCollision(name) => name_collision_message(name),
            CartesianTreeError::WeakUpgradeFailed => "The referenced frame has been reclaimed!".to_owned(),
            CartesianTreeError::NoCommonAncestor(name_a, name_b) => no_common_ancestor_message(
                name_a,
                name_b,
            ),
            CartesianTreeError::BrokenChain => "An intermediate frame of the chain has been reclaimed!".to_owned(),
            CartesianTreeError::RootHasNoParent => "A root frame has no parent!".to_owned(),
        }
    }
}

} // verus!
