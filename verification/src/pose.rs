//! Poses: rigid transforms anchored weakly to a frame.
//!
//! A pose stores a transform relative to its anchor frame and the anchor's
//! identifier. The anchor is held weakly: a pose never keeps its frame
//! alive, and resolving the anchor simply yields nothing once the frame
//! has been reclaimed. Re-expressing a pose in another frame follows the
//! composition law: find the lowest common ancestor of anchor and target,
//! walk both chains up to it, and compose the target-side walk inverted
//! with the anchor-side walk and the pose's own transform.

use vstd::prelude::*;

use crate::CartesianTreeError;
use crate::frame::Frame;
use crate::frame::FrameArena;
use crate::frame::mint_handle;
use crate::rigid::RigidOps;
use crate::tree::lca_ids;
use crate::tree::walk_ids;

verus! {

broadcast use crate::frame::group_arena_defs;

/// A rigid transform anchored (weakly) to a frame. Many poses may anchor
/// to one frame; none is privileged, and cloning a pose does not touch the
/// frame's handle count.
#[derive(Clone, Debug)]
pub struct Pose<X> {
    /// The identifier of the anchor frame; resolving it may fail once the
    /// frame has been reclaimed.
    anchor: usize,
    /// The transform from this pose to its anchor frame.
    transform: X,
}

impl<X> Pose<X> {
    /// The identifier of the anchor frame.
    pub closed spec fn anchor_of(self) -> int {
        self.anchor as int
    }

    /// The stored transform relative to the anchor.
    pub closed spec fn transform_spec(self) -> X {
        self.transform
    }

    /// Whether this pose's anchor identifier refers into `arena`.
    pub open spec fn anchored_in(self, arena: FrameArena<X>) -> bool {
        arena.in_bounds(self.anchor_of())
    }

    /// Creates a pose over a raw anchor identifier; poses are handed out
    /// through [`Frame::add_pose`].
    pub(crate) fn new(anchor: usize, transform: X) -> (p: Pose<X>)
        ensures
            p.anchor_of() == anchor as int,
            p.transform_spec() == transform,
    {
        Pose { anchor, transform }
    }

    /// Resolves the anchor: a fresh handle to the anchor frame while it is
    /// still alive, and `None` — never a panic — once it has been
    /// reclaimed.
    pub fn frame(&self, arena: &mut FrameArena<X>) -> (r: Option<Frame>)
        requires
            old(arena).wf(),
            self.anchored_in(*old(arena)),
            old(arena).is_alive(self.anchor_of()) ==> old(arena).handles_of(self.anchor_of())
                < usize::MAX,
        ensures
            final(arena).wf(),
            final(arena).num_frames() == old(arena).num_frames(),
            match r {
                Option::Some(f) => {
                    &&& f@ == self.anchor_of()
                    &&& old(arena).is_alive(self.anchor_of())
                    &&& final(arena).valid_handle(f)
                    &&& final(arena).handles_of(f@) == old(arena).handles_of(f@) + 1
                    &&& forall|j: int|
                        old(arena).in_bounds(j) && j != f@ ==> final(arena).node_unchanged(
                            *old(arena),
                            j,
                        )
                },
                Option::None => {
                    &&& !old(arena).is_alive(self.anchor_of())
                    &&& *final(arena) == *old(arena)
                },
            },
    {
        if arena.nodes[self.anchor].alive {
            let f = mint_handle(arena, self.anchor);
            proof {
                assert forall|j: int| old(arena).in_bounds(j) && j != f@ implies arena.node_unchanged(
                    *old(arena),
                    j,
                ) by {}
            }
            Option::Some(f)
        } else {
            Option::None
        }
    }

    /// The stored transform from this pose to its anchor frame.
    pub fn transformation(&self) -> (t: &X)
        ensures
            *t == self.transform_spec(),
    {
        &self.transform
    }

    /// Overwrites the stored transform; the anchor stays as it was.
    pub fn update(&mut self, transform: X)
        ensures
            final(self).anchor_of() == old(self).anchor_of(),
            final(self).transform_spec() == transform,
    {
        self.transform = transform;
    }

    /// Re-expresses this pose in the coordinates of `target`, following
    /// the composition law over the lowest common ancestor: the result's
    /// transform is the inverse of the target-side chain walk, composed
    /// with the anchor-side chain walk, composed with this pose's own
    /// transform. Fails with `WeakUpgradeFailed` exactly when the anchor
    /// frame has been reclaimed; then with `NoCommonAncestor` (carrying
    /// both names) exactly when anchor and target belong to disjoint
    /// trees; then with `BrokenChain` exactly when either chain up to the
    /// common ancestor crosses a reclaimed frame. Otherwise the new pose
    /// is anchored at `target`.
    pub fn in_frame(&self, arena: &FrameArena<X>, target: &Frame) -> (r: Result<
        Pose<X>,
        CartesianTreeError,
    >) where X: RigidOps
        requires
            arena.wf(),
            arena.valid_handle(*target),
            self.anchored_in(*arena),
        ensures
            (r == Result::<Pose<X>, CartesianTreeError>::Err(
                CartesianTreeError::WeakUpgradeFailed,
            )) <==> !arena.is_alive(self.anchor_of()),
            arena.is_alive(self.anchor_of()) ==> match arena.lca_of(self.anchor_of(), target@) {
                Option::None => r matches Err(CartesianTreeError::NoCommonAncestor(na, nb))
                    && na@ == arena.name_of(self.anchor_of()) && nb@ == arena.name_of(target@),
                Option::Some(l) => {
                    if arena.walk_ok(self.anchor_of(), l as int) && arena.walk_ok(
                        target@,
                        l as int,
                    ) {
                        r matches Ok(p) && p.anchor_of() == target@ && p.anchored_in(*arena)
                            && p.transform_spec() == arena.walk_fold(
                            target@,
                            l as int,
                        ).spec_inverse().spec_compose(
                            arena.walk_fold(self.anchor_of(), l as int).spec_compose(
                                self.transform_spec(),
                            ),
                        )
                    } else {
                        r == Result::<Pose<X>, CartesianTreeError>::Err(
                            CartesianTreeError::BrokenChain,
                        )
                    }
                },
            },
    {
        if !arena.nodes[self.anchor].alive {
            return Result::Err(CartesianTreeError::WeakUpgradeFailed);
        }
        let l = match lca_ids(arena, self.anchor, target.id) {
            Option::Some(l) => l,
            Option::None => {
                let na = arena.nodes[self.anchor].name.clone();
                let nb = arena.nodes[target.id].name.clone();
                return Result::Err(CartesianTreeError::NoCommonAncestor(na, nb));
            },
        };
        let tf_up = match walk_ids(arena, self.anchor, l) {
            Result::Ok(t) => t,
            Result::Err(e) => {
                return Result::Err(e);
            },
        };
        let tf_up = tf_up.compose(&self.transform);
        let tf_down = match walk_ids(arena, target.id, l) {
            Result::Ok(t) => t,
            Result::Err(e) => {
                return Result::Err(e);
            },
        };
        Result::Ok(Pose { anchor: target.id, transform: tf_down.inverse().compose(&tf_up) })
    }
}

impl Frame {
    /// Anchors a new pose to this frame, with the given transform relative
    /// to it. The pose references the frame weakly: it does not keep it
    /// alive, and any number of poses may share one anchor.
    pub fn add_pose<X>(&self, transform: X) -> (p: Pose<X>)
        ensures
            p.anchor_of() == self@,
            p.transform_spec() == transform,
    {
        Pose::new(self.id, transform)
    }
}

} // verus!
