//! The frame tree: an arena of named nodes connected by parent/child links,
//! each node carrying a rigid transform to its parent.
//!
//! Nodes are addressed by stable identifiers (their index in the arena).
//! [`Frame`] is a counted handle: the arena records, per node, how many
//! handles are currently held, and a node is alive exactly as long as some
//! node on its own parent chain (itself included) still has a handle —
//! children are owned strongly downward, the parent link is a non-owning
//! back-reference.

use vstd::prelude::*;

use crate::CartesianTreeError;
use crate::pose::Pose;
use crate::rigid::RigidOps;

verus! {

/// One node of the arena.
pub(crate) struct Node<X> {
    /// The node's name; unique among its direct siblings.
    pub(crate) name: String,
    /// The identifier of the parent node; `None` for a root.
    pub(crate) parent: Option<usize>,
    /// Identifiers of the direct children, in creation order.
    pub(crate) children: Vec<usize>,
    /// The rigid transform mapping this node's coordinates into its
    /// parent's; the identity for a root.
    pub(crate) transform: X,
    /// Whether the node is still reachable from a held handle.
    pub(crate) alive: bool,
    /// How many external handles to this very node are held.
    pub(crate) handles: usize,
}

/// The single owning store of frame nodes. All trees created through it
/// share one arena; nodes of different roots belong to disjoint trees.
pub struct FrameArena<X> {
    pub(crate) nodes: Vec<Node<X>>,
}

/// A counted handle over one frame node of a [`FrameArena`].
///
/// Handles alias: many may refer to the same node, and a transform update
/// through one is visible through all. A handle keeps its node (and the
/// node's whole subtree) alive; it is released with
/// [`Frame::drop_handle`] and duplicated with [`Frame::clone_handle`].
#[derive(Debug)]
pub struct Frame {
    pub(crate) id: usize,
}

impl<X> FrameArena<X> {
    /// How many nodes the arena holds (alive or reclaimed).
    pub closed spec fn num_frames(self) -> int {
        self.nodes@.len() as int
    }

    /// Whether `i` identifies a node of this arena.
    pub open spec fn in_bounds(self, i: int) -> bool {
        0 <= i < self.num_frames()
    }

    /// The parent identifier of node `i`, `None` for a root.
    pub closed spec fn parent_of(self, i: int) -> Option<usize> {
        self.nodes@[i].parent
    }

    /// The name of node `i`.
    pub closed spec fn name_of(self, i: int) -> Seq<char> {
        self.nodes@[i].name@
    }

    /// The children of node `i`, in creation order.
    pub closed spec fn children_of(self, i: int) -> Seq<usize> {
        self.nodes@[i].children@
    }

    /// The transform of node `i` to its parent.
    pub closed spec fn transform_of(self, i: int) -> X {
        self.nodes@[i].transform
    }

    /// How many handles to node `i` are held.
    pub closed spec fn handles_of(self, i: int) -> nat {
        self.nodes@[i].handles as nat
    }

    /// Whether node `i` exists and has not been reclaimed.
    pub closed spec fn is_alive(self, i: int) -> bool {
        self.in_bounds(i) && self.nodes@[i].alive
    }

    /// Whether some node on the parent chain of `i` (itself included) still
    /// has a held handle. This is exactly the condition under which node `i`
    /// is retained: a handle keeps its node alive, and every node keeps its
    /// children alive.
    pub open spec fn retained(self, i: int) -> bool
        decreases i,
    {
        if !self.in_bounds(i) {
            false
        } else if self.handles_of(i) > 0 {
            true
        } else {
            match self.parent_of(i) {
                Option::Some(p) => p < i && self.retained(p as int),
                Option::None => false,
            }
        }
    }

    /// Structural soundness of node `i`: the parent link points at an
    /// earlier node that lists `i` among its children; every child is a
    /// later node whose parent link points back here; sibling names are
    /// unique; and the node is alive exactly when it is retained by some
    /// handle on its parent chain.
    pub open spec fn wf_node(self, i: int) -> bool {
        &&& match self.parent_of(i) {
            Option::Some(p) => p < i && self.children_of(p as int).contains(i as usize),
            Option::None => true,
        }
        &&& forall|k: int|
            0 <= k < self.children_of(i).len() ==> {
                &&& i < #[trigger] self.children_of(i)[k] < self.num_frames()
                &&& self.parent_of(self.children_of(i)[k] as int) == Option::Some(i as usize)
            }
        &&& forall|k1: int, k2: int|
            0 <= k1 < k2 < self.children_of(i).len() ==> self.name_of(
                #[trigger] self.children_of(i)[k1] as int,
            ) != self.name_of(#[trigger] self.children_of(i)[k2] as int)
        &&& (self.is_alive(i) <==> self.retained(i))
    }

    /// The arena's invariant: the store is addressable and every node is
    /// structurally sound.
    pub open spec fn wf(self) -> bool {
        &&& self.num_frames() <= usize::MAX
        &&& forall|i: int| self.in_bounds(i) ==> #[trigger] self.wf_node(i)
    }

    /// Whether node `i` already has a direct child called `name`.
    pub open spec fn has_child_named(self, i: int, name: Seq<char>) -> bool {
        exists|k: int|
            0 <= k < self.children_of(i).len() && self.name_of(
                #[trigger] self.children_of(i)[k] as int,
            ) == name
    }

    /// Whether `f` is a currently held handle over a node of this arena.
    pub open spec fn valid_handle(self, f: Frame) -> bool {
        &&& self.in_bounds(f@)
        &&& self.handles_of(f@) > 0
    }

    /// Node `j` carries the very same data in `self` as in `other`.
    pub open spec fn node_unchanged(self, other: FrameArena<X>, j: int) -> bool {
        &&& self.parent_of(j) == other.parent_of(j)
        &&& self.name_of(j) == other.name_of(j)
        &&& self.children_of(j) == other.children_of(j)
        &&& self.transform_of(j) == other.transform_of(j)
        &&& self.handles_of(j) == other.handles_of(j)
        &&& (self.is_alive(j) <==> other.is_alive(j))
    }

    /// An empty arena, holding no frame yet.
    pub fn new() -> (arena: FrameArena<X>)
        ensures
            arena.wf(),
            arena.num_frames() == 0,
    {
        let arena = FrameArena { nodes: Vec::new() };
        proof {
            assert forall|i: int| arena.in_bounds(i) implies arena.wf_node(i) by {};
        }
        arena
    }

    /// How many nodes the arena currently holds, reclaimed ones included.
    pub fn len(&self) -> (n: usize)
        ensures
            n == self.num_frames(),
    {
        self.nodes.len()
    }
}

impl<X> FrameArena<X> {
    /// Definition of `num_frames` in terms of the node store.
    pub(crate) broadcast proof fn lemma_num_frames_def(self)
        ensures
            #[trigger] self.num_frames() == self.nodes@.len(),
    {
    }

    /// Definition of `parent_of` in terms of the node store.
    pub(crate) broadcast proof fn lemma_parent_def(self, i: int)
        ensures
            #[trigger] self.parent_of(i) == self.nodes@[i].parent,
    {
    }

    /// Definition of `name_of` in terms of the node store.
    pub(crate) broadcast proof fn lemma_name_def(self, i: int)
        ensures
            #[trigger] self.name_of(i) == self.nodes@[i].name@,
    {
    }

    /// Definition of `children_of` in terms of the node store.
    pub(crate) broadcast proof fn lemma_children_def(self, i: int)
        ensures
            #[trigger] self.children_of(i) == self.nodes@[i].children@,
    {
    }

    /// Definition of `transform_of` in terms of the node store.
    pub(crate) broadcast proof fn lemma_transform_def(self, i: int)
        ensures
            #[trigger] self.transform_of(i) == self.nodes@[i].transform,
    {
    }

    /// Definition of `handles_of` in terms of the node store.
    pub(crate) broadcast proof fn lemma_handles_def(self, i: int)
        ensures
            #[trigger] self.handles_of(i) == self.nodes@[i].handles as nat,
    {
    }

    /// Definition of `is_alive` in terms of the node store.
    pub(crate) broadcast proof fn lemma_alive_def(self, i: int)
        ensures
            #[trigger] self.is_alive(i) <==> (0 <= i < self.nodes@.len() && self.nodes@[i].alive),
    {
    }
}

impl View for Frame {
    type V = int;

    /// A handle is identified by the node it refers to.
    closed spec fn view(&self) -> int {
        self.id as int
    }
}

impl Frame {
    /// Definition of a handle's view: the identifier it carries.
    pub(crate) broadcast proof fn lemma_view_def(self)
        ensures
            #[trigger] self@ == self.id as int,
    {
    }
}

/// The definitions of the arena's spec accessors, for use by the sibling
/// modules that implement walking and poses over the store.
pub(crate) broadcast group group_arena_defs {
    FrameArena::lemma_num_frames_def,
    FrameArena::lemma_parent_def,
    FrameArena::lemma_name_def,
    FrameArena::lemma_children_def,
    FrameArena::lemma_transform_def,
    FrameArena::lemma_handles_def,
    FrameArena::lemma_alive_def,
    Frame::lemma_view_def,
}

impl<X> FrameArena<X> {
    /// `retained` reads only the parent links and the positivity of the
    /// handle counts of the nodes on the parent chain of `i`; it is
    /// therefore unaffected by any change that leaves those of every node
    /// in place.
    pub(crate) proof fn lemma_retained_depends_on_parents_and_handles(
        self,
        other: FrameArena<X>,
        i: int,
    )
        requires
            self.num_frames() <= other.num_frames(),
            forall|j: int|
                self.in_bounds(j) ==> #[trigger] other.parent_of(j) == self.parent_of(j) && (
                other.handles_of(j) > 0 <==> self.handles_of(j) > 0),
            self.in_bounds(i) || !other.in_bounds(i),
        ensures
            self.retained(i) == other.retained(i),
        decreases i,
    {
        if self.in_bounds(i) {
            if self.handles_of(i) > 0 {
            } else {
                match self.parent_of(i) {
                    Option::Some(p) => {
                        if p < i {
                            self.lemma_retained_depends_on_parents_and_handles(other, p as int);
                        }
                    },
                    Option::None => {},
                }
            }
        }
    }

    /// Well-formedness carries over to an arena of the same size whose
    /// nodes keep their parent links, names and children, provided the
    /// alive flags again match `retained`.
    pub(crate) proof fn lemma_wf_structure(self, post: FrameArena<X>)
        requires
            self.wf(),
            post.num_frames() == self.num_frames(),
            forall|j: int| self.in_bounds(j) ==> #[trigger] post.parent_of(j) == self.parent_of(j),
            forall|j: int| self.in_bounds(j) ==> #[trigger] post.name_of(j) == self.name_of(j),
            forall|j: int|
                self.in_bounds(j) ==> #[trigger] post.children_of(j) == self.children_of(j),
            forall|j: int| self.in_bounds(j) ==> (post.is_alive(j) <==> post.retained(j)),
        ensures
            post.wf(),
    {
        assert forall|i: int| post.in_bounds(i) implies post.wf_node(i) by {
            assert(self.wf_node(i));
            assert(post.children_of(i) == self.children_of(i));
            assert forall|k: int| 0 <= k < post.children_of(i).len() implies i
                < #[trigger] post.children_of(i)[k] < post.num_frames() && post.parent_of(
                post.children_of(i)[k] as int,
            ) == Option::Some(i as usize) by {
                let c = self.children_of(i)[k];
                assert(post.children_of(i)[k] == c);
                assert(self.parent_of(c as int) == Option::Some(i as usize));
            }
            assert forall|k1: int, k2: int|
                0 <= k1 < k2 < post.children_of(i).len() implies post.name_of(
                #[trigger] post.children_of(i)[k1] as int,
            ) != post.name_of(#[trigger] post.children_of(i)[k2] as int) by {
                let c1 = self.children_of(i)[k1];
                let c2 = self.children_of(i)[k2];
                assert(i < c1 < self.num_frames());
                assert(i < c2 < self.num_frames());
                assert(self.name_of(c1 as int) != self.name_of(c2 as int));
            }
            match post.parent_of(i) {
                Option::Some(p) => {
                    assert(self.children_of(p as int).contains(i as usize));
                },
                Option::None => {},
            }
        }
    }
}

impl Frame {
    /// Creates a new root frame with the given name: no parent, the
    /// identity transform, no children, and one held handle. Every earlier
    /// node of the arena is left untouched, so the new root starts a tree
    /// disjoint from all existing ones.
    pub fn new_origin<X: RigidOps>(arena: &mut FrameArena<X>, name: String) -> (f: Frame)
        requires
            old(arena).wf(),
            old(arena).num_frames() < usize::MAX,
        ensures
            final(arena).wf(),
            f@ == old(arena).num_frames(),
            final(arena).num_frames() == old(arena).num_frames() + 1,
            final(arena).name_of(f@) == name@,
            final(arena).parent_of(f@) == Option::<usize>::None,
            final(arena).children_of(f@) == Seq::<usize>::empty(),
            final(arena).handles_of(f@) == 1,
            final(arena).is_alive(f@),
            final(arena).valid_handle(f),
            final(arena).transform_of(f@) == X::spec_identity(),
            forall|j: int| old(arena).in_bounds(j) ==> final(arena).node_unchanged(*old(arena), j),
    {
        let id = arena.nodes.len();
        let node = Node {
            name,
            parent: Option::None,
            children: Vec::new(),
            transform: X::identity(),
            alive: true,
            handles: 1,
        };
        arena.nodes.push(node);
        let f = Frame { id };
        proof {
            let pre = *old(arena);
            let post = *arena;
            assert forall|j: int| pre.in_bounds(j) implies post.node_unchanged(pre, j) by {
                pre.lemma_retained_depends_on_parents_and_handles(post, j);
            }
            assert forall|i: int| post.in_bounds(i) implies post.wf_node(i) by {
                if i < pre.num_frames() {
                    assert(pre.wf_node(i));
                    pre.lemma_retained_depends_on_parents_and_handles(post, i);
                } else {
                    assert(i == id);
                    assert(post.handles_of(i) > 0);
                    assert(post.retained(i));
                }
            }
        }
        f
    }

    /// Adds a new child frame under this one, positioned and oriented by
    /// `transform` (the child's transform to this frame). Fails with
    /// `NameCollision` — and leaves the whole arena unchanged — exactly when
    /// a direct child of this frame already carries `name`; otherwise the
    /// child is appended to this frame's children (creation order), starts
    /// with no children of its own, and is handed back as a fresh handle.
    pub fn add_child<X>(
        &self,
        arena: &mut FrameArena<X>,
        name: String,
        transform: X,
    ) -> (r: Result<Frame, CartesianTreeError>)
        requires
            old(arena).wf(),
            old(arena).is_alive(self@),
            old(arena).num_frames() < usize::MAX,
        ensures
            final(arena).wf(),
            match r {
                Result::Ok(child) => {
                    &&& !old(arena).has_child_named(self@, name@)
                    &&& child@ == old(arena).num_frames()
                    &&& final(arena).num_frames() == old(arena).num_frames() + 1
                    &&& final(arena).name_of(child@) == name@
                    &&& final(arena).parent_of(child@) == Option::Some(self@ as usize)
                    &&& final(arena).children_of(child@) == Seq::<usize>::empty()
                    &&& final(arena).handles_of(child@) == 1
                    &&& final(arena).is_alive(child@)
                    &&& final(arena).valid_handle(child)
                    &&& final(arena).transform_of(child@) == transform
                    &&& final(arena).children_of(self@) == old(arena).children_of(self@).push(
                        child@ as usize,
                    )
                    &&& final(arena).parent_of(self@) == old(arena).parent_of(self@)
                    &&& final(arena).name_of(self@) == old(arena).name_of(self@)
                    &&& final(arena).transform_of(self@) == old(arena).transform_of(self@)
                    &&& final(arena).handles_of(self@) == old(arena).handles_of(self@)
                    &&& final(arena).is_alive(self@)
                    &&& forall|j: int|
                        old(arena).in_bounds(j) && j != self@ ==> final(arena).node_unchanged(
                            *old(arena),
                            j,
                        )
                    &&& forall|j: int|
                        old(arena).in_bounds(j) ==> {
                            &&& #[trigger] final(arena).parent_of(j) == old(arena).parent_of(j)
                            &&& final(arena).name_of(j) == old(arena).name_of(j)
                            &&& final(arena).handles_of(j) == old(arena).handles_of(j)
                            &&& (final(arena).is_alive(j) <==> old(arena).is_alive(j))
                            &&& j != self@ ==> final(arena).transform_of(j) == old(
                                arena,
                            ).transform_of(j)
                            &&& j != self@ ==> final(arena).children_of(j) == old(
                                arena,
                            ).children_of(j)
                        }
                },
                Result::Err(e) => {
                    &&& old(arena).has_child_named(self@, name@)
                    &&& e matches CartesianTreeError::NameCollision(n) && n@ == name@
                    &&& *final(arena) == *old(arena)
                },
            },
    {
        let num_children = arena.nodes[self.id].children.len();
        proof {
            assert(arena.wf_node(self@));
        }
        let mut k: usize = 0;
        while k < num_children
            invariant
                *arena == *old(arena),
                arena.wf(),
                arena.is_alive(self@),
                num_children == arena.children_of(self@).len(),
                0 <= k <= num_children,
                forall|j: int|
                    0 <= j < k ==> arena.name_of(#[trigger] arena.children_of(self@)[j] as int)
                        != name@,
            decreases num_children - k,
        {
            proof {
                assert(arena.wf_node(self@));
            }
            let cid = arena.nodes[self.id].children[k];
            if arena.nodes[cid].name == name {
                proof {
                    assert(arena.children_of(self@)[k as int] == cid);
                    assert(arena.name_of(arena.children_of(self@)[k as int] as int) == name@);
                    assert(arena.has_child_named(self@, name@));
                }
                return Result::Err(CartesianTreeError::NameCollision(name));
            }
            k += 1;
        }
        let id = arena.nodes.len();
        let node = Node {
            name,
            parent: Option::Some(self.id),
            children: Vec::new(),
            transform,
            alive: true,
            handles: 1,
        };
        arena.nodes.push(node);
        arena.nodes[self.id].children.push(id);
        let child = Frame { id };
        proof {
            let pre = *old(arena);
            let post = *arena;
            assert(!pre.has_child_named(self@, name@));
            assert(post.children_of(self@) == pre.children_of(self@).push(id));
            assert forall|j: int| pre.in_bounds(j) implies post.parent_of(j) == pre.parent_of(j)
                && post.handles_of(j) == pre.handles_of(j) by {}
            assert forall|j: int| pre.in_bounds(j) && j != self@ implies post.node_unchanged(
                pre,
                j,
            ) by {
                pre.lemma_retained_depends_on_parents_and_handles(post, j);
            }
            assert forall|i: int| post.in_bounds(i) implies post.wf_node(i) by {
                if i < pre.num_frames() {
                    assert(pre.wf_node(i));
                    pre.lemma_retained_depends_on_parents_and_handles(post, i);
                    if i == self@ {
                        let pre_cs = pre.children_of(i);
                        let post_cs = post.children_of(i);
                        assert forall|kk: int|
                            0 <= kk < post_cs.len() implies i < #[trigger] post_cs[kk]
                            < post.num_frames() && post.parent_of(post_cs[kk] as int)
                            == Option::Some(i as usize) by {
                            if kk < pre_cs.len() {
                                assert(post_cs[kk] == pre_cs[kk]);
                            } else {
                                assert(post_cs[kk] == id);
                            }
                        }
                        assert forall|k1: int, k2: int|
                            0 <= k1 < k2 < post_cs.len() implies post.name_of(
                            #[trigger] post_cs[k1] as int,
                        ) != post.name_of(#[trigger] post_cs[k2] as int) by {
                            if k2 < pre_cs.len() {
                                assert(pre.wf_node(i));
                            } else {
                                assert(post_cs[k2] == id);
                                assert(post.name_of(post_cs[k1] as int) == pre.name_of(
                                    pre_cs[k1] as int,
                                ));
                            }
                        }
                    } else {
                        match post.parent_of(i) {
                            Option::Some(p) => {
                                if p as int == self@ {
                                    let pre_cs = pre.children_of(p as int);
                                    let kk = choose|kk: int|
                                        0 <= kk < pre_cs.len() && pre_cs[kk] == i as usize;
                                    assert(post.children_of(p as int)[kk] == i as usize);
                                    assert(post.children_of(p as int).contains(i as usize));
                                }
                            },
                            Option::None => {},
                        }
                    }
                } else {
                    assert(i == id);
                    assert(post.handles_of(i) > 0);
                    assert(post.retained(i));
                    assert(post.children_of(self@)[post.children_of(self@).len() - 1] == id);
                    assert(post.children_of(self@).contains(id));
                }
            }
        }
        Result::Ok(child)
    }

    /// Creates (or, after a reclaim-and-recreate cycle by the caller,
    /// repositions) a child frame of this one so that `reference_pose`,
    /// once re-expressed in that child, equals `desired_transform`. The
    /// reference pose is first resolved into this frame's coordinates by
    /// the composition law; the child's transform to this frame is then
    /// the algebraic solution `resolved ∘ inverse(desired)`. Fails like
    /// [`Pose::in_frame`] while resolving, and like [`Frame::add_child`]
    /// on a sibling name collision; on failure the arena is unchanged.
    pub fn calibrate_child<X: RigidOps>(
        &self,
        arena: &mut FrameArena<X>,
        name: String,
        desired_transform: X,
        reference_pose: &Pose<X>,
    ) -> (r: Result<Frame, CartesianTreeError>)
        requires
            old(arena).wf(),
            old(arena).valid_handle(*self),
            reference_pose.anchored_in(*old(arena)),
            old(arena).num_frames() < usize::MAX,
        ensures
            final(arena).wf(),
            match r {
                Result::Ok(child) => {
                    &&& old(arena).is_alive(reference_pose.anchor_of())
                    &&& old(arena).lca_of(reference_pose.anchor_of(), self@) is Some
                    &&& !old(arena).has_child_named(self@, name@)
                    &&& child@ == old(arena).num_frames()
                    &&& final(arena).num_frames() == old(arena).num_frames() + 1
                    &&& final(arena).name_of(child@) == name@
                    &&& final(arena).parent_of(child@) == Option::Some(self@ as usize)
                    &&& final(arena).valid_handle(child)
                    &&& final(arena).children_of(self@) == old(arena).children_of(self@).push(
                        child@ as usize,
                    )
                    &&& (old(arena).lca_of(reference_pose.anchor_of(), self@) matches Some(l) ==>
                        final(arena).transform_of(child@) == old(arena).walk_fold(
                        self@,
                        l as int,
                    ).spec_inverse().spec_compose(
                        old(arena).walk_fold(reference_pose.anchor_of(), l as int).spec_compose(
                            reference_pose.transform_spec(),
                        ),
                    ).spec_compose(desired_transform.spec_inverse()))
                },
                Result::Err(e) => {
                    &&& *final(arena) == *old(arena)
                    &&& (e == CartesianTreeError::WeakUpgradeFailed <==> !old(arena).is_alive(
                        reference_pose.anchor_of(),
                    ))
                    &&& (old(arena).is_alive(reference_pose.anchor_of()) && old(arena).lca_of(
                        reference_pose.anchor_of(),
                        self@,
                    ) is None ==> (e matches CartesianTreeError::NoCommonAncestor(na, nb) && na@
                        == old(arena).name_of(reference_pose.anchor_of()) && nb@ == old(
                        arena,
                    ).name_of(self@)))
                    &&& (old(arena).is_alive(reference_pose.anchor_of()) ==> (old(arena).lca_of(
                        reference_pose.anchor_of(),
                        self@,
                    ) matches Some(l) ==> if old(arena).walk_ok(
                        reference_pose.anchor_of(),
                        l as int,
                    ) && old(arena).walk_ok(self@, l as int) {
                        e matches CartesianTreeError::NameCollision(n) && n@ == name@ && old(
                            arena,
                        ).has_child_named(self@, name@)
                    } else {
                        e == CartesianTreeError::BrokenChain
                    }))
                },
            },
    {
        let resolved = match reference_pose.in_frame(arena, self) {
            Result::Ok(p) => p,
            Result::Err(e) => {
                return Result::Err(e);
            },
        };
        let child_transform = resolved.transformation().compose(&desired_transform.inverse());
        proof {
            assert(arena.wf_node(self@));
            assert(arena.retained(self@));
        }
        self.add_child(arena, name, child_transform)
    }

    /// How many handles to this frame are currently held.
    pub fn handle_count<X>(&self, arena: &FrameArena<X>) -> (n: usize)
        requires
            arena.wf(),
            arena.in_bounds(self@),
        ensures
            n == arena.handles_of(self@),
    {
        arena.nodes[self.id].handles
    }

    /// The name of this frame.
    pub fn name<X>(&self, arena: &FrameArena<X>) -> (n: String)
        requires
            arena.wf(),
            arena.valid_handle(*self),
        ensures
            n@ == arena.name_of(self@),
    {
        arena.nodes[self.id].name.clone()
    }

    /// The transform from this frame to its parent. A root frame has no
    /// parent-facing transform: the fixed policy here is to report
    /// `RootHasNoParent` rather than hand back the stored identity.
    pub fn transform_to_parent<'a, X>(&self, arena: &'a FrameArena<X>) -> (r: Result<
        &'a X,
        CartesianTreeError,
    >)
        requires
            arena.wf(),
            arena.valid_handle(*self),
        ensures
            match r {
                Result::Ok(t) => arena.parent_of(self@) is Some && *t == arena.transform_of(
                    self@,
                ),
                Result::Err(e) => arena.parent_of(self@) is None && e
                    == CartesianTreeError::RootHasNoParent,
            },
    {
        match arena.nodes[self.id].parent {
            Option::Some(_) => Result::Ok(&arena.nodes[self.id].transform),
            Option::None => Result::Err(CartesianTreeError::RootHasNoParent),
        }
    }

    /// Replaces this frame's transform to its parent. Handles alias, so
    /// the change is visible through every handle of this frame. Follows
    /// the same root policy as [`Frame::transform_to_parent`]: a root's
    /// transform is fixed to the identity and cannot be replaced.
    pub fn update_transform<X>(&self, arena: &mut FrameArena<X>, transform: X) -> (r: Result<
        (),
        CartesianTreeError,
    >)
        requires
            old(arena).wf(),
            old(arena).is_alive(self@),
        ensures
            final(arena).wf(),
            final(arena).num_frames() == old(arena).num_frames(),
            match r {
                Result::Ok(_) => {
                    &&& old(arena).parent_of(self@) is Some
                    &&& final(arena).transform_of(self@) == transform
                    &&& final(arena).parent_of(self@) == old(arena).parent_of(self@)
                    &&& final(arena).name_of(self@) == old(arena).name_of(self@)
                    &&& final(arena).children_of(self@) == old(arena).children_of(self@)
                    &&& final(arena).handles_of(self@) == old(arena).handles_of(self@)
                    &&& (final(arena).is_alive(self@) <==> old(arena).is_alive(self@))
                    &&& forall|j: int|
                        old(arena).in_bounds(j) && j != self@ ==> final(arena).node_unchanged(
                            *old(arena),
                            j,
                        )
                },
                Result::Err(e) => {
                    &&& old(arena).parent_of(self@) is None
                    &&& e == CartesianTreeError::RootHasNoParent
                    &&& *final(arena) == *old(arena)
                },
            },
    {
        match arena.nodes[self.id].parent {
            Option::Some(_) => {
                arena.nodes[self.id].transform = transform;
                proof {
                    let pre = *old(arena);
                    let post = *arena;
                    assert forall|j: int| pre.in_bounds(j) implies pre.retained(j)
                        == post.retained(j) by {
                        pre.lemma_retained_depends_on_parents_and_handles(post, j);
                    }
                    assert forall|i: int| post.in_bounds(i) implies post.wf_node(i) by {
                        assert(pre.wf_node(i));
                    }
                }
                Result::Ok(())
            },
            Option::None => Result::Err(CartesianTreeError::RootHasNoParent),
        }
    }

    /// Fresh handles to this frame's direct children, in creation order.
    /// The children of an alive frame are owned by it and therefore all
    /// alive themselves.
    pub fn children<X>(&self, arena: &mut FrameArena<X>) -> (v: Vec<Frame>)
        requires
            old(arena).wf(),
            old(arena).valid_handle(*self),
            forall|j: int|
                (#[trigger] old(arena).parent_of(j)) == Option::Some(self@ as usize) ==> old(
                    arena,
                ).handles_of(j) < usize::MAX,
        ensures
            final(arena).wf(),
            final(arena).num_frames() == old(arena).num_frames(),
            v@.len() == old(arena).children_of(self@).len(),
            forall|k: int|
                0 <= k < v@.len() ==> (#[trigger] v@[k]@) == old(arena).children_of(self@)[
                    k
                ] as int && final(arena).valid_handle(v@[k]),
            forall|j: int|
                old(arena).in_bounds(j) ==> {
                    &&& #[trigger] final(arena).parent_of(j) == old(arena).parent_of(j)
                    &&& final(arena).name_of(j) == old(arena).name_of(j)
                    &&& final(arena).children_of(j) == old(arena).children_of(j)
                    &&& final(arena).transform_of(j) == old(arena).transform_of(j)
                    &&& (final(arena).is_alive(j) <==> old(arena).is_alive(j))
                },
    {
        proof {
            assert(arena.wf_node(self@));
            assert(arena.retained(self@));
            assert(arena.is_alive(self@));
            assert forall|k1: int, k2: int|
                0 <= k1 < k2 < arena.children_of(self@).len() implies arena.children_of(self@)[k1]
                != arena.children_of(self@)[k2] by {
                assert(arena.name_of(arena.children_of(self@)[k1] as int) != arena.name_of(
                    arena.children_of(self@)[k2] as int,
                ));
            }
        }
        let num_children = arena.nodes[self.id].children.len();
        let mut v: Vec<Frame> = Vec::new();
        let mut k: usize = 0;
        while k < num_children
            invariant
                arena.wf(),
                arena.valid_handle(*self),
                arena.is_alive(self@),
                0 <= k <= num_children,
                num_children == arena.children_of(self@).len(),
                arena.num_frames() == old(arena).num_frames(),
                arena.children_of(self@) == old(arena).children_of(self@),
                v@.len() == k,
                forall|kk: int|
                    0 <= kk < k ==> (#[trigger] v@[kk]@) == arena.children_of(self@)[kk] as int
                        && arena.valid_handle(v@[kk]),
                forall|j: int|
                    old(arena).in_bounds(j) ==> {
                        &&& #[trigger] arena.parent_of(j) == old(arena).parent_of(j)
                        &&& arena.name_of(j) == old(arena).name_of(j)
                        &&& arena.children_of(j) == old(arena).children_of(j)
                        &&& arena.transform_of(j) == old(arena).transform_of(j)
                        &&& (arena.is_alive(j) <==> old(arena).is_alive(j))
                    },
                forall|kk: int|
                    k <= kk < num_children ==> arena.handles_of(
                        (#[trigger] arena.children_of(self@)[kk]) as int,
                    ) == old(arena).handles_of(arena.children_of(self@)[kk] as int),
                forall|k1: int, k2: int|
                    0 <= k1 < k2 < arena.children_of(self@).len() ==> arena.children_of(self@)[k1]
                        != arena.children_of(self@)[k2],
                forall|j: int|
                    (#[trigger] old(arena).parent_of(j)) == Option::Some(self@ as usize) ==> old(
                        arena,
                    ).handles_of(j) < usize::MAX,
            decreases num_children - k,
        {
            proof {
                assert(arena.wf_node(self@));
                let c = arena.children_of(self@)[k as int];
                assert(self@ < c < arena.num_frames());
                assert(arena.parent_of(c as int) == Option::Some(self@ as usize));
                assert(arena.wf_node(c as int));
                assert(arena.retained(self@));
                assert(arena.retained(c as int));
                assert(arena.is_alive(c as int));
                assert(old(arena).children_of(self@)[k as int] == c);
                assert(arena.handles_of(c as int) == old(arena).handles_of(c as int));
                assert(old(arena).parent_of(c as int) == Option::Some(self@ as usize));
                assert(old(arena).handles_of(c as int) < usize::MAX);
            }
            let cid = arena.nodes[self.id].children[k];
            let ghost prev = *arena;
            let f = mint_handle(arena, cid);
            v.push(f);
            proof {
                assert forall|kk: int|
                    0 <= kk < k + 1 implies (#[trigger] v@[kk]@) == arena.children_of(self@)[
                    kk
                ] as int && arena.valid_handle(v@[kk]) by {
                    if kk < k {
                        assert(prev.valid_handle(v@[kk]));
                        let id = v@[kk]@;
                        assert(arena.parent_of(id) == prev.parent_of(id));
                        if id != cid as int {
                            assert(arena.handles_of(id) == prev.handles_of(id));
                        }
                    } else {
                        assert(v@[kk] == f);
                    }
                }
                assert(arena.parent_of(self@) == prev.parent_of(self@));
                assert(arena.handles_of(self@) == prev.handles_of(self@));
                assert forall|j: int| prev.in_bounds(j) implies #[trigger] arena.parent_of(j)
                    == prev.parent_of(j) && arena.name_of(j) == prev.name_of(j)
                    && arena.children_of(j) == prev.children_of(j) && arena.transform_of(j)
                    == prev.transform_of(j) && (arena.is_alive(j) <==> prev.is_alive(j)) by {}
                assert forall|kk: int| k + 1 <= kk < num_children implies arena.handles_of(
                    (#[trigger] arena.children_of(self@)[kk]) as int,
                ) == old(arena).handles_of(arena.children_of(self@)[kk] as int) by {
                    assert(arena.children_of(self@)[kk] != arena.children_of(self@)[k as int]);
                    assert(arena.parent_of(arena.children_of(self@)[kk] as int) == prev.parent_of(
                        arena.children_of(self@)[kk] as int,
                    ));
                }
            }
            k += 1;
        }
        v
    }

    /// Duplicates this handle: the node gains one more held handle and
    /// nothing else in the arena changes. Both handles alias the same node.
    pub fn clone_handle<X>(&self, arena: &mut FrameArena<X>) -> (f: Frame)
        requires
            old(arena).wf(),
            old(arena).valid_handle(*self),
            old(arena).handles_of(self@) < usize::MAX,
        ensures
            final(arena).wf(),
            f@ == self@,
            final(arena).valid_handle(f),
            final(arena).num_frames() == old(arena).num_frames(),
            final(arena).handles_of(self@) == old(arena).handles_of(self@) + 1,
            forall|j: int|
                old(arena).in_bounds(j) ==> {
                    &&& #[trigger] final(arena).parent_of(j) == old(arena).parent_of(j)
                    &&& final(arena).name_of(j) == old(arena).name_of(j)
                    &&& final(arena).children_of(j) == old(arena).children_of(j)
                    &&& final(arena).transform_of(j) == old(arena).transform_of(j)
                    &&& (final(arena).is_alive(j) <==> old(arena).is_alive(j))
                    &&& j != self@ ==> final(arena).handles_of(j) == old(arena).handles_of(j)
                },
    {
        proof {
            assert(arena.wf_node(self@));
        }
        mint_handle(arena, self.id)
    }

    /// Releases this handle. The node's handle count drops by one, and the
    /// arena then reclaims every node no longer retained: afterwards a node
    /// is alive exactly when some node on its parent chain (itself
    /// included) still has a held handle — that is what the re-established
    /// invariant states. Names, links, transforms and the other counts are
    /// untouched.
    pub fn drop_handle<X>(self, arena: &mut FrameArena<X>)
        requires
            old(arena).wf(),
            old(arena).valid_handle(self),
        ensures
            final(arena).wf(),
            final(arena).num_frames() == old(arena).num_frames(),
            final(arena).handles_of(self@) == old(arena).handles_of(self@) - 1,
            forall|j: int|
                old(arena).in_bounds(j) ==> {
                    &&& #[trigger] final(arena).parent_of(j) == old(arena).parent_of(j)
                    &&& final(arena).name_of(j) == old(arena).name_of(j)
                    &&& final(arena).children_of(j) == old(arena).children_of(j)
                    &&& final(arena).transform_of(j) == old(arena).transform_of(j)
                    &&& j != self@ ==> final(arena).handles_of(j) == old(arena).handles_of(j)
                },
    {
        let h = arena.nodes[self.id].handles;
        arena.nodes[self.id].handles = h - 1;
        let ghost mid = *arena;
        let n = arena.nodes.len();
        let mut i: usize = 0;
        while i < n
            invariant
                n == arena.num_frames(),
                mid.num_frames() == arena.num_frames(),
                0 <= i <= n,
                forall|j: int|
                    arena.in_bounds(j) ==> {
                        &&& #[trigger] arena.parent_of(j) == mid.parent_of(j)
                        &&& arena.name_of(j) == mid.name_of(j)
                        &&& arena.children_of(j) == mid.children_of(j)
                        &&& arena.transform_of(j) == mid.transform_of(j)
                        &&& arena.handles_of(j) == mid.handles_of(j)
                    },
                old(arena).num_frames() == n,
                0 <= self@ < n,
                forall|j: int|
                    mid.in_bounds(j) ==> #[trigger] mid.parent_of(j) == old(arena).parent_of(j)
                        && mid.name_of(j) == old(arena).name_of(j) && mid.children_of(j) == old(
                        arena,
                    ).children_of(j) && mid.transform_of(j) == old(arena).transform_of(j),
                forall|j: int|
                    mid.in_bounds(j) && j != self@ ==> #[trigger] mid.handles_of(j) == old(
                        arena,
                    ).handles_of(j),
                mid.handles_of(self@) == old(arena).handles_of(self@) - 1,
                old(arena).wf(),
                forall|j: int| 0 <= j < i ==> (arena.is_alive(j) <==> arena.retained(j)),
            decreases n - i,
        {
            proof {
                assert(old(arena).wf_node(i as int));
                assert(arena.parent_of(i as int) == old(arena).parent_of(i as int));
            }
            let parent = arena.nodes[i].parent;
            let has_handle = arena.nodes[i].handles > 0;
            let alive_now = match parent {
                Option::Some(p) => {
                    proof {
                        assert(p < i);
                    }
                    has_handle || arena.nodes[p].alive
                },
                Option::None => has_handle,
            };
            let ghost before = *arena;
            arena.nodes[i].alive = alive_now;
            proof {
                assert forall|j: int| arena.in_bounds(j) implies {
                    &&& #[trigger] arena.parent_of(j) == mid.parent_of(j)
                    &&& arena.name_of(j) == mid.name_of(j)
                    &&& arena.children_of(j) == mid.children_of(j)
                    &&& arena.transform_of(j) == mid.transform_of(j)
                    &&& arena.handles_of(j) == mid.handles_of(j)
                } by {
                    assert(before.parent_of(j) == mid.parent_of(j));
                    if j != i as int {
                        assert(arena.nodes@[j] == before.nodes@[j]);
                    } else {
                        assert(arena.nodes@[j].parent == before.nodes@[j].parent);
                        assert(arena.nodes@[j].name == before.nodes@[j].name);
                        assert(arena.nodes@[j].children == before.nodes@[j].children);
                        assert(arena.nodes@[j].transform == before.nodes@[j].transform);
                        assert(arena.nodes@[j].handles == before.nodes@[j].handles);
                    }
                }
                assert forall|j: int| before.in_bounds(j) implies before.retained(j)
                    == arena.retained(j) by {
                    before.lemma_retained_depends_on_parents_and_handles(*arena, j);
                }
                assert forall|j: int| 0 <= j < i + 1 implies (arena.is_alive(j)
                    <==> arena.retained(j)) by {
                    if j < i {
                        assert(before.is_alive(j) <==> before.retained(j));
                        assert(arena.is_alive(j) <==> before.is_alive(j));
                    } else {
                        assert(arena.parent_of(j) == before.parent_of(j));
                        assert(arena.handles_of(j) == before.handles_of(j));
                        match before.parent_of(j) {
                            Option::Some(p) => {
                                assert(p < i);
                                assert(before.is_alive(p as int) <==> before.retained(p as int));
                                assert(arena.is_alive(p as int) <==> before.is_alive(p as int));
                                assert(arena.retained(p as int) == before.retained(p as int));
                            },
                            Option::None => {},
                        }
                    }
                }
            }
            i += 1;
        }
        proof {
            let pre = *old(arena);
            let post = *arena;
            assert(post.parent_of(self@) == mid.parent_of(self@));
            assert(post.handles_of(self@) == mid.handles_of(self@));
            assert forall|j: int| pre.in_bounds(j) implies #[trigger] post.parent_of(j)
                == pre.parent_of(j) by {
                assert(post.parent_of(j) == mid.parent_of(j));
            }
            assert forall|j: int| pre.in_bounds(j) implies #[trigger] post.name_of(j)
                == pre.name_of(j) by {
                assert(post.parent_of(j) == mid.parent_of(j));
                assert(mid.parent_of(j) == pre.parent_of(j));
            }
            assert forall|j: int| pre.in_bounds(j) implies #[trigger] post.children_of(j)
                == pre.children_of(j) by {
                assert(post.parent_of(j) == mid.parent_of(j));
                assert(mid.parent_of(j) == pre.parent_of(j));
            }
            pre.lemma_wf_structure(post);
        }
    }
}

/// Raising the handle count of an alive node leaves `retained` as it was
/// for every node: whoever reaches the raised node through parent links
/// already reached the handles that kept it alive.
proof fn lemma_retained_after_mint<X>(pre: FrameArena<X>, post: FrameArena<X>, l: int, j: int)
    requires
        pre.wf(),
        pre.is_alive(l),
        post.num_frames() == pre.num_frames(),
        forall|k: int| pre.in_bounds(k) ==> #[trigger] post.parent_of(k) == pre.parent_of(k),
        forall|k: int|
            pre.in_bounds(k) && k != l ==> #[trigger] post.handles_of(k) == pre.handles_of(k),
        post.handles_of(l) > 0,
    ensures
        post.retained(j) == pre.retained(j),
    decreases j,
{
    if pre.in_bounds(j) {
        if j == l {
            assert(pre.wf_node(l));
            assert(pre.retained(l));
        } else {
            match pre.parent_of(j) {
                Option::Some(p) => {
                    if p < j {
                        lemma_retained_after_mint(pre, post, l, p as int);
                    }
                },
                Option::None => {},
            }
        }
    }
}

/// Hands out a fresh handle to the alive node `id`: its handle count rises
/// by one and nothing else in the arena changes. This is how a
/// back-reference to a node that is still kept alive by its owners is
/// turned into a handle of its own.
pub(crate) fn mint_handle<X>(arena: &mut FrameArena<X>, id: usize) -> (f: Frame)
    requires
        old(arena).wf(),
        old(arena).is_alive(id as int),
        old(arena).handles_of(id as int) < usize::MAX,
    ensures
        final(arena).wf(),
        f@ == id as int,
        final(arena).valid_handle(f),
        final(arena).num_frames() == old(arena).num_frames(),
        final(arena).handles_of(id as int) == old(arena).handles_of(id as int) + 1,
        forall|j: int|
            old(arena).in_bounds(j) ==> {
                &&& #[trigger] final(arena).parent_of(j) == old(arena).parent_of(j)
                &&& final(arena).name_of(j) == old(arena).name_of(j)
                &&& final(arena).children_of(j) == old(arena).children_of(j)
                &&& final(arena).transform_of(j) == old(arena).transform_of(j)
                &&& (final(arena).is_alive(j) <==> old(arena).is_alive(j))
                &&& j != id as int ==> final(arena).handles_of(j) == old(arena).handles_of(j)
            },
{
    let h = arena.nodes[id].handles;
    arena.nodes[id].handles = h + 1;
    let f = Frame { id };
    proof {
        let pre = *old(arena);
        let post = *arena;
        assert forall|j: int| pre.in_bounds(j) implies pre.retained(j) == post.retained(j) by {
            lemma_retained_after_mint(pre, post, id as int, j);
        }
        assert forall|i: int| post.in_bounds(i) implies post.wf_node(i) by {
            assert(pre.wf_node(i));
        }
        assert(post.retained(id as int));
    }
    f
}

} // verus!
