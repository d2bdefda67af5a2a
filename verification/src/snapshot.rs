//! Pure-data snapshots of a frame subtree, and their application back
//! onto the tree.
//!
//! A snapshot carries a frame's name, its transform to its parent, and the
//! snapshots of its children, recursively — enough for an external
//! serializer to produce a tree document. Applying a snapshot to a frame
//! overwrites the frame's own transform (a root's identity stays fixed)
//! and updates or creates the named descendants; children not named by the
//! snapshot are kept. Taking a snapshot and applying it back is therefore
//! idempotent.

use vstd::prelude::*;

use crate::CartesianTreeError;
use crate::frame::Frame;
use crate::frame::FrameArena;

verus! {

broadcast use crate::frame::group_arena_defs;

/// A pure-data view of one frame: its name, its transform to its parent,
/// and its children, recursively.
pub struct FrameSnapshot<X> {
    /// The frame's name.
    pub name: String,
    /// The frame's transform to its parent.
    pub transform: X,
    /// Snapshots of the direct children, in creation order.
    pub children: Vec<FrameSnapshot<X>>,
}

/// The number of frames a snapshot describes: the node itself and its
/// descendants.
pub open spec fn snapshot_weight<X>(snap: FrameSnapshot<X>) -> nat
    decreases snap, 0int,
{
    1 + snapshots_weight(snap.children@, 0)
}

/// The number of frames described by the snapshots of `s` from position
/// `k` on.
pub open spec fn snapshots_weight<X>(s: Seq<FrameSnapshot<X>>, k: int) -> nat
    decreases s, s.len() - k + 1,
{
    if 0 <= k < s.len() {
        snapshot_weight(s[k]) + snapshots_weight(s, k + 1)
    } else {
        0
    }
}

impl<X> FrameArena<X> {
    /// Whether `snap` is exactly the pure-data view of node `i`: same
    /// name, same transform, and matching child snapshots in creation
    /// order.
    pub open spec fn snapshot_matches(self, i: int, snap: FrameSnapshot<X>) -> bool
        decreases self.num_frames() - i,
    {
        &&& snap.name@ == self.name_of(i)
        &&& snap.transform == self.transform_of(i)
        &&& snap.children@.len() == self.children_of(i).len()
        &&& forall|k: int|
            0 <= k < self.children_of(i).len() ==> {
                let c = self.children_of(i)[k] as int;
                i < c < self.num_frames() && self.snapshot_matches(c, #[trigger] snap.children@[k])
            }
    }
}

/// Every node strictly above `i` (a smaller identifier: created earlier,
/// so never inside `i`'s subtree) keeps its transform and its child list
/// between `pre` and `post`.
pub open spec fn keeps_strictly_above<X>(pre: FrameArena<X>, post: FrameArena<X>, i: int) -> bool {
    forall|j: int|
        pre.in_bounds(j) && j < i ==> {
            &&& #[trigger] post.transform_of(j) == pre.transform_of(j)
            &&& post.children_of(j) == pre.children_of(j)
        }
}

/// Every node outside `i`'s subtree — whose chain does not pass through
/// `i` — keeps its transform and its child list between `pre` and `post`.
pub open spec fn keeps_outside_subtree<X>(pre: FrameArena<X>, post: FrameArena<X>, i: int) -> bool {
    forall|j: int|
        pre.in_bounds(j) && !(#[trigger] pre.chain_of(j)).contains(i as usize) ==> {
            &&& post.transform_of(j) == pre.transform_of(j)
            &&& post.children_of(j) == pre.children_of(j)
        }
}

/// Every node of `post` that `pre` did not hold lies inside `i`'s
/// subtree: its chain passes through `i`.
pub open spec fn new_nodes_confined<X>(pre: FrameArena<X>, post: FrameArena<X>, i: int) -> bool {
    forall|c: int|
        post.in_bounds(c) && !pre.in_bounds(c) ==> (#[trigger] post.chain_of(c)).contains(
            i as usize,
        )
}

/// Between `pre` and `post` no frame was added and every frame keeps its
/// transform and its child list.
pub open spec fn keeps_every_frame<X>(pre: FrameArena<X>, post: FrameArena<X>) -> bool {
    &&& post.num_frames() == pre.num_frames()
    &&& forall|j: int|
        pre.in_bounds(j) ==> #[trigger] post.transform_of(j) == pre.transform_of(j)
            && post.children_of(j) == pre.children_of(j)
}

/// A well-formed snapshot: its children carry pairwise distinct names,
/// recursively — as every snapshot taken of a well-formed tree does.
pub open spec fn snapshot_wf<X>(snap: FrameSnapshot<X>) -> bool
    decreases snap,
{
    &&& forall|k1: int, k2: int|
        0 <= k1 < k2 < snap.children@.len() ==> (#[trigger] snap.children@[k1]).name@ != (
        #[trigger] snap.children@[k2]).name@
    &&& forall|k: int|
        0 <= k < snap.children@.len() ==> snapshot_wf(#[trigger] snap.children@[k])
}

impl<X> FrameArena<X> {
    /// The post-state an application leaves below node `i`: the node
    /// carries the snapshot's transform (a root's stays untouched), each
    /// child the snapshot names exists, and every direct child carrying a
    /// named child's name satisfies its sub-snapshot in turn. Children the
    /// snapshot does not name are unconstrained — they are kept, not
    /// rebuilt.
    pub open spec fn snapshot_applied(self, i: int, snap: FrameSnapshot<X>) -> bool
        decreases self.num_frames() - i,
    {
        &&& (self.parent_of(i) is Some ==> self.transform_of(i) == snap.transform)
        &&& forall|k: int|
            0 <= k < snap.children@.len() ==> self.has_child_named(
                i,
                (#[trigger] snap.children@[k]).name@,
            )
        &&& forall|k: int, c: int|
            #![trigger snap.children@[k], self.parent_of(c)]
            (0 <= k < snap.children@.len() && i < c < self.num_frames() && self.parent_of(c)
                == Option::Some(i as usize) && self.name_of(c) == snap.children@[k].name@)
                ==> self.snapshot_applied(c, snap.children@[k])
    }
}

/// What an application leaves below a node survives any later change that
/// does not reach into that node's subtree: parent links and names stay
/// everywhere, nothing inside the subtree is touched, and no new node
/// enters it.
proof fn lemma_applied_stable<X>(
    pre: FrameArena<X>,
    post: FrameArena<X>,
    i: int,
    snap: FrameSnapshot<X>,
)
    requires
        pre.wf(),
        post.wf(),
        pre.in_bounds(i),
        pre.snapshot_applied(i, snap),
        post.num_frames() >= pre.num_frames(),
        forall|j: int| pre.in_bounds(j) ==> #[trigger] post.parent_of(j) == pre.parent_of(j),
        forall|j: int| pre.in_bounds(j) ==> #[trigger] post.name_of(j) == pre.name_of(j),
        forall|j: int|
            pre.in_bounds(j) && (#[trigger] pre.chain_of(j)).contains(i as usize) ==> {
                &&& post.transform_of(j) == pre.transform_of(j)
                &&& post.children_of(j) == pre.children_of(j)
            },
        forall|c: int|
            post.in_bounds(c) && !pre.in_bounds(c) ==> !(#[trigger] post.chain_of(c)).contains(
                i as usize,
            ),
    ensures
        post.snapshot_applied(i, snap),
    decreases snap,
{
    pre.lemma_chain_contains_self(i);
    assert(post.transform_of(i) == pre.transform_of(i));
    assert(post.children_of(i) == pre.children_of(i));
    assert forall|k: int|
        0 <= k < snap.children@.len() implies post.has_child_named(
        i,
        (#[trigger] snap.children@[k]).name@,
    ) by {
        lemma_has_child_named_transfer(pre, post, i, snap.children@[k].name@);
    }
    assert forall|k: int, c: int|
        #![trigger snap.children@[k], post.parent_of(c)]
        (0 <= k < snap.children@.len() && i < c < post.num_frames() && post.parent_of(c)
            == Option::Some(i as usize) && post.name_of(c) == snap.children@[k].name@) implies post.snapshot_applied(
        c,
        snap.children@[k],
    ) by {
        if !pre.in_bounds(c) {
            post.lemma_chain_of_child(c);
            pre.lemma_chain_unchanged(post, i);
            pre.lemma_chain_contains_self(i);
            let cs = post.chain_of(i);
            let kk = choose|kk: int| 0 <= kk < cs.len() && cs[kk] == i as usize;
            assert(post.chain_of(c)[kk] == i as usize);
            assert(post.chain_of(c).contains(i as usize));
            assert(false);
        }
        assert(pre.parent_of(c) == Option::Some(i as usize));
        assert(pre.name_of(c) == snap.children@[k].name@);
        assert(pre.snapshot_applied(c, snap.children@[k]));
        assert forall|j: int|
            pre.in_bounds(j) && (#[trigger] pre.chain_of(j)).contains(c as usize) implies {
            &&& post.transform_of(j) == pre.transform_of(j)
            &&& post.children_of(j) == pre.children_of(j)
        } by {
            pre.lemma_chain_of_child(c);
            pre.lemma_chain_trans(j, c as usize, i as usize);
        }
        assert forall|c2: int|
            post.in_bounds(c2) && !pre.in_bounds(c2) implies !(#[trigger] post.chain_of(
            c2,
        )).contains(c as usize) by {
            if post.chain_of(c2).contains(c as usize) {
                post.lemma_chain_of_child(c);
                pre.lemma_chain_unchanged(post, i);
                pre.lemma_chain_unchanged(post, c);
                pre.lemma_chain_contains_self(i);
                pre.lemma_chain_of_child(c);
                assert(post.chain_of(c).contains(i as usize));
                post.lemma_chain_trans(c2, c as usize, i as usize);
                assert(false);
            }
        }
        lemma_applied_stable(pre, post, c, snap.children@[k]);
    }
}

/// Takes the pure-data view of the subtree below node `id`.
fn snapshot_rec<X: Copy>(arena: &FrameArena<X>, id: usize) -> (s: FrameSnapshot<X>)
    requires
        arena.wf(),
        arena.in_bounds(id as int),
    ensures
        arena.snapshot_matches(id as int, s),
        snapshot_wf(s),
    decreases arena.num_frames() - id,
{
    proof {
        assert(arena.wf_node(id as int));
    }
    let name = arena.nodes[id].name.clone();
    let transform = arena.nodes[id].transform;
    let num_children = arena.nodes[id].children.len();
    let mut children: Vec<FrameSnapshot<X>> = Vec::new();
    let mut k: usize = 0;
    while k < num_children
        invariant
            arena.wf(),
            arena.in_bounds(id as int),
            num_children == arena.children_of(id as int).len(),
            0 <= k <= num_children,
            children@.len() == k,
            forall|j: int|
                0 <= j < k ==> arena.snapshot_matches(
                    arena.children_of(id as int)[j] as int,
                    #[trigger] children@[j],
                ),
            forall|j: int| 0 <= j < k ==> snapshot_wf(#[trigger] children@[j]),
            forall|j: int|
                0 <= j < k ==> (#[trigger] children@[j]).name@ == arena.name_of(
                    arena.children_of(id as int)[j] as int,
                ),
        decreases num_children - k,
    {
        proof {
            assert(arena.wf_node(id as int));
        }
        let cid = arena.nodes[id].children[k];
        let snap = snapshot_rec(arena, cid);
        children.push(snap);
        k += 1;
    }
    proof {
        assert(arena.wf_node(id as int));
        assert forall|j1: int, j2: int| 0 <= j1 < j2 < children@.len() implies (
        #[trigger] children@[j1]).name@ != (#[trigger] children@[j2]).name@ by {
            assert(arena.name_of(arena.children_of(id as int)[j1] as int) != arena.name_of(
                arena.children_of(id as int)[j2] as int,
            ));
        }
    }
    FrameSnapshot { name, transform, children }
}

/// Finds the direct child of node `id` named `name`, by the same sibling
/// scan that `add_child` uses to reject collisions.
fn find_child<X>(arena: &FrameArena<X>, id: usize, name: &String) -> (r: Option<usize>)
    requires
        arena.wf(),
        arena.in_bounds(id as int),
    ensures
        match r {
            Option::Some(c) => {
                &&& arena.in_bounds(c as int)
                &&& id < c
                &&& arena.parent_of(c as int) == Option::Some(id)
                &&& arena.name_of(c as int) == name@
            },
            Option::None => !arena.has_child_named(id as int, name@),
        },
{
    proof {
        assert(arena.wf_node(id as int));
    }
    let num_children = arena.nodes[id].children.len();
    let mut k: usize = 0;
    while k < num_children
        invariant
            arena.wf(),
            arena.in_bounds(id as int),
            num_children == arena.children_of(id as int).len(),
            0 <= k <= num_children,
            forall|j: int|
                0 <= j < k ==> arena.name_of(
                    #[trigger] arena.children_of(id as int)[j] as int,
                ) != name@,
        decreases num_children - k,
    {
        proof {
            assert(arena.wf_node(id as int));
        }
        let cid = arena.nodes[id].children[k];
        if arena.nodes[cid].name == *name {
            proof {
                assert(arena.children_of(id as int)[k as int] == cid);
                assert(id < cid);
                assert((cid as int) < arena.num_frames());
                assert(arena.parent_of(cid as int) == Option::Some(id));
                assert(arena.name_of(cid as int) == name@);
            }
            return Option::Some(cid);
        }
        k += 1;
    }
    proof {
        assert(!arena.has_child_named(id as int, name@));
    }
    Option::None
}

/// A child listed under `i` by name stays listed when the arena changes
/// without renaming any node or dropping an entry of `i`'s child list.
proof fn lemma_has_child_named_transfer<X>(
    pre: FrameArena<X>,
    post: FrameArena<X>,
    i: int,
    name: Seq<char>,
)
    requires
        pre.wf(),
        pre.in_bounds(i),
        pre.has_child_named(i, name),
        post.children_of(i).len() >= pre.children_of(i).len(),
        forall|k: int|
            0 <= k < pre.children_of(i).len() ==> #[trigger] post.children_of(i)[k]
                == pre.children_of(i)[k],
        forall|j: int| pre.in_bounds(j) ==> #[trigger] post.name_of(j) == pre.name_of(j),
    ensures
        post.has_child_named(i, name),
{
    let cs = pre.children_of(i);
    let kk = choose|kk: int| 0 <= kk < cs.len() && pre.name_of(#[trigger] cs[kk] as int) == name;
    assert(pre.wf_node(i));
    assert(pre.in_bounds(cs[kk] as int));
    assert(post.children_of(i)[kk] == cs[kk]);
    assert(post.name_of(cs[kk] as int) == name);
    assert(post.has_child_named(i, name));
}

/// Applies `snap` below node `id`: overwrites the node's transform (a
/// root's identity stays), then updates or creates each named child and
/// recurses into it. Existing children the snapshot does not name are
/// kept. Names, links, handle counts and liveness of every pre-existing
/// node stay as they were.
#[verifier::rlimit(60)]
#[verifier::spinoff_prover]
fn apply_rec<X: Copy>(arena: &mut FrameArena<X>, id: usize, snap: &FrameSnapshot<X>)
    requires
        old(arena).wf(),
        old(arena).is_alive(id as int),
        old(arena).num_frames() + snapshots_weight(snap.children@, 0) <= usize::MAX,
    ensures
        final(arena).wf(),
        final(arena).num_frames() >= old(arena).num_frames(),
        final(arena).num_frames() <= old(arena).num_frames() + snapshots_weight(
            snap.children@,
            0,
        ),
        final(arena).is_alive(id as int),
        forall|j: int|
            old(arena).in_bounds(j) ==> {
                &&& #[trigger] final(arena).parent_of(j) == old(arena).parent_of(j)
                &&& final(arena).name_of(j) == old(arena).name_of(j)
                &&& final(arena).handles_of(j) == old(arena).handles_of(j)
                &&& (final(arena).is_alive(j) <==> old(arena).is_alive(j))
            },
        keeps_strictly_above(*old(arena), *final(arena), id as int),
        keeps_outside_subtree(*old(arena), *final(arena), id as int),
        new_nodes_confined(*old(arena), *final(arena), id as int),
        old(arena).parent_of(id as int) is Some ==> final(arena).transform_of(id as int)
            == snap.transform,
        forall|k: int|
            0 <= k < snap.children@.len() ==> final(arena).has_child_named(
                id as int,
                (#[trigger] snap.children@[k]).name@,
            ),
        snapshot_wf(*snap) ==> final(arena).snapshot_applied(id as int, *snap),
        (snapshot_wf(*snap) && old(arena).snapshot_applied(id as int, *snap))
            ==> keeps_every_frame(*old(arena), *final(arena)),
    decreases snap,
{
    let f = Frame { id };
    match arena.nodes[id].parent {
        Option::Some(_) => {
            let r = f.update_transform(arena, snap.transform);
            proof {
                assert(r is Ok);
            }
        },
        Option::None => {},
    }
    proof {
        assert forall|j: int|
            old(arena).in_bounds(j) && !(#[trigger] old(arena).chain_of(j)).contains(
                id,
            ) implies arena.transform_of(j) == old(arena).transform_of(j) && arena.children_of(j)
            == old(arena).children_of(j) by {
            if j == id as int {
                old(arena).lemma_chain_contains_self(id as int);
            } else {
                assert(arena.node_unchanged(*old(arena), j));
            }
        }
        assert(keeps_outside_subtree(*old(arena), *arena, id as int));
        assert(new_nodes_confined(*old(arena), *arena, id as int));
        if snapshot_wf(*snap) && old(arena).snapshot_applied(id as int, *snap) {
            assert forall|j: int|
                old(arena).in_bounds(j) implies #[trigger] arena.transform_of(j) == old(
                arena,
            ).transform_of(j) && arena.children_of(j) == old(arena).children_of(j) by {
                if j != id as int {
                    assert(arena.node_unchanged(*old(arena), j));
                }
            }
            assert(keeps_every_frame(*old(arena), *arena));
        }
    }
    let num_children = snap.children.len();
    let mut k: usize = 0;
    while k < num_children
        invariant
            arena.wf(),
            arena.is_alive(id as int),
            old(arena).wf(),
            old(arena).is_alive(id as int),
            num_children == snap.children@.len(),
            0 <= k <= num_children,
            arena.num_frames() + snapshots_weight(snap.children@, k as int) <= usize::MAX,
            arena.num_frames() >= old(arena).num_frames(),
            arena.num_frames() + snapshots_weight(snap.children@, k as int) <= old(
                arena,
            ).num_frames() + snapshots_weight(snap.children@, 0),
            forall|j: int|
                old(arena).in_bounds(j) ==> {
                    &&& #[trigger] arena.parent_of(j) == old(arena).parent_of(j)
                    &&& arena.name_of(j) == old(arena).name_of(j)
                    &&& arena.handles_of(j) == old(arena).handles_of(j)
                    &&& (arena.is_alive(j) <==> old(arena).is_alive(j))
                },
            keeps_strictly_above(*old(arena), *arena, id as int),
            keeps_outside_subtree(*old(arena), *arena, id as int),
            new_nodes_confined(*old(arena), *arena, id as int),
            old(arena).parent_of(id as int) is Some ==> arena.transform_of(id as int)
                == snap.transform,
            forall|j: int|
                0 <= j < k ==> arena.has_child_named(
                    id as int,
                    (#[trigger] snap.children@[j]).name@,
                ),
            snapshot_wf(*snap) ==> forall|k1: int, c: int|
                #![trigger snap.children@[k1], arena.parent_of(c)]
                (0 <= k1 < k && (id as int) < c < arena.num_frames() && arena.parent_of(c)
                    == Option::Some(id) && arena.name_of(c) == snap.children@[k1].name@)
                    ==> arena.snapshot_applied(c, snap.children@[k1]),
            (snapshot_wf(*snap) && old(arena).snapshot_applied(id as int, *snap))
                ==> keeps_every_frame(*old(arena), *arena),
        decreases num_children - k,
    {
        let child_snap = &snap.children[k];
        let ghost pre_step = *arena;
        proof {
            assert(snapshots_weight(snap.children@, k as int) == snapshot_weight(
                snap.children@[k as int],
            ) + snapshots_weight(snap.children@, k as int + 1));
            assert(snapshot_weight(snap.children@[k as int]) == 1 + snapshots_weight(
                snap.children@[k as int].children@,
                0,
            ));
        }
        let cid = match find_child(arena, id, &child_snap.name) {
            Option::Some(c) => {
                proof {
                    assert(arena.wf_node(id as int));
                    assert(arena.retained(id as int));
                    assert(arena.retained(c as int));
                    assert(arena.wf_node(c as int));
                    assert(arena.is_alive(c as int));
                    let cs = arena.children_of(id as int);
                    assert(cs.contains(c));
                    let kk = choose|kk: int| 0 <= kk < cs.len() && cs[kk] == c;
                    assert(arena.name_of(#[trigger] cs[kk] as int) == child_snap.name@);
                    assert(arena.has_child_named(id as int, child_snap.name@));
                }
                c
            },
            Option::None => {
                let fl = Frame { id };
                proof {
                    assert(fl@ == id as int);
                    assert(arena.is_alive(fl@));
                    assert(arena.num_frames() < usize::MAX);
                    if snapshot_wf(*snap) && old(arena).snapshot_applied(id as int, *snap) {
                        assert(old(arena).has_child_named(
                            id as int,
                            (snap.children@[k as int]).name@,
                        ));
                        assert(arena.children_of(id as int) == old(arena).children_of(id as int))
                            by {
                            assert(arena.transform_of(id as int) == old(arena).transform_of(
                                id as int,
                            ));
                        }
                        assert forall|j: int|
                            old(arena).in_bounds(j) implies #[trigger] arena.name_of(j) == old(
                            arena,
                        ).name_of(j) by {
                            assert(arena.parent_of(j) == old(arena).parent_of(j));
                        }
                        lemma_has_child_named_transfer(
                            *old(arena),
                            *arena,
                            id as int,
                            snap.children@[k as int].name@,
                        );
                        assert(false);
                    }
                }
                let child = match fl.add_child(arena, child_snap.name.clone(), child_snap.transform) {
                    Result::Ok(child) => child,
                    Result::Err(_) => {
                        proof {
                            assert(false);
                        }
                        return ;
                    },
                };
                proof {
                    let cs = arena.children_of(id as int);
                    assert(cs[cs.len() - 1] == (child@ as usize));
                    assert(arena.name_of(child@) == child_snap.name@);
                    assert(arena.has_child_named(id as int, child_snap.name@));
                    assert((id as int) < child@);
                }
                child.id
            },
        };
        let ghost mid = *arena;
        proof {
            assert(arena.is_alive(cid as int));
            assert((id as int) < (cid as int));
            assert(mid.wf());
            assert(mid.has_child_named(id as int, child_snap.name@));
            assert(mid.num_frames() + snapshots_weight(snap.children@[k as int].children@, 0)
                <= usize::MAX);
        }
        apply_rec(arena, cid, child_snap);
        proof {
            assert forall|j: int| old(arena).in_bounds(j) implies {
                &&& #[trigger] arena.parent_of(j) == old(arena).parent_of(j)
                &&& arena.name_of(j) == old(arena).name_of(j)
                &&& arena.handles_of(j) == old(arena).handles_of(j)
                &&& (arena.is_alive(j) <==> old(arena).is_alive(j))
            } by {
                assert(pre_step.parent_of(j) == old(arena).parent_of(j));
                assert(mid.parent_of(j) == pre_step.parent_of(j));
                assert(mid.name_of(j) == pre_step.name_of(j));
                assert(mid.handles_of(j) == pre_step.handles_of(j));
                assert(mid.is_alive(j) <==> pre_step.is_alive(j));
                assert(arena.parent_of(j) == mid.parent_of(j));
            }
            assert(arena.parent_of(id as int) == mid.parent_of(id as int));
            assert(arena.is_alive(id as int));
            assert(keeps_strictly_above(*old(arena), pre_step, id as int));
            assert forall|j: int|
                old(arena).in_bounds(j) && j < id as int implies {
                &&& #[trigger] arena.transform_of(j) == old(arena).transform_of(j)
                &&& arena.children_of(j) == old(arena).children_of(j)
            } by {
                assert(pre_step.transform_of(j) == old(arena).transform_of(j));
                assert(pre_step.children_of(j) == old(arena).children_of(j));
                assert(mid.parent_of(j) == pre_step.parent_of(j));
                assert(mid.transform_of(j) == pre_step.transform_of(j));
                assert(mid.children_of(j) == pre_step.children_of(j));
                assert(arena.transform_of(j) == mid.transform_of(j));
                assert(arena.children_of(j) == mid.children_of(j));
            }
            assert(keeps_strictly_above(*old(arena), *arena, id as int));
            assert(arena.transform_of(id as int) == mid.transform_of(id as int));
            assert(arena.children_of(id as int) == mid.children_of(id as int));
            assert(mid.transform_of(id as int) == pre_step.transform_of(id as int));
            assert forall|j: int|
                0 <= j < k + 1 implies arena.has_child_named(
                id as int,
                (#[trigger] snap.children@[j]).name@,
            ) by {
                assert(mid.children_of(id as int).len() >= pre_step.children_of(
                    id as int,
                ).len());
                assert forall|kk: int|
                    0 <= kk < pre_step.children_of(id as int).len() implies #[trigger] mid.children_of(
                    id as int,
                )[kk] == pre_step.children_of(id as int)[kk] by {}
                assert forall|jj: int| pre_step.in_bounds(jj) implies #[trigger] mid.name_of(jj)
                    == pre_step.name_of(jj) by {
                    assert(mid.parent_of(jj) == pre_step.parent_of(jj));
                }
                assert forall|jj: int| mid.in_bounds(jj) implies #[trigger] arena.name_of(jj)
                    == mid.name_of(jj) by {
                    assert(arena.parent_of(jj) == mid.parent_of(jj));
                }
                assert forall|kk: int|
                    0 <= kk < mid.children_of(id as int).len() implies #[trigger] arena.children_of(
                    id as int,
                )[kk] == mid.children_of(id as int)[kk] by {}
                if j < k {
                    assert(pre_step.has_child_named(id as int, snap.children@[j].name@));
                    lemma_has_child_named_transfer(
                        pre_step,
                        mid,
                        id as int,
                        snap.children@[j].name@,
                    );
                    lemma_has_child_named_transfer(mid, *arena, id as int, snap.children@[j].name@);
                } else {
                    assert(snap.children@[j].name@ == child_snap.name@);
                    lemma_has_child_named_transfer(mid, *arena, id as int, child_snap.name@);
                }
            }
            assert forall|j: int|
                pre_step.in_bounds(j) implies #[trigger] mid.parent_of(j) == pre_step.parent_of(j)
                && mid.name_of(j) == pre_step.name_of(j) by {
                if j != id as int && mid.num_frames() != pre_step.num_frames() {
                    assert(mid.node_unchanged(pre_step, j));
                }
            }
            assert forall|j: int|
                pre_step.in_bounds(j) implies #[trigger] mid.name_of(j) == pre_step.name_of(
                j,
            ) by {
                assert(mid.parent_of(j) == pre_step.parent_of(j));
            }
            assert forall|j: int|
                mid.in_bounds(j) implies #[trigger] arena.name_of(j) == mid.name_of(j) by {
                assert(arena.parent_of(j) == mid.parent_of(j));
            }
            assert(arena.name_of(cid as int) == mid.name_of(cid as int));
            assert forall|j: int|
                old(arena).in_bounds(j) && !(#[trigger] old(arena).chain_of(j)).contains(
                    id,
                ) implies arena.transform_of(j) == old(arena).transform_of(j)
                && arena.children_of(j) == old(arena).children_of(j) by {
                if j == id as int {
                    old(arena).lemma_chain_contains_self(id as int);
                    assert(false);
                }
                assert(pre_step.transform_of(j) == old(arena).transform_of(j));
                assert(pre_step.children_of(j) == old(arena).children_of(j));
                if mid.num_frames() != pre_step.num_frames() {
                    assert(mid.node_unchanged(pre_step, j));
                }
                assert(mid.transform_of(j) == pre_step.transform_of(j));
                assert(mid.children_of(j) == pre_step.children_of(j));
                old(arena).lemma_chain_unchanged(mid, j);
                if mid.chain_of(j).contains(cid) {
                    mid.lemma_chain_of_child(cid as int);
                    mid.lemma_chain_trans(j, cid, id);
                    old(arena).lemma_chain_unchanged(mid, j);
                    assert(false);
                }
                assert(arena.transform_of(j) == mid.transform_of(j));
                assert(arena.children_of(j) == mid.children_of(j));
            }
            assert(keeps_outside_subtree(*old(arena), *arena, id as int));
            assert forall|c: int|
                arena.in_bounds(c) && !old(arena).in_bounds(c) implies (
            #[trigger] arena.chain_of(c)).contains(id) by {
                if c < mid.num_frames() {
                    mid.lemma_chain_unchanged(*arena, c);
                    if c < pre_step.num_frames() {
                        assert(pre_step.chain_of(c).contains(id));
                        pre_step.lemma_chain_unchanged(mid, c);
                    } else {
                        assert(c == cid as int);
                        mid.lemma_chain_of_child(cid as int);
                        mid.lemma_chain_contains_self(id as int);
                        mid.lemma_chain_trans(c, id, id);
                    }
                } else {
                    assert(arena.chain_of(c).contains(cid));
                    mid.lemma_chain_of_child(cid as int);
                    mid.lemma_chain_unchanged(*arena, cid as int);
                    assert(arena.chain_of(cid as int).contains(id));
                    arena.lemma_chain_trans(c, cid, id);
                }
            }
            assert(new_nodes_confined(*old(arena), *arena, id as int));
        }
        proof {
            if snapshot_wf(*snap) {
                assert(snapshot_wf(snap.children@[k as int]));
                assert(arena.snapshot_applied(cid as int, snap.children@[k as int]));
                assert forall|k1: int, c: int|
                    #![trigger snap.children@[k1], arena.parent_of(c)]
                    (0 <= k1 < k + 1 && (id as int) < c < arena.num_frames() && arena.parent_of(c)
                        == Option::Some(id) && arena.name_of(c)
                        == snap.children@[k1].name@) implies arena.snapshot_applied(
                    c,
                    snap.children@[k1],
                ) by {
                    let s1 = snap.children@[k1];
                    if k1 == k as int {
                        if c != cid as int {
                            assert(arena.wf_node(c));
                            assert(arena.wf_node(cid as int));
                            let csid = arena.children_of(id as int);
                            assert(csid.contains(c as usize));
                            assert(csid.contains(cid));
                            let kc = choose|t: int| 0 <= t < csid.len() && csid[t] == c as usize;
                            let kd = choose|t: int| 0 <= t < csid.len() && csid[t] == cid;
                            assert(arena.wf_node(id as int));
                            assert(arena.name_of(cid as int) == child_snap.name@);
                            if kc < kd {
                                assert(arena.name_of(csid[kc] as int) != arena.name_of(
                                    csid[kd] as int,
                                ));
                            } else {
                                assert(kd < kc);
                                assert(arena.name_of(csid[kd] as int) != arena.name_of(
                                    csid[kc] as int,
                                ));
                            }
                            assert(false);
                        }
                        assert(arena.snapshot_applied(c, s1));
                    } else {
                        assert(s1.name@ != child_snap.name@);
                        if c >= mid.num_frames() {
                            assert(arena.chain_of(c).contains(cid));
                            arena.lemma_chain_of_child(c);
                            mid.lemma_chain_unchanged(*arena, id as int);
                            mid.lemma_chain_facts(id as int);
                            assert(!arena.chain_of(id as int).contains(cid));
                            assert(false);
                        }
                        assert(mid.parent_of(c) == Option::Some(id));
                        assert(mid.name_of(c) == s1.name@);
                        if c >= pre_step.num_frames() {
                            assert(c == cid as int);
                            assert(false);
                        }
                        assert(pre_step.parent_of(c) == Option::Some(id));
                        assert(pre_step.name_of(c) == s1.name@);
                        assert(pre_step.snapshot_applied(c, s1));
                        assert(pre_step.wf_node(c));
                        if mid.num_frames() != pre_step.num_frames() {
                            assert forall|j: int|
                                pre_step.in_bounds(j) && (#[trigger] pre_step.chain_of(
                                    j,
                                )).contains(c as usize) implies mid.transform_of(j)
                                == pre_step.transform_of(j) && mid.children_of(j)
                                == pre_step.children_of(j) by {
                                if j == id as int {
                                    pre_step.lemma_chain_facts(id as int);
                                    assert(false);
                                } else {
                                    assert(mid.node_unchanged(pre_step, j));
                                }
                            }
                            assert forall|c2: int|
                                mid.in_bounds(c2) && !pre_step.in_bounds(c2) implies !(
                            #[trigger] mid.chain_of(c2)).contains(c as usize) by {
                                assert(c2 == cid as int);
                                if mid.chain_of(c2).contains(c as usize) {
                                    mid.lemma_chain_of_child(cid as int);
                                    pre_step.lemma_chain_unchanged(mid, id as int);
                                    pre_step.lemma_chain_facts(id as int);
                                    assert(false);
                                }
                            }
                            lemma_applied_stable(pre_step, mid, c, s1);
                        }
                        assert(mid.snapshot_applied(c, s1));
                        assert(mid.name_of(cid as int) == child_snap.name@);
                        assert(c != cid as int);
                        assert forall|j: int|
                            mid.in_bounds(j) && (#[trigger] mid.chain_of(j)).contains(
                                c as usize,
                            ) implies arena.transform_of(j) == mid.transform_of(j)
                            && arena.children_of(j) == mid.children_of(j) by {
                            if mid.chain_of(j).contains(cid) {
                                mid.lemma_chain_comparable(j, c as usize, cid);
                                mid.lemma_chain_of_child(cid as int);
                                mid.lemma_chain_of_child(c);
                                mid.lemma_chain_facts(id as int);
                                assert(false);
                            }
                        }
                        assert forall|c2: int|
                            arena.in_bounds(c2) && !mid.in_bounds(c2) implies !(
                        #[trigger] arena.chain_of(c2)).contains(c as usize) by {
                            if arena.chain_of(c2).contains(c as usize) {
                                assert(arena.chain_of(c2).contains(cid));
                                arena.lemma_chain_comparable(c2, c as usize, cid);
                                mid.lemma_chain_unchanged(*arena, c);
                                mid.lemma_chain_unchanged(*arena, cid as int);
                                mid.lemma_chain_of_child(cid as int);
                                mid.lemma_chain_of_child(c);
                                mid.lemma_chain_facts(id as int);
                                assert(false);
                            }
                        }
                        lemma_applied_stable(mid, *arena, c, s1);
                        assert(arena.snapshot_applied(c, s1));
                    }
                }
            }
        }
        proof {
            if snapshot_wf(*snap) && old(arena).snapshot_applied(id as int, *snap) {
                assert(mid == pre_step);
                assert(pre_step.num_frames() == old(arena).num_frames());
                assert(old(arena).parent_of(cid as int) == Option::Some(id)) by {
                    assert(mid.parent_of(cid as int) == pre_step.parent_of(cid as int));
                    assert(pre_step.parent_of(cid as int) == old(arena).parent_of(cid as int));
                }
                assert(old(arena).name_of(cid as int) == snap.children@[k as int].name@) by {
                    assert(pre_step.name_of(cid as int) == old(arena).name_of(cid as int));
                }
                assert((cid as int) < old(arena).num_frames());
                assert(old(arena).snapshot_applied(cid as int, snap.children@[k as int]));
                assert forall|j: int|
                    old(arena).in_bounds(j) implies #[trigger] mid.parent_of(j) == old(
                    arena,
                ).parent_of(j) by {
                    assert(pre_step.parent_of(j) == old(arena).parent_of(j));
                }
                assert forall|j: int|
                    old(arena).in_bounds(j) implies #[trigger] mid.name_of(j) == old(
                    arena,
                ).name_of(j) by {
                    assert(pre_step.parent_of(j) == old(arena).parent_of(j));
                    assert(pre_step.name_of(j) == old(arena).name_of(j));
                }
                assert forall|j: int|
                    old(arena).in_bounds(j) && (#[trigger] old(arena).chain_of(j)).contains(
                        cid,
                    ) implies mid.transform_of(j) == old(arena).transform_of(j)
                    && mid.children_of(j) == old(arena).children_of(j) by {
                    assert(pre_step.transform_of(j) == old(arena).transform_of(j));
                    assert(pre_step.children_of(j) == old(arena).children_of(j));
                }
                assert forall|c2: int|
                    mid.in_bounds(c2) && !old(arena).in_bounds(c2) implies !(
                #[trigger] mid.chain_of(c2)).contains(cid) by {
                    assert(false);
                }
                lemma_applied_stable(
                    *old(arena),
                    mid,
                    cid as int,
                    snap.children@[k as int],
                );
                assert(mid.snapshot_applied(cid as int, snap.children@[k as int]));
                assert(snapshot_wf(snap.children@[k as int]));
                assert(arena.num_frames() == mid.num_frames());
                assert forall|j: int|
                    old(arena).in_bounds(j) implies #[trigger] arena.transform_of(j) == old(
                    arena,
                ).transform_of(j) && arena.children_of(j) == old(arena).children_of(j) by {
                    assert(pre_step.transform_of(j) == old(arena).transform_of(j));
                    assert(pre_step.children_of(j) == old(arena).children_of(j));
                    assert(arena.transform_of(j) == mid.transform_of(j));
                    assert(arena.children_of(j) == mid.children_of(j));
                }
                assert(arena.num_frames() == old(arena).num_frames());
                assert(keeps_every_frame(*old(arena), *arena));
            }
        }
        k += 1;
    }
    proof {
        if snapshot_wf(*snap) {
            assert(arena.parent_of(id as int) == old(arena).parent_of(id as int));
            assert(arena.snapshot_applied(id as int, *snap));
        }
    }
}

impl Frame {
    /// Takes a pure-data snapshot of this frame: its name, its transform
    /// to its parent, and all descendants, recursively in creation order.
    pub fn snapshot<X: Copy>(&self, arena: &FrameArena<X>) -> (s: FrameSnapshot<X>)
        requires
            arena.wf(),
            arena.valid_handle(*self),
        ensures
            arena.snapshot_matches(self@, s),
            snapshot_wf(s),
    {
        snapshot_rec(arena, self.id)
    }

    /// Applies a snapshot below this frame: overwrites this frame's own
    /// transform (a root's identity stays fixed), and updates or creates
    /// the named descendants — afterwards, for a well-formed snapshot,
    /// every named descendant carries the snapshot's transform and
    /// satisfies its sub-snapshot recursively. Children the snapshot does
    /// not name are kept, so applying a frame's own snapshot back is
    /// idempotent. No existing node is renamed, re-linked or reclaimed,
    /// nothing outside this frame's subtree is touched, and new frames
    /// appear only inside it.
    pub fn apply<X: Copy>(&self, arena: &mut FrameArena<X>, snap: &FrameSnapshot<X>)
        requires
            old(arena).wf(),
            old(arena).valid_handle(*self),
            old(arena).num_frames() + snapshots_weight(snap.children@, 0) <= usize::MAX,
        ensures
            final(arena).wf(),
            final(arena).num_frames() >= old(arena).num_frames(),
            final(arena).valid_handle(*self),
            forall|j: int|
                old(arena).in_bounds(j) ==> {
                    &&& #[trigger] final(arena).parent_of(j) == old(arena).parent_of(j)
                    &&& final(arena).name_of(j) == old(arena).name_of(j)
                    &&& final(arena).handles_of(j) == old(arena).handles_of(j)
                    &&& (final(arena).is_alive(j) <==> old(arena).is_alive(j))
                },
            keeps_strictly_above(*old(arena), *final(arena), self@),
            keeps_outside_subtree(*old(arena), *final(arena), self@),
            new_nodes_confined(*old(arena), *final(arena), self@),
            old(arena).parent_of(self@) is Some ==> final(arena).transform_of(self@)
                == snap.transform,
            forall|k: int|
                0 <= k < snap.children@.len() ==> final(arena).has_child_named(
                    self@,
                    (#[trigger] snap.children@[k]).name@,
                ),
            snapshot_wf(*snap) ==> final(arena).snapshot_applied(self@, *snap),
            (snapshot_wf(*snap) && old(arena).snapshot_applied(self@, *snap))
                ==> keeps_every_frame(*old(arena), *final(arena)),
    {
        proof {
            assert(arena.wf_node(self@));
            assert(arena.retained(self@));
        }
        apply_rec(arena, self.id, snap);
        proof {
            assert(arena.parent_of(self@) == old(arena).parent_of(self@));
            assert(arena.handles_of(self@) == old(arena).handles_of(self@));
        }
    }
}

} // verus!
