//! Ancestor chains, lowest-common-ancestor search, and transform
//! composition along chains.
//!
//! A frame's chain is the sequence of node identifiers from its root down
//! to the frame itself. The lowest common ancestor of two frames is found
//! by identity (never by name): it is the last entry of the longest common
//! prefix of the two chains; two chains starting at different roots have no
//! common ancestor at all. Transform composition walks a frame's chain
//! root-ward, multiplying each visited node's transform-to-parent on the
//! left, and fails as soon as a parent link can no longer be resolved
//! because the parent was reclaimed.

use vstd::prelude::*;

use crate::CartesianTreeError;
use crate::frame::Frame;
use crate::frame::FrameArena;
use crate::frame::mint_handle;
use crate::rigid::RigidOps;

verus! {

broadcast use crate::frame::group_arena_defs;

/// The length of the longest common prefix of two sequences.
pub open spec fn common_prefix_len(s: Seq<usize>, t: Seq<usize>) -> nat
    decreases s.len(),
{
    if s.len() == 0 || t.len() == 0 || s[0] != t[0] {
        0
    } else {
        1 + common_prefix_len(s.drop_first(), t.drop_first())
    }
}

/// The longest common prefix really is a common prefix, and it cannot be
/// extended: either one sequence ends there, or the two differ there.
pub proof fn lemma_common_prefix_len(s: Seq<usize>, t: Seq<usize>)
    ensures
        common_prefix_len(s, t) <= s.len(),
        common_prefix_len(s, t) <= t.len(),
        forall|k: int| 0 <= k < common_prefix_len(s, t) ==> s[k] == t[k],
        common_prefix_len(s, t) < s.len() && common_prefix_len(s, t) < t.len() ==> s[
            common_prefix_len(s, t) as int
        ] != t[common_prefix_len(s, t) as int],
    decreases s.len(),
{
    if s.len() == 0 || t.len() == 0 || s[0] != t[0] {
    } else {
        lemma_common_prefix_len(s.drop_first(), t.drop_first());
        let n = common_prefix_len(s, t);
        assert forall|k: int| 0 <= k < n implies s[k] == t[k] by {
            if k > 0 {
                assert(s.drop_first()[k - 1] == t.drop_first()[k - 1]);
            }
        }
        if n < s.len() && n < t.len() {
            assert(s.drop_first()[n - 1] != t.drop_first()[n - 1]);
        }
    }
}

/// The longest common prefix does not depend on the order of the two
/// sequences.
pub proof fn lemma_common_prefix_len_symmetric(s: Seq<usize>, t: Seq<usize>)
    ensures
        common_prefix_len(s, t) == common_prefix_len(t, s),
    decreases s.len(),
{
    if s.len() == 0 || t.len() == 0 || s[0] != t[0] {
    } else {
        lemma_common_prefix_len_symmetric(s.drop_first(), t.drop_first());
    }
}

/// A prefix on which two sequences agree is never longer than their
/// longest common prefix.
pub proof fn lemma_common_prefix_len_at_least(s: Seq<usize>, t: Seq<usize>, i: int)
    requires
        0 <= i <= s.len(),
        i <= t.len(),
        forall|k: int| 0 <= k < i ==> s[k] == t[k],
    ensures
        common_prefix_len(s, t) >= i,
    decreases i,
{
    if i > 0 {
        assert(s[0] == t[0]);
        assert forall|k: int| 0 <= k < i - 1 implies s.drop_first()[k] == t.drop_first()[k] by {
            assert(s[k + 1] == t[k + 1]);
        }
        lemma_common_prefix_len_at_least(s.drop_first(), t.drop_first(), i - 1);
    }
}

impl<X> FrameArena<X> {
    /// The chain of node `i`: the identifiers on the path from `i`'s root
    /// down to `i` itself, root first.
    pub open spec fn chain_of(self, i: int) -> Seq<usize>
        decreases i,
    {
        if !self.in_bounds(i) {
            Seq::empty()
        } else {
            match self.parent_of(i) {
                Option::Some(p) => if p < i {
                    self.chain_of(p as int).push(i as usize)
                } else {
                    seq![i as usize]
                },
                Option::None => seq![i as usize],
            }
        }
    }

    /// The root of the tree that node `i` belongs to: the first entry of
    /// its chain.
    pub open spec fn root_of(self, i: int) -> usize {
        self.chain_of(i)[0]
    }

    /// The shape of a chain in a well-formed arena: it ends at the node
    /// itself, starts at a parentless node, is strictly increasing, and
    /// each entry is the parent of the next.
    pub proof fn lemma_chain_facts(self, i: int)
        requires
            self.wf(),
            self.in_bounds(i),
        ensures
            self.chain_of(i).len() >= 1,
            self.chain_of(i).last() == i as usize,
            self.parent_of(self.root_of(i) as int) is None,
            forall|k: int|
                0 <= k < self.chain_of(i).len() ==> self.in_bounds(
                    #[trigger] self.chain_of(i)[k] as int,
                ) && self.chain_of(i)[k] <= i,
            forall|k1: int, k2: int|
                0 <= k1 < k2 < self.chain_of(i).len() ==> self.chain_of(i)[k1] < self.chain_of(
                    i,
                )[k2],
            forall|k: int|
                0 <= k < self.chain_of(i).len() - 1 ==> self.parent_of(
                    #[trigger] self.chain_of(i)[k + 1] as int,
                ) == Option::Some(self.chain_of(i)[k]),
        decreases i,
    {
        assert(self.wf_node(i));
        match self.parent_of(i) {
            Option::Some(p) => {
                self.lemma_chain_facts(p as int);
                let c = self.chain_of(i);
                let cp = self.chain_of(p as int);
                assert(c == cp.push(i as usize));
                assert forall|k: int| 0 <= k < cp.len() implies c[k] == cp[k] by {}
                assert(c[0] == cp[0]);
                assert(c[c.len() - 1] == i as usize);
                assert(self.root_of(i) == self.root_of(p as int));
                assert forall|k1: int, k2: int| 0 <= k1 < k2 < c.len() implies c[k1] < c[k2] by {
                    if k2 == c.len() - 1 {
                        assert(cp[k1] <= p);
                        assert(c[k2] == i as usize);
                    } else {
                        assert(cp[k1] < cp[k2]);
                    }
                }
                assert forall|k: int| 0 <= k < c.len() - 1 implies self.parent_of(
                    #[trigger] c[k + 1] as int,
                ) == Option::Some(c[k]) by {
                    if k == c.len() - 2 {
                        assert(c[k + 1] == i as usize);
                        assert(cp[cp.len() - 1] == p);
                        assert(c[k] == p);
                    } else {
                        assert(self.parent_of(cp[k + 1] as int) == Option::Some(cp[k]));
                        assert(c[k + 1] == cp[k + 1]);
                        assert(c[k] == cp[k]);
                    }
                }
            },
            Option::None => {},
        }
    }

    /// A chain reads only parent links, so it survives any change that
    /// leaves every node's parent link in place.
    pub proof fn lemma_chain_unchanged(self, post: FrameArena<X>, j: int)
        requires
            self.num_frames() <= post.num_frames(),
            forall|i: int| self.in_bounds(i) ==> #[trigger] post.parent_of(i) == self.parent_of(i),
            self.in_bounds(j),
        ensures
            post.chain_of(j) == self.chain_of(j),
        decreases j,
    {
        match self.parent_of(j) {
            Option::Some(p) => {
                if p < j {
                    self.lemma_chain_unchanged(post, p as int);
                }
            },
            Option::None => {},
        }
    }

    /// Every node lies on its own chain.
    pub proof fn lemma_chain_contains_self(self, j: int)
        requires
            self.wf(),
            self.in_bounds(j),
        ensures
            self.chain_of(j).contains(j as usize),
    {
        self.lemma_chain_facts(j);
        assert(self.chain_of(j)[self.chain_of(j).len() - 1] == j as usize);
    }

    /// A direct child's chain is its parent's chain with the child
    /// appended.
    pub proof fn lemma_chain_of_child(self, c: int)
        requires
            self.wf(),
            self.in_bounds(c),
            self.parent_of(c) is Some,
        ensures
            self.chain_of(c) == self.chain_of(self.parent_of(c)->Some_0 as int).push(c as usize),
            self.chain_of(c).contains(self.parent_of(c)->Some_0),
    {
        assert(self.wf_node(c));
        let p = self.parent_of(c)->Some_0;
        self.lemma_chain_facts(p as int);
        assert(self.chain_of(p as int)[self.chain_of(p as int).len() - 1] == p);
        assert(self.chain_of(c)[self.chain_of(p as int).len() - 1] == p);
    }

    /// Chain membership is transitive: whoever lies on the chain of a
    /// chain member lies on the chain itself.
    pub proof fn lemma_chain_trans(self, j: int, a: usize, x: usize)
        requires
            self.wf(),
            self.in_bounds(j),
            self.chain_of(j).contains(a),
            self.chain_of(a as int).contains(x),
        ensures
            self.chain_of(j).contains(x),
        decreases j,
    {
        self.lemma_chain_facts(j);
        if a == j as usize {
        } else {
            match self.parent_of(j) {
                Option::Some(p) => {
                    let cj = self.chain_of(j);
                    let cp = self.chain_of(p as int);
                    assert(cj == cp.push(j as usize));
                    let ka = choose|ka: int| 0 <= ka < cj.len() && cj[ka] == a;
                    assert(cp[ka] == a);
                    assert(cp.contains(a));
                    self.lemma_chain_trans(p as int, a, x);
                    let kx = choose|kx: int| 0 <= kx < cp.len() && cp[kx] == x;
                    assert(cj[kx] == x);
                },
                Option::None => {
                    assert(self.chain_of(j) =~= seq![j as usize]);
                },
            }
        }
    }

    /// Two members of one chain are ancestors of one another: the chain
    /// of the one contains the other, one way or the other.
    pub proof fn lemma_chain_comparable(self, j: int, a: usize, b: usize)
        requires
            self.wf(),
            self.in_bounds(j),
            self.chain_of(j).contains(a),
            self.chain_of(j).contains(b),
        ensures
            self.chain_of(a as int).contains(b) || self.chain_of(b as int).contains(a),
        decreases j,
    {
        self.lemma_chain_facts(j);
        if a == j as usize {
            assert(self.chain_of(a as int).contains(b));
        } else if b == j as usize {
            assert(self.chain_of(b as int).contains(a));
        } else {
            match self.parent_of(j) {
                Option::Some(p) => {
                    let cj = self.chain_of(j);
                    let cp = self.chain_of(p as int);
                    assert(cj == cp.push(j as usize));
                    let ka = choose|ka: int| 0 <= ka < cj.len() && cj[ka] == a;
                    assert(cp[ka] == a);
                    assert(cp.contains(a));
                    let kb = choose|kb: int| 0 <= kb < cj.len() && cj[kb] == b;
                    assert(cp[kb] == b);
                    assert(cp.contains(b));
                    self.lemma_chain_comparable(p as int, a, b);
                },
                Option::None => {
                    assert(self.chain_of(j) =~= seq![j as usize]);
                },
            }
        }
    }

    /// The lowest common ancestor of nodes `a` and `b`: the last entry of
    /// the longest common prefix of their chains; none when the chains
    /// start at different roots.
    pub open spec fn lca_of(self, a: int, b: int) -> Option<usize> {
        let k = common_prefix_len(self.chain_of(a), self.chain_of(b));
        if k == 0 {
            Option::None
        } else {
            Option::Some(self.chain_of(a)[k - 1])
        }
    }

    /// Two frames of a well-formed arena have a common ancestor exactly
    /// when their chains start at the same root.
    pub proof fn lemma_lca_iff_same_root(self, a: int, b: int)
        requires
            self.wf(),
            self.in_bounds(a),
            self.in_bounds(b),
        ensures
            self.lca_of(a, b) is Some <==> self.root_of(a) == self.root_of(b),
    {
        self.lemma_chain_facts(a);
        self.lemma_chain_facts(b);
        let ca = self.chain_of(a);
        let cb = self.chain_of(b);
        lemma_common_prefix_len(ca, cb);
        if self.root_of(a) == self.root_of(b) {
            assert(ca[0] == cb[0]);
            lemma_common_prefix_len_at_least(ca, cb, 1);
        }
    }

    /// A parentless frame is its own tree root; a child belongs to its
    /// parent's tree.
    pub proof fn lemma_root_of(self, i: int)
        requires
            self.wf(),
            self.in_bounds(i),
        ensures
            match self.parent_of(i) {
                Option::Some(p) => self.root_of(i) == self.root_of(p as int),
                Option::None => self.root_of(i) == i as usize,
            },
    {
        match self.parent_of(i) {
            Option::Some(p) => {
                assert(self.wf_node(i));
                self.lemma_chain_facts(p as int);
                let c = self.chain_of(i);
                assert(c == self.chain_of(p as int).push(i as usize));
                assert(c[0] == self.chain_of(p as int)[0]);
            },
            Option::None => {},
        }
    }

    /// The lowest common ancestor of two frames does not depend on their
    /// order.
    pub proof fn lemma_lca_symmetric(self, a: int, b: int)
        requires
            self.wf(),
            self.in_bounds(a),
            self.in_bounds(b),
        ensures
            self.lca_of(b, a) == self.lca_of(a, b),
    {
        let ca = self.chain_of(a);
        let cb = self.chain_of(b);
        lemma_common_prefix_len_symmetric(ca, cb);
        lemma_common_prefix_len(ca, cb);
        let k = common_prefix_len(ca, cb);
        if k > 0 {
            assert(ca[k - 1] == cb[k - 1]);
        }
    }

    /// The tree-structural half of the round-trip law: whenever a pose
    /// anchored at `a` can be re-expressed in `b` — the two frames share
    /// an ancestor and both chains up to it still resolve — the result,
    /// anchored at `b`, can always be re-expressed in `a` again, over the
    /// same common ancestor and the same two walks. What the numeric
    /// transform does on the way back is a property of the callers'
    /// transform type, which the tree carries opaquely.
    pub proof fn lemma_round_trip_resolvable(self, a: int, b: int)
        requires
            self.wf(),
            self.in_bounds(a),
            self.in_bounds(b),
            self.lca_of(a, b) matches Some(l) && self.walk_ok(a, l as int) && self.walk_ok(
                b,
                l as int,
            ),
        ensures
            self.lca_of(b, a) == self.lca_of(a, b),
            self.lca_of(b, a) matches Some(l) && self.walk_ok(b, l as int) && self.walk_ok(
                a,
                l as int,
            ),
    {
        self.lemma_lca_symmetric(a, b);
    }

    /// Cross-frame resolution across disjoint trees: two frames whose
    /// chains start at different roots — as frames of separate root
    /// creations always do — have no common ancestor at all.
    pub proof fn lemma_disjoint_roots_have_no_common_ancestor(self, a: int, b: int)
        requires
            self.wf(),
            self.in_bounds(a),
            self.in_bounds(b),
            self.root_of(a) != self.root_of(b),
        ensures
            self.lca_of(a, b) is None,
    {
        self.lemma_lca_iff_same_root(a, b);
    }

    /// Whether a root-ward walk from `from` can reach `anc`: `anc` lies on
    /// `from`'s parent chain, and every parent link on the way — the
    /// reclaimable back-references — still resolves, `anc`'s included.
    pub open spec fn walk_ok(self, from: int, anc: int) -> bool
        decreases from,
    {
        if from == anc {
            true
        } else if !self.in_bounds(from) {
            false
        } else {
            match self.parent_of(from) {
                Option::Some(p) => p < from && self.is_alive(p as int) && self.walk_ok(
                    p as int,
                    anc,
                ),
                Option::None => false,
            }
        }
    }
}

impl<X: RigidOps> FrameArena<X> {
    /// The transform a root-ward walk accumulates after having already
    /// gathered `acc`, standing at `cur` on its way up to `anc`: each step
    /// composes the next parent's transform-to-parent on the left, exactly
    /// as the walk itself does, and stops when the parent is `anc`.
    pub open spec fn walk_accum(self, cur: int, anc: int, acc: X) -> X
        decreases cur,
    {
        if !self.in_bounds(cur) {
            acc
        } else {
            match self.parent_of(cur) {
                Option::Some(p) => if p < cur {
                    if p as int == anc {
                        acc
                    } else {
                        self.walk_accum(p as int, anc, self.transform_of(p as int).spec_compose(acc))
                    }
                } else {
                    acc
                },
                Option::None => acc,
            }
        }
    }

    /// The transform a successful walk from `from` up to `anc` yields: the
    /// composition, child first, of the transforms-to-parent of every node
    /// from `from` up to (excluding) `anc`; the identity for the empty
    /// walk.
    pub open spec fn walk_fold(self, from: int, anc: int) -> X {
        if from == anc {
            X::spec_identity()
        } else {
            self.walk_accum(from, anc, self.transform_of(from))
        }
    }
}

/// Builds the chain of node `x` as a vector, root first.
pub(crate) fn build_chain<X>(arena: &FrameArena<X>, x: usize) -> (v: Vec<usize>)
    requires
        arena.wf(),
        arena.in_bounds(x as int),
    ensures
        v@ == arena.chain_of(x as int),
    decreases x,
{
    proof {
        assert(arena.wf_node(x as int));
    }
    match arena.nodes[x].parent {
        Option::Some(p) => {
            let mut v = build_chain(arena, p);
            v.push(x);
            v
        },
        Option::None => {
            let mut v = Vec::new();
            v.push(x);
            v
        },
    }
}

/// Finds the lowest common ancestor of nodes `a` and `b` by identity:
/// builds both chains and takes the deepest entry of their common prefix.
pub(crate) fn lca_ids<X>(arena: &FrameArena<X>, a: usize, b: usize) -> (r: Option<usize>)
    requires
        arena.wf(),
        arena.in_bounds(a as int),
        arena.in_bounds(b as int),
    ensures
        r == arena.lca_of(a as int, b as int),
{
    proof {
        arena.lemma_chain_facts(a as int);
        arena.lemma_chain_facts(b as int);
        lemma_common_prefix_len(arena.chain_of(a as int), arena.chain_of(b as int));
    }
    let ca = build_chain(arena, a);
    let cb = build_chain(arena, b);
    let na = ca.len();
    let nb = cb.len();
    if ca[0] != cb[0] {
        return Option::None;
    }
    proof {
        lemma_common_prefix_len_at_least(ca@, cb@, 1);
    }
    let mut i: usize = 1;
    while i < na && i < nb && ca[i] == cb[i]
        invariant
            ca@ == arena.chain_of(a as int),
            cb@ == arena.chain_of(b as int),
            na == ca@.len(),
            nb == cb@.len(),
            1 <= i <= na,
            i <= nb,
            forall|k: int| 0 <= k < i ==> ca@[k] == cb@[k],
        decreases na - i,
    {
        i += 1;
    }
    proof {
        lemma_common_prefix_len(ca@, cb@);
        lemma_common_prefix_len_at_least(ca@, cb@, i as int);
        assert(common_prefix_len(ca@, cb@) == i);
    }
    Option::Some(ca[i - 1])
}

/// Walks from `from` root-ward to `anc`, accumulating the visited
/// transforms: the result of a successful walk maps coordinates of `from`
/// into coordinates of `anc`. Fails with `BrokenChain` exactly when `anc`
/// does not lie on `from`'s chain of still-resolvable parent links.
pub(crate) fn walk_ids<X: RigidOps>(arena: &FrameArena<X>, from: usize, anc: usize) -> (r: Result<
    X,
    CartesianTreeError,
>)
    requires
        arena.wf(),
        arena.in_bounds(from as int),
    ensures
        r is Ok <==> arena.walk_ok(from as int, anc as int),
        r matches Ok(v) ==> v == arena.walk_fold(from as int, anc as int),
        r matches Err(e) ==> e == CartesianTreeError::BrokenChain,
{
    if from == anc {
        return Result::Ok(X::identity());
    }
    let mut acc = arena.nodes[from].transform;
    let mut cur = from;
    loop
        invariant
            arena.wf(),
            arena.in_bounds(cur as int),
            cur != anc,
            arena.walk_ok(from as int, anc as int) == arena.walk_ok(cur as int, anc as int),
            arena.walk_fold(from as int, anc as int) == arena.walk_accum(cur as int, anc as int, acc),
        decreases cur,
    {
        proof {
            assert(arena.wf_node(cur as int));
        }
        match arena.nodes[cur].parent {
            Option::Some(p) => {
                if !arena.nodes[p].alive {
                    return Result::Err(CartesianTreeError::BrokenChain);
                }
                if p == anc {
                    proof {
                        assert(p < cur);
                        assert(arena.is_alive(p as int));
                        assert(arena.walk_ok(anc as int, anc as int));
                        assert(arena.walk_ok(cur as int, anc as int));
                        assert(arena.walk_accum(cur as int, anc as int, acc) == acc);
                    }
                    return Result::Ok(acc);
                }
                let ghost prev = acc;
                acc = arena.nodes[p].transform.compose(&acc);
                proof {
                    assert(acc == arena.transform_of(p as int).spec_compose(prev));
                    assert(arena.walk_accum(cur as int, anc as int, prev) == arena.walk_accum(
                        p as int,
                        anc as int,
                        acc,
                    ));
                }
                cur = p;
            },
            Option::None => {
                return Result::Err(CartesianTreeError::BrokenChain);
            },
        }
    }
}

impl<X> FrameArena<X> {
    /// The number of parent links above node `i` that still resolve: the
    /// walk stops at a parentless node or at a parent that was reclaimed.
    pub open spec fn live_depth_of(self, i: int) -> nat
        decreases i,
    {
        if !self.in_bounds(i) {
            0
        } else {
            match self.parent_of(i) {
                Option::Some(p) => if p < i && self.is_alive(p as int) {
                    1 + self.live_depth_of(p as int)
                } else {
                    0
                },
                Option::None => 0,
            }
        }
    }

    /// The last node still reachable from `i` through resolvable parent
    /// links: the true root while the whole chain is alive, or the node
    /// below the first reclaimed ancestor.
    pub open spec fn live_root_of(self, i: int) -> int
        decreases i,
    {
        if !self.in_bounds(i) {
            i
        } else {
            match self.parent_of(i) {
                Option::Some(p) => if p < i && self.is_alive(p as int) {
                    self.live_root_of(p as int)
                } else {
                    i
                },
                Option::None => i,
            }
        }
    }
}

impl Frame {
    /// The number of edges from this frame up to the root of its remaining
    /// subtree: parent links are followed while they still resolve, so a
    /// frame whose parent has been reclaimed counts as a root itself.
    pub fn depth<X>(&self, arena: &FrameArena<X>) -> (d: usize)
        requires
            arena.wf(),
            arena.valid_handle(*self),
        ensures
            d == arena.live_depth_of(self@),
    {
        let mut cur = self.id;
        let mut d: usize = 0;
        loop
            invariant
                arena.wf(),
                arena.in_bounds(cur as int),
                cur + d <= self@,
                arena.live_depth_of(self@) == d + arena.live_depth_of(cur as int),
            decreases cur,
        {
            proof {
                assert(arena.wf_node(cur as int));
            }
            match arena.nodes[cur].parent {
                Option::Some(p) => {
                    if !arena.nodes[p].alive {
                        return d;
                    }
                    cur = p;
                    d += 1;
                },
                Option::None => {
                    return d;
                },
            }
        }
    }

    /// Walks parent links as far as they still resolve and hands back a
    /// fresh handle to the frame reached: the root of this frame's
    /// remaining subtree.
    pub fn root<X>(&self, arena: &mut FrameArena<X>) -> (f: Frame)
        requires
            old(arena).wf(),
            old(arena).valid_handle(*self),
            old(arena).handles_of(old(arena).live_root_of(self@)) < usize::MAX,
        ensures
            final(arena).wf(),
            f@ == old(arena).live_root_of(self@),
            final(arena).valid_handle(f),
            final(arena).num_frames() == old(arena).num_frames(),
            final(arena).handles_of(f@) == old(arena).handles_of(f@) + 1,
            forall|j: int|
                old(arena).in_bounds(j) ==> {
                    &&& #[trigger] final(arena).parent_of(j) == old(arena).parent_of(j)
                    &&& final(arena).name_of(j) == old(arena).name_of(j)
                    &&& final(arena).children_of(j) == old(arena).children_of(j)
                    &&& final(arena).transform_of(j) == old(arena).transform_of(j)
                    &&& (final(arena).is_alive(j) <==> old(arena).is_alive(j))
                    &&& j != f@ ==> final(arena).handles_of(j) == old(arena).handles_of(j)
                },
    {
        let mut cur = self.id;
        proof {
            assert(arena.wf_node(self@));
            assert(arena.retained(self@));
        }
        loop
            invariant
                arena.wf(),
                arena.in_bounds(cur as int),
                arena.is_alive(cur as int),
                cur <= self@,
                arena.live_root_of(self@) == arena.live_root_of(cur as int),
                *arena == *old(arena),
                arena.handles_of(arena.live_root_of(self@)) < usize::MAX,
            decreases cur,
        {
            proof {
                assert(arena.wf_node(cur as int));
            }
            match arena.nodes[cur].parent {
                Option::Some(p) => {
                    if !arena.nodes[p].alive {
                        return mint_handle(arena, cur);
                    }
                    cur = p;
                },
                Option::None => {
                    return mint_handle(arena, cur);
                },
            }
        }
    }

    /// The direct parent of this frame, as a fresh handle: `None` both for
    /// a root and for a parent that has been reclaimed — the back-reference
    /// no longer resolves then.
    pub fn parent<X>(&self, arena: &mut FrameArena<X>) -> (r: Option<Frame>)
        requires
            old(arena).wf(),
            old(arena).valid_handle(*self),
            match old(arena).parent_of(self@) {
                Option::Some(p) => old(arena).is_alive(p as int) ==> old(arena).handles_of(
                    p as int,
                ) < usize::MAX,
                Option::None => true,
            },
        ensures
            final(arena).wf(),
            final(arena).num_frames() == old(arena).num_frames(),
            match r {
                Option::Some(f) => {
                    &&& old(arena).parent_of(self@) == Option::Some(f@ as usize)
                    &&& old(arena).is_alive(f@)
                    &&& final(arena).valid_handle(f)
                    &&& final(arena).handles_of(f@) == old(arena).handles_of(f@) + 1
                    &&& forall|j: int|
                        old(arena).in_bounds(j) && j != f@ ==> final(arena).node_unchanged(
                            *old(arena),
                            j,
                        )
                },
                Option::None => {
                    &&& (old(arena).parent_of(self@) matches Some(p) ==> !old(arena).is_alive(
                        p as int,
                    ))
                    &&& *final(arena) == *old(arena)
                },
            },
    {
        proof {
            assert(arena.wf_node(self@));
        }
        match arena.nodes[self.id].parent {
            Option::Some(p) => {
                if arena.nodes[p].alive {
                    let f = mint_handle(arena, p);
                    proof {
                        assert forall|j: int|
                            old(arena).in_bounds(j) && j != f@ implies arena.node_unchanged(
                            *old(arena),
                            j,
                        ) by {}
                    }
                    Option::Some(f)
                } else {
                    Option::None
                }
            },
            Option::None => Option::None,
        }
    }

    /// Composes this frame's transform to its parent with each ancestor's
    /// in turn, root-ward, until `ancestor` is reached: a successful
    /// result is exactly the child-first composition of the visited
    /// transforms — it maps coordinates of this frame into coordinates of
    /// `ancestor`. Fails with `BrokenChain` exactly when `ancestor` does
    /// not lie on this frame's chain of still-resolvable parent links.
    pub fn walk_up_and_transform<X: RigidOps>(&self, arena: &FrameArena<X>, ancestor: &Frame) -> (r:
        Result<X, CartesianTreeError>)
        requires
            arena.wf(),
            arena.valid_handle(*self),
            arena.valid_handle(*ancestor),
        ensures
            r is Ok <==> arena.walk_ok(self@, ancestor@),
            r matches Ok(v) ==> v == arena.walk_fold(self@, ancestor@),
            r matches Err(e) ==> e == CartesianTreeError::BrokenChain,
    {
        walk_ids(arena, self.id, ancestor.id)
    }

    /// The lowest common ancestor of this frame and `other`, as a fresh
    /// handle: found by identity over the two chains. Hands back a handle
    /// exactly when a common ancestor exists and is still alive; `None`
    /// both for frames of disjoint trees and for a common ancestor that
    /// has already been reclaimed.
    pub fn lca_with<X>(&self, arena: &mut FrameArena<X>, other: &Frame) -> (r: Option<Frame>)
        requires
            old(arena).wf(),
            old(arena).valid_handle(*self),
            old(arena).valid_handle(*other),
            old(arena).lca_of(self@, other@) matches Some(l) ==> old(arena).handles_of(l as int)
                < usize::MAX,
        ensures
            final(arena).wf(),
            final(arena).num_frames() == old(arena).num_frames(),
            match r {
                Option::Some(f) => {
                    &&& old(arena).lca_of(self@, other@) == Option::Some(f@ as usize)
                    &&& old(arena).is_alive(f@)
                    &&& final(arena).valid_handle(f)
                    &&& final(arena).handles_of(f@) == old(arena).handles_of(f@) + 1
                    &&& forall|j: int|
                        old(arena).in_bounds(j) && j != f@ ==> final(arena).node_unchanged(
                            *old(arena),
                            j,
                        )
                },
                Option::None => {
                    &&& (old(arena).lca_of(self@, other@) matches Some(l) ==> !old(
                        arena,
                    ).is_alive(l as int))
                    &&& *final(arena) == *old(arena)
                },
            },
    {
        let l = match lca_ids(arena, self.id, other.id) {
            Option::Some(l) => l,
            Option::None => {
                return Option::None;
            },
        };
        proof {
            arena.lemma_chain_facts(self@);
            lemma_common_prefix_len(arena.chain_of(self@), arena.chain_of(other@));
            assert(arena.in_bounds(l as int));
        }
        if !arena.nodes[l].alive {
            return Option::None;
        }
        let f = mint_handle(arena, l);
        proof {
            assert forall|j: int| old(arena).in_bounds(j) && j != f@ implies arena.node_unchanged(
                *old(arena),
                j,
            ) by {}
        }
        Option::Some(f)
    }
}

} // verus!
