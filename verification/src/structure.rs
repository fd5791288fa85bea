//! The spatial index: a lazily materialized quadtree whose nodes live
//! in an arena and reference each other through integer handles.
//!
//! Strong ownership (parent to child) is a child slot holding a handle;
//! weak references (child to parent, neighbor to neighbor) are handles
//! that must be re-validated against the arena on every use, since the
//! referenced node may have been pruned by a cleanup pass.  Slots are
//! never reused, so a handle that once went dead stays dead.

use vstd::prelude::*;

use crate::geometry::Line;

verus! {

/// A reference to a node in the arena.  Whether it is "strong" or
/// "weak" is a matter of where it is stored: child slots keep their
/// target alive (cleanup never frees a node that is still some node's
/// child), while parent and neighbor links may go stale.
#[derive(Clone, Copy, PartialEq, Eq, Structural, Debug)]
pub struct Handle {
    pub idx: usize,
}

/// An axis-aligned direction on the plane, used for neighbor lookup.
#[derive(Clone, Copy, PartialEq, Eq, Structural, Debug)]
pub enum Direction {
    PosX,
    PosY,
    NegX,
    NegY,
}

impl Direction {
    /// Whether the direction runs along the y axis.
    pub open spec fn spec_is_vertical(self) -> bool {
        self == Direction::PosY || self == Direction::NegY
    }

    /// Whether the direction points toward positive coordinates.
    pub open spec fn spec_is_positive(self) -> bool {
        self == Direction::PosX || self == Direction::PosY
    }

    pub fn is_vertical(&self) -> (r: bool)
        ensures
            r == self.spec_is_vertical(),
    {
        match self {
            Direction::NegY | Direction::PosY => true,
            Direction::NegX | Direction::PosX => false,
        }
    }

    pub fn is_positive(&self) -> (r: bool)
        ensures
            r == self.spec_is_positive(),
    {
        match self {
            Direction::PosX | Direction::PosY => true,
            Direction::NegX | Direction::NegY => false,
        }
    }
}

/// One cell of the spatial index: a square region of the plane at some
/// recursion depth.
pub struct DrawNode {
    /// Weak back-reference; absent only for a structural root.
    pub parent: Option<Handle>,
    /// The 2x2 grid of optional finer-depth children, flattened; the
    /// slot of corner `(cx, cy)` is `2 * cy + cx`.  Always length 4.
    pub children: Vec<Option<Handle>>,
    /// The primitives stored directly in this node, each with its
    /// global paint-order tag.
    pub strokes: Vec<(Line, u32)>,
    /// Which quadrant position this node occupies within its parent.
    pub corner: (u8, u8),
    /// Weak links to the same-depth neighbors beyond the parent's
    /// boundary: `.0` horizontal, `.1` vertical.
    pub neighbors: (Option<Handle>, Option<Handle>),
}

/// An arena slot.  `live` is the liveness tag a weak handle is checked
/// against; slots are never reused once freed.
pub struct Slot {
    pub live: bool,
    pub node: DrawNode,
}

/// The arena holding every node of the spatial index.  The ghost level
/// map assigns each slot the recursion depth of its node (children one
/// deeper than their parent); it grounds the termination of every walk
/// up or down the tree.
pub struct Arena {
    pub slots: Vec<Slot>,
    /// Recursion depth of each slot, parallel to `slots`.
    pub levels: Ghost<Seq<int>>,
    /// A lower bound on every live node's level.
    pub min_level: Ghost<int>,
    /// An upper bound on every live node's level.
    pub max_level: Ghost<int>,
}

/// The child-slot index of a corner.
pub open spec fn spec_corner_k(c: (u8, u8)) -> int {
    2 * (c.1 as int) + (c.0 as int)
}

/// Whether a corner has both bits in range.
pub open spec fn corner_ok(c: (u8, u8)) -> bool {
    (c.0 == 0 || c.0 == 1) && (c.1 == 0 || c.1 == 1)
}

/// The child-slot index of a corner, computed executably.
pub fn corner_k(c: (u8, u8)) -> (r: usize)
    requires
        corner_ok(c),
    ensures
        r as int == spec_corner_k(c),
        r < 4,
{
    2 * (c.1 as usize) + (c.0 as usize)
}

/// Field-wise equality of two nodes (the frame relation used by the
/// operation contracts).
pub open spec fn node_same(a: DrawNode, b: DrawNode) -> bool {
    &&& a.parent == b.parent
    &&& a.children@ == b.children@
    &&& a.strokes@ == b.strokes@
    &&& a.corner == b.corner
    &&& a.neighbors == b.neighbors
}

/// A node with no parent, no children, no strokes, no neighbor links,
/// at corner (0, 0): what `top_level` creates.
pub open spec fn is_empty_root(nd: DrawNode) -> bool {
    &&& nd.parent is None
    &&& nd.children@.len() == 4
    &&& (forall|k: int| 0 <= k < 4 ==> nd.children@[k] is None)
    &&& nd.strokes@.len() == 0
    &&& nd.corner == (0u8, 0u8)
    &&& nd.neighbors.0 is None
    &&& nd.neighbors.1 is None
}

/// A freshly created child: empty, at the given corner, with its parent
/// link installed.  Neighbor links are left unconstrained here; the
/// creation paths state them separately.
pub open spec fn is_fresh_child(nd: DrawNode, parent: Handle, corner: (u8, u8)) -> bool {
    &&& nd.parent == Some(parent)
    &&& nd.children@.len() == 4
    &&& (forall|k: int| 0 <= k < 4 ==> nd.children@[k] is None)
    &&& nd.strokes@.len() == 0
    &&& nd.corner == corner
}

impl Arena {
    /// The number of slots ever allocated.
    pub open spec fn n(self) -> int {
        self.slots@.len() as int
    }

    /// Whether slot `i` holds a live node.
    pub open spec fn live(self, i: int) -> bool {
        0 <= i < self.n() && self.slots@[i].live
    }

    /// The node in slot `i`.
    pub open spec fn node(self, i: int) -> DrawNode {
        self.slots@[i].node
    }

    /// The recursion depth of slot `i`.
    pub open spec fn level(self, i: int) -> int {
        self.levels@[i]
    }

    /// Whether a handle refers to a live node.
    pub open spec fn valid(self, h: Handle) -> bool {
        self.live(h.idx as int)
    }

    /// Whether a node is a structural root: its parent link does not
    /// resolve.
    pub open spec fn is_root(self, i: int) -> bool {
        match self.node(i).parent {
            Some(p) => !self.live(p.idx as int),
            None => true,
        }
    }

    /// Well-formedness of the child link in slot `k` of node `i`:
    /// the child is live, one level deeper, and points back at `i`
    /// from the same corner.
    pub open spec fn wf_child_link(self, i: int, k: int) -> bool {
        match self.node(i).children@[k] {
            Some(c) => {
                &&& self.live(c.idx as int)
                &&& self.level(c.idx as int) == self.level(i) + 1
                &&& (self.node(c.idx as int).parent matches Some(p) && p.idx as int == i)
                &&& spec_corner_k(self.node(c.idx as int).corner) == k
            },
            None => true,
        }
    }

    /// Well-formedness of node `i`'s parent link: when it resolves, the
    /// parent is one level up and holds `i` in the child slot of `i`'s
    /// corner.
    pub open spec fn wf_parent_link(self, i: int) -> bool {
        self.node(i).parent matches Some(p) ==> {
            &&& (p.idx as int) < self.n()
            &&& (self.live(p.idx as int) ==> {
                &&& self.level(p.idx as int) == self.level(i) - 1
                &&& (self.node(p.idx as int).children@[spec_corner_k(self.node(i).corner)]
                    matches Some(c) && c.idx as int == i)
            })
        }
    }

    /// Well-formedness of node `i`'s cached neighbor links: when one
    /// resolves, the target is at the same level, mirrored across the
    /// link's axis, and `i` itself has a resolvable parent (links are
    /// only ever stitched onto attached nodes).
    pub open spec fn wf_neighbor_links(self, i: int) -> bool {
        &&& (self.node(i).neighbors.0 matches Some(m) ==> {
            &&& (m.idx as int) < self.n()
            &&& (self.live(m.idx as int) ==> {
                &&& self.level(m.idx as int) == self.level(i)
                &&& self.node(m.idx as int).corner.0 as int == 1 - self.node(i).corner.0 as int
                &&& self.node(m.idx as int).corner.1 == self.node(i).corner.1
                &&& (self.node(i).parent matches Some(p) && self.live(p.idx as int))
            })
        })
        &&& (self.node(i).neighbors.1 matches Some(m) ==> {
            &&& (m.idx as int) < self.n()
            &&& (self.live(m.idx as int) ==> {
                &&& self.level(m.idx as int) == self.level(i)
                &&& self.node(m.idx as int).corner.0 == self.node(i).corner.0
                &&& self.node(m.idx as int).corner.1 as int == 1 - self.node(i).corner.1 as int
                &&& (self.node(i).parent matches Some(p) && self.live(p.idx as int))
            })
        })
    }

    /// Well-formedness of one live node.
    pub open spec fn wf_node(self, i: int) -> bool {
        &&& self.node(i).children@.len() == 4
        &&& corner_ok(self.node(i).corner)
        &&& self.min_level() <= self.level(i) <= self.max_level()
        &&& (forall|k: int| 0 <= k < 4 ==> self.wf_child_link(i, k))
        &&& self.wf_parent_link(i)
        &&& self.wf_neighbor_links(i)
    }

    pub open spec fn min_level(self) -> int {
        self.min_level@
    }

    pub open spec fn max_level(self) -> int {
        self.max_level@
    }

    /// The arena invariant: the level map covers every slot and every
    /// live node is well formed.
    pub open spec fn wf(self) -> bool {
        &&& self.levels@.len() == self.slots@.len()
        &&& forall|i: int| #[trigger] self.live(i) ==> self.wf_node(i)
    }

    /// Evolution: `self` has every slot of `pre`, with liveness and
    /// levels preserved and the level bounds only widened.
    pub open spec fn grows_from(self, pre: Arena) -> bool {
        &&& pre.slots@.len() <= self.slots@.len()
        &&& (forall|i: int| 0 <= i < pre.slots@.len() ==> self.levels@[i] == pre.levels@[i])
        &&& (forall|i: int| pre.live(i) ==> self.live(i))
        &&& self.min_level() <= pre.min_level()
        &&& pre.max_level() <= self.max_level()
    }

    /// Frame: every node live in `pre` is unchanged in `self`.
    pub open spec fn keeps_nodes(self, pre: Arena) -> bool {
        forall|i: int| pre.live(i) ==> node_same(self.node(i), pre.node(i))
    }

    /// Frame: every node live in `pre` keeps its stroke list in `self`.
    pub open spec fn keeps_strokes(self, pre: Arena) -> bool {
        forall|i: int| pre.live(i) ==> self.node(i).strokes@ == pre.node(i).strokes@
    }

    /// No-change relation: same slots, liveness, levels and bounds
    /// (dead slots' contents are irrelevant).
    pub open spec fn same_as(self, pre: Arena) -> bool {
        &&& self.n() == pre.n()
        &&& self.levels@ == pre.levels@
        &&& self.min_level() == pre.min_level()
        &&& self.max_level() == pre.max_level()
        &&& (forall|i: int| 0 <= i < pre.n() ==> self.live(i) == pre.live(i))
        &&& (forall|i: int| pre.live(i) ==> node_same(self.node(i), pre.node(i)))
    }

    /// Whether node `i` has any child.
    pub open spec fn has_children(self, i: int) -> bool {
        exists|k: int| 0 <= k < 4 && self.node(i).children@[k] is Some
    }

    /// Whether `try_cleanup` would prune node `i`: empty of children
    /// and strokes, with a resolvable parent.
    pub open spec fn cleanable(self, i: int) -> bool {
        &&& !self.has_children(i)
        &&& self.node(i).strokes@.len() == 0
        &&& (self.node(i).parent matches Some(p) && self.live(p.idx as int))
    }

    /// An empty arena.
    pub fn new() -> (r: Arena)
        ensures
            r.wf(),
            r.n() == 0,
    {
        Arena {
            slots: Vec::new(),
            levels: Ghost(Seq::empty()),
            min_level: Ghost(0int),
            max_level: Ghost(0int),
        }
    }

    /// Whether a handle currently resolves (a weak-reference upgrade).
    pub fn is_live(&self, h: Handle) -> (r: bool)
        ensures
            r == self.valid(h),
    {
        h.idx < self.slots.len() && self.slots[h.idx].live
    }
}

/// Whether a node at corner `c` faces away from direction `d` within
/// its parent: its corner bit on `d`'s axis differs from `d`'s
/// polarity.  Exactly then its neighbor in `d` is a sibling in the same
/// parent rather than a node beyond the parent's boundary.
pub open spec fn spec_faces_away(c: (u8, u8), d: Direction) -> bool {
    if d.spec_is_vertical() {
        (c.1 == 1) != d.spec_is_positive()
    } else {
        (c.0 == 1) != d.spec_is_positive()
    }
}

/// The horizontal direction a node at corner `c` faces toward: the one
/// whose neighbor lies beyond its parent's boundary.
pub open spec fn spec_dir_h(c: (u8, u8)) -> Direction {
    if c.0 == 1 {
        Direction::PosX
    } else {
        Direction::NegX
    }
}

/// The vertical direction a node at corner `c` faces toward.
pub open spec fn spec_dir_v(c: (u8, u8)) -> Direction {
    if c.1 == 1 {
        Direction::PosY
    } else {
        Direction::NegY
    }
}

/// The direction of opposite polarity on the same axis.
pub open spec fn spec_opposite(d: Direction) -> Direction {
    match d {
        Direction::PosX => Direction::NegX,
        Direction::NegX => Direction::PosX,
        Direction::PosY => Direction::NegY,
        Direction::NegY => Direction::PosY,
    }
}

/// The child slot of the corner mirrored across `d`'s axis.
pub open spec fn spec_mirror_k(c: (u8, u8), d: Direction) -> int {
    if d.spec_is_vertical() {
        2 * (1 - c.1 as int) + c.0 as int
    } else {
        2 * (c.1 as int) + (1 - c.0 as int)
    }
}

impl Arena {
    /// The same-depth neighbor of node `i` in direction `d`, as far as
    /// it is resolvable without creating anything: the mirrored-corner
    /// sibling within the parent when `i` faces away from `d`, else
    /// whatever the cached weak link on `d`'s axis resolves to.
    pub open spec fn spec_neighbor(self, i: int, d: Direction) -> Option<Handle> {
        if spec_faces_away(self.node(i).corner, d) {
            match self.node(i).parent {
                Some(p) => if self.live(p.idx as int) {
                    self.node(p.idx as int).children@[spec_mirror_k(self.node(i).corner, d)]
                } else {
                    None
                },
                None => None,
            }
        } else {
            let l = if d.spec_is_vertical() {
                self.node(i).neighbors.1
            } else {
                self.node(i).neighbors.0
            };
            match l {
                Some(m) => if self.live(m.idx as int) {
                    Some(m)
                } else {
                    None
                },
                None => None,
            }
        }
    }

    /// Descend from node `i` along a path of corner designators,
    /// consuming the path from its end (the corner nearest the starting
    /// node first): the relocation a persisted corner path encodes.
    pub open spec fn spec_descend(self, i: int, path: Seq<(u8, u8)>) -> Option<int>
        decreases path.len(),
    {
        if path.len() == 0 {
            Some(i)
        } else {
            let c = path.last();
            if self.live(i) && corner_ok(c) && self.node(i).children@[spec_corner_k(c)] is Some {
                self.spec_descend(
                    self.node(i).children@[spec_corner_k(c)]->Some_0.idx as int,
                    path.drop_last(),
                )
            } else {
                None
            }
        }
    }

    /// Where the neighbor stitching of child creation looks for the
    /// new child's same-depth neighbor in direction `d`: the child of
    /// the creating node's resolved neighbor at the mirrored corner.
    pub open spec fn spec_stitch_target(self, i: int, corner: (u8, u8), d: Direction) -> Option<
        Handle,
    > {
        match self.spec_neighbor(i, d) {
            Some(nh) => self.node(nh.idx as int).children@[spec_mirror_k(corner, d)],
            None => None,
        }
    }
}

/// What one cleanup attempt on `h` does to the arena: nothing when
/// `h` is not prunable; otherwise `h` is detached from its parent's
/// child slot and freed, and nothing else changes.
pub open spec fn cleanup_rel(pre: Arena, post: Arena, h: Handle) -> bool {
    &&& post.n() == pre.n()
    &&& post.levels@ == pre.levels@
    &&& post.min_level() == pre.min_level()
    &&& post.max_level() == pre.max_level()
    &&& (if !pre.cleanable(h.idx as int) {
        post.same_as(pre)
    } else {
        &&& !post.valid(h)
        &&& (forall|i: int|
            0 <= i < pre.n() && i != h.idx as int ==> post.live(i) == pre.live(i))
        &&& (forall|i: int|
            pre.live(i) && i != h.idx as int && !(pre.node(h.idx as int).parent matches Some(pp)
                && pp.idx as int == i) ==> node_same(post.node(i), pre.node(i)))
        &&& (pre.node(h.idx as int).parent matches Some(p) ==> {
            &&& post.node(p.idx as int).children@ == pre.node(p.idx as int).children@.update(
                spec_corner_k(pre.node(h.idx as int).corner),
                None,
            )
            &&& post.node(p.idx as int).parent == pre.node(p.idx as int).parent
            &&& post.node(p.idx as int).strokes@ == pre.node(p.idx as int).strokes@
            &&& post.node(p.idx as int).corner == pre.node(p.idx as int).corner
            &&& post.node(p.idx as int).neighbors == pre.node(p.idx as int).neighbors
        })
    })
}

/// An empty node value with the given parent link and corner.
fn mk_node(parent: Option<Handle>, corner: (u8, u8)) -> (nd: DrawNode)
    ensures
        nd.parent == parent,
        nd.children@.len() == 4,
        forall|k: int| 0 <= k < 4 ==> nd.children@[k] is None,
        nd.strokes@.len() == 0,
        nd.corner == corner,
        nd.neighbors.0 is None,
        nd.neighbors.1 is None,
{
    let mut children: Vec<Option<Handle>> = Vec::new();
    children.push(None);
    children.push(None);
    children.push(None);
    children.push(None);
    DrawNode { parent, children, strokes: Vec::new(), corner, neighbors: (None, None) }
}

impl Arena {
    /// The primitives of the subtree rooted at `i`, in traversal
    /// order: the node's own strokes, then each child subtree in
    /// child-slot order.
    pub open spec fn spec_subtree_strokes(self, i: int) -> Seq<(Line, u32)>
        decreases (if self.wf() && self.live(i) {
            self.max_level() - self.level(i)
        } else {
            0
        }),
        via Self::subtree_strokes_decreases
    {
        if self.wf() && self.live(i) {
            self.node(i).strokes@ + (match self.node(i).children@[0] {
                Some(c) => self.spec_subtree_strokes(c.idx as int),
                None => Seq::empty(),
            }) + (match self.node(i).children@[1] {
                Some(c) => self.spec_subtree_strokes(c.idx as int),
                None => Seq::empty(),
            }) + (match self.node(i).children@[2] {
                Some(c) => self.spec_subtree_strokes(c.idx as int),
                None => Seq::empty(),
            }) + (match self.node(i).children@[3] {
                Some(c) => self.spec_subtree_strokes(c.idx as int),
                None => Seq::empty(),
            })
        } else {
            Seq::empty()
        }
    }

    #[via_fn]
    proof fn subtree_strokes_decreases(self, i: int) {
        if self.wf() && self.live(i) {
            assert(self.wf_node(i));
            assert forall|k: int| 0 <= k < 4 implies (match #[trigger] self.node(
                i,
            ).children@[k] {
                Some(c) => self.live(c.idx as int) && self.level(c.idx as int) == self.level(i) + 1
                    && self.level(c.idx as int) <= self.max_level(),
                None => true,
            }) by {
                assert(self.wf_child_link(i, k));
                if let Some(c) = self.node(i).children@[k] {
                    assert(self.wf_node(c.idx as int));
                }
            }
        }
    }

    /// Whether `r` is `j` itself or an ancestor of `j`, following
    /// parent links upward as far as they resolve.
    pub open spec fn under(self, j: int, r: int) -> bool
        decreases self.level(j) - self.min_level(),
            when self.wf() && self.live(j)
            via Self::under_decreases
    {
        j == r || (match self.node(j).parent {
            Some(q) => self.live(q.idx as int) && self.under(q.idx as int, r),
            None => false,
        })
    }

    #[via_fn]
    proof fn under_decreases(self, j: int, r: int) {
        assert(self.wf_node(j));
        if let Some(q) = self.node(j).parent {
            if self.live(q.idx as int) {
                assert(self.wf_node(q.idx as int));
            }
        }
    }

    /// An ancestor is live and no deeper than its descendant; at equal
    /// depth it is the descendant itself.
    pub proof fn lemma_under_level(self, j: int, r: int)
        requires
            self.wf(),
            self.live(j),
            self.under(j, r),
        ensures
            self.live(r),
            self.level(r) <= self.level(j),
            self.level(r) == self.level(j) ==> j == r,
        decreases self.level(j) - self.min_level(),
    {
        assert(self.wf_node(j));
        if j != r {
            let q = self.node(j).parent->Some_0;
            assert(self.wf_node(q.idx as int));
            self.lemma_under_level(q.idx as int, r);
        }
    }

    /// Parent chains are unique: two ancestors of one node at the same
    /// depth are the same node.
    pub proof fn lemma_under_unique(self, j: int, a: int, b: int)
        requires
            self.wf(),
            self.live(j),
            self.under(j, a),
            self.under(j, b),
            self.level(a) == self.level(b),
        ensures
            a == b,
        decreases self.level(j) - self.min_level(),
    {
        assert(self.wf_node(j));
        self.lemma_under_level(j, a);
        self.lemma_under_level(j, b);
        if j == a || j == b {
        } else {
            let q = self.node(j).parent->Some_0;
            assert(self.wf_node(q.idx as int));
            self.lemma_under_unique(q.idx as int, a, b);
        }
    }

    /// Ancestor chains compose.
    pub proof fn lemma_under_trans(self, j: int, c: int, r: int)
        requires
            self.wf(),
            self.live(j),
            self.under(j, c),
            self.under(c, r),
        ensures
            self.under(j, r),
        decreases self.level(j) - self.min_level(),
    {
        assert(self.wf_node(j));
        if j != c {
            let q = self.node(j).parent->Some_0;
            assert(self.wf_node(q.idx as int));
            self.lemma_under_trans(q.idx as int, c, r);
        }
    }
}

/// Ancestor chains are stable under arena growth: operations that
/// preserve liveness and parent links of existing nodes preserve who
/// is under whom, and no existing node is under a freshly allocated
/// one.
pub proof fn lemma_under_preserved(pre: Arena, mid: Arena, j: int, r: int)
    requires
        pre.wf(),
        mid.wf(),
        pre.live(j),
        forall|i: int| 0 <= i < pre.n() ==> mid.live(i) == pre.live(i),
        forall|i: int| pre.live(i) ==> mid.node(i).parent == pre.node(i).parent,
    ensures
        0 <= r < pre.n() ==> mid.under(j, r) == pre.under(j, r),
        r >= pre.n() ==> !mid.under(j, r),
        r < 0 ==> !mid.under(j, r) && !pre.under(j, r),
    decreases pre.level(j) - pre.min_level(),
{
    assert(pre.wf_node(j));
    assert(mid.live(j));
    assert(mid.wf_node(j));
    if let Some(q) = pre.node(j).parent {
        assert((q.idx as int) < pre.n());
        if pre.live(q.idx as int) {
            assert(pre.level(q.idx as int) == pre.level(j) - 1);
            assert(pre.min_level() <= pre.level(q.idx as int)) by {
                assert(pre.wf_node(q.idx as int));
            }
            lemma_under_preserved(pre, mid, q.idx as int, r);
        }
    }
}

/// The subtree traversal reads only nodes under its root: when every
/// live node with `r` as an ancestor keeps its strokes and children,
/// and liveness and levels are preserved, the traversal is unchanged.
pub proof fn lemma_subtree_strokes_frame(pre: Arena, post: Arena, r: int)
    requires
        pre.wf(),
        post.wf(),
        pre.live(r),
        forall|i: int| pre.live(i) ==> post.live(i) && post.level(i) == pre.level(i),
        forall|j: int|
            pre.live(j) && pre.under(j, r) ==> post.node(j).strokes@ == pre.node(j).strokes@
                && post.node(j).children@ == pre.node(j).children@,
    ensures
        post.spec_subtree_strokes(r) == pre.spec_subtree_strokes(r),
    decreases pre.max_level() - pre.level(r),
{
    assert(pre.wf_node(r));
    assert(pre.under(r, r));
    assert(post.node(r).children@ == pre.node(r).children@);
    assert(post.node(r).strokes@ == pre.node(r).strokes@);
    assert forall|k: int| 0 <= k < 4 implies (match #[trigger] pre.node(r).children@[k] {
        Some(c) => post.spec_subtree_strokes(c.idx as int) == pre.spec_subtree_strokes(
            c.idx as int,
        ),
        None => true,
    }) by {
        assert(pre.wf_child_link(r, k));
        if let Some(c) = pre.node(r).children@[k] {
            let ci = c.idx as int;
            assert(pre.wf_node(ci));
            assert(pre.under(ci, r)) by {
                assert(pre.node(ci).parent matches Some(q) && q.idx as int == r);
            }
            assert forall|j: int|
                pre.live(j) && pre.under(j, ci) implies post.node(j).strokes@ == pre.node(
                j,
            ).strokes@ && post.node(j).children@ == pre.node(j).children@ by {
                pre.lemma_under_trans(j, ci, r);
            }
            lemma_subtree_strokes_frame(pre, post, ci);
        }
    }
    assert forall|k: int| 0 <= k < 4 implies (match #[trigger] post.node(r).children@[k] {
        Some(c) => post.spec_subtree_strokes(c.idx as int),
        None => Seq::empty(),
    }) == (match pre.node(r).children@[k] {
        Some(c) => pre.spec_subtree_strokes(c.idx as int),
        None => Seq::empty(),
    }) by {
        assert(post.node(r).children@[k] == pre.node(r).children@[k]);
    }
    assert(post.live(r));
    assert(post.wf());
    reveal_with_fuel(Arena::spec_subtree_strokes, 2);
    assert(post.spec_subtree_strokes(r) == post.node(r).strokes@ + (
    match post.node(r).children@[0] {
        Some(c) => post.spec_subtree_strokes(c.idx as int),
        None => Seq::empty(),
    }) + (match post.node(r).children@[1] {
        Some(c) => post.spec_subtree_strokes(c.idx as int),
        None => Seq::empty(),
    }) + (match post.node(r).children@[2] {
        Some(c) => post.spec_subtree_strokes(c.idx as int),
        None => Seq::empty(),
    }) + (match post.node(r).children@[3] {
        Some(c) => post.spec_subtree_strokes(c.idx as int),
        None => Seq::empty(),
    }));
}

/// Attaching one fresh, empty child to a node leaves every existing
/// subtree traversal unchanged: the new leaf contributes nothing.
pub proof fn lemma_subtree_after_attach(pre: Arena, mid: Arena, r: int, hi: int, k: int, c: Handle)
    requires
        pre.wf(),
        mid.wf(),
        pre.live(r),
        pre.live(hi),
        0 <= k < 4,
        pre.node(hi).children@[k] is None,
        forall|i: int| 0 <= i < pre.n() ==> mid.live(i) == pre.live(i),
        forall|i: int| pre.live(i) ==> mid.level(i) == pre.level(i),
        forall|i: int|
            pre.live(i) && i != hi ==> mid.node(i).strokes@ == pre.node(i).strokes@
                && mid.node(i).children@ == pre.node(i).children@,
        mid.node(hi).strokes@ == pre.node(hi).strokes@,
        mid.node(hi).children@ == pre.node(hi).children@.update(k, Some(c)),
        c.idx as int >= pre.n(),
        mid.live(c.idx as int),
        mid.node(c.idx as int).strokes@.len() == 0,
        mid.node(c.idx as int).children@.len() == 4,
        forall|kk: int| 0 <= kk < 4 ==> mid.node(c.idx as int).children@[kk] is None,
    ensures
        mid.spec_subtree_strokes(r) == pre.spec_subtree_strokes(r),
    decreases pre.max_level() - pre.level(r),
{
    assert(pre.wf_node(r));
    assert(mid.live(r));
    assert forall|kk: int| 0 <= kk < 4 && (r != hi || kk != k) implies (match #[trigger] pre.node(
        r,
    ).children@[kk] {
        Some(cc) => mid.node(r).children@[kk] == pre.node(r).children@[kk]
            && mid.spec_subtree_strokes(cc.idx as int) == pre.spec_subtree_strokes(cc.idx as int),
        None => mid.node(r).children@[kk] == pre.node(r).children@[kk],
    }) by {
        assert(pre.wf_child_link(r, kk));
        if let Some(cc) = pre.node(r).children@[kk] {
            assert(pre.wf_node(cc.idx as int));
            lemma_subtree_after_attach(pre, mid, cc.idx as int, hi, k, c);
        }
    }
    if r == hi {
        assert(mid.spec_subtree_strokes(c.idx as int) =~= Seq::<(Line, u32)>::empty()) by {
            assert(mid.node(c.idx as int).children@[0] is None);
            assert(mid.node(c.idx as int).children@[1] is None);
            assert(mid.node(c.idx as int).children@[2] is None);
            assert(mid.node(c.idx as int).children@[3] is None);
            assert(mid.node(c.idx as int).strokes@ =~= Seq::<(Line, u32)>::empty());
        }
        assert(mid.spec_subtree_strokes(r) =~= pre.spec_subtree_strokes(r));
    } else {
        assert(mid.node(r).children@ == pre.node(r).children@);
        assert(mid.spec_subtree_strokes(r) =~= pre.spec_subtree_strokes(r));
    }
}

/// Detaching one empty child from a node leaves every surviving
/// subtree traversal unchanged: the removed leaf contributed nothing.
pub proof fn lemma_subtree_after_detach(pre: Arena, mid: Arena, r: int, hi: int, k: int)
    requires
        pre.wf(),
        mid.wf(),
        pre.live(r),
        mid.live(r),
        pre.live(hi),
        0 <= k < 4,
        pre.node(hi).children@[k] matches Some(cc) && pre.node(cc.idx as int).strokes@.len() == 0
            && !pre.has_children(cc.idx as int) && !mid.live(cc.idx as int) && r != cc.idx as int,
        mid.n() == pre.n(),
        forall|i: int|
            0 <= i < pre.n() && i != (pre.node(hi).children@[k]->Some_0.idx as int) ==> mid.live(
                i,
            ) == pre.live(i),
        forall|i: int| pre.live(i) && mid.live(i) ==> mid.level(i) == pre.level(i),
        forall|i: int|
            pre.live(i) && mid.live(i) && i != hi ==> mid.node(i).strokes@ == pre.node(
                i,
            ).strokes@ && mid.node(i).children@ == pre.node(i).children@,
        mid.node(hi).strokes@ == pre.node(hi).strokes@,
        mid.node(hi).children@ == pre.node(hi).children@.update(k, None),
    ensures
        mid.spec_subtree_strokes(r) == pre.spec_subtree_strokes(r),
    decreases pre.max_level() - pre.level(r),
{
    let ci = pre.node(hi).children@[k]->Some_0.idx as int;
    assert(pre.wf_node(r));
    assert(mid.live(r));
    assert forall|kk: int| 0 <= kk < 4 && (r != hi || kk != k) implies (match #[trigger] pre.node(
        r,
    ).children@[kk] {
        Some(cc) => mid.node(r).children@[kk] == pre.node(r).children@[kk]
            && mid.spec_subtree_strokes(cc.idx as int) == pre.spec_subtree_strokes(cc.idx as int),
        None => mid.node(r).children@[kk] == pre.node(r).children@[kk],
    }) by {
        assert(pre.wf_child_link(r, kk));
        if let Some(cc) = pre.node(r).children@[kk] {
            assert(pre.wf_node(cc.idx as int));
            assert(cc.idx as int != ci) by {
                if cc.idx as int == ci {
                    // the detached child's only parent slot is `hi`'s
                    // slot `k`
                    assert(pre.wf_child_link(hi, k));
                    assert(r == hi && kk == k);
                }
            }
            assert(mid.live(cc.idx as int));
            lemma_subtree_after_detach(pre, mid, cc.idx as int, hi, k);
        }
    }
    if r == hi {
        assert(pre.wf_child_link(hi, k));
        assert(pre.spec_subtree_strokes(ci) =~= Seq::<(Line, u32)>::empty()) by {
            assert(pre.node(ci).children@[0] is None);
            assert(pre.node(ci).children@[1] is None);
            assert(pre.node(ci).children@[2] is None);
            assert(pre.node(ci).children@[3] is None);
            assert(pre.node(ci).strokes@ =~= Seq::<(Line, u32)>::empty());
        }
        assert(mid.spec_subtree_strokes(r) =~= pre.spec_subtree_strokes(r));
    } else {
        assert(mid.node(r).children@ == pre.node(r).children@);
        assert(mid.spec_subtree_strokes(r) =~= pre.spec_subtree_strokes(r));
    }
}

/// A node reached by descending a corner path lies under the starting
/// node.
pub proof fn lemma_descend_under(a: Arena, i: int, path: Seq<(u8, u8)>)
    requires
        a.wf(),
        a.live(i),
        a.spec_descend(i, path) is Some,
    ensures
        a.live(a.spec_descend(i, path)->Some_0),
        a.under(a.spec_descend(i, path)->Some_0, i),
    decreases path.len(),
{
    assert(a.wf_node(i));
    assert(a.under(i, i));
    if path.len() > 0 {
        let c = path.last();
        let k = spec_corner_k(c);
        let ch = a.node(i).children@[k]->Some_0;
        assert(a.wf_child_link(i, k));
        let ci = ch.idx as int;
        lemma_descend_under(a, ci, path.drop_last());
        let d = a.spec_descend(i, path)->Some_0;
        assert(a.under(ci, i)) by {
            assert(a.node(ci).parent matches Some(q) && q.idx as int == i);
        }
        a.lemma_under_trans(d, ci, i);
    }
}

/// Descending a path with one more corner at its front first walks the
/// rest of the path, then takes one child step by that corner.
proof fn lemma_descend_prepend(a: Arena, i: int, c: (u8, u8), s: Seq<(u8, u8)>)
    ensures
        a.spec_descend(i, seq![c] + s) == (match a.spec_descend(i, s) {
            Some(j) => {
                if a.live(j) && corner_ok(c) && a.node(j).children@[spec_corner_k(c)] is Some {
                    Some(a.node(j).children@[spec_corner_k(c)]->Some_0.idx as int)
                } else {
                    None
                }
            },
            None => None,
        }),
    decreases s.len(),
{
    let whole = seq![c] + s;
    assert(whole.len() == 1 + s.len());
    if s.len() == 0 {
        assert(whole.last() == c);
        assert(whole.drop_last() =~= Seq::<(u8, u8)>::empty());
        assert(a.spec_descend(i, s) == Some(i));
        if a.live(i) && corner_ok(c) && a.node(i).children@[spec_corner_k(c)] is Some {
            let j = a.node(i).children@[spec_corner_k(c)]->Some_0.idx as int;
            assert(a.spec_descend(i, whole) == a.spec_descend(j, whole.drop_last()));
            assert(a.spec_descend(j, whole.drop_last()) == Some(j));
        } else {
            assert(a.spec_descend(i, whole) is None);
        }
    } else {
        assert(whole.last() == s.last());
        assert(whole.drop_last() =~= seq![c] + s.drop_last());
        if a.live(i) && corner_ok(s.last()) && a.node(i).children@[spec_corner_k(s.last())]
            is Some {
            let j = a.node(i).children@[spec_corner_k(s.last())]->Some_0.idx as int;
            lemma_descend_prepend(a, j, c, s.drop_last());
            assert(a.spec_descend(i, whole) == a.spec_descend(j, whole.drop_last()));
            assert(a.spec_descend(i, s) == a.spec_descend(j, s.drop_last()));
        } else {
            assert(a.spec_descend(i, whole) is None);
            assert(a.spec_descend(i, s) is None);
        }
    }
}

/// Allocating a fresh child in one slot of node `hi` does not change
/// what `hi`'s neighbor in `d` resolves to, nor the stitch target
/// there: the lookup reads only `hi`'s corner, parent link, cached
/// links, other nodes' fields, and `hi`'s other child slots.
proof fn lemma_neighbor_unchanged_by_alloc(
    pre: Arena,
    mid: Arena,
    hi: int,
    corner: (u8, u8),
    d: Direction,
)
    requires
        pre.wf(),
        pre.live(hi),
        corner_ok(corner),
        mid.n() == pre.n() + 1,
        forall|i: int| 0 <= i < pre.n() ==> mid.live(i) == pre.live(i),
        mid.node(hi).parent == pre.node(hi).parent,
        mid.node(hi).corner == pre.node(hi).corner,
        mid.node(hi).neighbors == pre.node(hi).neighbors,
        forall|i: int| pre.live(i) && i != hi ==> node_same(mid.node(i), pre.node(i)),
        exists|cnew: Option<Handle>|
            mid.node(hi).children@ == pre.node(hi).children@.update(
                spec_corner_k(corner),
                cnew,
            ),
    ensures
        mid.spec_neighbor(hi, d) == pre.spec_neighbor(hi, d),
        mid.spec_stitch_target(hi, corner, d) == pre.spec_stitch_target(hi, corner, d),
{
    assert(pre.wf_node(hi));
    if spec_faces_away(pre.node(hi).corner, d) {
        if let Some(p) = pre.node(hi).parent {
            assert((p.idx as int) < pre.n());
            if pre.live(p.idx as int) {
                assert(pre.level(p.idx as int) == pre.level(hi) - 1);
                assert(p.idx as int != hi);
                assert(node_same(mid.node(p.idx as int), pre.node(p.idx as int)));
            }
        }
    } else {
        let l = if d.spec_is_vertical() {
            pre.node(hi).neighbors.1
        } else {
            pre.node(hi).neighbors.0
        };
        if let Some(m) = l {
            assert((m.idx as int) < pre.n());
        }
    }
    assert(mid.spec_neighbor(hi, d) == pre.spec_neighbor(hi, d));
    if let Some(nh) = pre.spec_neighbor(hi, d) {
        let ni = nh.idx as int;
        assert(pre.live(ni)) by {
            if spec_faces_away(pre.node(hi).corner, d) {
                let p = pre.node(hi).parent->Some_0;
                assert(pre.wf_node(p.idx as int));
                assert(pre.wf_child_link(p.idx as int, spec_mirror_k(pre.node(hi).corner, d)));
            }
        }
        if ni != hi {
            assert(node_same(mid.node(ni), pre.node(ni)));
        } else {
            assert(spec_mirror_k(corner, d) != spec_corner_k(corner));
            assert(mid.node(hi).children@[spec_mirror_k(corner, d)] == pre.node(
                hi,
            ).children@[spec_mirror_k(corner, d)]);
        }
    }
}

impl DrawNode {
    /// Create a new structural root: an empty, parentless node at
    /// level 0.
    pub fn top_level(arena: &mut Arena) -> (h: Handle)
        requires
            old(arena).wf(),
        ensures
            final(arena).wf(),
            final(arena).grows_from(*old(arena)),
            final(arena).keeps_nodes(*old(arena)),
            final(arena).valid(h),
            !old(arena).valid(h),
            h.idx as int == old(arena).n(),
            final(arena).n() == old(arena).n() + 1,
            forall|i: int| 0 <= i < old(arena).n() ==> final(arena).live(i) == old(arena).live(i),
            is_empty_root(final(arena).node(h.idx as int)),
            final(arena).level(h.idx as int) == 0,
    {
        let nd = mk_node(None, (0, 0));
        let idx = arena.slots.len();
        arena.slots.push(Slot { live: true, node: nd });
        proof {
            arena.levels@ = arena.levels@.push(0int);
            if arena.min_level@ > 0int {
                arena.min_level@ = 0int;
            }
            if arena.max_level@ < 0int {
                arena.max_level@ = 0int;
            }
        }
        let h = Handle { idx };
        proof {
            assert forall|i: int| arena.live(i) implies arena.wf_node(i) by {
                if i < old(arena).n() {
                    assert(old(arena).live(i));
                    assert(old(arena).wf_node(i));
                    assert(node_same(arena.node(i), old(arena).node(i)));
                    assert forall|k: int| 0 <= k < 4 implies arena.wf_child_link(i, k) by {
                        assert(old(arena).wf_child_link(i, k));
                    }
                } else {
                    assert(i == h.idx as int);
                    assert(arena.node(i).children@.len() == 4);
                    assert(corner_ok(arena.node(i).corner));
                    assert(arena.min_level() <= arena.level(i) <= arena.max_level());
                    assert forall|k: int| 0 <= k < 4 implies arena.wf_child_link(i, k) by {
                        assert(arena.node(i).children@[k] is None);
                    }
                    assert(arena.wf_parent_link(i));
                    assert(arena.wf_neighbor_links(i));
                }
            }
        }
        h
    }
}

/// Allocate a fresh empty child of `h` at `corner` and install it in
/// the corresponding (empty) child slot.  No neighbor stitching.
fn alloc_child(arena: &mut Arena, h: Handle, corner: (u8, u8)) -> (c: Handle)
    requires
        old(arena).wf(),
        old(arena).valid(h),
        corner_ok(corner),
        old(arena).node(h.idx as int).children@[spec_corner_k(corner)] is None,
    ensures
        final(arena).wf(),
        final(arena).grows_from(*old(arena)),
        final(arena).n() == old(arena).n() + 1,
        c.idx as int == old(arena).n(),
        final(arena).valid(c),
        !old(arena).valid(c),
        forall|i: int| 0 <= i < old(arena).n() ==> final(arena).live(i) == old(arena).live(i),
        final(arena).level(c.idx as int) == old(arena).level(h.idx as int) + 1,
        is_fresh_child(final(arena).node(c.idx as int), h, corner),
        final(arena).node(c.idx as int).neighbors.0 is None,
        final(arena).node(c.idx as int).neighbors.1 is None,
        forall|i: int|
            old(arena).live(i) && i != h.idx as int ==> node_same(
                final(arena).node(i),
                old(arena).node(i),
            ),
        final(arena).node(h.idx as int).children@ == old(arena).node(
            h.idx as int,
        ).children@.update(spec_corner_k(corner), Some(c)),
        final(arena).node(h.idx as int).parent == old(arena).node(h.idx as int).parent,
        final(arena).node(h.idx as int).strokes@ == old(arena).node(h.idx as int).strokes@,
        final(arena).node(h.idx as int).corner == old(arena).node(h.idx as int).corner,
        final(arena).node(h.idx as int).neighbors == old(arena).node(h.idx as int).neighbors,
        final(arena).min_level() == old(arena).min_level(),
{
    let idx = arena.slots.len();
    let nd = mk_node(Some(h), corner);
    arena.slots.push(Slot { live: true, node: nd });
    proof {
        let lc = arena.levels@[h.idx as int] + 1;
        arena.levels@ = arena.levels@.push(lc);
        if arena.max_level@ < lc {
            arena.max_level@ = lc;
        }
    }
    let c = Handle { idx };
    let k = corner_k(corner);
    arena.slots[h.idx].node.children[k] = Some(c);
    proof {
        let post = *arena;
        let pre = *old(arena);
        let hi = h.idx as int;
        assert forall|i: int| post.live(i) implies post.wf_node(i) by {
            if i < pre.n() {
                assert(pre.live(i));
                assert(pre.wf_node(i));
                if i != hi {
                    assert(node_same(post.node(i), pre.node(i)));
                }
                assert forall|kk: int| 0 <= kk < 4 implies post.wf_child_link(i, kk) by {
                    assert(pre.wf_child_link(i, kk));
                    if let Some(cc) = post.node(i).children@[kk] {
                        if i == hi && kk == spec_corner_k(corner) {
                            assert(cc == c);
                        } else {
                            assert(cc == pre.node(i).children@[kk]->Some_0);
                            assert(cc.idx as int != idx as int);
                        }
                    }
                }
                assert(post.wf_parent_link(i)) by {
                    assert(pre.wf_parent_link(i));
                    if let Some(p) = post.node(i).parent {
                        if post.live(p.idx as int) && p.idx as int == hi {
                            let ck = spec_corner_k(post.node(i).corner);
                            assert(pre.node(hi).children@[ck] matches Some(cc) && cc.idx as int
                                == i);
                            assert(ck != spec_corner_k(corner));
                        }
                    }
                }
                assert(post.wf_neighbor_links(i)) by {
                    assert(pre.wf_neighbor_links(i));
                }
            } else {
                assert(i == idx as int);
                assert forall|kk: int| 0 <= kk < 4 implies post.wf_child_link(i, kk) by {
                    assert(post.node(i).children@[kk] is None);
                }
                assert(post.wf_parent_link(i));
                assert(post.wf_neighbor_links(i));
            }
        }
    }
    c
}

impl DrawNode {
    /// Return the existing child of `h` at `corner`, or create an
    /// empty one with its parent link set; does not attempt neighbor
    /// linking (the cheap path).
    pub fn get_or_create_neighborless_child_from_corner(
        arena: &mut Arena,
        h: Handle,
        corner: (u8, u8),
    ) -> (c: Handle)
        requires
            old(arena).wf(),
            old(arena).valid(h),
            corner_ok(corner),
        ensures
            final(arena).wf(),
            final(arena).grows_from(*old(arena)),
            forall|i: int| 0 <= i < old(arena).n() ==> final(arena).live(i) == old(arena).live(i),
            forall|i: int|
                old(arena).live(i) ==> final(arena).node(i).strokes@ == old(arena).node(
                    i,
                ).strokes@,
            forall|r: int|
                old(arena).live(r) ==> final(arena).spec_subtree_strokes(r) == old(
                    arena,
                ).spec_subtree_strokes(r),
            final(arena).valid(c),
            final(arena).level(c.idx as int) == old(arena).level(h.idx as int) + 1,
            final(arena).node(c.idx as int).parent == Some(h),
            final(arena).node(c.idx as int).corner == corner,
            final(arena).node(h.idx as int).children@[spec_corner_k(corner)] == Some(c),
            old(arena).node(h.idx as int).children@[spec_corner_k(corner)] matches Some(c0)
                ==> c == c0 && final(arena).same_as(*old(arena)),
            old(arena).node(h.idx as int).children@[spec_corner_k(corner)] is None ==> {
                &&& c.idx as int == old(arena).n()
                &&& final(arena).n() == old(arena).n() + 1
                &&& is_fresh_child(final(arena).node(c.idx as int), h, corner)
                &&& final(arena).node(c.idx as int).neighbors.0 is None
                &&& final(arena).node(c.idx as int).neighbors.1 is None
                &&& (forall|i: int|
                    old(arena).live(i) && i != h.idx as int ==> node_same(
                        final(arena).node(i),
                        old(arena).node(i),
                    ))
                &&& final(arena).node(h.idx as int).children@ == old(arena).node(
                    h.idx as int,
                ).children@.update(spec_corner_k(corner), Some(c))
                &&& final(arena).node(h.idx as int).strokes@ == old(arena).node(
                    h.idx as int,
                ).strokes@
                &&& final(arena).node(h.idx as int).parent == old(arena).node(h.idx as int).parent
                &&& final(arena).node(h.idx as int).corner == old(arena).node(h.idx as int).corner
                &&& final(arena).node(h.idx as int).neighbors == old(arena).node(
                    h.idx as int,
                ).neighbors
            },
    {
        let k = corner_k(corner);
        let existing = arena.slots[h.idx].node.children[k];
        let c = match existing {
            Some(c0) => {
                proof {
                    assert(old(arena).wf_node(h.idx as int));
                    assert(old(arena).wf_child_link(h.idx as int, k as int));
                }
                c0
            },
            None => alloc_child(arena, h, corner),
        };
        proof {
            let pre = *old(arena);
            let post = *arena;
            assert forall|r: int| pre.live(r) implies post.spec_subtree_strokes(r)
                == pre.spec_subtree_strokes(r) by {
                if existing is Some {
                    assert forall|j: int|
                        pre.live(j) && pre.under(j, r) implies post.node(j).strokes@ == pre.node(
                        j,
                    ).strokes@ && post.node(j).children@ == pre.node(j).children@ by {
                        assert(node_same(post.node(j), pre.node(j)));
                    }
                    lemma_subtree_strokes_frame(pre, post, r);
                } else {
                    lemma_subtree_after_attach(pre, post, r, h.idx as int, k as int, c);
                }
            }
        }
        c
    }

    /// The node that the stitching of a new child of `h` at `corner`
    /// links along direction `d`: the mirrored-corner child of `h`'s
    /// resolved neighbor in `d`, when both exist.
    fn stitch_target_of(arena: &Arena, h: Handle, corner: (u8, u8), d: Direction) -> (r: Option<
        Handle,
    >)
        requires
            arena.wf(),
            arena.valid(h),
            corner_ok(corner),
        ensures
            r == arena.spec_stitch_target(h.idx as int, corner, d),
            r matches Some(t) ==> {
                &&& arena.valid(t)
                &&& t != h
                &&& arena.level(t.idx as int) == arena.level(h.idx as int) + 1
                &&& corner_ok(arena.node(t.idx as int).corner)
                &&& (d.spec_is_vertical() ==> arena.node(t.idx as int).corner.0 == corner.0
                    && arena.node(t.idx as int).corner.1 as int == 1 - corner.1 as int)
                &&& (!d.spec_is_vertical() ==> arena.node(t.idx as int).corner.1 == corner.1
                    && arena.node(t.idx as int).corner.0 as int == 1 - corner.0 as int)
                &&& (arena.node(t.idx as int).parent matches Some(p) && arena.live(p.idx as int))
            },
    {
        let nh = DrawNode::get_neighbor(arena, h, d);
        let Some(nb) = nh else { return None };
        let mirror = if d.is_vertical() {
            (corner.0, 1 - corner.1)
        } else {
            (1 - corner.0, corner.1)
        };
        let mk = corner_k(mirror);
        proof {
            assert(mk as int == spec_mirror_k(corner, d));
            assert(arena.wf_node(nb.idx as int));
            assert(arena.wf_child_link(nb.idx as int, mk as int));
        }
        let r = arena.slots[nb.idx].node.children[mk];
        proof {
            if let Some(t) = r {
                assert(arena.wf_node(t.idx as int));
                assert(spec_corner_k(arena.node(t.idx as int).corner) == mk as int);
                assert(corner_ok(arena.node(t.idx as int).corner));
                assert(arena.level(t.idx as int) == arena.level(h.idx as int) + 1);
                assert(t != h);
            }
        }
        r
    }

    /// Install a mutual neighbor link between `a` and `b` along one
    /// axis.
    fn stitch_pair(arena: &mut Arena, a: Handle, b: Handle, vertical: bool)
        requires
            old(arena).wf(),
            old(arena).valid(a),
            old(arena).valid(b),
            a != b,
            old(arena).level(a.idx as int) == old(arena).level(b.idx as int),
            vertical ==> old(arena).node(a.idx as int).corner.0 == old(arena).node(
                b.idx as int,
            ).corner.0 && old(arena).node(a.idx as int).corner.1 as int == 1 - old(arena).node(
                b.idx as int,
            ).corner.1 as int,
            !vertical ==> old(arena).node(a.idx as int).corner.1 == old(arena).node(
                b.idx as int,
            ).corner.1 && old(arena).node(a.idx as int).corner.0 as int == 1 - old(arena).node(
                b.idx as int,
            ).corner.0 as int,
            (old(arena).node(a.idx as int).parent matches Some(p) && old(arena).live(
                p.idx as int,
            )),
            (old(arena).node(b.idx as int).parent matches Some(p) && old(arena).live(
                p.idx as int,
            )),
        ensures
            final(arena).wf(),
            final(arena).n() == old(arena).n(),
            final(arena).levels@ == old(arena).levels@,
            final(arena).min_level() == old(arena).min_level(),
            final(arena).max_level() == old(arena).max_level(),
            forall|i: int| 0 <= i < old(arena).n() ==> final(arena).live(i) == old(arena).live(i),
            forall|i: int|
                old(arena).live(i) && i != a.idx as int && i != b.idx as int ==> node_same(
                    final(arena).node(i),
                    old(arena).node(i),
                ),
            forall|i: int|
                old(arena).live(i) ==> {
                    &&& final(arena).node(i).parent == old(arena).node(i).parent
                    &&& final(arena).node(i).children@ == old(arena).node(i).children@
                    &&& final(arena).node(i).strokes@ == old(arena).node(i).strokes@
                    &&& final(arena).node(i).corner == old(arena).node(i).corner
                },
            vertical ==> {
                &&& final(arena).node(a.idx as int).neighbors == (
                    old(arena).node(a.idx as int).neighbors.0,
                    Some(b),
                )
                &&& final(arena).node(b.idx as int).neighbors == (
                    old(arena).node(b.idx as int).neighbors.0,
                    Some(a),
                )
            },
            !vertical ==> {
                &&& final(arena).node(a.idx as int).neighbors == (
                    Some(b),
                    old(arena).node(a.idx as int).neighbors.1,
                )
                &&& final(arena).node(b.idx as int).neighbors == (
                    Some(a),
                    old(arena).node(b.idx as int).neighbors.1,
                )
            },
    {
        proof {
            assert(old(arena).wf_node(a.idx as int));
            assert(old(arena).wf_node(b.idx as int));
        }
        if vertical {
            arena.slots[a.idx].node.neighbors.1 = Some(b);
            arena.slots[b.idx].node.neighbors.1 = Some(a);
        } else {
            arena.slots[a.idx].node.neighbors.0 = Some(b);
            arena.slots[b.idx].node.neighbors.0 = Some(a);
        }
        proof {
            let post = *arena;
            let pre = *old(arena);
            assert forall|i: int| post.live(i) implies post.wf_node(i) by {
                assert(pre.live(i));
                assert(pre.wf_node(i));
                assert forall|kk: int| 0 <= kk < 4 implies post.wf_child_link(i, kk) by {
                    assert(pre.wf_child_link(i, kk));
                }
                assert(post.wf_parent_link(i)) by {
                    assert(pre.wf_parent_link(i));
                }
                assert(post.wf_neighbor_links(i)) by {
                    assert(pre.wf_neighbor_links(i));
                    if i == a.idx as int || i == b.idx as int {
                        assert(post.node(a.idx as int).parent == pre.node(a.idx as int).parent);
                        assert(post.node(b.idx as int).parent == pre.node(b.idx as int).parent);
                    }
                }
            }
        }
    }

    /// Return the existing child of `h` at `corner`, or create one and
    /// stitch its cross-boundary neighbor links, symmetrically on both
    /// sides, using `h`'s own resolved neighbors.
    pub fn get_or_create_child_from_corner(arena: &mut Arena, h: Handle, corner: (u8, u8)) -> (c:
        Handle)
        requires
            old(arena).wf(),
            old(arena).valid(h),
            corner_ok(corner),
        ensures
            final(arena).wf(),
            final(arena).grows_from(*old(arena)),
            forall|i: int| 0 <= i < old(arena).n() ==> final(arena).live(i) == old(arena).live(i),
            forall|i: int|
                old(arena).live(i) ==> final(arena).node(i).strokes@ == old(arena).node(
                    i,
                ).strokes@,
            forall|r: int|
                old(arena).live(r) ==> final(arena).spec_subtree_strokes(r) == old(
                    arena,
                ).spec_subtree_strokes(r),
            final(arena).valid(c),
            final(arena).level(c.idx as int) == old(arena).level(h.idx as int) + 1,
            final(arena).node(c.idx as int).parent == Some(h),
            final(arena).node(c.idx as int).corner == corner,
            final(arena).node(h.idx as int).children@[spec_corner_k(corner)] == Some(c),
            old(arena).node(h.idx as int).children@[spec_corner_k(corner)] matches Some(c0) ==> c
                == c0 && final(arena).same_as(*old(arena)),
            old(arena).node(h.idx as int).children@[spec_corner_k(corner)] is None ==> {
                &&& c.idx as int == old(arena).n()
                &&& final(arena).n() == old(arena).n() + 1
                &&& is_fresh_child(final(arena).node(c.idx as int), h, corner)
                &&& (forall|i: int|
                    old(arena).live(i) && i != h.idx as int ==> {
                        &&& final(arena).node(i).parent == old(arena).node(i).parent
                        &&& final(arena).node(i).children@ == old(arena).node(i).children@
                        &&& final(arena).node(i).strokes@ == old(arena).node(i).strokes@
                        &&& final(arena).node(i).corner == old(arena).node(i).corner
                    })
                &&& final(arena).node(h.idx as int).children@ == old(arena).node(
                    h.idx as int,
                ).children@.update(spec_corner_k(corner), Some(c))
                &&& final(arena).node(h.idx as int).parent == old(arena).node(h.idx as int).parent
                &&& final(arena).node(h.idx as int).strokes@ == old(arena).node(
                    h.idx as int,
                ).strokes@
                &&& final(arena).node(h.idx as int).corner == old(arena).node(h.idx as int).corner
                &&& final(arena).node(h.idx as int).neighbors == old(arena).node(
                    h.idx as int,
                ).neighbors
                &&& final(arena).node(c.idx as int).neighbors.0 == old(arena).spec_stitch_target(
                    h.idx as int,
                    corner,
                    spec_dir_h(corner),
                )
                &&& final(arena).node(c.idx as int).neighbors.1 == old(arena).spec_stitch_target(
                    h.idx as int,
                    corner,
                    spec_dir_v(corner),
                )
                &&& (final(arena).node(c.idx as int).neighbors.0 matches Some(t)
                    ==> final(arena).node(t.idx as int).neighbors.0 == Some(c))
                &&& (final(arena).node(c.idx as int).neighbors.1 matches Some(t)
                    ==> final(arena).node(t.idx as int).neighbors.1 == Some(c))
                &&& (forall|i: int|
                    old(arena).live(i) && i != h.idx as int && Some(Handle { idx: i as usize })
                        != old(arena).spec_stitch_target(h.idx as int, corner, spec_dir_h(corner))
                        && Some(Handle { idx: i as usize }) != old(arena).spec_stitch_target(
                        h.idx as int,
                        corner,
                        spec_dir_v(corner),
                    ) ==> final(arena).node(i).neighbors == old(arena).node(i).neighbors)
            },
    {
        let k = corner_k(corner);
        let existing = arena.slots[h.idx].node.children[k];
        if let Some(c0) = existing {
            proof {
                assert(old(arena).wf_node(h.idx as int));
                assert(old(arena).wf_child_link(h.idx as int, k as int));
            }
            return c0;
        }
        let ghost pre = *old(arena);
        let ghost hi = h.idx as int;
        let c = alloc_child(arena, h, corner);
        let ghost mid = *arena;
        let dh = if corner.0 == 1 {
            Direction::PosX
        } else {
            Direction::NegX
        };
        let dv = if corner.1 == 1 {
            Direction::PosY
        } else {
            Direction::NegY
        };
        proof {
            assert(pre.live(hi));
            assert(pre.wf_node(hi));
            assert(mid.node(hi).parent == pre.node(hi).parent);
            assert(mid.node(hi).corner == pre.node(hi).corner);
            assert(mid.node(hi).neighbors == pre.node(hi).neighbors);
            assert(mid.spec_neighbor(hi, dh) == pre.spec_neighbor(hi, dh)
                && mid.spec_stitch_target(hi, corner, dh) == pre.spec_stitch_target(hi, corner, dh))
                by {
                lemma_neighbor_unchanged_by_alloc(pre, mid, hi, corner, dh);
            }
            assert(mid.spec_neighbor(hi, dv) == pre.spec_neighbor(hi, dv)
                && mid.spec_stitch_target(hi, corner, dv) == pre.spec_stitch_target(hi, corner, dv))
                by {
                lemma_neighbor_unchanged_by_alloc(pre, mid, hi, corner, dv);
            }
        }
        let th = DrawNode::stitch_target_of(arena, h, corner, dh);
        let tv = DrawNode::stitch_target_of(arena, h, corner, dv);
        if let Some(t) = th {
            proof {
                assert(mid.level(t.idx as int) == mid.level(hi) + 1);
                assert(mid.level(c.idx as int) == mid.level(hi) + 1);
                assert(t.idx as int != hi);
                assert(mid.node(c.idx as int).corner == corner);
                assert(!dh.spec_is_vertical());
                assert(t != c) by {
                    assert(mid.node(t.idx as int).corner.0 as int == 1 - corner.0 as int);
                }
            }
            DrawNode::stitch_pair(arena, c, t, false);
        }
        let ghost mid2 = *arena;
        if let Some(t) = tv {
            proof {
                assert(mid2.live(t.idx as int));
                assert(mid2.live(c.idx as int));
                assert(mid2.node(t.idx as int).corner == mid.node(t.idx as int).corner);
                assert(mid2.node(t.idx as int).parent == mid.node(t.idx as int).parent);
                assert(mid2.node(c.idx as int).corner == corner);
                assert(dv.spec_is_vertical());
                assert(t != c) by {
                    assert(mid.node(t.idx as int).corner.1 as int == 1 - corner.1 as int);
                }
                if let Some(t0) = th {
                    assert(t != t0) by {
                        assert(mid.node(t0.idx as int).corner.0 as int == 1 - corner.0 as int);
                        assert(mid.node(t.idx as int).corner.0 == corner.0);
                    }
                }
                assert(mid2.node(t.idx as int).parent matches Some(p) && mid2.live(p.idx as int))
                    by {
                    assert(mid.node(t.idx as int).parent matches Some(p) && mid.live(
                        p.idx as int,
                    ));
                }
                assert(mid2.node(c.idx as int).parent == Some(h) && mid2.live(hi));
            }
            DrawNode::stitch_pair(arena, c, t, true);
        }
        proof {
            let post = *arena;
            let ci = c.idx as int;
            assert(post.node(ci).neighbors.0 == th);
            assert(post.node(ci).neighbors.1 == tv);
            if let Some(t) = th {
                assert(post.node(t.idx as int).neighbors.0 == Some(c));
            }
            if let Some(t) = tv {
                assert(post.node(t.idx as int).neighbors.1 == Some(c));
            }
            assert(post.node(hi).neighbors == pre.node(hi).neighbors) by {
                assert(hi != ci);
                if let Some(t) = th {
                    assert(hi != t.idx as int);
                }
                if let Some(t) = tv {
                    assert(hi != t.idx as int);
                }
            }
            assert forall|r: int| pre.live(r) implies post.spec_subtree_strokes(r)
                == pre.spec_subtree_strokes(r) by {
                lemma_subtree_after_attach(pre, mid, r, hi, spec_corner_k(corner), c);
                assert forall|j: int|
                    mid.live(j) && mid.under(j, r) implies post.node(j).strokes@ == mid.node(
                    j,
                ).strokes@ && post.node(j).children@ == mid.node(j).children@ by {}
                lemma_subtree_strokes_frame(mid, post, r);
            }
        }
        c
    }

    /// Return `h`'s parent if its weak link resolves; otherwise
    /// synthesize a new structural root one level up, at the antipode
    /// of `h`'s corner, holding `h` in the matching child slot.  Never
    /// fails.
    pub fn get_or_create_parent(arena: &mut Arena, h: Handle) -> (p: Handle)
        requires
            old(arena).wf(),
            old(arena).valid(h),
        ensures
            final(arena).wf(),
            final(arena).grows_from(*old(arena)),
            forall|i: int| 0 <= i < old(arena).n() ==> final(arena).live(i) == old(arena).live(i),
            forall|i: int|
                old(arena).live(i) ==> final(arena).node(i).strokes@ == old(arena).node(
                    i,
                ).strokes@,
            forall|r: int|
                old(arena).live(r) ==> final(arena).spec_subtree_strokes(r) == old(
                    arena,
                ).spec_subtree_strokes(r),
            final(arena).valid(p),
            final(arena).node(h.idx as int).parent == Some(p),
            final(arena).level(p.idx as int) == old(arena).level(h.idx as int) - 1,
            final(arena).node(p.idx as int).children@[spec_corner_k(
                old(arena).node(h.idx as int).corner,
            )] == Some(h),
            (old(arena).node(h.idx as int).parent matches Some(p0) && old(arena).live(
                p0.idx as int,
            )) ==> p == old(arena).node(h.idx as int).parent->Some_0 && final(arena).same_as(
                *old(arena),
            ),
            !(old(arena).node(h.idx as int).parent matches Some(p0) && old(arena).live(
                p0.idx as int,
            )) ==> {
                &&& p.idx as int == old(arena).n()
                &&& final(arena).n() == old(arena).n() + 1
                &&& !old(arena).valid(p)
                &&& final(arena).node(p.idx as int).parent is None
                &&& final(arena).node(p.idx as int).corner.0 as int == 1 - old(arena).node(
                    h.idx as int,
                ).corner.0 as int
                &&& final(arena).node(p.idx as int).corner.1 as int == 1 - old(arena).node(
                    h.idx as int,
                ).corner.1 as int
                &&& final(arena).node(p.idx as int).strokes@.len() == 0
                &&& final(arena).node(p.idx as int).neighbors.0 is None
                &&& final(arena).node(p.idx as int).neighbors.1 is None
                &&& (forall|k: int|
                    0 <= k < 4 && k != spec_corner_k(old(arena).node(h.idx as int).corner)
                        ==> final(arena).node(p.idx as int).children@[k] is None)
                &&& (forall|i: int|
                    old(arena).live(i) && i != h.idx as int ==> node_same(
                        final(arena).node(i),
                        old(arena).node(i),
                    ))
                &&& final(arena).node(h.idx as int).children@ == old(arena).node(
                    h.idx as int,
                ).children@
                &&& final(arena).node(h.idx as int).strokes@ == old(arena).node(
                    h.idx as int,
                ).strokes@
                &&& final(arena).node(h.idx as int).corner == old(arena).node(h.idx as int).corner
                &&& final(arena).node(h.idx as int).neighbors == old(arena).node(
                    h.idx as int,
                ).neighbors
                &&& final(arena).min_level() == (if old(arena).min_level() <= old(arena).level(
                    h.idx as int,
                ) - 1 {
                    old(arena).min_level()
                } else {
                    old(arena).level(h.idx as int) - 1
                })
                &&& final(arena).max_level() == old(arena).max_level()
            },
    {
        let parent_link = arena.slots[h.idx].node.parent;
        if let Some(p0) = parent_link {
            if arena.is_live(p0) {
                proof {
                    assert(old(arena).wf_node(h.idx as int));
                }
                return p0;
            }
        }
        // Synthesize a new root above `h`.
        let corner = arena.slots[h.idx].node.corner;
        let anti = (1 - corner.0, 1 - corner.1);
        proof {
            assert(old(arena).wf_node(h.idx as int));
        }
        let idx = arena.slots.len();
        let mut nd = mk_node(None, anti);
        let k = corner_k(corner);
        nd.children[k] = Some(h);
        arena.slots.push(Slot { live: true, node: nd });
        proof {
            let lp = arena.levels@[h.idx as int] - 1;
            arena.levels@ = arena.levels@.push(lp);
            if arena.min_level@ > lp {
                arena.min_level@ = lp;
            }
        }
        let p = Handle { idx };
        arena.slots[h.idx].node.parent = Some(p);
        proof {
            let post = *arena;
            let pre = *old(arena);
            let hi = h.idx as int;
            assert forall|i: int| post.live(i) implies post.wf_node(i) by {
                if i < pre.n() {
                    assert(pre.live(i));
                    assert(pre.wf_node(i));
                    if i != hi {
                        assert(node_same(post.node(i), pre.node(i)));
                    }
                    assert forall|kk: int| 0 <= kk < 4 implies post.wf_child_link(i, kk) by {
                        assert(pre.wf_child_link(i, kk));
                        if let Some(cc) = post.node(i).children@[kk] {
                            assert(cc == pre.node(i).children@[kk]->Some_0);
                            assert(cc.idx as int != idx as int);
                            if cc.idx as int == hi {
                                assert(post.node(hi).corner == pre.node(hi).corner);
                            }
                        }
                    }
                    assert(post.wf_parent_link(i)) by {
                        assert(pre.wf_parent_link(i));
                        if i == hi {
                            assert(post.node(hi).parent == Some(p));
                            assert(post.node(idx as int).children@[spec_corner_k(
                                post.node(hi).corner,
                            )] == Some(h));
                        }
                    }
                    assert(post.wf_neighbor_links(i)) by {
                        assert(pre.wf_neighbor_links(i));
                        if i == hi {
                            // Any resolvable neighbor of `h` required a live
                            // parent before, contradicting this branch; so
                            // `h` has no resolvable neighbor links.
                            if let Some(m) = post.node(hi).neighbors.0 {
                                if post.live(m.idx as int) {
                                    assert(pre.live(m.idx as int));
                                    assert(false);
                                }
                            }
                            if let Some(m) = post.node(hi).neighbors.1 {
                                if post.live(m.idx as int) {
                                    assert(pre.live(m.idx as int));
                                    assert(false);
                                }
                            }
                        }
                    }
                } else {
                    assert(i == idx as int);
                    assert forall|kk: int| 0 <= kk < 4 implies post.wf_child_link(i, kk) by {
                        if kk != k as int {
                            assert(post.node(i).children@[kk] is None);
                        } else {
                            assert(post.node(i).children@[kk] == Some(h));
                        }
                    }
                    assert(post.wf_parent_link(i));
                    assert(post.wf_neighbor_links(i));
                }
            }
            assert forall|r: int| pre.live(r) implies post.spec_subtree_strokes(r)
                == pre.spec_subtree_strokes(r) by {
                assert forall|j: int|
                    pre.live(j) && pre.under(j, r) implies post.node(j).strokes@ == pre.node(
                    j,
                ).strokes@ && post.node(j).children@ == pre.node(j).children@ by {
                    if j != hi {
                        assert(node_same(post.node(j), pre.node(j)));
                    }
                }
                lemma_subtree_strokes_frame(pre, post, r);
            }
        }
        p
    }

    /// The neighbor of `h` in `direction`, as far as it resolves: the
    /// mirrored-corner sibling within the parent when `h` faces away
    /// from `direction`, else whatever the cached weak link resolves
    /// to.  Absence is never an error.
    pub fn get_neighbor(arena: &Arena, h: Handle, direction: Direction) -> (r: Option<Handle>)
        requires
            arena.wf(),
            arena.valid(h),
        ensures
            r == arena.spec_neighbor(h.idx as int, direction),
            r matches Some(m) ==> arena.valid(m) && arena.level(m.idx as int) == arena.level(
                h.idx as int,
            ),
    {
        proof {
            assert(arena.wf_node(h.idx as int));
        }
        let corner = arena.slots[h.idx].node.corner;
        let away = if direction.is_vertical() {
            (corner.1 == 1) != direction.is_positive()
        } else {
            (corner.0 == 1) != direction.is_positive()
        };
        if away {
            let parent_link = arena.slots[h.idx].node.parent;
            let Some(p) = parent_link else { return None };
            if !arena.is_live(p) {
                return None;
            }
            let mk = if direction.is_vertical() {
                2 * (1 - corner.1 as usize) + corner.0 as usize
            } else {
                2 * (corner.1 as usize) + (1 - corner.0 as usize)
            };
            let r = arena.slots[p.idx].node.children[mk];
            proof {
                assert(arena.wf_node(p.idx as int));
                assert(arena.wf_child_link(p.idx as int, mk as int));
            }
            r
        } else {
            let l = if direction.is_vertical() {
                arena.slots[h.idx].node.neighbors.1
            } else {
                arena.slots[h.idx].node.neighbors.0
            };
            let Some(m) = l else { return None };
            if arena.is_live(m) {
                Some(m)
            } else {
                None
            }
        }
    }

    /// Like `get_neighbor`, but guarantees a result: ensures a parent
    /// exists, then either creates the mirrored-corner sibling within
    /// it directly (the cheap path), or recursively obtains the
    /// parent's neighbor and descends into its mirrored-corner child,
    /// caching the result symmetrically as a weak neighbor pair on
    /// both sides.
    pub fn get_or_create_neighbor(arena: &mut Arena, h: Handle, direction: Direction) -> (r:
        Handle)
        requires
            old(arena).wf(),
            old(arena).valid(h),
        ensures
            final(arena).wf(),
            final(arena).grows_from(*old(arena)),
            forall|i: int| 0 <= i < old(arena).n() ==> final(arena).live(i) == old(arena).live(i),
            forall|i: int|
                old(arena).live(i) ==> final(arena).node(i).strokes@ == old(arena).node(
                    i,
                ).strokes@,
            forall|r: int|
                old(arena).live(r) ==> final(arena).spec_subtree_strokes(r) == old(
                    arena,
                ).spec_subtree_strokes(r),
            forall|i: int|
                old(arena).live(i) ==> final(arena).node(i).corner == old(arena).node(i).corner,
            forall|i: int|
                old(arena).live(i) && (old(arena).node(i).parent matches Some(q)
                    && old(arena).live(q.idx as int)) ==> final(arena).node(i).parent == old(
                    arena,
                ).node(i).parent,
            final(arena).valid(r),
            final(arena).level(r.idx as int) == old(arena).level(h.idx as int),
            final(arena).spec_neighbor(h.idx as int, direction) == Some(r),
            old(arena).spec_neighbor(h.idx as int, direction) matches Some(r0) ==> r == r0
                && final(arena).same_as(*old(arena)),
            old(arena).spec_neighbor(h.idx as int, direction) is None ==> final(arena).spec_neighbor(r.idx as int, spec_opposite(direction)) == Some(h),
        decreases
                old(arena).level(h.idx as int) - old(arena).min_level(),
                (if spec_faces_away(old(arena).node(h.idx as int).corner, direction) {
                    0int
                } else {
                    1int
                }),
    {
        let ghost pre = *arena;
        let ghost hi = h.idx as int;
        proof {
            assert(pre.wf_node(hi));
        }
        let corner = arena.slots[h.idx].node.corner;
        let p = DrawNode::get_or_create_parent(arena, h);
        let ghost mid = *arena;
        let ghost had_parent = pre.node(hi).parent matches Some(p0) && pre.live(p0.idx as int);
        proof {
            if had_parent {
                assert(mid.same_as(pre));
            }
            assert(mid.node(hi).corner == corner);
            assert(mid.node(hi).neighbors == pre.node(hi).neighbors);
            assert(mid.level(hi) == pre.level(hi));
            assert(mid.level(p.idx as int) == pre.level(hi) - 1);
        }
        let away = if direction.is_vertical() {
            (corner.1 == 1) != direction.is_positive()
        } else {
            (corner.0 == 1) != direction.is_positive()
        };
        if away {
            // The neighbor is the mirrored-corner sibling in the same
            // parent: create it there if absent.
            let mirror = if direction.is_vertical() {
                (corner.0, 1 - corner.1)
            } else {
                (1 - corner.0, corner.1)
            };
            let sib = DrawNode::get_or_create_child_from_corner(arena, p, mirror);
            proof {
                let post = *arena;
                assert(spec_corner_k(mirror) == spec_mirror_k(corner, direction));
                assert(post.node(hi).parent == Some(p)) by {
                    assert(hi != p.idx as int) by {
                        assert(mid.level(p.idx as int) == mid.level(hi) - 1);
                    }
                }
                assert(post.node(hi).corner == corner);
                assert(post.spec_neighbor(hi, direction) == Some(sib));
                assert(post.level(sib.idx as int) == pre.level(hi));
                if let Some(r0) = pre.spec_neighbor(hi, direction) {
                    assert(had_parent);
                    assert(pre.node(hi).parent == Some(p));
                    assert(mid.node(p.idx as int).children@[spec_corner_k(mirror)] == Some(r0));
                    assert(sib == r0 && post.same_as(mid));
                    assert(post.same_as(pre));
                }
                assert forall|i: int| pre.live(i) implies post.node(i).corner == pre.node(
                    i,
                ).corner by {
                    assert(mid.node(i).corner == pre.node(i).corner);
                    assert(mid.live(i));
                }
                assert forall|i: int|
                    pre.live(i) && (pre.node(i).parent matches Some(q) && pre.live(
                        q.idx as int,
                    )) implies post.node(i).parent == pre.node(i).parent by {
                    assert(mid.node(i).parent == pre.node(i).parent);
                    assert(mid.live(i));
                    if i != p.idx as int {
                        assert(post.node(i).parent == mid.node(i).parent);
                    }
                }
                assert forall|r: int| pre.live(r) implies post.spec_subtree_strokes(r)
                    == pre.spec_subtree_strokes(r) by {
                    assert(mid.live(r));
                    assert(mid.spec_subtree_strokes(r) == pre.spec_subtree_strokes(r));
                    assert(post.spec_subtree_strokes(r) == mid.spec_subtree_strokes(r));
                }
            }
            sib
        } else {
            // The cached cross-boundary link, if it still resolves.
            let link = if direction.is_vertical() {
                arena.slots[h.idx].node.neighbors.1
            } else {
                arena.slots[h.idx].node.neighbors.0
            };
            if let Some(m) = link {
                if arena.is_live(m) {
                    proof {
                        assert(mid.spec_neighbor(hi, direction) == Some(m));
                        assert((m.idx as int) < pre.n());
                        assert(pre.live(m.idx as int));
                        assert(pre.spec_neighbor(hi, direction) == Some(m));
                        // A resolvable link implies the parent resolved,
                        // so nothing was created above.
                        assert(pre.node(hi).neighbors == mid.node(hi).neighbors);
                        assert(had_parent) by {
                            assert(pre.wf_neighbor_links(hi));
                        }
                        assert(mid.same_as(pre));
                        assert(mid.level(m.idx as int) == pre.level(hi)) by {
                            assert(pre.wf_neighbor_links(hi));
                        }
                    }
                    return m;
                }
            }
            // Stale or absent: go through the parent's neighbor and
            // descend into its mirrored-corner child.
            proof {
                // Termination: one level up, and if the level bound had
                // to widen, the fresh parent faces away.
                assert(mid.wf_node(p.idx as int));
                assert(0 <= mid.level(p.idx as int) - mid.min_level());
                if had_parent {
                    assert(mid.min_level() == pre.min_level());
                    assert(mid.level(p.idx as int) - mid.min_level() < pre.level(hi)
                        - pre.min_level());
                } else {
                    assert(mid.node(p.idx as int).corner.0 as int == 1 - corner.0 as int);
                    assert(mid.node(p.idx as int).corner.1 as int == 1 - corner.1 as int);
                    assert(spec_faces_away(mid.node(p.idx as int).corner, direction));
                    if pre.min_level() <= pre.level(hi) - 1 {
                        assert(mid.level(p.idx as int) - mid.min_level() < pre.level(hi)
                            - pre.min_level());
                    } else {
                        assert(pre.min_level() == pre.level(hi));
                        assert(mid.level(p.idx as int) - mid.min_level() == pre.level(hi)
                            - pre.min_level());
                    }
                }
            }
            let pn = DrawNode::get_or_create_neighbor(arena, p, direction);
            let ghost mid2 = *arena;
            let mirror = if direction.is_vertical() {
                (corner.0, 1 - corner.1)
            } else {
                (1 - corner.0, corner.1)
            };
            let nb = DrawNode::get_or_create_neighborless_child_from_corner(arena, pn, mirror);
            let ghost mid3 = *arena;
            proof {
                assert(mid3.valid(h)) by {
                    assert(mid2.live(hi));
                }
                assert(mid3.level(nb.idx as int) == pre.level(hi)) by {
                    assert(mid2.level(pn.idx as int) == mid.level(p.idx as int));
                }
                assert(mid3.node(nb.idx as int).corner == mirror);
                assert(mid3.node(hi).corner == corner);
                assert(nb != h) by {
                    if direction.spec_is_vertical() {
                        assert(mirror.1 as int == 1 - corner.1 as int);
                    } else {
                        assert(mirror.0 as int == 1 - corner.0 as int);
                    }
                }
                assert(mid3.node(hi).parent == Some(p) && mid3.live(p.idx as int)) by {
                    assert(mid2.node(hi).parent == mid.node(hi).parent);
                    assert(mid3.node(hi).parent == mid2.node(hi).parent);
                }
                assert(mid3.node(nb.idx as int).parent == Some(pn) && mid3.live(pn.idx as int));
            }
            DrawNode::stitch_pair(arena, h, nb, direction.is_vertical());
            proof {
                let post = *arena;
                assert(post.node(hi).corner == corner);
                if direction.spec_is_vertical() {
                    assert(post.node(hi).neighbors.1 == Some(nb));
                } else {
                    assert(post.node(hi).neighbors.0 == Some(nb));
                }
                assert(post.spec_neighbor(hi, direction) == Some(nb));
                assert(post.level(nb.idx as int) == pre.level(hi));
                assert(pre.spec_neighbor(hi, direction) is None) by {
                    if let Some(m) = (if direction.spec_is_vertical() {
                        pre.node(hi).neighbors.1
                    } else {
                        pre.node(hi).neighbors.0
                    }) {
                        assert((m.idx as int) < pre.n()) by {
                            assert(pre.wf_neighbor_links(hi));
                        }
                    }
                }
                assert forall|i: int| pre.live(i) implies post.node(i).corner == pre.node(
                    i,
                ).corner by {
                    assert(mid.node(i).corner == pre.node(i).corner);
                    assert(mid.live(i));
                    assert(mid2.node(i).corner == mid.node(i).corner);
                    assert(mid2.live(i));
                    assert(mid3.node(i).corner == mid2.node(i).corner);
                    assert(mid3.live(i));
                    assert(post.node(i).corner == mid3.node(i).corner);
                }
                assert forall|i: int|
                    pre.live(i) && (pre.node(i).parent matches Some(q) && pre.live(
                        q.idx as int,
                    )) implies post.node(i).parent == pre.node(i).parent by {
                    let q = pre.node(i).parent->Some_0;
                    assert(mid.node(i).parent == pre.node(i).parent);
                    assert(mid.live(i) && mid.live(q.idx as int));
                    assert(mid2.node(i).parent == mid.node(i).parent);
                    assert(mid2.live(i));
                    assert(mid3.node(i).parent == mid2.node(i).parent);
                    assert(mid3.live(i));
                    assert(post.node(i).parent == mid3.node(i).parent);
                }
                assert forall|i: int|
                    pre.live(i) implies post.node(i).strokes@ == pre.node(i).strokes@ by {
                    assert(mid.node(i).strokes@ == pre.node(i).strokes@);
                    assert(mid.live(i));
                    assert(mid2.node(i).strokes@ == mid.node(i).strokes@);
                    assert(mid2.live(i));
                    assert(mid3.node(i).strokes@ == mid2.node(i).strokes@);
                    assert(mid3.live(i));
                    assert(post.node(i).strokes@ == mid3.node(i).strokes@);
                }
                assert forall|r: int| pre.live(r) implies post.spec_subtree_strokes(r)
                    == pre.spec_subtree_strokes(r) by {
                    assert(mid.spec_subtree_strokes(r) == pre.spec_subtree_strokes(r));
                    assert(mid.live(r));
                    assert(mid2.spec_subtree_strokes(r) == mid.spec_subtree_strokes(r));
                    assert(mid2.live(r));
                    assert(mid3.spec_subtree_strokes(r) == mid2.spec_subtree_strokes(r));
                    assert(mid3.live(r));
                    assert forall|j: int|
                        mid3.live(j) && mid3.under(j, r) implies post.node(j).strokes@
                        == mid3.node(j).strokes@ && post.node(j).children@ == mid3.node(
                        j,
                    ).children@ by {}
                    lemma_subtree_strokes_frame(mid3, post, r);
                }
            }
            nb
        }
    }

    /// Append one primitive, with its paint-order tag, directly to
    /// `h`'s stroke list.
    pub fn append_stroke(arena: &mut Arena, h: Handle, line: Line, order: u32)
        requires
            old(arena).wf(),
            old(arena).valid(h),
        ensures
            final(arena).wf(),
            final(arena).n() == old(arena).n(),
            final(arena).levels@ == old(arena).levels@,
            final(arena).min_level() == old(arena).min_level(),
            final(arena).max_level() == old(arena).max_level(),
            forall|i: int| 0 <= i < old(arena).n() ==> final(arena).live(i) == old(arena).live(i),
            forall|i: int|
                old(arena).live(i) && i != h.idx as int ==> node_same(
                    final(arena).node(i),
                    old(arena).node(i),
                ),
            final(arena).node(h.idx as int).strokes@ == old(arena).node(
                h.idx as int,
            ).strokes@.push((line, order)),
            final(arena).node(h.idx as int).children@ == old(arena).node(h.idx as int).children@,
            final(arena).node(h.idx as int).parent == old(arena).node(h.idx as int).parent,
            final(arena).node(h.idx as int).corner == old(arena).node(h.idx as int).corner,
            final(arena).node(h.idx as int).neighbors == old(arena).node(h.idx as int).neighbors,
    {
        proof {
            assert(old(arena).wf_node(h.idx as int));
        }
        arena.slots[h.idx].node.strokes.push((line, order));
        proof {
            let pre = *old(arena);
            let post = *arena;
            assert forall|i: int| post.live(i) implies post.wf_node(i) by {
                assert(pre.live(i));
                assert(pre.wf_node(i));
                assert forall|kk: int| 0 <= kk < 4 implies post.wf_child_link(i, kk) by {
                    assert(pre.wf_child_link(i, kk));
                }
                assert(post.wf_parent_link(i)) by {
                    assert(pre.wf_parent_link(i));
                }
                assert(post.wf_neighbor_links(i)) by {
                    assert(pre.wf_neighbor_links(i));
                }
            }
        }
    }

    /// If `h` has no children, no strokes, and a resolvable parent,
    /// detach it from the parent's child slot and free it.  No
    /// automatic cascade to the parent.
    pub fn try_cleanup(arena: &mut Arena, h: Handle)
        requires
            old(arena).wf(),
            old(arena).valid(h),
        ensures
            final(arena).wf(),
            cleanup_rel(*old(arena), *final(arena), h),
            forall|r: int|
                old(arena).live(r) && final(arena).live(r) ==> final(arena).spec_subtree_strokes(r) == old(arena).spec_subtree_strokes(r),
            final(arena).n() == old(arena).n(),
            final(arena).levels@ == old(arena).levels@,
            final(arena).min_level() == old(arena).min_level(),
            final(arena).max_level() == old(arena).max_level(),
            !old(arena).cleanable(h.idx as int) ==> final(arena).same_as(*old(arena)),
            old(arena).cleanable(h.idx as int) ==> {
                &&& !final(arena).valid(h)
                &&& (forall|i: int|
                    0 <= i < old(arena).n() && i != h.idx as int ==> final(arena).live(i) == old(
                        arena,
                    ).live(i))
                &&& (forall|i: int|
                    old(arena).live(i) && i != h.idx as int && !(old(arena).node(
                        h.idx as int,
                    ).parent matches Some(pp) && pp.idx as int == i) ==> node_same(
                        final(arena).node(i),
                        old(arena).node(i),
                    ))
                &&& (old(arena).node(h.idx as int).parent matches Some(p) ==> {
                    &&& final(arena).node(p.idx as int).children@ == old(arena).node(
                        p.idx as int,
                    ).children@.update(
                        spec_corner_k(old(arena).node(h.idx as int).corner),
                        None,
                    )
                    &&& final(arena).node(p.idx as int).parent == old(arena).node(
                        p.idx as int,
                    ).parent
                    &&& final(arena).node(p.idx as int).strokes@ == old(arena).node(
                        p.idx as int,
                    ).strokes@
                    &&& final(arena).node(p.idx as int).corner == old(arena).node(
                        p.idx as int,
                    ).corner
                    &&& final(arena).node(p.idx as int).neighbors == old(arena).node(
                        p.idx as int,
                    ).neighbors
                })
            },
    {
        proof {
            assert(old(arena).wf_node(h.idx as int));
        }
        let c0 = arena.slots[h.idx].node.children[0].is_some();
        let c1 = arena.slots[h.idx].node.children[1].is_some();
        let c2 = arena.slots[h.idx].node.children[2].is_some();
        let c3 = arena.slots[h.idx].node.children[3].is_some();
        let has_any = c0 || c1 || c2 || c3;
        if has_any {
            return ;
        }
        if arena.slots[h.idx].node.strokes.len() > 0 {
            return ;
        }
        let parent_link = arena.slots[h.idx].node.parent;
        let Some(p) = parent_link else { return };
        if !arena.is_live(p) {
            return ;
        }
        let corner = arena.slots[h.idx].node.corner;
        let k = corner_k(corner);
        proof {
            assert(old(arena).wf_parent_link(h.idx as int));
            assert(old(arena).level(p.idx as int) == old(arena).level(h.idx as int) - 1);
        }
        arena.slots[p.idx].node.children[k] = None;
        arena.slots[h.idx].live = false;
        proof {
            let post = *arena;
            let pre = *old(arena);
            let hi = h.idx as int;
            let pi = p.idx as int;
            assert(pi != hi);
            assert forall|i: int| post.live(i) implies post.wf_node(i) by {
                assert(pre.live(i));
                assert(pre.wf_node(i));
                assert(i != hi);
                if i != pi {
                    assert(node_same(post.node(i), pre.node(i)));
                }
                assert forall|kk: int| 0 <= kk < 4 implies post.wf_child_link(i, kk) by {
                    assert(pre.wf_child_link(i, kk));
                    if let Some(cc) = post.node(i).children@[kk] {
                        assert(pre.node(i).children@[kk] == Some(cc));
                        if cc.idx as int == hi {
                            // Only `p`'s slot `k` held `h`, and that slot
                            // was just cleared.
                            assert(pre.node(hi).parent matches Some(q) && q.idx as int == i);
                            assert(i == pi && kk == k as int);
                            assert(false);
                        }
                        assert(post.live(cc.idx as int));
                        if cc.idx as int == pi {
                            assert(post.node(pi).parent == pre.node(pi).parent);
                            assert(post.node(pi).corner == pre.node(pi).corner);
                        }
                    }
                }
                assert(post.wf_parent_link(i)) by {
                    assert(pre.wf_parent_link(i));
                    if let Some(q) = post.node(i).parent {
                        if post.live(q.idx as int) {
                            assert(pre.live(q.idx as int));
                            if q.idx as int == pi {
                                let ck = spec_corner_k(post.node(i).corner);
                                assert(pre.node(pi).children@[ck] matches Some(cc) && cc.idx as int
                                    == i);
                                assert(ck != k as int);
                            }
                        }
                    }
                }
                assert(post.wf_neighbor_links(i)) by {
                    assert(pre.wf_neighbor_links(i));
                    if let Some(m) = post.node(i).neighbors.0 {
                        if post.live(m.idx as int) {
                            assert(pre.live(m.idx as int));
                        }
                    }
                    if let Some(m) = post.node(i).neighbors.1 {
                        if post.live(m.idx as int) {
                            assert(pre.live(m.idx as int));
                        }
                    }
                }
            }
            assert forall|r: int| pre.live(r) && post.live(r) implies post.spec_subtree_strokes(
                r,
            ) == pre.spec_subtree_strokes(r) by {
                assert(r != hi);
                lemma_subtree_after_detach(pre, post, r, pi, k as int);
            }
        }
    }

    /// Walk parent links upward from `h` until none resolves,
    /// appending each node's corner to `path` on the way: the result is
    /// the structural root together with a corner path that descends
    /// back to `h`.
    pub fn get_top_level_and_path(arena: &Arena, path: Vec<(u8, u8)>, h: Handle) -> (r: (
        Handle,
        Vec<(u8, u8)>,
    ))
        requires
            arena.wf(),
            arena.valid(h),
        ensures
            arena.valid(r.0),
            arena.is_root(r.0.idx as int),
            r.1@.len() >= path@.len(),
            r.1@.subrange(0, path@.len() as int) == path@,
            arena.spec_descend(r.0.idx as int, r.1@.skip(path@.len() as int)) == Some(
                h.idx as int,
            ),
        decreases arena.level(h.idx as int) - arena.min_level(),
    {
        proof {
            assert(arena.wf_node(h.idx as int));
        }
        let parent_link = arena.slots[h.idx].node.parent;
        if let Some(p) = parent_link {
            if arena.is_live(p) {
                let corner = arena.slots[h.idx].node.corner;
                let mut path2 = path;
                let ghost path0 = path2@;
                path2.push(corner);
                proof {
                    assert(arena.level(p.idx as int) == arena.level(h.idx as int) - 1);
                    assert(arena.min_level() <= arena.level(p.idx as int)) by {
                        assert(arena.wf_node(p.idx as int));
                    }
                }
                let r = DrawNode::get_top_level_and_path(arena, path2, p);
                proof {
                    let n0 = path0.len() as int;
                    assert(r.1@.subrange(0, n0 + 1) == path0.push(corner));
                    assert(r.1@.subrange(0, n0) =~= path0) by {
                        assert forall|x: int| 0 <= x < n0 implies r.1@.subrange(0, n0)[x]
                            == path0[x] by {
                            assert(r.1@.subrange(0, n0 + 1)[x] == path0.push(corner)[x]);
                        }
                    }
                    assert(r.1@.skip(n0) =~= seq![corner] + r.1@.skip(n0 + 1)) by {
                        assert(r.1@.subrange(0, n0 + 1)[n0] == path0.push(corner)[n0]);
                        assert(r.1@[n0] == corner);
                    }
                    lemma_descend_prepend(*arena, r.0.idx as int, corner, r.1@.skip(n0 + 1));
                    assert(arena.spec_descend(r.0.idx as int, r.1@.skip(n0 + 1)) == Some(
                        p.idx as int,
                    ));
                    assert(arena.node(p.idx as int).children@[spec_corner_k(corner)] == Some(h))
                        by {
                        assert(arena.wf_parent_link(h.idx as int));
                    }
                    assert(arena.spec_descend(r.0.idx as int, r.1@.skip(n0)) == Some(
                        h.idx as int,
                    ));
                }
                return r;
            }
        }
        proof {
            assert(arena.spec_descend(h.idx as int, path@.skip(path@.len() as int)) == Some(
                h.idx as int,
            )) by {
                assert(path@.skip(path@.len() as int) =~= Seq::<(u8, u8)>::empty());
            }
            assert(path@.subrange(0, path@.len() as int) =~= path@);
        }
        (h, path)
    }

    /// Re-descend a recorded corner path from `h`, consuming it from
    /// the end; `None` when some step of the path finds no child.
    pub fn try_follow_path(arena: &Arena, h: Handle, path: &mut Vec<(u8, u8)>) -> (r: Option<
        Handle,
    >)
        requires
            arena.wf(),
            arena.valid(h),
        ensures
            match arena.spec_descend(h.idx as int, old(path)@) {
                Some(j) => r matches Some(rr) && rr.idx as int == j && arena.live(j)
                    && final(path)@.len() == 0,
                None => r is None,
            },
        decreases old(path)@.len(),
    {
        let popped = path.pop();
        match popped {
            None => Some(h),
            Some(c) => {
                if !(c.0 <= 1 && c.1 <= 1) {
                    return None;
                }
                let k = corner_k(c);
                proof {
                    assert(arena.wf_node(h.idx as int));
                }
                let ch = arena.slots[h.idx].node.children[k];
                match ch {
                    None => None,
                    Some(chh) => {
                        proof {
                            assert(arena.wf_child_link(h.idx as int, k as int));
                        }
                        DrawNode::try_follow_path(arena, chh, path)
                    },
                }
            },
        }
    }

    /// Re-descend a recorded corner path from `h`.  The path must be
    /// known to lead through existing children; `try_follow_path` is
    /// the checked form for untrusted paths.
    pub fn follow_path(arena: &Arena, h: Handle, path: &mut Vec<(u8, u8)>) -> (r: Handle)
        requires
            arena.wf(),
            arena.valid(h),
            arena.spec_descend(h.idx as int, old(path)@) is Some,
        ensures
            r.idx as int == arena.spec_descend(h.idx as int, old(path)@)->Some_0,
            arena.valid(r),
            final(path)@.len() == 0,
    {
        let rr = DrawNode::try_follow_path(arena, h, path);
        match rr {
            Some(r) => r,
            None => unreached(),
        }
    }
}

/// A collected primitive together with its placement: the corner path
/// that descends from the queried root to the node that stores it
/// (the node's square is the root's, halved once per path entry and
/// offset into the named quadrants).
pub struct PlacedStroke {
    pub line: Line,
    pub order: u32,
    pub path: Vec<(u8, u8)>,
}

/// The corner of child slot `k`.
pub open spec fn spec_corner_of_k(k: int) -> (u8, u8) {
    if k == 0 {
        (0u8, 0u8)
    } else if k == 1 {
        (1u8, 0u8)
    } else if k == 2 {
        (0u8, 1u8)
    } else {
        (1u8, 1u8)
    }
}

impl Arena {
    /// The placed traversal of the subtree at `i`: every primitive in
    /// traversal order, each with the corner path from the subtree
    /// root down to its storing node.
    pub open spec fn spec_subtree_placed(self, i: int, prefix: Seq<(u8, u8)>) -> Seq<
        (Line, u32, Seq<(u8, u8)>),
    >
        decreases (if self.wf() && self.live(i) {
            self.max_level() - self.level(i)
        } else {
            0
        }),
        via Self::subtree_placed_decreases
    {
        if self.wf() && self.live(i) {
            Seq::new(
                self.node(i).strokes@.len(),
                |k: int| (self.node(i).strokes@[k].0, self.node(i).strokes@[k].1, prefix),
            ) + (match self.node(i).children@[0] {
                Some(c) => self.spec_subtree_placed(c.idx as int, prefix.push(spec_corner_of_k(0))),
                None => Seq::empty(),
            }) + (match self.node(i).children@[1] {
                Some(c) => self.spec_subtree_placed(c.idx as int, prefix.push(spec_corner_of_k(1))),
                None => Seq::empty(),
            }) + (match self.node(i).children@[2] {
                Some(c) => self.spec_subtree_placed(c.idx as int, prefix.push(spec_corner_of_k(2))),
                None => Seq::empty(),
            }) + (match self.node(i).children@[3] {
                Some(c) => self.spec_subtree_placed(c.idx as int, prefix.push(spec_corner_of_k(3))),
                None => Seq::empty(),
            })
        } else {
            Seq::empty()
        }
    }

    #[via_fn]
    proof fn subtree_placed_decreases(self, i: int, prefix: Seq<(u8, u8)>) {
        if self.wf() && self.live(i) {
            assert(self.wf_node(i));
            assert forall|k: int| 0 <= k < 4 implies (match #[trigger] self.node(
                i,
            ).children@[k] {
                Some(c) => self.live(c.idx as int) && self.level(c.idx as int) == self.level(i)
                    + 1 && self.level(c.idx as int) <= self.max_level(),
                None => true,
            }) by {
                assert(self.wf_child_link(i, k));
                if let Some(c) = self.node(i).children@[k] {
                    assert(self.wf_node(c.idx as int));
                }
            }
        }
    }
}

/// An exact copy of a corner path.
fn copy_corners(v: &Vec<(u8, u8)>) -> (r: Vec<(u8, u8)>)
    ensures
        r@ == v@,
{
    let mut r: Vec<(u8, u8)> = Vec::new();
    let mut i: usize = 0;
    while i < v.len()
        invariant
            i <= v@.len(),
            r@ == v@.subrange(0, i as int),
        decreases v@.len() - i,
    {
        r.push(v[i]);
        proof {
            assert(r@ =~= v@.subrange(0, i + 1 as int));
        }
        i += 1;
    }
    proof {
        assert(r@ =~= v@);
    }
    r
}

/// Append the placed traversal of `h` to `out`, with `prefix` as the
/// path down to `h`; `prefix` is handed back unchanged.
#[verifier::loop_isolation(false)]
fn collect_placed(arena: &Arena, h: Handle, prefix: &mut Vec<(u8, u8)>, out: &mut Vec<PlacedStroke>)
    requires
        arena.wf(),
        arena.valid(h),
    ensures
        final(prefix)@ == old(prefix)@,
        final(out)@.len() == old(out)@.len() + arena.spec_subtree_placed(
            h.idx as int,
            old(prefix)@,
        ).len(),
        forall|i: int| 0 <= i < old(out)@.len() ==> #[trigger] final(out)@[i] == old(out)@[i],
        forall|i: int|
            0 <= i < arena.spec_subtree_placed(h.idx as int, old(prefix)@).len() ==> {
                let e = #[trigger] final(out)@[old(out)@.len() + i];
                (e.line, e.order, e.path@) == arena.spec_subtree_placed(
                    h.idx as int,
                    old(prefix)@,
                )[i]
            },
    decreases arena.max_level() - arena.level(h.idx as int),
{
    let ghost hi = h.idx as int;
    let ghost pfx = prefix@;
    let ghost base = out@.len() as int;
    proof {
        assert(arena.wf_node(hi));
    }
    let sn = arena.slots[h.idx].node.strokes.len();
    let mut si: usize = 0;
    while si < sn
        invariant
            arena.wf(),
            arena.valid(h),
            hi == h.idx as int,
            pfx == prefix@,
            sn == arena.node(hi).strokes@.len(),
            si <= sn,
            out@.len() == base + si as int,
            forall|i: int| 0 <= i < base ==> #[trigger] out@[i] == old(out)@[i],
            forall|i: int|
                0 <= i < si as int ==> {
                    let e = #[trigger] out@[base + i];
                    (e.line, e.order, e.path@) == (
                        arena.node(hi).strokes@[i].0,
                        arena.node(hi).strokes@[i].1,
                        pfx,
                    )
                },
        decreases sn - si,
    {
        let (l, o) = arena.slots[h.idx].node.strokes[si];
        out.push(PlacedStroke { line: l, order: o, path: copy_corners(prefix) });
        si += 1;
    }
    let ghost seg0 = Seq::new(
        arena.node(hi).strokes@.len(),
        |k: int| (arena.node(hi).strokes@[k].0, arena.node(hi).strokes@[k].1, pfx),
    );
    let ghost sub = Seq::new(4, |kk: int| match arena.node(hi).children@[kk] {
        Some(c) => arena.spec_subtree_placed(c.idx as int, pfx.push(spec_corner_of_k(kk))),
        None => Seq::empty(),
    });
    let mut k: usize = 0;
    while k < 4
        invariant
            arena.wf(),
            arena.valid(h),
            hi == h.idx as int,
            pfx == prefix@,
            arena.node(hi).children@.len() == 4,
            k <= 4,
            seg0 == Seq::new(
                arena.node(hi).strokes@.len(),
                |kx: int| (arena.node(hi).strokes@[kx].0, arena.node(hi).strokes@[kx].1, pfx),
            ),
            sub == Seq::new(4, |kk: int| match arena.node(hi).children@[kk] {
                Some(c) => arena.spec_subtree_placed(c.idx as int, pfx.push(spec_corner_of_k(kk))),
                None => Seq::empty(),
            }),
            out@.len() == base + seg0.len() + (if k >= 1 {
                sub[0].len()
            } else {
                0
            }) + (if k >= 2 {
                sub[1].len()
            } else {
                0
            }) + (if k >= 3 {
                sub[2].len()
            } else {
                0
            }) + (if k >= 4 {
                sub[3].len()
            } else {
                0
            }),
            forall|i: int| 0 <= i < base ==> #[trigger] out@[i] == old(out)@[i],
            forall|i: int|
                0 <= i < out@.len() - base ==> {
                    let e = #[trigger] out@[base + i];
                    (e.line, e.order, e.path@) == (seg0 + (if k >= 1 {
                        sub[0]
                    } else {
                        Seq::empty()
                    }) + (if k >= 2 {
                        sub[1]
                    } else {
                        Seq::empty()
                    }) + (if k >= 3 {
                        sub[2]
                    } else {
                        Seq::empty()
                    }) + (if k >= 4 {
                        sub[3]
                    } else {
                        Seq::empty()
                    }))[i]
                },
        decreases 4 - k,
    {
        let ghost lb = out@.len() as int;
        let ghost out0 = out@;
        let ch = arena.slots[h.idx].node.children[k];
        if let Some(c) = ch {
            proof {
                assert(arena.wf_child_link(hi, k as int));
                assert(arena.wf_node(c.idx as int));
            }
            let corner = ((k as u8) % 2, (k as u8) / 2);
            proof {
                assert(corner == spec_corner_of_k(k as int));
            }
            prefix.push(corner);
            proof {
                assert(prefix@ =~= pfx.push(spec_corner_of_k(k as int)));
            }
            collect_placed(arena, c, prefix, out);
            let popped = prefix.pop();
            proof {
                assert(prefix@ =~= pfx);
            }
        }
        proof {
            let kk = k as int;
            let sprev = seg0 + (if kk >= 1 {
                sub[0]
            } else {
                Seq::empty()
            }) + (if kk >= 2 {
                sub[1]
            } else {
                Seq::empty()
            }) + (if kk >= 3 {
                sub[2]
            } else {
                Seq::empty()
            }) + (if kk >= 4 {
                sub[3]
            } else {
                Seq::empty()
            });
            let snew = seg0 + (if kk + 1 >= 1 {
                sub[0]
            } else {
                Seq::empty()
            }) + (if kk + 1 >= 2 {
                sub[1]
            } else {
                Seq::empty()
            }) + (if kk + 1 >= 3 {
                sub[2]
            } else {
                Seq::empty()
            }) + (if kk + 1 >= 4 {
                sub[3]
            } else {
                Seq::empty()
            });
            if arena.node(hi).children@[kk] is None {
                assert(sub[kk] =~= Seq::<(Line, u32, Seq<(u8, u8)>)>::empty());
            }
            assert(snew =~= sprev + sub[kk]);
            assert(out@.len() == base + snew.len());
            assert forall|i: int| 0 <= i < out@.len() - base implies {
                let e = #[trigger] out@[base + i];
                (e.line, e.order, e.path@) == snew[i]
            } by {
                if i < lb - base {
                    assert(out@[base + i] == out0[base + i]);
                    assert(snew[i] == sprev[i]);
                    assert({
                        let e = out0[base + i];
                        (e.line, e.order, e.path@) == sprev[i]
                    });
                } else {
                    assert(snew[i] == sub[kk][i - (lb - base)]);
                    assert(base + i == lb + (i - (lb - base)));
                }
            }
        }
        k += 1;
    }
    proof {
        assert(arena.spec_subtree_placed(hi, pfx) =~= seg0 + sub[0] + sub[1] + sub[2] + sub[3]);
    }
}

impl DrawNode {
    /// Collect every primitive of the subtree rooted at `h` together
    /// with its placement: the corner path from `h` down to the node
    /// that stores it, from which a renderer derives each destination
    /// square (halved once and offset into the named quadrant per
    /// step).
    pub fn get_strokes_placed(arena: &Arena, h: Handle) -> (r: Vec<PlacedStroke>)
        requires
            arena.wf(),
            arena.valid(h),
        ensures
            r@.len() == arena.spec_subtree_placed(h.idx as int, Seq::empty()).len(),
            forall|i: int|
                0 <= i < r@.len() ==> {
                    let e = #[trigger] r@[i];
                    (e.line, e.order, e.path@) == arena.spec_subtree_placed(
                        h.idx as int,
                        Seq::empty(),
                    )[i]
                },
    {
        let mut prefix: Vec<(u8, u8)> = Vec::new();
        let mut out: Vec<PlacedStroke> = Vec::new();
        proof {
            assert(prefix@ =~= Seq::<(u8, u8)>::empty());
        }
        let ghost p0 = prefix@;
        collect_placed(arena, h, &mut prefix, &mut out);
        proof {
            assert forall|i: int| 0 <= i < out@.len() implies {
                let e = #[trigger] out@[i];
                (e.line, e.order, e.path@) == arena.spec_subtree_placed(
                    h.idx as int,
                    Seq::empty(),
                )[i]
            } by {
                assert(out@[0 + i] == out@[i]);
                assert(arena.spec_subtree_placed(h.idx as int, p0) == arena.spec_subtree_placed(
                    h.idx as int,
                    Seq::empty(),
                ));
            }
        }
        out
    }
}

impl DrawNode {
    /// Collect every primitive of the subtree rooted at `h`, with its
    /// paint-order tag, in traversal order: the node's own strokes,
    /// then each child subtree in child-slot order.
    pub fn get_strokes(arena: &Arena, h: Handle) -> (r: Vec<(Line, u32)>)
        requires
            arena.wf(),
            arena.valid(h),
        ensures
            r@ == arena.spec_subtree_strokes(h.idx as int),
        decreases arena.max_level() - arena.level(h.idx as int),
    {
        let ghost hi = h.idx as int;
        proof {
            assert(arena.wf_node(hi));
        }
        let mut out: Vec<(Line, u32)> = Vec::new();
        let n = arena.slots[h.idx].node.strokes.len();
        let mut i: usize = 0;
        while i < n
            invariant
                arena.wf(),
                arena.valid(h),
                hi == h.idx as int,
                n == arena.node(hi).strokes@.len(),
                i <= n,
                out@ == arena.node(hi).strokes@.subrange(0, i as int),
            decreases n - i,
        {
            out.push(arena.slots[h.idx].node.strokes[i]);
            proof {
                assert(out@ =~= arena.node(hi).strokes@.subrange(0, i + 1 as int));
            }
            i += 1;
        }
        proof {
            assert(out@ =~= arena.node(hi).strokes@);
        }
        let ghost base = out@;
        let ghost sub: Seq<Seq<(Line, u32)>> = Seq::new(4, |k: int| match arena.node(
            hi,
        ).children@[k] {
            Some(c) => arena.spec_subtree_strokes(c.idx as int),
            None => Seq::empty(),
        });
        let mut k: usize = 0;
        while k < 4
            invariant
                arena.wf(),
                arena.valid(h),
                hi == h.idx as int,
                arena.node(hi).children@.len() == 4,
                k <= 4,
                sub == Seq::new(4, |kk: int| match arena.node(hi).children@[kk] {
                    Some(c) => arena.spec_subtree_strokes(c.idx as int),
                    None => Seq::empty(),
                }),
                base == arena.node(hi).strokes@,
                out@ == base + (if k >= 1 {
                    sub[0]
                } else {
                    Seq::empty()
                }) + (if k >= 2 {
                    sub[1]
                } else {
                    Seq::empty()
                }) + (if k >= 3 {
                    sub[2]
                } else {
                    Seq::empty()
                }) + (if k >= 4 {
                    sub[3]
                } else {
                    Seq::empty()
                }),
            decreases 4 - k,
        {
            let ghost out0 = out@;
            let ch = arena.slots[h.idx].node.children[k];
            if let Some(c) = ch {
                proof {
                    assert(arena.wf_child_link(hi, k as int));
                    assert(arena.wf_node(c.idx as int));
                }
                let mut part = DrawNode::get_strokes(arena, c);
                out.append(&mut part);
                proof {
                    assert(out@ == out0 + sub[k as int]);
                }
            } else {
                proof {
                    assert(sub[k as int] =~= Seq::<(Line, u32)>::empty());
                    assert(out@ =~= out0 + sub[k as int]);
                }
            }
            proof {
                let kk = k as int;
                assert(out@ =~= base + (if kk + 1 >= 1 {
                    sub[0]
                } else {
                    Seq::empty()
                }) + (if kk + 1 >= 2 {
                    sub[1]
                } else {
                    Seq::empty()
                }) + (if kk + 1 >= 3 {
                    sub[2]
                } else {
                    Seq::empty()
                }) + (if kk + 1 >= 4 {
                    sub[3]
                } else {
                    Seq::empty()
                }));
            }
            k += 1;
        }
        proof {
            assert(out@ =~= arena.spec_subtree_strokes(hi));
        }
        out
    }
}

} // verus!
