//! The persistence codec: the structural form of a saved drawing.
//!
//! A subtree is flattened into a vector of plain records in postorder,
//! children before parents, so that every child reference points at a
//! strictly smaller index and the root sits last.  A snapshot pairs
//! that tree with the corner path recorded from the window's center
//! node up to its structural root; loading rebuilds the subtree in the
//! arena, re-descends the path, installs the relocated center, and the
//! window is then refilled from it.  A malformed snapshot is rejected
//! with nothing touched.

use vstd::prelude::*;

use crate::geometry::Line;
use crate::structure::{corner_ok, node_same, spec_corner_k, Arena, DrawNode, Handle};
use crate::circular_buffer::CircularBuffer2D;

verus! {

/// One node of the flattened subtree: its primitives and the flat
/// indices of its children, in child-slot order.
pub struct FlatNode {
    pub strokes: Vec<(Line, u32)>,
    /// Always length 4; a child index is strictly smaller than the
    /// index of the node that holds it.
    pub children: Vec<Option<usize>>,
}

/// A flattened subtree; the root is the last record.
pub struct SerialTree {
    pub nodes: Vec<FlatNode>,
}

/// A saved window: the flattened subtree of the structural root, and
/// the corner path that walks from that root back down to the node
/// that was the window's center.
pub struct BufferSnapshot {
    pub center_path: Vec<(u8, u8)>,
    pub tree: SerialTree,
}

/// Why a snapshot was rejected.
#[derive(Clone, Copy, PartialEq, Eq, Structural, Debug)]
pub enum DecodeError {
    /// A record has the wrong shape or a child reference that does not
    /// point at an earlier record.
    MalformedTree,
    /// The corner path does not lead through existing children.
    BadPath,
}

/// Shape well-formedness of a flattened tree: every record has four
/// child slots, each referring to a strictly earlier record.
pub open spec fn spec_flat_wf(t: Seq<FlatNode>) -> bool {
    forall|i: int|
        0 <= i < t.len() ==> (#[trigger] t[i].children@.len() == 4 && (forall|k: int|
            0 <= k < 4 ==> (#[trigger] t[i].children@[k] matches Some(j) ==> (j as int) < i)))
}

/// The primitives of the flat subtree rooted at record `j`, in
/// traversal order.
pub open spec fn flat_subtree_strokes(t: Seq<FlatNode>, j: int) -> Seq<(Line, u32)>
    decreases (if j >= 0 {
        j
    } else {
        0
    }),
{
    if 0 <= j < t.len() && t[j].children@.len() == 4 {
        t[j].strokes@ + (match t[j].children@[0] {
            Some(jc) => if (jc as int) < j {
                flat_subtree_strokes(t, jc as int)
            } else {
                Seq::empty()
            },
            None => Seq::empty(),
        }) + (match t[j].children@[1] {
            Some(jc) => if (jc as int) < j {
                flat_subtree_strokes(t, jc as int)
            } else {
                Seq::empty()
            },
            None => Seq::empty(),
        }) + (match t[j].children@[2] {
            Some(jc) => if (jc as int) < j {
                flat_subtree_strokes(t, jc as int)
            } else {
                Seq::empty()
            },
            None => Seq::empty(),
        }) + (match t[j].children@[3] {
            Some(jc) => if (jc as int) < j {
                flat_subtree_strokes(t, jc as int)
            } else {
                Seq::empty()
            },
            None => Seq::empty(),
        })
    } else {
        Seq::empty()
    }
}

/// Walk a corner path through the flat tree, consuming it from the
/// end, as relocation does on the rebuilt arena subtree.
pub open spec fn spec_flat_descend(t: Seq<FlatNode>, j: int, path: Seq<(u8, u8)>) -> Option<int>
    decreases path.len(),
{
    if path.len() == 0 {
        Some(j)
    } else {
        let c = path.last();
        if 0 <= j < t.len() && corner_ok(c) && t[j].children@.len() == 4 && (t[j].children@[spec_corner_k(c)] matches Some(jc)
            && (jc as int) < j) {
            spec_flat_descend(t, t[j].children@[spec_corner_k(c)]->Some_0 as int, path.drop_last())
        } else {
            None
        }
    }
}

/// Structural correspondence between an arena subtree and a flat
/// subtree: same strokes at every node, and child slots occupied in
/// the same pattern, recursively.
pub open spec fn flat_rel(a: Arena, i: int, t: Seq<FlatNode>, j: int) -> bool
    decreases (if j >= 0 {
        j
    } else {
        0
    }),
{
    &&& 0 <= j < t.len()
    &&& a.live(i)
    &&& a.node(i).strokes@ == t[j].strokes@
    &&& t[j].children@.len() == 4
    &&& a.node(i).children@.len() == 4
    &&& (forall|k: int|
        0 <= k < 4 ==> ((#[trigger] a.node(i).children@[k]) is Some == t[j].children@[k] is Some))
    &&& (forall|k: int|
        0 <= k < 4 ==> (#[trigger] t[j].children@[k] matches Some(jc) ==> ((jc as int) < j
            && flat_rel(a, a.node(i).children@[k]->Some_0.idx as int, t, jc as int))))
}

/// A prefix of a longer flat vector describes the same subtrees.
proof fn lemma_flat_prefix(t1: Seq<FlatNode>, t2: Seq<FlatNode>, j: int)
    requires
        t1.len() <= t2.len(),
        t2.subrange(0, t1.len() as int) == t1,
        0 <= j < t1.len(),
    ensures
        flat_subtree_strokes(t2, j) == flat_subtree_strokes(t1, j),
    decreases j,
{
    assert(t2[j] == t1[j]) by {
        assert(t2.subrange(0, t1.len() as int)[j] == t2[j]);
    }
    if t1[j].children@.len() == 4 {
        assert forall|k: int| 0 <= k < 4 implies (match #[trigger] t1[j].children@[k] {
            Some(jc) => (jc as int) < j ==> flat_subtree_strokes(t2, jc as int)
                == flat_subtree_strokes(t1, jc as int),
            None => true,
        }) by {
            if let Some(jc) = t1[j].children@[k] {
                if (jc as int) < j {
                    lemma_flat_prefix(t1, t2, jc as int);
                }
            }
        }
    }
}

/// Corresponding subtrees have exactly the same primitives in the same
/// traversal order.
proof fn lemma_flat_rel_strokes(a: Arena, i: int, t: Seq<FlatNode>, j: int)
    requires
        a.wf(),
        flat_rel(a, i, t, j),
    ensures
        a.spec_subtree_strokes(i) == flat_subtree_strokes(t, j),
    decreases (if j >= 0 {
        j
    } else {
        0
    }),
{
    assert(a.live(i));
    assert forall|k: int| 0 <= k < 4 implies (match #[trigger] a.node(i).children@[k] {
        Some(c) => t[j].children@[k] matches Some(jc) && (jc as int) < j
            && a.spec_subtree_strokes(c.idx as int) == flat_subtree_strokes(t, jc as int),
        None => t[j].children@[k] is None,
    }) by {
        if let Some(c) = a.node(i).children@[k] {
            let jc = t[j].children@[k]->Some_0;
            assert(flat_rel(a, c.idx as int, t, jc as int));
            lemma_flat_rel_strokes(a, c.idx as int, t, jc as int);
        }
    }
    assert(a.spec_subtree_strokes(i) =~= flat_subtree_strokes(t, j));
}

/// Correspondence is stable under arena evolutions that keep the
/// strokes and children of every node under the corresponding root.
proof fn lemma_flat_rel_frame(pre: Arena, post: Arena, i: int, t: Seq<FlatNode>, j: int)
    requires
        pre.wf(),
        post.wf(),
        flat_rel(pre, i, t, j),
        forall|i2: int| pre.live(i2) ==> post.live(i2) && post.level(i2) == pre.level(i2),
        forall|i2: int|
            pre.live(i2) && pre.under(i2, i) ==> post.node(i2).strokes@ == pre.node(i2).strokes@
                && post.node(i2).children@ == pre.node(i2).children@,
    ensures
        flat_rel(post, i, t, j),
    decreases (if j >= 0 {
        j
    } else {
        0
    }),
{
    assert(pre.under(i, i));
    assert(pre.wf_node(i));
    assert forall|k: int| 0 <= k < 4 implies (match #[trigger] t[j].children@[k] {
        Some(jc) => flat_rel(post, pre.node(i).children@[k]->Some_0.idx as int, t, jc as int),
        None => true,
    }) by {
        if let Some(jc) = t[j].children@[k] {
            let c = pre.node(i).children@[k]->Some_0;
            let ci = c.idx as int;
            assert(pre.wf_child_link(i, k));
            assert(pre.under(ci, i)) by {
                assert(pre.node(ci).parent matches Some(q) && q.idx as int == i);
            }
            assert forall|i2: int|
                pre.live(i2) && pre.under(i2, ci) implies post.node(i2).strokes@ == pre.node(
                i2,
            ).strokes@ && post.node(i2).children@ == pre.node(i2).children@ by {
                pre.lemma_under_trans(i2, ci, i);
            }
            lemma_flat_rel_frame(pre, post, ci, t, jc as int);
        }
    }
}

/// Descending the same corner path through two corresponding subtrees
/// stays in correspondence, step by step.
proof fn lemma_flat_rel_descend(a: Arena, i: int, t: Seq<FlatNode>, j: int, path: Seq<(u8, u8)>)
    requires
        a.wf(),
        flat_rel(a, i, t, j),
        spec_flat_descend(t, j, path) is Some,
    ensures
        a.spec_descend(i, path) is Some,
        flat_rel(
            a,
            a.spec_descend(i, path)->Some_0,
            t,
            spec_flat_descend(t, j, path)->Some_0,
        ),
    decreases path.len(),
{
    if path.len() == 0 {
    } else {
        let c = path.last();
        let k = spec_corner_k(c);
        let jc = t[j].children@[k]->Some_0;
        assert(t[j].children@[k] is Some);
        assert(a.node(i).children@[k] is Some);
        let ch = a.node(i).children@[k]->Some_0;
        assert(flat_rel(a, ch.idx as int, t, jc as int));
        lemma_flat_rel_descend(a, ch.idx as int, t, jc as int, path.drop_last());
    }
}

/// Flatten the subtree of `h` onto the end of `out`, children before
/// parents, and return the index of `h`'s own record.
fn flatten_into(arena: &Arena, h: Handle, out: &mut Vec<FlatNode>) -> (j: usize)
    requires
        arena.wf(),
        arena.valid(h),
        spec_flat_wf(old(out)@),
    ensures
        final(out)@.len() == j + 1,
        old(out)@.len() <= j,
        final(out)@.subrange(0, old(out)@.len() as int) == old(out)@,
        spec_flat_wf(final(out)@),
        flat_rel(*arena, h.idx as int, final(out)@, j as int),
        flat_subtree_strokes(final(out)@, j as int) == arena.spec_subtree_strokes(h.idx as int),
    decreases arena.max_level() - arena.level(h.idx as int),
{
    let ghost hi = h.idx as int;
    proof {
        assert(arena.wf_node(hi));
    }
    // Copy this node's strokes.
    let mut strokes: Vec<(Line, u32)> = Vec::new();
    let sn = arena.slots[h.idx].node.strokes.len();
    let mut si: usize = 0;
    while si < sn
        invariant
            arena.wf(),
            arena.valid(h),
            hi == h.idx as int,
            sn == arena.node(hi).strokes@.len(),
            si <= sn,
            strokes@ == arena.node(hi).strokes@.subrange(0, si as int),
        decreases sn - si,
    {
        strokes.push(arena.slots[h.idx].node.strokes[si]);
        proof {
            assert(strokes@ =~= arena.node(hi).strokes@.subrange(0, si + 1 as int));
        }
        si += 1;
    }
    proof {
        assert(strokes@ =~= arena.node(hi).strokes@);
    }
    // Children first, remembering each one's record index.
    let mut children: Vec<Option<usize>> = Vec::new();
    let mut k: usize = 0;
    let ghost sub: Seq<Seq<(Line, u32)>> = Seq::new(4, |kk: int| match arena.node(
        hi,
    ).children@[kk] {
        Some(c) => arena.spec_subtree_strokes(c.idx as int),
        None => Seq::empty(),
    });
    while k < 4
        invariant
            arena.wf(),
            arena.valid(h),
            hi == h.idx as int,
            arena.node(hi).children@.len() == 4,
            k <= 4,
            children@.len() == k as int,
            spec_flat_wf(out@),
            old(out)@.len() <= out@.len(),
            out@.subrange(0, old(out)@.len() as int) == old(out)@,
            sub == Seq::new(4, |kk: int| match arena.node(hi).children@[kk] {
                Some(c) => arena.spec_subtree_strokes(c.idx as int),
                None => Seq::empty(),
            }),
            forall|kk: int|
                0 <= kk < k as int ==> ((#[trigger] children@[kk]) is Some == arena.node(
                    hi,
                ).children@[kk] is Some),
            forall|kk: int|
                0 <= kk < k as int ==> (#[trigger] children@[kk] matches Some(jc) ==> {
                    &&& (jc as int) < out@.len()
                    &&& flat_rel(
                        *arena,
                        arena.node(hi).children@[kk]->Some_0.idx as int,
                        out@,
                        jc as int,
                    )
                    &&& flat_subtree_strokes(out@, jc as int) == sub[kk]
                }),
        decreases 4 - k,
    {
        let ch = arena.slots[h.idx].node.children[k];
        let ghost out_before = out@;
        let entry: Option<usize> = match ch {
            Some(c) => {
                proof {
                    assert(arena.wf_child_link(hi, k as int));
                    assert(arena.wf_node(arena.node(hi).children@[k as int]->Some_0.idx as int));
                }
                let jc = flatten_into(arena, c, out);
                Some(jc)
            },
            None => None,
        };
        children.push(entry);
        proof {
            assert(out@.subrange(0, out_before.len() as int) =~= out_before);
            assert forall|kk: int|
                0 <= kk < k as int + 1 implies (#[trigger] children@[kk] matches Some(jc) ==> {
                &&& (jc as int) < out@.len()
                &&& flat_rel(
                    *arena,
                    arena.node(hi).children@[kk]->Some_0.idx as int,
                    out@,
                    jc as int,
                )
                &&& flat_subtree_strokes(out@, jc as int) == sub[kk]
            }) by {
                if let Some(jc) = children@[kk] {
                    if kk < k as int {
                        assert(flat_rel(
                            *arena,
                            arena.node(hi).children@[kk]->Some_0.idx as int,
                            out_before,
                            jc as int,
                        ));
                        lemma_flat_rel_prefix_codec(
                            *arena,
                            arena.node(hi).children@[kk]->Some_0.idx as int,
                            out_before,
                            out@,
                            jc as int,
                        );
                        lemma_flat_prefix(out_before, out@, jc as int);
                    }
                }
            }
        }
        k += 1;
    }
    let j = out.len();
    let ghost before_push = out@;
    out.push(FlatNode { strokes, children });
    proof {
        assert(out@.subrange(0, before_push.len() as int) =~= before_push);
        assert(out@[j as int].strokes@ == arena.node(hi).strokes@);
        assert(out@[j as int].children@.len() == 4);
        assert(out@.subrange(0, old(out)@.len() as int) =~= old(out)@) by {
            assert(before_push.subrange(0, old(out)@.len() as int) == old(out)@);
            assert forall|x: int| 0 <= x < old(out)@.len() implies out@.subrange(
                0,
                old(out)@.len() as int,
            )[x] == old(out)@[x] by {
                assert(before_push[x] == before_push.subrange(0, old(out)@.len() as int)[x]);
            }
        }
        assert(spec_flat_wf(out@)) by {
            assert forall|i2: int|
                0 <= i2 < out@.len() implies (#[trigger] out@[i2].children@.len() == 4 && (
            forall|kk: int|
                0 <= kk < 4 ==> (#[trigger] out@[i2].children@[kk] matches Some(jj) ==> (
                jj as int) < i2))) by {
                if i2 < j as int {
                    assert(out@[i2] == before_push[i2]);
                }
            }
        }
        assert forall|kk: int|
            0 <= kk < 4 implies (#[trigger] out@[j as int].children@[kk] matches Some(jc) ==> {
            &&& (jc as int) < j as int
            &&& flat_rel(
                *arena,
                arena.node(hi).children@[kk]->Some_0.idx as int,
                out@,
                jc as int,
            )
            &&& flat_subtree_strokes(out@, jc as int) == sub[kk]
        }) by {
            if let Some(jc) = out@[j as int].children@[kk] {
                assert(children@[kk] == Some(jc));
                lemma_flat_rel_prefix_codec(
                    *arena,
                    arena.node(hi).children@[kk]->Some_0.idx as int,
                    before_push,
                    out@,
                    jc as int,
                );
                lemma_flat_prefix(before_push, out@, jc as int);
            }
        }
        assert(flat_rel(*arena, hi, out@, j as int));
        lemma_flat_rel_strokes(*arena, hi, out@, j as int);
    }
    j
}

/// Correspondence only reads the records up to the root's index, so a
/// longer flat vector with the same prefix corresponds too.
proof fn lemma_flat_rel_prefix_codec(a: Arena, i: int, t1: Seq<FlatNode>, t2: Seq<FlatNode>, j: int)
    requires
        flat_rel(a, i, t1, j),
        t1.len() <= t2.len(),
        t2.subrange(0, t1.len() as int) == t1,
    ensures
        flat_rel(a, i, t2, j),
    decreases (if j >= 0 {
        j
    } else {
        0
    }),
{
    assert(t2[j] == t1[j]) by {
        assert(t2.subrange(0, t1.len() as int)[j] == t2[j]);
    }
    assert forall|k: int| 0 <= k < 4 implies (match #[trigger] t2[j].children@[k] {
        Some(jc) => flat_rel(a, a.node(i).children@[k]->Some_0.idx as int, t2, jc as int),
        None => true,
    }) by {
        if let Some(jc) = t2[j].children@[k] {
            lemma_flat_rel_prefix_codec(
                a,
                a.node(i).children@[k]->Some_0.idx as int,
                t1,
                t2,
                jc as int,
            );
        }
    }
}

/// Descending the same corner path on the arena side: corresponding
/// subtrees stay in correspondence, and the flat walk succeeds
/// whenever the arena walk does.
proof fn lemma_flat_rel_descend_arena(
    a: Arena,
    i: int,
    t: Seq<FlatNode>,
    j: int,
    path: Seq<(u8, u8)>,
)
    requires
        a.wf(),
        flat_rel(a, i, t, j),
        a.spec_descend(i, path) is Some,
    ensures
        spec_flat_descend(t, j, path) is Some,
        flat_rel(a, a.spec_descend(i, path)->Some_0, t, spec_flat_descend(t, j, path)->Some_0),
    decreases path.len(),
{
    if path.len() == 0 {
    } else {
        let c = path.last();
        let k = spec_corner_k(c);
        assert(a.node(i).children@[k] is Some);
        assert(t[j].children@[k] is Some);
        let jc = t[j].children@[k]->Some_0;
        let ch = a.node(i).children@[k]->Some_0;
        assert(flat_rel(a, ch.idx as int, t, jc as int));
        lemma_flat_rel_descend_arena(a, ch.idx as int, t, jc as int, path.drop_last());
    }
}

/// Whether a snapshot has the shape that loading accepts: a well
/// formed, non-empty flat tree whose recorded corner path leads
/// through existing children from the root record.
pub open spec fn spec_snapshot_ok(snap: BufferSnapshot) -> bool {
    &&& spec_flat_wf(snap.tree.nodes@)
    &&& snap.tree.nodes@.len() > 0
    &&& spec_flat_descend(
        snap.tree.nodes@,
        snap.tree.nodes@.len() - 1,
        snap.center_path@,
    ) is Some
}

/// Serialize the window: the center node's path up to its structural
/// root, and that root's whole subtree, flattened.
pub fn export_snapshot<const N: usize>(arena: &Arena, buf: &CircularBuffer2D<N>) -> (r:
    BufferSnapshot)
    requires
        arena.wf(),
        buf.wf(),
        buf.cells_valid(*arena),
        buf.spec_get(0, 0) is Some,
    ensures
        spec_snapshot_ok(r),
        spec_flat_descend(r.tree.nodes@, r.tree.nodes@.len() - 1, r.center_path@)
            matches Some(j2) && flat_subtree_strokes(r.tree.nodes@, j2)
            == arena.spec_subtree_strokes(buf.spec_get(0, 0)->Some_0.idx as int),
{
    let center_opt = buf.get(0, 0);
    let center = match center_opt {
        Some(c) => c,
        None => unreached(),
    };
    let (top, path) = DrawNode::get_top_level_and_path(arena, Vec::new(), center);
    let mut nodes: Vec<FlatNode> = Vec::new();
    let rootj = flatten_into(arena, top, &mut nodes);
    proof {
        assert(path@.skip(0) =~= path@);
        assert(arena.spec_descend(top.idx as int, path@) == Some(center.idx as int));
        lemma_flat_rel_descend_arena(*arena, top.idx as int, nodes@, rootj as int, path@);
        let j2 = spec_flat_descend(nodes@, rootj as int, path@)->Some_0;
        lemma_flat_rel_strokes(*arena, center.idx as int, nodes@, j2);
    }
    BufferSnapshot { center_path: path, tree: SerialTree { nodes } }
}

/// Shape well-formedness of the first `n` records.
pub open spec fn spec_flat_wf_upto(t: Seq<FlatNode>, n: int) -> bool {
    forall|i: int|
        0 <= i < n && i < t.len() ==> (#[trigger] t[i].children@.len() == 4 && (forall|k: int|
            0 <= k < 4 ==> (#[trigger] t[i].children@[k] matches Some(j) ==> (j as int) < i)))
}

/// Check the flat tree's shape.
#[verifier::loop_isolation(false)]
fn check_flat(t: &SerialTree) -> (r: bool)
    ensures
        r == spec_flat_wf(t.nodes@),
{
    let n = t.nodes.len();
    let mut i: usize = 0;
    while i < n
        invariant
            n == t.nodes@.len(),
            i <= n,
            spec_flat_wf_upto(t.nodes@, i as int),
        decreases n - i,
    {
        if t.nodes[i].children.len() != 4 {
            proof {
                assert(!spec_flat_wf(t.nodes@));
            }
            return false;
        }
        let mut bad = false;
        if let Some(jj) = t.nodes[i].children[0] {
            if jj >= i {
                bad = true;
            }
        }
        if let Some(jj) = t.nodes[i].children[1] {
            if jj >= i {
                bad = true;
            }
        }
        if let Some(jj) = t.nodes[i].children[2] {
            if jj >= i {
                bad = true;
            }
        }
        if let Some(jj) = t.nodes[i].children[3] {
            if jj >= i {
                bad = true;
            }
        }
        if bad {
            proof {
                assert(!spec_flat_wf(t.nodes@));
            }
            return false;
        }
        proof {
            assert forall|k: int|
                0 <= k < 4 implies (#[trigger] t.nodes@[i as int].children@[k] matches Some(jj)
                ==> (jj as int) < i as int) by {
                if k == 0 || k == 1 || k == 2 || k == 3 {
                }
            }
            assert(spec_flat_wf_upto(t.nodes@, i as int + 1)) by {
                assert forall|i2: int|
                    0 <= i2 < i as int + 1 && i2 < t.nodes@.len() implies (
                #[trigger] t.nodes@[i2].children@.len() == 4 && (forall|k: int|
                    0 <= k < 4 ==> (#[trigger] t.nodes@[i2].children@[k] matches Some(jj) ==> (
                    jj as int) < i2))) by {
                    if i2 < i as int {
                        assert(t.nodes@[i2].children@.len() == 4);
                    } else {
                        assert(t.nodes@[i2].children@.len() == 4);
                    }
                }
            }
        }
        i += 1;
    }
    proof {
        assert(spec_flat_wf(t.nodes@)) by {
            assert(spec_flat_wf_upto(t.nodes@, n as int));
        }
    }
    true
}

/// Walk the recorded corner path through the flat tree from its root
/// record.
#[verifier::loop_isolation(false)]
fn flat_follow(t: &SerialTree, path: &Vec<(u8, u8)>) -> (r: Option<usize>)
    requires
        t.nodes@.len() > 0,
    ensures
        match spec_flat_descend(t.nodes@, t.nodes@.len() - 1, path@) {
            Some(j2) => r matches Some(rr) && rr as int == j2,
            None => r is None,
        },
{
    let mut cur: usize = t.nodes.len() - 1;
    let mut q: usize = 0;
    let ghost full = path@;
    proof {
        assert(full.subrange(0, full.len() as int) =~= full);
    }
    while q < path.len()
        invariant
            t.nodes@.len() > 0,
            q <= path@.len(),
            (cur as int) < t.nodes@.len(),
            spec_flat_descend(t.nodes@, t.nodes@.len() - 1, full) == spec_flat_descend(
                t.nodes@,
                cur as int,
                full.subrange(0, full.len() - q as int),
            ),
            full == path@,
        decreases path@.len() - q,
    {
        let c = path[path.len() - 1 - q];
        let ghost rem = full.subrange(0, full.len() - q as int);
        proof {
            assert(rem.len() > 0);
            assert(rem.last() == c);
            assert(rem.drop_last() =~= full.subrange(0, full.len() - (q as int + 1)));
        }
        if !(c.0 <= 1 && c.1 <= 1) {
            proof {
                assert(spec_flat_descend(t.nodes@, cur as int, rem) is None);
            }
            return None;
        }
        let k = 2 * (c.1 as usize) + (c.0 as usize);
        if t.nodes[cur].children.len() != 4 {
            proof {
                assert(spec_flat_descend(t.nodes@, cur as int, rem) is None);
            }
            return None;
        }
        match t.nodes[cur].children[k] {
            Some(jc) => {
                if jc >= cur {
                    proof {
                        assert(spec_flat_descend(t.nodes@, cur as int, rem) is None);
                    }
                    return None;
                }
                cur = jc;
            },
            None => {
                proof {
                    assert(spec_flat_descend(t.nodes@, cur as int, rem) is None);
                }
                return None;
            },
        }
        q += 1;
    }
    proof {
        assert(full.subrange(0, full.len() - q as int) =~= Seq::<(u8, u8)>::empty());
    }
    Some(cur)
}

/// Rebuild the flat subtree rooted at record `j` inside the empty
/// arena node `h`: its strokes, then its children, recursively.
fn decode_fill(arena: &mut Arena, t: &SerialTree, j: usize, h: Handle)
    requires
        old(arena).wf(),
        old(arena).valid(h),
        spec_flat_wf(t.nodes@),
        (j as int) < t.nodes@.len(),
        old(arena).node(h.idx as int).strokes@.len() == 0,
        old(arena).node(h.idx as int).children@.len() == 4,
        forall|k: int| 0 <= k < 4 ==> old(arena).node(h.idx as int).children@[k] is None,
    ensures
        final(arena).wf(),
        flat_rel(*final(arena), h.idx as int, t.nodes@, j as int),
        old(arena).n() <= final(arena).n(),
        forall|i: int| 0 <= i < old(arena).n() ==> final(arena).live(i) == old(arena).live(i),
        forall|i: int| old(arena).live(i) ==> final(arena).level(i) == old(arena).level(i),
        forall|i: int|
            old(arena).live(i) && i != h.idx as int ==> node_same(
                final(arena).node(i),
                old(arena).node(i),
            ),
        final(arena).node(h.idx as int).parent == old(arena).node(h.idx as int).parent,
        final(arena).node(h.idx as int).corner == old(arena).node(h.idx as int).corner,
    decreases j,
{
    let ghost hi = h.idx as int;
    proof {
        assert(old(arena).wf_node(hi));
    }
    // This node's strokes.
    let m = t.nodes[j].strokes.len();
    let mut si: usize = 0;
    while si < m
        invariant
            arena.wf(),
            arena.valid(h),
            hi == h.idx as int,
            (j as int) < t.nodes@.len(),
            m == t.nodes@[j as int].strokes@.len(),
            si <= m,
            arena.node(hi).strokes@ == t.nodes@[j as int].strokes@.subrange(0, si as int),
            arena.node(hi).children@.len() == 4,
            forall|k: int| 0 <= k < 4 ==> arena.node(hi).children@[k] is None,
            arena.n() == old(arena).n(),
            forall|i: int| 0 <= i < old(arena).n() ==> arena.live(i) == old(arena).live(i),
            forall|i: int| old(arena).live(i) ==> arena.level(i) == old(arena).level(i),
            forall|i: int|
                old(arena).live(i) && i != hi ==> node_same(arena.node(i), old(arena).node(i)),
            arena.node(hi).parent == old(arena).node(hi).parent,
            arena.node(hi).corner == old(arena).node(hi).corner,
        decreases m - si,
    {
        let (l, o) = t.nodes[j].strokes[si];
        DrawNode::append_stroke(arena, h, l, o);
        proof {
            assert(arena.node(hi).strokes@ =~= t.nodes@[j as int].strokes@.subrange(
                0,
                si + 1 as int,
            ));
        }
        si += 1;
    }
    proof {
        assert(arena.node(hi).strokes@ =~= t.nodes@[j as int].strokes@);
    }
    // The children, in slot order.
    let mut k: usize = 0;
    while k < 4
        invariant
            arena.wf(),
            arena.valid(h),
            hi == h.idx as int,
            spec_flat_wf(t.nodes@),
            (j as int) < t.nodes@.len(),
            k <= 4,
            arena.node(hi).strokes@ == t.nodes@[j as int].strokes@,
            arena.node(hi).children@.len() == 4,
            t.nodes@[j as int].children@.len() == 4,
            forall|k2: int| k as int <= k2 < 4 ==> arena.node(hi).children@[k2] is None,
            forall|k2: int|
                0 <= k2 < k as int ==> ((#[trigger] arena.node(hi).children@[k2]) is Some
                    == t.nodes@[j as int].children@[k2] is Some),
            forall|k2: int|
                0 <= k2 < k as int ==> (#[trigger] t.nodes@[j as int].children@[k2]
                    matches Some(jc) ==> flat_rel(
                    *arena,
                    arena.node(hi).children@[k2]->Some_0.idx as int,
                    t.nodes@,
                    jc as int,
                )),
            old(arena).n() <= arena.n(),
            forall|i: int| 0 <= i < old(arena).n() ==> arena.live(i) == old(arena).live(i),
            forall|i: int| old(arena).live(i) ==> arena.level(i) == old(arena).level(i),
            forall|i: int|
                old(arena).live(i) && i != hi ==> node_same(arena.node(i), old(arena).node(i)),
            arena.node(hi).parent == old(arena).node(hi).parent,
            arena.node(hi).corner == old(arena).node(hi).corner,
        decreases 4 - k,
    {
        if let Some(jc) = t.nodes[j].children[k] {
            proof {
                assert(t.nodes@[j as int].children@[k as int] matches Some(jj) && (jj as int)
                    < j as int);
            }
            let corner = ((k as u8) % 2, (k as u8) / 2);
            proof {
                assert(spec_corner_k(corner) == k as int);
            }
            let ghost a0 = *arena;
            let c = DrawNode::get_or_create_neighborless_child_from_corner(arena, h, corner);
            let ghost a1 = *arena;
            proof {
                assert(a0.node(hi).children@[k as int] is None);
                assert(c.idx as int == a0.n());
            }
            decode_fill(arena, t, jc, c);
            proof {
                let post = *arena;
                // Earlier children's correspondences survive: all the
                // nodes under them are untouched.
                assert forall|k2: int|
                    0 <= k2 < k as int implies (#[trigger] t.nodes@[j as int].children@[k2]
                    matches Some(jc2) ==> flat_rel(
                    *arena,
                    arena.node(hi).children@[k2]->Some_0.idx as int,
                    t.nodes@,
                    jc2 as int,
                )) by {
                    if let Some(jc2) = t.nodes@[j as int].children@[k2] {
                        let cprev = a0.node(hi).children@[k2]->Some_0;
                        let ci = cprev.idx as int;
                        assert(flat_rel(a0, ci, t.nodes@, jc2 as int));
                        assert(a0.wf_child_link(hi, k2));
                        assert(flat_rel(a1, ci, t.nodes@, jc2 as int)) by {
                            assert forall|i2: int|
                                a0.live(i2) && a0.under(i2, ci) implies a1.node(i2).strokes@
                                == a0.node(i2).strokes@ && a1.node(i2).children@ == a0.node(
                                i2,
                            ).children@ by {
                                if i2 == hi {
                                    a0.lemma_under_level(hi, ci);
                                    assert(false);
                                }
                            }
                            lemma_flat_rel_frame(a0, a1, ci, t.nodes@, jc2 as int);
                        }
                        assert(flat_rel(post, ci, t.nodes@, jc2 as int)) by {
                            assert forall|i2: int|
                                a1.live(i2) && a1.under(i2, ci) implies post.node(i2).strokes@
                                == a1.node(i2).strokes@ && post.node(i2).children@ == a1.node(
                                i2,
                            ).children@ by {
                                if i2 == hi {
                                    a1.lemma_under_level(hi, ci);
                                    assert(false);
                                } else if i2 == c.idx as int {
                                    a1.lemma_under_level(c.idx as int, ci);
                                    assert(a0.live(ci));
                                    assert(false);
                                }
                            }
                            lemma_flat_rel_frame(a1, post, ci, t.nodes@, jc2 as int);
                        }
                        assert(post.node(hi).children@[k2] == a0.node(hi).children@[k2]);
                    }
                }
            }
        }
        k += 1;
    }
    proof {
        assert(flat_rel(*arena, hi, t.nodes@, j as int));
    }
}

/// Load a snapshot: rebuild the saved subtree, re-descend the corner
/// path to relocate the center node, install it as the window's
/// center, and refill the window around it.  A malformed snapshot is
/// rejected with the window and the arena left untouched.
pub fn import_snapshot<const N: usize>(
    arena: &mut Arena,
    buf: &mut CircularBuffer2D<N>,
    snap: &BufferSnapshot,
) -> (r: Result<Handle, DecodeError>)
    requires
        old(buf).wf(),
        old(arena).wf(),
        old(buf).cells_valid(*old(arena)),
    ensures
        final(buf).wf(),
        final(arena).wf(),
        final(buf).cells_valid(*final(arena)),
        r is Err <==> !spec_snapshot_ok(*snap),
        r is Err ==> (forall|x: int, y: int|
            CircularBuffer2D::<N>::in_range(x, y) ==> #[trigger] final(buf).spec_get(x, y) == old(
                buf,
            ).spec_get(x, y)) && final(arena).same_as(*old(arena)),
        r matches Ok(c) ==> {
            &&& final(buf).spec_get(0, 0) == Some(c)
            &&& final(arena).valid(c)
            &&& (forall|x: int, y: int|
                CircularBuffer2D::<N>::in_range(x, y) ==> #[trigger] final(buf).spec_get(
                    x,
                    y,
                ) is Some)
            &&& final(arena).spec_subtree_strokes(c.idx as int) == flat_subtree_strokes(
                snap.tree.nodes@,
                spec_flat_descend(
                    snap.tree.nodes@,
                    snap.tree.nodes@.len() - 1,
                    snap.center_path@,
                )->Some_0,
            )
        },
{
    if snap.tree.nodes.len() == 0 {
        return Err(DecodeError::MalformedTree);
    }
    if !check_flat(&snap.tree) {
        return Err(DecodeError::MalformedTree);
    }
    let target = match flat_follow(&snap.tree, &snap.center_path) {
        Some(tg) => tg,
        None => {
            return Err(DecodeError::BadPath);
        },
    };
    let ghost pre_a = *old(arena);
    let root_j = snap.tree.nodes.len() - 1;
    let root_h = DrawNode::top_level(arena);
    let ghost a_top = *arena;
    decode_fill(arena, &snap.tree, root_j, root_h);
    let ghost a_dec = *arena;
    proof {
        lemma_flat_rel_descend(
            *arena,
            root_h.idx as int,
            snap.tree.nodes@,
            root_j as int,
            snap.center_path@,
        );
    }
    let mut pathv: Vec<(u8, u8)> = Vec::new();
    let mut pi: usize = 0;
    while pi < snap.center_path.len()
        invariant
            pi <= snap.center_path@.len(),
            pathv@ == snap.center_path@.subrange(0, pi as int),
        decreases snap.center_path@.len() - pi,
    {
        pathv.push(snap.center_path[pi]);
        proof {
            assert(pathv@ =~= snap.center_path@.subrange(0, pi + 1 as int));
        }
        pi += 1;
    }
    proof {
        assert(pathv@ =~= snap.center_path@);
    }
    let ghost pathv0 = pathv@;
    let c = DrawNode::follow_path(arena, root_h, &mut pathv);
    let ghost j2 = spec_flat_descend(
        snap.tree.nodes@,
        snap.tree.nodes@.len() - 1,
        snap.center_path@,
    )->Some_0;
    proof {
        assert(flat_rel(a_dec, c.idx as int, snap.tree.nodes@, j2));
        lemma_flat_rel_strokes(a_dec, c.idx as int, snap.tree.nodes@, j2);
        assert(a_dec.spec_subtree_strokes(c.idx as int) == flat_subtree_strokes(
            snap.tree.nodes@,
            j2,
        ));
        // The decoded center is fresh, so no window cell holds it.
        assert(!old(buf).spec_contains(c)) by {
            if old(buf).spec_contains(c) {
                let (x, y) = choose|x: int, y: int|
                    CircularBuffer2D::<N>::in_range(x, y) && #[trigger] old(buf).spec_get(x, y)
                        == Some(c);
                assert(pre_a.valid(c));
                assert((c.idx as int) < pre_a.n());
                assert forall|i2: int|
                    0 <= i2 < pre_a.n() implies a_dec.live(i2) == pre_a.live(i2) by {
                    assert(a_top.live(i2) == pre_a.live(i2));
                }
                assert forall|i2: int|
                    pre_a.live(i2) implies a_dec.node(i2).parent == pre_a.node(i2).parent by {
                    assert(node_same(a_top.node(i2), pre_a.node(i2)));
                    assert(a_top.live(i2));
                    assert((i2 as int) != root_h.idx as int);
                    assert(node_same(a_dec.node(i2), a_top.node(i2)));
                }
                crate::structure::lemma_descend_under(a_dec, root_h.idx as int, pathv0);
                crate::structure::lemma_under_preserved(
                    pre_a,
                    a_dec,
                    c.idx as int,
                    root_h.idx as int,
                );
                assert(false);
            }
        }
    }
    buf.clear_all(arena);
    let ghost a_cl = *arena;
    proof {
        assert(a_cl.valid(c));
        assert(a_cl.spec_subtree_strokes(c.idx as int) == a_dec.spec_subtree_strokes(
            c.idx as int,
        ));
    }
    buf.set(arena, 0, 0, c);
    proof {
        assert(arena.valid(c));
        assert(arena.spec_subtree_strokes(c.idx as int) == a_cl.spec_subtree_strokes(
            c.idx as int,
        ));
        assert(buf.spec_get(0, 0) is Some);
    }
    buf.load_all(arena);
    Ok(c)
}

} // verus!