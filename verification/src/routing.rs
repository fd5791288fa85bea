//! The stroke router: place a line segment, given in a node's local
//! frame, at the shallowest node whose unit square fully contains it,
//! creating finer nodes on the way down as needed.
//!
//! A segment whose maximum per-axis extent reaches half the local unit
//! square is stored where it is; a smaller one is pushed into the
//! quadrant containing its midpoint, with both endpoints remapped into
//! that quadrant's frame and the width scale doubled.

use vstd::prelude::*;
use vstd::multiset::Multiset;

use crate::geometry::{spec_extent, extent, Line, StrokeStyle, UNIT, HALF_UNIT};
use crate::structure::{
    Arena, DrawNode, Handle, node_same, spec_corner_k, lemma_subtree_strokes_frame,
    lemma_subtree_after_attach, lemma_under_preserved,
};

verus! {

/// The quadrant bit a coordinate pair selects: the positive side
/// exactly when the segment's midpoint lies strictly on it (a zero
/// sum, the midpoint on the axis, selects the lower quadrant).
pub open spec fn spec_quadrant_bit(a: int, b: int) -> u8 {
    if a + b > 0 {
        1u8
    } else {
        0u8
    }
}

/// An endpoint coordinate remapped into the chosen quadrant's local
/// frame: reflected by half a unit toward the center, then doubled.
pub open spec fn spec_remap(v: int, bit: u8) -> int {
    if bit == 0 {
        2 * (v + HALF_UNIT as int)
    } else {
        2 * (v - HALF_UNIT as int)
    }
}

/// The primitive the router stores for a segment: the segment itself
/// once its extent reaches half the local square, else the primitive
/// stored for its remapping into the midpoint's quadrant, with the
/// width scale doubled.  (A degenerate segment would never reach the
/// threshold; the router's contract excludes it.)
pub open spec fn spec_routed_stroke(
    x1: int,
    y1: int,
    x2: int,
    y2: int,
    scale: int,
    style: StrokeStyle,
) -> Line
    decreases (if spec_extent(x1, y1, x2, y2) < 1 || spec_extent(x1, y1, x2, y2)
        >= HALF_UNIT as int {
        0int
    } else {
        (HALF_UNIT as int) - spec_extent(x1, y1, x2, y2)
    }),
    via spec_routed_stroke_decreases
{
    let e = spec_extent(x1, y1, x2, y2);
    if e < 1 || e >= HALF_UNIT as int {
        Line::spec_from_points(x1, y1, x2, y2, scale, style)
    } else {
        let bx = spec_quadrant_bit(x1, x2);
        let by = spec_quadrant_bit(y1, y2);
        spec_routed_stroke(
            spec_remap(x1, bx),
            spec_remap(y1, by),
            spec_remap(x2, bx),
            spec_remap(y2, by),
            2 * scale,
            style,
        )
    }
}

#[via_fn]
proof fn spec_routed_stroke_decreases(
    x1: int,
    y1: int,
    x2: int,
    y2: int,
    scale: int,
    style: StrokeStyle,
) {
    let e = spec_extent(x1, y1, x2, y2);
    if 1 <= e && e < HALF_UNIT as int {
        let bx = spec_quadrant_bit(x1, x2);
        let by = spec_quadrant_bit(y1, y2);
        assert(spec_extent(
            spec_remap(x1, bx),
            spec_remap(y1, by),
            spec_remap(x2, bx),
            spec_remap(y2, by),
        ) == 2 * e);
    }
}

/// Concatenation of five sequences turns into the sum of their
/// multisets.
proof fn lemma_concat5_to_multiset<T>(s0: Seq<T>, a: Seq<T>, b: Seq<T>, c: Seq<T>, d: Seq<T>)
    ensures
        (s0 + a + b + c + d).to_multiset() == s0.to_multiset().add(a.to_multiset()).add(
            b.to_multiset(),
        ).add(c.to_multiset()).add(d.to_multiset()),
{
    vstd::seq_lib::lemma_multiset_commutative(s0, a);
    vstd::seq_lib::lemma_multiset_commutative(s0 + a, b);
    vstd::seq_lib::lemma_multiset_commutative(s0 + a + b, c);
    vstd::seq_lib::lemma_multiset_commutative(s0 + a + b + c, d);
    assert((s0 + a).to_multiset() =~= s0.to_multiset().add(a.to_multiset()));
    assert((s0 + a + b).to_multiset() =~= (s0 + a).to_multiset().add(b.to_multiset()));
    assert((s0 + a + b + c).to_multiset() =~= (s0 + a + b).to_multiset().add(c.to_multiset()));
    assert((s0 + a + b + c + d).to_multiset() =~= (s0 + a + b + c).to_multiset().add(
        d.to_multiset(),
    ));
}

/// Pushing one stroke onto a node, with every child subtree
/// unchanged, inserts exactly that stroke into the node's traversal
/// multiset.
proof fn lemma_push_multiset(pre: Arena, post: Arena, hi: int, p: (Line, u32))
    requires
        pre.wf(),
        post.wf(),
        pre.live(hi),
        post.n() == pre.n(),
        forall|i: int| 0 <= i < pre.n() ==> post.live(i) == pre.live(i),
        forall|i: int| pre.live(i) ==> post.level(i) == pre.level(i),
        forall|i: int|
            pre.live(i) && i != hi ==> post.node(i).strokes@ == pre.node(i).strokes@
                && post.node(i).children@ == pre.node(i).children@,
        post.node(hi).strokes@ == pre.node(hi).strokes@.push(p),
        post.node(hi).children@ == pre.node(hi).children@,
    ensures
        post.spec_subtree_strokes(hi).to_multiset() == pre.spec_subtree_strokes(
            hi,
        ).to_multiset().insert(p),
{
    broadcast use vstd::seq_lib::lemma_multiset_commutative;
    broadcast use vstd::seq_lib::group_to_multiset_ensures;

    assert(pre.wf_node(hi));
    assert forall|kk: int| 0 <= kk < 4 implies (match #[trigger] pre.node(hi).children@[kk] {
        Some(cc) => post.spec_subtree_strokes(cc.idx as int) == pre.spec_subtree_strokes(
            cc.idx as int,
        ),
        None => true,
    }) by {
        assert(pre.wf_child_link(hi, kk));
        if let Some(cc) = pre.node(hi).children@[kk] {
            assert(pre.wf_node(cc.idx as int));
            assert forall|j: int|
                pre.live(j) && pre.under(j, cc.idx as int) implies post.node(j).strokes@
                == pre.node(j).strokes@ && post.node(j).children@ == pre.node(j).children@ by {
                pre.lemma_under_level(j, cc.idx as int);
                if j == hi {
                    assert(pre.level(cc.idx as int) == pre.level(hi) + 1);
                    assert(false);
                }
            }
            lemma_subtree_strokes_frame(pre, post, cc.idx as int);
        }
    }
    let s0 = pre.node(hi).strokes@;
    let subs = Seq::new(4, |kk: int| match pre.node(hi).children@[kk] {
        Some(cc) => pre.spec_subtree_strokes(cc.idx as int),
        None => Seq::empty(),
    });
    assert(pre.spec_subtree_strokes(hi) =~= s0 + subs[0] + subs[1] + subs[2] + subs[3]);
    assert(post.spec_subtree_strokes(hi) =~= s0.push(p) + subs[0] + subs[1] + subs[2] + subs[3]);
    lemma_concat5_to_multiset(s0, subs[0], subs[1], subs[2], subs[3]);
    lemma_concat5_to_multiset(s0.push(p), subs[0], subs[1], subs[2], subs[3]);
    assert(s0.push(p).to_multiset() =~= s0.to_multiset().insert(p));
    assert(post.spec_subtree_strokes(hi).to_multiset() =~= pre.spec_subtree_strokes(
        hi,
    ).to_multiset().insert(p));
}

/// An insertion into the multiset of one child subtree, with the node
/// itself and its other children untouched, is an insertion into the
/// node's own traversal multiset.
proof fn lemma_lift_insert(mid: Arena, post: Arena, hi: int, ci: int, k: int, p: (Line, u32))
    requires
        mid.wf(),
        post.wf(),
        mid.live(hi),
        mid.live(ci),
        0 <= k < 4,
        mid.node(hi).children@[k] matches Some(cc) && cc.idx as int == ci,
        forall|i: int| 0 <= i < mid.n() ==> post.live(i) == mid.live(i),
        forall|i: int| mid.live(i) ==> post.level(i) == mid.level(i),
        forall|j: int|
            mid.live(j) && !mid.under(j, ci) ==> post.node(j).strokes@ == mid.node(j).strokes@
                && post.node(j).children@ == mid.node(j).children@,
        post.spec_subtree_strokes(ci).to_multiset() == mid.spec_subtree_strokes(
            ci,
        ).to_multiset().insert(p),
    ensures
        post.spec_subtree_strokes(hi).to_multiset() == mid.spec_subtree_strokes(
            hi,
        ).to_multiset().insert(p),
{
    broadcast use vstd::seq_lib::lemma_multiset_commutative;
    broadcast use vstd::seq_lib::group_to_multiset_ensures;

    assert(mid.wf_node(hi));
    assert(mid.wf_child_link(hi, k));
    assert(!mid.under(hi, ci)) by {
        if mid.under(hi, ci) {
            mid.lemma_under_level(hi, ci);
        }
    }
    assert(post.node(hi).strokes@ == mid.node(hi).strokes@);
    assert(post.node(hi).children@ == mid.node(hi).children@);
    assert forall|kk: int| 0 <= kk < 4 && kk != k implies (match #[trigger] mid.node(
        hi,
    ).children@[kk] {
        Some(cc) => post.spec_subtree_strokes(cc.idx as int) == mid.spec_subtree_strokes(
            cc.idx as int,
        ),
        None => true,
    }) by {
        assert(mid.wf_child_link(hi, kk));
        if let Some(cc) = mid.node(hi).children@[kk] {
            assert(mid.wf_node(cc.idx as int));
            assert forall|j: int|
                mid.live(j) && mid.under(j, cc.idx as int) implies post.node(j).strokes@
                == mid.node(j).strokes@ && post.node(j).children@ == mid.node(j).children@ by {
                assert(!mid.under(j, ci)) by {
                    if mid.under(j, ci) {
                        mid.lemma_under_unique(j, cc.idx as int, ci);
                    }
                }
            }
            lemma_subtree_strokes_frame(mid, post, cc.idx as int);
        }
    }
    let s0 = mid.node(hi).strokes@;
    let subs = Seq::new(4, |kk: int| match mid.node(hi).children@[kk] {
        Some(cc) => mid.spec_subtree_strokes(cc.idx as int),
        None => Seq::empty(),
    });
    let subs2 = Seq::new(4, |kk: int| match post.node(hi).children@[kk] {
        Some(cc) => post.spec_subtree_strokes(cc.idx as int),
        None => Seq::empty(),
    });
    assert(mid.spec_subtree_strokes(hi) =~= s0 + subs[0] + subs[1] + subs[2] + subs[3]);
    assert(post.spec_subtree_strokes(hi) =~= s0 + subs2[0] + subs2[1] + subs2[2] + subs2[3]);
    lemma_concat5_to_multiset(s0, subs[0], subs[1], subs[2], subs[3]);
    lemma_concat5_to_multiset(s0, subs2[0], subs2[1], subs2[2], subs2[3]);
    assert forall|kk: int| 0 <= kk < 4 implies #[trigger] subs2[kk].to_multiset() == (if kk == k {
        subs[kk].to_multiset().insert(p)
    } else {
        subs[kk].to_multiset()
    }) by {
        if kk == k {
            assert(subs[kk] == mid.spec_subtree_strokes(ci));
            assert(subs2[kk] == post.spec_subtree_strokes(ci));
        }
    }
    assert(post.spec_subtree_strokes(hi).to_multiset() =~= mid.spec_subtree_strokes(
        hi,
    ).to_multiset().insert(p));
}

impl DrawNode {
    /// Route a segment in `h`'s local frame into the subtree of `h`:
    /// store it at the shallowest node whose unit square fully
    /// contains it.  Exactly one primitive, tagged `order`, is added
    /// to `h`'s subtree, and no node outside that subtree changes its
    /// strokes or children.
    pub fn send_stroke(
        arena: &mut Arena,
        h: Handle,
        x1: i64,
        y1: i64,
        x2: i64,
        y2: i64,
        scale: i64,
        style: StrokeStyle,
        order: u32,
    )
        requires
            old(arena).wf(),
            old(arena).valid(h),
            1 <= spec_extent(x1 as int, y1 as int, x2 as int, y2 as int),
            spec_extent(x1 as int, y1 as int, x2 as int, y2 as int) <= 2 * (UNIT as int),
            ({
                let e = spec_extent(x1 as int, y1 as int, x2 as int, y2 as int);
                &&& -(UNIT as int) - 2 * e <= x1 as int <= (UNIT as int) + 2 * e
                &&& -(UNIT as int) - 2 * e <= y1 as int <= (UNIT as int) + 2 * e
                &&& -(UNIT as int) - 2 * e <= x2 as int <= (UNIT as int) + 2 * e
                &&& -(UNIT as int) - 2 * e <= y2 as int <= (UNIT as int) + 2 * e
            }),
            0 <= scale,
            scale <= spec_extent(x1 as int, y1 as int, x2 as int, y2 as int) * 0x100_0000,
            0 <= style.width <= UNIT,
        ensures
            final(arena).wf(),
            final(arena).grows_from(*old(arena)),
            forall|i: int| 0 <= i < old(arena).n() ==> final(arena).live(i) == old(arena).live(i),
            spec_extent(x1 as int, y1 as int, x2 as int, y2 as int) >= HALF_UNIT as int ==> {
                &&& final(arena).n() == old(arena).n()
                &&& (forall|i: int|
                    old(arena).live(i) && i != h.idx as int ==> node_same(
                        final(arena).node(i),
                        old(arena).node(i),
                    ))
                &&& final(arena).node(h.idx as int).strokes@ == old(arena).node(
                    h.idx as int,
                ).strokes@.push(
                    (
                        Line::spec_from_points(
                            x1 as int,
                            y1 as int,
                            x2 as int,
                            y2 as int,
                            scale as int,
                            style,
                        ),
                        order,
                    ),
                )
                &&& final(arena).node(h.idx as int).children@ == old(arena).node(
                    h.idx as int,
                ).children@
            },
            spec_extent(x1 as int, y1 as int, x2 as int, y2 as int) < HALF_UNIT as int ==> {
                &&& final(arena).node(h.idx as int).strokes@ == old(arena).node(
                    h.idx as int,
                ).strokes@
                &&& final(arena).node(h.idx as int).children@[spec_corner_k(
                    (
                        spec_quadrant_bit(x1 as int, x2 as int),
                        spec_quadrant_bit(y1 as int, y2 as int),
                    ),
                )] is Some
            },
            forall|j: int|
                old(arena).live(j) && !old(arena).under(j, h.idx as int) ==> final(arena).node(
                    j,
                ).strokes@ == old(arena).node(j).strokes@ && final(arena).node(j).children@ == old(
                    arena,
                ).node(j).children@,
            final(arena).spec_subtree_strokes(h.idx as int).to_multiset() == old(
                arena,
            ).spec_subtree_strokes(h.idx as int).to_multiset().insert(
                (
                    spec_routed_stroke(
                        x1 as int,
                        y1 as int,
                        x2 as int,
                        y2 as int,
                        scale as int,
                        style,
                    ),
                    order,
                ),
            ),
        decreases (if spec_extent(x1 as int, y1 as int, x2 as int, y2 as int) >= HALF_UNIT as int {
            0int
        } else {
            (HALF_UNIT as int) - spec_extent(x1 as int, y1 as int, x2 as int, y2 as int)
        }),
    {
        broadcast use vstd::seq_lib::lemma_multiset_commutative;
        broadcast use vstd::seq_lib::group_to_multiset_ensures;

        let ghost pre = *arena;
        let ghost hi = h.idx as int;
        let ghost e = spec_extent(x1 as int, y1 as int, x2 as int, y2 as int);
        proof {
            assert(pre.wf_node(hi));
        }
        let ext = extent(x1, y1, x2, y2);
        if ext >= HALF_UNIT {
            let line = Line::from_points(x1, y1, x2, y2, scale, style);
            arena.slots[h.idx].node.strokes.push((line, order));
            proof {
                let post = *arena;
                assert forall|i: int| post.live(i) implies post.wf_node(i) by {
                    assert(pre.live(i));
                    assert(pre.wf_node(i));
                    assert forall|kk: int| 0 <= kk < 4 implies post.wf_child_link(i, kk) by {
                        assert(pre.wf_child_link(i, kk));
                    }
                    assert(post.wf_parent_link(i)) by {
                        assert(pre.wf_parent_link(i));
                    }
                    assert(post.wf_neighbor_links(i)) by {
                        assert(pre.wf_neighbor_links(i));
                    }
                }
                lemma_push_multiset(
                    pre,
                    post,
                    hi,
                    (
                        Line::spec_from_points(
                            x1 as int,
                            y1 as int,
                            x2 as int,
                            y2 as int,
                            scale as int,
                            style,
                        ),
                        order,
                    ),
                );
                assert(spec_routed_stroke(
                    x1 as int,
                    y1 as int,
                    x2 as int,
                    y2 as int,
                    scale as int,
                    style,
                ) == Line::spec_from_points(
                    x1 as int,
                    y1 as int,
                    x2 as int,
                    y2 as int,
                    scale as int,
                    style,
                ));
            }
        } else {
            let qx: u8 = if x1 + x2 > 0 {
                1
            } else {
                0
            };
            let qy: u8 = if y1 + y2 > 0 {
                1
            } else {
                0
            };
            let nx1 = if qx == 0 {
                2 * (x1 + HALF_UNIT)
            } else {
                2 * (x1 - HALF_UNIT)
            };
            let nx2 = if qx == 0 {
                2 * (x2 + HALF_UNIT)
            } else {
                2 * (x2 - HALF_UNIT)
            };
            let ny1 = if qy == 0 {
                2 * (y1 + HALF_UNIT)
            } else {
                2 * (y1 - HALF_UNIT)
            };
            let ny2 = if qy == 0 {
                2 * (y2 + HALF_UNIT)
            } else {
                2 * (y2 - HALF_UNIT)
            };
            let ghost ne = spec_extent(nx1 as int, ny1 as int, nx2 as int, ny2 as int);
            proof {
                assert(ne == 2 * e);
            }
            let c = DrawNode::get_or_create_child_from_corner(arena, h, (qx, qy));
            let ghost mid = *arena;
            let ghost ci = c.idx as int;
            let ghost k = spec_corner_k((qx, qy));
            proof {
                // The attachment (if any) leaves `h`'s traversal as it
                // was.
                if pre.node(hi).children@[k] is Some {
                    assert(mid.same_as(pre));
                    assert forall|j: int|
                        pre.live(j) && pre.under(j, hi) implies mid.node(j).strokes@ == pre.node(
                        j,
                    ).strokes@ && mid.node(j).children@ == pre.node(j).children@ by {
                        pre.lemma_under_level(j, hi);
                    }
                    lemma_subtree_strokes_frame(pre, mid, hi);
                } else {
                    lemma_subtree_after_attach(pre, mid, hi, hi, k, c);
                }
                assert(mid.spec_subtree_strokes(hi) == pre.spec_subtree_strokes(hi));
                assert(mid.wf_node(hi));
                assert(mid.wf_node(ci));
                assert(mid.level(ci) == pre.level(hi) + 1);
            }
            DrawNode::send_stroke(arena, c, nx1, ny1, nx2, ny2, 2 * scale, style, order);
            proof {
                let post = *arena;
                // `h` itself is above the child, so the recursive call
                // left its strokes and children alone.
                assert(!mid.under(hi, ci)) by {
                    if mid.under(hi, ci) {
                        mid.lemma_under_level(hi, ci);
                    }
                }
                assert(post.node(hi).strokes@ == mid.node(hi).strokes@);
                assert(post.node(hi).children@ == mid.node(hi).children@);
                assert(post.node(hi).children@[k] == Some(c));
                // Frame for nodes outside `h`'s subtree.
                assert forall|j: int|
                    pre.live(j) && !pre.under(j, hi) implies post.node(j).strokes@ == pre.node(
                    j,
                ).strokes@ && post.node(j).children@ == pre.node(j).children@ by {
                    assert(mid.node(j).strokes@ == pre.node(j).strokes@ && mid.node(j).children@
                        == pre.node(j).children@) by {
                        if j == hi {
                            assert(pre.under(hi, hi));
                        }
                    }
                    assert(!mid.under(j, ci)) by {
                        lemma_under_preserved(pre, mid, j, ci);
                        if ci < pre.n() {
                            // The child slot held `c` before, so `c`'s
                            // ancestors include `h`.
                            assert(pre.node(hi).children@[k] == Some(c));
                            assert(pre.wf_child_link(hi, k));
                            if pre.under(j, ci) {
                                assert(pre.node(ci).parent matches Some(q) && q.idx as int == hi);
                                assert(pre.under(ci, hi)) by {
                                    assert(pre.under(hi, hi));
                                }
                                pre.lemma_under_trans(j, ci, hi);
                                assert(false);
                            }
                        }
                    }
                }
                // The inserted primitive, lifted one level up.
                let l = spec_routed_stroke(
                    nx1 as int,
                    ny1 as int,
                    nx2 as int,
                    ny2 as int,
                    2 * scale as int,
                    style,
                );
                assert(post.spec_subtree_strokes(ci).to_multiset() == mid.spec_subtree_strokes(
                    ci,
                ).to_multiset().insert((l, order)));
                assert(l == spec_routed_stroke(
                    x1 as int,
                    y1 as int,
                    x2 as int,
                    y2 as int,
                    scale as int,
                    style,
                )) by {
                    assert(nx1 as int == spec_remap(x1 as int, spec_quadrant_bit(
                        x1 as int,
                        x2 as int,
                    )));
                    assert(nx2 as int == spec_remap(x2 as int, spec_quadrant_bit(
                        x1 as int,
                        x2 as int,
                    )));
                    assert(ny1 as int == spec_remap(y1 as int, spec_quadrant_bit(
                        y1 as int,
                        y2 as int,
                    )));
                    assert(ny2 as int == spec_remap(y2 as int, spec_quadrant_bit(
                        y1 as int,
                        y2 as int,
                    )));
                }
                lemma_lift_insert(mid, post, hi, ci, k, (l, order));
                assert(post.spec_subtree_strokes(hi).to_multiset() == pre.spec_subtree_strokes(
                    hi,
                ).to_multiset().insert((l, order)));
            }
        }
    }
}

/// Splitting a sequence at an insertion point and putting one element
/// between the halves inserts exactly that element into its multiset.
proof fn lemma_insert_to_multiset<T>(s: Seq<T>, i: int, e: T)
    requires
        0 <= i <= s.len(),
    ensures
        s.insert(i, e).to_multiset() == s.to_multiset().insert(e),
{
    broadcast use vstd::seq_lib::group_to_multiset_ensures;

    let left = s.subrange(0, i);
    let right = s.subrange(i, s.len() as int);
    assert(s.insert(i, e) =~= left + seq![e] + right);
    assert(s =~= left + right);
    vstd::seq_lib::lemma_multiset_commutative(left, seq![e]);
    vstd::seq_lib::lemma_multiset_commutative(left + seq![e], right);
    vstd::seq_lib::lemma_multiset_commutative(left, right);
    assert(seq![e] =~= Seq::<T>::empty().push(e));
    assert(seq![e].to_multiset() =~= Multiset::<T>::empty().insert(e));
    assert(s.insert(i, e).to_multiset() =~= s.to_multiset().insert(e));
}

/// Order collected primitives ascending by their global paint-order
/// tag: the sequence handed to the rendering collaborator.  The result
/// holds exactly the given primitives.
#[verifier::loop_isolation(false)]
pub fn sort_strokes(v: Vec<(Line, u32)>) -> (r: Vec<(Line, u32)>)
    ensures
        r@.to_multiset() == v@.to_multiset(),
        forall|i: int, j: int| 0 <= i < j < r@.len() ==> #[trigger] r@[i].1 <= #[trigger] r@[j].1,
{
    broadcast use vstd::seq_lib::group_to_multiset_ensures;

    let mut r: Vec<(Line, u32)> = Vec::new();
    let mut i: usize = 0;
    let n = v.len();
    proof {
        assert(v@.subrange(0, 0) =~= Seq::<(Line, u32)>::empty());
        assert(r@.to_multiset() =~= v@.subrange(0, 0).to_multiset());
    }
    while i < n
        invariant
            n == v@.len(),
            i <= n,
            r@.len() == i as int,
            r@.to_multiset() == v@.subrange(0, i as int).to_multiset(),
            forall|a: int, b: int| 0 <= a < b < r@.len() ==> #[trigger] r@[a].1
                <= #[trigger] r@[b].1,
        decreases n - i,
    {
        let e = v[i];
        // Find the first position whose tag exceeds the new one.
        let mut pos: usize = 0;
        while pos < r.len() && r[pos].1 <= e.1
            invariant
                pos <= r@.len(),
                forall|a: int| 0 <= a < pos as int ==> #[trigger] r@[a].1 <= e.1,
            decreases r@.len() - pos,
        {
            pos += 1;
        }
        let ghost r0 = r@;
        r.insert(pos, e);
        proof {
            lemma_insert_to_multiset(r0, pos as int, e);
            assert(r@ == r0.insert(pos as int, e));
            assert(r@.to_multiset() == r0.to_multiset().insert(e));
            assert(v@.subrange(0, i + 1 as int) =~= v@.subrange(0, i as int).push(e));
            assert(v@.subrange(0, i as int).push(e).to_multiset() =~= v@.subrange(
                0,
                i as int,
            ).to_multiset().insert(e));
            assert(r@.to_multiset() =~= v@.subrange(0, i + 1 as int).to_multiset());
            assert forall|a: int, b: int|
                0 <= a < b < r@.len() implies #[trigger] r@[a].1 <= #[trigger] r@[b].1 by {
                if b < pos as int {
                    assert(r@[a] == r0[a] && r@[b] == r0[b]);
                } else if a > pos as int {
                    assert(r@[a] == r0[a - 1] && r@[b] == r0[b - 1]);
                } else if a < pos as int && b == pos as int {
                    assert(r@[a] == r0[a]);
                    assert(r@[b].1 == e.1);
                } else if a == pos as int && b > pos as int {
                    assert(r@[b] == r0[b - 1]);
                    // Everything at or past the insertion point had a
                    // strictly larger tag.
                    assert((pos as int) < r0.len() ==> r0[pos as int].1 > e.1);
                    if pos as int <= b - 1 && b - 1 < r0.len() {
                        assert(r0[pos as int].1 <= r0[b - 1].1 || pos as int == b - 1);
                    }
                } else if a < pos as int && b > pos as int {
                    assert(r@[a] == r0[a] && r@[b] == r0[b - 1]);
                }
            }
        }
        i += 1;
    }
    proof {
        assert(v@.subrange(0, n as int) =~= v@);
    }
    r
}

} // verus!