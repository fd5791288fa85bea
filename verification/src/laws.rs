//! The laws that tie the operations together: statements about pairs
//! of calls and whole interactions, proved from the operations'
//! contracts over the same models those contracts use.
//!
//! Each lemma's hypotheses are facts that the named operations ensure;
//! a caller holding the corresponding pre- and post-states discharges
//! them directly from those contracts.

use vstd::prelude::*;
use vstd::multiset::Multiset;

use crate::geometry::Line;
use crate::structure::{Arena, Direction, Handle};
use crate::circular_buffer::CircularBuffer2D;
use crate::codec::{flat_subtree_strokes, FlatNode};

verus! {

/// Routing a stroke and then collecting the routed-into subtree sees
/// every prior primitive exactly once and the new one exactly once:
/// no loss, no duplication.  The hypotheses are what `send_stroke`
/// ensures about the subtree multiset and what `get_strokes` ensures
/// about its result.
pub proof fn lemma_route_then_collect_exact(
    pre: Arena,
    post: Arena,
    hi: int,
    l: Line,
    order: u32,
    collected: Seq<(Line, u32)>,
)
    requires
        post.spec_subtree_strokes(hi).to_multiset() == pre.spec_subtree_strokes(
            hi,
        ).to_multiset().insert((l, order)),
        collected == post.spec_subtree_strokes(hi),
    ensures
        collected.to_multiset() == pre.spec_subtree_strokes(hi).to_multiset().insert((l, order)),
        collected.to_multiset().count((l, order)) == pre.spec_subtree_strokes(
            hi,
        ).to_multiset().count((l, order)) + 1,
        forall|p: (Line, u32)|
            p != (l, order) ==> collected.to_multiset().count(p) == pre.spec_subtree_strokes(
                hi,
            ).to_multiset().count(p),
{
    broadcast use vstd::multiset::group_multiset_axioms;

}

/// Folding the per-call insertion law over a whole interaction: any
/// sequence of routings into an initially empty subtree leaves a
/// traversal multiset holding exactly the routed primitives, each
/// once.  `states` are the arena states around each call; the step
/// hypothesis is what `send_stroke` ensures of each adjacent pair.
pub proof fn lemma_route_sequence_collect(states: Seq<Arena>, prims: Seq<(Line, u32)>, hi: int)
    requires
        states.len() == prims.len() + 1,
        states[0].spec_subtree_strokes(hi).to_multiset() == Multiset::<(Line, u32)>::empty(),
        forall|i: int|
            0 <= i < prims.len() ==> #[trigger] states[i + 1].spec_subtree_strokes(
                hi,
            ).to_multiset() == states[i].spec_subtree_strokes(hi).to_multiset().insert(prims[i]),
    ensures
        states.last().spec_subtree_strokes(hi).to_multiset() == prims.to_multiset(),
    decreases prims.len(),
{
    broadcast use vstd::seq_lib::group_to_multiset_ensures;

    if prims.len() == 0 {
        assert(prims.to_multiset() =~= Multiset::<(Line, u32)>::empty());
    } else {
        let s0 = states.drop_last();
        let p0 = prims.drop_last();
        assert(s0[0] == states[0]);
        assert forall|i: int|
            0 <= i < p0.len() implies #[trigger] s0[i + 1].spec_subtree_strokes(hi).to_multiset()
            == s0[i].spec_subtree_strokes(hi).to_multiset().insert(p0[i]) by {
            assert(s0[i + 1] == states[i + 1]);
            assert(s0[i] == states[i]);
            assert(p0[i] == prims[i]);
        }
        lemma_route_sequence_collect(s0, p0, hi);
        let last_i = prims.len() - 1;
        assert(states.last().spec_subtree_strokes(hi).to_multiset() == states[
            last_i].spec_subtree_strokes(hi).to_multiset().insert(prims[last_i]));
        assert(s0.last() == states[last_i]);
        assert(prims =~= p0.push(prims[last_i]));
        assert(p0.push(prims[last_i]).to_multiset() =~= p0.to_multiset().insert(prims[last_i]));
    }
}

/// A positive-x shift followed by a negative-x shift restores every
/// non-evicted cell, leaves the evicted column absent, and has pruned
/// the evicted occupant wherever it was prunable and held nowhere
/// else in the window.  The hypotheses are the shift contracts.
pub proof fn lemma_shift_round_trip<const N: usize>(
    b0: CircularBuffer2D<N>,
    a0: Arena,
    b1: CircularBuffer2D<N>,
    a1: Arena,
    b2: CircularBuffer2D<N>,
    a2: Arena,
)
    requires
        // What shift_pos_x ensures of (b0, a0) -> (b1, a1):
        forall|x: int, y: int|
            CircularBuffer2D::<N>::in_range(x, y) && x != CircularBuffer2D::<N>::half()
                ==> #[trigger] b1.spec_get(x, y) == b0.spec_get(x + 1, y),
        forall|y: int|
            -CircularBuffer2D::<N>::half() <= y <= CircularBuffer2D::<N>::half()
                ==> #[trigger] b1.spec_get(CircularBuffer2D::<N>::half(), y) is None,
        forall|x: int, y: int|
            CircularBuffer2D::<N>::in_range(x, y) && x == -CircularBuffer2D::<N>::half() ==> (
            #[trigger] b0.spec_get(x, y) matches Some(h) ==> ((!b0.stored_elsewhere(x, y, h)
                && a0.cleanable(h.idx as int)) ==> !a1.valid(h))),
        // What shift_neg_x ensures of (b1, a1) -> (b2, a2):
        forall|x: int, y: int|
            CircularBuffer2D::<N>::in_range(x, y) && x != -CircularBuffer2D::<N>::half()
                ==> #[trigger] b2.spec_get(x, y) == b1.spec_get(x - 1, y),
        forall|y: int|
            -CircularBuffer2D::<N>::half() <= y <= CircularBuffer2D::<N>::half()
                ==> #[trigger] b2.spec_get(-CircularBuffer2D::<N>::half(), y) is None,
        forall|i: int| a2.live(i) ==> a1.live(i),
    ensures
        forall|x: int, y: int|
            CircularBuffer2D::<N>::in_range(x, y) && x != -CircularBuffer2D::<N>::half()
                ==> #[trigger] b2.spec_get(x, y) == b0.spec_get(x, y),
        forall|y: int|
            -CircularBuffer2D::<N>::half() <= y <= CircularBuffer2D::<N>::half()
                ==> #[trigger] b2.spec_get(-CircularBuffer2D::<N>::half(), y) is None,
        forall|y: int|
            -CircularBuffer2D::<N>::half() <= y <= CircularBuffer2D::<N>::half() ==> (
            #[trigger] b0.spec_get(-CircularBuffer2D::<N>::half(), y) matches Some(h) ==> ((
            !b0.stored_elsewhere(-CircularBuffer2D::<N>::half(), y, h) && a0.cleanable(
                h.idx as int,
            )) ==> !a2.valid(h))),
{
    let hf = CircularBuffer2D::<N>::half();
    assert forall|x: int, y: int|
        CircularBuffer2D::<N>::in_range(x, y) && x != -hf implies #[trigger] b2.spec_get(x, y)
        == b0.spec_get(x, y) by {
        assert(b2.spec_get(x, y) == b1.spec_get(x - 1, y));
        if x - 1 != hf {
            assert(b1.spec_get(x - 1, y) == b0.spec_get(x, y));
        }
    }
    assert forall|y: int|
        -hf <= y <= hf implies (#[trigger] b0.spec_get(-hf, y) matches Some(h) ==> ((
        !b0.stored_elsewhere(-hf, y, h) && a0.cleanable(h.idx as int)) ==> !a2.valid(h))) by {
        if let Some(h) = b0.spec_get(-hf, y) {
            if !b0.stored_elsewhere(-hf, y, h) && a0.cleanable(h.idx as int) {
                assert(!a1.valid(h));
                if a2.valid(h) {
                    assert(a1.live(h.idx as int));
                }
            }
        }
    }
}

/// Zooming in toward a corner and then immediately zooming out, with
/// no intervening pan and a window of pairwise-distinct occupants,
/// restores the pre-zoom center node at the window center.  The
/// window states are abstracted as cell maps; the hypotheses are what
/// the zoom contracts say of `spec_get` on each state.
#[verifier::rlimit(100)]
pub proof fn lemma_zoom_round_trip<const N: usize>(
    g0: spec_fn(int, int) -> Option<Handle>,
    a1: Arena,
    g1: spec_fn(int, int) -> Option<Handle>,
    g2: spec_fn(int, int) -> Option<Handle>,
    corner: (u8, u8),
    s: Handle,
    c: Handle,
)
    requires
        crate::structure::corner_ok(corner),
        g0(0, 0) == Some(s),
        // Pairwise distinct occupants before zooming:
        forall|x1: int, y1: int, x2: int, y2: int|
            CircularBuffer2D::<N>::in_range(x1, y1) && CircularBuffer2D::<N>::in_range(x2, y2)
                && !(x1 == x2 && y1 == y2) && #[trigger] g0(x1, y1) is Some ==> g0(x1, y1)
                != #[trigger] g0(x2, y2),
        // What zoom_in ensures of the window contents:
        forall|x: int, y: int|
            CircularBuffer2D::<N>::in_range(x, y) ==> (#[trigger] g0(
                CircularBuffer2D::<N>::zoom_src(x, corner.0),
                CircularBuffer2D::<N>::zoom_src(y, corner.1),
            ) matches Some(s2) ==> (g1(x, y) matches Some(c2) && a1.valid(c2) && a1.valid(s2)
                && a1.node(c2.idx as int).parent == Some(s2))),
        forall|x: int, y: int|
            CircularBuffer2D::<N>::in_range(x, y) ==> (#[trigger] g0(
                CircularBuffer2D::<N>::zoom_src(x, corner.0),
                CircularBuffer2D::<N>::zoom_src(y, corner.1),
            ) is None ==> g1(x, y) is None),
        g1(0, 0) == Some(c),
        // What zoom_out ensures of the window contents:
        forall|x: int, y: int|
            CircularBuffer2D::<N>::in_range(x, y) ==> (#[trigger] g2(x, y) matches Some(w) ==> (
            CircularBuffer2D::<N>::in_quarter(x, y) && (g1(2 * x, 2 * y) matches Some(v) && (
            a1.node(v.idx as int).parent matches Some(p0) ==> (a1.live(p0.idx as int) ==> w
                == p0))))),
        forall|x: int, y: int|
            CircularBuffer2D::<N>::in_quarter(x, y) ==> (#[trigger] g1(2 * x, 2 * y)
                matches Some(v) ==> (a1.node(v.idx as int).parent matches Some(p0) ==> (a1.live(
                p0.idx as int,
            ) ==> (g2(x, y) == Some(p0) || exists|x2: int, y2: int|
                CircularBuffer2D::<N>::in_quarter(x2, y2) && CircularBuffer2D::<N>::lex_before(
                    x2,
                    y2,
                    x,
                    y,
                ) && #[trigger] g2(x2, y2) == Some(p0))))),
        1 <= (N as int),
    ensures
        g2(0, 0) == Some(s),
{
    assert(CircularBuffer2D::<N>::zoom_src(0, corner.0) == 0 && CircularBuffer2D::<N>::zoom_src(
        0,
        corner.1,
    ) == 0) by {
        assert((0 + corner.0 as int) / 2 == 0);
        assert((0 + corner.1 as int) / 2 == 0);
    }
    assert(CircularBuffer2D::<N>::in_range(0, 0));
    assert(a1.node(c.idx as int).parent == Some(s) && a1.valid(s)) by {
        assert(g0(
            CircularBuffer2D::<N>::zoom_src(0, corner.0),
            CircularBuffer2D::<N>::zoom_src(0, corner.1),
        ) == Some(s));
    }
    assert(CircularBuffer2D::<N>::in_quarter(0, 0));
    if g2(0, 0) != Some(s) {
        assert(exists|x2: int, y2: int|
            CircularBuffer2D::<N>::in_quarter(x2, y2) && CircularBuffer2D::<N>::lex_before(
                x2,
                y2,
                0,
                0,
            ) && #[trigger] g2(x2, y2) == Some(s)) by {
            assert(g1(0, 0) == Some(c));
        }
        let (x2, y2) = choose|x2: int, y2: int|
            CircularBuffer2D::<N>::in_quarter(x2, y2) && CircularBuffer2D::<N>::lex_before(
                x2,
                y2,
                0,
                0,
            ) && #[trigger] g2(x2, y2) == Some(s);
        assert(CircularBuffer2D::<N>::in_range(x2, y2));
        assert(g1(2 * x2, 2 * y2) matches Some(v) && (a1.node(v.idx as int).parent matches Some(
            p0,
        ) ==> (a1.live(p0.idx as int) ==> s == p0)));
        let vv = g1(2 * x2, 2 * y2)->Some_0;
        let sx2 = CircularBuffer2D::<N>::zoom_src(2 * x2, corner.0);
        let sy2 = CircularBuffer2D::<N>::zoom_src(2 * y2, corner.1);
        assert(CircularBuffer2D::<N>::in_range(2 * x2, 2 * y2)) by {
            let hf = CircularBuffer2D::<N>::half();
            assert(2 * (hf / 2) <= hf) by (nonlinear_arith)
                requires
                    hf >= 0,
            ;
        }
        assert(g0(sx2, sy2) is Some) by {
            if g0(sx2, sy2) is None {
                assert(g1(2 * x2, 2 * y2) is Some);
            }
        }
        let s3 = g0(sx2, sy2)->Some_0;
        assert(a1.node(vv.idx as int).parent == Some(s3) && a1.valid(s3));
        assert(s == s3);
        assert(sx2 == x2 && sy2 == y2) by {
            assert((2 * x2 + corner.0 as int) / 2 == x2);
            assert((2 * y2 + corner.1 as int) / 2 == y2);
        }
        assert(g0(x2, y2) == Some(s));
        assert(!(x2 == 0 && y2 == 0));
        assert(g0(x2, y2) != g0(0, 0));
        assert(false);
    }
}

/// Exporting a window and importing the resulting snapshot reproduces
/// a center whose primitives, in traversal order, equal the
/// pre-export center's.  The hypotheses are what `export_snapshot`
/// and `import_snapshot` ensure through the flattened tree.
pub proof fn lemma_export_import_round_trip(
    t: Seq<FlatNode>,
    j2: int,
    pre: Arena,
    ci: int,
    post: Arena,
    c2: int,
)
    requires
        flat_subtree_strokes(t, j2) == pre.spec_subtree_strokes(ci),
        post.spec_subtree_strokes(c2) == flat_subtree_strokes(t, j2),
    ensures
        post.spec_subtree_strokes(c2) == pre.spec_subtree_strokes(ci),
        post.spec_subtree_strokes(c2).to_multiset() == pre.spec_subtree_strokes(
            ci,
        ).to_multiset(),
{
}

/// Asking for the same neighbor twice in a row, with no structural
/// change in between, returns the identical node and leaves everything
/// as it was.  The hypotheses are what the two `get_or_create_neighbor`
/// calls ensure.
pub proof fn lemma_neighbor_idempotent(
    a0: Arena,
    a1: Arena,
    a2: Arena,
    h: Handle,
    d: Direction,
    r1: Handle,
    r2: Handle,
)
    requires
        // First call, (a0) -> (a1, r1):
        a1.spec_neighbor(h.idx as int, d) == Some(r1),
        // Second call, (a1) -> (a2, r2):
        a1.spec_neighbor(h.idx as int, d) matches Some(r0) ==> r2 == r0 && a2.same_as(a1),
    ensures
        r2 == r1,
        a2.same_as(a1),
{
}

} // verus!
