//! The viewport paging buffer: a fixed N-by-N toroidal window of node
//! handles representing the currently relevant depth-uniform slice of
//! the spatial index.
//!
//! Cells are addressed by signed coordinates in `[-N/2, N/2]`, mapped
//! through a per-axis rotation offset; panning advances an offset by
//! one and evicts the row or column that rotates out, running cleanup
//! on each evicted occupant unless the same node is still held
//! elsewhere in the window.

use vstd::prelude::*;

use crate::structure::{cleanup_rel, corner_ok, node_same, Arena, Direction, DrawNode, Handle};

verus! {

/// The fixed toroidal window.  `N` must be odd, so that the signed
/// coordinate range `[-N/2, N/2]` has exactly `N` values per axis.
pub struct CircularBuffer2D<const N: usize> {
    /// Row-major cells: internal position `(ix, iy)` lives at
    /// `ix * N + iy`.  Always length `N * N`.
    pub data: Vec<Option<Handle>>,
    /// The rotation offset per axis.
    pub offset: (usize, usize),
}

/// Whatever can be offered a chance to release resources when a
/// window cell evicts it.
pub trait Cleanupable {
    /// What one cleanup attempt on this reference does to the arena.
    spec fn cleans(&self, pre: Arena, post: Arena) -> bool;

    /// Attempt cleanup of the referenced node.
    fn cleanup(&self, arena: &mut Arena)
        requires
            old(arena).wf(),
        ensures
            final(arena).wf(),
            self.cleans(*old(arena), *final(arena)),
    ;
}

impl Cleanupable for Handle {
    /// A stale handle leaves everything as it was; a live one is
    /// detached and freed exactly when prunable, with every surviving
    /// subtree traversal unchanged.
    open spec fn cleans(&self, pre: Arena, post: Arena) -> bool {
        &&& (if pre.valid(*self) {
            cleanup_rel(pre, post, *self)
        } else {
            post.same_as(pre)
        })
        &&& (forall|r: int|
            pre.live(r) && post.live(r) ==> post.spec_subtree_strokes(r)
                == pre.spec_subtree_strokes(r))
        &&& (forall|i: int| post.live(i) ==> pre.live(i))
    }

    fn cleanup(&self, arena: &mut Arena) {
        if arena.is_live(*self) {
            DrawNode::try_cleanup(arena, *self);
        }
    }
}

impl<const N: usize> CircularBuffer2D<N> {
    /// Half the window size: the largest addressable coordinate.
    pub open spec fn half() -> int {
        (N as int) / 2
    }

    /// Structural well-formedness of the window.
    pub open spec fn wf(self) -> bool {
        &&& 1 <= N as int <= 46340
        &&& (N as int) % 2 == 1
        &&& self.data@.len() == (N as int) * (N as int)
        &&& (self.offset.0 as int) < N as int
        &&& (self.offset.1 as int) < N as int
    }

    /// Whether `(x, y)` lies in the addressable window.
    pub open spec fn in_range(x: int, y: int) -> bool {
        &&& -Self::half() <= x <= Self::half()
        &&& -Self::half() <= y <= Self::half()
    }

    /// The data slot that the signed coordinates address, through the
    /// rotation offsets.
    pub open spec fn slot_of(self, x: int, y: int) -> int {
        ((x + Self::half() + self.offset.0 as int) % (N as int)) * (N as int) + ((y + Self::half()
            + self.offset.1 as int) % (N as int))
    }

    /// The cell contents at signed coordinates `(x, y)`.
    pub open spec fn spec_get(self, x: int, y: int) -> Option<Handle> {
        self.data@[self.slot_of(x, y)]
    }

    /// Whether some window cell holds `h`.
    pub open spec fn spec_contains(self, h: Handle) -> bool {
        exists|x: int, y: int|
            Self::in_range(x, y) && #[trigger] self.spec_get(x, y) == Some(h)
    }

    /// Whether a window cell other than `(x, y)` holds `h`.
    pub open spec fn stored_elsewhere(self, x: int, y: int, h: Handle) -> bool {
        exists|x2: int, y2: int|
            Self::in_range(x2, y2) && !(x2 == x && y2 == y) && #[trigger] self.spec_get(x2, y2)
                == Some(h)
    }

    /// Whether every occupied cell holds a node at depth `lv`: the
    /// window's defining depth-uniformity, relative to an arena.
    pub open spec fn depth_uniform(self, arena: Arena, lv: int) -> bool {
        forall|x: int, y: int|
            Self::in_range(x, y) ==> (#[trigger] self.spec_get(x, y) matches Some(h)
                ==> arena.level(h.idx as int) == lv)
    }

    /// Every occupied cell holds a live handle.
    pub open spec fn cells_valid(self, arena: Arena) -> bool {
        forall|x: int, y: int|
            Self::in_range(x, y) ==> (#[trigger] self.spec_get(x, y) matches Some(h)
                ==> arena.valid(h))
    }

    /// A residue after adding a positive wrap is either below the
    /// modulus already or reduced by one modulus.
    proof fn lemma_wrap(a: int, n: int)
        requires
            1 <= n,
            0 <= a <= 2 * n - 1,
        ensures
            a % n == (if a < n {
                a
            } else {
                a - n
            }),
    {
        if a < n {
            assert(a % n == a) by (nonlinear_arith)
                requires
                    0 <= a < n,
            ;
        } else {
            assert(a % n == a - n) by (nonlinear_arith)
                requires
                    1 <= n <= a <= 2 * n - 1,
            ;
        }
    }

    /// The slot of an in-range coordinate pair is a valid data index.
    proof fn lemma_slot_bounds(self, x: int, y: int)
        requires
            self.wf(),
            Self::in_range(x, y),
        ensures
            0 <= self.slot_of(x, y) < (N as int) * (N as int),
    {
        let n = N as int;
        let ax = x + Self::half() + self.offset.0 as int;
        let ay = y + Self::half() + self.offset.1 as int;
        Self::lemma_wrap(ax, n);
        Self::lemma_wrap(ay, n);
        assert(0 <= ax % n < n);
        assert(0 <= ay % n < n);
        assert((ax % n) * n + (ay % n) < n * n) by (nonlinear_arith)
            requires
                0 <= ax % n < n,
                0 <= ay % n < n,
        ;
        assert(0 <= (ax % n) * n) by (nonlinear_arith)
            requires
                0 <= ax % n,
                0 <= n,
        ;
    }

    /// Distinct in-range coordinates address distinct slots.
    proof fn lemma_slot_injective(self, x1: int, y1: int, x2: int, y2: int)
        requires
            self.wf(),
            Self::in_range(x1, y1),
            Self::in_range(x2, y2),
            self.slot_of(x1, y1) == self.slot_of(x2, y2),
        ensures
            x1 == x2 && y1 == y2,
    {
        let n = N as int;
        let ax1 = x1 + Self::half() + self.offset.0 as int;
        let ay1 = y1 + Self::half() + self.offset.1 as int;
        let ax2 = x2 + Self::half() + self.offset.0 as int;
        let ay2 = y2 + Self::half() + self.offset.1 as int;
        Self::lemma_wrap(ax1, n);
        Self::lemma_wrap(ay1, n);
        Self::lemma_wrap(ax2, n);
        Self::lemma_wrap(ay2, n);
        assert((ax1 % n) == (ax2 % n) && (ay1 % n) == (ay2 % n)) by (nonlinear_arith)
            requires
                0 <= ax1 % n < n,
                0 <= ax2 % n < n,
                0 <= ay1 % n < n,
                0 <= ay2 % n < n,
                (ax1 % n) * n + (ay1 % n) == (ax2 % n) * n + (ay2 % n),
        ;
    }

    /// Bounds for the flat row-major index of an in-range cell in an
    /// unrotated window.
    proof fn lemma_flat_idx(x: int, y: int)
        requires
            1 <= N as int <= 46340,
            (N as int) % 2 == 1,
            Self::in_range(x, y),
        ensures
            0 <= (x + Self::half()) * (N as int) + (y + Self::half()) < (N as int) * (N as int),
            (N as int) * (N as int) <= 2147395600,
            (x + Self::half()) * (N as int) >= 0,
    {
        assert(0 <= (x + Self::half()) * (N as int) + (y + Self::half()) < (N as int) * (N as int)
            && (N as int) * (N as int) <= 2147395600 && (x + Self::half()) * (N as int) >= 0)
            by (nonlinear_arith)
            requires
                0 <= x + Self::half() < N as int,
                0 <= y + Self::half() < N as int,
                1 <= N as int <= 46340,
        ;
    }

    /// Distinct in-range cells have distinct flat indices.
    proof fn lemma_flat_idx_ne(x1: int, y1: int, x2: int, y2: int)
        requires
            1 <= N as int <= 46340,
            (N as int) % 2 == 1,
            Self::in_range(x1, y1),
            Self::in_range(x2, y2),
            !(x1 == x2 && y1 == y2),
        ensures
            (x1 + Self::half()) * (N as int) + (y1 + Self::half()) != (x2 + Self::half()) * (
            N as int) + (y2 + Self::half()),
    {
        assert((x1 + Self::half()) * (N as int) + (y1 + Self::half()) != (x2 + Self::half()) * (
        N as int) + (y2 + Self::half())) by (nonlinear_arith)
            requires
                0 <= x1 + Self::half() < N as int,
                0 <= y1 + Self::half() < N as int,
                0 <= x2 + Self::half() < N as int,
                0 <= y2 + Self::half() < N as int,
                !(x1 == x2 && y1 == y2),
        ;
    }

    /// In an unrotated window the slot of a cell is its flat index.
    proof fn lemma_flat_slot(self, x: int, y: int)
        requires
            self.wf(),
            self.offset == (0usize, 0usize),
            Self::in_range(x, y),
        ensures
            self.slot_of(x, y) == (x + Self::half()) * (N as int) + (y + Self::half()),
    {
        Self::lemma_wrap(x + Self::half(), N as int);
        Self::lemma_wrap(y + Self::half(), N as int);
    }

    /// The data index of the cell at `(x, y)`.
    fn slot_index(&self, x: i32, y: i32) -> (r: usize)
        requires
            self.wf(),
            Self::in_range(x as int, y as int),
        ensures
            r as int == self.slot_of(x as int, y as int),
            (r as int) < (N as int) * (N as int),
    {
        let n = N as i32;
        let ix = (((x + n / 2) as usize) + self.offset.0) % N;
        let iy = (((y + n / 2) as usize) + self.offset.1) % N;
        proof {
            self.lemma_slot_bounds(x as int, y as int);
            assert(ix < N && iy < N);
            assert((ix as int) * (N as int) + (iy as int) < (N as int) * (N as int)
                && (ix as int) * (N as int) + (iy as int) <= 2147395600) by (nonlinear_arith)
                requires
                    0 <= (ix as int) && (ix as int) < (N as int),
                    0 <= (iy as int) && (iy as int) < (N as int),
                    (N as int) <= 46340,
            ;
            assert(ix as int == (x as int + Self::half() + self.offset.0 as int) % (N as int));
            assert(iy as int == (y as int + Self::half() + self.offset.1 as int) % (N as int));
        }
        ix * N + iy
    }

    /// An empty window.
    pub fn new() -> (r: Self)
        requires
            1 <= N,
            N <= 46340,
            (N as int) % 2 == 1,
        ensures
            r.wf(),
            r.offset == (0usize, 0usize),
            forall|x: int, y: int|
                Self::in_range(x, y) ==> #[trigger] r.spec_get(x, y) is None,
    {
        proof {
            assert((N as int) * (N as int) <= 2147395600) by (nonlinear_arith)
                requires
                    1 <= N as int <= 46340,
            ;
        }
        let total = N * N;
        let mut data: Vec<Option<Handle>> = Vec::new();
        let mut i: usize = 0;
        while i < total
            invariant
                total == N * N,
                i <= total,
                data@.len() == i as int,
                forall|j: int| 0 <= j < i as int ==> data@[j] is None,
            decreases total - i,
        {
            data.push(None);
            i += 1;
        }
        let r = CircularBuffer2D { data, offset: (0, 0) };
        proof {
            assert forall|x: int, y: int| Self::in_range(x, y) implies #[trigger] r.spec_get(
                x,
                y,
            ) is None by {
                r.lemma_slot_bounds(x, y);
            }
        }
        r
    }

    /// The occupant of the cell at `(x, y)`.
    pub fn get(&self, x: i32, y: i32) -> (r: Option<Handle>)
        requires
            self.wf(),
            Self::in_range(x as int, y as int),
        ensures
            r == self.spec_get(x as int, y as int),
    {
        let idx = self.slot_index(x, y);
        self.data[idx]
    }

    /// Whether any window cell currently holds `h`.
    pub fn contains_handle(&self, h: Handle) -> (r: bool)
        requires
            self.wf(),
        ensures
            r == self.spec_contains(h),
    {
        let n = N as i32;
        let half = n / 2;
        let mut x: i32 = -half;
        while x <= half
            invariant
                self.wf(),
                N as i32 == n,
                half == n / 2,
                -half <= x <= half + 1,
                forall|x2: int, y2: int|
                    Self::in_range(x2, y2) && x2 < x as int ==> #[trigger] self.spec_get(x2, y2)
                        != Some(h),
            decreases half + 1 - x,
        {
            let mut y: i32 = -half;
            while y <= half
                invariant
                    self.wf(),
                    N as i32 == n,
                    half == n / 2,
                    -half <= x <= half,
                    -half <= y <= half + 1,
                    forall|x2: int, y2: int|
                        Self::in_range(x2, y2) && x2 < x as int ==> #[trigger] self.spec_get(
                            x2,
                            y2,
                        ) != Some(h),
                    forall|y2: int|
                        -Self::half() <= y2 < y as int ==> #[trigger] self.spec_get(x as int, y2)
                            != Some(h),
                decreases half + 1 - y,
            {
                let cell = self.get(x, y);
                if let Some(g) = cell {
                    if g.idx == h.idx {
                        proof {
                            assert(self.spec_get(x as int, y as int) == Some(h));
                        }
                        return true;
                    }
                }
                y += 1;
            }
            x += 1;
        }
        proof {
            assert(!self.spec_contains(h));
        }
        false
    }

    /// Empty the cell at `(x, y)`.  The evicted occupant, if any, gets
    /// a cleanup attempt, unless the same node is still held by
    /// another cell of the window.
    pub fn clear(&mut self, arena: &mut Arena, x: i32, y: i32)
        requires
            old(self).wf(),
            Self::in_range(x as int, y as int),
            old(arena).wf(),
            old(self).cells_valid(*old(arena)),
        ensures
            final(self).wf(),
            final(arena).wf(),
            final(self).offset == old(self).offset,
            final(self).spec_get(x as int, y as int) is None,
            forall|x2: int, y2: int|
                Self::in_range(x2, y2) && !(x2 == x as int && y2 == y as int)
                    ==> #[trigger] final(self).spec_get(x2, y2) == old(self).spec_get(x2, y2),
            final(self).cells_valid(*final(arena)),
            old(self).spec_get(x as int, y as int) is None ==> final(arena).same_as(*old(arena)),
            old(self).spec_get(x as int, y as int) matches Some(h) ==> (old(self).stored_elsewhere(x as int, y as int, h) ==> final(arena).same_as(*old(arena))),
            old(self).spec_get(x as int, y as int) matches Some(h) ==> (!old(self).stored_elsewhere(x as int, y as int, h) ==> cleanup_rel(
                *old(arena),
                *final(arena),
                h,
            )),
            forall|r: int|
                old(arena).live(r) && final(arena).live(r) ==> final(arena).spec_subtree_strokes(r) == old(arena).spec_subtree_strokes(r),
            forall|i: int| final(arena).live(i) ==> old(arena).live(i),
            final(arena).n() == old(arena).n(),
            final(arena).levels@ == old(arena).levels@,
    {
        let idx = self.slot_index(x, y);
        let occupant = self.data[idx];
        self.data[idx] = None;
        proof {
            assert(final(self).data@.len() == old(self).data@.len());
            assert forall|x2: int, y2: int|
                Self::in_range(x2, y2) && !(x2 == x as int && y2 == y as int) implies #[trigger] self.spec_get(
                x2,
                y2,
            ) == old(self).spec_get(x2, y2) by {
                self.lemma_slot_bounds(x2, y2);
                if self.slot_of(x2, y2) == self.slot_of(x as int, y as int) {
                    self.lemma_slot_injective(x2, y2, x as int, y as int);
                }
            }
        }
        if let Some(h) = occupant {
            let ghost mid_self = *self;
            if !self.contains_handle(h) {
                proof {
                    assert(old(arena).valid(h)) by {
                        assert(old(self).spec_get(x as int, y as int) == Some(h));
                    }
                    assert(!old(self).stored_elsewhere(x as int, y as int, h)) by {
                        if old(self).stored_elsewhere(x as int, y as int, h) {
                            let (x2, y2) = choose|x2: int, y2: int|
                                Self::in_range(x2, y2) && !(x2 == x as int && y2 == y as int)
                                    && #[trigger] old(self).spec_get(x2, y2) == Some(h);
                            assert(mid_self.spec_get(x2, y2) == Some(h));
                            assert(mid_self.spec_contains(h));
                        }
                    }
                }
                h.cleanup(arena);
                proof {
                    assert(cleanup_rel(*old(arena), *arena, h));
                    assert forall|r: int|
                        old(arena).live(r) && arena.live(r) implies arena.spec_subtree_strokes(r)
                        == old(arena).spec_subtree_strokes(r) by {}
                    assert forall|x2: int, y2: int| Self::in_range(x2, y2) implies (
                    #[trigger] self.spec_get(x2, y2) matches Some(g) ==> arena.valid(g)) by {
                        if let Some(g) = self.spec_get(x2, y2) {
                            assert(old(self).spec_get(x2, y2) == Some(g));
                            assert(old(arena).valid(g));
                            assert(g != h) by {
                                assert(!(x2 == x as int && y2 == y as int));
                            }
                        }
                    }
                }
            } else {
                proof {
                    assert(old(self).stored_elsewhere(x as int, y as int, h)) by {
                        let (x2, y2) = choose|x2: int, y2: int|
                            Self::in_range(x2, y2) && #[trigger] mid_self.spec_get(x2, y2) == Some(
                                h,
                            );
                        assert(!(x2 == x as int && y2 == y as int));
                        assert(old(self).spec_get(x2, y2) == Some(h));
                    }
                }
            }
        }
    }

    /// Store `obj` at `(x, y)`, evicting (and offering cleanup to)
    /// any prior occupant other than `obj` itself.
    pub fn set(&mut self, arena: &mut Arena, x: i32, y: i32, obj: Handle)
        requires
            old(self).wf(),
            Self::in_range(x as int, y as int),
            old(arena).wf(),
            old(arena).valid(obj),
            old(self).cells_valid(*old(arena)),
        ensures
            final(self).wf(),
            final(arena).wf(),
            final(self).offset == old(self).offset,
            final(self).spec_get(x as int, y as int) == Some(obj),
            forall|x2: int, y2: int|
                Self::in_range(x2, y2) && !(x2 == x as int && y2 == y as int)
                    ==> #[trigger] final(self).spec_get(x2, y2) == old(self).spec_get(x2, y2),
            final(self).cells_valid(*final(arena)),
            final(arena).valid(obj),
            (old(self).spec_get(x as int, y as int) is None || old(self).spec_get(
                x as int,
                y as int,
            ) == Some(obj)) ==> final(arena).same_as(*old(arena)),
            old(self).spec_get(x as int, y as int) matches Some(h) ==> ((h != obj && old(self).stored_elsewhere(x as int, y as int, h)) ==> final(arena).same_as(*old(arena))),
            old(self).spec_get(x as int, y as int) matches Some(h) ==> ((h != obj && !old(self).stored_elsewhere(x as int, y as int, h)) ==> cleanup_rel(
                *old(arena),
                *final(arena),
                h,
            )),
            forall|r: int|
                old(arena).live(r) && final(arena).live(r) ==> final(arena).spec_subtree_strokes(r) == old(arena).spec_subtree_strokes(r),
            forall|i: int| final(arena).live(i) ==> old(arena).live(i),
            final(arena).n() == old(arena).n(),
            final(arena).levels@ == old(arena).levels@,
    {
        let ghost pre_a = *old(arena);
        let idx = self.slot_index(x, y);
        let occupant = self.data[idx];
        let same = match occupant {
            Some(g) => g.idx == obj.idx,
            None => false,
        };
        if !same {
            self.clear(arena, x, y);
        }
        proof {
            assert(arena.valid(obj)) by {
                if let Some(h) = old(self).spec_get(x as int, y as int) {
                    if h != obj && !old(self).stored_elsewhere(x as int, y as int, h) {
                        assert(cleanup_rel(pre_a, *arena, h));
                    }
                }
            }
        }
        let idx2 = self.slot_index(x, y);
        let ghost mid_self = *self;
        self.data[idx2] = Some(obj);
        proof {
            assert forall|x2: int, y2: int|
                Self::in_range(x2, y2) && !(x2 == x as int && y2 == y as int) implies #[trigger] self.spec_get(
                x2,
                y2,
            ) == mid_self.spec_get(x2, y2) by {
                self.lemma_slot_bounds(x2, y2);
                if self.slot_of(x2, y2) == self.slot_of(x as int, y as int) {
                    self.lemma_slot_injective(x2, y2, x as int, y as int);
                }
            }
            assert(self.spec_get(x as int, y as int) == Some(obj));
        }
    }

    /// Empty every cell of the window, offering cleanup to each
    /// occupant.  Handles not held by any window cell stay live; a
    /// surviving node keeps its strokes, parent and corner, and a
    /// child slot changes only by losing a link to a pruned node.
    pub fn clear_all(&mut self, arena: &mut Arena)
        requires
            old(self).wf(),
            old(arena).wf(),
            old(self).cells_valid(*old(arena)),
        ensures
            final(self).wf(),
            final(arena).wf(),
            final(self).offset == old(self).offset,
            forall|x: int, y: int|
                Self::in_range(x, y) ==> #[trigger] final(self).spec_get(x, y) is None,
            final(self).cells_valid(*final(arena)),
            final(arena).n() == old(arena).n(),
            final(arena).levels@ == old(arena).levels@,
            final(arena).min_level() == old(arena).min_level(),
            final(arena).max_level() == old(arena).max_level(),
            forall|i: int| final(arena).live(i) ==> old(arena).live(i),
            forall|hh: Handle|
                old(arena).valid(hh) && !old(self).spec_contains(hh) ==> final(arena).valid(hh),
            forall|i: int|
                old(arena).live(i) && final(arena).live(i) ==> final(arena).node(i).strokes@
                    == old(arena).node(i).strokes@ && final(arena).node(i).parent == old(arena).node(i).parent && final(arena).node(i).corner == old(arena).node(i).corner,
            forall|r: int|
                old(arena).live(r) && final(arena).live(r) ==> final(arena).spec_subtree_strokes(r) == old(arena).spec_subtree_strokes(r),
            forall|i: int, k: int|
                old(arena).live(i) && final(arena).live(i) && 0 <= k < 4 ==> (#[trigger] final(arena).node(i).children@[k] == old(arena).node(i).children@[k] || (final(arena).node(
                    i,
                ).children@[k] is None && (old(arena).node(i).children@[k] matches Some(cc)
                    && !final(arena).valid(cc)))),
            forall|x: int, y: int|
                Self::in_range(x, y) ==> (#[trigger] old(self).spec_get(x, y) matches Some(h)
                    ==> ((!old(self).stored_elsewhere(x, y, h) && old(arena).cleanable(
                    h.idx as int,
                )) ==> !final(arena).valid(h))),
    {
        let n = N as i32;
        let half = n / 2;
        let mut x: i32 = -half;
        while x <= half
            invariant
                self.wf(),
                arena.wf(),
                self.cells_valid(*arena),
                N as i32 == n,
                half == n / 2,
                -half <= x <= half + 1,
                self.offset == old(self).offset,
                forall|x2: int, y2: int|
                    Self::in_range(x2, y2) && x2 < x as int ==> #[trigger] self.spec_get(
                        x2,
                        y2,
                    ) is None,
                forall|x2: int, y2: int|
                    Self::in_range(x2, y2) && x2 >= x as int ==> #[trigger] self.spec_get(x2, y2)
                        == old(self).spec_get(x2, y2),
                arena.n() == old(arena).n(),
                arena.levels@ == old(arena).levels@,
                arena.min_level() == old(arena).min_level(),
                arena.max_level() == old(arena).max_level(),
                forall|i: int| arena.live(i) ==> old(arena).live(i),
                forall|hh: Handle|
                    old(arena).valid(hh) && !old(self).spec_contains(hh) ==> arena.valid(hh),
                forall|i: int|
                    old(arena).live(i) && arena.live(i) ==> arena.node(i).strokes@ == old(arena).node(i).strokes@ && arena.node(i).parent == old(arena).node(i).parent
                        && arena.node(i).corner == old(arena).node(i).corner,
                forall|r: int|
                    old(arena).live(r) && arena.live(r) ==> arena.spec_subtree_strokes(r) == old(arena).spec_subtree_strokes(r),
                forall|i: int, k: int|
                    old(arena).live(i) && arena.live(i) && 0 <= k < 4 ==> (#[trigger] arena.node(
                        i,
                    ).children@[k] == old(arena).node(i).children@[k] || (arena.node(
                        i,
                    ).children@[k] is None && (old(arena).node(i).children@[k] matches Some(cc)
                        && !arena.valid(cc)))),
                forall|x2: int, y2: int|
                    Self::in_range(x2, y2) && x2 < x as int ==> (#[trigger] old(self).spec_get(
                        x2,
                        y2,
                    ) matches Some(h) ==> ((!old(self).stored_elsewhere(x2, y2, h) && old(arena).cleanable(h.idx as int)) ==> !arena.valid(h))),
                forall|x2: int, y2: int|
                    Self::in_range(x2, y2) && x2 >= x as int ==> (#[trigger] old(self).spec_get(
                        x2,
                        y2,
                    ) matches Some(h) ==> ((!old(self).stored_elsewhere(x2, y2, h) && old(arena).cleanable(h.idx as int)) ==> arena.valid(h) && arena.cleanable(
                        h.idx as int,
                    ))),
            decreases half + 1 - x,
        {
            let mut y: i32 = -half;
            while y <= half
                invariant
                    self.wf(),
                    arena.wf(),
                    self.cells_valid(*arena),
                    N as i32 == n,
                    half == n / 2,
                    -half <= x <= half,
                    -half <= y <= half + 1,
                    self.offset == old(self).offset,
                    forall|x2: int, y2: int|
                        Self::in_range(x2, y2) && (x2 < x as int || (x2 == x as int && y2
                            < y as int)) ==> #[trigger] self.spec_get(x2, y2) is None,
                    forall|x2: int, y2: int|
                        Self::in_range(x2, y2) && (x2 > x as int || (x2 == x as int && y2
                            >= y as int)) ==> #[trigger] self.spec_get(x2, y2) == old(self).spec_get(x2, y2),
                    arena.n() == old(arena).n(),
                    arena.levels@ == old(arena).levels@,
                    arena.min_level() == old(arena).min_level(),
                    arena.max_level() == old(arena).max_level(),
                    forall|i: int| arena.live(i) ==> old(arena).live(i),
                    forall|hh: Handle|
                        old(arena).valid(hh) && !old(self).spec_contains(hh) ==> arena.valid(hh),
                    forall|i: int|
                        old(arena).live(i) && arena.live(i) ==> arena.node(i).strokes@ == old(arena).node(i).strokes@ && arena.node(i).parent == old(arena).node(i).parent
                            && arena.node(i).corner == old(arena).node(i).corner,
                    forall|r: int|
                        old(arena).live(r) && arena.live(r) ==> arena.spec_subtree_strokes(r)
                            == old(arena).spec_subtree_strokes(r),
                    forall|i: int, k: int|
                        old(arena).live(i) && arena.live(i) && 0 <= k < 4 ==> (
                        #[trigger] arena.node(i).children@[k] == old(arena).node(i).children@[k]
                            || (arena.node(i).children@[k] is None && (old(arena).node(
                            i,
                        ).children@[k] matches Some(cc) && !arena.valid(cc)))),
                    forall|x2: int, y2: int|
                        Self::in_range(x2, y2) && (x2 < x as int || (x2 == x as int && y2
                            < y as int)) ==> (#[trigger] old(self).spec_get(x2, y2)
                            matches Some(h) ==> ((!old(self).stored_elsewhere(x2, y2, h) && old(arena).cleanable(h.idx as int)) ==> !arena.valid(h))),
                    forall|x2: int, y2: int|
                        Self::in_range(x2, y2) && (x2 > x as int || (x2 == x as int && y2
                            >= y as int)) ==> (#[trigger] old(self).spec_get(x2, y2)
                            matches Some(h) ==> ((!old(self).stored_elsewhere(x2, y2, h) && old(arena).cleanable(h.idx as int)) ==> arena.valid(h) && arena.cleanable(
                            h.idx as int,
                        ))),
                decreases half + 1 - y,
            {
                let ghost a0 = *arena;
                let ghost b0 = *self;
                let ghost ev = self.spec_get(x as int, y as int);
                self.clear(arena, x, y);
                proof {
                    if let Some(h) = ev {
                        assert(old(self).spec_get(x as int, y as int) == Some(h));
                        assert(old(self).spec_contains(h));
                        // A duplicate in the current window maps back
                        // to a duplicate in the pre-call window.
                        if b0.stored_elsewhere(x as int, y as int, h) {
                            assert(old(self).stored_elsewhere(x as int, y as int, h)) by {
                                let (x2, y2) = choose|x2: int, y2: int|
                                    Self::in_range(x2, y2) && !(x2 == x as int && y2 == y as int)
                                        && #[trigger] b0.spec_get(x2, y2) == Some(h);
                                assert(x2 > x as int || (x2 == x as int && y2 >= y as int)) by {
                                    if x2 < x as int || (x2 == x as int && y2 < y as int) {
                                        assert(b0.spec_get(x2, y2) is None);
                                    }
                                }
                                assert(old(self).spec_get(x2, y2) == Some(h));
                            }
                        }
                        // Pending unique prunable occupants keep their
                        // prunability through this step.
                        assert forall|x2: int, y2: int|
                            Self::in_range(x2, y2) && (x2 > x as int || (x2 == x as int && y2 >= y
                                as int + 1)) implies (#[trigger] old(self).spec_get(x2, y2)
                            matches Some(hh) ==> ((!old(self).stored_elsewhere(x2, y2, hh)
                            && old(arena).cleanable(hh.idx as int)) ==> arena.valid(hh)
                            && arena.cleanable(hh.idx as int))) by {
                            if let Some(hh) = old(self).spec_get(x2, y2) {
                                if !old(self).stored_elsewhere(x2, y2, hh) && old(arena).cleanable(hh.idx as int) {
                                    assert(a0.valid(hh) && a0.cleanable(hh.idx as int));
                                    if arena.same_as(a0) {
                                    } else {
                                        assert(cleanup_rel(a0, *arena, h));
                                        assert(a0.cleanable(h.idx as int));
                                        assert(hh != h) by {
                                            if hh == h {
                                                assert(old(self).spec_get(x as int, y as int)
                                                    == Some(hh));
                                                assert(old(self).stored_elsewhere(x2, y2, hh));
                                            }
                                        }
                                        let q = a0.node(hh.idx as int).parent->Some_0;
                                        let hp = a0.node(h.idx as int).parent->Some_0;
                                        assert(q.idx as int != h.idx as int) by {
                                            if q.idx as int == h.idx as int {
                                                assert(a0.wf_node(hh.idx as int));
                                                assert(a0.wf_parent_link(hh.idx as int));
                                                assert(a0.has_children(h.idx as int));
                                            }
                                        }
                                        assert(hh.idx as int != hp.idx as int) by {
                                            if hh.idx as int == hp.idx as int {
                                                assert(a0.wf_node(h.idx as int));
                                                assert(a0.wf_parent_link(h.idx as int));
                                                assert(a0.has_children(hh.idx as int));
                                            }
                                        }
                                        assert(node_same(arena.node(hh.idx as int), a0.node(
                                            hh.idx as int,
                                        )));
                                        assert(arena.valid(hh));
                                        assert(arena.live(q.idx as int));
                                        assert(!arena.has_children(hh.idx as int)) by {
                                            if arena.has_children(hh.idx as int) {
                                                assert(a0.has_children(hh.idx as int));
                                            }
                                        }
                                        assert(arena.cleanable(hh.idx as int));
                                    }
                                }
                            }
                        }
                        // Settle the claim for this cell.
                        if !old(self).stored_elsewhere(x as int, y as int, h) && old(arena).cleanable(h.idx as int) {
                            assert(a0.valid(h) && a0.cleanable(h.idx as int));
                            assert(!b0.stored_elsewhere(x as int, y as int, h));
                            assert(cleanup_rel(a0, *arena, h));
                            assert(!arena.valid(h));
                        }
                        if !arena.same_as(a0) {
                            assert(cleanup_rel(a0, *arena, h));
                            assert(a0.cleanable(h.idx as int));
                            let hp = a0.node(h.idx as int).parent->Some_0;
                            let hpi = hp.idx as int;
                            let kh = crate::structure::spec_corner_k(a0.node(h.idx as int).corner);
                            assert(a0.live(hpi));
                            assert(a0.wf_node(h.idx as int));
                            assert forall|i: int| arena.live(i) implies a0.live(i) by {
                                if i == h.idx as int {
                                    assert(!arena.valid(h));
                                }
                            }
                            assert forall|i: int|
                                a0.live(i) && arena.live(i) implies arena.node(i).strokes@
                                == a0.node(i).strokes@ && arena.node(i).parent == a0.node(
                                i,
                            ).parent && arena.node(i).corner == a0.node(i).corner by {
                                if i != hpi && i != h.idx as int {
                                    assert(node_same(arena.node(i), a0.node(i)));
                                }
                            }
                            assert forall|i: int, k: int|
                                a0.live(i) && arena.live(i) && 0 <= k < 4 implies (
                            #[trigger] arena.node(i).children@[k] == a0.node(i).children@[k] || (
                            arena.node(i).children@[k] is None && (a0.node(i).children@[k]
                                matches Some(cc) && !arena.valid(cc)))) by {
                                if i == hpi {
                                    if k == kh {
                                        assert(arena.node(i).children@[k] is None);
                                        if let Some(cc) = a0.node(i).children@[k] {
                                            assert(cc.idx as int == h.idx as int) by {
                                                assert(a0.wf_parent_link(h.idx as int));
                                            }
                                            assert(!arena.valid(cc));
                                        }
                                    } else {
                                        assert(arena.node(i).children@[k] == a0.node(
                                            i,
                                        ).children@[k]);
                                    }
                                } else if i != h.idx as int {
                                    assert(node_same(arena.node(i), a0.node(i)));
                                }
                            }
                            assert forall|i: int, k: int|
                                old(arena).live(i) && arena.live(i) && 0 <= k < 4 implies (
                            #[trigger] arena.node(i).children@[k] == old(arena).node(
                                i,
                            ).children@[k] || (arena.node(i).children@[k] is None && (old(arena).node(i).children@[k] matches Some(cc) && !arena.valid(cc)))) by {
                                assert(a0.live(i));
                                if a0.node(i).children@[k] == old(arena).node(i).children@[k] {
                                } else {
                                    assert(a0.node(i).children@[k] is None);
                                    if let Some(cc) = old(arena).node(i).children@[k] {
                                        assert(!a0.valid(cc));
                                        assert(!arena.valid(cc));
                                        assert(arena.node(i).children@[k] is None);
                                    }
                                }
                            }
                        }
                    } else {
                        assert(arena.same_as(a0));
                    }
                }
                y += 1;
            }
            x += 1;
        }
    }

    /// Advance the horizontal rotation offset one unit toward
    /// positive or negative x: the window's cells slide one column,
    /// the column that rotates out of the window is evicted, and each
    /// evicted occupant is offered cleanup.  `sx` is `1` for the
    /// positive direction and `-1` for the negative one.
    fn shift_x(&mut self, arena: &mut Arena, positive: bool)
        requires
            old(self).wf(),
            old(arena).wf(),
            old(self).cells_valid(*old(arena)),
        ensures
            final(self).wf(),
            final(arena).wf(),
            final(self).cells_valid(*final(arena)),
            forall|x: int, y: int|
                Self::in_range(x, y) && x != (if positive {
                    Self::half()
                } else {
                    -Self::half()
                }) ==> #[trigger] final(self).spec_get(x, y) == old(self).spec_get(
                    x + (if positive {
                        1int
                    } else {
                        -1int
                    }),
                    y,
                ),
            forall|x: int, y: int|
                Self::in_range(x, y) && x == (if positive {
                    Self::half()
                } else {
                    -Self::half()
                }) ==> #[trigger] final(self).spec_get(x, y) is None,
            forall|x: int, y: int|
                Self::in_range(x, y) && x == (if positive {
                    -Self::half()
                } else {
                    Self::half()
                }) ==> (#[trigger] old(self).spec_get(x, y) matches Some(h) ==> ((!old(self).stored_elsewhere(x, y, h) && old(arena).cleanable(h.idx as int)) ==> !final(arena).valid(h))),
            final(arena).n() == old(arena).n(),
            final(arena).levels@ == old(arena).levels@,
            final(arena).min_level() == old(arena).min_level(),
            final(arena).max_level() == old(arena).max_level(),
            forall|i: int| final(arena).live(i) ==> old(arena).live(i),
            forall|hh: Handle|
                old(arena).valid(hh) && !old(self).spec_contains(hh) ==> final(arena).valid(hh),
    {
        let ghost pre = *self;
        let ghost sx: int = if positive { 1int } else { -1int };
        let n = N as i32;
        let half = n / 2;
        let edge: i32 = if positive {
            half
        } else {
            -half
        };
        if positive {
            self.offset.0 = (self.offset.0 + 1) % N;
        } else {
            self.offset.0 = (self.offset.0 + (N - 1)) % N;
        }
        proof {
            let nn = N as int;
            Self::lemma_wrap(pre.offset.0 as int + (if positive {
                1int
            } else {
                nn - 1
            }), nn);
            assert forall|x: int, y: int|
                Self::in_range(x, y) implies #[trigger] self.slot_of(x, y) == pre.slot_of(
                (if x + sx > Self::half() {
                    -Self::half()
                } else if x + sx < -Self::half() {
                    Self::half()
                } else {
                    x + sx
                }),
                y,
            ) by {
                let xs = if x + sx > Self::half() {
                    -Self::half()
                } else if x + sx < -Self::half() {
                    Self::half()
                } else {
                    x + sx
                };
                Self::lemma_wrap(x + Self::half() + self.offset.0 as int, nn);
                Self::lemma_wrap(xs + Self::half() + pre.offset.0 as int, nn);
                Self::lemma_wrap(y + Self::half() + self.offset.1 as int, nn);
            }
            assert forall|x: int, y2: int|
                Self::in_range(x, y2) implies (#[trigger] self.spec_get(x, y2) matches Some(h)
                ==> arena.valid(h)) by {
                let xs = if x + sx > Self::half() {
                    -Self::half()
                } else if x + sx < -Self::half() {
                    Self::half()
                } else {
                    x + sx
                };
                assert(Self::in_range(xs, y2));
                assert(self.spec_get(x, y2) == pre.spec_get(xs, y2));
            }
        }
        let ghost mapped = *self;
        let mut y: i32 = -half;
        while y <= half
            invariant
                self.wf(),
                arena.wf(),
                self.cells_valid(*arena),
                N as i32 == n,
                half == n / 2,
                edge as int == (if positive {
                    Self::half()
                } else {
                    -Self::half()
                }),
                sx == (if positive {
                    1int
                } else {
                    -1int
                }),
                -half <= y <= half + 1,
                self.offset == mapped.offset,
                forall|x2: int, y2: int|
                    Self::in_range(x2, y2) && x2 != edge as int ==> #[trigger] self.spec_get(
                        x2,
                        y2,
                    ) == old(self).spec_get(x2 + sx, y2),
                forall|y2: int|
                    -Self::half() <= y2 < y as int ==> #[trigger] self.spec_get(
                        edge as int,
                        y2,
                    ) is None,
                forall|y2: int|
                    y as int <= y2 <= Self::half() ==> #[trigger] self.spec_get(edge as int, y2)
                        == old(self).spec_get(-(edge as int), y2),
                arena.n() == old(arena).n(),
                arena.levels@ == old(arena).levels@,
                arena.min_level() == old(arena).min_level(),
                arena.max_level() == old(arena).max_level(),
                forall|i: int| arena.live(i) ==> old(arena).live(i),
                forall|hh: Handle|
                    old(arena).valid(hh) && !old(self).spec_contains(hh) ==> arena.valid(hh),
                forall|y2: int|
                    -Self::half() <= y2 < y as int ==> (#[trigger] old(self).spec_get(
                        -(edge as int),
                        y2,
                    ) matches Some(h) ==> ((!old(self).stored_elsewhere(-(edge as int), y2, h)
                        && old(arena).cleanable(h.idx as int)) ==> !arena.valid(h))),
                forall|y2: int|
                    y as int <= y2 <= Self::half() ==> (#[trigger] old(self).spec_get(
                        -(edge as int),
                        y2,
                    ) matches Some(h) ==> ((!old(self).stored_elsewhere(-(edge as int), y2, h)
                        && old(arena).cleanable(h.idx as int)) ==> arena.valid(h)
                        && arena.cleanable(h.idx as int))),
            decreases half + 1 - y,
        {
            let ghost a0 = *arena;
            let ghost b0 = *self;
            let ghost ev = self.spec_get(edge as int, y as int);
            self.clear(arena, edge, y);
            proof {
                let eg = edge as int;
                let hf = Self::half();
                if let Some(h) = ev {
                    assert(old(self).spec_get(-eg, y as int) == Some(h));
                    assert(old(self).spec_contains(h)) by {
                        assert(Self::in_range(-eg, y as int));
                    }
                    // A duplicate in the pre-clear window maps back to
                    // a duplicate in the pre-shift window.
                    if b0.stored_elsewhere(eg, y as int, h) {
                        assert(old(self).stored_elsewhere(-eg, y as int, h)) by {
                            let (x2, y2) = choose|x2: int, y2: int|
                                Self::in_range(x2, y2) && !(x2 == eg && y2 == y as int)
                                    && #[trigger] b0.spec_get(x2, y2) == Some(h);
                            if x2 != eg {
                                assert(old(self).spec_get(x2 + sx, y2) == Some(h));
                                assert(!(x2 + sx == -eg && y2 == y as int));
                            } else {
                                assert(y2 > y as int);
                                assert(old(self).spec_get(-eg, y2) == Some(h));
                            }
                        }
                        assert(arena.same_as(a0));
                    } else {
                        assert(cleanup_rel(a0, *arena, h));
                    }
                    // Preserve the pending eviction facts.
                    assert forall|y2: int|
                        y as int + 1 <= y2 <= hf implies (#[trigger] old(self).spec_get(-eg, y2)
                        matches Some(hh) ==> ((!old(self).stored_elsewhere(-eg, y2, hh) && old(arena).cleanable(hh.idx as int)) ==> arena.valid(hh) && arena.cleanable(
                        hh.idx as int,
                    ))) by {
                        if let Some(hh) = old(self).spec_get(-eg, y2) {
                            if !old(self).stored_elsewhere(-eg, y2, hh) && old(arena).cleanable(
                                hh.idx as int,
                            ) {
                                assert(a0.valid(hh) && a0.cleanable(hh.idx as int));
                                if arena.same_as(a0) {
                                } else {
                                    assert(cleanup_rel(a0, *arena, h));
                                    assert(a0.cleanable(h.idx as int));
                                    assert(hh != h) by {
                                        if hh == h {
                                            assert(old(self).spec_get(-eg, y as int) == Some(hh));
                                            assert(old(self).stored_elsewhere(-eg, y2, hh));
                                        }
                                    }
                                    let q = a0.node(hh.idx as int).parent->Some_0;
                                    let hp = a0.node(h.idx as int).parent->Some_0;
                                    assert(q.idx as int != h.idx as int) by {
                                        if q.idx as int == h.idx as int {
                                            assert(a0.wf_node(hh.idx as int));
                                            assert(a0.wf_parent_link(hh.idx as int));
                                            assert(a0.has_children(h.idx as int));
                                        }
                                    }
                                    assert(hh.idx as int != hp.idx as int) by {
                                        if hh.idx as int == hp.idx as int {
                                            assert(a0.wf_node(h.idx as int));
                                            assert(a0.wf_parent_link(h.idx as int));
                                            assert(a0.has_children(hh.idx as int));
                                        }
                                    }
                                    assert(node_same(arena.node(hh.idx as int), a0.node(
                                        hh.idx as int,
                                    )));
                                    assert(arena.valid(hh));
                                    assert(arena.live(q.idx as int));
                                    assert(!arena.has_children(hh.idx as int)) by {
                                        if arena.has_children(hh.idx as int) {
                                            assert(a0.has_children(hh.idx as int));
                                        }
                                    }
                                    assert(arena.cleanable(hh.idx as int));
                                }
                            }
                        }
                    }
                    // Settle the claim for this row.
                    if !old(self).stored_elsewhere(-eg, y as int, h) && old(arena).cleanable(
                        h.idx as int,
                    ) {
                        assert(a0.valid(h) && a0.cleanable(h.idx as int));
                        assert(!b0.stored_elsewhere(eg, y as int, h));
                        assert(cleanup_rel(a0, *arena, h));
                        assert(!arena.valid(h));
                    }
                } else {
                    assert(arena.same_as(a0));
                }
            }
            y += 1;
        }
    }

    /// The vertical counterpart of `shift_x`.
    fn shift_y(&mut self, arena: &mut Arena, positive: bool)
        requires
            old(self).wf(),
            old(arena).wf(),
            old(self).cells_valid(*old(arena)),
        ensures
            final(self).wf(),
            final(arena).wf(),
            final(self).cells_valid(*final(arena)),
            forall|x: int, y: int|
                Self::in_range(x, y) && y != (if positive {
                    Self::half()
                } else {
                    -Self::half()
                }) ==> #[trigger] final(self).spec_get(x, y) == old(self).spec_get(
                    x,
                    y + (if positive {
                        1int
                    } else {
                        -1int
                    }),
                ),
            forall|x: int, y: int|
                Self::in_range(x, y) && y == (if positive {
                    Self::half()
                } else {
                    -Self::half()
                }) ==> #[trigger] final(self).spec_get(x, y) is None,
            forall|x: int, y: int|
                Self::in_range(x, y) && y == (if positive {
                    -Self::half()
                } else {
                    Self::half()
                }) ==> (#[trigger] old(self).spec_get(x, y) matches Some(h) ==> ((!old(self).stored_elsewhere(x, y, h) && old(arena).cleanable(h.idx as int)) ==> !final(arena).valid(h))),
            final(arena).n() == old(arena).n(),
            final(arena).levels@ == old(arena).levels@,
            final(arena).min_level() == old(arena).min_level(),
            final(arena).max_level() == old(arena).max_level(),
            forall|i: int| final(arena).live(i) ==> old(arena).live(i),
            forall|hh: Handle|
                old(arena).valid(hh) && !old(self).spec_contains(hh) ==> final(arena).valid(hh),
    {
        let ghost pre = *self;
        let ghost sy: int = if positive { 1int } else { -1int };
        let n = N as i32;
        let half = n / 2;
        let edge: i32 = if positive {
            half
        } else {
            -half
        };
        if positive {
            self.offset.1 = (self.offset.1 + 1) % N;
        } else {
            self.offset.1 = (self.offset.1 + (N - 1)) % N;
        }
        proof {
            let nn = N as int;
            Self::lemma_wrap(pre.offset.1 as int + (if positive {
                1int
            } else {
                nn - 1
            }), nn);
            assert forall|x: int, y: int|
                Self::in_range(x, y) implies #[trigger] self.slot_of(x, y) == pre.slot_of(
                x,
                (if y + sy > Self::half() {
                    -Self::half()
                } else if y + sy < -Self::half() {
                    Self::half()
                } else {
                    y + sy
                }),
            ) by {
                let ys = if y + sy > Self::half() {
                    -Self::half()
                } else if y + sy < -Self::half() {
                    Self::half()
                } else {
                    y + sy
                };
                Self::lemma_wrap(y + Self::half() + self.offset.1 as int, nn);
                Self::lemma_wrap(ys + Self::half() + pre.offset.1 as int, nn);
                Self::lemma_wrap(x + Self::half() + self.offset.0 as int, nn);
            }
            assert forall|x2: int, y: int|
                Self::in_range(x2, y) implies (#[trigger] self.spec_get(x2, y) matches Some(h)
                ==> arena.valid(h)) by {
                let ys = if y + sy > Self::half() {
                    -Self::half()
                } else if y + sy < -Self::half() {
                    Self::half()
                } else {
                    y + sy
                };
                assert(Self::in_range(x2, ys));
                assert(self.spec_get(x2, y) == pre.spec_get(x2, ys));
            }
        }
        let ghost mapped = *self;
        let mut x: i32 = -half;
        while x <= half
            invariant
                self.wf(),
                arena.wf(),
                self.cells_valid(*arena),
                N as i32 == n,
                half == n / 2,
                edge as int == (if positive {
                    Self::half()
                } else {
                    -Self::half()
                }),
                sy == (if positive {
                    1int
                } else {
                    -1int
                }),
                -half <= x <= half + 1,
                self.offset == mapped.offset,
                forall|x2: int, y2: int|
                    Self::in_range(x2, y2) && y2 != edge as int ==> #[trigger] self.spec_get(
                        x2,
                        y2,
                    ) == old(self).spec_get(x2, y2 + sy),
                forall|x2: int|
                    -Self::half() <= x2 < x as int ==> #[trigger] self.spec_get(
                        x2,
                        edge as int,
                    ) is None,
                forall|x2: int|
                    x as int <= x2 <= Self::half() ==> #[trigger] self.spec_get(x2, edge as int)
                        == old(self).spec_get(x2, -(edge as int)),
                arena.n() == old(arena).n(),
                arena.levels@ == old(arena).levels@,
                arena.min_level() == old(arena).min_level(),
                arena.max_level() == old(arena).max_level(),
                forall|i: int| arena.live(i) ==> old(arena).live(i),
                forall|hh: Handle|
                    old(arena).valid(hh) && !old(self).spec_contains(hh) ==> arena.valid(hh),
                forall|x2: int|
                    -Self::half() <= x2 < x as int ==> (#[trigger] old(self).spec_get(
                        x2,
                        -(edge as int),
                    ) matches Some(h) ==> ((!old(self).stored_elsewhere(x2, -(edge as int), h)
                        && old(arena).cleanable(h.idx as int)) ==> !arena.valid(h))),
                forall|x2: int|
                    x as int <= x2 <= Self::half() ==> (#[trigger] old(self).spec_get(
                        x2,
                        -(edge as int),
                    ) matches Some(h) ==> ((!old(self).stored_elsewhere(x2, -(edge as int), h)
                        && old(arena).cleanable(h.idx as int)) ==> arena.valid(h)
                        && arena.cleanable(h.idx as int))),
            decreases half + 1 - x,
        {
            let ghost a0 = *arena;
            let ghost b0 = *self;
            let ghost ev = self.spec_get(x as int, edge as int);
            self.clear(arena, x, edge);
            proof {
                let eg = edge as int;
                let hf = Self::half();
                if let Some(h) = ev {
                    assert(old(self).spec_get(x as int, -eg) == Some(h));
                    assert(old(self).spec_contains(h)) by {
                        assert(Self::in_range(x as int, -eg));
                    }
                    if b0.stored_elsewhere(x as int, eg, h) {
                        assert(old(self).stored_elsewhere(x as int, -eg, h)) by {
                            let (x2, y2) = choose|x2: int, y2: int|
                                Self::in_range(x2, y2) && !(x2 == x as int && y2 == eg)
                                    && #[trigger] b0.spec_get(x2, y2) == Some(h);
                            if y2 != eg {
                                assert(old(self).spec_get(x2, y2 + sy) == Some(h));
                                assert(!(x2 == x as int && y2 + sy == -eg));
                            } else {
                                assert(x2 > x as int);
                                assert(old(self).spec_get(x2, -eg) == Some(h));
                            }
                        }
                        assert(arena.same_as(a0));
                    } else {
                        assert(cleanup_rel(a0, *arena, h));
                    }
                    assert forall|x2: int|
                        x as int + 1 <= x2 <= hf implies (#[trigger] old(self).spec_get(x2, -eg)
                        matches Some(hh) ==> ((!old(self).stored_elsewhere(x2, -eg, hh) && old(arena).cleanable(hh.idx as int)) ==> arena.valid(hh) && arena.cleanable(
                        hh.idx as int,
                    ))) by {
                        if let Some(hh) = old(self).spec_get(x2, -eg) {
                            if !old(self).stored_elsewhere(x2, -eg, hh) && old(arena).cleanable(
                                hh.idx as int,
                            ) {
                                assert(a0.valid(hh) && a0.cleanable(hh.idx as int));
                                if arena.same_as(a0) {
                                } else {
                                    assert(cleanup_rel(a0, *arena, h));
                                    assert(a0.cleanable(h.idx as int));
                                    assert(hh != h) by {
                                        if hh == h {
                                            assert(old(self).spec_get(x as int, -eg) == Some(hh));
                                            assert(old(self).stored_elsewhere(x2, -eg, hh));
                                        }
                                    }
                                    let q = a0.node(hh.idx as int).parent->Some_0;
                                    let hp = a0.node(h.idx as int).parent->Some_0;
                                    assert(q.idx as int != h.idx as int) by {
                                        if q.idx as int == h.idx as int {
                                            assert(a0.wf_node(hh.idx as int));
                                            assert(a0.wf_parent_link(hh.idx as int));
                                            assert(a0.has_children(h.idx as int));
                                        }
                                    }
                                    assert(hh.idx as int != hp.idx as int) by {
                                        if hh.idx as int == hp.idx as int {
                                            assert(a0.wf_node(h.idx as int));
                                            assert(a0.wf_parent_link(h.idx as int));
                                            assert(a0.has_children(hh.idx as int));
                                        }
                                    }
                                    assert(node_same(arena.node(hh.idx as int), a0.node(
                                        hh.idx as int,
                                    )));
                                    assert(arena.valid(hh));
                                    assert(arena.live(q.idx as int));
                                    assert(!arena.has_children(hh.idx as int)) by {
                                        if arena.has_children(hh.idx as int) {
                                            assert(a0.has_children(hh.idx as int));
                                        }
                                    }
                                    assert(arena.cleanable(hh.idx as int));
                                }
                            }
                        }
                    }
                    if !old(self).stored_elsewhere(x as int, -eg, h) && old(arena).cleanable(
                        h.idx as int,
                    ) {
                        assert(a0.valid(h) && a0.cleanable(h.idx as int));
                        assert(!b0.stored_elsewhere(x as int, eg, h));
                        assert(cleanup_rel(a0, *arena, h));
                        assert(!arena.valid(h));
                    }
                } else {
                    assert(arena.same_as(a0));
                }
            }
            x += 1;
        }
    }

    /// Advance the window one unit toward positive x, evicting and
    /// cleaning up the column that rotates out.
    pub fn shift_pos_x(&mut self, arena: &mut Arena)
        requires
            old(self).wf(),
            old(arena).wf(),
            old(self).cells_valid(*old(arena)),
        ensures
            final(self).wf(),
            final(arena).wf(),
            final(self).cells_valid(*final(arena)),
            forall|x: int, y: int|
                Self::in_range(x, y) && x != Self::half() ==> #[trigger] final(self).spec_get(
                    x,
                    y,
                ) == old(self).spec_get(x + 1, y),
            forall|y: int|
                -Self::half() <= y <= Self::half() ==> #[trigger] final(self).spec_get(
                    Self::half(),
                    y,
                ) is None,
            forall|y: int|
                -Self::half() <= y <= Self::half() ==> (#[trigger] old(self).spec_get(
                    -Self::half(),
                    y,
                ) matches Some(h) ==> ((!old(self).stored_elsewhere(-Self::half(), y, h) && old(arena).cleanable(h.idx as int)) ==> !final(arena).valid(h))),
            final(arena).n() == old(arena).n(),
            final(arena).levels@ == old(arena).levels@,
            final(arena).min_level() == old(arena).min_level(),
            final(arena).max_level() == old(arena).max_level(),
            forall|i: int| final(arena).live(i) ==> old(arena).live(i),
            forall|hh: Handle|
                old(arena).valid(hh) && !old(self).spec_contains(hh) ==> final(arena).valid(hh),
    {
        self.shift_x(arena, true);
    }

    /// Advance the window one unit toward negative x.
    pub fn shift_neg_x(&mut self, arena: &mut Arena)
        requires
            old(self).wf(),
            old(arena).wf(),
            old(self).cells_valid(*old(arena)),
        ensures
            final(self).wf(),
            final(arena).wf(),
            final(self).cells_valid(*final(arena)),
            forall|x: int, y: int|
                Self::in_range(x, y) && x != -Self::half() ==> #[trigger] final(self).spec_get(
                    x,
                    y,
                ) == old(self).spec_get(x - 1, y),
            forall|y: int|
                -Self::half() <= y <= Self::half() ==> #[trigger] final(self).spec_get(
                    -Self::half(),
                    y,
                ) is None,
            forall|y: int|
                -Self::half() <= y <= Self::half() ==> (#[trigger] old(self).spec_get(
                    Self::half(),
                    y,
                ) matches Some(h) ==> ((!old(self).stored_elsewhere(Self::half(), y, h) && old(arena).cleanable(h.idx as int)) ==> !final(arena).valid(h))),
            final(arena).n() == old(arena).n(),
            final(arena).levels@ == old(arena).levels@,
            final(arena).min_level() == old(arena).min_level(),
            final(arena).max_level() == old(arena).max_level(),
            forall|i: int| final(arena).live(i) ==> old(arena).live(i),
            forall|hh: Handle|
                old(arena).valid(hh) && !old(self).spec_contains(hh) ==> final(arena).valid(hh),
    {
        self.shift_x(arena, false);
    }

    /// Advance the window one unit toward positive y.
    pub fn shift_pos_y(&mut self, arena: &mut Arena)
        requires
            old(self).wf(),
            old(arena).wf(),
            old(self).cells_valid(*old(arena)),
        ensures
            final(self).wf(),
            final(arena).wf(),
            final(self).cells_valid(*final(arena)),
            forall|x: int, y: int|
                Self::in_range(x, y) && y != Self::half() ==> #[trigger] final(self).spec_get(
                    x,
                    y,
                ) == old(self).spec_get(x, y + 1),
            forall|x: int|
                -Self::half() <= x <= Self::half() ==> #[trigger] final(self).spec_get(
                    x,
                    Self::half(),
                ) is None,
            forall|x: int|
                -Self::half() <= x <= Self::half() ==> (#[trigger] old(self).spec_get(
                    x,
                    -Self::half(),
                ) matches Some(h) ==> ((!old(self).stored_elsewhere(x, -Self::half(), h) && old(arena).cleanable(h.idx as int)) ==> !final(arena).valid(h))),
            final(arena).n() == old(arena).n(),
            final(arena).levels@ == old(arena).levels@,
            final(arena).min_level() == old(arena).min_level(),
            final(arena).max_level() == old(arena).max_level(),
            forall|i: int| final(arena).live(i) ==> old(arena).live(i),
            forall|hh: Handle|
                old(arena).valid(hh) && !old(self).spec_contains(hh) ==> final(arena).valid(hh),
    {
        self.shift_y(arena, true);
    }

    /// Advance the window one unit toward negative y.
    pub fn shift_neg_y(&mut self, arena: &mut Arena)
        requires
            old(self).wf(),
            old(arena).wf(),
            old(self).cells_valid(*old(arena)),
        ensures
            final(self).wf(),
            final(arena).wf(),
            final(self).cells_valid(*final(arena)),
            forall|x: int, y: int|
                Self::in_range(x, y) && y != -Self::half() ==> #[trigger] final(self).spec_get(
                    x,
                    y,
                ) == old(self).spec_get(x, y - 1),
            forall|x: int|
                -Self::half() <= x <= Self::half() ==> #[trigger] final(self).spec_get(
                    x,
                    -Self::half(),
                ) is None,
            forall|x: int|
                -Self::half() <= x <= Self::half() ==> (#[trigger] old(self).spec_get(
                    x,
                    Self::half(),
                ) matches Some(h) ==> ((!old(self).stored_elsewhere(x, Self::half(), h) && old(arena).cleanable(h.idx as int)) ==> !final(arena).valid(h))),
            final(arena).n() == old(arena).n(),
            final(arena).levels@ == old(arena).levels@,
            final(arena).min_level() == old(arena).min_level(),
            final(arena).max_level() == old(arena).max_level(),
            forall|i: int| final(arena).live(i) ==> old(arena).live(i),
            forall|hh: Handle|
                old(arena).valid(hh) && !old(self).spec_contains(hh) ==> final(arena).valid(hh),
    {
        self.shift_y(arena, false);
    }

    /// The source coordinate a zoomed-in cell reads from: the window
    /// cell whose occupant's child covers it.
    pub open spec fn zoom_src(v: int, bit: u8) -> int {
        (v + bit as int) / 2
    }

    /// The corner, within the source node, of the child that covers a
    /// zoomed-in cell.
    pub open spec fn zoom_child_bit(v: int, bit: u8) -> u8 {
        if (v + bit as int) % 2 == 0 {
            0u8
        } else {
            1u8
        }
    }

    /// Whether any slot of a cell vector holds `o`.
    fn slots_contain(data: &Vec<Option<Handle>>, o: Handle) -> (r: bool)
        ensures
            r == exists|j: int| 0 <= j < data@.len() && #[trigger] data@[j] == Some(o),
    {
        let mut j: usize = 0;
        while j < data.len()
            invariant
                j <= data@.len(),
                forall|j2: int| 0 <= j2 < j as int ==> #[trigger] data@[j2] != Some(o),
            decreases data@.len() - j,
        {
            if let Some(g) = data[j] {
                if g.idx == o.idx {
                    proof {
                        assert(data@[j as int] == Some(o));
                    }
                    return true;
                }
            }
            j += 1;
        }
        false
    }

    /// Replace every cell's occupant with that occupant's child toward
    /// `corner`, reprojecting the window to the finer depth; prior
    /// occupants are evicted and offered cleanup, except those still
    /// referenced by the new window.
    pub fn zoom_in(&mut self, arena: &mut Arena, corner: (u8, u8))
        requires
            old(self).wf(),
            old(arena).wf(),
            old(self).cells_valid(*old(arena)),
            corner_ok(corner),
        ensures
            final(self).wf(),
            final(arena).wf(),
            final(self).cells_valid(*final(arena)),
            final(self).offset == (0usize, 0usize),
            forall|x: int, y: int|
                Self::in_range(x, y) ==> (#[trigger] old(self).spec_get(
                    Self::zoom_src(x, corner.0),
                    Self::zoom_src(y, corner.1),
                ) matches Some(s) ==> (final(self).spec_get(x, y) matches Some(c) && final(arena).valid(c) && final(arena).valid(s) && final(arena).node(c.idx as int).parent
                    == Some(s) && final(arena).node(c.idx as int).corner == (
                    Self::zoom_child_bit(x, corner.0),
                    Self::zoom_child_bit(y, corner.1),
                ))),
            forall|x: int, y: int|
                Self::in_range(x, y) ==> (#[trigger] old(self).spec_get(
                    Self::zoom_src(x, corner.0),
                    Self::zoom_src(y, corner.1),
                ) is None ==> final(self).spec_get(x, y) is None),
            forall|i: int| 0 <= i < old(arena).n() && final(arena).live(i) ==> old(arena).live(i),
            old(arena).n() <= final(arena).n(),
            forall|i: int|
                0 <= i < old(arena).n() ==> final(arena).levels@[i] == old(arena).levels@[i],
            forall|x: int, y: int|
                Self::in_range(x, y) ==> (#[trigger] old(self).spec_get(x, y) matches Some(h)
                    ==> ((old(arena).cleanable(h.idx as int) && (forall|x2: int, y2: int|
                    Self::in_range(x2, y2) ==> #[trigger] old(self).spec_get(
                        Self::zoom_src(x2, corner.0),
                        Self::zoom_src(y2, corner.1),
                    ) != Some(h)) && !final(self).spec_contains(h)) ==> !final(arena).valid(h))),
    {
        let n = N as i32;
        let half = n / 2;
        proof {
            assert((N as int) * (N as int) <= 2147395600) by (nonlinear_arith)
                requires
                    1 <= N as int <= 46340,
            ;
        }
        let total = N * N;
        let mut new_data: Vec<Option<Handle>> = Vec::new();
        let mut i: usize = 0;
        while i < total
            invariant
                total == N * N,
                i <= total,
                new_data@.len() == i as int,
                forall|j: int| 0 <= j < i as int ==> new_data@[j] is None,
            decreases total - i,
        {
            new_data.push(None);
            i += 1;
        }
        let ghost pre_b = *old(self);
        let ghost pre_a = *old(arena);
        proof {
            assert forall|x2: int, y2: int| Self::in_range(x2, y2) implies new_data@[(x2
                + Self::half()) * (N as int) + (y2 + Self::half())] is None by {
                Self::lemma_flat_idx(x2, y2);
            }
        }
        let mut x: i32 = -half;
        while x <= half
            invariant
                self.wf(),
                arena.wf(),
                self.cells_valid(*arena),
                *self == pre_b,
                N as i32 == n,
                half == n / 2,
                corner_ok(corner),
                -half <= x <= half + 1,
                new_data@.len() == (N as int) * (N as int),
                pre_b == *old(self),
                forall|i2: int| 0 <= i2 < pre_a.n() && arena.live(i2) ==> pre_a.live(i2),
                pre_a.n() <= arena.n(),
                forall|i2: int| pre_a.live(i2) ==> arena.live(i2),
                forall|i2: int| 0 <= i2 < pre_a.n() ==> arena.levels@[i2] == pre_a.levels@[i2],
                forall|xo: int, yo: int|
                    Self::in_range(xo, yo) ==> (#[trigger] pre_b.spec_get(xo, yo) matches Some(h)
                        ==> ((pre_a.cleanable(h.idx as int) && (forall|x3: int, y3: int|
                        Self::in_range(x3, y3) ==> #[trigger] pre_b.spec_get(
                            Self::zoom_src(x3, corner.0),
                            Self::zoom_src(y3, corner.1),
                        ) != Some(h))) ==> arena.valid(h) && arena.cleanable(h.idx as int))),
                // built region: x-major order, cells before (x, -half)
                forall|x2: int, y2: int|
                    Self::in_range(x2, y2) && x2 >= x as int ==> new_data@[(x2 + Self::half())
                        * (N as int) + (y2 + Self::half())] is None,
                forall|x2: int, y2: int|
                    Self::in_range(x2, y2) && x2 < x as int ==> (#[trigger] pre_b.spec_get(
                        Self::zoom_src(x2, corner.0),
                        Self::zoom_src(y2, corner.1),
                    ) matches Some(s) ==> (new_data@[(x2 + Self::half()) * (N as int) + (y2
                        + Self::half())] matches Some(c) && arena.valid(c) && arena.valid(s)
                        && arena.node(c.idx as int).parent == Some(s) && arena.node(
                        c.idx as int,
                    ).corner == (Self::zoom_child_bit(x2, corner.0), Self::zoom_child_bit(
                        y2,
                        corner.1,
                    )))),
                forall|x2: int, y2: int|
                    Self::in_range(x2, y2) && x2 < x as int ==> (#[trigger] pre_b.spec_get(
                        Self::zoom_src(x2, corner.0),
                        Self::zoom_src(y2, corner.1),
                    ) is None ==> new_data@[(x2 + Self::half()) * (N as int) + (y2
                        + Self::half())] is None),
            decreases half + 1 - x,
        {
            let mut y: i32 = -half;
            while y <= half
                invariant
                    self.wf(),
                    arena.wf(),
                    self.cells_valid(*arena),
                    *self == pre_b,
                    N as i32 == n,
                    half == n / 2,
                    corner_ok(corner),
                    -half <= x <= half,
                    -half <= y <= half + 1,
                    new_data@.len() == (N as int) * (N as int),
                    pre_b == *old(self),
                    forall|i2: int| 0 <= i2 < pre_a.n() && arena.live(i2) ==> pre_a.live(i2),
                    pre_a.n() <= arena.n(),
                    forall|i2: int| pre_a.live(i2) ==> arena.live(i2),
                    forall|i2: int|
                        0 <= i2 < pre_a.n() ==> arena.levels@[i2] == pre_a.levels@[i2],
                    forall|xo: int, yo: int|
                        Self::in_range(xo, yo) ==> (#[trigger] pre_b.spec_get(xo, yo)
                            matches Some(h) ==> ((pre_a.cleanable(h.idx as int) && (forall|
                            x3: int,
                            y3: int,
                        |
                            Self::in_range(x3, y3) ==> #[trigger] pre_b.spec_get(
                                Self::zoom_src(x3, corner.0),
                                Self::zoom_src(y3, corner.1),
                            ) != Some(h))) ==> arena.valid(h) && arena.cleanable(
                            h.idx as int,
                        ))),
                    forall|x2: int, y2: int|
                        Self::in_range(x2, y2) && (x2 > x as int || (x2 == x as int && y2
                            >= y as int)) ==> new_data@[(x2 + Self::half()) * (N as int) + (y2
                            + Self::half())] is None,
                    forall|x2: int, y2: int|
                        Self::in_range(x2, y2) && (x2 < x as int || (x2 == x as int && y2
                            < y as int)) ==> (#[trigger] pre_b.spec_get(
                            Self::zoom_src(x2, corner.0),
                            Self::zoom_src(y2, corner.1),
                        ) matches Some(s) ==> (new_data@[(x2 + Self::half()) * (N as int) + (y2
                            + Self::half())] matches Some(c) && arena.valid(c) && arena.valid(s)
                            && arena.node(c.idx as int).parent == Some(s) && arena.node(
                            c.idx as int,
                        ).corner == (Self::zoom_child_bit(x2, corner.0), Self::zoom_child_bit(
                            y2,
                            corner.1,
                        )))),
                    forall|x2: int, y2: int|
                        Self::in_range(x2, y2) && (x2 < x as int || (x2 == x as int && y2
                            < y as int)) ==> (#[trigger] pre_b.spec_get(
                            Self::zoom_src(x2, corner.0),
                            Self::zoom_src(y2, corner.1),
                        ) is None ==> new_data@[(x2 + Self::half()) * (N as int) + (y2
                            + Self::half())] is None),
                decreases half + 1 - y,
            {
                let tx = x + corner.0 as i32 + (n - 1);
                let ty = y + corner.1 as i32 + (n - 1);
                let sx = tx / 2 - half;
                let sy = ty / 2 - half;
                let bx: u8 = (tx % 2) as u8;
                let by: u8 = (ty % 2) as u8;
                proof {
                    assert(sx as int == Self::zoom_src(x as int, corner.0) && sy as int
                        == Self::zoom_src(y as int, corner.1));
                    assert(bx == Self::zoom_child_bit(x as int, corner.0) && by
                        == Self::zoom_child_bit(y as int, corner.1));
                    assert(Self::in_range(sx as int, sy as int));
                }
                let src = self.get(sx, sy);
                proof {
                    Self::lemma_flat_idx(x as int, y as int);
                }
                let idx = ((x + half) as usize) * N + ((y + half) as usize);
                proof {
                    assert(idx as int == (x as int + Self::half()) * (N as int) + (y as int
                        + Self::half()));
                }
                if let Some(s) = src {
                    let ghost a_before = *arena;
                    let c = DrawNode::get_or_create_child_from_corner(arena, s, (bx, by));
                    let ghost nd0 = new_data@;
                    new_data[idx] = Some(c);
                    proof {
                        assert forall|x2: int, y2: int|
                            Self::in_range(x2, y2) && !(x2 == x as int && y2 == y as int) implies
                            new_data@[(x2 + Self::half()) * (N as int) + (y2 + Self::half())]
                            == nd0[(x2 + Self::half()) * (N as int) + (y2 + Self::half())] by {
                            Self::lemma_flat_idx(x2, y2);
                            Self::lemma_flat_idx_ne(x2, y2, x as int, y as int);
                        }
                        assert(new_data@[idx as int] == Some(c));
                        assert(arena.valid(c) && arena.valid(s));
                        assert(arena.node(c.idx as int).parent == Some(s));
                        assert(arena.node(c.idx as int).corner == (bx, by));
                        // Occupants that serve no cell as a source are
                        // untouched by the creation, so they stay
                        // prunable.
                        assert forall|xo: int, yo: int|
                            Self::in_range(xo, yo) implies (#[trigger] pre_b.spec_get(xo, yo)
                            matches Some(h) ==> ((pre_a.cleanable(h.idx as int) && (forall|
                            x3: int,
                            y3: int,
                        |
                            Self::in_range(x3, y3) ==> #[trigger] pre_b.spec_get(
                                Self::zoom_src(x3, corner.0),
                                Self::zoom_src(y3, corner.1),
                            ) != Some(h))) ==> arena.valid(h) && arena.cleanable(
                            h.idx as int,
                        ))) by {
                            if let Some(h) = pre_b.spec_get(xo, yo) {
                                if pre_a.cleanable(h.idx as int) && (forall|x3: int, y3: int|
                                    Self::in_range(x3, y3) ==> #[trigger] pre_b.spec_get(
                                        Self::zoom_src(x3, corner.0),
                                        Self::zoom_src(y3, corner.1),
                                    ) != Some(h)) {
                                    assert(a_before.valid(h) && a_before.cleanable(
                                        h.idx as int,
                                    ));
                                    assert(h != s) by {
                                        assert(pre_b.spec_get(
                                            Self::zoom_src(x as int, corner.0),
                                            Self::zoom_src(y as int, corner.1),
                                        ) != Some(h));
                                    }
                                    assert(arena.node(h.idx as int).children@ == a_before.node(
                                        h.idx as int,
                                    ).children@);
                                    assert(arena.valid(h));
                                    assert(!arena.has_children(h.idx as int)) by {
                                        if arena.has_children(h.idx as int) {
                                            assert(a_before.has_children(h.idx as int));
                                        }
                                    }
                                    let q = a_before.node(h.idx as int).parent->Some_0;
                                    assert(arena.live(q.idx as int));
                                    assert(arena.node(h.idx as int).parent == a_before.node(
                                        h.idx as int,
                                    ).parent);
                                    assert(arena.node(h.idx as int).strokes@ == a_before.node(
                                        h.idx as int,
                                    ).strokes@);
                                    assert(arena.cleanable(h.idx as int));
                                }
                            }
                        }
                        assert forall|x2: int, y2: int|
                            Self::in_range(x2, y2) && (x2 < x as int || (x2 == x as int && y2 < y
                                as int)) implies (#[trigger] pre_b.spec_get(
                            Self::zoom_src(x2, corner.0),
                            Self::zoom_src(y2, corner.1),
                        ) matches Some(s2) ==> (new_data@[(x2 + Self::half()) * (N as int) + (y2
                            + Self::half())] matches Some(c2) && arena.valid(c2) && arena.valid(
                            s2,
                        ) && arena.node(c2.idx as int).parent == Some(s2) && arena.node(
                            c2.idx as int,
                        ).corner == (Self::zoom_child_bit(x2, corner.0), Self::zoom_child_bit(
                            y2,
                            corner.1,
                        )))) by {
                            let sl = (x2 + Self::half()) * (N as int) + (y2 + Self::half());
                            Self::lemma_flat_idx(x2, y2);
                            Self::lemma_flat_idx_ne(x2, y2, x as int, y as int);
                            if let Some(s2) = pre_b.spec_get(
                                Self::zoom_src(x2, corner.0),
                                Self::zoom_src(y2, corner.1),
                            ) {
                                if let Some(c2) = new_data@[sl] {
                                    assert(a_before.valid(c2) && a_before.valid(s2)
                                        && a_before.node(c2.idx as int).parent == Some(s2)
                                        && a_before.node(c2.idx as int).corner == (
                                    Self::zoom_child_bit(x2, corner.0), Self::zoom_child_bit(
                                        y2,
                                        corner.1,
                                    )));
                                    assert(arena.node(c2.idx as int).parent == a_before.node(
                                        c2.idx as int,
                                    ).parent && arena.node(c2.idx as int).corner == a_before.node(
                                        c2.idx as int,
                                    ).corner) by {
                                        if c2.idx as int != s.idx as int {
                                        }
                                    }
                                }
                            }
                        }
                    }
                }
                y += 1;
            }
            x += 1;
        }
        // Evict the prior occupants, offering cleanup to any that the
        // new window does not reference, then install it.
        let ghost built = new_data@;
        let mut cx: i32 = -half;
        while cx <= half
            invariant
                self.wf(),
                arena.wf(),
                *self == pre_b,
                N as i32 == n,
                half == n / 2,
                corner_ok(corner),
                -half <= cx <= half + 1,
                new_data@ == built,
                built.len() == (N as int) * (N as int),
                pre_b == *old(self),
                forall|i2: int| 0 <= i2 < pre_a.n() && arena.live(i2) ==> pre_a.live(i2),
                pre_a.n() <= arena.n(),
                forall|i2: int| 0 <= i2 < pre_a.n() ==> arena.levels@[i2] == pre_a.levels@[i2],
                forall|x2: int, y2: int|
                    Self::in_range(x2, y2) ==> (#[trigger] pre_b.spec_get(
                        Self::zoom_src(x2, corner.0),
                        Self::zoom_src(y2, corner.1),
                    ) matches Some(s) ==> (built[(x2 + Self::half()) * (N as int) + (y2
                        + Self::half())] matches Some(c) && arena.valid(c) && arena.valid(s)
                        && arena.node(c.idx as int).parent == Some(s) && arena.node(
                        c.idx as int,
                    ).corner == (Self::zoom_child_bit(x2, corner.0), Self::zoom_child_bit(
                        y2,
                        corner.1,
                    )))),
                forall|x2: int, y2: int|
                    Self::in_range(x2, y2) ==> (#[trigger] pre_b.spec_get(
                        Self::zoom_src(x2, corner.0),
                        Self::zoom_src(y2, corner.1),
                    ) is None ==> built[(x2 + Self::half()) * (N as int) + (y2
                        + Self::half())] is None),
                forall|xo: int, yo: int|
                    Self::in_range(xo, yo) && xo < cx as int ==> (#[trigger] pre_b.spec_get(
                        xo,
                        yo,
                    ) matches Some(h) ==> ((pre_a.cleanable(h.idx as int) && (forall|
                        x3: int,
                        y3: int,
                    |
                        Self::in_range(x3, y3) ==> #[trigger] pre_b.spec_get(
                            Self::zoom_src(x3, corner.0),
                            Self::zoom_src(y3, corner.1),
                        ) != Some(h)) && !(exists|j: int|
                        0 <= j < built.len() && #[trigger] built[j] == Some(h))) ==> !arena.valid(
                        h,
                    ))),
                forall|xo: int, yo: int|
                    Self::in_range(xo, yo) && xo >= cx as int ==> (#[trigger] pre_b.spec_get(
                        xo,
                        yo,
                    ) matches Some(h) ==> ((pre_a.cleanable(h.idx as int) && (forall|
                        x3: int,
                        y3: int,
                    |
                        Self::in_range(x3, y3) ==> #[trigger] pre_b.spec_get(
                            Self::zoom_src(x3, corner.0),
                            Self::zoom_src(y3, corner.1),
                        ) != Some(h))) ==> (!arena.valid(h) || arena.cleanable(h.idx as int)))),
            decreases half + 1 - cx,
        {
            let mut cy: i32 = -half;
            while cy <= half
                invariant
                    self.wf(),
                    arena.wf(),
                    *self == pre_b,
                    N as i32 == n,
                    half == n / 2,
                    corner_ok(corner),
                    -half <= cx <= half,
                    -half <= cy <= half + 1,
                    new_data@ == built,
                    built.len() == (N as int) * (N as int),
                    pre_b == *old(self),
                    forall|i2: int| 0 <= i2 < pre_a.n() && arena.live(i2) ==> pre_a.live(i2),
                    pre_a.n() <= arena.n(),
                    forall|i2: int|
                        0 <= i2 < pre_a.n() ==> arena.levels@[i2] == pre_a.levels@[i2],
                    forall|x2: int, y2: int|
                        Self::in_range(x2, y2) ==> (#[trigger] pre_b.spec_get(
                            Self::zoom_src(x2, corner.0),
                            Self::zoom_src(y2, corner.1),
                        ) matches Some(s) ==> (built[(x2 + Self::half()) * (N as int) + (y2
                            + Self::half())] matches Some(c) && arena.valid(c) && arena.valid(s)
                            && arena.node(c.idx as int).parent == Some(s) && arena.node(
                            c.idx as int,
                        ).corner == (Self::zoom_child_bit(x2, corner.0), Self::zoom_child_bit(
                            y2,
                            corner.1,
                        )))),
                    forall|x2: int, y2: int|
                        Self::in_range(x2, y2) ==> (#[trigger] pre_b.spec_get(
                            Self::zoom_src(x2, corner.0),
                            Self::zoom_src(y2, corner.1),
                        ) is None ==> built[(x2 + Self::half()) * (N as int) + (y2
                            + Self::half())] is None),
                    forall|xo: int, yo: int|
                        Self::in_range(xo, yo) && (xo < cx as int || (xo == cx as int && yo
                            < cy as int)) ==> (#[trigger] pre_b.spec_get(xo, yo) matches Some(h)
                            ==> ((pre_a.cleanable(h.idx as int) && (forall|x3: int, y3: int|
                            Self::in_range(x3, y3) ==> #[trigger] pre_b.spec_get(
                                Self::zoom_src(x3, corner.0),
                                Self::zoom_src(y3, corner.1),
                            ) != Some(h)) && !(exists|j: int|
                            0 <= j < built.len() && #[trigger] built[j] == Some(h)))
                            ==> !arena.valid(h))),
                    forall|xo: int, yo: int|
                        Self::in_range(xo, yo) && (xo > cx as int || (xo == cx as int && yo
                            >= cy as int)) ==> (#[trigger] pre_b.spec_get(xo, yo) matches Some(
                            h,
                        ) ==> ((pre_a.cleanable(h.idx as int) && (forall|x3: int, y3: int|
                            Self::in_range(x3, y3) ==> #[trigger] pre_b.spec_get(
                                Self::zoom_src(x3, corner.0),
                                Self::zoom_src(y3, corner.1),
                            ) != Some(h))) ==> (!arena.valid(h) || arena.cleanable(
                            h.idx as int,
                        )))),
                decreases half + 1 - cy,
            {
                let occ = self.get(cx, cy);
                if let Some(o) = occ {
                    if arena.is_live(o) && !Self::slots_contain(&new_data, o) {
                        let ghost a0 = *arena;
                        DrawNode::try_cleanup(arena, o);
                        proof {
                            if !arena.same_as(a0) {
                                assert(cleanup_rel(a0, *arena, o));
                                assert(a0.cleanable(o.idx as int));
                                let op = a0.node(o.idx as int).parent->Some_0;
                                // The window relation survives: the new
                                // cells are protected by the membership
                                // guard, and their parents are non-empty.
                                assert forall|x2: int, y2: int|
                                    Self::in_range(x2, y2) implies (#[trigger] pre_b.spec_get(
                                    Self::zoom_src(x2, corner.0),
                                    Self::zoom_src(y2, corner.1),
                                ) matches Some(sv) ==> (built[(x2 + Self::half()) * (N as int) + (
                                y2 + Self::half())] matches Some(c) && arena.valid(c)
                                    && arena.valid(sv) && arena.node(c.idx as int).parent == Some(
                                    sv,
                                ) && arena.node(c.idx as int).corner == (
                                    Self::zoom_child_bit(x2, corner.0),
                                    Self::zoom_child_bit(y2, corner.1),
                                ))) by {
                                    if let Some(sv) = pre_b.spec_get(
                                        Self::zoom_src(x2, corner.0),
                                        Self::zoom_src(y2, corner.1),
                                    ) {
                                        let sl = (x2 + Self::half()) * (N as int) + (y2
                                            + Self::half());
                                        Self::lemma_flat_idx(x2, y2);
                                        if let Some(c) = built[sl] {
                                            assert(c != o) by {
                                                assert(built[sl] == Some(c));
                                            }
                                            assert(sv.idx as int != o.idx as int) by {
                                                if sv.idx as int == o.idx as int {
                                                    assert(a0.wf_node(c.idx as int));
                                                    assert(a0.wf_parent_link(c.idx as int));
                                                    assert(a0.has_children(o.idx as int));
                                                }
                                            }
                                            assert(arena.node(c.idx as int).parent == a0.node(
                                                c.idx as int,
                                            ).parent && arena.node(c.idx as int).corner
                                                == a0.node(c.idx as int).corner) by {
                                                if c.idx as int == op.idx as int {
                                                } else {
                                                }
                                            }
                                        }
                                    }
                                }
                                // Pending prunable occupants either died
                                // already or stay prunable.
                                assert forall|xo: int, yo: int|
                                    Self::in_range(xo, yo) && (xo > cx as int || (xo == cx as int
                                        && yo >= cy as int + 1)) implies (
                                #[trigger] pre_b.spec_get(xo, yo) matches Some(hh) ==> ((
                                pre_a.cleanable(hh.idx as int) && (forall|x3: int, y3: int|
                                    Self::in_range(x3, y3) ==> #[trigger] pre_b.spec_get(
                                        Self::zoom_src(x3, corner.0),
                                        Self::zoom_src(y3, corner.1),
                                    ) != Some(hh))) ==> (!arena.valid(hh) || arena.cleanable(
                                    hh.idx as int,
                                )))) by {
                                    if let Some(hh) = pre_b.spec_get(xo, yo) {
                                        if pre_a.cleanable(hh.idx as int) && (forall|
                                            x3: int,
                                            y3: int,
                                        |
                                            Self::in_range(x3, y3) ==> #[trigger] pre_b.spec_get(
                                                Self::zoom_src(x3, corner.0),
                                                Self::zoom_src(y3, corner.1),
                                            ) != Some(hh)) {
                                            if a0.valid(hh) && a0.cleanable(hh.idx as int) {
                                                if hh == o {
                                                    assert(!arena.valid(hh));
                                                } else {
                                                    let q = a0.node(
                                                        hh.idx as int,
                                                    ).parent->Some_0;
                                                    assert(q.idx as int != o.idx as int) by {
                                                        if q.idx as int == o.idx as int {
                                                            assert(a0.wf_node(hh.idx as int));
                                                            assert(a0.wf_parent_link(
                                                                hh.idx as int,
                                                            ));
                                                            assert(a0.has_children(
                                                                o.idx as int,
                                                            ));
                                                        }
                                                    }
                                                    assert(hh.idx as int != op.idx as int) by {
                                                        if hh.idx as int == op.idx as int {
                                                            assert(a0.wf_node(o.idx as int));
                                                            assert(a0.wf_parent_link(
                                                                o.idx as int,
                                                            ));
                                                            assert(a0.has_children(
                                                                hh.idx as int,
                                                            ));
                                                        }
                                                    }
                                                    assert(node_same(arena.node(hh.idx as int),
                                                        a0.node(hh.idx as int)));
                                                    assert(arena.valid(hh));
                                                    assert(arena.live(q.idx as int));
                                                    assert(!arena.has_children(hh.idx as int))
                                                        by {
                                                        if arena.has_children(hh.idx as int) {
                                                            assert(a0.has_children(
                                                                hh.idx as int,
                                                            ));
                                                        }
                                                    }
                                                    assert(arena.cleanable(hh.idx as int));
                                                }
                                            }
                                        }
                                    }
                                }
                            }
                        }
                    }
                    proof {
                        // Settle the claim for this cell.
                        if pre_a.cleanable(o.idx as int) && (forall|x3: int, y3: int|
                            Self::in_range(x3, y3) ==> #[trigger] pre_b.spec_get(
                                Self::zoom_src(x3, corner.0),
                                Self::zoom_src(y3, corner.1),
                            ) != Some(o)) && !(exists|j: int|
                            0 <= j < built.len() && #[trigger] built[j] == Some(o)) {
                            assert(!arena.valid(o));
                        }
                    }
                }
                cy += 1;
            }
            cx += 1;
        }
        // Install the new window.
        let mut old_data = new_data;
        core::mem::swap(&mut self.data, &mut old_data);
        self.offset = (0, 0);
        proof {
            assert(self.data@ == built);
            assert(self.wf());
            assert forall|x2: int, y2: int| Self::in_range(x2, y2) implies #[trigger] self.spec_get(
                x2,
                y2,
            ) == built[(x2 + Self::half()) * (N as int) + (y2 + Self::half())] by {
                self.lemma_flat_slot(x2, y2);
                Self::lemma_flat_idx(x2, y2);
            }
            assert forall|x2: int, y2: int|
                Self::in_range(x2, y2) implies (#[trigger] self.spec_get(x2, y2) matches Some(g)
                ==> arena.valid(g)) by {
                if let Some(g) = self.spec_get(x2, y2) {
                    Self::lemma_flat_idx(x2, y2);
                    if pre_b.spec_get(
                        Self::zoom_src(x2, corner.0),
                        Self::zoom_src(y2, corner.1),
                    ) is None {
                        assert(built[(x2 + Self::half()) * (N as int) + (y2
                            + Self::half())] is None);
                    }
                }
            }
            // Every evicted occupant that the new window does not hold
            // was offered cleanup.
            assert forall|xo: int, yo: int|
                Self::in_range(xo, yo) implies (#[trigger] pre_b.spec_get(xo, yo) matches Some(
                h,
            ) ==> ((pre_a.cleanable(h.idx as int) && (forall|x3: int, y3: int|
                Self::in_range(x3, y3) ==> #[trigger] pre_b.spec_get(
                    Self::zoom_src(x3, corner.0),
                    Self::zoom_src(y3, corner.1),
                ) != Some(h)) && !self.spec_contains(h)) ==> !arena.valid(h))) by {
                if let Some(h) = pre_b.spec_get(xo, yo) {
                    if !self.spec_contains(h) {
                        assert(!(exists|j: int|
                            0 <= j < built.len() && #[trigger] built[j] == Some(h))) by {
                            if exists|j: int|
                                0 <= j < built.len() && #[trigger] built[j] == Some(h) {
                                let j = choose|j: int|
                                    0 <= j < built.len() && #[trigger] built[j] == Some(h);
                                Self::lemma_flat_inv(j);
                                let x3 = j / (N as int) - Self::half();
                                let y3 = j % (N as int) - Self::half();
                                assert(self.spec_get(x3, y3) == Some(h)) by {
                                    self.lemma_flat_slot(x3, y3);
                                }
                                assert(self.spec_contains(h));
                            }
                        }
                    }
                }
            }
        }
    }

    /// Whether `(x, y)` lies in the quarter window that `zoom_out`
    /// repopulates.
    pub open spec fn in_quarter(x: int, y: int) -> bool {
        &&& -(Self::half() / 2) <= x <= Self::half() / 2
        &&& -(Self::half() / 2) <= y <= Self::half() / 2
    }

    /// Lexicographic order on window cells, x-major.
    pub open spec fn lex_before(x1: int, y1: int, x2: int, y2: int) -> bool {
        x1 < x2 || (x1 == x2 && y1 < y2)
    }

    /// The cell coordinates of a flat row-major index.
    proof fn lemma_flat_inv(j: int)
        requires
            1 <= N as int <= 46340,
            (N as int) % 2 == 1,
            0 <= j < (N as int) * (N as int),
        ensures
            Self::in_range(j / (N as int) - Self::half(), j % (N as int) - Self::half()),
            (j / (N as int) - Self::half() + Self::half()) * (N as int) + (j % (N as int)
                - Self::half() + Self::half()) == j,
    {
        assert(0 <= j / (N as int) < N as int && 0 <= j % (N as int) < N as int && (j / (
        N as int)) * (N as int) + j % (N as int) == j) by (nonlinear_arith)
            requires
                1 <= N as int,
                0 <= j < (N as int) * (N as int),
        ;
    }

    /// Replace every cell's occupant with its (lazily created) parent,
    /// remapping the window to the coarser depth and de-duplicating by
    /// keeping the first cell that produced each parent; prior
    /// occupants are evicted and offered cleanup, except those still
    /// referenced by the new window.
    #[verifier::loop_isolation(false)]
    #[verifier::rlimit(100)]
    pub fn zoom_out(&mut self, arena: &mut Arena)
        requires
            old(self).wf(),
            old(arena).wf(),
            old(self).cells_valid(*old(arena)),
        ensures
            final(self).wf(),
            final(arena).wf(),
            final(self).cells_valid(*final(arena)),
            final(self).offset == (0usize, 0usize),
            forall|x: int, y: int|
                Self::in_range(x, y) ==> (#[trigger] final(self).spec_get(x, y) matches Some(w)
                    ==> (Self::in_quarter(x, y) && (old(self).spec_get(2 * x, 2 * y)
                    matches Some(v) && (old(arena).node(v.idx as int).parent matches Some(p0)
                    ==> (old(arena).live(p0.idx as int) ==> w == p0))))),
            forall|x: int, y: int|
                Self::in_quarter(x, y) ==> (#[trigger] old(self).spec_get(2 * x, 2 * y)
                    matches Some(v) ==> (old(arena).node(v.idx as int).parent matches Some(p0)
                    ==> (old(arena).live(p0.idx as int) ==> (final(self).spec_get(x, y) == Some(
                    p0,
                ) || exists|x2: int, y2: int|
                    Self::in_quarter(x2, y2) && Self::lex_before(x2, y2, x, y)
                        && #[trigger] final(self).spec_get(x2, y2) == Some(p0))))),
            forall|i: int| 0 <= i < old(arena).n() && final(arena).live(i) ==> old(arena).live(i),
            old(arena).n() <= final(arena).n(),
            forall|i: int|
                0 <= i < old(arena).n() ==> final(arena).levels@[i] == old(arena).levels@[i],
            forall|x: int, y: int|
                Self::in_range(x, y) ==> (#[trigger] old(self).spec_get(x, y) matches Some(h)
                    ==> ((old(arena).cleanable(h.idx as int) && !final(self).spec_contains(h))
                    ==> !final(arena).valid(h))),
            forall|xa: int, ya: int, xb: int, yb: int|
                Self::in_range(xa, ya) && Self::in_range(xb, yb) && !(xa == xb && ya == yb) ==> (
                #[trigger] final(self).spec_get(xa, ya) matches Some(w) ==> #[trigger] final(self).spec_get(xb, yb) != Some(w)),
            forall|x: int, y: int|
                Self::in_quarter(x, y) ==> (#[trigger] old(self).spec_get(2 * x, 2 * y)
                    matches Some(v) ==> (exists|w: Handle|
                    #[trigger] final(arena).valid(w) && (!final(arena).valid(v) || final(arena).node(v.idx as int).parent == Some(w)) && (final(self).spec_get(x, y)
                        == Some(w) || exists|x3: int, y3: int|
                        Self::in_quarter(x3, y3) && Self::lex_before(x3, y3, x, y)
                            && #[trigger] final(self).spec_get(x3, y3) == Some(w)))),
    {
        let n = N as i32;
        let half = n / 2;
        let q = half / 2;
        proof {
            assert((N as int) * (N as int) <= 2147395600) by (nonlinear_arith)
                requires
                    1 <= N as int <= 46340,
            ;
        }
        let total = N * N;
        let mut new_data: Vec<Option<Handle>> = Vec::new();
        let mut i: usize = 0;
        while i < total
            invariant
                total == N * N,
                i <= total,
                new_data@.len() == i as int,
                forall|j: int| 0 <= j < i as int ==> new_data@[j] is None,
            decreases total - i,
        {
            new_data.push(None);
            i += 1;
        }
        let ghost pre_b = *old(self);
        let ghost pre_a = *old(arena);
        proof {
            assert forall|x2: int, y2: int| Self::in_range(x2, y2) implies new_data@[(x2
                + Self::half()) * (N as int) + (y2 + Self::half())] is None by {
                Self::lemma_flat_idx(x2, y2);
            }
        }
        let mut x: i32 = -q;
        while x <= q
            invariant
                self.wf(),
                arena.wf(),
                self.cells_valid(*arena),
                *self == pre_b,
                N as i32 == n,
                half == n / 2,
                q == half / 2,
                -q <= x <= q + 1,
                new_data@.len() == (N as int) * (N as int),
                pre_b == *old(self),
                forall|i2: int| 0 <= i2 < pre_a.n() && arena.live(i2) ==> pre_a.live(i2),
                pre_a.n() <= arena.n(),
                forall|i2: int| pre_a.live(i2) ==> arena.live(i2),
                forall|i2: int|
                    pre_a.live(i2) ==> (pre_a.node(i2).parent matches Some(p0) ==> (pre_a.live(
                        p0.idx as int,
                    ) ==> arena.node(i2).parent == pre_a.node(i2).parent)),
                forall|i2: int| 0 <= i2 < pre_a.n() ==> arena.levels@[i2] == pre_a.levels@[i2],
                forall|xo: int, yo: int|
                    Self::in_range(xo, yo) ==> (#[trigger] pre_b.spec_get(xo, yo) matches Some(h)
                        ==> (pre_a.cleanable(h.idx as int) ==> arena.valid(h)
                        && arena.cleanable(h.idx as int))),
                forall|xa: int, ya: int, xb: int, yb: int|
                    Self::in_range(xa, ya) && Self::in_range(xb, yb) && !(xa == xb && ya == yb)
                        ==> (#[trigger] new_data@[(xa + Self::half()) * (N as int) + (ya
                        + Self::half())] matches Some(w) ==> #[trigger] new_data@[(xb
                        + Self::half()) * (N as int) + (yb + Self::half())] != Some(w)),
                forall|x2: int, y2: int|
                    Self::in_quarter(x2, y2) && Self::lex_before(x2, y2, x as int, -(q as int))
                        ==> (#[trigger] pre_b.spec_get(2 * x2, 2 * y2) matches Some(v) ==> (
                        exists|w: Handle|
                            #[trigger] arena.valid(w) && arena.node(v.idx as int).parent == Some(
                                w,
                            ) && (new_data@[(x2 + Self::half()) * (N as int) + (y2
                                + Self::half())] == Some(w) || exists|x3: int, y3: int|
                                Self::in_quarter(x3, y3) && Self::lex_before(x3, y3, x2, y2)
                                    && #[trigger] new_data@[(x3 + Self::half()) * (N as int) + (
                                    y3 + Self::half())] == Some(w)))),
                forall|x2: int, y2: int|
                    Self::in_range(x2, y2) && !(Self::in_quarter(x2, y2) && Self::lex_before(
                        x2,
                        y2,
                        x as int,
                        -(q as int),
                    )) ==> new_data@[(x2 + Self::half()) * (N as int) + (y2
                        + Self::half())] is None,
                forall|x2: int, y2: int|
                    Self::in_quarter(x2, y2) && Self::lex_before(x2, y2, x as int, -(q as int))
                        ==> (#[trigger] new_data@[(x2 + Self::half()) * (N as int) + (y2
                        + Self::half())] matches Some(w) ==> (pre_b.spec_get(2 * x2, 2 * y2)
                        matches Some(v) && arena.valid(w) && (pre_a.node(v.idx as int).parent
                        matches Some(p0) ==> (pre_a.live(p0.idx as int) ==> w == p0)))),
                forall|x2: int, y2: int|
                    Self::in_quarter(x2, y2) && Self::lex_before(x2, y2, x as int, -(q as int))
                        ==> (#[trigger] pre_b.spec_get(2 * x2, 2 * y2) matches Some(v) ==> (
                        pre_a.node(v.idx as int).parent matches Some(p0) ==> (pre_a.live(
                            p0.idx as int,
                        ) ==> (new_data@[(x2 + Self::half()) * (N as int) + (y2 + Self::half())]
                        == Some(p0) || exists|x3: int, y3: int|
                        Self::in_quarter(x3, y3) && Self::lex_before(x3, y3, x2, y2)
                            && #[trigger] new_data@[(x3 + Self::half()) * (N as int) + (y3
                            + Self::half())] == Some(p0))))),
            decreases q + 1 - x,
        {
            let mut y: i32 = -q;
            while y <= q
                invariant
                    self.wf(),
                    arena.wf(),
                    self.cells_valid(*arena),
                    *self == pre_b,
                    N as i32 == n,
                    half == n / 2,
                    q == half / 2,
                    -q <= x <= q,
                    -q <= y <= q + 1,
                    new_data@.len() == (N as int) * (N as int),
                    pre_b == *old(self),
                    forall|i2: int| 0 <= i2 < pre_a.n() && arena.live(i2) ==> pre_a.live(i2),
                    pre_a.n() <= arena.n(),
                    forall|i2: int| pre_a.live(i2) ==> arena.live(i2),
                    forall|i2: int|
                        pre_a.live(i2) ==> (pre_a.node(i2).parent matches Some(p0)
                            ==> (pre_a.live(p0.idx as int) ==> arena.node(i2).parent
                            == pre_a.node(i2).parent)),
                    forall|i2: int|
                        0 <= i2 < pre_a.n() ==> arena.levels@[i2] == pre_a.levels@[i2],
                    forall|xo: int, yo: int|
                        Self::in_range(xo, yo) ==> (#[trigger] pre_b.spec_get(xo, yo)
                            matches Some(h) ==> (pre_a.cleanable(h.idx as int) ==> arena.valid(h)
                            && arena.cleanable(h.idx as int))),
                    forall|xa: int, ya: int, xb: int, yb: int|
                        Self::in_range(xa, ya) && Self::in_range(xb, yb) && !(xa == xb && ya
                            == yb) ==> (#[trigger] new_data@[(xa + Self::half()) * (N as int) + (
                        ya + Self::half())] matches Some(w) ==> #[trigger] new_data@[(xb
                            + Self::half()) * (N as int) + (yb + Self::half())] != Some(w)),
                    forall|x2: int, y2: int|
                        Self::in_quarter(x2, y2) && Self::lex_before(x2, y2, x as int, y as int)
                            ==> (#[trigger] pre_b.spec_get(2 * x2, 2 * y2) matches Some(v) ==> (
                            exists|w: Handle|
                                #[trigger] arena.valid(w) && arena.node(v.idx as int).parent
                                    == Some(w) && (new_data@[(x2 + Self::half()) * (N as int) + (
                                    y2 + Self::half())] == Some(w) || exists|x3: int, y3: int|
                                    Self::in_quarter(x3, y3) && Self::lex_before(x3, y3, x2, y2)
                                        && #[trigger] new_data@[(x3 + Self::half()) * (N as int)
                                        + (y3 + Self::half())] == Some(w)))),
                    forall|x2: int, y2: int|
                        Self::in_range(x2, y2) && !(Self::in_quarter(x2, y2) && Self::lex_before(
                            x2,
                            y2,
                            x as int,
                            y as int,
                        )) ==> new_data@[(x2 + Self::half()) * (N as int) + (y2
                            + Self::half())] is None,
                    forall|x2: int, y2: int|
                        Self::in_quarter(x2, y2) && Self::lex_before(x2, y2, x as int, y as int)
                            ==> (#[trigger] new_data@[(x2 + Self::half()) * (N as int) + (y2
                            + Self::half())] matches Some(w) ==> (pre_b.spec_get(2 * x2, 2 * y2)
                            matches Some(v) && arena.valid(w) && (pre_a.node(
                            v.idx as int,
                        ).parent matches Some(p0) ==> (pre_a.live(p0.idx as int) ==> w == p0)))),
                    forall|x2: int, y2: int|
                        Self::in_quarter(x2, y2) && Self::lex_before(x2, y2, x as int, y as int)
                            ==> (#[trigger] pre_b.spec_get(2 * x2, 2 * y2) matches Some(v) ==> (
                            pre_a.node(v.idx as int).parent matches Some(p0) ==> (pre_a.live(
                                p0.idx as int,
                            ) ==> (new_data@[(x2 + Self::half()) * (N as int) + (y2
                            + Self::half())] == Some(p0) || exists|x3: int, y3: int|
                            Self::in_quarter(x3, y3) && Self::lex_before(x3, y3, x2, y2)
                                && #[trigger] new_data@[(x3 + Self::half()) * (N as int) + (y3
                                + Self::half())] == Some(p0))))),
                decreases q + 1 - y,
            {
                let src = self.get(2 * x, 2 * y);
                proof {
                    Self::lemma_flat_idx(x as int, y as int);
                }
                let idx = ((x + half) as usize) * N + ((y + half) as usize);
                let ghost nd0 = new_data@;
                if let Some(v) = src {
                    let ghost a_before = *arena;
                    let p = DrawNode::get_or_create_parent(arena, v);
                    // De-duplicate: keep the first cell that produced
                    // this parent.
                    let mut found: bool = false;
                    let mut j: usize = 0;
                    while j < total
                        invariant
                            total == N * N,
                            j <= total,
                            new_data@.len() == total as int,
                            found == exists|j2: int|
                                0 <= j2 < j as int && #[trigger] new_data@[j2] == Some(p),
                        decreases total - j,
                    {
                        if let Some(g) = new_data[j] {
                            if g.idx == p.idx {
                                proof {
                                    assert(new_data@[j as int] == Some(p));
                                }
                                found = true;
                            }
                        }
                        j += 1;
                    }
                    if !found {
                        new_data[idx] = Some(p);
                    }
                    proof {
                        let hf = Self::half();
                        let nn = N as int;
                        assert forall|x2: int, y2: int|
                            Self::in_range(x2, y2) && !(x2 == x as int && y2 == y as int) implies
                            new_data@[(x2 + hf) * nn + (y2 + hf)] == nd0[(x2 + hf) * nn + (y2
                            + hf)] by {
                            Self::lemma_flat_idx(x2, y2);
                            Self::lemma_flat_idx_ne(x2, y2, x as int, y as int);
                        }
                        // The parent claim for this source.
                        if let Some(p0) = pre_a.node(v.idx as int).parent {
                            if pre_a.live(p0.idx as int) {
                                assert(a_before.node(v.idx as int).parent == pre_a.node(
                                    v.idx as int,
                                ).parent);
                                assert(p == p0);
                            }
                        }
                        // Where this source's parent now sits in the
                        // new window: at this cell, or at the earlier
                        // cell the scan found.
                        let gx = choose|x3: int, y3: int|
                            Self::in_quarter(x3, y3) && Self::lex_before(
                                x3,
                                y3,
                                x as int,
                                y as int,
                            ) && #[trigger] nd0[(x3 + hf) * nn + (y3 + hf)] == Some(p);
                        if found {
                            let j2 = choose|j2: int|
                                0 <= j2 < total as int && #[trigger] nd0[j2] == Some(p);
                            Self::lemma_flat_inv(j2);
                            let x3 = j2 / nn - hf;
                            let y3 = j2 % nn - hf;
                            assert(nd0[(x3 + hf) * nn + (y3 + hf)] == Some(p));
                            assert(Self::in_quarter(x3, y3) && Self::lex_before(
                                x3,
                                y3,
                                x as int,
                                y as int,
                            )) by {
                                if !(Self::in_quarter(x3, y3) && Self::lex_before(
                                    x3,
                                    y3,
                                    x as int,
                                    y as int,
                                )) {
                                    assert(nd0[(x3 + hf) * nn + (y3 + hf)] is None);
                                }
                            }
                            assert(Self::in_quarter(gx.0, gx.1) && Self::lex_before(
                                gx.0,
                                gx.1,
                                x as int,
                                y as int,
                            ) && nd0[(gx.0 + hf) * nn + (gx.1 + hf)] == Some(p));
                            assert(new_data@[(gx.0 + hf) * nn + (gx.1 + hf)] == Some(p)) by {
                                Self::lemma_flat_idx(gx.0, gx.1);
                                Self::lemma_flat_idx_ne(gx.0, gx.1, x as int, y as int);
                            }
                        } else {
                            assert(new_data@[(x as int + hf) * nn + (y as int + hf)] == Some(p));
                        }
                        // Re-establish the placed-cell claims up to the
                        // next cell.
                        assert forall|x2: int, y2: int|
                            Self::in_quarter(x2, y2) && Self::lex_before(
                                x2,
                                y2,
                                x as int,
                                y as int + 1,
                            ) implies (#[trigger] new_data@[(x2 + hf) * nn + (y2 + hf)]
                            matches Some(w) ==> (pre_b.spec_get(2 * x2, 2 * y2) matches Some(v2)
                            && arena.valid(w) && (pre_a.node(v2.idx as int).parent matches Some(
                            p0,
                        ) ==> (pre_a.live(p0.idx as int) ==> w == p0)))) by {
                            Self::lemma_flat_idx(x2, y2);
                            if x2 == x as int && y2 == y as int {
                                if !found {
                                    assert(new_data@[(x2 + hf) * nn + (y2 + hf)] == Some(p));
                                } else {
                                    assert(new_data@[(x2 + hf) * nn + (y2 + hf)] == nd0[(x2 + hf)
                                        * nn + (y2 + hf)]);
                                    assert(nd0[(x2 + hf) * nn + (y2 + hf)] is None);
                                }
                            } else {
                                Self::lemma_flat_idx_ne(x2, y2, x as int, y as int);
                                if let Some(w) = new_data@[(x2 + hf) * nn + (y2 + hf)] {
                                    assert(nd0[(x2 + hf) * nn + (y2 + hf)] == Some(w));
                                    assert(a_before.valid(w));
                                    assert(arena.valid(w));
                                }
                            }
                        }
                        // Re-establish the placement-or-earlier claims.
                        assert forall|x2: int, y2: int|
                            Self::in_quarter(x2, y2) && Self::lex_before(
                                x2,
                                y2,
                                x as int,
                                y as int + 1,
                            ) implies (#[trigger] pre_b.spec_get(2 * x2, 2 * y2) matches Some(v2)
                            ==> (pre_a.node(v2.idx as int).parent matches Some(p0) ==> (
                        pre_a.live(p0.idx as int) ==> (new_data@[(x2 + hf) * nn + (y2 + hf)]
                            == Some(p0) || exists|x3: int, y3: int|
                            Self::in_quarter(x3, y3) && Self::lex_before(x3, y3, x2, y2)
                                && #[trigger] new_data@[(x3 + hf) * nn + (y3 + hf)] == Some(
                                p0,
                            ))))) by {
                            Self::lemma_flat_idx(x2, y2);
                            if x2 == x as int && y2 == y as int {
                                if let Some(v2) = pre_b.spec_get(2 * x2, 2 * y2) {
                                    assert(v2 == v);
                                    if let Some(p0) = pre_a.node(v.idx as int).parent {
                                        if pre_a.live(p0.idx as int) {
                                            assert(p == p0);
                                            if found {
                                                assert(Self::in_quarter(gx.0, gx.1)
                                                    && Self::lex_before(gx.0, gx.1, x2, y2)
                                                    && new_data@[(gx.0 + hf) * nn + (gx.1 + hf)]
                                                    == Some(p0));
                                            } else {
                                                assert(new_data@[(x2 + hf) * nn + (y2 + hf)]
                                                    == Some(p0));
                                            }
                                        }
                                    }
                                }
                            } else {
                                Self::lemma_flat_idx_ne(x2, y2, x as int, y as int);
                                if let Some(v2) = pre_b.spec_get(2 * x2, 2 * y2) {
                                    if let Some(p0) = pre_a.node(v2.idx as int).parent {
                                        if pre_a.live(p0.idx as int) {
                                            if nd0[(x2 + hf) * nn + (y2 + hf)] == Some(p0) {
                                            } else {
                                                let (x3, y3) = choose|x3: int, y3: int|
                                                    Self::in_quarter(x3, y3)
                                                        && Self::lex_before(x3, y3, x2, y2)
                                                        && #[trigger] nd0[(x3 + hf) * nn + (y3
                                                        + hf)] == Some(p0);
                                                assert(new_data@[(x3 + hf) * nn + (y3 + hf)]
                                                    == Some(p0)) by {
                                                    Self::lemma_flat_idx(x3, y3);
                                                    Self::lemma_flat_idx_ne(
                                                        x3,
                                                        y3,
                                                        x as int,
                                                        y as int,
                                                    );
                                                }
                                            }
                                        }
                                    }
                                }
                            }
                        }
                        // Prunable occupants stay prunable: a source
                        // with a live parent is returned unchanged.
                        assert forall|xo: int, yo: int|
                            Self::in_range(xo, yo) implies (#[trigger] pre_b.spec_get(xo, yo)
                            matches Some(h) ==> (pre_a.cleanable(h.idx as int) ==> arena.valid(h)
                            && arena.cleanable(h.idx as int))) by {
                            if let Some(h) = pre_b.spec_get(xo, yo) {
                                if pre_a.cleanable(h.idx as int) {
                                    assert(a_before.valid(h) && a_before.cleanable(
                                        h.idx as int,
                                    ));
                                    if h.idx as int == v.idx as int {
                                        let qh = a_before.node(h.idx as int).parent->Some_0;
                                        assert(a_before.live(qh.idx as int));
                                        assert(arena.same_as(a_before));
                                        assert(arena.cleanable(h.idx as int));
                                    } else {
                                        assert(arena.node(h.idx as int).children@
                                            == a_before.node(h.idx as int).children@);
                                        assert(arena.node(h.idx as int).strokes@
                                            == a_before.node(h.idx as int).strokes@);
                                        assert(arena.node(h.idx as int).parent == a_before.node(
                                            h.idx as int,
                                        ).parent);
                                        assert(!arena.has_children(h.idx as int)) by {
                                            if arena.has_children(h.idx as int) {
                                                assert(a_before.has_children(h.idx as int));
                                            }
                                        }
                                        assert(arena.cleanable(h.idx as int));
                                    }
                                }
                            }
                        }
                        // Placed values stay pairwise distinct: a new
                        // value is installed only when the scan finds
                        // it nowhere.
                        assert forall|xa: int, ya: int, xb: int, yb: int|
                            Self::in_range(xa, ya) && Self::in_range(xb, yb) && !(xa == xb && ya
                                == yb) implies (#[trigger] new_data@[(xa + hf) * nn + (ya + hf)]
                            matches Some(w) ==> #[trigger] new_data@[(xb + hf) * nn + (yb + hf)]
                            != Some(w)) by {
                            Self::lemma_flat_idx(xa, ya);
                            Self::lemma_flat_idx(xb, yb);
                            Self::lemma_flat_idx_ne(xa, ya, xb, yb);
                            if xa == x as int && ya == y as int {
                                Self::lemma_flat_idx_ne(xb, yb, x as int, y as int);
                                if !found {
                                    assert(new_data@[(xb + hf) * nn + (yb + hf)] == nd0[(xb + hf)
                                        * nn + (yb + hf)]);
                                }
                            } else if xb == x as int && yb == y as int {
                                Self::lemma_flat_idx_ne(xa, ya, x as int, y as int);
                                if !found {
                                    assert(new_data@[(xa + hf) * nn + (ya + hf)] == nd0[(xa + hf)
                                        * nn + (ya + hf)]);
                                }
                            } else {
                                Self::lemma_flat_idx_ne(xa, ya, x as int, y as int);
                                Self::lemma_flat_idx_ne(xb, yb, x as int, y as int);
                            }
                        }
                        // The general placement claim, up to the next
                        // cell.
                        assert forall|x2: int, y2: int|
                            Self::in_quarter(x2, y2) && Self::lex_before(
                                x2,
                                y2,
                                x as int,
                                y as int + 1,
                            ) implies (#[trigger] pre_b.spec_get(2 * x2, 2 * y2) matches Some(v2)
                            ==> (exists|w: Handle|
                            #[trigger] arena.valid(w) && arena.node(v2.idx as int).parent
                                == Some(w) && (new_data@[(x2 + hf) * nn + (y2 + hf)] == Some(w)
                                || exists|x3: int, y3: int|
                                Self::in_quarter(x3, y3) && Self::lex_before(x3, y3, x2, y2)
                                    && #[trigger] new_data@[(x3 + hf) * nn + (y3 + hf)] == Some(
                                    w,
                                )))) by {
                            Self::lemma_flat_idx(x2, y2);
                            if let Some(v2) = pre_b.spec_get(2 * x2, 2 * y2) {
                                if x2 == x as int && y2 == y as int {
                                    assert(v2 == v);
                                    assert(arena.valid(p) && arena.node(v.idx as int).parent
                                        == Some(p));
                                    if found {
                                        assert(Self::in_quarter(gx.0, gx.1) && Self::lex_before(
                                            gx.0,
                                            gx.1,
                                            x as int,
                                            y as int,
                                        ) && new_data@[(gx.0 + hf) * nn + (gx.1 + hf)] == Some(
                                            p,
                                        ));
                                    } else {
                                        assert(new_data@[(x2 + hf) * nn + (y2 + hf)] == Some(p));
                                    }
                                } else {
                                    let w = choose|w: Handle|
                                        #[trigger] a_before.valid(w) && a_before.node(
                                            v2.idx as int,
                                        ).parent == Some(w) && (nd0[(x2 + hf) * nn + (y2 + hf)]
                                            == Some(w) || exists|x3: int, y3: int|
                                            Self::in_quarter(x3, y3) && Self::lex_before(
                                                x3,
                                                y3,
                                                x2,
                                                y2,
                                            ) && #[trigger] nd0[(x3 + hf) * nn + (y3 + hf)]
                                                == Some(w));
                                    assert(arena.valid(w));
                                    assert(arena.node(v2.idx as int).parent == Some(w)) by {
                                        if v2.idx as int == v.idx as int {
                                            assert(a_before.node(v.idx as int).parent == Some(
                                                w,
                                            ) && a_before.live(w.idx as int));
                                        }
                                    }
                                    if nd0[(x2 + hf) * nn + (y2 + hf)] == Some(w) {
                                        assert(new_data@[(x2 + hf) * nn + (y2 + hf)] == Some(w))
                                            by {
                                            Self::lemma_flat_idx_ne(x2, y2, x as int, y as int);
                                        }
                                    } else {
                                        let (x3, y3) = choose|x3: int, y3: int|
                                            Self::in_quarter(x3, y3) && Self::lex_before(
                                                x3,
                                                y3,
                                                x2,
                                                y2,
                                            ) && #[trigger] nd0[(x3 + hf) * nn + (y3 + hf)]
                                                == Some(w);
                                        assert(new_data@[(x3 + hf) * nn + (y3 + hf)] == Some(w))
                                            by {
                                            Self::lemma_flat_idx(x3, y3);
                                            Self::lemma_flat_idx_ne(x3, y3, x as int, y as int);
                                        }
                                    }
                                }
                            }
                        }
                    }
                }
                y += 1;
            }
            x += 1;
        }
        // Evict the prior occupants, offering cleanup to any that the
        // new window does not reference, then install it.
        let ghost built = new_data@;
        let mut cx: i32 = -half;
        #[verifier::loop_isolation(true)]
        while cx <= half
            invariant
                self.wf(),
                arena.wf(),
                pre_a.wf(),
                pre_b.wf(),
                pre_b.cells_valid(pre_a),
                *self == pre_b,
                N as i32 == n,
                half == n / 2,
                q == half / 2,
                -half <= cx <= half + 1,
                new_data@ == built,
                built.len() == (N as int) * (N as int),
                pre_b == *old(self),
                forall|i2: int| 0 <= i2 < pre_a.n() && arena.live(i2) ==> pre_a.live(i2),
                pre_a.n() <= arena.n(),
                forall|i2: int| 0 <= i2 < pre_a.n() ==> arena.levels@[i2] == pre_a.levels@[i2],
                forall|x2: int, y2: int|
                    Self::in_range(x2, y2) && !Self::in_quarter(x2, y2) ==> built[(x2
                        + Self::half()) * (N as int) + (y2 + Self::half())] is None,
                forall|x2: int, y2: int|
                    Self::in_quarter(x2, y2) ==> (#[trigger] built[(x2 + Self::half()) * (
                    N as int) + (y2 + Self::half())] matches Some(w) ==> (pre_b.spec_get(
                        2 * x2,
                        2 * y2,
                    ) matches Some(v) && arena.valid(w) && (pre_a.node(v.idx as int).parent
                        matches Some(p0) ==> (pre_a.live(p0.idx as int) ==> w == p0)))),
                forall|x2: int, y2: int|
                    Self::in_quarter(x2, y2) ==> (#[trigger] pre_b.spec_get(2 * x2, 2 * y2)
                        matches Some(v) ==> (pre_a.node(v.idx as int).parent matches Some(p0)
                        ==> (pre_a.live(p0.idx as int) ==> (built[(x2 + Self::half()) * (
                        N as int) + (y2 + Self::half())] == Some(p0) || exists|x3: int, y3: int|
                        Self::in_quarter(x3, y3) && Self::lex_before(x3, y3, x2, y2)
                            && #[trigger] built[(x3 + Self::half()) * (N as int) + (y3
                            + Self::half())] == Some(p0))))),
                forall|x2: int, y2: int|
                    Self::in_quarter(x2, y2) ==> (#[trigger] pre_b.spec_get(2 * x2, 2 * y2)
                        matches Some(v) ==> (exists|w: Handle|
                        #[trigger] arena.valid(w) && (!arena.valid(v) || arena.node(
                            v.idx as int,
                        ).parent == Some(w)) && (built[(x2 + Self::half()) * (N as int) + (y2
                            + Self::half())] == Some(w) || exists|x3: int, y3: int|
                            Self::in_quarter(x3, y3) && Self::lex_before(x3, y3, x2, y2)
                                && #[trigger] built[(x3 + Self::half()) * (N as int) + (y3
                                + Self::half())] == Some(w)))),
                forall|xa: int, ya: int, xb: int, yb: int|
                    Self::in_range(xa, ya) && Self::in_range(xb, yb) && !(xa == xb && ya == yb)
                        ==> (#[trigger] built[(xa + Self::half()) * (N as int) + (ya
                        + Self::half())] matches Some(w) ==> #[trigger] built[(xb + Self::half())
                        * (N as int) + (yb + Self::half())] != Some(w)),
                forall|xo: int, yo: int|
                    Self::in_range(xo, yo) && xo < cx as int ==> (#[trigger] pre_b.spec_get(
                        xo,
                        yo,
                    ) matches Some(h) ==> ((pre_a.cleanable(h.idx as int) && !(exists|j: int|
                        0 <= j < built.len() && #[trigger] built[j] == Some(h)))
                        ==> !arena.valid(h))),
                forall|xo: int, yo: int|
                    Self::in_range(xo, yo) && xo >= cx as int ==> (#[trigger] pre_b.spec_get(
                        xo,
                        yo,
                    ) matches Some(h) ==> (pre_a.cleanable(h.idx as int) ==> (!arena.valid(h)
                        || arena.cleanable(h.idx as int)))),
            decreases half + 1 - cx,
        {
            let mut cy: i32 = -half;
            #[verifier::loop_isolation(true)]
            while cy <= half
                invariant
                    self.wf(),
                    arena.wf(),
                    pre_a.wf(),
                    pre_b.wf(),
                    pre_b.cells_valid(pre_a),
                    *self == pre_b,
                    N as i32 == n,
                    half == n / 2,
                    q == half / 2,
                    -half <= cx <= half,
                    -half <= cy <= half + 1,
                    new_data@ == built,
                    built.len() == (N as int) * (N as int),
                    pre_b == *old(self),
                    forall|i2: int| 0 <= i2 < pre_a.n() && arena.live(i2) ==> pre_a.live(i2),
                    pre_a.n() <= arena.n(),
                    forall|i2: int|
                        0 <= i2 < pre_a.n() ==> arena.levels@[i2] == pre_a.levels@[i2],
                    forall|x2: int, y2: int|
                        Self::in_range(x2, y2) && !Self::in_quarter(x2, y2) ==> built[(x2
                            + Self::half()) * (N as int) + (y2 + Self::half())] is None,
                    forall|x2: int, y2: int|
                        Self::in_quarter(x2, y2) ==> (#[trigger] built[(x2 + Self::half()) * (
                        N as int) + (y2 + Self::half())] matches Some(w) ==> (pre_b.spec_get(
                            2 * x2,
                            2 * y2,
                        ) matches Some(v) && arena.valid(w) && (pre_a.node(v.idx as int).parent
                            matches Some(p0) ==> (pre_a.live(p0.idx as int) ==> w == p0)))),
                    forall|x2: int, y2: int|
                        Self::in_quarter(x2, y2) ==> (#[trigger] pre_b.spec_get(2 * x2, 2 * y2)
                            matches Some(v) ==> (pre_a.node(v.idx as int).parent matches Some(
                            p0,
                        ) ==> (pre_a.live(p0.idx as int) ==> (built[(x2 + Self::half()) * (
                        N as int) + (y2 + Self::half())] == Some(p0) || exists|x3: int, y3: int|
                            Self::in_quarter(x3, y3) && Self::lex_before(x3, y3, x2, y2)
                                && #[trigger] built[(x3 + Self::half()) * (N as int) + (y3
                                + Self::half())] == Some(p0))))),
                    forall|x2: int, y2: int|
                        Self::in_quarter(x2, y2) ==> (#[trigger] pre_b.spec_get(2 * x2, 2 * y2)
                            matches Some(v) ==> (exists|w: Handle|
                            #[trigger] arena.valid(w) && (!arena.valid(v) || arena.node(
                                v.idx as int,
                            ).parent == Some(w)) && (built[(x2 + Self::half()) * (N as int) + (
                            y2 + Self::half())] == Some(w) || exists|x3: int, y3: int|
                                Self::in_quarter(x3, y3) && Self::lex_before(x3, y3, x2, y2)
                                    && #[trigger] built[(x3 + Self::half()) * (N as int) + (y3
                                    + Self::half())] == Some(w)))),
                    forall|xa: int, ya: int, xb: int, yb: int|
                        Self::in_range(xa, ya) && Self::in_range(xb, yb) && !(xa == xb && ya
                            == yb) ==> (#[trigger] built[(xa + Self::half()) * (N as int) + (ya
                            + Self::half())] matches Some(w) ==> #[trigger] built[(xb
                            + Self::half()) * (N as int) + (yb + Self::half())] != Some(w)),
                    forall|xo: int, yo: int|
                        Self::in_range(xo, yo) && (xo < cx as int || (xo == cx as int && yo
                            < cy as int)) ==> (#[trigger] pre_b.spec_get(xo, yo) matches Some(h)
                            ==> ((pre_a.cleanable(h.idx as int) && !(exists|j: int|
                            0 <= j < built.len() && #[trigger] built[j] == Some(h)))
                            ==> !arena.valid(h))),
                    forall|xo: int, yo: int|
                        Self::in_range(xo, yo) && (xo > cx as int || (xo == cx as int && yo
                            >= cy as int)) ==> (#[trigger] pre_b.spec_get(xo, yo) matches Some(
                            h,
                        ) ==> (pre_a.cleanable(h.idx as int) ==> (!arena.valid(h)
                            || arena.cleanable(h.idx as int)))),
                decreases half + 1 - cy,
            {
                let occ = self.get(cx, cy);
                if let Some(o) = occ {
                    if arena.is_live(o) && !Self::slots_contain(&new_data, o) {
                        let ghost a0 = *arena;
                        DrawNode::try_cleanup(arena, o);
                        proof {
                            if !arena.same_as(a0) {
                                assert(cleanup_rel(a0, *arena, o));
                                assert(a0.cleanable(o.idx as int));
                                let op = a0.node(o.idx as int).parent->Some_0;
                                // Placed parents live in the new window
                                // and are protected by the guard.
                                assert forall|x2: int, y2: int|
                                    Self::in_quarter(x2, y2) implies (#[trigger] built[(x2
                                    + Self::half()) * (N as int) + (y2 + Self::half())]
                                    matches Some(w) ==> (pre_b.spec_get(2 * x2, 2 * y2)
                                    matches Some(v) && arena.valid(w) && (pre_a.node(
                                    v.idx as int,
                                ).parent matches Some(p0) ==> (pre_a.live(p0.idx as int) ==> w
                                    == p0)))) by {
                                    Self::lemma_flat_idx(x2, y2);
                                    if let Some(w) = built[(x2 + Self::half()) * (N as int) + (y2
                                        + Self::half())] {
                                        assert(w != o);
                                        assert(arena.valid(w));
                                    }
                                }
                                assert forall|x2: int, y2: int|
                                    Self::in_quarter(x2, y2) implies (#[trigger] pre_b.spec_get(
                                    2 * x2,
                                    2 * y2,
                                ) matches Some(v) ==> (exists|w: Handle|
                                    #[trigger] arena.valid(w) && (!arena.valid(v) || arena.node(
                                        v.idx as int,
                                    ).parent == Some(w)) && (built[(x2 + Self::half()) * (
                                    N as int) + (y2 + Self::half())] == Some(w) || exists|
                                        x3: int,
                                        y3: int,
                                    |
                                        Self::in_quarter(x3, y3) && Self::lex_before(
                                            x3,
                                            y3,
                                            x2,
                                            y2,
                                        ) && #[trigger] built[(x3 + Self::half()) * (N as int)
                                            + (y3 + Self::half())] == Some(w)))) by {
                                    Self::lemma_flat_idx(x2, y2);
                                    if let Some(v) = pre_b.spec_get(2 * x2, 2 * y2) {
                                        let w = choose|w: Handle|
                                            #[trigger] a0.valid(w) && (!a0.valid(v) || a0.node(
                                                v.idx as int,
                                            ).parent == Some(w)) && (built[(x2 + Self::half()) * (
                                            N as int) + (y2 + Self::half())] == Some(w)
                                                || exists|x3: int, y3: int|
                                                Self::in_quarter(x3, y3) && Self::lex_before(
                                                    x3,
                                                    y3,
                                                    x2,
                                                    y2,
                                                ) && #[trigger] built[(x3 + Self::half()) * (
                                                N as int) + (y3 + Self::half())] == Some(w));
                                        assert(w != o) by {
                                            if built[(x2 + Self::half()) * (N as int) + (y2
                                                + Self::half())] == Some(w) {
                                            } else {
                                                let (x3, y3) = choose|x3: int, y3: int|
                                                    Self::in_quarter(x3, y3)
                                                        && Self::lex_before(x3, y3, x2, y2)
                                                        && #[trigger] built[(x3 + Self::half())
                                                        * (N as int) + (y3 + Self::half())]
                                                        == Some(w);
                                                Self::lemma_flat_idx(x3, y3);
                                            }
                                        }
                                        assert(arena.valid(w));
                                        if arena.valid(v) {
                                            assert(a0.valid(v));
                                            if a0.node(v.idx as int).parent == Some(w) {
                                                assert(arena.node(v.idx as int).parent == Some(
                                                    w,
                                                )) by {
                                                    if v.idx as int == o.idx as int {
                                                        assert(!arena.valid(v));
                                                    }
                                                }
                                            }
                                        }
                                    }
                                }
                                // Pending prunable occupants either
                                // died already or stay prunable.
                                assert forall|xo: int, yo: int|
                                    Self::in_range(xo, yo) && (xo > cx as int || (xo == cx as int
                                        && yo >= cy as int + 1)) implies (
                                #[trigger] pre_b.spec_get(xo, yo) matches Some(hh) ==> (
                                pre_a.cleanable(hh.idx as int) ==> (!arena.valid(hh)
                                    || arena.cleanable(hh.idx as int)))) by {
                                    if let Some(hh) = pre_b.spec_get(xo, yo) {
                                        if pre_a.cleanable(hh.idx as int) {
                                            if a0.valid(hh) && a0.cleanable(hh.idx as int) {
                                                if hh == o {
                                                    assert(!arena.valid(hh));
                                                } else {
                                                    let qh = a0.node(
                                                        hh.idx as int,
                                                    ).parent->Some_0;
                                                    assert(qh.idx as int != o.idx as int) by {
                                                        if qh.idx as int == o.idx as int {
                                                            assert(a0.wf_node(hh.idx as int));
                                                            assert(a0.wf_parent_link(
                                                                hh.idx as int,
                                                            ));
                                                            assert(a0.has_children(
                                                                o.idx as int,
                                                            ));
                                                        }
                                                    }
                                                    assert(hh.idx as int != op.idx as int) by {
                                                        if hh.idx as int == op.idx as int {
                                                            assert(a0.wf_node(o.idx as int));
                                                            assert(a0.wf_parent_link(
                                                                o.idx as int,
                                                            ));
                                                            assert(a0.has_children(
                                                                hh.idx as int,
                                                            ));
                                                        }
                                                    }
                                                    assert(node_same(arena.node(hh.idx as int),
                                                        a0.node(hh.idx as int)));
                                                    assert(arena.valid(hh));
                                                    assert(arena.live(qh.idx as int));
                                                    assert(!arena.has_children(hh.idx as int))
                                                        by {
                                                        if arena.has_children(hh.idx as int) {
                                                            assert(a0.has_children(
                                                                hh.idx as int,
                                                            ));
                                                        }
                                                    }
                                                    assert(arena.cleanable(hh.idx as int));
                                                }
                                            }
                                        }
                                    }
                                }
                            } else {
                                // Nothing was pruned: the claims carry
                                // over with the same witnesses.
                                assert forall|x2: int, y2: int|
                                    Self::in_quarter(x2, y2) implies (#[trigger] pre_b.spec_get(
                                    2 * x2,
                                    2 * y2,
                                ) matches Some(v) ==> (exists|w: Handle|
                                    #[trigger] arena.valid(w) && (!arena.valid(v) || arena.node(
                                        v.idx as int,
                                    ).parent == Some(w)) && (built[(x2 + Self::half()) * (
                                    N as int) + (y2 + Self::half())] == Some(w) || exists|
                                        x3: int,
                                        y3: int,
                                    |
                                        Self::in_quarter(x3, y3) && Self::lex_before(
                                            x3,
                                            y3,
                                            x2,
                                            y2,
                                        ) && #[trigger] built[(x3 + Self::half()) * (N as int)
                                            + (y3 + Self::half())] == Some(w)))) by {
                                    if let Some(v) = pre_b.spec_get(2 * x2, 2 * y2) {
                                        let w = choose|w: Handle|
                                            #[trigger] a0.valid(w) && (!a0.valid(v) || a0.node(
                                                v.idx as int,
                                            ).parent == Some(w)) && (built[(x2 + Self::half()) * (
                                            N as int) + (y2 + Self::half())] == Some(w)
                                                || exists|x3: int, y3: int|
                                                Self::in_quarter(x3, y3) && Self::lex_before(
                                                    x3,
                                                    y3,
                                                    x2,
                                                    y2,
                                                ) && #[trigger] built[(x3 + Self::half()) * (
                                                N as int) + (y3 + Self::half())] == Some(w));
                                        assert(arena.valid(w));
                                        if arena.valid(v) {
                                            if a0.node(v.idx as int).parent == Some(w) {
                                                assert(node_same(arena.node(v.idx as int),
                                                    a0.node(v.idx as int)));
                                            }
                                        }
                                    }
                                }
                            }
                        }
                    }
                    proof {
                        // Settle the claim for this cell.
                        if pre_a.cleanable(o.idx as int) && !(exists|j: int|
                            0 <= j < built.len() && #[trigger] built[j] == Some(o)) {
                            assert(!arena.valid(o));
                        }
                    }
                }
                cy += 1;
            }
            cx += 1;
        }
        // Install the new window.
        let mut old_data = new_data;
        core::mem::swap(&mut self.data, &mut old_data);
        self.offset = (0, 0);
        proof {
            assert(self.data@ == built);
            assert(self.wf());
            assert forall|x2: int, y2: int| Self::in_range(x2, y2) implies #[trigger] self.spec_get(
                x2,
                y2,
            ) == built[(x2 + Self::half()) * (N as int) + (y2 + Self::half())] by {
                self.lemma_flat_slot(x2, y2);
                Self::lemma_flat_idx(x2, y2);
            }
            assert forall|x2: int, y2: int|
                Self::in_range(x2, y2) implies (#[trigger] self.spec_get(x2, y2) matches Some(g)
                ==> arena.valid(g)) by {
                Self::lemma_flat_idx(x2, y2);
                if let Some(g) = self.spec_get(x2, y2) {
                    assert(Self::in_quarter(x2, y2));
                }
            }
            // The placement claims, restated on the installed window.
            assert forall|x2: int, y2: int|
                Self::in_quarter(x2, y2) implies (#[trigger] pre_b.spec_get(2 * x2, 2 * y2)
                matches Some(v) ==> (pre_a.node(v.idx as int).parent matches Some(p0) ==> (
            pre_a.live(p0.idx as int) ==> (self.spec_get(x2, y2) == Some(p0) || exists|
                x3: int,
                y3: int,
            |
                Self::in_quarter(x3, y3) && Self::lex_before(x3, y3, x2, y2)
                    && #[trigger] self.spec_get(x3, y3) == Some(p0))))) by {
                if let Some(v) = pre_b.spec_get(2 * x2, 2 * y2) {
                    if let Some(p0) = pre_a.node(v.idx as int).parent {
                        if pre_a.live(p0.idx as int) {
                            assert(Self::in_range(x2, y2));
                            if built[(x2 + Self::half()) * (N as int) + (y2 + Self::half())]
                                == Some(p0) {
                                assert(self.spec_get(x2, y2) == Some(p0));
                            } else {
                                let (x3, y3) = choose|x3: int, y3: int|
                                    Self::in_quarter(x3, y3) && Self::lex_before(x3, y3, x2, y2)
                                        && #[trigger] built[(x3 + Self::half()) * (N as int) + (
                                        y3 + Self::half())] == Some(p0);
                                assert(Self::in_range(x3, y3));
                                assert(self.spec_get(x3, y3) == Some(p0));
                            }
                        }
                    }
                }
            }
            assert forall|x2: int, y2: int|
                Self::in_quarter(x2, y2) implies (#[trigger] pre_b.spec_get(2 * x2, 2 * y2)
                matches Some(v) ==> (exists|w: Handle|
                #[trigger] arena.valid(w) && (!arena.valid(v) || arena.node(
                    v.idx as int,
                ).parent == Some(w)) && (self.spec_get(x2, y2) == Some(w) || exists|
                    x3: int,
                    y3: int,
                |
                    Self::in_quarter(x3, y3) && Self::lex_before(x3, y3, x2, y2)
                        && #[trigger] self.spec_get(x3, y3) == Some(w)))) by {
                if let Some(v) = pre_b.spec_get(2 * x2, 2 * y2) {
                    let w = choose|w: Handle|
                        #[trigger] arena.valid(w) && (!arena.valid(v) || arena.node(
                            v.idx as int,
                        ).parent == Some(w)) && (built[(x2 + Self::half()) * (N as int) + (y2
                            + Self::half())] == Some(w) || exists|x3: int, y3: int|
                            Self::in_quarter(x3, y3) && Self::lex_before(x3, y3, x2, y2)
                                && #[trigger] built[(x3 + Self::half()) * (N as int) + (y3
                                + Self::half())] == Some(w));
                    assert(Self::in_range(x2, y2));
                    if built[(x2 + Self::half()) * (N as int) + (y2 + Self::half())] == Some(w) {
                        assert(self.spec_get(x2, y2) == Some(w));
                    } else {
                        let (x3, y3) = choose|x3: int, y3: int|
                            Self::in_quarter(x3, y3) && Self::lex_before(x3, y3, x2, y2)
                                && #[trigger] built[(x3 + Self::half()) * (N as int) + (y3
                                + Self::half())] == Some(w);
                        assert(Self::in_range(x3, y3));
                        assert(self.spec_get(x3, y3) == Some(w));
                    }
                }
            }
            assert forall|xa: int, ya: int, xb: int, yb: int|
                Self::in_range(xa, ya) && Self::in_range(xb, yb) && !(xa == xb && ya == yb)
                implies (#[trigger] self.spec_get(xa, ya) matches Some(w)
                ==> #[trigger] self.spec_get(xb, yb) != Some(w)) by {
                if let Some(w) = self.spec_get(xa, ya) {
                    assert(built[(xa + Self::half()) * (N as int) + (ya + Self::half())] == Some(
                        w,
                    ));
                }
            }
            // Every evicted occupant that the new window does not hold
            // was offered cleanup.
            assert forall|xo: int, yo: int|
                Self::in_range(xo, yo) implies (#[trigger] pre_b.spec_get(xo, yo) matches Some(
                h,
            ) ==> ((pre_a.cleanable(h.idx as int) && !self.spec_contains(h)) ==> !arena.valid(
                h,
            ))) by {
                if let Some(h) = pre_b.spec_get(xo, yo) {
                    if !self.spec_contains(h) {
                        assert(!(exists|j: int|
                            0 <= j < built.len() && #[trigger] built[j] == Some(h))) by {
                            if exists|j: int|
                                0 <= j < built.len() && #[trigger] built[j] == Some(h) {
                                let j = choose|j: int|
                                    0 <= j < built.len() && #[trigger] built[j] == Some(h);
                                Self::lemma_flat_inv(j);
                                let x3 = j / (N as int) - Self::half();
                                let y3 = j % (N as int) - Self::half();
                                assert(self.spec_get(x3, y3) == Some(h)) by {
                                    self.lemma_flat_slot(x3, y3);
                                }
                                assert(self.spec_contains(h));
                            }
                        }
                    }
                }
            }
        }
    }

    /// Every occupied cell with its signed coordinates, in x-major
    /// order.
    pub fn cells(&self) -> (r: Vec<(i32, i32, Handle)>)
        requires
            self.wf(),
        ensures
            forall|k: int|
                0 <= k < r@.len() ==> {
                    let (x, y, h) = #[trigger] r@[k];
                    Self::in_range(x as int, y as int) && self.spec_get(x as int, y as int)
                        == Some(h)
                },
            forall|x: int, y: int|
                Self::in_range(x, y) ==> (#[trigger] self.spec_get(x, y) matches Some(h)
                    ==> exists|k: int|
                    0 <= k < r@.len() && r@[k] == (x as i32, y as i32, h)),
    {
        let n = N as i32;
        let half = n / 2;
        let mut out: Vec<(i32, i32, Handle)> = Vec::new();
        let mut x: i32 = -half;
        while x <= half
            invariant
                self.wf(),
                N as i32 == n,
                half == n / 2,
                -half <= x <= half + 1,
                forall|k: int|
                    0 <= k < out@.len() ==> {
                        let (x2, y2, h) = #[trigger] out@[k];
                        Self::in_range(x2 as int, y2 as int) && self.spec_get(
                            x2 as int,
                            y2 as int,
                        ) == Some(h)
                    },
                forall|x2: int, y2: int|
                    Self::in_range(x2, y2) && x2 < x as int ==> (#[trigger] self.spec_get(x2, y2)
                        matches Some(h) ==> exists|k: int|
                        0 <= k < out@.len() && out@[k] == (x2 as i32, y2 as i32, h)),
            decreases half + 1 - x,
        {
            let mut y: i32 = -half;
            while y <= half
                invariant
                    self.wf(),
                    N as i32 == n,
                    half == n / 2,
                    -half <= x <= half,
                    -half <= y <= half + 1,
                    forall|k: int|
                        0 <= k < out@.len() ==> {
                            let (x2, y2, h) = #[trigger] out@[k];
                            Self::in_range(x2 as int, y2 as int) && self.spec_get(
                                x2 as int,
                                y2 as int,
                            ) == Some(h)
                        },
                    forall|x2: int, y2: int|
                        Self::in_range(x2, y2) && (x2 < x as int || (x2 == x as int && y2
                            < y as int)) ==> (#[trigger] self.spec_get(x2, y2) matches Some(h)
                            ==> exists|k: int|
                            0 <= k < out@.len() && out@[k] == (x2 as i32, y2 as i32, h)),
                decreases half + 1 - y,
            {
                if let Some(h) = self.get(x, y) {
                    let ghost len0 = out@.len() as int;
                    let ghost out0 = out@;
                    out.push((x, y, h));
                    proof {
                        assert(out@[len0] == (x, y, h));
                        assert forall|x2: int, y2: int|
                            Self::in_range(x2, y2) && (x2 < x as int || (x2 == x as int && y2 <= y
                                as int)) implies (#[trigger] self.spec_get(x2, y2) matches Some(
                            h2,
                        ) ==> exists|k: int|
                            0 <= k < out@.len() && out@[k] == (x2 as i32, y2 as i32, h2)) by {
                            if let Some(h2) = self.spec_get(x2, y2) {
                                if x2 == x as int && y2 == y as int {
                                    assert(out@[len0] == (x2 as i32, y2 as i32, h2));
                                } else {
                                    let k = choose|k: int|
                                        0 <= k < out0.len() && out0[k] == (
                                        x2 as i32,
                                        y2 as i32,
                                        h2,
                                        );
                                    assert(out@[k] == (x2 as i32, y2 as i32, h2));
                                }
                            }
                        }
                    }
                }
                y += 1;
            }
            x += 1;
        }
        out
    }

    /// Fill every still-empty cell by deriving it from an occupied
    /// neighbor cell, sweeping from one corner of the window and then
    /// from the opposite one; with at least one cell occupied, both
    /// sweeps together always fill the whole window.
    #[verifier::loop_isolation(false)]
    #[verifier::rlimit(100)]
    pub fn load_all(&mut self, arena: &mut Arena)
        requires
            old(self).wf(),
            old(arena).wf(),
            old(self).cells_valid(*old(arena)),
            exists|x: int, y: int|
                Self::in_range(x, y) && #[trigger] old(self).spec_get(x, y) is Some,
        ensures
            final(self).wf(),
            final(arena).wf(),
            final(self).cells_valid(*final(arena)),
            forall|x: int, y: int|
                Self::in_range(x, y) ==> #[trigger] final(self).spec_get(x, y) is Some,
            forall|x: int, y: int|
                Self::in_range(x, y) ==> (#[trigger] old(self).spec_get(x, y) matches Some(h)
                    ==> final(self).spec_get(x, y) == Some(h)),
            forall|i: int| old(arena).live(i) ==> final(arena).live(i),
            old(arena).n() <= final(arena).n(),
            forall|r: int|
                old(arena).live(r) ==> final(arena).spec_subtree_strokes(r) == old(arena).spec_subtree_strokes(r),
            forall|i: int|
                0 <= i < old(arena).n() ==> final(arena).levels@[i] == old(arena).levels@[i],

            forall|lv: int|
                #[trigger] old(self).depth_uniform(*old(arena), lv) ==> final(self).depth_uniform(*final(arena), lv),
    {
        let ghost (seedx, seedy) = choose|x: int, y: int|
            Self::in_range(x, y) && #[trigger] old(self).spec_get(x, y) is Some;
        let n = N as i32;
        let half = n / 2;
        let mut x: i32 = -half;
        while x <= half
            invariant
                self.wf(),
                arena.wf(),
                self.cells_valid(*arena),
                -half <= x <= half + 1,
                self.offset == old(self).offset,
                forall|x2: int, y2: int|
                    Self::in_range(x2, y2) ==> (#[trigger] old(self).spec_get(x2, y2)
                        matches Some(h) ==> self.spec_get(x2, y2) == Some(h)),
                forall|x2: int, y2: int|
                    Self::in_range(x2, y2) && seedx <= x2 && seedy <= y2 && (x2 < x as int)
                        ==> #[trigger] self.spec_get(x2, y2) is Some,
                forall|i: int| old(arena).live(i) ==> arena.live(i),
                old(arena).n() <= arena.n(),
                forall|r: int|
                    old(arena).live(r) ==> arena.spec_subtree_strokes(r) == old(arena).spec_subtree_strokes(r),
                forall|i2: int|
                    0 <= i2 < old(arena).n() ==> arena.levels@[i2] == old(arena).levels@[i2],
                forall|lv: int|
                    #[trigger] old(self).depth_uniform(*old(arena), lv) ==> self.depth_uniform(
                        *arena,
                        lv,
                    ),
            decreases half + 1 - x,
        {
            let mut y: i32 = -half;
            #[verifier::loop_isolation(true)]
            while y <= half
                invariant
                    self.wf(),
                    arena.wf(),
                    old(self).wf(),
                    old(arena).wf(),
                    self.cells_valid(*arena),
                    N as i32 == n,
                    half == n / 2,
                    Self::in_range(seedx, seedy),
                    old(self).spec_get(seedx, seedy) is Some,
                    -half <= x <= half,
                    -half <= y <= half + 1,
                    self.offset == old(self).offset,
                    forall|x2: int, y2: int|
                        Self::in_range(x2, y2) ==> (#[trigger] old(self).spec_get(x2, y2)
                            matches Some(h) ==> self.spec_get(x2, y2) == Some(h)),
                    forall|x2: int, y2: int|
                        Self::in_range(x2, y2) && seedx <= x2 && seedy <= y2 && (x2 < x as int
                            || (x2 == x as int && y2 < y as int)) ==> #[trigger] self.spec_get(
                            x2,
                            y2,
                        ) is Some,
                    forall|i: int| old(arena).live(i) ==> arena.live(i),
                    old(arena).n() <= arena.n(),
                    forall|r: int|
                        old(arena).live(r) ==> arena.spec_subtree_strokes(r) == old(arena).spec_subtree_strokes(r),
                    forall|i2: int|
                        0 <= i2 < old(arena).n() ==> arena.levels@[i2] == old(arena).levels@[i2],
                    forall|lv: int|
                        #[trigger] old(self).depth_uniform(*old(arena), lv) ==> self.depth_uniform(
                            *arena,
                            lv,
                        ),
                decreases half + 1 - y,
            {
                if self.get(x, y).is_none() {
                    let mut filled = false;
                    if x > -half {
                        if let Some(left) = self.get(x - 1, y) {
                            let nb = DrawNode::get_or_create_neighbor(
                                arena,
                                left,
                                Direction::PosX,
                            );
                            self.set(arena, x, y, nb);
                            filled = true;
                        }
                    }
                    if !filled && y > -half {
                        if let Some(above) = self.get(x, y - 1) {
                            let nb = DrawNode::get_or_create_neighbor(
                                arena,
                                above,
                                Direction::PosY,
                            );
                            self.set(arena, x, y, nb);
                            filled = true;
                        }
                    }
                    proof {
                        if seedx <= x as int && seedy <= y as int {
                            assert(filled) by {
                                if x as int > seedx {
                                    assert(self.spec_get(x as int - 1, y as int) is Some
                                        || filled);
                                } else {
                                    assert(x as int == seedx);
                                    assert(y as int > seedy) by {
                                        if y as int == seedy {
                                            assert(old(self).spec_get(seedx, seedy) is Some);
                                        }
                                    }
                                }
                            }
                        }
                    }
                }
                y += 1;
            }
            x += 1;
        }
        proof {
            assert(self.spec_get(Self::half(), Self::half()) is Some);
        }
        let ghost mid_b = *self;
        let mut xi: i32 = 0;
        while xi < n
            invariant
                self.wf(),
                arena.wf(),
                self.cells_valid(*arena),
                0 <= xi <= n,
                self.offset == old(self).offset,
                forall|x2: int, y2: int|
                    Self::in_range(x2, y2) ==> (#[trigger] mid_b.spec_get(x2, y2) matches Some(h)
                        ==> self.spec_get(x2, y2) == Some(h)),
                forall|x2: int, y2: int|
                    Self::in_range(x2, y2) && (x2 > Self::half() - xi as int)
                        ==> #[trigger] self.spec_get(x2, y2) is Some,
                forall|i: int| old(arena).live(i) ==> arena.live(i),
                old(arena).n() <= arena.n(),
                forall|r: int|
                    old(arena).live(r) ==> arena.spec_subtree_strokes(r) == old(arena).spec_subtree_strokes(r),
                forall|i2: int|
                    0 <= i2 < old(arena).n() ==> arena.levels@[i2] == old(arena).levels@[i2],
                forall|lv: int|
                    #[trigger] old(self).depth_uniform(*old(arena), lv) ==> self.depth_uniform(
                        *arena,
                        lv,
                    ),
            decreases n - xi,
        {
            let x = half - xi;
            let mut yi: i32 = 0;
            #[verifier::loop_isolation(true)]
            while yi < n
                invariant
                    self.wf(),
                    arena.wf(),
                    old(self).wf(),
                    old(arena).wf(),
                    self.cells_valid(*arena),
                    N as i32 == n,
                    half == n / 2,
                    mid_b.spec_get(Self::half(), Self::half()) is Some,
                    0 <= xi < n,
                    0 <= yi <= n,
                    x == half - xi,
                    self.offset == old(self).offset,
                    forall|x2: int, y2: int|
                        Self::in_range(x2, y2) ==> (#[trigger] mid_b.spec_get(x2, y2)
                            matches Some(h) ==> self.spec_get(x2, y2) == Some(h)),
                    forall|x2: int, y2: int|
                        Self::in_range(x2, y2) && (x2 > x as int || (x2 == x as int && y2
                            > Self::half() - yi as int)) ==> #[trigger] self.spec_get(
                            x2,
                            y2,
                        ) is Some,
                    forall|i: int| old(arena).live(i) ==> arena.live(i),
                    old(arena).n() <= arena.n(),
                    forall|r: int|
                        old(arena).live(r) ==> arena.spec_subtree_strokes(r) == old(arena).spec_subtree_strokes(r),
                    forall|i2: int|
                        0 <= i2 < old(arena).n() ==> arena.levels@[i2] == old(arena).levels@[i2],
                    forall|lv: int|
                        #[trigger] old(self).depth_uniform(*old(arena), lv) ==> self.depth_uniform(
                            *arena,
                            lv,
                        ),
                decreases n - yi,
            {
                let y = half - yi;
                if self.get(x, y).is_none() {
                    let mut filled = false;
                    if x < half {
                        if let Some(right) = self.get(x + 1, y) {
                            let nb = DrawNode::get_or_create_neighbor(
                                arena,
                                right,
                                Direction::NegX,
                            );
                            self.set(arena, x, y, nb);
                            filled = true;
                        }
                    }
                    if !filled && y < half {
                        if let Some(below) = self.get(x, y + 1) {
                            let nb = DrawNode::get_or_create_neighbor(
                                arena,
                                below,
                                Direction::NegY,
                            );
                            self.set(arena, x, y, nb);
                            filled = true;
                        }
                    }
                    proof {
                        assert(filled) by {
                            if (x as int) < Self::half() {
                                assert(self.spec_get(x as int + 1, y as int) is Some || filled);
                            } else {
                                assert(x as int == Self::half());
                                assert((y as int) < Self::half()) by {
                                    if y as int == Self::half() {
                                        assert(mid_b.spec_get(Self::half(), Self::half())
                                            is Some);
                                    }
                                }
                            }
                        }
                    }
                }
                yi += 1;
            }
            xi += 1;
        }
    }
}

} // verus!
