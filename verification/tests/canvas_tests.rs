use quadcanvas::circular_buffer::{Cleanupable, CircularBuffer2D};
use quadcanvas::codec::{export_snapshot, import_snapshot, BufferSnapshot, DecodeError, FlatNode,
    SerialTree};
use quadcanvas::geometry::{extent, Line, StrokeStyle, HALF_UNIT, UNIT};
use quadcanvas::routing::sort_strokes;
use quadcanvas::structure::{Arena, Direction, DrawNode, Handle};

fn q(v: f64) -> i64 {
    (v * UNIT as f64).round() as i64
}

fn style() -> StrokeStyle {
    StrokeStyle { width: UNIT / 4, color: 0xff00ff00 }
}

#[test]
fn direction_flags() {
    assert!(Direction::PosY.is_vertical());
    assert!(Direction::NegY.is_vertical());
    assert!(!Direction::PosX.is_vertical());
    assert!(!Direction::NegX.is_vertical());
    assert!(Direction::PosX.is_positive());
    assert!(Direction::PosY.is_positive());
    assert!(!Direction::NegX.is_positive());
    assert!(!Direction::NegY.is_positive());
}

#[test]
fn extent_is_max_axis_distance() {
    assert_eq!(extent(0, 0, 3, -4), 4);
    assert_eq!(extent(-5, 2, 5, 2), 10);
    assert_eq!(extent(7, 7, 7, 7), 0);
}

#[test]
fn from_points_scales_width() {
    let l = Line::from_points(1, 2, 3, 4, 2 * UNIT, StrokeStyle { width: UNIT / 2, color: 7 });
    assert_eq!(l.x1, 1);
    assert_eq!(l.y1, 2);
    assert_eq!(l.x2, 3);
    assert_eq!(l.y2, 4);
    assert_eq!(l.width, UNIT);
    assert_eq!(l.color, 7);
}

#[test]
fn get_after_set_returns_value() {
    let mut arena = Arena::new();
    let root = DrawNode::top_level(&mut arena);
    let mut buf: CircularBuffer2D<5> = CircularBuffer2D::new();
    buf.set(&mut arena, 0, 0, root);
    assert_eq!(buf.get(0, 0), Some(root));
    buf.set(&mut arena, -2, 1, root);
    assert_eq!(buf.get(-2, 1), Some(root));
}

#[test]
fn shift_round_trip_restores_cells_and_cleans_evicted() {
    let mut arena = Arena::new();
    let root = DrawNode::top_level(&mut arena);
    let mut buf: CircularBuffer2D<5> = CircularBuffer2D::new();
    buf.set(&mut arena, 0, 0, root);
    buf.load_all(&mut arena);
    let kept: Vec<Option<Handle>> = (-1..=2).map(|x| buf.get(x, 0)).collect();
    let evicted = buf.get(-2, 0).unwrap();
    buf.shift_pos_x(&mut arena);
    buf.shift_neg_x(&mut arena);
    for (i, x) in (-1..=2).enumerate() {
        assert_eq!(buf.get(x, 0), kept[i]);
    }
    assert_eq!(buf.get(-2, 0), None);
    // The evicted occupant was an empty node with a parent: pruned.
    assert!(!arena.is_live(evicted));
}

#[test]
fn zoom_round_trip_restores_center() {
    let mut arena = Arena::new();
    let root = DrawNode::top_level(&mut arena);
    let mut buf: CircularBuffer2D<5> = CircularBuffer2D::new();
    buf.set(&mut arena, 0, 0, root);
    buf.load_all(&mut arena);
    let center = buf.get(0, 0).unwrap();
    buf.zoom_in(&mut arena, (0, 0));
    buf.zoom_out(&mut arena);
    assert_eq!(buf.get(0, 0), Some(center));
}

#[test]
fn zoom_in_descends_to_children() {
    let mut arena = Arena::new();
    let root = DrawNode::top_level(&mut arena);
    let mut buf: CircularBuffer2D<5> = CircularBuffer2D::new();
    buf.set(&mut arena, 0, 0, root);
    buf.load_all(&mut arena);
    let center = buf.get(0, 0).unwrap();
    buf.zoom_in(&mut arena, (1, 1));
    let new_center = buf.get(0, 0).unwrap();
    assert_ne!(new_center, center);
    assert!(arena.is_live(new_center));
}

#[test]
fn small_segment_descends_into_quadrant() {
    // Extent 0.4 is under half the unit square, so the segment fits in
    // a finer cell: the router subdivides instead of storing here.
    let mut arena = Arena::new();
    let root = DrawNode::top_level(&mut arena);
    DrawNode::send_stroke(
        &mut arena,
        root,
        q(-0.2),
        q(-0.1),
        q(0.2),
        q(0.1),
        UNIT,
        style(),
        0,
    );
    let collected = DrawNode::get_strokes(&arena, root);
    assert_eq!(collected.len(), 1);
    assert_eq!(collected[0].1, 0);
    // The primitive went below the root, remapped into the quadrant
    // frame: reflected by half a unit and doubled, with the width
    // scale doubled.
    let line = collected[0].0;
    assert_eq!(line.x1, 2 * (q(-0.2) + HALF_UNIT));
    assert_eq!(line.y1, 2 * (q(-0.1) + HALF_UNIT));
    assert_eq!(line.x2, 2 * (q(0.2) + HALF_UNIT));
    assert_eq!(line.y2, 2 * (q(0.1) + HALF_UNIT));
    assert_eq!(line.width, style().width * 2);
    assert!(arena.slots[root.idx].node.strokes.is_empty());
    let has_child = arena.slots[root.idx].node.children.iter().any(|c| c.is_some());
    assert!(has_child);
}

#[test]
fn large_segment_stored_at_root() {
    // Extent 1.8 reaches the half-square threshold, so the primitive
    // stays at the node it was routed into and no child is created.
    let mut arena = Arena::new();
    let root = DrawNode::top_level(&mut arena);
    DrawNode::send_stroke(
        &mut arena,
        root,
        q(-0.9),
        q(-0.9),
        q(0.9),
        q(0.9),
        UNIT,
        style(),
        7,
    );
    assert_eq!(arena.slots[root.idx].node.strokes.len(), 1);
    assert_eq!(arena.slots[root.idx].node.strokes[0].1, 7);
    let line = arena.slots[root.idx].node.strokes[0].0;
    assert_eq!((line.x1, line.y1, line.x2, line.y2), (q(-0.9), q(-0.9), q(0.9), q(0.9)));
    assert_eq!(line.width, style().width);
    let has_child = arena.slots[root.idx].node.children.iter().any(|c| c.is_some());
    assert!(!has_child);
}

#[test]
fn traversal_collects_every_primitive_exactly_once() {
    let mut arena = Arena::new();
    let root = DrawNode::top_level(&mut arena);
    DrawNode::send_stroke(&mut arena, root, q(-0.9), 0, q(0.9), 0, UNIT, style(), 0);
    DrawNode::send_stroke(&mut arena, root, q(-0.2), q(-0.1), q(0.2), q(0.1), UNIT, style(), 1);
    DrawNode::send_stroke(&mut arena, root, q(0.1), q(0.1), q(0.3), q(0.2), UNIT, style(), 2);
    let collected = DrawNode::get_strokes(&arena, root);
    assert_eq!(collected.len(), 3);
    let mut orders: Vec<u32> = collected.iter().map(|p| p.1).collect();
    orders.sort();
    assert_eq!(orders, vec![0, 1, 2]);
}

#[test]
fn neighbor_request_is_idempotent() {
    let mut arena = Arena::new();
    let root = DrawNode::top_level(&mut arena);
    let n1 = DrawNode::get_or_create_neighbor(&mut arena, root, Direction::PosX);
    let n2 = DrawNode::get_or_create_neighbor(&mut arena, root, Direction::PosX);
    assert_eq!(n1, n2);
    let v1 = DrawNode::get_or_create_neighbor(&mut arena, root, Direction::NegY);
    let v2 = DrawNode::get_or_create_neighbor(&mut arena, root, Direction::NegY);
    assert_eq!(v1, v2);
}

#[test]
fn neighbor_lookup_tolerates_absence() {
    let mut arena = Arena::new();
    let root = DrawNode::top_level(&mut arena);
    assert_eq!(DrawNode::get_neighbor(&arena, root, Direction::PosX), None);
}

#[test]
fn cleanup_prunes_only_empty_attached_nodes() {
    let mut arena = Arena::new();
    let root = DrawNode::top_level(&mut arena);
    // A root has no parent: cleanup leaves it alone.
    DrawNode::try_cleanup(&mut arena, root);
    assert!(arena.is_live(root));
    // An empty child with a parent goes away.
    let child = DrawNode::get_or_create_child_from_corner(&mut arena, root, (1, 0));
    assert!(arena.is_live(child));
    DrawNode::try_cleanup(&mut arena, child);
    assert!(!arena.is_live(child));
    // A child holding a primitive stays.
    let child2 = DrawNode::get_or_create_child_from_corner(&mut arena, root, (0, 1));
    DrawNode::append_stroke(&mut arena, child2, Line::from_points(0, 0, UNIT, 0, UNIT, style()),
        0);
    DrawNode::try_cleanup(&mut arena, child2);
    assert!(arena.is_live(child2));
}

#[test]
fn load_all_fills_whole_window() {
    let mut arena = Arena::new();
    let root = DrawNode::top_level(&mut arena);
    let mut buf: CircularBuffer2D<5> = CircularBuffer2D::new();
    buf.set(&mut arena, 1, -1, root);
    buf.load_all(&mut arena);
    for x in -2..=2 {
        for y in -2..=2 {
            assert!(buf.get(x, y).is_some());
        }
    }
    assert_eq!(buf.get(1, -1), Some(root));
}

#[test]
fn cells_lists_all_occupants() {
    let mut arena = Arena::new();
    let root = DrawNode::top_level(&mut arena);
    let mut buf: CircularBuffer2D<3> = CircularBuffer2D::new();
    buf.set(&mut arena, 0, 0, root);
    let listing = buf.cells();
    assert_eq!(listing.len(), 1);
    assert_eq!(listing[0], (0, 0, root));
    buf.load_all(&mut arena);
    assert_eq!(buf.cells().len(), 9);
}

#[test]
fn export_import_preserves_center_primitives() {
    let mut arena = Arena::new();
    let root = DrawNode::top_level(&mut arena);
    let mut buf: CircularBuffer2D<5> = CircularBuffer2D::new();
    buf.set(&mut arena, 0, 0, root);
    buf.load_all(&mut arena);
    let center = buf.get(0, 0).unwrap();
    DrawNode::send_stroke(&mut arena, center, q(-0.9), q(0.3), q(0.9), q(0.4), UNIT, style(), 0);
    DrawNode::send_stroke(&mut arena, center, q(-0.2), q(-0.1), q(0.2), q(0.1), UNIT, style(), 1);
    let before = DrawNode::get_strokes(&arena, center);
    let snap = export_snapshot(&arena, &buf);
    let mut buf2: CircularBuffer2D<5> = CircularBuffer2D::new();
    let c2 = import_snapshot(&mut arena, &mut buf2, &snap).unwrap();
    assert_eq!(buf2.get(0, 0), Some(c2));
    let after = DrawNode::get_strokes(&arena, c2);
    assert_eq!(before, after);
    // The window was rebuilt around the relocated center.
    for x in -2..=2 {
        for y in -2..=2 {
            assert!(buf2.get(x, y).is_some());
        }
    }
}

#[test]
fn import_rejects_malformed_tree() {
    let mut arena = Arena::new();
    let mut buf: CircularBuffer2D<5> = CircularBuffer2D::new();
    // A record whose child reference does not point at an earlier
    // record.
    let bad = BufferSnapshot {
        center_path: Vec::new(),
        tree: SerialTree {
            nodes: vec![FlatNode {
                strokes: Vec::new(),
                children: vec![Some(0), None, None, None],
            }],
        },
    };
    assert_eq!(import_snapshot(&mut arena, &mut buf, &bad), Err(DecodeError::MalformedTree));
    // An empty tree.
    let empty = BufferSnapshot {
        center_path: Vec::new(),
        tree: SerialTree { nodes: Vec::new() },
    };
    assert_eq!(import_snapshot(&mut arena, &mut buf, &empty), Err(DecodeError::MalformedTree));
}

#[test]
fn import_rejects_bad_path() {
    let mut arena = Arena::new();
    let mut buf: CircularBuffer2D<5> = CircularBuffer2D::new();
    let snap = BufferSnapshot {
        center_path: vec![(0, 0)],
        tree: SerialTree {
            nodes: vec![FlatNode { strokes: Vec::new(), children: vec![None, None, None, None] }],
        },
    };
    assert_eq!(import_snapshot(&mut arena, &mut buf, &snap), Err(DecodeError::BadPath));
}

#[test]
fn import_failure_leaves_window_untouched() {
    let mut arena = Arena::new();
    let root = DrawNode::top_level(&mut arena);
    let mut buf: CircularBuffer2D<5> = CircularBuffer2D::new();
    buf.set(&mut arena, 0, 0, root);
    let empty = BufferSnapshot {
        center_path: Vec::new(),
        tree: SerialTree { nodes: Vec::new() },
    };
    assert!(import_snapshot(&mut arena, &mut buf, &empty).is_err());
    assert_eq!(buf.get(0, 0), Some(root));
}

#[test]
fn parent_creation_uses_antipodal_corner() {
    let mut arena = Arena::new();
    let root = DrawNode::top_level(&mut arena);
    let child = DrawNode::get_or_create_child_from_corner(&mut arena, root, (1, 0));
    let p = DrawNode::get_or_create_parent(&mut arena, child);
    assert_eq!(p, root);
    // A root gains a synthesized parent whose corner mirrors its own.
    let p2 = DrawNode::get_or_create_parent(&mut arena, root);
    assert!(arena.is_live(p2));
    assert_eq!(arena.slots[p2.idx].node.corner, (1, 1));
    let again = DrawNode::get_or_create_parent(&mut arena, root);
    assert_eq!(p2, again);
}

#[test]
fn top_level_and_path_walks_back_to_root() {
    let mut arena = Arena::new();
    let root = DrawNode::top_level(&mut arena);
    let c1 = DrawNode::get_or_create_child_from_corner(&mut arena, root, (1, 0));
    let c2 = DrawNode::get_or_create_child_from_corner(&mut arena, c1, (0, 1));
    let (top, path) = DrawNode::get_top_level_and_path(&arena, Vec::new(), c2);
    assert_eq!(top, root);
    assert_eq!(path, vec![(0, 1), (1, 0)]);
    let mut path2 = path.clone();
    let back = DrawNode::follow_path(&arena, top, &mut path2);
    assert_eq!(back, c2);
}

#[test]
fn shift_y_round_trip_restores_cells() {
    let mut arena = Arena::new();
    let root = DrawNode::top_level(&mut arena);
    let mut buf: CircularBuffer2D<5> = CircularBuffer2D::new();
    buf.set(&mut arena, 0, 0, root);
    buf.load_all(&mut arena);
    let kept: Vec<Option<Handle>> = (-1..=2).map(|y| buf.get(0, y)).collect();
    buf.shift_pos_y(&mut arena);
    buf.shift_neg_y(&mut arena);
    for (i, y) in (-1..=2).enumerate() {
        assert_eq!(buf.get(0, y), kept[i]);
    }
    assert_eq!(buf.get(0, -2), None);
}

#[test]
fn cleanupable_releases_evicted_node() {
    let mut arena = Arena::new();
    let root = DrawNode::top_level(&mut arena);
    let child = DrawNode::get_or_create_child_from_corner(&mut arena, root, (0, 0));
    child.cleanup(&mut arena);
    assert!(!arena.is_live(child));
    // Cleanup through the trait tolerates a handle that is already
    // stale.
    child.cleanup(&mut arena);
    assert!(!arena.is_live(child));
}

#[test]
fn sort_strokes_orders_by_paint_tag() {
    let mk = |o: u32| (Line::from_points(0, 0, UNIT, 0, UNIT, style()), o);
    let sorted = sort_strokes(vec![mk(3), mk(0), mk(2), mk(1)]);
    let orders: Vec<u32> = sorted.iter().map(|p| p.1).collect();
    assert_eq!(orders, vec![0, 1, 2, 3]);
    assert_eq!(sorted.len(), 4);
}

#[test]
fn placed_collection_records_descent_path() {
    let mut arena = Arena::new();
    let root = DrawNode::top_level(&mut arena);
    // A small segment in the lower-left quadrant descends one level.
    DrawNode::send_stroke(&mut arena, root, q(-0.2), q(-0.1), q(0.2), q(0.1), UNIT, style(), 0);
    // A large one stays at the root.
    DrawNode::send_stroke(&mut arena, root, q(-0.9), q(-0.9), q(0.9), q(0.9), UNIT, style(), 1);
    let placed = DrawNode::get_strokes_placed(&arena, root);
    assert_eq!(placed.len(), 2);
    let deep = placed.iter().find(|p| p.order == 0).unwrap();
    let shallow = placed.iter().find(|p| p.order == 1).unwrap();
    assert_eq!(deep.path, vec![(0, 0)]);
    assert_eq!(shallow.path, Vec::<(u8, u8)>::new());
    assert_eq!(deep.line.x1, 2 * (q(-0.2) + HALF_UNIT));
    assert_eq!(shallow.line.x1, q(-0.9));
}

#[test]
fn cells_listing_is_ordered() {
    let mut arena = Arena::new();
    let root = DrawNode::top_level(&mut arena);
    let mut buf: CircularBuffer2D<3> = CircularBuffer2D::new();
    buf.set(&mut arena, 0, 0, root);
    buf.load_all(&mut arena);
    let listing = buf.cells();
    assert_eq!(listing.len(), 9);
    for w in listing.windows(2) {
        assert!(w[0].0 < w[1].0 || (w[0].0 == w[1].0 && w[0].1 < w[1].1));
    }
}

#[test]
fn clear_all_empties_and_cleans() {
    let mut arena = Arena::new();
    let root = DrawNode::top_level(&mut arena);
    let mut buf: CircularBuffer2D<3> = CircularBuffer2D::new();
    buf.set(&mut arena, 0, 0, root);
    buf.load_all(&mut arena);
    let neighbor = buf.get(1, 0).unwrap();
    buf.clear_all(&mut arena);
    for x in -1..=1 {
        for y in -1..=1 {
            assert_eq!(buf.get(x, y), None);
        }
    }
    // Every occupant was empty and, after the window fill synthesized
    // ancestors, attached: all pruned.
    assert!(!arena.is_live(neighbor));
    assert!(!arena.is_live(root));
}

#[test]
fn neighbor_links_are_mutual_when_created() {
    let mut arena = Arena::new();
    let root = DrawNode::top_level(&mut arena);
    let right = DrawNode::get_or_create_neighbor(&mut arena, root, Direction::PosX);
    // The freshly created neighbor's own lookup in the opposite
    // direction resolves straight back.
    assert_eq!(DrawNode::get_neighbor(&arena, right, Direction::NegX), Some(root));
}
