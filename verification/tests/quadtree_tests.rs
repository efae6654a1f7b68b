use std::cell::Cell;

use terra::CameraPosition;
use terra::LayerType;
use terra::Priority;
use terra::QuadTree;
use terra::TileCache;
use terra::VNode;
use terra::LEVEL_CELL_2CM;
use terra::PRIORITY_CUTOFF_KEY;
use terra::ROOT_SIDE_LENGTH_CM;

struct AllResident;

impl TileCache for AllResident {
    fn contains(&self, _node: VNode, _layer: LayerType) -> bool {
        true
    }
}

struct NothingResident;

impl TileCache for NothingResident {
    fn contains(&self, _node: VNode, _layer: LayerType) -> bool {
        false
    }
}

fn node(level: u8, x: u32, y: u32) -> VNode {
    VNode::new(level, x, y).unwrap()
}

/// `a` covers `b`: `b`'s cell lies inside `a`'s cell.
fn covers(a: &VNode, b: &VNode) -> bool {
    a.level <= b.level && (b.x >> (b.level - a.level)) == a.x && (b.y >> (b.level - a.level)) == a.y
}

/// Number of deepest-level cells inside a node's footprint.
fn footprint_cells(n: &VNode) -> u64 {
    1u64 << (2 * (LEVEL_CELL_2CM - n.level) as u32)
}

/// The rendered pieces of the current frame: the fully visible nodes plus,
/// for every partially visible node, the children its mask marks.
fn render_pieces(qt: &QuadTree) -> Vec<VNode> {
    let mut pieces: Vec<VNode> = qt.visible_nodes().clone();
    for (n, mask) in qt.partially_visible_nodes().iter() {
        let kids = n.children();
        for (i, kid) in kids.iter().enumerate() {
            if mask & (1 << i) != 0 {
                pieces.push(*kid);
            }
        }
    }
    pieces
}

fn assert_exact_tiling(qt: &QuadTree) {
    let pieces = render_pieces(qt);
    let mut total: u64 = 0;
    for p in pieces.iter() {
        total += footprint_cells(p);
    }
    assert_eq!(total, footprint_cells(&VNode::root()));
    for i in 0..pieces.len() {
        for j in 0..pieces.len() {
            if i != j {
                assert!(!covers(&pieces[i], &pieces[j]));
            }
        }
    }
}

#[test]
fn it_works() {}

#[test]
fn root_is_level_zero() {
    let r = VNode::root();
    assert_eq!(r.level(), 0);
    assert_eq!(r.x(), 0);
    assert_eq!(r.y(), 0);
    assert_eq!(r.side_length_cm(), ROOT_SIDE_LENGTH_CM);
    assert_eq!(r.min_x_cm(), -(ROOT_SIDE_LENGTH_CM as i64) / 2);
    assert_eq!(r.min_z_cm(), -(ROOT_SIDE_LENGTH_CM as i64) / 2);
}

#[test]
fn new_rejects_positions_outside_grid() {
    assert!(VNode::new(0, 0, 0).is_some());
    assert!(VNode::new(0, 1, 0).is_none());
    assert!(VNode::new(3, 7, 7).is_some());
    assert!(VNode::new(3, 8, 0).is_none());
    assert!(VNode::new(LEVEL_CELL_2CM + 1, 0, 0).is_none());
}

#[test]
fn children_come_in_fixed_order() {
    let n = node(1, 1, 0);
    let kids = n.children();
    assert_eq!(kids[0], node(2, 2, 0));
    assert_eq!(kids[1], node(2, 3, 0));
    assert_eq!(kids[2], node(2, 2, 1));
    assert_eq!(kids[3], node(2, 3, 1));
    for kid in kids.iter() {
        assert_eq!(kid.parent(), Some(n));
    }
}

#[test]
fn children_tile_parent_exactly() {
    let n = node(2, 1, 3);
    let kids = n.children();
    let mut area: u64 = 0;
    for kid in kids.iter() {
        assert!(covers(&n, kid));
        assert_eq!(2 * kid.side_length_cm(), n.side_length_cm());
        area += footprint_cells(kid);
    }
    assert_eq!(area, footprint_cells(&n));
    assert_eq!(kids[0].min_x_cm(), n.min_x_cm());
    assert_eq!(kids[0].min_z_cm(), n.min_z_cm());
    assert_eq!(
        kids[3].min_x_cm(),
        n.min_x_cm() + kids[3].side_length_cm() as i64
    );
}

#[test]
fn deepest_cell_spans_one_meter() {
    let n = node(LEVEL_CELL_2CM, 12345, 678);
    assert_eq!(n.side_length_cm(), 100);
    assert!(n.parent().is_some());
    assert_eq!(VNode::root().parent(), None);
}

#[test]
fn codes_distinguish_nodes() {
    let a = node(5, 3, 4);
    let b = node(5, 4, 3);
    let c = node(6, 3, 4);
    assert_ne!(a.code(), b.code());
    assert_ne!(a.code(), c.code());
    assert_eq!(a.code(), node(5, 3, 4).code());
}

#[test]
fn priority_none_is_least_and_below_cutoff() {
    assert!(Priority::none() < Priority::cutoff());
    assert_eq!(Priority::none().key(), 0);
    assert_eq!(Priority::cutoff().key(), PRIORITY_CUTOFF_KEY);
}

#[test]
fn priority_saturates_when_camera_touches_node() {
    let r = VNode::root();
    let inside = CameraPosition { x: 0, y: 0, z: 0 };
    assert_eq!(r.priority(inside).key(), u64::MAX);
}

#[test]
fn priority_cutoff_sits_at_three_side_lengths() {
    // A deepest-level cell is one meter on a side; the camera hovers level
    // with the cell, exactly its gap away along the x axis.
    let n = node(LEVEL_CELL_2CM, 0, 0);
    let max_x = n.min_x_cm() + n.side_length_cm() as i64;
    let at_three_sides = CameraPosition { x: max_x + 300, y: 0, z: n.min_z_cm() };
    assert_eq!(n.priority(at_three_sides), Priority::cutoff());
    let just_beyond = CameraPosition { x: max_x + 301, y: 0, z: n.min_z_cm() };
    assert!(n.priority(just_beyond) < Priority::cutoff());
}

#[test]
fn priority_decreases_with_distance() {
    let n = node(4, 7, 7);
    let max_x = n.min_x_cm() + n.side_length_cm() as i64;
    let near = CameraPosition { x: max_x + 1000, y: 0, z: n.min_z_cm() };
    let far = CameraPosition { x: max_x + 100000, y: 0, z: n.min_z_cm() };
    assert!(n.priority(far) < n.priority(near));
}

#[test]
fn child_never_outranks_parent() {
    let parent = node(3, 5, 2);
    let cameras = [
        CameraPosition { x: 0, y: 0, z: 0 },
        CameraPosition { x: 10_000_000, y: 50_000, z: -3_000_000 },
        CameraPosition { x: i64::MAX, y: i64::MIN, z: 12 },
    ];
    for camera in cameras.iter() {
        let p = parent.priority(*camera);
        for kid in parent.children().iter() {
            assert!(kid.priority(*camera) <= p);
        }
    }
}

#[test]
fn extreme_cameras_do_not_panic() {
    let n = node(0, 0, 0);
    let worst = CameraPosition { x: i64::MIN, y: i64::MIN, z: i64::MIN };
    let _ = n.priority(worst);
    let other = CameraPosition { x: i64::MAX, y: i64::MAX, z: i64::MAX };
    assert!(n.priority(other) <= n.priority(CameraPosition { x: 0, y: 0, z: 0 }));
}

#[test]
fn breadth_first_visits_levels_in_order() {
    let count = Cell::new(0u64);
    let max_seen = Cell::new(0u8);
    let _ = VNode::breadth_first(|n: VNode| {
        count.set(count.get() + 1);
        if n.level() > max_seen.get() {
            max_seen.set(n.level());
        }
        n.level() < 3
    });
    // 1 + 4 + 16 + 64 nodes on levels 0 through 3.
    assert_eq!(count.get(), 85);
    assert_eq!(max_seen.get(), 3);
}

#[test]
fn breadth_first_stops_at_root_when_visitor_declines() {
    let count = Cell::new(0u64);
    let _ = VNode::breadth_first(|_n: VNode| {
        count.set(count.get() + 1);
        false
    });
    assert_eq!(count.get(), 1);
}

#[test]
fn update_priorities_scores_reachable_nodes() {
    let mut qt = QuadTree::new(64);
    let camera = CameraPosition { x: 0, y: 0, z: 0 };
    qt.update_priorities(camera);
    let root = VNode::root();
    assert_eq!(qt.node_priority(root).key(), u64::MAX);
    // All four level-1 cells touch the origin, so all are scored at the top
    // priority and descended into.
    for kid in root.children().iter() {
        assert_eq!(qt.node_priority(*kid).key(), u64::MAX);
    }
}

#[test]
fn update_priorities_prunes_below_cutoff() {
    let mut qt = QuadTree::new(64);
    // From a hundred kilometers up the root falls below the cutoff, so its
    // children are never scored.
    let camera = CameraPosition { x: 0, y: 10_000_000_000, z: 0 };
    qt.update_priorities(camera);
    let root = VNode::root();
    assert!(qt.node_priority(root) < Priority::cutoff());
    assert!(qt.node_priority(root) > Priority::none());
    for kid in root.children().iter() {
        assert_eq!(qt.node_priority(*kid), Priority::none());
    }
}

#[test]
fn update_priorities_same_camera_is_a_no_op() {
    let mut qt = QuadTree::new(64);
    let camera = CameraPosition { x: 12_345, y: 40_000, z: -9_876 };
    qt.update_priorities(camera);
    let root = VNode::root();
    let some_node = node(2, 1, 2);
    let p_root = qt.node_priority(root);
    let p_node = qt.node_priority(some_node);
    qt.update_priorities(camera);
    assert_eq!(qt.node_priority(root), p_root);
    assert_eq!(qt.node_priority(some_node), p_node);
    // Moving away and back recomputes, landing on the same scores.
    qt.update_priorities(CameraPosition { x: 0, y: 0, z: 0 });
    qt.update_priorities(camera);
    assert_eq!(qt.node_priority(root), p_root);
    assert_eq!(qt.node_priority(some_node), p_node);
}

#[test]
fn update_visibility_with_no_scores_shows_only_root() {
    let mut qt = QuadTree::new(64);
    qt.update_visibility(&AllResident);
    assert_eq!(qt.visible_nodes(), &vec![VNode::root()]);
    assert!(qt.partially_visible_nodes().is_empty());
    assert_eq!(qt.node_buffer_length(), 1);
}

#[test]
fn update_visibility_far_camera_collapses_to_root() {
    let mut qt = QuadTree::new(64);
    qt.update_priorities(CameraPosition { x: 0, y: 1_000_000_000_000, z: 0 });
    qt.update_visibility(&NothingResident);
    assert_eq!(qt.visible_nodes(), &vec![VNode::root()]);
    assert!(qt.partially_visible_nodes().is_empty());
    assert_exact_tiling(&qt);
}

#[test]
fn update_visibility_tiles_root_exactly() {
    let mut qt = QuadTree::new(64);
    // A camera a kilometer up over the reference point keeps a deep pyramid
    // of nodes above the cutoff.
    qt.update_priorities(CameraPosition { x: 123_456, y: 100_000, z: -654_321 });
    qt.update_visibility(&AllResident);
    assert!(!qt.visible_nodes().is_empty());
    assert!(!qt.partially_visible_nodes().is_empty());
    assert_exact_tiling(&qt);
    assert_eq!(qt.node_buffer_length(), qt.visible_nodes().len());
    // Breadth-first order: levels never decrease along either list.
    let vis = qt.visible_nodes();
    for w in vis.windows(2) {
        assert!(w[0].level <= w[1].level);
    }
    for w in qt.partially_visible_nodes().windows(2) {
        assert!(w[0].0.level <= w[1].0.level);
    }
    // Masks are 4-bit, nonzero and never full.
    for (_, mask) in qt.partially_visible_nodes().iter() {
        assert!(*mask > 0 && *mask < 15);
    }
}

#[test]
fn update_visibility_is_stable_per_camera() {
    let mut qt = QuadTree::new(64);
    qt.update_priorities(CameraPosition { x: 0, y: 200_000, z: 0 });
    qt.update_visibility(&AllResident);
    let vis1 = qt.visible_nodes().clone();
    let par1 = qt.partially_visible_nodes().clone();
    qt.update_visibility(&NothingResident);
    assert_eq!(&vis1, qt.visible_nodes());
    assert_eq!(&par1, qt.partially_visible_nodes());
}

#[test]
fn make_index_buffer_resolution_two() {
    let data = terra::make_index_buffer(2);
    assert_eq!(
        data,
        vec![
            0, 1, 3, 1, 4, 3, //
            1, 2, 4, 2, 5, 4, //
            3, 4, 6, 4, 7, 6, //
            4, 5, 7, 5, 8, 7,
        ]
    );
    for v in data.iter() {
        assert!(*v < 9);
    }
}

#[test]
fn make_index_buffer_lengths_and_bounds() {
    for resolution in [1u16, 4, 16, 65, 255] {
        let data = terra::make_index_buffer(resolution);
        assert_eq!(data.len(), 6 * resolution as usize * resolution as usize);
        let vertex_count = (resolution as u32 + 1) * (resolution as u32 + 1);
        for v in data.iter() {
            assert!((*v as u32) < vertex_count);
        }
    }
}

#[test]
fn index_data_bytes_little_endian() {
    let bytes = terra::index_data_bytes(&vec![0u16, 1, 259, 0x1234]);
    assert_eq!(bytes, vec![0, 0, 1, 0, 3, 1, 0x34, 0x12]);
}

#[test]
fn create_index_buffers_concatenates_full_and_half() {
    let qt = QuadTree::new(4);
    let blob = qt.create_index_buffers();
    // Full grid of 4x4 cells then half grid of 2x2 cells, two bytes each.
    assert_eq!(blob.len(), 2 * (6 * 16 + 6 * 4));
    let full = terra::index_data_bytes(&terra::make_index_buffer(4));
    let half = terra::index_data_bytes(&terra::make_index_buffer(2));
    assert_eq!(&blob[..full.len()], &full[..]);
    assert_eq!(&blob[full.len()..], &half[..]);
}

#[test]
fn neighbors_stay_in_grid() {
    let corner = node(2, 0, 0);
    assert_eq!(corner.neighbor_west(), None);
    assert_eq!(corner.neighbor_north(), None);
    assert_eq!(corner.neighbor_east(), Some(node(2, 1, 0)));
    assert_eq!(corner.neighbor_south(), Some(node(2, 0, 1)));
    let far = node(2, 3, 3);
    assert_eq!(far.neighbor_east(), None);
    assert_eq!(far.neighbor_south(), None);
    assert_eq!(far.neighbor_west(), Some(node(2, 2, 3)));
    assert_eq!(far.neighbor_north(), Some(node(2, 3, 2)));
    assert_eq!(VNode::root().neighbor_east(), None);
}
