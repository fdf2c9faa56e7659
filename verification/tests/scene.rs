use understory::{Aabb2D, Affine2, LocalNode, NodeId, Tree};

fn local_with_bounds(min_x: i64, min_y: i64, max_x: i64, max_y: i64) -> LocalNode {
    LocalNode {
        local_bounds: Aabb2D::new(min_x, min_y, max_x, max_y),
        ..LocalNode::default()
    }
}

#[test]
fn transform_and_damage() {
    let mut tree = Tree::new();
    let root = tree.insert(None, local_with_bounds(0, 0, 100, 100));
    let _ = root;
    let n = tree.insert(Some(root), local_with_bounds(0, 0, 10, 10));
    let _ = tree.commit();
    tree.set_local_transform(n, Affine2::translate(50, 0));
    let dmg = tree.commit();
    assert!(dmg.union_rect().is_some());
}

#[test]
fn liveness_insert_remove_reuse() {
    let mut tree = Tree::new();
    // Insert a root, then a child.
    let root = tree.insert(None, local_with_bounds(0, 0, 1, 1));
    let a = tree.insert(Some(root), local_with_bounds(0, 0, 1, 1));

    assert!(tree.is_alive(root));
    assert!(tree.is_alive(a));

    // Remove child; id becomes stale.
    tree.remove(a);
    assert!(!tree.is_alive(a));

    // Reuse slot by inserting a new node; old id must remain stale; new id is live.
    let b = tree.insert(Some(root), local_with_bounds(0, 0, 1, 1));
    assert!(tree.is_alive(b));
    assert!(!tree.is_alive(a));
    // Sanity: either same slot or different, but if same slot, generation must be greater.
    if a.0 == b.0 {
        assert!(b.1 > a.1, "generation must increase on reuse");
    }
}

#[test]
fn newer_than_semantics() {
    // Construct synthetic NodeId pairs and verify newer ordering.
    let old = NodeId(10, 1);
    let newer_same_slot = NodeId(10, 2);
    let same_gen_higher_slot = NodeId(11, 2);
    let same_gen_lower_slot = NodeId(9, 2);

    assert!(newer_same_slot.is_newer_than(&old));
    assert!(same_gen_higher_slot.is_newer_than(&newer_same_slot));
    assert!(!same_gen_lower_slot.is_newer_than(&newer_same_slot));
}

#[test]
fn z_index_accessor_respects_liveness() {
    let mut tree = Tree::new();
    let node = tree.insert(
        None,
        LocalNode {
            local_bounds: Aabb2D::new(0, 0, 1, 1),
            z_index: 7,
            ..LocalNode::default()
        },
    );
    assert_eq!(tree.z_index(node), Some(7));
    tree.remove(node);
    assert_eq!(tree.z_index(node), None, "stale ids must return None");
    let new_node = tree.insert(
        None,
        LocalNode {
            local_bounds: Aabb2D::new(0, 0, 1, 1),
            z_index: 3,
            ..LocalNode::default()
        },
    );
    assert_eq!(tree.z_index(new_node), Some(3));
    assert!(new_node.is_newer_than(&node));
}

#[test]
fn commit_twice_reports_no_damage() {
    let mut tree = Tree::new();
    let root = tree.insert(None, local_with_bounds(0, 0, 100, 100));
    let n = tree.insert(Some(root), local_with_bounds(5, 5, 20, 20));
    let _ = n;
    let first = tree.commit();
    assert!(first.union_rect().is_some());
    // A committed tree commits again as a no-op with no damage.
    let second = tree.commit();
    assert!(second.dirty_rects.is_empty());
    assert!(second.union_rect().is_none());
}

#[test]
fn union_rect_folds_all_boxes() {
    let mut tree = Tree::new();
    let root = tree.insert(None, local_with_bounds(0, 0, 10, 10));
    let a = tree.insert(Some(root), local_with_bounds(100, 100, 120, 120));
    let _ = a;
    let dmg = tree.commit();
    let u = dmg.union_rect().expect("fresh tree commit reports damage");
    // The union covers both the root's and the child's new bounds.
    assert!(u.min_x <= 0 && u.min_y <= 0);
    assert!(u.max_x >= 120 && u.max_y >= 120);
}
