use understory::{Aabb2D, Backend, Index, Key};

fn sorted_slots(hits: Vec<(Key, u32)>) -> Vec<u32> {
    let mut v: Vec<u32> = hits.into_iter().map(|(_, p)| p).collect();
    v.sort();
    v
}

#[test]
fn rtree_i64_basic_insert_query() {
    let mut idx = Index::<u32>::with_rtree();
    let _k1 = idx.insert(Aabb2D::new(0, 0, 10, 10), 1);
    let _k2 = idx.insert(Aabb2D::new(5, 5, 15, 15), 2);
    let _ = idx.commit();
    let hits = idx.query_point(6, 6);
    assert_eq!(hits.len(), 2);
    let payloads: Vec<_> = hits.into_iter().map(|(_, p)| p).collect();
    assert!(payloads.contains(&1) && payloads.contains(&2));
    let q = idx.query_rect(Aabb2D::new(12, 12, 20, 20));
    assert_eq!(q.len(), 1);
}

#[test]
fn rtree_i64_update_remove() {
    let mut idx = Index::<u32>::with_rtree();
    let k = idx.insert(Aabb2D::new(0, 0, 10, 10), 1);
    let _ = idx.commit();
    // Move far away (in-place update should still keep structure consistent)
    idx.update(k, Aabb2D::new(100, 100, 110, 110));
    let _ = idx.commit();
    assert_eq!(idx.query_point(1, 1).len(), 0);
    assert_eq!(idx.query_point(105, 105).len(), 1);
    idx.remove(k);
    let _ = idx.commit();
    assert_eq!(idx.query_point(105, 105).len(), 0);
}

#[test]
fn rtree_update_in_place_correctness() {
    // Use the backend directly to inspect structure.
    let mut b = understory::RTree::empty();
    // Insert a couple of items into a single leaf.
    b.insert(0, Aabb2D::new(0, 0, 10, 10));
    b.insert(1, Aabb2D::new(12, 0, 22, 10));
    let nodes_before = b.node_count();
    let root_before_is_leaf = b.root_is_leaf();

    // Update slot 0 to a far-away location; the in-place path should update
    // the box and maintain a valid tree without adding nodes.
    b.update(0, Aabb2D::new(100, 100, 110, 110));

    // Structure sanity: the node count shouldn't grow from an update.
    assert_eq!(b.node_count(), nodes_before);
    // Root should remain a node (likely still leaf for tiny set).
    assert_eq!(b.root_is_leaf(), root_before_is_leaf);

    // Query correctness: old spot no longer hits; new spot hits slot 0.
    let v_old = b.query_point(5, 5);
    assert!(v_old.is_empty());
    let v_new = b.query_point(105, 105);
    assert_eq!(v_new, vec![0]);
    // Neighbor still present.
    let v_neighbor = b.query_point(15, 5);
    assert_eq!(v_neighbor, vec![1]);
}

#[test]
fn bvh_i64_update_churn_small() {
    let mut b = understory::BVH::empty();
    b.insert(0, Aabb2D::new(0, 0, 10, 10));
    b.insert(1, Aabb2D::new(12, 0, 22, 10));

    // Move slot 0 back and forth a few times.
    for _ in 0..10 {
        b.update(0, Aabb2D::new(100, 100, 110, 110));
        b.update(0, Aabb2D::new(0, 0, 10, 10));
    }

    // Query correctness stays intact.
    let here = b.query_point(5, 5);
    assert_eq!(here, vec![0]);
    let there = b.query_point(105, 105);
    assert!(there.is_empty());
}

#[test]
fn bvh_index_basic() {
    let mut idx = Index::<u32>::with_bvh();
    let _k1 = idx.insert(Aabb2D::new(0, 0, 10, 10), 1);
    let _k2 = idx.insert(Aabb2D::new(5, 5, 15, 15), 2);
    let _ = idx.commit();
    let hits = idx.query_point(6, 6);
    assert_eq!(sorted_slots(hits), vec![1, 2]);
    let q = idx.query_rect(Aabb2D::new(12, 12, 20, 20));
    assert_eq!(sorted_slots(q), vec![2]);
}

#[test]
fn backends_agree_with_flat_oracle() {
    // the same batch of operations against every backend
    let boxes = [
        (0i64, 0i64, 10i64, 10i64),
        (5, 5, 15, 15),
        (-20, -20, -5, -5),
        (100, 0, 120, 20),
        (7, 7, 8, 8),
        (0, 100, 50, 150),
        (-3, 2, 40, 9),
        (60, 60, 70, 70),
        (11, 0, 21, 10),
        (2, 2, 3, 3),
    ];
    let mut flat: Index<u32> = Index::new();
    let mut rtree = Index::<u32>::with_rtree();
    let mut bvh = Index::<u32>::with_bvh();
    let mut kf = Vec::new();
    let mut kr = Vec::new();
    let mut kb = Vec::new();
    for (i, &(a, b, c, d)) in boxes.iter().enumerate() {
        let bb = Aabb2D::new(a, b, c, d);
        kf.push(flat.insert(bb, i as u32));
        kr.push(rtree.insert(bb, i as u32));
        kb.push(bvh.insert(bb, i as u32));
    }
    let _ = flat.commit();
    let _ = rtree.commit();
    let _ = bvh.commit();
    // move a few, remove a few, commit again
    flat.update(kf[1], Aabb2D::new(200, 200, 210, 210));
    rtree.update(kr[1], Aabb2D::new(200, 200, 210, 210));
    bvh.update(kb[1], Aabb2D::new(200, 200, 210, 210));
    flat.remove(kf[4]);
    rtree.remove(kr[4]);
    bvh.remove(kb[4]);
    let _ = flat.commit();
    let _ = rtree.commit();
    let _ = bvh.commit();

    let probes = [(6i64, 6i64), (0, 0), (205, 205), (-10, -10), (65, 65), (50, 50)];
    for &(x, y) in &probes {
        let f = sorted_slots(flat.query_point(x, y));
        let r = sorted_slots(rtree.query_point(x, y));
        let b = sorted_slots(bvh.query_point(x, y));
        assert_eq!(f, r);
        assert_eq!(f, b);
    }
    let rects = [
        Aabb2D::new(0, 0, 20, 20),
        Aabb2D::new(-100, -100, 300, 300),
        Aabb2D::new(199, 199, 201, 201),
        Aabb2D::new(1000, 1000, 1001, 1001),
    ];
    for &q in &rects {
        let f = sorted_slots(flat.query_rect(q));
        let r = sorted_slots(rtree.query_rect(q));
        let b = sorted_slots(bvh.query_rect(q));
        assert_eq!(f, r);
        assert_eq!(f, b);
    }
}

#[test]
fn rtree_equal_size_grid_against_oracle() {
    // 64 by 64 boxes on a 10-unit grid, built in bulk
    let mut entries: Vec<(Aabb2D, u32)> = Vec::new();
    for gy in 0..64i64 {
        for gx in 0..64i64 {
            entries.push((
                Aabb2D::new(gx * 10, gy * 10, gx * 10 + 10, gy * 10 + 10),
                (gy * 64 + gx) as u32,
            ));
        }
    }
    let rtree = Index::<u32>::with_rtree_bulk(&entries);
    let mut flat: Index<u32> = Index::new();
    for &(bb, p) in &entries {
        flat.insert(bb, p);
    }
    let _ = flat.commit();
    let q = Aabb2D::new(100, 100, 500, 500);
    let r = sorted_slots(rtree.query_rect(q));
    let f = sorted_slots(flat.query_rect(q));
    assert_eq!(r, f);
    // closed boxes: cells from coordinate 90 through 500 touch the query on
    // each axis, 42 cells per axis
    assert_eq!(r.len(), 42 * 42);
}

#[test]
fn bulk_build_entries_are_committed() {
    let entries = vec![
        (Aabb2D::new(0, 0, 10, 10), 5u32),
        (Aabb2D::new(20, 0, 30, 10), 6u32),
        (Aabb2D::new(40, 0, 50, 10), 7u32),
    ];
    let idx = Index::<u32>::with_rtree_bulk(&entries);
    assert_eq!(sorted_slots(idx.query_point(5, 5)), vec![5]);
    assert_eq!(
        sorted_slots(idx.query_rect(Aabb2D::new(0, 0, 100, 100))),
        vec![5, 6, 7]
    );
}
