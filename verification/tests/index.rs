use understory::{Aabb2D, Index};

#[test]
fn index_insert_update_commit_and_query() {
    let mut idx: Index<u32> = Index::new();
    let k1 = idx.insert(Aabb2D::new(0, 0, 10, 10), 1);
    let _ = idx.commit();
    idx.update(k1, Aabb2D::new(5, 5, 15, 15));
    let dmg = idx.commit();
    assert!(!dmg.is_empty());

    let hits = idx.query_point(6, 6);
    assert_eq!(hits.len(), 1);
    assert_eq!(hits[0].1, 1);
}

#[test]
fn index_added_then_removed_before_commit_is_ignored() {
    let mut idx: Index<u32> = Index::new();
    let k = idx.insert(Aabb2D::new(0, 0, 10, 10), 1);
    idx.remove(k);
    let dmg = idx.commit();
    assert!(dmg.is_empty());
    assert_eq!(idx.query_point(1, 1).len(), 0);
}

#[test]
fn index_removed_after_commit_reports_removed() {
    let mut idx: Index<u32> = Index::new();
    let k = idx.insert(Aabb2D::new(0, 0, 10, 10), 1);
    let _ = idx.commit();
    idx.remove(k);
    let dmg = idx.commit();
    assert_eq!(dmg.removed.len(), 1);
    assert_eq!(dmg.added.len(), 0);
}

#[test]
fn index_moved_reports_pair() {
    let mut idx: Index<u32> = Index::new();
    let k = idx.insert(Aabb2D::new(0, 0, 10, 10), 1);
    let _ = idx.commit();
    idx.update(k, Aabb2D::new(5, 5, 15, 15));
    let dmg = idx.commit();
    assert_eq!(dmg.moved.len(), 1);
    let (a, b) = dmg.moved[0];
    assert_eq!(a, Aabb2D::new(0, 0, 10, 10));
    assert_eq!(b, Aabb2D::new(5, 5, 15, 15));
}

#[test]
fn lib_insert_update_commit_and_query() {
    let mut idx: Index<u32> = Index::new();
    let k1 = idx.insert(Aabb2D::new(0, 0, 10, 10), 1);
    let _ = idx.commit();
    idx.update(k1, Aabb2D::new(5, 5, 15, 15));
    let dmg = idx.commit();
    assert!(!dmg.is_empty());

    let hits = idx.query_point(6, 6);
    assert_eq!(hits.len(), 1);
    assert_eq!(hits[0].1, 1);
}

#[test]
fn lib_added_then_removed_before_commit_is_ignored() {
    let mut idx: Index<u32> = Index::new();
    let k = idx.insert(Aabb2D::new(0, 0, 10, 10), 1);
    idx.remove(k);
    let dmg = idx.commit();
    assert!(dmg.is_empty());
    assert_eq!(idx.query_point(1, 1).len(), 0);
}

#[test]
fn lib_removed_after_commit_reports_removed() {
    let mut idx: Index<u32> = Index::new();
    let k = idx.insert(Aabb2D::new(0, 0, 10, 10), 1);
    let _ = idx.commit();
    idx.remove(k);
    let dmg = idx.commit();
    assert_eq!(dmg.removed.len(), 1);
    assert_eq!(dmg.added.len(), 0);
}

#[test]
fn lib_moved_reports_pair() {
    let mut idx: Index<u32> = Index::new();
    let k = idx.insert(Aabb2D::new(0, 0, 10, 10), 1);
    let _ = idx.commit();
    idx.update(k, Aabb2D::new(5, 5, 15, 15));
    let dmg = idx.commit();
    assert_eq!(dmg.moved.len(), 1);
    let (a, b) = dmg.moved[0];
    assert_eq!(a, Aabb2D::new(0, 0, 10, 10));
    assert_eq!(b, Aabb2D::new(5, 5, 15, 15));
}

#[test]
fn key_reuse_gets_fresh_generation() {
    let mut idx: Index<u32> = Index::new();
    let k1 = idx.insert(Aabb2D::new(0, 0, 10, 10), 1);
    let _ = idx.commit();
    idx.remove(k1);
    let _ = idx.commit();
    let k2 = idx.insert(Aabb2D::new(0, 0, 5, 5), 2);
    // same slot is recycled, but the stale key never aliases the new entry
    assert_ne!(k1, k2);
    idx.update(k1, Aabb2D::new(90, 90, 95, 95));
    let _ = idx.commit();
    let hits = idx.query_point(1, 1);
    assert_eq!(hits.len(), 1);
    assert_eq!(hits[0].1, 2);
}

#[test]
fn stale_update_and_remove_are_noops() {
    let mut idx: Index<u32> = Index::new();
    let k = idx.insert(Aabb2D::new(0, 0, 10, 10), 1);
    idx.remove(k);
    let _ = idx.commit();
    idx.update(k, Aabb2D::new(50, 50, 60, 60));
    idx.remove(k);
    let dmg = idx.commit();
    assert!(dmg.is_empty());
    assert_eq!(idx.query_rect(Aabb2D::new(0, 0, 100, 100)).len(), 0);
}

#[test]
fn degenerate_box_never_matches() {
    let mut idx: Index<u32> = Index::new();
    // inverted box: empty by definition
    let _k = idx.insert(Aabb2D::new(10, 10, 0, 0), 7);
    let _ = idx.commit();
    assert_eq!(idx.query_point(5, 5).len(), 0);
    assert_eq!(idx.query_rect(Aabb2D::new(-100, -100, 100, 100)).len(), 0);
}

#[test]
fn point_query_subset_of_rect_query() {
    let mut idx: Index<u32> = Index::new();
    idx.insert(Aabb2D::new(0, 0, 10, 10), 1);
    idx.insert(Aabb2D::new(5, 5, 15, 15), 2);
    idx.insert(Aabb2D::new(20, 20, 30, 30), 3);
    let _ = idx.commit();
    let pts = idx.query_point(6, 6);
    let rect = idx.query_rect(Aabb2D::new(6, 6, 6, 6));
    for p in &pts {
        assert!(rect.contains(p));
    }
    assert_eq!(pts.len(), 2);
}

#[test]
fn live_key_discoverable_by_covering_rect() {
    let mut idx: Index<u32> = Index::new();
    let k = idx.insert(Aabb2D::new(3, 4, 9, 11), 42);
    let _ = idx.commit();
    let hits = idx.query_rect(Aabb2D::new(0, 0, 20, 20));
    assert!(hits.iter().any(|&(kk, p)| kk == k && p == 42));
}

#[test]
fn clear_drops_everything_silently() {
    let mut idx: Index<u32> = Index::new();
    idx.insert(Aabb2D::new(0, 0, 10, 10), 1);
    let _ = idx.commit();
    idx.clear();
    assert_eq!(idx.query_rect(Aabb2D::new(-100, -100, 100, 100)).len(), 0);
}

#[test]
fn from_xywh_builds_min_max() {
    let a = Aabb2D::from_xywh(2, 3, 10, 20);
    assert_eq!(a, Aabb2D::new(2, 3, 12, 23));
    assert!(!a.is_empty());
    assert!(a.contains_point(2, 3));
    assert!(a.contains_point(12, 23));
    assert!(!a.contains_point(13, 3));
}

#[test]
fn intersect_clamps_and_detects_empty() {
    let a = Aabb2D::new(0, 0, 10, 10);
    let b = Aabb2D::new(5, 5, 15, 15);
    assert_eq!(a.intersect(&b), Aabb2D::new(5, 5, 10, 10));
    let c = Aabb2D::new(20, 20, 30, 30);
    assert!(a.intersect(&c).is_empty());
    // touching edges still count as overlap
    let d = Aabb2D::new(10, 0, 20, 10);
    assert!(!a.intersect(&d).is_empty());
}

#[test]
fn area_uses_widened_accumulator() {
    let a = Aabb2D::new(0, 0, 10, 10);
    assert_eq!(understory::geom::area(&a), 100);
    let big = Aabb2D::new(i64::MIN, i64::MIN, i64::MAX, i64::MAX);
    // extents saturate, so the area is the square of the largest extent
    assert_eq!(understory::geom::area(&big), (i64::MAX as i128) * (i64::MAX as i128));
    let empty = Aabb2D::new(5, 5, 0, 0);
    assert_eq!(understory::geom::area(&empty), 0);
}

#[test]
fn mid_is_floor_midpoint() {
    assert_eq!(understory::geom::mid_i64(0, 10), 5);
    assert_eq!(understory::geom::mid_i64(1, 2), 1);
    assert_eq!(understory::geom::mid_i64(-3, 2), -1);
    assert_eq!(understory::geom::mid_i64(i64::MAX, i64::MAX), i64::MAX);
    assert_eq!(understory::geom::mid_i64(i64::MIN, i64::MAX), -1);
}

#[test]
fn damage_union_covers_all_boxes() {
    let mut idx: Index<u32> = Index::new();
    let k = idx.insert(Aabb2D::new(0, 0, 10, 10), 1);
    idx.insert(Aabb2D::new(50, 50, 60, 60), 2);
    let _ = idx.commit();
    idx.update(k, Aabb2D::new(5, 5, 15, 15));
    let dmg = idx.commit();
    let u = dmg.union().expect("moved pair present");
    assert_eq!(u, Aabb2D::new(0, 0, 15, 15));
    let empty = understory::Damage::new();
    assert!(empty.union().is_none());
}
