//! Binary bounding-volume hierarchy backend: leaves hold up to `max_leaf`
//! items, inserts descend into the child whose box grows least, overflowing
//! leaves split with the shared surface-area heuristic, and queries prune
//! subtrees whose box misses the query box.

use vstd::prelude::*;

use crate::backend::{s_point_candidates, s_rect_candidates, Backend};
use crate::flat::s_slot_map;
use crate::geom::{
    area, sat_add, sat_mul, s_covers, s_empty, s_overlaps, s_sat_add, s_sat_mul, s_union,
    union_aabb, Aabb2D,
};

verus! {

/// A node is a leaf with items or an internal fork.
pub(crate) enum BvhKind {
    Leaf(Vec<(usize, Aabb2D)>),
    Internal { left: Box<BvhNode>, right: Box<BvhNode> },
}

/// One node of the hierarchy: a bounding box over everything below.
pub(crate) struct BvhNode {
    pub(crate) bbox: Aabb2D,
    pub(crate) kind: BvhKind,
}

/// All `(slot, box)` items below a node, left to right.
pub(crate) open spec fn n_items(n: BvhNode) -> Seq<(usize, Aabb2D)>
    decreases n,
{
    match n.kind {
        BvhKind::Leaf(v) => v@,
        BvhKind::Internal { left, right } => n_items(*left) + n_items(*right),
    }
}

/// Structural well-formedness: every node's box covers its children's.
pub(crate) open spec fn n_wf(n: BvhNode) -> bool
    decreases n,
{
    match n.kind {
        BvhKind::Leaf(v) => forall|i: int| 0 <= i < v@.len() ==> s_covers(n.bbox, (#[trigger] v@[i]).1),
        BvhKind::Internal { left, right } => {
            &&& n_wf(*left)
            &&& n_wf(*right)
            &&& s_covers(n.bbox, left.bbox)
            &&& s_covers(n.bbox, right.bbox)
        },
    }
}

/// A well-formed node's box covers every item below it.
pub(crate) proof fn lemma_node_covers_items(n: BvhNode)
    requires
        n_wf(n),
    ensures
        forall|j: int| 0 <= j < n_items(n).len() ==> s_covers(n.bbox, (#[trigger] n_items(n)[j]).1),
    decreases n,
{
    match n.kind {
        BvhKind::Leaf(v) => {},
        BvhKind::Internal { left, right } => {
            lemma_node_covers_items(*left);
            lemma_node_covers_items(*right);
            assert forall|j: int| 0 <= j < n_items(n).len() implies s_covers(
                n.bbox,
                (#[trigger] n_items(n)[j]).1,
            ) by {
                let ll = n_items(*left).len() as int;
                if j < ll {
                    assert(n_items(n)[j] == n_items(*left)[j]);
                } else {
                    assert(n_items(n)[j] == n_items(*right)[j - ll]);
                }
            }
        },
    }
}

/// A simple BVH backend using SAH-like splits.
pub struct BVH {
    max_leaf: usize,
    root: Option<Box<BvhNode>>,
    slots: Vec<Option<Aabb2D>>,
}

impl BVH {
    /// Whether `(s, b)` is an item of the tree.
    pub(crate) closed spec fn has_item(self, s: usize, b: Aabb2D) -> bool {
        self.root is Some && n_items(*self.root->0).contains((s, b))
    }

    /// Grow the slot mirror so that `slot` is addressable, and record `v`.
    fn set_slot(&mut self, slot: usize, v: Option<Aabb2D>)
        ensures
            final(self).slots@.len() > slot,
            final(self).slots@.len() >= old(self).slots@.len(),
            final(self).slots@[slot as int] == v,
            forall|i: int|
                0 <= i < final(self).slots@.len() && i != slot
                    ==> final(self).slots@[i] == if i < old(self).slots@.len() {
                    old(self).slots@[i]
                } else {
                    None::<Aabb2D>
                },
            final(self).root == old(self).root,
            final(self).max_leaf == old(self).max_leaf,
    {
        while self.slots.len() <= slot
            invariant
                self.slots@.len() >= old(self).slots@.len(),
                forall|i: int|
                    0 <= i < self.slots@.len()
                        ==> self.slots@[i] == if i < old(self).slots@.len() {
                        old(self).slots@[i]
                    } else {
                        None::<Aabb2D>
                    },
                self.root == old(self).root,
                self.max_leaf == old(self).max_leaf,
            decreases slot + 1 - self.slots@.len(),
        {
            self.slots.push(None);
        }
        self.slots[slot] = v;
    }
}

/// The bounding box of a list of items: their running union, or a degenerate
/// zero box for an empty list.
fn bbox_items(items: &Vec<(usize, Aabb2D)>) -> (r: Aabb2D)
    ensures
        forall|i: int| 0 <= i < items@.len() ==> s_covers(r, (#[trigger] items@[i]).1),
        forall|outer: Aabb2D|
            items@.len() > 0 && (forall|i: int|
                0 <= i < items@.len() ==> s_covers(outer, (#[trigger] items@[i]).1)) ==> s_covers(
                outer,
                r,
            ),
        items@.len() == 0 ==> r == (Aabb2D { min_x: 0, min_y: 0, max_x: 0, max_y: 0 }),
{
    if items.len() == 0 {
        return Aabb2D { min_x: 0, min_y: 0, max_x: 0, max_y: 0 };
    }
    let mut acc = items[0].1;
    let mut i: usize = 1;
    while i < items.len()
        invariant
            1 <= i <= items@.len(),
            forall|j: int| 0 <= j < i ==> s_covers(acc, (#[trigger] items@[j]).1),
            forall|outer: Aabb2D|
                (forall|j: int| 0 <= j < i ==> s_covers(outer, (#[trigger] items@[j]).1))
                    ==> s_covers(outer, acc),
        decreases items@.len() - i,
    {
        let ghost acc0 = acc;
        acc = union_aabb(acc, items[i].1);
        proof {
            assert forall|outer: Aabb2D|
                (forall|j: int| 0 <= j < i + 1 ==> s_covers(outer, (#[trigger] items@[j]).1))
                    implies s_covers(outer, acc) by {
                assert(forall|j: int| 0 <= j < i ==> s_covers(outer, (#[trigger] items@[j]).1));
                assert(s_covers(outer, acc0));
                assert(s_covers(outer, items@[i as int].1));
            }
        }
        i += 1;
    }
    acc
}

/// Centroid of a box along the chosen axis, for split ordering.
fn centroid(b: &Aabb2D, axis_x: bool) -> i64 {
    if axis_x {
        crate::geom::mid_i64(b.min_x, b.max_x)
    } else {
        crate::geom::mid_i64(b.min_y, b.max_y)
    }
}

/// Sort items by centroid along an axis (selection of the minimum on each
/// pass). Reordering only: the same items come back.
fn sort_by_centroid(items: Vec<(usize, Aabb2D)>, axis_x: bool) -> (r: Vec<(usize, Aabb2D)>)
    ensures
        r@.len() == items@.len(),
        forall|p: (usize, Aabb2D)| r@.contains(p) <==> items@.contains(p),
{
    let mut src = items;
    let mut out: Vec<(usize, Aabb2D)> = Vec::new();
    let ghost all = src@;
    while src.len() > 0
        invariant
            out@.len() + src@.len() == all.len(),
            forall|p: (usize, Aabb2D)| all.contains(p) <==> (out@.contains(p) || src@.contains(p)),
            forall|p: (usize, Aabb2D)| out@.contains(p) ==> all.contains(p),
            forall|p: (usize, Aabb2D)| src@.contains(p) ==> all.contains(p),
        decreases src@.len(),
    {
        let mut m: usize = 0;
        let mut j: usize = 1;
        let mut mc = centroid(&src[0].1, axis_x);
        while j < src.len()
            invariant
                m < src@.len(),
                j <= src@.len(),
            decreases src@.len() - j,
        {
            let c = centroid(&src[j].1, axis_x);
            if c < mc {
                m = j;
                mc = c;
            }
            j += 1;
        }
        let ghost src_before = src@;
        let ghost out_before = out@;
        let picked = src.swap_remove(m);
        out.push(picked);
        proof {
            assert forall|p: (usize, Aabb2D)| all.contains(p) implies (out@.contains(p)
                || src@.contains(p)) by {
                if out_before.contains(p) {
                    let q = choose|q: int| 0 <= q < out_before.len() && out_before[q] == p;
                    assert(out@[q] == p);
                } else {
                    let q = choose|q: int| 0 <= q < src_before.len() && src_before[q] == p;
                    if q == m {
                        assert(out@.last() == p);
                    } else if q == src_before.len() - 1 {
                        if m < src_before.len() - 1 {
                            assert(src@[m as int] == p);
                        } else {
                            assert(out@.last() == p);
                        }
                    } else {
                        assert(src@[q] == p);
                    }
                }
            }
            assert forall|p: (usize, Aabb2D)| out@.contains(p) || src@.contains(p) implies
                all.contains(p) by {
                if out@.contains(p) {
                    let q = choose|q: int| 0 <= q < out@.len() && out@[q] == p;
                    if q < out_before.len() {
                        assert(out_before[q] == p);
                    } else {
                        assert(src_before[m as int] == p);
                    }
                } else {
                    let q = choose|q: int| 0 <= q < src@.len() && src@[q] == p;
                    if q == m && m < src_before.len() - 1 {
                        assert(src_before[src_before.len() - 1] == p);
                    } else {
                        assert(src_before[q] == p);
                    }
                }
            }
        }
    }
    out
}

/// Copy a list of items.
fn copy_items(v: &Vec<(usize, Aabb2D)>) -> (r: Vec<(usize, Aabb2D)>)
    ensures
        r@ == v@,
{
    let mut out: Vec<(usize, Aabb2D)> = Vec::new();
    let mut i: usize = 0;
    while i < v.len()
        invariant
            i <= v@.len(),
            out@ =~= v@.take(i as int),
        decreases v@.len() - i,
    {
        out.push(v[i]);
        i += 1;
    }
    proof {
        assert(v@.take(v@.len() as int) =~= v@);
    }
    out
}

/// The shared SAH-like split: for each axis, sort by centroid, precompute
/// prefix and suffix boxes, and take the split point minimising
/// `area(left) * |left| + area(right) * |right|` with the widened,
/// saturating accumulator. Both halves are non-empty and together they hold
/// exactly the input items.
pub(crate) fn split_sah(items: Vec<(usize, Aabb2D)>, max_leaf: usize) -> (r: (
    Vec<(usize, Aabb2D)>,
    Vec<(usize, Aabb2D)>,
))
    requires
        max_leaf >= 3,
        items@.len() > max_leaf,
    ensures
        r.0@.len() >= 2,
        r.1@.len() >= 2,
        r.0@.len() + r.1@.len() == items@.len(),
        forall|p: (usize, Aabb2D)|
            (r.0@.contains(p) || r.1@.contains(p)) <==> items@.contains(p),
{
    let n = items.len();
    let mut min_children = if max_leaf / 2 >= 2 {
        max_leaf / 2
    } else {
        2
    };
    proof {
        assert(max_leaf == 2 * (max_leaf as int / 2) + max_leaf as int % 2);
    }
    if min_children > n - 2 {
        min_children = n - 2;
    }
    proof {
        assert(2 <= min_children);
        assert(min_children <= n - 2);
        assert(2 * min_children <= n);
    }
    let ghost orig = items@;
    let mut best_cost: i128 = 0;
    let mut best_left: Vec<(usize, Aabb2D)> = Vec::new();
    let mut best_right: Vec<(usize, Aabb2D)> = Vec::new();
    let mut have_best = false;
    let mut axis: usize = 0;
    while axis < 2
        invariant
            2 <= min_children,
            min_children <= n - 2,
            2 * min_children <= n,
            n == orig.len(),
            items@ == orig,
            have_best ==> {
                &&& best_left@.len() >= min_children
                &&& best_right@.len() >= min_children
                &&& best_left@.len() + best_right@.len() == n
                &&& forall|p: (usize, Aabb2D)|
                    (best_left@.contains(p) || best_right@.contains(p)) <==> orig.contains(p)
            },
            axis >= 1 ==> have_best,
        decreases 2 - axis,
    {
        let v = sort_by_centroid(copy_items(&items), axis == 0);
        // Prefix and suffix bounding boxes for O(1) cost evaluation.
        let mut prefix: Vec<Aabb2D> = Vec::new();
        let mut i: usize = 0;
        while i < n
            invariant
                n == v@.len(),
                i <= n,
                prefix@.len() == i,
            decreases n - i,
        {
            if i == 0 {
                prefix.push(v[0].1);
            } else {
                let prev = prefix[i - 1];
                prefix.push(union_aabb(prev, v[i].1));
            }
            i += 1;
        }
        let mut suffix_rev: Vec<Aabb2D> = Vec::new();
        let mut i: usize = 0;
        while i < n
            invariant
                n == v@.len(),
                i <= n,
                suffix_rev@.len() == i,
            decreases n - i,
        {
            if i == 0 {
                suffix_rev.push(v[n - 1].1);
            } else {
                let prev = suffix_rev[i - 1];
                suffix_rev.push(union_aabb(prev, v[n - 1 - i].1));
            }
            i += 1;
        }
        let mut k: usize = min_children;
        while k <= n - min_children
            invariant
                2 <= min_children <= n - 2,
                2 * min_children <= n,
                n == v@.len(),
                prefix@.len() == n,
                suffix_rev@.len() == n,
                min_children <= k,
                k <= n - min_children + 1,
                forall|p: (usize, Aabb2D)| v@.contains(p) <==> orig.contains(p),
                n == orig.len(),
                items@ == orig,
                v@.len() == orig.len(),
                have_best ==> {
                    &&& best_left@.len() >= min_children
                    &&& best_right@.len() >= min_children
                    &&& best_left@.len() + best_right@.len() == n
                    &&& forall|p: (usize, Aabb2D)|
                        (best_left@.contains(p) || best_right@.contains(p)) <==> orig.contains(p)
                },
                (axis >= 1 || k > min_children) ==> have_best,
            decreases n - min_children + 1 - k,
        {
            let lb = prefix[k - 1];
            let rb = suffix_rev[n - 1 - k];
            let la = area(&lb);
            let ra = area(&rb);
            proof {
                crate::geom::lemma_area_bounds(lb);
                crate::geom::lemma_area_bounds(rb);
            }
            let cost = sat_add(sat_mul(la, k as i128), sat_mul(ra, (n - k) as i128));
            if !have_best || cost < best_cost {
                let mut left: Vec<(usize, Aabb2D)> = Vec::new();
                let mut right: Vec<(usize, Aabb2D)> = Vec::new();
                let mut q: usize = 0;
                while q < k
                    invariant
                        k <= v@.len(),
                        q <= k,
                        left@ =~= v@.take(q as int),
                    decreases k - q,
                {
                    left.push(v[q]);
                    q += 1;
                }
                let mut q: usize = k;
                while q < n
                    invariant
                        k <= q <= n,
                        n == v@.len(),
                        right@ =~= v@.subrange(k as int, q as int),
                    decreases n - q,
                {
                    right.push(v[q]);
                    q += 1;
                }
                proof {
                    assert(left@ =~= v@.take(k as int));
                    assert(right@ =~= v@.subrange(k as int, n as int));
                    assert forall|p: (usize, Aabb2D)| (left@.contains(p) || right@.contains(p))
                        <==> v@.contains(p) by {
                        if left@.contains(p) {
                            let j = choose|j: int| 0 <= j < left@.len() && left@[j] == p;
                            assert(v@[j] == p);
                        }
                        if right@.contains(p) {
                            let j = choose|j: int| 0 <= j < right@.len() && right@[j] == p;
                            assert(v@[k + j] == p);
                        }
                        if v@.contains(p) {
                            let j = choose|j: int| 0 <= j < v@.len() && v@[j] == p;
                            if j < k {
                                assert(left@[j] == p);
                            } else {
                                assert(right@[j - k] == p);
                            }
                        }
                    }
                }
                best_cost = cost;
                best_left = left;
                best_right = right;
                have_best = true;
            }
            k += 1;
        }
        proof {
            assert(have_best);
        }
        axis += 1;
    }
    (best_left, best_right)
}

/// Insert an item below a node, descending into the child whose box grows
/// least; an overflowing leaf splits with the surface-area heuristic. The
/// result holds exactly the old items plus the new one, within a box no
/// larger than the union of the old box and the new item's.
pub(crate) fn bvh_insert_node(node: Box<BvhNode>, slot: usize, bbox: Aabb2D, max_leaf: usize)
    -> (r: Box<BvhNode>)
    requires
        n_wf(*node),
        max_leaf >= 3,
    ensures
        n_wf(*r),
        s_covers(s_union(node.bbox, bbox), r.bbox),
        forall|p: (usize, Aabb2D)|
            n_items(*r).contains(p) <==> (n_items(*node).contains(p) || p == (slot, bbox)),
    decreases *node,
{
    let ghost n0 = *node;
    let node_inner = *node;
    let BvhNode { bbox: nb, kind } = node_inner;
    match kind {
        BvhKind::Leaf(items) => {
            let ghost items0 = items@;
            let mut items = items;
            items.push((slot, bbox));
            let new_bbox = union_aabb(nb, bbox);
            if items.len() > max_leaf {
                let (l, r) = split_sah(items, max_leaf);
                let ghost li = l@;
                let ghost ri = r@;
                let lb = bbox_items(&l);
                let rb = bbox_items(&r);
                let left_box = Box::new(BvhNode { bbox: lb, kind: BvhKind::Leaf(l) });
                let right_box = Box::new(BvhNode { bbox: rb, kind: BvhKind::Leaf(r) });
                proof {
                    assert(n_items(*left_box) == li);
                    assert(n_items(*right_box) == ri);
                    assert(n_wf(*left_box)) by {
                        assert(forall|i: int|
                            0 <= i < li.len() ==> s_covers(lb, (#[trigger] li[i]).1));
                    }
                    assert(n_wf(*right_box)) by {
                        assert(forall|i: int|
                            0 <= i < ri.len() ==> s_covers(rb, (#[trigger] ri[i]).1));
                    }
                }
                let fork = BvhNode {
                    bbox: union_aabb(lb, rb),
                    kind: BvhKind::Internal { left: left_box, right: right_box },
                };
                proof {
                    assert(n_items(fork) =~= li + ri);
                    assert forall|p: (usize, Aabb2D)| n_items(fork).contains(p) implies (n_items(
                        n0,
                    ).contains(p) || p == (slot, bbox)) by {
                        let j = choose|j: int| 0 <= j < n_items(fork).len() && n_items(fork)[j] == p;
                        if j < li.len() {
                            assert(li.contains(p));
                        } else {
                            assert(ri[j - li.len()] == p);
                            assert(ri.contains(p));
                        }
                        assert(items0.push((slot, bbox)).contains(p));
                        let q = choose|q: int|
                            0 <= q < items0.push((slot, bbox)).len() && items0.push(
                                (slot, bbox),
                            )[q] == p;
                        if q < items0.len() {
                            assert(n_items(n0)[q] == p);
                        }
                    }
                    assert forall|p: (usize, Aabb2D)| (n_items(n0).contains(p) || p == (
                    slot,
                    bbox,
                    )) implies n_items(fork).contains(p) by {
                        assert(items0.push((slot, bbox)).contains(p)) by {
                            if p == (slot, bbox) {
                                assert(items0.push((slot, bbox)).last() == p);
                            } else {
                                let q = choose|q: int|
                                    0 <= q < items0.len() && items0[q] == p;
                                assert(items0.push((slot, bbox))[q] == p);
                            }
                        }
                        if li.contains(p) {
                            let j = choose|j: int| 0 <= j < li.len() && li[j] == p;
                            assert(n_items(fork)[j] == p);
                        } else {
                            assert(ri.contains(p));
                            let j = choose|j: int| 0 <= j < ri.len() && ri[j] == p;
                            assert(n_items(fork)[li.len() + j] == p);
                        }
                    }
                    assert forall|p: (usize, Aabb2D)| n_items(fork).contains(p) implies s_covers(
                        s_union(nb, bbox),
                        p.1,
                    ) by {
                        if n_items(n0).contains(p) {
                            let j = choose|j: int|
                                0 <= j < n_items(n0).len() && n_items(n0)[j] == p;
                            assert(s_covers(nb, p.1));
                        } else {
                            assert(p == (slot, bbox));
                        }
                    }
                    assert(li.len() > 0 && ri.len() > 0);
                    assert forall|i: int| 0 <= i < li.len() implies s_covers(
                        s_union(nb, bbox),
                        (#[trigger] li[i]).1,
                    ) by {
                        assert(n_items(fork)[i] == li[i]);
                        assert(n_items(fork).contains(li[i]));
                    }
                    assert forall|i: int| 0 <= i < ri.len() implies s_covers(
                        s_union(nb, bbox),
                        (#[trigger] ri[i]).1,
                    ) by {
                        assert(n_items(fork)[li.len() + i] == ri[i]);
                        assert(n_items(fork).contains(ri[i]));
                    }
                    assert(s_covers(s_union(nb, bbox), lb));
                    assert(s_covers(s_union(nb, bbox), rb));
                    assert(s_covers(s_union(nb, bbox), fork.bbox));
                    assert(n_wf(fork));
                }
                Box::new(fork)
            } else {
                let leaf = BvhNode { bbox: new_bbox, kind: BvhKind::Leaf(items) };
                proof {
                    assert(n_items(leaf) == items0.push((slot, bbox)));
                    let pushed = items0.push((slot, bbox));
                    assert forall|i: int| 0 <= i < pushed.len() implies s_covers(
                        new_bbox,
                        (#[trigger] pushed[i]).1,
                    ) by {
                        if i < items0.len() {
                            assert(s_covers(nb, items0[i].1));
                        }
                    }
                    assert(n_wf(leaf));
                    assert forall|p: (usize, Aabb2D)| n_items(leaf).contains(p) implies (n_items(
                        n0,
                    ).contains(p) || p == (slot, bbox)) by {
                        let q = choose|q: int|
                            0 <= q < n_items(leaf).len() && n_items(leaf)[q] == p;
                        if q < items0.len() {
                            assert(n_items(n0)[q] == p);
                        }
                    }
                    assert forall|p: (usize, Aabb2D)| (n_items(n0).contains(p) || p == (
                    slot,
                    bbox,
                    )) implies n_items(leaf).contains(p) by {
                        if p == (slot, bbox) {
                            assert(n_items(leaf).last() == p);
                        } else {
                            let q = choose|q: int| 0 <= q < items0.len() && items0[q] == p;
                            assert(n_items(leaf)[q] == p);
                        }
                    }
                }
                Box::new(leaf)
            }
        },
        BvhKind::Internal { left, right } => {
            let lb = left.bbox;
            let rb = right.bbox;
            let cost_l = {
                let u = union_aabb(lb, bbox);
                proof {
                    crate::geom::lemma_area_bounds(u);
                    crate::geom::lemma_area_bounds(lb);
                }
                area(&u) - area(&lb)
            };
            let cost_r = {
                let u = union_aabb(rb, bbox);
                proof {
                    crate::geom::lemma_area_bounds(u);
                    crate::geom::lemma_area_bounds(rb);
                }
                area(&u) - area(&rb)
            };
            let new_bbox = union_aabb(nb, bbox);
            let (nl, nr) = if cost_l <= cost_r {
                let ghost lval = *left;
                let nl = bvh_insert_node(left, slot, bbox, max_leaf);
                (nl, right)
            } else {
                let ghost rval = *right;
                let nr = bvh_insert_node(right, slot, bbox, max_leaf);
                (left, nr)
            };
            let fork = BvhNode {
                bbox: new_bbox,
                kind: BvhKind::Internal { left: nl, right: nr },
            };
            proof {
                assert forall|p: (usize, Aabb2D)| n_items(fork).contains(p) implies (n_items(
                    n0,
                ).contains(p) || p == (slot, bbox)) by {
                    let li = n_items(*fork.kind->Internal_left);
                    let ri = n_items(*fork.kind->Internal_right);
                    let j = choose|j: int| 0 <= j < n_items(fork).len() && n_items(fork)[j] == p;
                    if j < li.len() {
                        assert(li.contains(p));
                    } else {
                        assert(ri[j - li.len()] == p);
                        assert(ri.contains(p));
                    }
                    if n_items(n0).len() > 0 || true {
                        let ol = n_items(*n0.kind->Internal_left);
                        let orr = n_items(*n0.kind->Internal_right);
                        if ol.contains(p) {
                            let q = choose|q: int| 0 <= q < ol.len() && ol[q] == p;
                            assert(n_items(n0)[q] == p);
                        } else if orr.contains(p) {
                            let q = choose|q: int| 0 <= q < orr.len() && orr[q] == p;
                            assert(n_items(n0)[ol.len() + q] == p);
                        }
                    }
                }
                assert forall|p: (usize, Aabb2D)| (n_items(n0).contains(p) || p == (slot, bbox))
                    implies n_items(fork).contains(p) by {
                    let ol = n_items(*n0.kind->Internal_left);
                    let orr = n_items(*n0.kind->Internal_right);
                    let li = n_items(*fork.kind->Internal_left);
                    let ri = n_items(*fork.kind->Internal_right);
                    if n_items(n0).contains(p) {
                        let j = choose|j: int| 0 <= j < n_items(n0).len() && n_items(n0)[j] == p;
                        if j < ol.len() {
                            assert(ol[j] == p);
                            assert(ol.contains(p));
                        } else {
                            assert(orr[j - ol.len()] == p);
                            assert(orr.contains(p));
                        }
                    }
                    if li.contains(p) {
                        let q = choose|q: int| 0 <= q < li.len() && li[q] == p;
                        assert(n_items(fork)[q] == p);
                    } else if ri.contains(p) {
                        let q = choose|q: int| 0 <= q < ri.len() && ri[q] == p;
                        assert(n_items(fork)[li.len() + q] == p);
                    }
                }
            }
            Box::new(fork)
        },
    }
}

/// Remove the item for `slot` wherever the old box leads: prune subtrees
/// whose box misses `old_b`, filter matching slots out of visited leaves,
/// and collapse a fork whose sibling became an empty leaf. Items of other
/// slots survive unchanged; a surviving item for `slot` can only sit in a
/// pruned subtree, so its box does not overlap `old_b`.
pub(crate) fn bvh_remove_node(node: Box<BvhNode>, slot: usize, old_b: &Aabb2D) -> (r: (
    Box<BvhNode>,
    bool,
))
    requires
        n_wf(*node),
    ensures
        n_wf(*r.0),
        forall|p: (usize, Aabb2D)|
            p.0 != slot ==> (n_items(*r.0).contains(p) <==> n_items(*node).contains(p)),
        forall|p: (usize, Aabb2D)| n_items(*r.0).contains(p) ==> n_items(*node).contains(p),
        forall|p: (usize, Aabb2D)|
            n_items(*r.0).contains(p) && p.0 == slot ==> !s_overlaps(p.1, *old_b),
    decreases *node,
{
    let ghost n0 = *node;
    if node.bbox.intersect(old_b).is_empty() {
        proof {
            lemma_node_covers_items(n0);
            assert forall|p: (usize, Aabb2D)|
                n_items(n0).contains(p) && p.0 == slot implies !s_overlaps(p.1, *old_b) by {
                let j = choose|j: int| 0 <= j < n_items(n0).len() && n_items(n0)[j] == p;
                assert(s_covers(n0.bbox, p.1));
            }
        }
        return (node, false);
    }
    let node_inner = *node;
    let BvhNode { bbox: nb, kind } = node_inner;
    match kind {
        BvhKind::Leaf(items) => {
            let ghost items0 = items@;
            let mut kept: Vec<(usize, Aabb2D)> = Vec::new();
            let mut any_removed = false;
            let mut i: usize = 0;
            while i < items.len()
                invariant
                    i <= items@.len(),
                    forall|p: (usize, Aabb2D)|
                        kept@.contains(p) <==> (exists|j: int|
                            0 <= j < i && items@[j] == p && p.0 != slot),
                    !any_removed ==> kept@ =~= items@.take(i as int),
                    any_removed ==> kept@.len() < i,
                decreases items@.len() - i,
            {
                let ghost kept0 = kept@;
                let it = items[i];
                if it.0 != slot {
                    kept.push(it);
                    proof {
                        assert(kept@ == kept0.push(it));
                        assert forall|p: (usize, Aabb2D)| kept@.contains(p) implies (exists|j: int|
                            0 <= j < i + 1 && items@[j] == p && p.0 != slot) by {
                            let q = choose|q: int| 0 <= q < kept@.len() && kept@[q] == p;
                            if q < kept0.len() {
                                assert(kept0[q] == p);
                                assert(kept0.contains(p));
                            } else {
                                assert(p == it);
                                assert(items@[i as int] == p && p.0 != slot);
                            }
                        }
                        assert forall|p: (usize, Aabb2D)|
                            (exists|j: int| 0 <= j < i + 1 && items@[j] == p && p.0 != slot)
                            implies kept@.contains(p) by {
                            let j = choose|j: int| 0 <= j < i + 1 && items@[j] == p && p.0 != slot;
                            if j < i {
                                assert(kept0.contains(p));
                                let q = choose|q: int| 0 <= q < kept0.len() && kept0[q] == p;
                                assert(kept@[q] == p);
                            } else {
                                assert(kept@.last() == p);
                            }
                        }
                    }
                } else {
                    any_removed = true;
                    proof {
                        assert forall|p: (usize, Aabb2D)|
                            (exists|j: int| 0 <= j < i + 1 && items@[j] == p && p.0 != slot)
                            implies kept@.contains(p) by {
                            let j = choose|j: int| 0 <= j < i + 1 && items@[j] == p && p.0 != slot;
                            assert(j < i);
                        }
                    }
                }
                i += 1;
            }
            let new_bbox = if any_removed {
                bbox_items(&kept)
            } else {
                nb
            };
            let ghost keptv = kept@;
            proof {
                if !any_removed {
                    assert(keptv =~= items0);
                    assert(forall|q: int|
                        0 <= q < keptv.len() ==> s_covers(nb, (#[trigger] keptv[q]).1));
                }
            }
            let leaf = Box::new(BvhNode { bbox: new_bbox, kind: BvhKind::Leaf(kept) });
            proof {
                assert(n_items(*leaf) == keptv);
                assert(n_wf(*leaf));
                assert forall|p: (usize, Aabb2D)|
                    p.0 != slot implies (n_items(*leaf).contains(p) <==> n_items(n0).contains(
                    p,
                )) by {
                    if n_items(n0).contains(p) {
                        let j = choose|j: int| 0 <= j < items0.len() && items0[j] == p;
                        assert(keptv.contains(p));
                    }
                    if keptv.contains(p) {
                        let j = choose|j: int| 0 <= j < items0.len() && items0[j] == p && p.0 != slot;
                        assert(n_items(n0).contains(p));
                    }
                }
                assert forall|p: (usize, Aabb2D)| n_items(*leaf).contains(p) implies n_items(
                    n0,
                ).contains(p) by {
                    let j = choose|j: int| 0 <= j < items0.len() && items0[j] == p && p.0 != slot;
                }
                assert forall|p: (usize, Aabb2D)|
                    n_items(*leaf).contains(p) && p.0 == slot implies !s_overlaps(p.1, *old_b) by {
                    let j = choose|j: int| 0 <= j < items0.len() && items0[j] == p && p.0 != slot;
                }
            }
            (leaf, any_removed)
        },
        BvhKind::Internal { left, right } => {
            let ghost l0 = *left;
            let ghost r0 = *right;
            let (l2, reml) = bvh_remove_node(left, slot, old_b);
            let (r2, remr) = bvh_remove_node(right, slot, old_b);
            let removed = reml || remr;
            if removed {
                let l_empty = is_empty_leaf(&l2);
                let r_empty = is_empty_leaf(&r2);
                if l_empty && !r_empty {
                    proof {
                        lemma_concat_membership(n0, l0, r0, *l2, *r2);
                        assert forall|p: (usize, Aabb2D)|
                            p.0 != slot implies (n_items(*r2).contains(p) <==> n_items(
                            n0,
                        ).contains(p)) by {
                            if n_items(n0).contains(p) {
                                assert(n_items(l0).contains(p) || n_items(r0).contains(p));
                                if n_items(l0).contains(p) {
                                    assert(n_items(*l2).contains(p));
                                    assert(false);
                                }
                            }
                        }
                        assert forall|p: (usize, Aabb2D)| n_items(*r2).contains(p) implies
                            n_items(n0).contains(p) by {
                            assert(n_items(r0).contains(p));
                        }
                    }
                    return (r2, true);
                }
                if r_empty && !l_empty {
                    proof {
                        lemma_concat_membership(n0, l0, r0, *l2, *r2);
                        assert forall|p: (usize, Aabb2D)|
                            p.0 != slot implies (n_items(*l2).contains(p) <==> n_items(
                            n0,
                        ).contains(p)) by {
                            if n_items(n0).contains(p) {
                                assert(n_items(l0).contains(p) || n_items(r0).contains(p));
                                if n_items(r0).contains(p) {
                                    assert(n_items(*r2).contains(p));
                                    assert(false);
                                }
                            }
                        }
                        assert forall|p: (usize, Aabb2D)| n_items(*l2).contains(p) implies
                            n_items(n0).contains(p) by {
                            assert(n_items(l0).contains(p));
                        }
                    }
                    return (l2, true);
                }
            }
            let fork = Box::new(
                BvhNode {
                    bbox: union_aabb(l2.bbox, r2.bbox),
                    kind: BvhKind::Internal { left: l2, right: r2 },
                },
            );
            proof {
                let li = n_items(*fork.kind->Internal_left);
                let ri = n_items(*fork.kind->Internal_right);
                assert(n_items(*fork) == li + ri);
                assert forall|p: (usize, Aabb2D)| n_items(*fork).contains(p) implies (li.contains(
                    p,
                ) || ri.contains(p)) by {
                    let j = choose|j: int| 0 <= j < n_items(*fork).len() && n_items(*fork)[j] == p;
                    if j < li.len() {
                        assert(li[j] == p);
                    } else {
                        assert(ri[j - li.len()] == p);
                    }
                }
                assert forall|p: (usize, Aabb2D)| li.contains(p) || ri.contains(p) implies n_items(
                    *fork,
                ).contains(p) by {
                    if li.contains(p) {
                        let j = choose|j: int| 0 <= j < li.len() && li[j] == p;
                        assert(n_items(*fork)[j] == p);
                    } else {
                        let j = choose|j: int| 0 <= j < ri.len() && ri[j] == p;
                        assert(n_items(*fork)[li.len() + j] == p);
                    }
                }
                let ol = n_items(l0);
                let orr = n_items(r0);
                assert(n_items(n0) == ol + orr);
                assert forall|p: (usize, Aabb2D)| n_items(n0).contains(p) implies (ol.contains(p)
                    || orr.contains(p)) by {
                    let j = choose|j: int| 0 <= j < n_items(n0).len() && n_items(n0)[j] == p;
                    if j < ol.len() {
                        assert(ol[j] == p);
                    } else {
                        assert(orr[j - ol.len()] == p);
                    }
                }
                assert forall|p: (usize, Aabb2D)| ol.contains(p) || orr.contains(p) implies
                    n_items(n0).contains(p) by {
                    if ol.contains(p) {
                        let j = choose|j: int| 0 <= j < ol.len() && ol[j] == p;
                        assert(n_items(n0)[j] == p);
                    } else {
                        let j = choose|j: int| 0 <= j < orr.len() && orr[j] == p;
                        assert(n_items(n0)[ol.len() + j] == p);
                    }
                }
                assert(n_wf(*fork));
                assert forall|p: (usize, Aabb2D)|
                    p.0 != slot implies (n_items(*fork).contains(p) <==> n_items(n0).contains(
                    p,
                )) by {
                    if n_items(*fork).contains(p) {
                        assert(li.contains(p) || ri.contains(p));
                        assert(ol.contains(p) || orr.contains(p));
                    }
                    if n_items(n0).contains(p) {
                        assert(ol.contains(p) || orr.contains(p));
                        assert(li.contains(p) || ri.contains(p));
                    }
                }
                assert forall|p: (usize, Aabb2D)| n_items(*fork).contains(p) implies n_items(
                    n0,
                ).contains(p) by {
                    assert(li.contains(p) || ri.contains(p));
                    assert(ol.contains(p) || orr.contains(p));
                }
                assert forall|p: (usize, Aabb2D)|
                    n_items(*fork).contains(p) && p.0 == slot implies !s_overlaps(
                    p.1,
                    *old_b,
                ) by {
                    assert(li.contains(p) || ri.contains(p));
                }
            }
            (fork, removed)
        },
    }
}

/// Membership in a fork's item list splits over its two children; the same
/// holds for the original fork. Used when a collapsed child replaces a fork.
proof fn lemma_concat_membership(n0: BvhNode, l0: BvhNode, r0: BvhNode, l2: BvhNode, r2: BvhNode)
    requires
        n_items(n0) == n_items(l0) + n_items(r0),
    ensures
        forall|p: (usize, Aabb2D)|
            n_items(n0).contains(p) <==> (n_items(l0).contains(p) || n_items(r0).contains(p)),
{
    let ol = n_items(l0);
    let orr = n_items(r0);
    assert forall|p: (usize, Aabb2D)| n_items(n0).contains(p) implies (ol.contains(p)
        || orr.contains(p)) by {
        let j = choose|j: int| 0 <= j < n_items(n0).len() && n_items(n0)[j] == p;
        if j < ol.len() {
            assert(ol[j] == p);
        } else {
            assert(orr[j - ol.len()] == p);
        }
    }
    assert forall|p: (usize, Aabb2D)| ol.contains(p) || orr.contains(p) implies n_items(
        n0,
    ).contains(p) by {
        if ol.contains(p) {
            let j = choose|j: int| 0 <= j < ol.len() && ol[j] == p;
            assert(n_items(n0)[j] == p);
        } else {
            let j = choose|j: int| 0 <= j < orr.len() && orr[j] == p;
            assert(n_items(n0)[ol.len() + j] == p);
        }
    }
}

/// Whether a node is a leaf with no items.
fn is_empty_leaf(n: &BvhNode) -> (r: bool)
    ensures
        r ==> n_items(*n).len() == 0,
{
    match &n.kind {
        BvhKind::Leaf(v) => v.len() == 0,
        BvhKind::Internal { .. } => false,
    }
}

/// Whether a slot is already in the candidate list.
fn contains_slot(v: &Vec<usize>, s: usize) -> (r: bool)
    ensures
        r == v@.contains(s),
{
    let mut i: usize = 0;
    while i < v.len()
        invariant
            i <= v@.len(),
            forall|j: int| 0 <= j < i ==> v@[j] != s,
        decreases v@.len() - i,
    {
        if v[i] == s {
            proof {
                assert(v@[i as int] == s);
            }
            return true;
        }
        i += 1;
    }
    false
}

/// Depth-first query: prune subtrees whose box misses the query box, emit
/// the slot of every item whose box overlaps it, without duplicates.
pub(crate) fn bvh_query_node(n: &BvhNode, q: &Aabb2D, out: &mut Vec<usize>)
    requires
        n_wf(*n),
        old(out)@.no_duplicates(),
    ensures
        final(out)@.no_duplicates(),
        forall|s: usize|
            final(out)@.contains(s) <==> (old(out)@.contains(s) || exists|j: int|
                0 <= j < n_items(*n).len() && (#[trigger] n_items(*n)[j]).0 == s && s_overlaps(
                    n_items(*n)[j].1,
                    *q,
                )),
    decreases *n,
{
    if n.bbox.intersect(q).is_empty() {
        proof {
            lemma_node_covers_items(*n);
            assert forall|s: usize| old(out)@.contains(s) || (exists|j: int|
                0 <= j < n_items(*n).len() && (#[trigger] n_items(*n)[j]).0 == s && s_overlaps(
                    n_items(*n)[j].1,
                    *q,
                )) implies out@.contains(s) by {
                if !old(out)@.contains(s) {
                    let j = choose|j: int|
                        0 <= j < n_items(*n).len() && (#[trigger] n_items(*n)[j]).0 == s
                            && s_overlaps(n_items(*n)[j].1, *q);
                    assert(s_covers(n.bbox, n_items(*n)[j].1));
                    assert(false);
                }
            }
        }
        return ;
    }
    match &n.kind {
        BvhKind::Leaf(v) => {
            let mut i: usize = 0;
            while i < v.len()
                invariant
                    i <= v@.len(),
                    out@.no_duplicates(),
                    forall|s: usize|
                        out@.contains(s) <==> (old(out)@.contains(s) || exists|j: int|
                            0 <= j < i && (#[trigger] v@[j]).0 == s && s_overlaps(v@[j].1, *q)),
                decreases v@.len() - i,
            {
                let ghost out0 = out@;
                let it = v[i];
                if !it.1.intersect(q).is_empty() {
                    if !contains_slot(out, it.0) {
                        out.push(it.0);
                    }
                }
                proof {
                    assert forall|s: usize| out@.contains(s) implies (out0.contains(s) || (
                    v@[i as int].0 == s && s_overlaps(v@[i as int].1, *q))) by {
                        let c = choose|c: int| 0 <= c < out@.len() && out@[c] == s;
                        if c < out0.len() {
                            assert(out0[c] == s);
                        }
                    }
                    assert forall|s: usize| out0.contains(s) implies out@.contains(s) by {
                        let c = choose|c: int| 0 <= c < out0.len() && out0[c] == s;
                        assert(out@[c] == s);
                    }
                    if s_overlaps(v@[i as int].1, *q) {
                        assert(out@.contains(v@[i as int].0)) by {
                            if !out0.contains(v@[i as int].0) {
                                assert(out@.last() == v@[i as int].0);
                            }
                        }
                    }
                    assert forall|s: usize|
                        out@.contains(s) <==> (old(out)@.contains(s) || exists|j: int|
                            0 <= j < i + 1 && (#[trigger] v@[j]).0 == s && s_overlaps(
                                v@[j].1,
                                *q,
                            )) by {
                        if out@.contains(s) {
                            if !out0.contains(s) {
                                assert(v@[i as int].0 == s && s_overlaps(v@[i as int].1, *q));
                            } else {
                                if !old(out)@.contains(s) {
                                    let j = choose|j: int|
                                        0 <= j < i && (#[trigger] v@[j]).0 == s && s_overlaps(
                                            v@[j].1,
                                            *q,
                                        );
                                }
                            }
                        }
                        if old(out)@.contains(s) {
                            assert(out0.contains(s));
                            assert(out@.contains(s));
                        }
                        if exists|j: int|
                            0 <= j < i + 1 && (#[trigger] v@[j]).0 == s && s_overlaps(
                                v@[j].1,
                                *q,
                            ) {
                            let j = choose|j: int|
                                0 <= j < i + 1 && (#[trigger] v@[j]).0 == s && s_overlaps(
                                    v@[j].1,
                                    *q,
                                );
                            if j < i {
                                assert(out0.contains(s));
                                assert(out@.contains(s));
                            } else {
                                assert(out@.contains(v@[i as int].0));
                            }
                        }
                    }
                }
                i += 1;
            }
            proof {
                assert forall|s: usize| out@.contains(s) implies (old(out)@.contains(s) || exists|
                    j: int,
                |
                    0 <= j < n_items(*n).len() && (#[trigger] n_items(*n)[j]).0 == s && s_overlaps(
                        n_items(*n)[j].1,
                        *q,
                    )) by {
                    if !old(out)@.contains(s) {
                        let j = choose|j: int|
                            0 <= j < v@.len() && (#[trigger] v@[j]).0 == s && s_overlaps(
                                v@[j].1,
                                *q,
                            );
                        assert(n_items(*n)[j] == v@[j]);
                    }
                }
                assert forall|s: usize| (exists|j: int|
                    0 <= j < n_items(*n).len() && (#[trigger] n_items(*n)[j]).0 == s && s_overlaps(
                        n_items(*n)[j].1,
                        *q,
                    )) implies out@.contains(s) by {
                    let j = choose|j: int|
                        0 <= j < n_items(*n).len() && (#[trigger] n_items(*n)[j]).0 == s
                            && s_overlaps(n_items(*n)[j].1, *q);
                    assert(v@[j] == n_items(*n)[j]);
                }
            }
        },
        BvhKind::Internal { left, right } => {
            let ghost mid0 = out@;
            bvh_query_node(left, q, out);
            bvh_query_node(right, q, out);
            proof {
                let li = n_items(**left);
                let ri = n_items(**right);
                assert(n_items(*n) == li + ri);
                assert forall|s: usize| out@.contains(s) implies (old(out)@.contains(s) || exists|
                    j: int,
                |
                    0 <= j < n_items(*n).len() && (#[trigger] n_items(*n)[j]).0 == s && s_overlaps(
                        n_items(*n)[j].1,
                        *q,
                    )) by {
                    if !old(out)@.contains(s) {
                        if exists|j: int|
                            0 <= j < li.len() && (#[trigger] li[j]).0 == s && s_overlaps(
                                li[j].1,
                                *q,
                            ) {
                            let j = choose|j: int|
                                0 <= j < li.len() && (#[trigger] li[j]).0 == s && s_overlaps(
                                    li[j].1,
                                    *q,
                                );
                            assert(n_items(*n)[j] == li[j]);
                        } else {
                            let j = choose|j: int|
                                0 <= j < ri.len() && (#[trigger] ri[j]).0 == s && s_overlaps(
                                    ri[j].1,
                                    *q,
                                );
                            assert(n_items(*n)[li.len() + j] == ri[j]);
                        }
                    }
                }
                assert forall|s: usize| (exists|j: int|
                    0 <= j < n_items(*n).len() && (#[trigger] n_items(*n)[j]).0 == s && s_overlaps(
                        n_items(*n)[j].1,
                        *q,
                    )) implies out@.contains(s) by {
                    let j = choose|j: int|
                        0 <= j < n_items(*n).len() && (#[trigger] n_items(*n)[j]).0 == s
                            && s_overlaps(n_items(*n)[j].1, *q);
                    if j < li.len() {
                        assert(li[j] == n_items(*n)[j]);
                    } else {
                        assert(ri[j - li.len()] == n_items(*n)[j]);
                    }
                }
            }
        },
    }
}

impl Backend for BVH {
    closed spec fn contents(&self) -> Map<usize, Aabb2D> {
        s_slot_map(self.slots@)
    }

    closed spec fn wf(&self) -> bool {
        &&& self.max_leaf >= 3
        &&& match self.root {
            None => forall|i: int| 0 <= i < self.slots@.len() ==> self.slots@[i] is None,
            Some(rt) => {
                &&& n_wf(*rt)
                &&& forall|p: (usize, Aabb2D)|
                    #[trigger] n_items(*rt).contains(p) && !s_empty(p.1) ==> (p.0 as int)
                        < self.slots@.len() && self.slots@[p.0 as int] == Some(p.1)
                &&& forall|i: int|
                    0 <= i < self.slots@.len() && (#[trigger] self.slots@[i]) is Some && !s_empty(
                        self.slots@[i]->0,
                    ) ==> n_items(*rt).contains((i as usize, self.slots@[i]->0))
            },
        }
    }

    fn empty() -> (r: Self)
        ensures
            r.wf(),
            r.contents() == Map::<usize, Aabb2D>::empty(),
    {
        let r = BVH { max_leaf: 8, root: None, slots: Vec::new() };
        proof {
            assert(r.contents() =~= Map::<usize, Aabb2D>::empty());
        }
        r
    }

    fn insert(&mut self, slot: usize, aabb: Aabb2D) {
        proof {
            if (slot as int) < self.slots@.len() {
                assert(self.slots@[slot as int] is None);
            }
        }
        self.set_slot(slot, Some(aabb));
        let rt = self.root.take();
        match rt {
            None => {
                let mut one: Vec<(usize, Aabb2D)> = Vec::new();
                one.push((slot, aabb));
                let ghost onev = one@;
                let leaf = Box::new(BvhNode { bbox: aabb, kind: BvhKind::Leaf(one) });
                proof {
                    assert(n_items(*leaf) == onev);
                    assert(n_wf(*leaf));
                }
                self.root = Some(leaf);
                proof {
                    assert(n_items(*self.root->0) == onev);
                    assert forall|p: (usize, Aabb2D)|
                        #[trigger] n_items(*self.root->0).contains(p) && !s_empty(p.1) implies (p.0
                        as int) < self.slots@.len() && self.slots@[p.0 as int] == Some(p.1) by {
                        let j = choose|j: int| 0 <= j < onev.len() && onev[j] == p;
                        assert(p == (slot, aabb));
                    }
                    assert forall|i: int|
                        0 <= i < self.slots@.len() && (#[trigger] self.slots@[i]) is Some
                            && !s_empty(self.slots@[i]->0) implies n_items(*self.root->0).contains(
                        (i as usize, self.slots@[i]->0),
                    ) by {
                        if i != slot {
                            if i < old(self).slots@.len() {
                                assert(old(self).slots@[i] is None);
                            }
                            assert(false);
                        } else {
                            assert(onev[0] == (slot, aabb));
                        }
                    }
                    assert(self.contents() =~= old(self).contents().insert(slot, aabb));
                    assert(self.wf());
                }
            },
            Some(rtb) => {
                let ghost rt0 = *rtb;
                proof {
                    assert(old(self).root == Some(rtb));
                    assert(rt0 == *old(self).root->0);
                }
                let nr = bvh_insert_node(rtb, slot, aabb, self.max_leaf);
                self.root = Some(nr);
                proof {
                    let items0 = n_items(rt0);
                    let items1 = n_items(*self.root->0);
                    assert forall|p: (usize, Aabb2D)|
                        #[trigger] items1.contains(p) && !s_empty(p.1) implies (p.0 as int)
                        < self.slots@.len() && self.slots@[p.0 as int] == Some(p.1) by {
                        if p == (slot, aabb) {
                        } else {
                            assert(items0.contains(p));
                            assert(old(self).slots@[p.0 as int] == Some(p.1));
                        }
                    }
                    assert forall|i: int|
                        0 <= i < self.slots@.len() && (#[trigger] self.slots@[i]) is Some
                            && !s_empty(self.slots@[i]->0) implies items1.contains(
                        (i as usize, self.slots@[i]->0),
                    ) by {
                        if i == slot {
                        } else {
                            assert(old(self).slots@[i] == self.slots@[i]);
                            assert(items0.contains((i as usize, self.slots@[i]->0)));
                        }
                    }
                    assert(self.contents() =~= old(self).contents().insert(slot, aabb));
                    assert(self.wf());
                }
            },
        }
    }

    fn update(&mut self, slot: usize, aabb: Aabb2D) {
        self.remove(slot);
        self.insert(slot, aabb);
        proof {
            assert(self.contents() =~= old(self).contents().insert(slot, aabb));
        }
    }

    fn remove(&mut self, slot: usize) {
        proof {
            assert(self.contents().dom().contains(slot));
            assert((slot as int) < self.slots@.len() && self.slots@[slot as int] is Some);
        }
        let old_b = match &self.slots[slot] {
            Some(b) => *b,
            None => Aabb2D { min_x: 0, min_y: 0, max_x: 0, max_y: 0 },
        };
        let rt = self.root.take();
        match rt {
            None => {
                proof {
                    assert(false);
                }
            },
            Some(rtb) => {
                let ghost rt0 = *rtb;
                proof {
                    assert(old(self).root == Some(rtb));
                    assert(rt0 == *old(self).root->0);
                }
                let (nr, _) = bvh_remove_node(rtb, slot, &old_b);
                let ghost newtree = *nr;
                self.root = Some(nr);
                self.slots[slot] = None;
                proof {
                    let items1 = n_items(*self.root->0);
                    assert(items1 == n_items(newtree));
                    assert forall|p: (usize, Aabb2D)|
                        #[trigger] items1.contains(p) && !s_empty(p.1) implies (p.0 as int)
                        < self.slots@.len() && self.slots@[p.0 as int] == Some(p.1) by {
                        assert(n_items(newtree).contains(p));
                        assert(n_items(rt0).contains(p));
                        assert(n_items(*old(self).root->0).contains(p));
                        if p.0 == slot {
                            assert(old(self).slots@[slot as int] == Some(p.1));
                            assert(p.1 == old_b);
                            assert(s_overlaps(p.1, old_b));
                            assert(false);
                        } else {
                            assert(old(self).slots@[p.0 as int] == Some(p.1));
                        }
                    }
                    assert forall|i: int|
                        0 <= i < self.slots@.len() && (#[trigger] self.slots@[i]) is Some
                            && !s_empty(self.slots@[i]->0) implies items1.contains(
                        (i as usize, self.slots@[i]->0),
                    ) by {
                        assert(i != slot);
                        vstd::std_specs::vec::axiom_spec_len(&self.slots);
                        assert(self.slots@.len() <= usize::MAX);
                        assert(old(self).slots@[i] == self.slots@[i]);
                        assert(old(self).slots@[i] is Some && !s_empty(old(self).slots@[i]->0));
                        assert(n_items(*old(self).root->0).contains(
                            (i as usize, old(self).slots@[i]->0),
                        ));
                        assert(n_items(rt0).contains((i as usize, self.slots@[i]->0)));
                        let pr = (i as usize, self.slots@[i]->0);
                        assert(pr.0 as int == i);
                        assert(pr.0 != slot);
                        assert(n_items(newtree).contains(pr));
                        assert(items1.contains(pr));
                    }
                    assert(self.contents() =~= old(self).contents().remove(slot));
                    assert(self.wf());
                }
            },
        }
    }

    fn clear(&mut self) {
        self.root = None;
        self.slots.clear();
        proof {
            assert(self.contents() =~= Map::<usize, Aabb2D>::empty());
        }
    }

    fn query_point(&self, x: i64, y: i64) -> (r: Vec<usize>) {
        let qb = Aabb2D { min_x: x, min_y: y, max_x: x, max_y: y };
        let mut out: Vec<usize> = Vec::new();
        match &self.root {
            None => {
                proof {
                    assert(s_point_candidates(self.contents(), x as int, y as int, out@));
                }
            },
            Some(rt) => {
                bvh_query_node(rt, &qb, &mut out);
                proof {
                    let items = n_items(**rt);
                    assert(items == n_items(*self.root->0));
                    assert forall|j: int| 0 <= j < out@.len() implies self.contents().dom(
                    ).contains(#[trigger] out@[j]) by {
                        let s = out@[j];
                        assert(out@.contains(s));
                        let q = choose|q: int|
                            0 <= q < items.len() && (#[trigger] items[q]).0 == s && s_overlaps(
                                items[q].1,
                                qb,
                            );
                        assert(items.contains(items[q]));
                        assert(!s_empty(items[q].1));
                        assert(self.slots@[s as int] == Some(items[q].1));
                    }
                    assert forall|s: usize|
                        self.contents().dom().contains(s) && crate::geom::s_contains_point(
                            #[trigger] self.contents()[s],
                            x as int,
                            y as int,
                        ) implies out@.contains(s) by {
                        let b = self.slots@[s as int]->0;
                        assert(!s_empty(b));
                        assert(s_overlaps(b, qb));
                        assert(items.contains((s, b)));
                        let j = choose|j: int| 0 <= j < items.len() && items[j] == (s, b);
                    }
                }
            },
        }
        out
    }

    fn query_rect(&self, rect: Aabb2D) -> (r: Vec<usize>) {
        let mut out: Vec<usize> = Vec::new();
        match &self.root {
            None => {
                proof {
                    assert(s_rect_candidates(self.contents(), rect, out@));
                }
            },
            Some(rt) => {
                bvh_query_node(rt, &rect, &mut out);
                proof {
                    let items = n_items(**rt);
                    assert(items == n_items(*self.root->0));
                    assert forall|j: int| 0 <= j < out@.len() implies self.contents().dom(
                    ).contains(#[trigger] out@[j]) by {
                        let s = out@[j];
                        assert(out@.contains(s));
                        let q = choose|q: int|
                            0 <= q < items.len() && (#[trigger] items[q]).0 == s && s_overlaps(
                                items[q].1,
                                rect,
                            );
                        assert(items.contains(items[q]));
                        assert(!s_empty(items[q].1));
                        assert(self.slots@[s as int] == Some(items[q].1));
                    }
                    assert forall|s: usize|
                        self.contents().dom().contains(s) && s_overlaps(
                            #[trigger] self.contents()[s],
                            rect,
                        ) implies out@.contains(s) by {
                        let b = self.slots@[s as int]->0;
                        assert(!s_empty(b));
                        assert(items.contains((s, b)));
                        let j = choose|j: int| 0 <= j < items.len() && items[j] == (s, b);
                    }
                }
            },
        }
        out
    }
}


} // verus!
