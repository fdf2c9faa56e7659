//! R-tree backend with SAH-like splits: nodes hold up to `max_children`
//! children, inserts descend into the child whose box grows least, overflow
//! splits sort by centroid and take the cheapest prefix/suffix cut, updates
//! first try an in-place rewrite along the old box, and a bulk builder packs
//! sorted slices into leaves and promotes them level by level.

use vstd::prelude::*;

use crate::backend::{s_point_candidates, s_rect_candidates, Backend};
use crate::flat::s_slot_map;
use crate::geom::{
    area, sat_add, sat_mul, s_covers, s_empty, s_overlaps, s_union, union_aabb, Aabb2D,
};

verus! {

/// A child of an R-tree node: a subtree or a stored item.
pub(crate) enum RChild {
    Node(Box<RNode>),
    Item { slot: usize, bbox: Aabb2D },
}

/// One node: a bounding box, whether it is a leaf, and its children.
pub(crate) struct RNode {
    pub(crate) bbox: Aabb2D,
    pub(crate) leaf: bool,
    pub(crate) children: Vec<RChild>,
}

/// The items below one child.
pub(crate) open spec fn rc_items(c: RChild) -> Seq<(usize, Aabb2D)>
    decreases c,
{
    match c {
        RChild::Node(b) => rl_items(b.children@),
        RChild::Item { slot, bbox } => seq![(slot, bbox)],
    }
}

/// The items below a list of children, in list order.
pub(crate) open spec fn rl_items(cs: Seq<RChild>) -> Seq<(usize, Aabb2D)>
    decreases cs,
{
    if cs.len() == 0 {
        Seq::empty()
    } else {
        rl_items(cs.drop_last()) + rc_items(cs.last())
    }
}

/// The items below a node.
pub(crate) open spec fn r_items(n: RNode) -> Seq<(usize, Aabb2D)> {
    rl_items(n.children@)
}

/// Well-formedness of one child with respect to its parent: a leaf holds
/// items, an internal node holds well-formed subtrees, and the parent box
/// covers the child.
pub(crate) open spec fn rc_wf(c: RChild, leaf: bool, outer: Aabb2D) -> bool
    decreases c,
{
    match c {
        RChild::Node(b) => !leaf && s_covers(outer, b.bbox) && b.children@.len() >= 1 && rl_wf(
            b.children@,
            b.leaf,
            b.bbox,
        ),
        RChild::Item { slot, bbox } => leaf && s_covers(outer, bbox),
    }
}

/// Well-formedness of a child list.
pub(crate) open spec fn rl_wf(cs: Seq<RChild>, leaf: bool, outer: Aabb2D) -> bool
    decreases cs,
{
    if cs.len() == 0 {
        true
    } else {
        rl_wf(cs.drop_last(), leaf, outer) && rc_wf(cs.last(), leaf, outer)
    }
}

/// Well-formedness of a node.
pub(crate) open spec fn r_wf(n: RNode) -> bool {
    rl_wf(n.children@, n.leaf, n.bbox)
}

/// Membership below a child list splits over its children.
pub(crate) proof fn lemma_rl_membership(cs: Seq<RChild>)
    ensures
        forall|p: (usize, Aabb2D)|
            #[trigger] rl_items(cs).contains(p) <==> exists|i: int|
                0 <= i < cs.len() && #[trigger] rc_items(cs[i]).contains(p),
    decreases cs,
{
    if cs.len() > 0 {
        lemma_rl_membership(cs.drop_last());
        assert forall|p: (usize, Aabb2D)| #[trigger] rl_items(cs).contains(p) implies exists|
            i: int,
        | 0 <= i < cs.len() && #[trigger] rc_items(cs[i]).contains(p) by {
            let j = choose|j: int| 0 <= j < rl_items(cs).len() && rl_items(cs)[j] == p;
            let rest = rl_items(cs.drop_last());
            if j < rest.len() {
                assert(rest[j] == p);
                assert(rest.contains(p));
                let i = choose|i: int|
                    0 <= i < cs.drop_last().len() && #[trigger] rc_items(
                        cs.drop_last()[i],
                    ).contains(p);
                assert(cs[i] == cs.drop_last()[i]);
                assert(rc_items(cs[i]).contains(p));
            } else {
                assert(rc_items(cs.last())[j - rest.len()] == p);
                assert(rc_items(cs[cs.len() - 1]).contains(p));
            }
        }
        assert forall|p: (usize, Aabb2D)|
            (exists|i: int| 0 <= i < cs.len() && #[trigger] rc_items(cs[i]).contains(p)) implies
            #[trigger] rl_items(cs).contains(p) by {
            let i = choose|i: int| 0 <= i < cs.len() && #[trigger] rc_items(cs[i]).contains(p);
            let rest = rl_items(cs.drop_last());
            if i < cs.len() - 1 {
                assert(cs.drop_last()[i] == cs[i]);
                assert(rl_items(cs.drop_last()).contains(p));
                let j = choose|j: int| 0 <= j < rest.len() && rest[j] == p;
                assert(rl_items(cs)[j] == p);
            } else {
                let j = choose|j: int|
                    0 <= j < rc_items(cs.last()).len() && rc_items(cs.last())[j] == p;
                assert(rl_items(cs)[rest.len() + j] == p);
            }
        }
    }
}

/// Well-formedness of a list gives well-formedness of each child.
pub(crate) proof fn lemma_rl_wf_each(cs: Seq<RChild>, leaf: bool, outer: Aabb2D)
    requires
        rl_wf(cs, leaf, outer),
    ensures
        forall|i: int| 0 <= i < cs.len() ==> rc_wf(#[trigger] cs[i], leaf, outer),
    decreases cs,
{
    if cs.len() > 0 {
        lemma_rl_wf_each(cs.drop_last(), leaf, outer);
        assert forall|i: int| 0 <= i < cs.len() implies rc_wf(#[trigger] cs[i], leaf, outer) by {
            if i < cs.len() - 1 {
                assert(cs.drop_last()[i] == cs[i]);
            }
        }
    }
}

/// Each child well-formed gives a well-formed list.
pub(crate) proof fn lemma_rl_wf_all(cs: Seq<RChild>, leaf: bool, outer: Aabb2D)
    requires
        forall|i: int| 0 <= i < cs.len() ==> rc_wf(#[trigger] cs[i], leaf, outer),
    ensures
        rl_wf(cs, leaf, outer),
    decreases cs,
{
    if cs.len() > 0 {
        assert forall|i: int| 0 <= i < cs.drop_last().len() implies rc_wf(
            #[trigger] cs.drop_last()[i],
            leaf,
            outer,
        ) by {
            assert(cs.drop_last()[i] == cs[i]);
        }
        lemma_rl_wf_all(cs.drop_last(), leaf, outer);
        assert(cs.last() == cs[cs.len() - 1]);
    }
}

/// A well-formed node's box covers every item below it.
pub(crate) proof fn lemma_r_covers_items(cs: Seq<RChild>, leaf: bool, outer: Aabb2D)
    requires
        rl_wf(cs, leaf, outer),
    ensures
        forall|j: int|
            0 <= j < rl_items(cs).len() ==> s_covers(outer, (#[trigger] rl_items(cs)[j]).1),
    decreases cs,
{
    lemma_rl_membership(cs);
    lemma_rl_wf_each(cs, leaf, outer);
    assert forall|j: int| 0 <= j < rl_items(cs).len() implies s_covers(
        outer,
        (#[trigger] rl_items(cs)[j]).1,
    ) by {
        let p = rl_items(cs)[j];
        assert(rl_items(cs).contains(p));
        let i = choose|i: int| 0 <= i < cs.len() && #[trigger] rc_items(cs[i]).contains(p);
        lemma_rc_covers_item(cs[i], leaf, outer, p);
    }
}

/// A well-formed child's covering box covers each of its items.
pub(crate) proof fn lemma_rc_covers_item(c: RChild, leaf: bool, outer: Aabb2D, p: (usize, Aabb2D))
    requires
        rc_wf(c, leaf, outer),
        rc_items(c).contains(p),
    ensures
        s_covers(outer, p.1),
    decreases c,
{
    match c {
        RChild::Node(b) => {
            lemma_rl_membership(b.children@);
            assert(rc_items(c) == rl_items(b.children@));
            assert(rl_items(b.children@).contains(p));
            let i = choose|i: int|
                0 <= i < b.children@.len() && #[trigger] rc_items(b.children@[i]).contains(p);
            assert(0 <= i < b.children@.len());
            assert(rl_wf(b.children@, b.leaf, b.bbox));
            lemma_rl_wf_each(b.children@, b.leaf, b.bbox);
            assert(rc_wf(b.children@[i], b.leaf, b.bbox));
            assert(decreases_to!(c => b));
            assert(decreases_to!(b => b.children));
            assert(decreases_to!(b.children => b.children@));
            assert(decreases_to!(b.children@ => b.children@[i]));
            assert(decreases_to!(c => b.children@[i]));
            lemma_rc_covers_item(b.children@[i], b.leaf, b.bbox, p);
            assert(s_covers(b.bbox, p.1));
        },
        RChild::Item { slot, bbox } => {
            assert(rc_items(c)[0] == (slot, bbox));
        },
    }
}

/// The box of a child: a subtree's box or an item's box.
fn child_bbox(c: &RChild) -> (r: Aabb2D)
    ensures
        r == match *c {
            RChild::Node(b) => b.bbox,
            RChild::Item { slot, bbox } => bbox,
        },
{
    match c {
        RChild::Node(b) => b.bbox,
        RChild::Item { bbox, .. } => *bbox,
    }
}

/// The bounding box of a child list: the running union of the children's
/// boxes, or a degenerate zero box for an empty list.
fn node_bbox(children: &Vec<RChild>) -> (r: Aabb2D)
    ensures
        forall|i: int|
            0 <= i < children@.len() ==> s_covers(
                r,
                match #[trigger] children@[i] {
                    RChild::Node(b) => b.bbox,
                    RChild::Item { slot, bbox } => bbox,
                },
            ),
        forall|outer: Aabb2D|
            children@.len() > 0 && (forall|i: int|
                0 <= i < children@.len() ==> s_covers(
                    outer,
                    match #[trigger] children@[i] {
                        RChild::Node(b) => b.bbox,
                        RChild::Item { slot, bbox } => bbox,
                    },
                )) ==> s_covers(outer, r),
{
    if children.len() == 0 {
        return Aabb2D { min_x: 0, min_y: 0, max_x: 0, max_y: 0 };
    }
    let mut acc = child_bbox(&children[0]);
    let mut i: usize = 1;
    while i < children.len()
        invariant
            1 <= i <= children@.len(),
            forall|j: int|
                0 <= j < i ==> s_covers(
                    acc,
                    match #[trigger] children@[j] {
                        RChild::Node(b) => b.bbox,
                        RChild::Item { slot, bbox } => bbox,
                    },
                ),
            forall|outer: Aabb2D|
                (forall|j: int|
                    0 <= j < i ==> s_covers(
                        outer,
                        match #[trigger] children@[j] {
                            RChild::Node(b) => b.bbox,
                            RChild::Item { slot, bbox } => bbox,
                        },
                    )) ==> s_covers(outer, acc),
        decreases children@.len() - i,
    {
        let ghost acc0 = acc;
        acc = union_aabb(acc, child_bbox(&children[i]));
        proof {
            assert forall|outer: Aabb2D|
                (forall|j: int|
                    0 <= j < i + 1 ==> s_covers(
                        outer,
                        match #[trigger] children@[j] {
                            RChild::Node(b) => b.bbox,
                            RChild::Item { slot, bbox } => bbox,
                        },
                    )) implies s_covers(outer, acc) by {
                assert(forall|j: int|
                    0 <= j < i ==> s_covers(
                        outer,
                        match #[trigger] children@[j] {
                            RChild::Node(b) => b.bbox,
                            RChild::Item { slot, bbox } => bbox,
                        },
                    ));
                assert(s_covers(outer, acc0));
            }
        }
        i += 1;
    }
    acc
}

/// A well-formed child list whose boxes a box covers is still well-formed
/// under that box.
pub(crate) proof fn lemma_rl_wf_widen(cs: Seq<RChild>, leaf: bool, inner: Aabb2D, outer: Aabb2D)
    requires
        rl_wf(cs, leaf, inner),
        s_covers(outer, inner),
    ensures
        rl_wf(cs, leaf, outer),
    decreases cs,
{
    if cs.len() > 0 {
        lemma_rl_wf_widen(cs.drop_last(), leaf, inner, outer);
        assert(rc_wf(cs.last(), leaf, inner));
        assert(rc_wf(cs.last(), leaf, outer)) by {
            match cs.last() {
                RChild::Node(b) => {
                    assert(s_covers(inner, b.bbox));
                },
                RChild::Item { slot, bbox } => {
                    assert(s_covers(inner, bbox));
                },
            }
        }
    }
}

/// Widening the covering box preserves a child's well-formedness.
pub(crate) proof fn lemma_rc_wf_widen(c: RChild, leaf: bool, inner: Aabb2D, outer: Aabb2D)
    requires
        rc_wf(c, leaf, inner),
        s_covers(outer, inner),
    ensures
        rc_wf(c, leaf, outer),
{
}

/// Items below two lists that together hold the same children as one list
/// are the same items.
pub(crate) proof fn lemma_split_items(l: Seq<RChild>, r: Seq<RChild>, orig: Seq<RChild>)
    requires
        forall|c: RChild| (l.contains(c) || r.contains(c)) <==> orig.contains(c),
    ensures
        forall|p: (usize, Aabb2D)|
            (rl_items(l).contains(p) || rl_items(r).contains(p)) <==> rl_items(orig).contains(p),
{
    lemma_rl_membership(l);
    lemma_rl_membership(r);
    lemma_rl_membership(orig);
    assert forall|p: (usize, Aabb2D)|
        (rl_items(l).contains(p) || rl_items(r).contains(p)) implies rl_items(orig).contains(
        p,
    ) by {
        if rl_items(l).contains(p) {
            let i = choose|i: int| 0 <= i < l.len() && #[trigger] rc_items(l[i]).contains(p);
            assert(l.contains(l[i]));
            assert(orig.contains(l[i]));
            let j = choose|j: int| 0 <= j < orig.len() && orig[j] == l[i];
            assert(rc_items(orig[j]).contains(p));
        } else {
            let i = choose|i: int| 0 <= i < r.len() && #[trigger] rc_items(r[i]).contains(p);
            assert(r.contains(r[i]));
            assert(orig.contains(r[i]));
            let j = choose|j: int| 0 <= j < orig.len() && orig[j] == r[i];
            assert(rc_items(orig[j]).contains(p));
        }
    }
    assert forall|p: (usize, Aabb2D)| rl_items(orig).contains(p) implies (rl_items(l).contains(p)
        || rl_items(r).contains(p)) by {
        let i = choose|i: int| 0 <= i < orig.len() && #[trigger] rc_items(orig[i]).contains(p);
        assert(orig.contains(orig[i]));
        if l.contains(orig[i]) {
            let j = choose|j: int| 0 <= j < l.len() && l[j] == orig[i];
            assert(rc_items(l[j]).contains(p));
        } else {
            assert(r.contains(orig[i]));
            let j = choose|j: int| 0 <= j < r.len() && r[j] == orig[i];
            assert(rc_items(r[j]).contains(p));
        }
    }
}

/// The box a child presents to its parent.
pub(crate) open spec fn s_child_bbox(c: RChild) -> Aabb2D {
    match c {
        RChild::Node(b) => b.bbox,
        RChild::Item { slot, bbox } => bbox,
    }
}

/// Floor midpoint of a box along an axis: its centroid coordinate.
pub(crate) open spec fn s_centroid(b: Aabb2D, axis_x: bool) -> int {
    if axis_x {
        (b.min_x as int + b.max_x as int) / 2
    } else {
        (b.min_y as int + b.max_y as int) / 2
    }
}

/// The children come in non-decreasing centroid order along the axis.
pub(crate) open spec fn s_sorted_by_centroid(v: Seq<RChild>, axis_x: bool) -> bool {
    forall|a: int, b: int|
        0 <= a < b < v.len() ==> s_centroid(s_child_bbox(#[trigger] v[a]), axis_x) <= s_centroid(
            s_child_bbox(#[trigger] v[b]),
            axis_x,
        )
}

/// Bounding box of the first `k` children (`1 <= k <= |v|`), folded left.
pub(crate) open spec fn s_prefix_bbox(v: Seq<RChild>, k: int) -> Aabb2D
    decreases k,
{
    if k <= 1 {
        s_child_bbox(v[0])
    } else {
        s_union(s_prefix_bbox(v, k - 1), s_child_bbox(v[k - 1]))
    }
}

/// Bounding box of the children from `k` on (`0 <= k < |v|`), folded from
/// the right end.
pub(crate) open spec fn s_suffix_bbox(v: Seq<RChild>, k: int) -> Aabb2D
    decreases v.len() - k,
{
    if k >= v.len() - 1 {
        s_child_bbox(v[v.len() - 1])
    } else {
        s_union(s_suffix_bbox(v, k + 1), s_child_bbox(v[k]))
    }
}

/// The SAH cost of cutting a sorted child list before index `k`:
/// `area(prefix box) * k + area(suffix box) * (n - k)` in the widened,
/// saturating accumulator.
pub(crate) open spec fn s_cut_cost(v: Seq<RChild>, k: int) -> int {
    crate::geom::s_sat_add(
        crate::geom::s_sat_mul(crate::geom::s_area(s_prefix_bbox(v, k)), k),
        crate::geom::s_sat_mul(crate::geom::s_area(s_suffix_bbox(v, k)), v.len() - k),
    )
}

/// Centroid of a box along an axis.
fn r_centroid(b: &Aabb2D, axis_x: bool) -> (r: i64)
    ensures
        r as int == s_centroid(*b, axis_x),
{
    if axis_x {
        crate::geom::mid_i64(b.min_x, b.max_x)
    } else {
        crate::geom::mid_i64(b.min_y, b.max_y)
    }
}

/// Sort children by the centroid of their box along an axis (selection of
/// the minimum on each pass). A permutation: the same children come back,
/// with multiplicity, in non-decreasing centroid order.
fn sort_children(children: Vec<RChild>, axis_x: bool) -> (r: Vec<RChild>)
    ensures
        r@.len() == children@.len(),
        r@.to_multiset() == children@.to_multiset(),
        forall|c: RChild| r@.contains(c) <==> children@.contains(c),
        s_sorted_by_centroid(r@, axis_x),
{
    broadcast use vstd::seq_lib::group_to_multiset_ensures;

    let mut src = children;
    let mut out: Vec<RChild> = Vec::new();
    let ghost all = src@;
    while src.len() > 0
        invariant
            out@.len() + src@.len() == all.len(),
            out@.to_multiset().add(src@.to_multiset()) == all.to_multiset(),
            s_sorted_by_centroid(out@, axis_x),
            forall|a: int, b: int|
                0 <= a < out@.len() && 0 <= b < src@.len() ==> s_centroid(
                    s_child_bbox(#[trigger] out@[a]),
                    axis_x,
                ) <= s_centroid(s_child_bbox(#[trigger] src@[b]), axis_x),
        decreases src@.len(),
    {
        let mut m: usize = 0;
        let mut j: usize = 1;
        let mut mc = r_centroid(&child_bbox(&src[0]), axis_x);
        while j < src.len()
            invariant
                src@.len() > 0,
                m < src@.len(),
                j <= src@.len(),
                mc as int == s_centroid(s_child_bbox(src@[m as int]), axis_x),
                forall|q: int|
                    0 <= q < j ==> mc as int <= s_centroid(
                        s_child_bbox(#[trigger] src@[q]),
                        axis_x,
                    ),
            decreases src@.len() - j,
        {
            let c = r_centroid(&child_bbox(&src[j]), axis_x);
            if c < mc {
                m = j;
                mc = c;
            }
            j += 1;
        }
        let ghost src_before = src@;
        let ghost out_before = out@;
        let picked = src.remove(m);
        out.push(picked);
        proof {
            assert(src_before[m as int] == picked);
            assert(out@ == out_before.push(picked));
            assert(src@ == src_before.remove(m as int));
            vstd::seq_lib::to_multiset_build(out_before, picked);
            vstd::seq_lib::to_multiset_remove(src_before, m as int);
            assert(out@.to_multiset() =~= out_before.to_multiset().insert(picked));
            assert(src@.to_multiset() =~= src_before.to_multiset().remove(picked));
            assert(out@.to_multiset().add(src@.to_multiset()) =~= all.to_multiset()) by {
                vstd::seq_lib::to_multiset_contains(src_before, picked);
                assert(src_before.contains(picked));
                assert(src_before.to_multiset().count(picked) > 0);
            }
            assert forall|a: int, b: int|
                0 <= a < out@.len() && 0 <= b < src@.len() implies s_centroid(
                s_child_bbox(#[trigger] out@[a]),
                axis_x,
            ) <= s_centroid(s_child_bbox(#[trigger] src@[b]), axis_x) by {
                let sb = if b < m { src_before[b] } else { src_before[b + 1] };
                assert(src@[b] == sb);
                if a < out_before.len() {
                    assert(out@[a] == out_before[a]);
                } else {
                    assert(out@[a] == picked);
                }
            }
            assert(s_sorted_by_centroid(out@, axis_x)) by {
                assert forall|a: int, b: int| 0 <= a < b < out@.len() implies s_centroid(
                    s_child_bbox(#[trigger] out@[a]),
                    axis_x,
                ) <= s_centroid(s_child_bbox(#[trigger] out@[b]), axis_x) by {
                    if b < out_before.len() {
                        assert(out@[a] == out_before[a] && out@[b] == out_before[b]);
                    } else {
                        assert(out@[b] == picked);
                        assert(out@[a] == out_before[a]);
                    }
                }
            }
        }
    }
    proof {
        assert(out@.to_multiset() == all.to_multiset());
        assert forall|c: RChild| out@.contains(c) <==> all.contains(c) by {
            assert(out@.contains(c) <==> out@.to_multiset().count(c) > 0);
            assert(all.contains(c) <==> all.to_multiset().count(c) > 0);
        }
    }
    out
}

/// The best SAH cut of a sorted child list: precompute prefix and suffix
/// boxes and take the split point minimising
/// `area(left) * |left| + area(right) * |right|` with the widened,
/// saturating accumulator.
fn best_cut(v: &Vec<RChild>, min_children: usize) -> (r: (i128, usize))
    requires
        min_children >= 1,
        2 * min_children <= v@.len(),
    ensures
        min_children <= r.1,
        r.1 + min_children <= v@.len(),
        r.0 as int == s_cut_cost(v@, r.1 as int),
        forall|k: int|
            min_children <= k <= v@.len() - min_children ==> r.0 as int <= s_cut_cost(v@, k),
{
    let n = v.len();
    let mut prefix: Vec<Aabb2D> = Vec::new();
    let mut i: usize = 0;
    while i < n
        invariant
            n == v@.len(),
            i <= n,
            n >= 2,
            prefix@.len() == i,
            forall|q: int| 0 <= q < i ==> #[trigger] prefix@[q] == s_prefix_bbox(v@, q + 1),
        decreases n - i,
    {
        if i == 0 {
            prefix.push(child_bbox(&v[0]));
        } else {
            let prev = prefix[i - 1];
            prefix.push(union_aabb(prev, child_bbox(&v[i])));
        }
        i += 1;
    }
    let mut suffix_rev: Vec<Aabb2D> = Vec::new();
    let mut i: usize = 0;
    while i < n
        invariant
            n == v@.len(),
            i <= n,
            n >= 2,
            suffix_rev@.len() == i,
            forall|q: int|
                0 <= q < i ==> #[trigger] suffix_rev@[q] == s_suffix_bbox(v@, n - 1 - q),
        decreases n - i,
    {
        if i == 0 {
            suffix_rev.push(child_bbox(&v[n - 1]));
        } else {
            let prev = suffix_rev[i - 1];
            suffix_rev.push(union_aabb(prev, child_bbox(&v[n - 1 - i])));
        }
        i += 1;
    }
    let mut best_cost: i128 = 0;
    let mut best_k: usize = min_children;
    let mut have = false;
    let mut k: usize = min_children;
    while k <= n - min_children
        invariant
            min_children >= 1,
            2 * min_children <= n,
            n == v@.len(),
            prefix@.len() == n,
            suffix_rev@.len() == n,
            forall|q: int| 0 <= q < n ==> #[trigger] prefix@[q] == s_prefix_bbox(v@, q + 1),
            forall|q: int|
                0 <= q < n ==> #[trigger] suffix_rev@[q] == s_suffix_bbox(v@, n - 1 - q),
            min_children <= k,
            k <= n - min_children + 1,
            min_children <= best_k,
            best_k + min_children <= n,
            have == (k > min_children),
            have ==> best_cost as int == s_cut_cost(v@, best_k as int),
            have ==> forall|q: int|
                min_children <= q < k ==> best_cost as int <= s_cut_cost(v@, q),
        decreases n - min_children + 1 - k,
    {
        let lb = prefix[k - 1];
        let rb = suffix_rev[n - 1 - k];
        let la = area(&lb);
        let ra = area(&rb);
        proof {
            crate::geom::lemma_area_bounds(lb);
            crate::geom::lemma_area_bounds(rb);
            assert(lb == s_prefix_bbox(v@, k as int));
            assert(rb == s_suffix_bbox(v@, k as int));
        }
        let cost = sat_add(sat_mul(la, k as i128), sat_mul(ra, (n - k) as i128));
        proof {
            assert(cost as int == s_cut_cost(v@, k as int));
        }
        if !have || cost < best_cost {
            best_cost = cost;
            best_k = k;
            have = true;
        }
        k += 1;
    }
    (best_cost, best_k)
}

/// Split a child list at an index, keeping the order: the first half is
/// the first `k` children, the second half is the rest.
fn split_at(v: Vec<RChild>, k: usize) -> (r: (Vec<RChild>, Vec<RChild>))
    requires
        1 <= k,
        (k as int) < v@.len(),
    ensures
        r.0@ == v@.subrange(0, k as int),
        r.1@ == v@.subrange(k as int, v@.len() as int),
        r.0@ + r.1@ == v@,
        forall|c: RChild| (r.0@.contains(c) || r.1@.contains(c)) <==> v@.contains(c),
{
    let ghost orig = v@;
    let mut left = v;
    let right = left.split_off(k);
    proof {
        assert(left@ + right@ =~= orig);
        assert forall|c: RChild| (left@.contains(c) || right@.contains(c)) <==> orig.contains(
            c,
        ) by {
            if left@.contains(c) {
                let q = choose|q: int| 0 <= q < left@.len() && left@[q] == c;
                assert(orig[q] == c);
            }
            if right@.contains(c) {
                let q = choose|q: int| 0 <= q < right@.len() && right@[q] == c;
                assert(orig[k + q] == c);
            }
            if orig.contains(c) {
                let j = choose|j: int| 0 <= j < orig.len() && orig[j] == c;
                if j < k {
                    assert(left@[j] == c);
                } else {
                    assert(right@[j - k] == c);
                }
            }
        }
    }
    (left, right)
}

/// The shared SAH-like split: evaluate the best cut along each centroid
/// axis, re-sort along the cheaper one, and cut the sorted list at the
/// point minimising `area(left) * |left| + area(right) * |right|`. The two
/// halves, concatenated, are a permutation of the input in centroid order
/// along the chosen axis, and the cut point is cost-minimal for that
/// order; both halves hold at least `min_children` children.
pub(crate) fn split_children(children: Vec<RChild>, min_children: usize) -> (r: (
    Vec<RChild>,
    Vec<RChild>,
))
    requires
        min_children >= 1,
        2 * min_children <= children@.len(),
    ensures
        r.0@.len() + r.1@.len() == children@.len(),
        r.0@.len() >= min_children,
        r.1@.len() >= min_children,
        forall|c: RChild| (r.0@.contains(c) || r.1@.contains(c)) <==> children@.contains(c),
        (r.0@ + r.1@).to_multiset() == children@.to_multiset(),
        exists|axis_x: bool| #[trigger] s_sorted_by_centroid(r.0@ + r.1@, axis_x),
        forall|k: int|
            min_children <= k <= children@.len() - min_children ==> s_cut_cost(
                r.0@ + r.1@,
                r.0@.len() as int,
            ) <= #[trigger] s_cut_cost(r.0@ + r.1@, k),
{
    let ghost orig = children@;
    let n = children.len();
    let v0 = sort_children(children, true);
    let (cost_x, _) = best_cut(&v0, min_children);
    let v1 = sort_children(v0, false);
    let (cost_y, ky) = best_cut(&v1, min_children);
    if cost_x < cost_y {
        // the x order is cheaper: recover it and cut it at its own best
        // point, so the cut applied is the cut evaluated
        let v2 = sort_children(v1, true);
        let (_, kx) = best_cut(&v2, min_children);
        let ghost vv = v2@;
        let r = split_at(v2, kx);
        proof {
            assert(r.0@ + r.1@ == vv);
            assert(s_sorted_by_centroid(vv, true));
            assert(forall|k: int|
                min_children <= k <= vv.len() - min_children ==> s_cut_cost(vv, r.0@.len() as int)
                    <= #[trigger] s_cut_cost(vv, k));
        }
        r
    } else {
        let ghost vv = v1@;
        let r = split_at(v1, ky);
        proof {
            assert(r.0@ + r.1@ == vv);
            assert(s_sorted_by_centroid(vv, false));
            assert(forall|k: int|
                min_children <= k <= vv.len() - min_children ==> s_cut_cost(vv, r.0@.len() as int)
                    <= #[trigger] s_cut_cost(vv, k));
        }
        r
    }
}

/// Pick the child whose box grows least when extended by `bbox`.
fn choose_child(children: &Vec<RChild>, bbox: &Aabb2D) -> (r: usize)
    requires
        children@.len() > 0,
    ensures
        (r as int) < children@.len(),
{
    let mut best_idx: usize = 0;
    let mut best_cost: i128 = 0;
    let mut have = false;
    let mut i: usize = 0;
    while i < children.len()
        invariant
            i <= children@.len(),
            children@.len() > 0,
            (best_idx as int) < children@.len(),
        decreases children@.len() - i,
    {
        let cb = child_bbox(&children[i]);
        let u = union_aabb(cb, *bbox);
        proof {
            crate::geom::lemma_area_bounds(u);
            crate::geom::lemma_area_bounds(cb);
        }
        let cost = area(&u) - area(&cb);
        if !have || cost < best_cost {
            best_cost = cost;
            best_idx = i;
            have = true;
        }
        i += 1;
    }
    best_idx
}

/// A child stays well-formed under any box that covers its own.
pub(crate) proof fn lemma_rc_wf_rebase(c: RChild, leaf: bool, outer0: Aabb2D, outer1: Aabb2D)
    requires
        rc_wf(c, leaf, outer0),
        s_covers(
            outer1,
            match c {
                RChild::Node(b) => b.bbox,
                RChild::Item { slot, bbox } => bbox,
            },
        ),
    ensures
        rc_wf(c, leaf, outer1),
{
}

/// Insert an item below a node, descending into the child whose box grows
/// least; an overflowing node splits with the surface-area heuristic and
/// hands the new right sibling up. The results hold exactly the old items
/// plus the new one, within the union of the old box and the new item's.
pub(crate) fn r_insert_node(
    node: Box<RNode>,
    slot: usize,
    bbox: Aabb2D,
    maxc: usize,
    minc: usize,
) -> (r: (Box<RNode>, Option<Box<RNode>>))
    requires
        r_wf(*node),
        !node.leaf ==> node.children@.len() >= 1,
        minc >= 1,
        2 * minc <= maxc + 1,
    ensures
        r_wf(*r.0),
        r.0.children@.len() >= 1,
        !r.0.leaf ==> forall|i: int|
            0 <= i < r.0.children@.len() ==> rc_wf(#[trigger] r.0.children@[i], false, r.0.bbox),
        s_covers(s_union(node.bbox, bbox), r.0.bbox),
        match r.1 {
            Some(rn) => {
                &&& r_wf(*rn)
                &&& rn.children@.len() >= 1
                &&& s_covers(s_union(node.bbox, bbox), rn.bbox)
            },
            None => true,
        },
        forall|p: (usize, Aabb2D)|
            (#[trigger] r_items(*r.0).contains(p) || (r.1 is Some && r_items(*r.1->0).contains(p)))
                ==> (r_items(*node).contains(p) || p == (slot, bbox)),
        forall|p: (usize, Aabb2D)|
            r.1 is Some && #[trigger] r_items(*r.1->0).contains(p) ==> (r_items(*node).contains(p)
                || p == (slot, bbox)),
        forall|p: (usize, Aabb2D)|
            #[trigger] r_items(*node).contains(p) ==> (r_items(*r.0).contains(p) || (r.1 is Some
                && r_items(*r.1->0).contains(p))),
        r_items(*r.0).contains((slot, bbox)) || (r.1 is Some && r_items(*r.1->0).contains(
            (slot, bbox),
        )),
    decreases *node,
{
    let ghost n0 = *node;
    let node_inner = *node;
    let RNode { bbox: nb, leaf, children } = node_inner;
    let ghost cs0 = children@;
    let new_bbox = union_aabb(nb, bbox);
    if leaf {
        let mut children = children;
        children.push(RChild::Item { slot, bbox });
        let ghost cs1 = children@;
        proof {
            lemma_rl_wf_each(cs0, true, nb);
            assert forall|i: int| 0 <= i < cs1.len() implies rc_wf(
                #[trigger] cs1[i],
                true,
                new_bbox,
            ) by {
                if i < cs0.len() {
                    lemma_rc_wf_widen(cs0[i], true, nb, new_bbox);
                } else {
                    assert(cs1[i] == (RChild::Item { slot, bbox }));
                }
            }
            lemma_rl_membership(cs0);
            lemma_rl_membership(cs1);
            assert forall|p: (usize, Aabb2D)| rl_items(cs1).contains(p) <==> (rl_items(
                cs0,
            ).contains(p) || p == (slot, bbox)) by {
                if rl_items(cs1).contains(p) {
                    let i = choose|i: int|
                        0 <= i < cs1.len() && #[trigger] rc_items(cs1[i]).contains(p);
                    if i < cs0.len() {
                        assert(cs0[i] == cs1[i]);
                        assert(rl_items(cs0).contains(p));
                    } else {
                        assert(rc_items(cs1[i]) == seq![(slot, bbox)]);
                        assert(p == (slot, bbox));
                    }
                }
                if rl_items(cs0).contains(p) {
                    let i = choose|i: int|
                        0 <= i < cs0.len() && #[trigger] rc_items(cs0[i]).contains(p);
                    assert(cs1[i] == cs0[i]);
                    assert(rl_items(cs1).contains(p));
                }
                if p == (slot, bbox) {
                    assert(rc_items(cs1[cs1.len() - 1])[0] == p);
                    assert(rc_items(cs1[cs1.len() - 1]).contains(p));
                    assert(rl_items(cs1).contains(p));
                }
            }
            assert(rl_items(cs1).contains((slot, bbox))) by {
                assert(rc_items(cs1[cs1.len() - 1])[0] == (slot, bbox));
                assert(rc_items(cs1[cs1.len() - 1]).contains((slot, bbox)));
            }
        }
        if children.len() > maxc {
            let (l, r) = split_children(children, minc);
            finish_split(l, r, true, Ghost(cs1), Ghost(new_bbox))
        } else {
            proof {
                lemma_rl_wf_all(cs1, true, new_bbox);
            }
            let out = Box::new(RNode { bbox: new_bbox, leaf: true, children });
            proof {
                assert(r_items(*out) == rl_items(cs1));
                assert(r_wf(*out));
            }
            (out, None)
        }
    } else {
        let mut children = children;
        let idx = choose_child(&children, &bbox);
        proof {
            lemma_rl_wf_each(cs0, false, nb);
            assert(rc_wf(cs0[idx as int], false, nb));
        }
        let extracted = children.swap_remove(idx);
        let ghost c0 = cs0[idx as int];
        let ghost mid = children@;
        proof {
            // membership between cs0 and mid
            assert forall|c: RChild| mid.contains(c) implies cs0.contains(c) by {
                let q = choose|q: int| 0 <= q < mid.len() && mid[q] == c;
                if q == idx as int && (idx as int) < cs0.len() - 1 {
                    assert(cs0[cs0.len() - 1] == c);
                } else {
                    assert(cs0[q] == c);
                }
            }
            assert forall|c: RChild| cs0.contains(c) implies (mid.contains(c) || c == c0) by {
                let q = choose|q: int| 0 <= q < cs0.len() && cs0[q] == c;
                if q != idx as int {
                    if q == cs0.len() - 1 {
                        if (idx as int) < cs0.len() - 1 {
                            assert(mid[idx as int] == c);
                        }
                    } else {
                        assert(mid[q] == c);
                    }
                }
            }
        }
        match extracted {
            RChild::Node(b) => {
                let ghost bval = *b;
                proof {
                    assert(decreases_to!(n0 => n0.children));
                    assert(decreases_to!(n0.children => n0.children@));
                    assert(decreases_to!(n0.children@ => n0.children@[idx as int]));
                    assert(n0.children@[idx as int] == c0);
                    assert(decreases_to!(c0 => b));
                    assert(!b.leaf ==> b.children@.len() >= 1) by {
                        assert(rc_wf(c0, false, nb));
                    }
                }
                let (nc, sib) = r_insert_node(b, slot, bbox, maxc, minc);
                let ghost ncv = *nc;
                let mut children = children;
                children.push(RChild::Node(nc));
                let ghost sibv: Option<RNode> = if sib is Some {
                    Some(*sib->0)
                } else {
                    None
                };
                match sib {
                    Some(sb) => {
                        proof {
                            assert(sibv == Some(*sb));
                        }
                        children.push(RChild::Node(sb));
                    },
                    None => {
                    },
                }
                let ghost cs1 = children@;
                proof {
                    assert(sibv is Some ==> cs1.len() == mid.len() + 2 && cs1[mid.len() as int + 1]
                        == RChild::Node(Box::new(sibv->0)));
                    assert(sibv is None ==> cs1.len() == mid.len() + 1);
                    assert(sib is Some <==> sibv is Some);
                    assert(sib is Some ==> *sib->0 == sibv->0);
                }
                proof {
                    // well-formedness of every child under the new box
                    assert(s_covers(new_bbox, nb));
                    assert(s_covers(s_union(bval.bbox, bbox), ncv.bbox));
                    assert(s_covers(nb, bval.bbox));
                    assert(s_covers(new_bbox, ncv.bbox));
                    assert forall|i: int| 0 <= i < cs1.len() implies rc_wf(
                        #[trigger] cs1[i],
                        false,
                        new_bbox,
                    ) by {
                        if i < mid.len() {
                            assert(mid[i] == cs1[i]);
                            assert(mid.contains(cs1[i]));
                            assert(cs0.contains(cs1[i]));
                            let q = choose|q: int| 0 <= q < cs0.len() && cs0[q] == cs1[i];
                            assert(rc_wf(cs0[q], false, nb));
                            lemma_rc_wf_widen(cs1[i], false, nb, new_bbox);
                        } else if i == mid.len() {
                            assert(cs1[i] == RChild::Node(nc));
                            assert(rc_wf(cs1[i], false, new_bbox)) by {
                                assert(r_wf(ncv));
                                assert(ncv.children@.len() >= 1);
                            }
                        } else {
                            assert(sibv is Some);
                            let sv = sibv->0;
                            assert(rc_wf(cs1[i], false, new_bbox)) by {
                                assert(r_wf(sv));
                                assert(sv.children@.len() >= 1);
                                assert(s_covers(s_union(bval.bbox, bbox), sv.bbox));
                            }
                        }
                    }
                    // item membership
                    lemma_rl_membership(cs0);
                    lemma_rl_membership(cs1);
                    assert forall|p: (usize, Aabb2D)| rl_items(cs1).contains(p) <==> (rl_items(
                        cs0,
                    ).contains(p) || p == (slot, bbox)) by {
                        if rl_items(cs1).contains(p) {
                            let i = choose|i: int|
                                0 <= i < cs1.len() && #[trigger] rc_items(cs1[i]).contains(p);
                            if i < mid.len() {
                                assert(cs0.contains(cs1[i]));
                                let q = choose|q: int| 0 <= q < cs0.len() && cs0[q] == cs1[i];
                                assert(rc_items(cs0[q]).contains(p));
                                assert(rl_items(cs0).contains(p));
                            } else if i == mid.len() {
                                assert(rc_items(cs1[i]) == r_items(ncv));
                                assert(r_items(ncv).contains(p));
                                assert(r_items(bval).contains(p) || p == (slot, bbox));
                                if r_items(bval).contains(p) {
                                    assert(rc_items(c0) == r_items(bval));
                                    assert(rl_items(cs0).contains(p)) by {
                                        let q = choose|q: int| 0 <= q < cs0.len() && cs0[q] == c0;
                                        assert(rc_items(cs0[q]).contains(p));
                                    }
                                }
                            } else {
                                assert(sib is Some);
                                assert(rc_items(cs1[i]) == r_items(sibv->0));
                                assert(r_items(*sib->0).contains(p));
                                assert(r_items(bval).contains(p) || p == (slot, bbox));
                                if r_items(bval).contains(p) {
                                    assert(rc_items(c0) == r_items(bval));
                                    assert(rl_items(cs0).contains(p)) by {
                                        let q = choose|q: int| 0 <= q < cs0.len() && cs0[q] == c0;
                                        assert(rc_items(cs0[q]).contains(p));
                                    }
                                }
                            }
                        }
                        if rl_items(cs0).contains(p) {
                            let i = choose|i: int|
                                0 <= i < cs0.len() && #[trigger] rc_items(cs0[i]).contains(p);
                            assert(cs0.contains(cs0[i]));
                            assert(mid.contains(cs0[i]) || cs0[i] == c0);
                            if mid.contains(cs0[i]) {
                                let q = choose|q: int| 0 <= q < mid.len() && mid[q] == cs0[i];
                                assert(cs1[q] == cs0[i]);
                                assert(rl_items(cs1).contains(p));
                            } else {
                                assert(cs0[i] == c0);
                                assert(rc_items(c0) == r_items(bval));
                                assert(r_items(bval).contains(p));
                                assert(r_items(ncv).contains(p) || (sib is Some && r_items(
                                    *sib->0,
                                ).contains(p)));
                                assert(r_items(ncv).contains(p) || (sibv is Some && r_items(
                                    sibv->0,
                                ).contains(p)));
                                if r_items(ncv).contains(p) {
                                    assert(rc_items(cs1[mid.len() as int]).contains(p));
                                    assert(rl_items(cs1).contains(p));
                                } else {
                                    assert(rc_items(cs1[mid.len() as int + 1]).contains(p));
                                    assert(rl_items(cs1).contains(p));
                                }
                            }
                        }
                        if p == (slot, bbox) {
                            assert(r_items(ncv).contains(p) || (sib is Some && r_items(
                                *sib->0,
                            ).contains(p)));
                            assert(r_items(ncv).contains(p) || (sibv is Some && r_items(
                                sibv->0,
                            ).contains(p)));
                            if r_items(ncv).contains(p) {
                                assert(rc_items(cs1[mid.len() as int]).contains(p));
                            } else {
                                assert(rc_items(cs1[mid.len() as int + 1]).contains(p));
                            }
                            assert(rl_items(cs1).contains(p));
                        }
                    }
                    assert(rl_items(cs1).contains((slot, bbox))) by {
                        let pr = (slot, bbox);
                        assert(r_items(ncv).contains(pr) || (sib is Some && r_items(
                            *sib->0,
                        ).contains(pr)));
                        if r_items(ncv).contains(pr) {
                            assert(rc_items(cs1[mid.len() as int]).contains(pr));
                        } else {
                            assert(rc_items(cs1[mid.len() as int + 1]).contains(pr));
                        }
                    }
                }
                if children.len() > maxc {
                    let (l, r) = split_children(children, minc);
                    finish_split(l, r, false, Ghost(cs1), Ghost(new_bbox))
                } else {
                    proof {
                        lemma_rl_wf_all(cs1, false, new_bbox);
                    }
                    let out = Box::new(RNode { bbox: new_bbox, leaf: false, children });
                    proof {
                        assert(r_items(*out) == rl_items(cs1));
                        assert(r_wf(*out));
                        lemma_rl_wf_each(cs1, false, new_bbox);
                    }
                    (out, None)
                }
            },
            RChild::Item { .. } => {
                proof {
                    assert(rc_wf(c0, false, nb));
                    assert(false);
                }
                vstd::pervasive::unreached()
            },
        }
    }
}

/// Build the two nodes of a split: each half becomes a node over its own
/// bounding box. The halves' items together are the items of the split
/// list, and both boxes stay within any box covering every child.
fn finish_split(
    l: Vec<RChild>,
    r: Vec<RChild>,
    leaf: bool,
    Ghost(cs1): Ghost<Seq<RChild>>,
    Ghost(outer): Ghost<Aabb2D>,
) -> (res: (Box<RNode>, Option<Box<RNode>>))
    requires
        l@.len() >= 1,
        r@.len() >= 1,
        forall|c: RChild| (l@.contains(c) || r@.contains(c)) <==> cs1.contains(c),
        forall|i: int| 0 <= i < cs1.len() ==> rc_wf(#[trigger] cs1[i], leaf, outer),
    ensures
        r_wf(*res.0),
        res.0.children@.len() >= 1,
        res.0.leaf == leaf,
        !res.0.leaf ==> forall|i: int|
            0 <= i < res.0.children@.len() ==> rc_wf(
                #[trigger] res.0.children@[i],
                false,
                res.0.bbox,
            ),
        s_covers(outer, res.0.bbox),
        res.1 is Some,
        r_wf(*res.1->0),
        res.1->0.children@.len() >= 1,
        res.1->0.leaf == leaf,
        s_covers(outer, res.1->0.bbox),
        forall|p: (usize, Aabb2D)|
            #[trigger] rl_items(cs1).contains(p) ==> (r_items(*res.0).contains(p) || r_items(
                *res.1->0,
            ).contains(p)),
        forall|p: (usize, Aabb2D)|
            #[trigger] r_items(*res.0).contains(p) ==> rl_items(cs1).contains(p),
        forall|p: (usize, Aabb2D)|
            #[trigger] r_items(*res.1->0).contains(p) ==> rl_items(cs1).contains(p),
{
    let lb = node_bbox(&l);
    let rb = node_bbox(&r);
    let ghost lv = l@;
    let ghost rv = r@;
    proof {
        lemma_split_items(lv, rv, cs1);
        // each half's children are well-formed under the half's box
        assert forall|i: int| 0 <= i < lv.len() implies rc_wf(#[trigger] lv[i], leaf, lb) by {
            assert(lv.contains(lv[i]));
            assert(cs1.contains(lv[i]));
            let q = choose|q: int| 0 <= q < cs1.len() && cs1[q] == lv[i];
            assert(rc_wf(cs1[q], leaf, outer));
            lemma_rc_wf_rebase(lv[i], leaf, outer, lb);
        }
        assert forall|i: int| 0 <= i < rv.len() implies rc_wf(#[trigger] rv[i], leaf, rb) by {
            assert(rv.contains(rv[i]));
            assert(cs1.contains(rv[i]));
            let q = choose|q: int| 0 <= q < cs1.len() && cs1[q] == rv[i];
            assert(rc_wf(cs1[q], leaf, outer));
            lemma_rc_wf_rebase(rv[i], leaf, outer, rb);
        }
        lemma_rl_wf_all(lv, leaf, lb);
        lemma_rl_wf_all(rv, leaf, rb);
        // the halves' boxes stay within the outer box
        assert forall|i: int|
            0 <= i < lv.len() implies s_covers(
            outer,
            match #[trigger] lv[i] {
                RChild::Node(b) => b.bbox,
                RChild::Item { slot, bbox } => bbox,
            },
        ) by {
            assert(cs1.contains(lv[i]));
            let q = choose|q: int| 0 <= q < cs1.len() && cs1[q] == lv[i];
            assert(rc_wf(cs1[q], leaf, outer));
        }
        assert forall|i: int|
            0 <= i < rv.len() implies s_covers(
            outer,
            match #[trigger] rv[i] {
                RChild::Node(b) => b.bbox,
                RChild::Item { slot, bbox } => bbox,
            },
        ) by {
            assert(cs1.contains(rv[i]));
            let q = choose|q: int| 0 <= q < cs1.len() && cs1[q] == rv[i];
            assert(rc_wf(cs1[q], leaf, outer));
        }
        assert(s_covers(outer, lb));
        assert(s_covers(outer, rb));
    }
    let left = Box::new(RNode { bbox: lb, leaf, children: l });
    let right = Box::new(RNode { bbox: rb, leaf, children: r });
    proof {
        assert(r_items(*left) == rl_items(lv));
        assert(r_items(*right) == rl_items(rv));
        assert(r_wf(*left));
        assert(r_wf(*right));
        if !leaf {
            lemma_rl_wf_each(lv, false, lb);
        }
    }
    (left, Some(right))
}

/// Remove the item for `slot` wherever the old box leads: prune subtrees
/// whose box misses `old_b`, filter matching slots out of visited leaves,
/// and drop children that became empty. A node whose children all vanish
/// becomes an empty leaf. Items of other slots survive unchanged; a
/// surviving item for `slot` can only sit in a pruned subtree.
pub(crate) fn r_search_remove(node: Box<RNode>, slot: usize, old_b: &Aabb2D) -> (r: (
    Box<RNode>,
    bool,
))
    requires
        r_wf(*node),
        !node.leaf ==> node.children@.len() >= 1,
    ensures
        r_wf(*r.0),
        !r.0.leaf ==> r.0.children@.len() >= 1,
        s_covers(node.bbox, r.0.bbox),
        forall|p: (usize, Aabb2D)|
            p.0 != slot ==> (r_items(*r.0).contains(p) <==> r_items(*node).contains(p)),
        forall|p: (usize, Aabb2D)| r_items(*r.0).contains(p) ==> r_items(*node).contains(p),
        forall|p: (usize, Aabb2D)|
            r_items(*r.0).contains(p) && p.0 == slot ==> !s_overlaps(p.1, *old_b),
    decreases *node,
{
    let ghost n0 = *node;
    if node.bbox.intersect(old_b).is_empty() {
        proof {
            lemma_r_covers_items(n0.children@, n0.leaf, n0.bbox);
            assert forall|p: (usize, Aabb2D)|
                r_items(n0).contains(p) && p.0 == slot implies !s_overlaps(p.1, *old_b) by {
                let j = choose|j: int| 0 <= j < r_items(n0).len() && r_items(n0)[j] == p;
                assert(s_covers(n0.bbox, p.1));
            }
        }
        return (node, false);
    }
    let node_inner = *node;
    let RNode { bbox: nb, leaf, children } = node_inner;
    let ghost cs0 = children@;
    if leaf {
        let mut kept: Vec<RChild> = Vec::new();
        let mut any_removed = false;
        let mut i: usize = 0;
        let n = children.len();
        while i < n
            invariant
                n == cs0.len(),
                children@ == cs0,
                i <= n,
                rl_wf(cs0, true, nb),
                forall|p: (usize, Aabb2D)|
                    rl_items(kept@).contains(p) <==> (exists|j: int|
                        0 <= j < i && #[trigger] rc_items(cs0[j]).contains(p) && p.0 != slot),
                forall|q: int| 0 <= q < kept@.len() ==> rc_wf(#[trigger] kept@[q], true, nb),
            decreases n - i,
        {
            proof {
                lemma_rl_wf_each(cs0, true, nb);
            }
            let ghost kept0 = kept@;
            match &children[i] {
                RChild::Item { slot: s2, bbox: b2 } => {
                    if *s2 != slot {
                        kept.push(RChild::Item { slot: *s2, bbox: *b2 });
                        proof {
                            assert(kept@ == kept0.push(RChild::Item { slot: *s2, bbox: *b2 }));
                            lemma_rl_membership(kept0);
                            lemma_rl_membership(kept@);
                            assert forall|p: (usize, Aabb2D)| rl_items(kept@).contains(p) implies (
                            exists|j: int|
                                0 <= j < i + 1 && #[trigger] rc_items(cs0[j]).contains(p) && p.0
                                    != slot) by {
                                let q = choose|q: int|
                                    0 <= q < kept@.len() && #[trigger] rc_items(
                                        kept@[q],
                                    ).contains(p);
                                if q < kept0.len() {
                                    assert(rl_items(kept0).contains(p));
                                } else {
                                    assert(p == (*s2, *b2));
                                    assert(rc_items(cs0[i as int]).contains(p));
                                }
                            }
                            assert forall|p: (usize, Aabb2D)|
                                (exists|j: int|
                                    0 <= j < i + 1 && #[trigger] rc_items(cs0[j]).contains(p)
                                        && p.0 != slot) implies rl_items(kept@).contains(p) by {
                                let j = choose|j: int|
                                    0 <= j < i + 1 && #[trigger] rc_items(cs0[j]).contains(p)
                                        && p.0 != slot;
                                if j < i {
                                    assert(rl_items(kept0).contains(p));
                                    let q = choose|q: int|
                                        0 <= q < kept0.len() && #[trigger] rc_items(
                                            kept0[q],
                                        ).contains(p);
                                    assert(kept@[q] == kept0[q]);
                                    assert(rc_items(kept@[q]).contains(p));
                                } else {
                                    assert(rc_wf(cs0[j], true, nb));
                                    assert(p == (*s2, *b2));
                                    assert(rc_items(kept@[kept@.len() - 1]).contains(p));
                                }
                            }
                        }
                    } else {
                        any_removed = true;
                        proof {
                            lemma_rl_membership(kept@);
                            assert forall|p: (usize, Aabb2D)|
                                (exists|j: int|
                                    0 <= j < i + 1 && #[trigger] rc_items(cs0[j]).contains(p)
                                        && p.0 != slot) implies rl_items(kept@).contains(p) by {
                                let j = choose|j: int|
                                    0 <= j < i + 1 && #[trigger] rc_items(cs0[j]).contains(p)
                                        && p.0 != slot;
                                assert(j < i || rc_items(cs0[j]) == seq![(slot, *b2)]);
                            }
                        }
                    }
                },
                RChild::Node(_) => {
                    proof {
                        lemma_rl_wf_each(cs0, true, nb);
                        assert(rc_wf(cs0[i as int], true, nb));
                        assert(false);
                    }
                },
            }
            i += 1;
        }
        let new_bbox = if any_removed && kept.len() > 0 {
            node_bbox(&kept)
        } else {
            nb
        };
        let ghost keptv = kept@;
        proof {
            assert forall|q: int| 0 <= q < keptv.len() implies rc_wf(
                #[trigger] keptv[q],
                true,
                new_bbox,
            ) by {
                if any_removed && keptv.len() > 0 {
                    lemma_rc_wf_rebase(keptv[q], true, nb, new_bbox);
                }
            }
            lemma_rl_wf_all(keptv, true, new_bbox);
            if any_removed && keptv.len() > 0 {
                assert(s_covers(nb, new_bbox)) by {
                    assert forall|q: int|
                        0 <= q < keptv.len() implies s_covers(
                        nb,
                        match #[trigger] keptv[q] {
                            RChild::Node(b) => b.bbox,
                            RChild::Item { slot, bbox } => bbox,
                        },
                    ) by {
                        assert(rc_wf(keptv[q], true, nb));
                    }
                }
            }
        }
        let out = Box::new(RNode { bbox: new_bbox, leaf: true, children: kept });
        proof {
            assert(r_items(*out) == rl_items(keptv));
            assert(r_wf(*out));
            lemma_rl_membership(cs0);
            assert forall|p: (usize, Aabb2D)|
                p.0 != slot implies (r_items(*out).contains(p) <==> r_items(n0).contains(p)) by {
                if r_items(n0).contains(p) {
                    let j = choose|j: int|
                        0 <= j < cs0.len() && #[trigger] rc_items(cs0[j]).contains(p);
                    assert(rl_items(keptv).contains(p));
                }
                if r_items(*out).contains(p) {
                    let j = choose|j: int|
                        0 <= j < cs0.len() && #[trigger] rc_items(cs0[j]).contains(p) && p.0
                            != slot;
                    assert(rl_items(cs0).contains(p));
                }
            }
            assert forall|p: (usize, Aabb2D)| r_items(*out).contains(p) implies r_items(
                n0,
            ).contains(p) by {
                let j = choose|j: int|
                    0 <= j < cs0.len() && #[trigger] rc_items(cs0[j]).contains(p) && p.0 != slot;
                assert(rl_items(cs0).contains(p));
            }
        }
        (out, any_removed)
    } else {
        let mut src = children;
        let mut done: Vec<RChild> = Vec::new();
        let mut any_removed = false;
        proof {
            assert(src@.take(src@.len() as int) == cs0);
        }
        while src.len() > 0
            invariant
                *node == n0,
                n0.children@ == cs0,
                n0.leaf == false,
                src@ =~= cs0.take(src@.len() as int),
                src@.len() <= cs0.len(),
                rl_wf(cs0, false, nb),
                forall|p: (usize, Aabb2D)|
                    p.0 != slot ==> (rl_items(done@).contains(p) <==> (exists|j: int|
                        src@.len() <= j < cs0.len() && #[trigger] rc_items(cs0[j]).contains(p))),
                forall|p: (usize, Aabb2D)|
                    rl_items(done@).contains(p) ==> (exists|j: int|
                        src@.len() <= j < cs0.len() && #[trigger] rc_items(cs0[j]).contains(p)),
                forall|p: (usize, Aabb2D)|
                    rl_items(done@).contains(p) && p.0 == slot ==> !s_overlaps(p.1, *old_b),
                forall|q: int| 0 <= q < done@.len() ==> rc_wf(#[trigger] done@[q], false, nb),
            decreases src@.len(),
        {
            let ghost ll = src@.len() as int;
            let ghost done0 = done@;
            proof {
                lemma_rl_wf_each(cs0, false, nb);
                assert(cs0.take(ll)[ll - 1] == cs0[ll - 1]);
            }
            let c = src.pop();
            match c {
                Some(RChild::Node(b)) => {
                    proof {
                        assert(src@ =~= cs0.take(ll - 1));
                        assert(rc_wf(cs0[ll - 1], false, nb));
                        assert(cs0[ll - 1] == RChild::Node(b));
                        assert(n0.children@ == cs0);
                        assert(0 <= ll - 1 < cs0.len());
                        assert(decreases_to!(n0 => n0.children));
                        assert(decreases_to!(n0.children => n0.children@));
                        assert(decreases_to!(n0.children@ => n0.children@[ll - 1]));
                        assert(n0.children@[ll - 1] == cs0[ll - 1]);
                        assert(decreases_to!(cs0[ll - 1] => b));
                        assert(decreases_to!(n0 => b));
                    }
                    let ghost bval = *b;
                    let (nb2, rem) = r_search_remove(b, slot, old_b);
                    let ghost nb2v = *nb2;
                    if rem {
                        any_removed = true;
                    }
                    let keep_it = nb2.children.len() > 0;
                    if keep_it {
                        done.push(RChild::Node(nb2));
                    }
                    proof {
                        if keep_it {
                            assert(done@ == done0.push(RChild::Node(Box::new(nb2v))));
                            assert(rc_items(done@[done@.len() - 1]) == r_items(nb2v));
                            assert(rc_wf(done@[done@.len() - 1], false, nb)) by {
                                assert(r_wf(nb2v));
                                assert(s_covers(nb, bval.bbox));
                                assert(s_covers(bval.bbox, nb2v.bbox));
                            }
                        } else {
                            assert(r_items(nb2v).len() == 0) by {
                                assert(nb2v.children@.len() == 0);
                            }
                        }
                        lemma_rl_membership(done0);
                        lemma_rl_membership(done@);
                        assert forall|p: (usize, Aabb2D)| rl_items(done@).contains(p) implies (
                        exists|j: int|
                            src@.len() <= j < cs0.len() && #[trigger] rc_items(cs0[j]).contains(
                                p,
                            )) by {
                            let q = choose|q: int|
                                0 <= q < done@.len() && #[trigger] rc_items(done@[q]).contains(p);
                            if q < done0.len() {
                                assert(rl_items(done0).contains(p));
                                let j = choose|j: int|
                                    ll <= j < cs0.len() && #[trigger] rc_items(cs0[j]).contains(
                                        p,
                                    );
                            } else {
                                assert(r_items(nb2v).contains(p));
                                assert(r_items(bval).contains(p));
                                assert(rc_items(cs0[ll - 1]).contains(p));
                            }
                        }
                        assert forall|p: (usize, Aabb2D)|
                            p.0 != slot && (exists|j: int|
                                src@.len() <= j < cs0.len() && #[trigger] rc_items(
                                    cs0[j],
                                ).contains(p)) implies rl_items(done@).contains(p) by {
                            let j = choose|j: int|
                                src@.len() <= j < cs0.len() && #[trigger] rc_items(
                                    cs0[j],
                                ).contains(p);
                            if j >= ll {
                                assert(rl_items(done0).contains(p));
                                let q = choose|q: int|
                                    0 <= q < done0.len() && #[trigger] rc_items(
                                        done0[q],
                                    ).contains(p);
                                assert(done@[q] == done0[q]);
                                assert(rc_items(done@[q]).contains(p));
                            } else {
                                assert(j == ll - 1);
                                assert(rc_items(cs0[j]) == r_items(bval));
                                assert(r_items(nb2v).contains(p));
                                assert(keep_it) by {
                                    if !keep_it {
                                        assert(r_items(nb2v).len() == 0);
                                        let z = choose|z: int|
                                            0 <= z < r_items(nb2v).len() && r_items(nb2v)[z] == p;
                                    }
                                }
                                assert(rc_items(done@[done@.len() - 1]).contains(p));
                            }
                        }
                        assert forall|p: (usize, Aabb2D)|
                            rl_items(done@).contains(p) && p.0 == slot implies !s_overlaps(
                            p.1,
                            *old_b,
                        ) by {
                            let q = choose|q: int|
                                0 <= q < done@.len() && #[trigger] rc_items(done@[q]).contains(p);
                            if q < done0.len() {
                                assert(rl_items(done0).contains(p));
                            } else {
                                assert(r_items(nb2v).contains(p));
                            }
                        }
                    }
                },
                Some(RChild::Item { .. }) => {
                    proof {
                        assert(rc_wf(cs0[ll - 1], false, nb));
                        assert(false);
                    }
                },
                None => {
                    proof {
                        assert(false);
                    }
                },
            }
        }
        proof {
            assert(cs0.take(0) =~= Seq::<RChild>::empty());
        }
        if done.len() == 0 {
            let out = Box::new(RNode { bbox: nb, leaf: true, children: done });
            proof {
                assert(r_items(*out).len() == 0);
                assert(r_wf(*out));
                lemma_rl_membership(cs0);
                assert forall|p: (usize, Aabb2D)|
                    p.0 != slot implies (r_items(*out).contains(p) <==> r_items(n0).contains(
                    p,
                )) by {
                    if r_items(n0).contains(p) {
                        let j = choose|j: int|
                            0 <= j < cs0.len() && #[trigger] rc_items(cs0[j]).contains(p);
                        assert(rl_items(done@).contains(p));
                    }
                    if r_items(*out).contains(p) {
                        let z = choose|z: int|
                            0 <= z < r_items(*out).len() && r_items(*out)[z] == p;
                    }
                }
            }
            (out, any_removed)
        } else {
            let new_bbox = if any_removed {
                node_bbox(&done)
            } else {
                nb
            };
            let ghost donev = done@;
            proof {
                assert forall|q: int| 0 <= q < donev.len() implies rc_wf(
                    #[trigger] donev[q],
                    false,
                    new_bbox,
                ) by {
                    if any_removed {
                        lemma_rc_wf_rebase(donev[q], false, nb, new_bbox);
                    }
                }
                lemma_rl_wf_all(donev, false, new_bbox);
                if any_removed {
                    assert(s_covers(nb, new_bbox)) by {
                        assert forall|q: int|
                            0 <= q < donev.len() implies s_covers(
                            nb,
                            match #[trigger] donev[q] {
                                RChild::Node(b) => b.bbox,
                                RChild::Item { slot, bbox } => bbox,
                            },
                        ) by {
                            assert(rc_wf(donev[q], false, nb));
                        }
                    }
                }
            }
            let out = Box::new(RNode { bbox: new_bbox, leaf: false, children: done });
            proof {
                assert(r_items(*out) == rl_items(donev));
                assert(r_wf(*out));
                lemma_rl_membership(cs0);
                assert forall|p: (usize, Aabb2D)|
                    p.0 != slot implies (r_items(*out).contains(p) <==> r_items(n0).contains(
                    p,
                )) by {
                    if r_items(n0).contains(p) {
                        let j = choose|j: int|
                            0 <= j < cs0.len() && #[trigger] rc_items(cs0[j]).contains(p);
                    }
                    if r_items(*out).contains(p) {
                        let j = choose|j: int|
                            0 <= j < cs0.len() && #[trigger] rc_items(cs0[j]).contains(p);
                        assert(rl_items(cs0).contains(p));
                    }
                }
                assert forall|p: (usize, Aabb2D)| r_items(*out).contains(p) implies r_items(
                    n0,
                ).contains(p) by {
                    let j = choose|j: int|
                        0 <= j < cs0.len() && #[trigger] rc_items(cs0[j]).contains(p);
                    assert(rl_items(cs0).contains(p));
                }
            }
            (out, any_removed)
        }
    }
}

/// Try to rewrite the item for `slot` from `old_b` to `new_b` in place:
/// descend every subtree whose box meets the union of the two, rewrite
/// matching items, and recompute boxes on the way back. Other items are
/// untouched; an untouched item for `slot` can only sit in a pruned
/// subtree.
#[verifier::rlimit(100)]
#[verifier::spinoff_prover]
pub(crate) fn r_update_in_place(
    node: Box<RNode>,
    slot: usize,
    old_b: &Aabb2D,
    new_b: &Aabb2D,
) -> (r: (Box<RNode>, bool))
    requires
        r_wf(*node),
        !node.leaf ==> node.children@.len() >= 1,
    ensures
        r_wf(*r.0),
        r.0.leaf == node.leaf,
        r.0.children@.len() == node.children@.len(),
        s_covers(s_union(node.bbox, *new_b), r.0.bbox),
        forall|p: (usize, Aabb2D)|
            p.0 != slot ==> (#[trigger] r_items(*r.0).contains(p) <==> r_items(*node).contains(
                p,
            )),
        forall|p: (usize, Aabb2D)|
            p.0 != slot ==> (#[trigger] r_items(*node).contains(p) ==> r_items(*r.0).contains(
                p,
            )),
        forall|p: (usize, Aabb2D)|
            #[trigger] r_items(*r.0).contains(p) && p.0 == slot ==> (p == (slot, *new_b) || (
            r_items(*node).contains(p) && !s_overlaps(p.1, s_union(*old_b, *new_b)))),
        r.1 ==> r_items(*r.0).contains((slot, *new_b)),
        !r.1 ==> r.0.bbox == node.bbox,
        s_rl_node_count(r.0.children@) == s_rl_node_count(node.children@),
        !s_empty(*old_b) && r_items(*node).contains((slot, *old_b)) ==> r.1,
    decreases *node,
{
    let ghost n0 = *node;
    let interest = union_aabb(*old_b, *new_b);
    if node.bbox.intersect(&interest).is_empty() {
        proof {
            lemma_r_covers_items(n0.children@, n0.leaf, n0.bbox);
            assert forall|p: (usize, Aabb2D)|
                r_items(n0).contains(p) && p.0 == slot implies !s_overlaps(
                p.1,
                s_union(*old_b, *new_b),
            ) by {
                let j = choose|j: int| 0 <= j < r_items(n0).len() && r_items(n0)[j] == p;
                assert(s_covers(n0.bbox, p.1));
            }
            // a present, non-empty old box would intersect the pruned node
            assert(!(!s_empty(*old_b) && r_items(n0).contains((slot, *old_b)))) by {
                if !s_empty(*old_b) && r_items(n0).contains((slot, *old_b)) {
                    let j = choose|j: int|
                        0 <= j < r_items(n0).len() && r_items(n0)[j] == (slot, *old_b);
                    assert(s_covers(n0.bbox, *old_b));
                    assert(s_covers(s_union(*old_b, *new_b), *old_b));
                    assert(!s_empty(crate::geom::s_intersect(n0.bbox, s_union(*old_b, *new_b))));
                }
            }
        }
        return (node, false);
    }
    let node_inner = *node;
    let RNode { bbox: nb, leaf, children } = node_inner;
    let ghost cs0 = children@;
    let mut src = children;
    let mut done: Vec<RChild> = Vec::new();
    let mut found = false;
    proof {
        assert(src@.take(src@.len() as int) == cs0);
    }
    while src.len() > 0
        invariant
            *node == n0,
            n0.children@ == cs0,
            n0.leaf == leaf,
            n0.bbox == nb,
            src@ =~= cs0.take(src@.len() as int),
            src@.len() <= cs0.len(),
            rl_wf(cs0, leaf, nb),
            done@.len() + src@.len() == cs0.len(),
            forall|p: (usize, Aabb2D)|
                p.0 != slot ==> (rl_items(done@).contains(p) <==> (exists|j: int|
                    src@.len() <= j < cs0.len() && #[trigger] rc_items(cs0[j]).contains(p))),
            forall|p: (usize, Aabb2D)|
                rl_items(done@).contains(p) && p.0 == slot ==> (p == (slot, *new_b) || ((exists|
                    j: int,
                |
                    src@.len() <= j < cs0.len() && #[trigger] rc_items(cs0[j]).contains(p))
                    && !s_overlaps(p.1, s_union(*old_b, *new_b)))),
            found ==> rl_items(done@).contains((slot, *new_b)),
            forall|q: int|
                0 <= q < done@.len() ==> rc_wf(#[trigger] done@[q], leaf, s_union(nb, *new_b)),
            !found ==> forall|q: int|
                0 <= q < done@.len() ==> rc_wf(#[trigger] done@[q], leaf, nb),
            s_rl_node_count(done@) + s_rl_node_count(cs0.take(src@.len() as int))
                == s_rl_node_count(cs0),
            !s_empty(*old_b) && !found ==> forall|j: int|
                src@.len() <= j < cs0.len() ==> !(#[trigger] rc_items(cs0[j])).contains(
                    (slot, *old_b),
                ),
        decreases src@.len(),
    {
        let ghost ll = src@.len() as int;
        let ghost done0 = done@;
        let ghost found0 = found;
        proof {
            lemma_rl_wf_each(cs0, leaf, nb);
            assert(cs0.take(ll)[ll - 1] == cs0[ll - 1]);
        }
        let c = src.pop();
        let ghost c0 = cs0[ll - 1];
        let processed: RChild = match c {
            Some(RChild::Item { slot: s2, bbox: b2 }) => {
                proof {
                    assert(c0 == (RChild::Item { slot: s2, bbox: b2 }));
                    assert(rc_wf(c0, leaf, nb));
                }
                let out_c = if s2 == slot {
                    found = true;
                    RChild::Item { slot: s2, bbox: *new_b }
                } else {
                    RChild::Item { slot: s2, bbox: b2 }
                };
                proof {
                    assert(out_c is Item);
                    assert(rc_items(out_c)[0] == (s2, out_c->bbox));
                    assert(rc_items(c0)[0] == (s2, b2));
                    assert(s_rc_node_count(out_c) == s_rc_node_count(c0));
                    assert(rc_items(c0).contains((slot, *old_b)) ==> found) by {
                        if rc_items(c0).contains((slot, *old_b)) {
                            let z = choose|z: int|
                                0 <= z < rc_items(c0).len() && rc_items(c0)[z] == (
                                slot,
                                *old_b,
                            );
                            assert(s2 == slot);
                        }
                    }
                    assert forall|p: (usize, Aabb2D)|
                        p.0 != slot implies (rc_items(out_c).contains(p) <==> rc_items(
                        c0,
                    ).contains(p)) by {
                        if rc_items(c0).contains(p) {
                            let z = choose|z: int|
                                0 <= z < rc_items(c0).len() && rc_items(c0)[z] == p;
                            assert(p == (s2, b2));
                            assert(s2 != slot);
                        }
                        if rc_items(out_c).contains(p) {
                            let z = choose|z: int|
                                0 <= z < rc_items(out_c).len() && rc_items(out_c)[z] == p;
                            assert(s2 != slot);
                        }
                    }
                    assert forall|p: (usize, Aabb2D)|
                        rc_items(out_c).contains(p) && p.0 == slot implies p == (
                        slot,
                        *new_b,
                    ) by {
                        let z = choose|z: int|
                            0 <= z < rc_items(out_c).len() && rc_items(out_c)[z] == p;
                        assert(s2 == slot);
                    }
                    assert(rc_wf(out_c, leaf, s_union(nb, *new_b)));
                    if !found {
                        assert(rc_wf(out_c, leaf, nb));
                    }
                }
                out_c
            },
            Some(RChild::Node(b)) => {
                proof {
                    assert(src@ =~= cs0.take(ll - 1));
                    assert(rc_wf(c0, leaf, nb));
                    assert(c0 == RChild::Node(b));
                    assert(decreases_to!(n0 => n0.children));
                    assert(decreases_to!(n0.children => n0.children@));
                    assert(decreases_to!(n0.children@ => n0.children@[ll - 1]));
                    assert(n0.children@[ll - 1] == c0);
                    assert(decreases_to!(c0 => b));
                    assert(decreases_to!(n0 => b));
                }
                let ghost bval = *b;
                let (nb2, f2) = r_update_in_place(b, slot, old_b, new_b);
                let ghost nb2v = *nb2;
                if f2 {
                    found = true;
                }
                proof {
                    assert(rc_wf(RChild::Node(nb2), leaf, s_union(nb, *new_b))) by {
                        assert(r_wf(nb2v));
                        assert(nb2v.children@.len() == bval.children@.len());
                        assert(s_covers(s_union(bval.bbox, *new_b), nb2v.bbox));
                        assert(s_covers(nb, bval.bbox));
                    }
                    if !f2 {
                        assert(rc_wf(RChild::Node(nb2), leaf, nb)) by {
                            assert(nb2v.bbox == bval.bbox);
                        }
                    }
                    assert(rc_items(RChild::Node(Box::new(nb2v))) == r_items(nb2v));
                    assert(rc_items(c0) == r_items(bval));
                    assert(forall|p: (usize, Aabb2D)|
                        p.0 != slot ==> (rc_items(RChild::Node(Box::new(nb2v))).contains(p)
                            <==> rc_items(c0).contains(p)));
                    assert(forall|p: (usize, Aabb2D)|
                        rc_items(RChild::Node(Box::new(nb2v))).contains(p) && p.0 == slot ==> (p
                            == (slot, *new_b) || (rc_items(c0).contains(p) && !s_overlaps(
                            p.1,
                            s_union(*old_b, *new_b),
                        ))));
                    if f2 {
                        assert(rc_items(RChild::Node(Box::new(nb2v))).contains((slot, *new_b)));
                    }
                    assert(s_rc_node_count(RChild::Node(Box::new(nb2v))) == 1
                        + s_rl_node_count(nb2v.children@));
                    assert(s_rc_node_count(c0) == 1 + s_rl_node_count(bval.children@));
                    assert(s_rc_node_count(RChild::Node(Box::new(nb2v))) == s_rc_node_count(c0));
                    assert(!s_empty(*old_b) && rc_items(c0).contains((slot, *old_b))
                        ==> found) by {
                        assert(rc_items(c0) == r_items(bval));
                    }
                }
                RChild::Node(nb2)
            },
            None => {
                proof {
                    assert(false);
                }
                vstd::pervasive::unreached()
            },
        };
        let ghost pv = processed;
        done.push(processed);
        proof {
            assert(done@ == done0.push(pv));
            assert(src@ =~= cs0.take(ll - 1));
            lemma_rl_count_push(done0, pv);
            assert(cs0.take(ll).drop_last() =~= cs0.take(ll - 1));
            assert(cs0.take(ll).last() == c0);
            assert(s_rl_node_count(cs0.take(ll)) == s_rl_node_count(cs0.take(ll - 1))
                + s_rc_node_count(c0));
            assert(s_rc_node_count(pv) == s_rc_node_count(c0));
            assert(s_rl_node_count(done@) + s_rl_node_count(cs0.take(src@.len() as int))
                == s_rl_node_count(cs0));
            assert forall|j: int|
                !s_empty(*old_b) && !found && src@.len() <= j < cs0.len() implies !(
            #[trigger] rc_items(cs0[j])).contains((slot, *old_b)) by {
                if j < ll - 1 {
                    assert(false);
                }
            }
            lemma_rl_membership(done0);
            lemma_rl_membership(done@);
            // relate the processed child's items to the original child's
            assert(forall|p: (usize, Aabb2D)|
                p.0 != slot ==> (rc_items(pv).contains(p) <==> rc_items(c0).contains(p)));
            assert(forall|p: (usize, Aabb2D)|
                rc_items(pv).contains(p) && p.0 == slot ==> (p == (slot, *new_b) || (rc_items(
                    c0,
                ).contains(p) && !s_overlaps(p.1, s_union(*old_b, *new_b)))));
            // done-list invariants
            assert forall|p: (usize, Aabb2D)|
                p.0 != slot implies (rl_items(done@).contains(p) <==> (exists|j: int|
                    src@.len() <= j < cs0.len() && #[trigger] rc_items(cs0[j]).contains(p))) by {
                if rl_items(done@).contains(p) {
                    let q = choose|q: int|
                        0 <= q < done@.len() && #[trigger] rc_items(done@[q]).contains(p);
                    if q < done0.len() {
                        assert(rl_items(done0).contains(p));
                        let j = choose|j: int|
                            ll <= j < cs0.len() && #[trigger] rc_items(cs0[j]).contains(p);
                    } else {
                        assert(rc_items(c0).contains(p));
                        assert(src@.len() <= ll - 1 < cs0.len());
                    }
                }
                if exists|j: int|
                    src@.len() <= j < cs0.len() && #[trigger] rc_items(cs0[j]).contains(p) {
                    let j = choose|j: int|
                        src@.len() <= j < cs0.len() && #[trigger] rc_items(cs0[j]).contains(p);
                    if j >= ll {
                        assert(rl_items(done0).contains(p));
                        let q = choose|q: int|
                            0 <= q < done0.len() && #[trigger] rc_items(done0[q]).contains(p);
                        assert(done@[q] == done0[q]);
                        assert(rc_items(done@[q]).contains(p));
                    } else {
                        assert(j == ll - 1);
                        assert(rc_items(pv).contains(p));
                        assert(rc_items(done@[done@.len() - 1]).contains(p));
                    }
                }
            }
            assert forall|p: (usize, Aabb2D)|
                rl_items(done@).contains(p) && p.0 == slot implies (p == (slot, *new_b) || ((
                exists|j: int|
                    src@.len() <= j < cs0.len() && #[trigger] rc_items(cs0[j]).contains(p))
                    && !s_overlaps(p.1, s_union(*old_b, *new_b)))) by {
                let q = choose|q: int|
                    0 <= q < done@.len() && #[trigger] rc_items(done@[q]).contains(p);
                if q < done0.len() {
                    assert(rl_items(done0).contains(p));
                    if p != (slot, *new_b) {
                        let j = choose|j: int|
                            ll <= j < cs0.len() && #[trigger] rc_items(cs0[j]).contains(p)
                                && !s_overlaps(p.1, s_union(*old_b, *new_b));
                    }
                } else {
                    assert(rc_items(pv).contains(p));
                    if p != (slot, *new_b) {
                        assert(rc_items(c0).contains(p) && !s_overlaps(
                            p.1,
                            s_union(*old_b, *new_b),
                        ));
                        assert(src@.len() <= ll - 1 < cs0.len());
                        assert(rc_items(cs0[ll - 1]).contains(p));
                    }
                }
            }
            if found {
                assert(rl_items(done@).contains((slot, *new_b))) by {
                    if found0 {
                        assert(rl_items(done0).contains((slot, *new_b)));
                        let q = choose|q: int|
                            0 <= q < done0.len() && #[trigger] rc_items(done0[q]).contains(
                                (slot, *new_b),
                            );
                        assert(rc_items(done@[q]).contains((slot, *new_b)));
                    } else {
                        assert(rc_items(pv).contains((slot, *new_b))) by {
                            match pv {
                                RChild::Item { slot: s2, bbox: b2 } => {
                                    assert(rc_items(pv)[0] == (slot, *new_b));
                                },
                                RChild::Node(_) => {},
                            }
                        }
                        assert(rc_items(done@[done@.len() - 1]).contains((slot, *new_b)));
                    }
                }
            }
        }
    }
    proof {
        assert(cs0.subrange(0, cs0.len() as int) =~= cs0);
    }
    let new_bbox = if found && done.len() > 0 {
        node_bbox(&done)
    } else {
        nb
    };
    let ghost donev = done@;
    proof {
        assert forall|q: int| 0 <= q < donev.len() implies rc_wf(
            #[trigger] donev[q],
            leaf,
            new_bbox,
        ) by {
            if found && donev.len() > 0 {
                lemma_rc_wf_rebase(donev[q], leaf, s_union(nb, *new_b), new_bbox);
            }
        }
        lemma_rl_wf_all(donev, leaf, new_bbox);
        assert(s_covers(s_union(nb, *new_b), new_bbox)) by {
            if found && donev.len() > 0 {
                assert forall|q: int|
                    0 <= q < donev.len() implies s_covers(
                    s_union(nb, *new_b),
                    match #[trigger] donev[q] {
                        RChild::Node(b) => b.bbox,
                        RChild::Item { slot, bbox } => bbox,
                    },
                ) by {
                    assert(rc_wf(donev[q], leaf, s_union(nb, *new_b)));
                }
            }
        }
    }
    let out = Box::new(RNode { bbox: new_bbox, leaf, children: done });
    proof {
        assert(r_items(*out) == rl_items(donev));
        assert(r_wf(*out));
        assert(r_items(n0) == rl_items(cs0));
        lemma_rl_membership(cs0);
        assert(cs0.take(0) =~= Seq::<RChild>::empty());
        assert(s_rl_node_count(out.children@) == s_rl_node_count(n0.children@));
        assert(!s_empty(*old_b) && r_items(n0).contains((slot, *old_b)) ==> found) by {
            if !s_empty(*old_b) && r_items(n0).contains((slot, *old_b)) && !found {
                let j = choose|j: int|
                    0 <= j < cs0.len() && #[trigger] rc_items(cs0[j]).contains((slot, *old_b));
                assert(false);
            }
        }
        assert forall|p: (usize, Aabb2D)|
            p.0 != slot implies (r_items(*out).contains(p) <==> r_items(n0).contains(p)) by {
            if r_items(n0).contains(p) {
                let j = choose|j: int|
                    0 <= j < cs0.len() && #[trigger] rc_items(cs0[j]).contains(p);
                assert(rl_items(donev).contains(p));
            }
            if r_items(*out).contains(p) {
                let j = choose|j: int|
                    0 <= j < cs0.len() && #[trigger] rc_items(cs0[j]).contains(p);
                assert(rl_items(cs0).contains(p));
            }
        }
        assert forall|p: (usize, Aabb2D)|
            r_items(*out).contains(p) && p.0 == slot implies (p == (slot, *new_b) || (r_items(
                n0,
            ).contains(p) && !s_overlaps(p.1, s_union(*old_b, *new_b)))) by {
            if p != (slot, *new_b) {
                let j = choose|j: int|
                    0 <= j < cs0.len() && #[trigger] rc_items(cs0[j]).contains(p)
                        && !s_overlaps(p.1, s_union(*old_b, *new_b));
                assert(rl_items(cs0).contains(p));
            }
        }
    }
    (out, found)
}

/// Whether a slot is already in the candidate list.
fn r_contains_slot(v: &Vec<usize>, s: usize) -> (r: bool)
    ensures
        r == v@.contains(s),
{
    let mut i: usize = 0;
    while i < v.len()
        invariant
            i <= v@.len(),
            forall|j: int| 0 <= j < i ==> v@[j] != s,
        decreases v@.len() - i,
    {
        if v[i] == s {
            proof {
                assert(v@[i as int] == s);
            }
            return true;
        }
        i += 1;
    }
    false
}

/// Depth-first query: prune subtrees whose box misses the query box, emit
/// the slot of every item whose box overlaps it, without duplicates.
pub(crate) fn r_query_node(n: &RNode, q: &Aabb2D, out: &mut Vec<usize>)
    requires
        r_wf(*n),
        old(out)@.no_duplicates(),
    ensures
        final(out)@.no_duplicates(),
        forall|s: usize|
            final(out)@.contains(s) <==> (old(out)@.contains(s) || exists|j: int|
                0 <= j < r_items(*n).len() && (#[trigger] r_items(*n)[j]).0 == s && s_overlaps(
                    r_items(*n)[j].1,
                    *q,
                )),
    decreases *n,
{
    let ghost n0 = *n;
    if n.bbox.intersect(q).is_empty() {
        proof {
            lemma_r_covers_items(n0.children@, n0.leaf, n0.bbox);
            assert forall|s: usize| old(out)@.contains(s) || (exists|j: int|
                0 <= j < r_items(n0).len() && (#[trigger] r_items(n0)[j]).0 == s && s_overlaps(
                    r_items(n0)[j].1,
                    *q,
                )) implies out@.contains(s) by {
                if !old(out)@.contains(s) {
                    let j = choose|j: int|
                        0 <= j < r_items(n0).len() && (#[trigger] r_items(n0)[j]).0 == s
                            && s_overlaps(r_items(n0)[j].1, *q);
                    assert(s_covers(n0.bbox, r_items(n0)[j].1));
                    assert(false);
                }
            }
        }
        return ;
    }
    let cn = n.children.len();
    let mut i: usize = 0;
    while i < cn
        invariant
            *n == n0,
            cn == n0.children@.len(),
            r_wf(n0),
            i <= cn,
            out@.no_duplicates(),
            forall|s: usize|
                out@.contains(s) <==> (old(out)@.contains(s) || exists|j: int, z: int|
                    0 <= j < i && 0 <= z < rc_items(#[trigger] n0.children@[j]).len() && (
                    #[trigger] rc_items(n0.children@[j])[z]).0 == s && s_overlaps(
                        rc_items(n0.children@[j])[z].1,
                        *q,
                    )),
        decreases cn - i,
    {
        let ghost out_mid = out@;
        proof {
            lemma_rl_wf_each(n0.children@, n0.leaf, n0.bbox);
            assert(rc_wf(n0.children@[i as int], n0.leaf, n0.bbox));
        }
        match &n.children[i] {
            RChild::Item { slot: s2, bbox: b2 } => {
                if !b2.intersect(q).is_empty() {
                    if !r_contains_slot(out, *s2) {
                        out.push(*s2);
                    }
                }
                proof {
                    let c0 = n0.children@[i as int];
                    assert(rc_items(c0)[0] == (*s2, *b2));
                    assert forall|s: usize| out@.contains(s) implies (out_mid.contains(s) || (s
                        == *s2 && s_overlaps(*b2, *q))) by {
                        let c = choose|c: int| 0 <= c < out@.len() && out@[c] == s;
                        if c < out_mid.len() {
                            assert(out_mid[c] == s);
                        }
                    }
                    assert forall|s: usize| out_mid.contains(s) implies out@.contains(s) by {
                        let c = choose|c: int| 0 <= c < out_mid.len() && out_mid[c] == s;
                        assert(out@[c] == s);
                    }
                    assert forall|s: usize|
                        out@.contains(s) <==> (old(out)@.contains(s) || exists|j: int, z: int|
                            0 <= j < i + 1 && 0 <= z < rc_items(
                                #[trigger] n0.children@[j],
                            ).len() && (#[trigger] rc_items(n0.children@[j])[z]).0 == s
                                && s_overlaps(rc_items(n0.children@[j])[z].1, *q)) by {
                        if out@.contains(s) {
                            if !out_mid.contains(s) {
                                assert(s == *s2 && s_overlaps(*b2, *q));
                                assert(rc_items(c0)[0].0 == s && s_overlaps(
                                    rc_items(c0)[0].1,
                                    *q,
                                ));
                            } else {
                                if !old(out)@.contains(s) {
                                    let j = choose|j: int, z: int|
                                        0 <= j < i && 0 <= z < rc_items(
                                            #[trigger] n0.children@[j],
                                        ).len() && (#[trigger] rc_items(
                                            n0.children@[j],
                                        )[z]).0 == s && s_overlaps(
                                            rc_items(n0.children@[j])[z].1,
                                            *q,
                                        );
                                }
                            }
                        }
                        if old(out)@.contains(s) {
                            assert(out_mid.contains(s));
                            assert(out@.contains(s));
                        }
                        if exists|j: int, z: int|
                            0 <= j < i + 1 && 0 <= z < rc_items(
                                #[trigger] n0.children@[j],
                            ).len() && (#[trigger] rc_items(n0.children@[j])[z]).0 == s
                                && s_overlaps(rc_items(n0.children@[j])[z].1, *q) {
                            let (j, z) = choose|j: int, z: int|
                                0 <= j < i + 1 && 0 <= z < rc_items(
                                    #[trigger] n0.children@[j],
                                ).len() && (#[trigger] rc_items(n0.children@[j])[z]).0 == s
                                    && s_overlaps(rc_items(n0.children@[j])[z].1, *q);
                            if j < i {
                                assert(out_mid.contains(s));
                                assert(out@.contains(s));
                            } else {
                                assert(rc_items(c0)[z] == (*s2, *b2));
                                if !out_mid.contains(s) {
                                    assert(out@.last() == s);
                                }
                                assert(out@.contains(s));
                            }
                        }
                    }
                }
            },
            RChild::Node(b) => {
                proof {
                    assert(decreases_to!(n0 => n0.children));
                    assert(decreases_to!(n0.children => n0.children@));
                    assert(decreases_to!(n0.children@ => n0.children@[i as int]));
                    assert(n0.children@[i as int] == RChild::Node(*b));
                    assert(decreases_to!(n0.children@[i as int] => *b));
                }
                r_query_node(b, q, out);
                proof {
                    let c0 = n0.children@[i as int];
                    assert(rc_items(c0) == r_items(**b));
                    assert forall|s: usize|
                        out@.contains(s) <==> (old(out)@.contains(s) || exists|j: int, z: int|
                            0 <= j < i + 1 && 0 <= z < rc_items(
                                #[trigger] n0.children@[j],
                            ).len() && (#[trigger] rc_items(n0.children@[j])[z]).0 == s
                                && s_overlaps(rc_items(n0.children@[j])[z].1, *q)) by {
                        if out@.contains(s) {
                            if !out_mid.contains(s) {
                                let z = choose|z: int|
                                    0 <= z < r_items(**b).len() && (#[trigger] r_items(
                                        **b,
                                    )[z]).0 == s && s_overlaps(r_items(**b)[z].1, *q);
                                assert(rc_items(c0)[z].0 == s && s_overlaps(
                                    rc_items(c0)[z].1,
                                    *q,
                                ));
                            } else {
                                if !old(out)@.contains(s) {
                                    let (j, z) = choose|j: int, z: int|
                                        0 <= j < i && 0 <= z < rc_items(
                                            #[trigger] n0.children@[j],
                                        ).len() && (#[trigger] rc_items(
                                            n0.children@[j],
                                        )[z]).0 == s && s_overlaps(
                                            rc_items(n0.children@[j])[z].1,
                                            *q,
                                        );
                                }
                            }
                        }
                        if exists|j: int, z: int|
                            0 <= j < i + 1 && 0 <= z < rc_items(
                                #[trigger] n0.children@[j],
                            ).len() && (#[trigger] rc_items(n0.children@[j])[z]).0 == s
                                && s_overlaps(rc_items(n0.children@[j])[z].1, *q) {
                            let (j, z) = choose|j: int, z: int|
                                0 <= j < i + 1 && 0 <= z < rc_items(
                                    #[trigger] n0.children@[j],
                                ).len() && (#[trigger] rc_items(n0.children@[j])[z]).0 == s
                                    && s_overlaps(rc_items(n0.children@[j])[z].1, *q);
                            if j < i {
                                assert(out_mid.contains(s));
                            } else {
                                assert(r_items(**b)[z].0 == s && s_overlaps(
                                    r_items(**b)[z].1,
                                    *q,
                                ));
                            }
                            assert(out@.contains(s));
                        }
                    }
                }
            },
        }
        i += 1;
    }
    proof {
        lemma_rl_membership(n0.children@);
        assert forall|s: usize|
            out@.contains(s) <==> (old(out)@.contains(s) || exists|j: int|
                0 <= j < r_items(n0).len() && (#[trigger] r_items(n0)[j]).0 == s && s_overlaps(
                    r_items(n0)[j].1,
                    *q,
                )) by {
            if out@.contains(s) && !old(out)@.contains(s) {
                let (j, z) = choose|j: int, z: int|
                    0 <= j < cn && 0 <= z < rc_items(#[trigger] n0.children@[j]).len() && (
                    #[trigger] rc_items(n0.children@[j])[z]).0 == s && s_overlaps(
                        rc_items(n0.children@[j])[z].1,
                        *q,
                    );
                let p = rc_items(n0.children@[j])[z];
                assert(rc_items(n0.children@[j]).contains(p));
                assert(rl_items(n0.children@).contains(p));
                let w = choose|w: int|
                    0 <= w < r_items(n0).len() && r_items(n0)[w] == p;
            }
            if !out@.contains(s) && !old(out)@.contains(s) {
                if exists|j: int|
                    0 <= j < r_items(n0).len() && (#[trigger] r_items(n0)[j]).0 == s
                        && s_overlaps(r_items(n0)[j].1, *q) {
                    let j = choose|j: int|
                        0 <= j < r_items(n0).len() && (#[trigger] r_items(n0)[j]).0 == s
                            && s_overlaps(r_items(n0)[j].1, *q);
                    let p = r_items(n0)[j];
                    assert(rl_items(n0.children@).contains(p));
                    let w = choose|w: int|
                        0 <= w < n0.children@.len() && #[trigger] rc_items(
                            n0.children@[w],
                        ).contains(p);
                    let z = choose|z: int|
                        0 <= z < rc_items(n0.children@[w]).len() && rc_items(
                            n0.children@[w],
                        )[z] == p;
                    assert(out@.contains(s));
                    assert(false);
                }
            }
        }
    }
}

/// R-tree backend using SAH-like splits and widened accumulator metrics.
pub struct RTree {
    max_children: usize,
    min_children: usize,
    root: Option<Box<RNode>>,
    slots: Vec<Option<Aabb2D>>,
}

impl RTree {
    /// Grow the slot mirror so that `slot` is addressable, and record `v`.
    fn set_slot(&mut self, slot: usize, v: Option<Aabb2D>)
        ensures
            final(self).slots@.len() > slot,
            final(self).slots@.len() >= old(self).slots@.len(),
            final(self).slots@[slot as int] == v,
            forall|i: int|
                0 <= i < final(self).slots@.len() && i != slot
                    ==> final(self).slots@[i] == if i < old(self).slots@.len() {
                    old(self).slots@[i]
                } else {
                    None::<Aabb2D>
                },
            final(self).root == old(self).root,
            final(self).max_children == old(self).max_children,
            final(self).min_children == old(self).min_children,
    {
        while self.slots.len() <= slot
            invariant
                self.slots@.len() >= old(self).slots@.len(),
                forall|i: int|
                    0 <= i < self.slots@.len()
                        ==> self.slots@[i] == if i < old(self).slots@.len() {
                        old(self).slots@[i]
                    } else {
                        None::<Aabb2D>
                    },
                self.root == old(self).root,
                self.max_children == old(self).max_children,
                self.min_children == old(self).min_children,
            decreases slot + 1 - self.slots@.len(),
        {
            self.slots.push(None);
        }
        self.slots[slot] = v;
    }
}

impl Backend for RTree {
    closed spec fn contents(&self) -> Map<usize, Aabb2D> {
        s_slot_map(self.slots@)
    }

    closed spec fn wf(&self) -> bool {
        &&& self.min_children >= 1
        &&& 2 * self.min_children <= self.max_children + 1
        &&& match self.root {
            None => forall|i: int| 0 <= i < self.slots@.len() ==> self.slots@[i] is None,
            Some(rt) => {
                &&& r_wf(*rt)
                &&& !rt.leaf ==> rt.children@.len() >= 1
                &&& forall|p: (usize, Aabb2D)|
                    #[trigger] r_items(*rt).contains(p) && !s_empty(p.1) ==> (p.0 as int)
                        < self.slots@.len() && self.slots@[p.0 as int] == Some(p.1)
                &&& forall|i: int|
                    0 <= i < self.slots@.len() && (#[trigger] self.slots@[i]) is Some && !s_empty(
                        self.slots@[i]->0,
                    ) ==> r_items(*rt).contains((i as usize, self.slots@[i]->0))
            },
        }
    }

    fn empty() -> (r: Self)
        ensures
            r.wf(),
            r.contents() == Map::<usize, Aabb2D>::empty(),
    {
        let r = RTree { max_children: 8, min_children: 4, root: None, slots: Vec::new() };
        proof {
            assert(r.contents() =~= Map::<usize, Aabb2D>::empty());
        }
        r
    }

    fn insert(&mut self, slot: usize, aabb: Aabb2D) {
        proof {
            if (slot as int) < self.slots@.len() {
                assert(self.slots@[slot as int] is None);
            }
        }
        self.set_slot(slot, Some(aabb));
        let rt = self.root.take();
        match rt {
            None => {
                let mut one: Vec<RChild> = Vec::new();
                one.push(RChild::Item { slot, bbox: aabb });
                let ghost onev = one@;
                let leaf = Box::new(RNode { bbox: aabb, leaf: true, children: one });
                proof {
                    assert(rc_wf(onev[0], true, aabb));
                    lemma_rl_wf_all(onev, true, aabb);
                    assert(r_wf(*leaf));
                    assert(r_items(*leaf) == rl_items(onev));
                    assert(rl_items(onev) == rl_items(onev.drop_last()) + rc_items(onev[0]));
                    assert(r_items(*leaf) =~= seq![(slot, aabb)]);
                }
                self.root = Some(leaf);
                proof {
                    assert(r_items(*self.root->0) =~= seq![(slot, aabb)]);
                    assert forall|p: (usize, Aabb2D)|
                        #[trigger] r_items(*self.root->0).contains(p) && !s_empty(p.1) implies (p.0
                        as int) < self.slots@.len() && self.slots@[p.0 as int] == Some(p.1) by {
                        let j = choose|j: int|
                            0 <= j < r_items(*self.root->0).len() && r_items(*self.root->0)[j]
                                == p;
                        assert(p == (slot, aabb));
                    }
                    assert forall|i: int|
                        0 <= i < self.slots@.len() && (#[trigger] self.slots@[i]) is Some
                            && !s_empty(self.slots@[i]->0) implies r_items(
                        *self.root->0,
                    ).contains((i as usize, self.slots@[i]->0)) by {
                        if i != slot {
                            if i < old(self).slots@.len() {
                                assert(old(self).slots@[i] is None);
                            }
                            assert(false);
                        } else {
                            assert(r_items(*self.root->0)[0] == (slot, aabb));
                        }
                    }
                    assert(self.contents() =~= old(self).contents().insert(slot, aabb));
                    assert(self.wf());
                }
            },
            Some(rtb) => {
                let ghost rt0 = *rtb;
                proof {
                    assert(old(self).root == Some(rtb));
                    assert(rt0 == *old(self).root->0);
                }
                let maxc = self.max_children;
                let minc = self.min_children;
                let (nr, sib) = r_insert_node(rtb, slot, aabb, maxc, minc);
                let ghost nrv = *nr;
                match sib {
                    None => {
                        self.root = Some(nr);
                        proof {
                            assert(r_items(*self.root->0) == r_items(nrv));
                            self.lemma_insert_invariants(
                                *old(self),
                                rt0,
                                r_items(nrv),
                                slot,
                                aabb,
                            );
                            assert(self.contents() =~= old(self).contents().insert(slot, aabb));
                            assert(self.wf());
                        }
                    },
                    Some(sb) => {
                        let ghost sbv = *sb;
                        let new_bb = union_aabb(nr.bbox, sb.bbox);
                        let mut two: Vec<RChild> = Vec::new();
                        two.push(RChild::Node(nr));
                        two.push(RChild::Node(sb));
                        let ghost twov = two@;
                        let newroot = Box::new(
                            RNode { bbox: new_bb, leaf: false, children: two },
                        );
                        proof {
                            assert(twov[0] == RChild::Node(Box::new(nrv)));
                            assert(twov[1] == RChild::Node(Box::new(sbv)));
                            assert(rc_wf(twov[0], false, new_bb));
                            assert(rc_wf(twov[1], false, new_bb));
                            lemma_rl_wf_all(twov, false, new_bb);
                            assert(r_wf(*newroot));
                            assert(twov.len() == 2);
                            assert(twov.last() == twov[1]);
                            assert(twov.drop_last().last() == twov[0]);
                            assert(twov.drop_last().drop_last() =~= Seq::<RChild>::empty());
                            assert(rl_items(twov.drop_last()) == rl_items(
                                twov.drop_last().drop_last(),
                            ) + rc_items(twov.drop_last().last()));
                            assert(rc_items(twov[0]) == r_items(nrv));
                            assert(rc_items(twov[1]) == r_items(sbv));
                            assert(rl_items(twov) == rl_items(twov.drop_last()) + rc_items(
                                twov.last(),
                            ));
                            assert(r_items(*newroot) =~= r_items(nrv) + r_items(sbv));
                        }
                        self.root = Some(newroot);
                        proof {
                            let items1 = r_items(*self.root->0);
                            assert forall|p: (usize, Aabb2D)| #[trigger] items1.contains(p)
                                implies (r_items(nrv).contains(p) || r_items(sbv).contains(
                                p,
                            )) by {
                                let j = choose|j: int| 0 <= j < items1.len() && items1[j] == p;
                                if j < r_items(nrv).len() {
                                    assert(r_items(nrv)[j] == p);
                                } else {
                                    assert(r_items(sbv)[j - r_items(nrv).len()] == p);
                                }
                            }
                            assert forall|p: (usize, Aabb2D)|
                                (r_items(nrv).contains(p) || r_items(sbv).contains(p)) implies
                                items1.contains(p) by {
                                if r_items(nrv).contains(p) {
                                    let j = choose|j: int|
                                        0 <= j < r_items(nrv).len() && r_items(nrv)[j] == p;
                                    assert(items1[j] == p);
                                } else {
                                    let j = choose|j: int|
                                        0 <= j < r_items(sbv).len() && r_items(sbv)[j] == p;
                                    assert(items1[r_items(nrv).len() + j] == p);
                                }
                            }
                            assert forall|p: (usize, Aabb2D)|
                                #[trigger] items1.contains(p) && !s_empty(p.1) implies (p.0
                                as int) < self.slots@.len() && self.slots@[p.0 as int] == Some(
                                p.1,
                            ) by {
                                if p == (slot, aabb) {
                                } else {
                                    assert(r_items(rt0).contains(p));
                                    assert(old(self).slots@[p.0 as int] == Some(p.1));
                                }
                            }
                            assert forall|i: int|
                                0 <= i < self.slots@.len() && (#[trigger] self.slots@[i]) is Some
                                    && !s_empty(self.slots@[i]->0) implies items1.contains(
                                (i as usize, self.slots@[i]->0),
                            ) by {
                                if i == slot {
                                    assert(r_items(nrv).contains((slot, aabb)) || r_items(
                                        sbv,
                                    ).contains((slot, aabb)));
                                } else {
                                    assert(old(self).slots@[i] == self.slots@[i]);
                                    assert(r_items(rt0).contains((i as usize, self.slots@[i]->0)));
                                }
                            }
                            assert(self.contents() =~= old(self).contents().insert(slot, aabb));
                            assert(self.wf());
                        }
                    },
                }
            },
        }
    }

    /// When the slot's committed box is non-empty the rewrite happens in
    /// place: the tree keeps its node count and its root shape, only boxes
    /// along the item's path change.
    fn update(&mut self, slot: usize, aabb: Aabb2D)
        ensures
            !s_empty(old(self).contents()[slot]) ==> {
                &&& final(self).spec_node_count() == old(self).spec_node_count()
                &&& final(self).spec_root_is_leaf() == old(self).spec_root_is_leaf()
            },
    {
        proof {
            assert(self.contents().dom().contains(slot));
            assert((slot as int) < self.slots@.len() && self.slots@[slot as int] is Some);
        }
        let old_b = match &self.slots[slot] {
            Some(b) => *b,
            None => Aabb2D { min_x: 0, min_y: 0, max_x: 0, max_y: 0 },
        };
        let rt = self.root.take();
        match rt {
            None => {
                proof {
                    assert(false);
                }
            },
            Some(rtb) => {
                let ghost rt0 = *rtb;
                proof {
                    assert(old(self).root == Some(rtb));
                    assert(rt0 == *old(self).root->0);
                }
                let (rt1, found) = r_update_in_place(rtb, slot, &old_b, &aabb);
                let ghost rt1v = *rt1;
                if found {
                    self.root = Some(rt1);
                    self.slots[slot] = Some(aabb);
                    proof {
                        let items1 = r_items(*self.root->0);
                        assert(items1 == r_items(rt1v));
                        assert forall|p: (usize, Aabb2D)|
                            #[trigger] items1.contains(p) && !s_empty(p.1) implies (p.0 as int)
                            < self.slots@.len() && self.slots@[p.0 as int] == Some(p.1) by {
                            if p.0 == slot {
                                if p != (slot, aabb) {
                                    assert(r_items(rt0).contains(p) && !s_overlaps(
                                        p.1,
                                        s_union(old_b, aabb),
                                    ));
                                    assert(old(self).slots@[slot as int] == Some(p.1));
                                    assert(p.1 == old_b);
                                    assert(s_overlaps(p.1, s_union(old_b, aabb)));
                                    assert(false);
                                }
                            } else {
                                assert(r_items(rt0).contains(p));
                                assert(old(self).slots@[p.0 as int] == Some(p.1));
                            }
                        }
                        assert forall|i: int|
                            0 <= i < self.slots@.len() && (#[trigger] self.slots@[i]) is Some
                                && !s_empty(self.slots@[i]->0) implies items1.contains(
                            (i as usize, self.slots@[i]->0),
                        ) by {
                            vstd::std_specs::vec::axiom_spec_len(&self.slots);
                            if i == slot {
                                assert(self.slots@[i] == Some(aabb));
                                assert(items1.contains((slot, aabb)));
                                assert((i as usize, self.slots@[i]->0) == (slot, aabb));
                            } else {
                                assert(old(self).slots@[i] == self.slots@[i]);
                                assert(r_items(rt0).contains((i as usize, self.slots@[i]->0)));
                                let pr = (i as usize, self.slots@[i]->0);
                                assert(pr.0 as int == i);
                                assert(pr.0 != slot);
                                assert(items1.contains(pr));
                            }
                        }
                        assert(self.contents() =~= old(self).contents().insert(slot, aabb));
                        assert(self.wf());
                        assert(self.spec_node_count() == old(self).spec_node_count());
                        assert(self.spec_root_is_leaf() == old(self).spec_root_is_leaf());
                    }
                } else {
                    proof {
                        assert(!rt1v.leaf ==> rt1v.children@.len() >= 1) by {
                            assert(rt1v.leaf == rt0.leaf);
                            assert(rt1v.children@.len() == rt0.children@.len());
                        }
                        // only an empty committed box can miss the in-place
                        // search, so the fallback never fires the in-place
                        // preservation claim
                        assert(old(self).contents()[slot] == old_b);
                        assert(s_empty(old_b)) by {
                            if !s_empty(old_b) {
                                assert(r_items(rt0).contains((slot, old_b)));
                            }
                        }
                    }
                    let (rt2, _) = r_search_remove(rt1, slot, &old_b);
                    let ghost rt2v = *rt2;
                    let maxc = self.max_children;
                    let minc = self.min_children;
                    let (nr, sib) = r_insert_node(rt2, slot, aabb, maxc, minc);
                    let ghost nrv = *nr;
                    let ghost sibv: Option<RNode> = if sib is Some {
                        Some(*sib->0)
                    } else {
                        None
                    };
                    let newroot: Box<RNode> = match sib {
                        None => nr,
                        Some(sb) => {
                            let new_bb = union_aabb(nr.bbox, sb.bbox);
                            let mut two: Vec<RChild> = Vec::new();
                            two.push(RChild::Node(nr));
                            two.push(RChild::Node(sb));
                            let ghost twov = two@;
                            let root2 = Box::new(
                                RNode { bbox: new_bb, leaf: false, children: two },
                            );
                            proof {
                                assert(twov[0] == RChild::Node(Box::new(nrv)));
                                assert(twov[1] == RChild::Node(Box::new(sibv->0)));
                                assert(rc_wf(twov[0], false, new_bb));
                                assert(rc_wf(twov[1], false, new_bb));
                                lemma_rl_wf_all(twov, false, new_bb);
                                assert(r_wf(*root2));
                                assert(twov.len() == 2);
                                assert(twov.last() == twov[1]);
                                assert(twov.drop_last().last() == twov[0]);
                                assert(twov.drop_last().drop_last() =~= Seq::<RChild>::empty());
                                assert(rl_items(twov.drop_last()) == rl_items(
                                    twov.drop_last().drop_last(),
                                ) + rc_items(twov.drop_last().last()));
                                assert(rc_items(twov[0]) == r_items(nrv));
                                assert(rc_items(twov[1]) == r_items(sibv->0));
                                assert(rl_items(twov) == rl_items(twov.drop_last()) + rc_items(
                                    twov.last(),
                                ));
                                assert(r_items(*root2) =~= r_items(nrv) + r_items(sibv->0));
                            }
                            root2
                        },
                    };
                    let ghost newrootv = *newroot;
                    proof {
                        assert forall|p: (usize, Aabb2D)|
                            #[trigger] r_items(newrootv).contains(p) implies (r_items(
                            nrv,
                        ).contains(p) || (sibv is Some && r_items(sibv->0).contains(p))) by {
                            if sibv is Some {
                                let j = choose|j: int|
                                    0 <= j < r_items(newrootv).len() && r_items(newrootv)[j]
                                        == p;
                                if j < r_items(nrv).len() {
                                    assert(r_items(nrv)[j] == p);
                                } else {
                                    assert(r_items(sibv->0)[j - r_items(nrv).len()] == p);
                                }
                            }
                        }
                        assert forall|p: (usize, Aabb2D)|
                            (r_items(nrv).contains(p) || (sibv is Some && r_items(
                                sibv->0,
                            ).contains(p))) implies #[trigger] r_items(newrootv).contains(p) by {
                            if sibv is Some {
                                if r_items(nrv).contains(p) {
                                    let j = choose|j: int|
                                        0 <= j < r_items(nrv).len() && r_items(nrv)[j] == p;
                                    assert(r_items(newrootv)[j] == p);
                                } else {
                                    let j = choose|j: int|
                                        0 <= j < r_items(sibv->0).len() && r_items(sibv->0)[j]
                                            == p;
                                    assert(r_items(newrootv)[r_items(nrv).len() + j] == p);
                                }
                            }
                        }
                    }
                    self.root = Some(newroot);
                    self.slots[slot] = Some(aabb);
                    proof {
                        let items3 = r_items(*self.root->0);
                        assert(items3 == r_items(newrootv));
                        assert forall|p: (usize, Aabb2D)|
                            #[trigger] items3.contains(p) && !s_empty(p.1) implies (p.0 as int)
                            < self.slots@.len() && self.slots@[p.0 as int] == Some(p.1) by {
                            if p == (slot, aabb) {
                            } else {
                                assert(r_items(rt2v).contains(p));
                                assert(r_items(rt1v).contains(p));
                                if p.0 == slot {
                                    assert(!s_overlaps(p.1, old_b));
                                    if p == (slot, aabb) {
                                    } else {
                                        assert(r_items(rt0).contains(p) && !s_overlaps(
                                            p.1,
                                            s_union(old_b, aabb),
                                        ));
                                        assert(old(self).slots@[slot as int] == Some(p.1));
                                        assert(p.1 == old_b);
                                        assert(s_overlaps(p.1, s_union(old_b, aabb)));
                                        assert(false);
                                    }
                                } else {
                                    assert(r_items(rt0).contains(p));
                                    assert(old(self).slots@[p.0 as int] == Some(p.1));
                                }
                            }
                        }
                        assert forall|i: int|
                            0 <= i < self.slots@.len() && (#[trigger] self.slots@[i]) is Some
                                && !s_empty(self.slots@[i]->0) implies items3.contains(
                            (i as usize, self.slots@[i]->0),
                        ) by {
                            vstd::std_specs::vec::axiom_spec_len(&self.slots);
                            if i == slot {
                                assert(r_items(nrv).contains((slot, aabb)) || (sibv is Some
                                    && r_items(sibv->0).contains((slot, aabb))));
                                assert(items3.contains((slot, aabb)));
                                assert((i as usize, self.slots@[i]->0) == (slot, aabb));
                            } else {
                                assert(old(self).slots@[i] == self.slots@[i]);
                                let pr = (i as usize, self.slots@[i]->0);
                                assert(pr.0 as int == i);
                                assert(pr.0 != slot);
                                assert(r_items(rt0).contains(pr));
                                assert(r_items(rt1v).contains(pr));
                                assert(r_items(rt2v).contains(pr));
                                assert(r_items(nrv).contains(pr) || (sibv is Some && r_items(
                                    sibv->0,
                                ).contains(pr)));
                                assert(items3.contains(pr));
                            }
                        }
                        assert(self.contents() =~= old(self).contents().insert(slot, aabb));
                        assert(self.wf());
                    }
                }
            },
        }
    }

    fn remove(&mut self, slot: usize) {
        proof {
            assert(self.contents().dom().contains(slot));
            assert((slot as int) < self.slots@.len() && self.slots@[slot as int] is Some);
        }
        let old_b = match &self.slots[slot] {
            Some(b) => *b,
            None => Aabb2D { min_x: 0, min_y: 0, max_x: 0, max_y: 0 },
        };
        let rt = self.root.take();
        match rt {
            None => {
                proof {
                    assert(false);
                }
            },
            Some(rtb) => {
                let ghost rt0 = *rtb;
                proof {
                    assert(old(self).root == Some(rtb));
                    assert(rt0 == *old(self).root->0);
                }
                let (nr, _) = r_search_remove(rtb, slot, &old_b);
                let ghost nrv = *nr;
                self.root = Some(nr);
                self.slots[slot] = None;
                proof {
                    let items1 = r_items(*self.root->0);
                    assert(items1 == r_items(nrv));
                    assert forall|p: (usize, Aabb2D)|
                        #[trigger] items1.contains(p) && !s_empty(p.1) implies (p.0 as int)
                        < self.slots@.len() && self.slots@[p.0 as int] == Some(p.1) by {
                        assert(r_items(nrv).contains(p));
                        assert(r_items(rt0).contains(p));
                        if p.0 == slot {
                            assert(old(self).slots@[slot as int] == Some(p.1));
                            assert(p.1 == old_b);
                            assert(s_overlaps(p.1, old_b));
                            assert(false);
                        } else {
                            assert(old(self).slots@[p.0 as int] == Some(p.1));
                        }
                    }
                    assert forall|i: int|
                        0 <= i < self.slots@.len() && (#[trigger] self.slots@[i]) is Some
                            && !s_empty(self.slots@[i]->0) implies items1.contains(
                        (i as usize, self.slots@[i]->0),
                    ) by {
                        assert(i != slot);
                        vstd::std_specs::vec::axiom_spec_len(&self.slots);
                        assert(self.slots@.len() <= usize::MAX);
                        assert(old(self).slots@[i] == self.slots@[i]);
                        assert(old(self).slots@[i] is Some && !s_empty(old(self).slots@[i]->0));
                        assert(r_items(rt0).contains((i as usize, old(self).slots@[i]->0)));
                        let pr = (i as usize, self.slots@[i]->0);
                        assert(pr.0 as int == i);
                        assert(pr.0 != slot);
                        assert(r_items(nrv).contains(pr));
                    }
                    assert(self.contents() =~= old(self).contents().remove(slot));
                    assert(self.wf());
                }
            },
        }
    }

    fn clear(&mut self) {
        self.root = None;
        self.slots.clear();
        proof {
            assert(self.contents() =~= Map::<usize, Aabb2D>::empty());
        }
    }

    fn query_point(&self, x: i64, y: i64) -> (r: Vec<usize>) {
        let qb = Aabb2D { min_x: x, min_y: y, max_x: x, max_y: y };
        let mut out: Vec<usize> = Vec::new();
        match &self.root {
            None => {
                proof {
                    assert(s_point_candidates(self.contents(), x as int, y as int, out@));
                }
            },
            Some(rt) => {
                r_query_node(rt, &qb, &mut out);
                proof {
                    let items = r_items(**rt);
                    assert(items == r_items(*self.root->0));
                    assert forall|j: int| 0 <= j < out@.len() implies self.contents().dom(
                    ).contains(#[trigger] out@[j]) by {
                        let s = out@[j];
                        assert(out@.contains(s));
                        let q = choose|q: int|
                            0 <= q < items.len() && (#[trigger] items[q]).0 == s && s_overlaps(
                                items[q].1,
                                qb,
                            );
                        assert(items.contains(items[q]));
                        assert(!s_empty(items[q].1));
                        assert(self.slots@[s as int] == Some(items[q].1));
                    }
                    assert forall|s: usize|
                        self.contents().dom().contains(s) && crate::geom::s_contains_point(
                            #[trigger] self.contents()[s],
                            x as int,
                            y as int,
                        ) implies out@.contains(s) by {
                        let b = self.slots@[s as int]->0;
                        assert(!s_empty(b));
                        assert(s_overlaps(b, qb));
                        assert(items.contains((s, b)));
                        let j = choose|j: int| 0 <= j < items.len() && items[j] == (s, b);
                    }
                }
            },
        }
        out
    }

    fn query_rect(&self, rect: Aabb2D) -> (r: Vec<usize>) {
        let mut out: Vec<usize> = Vec::new();
        match &self.root {
            None => {
                proof {
                    assert(s_rect_candidates(self.contents(), rect, out@));
                }
            },
            Some(rt) => {
                r_query_node(rt, &rect, &mut out);
                proof {
                    let items = r_items(**rt);
                    assert(items == r_items(*self.root->0));
                    assert forall|j: int| 0 <= j < out@.len() implies self.contents().dom(
                    ).contains(#[trigger] out@[j]) by {
                        let s = out@[j];
                        assert(out@.contains(s));
                        let q = choose|q: int|
                            0 <= q < items.len() && (#[trigger] items[q]).0 == s && s_overlaps(
                                items[q].1,
                                rect,
                            );
                        assert(items.contains(items[q]));
                        assert(!s_empty(items[q].1));
                        assert(self.slots@[s as int] == Some(items[q].1));
                    }
                    assert forall|s: usize|
                        self.contents().dom().contains(s) && s_overlaps(
                            #[trigger] self.contents()[s],
                            rect,
                        ) implies out@.contains(s) by {
                        let b = self.slots@[s as int]->0;
                        assert(!s_empty(b));
                        assert(items.contains((s, b)));
                        let j = choose|j: int| 0 <= j < items.len() && items[j] == (s, b);
                    }
                }
            },
        }
        out
    }
}

impl RTree {
    /// The slot-map invariants transfer from the old tree to a tree whose
    /// items are the old ones plus a freshly inserted pair.
    proof fn lemma_insert_invariants(
        &self,
        old_self: RTree,
        rt0: RNode,
        items1: Seq<(usize, Aabb2D)>,
        slot: usize,
        aabb: Aabb2D,
    )
        requires
            old_self.wf(),
            old_self.root is Some,
            rt0 == *old_self.root->0,
            !old_self.contents().dom().contains(slot),
            self.root is Some,
            items1 == r_items(*self.root->0),
            forall|p: (usize, Aabb2D)|
                #[trigger] items1.contains(p) <==> (r_items(rt0).contains(p) || p == (
                slot,
                aabb,
            )),
            self.slots@.len() > slot,
            self.slots@.len() >= old_self.slots@.len(),
            self.slots@[slot as int] == Some(aabb),
            forall|i: int|
                0 <= i < self.slots@.len() && i != slot
                    ==> self.slots@[i] == if i < old_self.slots@.len() {
                    old_self.slots@[i]
                } else {
                    None::<Aabb2D>
                },
        ensures
            forall|p: (usize, Aabb2D)|
                #[trigger] items1.contains(p) && !s_empty(p.1) ==> (p.0 as int)
                    < self.slots@.len() && self.slots@[p.0 as int] == Some(p.1),
            forall|i: int|
                0 <= i < self.slots@.len() && (#[trigger] self.slots@[i]) is Some && !s_empty(
                    self.slots@[i]->0,
                ) ==> items1.contains((i as usize, self.slots@[i]->0)),
    {
        assert forall|p: (usize, Aabb2D)|
            #[trigger] items1.contains(p) && !s_empty(p.1) implies (p.0 as int)
            < self.slots@.len() && self.slots@[p.0 as int] == Some(p.1) by {
            if p == (slot, aabb) {
            } else {
                assert(r_items(rt0).contains(p));
                assert(old_self.slots@[p.0 as int] == Some(p.1));
                if p.0 == slot {
                    assert(old_self.contents().dom().contains(slot));
                    assert(false);
                }
            }
        }
        assert forall|i: int|
            0 <= i < self.slots@.len() && (#[trigger] self.slots@[i]) is Some && !s_empty(
                self.slots@[i]->0,
            ) implies items1.contains((i as usize, self.slots@[i]->0)) by {
            if i == slot {
                assert(items1.contains((slot, aabb)));
            } else {
                assert(old_self.slots@[i] == self.slots@[i]);
                assert(r_items(rt0).contains((i as usize, self.slots@[i]->0)));
            }
        }
    }
}

/// A free-standing child that can stand under any parent: an item for leaf
/// packing, or a well-formed non-empty subtree for level packing.
pub(crate) open spec fn rc_rootless_ok(c: RChild, leaf: bool) -> bool {
    match c {
        RChild::Item { slot, bbox } => leaf,
        RChild::Node(b) => !leaf && b.children@.len() >= 1 && rl_wf(b.children@, b.leaf, b.bbox),
    }
}

/// Split off the first `k` children, preserving order.
fn take_front(v: Vec<RChild>, k: usize) -> (r: (Vec<RChild>, Vec<RChild>))
    requires
        k <= v@.len(),
    ensures
        r.0@ == v@.take(k as int),
        r.1@ == v@.subrange(k as int, v@.len() as int),
{
    let mut front = v;
    let back = front.split_off(k);
    (front, back)
}

/// Pack a run of free-standing children into nodes of at most `cap`
/// children each, the sort-tile-recursive way: sort by x-centroid, cut into
/// roughly square slices, sort each slice by y-centroid, and chunk. The
/// output nodes hold exactly the input items.
pub(crate) fn pack_level(input: Vec<RChild>, cap: usize, leaf: bool) -> (out: Vec<RChild>)
    requires
        cap >= 1,
        input@.len() >= 1,
        forall|i: int| 0 <= i < input@.len() ==> rc_rootless_ok(#[trigger] input@[i], leaf),
    ensures
        out@.len() >= 1,
        forall|i: int| 0 <= i < out@.len() ==> rc_rootless_ok(#[trigger] out@[i], false),
        forall|p: (usize, Aabb2D)| rl_items(out@).contains(p) <==> rl_items(input@).contains(p),
{
    let ghost orig = input@;
    let n = input.len();
    let nq = n / cap;
    let num_nodes = if n % cap > 0 && nq < n {
        nq + 1
    } else {
        nq
    };
    let mut gx: usize = 1;
    loop
        invariant
            1 <= gx,
            gx <= n,
        ensures
            1 <= gx <= n,
        decreases n - gx,
    {
        proof {
            assert((gx as u128) * (gx as u128) <= (u64::MAX as u128) * (u64::MAX as u128))
                by (nonlinear_arith)
                requires
                    0 <= gx as u128 <= u64::MAX as u128;
            assert((u64::MAX as u128) * (u64::MAX as u128) <= u128::MAX) by (nonlinear_arith);
        }
        if !((gx as u128) * (gx as u128) < (num_nodes as u128) && gx < n) {
            break;
        }
        gx += 1;
    }
    let sq = n / gx;
    let slice_size = if n % gx > 0 && sq < n {
        sq + 1
    } else {
        if sq >= 1 {
            sq
        } else {
            1
        }
    };
    let sorted = sort_children(input, true);
    let mut rest = sorted;
    let mut out: Vec<RChild> = Vec::new();
    proof {
        lemma_split_items(out@, rest@, orig);
        assert forall|i: int| 0 <= i < rest@.len() implies rc_rootless_ok(
            #[trigger] rest@[i],
            leaf,
        ) by {
            assert(rest@.contains(rest@[i]));
            assert(orig.contains(rest@[i]));
            let j = choose|j: int| 0 <= j < orig.len() && orig[j] == rest@[i];
        }
    }
    while rest.len() > 0
        invariant
            cap >= 1,
            slice_size >= 1,
            forall|i: int| 0 <= i < rest@.len() ==> rc_rootless_ok(#[trigger] rest@[i], leaf),
            forall|i: int| 0 <= i < out@.len() ==> rc_rootless_ok(#[trigger] out@[i], false),
            forall|p: (usize, Aabb2D)|
                (rl_items(out@).contains(p) || rl_items(rest@).contains(p)) <==> rl_items(
                    orig,
                ).contains(p),
            out@.len() + rest@.len() >= 1,
        decreases rest@.len(),
    {
        let k = if slice_size < rest.len() {
            slice_size
        } else {
            rest.len()
        };
        let ghost rest0 = rest@;
        let (slice, rest2) = take_front(rest, k);
        rest = rest2;
        let slice = sort_children(slice, false);
        let mut slice = slice;
        proof {
            assert forall|c: RChild| (slice@.contains(c) || rest@.contains(c)) <==> rest0
                .contains(c) by {
                if rest0.contains(c) {
                    let j = choose|j: int| 0 <= j < rest0.len() && rest0[j] == c;
                    if j < k {
                        assert(rest0.take(k as int)[j] == c);
                    } else {
                        assert(rest0.subrange(k as int, rest0.len() as int)[j - k] == c);
                    }
                }
                if rest@.contains(c) {
                    let j = choose|j: int| 0 <= j < rest@.len() && rest@[j] == c;
                    assert(rest0[k + j] == c);
                }
            }
            lemma_split_items(slice@, rest@, rest0);
            assert forall|i: int| 0 <= i < slice@.len() implies rc_rootless_ok(
                #[trigger] slice@[i],
                leaf,
            ) by {
                assert(slice@.contains(slice@[i]));
                assert(rest0.contains(slice@[i]));
                let j = choose|j: int| 0 <= j < rest0.len() && rest0[j] == slice@[i];
            }
            assert forall|i: int| 0 <= i < rest@.len() implies rc_rootless_ok(
                #[trigger] rest@[i],
                leaf,
            ) by {
                assert(rest@.contains(rest@[i]));
                assert(rest0.contains(rest@[i]));
                let j = choose|j: int| 0 <= j < rest0.len() && rest0[j] == rest@[i];
            }
        }
        while slice.len() > 0
            invariant
                cap >= 1,
                forall|i: int|
                    0 <= i < slice@.len() ==> rc_rootless_ok(#[trigger] slice@[i], leaf),
                forall|i: int| 0 <= i < out@.len() ==> rc_rootless_ok(#[trigger] out@[i], false),
                forall|p: (usize, Aabb2D)|
                    (rl_items(out@).contains(p) || rl_items(slice@).contains(p) || rl_items(
                        rest@,
                    ).contains(p)) <==> rl_items(orig).contains(p),
                out@.len() + slice@.len() + rest@.len() >= 1,
            decreases slice@.len(),
        {
            let k2 = if cap < slice.len() {
                cap
            } else {
                slice.len()
            };
            let ghost slice0 = slice@;
            let (chunk, slice2) = take_front(slice, k2);
            slice = slice2;
            proof {
                assert forall|c: RChild| (chunk@.contains(c) || slice@.contains(c)) <==> slice0
                    .contains(c) by {
                    if slice0.contains(c) {
                        let j = choose|j: int| 0 <= j < slice0.len() && slice0[j] == c;
                        if j < k2 {
                            assert(slice0.take(k2 as int)[j] == c);
                        } else {
                            assert(slice0.subrange(k2 as int, slice0.len() as int)[j - k2] == c);
                        }
                    }
                    if slice@.contains(c) {
                        let j = choose|j: int| 0 <= j < slice@.len() && slice@[j] == c;
                        assert(slice0[k2 + j] == c);
                    }
                }
                lemma_split_items(chunk@, slice@, slice0);
                assert forall|i: int| 0 <= i < chunk@.len() implies rc_rootless_ok(
                    #[trigger] chunk@[i],
                    leaf,
                ) by {
                    assert(chunk@.contains(chunk@[i]));
                    assert(slice0.contains(chunk@[i]));
                    let j = choose|j: int| 0 <= j < slice0.len() && slice0[j] == chunk@[i];
                }
                assert forall|i: int| 0 <= i < slice@.len() implies rc_rootless_ok(
                    #[trigger] slice@[i],
                    leaf,
                ) by {
                    assert(slice@.contains(slice@[i]));
                    assert(slice0.contains(slice@[i]));
                    let j = choose|j: int| 0 <= j < slice0.len() && slice0[j] == slice@[i];
                }
            }
            let bb = node_bbox(&chunk);
            let ghost chunkv = chunk@;
            proof {
                assert forall|i: int| 0 <= i < chunkv.len() implies rc_wf(
                    #[trigger] chunkv[i],
                    leaf,
                    bb,
                ) by {
                    assert(rc_rootless_ok(chunkv[i], leaf));
                }
                lemma_rl_wf_all(chunkv, leaf, bb);
            }
            let node = Box::new(RNode { bbox: bb, leaf, children: chunk });
            let ghost out0 = out@;
            out.push(RChild::Node(node));
            proof {
                assert(rc_items(out@[out@.len() - 1]) == rl_items(chunkv));
                assert(rc_rootless_ok(out@[out@.len() - 1], false)) by {
                    assert(chunkv.len() >= 1);
                }
                assert forall|i: int| 0 <= i < out@.len() implies rc_rootless_ok(
                    #[trigger] out@[i],
                    false,
                ) by {
                    if i < out0.len() {
                        assert(out@[i] == out0[i]);
                    }
                }
                lemma_rl_membership(out0);
                lemma_rl_membership(out@);
                assert forall|p: (usize, Aabb2D)|
                    (rl_items(out@).contains(p) || rl_items(slice@).contains(p) || rl_items(
                        rest@,
                    ).contains(p)) <==> rl_items(orig).contains(p) by {
                    if rl_items(out@).contains(p) {
                        let q = choose|q: int|
                            0 <= q < out@.len() && #[trigger] rc_items(out@[q]).contains(p);
                        if q < out0.len() {
                            assert(rc_items(out0[q]).contains(p));
                            assert(rl_items(out0).contains(p));
                        } else {
                            assert(rl_items(chunkv).contains(p));
                        }
                    }
                    if rl_items(orig).contains(p) {
                        if rl_items(out0).contains(p) {
                            let q = choose|q: int|
                                0 <= q < out0.len() && #[trigger] rc_items(out0[q]).contains(p);
                            assert(out@[q] == out0[q]);
                            assert(rc_items(out@[q]).contains(p));
                            assert(rl_items(out@).contains(p));
                        } else if rl_items(chunkv).contains(p) {
                            assert(rc_items(out@[out@.len() - 1]).contains(p));
                            assert(rl_items(out@).contains(p));
                        }
                    }
                }
            }
        }
        proof {
            assert(rl_items(slice@).len() == 0);
        }
    }
    proof {
        assert(rl_items(rest@).len() == 0);
        assert(out@.len() >= 1) by {
            if out@.len() == 0 {
                assert(rest@.len() >= 1);
            }
        }
    }
    out
}

impl RTree {
    /// Build an R-tree from `(slot, box)` pairs with a packed sort-tile
    /// layout: pack items into leaves, then promote levels until at most
    /// one fan-out of nodes remains, and root them. Slots must be pairwise
    /// distinct; the result holds exactly the given pairs.
    pub fn bulk_build_default(pairs: &[(usize, Aabb2D)]) -> (r: RTree)
        requires
            forall|i: int, j: int| 0 <= i < j < pairs@.len() ==> pairs@[i].0 != pairs@[j].0,
        ensures
            r.wf(),
            forall|s: usize|
                #[trigger] r.contents().dom().contains(s) <==> exists|i: int|
                    0 <= i < pairs@.len() && (#[trigger] pairs@[i]).0 == s,
            forall|i: int|
                0 <= i < pairs@.len() ==> r.contents().dom().contains((#[trigger] pairs@[i]).0)
                    && r.contents()[pairs@[i].0] == pairs@[i].1,
    {
        let max_children: usize = 8;
        let min_children: usize = 4;
        let n = pairs.len();
        // the slot mirror
        let mut slots: Vec<Option<Aabb2D>> = Vec::new();
        let mut i: usize = 0;
        while i < n
            invariant
                n == pairs@.len(),
                i <= n,
                forall|q: int|
                    0 <= q < slots@.len() ==> ((#[trigger] slots@[q]) is Some <==> exists|w: int|
                        0 <= w < i && (#[trigger] pairs@[w]).0 == q),
                forall|w: int|
                    0 <= w < i ==> (#[trigger] pairs@[w]).0 < slots@.len()
                        && slots@[pairs@[w].0 as int] == Some(pairs@[w].1),
                forall|i2: int, j2: int|
                    0 <= i2 < j2 < pairs@.len() ==> pairs@[i2].0 != pairs@[j2].0,
            decreases n - i,
        {
            let (sl, bb) = pairs[i];
            let ghost slots0 = slots@;
            mirror_set(&mut slots, sl, Some(bb));
            proof {
                assert(pairs@[i as int] == (sl, bb));
                assert forall|q: int|
                    0 <= q < slots@.len() implies ((#[trigger] slots@[q]) is Some <==> exists|
                    w: int,
                | 0 <= w < i + 1 && (#[trigger] pairs@[w]).0 == q) by {
                    if q == sl {
                        assert(pairs@[i as int].0 == q);
                    } else {
                        if slots@[q] is Some {
                            assert(q < slots0.len() && slots0[q] is Some);
                            let w = choose|w: int| 0 <= w < i && (#[trigger] pairs@[w]).0 == q;
                        }
                        if exists|w: int| 0 <= w < i + 1 && (#[trigger] pairs@[w]).0 == q {
                            let w = choose|w: int|
                                0 <= w < i + 1 && (#[trigger] pairs@[w]).0 == q;
                            assert(w < i);
                            assert(slots0[q] is Some);
                        }
                    }
                }
                assert forall|w: int|
                    0 <= w < i + 1 implies (#[trigger] pairs@[w]).0 < slots@.len()
                        && slots@[pairs@[w].0 as int] == Some(pairs@[w].1) by {
                    if w < i {
                        assert(pairs@[w].0 != sl);
                        assert(slots0[pairs@[w].0 as int] == Some(pairs@[w].1));
                    }
                }
            }
            i += 1;
        }
        if n == 0 {
            let r = RTree { max_children, min_children, root: None, slots };
            proof {
                assert(forall|q: int| 0 <= q < r.slots@.len() ==> r.slots@[q] is None);
                assert(r.wf());
                assert forall|s: usize| #[trigger] r.contents().dom().contains(s) implies exists|
                    i2: int,
                | 0 <= i2 < pairs@.len() && (#[trigger] pairs@[i2]).0 == s by {
                    assert(r.slots@[s as int] is Some);
                }
            }
            return r;
        }
        // items as free-standing children
        let mut items: Vec<RChild> = Vec::new();
        let mut i: usize = 0;
        while i < n
            invariant
                n == pairs@.len(),
                i <= n,
                items@.len() == i,
                forall|q: int|
                    0 <= q < items@.len() ==> (#[trigger] items@[q]) == (RChild::Item {
                        slot: pairs@[q].0,
                        bbox: pairs@[q].1,
                    }),
            decreases n - i,
        {
            let (sl, bb) = pairs[i];
            items.push(RChild::Item { slot: sl, bbox: bb });
            i += 1;
        }
        let ghost itemsv = items@;
        proof {
            lemma_rl_membership(itemsv);
            assert forall|p: (usize, Aabb2D)| rl_items(itemsv).contains(p) <==> pairs@.contains(
                p,
            ) by {
                if rl_items(itemsv).contains(p) {
                    let q = choose|q: int|
                        0 <= q < itemsv.len() && #[trigger] rc_items(itemsv[q]).contains(p);
                    let z = choose|z: int|
                        0 <= z < rc_items(itemsv[q]).len() && rc_items(itemsv[q])[z] == p;
                    assert(p == pairs@[q]);
                }
                if pairs@.contains(p) {
                    let q = choose|q: int| 0 <= q < pairs@.len() && pairs@[q] == p;
                    assert(rc_items(itemsv[q])[0] == p);
                    assert(rc_items(itemsv[q]).contains(p));
                }
            }
            assert(forall|q: int|
                0 <= q < itemsv.len() ==> rc_rootless_ok(#[trigger] itemsv[q], true));
        }
        let mut level = pack_level(items, max_children, true);
        while level.len() > max_children
            invariant
                max_children == 8,
                level@.len() >= 1,
                forall|q: int|
                    0 <= q < level@.len() ==> rc_rootless_ok(#[trigger] level@[q], false),
                forall|p: (usize, Aabb2D)|
                    rl_items(level@).contains(p) <==> rl_items(itemsv).contains(p),
            decreases level@.len(),
        {
            let before = level.len();
            let next = pack_level(level, max_children, false);
            if next.len() >= before {
                // defensive: packing must shrink the level; root what we have
                level = next;
                break;
            }
            level = next;
        }
        let ghost lv = level@;
        let root_node: Box<RNode> = if level.len() == 1 {
            let only = level.pop();
            match only {
                Some(RChild::Node(b)) => {
                    proof {
                        assert(lv[0] == RChild::Node(b));
                        assert(rc_rootless_ok(lv[0], false));
                        assert(lv.drop_last() =~= Seq::<RChild>::empty());
                        assert(rl_items(lv) == rl_items(lv.drop_last()) + rc_items(lv.last()));
                        assert(rl_items(lv) =~= r_items(*b));
                    }
                    b
                },
                _ => {
                    proof {
                        assert(rc_rootless_ok(lv[0], false));
                        assert(false);
                    }
                    vstd::pervasive::unreached()
                },
            }
        } else {
            let bb = node_bbox(&level);
            proof {
                assert forall|q: int| 0 <= q < lv.len() implies rc_wf(
                    #[trigger] lv[q],
                    false,
                    bb,
                ) by {
                    assert(rc_rootless_ok(lv[q], false));
                }
                lemma_rl_wf_all(lv, false, bb);
            }
            Box::new(RNode { bbox: bb, leaf: false, children: level })
        };
        let ghost rootv = *root_node;
        proof {
            assert(r_wf(rootv));
            assert(!rootv.leaf ==> rootv.children@.len() >= 1);
            assert(r_items(rootv) == rl_items(lv) || r_items(rootv) =~= rl_items(lv));
            assert forall|p: (usize, Aabb2D)| r_items(rootv).contains(p) <==> pairs@.contains(
                p,
            ) by {
                assert(rl_items(lv).contains(p) <==> rl_items(itemsv).contains(p));
            }
        }
        let r = RTree { max_children, min_children, root: Some(root_node), slots };
        proof {
            assert(r_items(*r.root->0) == r_items(rootv));
            assert forall|p: (usize, Aabb2D)|
                #[trigger] r_items(*r.root->0).contains(p) && !s_empty(p.1) implies (p.0 as int)
                < r.slots@.len() && r.slots@[p.0 as int] == Some(p.1) by {
                assert(pairs@.contains(p));
                let w = choose|w: int| 0 <= w < pairs@.len() && pairs@[w] == p;
            }
            assert forall|q: int|
                0 <= q < r.slots@.len() && (#[trigger] r.slots@[q]) is Some && !s_empty(
                    r.slots@[q]->0,
                ) implies r_items(*r.root->0).contains((q as usize, r.slots@[q]->0)) by {
                let w = choose|w: int| 0 <= w < pairs@.len() && (#[trigger] pairs@[w]).0 == q;
                assert(pairs@[w] == (q as usize, r.slots@[q]->0));
                assert(pairs@.contains(pairs@[w]));
            }
            assert(r.wf());
            assert forall|s: usize| #[trigger] r.contents().dom().contains(s) implies exists|
                i2: int,
            | 0 <= i2 < pairs@.len() && (#[trigger] pairs@[i2]).0 == s by {
                assert(r.slots@[s as int] is Some);
            }
            assert forall|i2: int|
                0 <= i2 < pairs@.len() implies r.contents().dom().contains(
                (#[trigger] pairs@[i2]).0,
            ) && r.contents()[pairs@[i2].0] == pairs@[i2].1 by {
                assert(r.slots@[pairs@[i2].0 as int] == Some(pairs@[i2].1));
            }
        }
        r
    }
}

/// Grow a slot mirror so that `slot` is addressable, and record `v` there.
fn mirror_set(slots: &mut Vec<Option<Aabb2D>>, slot: usize, v: Option<Aabb2D>)
    ensures
        final(slots)@.len() > slot,
        final(slots)@.len() >= old(slots)@.len(),
        final(slots)@[slot as int] == v,
        forall|i: int|
            0 <= i < final(slots)@.len() && i != slot
                ==> final(slots)@[i] == if i < old(slots)@.len() {
                old(slots)@[i]
            } else {
                None::<Aabb2D>
            },
{
    while slots.len() <= slot
        invariant
            slots@.len() >= old(slots)@.len(),
            forall|i: int|
                0 <= i < slots@.len()
                    ==> slots@[i] == if i < old(slots)@.len() {
                    old(slots)@[i]
                } else {
                    None::<Aabb2D>
                },
        decreases slot + 1 - slots@.len(),
    {
        slots.push(None);
    }
    slots[slot] = v;
}

/// Number of nodes in a subtree, counted saturating at the machine limit.
pub(crate) open spec fn s_rc_node_count(c: RChild) -> nat
    decreases c,
{
    match c {
        RChild::Item { slot, bbox } => 0,
        RChild::Node(b) => 1 + s_rl_node_count(b.children@),
    }
}

/// Node counts add over a pushed child.
pub(crate) proof fn lemma_rl_count_push(cs: Seq<RChild>, c: RChild)
    ensures
        s_rl_node_count(cs.push(c)) == s_rl_node_count(cs) + s_rc_node_count(c),
{
    assert(cs.push(c).drop_last() =~= cs);
    assert(cs.push(c).last() == c);
}

/// Number of nodes below a child list.
pub(crate) open spec fn s_rl_node_count(cs: Seq<RChild>) -> nat
    decreases cs,
{
    if cs.len() == 0 {
        0
    } else {
        s_rl_node_count(cs.drop_last()) + s_rc_node_count(cs.last())
    }
}

fn rc_node_count(c: &RChild) -> (r: usize)
    ensures
        r as nat == if s_rc_node_count(*c) > usize::MAX as nat {
            usize::MAX as nat
        } else {
            s_rc_node_count(*c)
        },
    decreases *c,
{
    match c {
        RChild::Item { .. } => 0,
        RChild::Node(b) => {
            let ghost c0 = *c;
            let mut total: usize = 1;
            let mut i: usize = 0;
            let n = b.children.len();
            while i < n
                invariant
                    *c == c0,
                    c0 is Node,
                    b == c0->0,
                    n == b.children@.len(),
                    i <= n,
                    total as nat == if 1 + s_rl_node_count(b.children@.take(i as int))
                        > usize::MAX as nat {
                        usize::MAX as nat
                    } else {
                        1 + s_rl_node_count(b.children@.take(i as int))
                    },
                decreases n - i,
            {
                proof {
                    assert(decreases_to!(c0 => b));
                    assert(decreases_to!(b => b.children));
                    assert(decreases_to!(b.children => b.children@));
                    assert(decreases_to!(b.children@ => b.children@[i as int]));
                    assert(b.children@.take(i + 1).drop_last() =~= b.children@.take(i as int));
                    assert(b.children@.take(i + 1).last() == b.children@[i as int]);
                }
                let sub = rc_node_count(&b.children[i]);
                total = if total <= usize::MAX - sub {
                    total + sub
                } else {
                    usize::MAX
                };
                i += 1;
            }
            proof {
                assert(b.children@.take(n as int) =~= b.children@);
            }
            total
        },
    }
}

impl RTree {
    /// The number of nodes in the tree.
    pub closed spec fn spec_node_count(self) -> nat {
        match self.root {
            None => 0nat,
            Some(rt) => 1 + s_rl_node_count(rt.children@),
        }
    }

    /// Whether the tree has a root and it is a leaf.
    pub closed spec fn spec_root_is_leaf(self) -> bool {
        self.root is Some && self.root->0.leaf
    }

    /// Number of nodes in the tree, saturating at the machine limit.
    pub fn node_count(&self) -> (r: usize)
        ensures
            r as nat == if self.spec_node_count() > usize::MAX as nat {
                usize::MAX as nat
            } else {
                self.spec_node_count()
            },
    {
        match &self.root {
            None => 0,
            Some(rt) => {
                let mut total: usize = 1;
                let mut i: usize = 0;
                let n = rt.children.len();
                while i < n
                    invariant
                        self.root is Some,
                        rt == self.root->0,
                        n == rt.children@.len(),
                        i <= n,
                        total as nat == if 1 + s_rl_node_count(rt.children@.take(i as int))
                            > usize::MAX as nat {
                            usize::MAX as nat
                        } else {
                            1 + s_rl_node_count(rt.children@.take(i as int))
                        },
                    decreases n - i,
                {
                    proof {
                        assert(rt.children@.take(i + 1).drop_last() =~= rt.children@.take(
                            i as int,
                        ));
                        assert(rt.children@.take(i + 1).last() == rt.children@[i as int]);
                    }
                    let sub = rc_node_count(&rt.children[i]);
                    total = if total <= usize::MAX - sub {
                        total + sub
                    } else {
                        usize::MAX
                    };
                    i += 1;
                }
                proof {
                    assert(rt.children@.take(n as int) =~= rt.children@);
                }
                total
            },
        }
    }

    /// Whether the tree has a root and it is a leaf.
    pub fn root_is_leaf(&self) -> (r: bool)
        ensures
            r == self.spec_root_is_leaf(),
    {
        match &self.root {
            None => false,
            Some(rt) => rt.leaf,
        }
    }
}

} // verus!
