//! The backend capability set shared by all spatial strategies: maintain a
//! mapping from slots to AABBs and answer point and rectangle queries with a
//! duplicate-free candidate list.

use vstd::prelude::*;

use crate::geom::{s_contains_point, s_overlaps, Aabb2D};

verus! {

/// Slots of the items in a list whose box overlaps the query box, in list
/// order. The shared leaf-emission semantics of the tree backends.
pub open spec fn s_matching_slots(v: Seq<(usize, Aabb2D)>, q: Aabb2D) -> Seq<usize>
    decreases v.len(),
{
    if v.len() == 0 {
        Seq::empty()
    } else {
        let rest = s_matching_slots(v.drop_last(), q);
        if s_overlaps(v.last().1, q) {
            rest.push(v.last().0)
        } else {
            rest
        }
    }
}

/// Membership in the matching slots: a slot is emitted exactly when some
/// item carries it with an overlapping box.
pub proof fn lemma_matching_slots_membership(v: Seq<(usize, Aabb2D)>, q: Aabb2D)
    ensures
        forall|s: usize|
            #[trigger] s_matching_slots(v, q).contains(s) <==> exists|j: int|
                0 <= j < v.len() && (#[trigger] v[j]).0 == s && s_overlaps(v[j].1, q),
    decreases v.len(),
{
    if v.len() > 0 {
        lemma_matching_slots_membership(v.drop_last(), q);
        let m = s_matching_slots(v, q);
        let mrest = s_matching_slots(v.drop_last(), q);
        assert forall|s: usize| #[trigger] m.contains(s) implies exists|j: int|
            0 <= j < v.len() && (#[trigger] v[j]).0 == s && s_overlaps(v[j].1, q) by {
            if s_overlaps(v.last().1, q) && s == v.last().0 {
                assert(v[v.len() - 1].0 == s && s_overlaps(v[v.len() - 1].1, q));
            } else {
                if m.contains(s) && !(s_overlaps(v.last().1, q) && s == v.last().0) {
                    assert(mrest.contains(s)) by {
                        let j = choose|j: int| 0 <= j < m.len() && m[j] == s;
                        if s_overlaps(v.last().1, q) {
                            assert(j < m.len() - 1);
                            assert(mrest[j] == s);
                        }
                    }
                    let j = choose|j: int|
                        0 <= j < v.drop_last().len() && (#[trigger] v.drop_last()[j]).0 == s
                            && s_overlaps(v.drop_last()[j].1, q);
                    assert(v[j].0 == s && s_overlaps(v[j].1, q));
                }
            }
        }
        assert forall|s: usize|
            (exists|j: int| 0 <= j < v.len() && (#[trigger] v[j]).0 == s && s_overlaps(v[j].1, q))
            implies #[trigger] m.contains(s) by {
            let j = choose|j: int|
                0 <= j < v.len() && (#[trigger] v[j]).0 == s && s_overlaps(v[j].1, q);
            if j < v.len() - 1 {
                assert(v.drop_last()[j] == v[j]);
                assert(mrest.contains(s));
                let q2 = choose|q2: int| 0 <= q2 < mrest.len() && mrest[q2] == s;
                assert(m[q2] == s);
            } else {
                assert(m[m.len() - 1] == s);
            }
        }
    }
}

/// Soundness and completeness of a point-query candidate list against a
/// slot-to-AABB mapping: every candidate is a known slot, no slot is listed
/// twice, and every known slot whose box contains the point is listed.
pub open spec fn s_point_candidates(m: Map<usize, Aabb2D>, x: int, y: int, r: Seq<usize>) -> bool {
    &&& r.no_duplicates()
    &&& forall|j: int| 0 <= j < r.len() ==> m.dom().contains(#[trigger] r[j])
    &&& forall|s: usize|
        m.dom().contains(s) && s_contains_point(#[trigger] m[s], x, y) ==> r.contains(s)
}

/// The same for a rectangle query: every known slot whose box overlaps the
/// rectangle is listed.
pub open spec fn s_rect_candidates(m: Map<usize, Aabb2D>, q: Aabb2D, r: Seq<usize>) -> bool {
    &&& r.no_duplicates()
    &&& forall|j: int| 0 <= j < r.len() ==> m.dom().contains(#[trigger] r[j])
    &&& forall|s: usize| m.dom().contains(s) && s_overlaps(#[trigger] m[s], q) ==> r.contains(s)
}

/// Spatial backend abstraction used by the generic index.
///
/// A backend maintains `contents()`, a mapping from slots to their AABBs, and
/// must hand every matching slot back from a query; it may also hand back
/// non-matching slots, which the index filters against its own entries.
pub trait Backend: Sized {
    /// The slot-to-AABB mapping this backend currently holds.
    spec fn contents(&self) -> Map<usize, Aabb2D>;

    /// The backend's internal well-formedness.
    spec fn wf(&self) -> bool;

    /// An empty backend.
    fn empty() -> (r: Self)
        ensures
            r.wf(),
            r.contents() == Map::<usize, Aabb2D>::empty();

    /// Insert a new slot into the spatial structure.
    fn insert(&mut self, slot: usize, aabb: Aabb2D)
        requires
            old(self).wf(),
            !old(self).contents().dom().contains(slot),
        ensures
            final(self).wf(),
            final(self).contents() == old(self).contents().insert(slot, aabb);

    /// Update an existing slot's AABB.
    fn update(&mut self, slot: usize, aabb: Aabb2D)
        requires
            old(self).wf(),
            old(self).contents().dom().contains(slot),
        ensures
            final(self).wf(),
            final(self).contents() == old(self).contents().insert(slot, aabb);

    /// Remove a slot from the spatial structure.
    fn remove(&mut self, slot: usize)
        requires
            old(self).wf(),
            old(self).contents().dom().contains(slot),
        ensures
            final(self).wf(),
            final(self).contents() == old(self).contents().remove(slot);

    /// Clear all spatial structures.
    fn clear(&mut self)
        requires
            old(self).wf(),
        ensures
            final(self).wf(),
            final(self).contents() == Map::<usize, Aabb2D>::empty();

    /// Candidate slots for a point query: a duplicate-free list of known slots
    /// that includes every slot whose AABB contains the point.
    fn query_point(&self, x: i64, y: i64) -> (r: Vec<usize>)
        requires
            self.wf(),
        ensures
            s_point_candidates(self.contents(), x as int, y as int, r@);

    /// Candidate slots for a rectangle query: a duplicate-free list of known
    /// slots that includes every slot whose AABB overlaps the rectangle.
    fn query_rect(&self, rect: Aabb2D) -> (r: Vec<usize>)
        requires
            self.wf(),
        ensures
            s_rect_candidates(self.contents(), rect, r@);
}

} // verus!
