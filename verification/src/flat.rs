//! Flat vector backend with linear scans. Small and simple; its exhaustive
//! scan is the reference behaviour the other backends are held to.

use vstd::prelude::*;

use crate::backend::{s_point_candidates, s_rect_candidates, Backend};
use crate::geom::{s_contains_point, s_overlaps, Aabb2D};

verus! {

/// Flat vector backend with linear scans.
#[derive(Debug)]
pub struct FlatVec {
    entries: Vec<Option<Aabb2D>>,
}

/// The slot mapping held by a dense vector of optional boxes.
pub open spec fn s_slot_map(s: Seq<Option<Aabb2D>>) -> Map<usize, Aabb2D> {
    Map::new(
        |i: usize| 0 <= i < s.len() && s[i as int] is Some,
        |i: usize| s[i as int]->0,
    )
}

impl FlatVec {
    /// Grow the slot vector so that `slot` is addressable.
    fn ensure_len(&mut self, slot: usize)
        ensures
            final(self).entries@.len() > slot,
            final(self).entries@.len() >= old(self).entries@.len(),
            forall|i: int|
                0 <= i < final(self).entries@.len()
                    ==> final(self).entries@[i] == if i < old(self).entries@.len() {
                    old(self).entries@[i]
                } else {
                    None::<Aabb2D>
                },
    {
        while self.entries.len() <= slot
            invariant
                self.entries@.len() >= old(self).entries@.len(),
                forall|i: int|
                    0 <= i < self.entries@.len()
                        ==> self.entries@[i] == if i < old(self).entries@.len() {
                        old(self).entries@[i]
                    } else {
                        None::<Aabb2D>
                    },
            decreases slot + 1 - self.entries@.len(),
        {
            self.entries.push(None);
        }
    }
}

impl Backend for FlatVec {
    closed spec fn contents(&self) -> Map<usize, Aabb2D> {
        s_slot_map(self.entries@)
    }

    closed spec fn wf(&self) -> bool {
        true
    }

    fn empty() -> (r: Self)
        ensures
            r.wf(),
            r.contents() == Map::<usize, Aabb2D>::empty(),
    {
        let r = FlatVec { entries: Vec::new() };
        proof {
            assert(r.contents() =~= Map::<usize, Aabb2D>::empty());
        }
        r
    }

    fn insert(&mut self, slot: usize, aabb: Aabb2D) {
        self.ensure_len(slot);
        self.entries[slot] = Some(aabb);
        proof {
            assert(self.contents() =~= old(self).contents().insert(slot, aabb));
        }
    }

    fn update(&mut self, slot: usize, aabb: Aabb2D) {
        if slot < self.entries.len() {
            self.entries[slot] = Some(aabb);
        }
        proof {
            assert(self.contents() =~= old(self).contents().insert(slot, aabb));
        }
    }

    fn remove(&mut self, slot: usize) {
        if slot < self.entries.len() {
            self.entries[slot] = None;
        }
        proof {
            assert(self.contents() =~= old(self).contents().remove(slot));
        }
    }

    fn clear(&mut self) {
        self.entries.clear();
        proof {
            assert(self.contents() =~= Map::<usize, Aabb2D>::empty());
        }
    }

    /// The exhaustive scan is exact: the result holds precisely the slots
    /// whose box contains the point, in ascending slot order. This is the
    /// oracle behaviour the other backends are compared against.
    fn query_point(&self, x: i64, y: i64) -> (r: Vec<usize>)
        ensures
            forall|j1: int, j2: int| 0 <= j1 < j2 < r@.len() ==> r@[j1] < r@[j2],
            forall|s: usize|
                r@.contains(s) <==> (self.contents().dom().contains(s) && s_contains_point(
                    #[trigger] self.contents()[s],
                    x as int,
                    y as int,
                )),
    {
        let mut out: Vec<usize> = Vec::new();
        let mut i: usize = 0;
        while i < self.entries.len()
            invariant
                i <= self.entries@.len(),
                forall|j: int| 0 <= j < out@.len() ==> 0 <= #[trigger] out@[j] < i,
                forall|j1: int, j2: int| 0 <= j1 < j2 < out@.len() ==> out@[j1] < out@[j2],
                forall|j: int|
                    0 <= j < out@.len()
                        ==> self.contents().dom().contains(#[trigger] out@[j])
                            && s_contains_point(self.contents()[out@[j]], x as int, y as int),
                forall|s: usize|
                    s < i && self.contents().dom().contains(s)
                        && s_contains_point(#[trigger] self.contents()[s], x as int, y as int)
                        ==> out@.contains(s),
                out@.no_duplicates(),
            decreases self.entries@.len() - i,
        {
            let ghost prev = out@;
            match &self.entries[i] {
                Some(a) => {
                    proof {
                        assert(self.contents().dom().contains(i));
                        assert(self.contents()[i] == *a);
                    }
                    if a.contains_point(x, y) {
                        out.push(i);
                        proof {
                            assert(out@[prev.len() as int] == i);
                            assert(out@.contains(i));
                        }
                    }
                },
                None => {
                    proof {
                        assert(!self.contents().dom().contains(i));
                    }
                },
            }
            proof {
                assert forall|s: usize| prev.contains(s) implies out@.contains(s) by {
                    let j = choose|j: int| 0 <= j < prev.len() && prev[j] == s;
                    assert(out@[j] == s);
                }
            }
            i += 1;
        }
        out
    }

    /// The exhaustive scan is exact: the result holds precisely the slots
    /// whose box overlaps the rectangle, in ascending slot order.
    fn query_rect(&self, rect: Aabb2D) -> (r: Vec<usize>)
        ensures
            forall|j1: int, j2: int| 0 <= j1 < j2 < r@.len() ==> r@[j1] < r@[j2],
            forall|s: usize|
                r@.contains(s) <==> (self.contents().dom().contains(s) && s_overlaps(
                    #[trigger] self.contents()[s],
                    rect,
                )),
    {
        let mut out: Vec<usize> = Vec::new();
        let mut i: usize = 0;
        while i < self.entries.len()
            invariant
                i <= self.entries@.len(),
                forall|j: int| 0 <= j < out@.len() ==> 0 <= #[trigger] out@[j] < i,
                forall|j1: int, j2: int| 0 <= j1 < j2 < out@.len() ==> out@[j1] < out@[j2],
                forall|j: int|
                    0 <= j < out@.len()
                        ==> self.contents().dom().contains(#[trigger] out@[j])
                            && s_overlaps(self.contents()[out@[j]], rect),
                forall|s: usize|
                    s < i && self.contents().dom().contains(s)
                        && s_overlaps(#[trigger] self.contents()[s], rect)
                        ==> out@.contains(s),
                out@.no_duplicates(),
            decreases self.entries@.len() - i,
        {
            let ghost prev = out@;
            match &self.entries[i] {
                Some(a) => {
                    proof {
                        assert(self.contents().dom().contains(i));
                        assert(self.contents()[i] == *a);
                    }
                    if !a.intersect(&rect).is_empty() {
                        out.push(i);
                        proof {
                            assert(out@[prev.len() as int] == i);
                            assert(out@.contains(i));
                        }
                    }
                },
                None => {
                    proof {
                        assert(!self.contents().dom().contains(i));
                    }
                },
            }
            proof {
                assert forall|s: usize| prev.contains(s) implies out@.contains(s) by {
                    let j = choose|j: int| 0 <= j < prev.len() && prev[j] == s;
                    assert(out@[j] == s);
                }
            }
            i += 1;
        }
        out
    }
}

} // verus!
