//! Batched damage summary returned by the index commit: boxes added, boxes
//! removed, and (old, new) pairs for boxes that moved.

use vstd::prelude::*;

use crate::geom::{s_union, union_aabb, Aabb2D};

verus! {

/// Batched damage summary returned by a commit of the spatial index.
#[derive(Clone, Debug)]
pub struct Damage {
    /// Newly added AABBs since last commit.
    pub added: Vec<Aabb2D>,
    /// Removed AABBs since last commit.
    pub removed: Vec<Aabb2D>,
    /// Moved AABBs since last commit: (old, new).
    pub moved: Vec<(Aabb2D, Aabb2D)>,
}

/// All boxes a damage value mentions, in report order: added, then removed,
/// then both members of each moved pair.
pub open spec fn s_damage_boxes(d: Damage) -> Seq<Aabb2D> {
    d.added@ + d.removed@ + s_flatten_pairs(d.moved@)
}

/// Each pair `(a, b)` contributes `a` then `b`.
pub open spec fn s_flatten_pairs(s: Seq<(Aabb2D, Aabb2D)>) -> Seq<Aabb2D>
    decreases s.len(),
{
    if s.len() == 0 {
        Seq::empty()
    } else {
        s_flatten_pairs(s.drop_last()) + seq![s.last().0, s.last().1]
    }
}

/// Left fold of the component-wise union over a sequence of boxes.
pub open spec fn s_union_fold(s: Seq<Aabb2D>, acc: Aabb2D) -> Aabb2D
    decreases s.len(),
{
    if s.len() == 0 {
        acc
    } else {
        s_union(s_union_fold(s.drop_last(), acc), s.last())
    }
}

proof fn lemma_union_fold_concat(s1: Seq<Aabb2D>, s2: Seq<Aabb2D>, acc: Aabb2D)
    ensures
        s_union_fold(s1 + s2, acc) == s_union_fold(s2, s_union_fold(s1, acc)),
    decreases s2.len(),
{
    if s2.len() == 0 {
        assert(s1 + s2 == s1);
    } else {
        lemma_union_fold_concat(s1, s2.drop_last(), acc);
        assert((s1 + s2).drop_last() == s1 + s2.drop_last());
        assert((s1 + s2).last() == s2.last());
    }
}

impl Damage {
    /// An empty damage report.
    pub fn new() -> (r: Self)
        ensures
            r.added@ == Seq::<Aabb2D>::empty(),
            r.removed@ == Seq::<Aabb2D>::empty(),
            r.moved@ == Seq::<(Aabb2D, Aabb2D)>::empty(),
    {
        Self { added: Vec::new(), removed: Vec::new(), moved: Vec::new() }
    }

    /// True if no damage entries were recorded.
    pub fn is_empty(&self) -> (r: bool)
        ensures
            r == (self.added@.len() == 0 && self.removed@.len() == 0 && self.moved@.len() == 0),
    {
        self.added.len() == 0 && self.removed.len() == 0 && self.moved.len() == 0
    }

    /// Union of all AABBs affected. Returns `None` if the report is empty.
    pub fn union(&self) -> (r: Option<Aabb2D>)
        ensures
            match r {
                None => s_damage_boxes(*self).len() == 0,
                Some(u) => {
                    let boxes = s_damage_boxes(*self);
                    boxes.len() > 0 && u == s_union_fold(boxes.drop_first(), boxes[0])
                },
            },
    {
        let ghost boxes = s_damage_boxes(*self);
        let mut all: Vec<Aabb2D> = Vec::new();
        let mut i: usize = 0;
        while i < self.added.len()
            invariant
                i <= self.added@.len(),
                all@ == self.added@.take(i as int),
            decreases self.added@.len() - i,
        {
            all.push(self.added[i]);
            i += 1;
        }
        assert(self.added@.take(self.added@.len() as int) == self.added@);
        let mut i: usize = 0;
        while i < self.removed.len()
            invariant
                i <= self.removed@.len(),
                all@ == self.added@ + self.removed@.take(i as int),
            decreases self.removed@.len() - i,
        {
            all.push(self.removed[i]);
            i += 1;
        }
        assert(self.removed@.take(self.removed@.len() as int) == self.removed@);
        let mut i: usize = 0;
        while i < self.moved.len()
            invariant
                i <= self.moved@.len(),
                all@ == self.added@ + self.removed@ + s_flatten_pairs(self.moved@.take(i as int)),
            decreases self.moved@.len() - i,
        {
            let (a, b) = self.moved[i];
            all.push(a);
            all.push(b);
            proof {
                let t = self.moved@.take(i + 1);
                assert(t.drop_last() == self.moved@.take(i as int));
                assert(t.last() == self.moved@[i as int]);
            }
            i += 1;
        }
        proof {
            assert(self.moved@.take(self.moved@.len() as int) == self.moved@);
            assert(all@ == boxes);
        }
        if all.len() == 0 {
            return None;
        }
        let mut acc = all[0];
        let mut i: usize = 1;
        while i < all.len()
            invariant
                1 <= i <= all@.len(),
                all@ == boxes,
                boxes.len() > 0,
                acc == s_union_fold(boxes.subrange(1, i as int), boxes[0]),
            decreases all@.len() - i,
        {
            proof {
                let sub = boxes.subrange(1, i + 1);
                assert(sub.drop_last() == boxes.subrange(1, i as int));
                assert(sub.last() == boxes[i as int]);
            }
            acc = union_aabb(acc, all[i]);
            i += 1;
        }
        proof {
            assert(boxes.subrange(1, boxes.len() as int) == boxes.drop_first());
        }
        Some(acc)
    }
}

impl Default for Damage {
    /// The default damage report is empty.
    fn default() -> (r: Self)
        ensures
            r.added@.len() == 0 && r.removed@.len() == 0 && r.moved@.len() == 0,
    {
        Self::new()
    }
}

} // verus!
