//! The generational, batched AABB index over a pluggable backend: `insert`,
//! `update` and `remove` are staged per slot; `commit` applies the batch to
//! the backend in slot order and reports added, removed and moved boxes;
//! queries return live `(Key, payload)` pairs.

use vstd::prelude::*;

use crate::backend::Backend;
use crate::bvh::BVH;
use crate::damage::Damage;
use crate::flat::FlatVec;
use crate::rtree::RTree;
use crate::geom::{s_contains_point, s_overlaps, Aabb2D};

verus! {

/// Generational handle for entries: a slot index and the generation the slot
/// carried when the entry was created. A key is *live* while its slot still
/// holds an entry of the same generation; stale keys never alias a reused
/// slot (as long as a slot's generation counter has not saturated).
#[derive(Copy, Clone, Debug, PartialEq, Eq, Structural, Hash)]
pub struct Key(pub u32, pub u32);

/// Pending mutation recorded on an entry since the last commit.
#[derive(Copy, Clone, Debug, PartialEq, Eq, Structural)]
pub enum Mark {
    /// Created since the last commit; the backend has not seen it yet.
    Added,
    /// Box changed since the last commit.
    Updated,
    /// To be dropped at the next commit.
    Removed,
}

/// One slot's entry: its generation, current box, payload, pending mark, and
/// the committed box it moved away from (recorded lazily on the first
/// mutation after a commit).
#[derive(Copy, Clone)]
pub struct Entry<P> {
    /// Generation of the slot at creation time.
    pub generation: u32,
    /// Current box.
    pub aabb: Aabb2D,
    /// User payload.
    pub payload: P,
    /// Pending mutation, if any.
    pub mark: Option<Mark>,
    /// The committed box, recorded on the first post-commit mutation.
    pub prev_aabb: Option<Aabb2D>,
}

/// A generic AABB index parameterized by a spatial backend.
pub struct IndexGeneric<P, B: Backend> {
    entries: Vec<Option<Entry<P>>>,
    generations: Vec<u32>,
    free_list: Vec<usize>,
    backend: B,
}

/// The generation a slot gets on reuse: one more, saturating at the top.
pub open spec fn s_next_gen(g: u32) -> u32 {
    if g < u32::MAX { (g + 1) as u32 } else { g }
}

/// The mark `update` leaves behind: a fresh entry stays `Added`, anything
/// else becomes `Updated`.
pub open spec fn s_update_mark(m: Option<Mark>) -> Option<Mark> {
    if m == Some(Mark::Added) { Some(Mark::Added) } else { Some(Mark::Updated) }
}

/// What a slot looks like after a commit: removed entries are freed, all
/// others keep their data with mark and move record cleared.
pub open spec fn s_commit_slot<P>(o: Option<Entry<P>>) -> Option<Entry<P>> {
    if o is Some {
        let e = o->0;
        if e.mark == Some(Mark::Removed) {
            None
        } else {
            Some(
                Entry {
                    generation: e.generation,
                    aabb: e.aabb,
                    payload: e.payload,
                    mark: None,
                    prev_aabb: None,
                },
            )
        }
    } else {
        None
    }
}

/// Boxes of entries marked `Added`, in slot order.
pub open spec fn s_added_seq<P>(s: Seq<Option<Entry<P>>>) -> Seq<Aabb2D>
    decreases s.len(),
{
    if s.len() == 0 {
        Seq::empty()
    } else {
        let rest = s_added_seq(s.drop_last());
        if s.last() is Some && s.last()->0.mark == Some(Mark::Added) {
            rest.push(s.last()->0.aabb)
        } else {
            rest
        }
    }
}

/// Boxes of entries marked `Removed`, in slot order.
pub open spec fn s_removed_seq<P>(s: Seq<Option<Entry<P>>>) -> Seq<Aabb2D>
    decreases s.len(),
{
    if s.len() == 0 {
        Seq::empty()
    } else {
        let rest = s_removed_seq(s.drop_last());
        if s.last() is Some && s.last()->0.mark == Some(Mark::Removed) {
            rest.push(s.last()->0.aabb)
        } else {
            rest
        }
    }
}

/// `(old, new)` pairs of entries marked `Updated` whose recorded committed
/// box differs from the current one, in slot order.
pub open spec fn s_moved_seq<P>(s: Seq<Option<Entry<P>>>) -> Seq<(Aabb2D, Aabb2D)>
    decreases s.len(),
{
    if s.len() == 0 {
        Seq::empty()
    } else {
        let rest = s_moved_seq(s.drop_last());
        if s.last() is Some && s.last()->0.mark == Some(Mark::Updated)
            && s.last()->0.prev_aabb is Some && s.last()->0.prev_aabb->0 != s.last()->0.aabb {
            rest.push((s.last()->0.prev_aabb->0, s.last()->0.aabb))
        } else {
            rest
        }
    }
}

/// Slots of entries marked `Removed`, in slot order: they join the free list
/// at commit.
pub open spec fn s_freed_seq<P>(s: Seq<Option<Entry<P>>>) -> Seq<usize>
    decreases s.len(),
{
    if s.len() == 0 {
        Seq::empty()
    } else {
        let rest = s_freed_seq(s.drop_last());
        if s.last() is Some && s.last()->0.mark == Some(Mark::Removed) {
            rest.push((s.len() - 1) as usize)
        } else {
            rest
        }
    }
}

impl<P: Copy, B: Backend> IndexGeneric<P, B> {
    /// The per-slot entries, the index's authoritative state.
    pub closed spec fn slots(self) -> Seq<Option<Entry<P>>> {
        self.entries@
    }

    /// The latest generation of each slot; persists while a slot is free.
    pub closed spec fn gens(self) -> Seq<u32> {
        self.generations@
    }

    /// The free slots, in recycling order (last is reused first).
    pub closed spec fn free(self) -> Seq<usize> {
        self.free_list@
    }

    /// The backend's slot-to-box mapping.
    pub closed spec fn backend_contents(self) -> Map<usize, Aabb2D> {
        self.backend.contents()
    }

    /// Whether `k` refers to a live entry: its slot is occupied and the
    /// generations match.
    pub open spec fn is_live(self, k: Key) -> bool {
        &&& (k.0 as int) < self.slots().len()
        &&& self.slots()[k.0 as int] is Some
        &&& self.slots()[k.0 as int]->0.generation == k.1
    }

    /// The current box of the live entry `k` points at.
    pub open spec fn live_aabb(self, k: Key) -> Aabb2D {
        self.slots()[k.0 as int]->0.aabb
    }

    /// The payload of the live entry `k` points at.
    pub open spec fn live_payload(self, k: Key) -> P {
        self.slots()[k.0 as int]->0.payload
    }

    /// No entry carries a pending mark: the batch is empty and the backend
    /// reflects exactly the committed state.
    pub open spec fn clean(self) -> bool {
        forall|i: int|
            0 <= i < self.slots().len() && self.slots()[i] is Some
                ==> (#[trigger] self.slots()[i])->0.mark is None
    }

    /// Internal well-formedness: the free list is exactly the unoccupied
    /// slots, generations track entries, and the backend holds exactly the
    /// committed entries.
    pub closed spec fn inv(self) -> bool {
        let s = self.entries@;
        let g = self.generations@;
        let f = self.free_list@;
        &&& g.len() == s.len()
        &&& s.len() <= u32::MAX as int
        &&& f.no_duplicates()
        &&& forall|j: int| 0 <= j < f.len() ==> (#[trigger] f[j] as int) < s.len()
        &&& forall|i: int| 0 <= i < s.len() ==> (s[i] is None <==> f.contains(i as usize))
        &&& forall|i: int|
            0 <= i < s.len() && s[i] is Some
                ==> (#[trigger] s[i])->0.generation == g[i] && g[i] >= 1
        &&& self.backend.wf()
        &&& forall|i: usize|
            #[trigger] self.backend.contents().dom().contains(i)
                ==> (i as int) < s.len() && s[i as int] is Some && s[i as int]->0.mark != Some(
                    Mark::Added,
                )
        &&& forall|i: usize|
            (i as int) < s.len() && (#[trigger] s[i as int]) is Some && s[i as int]->0.mark
                != Some(Mark::Added) ==> self.backend.contents().dom().contains(i)
        &&& forall|i: usize|
            (i as int) < s.len() && (#[trigger] s[i as int]) is Some && s[i as int]->0.mark is None
                ==> self.backend.contents()[i] == s[i as int]->0.aabb
        &&& forall|i: int|
            0 <= i < s.len() && (#[trigger] s[i]) is Some && s[i]->0.mark is None
                ==> s[i]->0.prev_aabb is None
    }

    /// The exact point-query result, on a dirty index as well as a clean
    /// one. Every returned pair is live, carries its payload, matches the
    /// point, and sits in a slot the backend holds — so an entry staged
    /// `Added` since the last commit is never returned. Conversely, every
    /// live entry whose slot the backend holds is returned when both its
    /// committed (backend) box and its current box contain the point — so
    /// an entry staged `Removed` or moved is still returned until the next
    /// commit. On a clean index this collapses to: exactly the live entries
    /// whose box contains the point.
    pub open spec fn point_query_post(self, x: int, y: int, r: Seq<(Key, P)>) -> bool {
        &&& forall|j: int|
            0 <= j < r.len()
                ==> {
                    let k = (#[trigger] r[j]).0;
                    &&& self.is_live(k)
                    &&& r[j].1 == self.live_payload(k)
                    &&& s_contains_point(self.live_aabb(k), x, y)
                    &&& self.backend_contents().dom().contains(k.0 as usize)
                }
        &&& forall|j1: int, j2: int| 0 <= j1 < j2 < r.len() ==> r[j1].0 != r[j2].0
        &&& forall|k: Key|
            self.is_live(k) && self.backend_contents().dom().contains(k.0 as usize)
                && s_contains_point(#[trigger] self.backend_contents()[k.0 as usize], x, y)
                && s_contains_point(self.live_aabb(k), x, y)
                ==> r.contains((k, self.live_payload(k)))
        &&& self.clean() ==> forall|k: Key|
            self.is_live(k) && s_contains_point(#[trigger] self.live_aabb(k), x, y)
                ==> r.contains((k, self.live_payload(k)))
    }

    /// The exact rectangle-query result, with the same soundness and
    /// completeness on a dirty index as `point_query_post`: returned pairs
    /// are live, matching and backed; live backed entries whose committed
    /// and current boxes both overlap the rectangle are returned; on a
    /// clean index, exactly the live entries whose box overlaps.
    pub open spec fn rect_query_post(self, q: Aabb2D, r: Seq<(Key, P)>) -> bool {
        &&& forall|j: int|
            0 <= j < r.len()
                ==> {
                    let k = (#[trigger] r[j]).0;
                    &&& self.is_live(k)
                    &&& r[j].1 == self.live_payload(k)
                    &&& s_overlaps(self.live_aabb(k), q)
                    &&& self.backend_contents().dom().contains(k.0 as usize)
                }
        &&& forall|j1: int, j2: int| 0 <= j1 < j2 < r.len() ==> r[j1].0 != r[j2].0
        &&& forall|k: Key|
            self.is_live(k) && self.backend_contents().dom().contains(k.0 as usize)
                && s_overlaps(#[trigger] self.backend_contents()[k.0 as usize], q)
                && s_overlaps(self.live_aabb(k), q)
                ==> r.contains((k, self.live_payload(k)))
        &&& self.clean() ==> forall|k: Key|
            self.is_live(k) && s_overlaps(#[trigger] self.live_aabb(k), q)
                ==> r.contains((k, self.live_payload(k)))
    }

    /// Create an empty index.
    pub fn new() -> (r: Self)
        ensures
            r.inv(),
            r.slots() == Seq::<Option<Entry<P>>>::empty(),
            r.gens() == Seq::<u32>::empty(),
            r.free() == Seq::<usize>::empty(),
    {
        let r = IndexGeneric {
            entries: Vec::new(),
            generations: Vec::new(),
            free_list: Vec::new(),
            backend: B::empty(),
        };
        r
    }

    /// The number of slots the index currently addresses.
    pub fn slot_count(&self) -> (r: usize)
        ensures
            r as int == self.slots().len(),
    {
        self.entries.len()
    }

    /// Reserve space for at least `n` more entries; no observable change.
    pub fn reserve(&mut self, n: usize)
        requires
            old(self).inv(),
        ensures
            final(self).inv(),
            final(self).slots() == old(self).slots(),
            final(self).gens() == old(self).gens(),
            final(self).free() == old(self).free(),
            final(self).backend_contents() == old(self).backend_contents(),
    {
        self.entries.reserve(n);
    }

    /// Insert a new AABB with payload, staging an `Added` entry on a recycled
    /// or fresh slot; the backend is untouched until `commit`. The returned
    /// key is live and no previously issued key aliases it.
    pub fn insert(&mut self, aabb: Aabb2D, payload: P) -> (k: Key)
        requires
            old(self).inv(),
            old(self).slots().len() < u32::MAX as int,
        ensures
            final(self).inv(),
            final(self).backend_contents() == old(self).backend_contents(),
            final(self).gens().len() == final(self).slots().len(),
            // where the entry went
            ({
                let s0 = *old(self);
                let s1 = *final(self);
                let e = Entry {
                    generation: k.1,
                    aabb,
                    payload,
                    mark: Some(Mark::Added),
                    prev_aabb: None,
                };
                if s0.free().len() > 0 {
                    let slot = s0.free().last();
                    &&& k.0 == slot as u32
                    &&& k.1 == s_next_gen(s0.gens()[slot as int])
                    &&& s1.slots() == s0.slots().update(slot as int, Some(e))
                    &&& s1.gens() == s0.gens().update(slot as int, k.1)
                    &&& s1.free() == s0.free().drop_last()
                } else {
                    &&& k.0 as int == s0.slots().len()
                    &&& k.1 == 1
                    &&& s1.slots() == s0.slots().push(Some(e))
                    &&& s1.gens() == s0.gens().push(1)
                    &&& s1.free() == s0.free()
                }
            }),
            // a recycled slot is in range, held no entry, and fits the key
            old(self).free().len() > 0 ==> (old(self).free().last() as int) < old(
                self,
            ).slots().len() && old(self).slots()[old(self).free().last() as int] is None && old(
                self,
            ).free().last() <= u32::MAX as usize,
            // liveness and freshness
            final(self).is_live(k),
            final(self).live_aabb(k) == aabb,
            final(self).live_payload(k) == payload,
            !old(self).is_live(k),
            // generations never decrease; other slots are untouched
            forall|i: int|
                0 <= i < old(self).gens().len()
                    ==> final(self).gens()[i] >= old(self).gens()[i],
            forall|k2: Key|
                k2.0 != k.0 ==> old(self).is_live(k2) == final(self).is_live(k2),
            forall|k2: Key|
                k2.0 == k.0 && k2.1 != k.1 ==> !final(self).is_live(k2),
    {
        let slot_opt = self.free_list.pop();
        match slot_opt {
            Some(slot) => {
                proof {
                    assert(old(self).free().contains(slot));
                    assert((slot as int) < self.entries@.len());
                    assert(self.entries@[slot as int] is None);
                }
                let g = self.generations[slot];
                let generation = if g < u32::MAX {
                    g + 1
                } else {
                    g
                };
                let e = Entry {
                    generation,
                    aabb,
                    payload,
                    mark: Some(Mark::Added),
                    prev_aabb: None,
                };
                self.entries[slot] = Some(e);
                self.generations[slot] = generation;
                let k = Key(slot as u32, generation);
                proof {
                    let s0 = *old(self);
                    let f0 = s0.free();
                    assert(self.free_list@ == f0.drop_last());
                    assert forall|i: int|
                        0 <= i < self.entries@.len()
                            implies (self.entries@[i] is None <==> self.free_list@.contains(
                            i as usize,
                        )) by {
                        if i == slot as int {
                            if f0.drop_last().contains(slot) {
                                let j = choose|j: int|
                                    0 <= j < f0.len() - 1 && f0.drop_last()[j] == slot;
                                assert(f0[j] == slot);
                                assert(f0[f0.len() - 1] == slot);
                                assert(false);
                            }
                        } else {
                            if s0.slots()[i] is None {
                                let j = choose|j: int| 0 <= j < f0.len() && f0[j] == i as usize;
                                assert(j < f0.len() - 1);
                                assert(f0.drop_last()[j] == i as usize);
                            }
                            if f0.drop_last().contains(i as usize) {
                                let j = choose|j: int|
                                    0 <= j < f0.len() - 1 && f0.drop_last()[j] == i as usize;
                                assert(f0[j] == i as usize);
                            }
                        }
                    }
                    assert(self.inv());
                }
                k
            },
            None => {
                let generation: u32 = 1;
                let e = Entry {
                    generation,
                    aabb,
                    payload,
                    mark: Some(Mark::Added),
                    prev_aabb: None,
                };
                let slot = self.entries.len();
                self.entries.push(Some(e));
                self.generations.push(generation);
                let k = Key(slot as u32, generation);
                proof {
                    let s0 = *old(self);
                    assert(s0.free().len() == 0);
                    assert forall|i: int|
                        0 <= i < self.entries@.len()
                            implies (self.entries@[i] is None <==> self.free_list@.contains(
                            i as usize,
                        )) by {
                        if self.free_list@.contains(i as usize) {
                            let j = choose|j: int|
                                0 <= j < self.free_list@.len() && self.free_list@[j] == i as usize;
                            assert((i as int) < s0.slots().len());
                        }
                    }
                    assert(self.inv());
                }
                k
            },
        }
    }

    /// Update an existing AABB: a stale key is a no-op; a live entry keeps an
    /// `Added` mark or becomes `Updated`, recording the committed box the
    /// first time it is touched after a commit.
    pub fn update(&mut self, key: Key, aabb: Aabb2D)
        requires
            old(self).inv(),
        ensures
            final(self).inv(),
            final(self).gens() == old(self).gens(),
            final(self).free() == old(self).free(),
            final(self).backend_contents() == old(self).backend_contents(),
            ({
                let s0 = *old(self);
                let s1 = *final(self);
                if s0.is_live(key) {
                    let e = s0.slots()[key.0 as int]->0;
                    s1.slots() == s0.slots().update(
                        key.0 as int,
                        Some(
                            Entry {
                                generation: e.generation,
                                aabb,
                                payload: e.payload,
                                mark: s_update_mark(e.mark),
                                prev_aabb: if e.mark is None {
                                    Some(e.aabb)
                                } else {
                                    e.prev_aabb
                                },
                            },
                        ),
                    )
                } else {
                    s1.slots() == s0.slots()
                }
            }),
    {
        let slot = key.0 as usize;
        if slot < self.entries.len() {
            match &self.entries[slot] {
                Some(e) => {
                    if e.generation == key.1 {
                        let e0 = *e;
                        let e1 = Entry {
                            generation: e0.generation,
                            aabb,
                            payload: e0.payload,
                            mark: match e0.mark {
                                Some(Mark::Added) => Some(Mark::Added),
                                _ => Some(Mark::Updated),
                            },
                            prev_aabb: match e0.mark {
                                None => Some(e0.aabb),
                                _ => e0.prev_aabb,
                            },
                        };
                        self.entries[slot] = Some(e1);
                        proof {
                            assert(self.inv());
                        }
                    }
                },
                None => {},
            }
        }
    }

    /// Remove an entry: a stale key is a no-op; an uncommitted `Added` entry
    /// is discarded and its slot recycled at once, anything else is marked
    /// `Removed` and freed at the next commit.
    pub fn remove(&mut self, key: Key)
        requires
            old(self).inv(),
        ensures
            final(self).inv(),
            final(self).gens() == old(self).gens(),
            final(self).backend_contents() == old(self).backend_contents(),
            ({
                let s0 = *old(self);
                let s1 = *final(self);
                if s0.is_live(key) {
                    let e = s0.slots()[key.0 as int]->0;
                    if e.mark == Some(Mark::Added) {
                        &&& s1.slots() == s0.slots().update(key.0 as int, None::<Entry<P>>)
                        &&& s1.free() == s0.free().push(key.0 as usize)
                    } else {
                        &&& s1.slots() == s0.slots().update(
                            key.0 as int,
                            Some(
                                Entry {
                                    generation: e.generation,
                                    aabb: e.aabb,
                                    payload: e.payload,
                                    mark: Some(Mark::Removed),
                                    prev_aabb: e.prev_aabb,
                                },
                            ),
                        )
                        &&& s1.free() == s0.free()
                    }
                } else {
                    s1.slots() == s0.slots() && s1.free() == s0.free()
                }
            }),
            forall|k2: Key| k2.0 != key.0 ==> old(self).is_live(k2) == final(self).is_live(k2),
    {
        let slot = key.0 as usize;
        if slot < self.entries.len() {
            match &self.entries[slot] {
                Some(e) => {
                    if e.generation == key.1 {
                        let e0 = *e;
                        if e0.mark == Some(Mark::Added) {
                            self.entries[slot] = None;
                            self.free_list.push(slot);
                            proof {
                                let s0 = *old(self);
                                let f1 = self.free_list@;
                                assert(f1 == s0.free().push(slot));
                                assert forall|i: int|
                                    0 <= i < self.entries@.len()
                                        implies (self.entries@[i] is None <==> f1.contains(
                                        i as usize,
                                    )) by {
                                    if i == slot as int {
                                        assert(f1[f1.len() - 1] == slot);
                                    } else {
                                        if s0.slots()[i] is None {
                                            let j = choose|j: int|
                                                0 <= j < s0.free().len() && s0.free()[j]
                                                    == i as usize;
                                            assert(f1[j] == i as usize);
                                        }
                                        if f1.contains(i as usize) {
                                            let j = choose|j: int|
                                                0 <= j < f1.len() && f1[j] == i as usize;
                                            assert(j < f1.len() - 1);
                                            assert(s0.free()[j] == i as usize);
                                        }
                                    }
                                }
                                assert(!s0.free().contains(slot));
                                assert(self.inv());
                            }
                        } else {
                            let e1 = Entry {
                                generation: e0.generation,
                                aabb: e0.aabb,
                                payload: e0.payload,
                                mark: Some(Mark::Removed),
                                prev_aabb: e0.prev_aabb,
                            };
                            self.entries[slot] = Some(e1);
                            proof {
                                assert(self.inv());
                            }
                        }
                    }
                },
                None => {},
            }
        }
    }

    /// Drop all state without reporting damage.
    pub fn clear(&mut self)
        requires
            old(self).inv(),
        ensures
            final(self).inv(),
            final(self).slots() == Seq::<Option<Entry<P>>>::empty(),
            final(self).gens() == Seq::<u32>::empty(),
            final(self).free() == Seq::<usize>::empty(),
            final(self).backend_contents() == Map::<usize, Aabb2D>::empty(),
    {
        self.entries.clear();
        self.generations.clear();
        self.free_list.clear();
        self.backend.clear();
    }

    /// Apply pending changes to the backend in slot order and report the
    /// batched damage: boxes of `Added` entries, boxes of `Removed` entries,
    /// and `(old, new)` pairs for `Updated` entries whose box changed.
    /// Afterwards the index is clean and the backend holds exactly the live
    /// entries.
    pub fn commit(&mut self) -> (dmg: Damage)
        requires
            old(self).inv(),
        ensures
            final(self).inv(),
            final(self).clean(),
            final(self).gens() == old(self).gens(),
            final(self).slots().len() == old(self).slots().len(),
            forall|i: int|
                0 <= i < old(self).slots().len()
                    ==> final(self).slots()[i] == s_commit_slot(#[trigger] old(self).slots()[i]),
            final(self).free() == old(self).free() + s_freed_seq(old(self).slots()),
            dmg.added@ == s_added_seq(old(self).slots()),
            dmg.removed@ == s_removed_seq(old(self).slots()),
            dmg.moved@ == s_moved_seq(old(self).slots()),
    {
        let mut dmg = Damage::new();
        let ghost s0 = old(self).slots();
        let n = self.entries.len();
        let mut i: usize = 0;
        while i < n
            invariant
                n == s0.len(),
                i <= n,
                self.generations@ == old(self).generations@,
                self.entries@.len() == s0.len(),
                forall|j: int| i <= j < s0.len() ==> self.entries@[j] == s0[j],
                forall|j: int|
                    0 <= j < i ==> self.entries@[j] == s_commit_slot(#[trigger] s0[j]),
                self.free_list@ == old(self).free_list@ + s_freed_seq(s0.take(i as int)),
                dmg.added@ == s_added_seq(s0.take(i as int)),
                dmg.removed@ == s_removed_seq(s0.take(i as int)),
                dmg.moved@ == s_moved_seq(s0.take(i as int)),
                // the pieces of inv, adapted to the half-committed state
                self.generations@.len() == s0.len(),
                s0.len() <= u32::MAX as int,
                self.free_list@.no_duplicates(),
                forall|j: int|
                    0 <= j < self.free_list@.len()
                        ==> (#[trigger] self.free_list@[j] as int) < s0.len(),
                forall|j: int|
                    0 <= j < s0.len()
                        ==> (self.entries@[j] is None <==> self.free_list@.contains(j as usize)),
                forall|j: int|
                    0 <= j < s0.len() && self.entries@[j] is Some
                        ==> (#[trigger] self.entries@[j])->0.generation == self.generations@[j]
                            && self.generations@[j] >= 1,
                self.backend.wf(),
                forall|s: usize|
                    #[trigger] self.backend.contents().dom().contains(s)
                        ==> (s as int) < s0.len() && self.entries@[s as int] is Some && ((s as int)
                            < i || self.entries@[s as int]->0.mark != Some(Mark::Added)),
                forall|s: usize|
                    (s as int) < s0.len() && (#[trigger] self.entries@[s as int]) is Some && ((s
                        as int) < i || self.entries@[s as int]->0.mark != Some(Mark::Added))
                        ==> self.backend.contents().dom().contains(s),
                forall|s: usize|
                    (s as int) < s0.len() && (#[trigger] self.entries@[s as int]) is Some && ((s
                        as int) < i || self.entries@[s as int]->0.mark is None)
                        ==> self.backend.contents()[s] == self.entries@[s as int]->0.aabb,
            decreases n - i,
        {
            proof {
                assert(s0.take(i + 1).drop_last() == s0.take(i as int));
                assert(s0.take(i + 1).last() == s0[i as int]);
            }
            let ghost free_before = self.free_list@;
            match &self.entries[i] {
                Some(e) => {
                    let e0 = *e;
                    match e0.mark {
                        Some(Mark::Added) => {
                            self.backend.insert(i, e0.aabb);
                            dmg.added.push(e0.aabb);
                            self.entries[i] = Some(
                                Entry {
                                    generation: e0.generation,
                                    aabb: e0.aabb,
                                    payload: e0.payload,
                                    mark: None,
                                    prev_aabb: None,
                                },
                            );
                        },
                        Some(Mark::Removed) => {
                            proof {
                                assert(!self.free_list@.contains(i));
                            }
                            self.backend.remove(i);
                            dmg.removed.push(e0.aabb);
                            self.entries[i] = None;
                            self.free_list.push(i);
                            proof {
                                assert forall|j: int|
                                    0 <= j < s0.len()
                                        implies (self.entries@[j] is None
                                        <==> self.free_list@.contains(j as usize)) by {
                                    if j == i as int {
                                        assert(self.free_list@[self.free_list@.len() - 1] == i);
                                    } else {
                                        if free_before.contains(j as usize) {
                                            let q = choose|q: int|
                                                0 <= q < free_before.len() && free_before[q] == j
                                                    as usize;
                                            assert(self.free_list@[q] == j as usize);
                                        }
                                        if self.free_list@.contains(j as usize) {
                                            let q = choose|q: int|
                                                0 <= q < self.free_list@.len()
                                                    && self.free_list@[q] == j as usize;
                                            assert(q < self.free_list@.len() - 1);
                                            assert(free_before[q] == j as usize);
                                        }
                                    }
                                }
                            }
                        },
                        Some(Mark::Updated) => {
                            self.backend.update(i, e0.aabb);
                            match e0.prev_aabb {
                                Some(prev) => {
                                    if !(prev == e0.aabb) {
                                        dmg.moved.push((prev, e0.aabb));
                                    }
                                },
                                None => {},
                            }
                            self.entries[i] = Some(
                                Entry {
                                    generation: e0.generation,
                                    aabb: e0.aabb,
                                    payload: e0.payload,
                                    mark: None,
                                    prev_aabb: None,
                                },
                            );
                        },
                        None => {
                            self.entries[i] = Some(
                                Entry {
                                    generation: e0.generation,
                                    aabb: e0.aabb,
                                    payload: e0.payload,
                                    mark: None,
                                    prev_aabb: None,
                                },
                            );
                        },
                    }
                },
                None => {},
            }
            i += 1;
        }
        proof {
            assert(s0.take(n as int) == s0);
            assert forall|si: int|
                0 <= si < self.entries@.len() && self.entries@[si] is Some implies (
            #[trigger] self.entries@[si])->0.mark is None && self.entries@[si]->0.prev_aabb
                is None by {
                assert(self.entries@[si] == s_commit_slot(s0[si]));
            }
            assert(final(self).inv());
            assert(final(self).clean());
        }
        dmg
    }

    /// Query entries whose AABB contains the point. Results are filtered
    /// against the entries themselves, so every returned pair is live and
    /// matching; on a clean index the result is exactly the matching set.
    pub fn query_point(&self, x: i64, y: i64) -> (r: Vec<(Key, P)>)
        requires
            self.inv(),
        ensures
            self.point_query_post(x as int, y as int, r@),
    {
        let cands = self.backend.query_point(x, y);
        let mut out: Vec<(Key, P)> = Vec::new();
        let mut j: usize = 0;
        while j < cands.len()
            invariant
                self.inv(),
                j <= cands@.len(),
                cands@.no_duplicates(),
                forall|q: int|
                    0 <= q < cands@.len()
                        ==> self.backend.contents().dom().contains(#[trigger] cands@[q]),
                forall|q: int|
                    0 <= q < out@.len()
                        ==> {
                            let k = (#[trigger] out@[q]).0;
                            &&& self.is_live(k)
                            &&& out@[q].1 == self.live_payload(k)
                            &&& s_contains_point(self.live_aabb(k), x as int, y as int)
                            &&& self.backend.contents().dom().contains(k.0 as usize)
                        },
                forall|q: int|
                    0 <= q < out@.len()
                        ==> exists|c: int|
                            0 <= c < j && cands@[c] == (#[trigger] out@[q]).0.0 as usize,
                forall|q1: int, q2: int| 0 <= q1 < q2 < out@.len() ==> out@[q1].0 != out@[q2].0,
                forall|k: Key|
                    #![auto]
                    self.is_live(k) && self.backend.contents().dom().contains(k.0 as usize)
                        && s_contains_point(
                        self.live_aabb(k),
                        x as int,
                        y as int,
                    ) && cands@.take(j as int).contains(k.0 as usize) ==> out@.contains(
                        (k, self.live_payload(k)),
                    ),
            decreases cands@.len() - j,
        {
            let s = cands[j];
            let ghost out_before = out@;
            if s < self.entries.len() {
                match &self.entries[s] {
                    Some(e) => {
                        if e.aabb.contains_point(x, y) {
                            let k = Key(s as u32, e.generation);
                            proof {
                                assert(self.is_live(k));
                                assert forall|q: int| 0 <= q < out_before.len() implies
                                    out_before[q].0 != k by {
                                    let c = choose|c: int|
                                        0 <= c < j && cands@[c] == out_before[q].0.0 as usize;
                                    assert(cands@[c] != cands@[j as int]);
                                }
                            }
                            out.push((k, e.payload));
                        }
                    },
                    None => {},
                }
            }
            proof {
                assert forall|q: int| 0 <= q < out_before.len() implies out@[q]
                    == out_before[q] by {}
                assert forall|k: Key|
                    #![auto]
                    self.is_live(k) && self.backend.contents().dom().contains(k.0 as usize)
                        && s_contains_point(
                        self.live_aabb(k),
                        x as int,
                        y as int,
                    ) && cands@.take(j + 1).contains(k.0 as usize) implies out@.contains(
                    (k, self.live_payload(k)),
                ) by {
                    let t = cands@.take(j + 1);
                    let c = choose|c: int| 0 <= c < t.len() && t[c] == k.0 as usize;
                    if c < j {
                        assert(cands@.take(j as int)[c] == k.0 as usize);
                        assert(out_before.contains((k, self.live_payload(k))));
                        let q = choose|q: int|
                            0 <= q < out_before.len() && out_before[q] == (
                            k,
                            self.live_payload(k),
                            );
                        assert(out@[q] == (k, self.live_payload(k)));
                    } else {
                        assert(cands@[j as int] == k.0 as usize);
                        assert(out@[out@.len() - 1] == (k, self.live_payload(k)));
                    }
                }
            }
            j += 1;
        }
        proof {
            assert forall|k: Key|
                self.is_live(k) && self.backend.contents().dom().contains(k.0 as usize)
                    && s_contains_point(
                    #[trigger] self.backend.contents()[k.0 as usize],
                    x as int,
                    y as int,
                ) && s_contains_point(self.live_aabb(k), x as int, y as int) implies out@.contains(
                (k, self.live_payload(k)),
            ) by {
                assert(cands@.contains(k.0 as usize));
                assert(cands@.take(cands@.len() as int) == cands@);
            }
            if self.clean() {
                assert forall|k: Key|
                    self.is_live(k) && s_contains_point(
                        #[trigger] self.live_aabb(k),
                        x as int,
                        y as int,
                    ) implies out@.contains((k, self.live_payload(k))) by {
                    assert(self.backend.contents().dom().contains(k.0 as usize));
                    assert(self.backend.contents()[k.0 as usize] == self.live_aabb(k));
                }
            }
        }
        out
    }

    /// Query entries whose AABB overlaps the given rectangle, with the same
    /// soundness and clean-state exactness as `query_point`.
    pub fn query_rect(&self, rect: Aabb2D) -> (r: Vec<(Key, P)>)
        requires
            self.inv(),
        ensures
            self.rect_query_post(rect, r@),
    {
        let cands = self.backend.query_rect(rect);
        let mut out: Vec<(Key, P)> = Vec::new();
        let mut j: usize = 0;
        while j < cands.len()
            invariant
                self.inv(),
                j <= cands@.len(),
                cands@.no_duplicates(),
                forall|q: int|
                    0 <= q < cands@.len()
                        ==> self.backend.contents().dom().contains(#[trigger] cands@[q]),
                forall|q: int|
                    0 <= q < out@.len()
                        ==> {
                            let k = (#[trigger] out@[q]).0;
                            &&& self.is_live(k)
                            &&& out@[q].1 == self.live_payload(k)
                            &&& s_overlaps(self.live_aabb(k), rect)
                            &&& self.backend.contents().dom().contains(k.0 as usize)
                        },
                forall|q: int|
                    0 <= q < out@.len()
                        ==> exists|c: int|
                            0 <= c < j && cands@[c] == (#[trigger] out@[q]).0.0 as usize,
                forall|q1: int, q2: int| 0 <= q1 < q2 < out@.len() ==> out@[q1].0 != out@[q2].0,
                forall|k: Key|
                    #![auto]
                    self.is_live(k) && self.backend.contents().dom().contains(k.0 as usize)
                        && s_overlaps(self.live_aabb(k), rect)
                        && cands@.take(j as int).contains(k.0 as usize) ==> out@.contains(
                        (k, self.live_payload(k)),
                    ),
            decreases cands@.len() - j,
        {
            let s = cands[j];
            let ghost out_before = out@;
            if s < self.entries.len() {
                match &self.entries[s] {
                    Some(e) => {
                        if !e.aabb.intersect(&rect).is_empty() {
                            let k = Key(s as u32, e.generation);
                            proof {
                                assert(self.is_live(k));
                                assert forall|q: int| 0 <= q < out_before.len() implies
                                    out_before[q].0 != k by {
                                    let c = choose|c: int|
                                        0 <= c < j && cands@[c] == out_before[q].0.0 as usize;
                                    assert(cands@[c] != cands@[j as int]);
                                }
                            }
                            out.push((k, e.payload));
                        }
                    },
                    None => {},
                }
            }
            proof {
                assert forall|q: int| 0 <= q < out_before.len() implies out@[q]
                    == out_before[q] by {}
                assert forall|k: Key|
                    #![auto]
                    self.is_live(k) && self.backend.contents().dom().contains(k.0 as usize)
                        && s_overlaps(self.live_aabb(k), rect)
                        && cands@.take(j + 1).contains(k.0 as usize) implies out@.contains(
                    (k, self.live_payload(k)),
                ) by {
                    let t = cands@.take(j + 1);
                    let c = choose|c: int| 0 <= c < t.len() && t[c] == k.0 as usize;
                    if c < j {
                        assert(cands@.take(j as int)[c] == k.0 as usize);
                        assert(out_before.contains((k, self.live_payload(k))));
                        let q = choose|q: int|
                            0 <= q < out_before.len() && out_before[q] == (
                            k,
                            self.live_payload(k),
                            );
                        assert(out@[q] == (k, self.live_payload(k)));
                    } else {
                        assert(cands@[j as int] == k.0 as usize);
                        assert(out@[out@.len() - 1] == (k, self.live_payload(k)));
                    }
                }
            }
            j += 1;
        }
        proof {
            assert forall|k: Key|
                self.is_live(k) && self.backend.contents().dom().contains(k.0 as usize)
                    && s_overlaps(#[trigger] self.backend.contents()[k.0 as usize], rect)
                    && s_overlaps(self.live_aabb(k), rect) implies out@.contains(
                (k, self.live_payload(k)),
            ) by {
                assert(cands@.contains(k.0 as usize));
                assert(cands@.take(cands@.len() as int) == cands@);
            }
            if self.clean() {
                assert forall|k: Key|
                    self.is_live(k) && s_overlaps(#[trigger] self.live_aabb(k), rect) implies
                    out@.contains((k, self.live_payload(k))) by {
                    assert(self.backend.contents().dom().contains(k.0 as usize));
                    assert(self.backend.contents()[k.0 as usize] == self.live_aabb(k));
                    assert(cands@.contains(k.0 as usize));
                    assert(cands@.take(cands@.len() as int) == cands@);
                }
            }
        }
        out
    }
}

impl<P: Copy, B: Backend> IndexGeneric<P, B> {
    /// A slot's generation counter is authoritative: any key whose generation
    /// differs from the slot's current generation is dead. Together with the
    /// contracts of `insert` (generations never decrease, a reused slot gets
    /// a strictly larger generation until the counter saturates) and `commit`
    /// (generations unchanged), stale keys never alias a reused slot.
    pub proof fn lemma_stale_never_alias(self, k: Key)
        requires
            self.inv(),
            (k.0 as int) < self.gens().len(),
            k.1 != self.gens()[k.0 as int],
        ensures
            !self.is_live(k),
    {
    }
}

/// No entry is marked `Added`, so the commit reports nothing added.
pub(crate) proof fn lemma_added_seq_empty<P>(s: Seq<Option<Entry<P>>>)
    requires
        forall|i: int|
            0 <= i < s.len() ==> !((#[trigger] s[i]) is Some && s[i]->0.mark == Some(
                Mark::Added,
            )),
    ensures
        s_added_seq(s).len() == 0,
    decreases s.len(),
{
    if s.len() > 0 {
        assert forall|i: int|
            0 <= i < s.drop_last().len() implies !((#[trigger] s.drop_last()[i]) is Some
            && s.drop_last()[i]->0.mark == Some(Mark::Added)) by {
            assert(s[i] == s.drop_last()[i]);
        }
        lemma_added_seq_empty(s.drop_last());
        assert(s.last() == s[s.len() - 1]);
    }
}

/// No entry is marked `Removed`, so the commit reports nothing removed.
pub(crate) proof fn lemma_removed_seq_empty<P>(s: Seq<Option<Entry<P>>>)
    requires
        forall|i: int|
            0 <= i < s.len() ==> !((#[trigger] s[i]) is Some && s[i]->0.mark == Some(
                Mark::Removed,
            )),
    ensures
        s_removed_seq(s).len() == 0,
    decreases s.len(),
{
    if s.len() > 0 {
        assert forall|i: int|
            0 <= i < s.drop_last().len() implies !((#[trigger] s.drop_last()[i]) is Some
            && s.drop_last()[i]->0.mark == Some(Mark::Removed)) by {
            assert(s[i] == s.drop_last()[i]);
        }
        lemma_removed_seq_empty(s.drop_last());
        assert(s.last() == s[s.len() - 1]);
    }
}

/// Every updated entry still sits where it was, so the commit reports
/// nothing moved.
pub(crate) proof fn lemma_moved_seq_empty<P>(s: Seq<Option<Entry<P>>>)
    requires
        forall|i: int|
            0 <= i < s.len() ==> !((#[trigger] s[i]) is Some && s[i]->0.mark == Some(
                Mark::Updated,
            ) && s[i]->0.prev_aabb is Some && s[i]->0.prev_aabb->0 != s[i]->0.aabb),
    ensures
        s_moved_seq(s).len() == 0,
    decreases s.len(),
{
    if s.len() > 0 {
        assert forall|i: int|
            0 <= i < s.drop_last().len() implies !((#[trigger] s.drop_last()[i]) is Some
            && s.drop_last()[i]->0.mark == Some(Mark::Updated) && s.drop_last()[i]->0.prev_aabb
                is Some && s.drop_last()[i]->0.prev_aabb->0 != s.drop_last()[i]->0.aabb) by {
            assert(s[i] == s.drop_last()[i]);
        }
        lemma_moved_seq_empty(s.drop_last());
        assert(s.last() == s[s.len() - 1]);
    }
}

/// No entry is marked `Removed`, so the commit frees no slot.
pub(crate) proof fn lemma_freed_seq_empty<P>(s: Seq<Option<Entry<P>>>)
    requires
        forall|i: int|
            0 <= i < s.len() ==> !((#[trigger] s[i]) is Some && s[i]->0.mark == Some(
                Mark::Removed,
            )),
    ensures
        s_freed_seq(s).len() == 0,
    decreases s.len(),
{
    if s.len() > 0 {
        assert forall|i: int|
            0 <= i < s.drop_last().len() implies !((#[trigger] s.drop_last()[i]) is Some
            && s.drop_last()[i]->0.mark == Some(Mark::Removed)) by {
            assert(s[i] == s.drop_last()[i]);
        }
        lemma_freed_seq_empty(s.drop_last());
        assert(s.last() == s[s.len() - 1]);
    }
}

impl<P: Copy, B: Backend> IndexGeneric<P, B> {
    /// On a clean index every entry is fully settled: no pending mark and
    /// no recorded move, so re-committing the same slots is the identity.
    pub proof fn lemma_clean_entries_settled(self)
        requires
            self.inv(),
            self.clean(),
        ensures
            forall|i: int|
                0 <= i < self.slots().len() && (#[trigger] self.slots()[i]) is Some
                    ==> self.slots()[i]->0.mark is None && self.slots()[i]->0.prev_aabb is None,
    {
    }

    /// On a clean index the backend mapping is determined by the entries:
    /// two clean indexes with the same slots have the same backend contents.
    pub proof fn lemma_clean_backend_determined(a: Self, b: Self)
        requires
            a.inv(),
            b.inv(),
            a.clean(),
            b.clean(),
            a.slots() == b.slots(),
        ensures
            a.backend_contents() == b.backend_contents(),
    {
        assert(a.backend.contents() =~= b.backend.contents()) by {
            assert forall|i: usize|
                #[trigger] a.backend.contents().dom().contains(i) implies b.backend.contents()
                .dom().contains(i) && b.backend.contents()[i] == a.backend.contents()[i] by {
                assert(a.slots()[i as int] is Some);
                assert(a.slots()[i as int]->0.mark is None);
            }
            assert forall|i: usize|
                #[trigger] b.backend.contents().dom().contains(i) implies a.backend.contents()
                .dom().contains(i) by {
                assert(b.slots()[i as int] is Some);
                assert(b.slots()[i as int]->0.mark is None);
            }
        }
    }
}

/// Default index using the flat vector backend.
pub type Index<P> = IndexGeneric<P, FlatVec>;

impl<P: Copy> Index<P> {
    /// Create an R-tree-backed index.
    pub fn with_rtree() -> (r: IndexGeneric<P, RTree>)
        ensures
            r.inv(),
            r.slots() == Seq::<Option<Entry<P>>>::empty(),
            r.gens() == Seq::<u32>::empty(),
            r.free() == Seq::<usize>::empty(),
    {
        IndexGeneric::new()
    }

    /// Create a BVH-backed index.
    pub fn with_bvh() -> (r: IndexGeneric<P, BVH>)
        ensures
            r.inv(),
            r.slots() == Seq::<Option<Entry<P>>>::empty(),
            r.gens() == Seq::<u32>::empty(),
            r.free() == Seq::<usize>::empty(),
    {
        IndexGeneric::new()
    }

    /// Build an R-tree-backed index in bulk: every entry is committed at
    /// generation one with no pending mark, one slot per entry in order.
    pub fn with_rtree_bulk(entries: &[(Aabb2D, P)]) -> (r: IndexGeneric<P, RTree>)
        requires
            entries@.len() <= u32::MAX as int,
        ensures
            r.inv(),
            r.clean(),
            r.slots().len() == entries@.len(),
            forall|i: int|
                0 <= i < entries@.len() ==> r.slots()[i] == Some(
                    Entry {
                        generation: 1u32,
                        aabb: (#[trigger] entries@[i]).0,
                        payload: entries@[i].1,
                        mark: None,
                        prev_aabb: None,
                    },
                ),
            r.free() == Seq::<usize>::empty(),
    {
        let n = entries.len();
        let mut pairs: Vec<(usize, Aabb2D)> = Vec::new();
        let mut ents: Vec<Option<Entry<P>>> = Vec::new();
        let mut gens: Vec<u32> = Vec::new();
        let mut i: usize = 0;
        while i < n
            invariant
                n == entries@.len(),
                n <= u32::MAX as int,
                i <= n,
                pairs@.len() == i,
                ents@.len() == i,
                gens@.len() == i,
                forall|q: int|
                    0 <= q < i ==> (#[trigger] pairs@[q]) == (q as usize, entries@[q].0),
                forall|q: int|
                    0 <= q < i ==> (#[trigger] ents@[q]) == Some(
                        Entry {
                            generation: 1u32,
                            aabb: entries@[q].0,
                            payload: entries@[q].1,
                            mark: None,
                            prev_aabb: None,
                        },
                    ),
                forall|q: int| 0 <= q < i ==> (#[trigger] gens@[q]) == 1u32,
            decreases n - i,
        {
            let (aabb, payload) = entries[i];
            pairs.push((i, aabb));
            ents.push(
                Some(
                    Entry { generation: 1, aabb, payload, mark: None, prev_aabb: None },
                ),
            );
            gens.push(1);
            i += 1;
        }
        proof {
            assert forall|a: int, b: int| 0 <= a < b < pairs@.len() implies pairs@[a].0
                != pairs@[b].0 by {}
        }
        let backend = RTree::bulk_build_default(pairs.as_slice());
        let r = IndexGeneric { entries: ents, generations: gens, free_list: Vec::new(), backend };
        proof {
            assert forall|j: int| 0 <= j < r.free_list@.len() implies (#[trigger] r.free_list@[j]
                as int) < r.entries@.len() by {}
            assert forall|q: int|
                0 <= q < r.entries@.len() implies (r.entries@[q] is None
                <==> r.free_list@.contains(q as usize)) by {
                if r.free_list@.contains(q as usize) {
                    let w = choose|w: int|
                        0 <= w < r.free_list@.len() && r.free_list@[w] == q as usize;
                }
            }
            assert forall|q: usize| #[trigger]
                r.backend.contents().dom().contains(q) implies (q as int) < r.entries@.len()
                && r.entries@[q as int] is Some && r.entries@[q as int]->0.mark != Some(
                Mark::Added,
            ) by {
                let w = choose|w: int|
                    0 <= w < pairs@.len() && (#[trigger] pairs@[w]).0 == q;
            }
            assert forall|q: usize|
                (q as int) < r.entries@.len() && (#[trigger] r.entries@[q as int]) is Some
                    && r.entries@[q as int]->0.mark != Some(Mark::Added) implies r.backend
                .contents().dom().contains(q) by {
                assert(pairs@[q as int].0 == q);
                assert(r.backend.contents().dom().contains(pairs@[q as int].0));
            }
            assert forall|q: usize|
                (q as int) < r.entries@.len() && (#[trigger] r.entries@[q as int]) is Some
                    && r.entries@[q as int]->0.mark is None implies r.backend.contents()[q]
                == r.entries@[q as int]->0.aabb by {
                assert(pairs@[q as int] == (q, entries@[q as int].0));
                assert(r.backend.contents()[pairs@[q as int].0] == pairs@[q as int].1);
            }
            assert(r.inv());
        }
        r
    }
}

} // verus!
