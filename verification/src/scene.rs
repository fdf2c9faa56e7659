//! The scene box tree: a generational arena of nodes carrying local bounds,
//! transform, clip, stacking order and flags. A commit recomputes world
//! geometry from the parents down, mirrors every live node into the spatial
//! index, and reports coarse damage; hit tests and rectangle queries run
//! against the index.

use vstd::prelude::*;

use crate::affine::{s_compose, s_transform_bbox, Affine2};
use crate::flat::FlatVec;
use crate::geom::{s_contains_point, s_empty, s_intersect, s_overlaps, Aabb2D};
use crate::index::{IndexGeneric, Key};
use crate::responder::NodeKey;

verus! {

/// Identifier for a node in the tree: a slot index and a generation
/// counter. Slots are recycled; generations persist across frees, so a
/// stale identifier never aliases a reused slot.
#[derive(Copy, Clone, Debug, Eq, PartialEq, Structural, Hash)]
pub struct NodeId(pub u32, pub u32);

/// "Newer" order on identifiers: higher generation, then higher slot.
pub open spec fn s_id_newer(a: NodeId, b: NodeId) -> bool {
    a.1 > b.1 || (a.1 == b.1 && a.0 > b.0)
}

impl NodeId {
    /// Whether this identifier is newer than `other`: created later in the
    /// arena's lifetime (higher generation, then higher slot).
    pub fn is_newer_than(&self, other: &NodeId) -> (r: bool)
        ensures
            r == s_id_newer(*self, *other),
    {
        self.1 > other.1 || (self.1 == other.1 && self.0 > other.0)
    }
}

impl NodeKey for NodeId {
    fn key_eq(&self, other: &Self) -> (r: bool) {
        self.0 == other.0 && self.1 == other.1
    }
}

/// Node flags controlling visibility and picking.
#[derive(Copy, Clone, Debug, PartialEq, Eq, Structural, Hash)]
pub struct NodeFlags {
    /// Node participates in rendering and rectangle queries.
    pub visible: bool,
    /// Node participates in hit testing.
    pub pickable: bool,
}

impl Default for NodeFlags {
    /// By default a node is both visible and pickable.
    fn default() -> (r: Self)
        ensures
            r == (NodeFlags { visible: true, pickable: true }),
    {
        NodeFlags { visible: true, pickable: true }
    }
}

/// A rounded-rectangle clip: its rectangle and corner radii. The rectangle's
/// bounding box drives spatial indexing and hit filtering; the radii are
/// carried for renderers.
#[derive(Copy, Clone, Debug, PartialEq, Eq, Structural)]
pub struct ClipRect {
    /// The clip rectangle.
    pub rect: Aabb2D,
    /// Corner radius in x.
    pub rx: i64,
    /// Corner radius in y.
    pub ry: i64,
}

/// Local geometry for a node.
#[derive(Copy, Clone, Debug, PartialEq, Eq, Structural)]
pub struct LocalNode {
    /// Local (untransformed) bounds; use a conservative box for non-axis-aligned content.
    pub local_bounds: Aabb2D,
    /// Local transform relative to parent space.
    pub local_transform: Affine2,
    /// Optional local clip; its bounding box is used for indexing.
    pub local_clip: Option<ClipRect>,
    /// Stacking order within the tree. Higher is on top.
    pub z_index: i32,
    /// Visibility and picking flags.
    pub flags: NodeFlags,
}

impl Default for LocalNode {
    /// Zero bounds, identity transform, no clip, z zero, default flags.
    fn default() -> (r: Self)
        ensures
            r == (LocalNode {
                local_bounds: Aabb2D { min_x: 0, min_y: 0, max_x: 0, max_y: 0 },
                local_transform: Affine2 { xx: 1, xy: 0, yx: 0, yy: 1, tx: 0, ty: 0 },
                local_clip: None,
                z_index: 0,
                flags: NodeFlags { visible: true, pickable: true },
            }),
    {
        LocalNode {
            local_bounds: Aabb2D { min_x: 0, min_y: 0, max_x: 0, max_y: 0 },
            local_transform: Affine2 { xx: 1, xy: 0, yx: 0, yy: 1, tx: 0, ty: 0 },
            local_clip: None,
            z_index: 0,
            flags: NodeFlags { visible: true, pickable: true },
        }
    }
}

/// Cached world-space geometry, valid after a commit.
#[derive(Copy, Clone, Debug, PartialEq, Eq, Structural)]
pub struct WorldNode {
    /// World transform: the parent's world transform after the local one.
    pub world_transform: Affine2,
    /// Bounding box of the transformed local bounds, clipped.
    pub world_bounds: Aabb2D,
    /// The enclosing clip box, if any.
    pub world_clip: Option<Aabb2D>,
}

/// Which aspects of a node changed since the last commit.
#[derive(Copy, Clone, Debug, PartialEq, Eq, Structural)]
pub struct DirtyFlags {
    /// Bounds changed.
    pub layout: bool,
    /// Transform changed.
    pub transform: bool,
    /// Clip changed.
    pub clip: bool,
    /// Stacking order changed.
    pub z: bool,
    /// The spatial index entry needs refreshing.
    pub index: bool,
}

/// One arena slot: a node's generation, links, local and cached world data.
#[derive(Clone)]
pub struct SceneNode {
    /// Generation of the slot at creation time.
    pub generation: u32,
    /// The parent, if any.
    pub parent: Option<NodeId>,
    /// The children, each of which points back here.
    pub children: Vec<NodeId>,
    /// Local geometry.
    pub local: LocalNode,
    /// Cached world geometry.
    pub world: WorldNode,
    /// Pending-change flags.
    pub dirty: DirtyFlags,
    /// The node's entry in the spatial index, once committed.
    pub index_key: Option<Key>,
}

/// Coarse damage from a tree commit: world-space boxes to repaint.
#[derive(Clone, Debug)]
pub struct SceneDamage {
    /// Boxes that must be reprocessed.
    pub dirty_rects: Vec<Aabb2D>,
}

impl SceneDamage {
    /// An empty report.
    pub fn new() -> (r: Self)
        ensures
            r.dirty_rects@ == Seq::<Aabb2D>::empty(),
    {
        SceneDamage { dirty_rects: Vec::new() }
    }

    /// The union of all damage boxes, or `None` if there are none: exactly
    /// the left fold of the component-wise union over the list.
    pub fn union_rect(&self) -> (r: Option<Aabb2D>)
        ensures
            r is Some <==> self.dirty_rects@.len() > 0,
            self.dirty_rects@.len() > 0 ==> r == Some(
                crate::damage::s_union_fold(
                    self.dirty_rects@.drop_first(),
                    self.dirty_rects@[0],
                ),
            ),
            r is Some ==> forall|i: int|
                0 <= i < self.dirty_rects@.len() ==> crate::geom::s_covers(
                    r->0,
                    #[trigger] self.dirty_rects@[i],
                ),
    {
        if self.dirty_rects.len() == 0 {
            return None;
        }
        let mut acc = self.dirty_rects[0];
        let mut i: usize = 1;
        while i < self.dirty_rects.len()
            invariant
                1 <= i <= self.dirty_rects@.len(),
                acc == crate::damage::s_union_fold(
                    self.dirty_rects@.subrange(1, i as int),
                    self.dirty_rects@[0],
                ),
                forall|j: int|
                    0 <= j < i ==> crate::geom::s_covers(acc, #[trigger] self.dirty_rects@[j]),
            decreases self.dirty_rects@.len() - i,
        {
            proof {
                let b = self.dirty_rects@;
                assert(b.subrange(1, i + 1 as int).drop_last() == b.subrange(1, i as int));
                assert(b.subrange(1, i + 1 as int).last() == b[i as int]);
            }
            acc = crate::geom::union_aabb(acc, self.dirty_rects[i]);
            i += 1;
        }
        proof {
            assert(self.dirty_rects@.subrange(1, self.dirty_rects@.len() as int)
                == self.dirty_rects@.drop_first());
        }
        Some(acc)
    }
}

/// Whether a box has strictly positive extent on both axes: only such
/// boxes are worth repainting, so only they enter the damage list.
pub open spec fn s_positive_area(a: Aabb2D) -> bool {
    a.max_x > a.min_x && a.max_y > a.min_y
}

/// Filters applied during hit testing and rectangle intersection.
#[derive(Copy, Clone, Debug, PartialEq, Eq, Structural)]
pub struct QueryFilter {
    /// Only consider nodes whose `visible` flag is set.
    pub visible_only: bool,
    /// Only consider nodes whose `pickable` flag is set (hit testing).
    pub pickable_only: bool,
}

impl Default for QueryFilter {
    /// By default no filtering is applied.
    fn default() -> (r: Self)
        ensures
            r == (QueryFilter { visible_only: false, pickable_only: false }),
    {
        QueryFilter { visible_only: false, pickable_only: false }
    }
}

/// The result of a hit test: the matched node and the root-to-node path.
#[derive(Clone, Debug)]
pub struct Hit {
    /// The matched node.
    pub node: NodeId,
    /// Path from root to the node, both inclusive.
    pub path: Vec<NodeId>,
}

/// The default world state of a fresh node.
pub open spec fn s_world_default() -> WorldNode {
    WorldNode {
        world_transform: Affine2 { xx: 1, xy: 0, yx: 0, yy: 1, tx: 0, ty: 0 },
        world_bounds: Aabb2D { min_x: 0, min_y: 0, max_x: 0, max_y: 0 },
        world_clip: None,
    }
}

/// Top-level scene tree over a spatial index.
pub struct Tree {
    nodes: Vec<Option<SceneNode>>,
    generations: Vec<u32>,
    free_list: Vec<usize>,
    index: IndexGeneric<NodeId, FlatVec>,
}

impl Tree {
    /// The arena of node slots.
    pub closed spec fn slots(self) -> Seq<Option<SceneNode>> {
        self.nodes@
    }

    /// The latest generation of each slot.
    pub closed spec fn gens(self) -> Seq<u32> {
        self.generations@
    }

    /// The spatial index the tree mirrors its live nodes into.
    pub closed spec fn index_of(self) -> IndexGeneric<NodeId, FlatVec> {
        self.index
    }

    /// Whether `id` refers to a live node.
    pub open spec fn spec_is_alive(self, id: NodeId) -> bool {
        &&& (id.0 as int) < self.slots().len()
        &&& self.slots()[id.0 as int] is Some
        &&& self.slots()[id.0 as int]->0.generation == id.1
    }

    /// The node a live identifier refers to.
    pub open spec fn node_of(self, id: NodeId) -> SceneNode {
        self.slots()[id.0 as int]->0
    }

    /// Arena well-formedness: the free list is exactly the unoccupied slots,
    /// generations track nodes, parent and child links agree, and every
    /// committed node's index entry is live and carries the node's identity.
    pub closed spec fn wf(self) -> bool {
        let s = self.nodes@;
        let g = self.generations@;
        let f = self.free_list@;
        &&& g.len() == s.len()
        &&& s.len() <= u32::MAX as int
        &&& f.no_duplicates()
        &&& forall|j: int| 0 <= j < f.len() ==> (#[trigger] f[j] as int) < s.len()
        &&& forall|i: int| 0 <= i < s.len() ==> (s[i] is None <==> f.contains(i as usize))
        &&& forall|i: int|
            0 <= i < s.len() && s[i] is Some
                ==> (#[trigger] s[i])->0.generation == g[i] && g[i] >= 1
        &&& forall|i: int|
            0 <= i < s.len() && (#[trigger] s[i]) is Some ==> self.links_ok(i)
        &&& self.index.inv()
        &&& forall|i: int|
            0 <= i < s.len() && (#[trigger] s[i]) is Some && s[i]->0.index_key is Some ==> {
                let k = s[i]->0.index_key->0;
                &&& self.index.is_live(k)
                &&& self.index.live_payload(k) == NodeId(i as u32, s[i]->0.generation)
                &&& self.index.slots()[k.0 as int]->0.mark != Some(crate::index::Mark::Removed)
            }
    }

    /// Parent and child links of the node in slot `i` agree with its
    /// neighbours; no node is its own parent.
    pub closed spec fn links_ok(self, i: int) -> bool {
        let s = self.nodes@;
        let n = s[i]->0;
        &&& n.children@.no_duplicates()
        &&& forall|q: int|
            0 <= q < n.children@.len() ==> {
                let c = #[trigger] n.children@[q];
                &&& self.spec_is_alive(c)
                &&& self.node_of(c).parent == Some(NodeId(i as u32, n.generation))
            }
        &&& match n.parent {
            None => true,
            Some(p) => {
                &&& self.spec_is_alive(p)
                &&& self.node_of(p).children@.contains(NodeId(i as u32, n.generation))
                &&& p.0 != i as u32
            },
        }
    }

    /// Create a new empty tree.
    pub fn new() -> (r: Self)
        ensures
            r.wf(),
            r.slots() == Seq::<Option<SceneNode>>::empty(),
    {
        let r = Tree {
            nodes: Vec::new(),
            generations: Vec::new(),
            free_list: Vec::new(),
            index: IndexGeneric::new(),
        };
        r
    }

    /// Create a new empty tree (alias constructor).
    pub fn default_tree() -> (r: Self)
        ensures
            r.wf(),
            r.slots() == Seq::<Option<SceneNode>>::empty(),
    {
        Tree::new()
    }

    /// Whether `id` refers to a live node: its slot is occupied and the
    /// generations match.
    pub fn is_alive(&self, id: NodeId) -> (r: bool)
        ensures
            r == self.spec_is_alive(id),
    {
        let slot = id.0 as usize;
        if slot < self.nodes.len() {
            match &self.nodes[slot] {
                Some(n) => n.generation == id.1,
                None => false,
            }
        } else {
            false
        }
    }

    /// The stacking order of a live node, or `None` for a stale identifier.
    pub fn z_index(&self, id: NodeId) -> (r: Option<i32>)
        ensures
            r == if self.spec_is_alive(id) {
                Some(self.node_of(id).local.z_index)
            } else {
                None::<i32>
            },
    {
        let slot = id.0 as usize;
        if slot < self.nodes.len() {
            match &self.nodes[slot] {
                Some(n) => if n.generation == id.1 {
                    Some(n.local.z_index)
                } else {
                    None
                },
                None => None,
            }
        } else {
            None
        }
    }
}

impl Tree {
    /// Insert a node as a child of `parent`, or as a root. The new node's
    /// world state is not valid until the next commit. The returned
    /// identifier is live and no previously issued identifier aliases it.
    pub fn insert(&mut self, parent: Option<NodeId>, local: LocalNode) -> (id: NodeId)
        requires
            old(self).wf(),
            old(self).slots().len() < u32::MAX as int,
            parent is Some ==> old(self).spec_is_alive(parent->0),
        ensures
            final(self).wf(),
            final(self).spec_is_alive(id),
            !old(self).spec_is_alive(id),
            final(self).node_of(id).local == local,
            final(self).node_of(id).parent == parent,
            final(self).node_of(id).children@ == Seq::<NodeId>::empty(),
            final(self).node_of(id).index_key is None,
            // generations never decrease; other nodes keep their liveness
            forall|i: int|
                0 <= i < old(self).gens().len()
                    ==> final(self).gens()[i] >= old(self).gens()[i],
            forall|id2: NodeId|
                id2.0 != id.0 ==> (old(self).spec_is_alive(id2) == final(self).spec_is_alive(
                    id2,
                )),
            forall|id2: NodeId|
                id2.0 == id.0 && id2.1 != id.1 ==> !final(self).spec_is_alive(id2),
            final(self).index_of() == old(self).index_of(),
            // the arena grows by at most one slot, so inserts can be chained
            final(self).slots().len() <= old(self).slots().len() + 1,
            final(self).slots().len() >= old(self).slots().len(),
    {
        let fresh = SceneNode {
            generation: 1,
            parent,
            children: Vec::new(),
            local,
            world: WorldNode {
                world_transform: Affine2 { xx: 1, xy: 0, yx: 0, yy: 1, tx: 0, ty: 0 },
                world_bounds: Aabb2D { min_x: 0, min_y: 0, max_x: 0, max_y: 0 },
                world_clip: None,
            },
            dirty: DirtyFlags { layout: true, transform: true, clip: true, z: true, index: true },
            index_key: None,
        };
        let slot_opt = self.free_list.pop();
        let id = match slot_opt {
            Some(slot) => {
                proof {
                    assert(old(self).free_list@.contains(slot));
                    assert((slot as int) < self.nodes@.len());
                    assert(self.nodes@[slot as int] is None);
                }
                let g = self.generations[slot];
                let generation = if g < u32::MAX {
                    g + 1
                } else {
                    g
                };
                let mut fresh = fresh;
                fresh.generation = generation;
                self.nodes[slot] = Some(fresh);
                self.generations[slot] = generation;
                proof {
                    let s0 = *old(self);
                    let f0 = s0.free_list@;
                    assert(self.free_list@ == f0.drop_last());
                    assert forall|i: int|
                        0 <= i < self.nodes@.len()
                            implies (self.nodes@[i] is None <==> self.free_list@.contains(
                            i as usize,
                        )) by {
                        if i == slot as int {
                            if f0.drop_last().contains(slot) {
                                let j = choose|j: int|
                                    0 <= j < f0.len() - 1 && f0.drop_last()[j] == slot;
                                assert(f0[j] == slot);
                                assert(f0[f0.len() - 1] == slot);
                                assert(false);
                            }
                        } else {
                            if s0.nodes@[i] is None {
                                let j = choose|j: int| 0 <= j < f0.len() && f0[j] == i as usize;
                                assert(j < f0.len() - 1);
                                assert(f0.drop_last()[j] == i as usize);
                            }
                            if f0.drop_last().contains(i as usize) {
                                let j = choose|j: int|
                                    0 <= j < f0.len() - 1 && f0.drop_last()[j] == i as usize;
                                assert(f0[j] == i as usize);
                            }
                        }
                    }
                }
                NodeId(slot as u32, generation)
            },
            None => {
                let slot = self.nodes.len();
                self.nodes.push(Some(fresh));
                self.generations.push(1);
                proof {
                    let s0 = *old(self);
                    assert(s0.free_list@.len() == 0);
                    assert forall|i: int|
                        0 <= i < self.nodes@.len()
                            implies (self.nodes@[i] is None <==> self.free_list@.contains(
                            i as usize,
                        )) by {
                        if self.free_list@.contains(i as usize) {
                            let j = choose|j: int|
                                0 <= j < self.free_list@.len() && self.free_list@[j]
                                    == i as usize;
                            assert((i as int) < s0.nodes@.len());
                        }
                    }
                }
                NodeId(slot as u32, 1)
            },
        };
        match parent {
            Some(p) => {
                proof {
                    assert(self.spec_is_alive(p));
                    assert(p.0 != id.0);
                }
                let pslot = p.0 as usize;
                let ghost child0 = self.nodes@[pslot as int]->0.children@;
                match &mut self.nodes[pslot] {
                    Some(pn) => {
                        pn.children.push(id);
                    },
                    None => {
                        proof {
                            assert(false);
                        }
                    },
                }
                proof {
                    let s1 = *self;
                    assert(s1.nodes@[pslot as int]->0.children@ == child0.push(id));
                    assert forall|i: int|
                        0 <= i < s1.nodes@.len() && (#[trigger] s1.nodes@[i]) is Some implies
                        s1.links_ok(i) by {
                        let s0 = *old(self);
                        if i == id.0 as int {
                            assert(s1.node_of(p).children@.contains(id)) by {
                                assert(s1.node_of(p).children@.last() == id);
                            }
                        } else if i == pslot as int {
                            let n = s1.nodes@[i]->0;
                            assert(n.children@ == child0.push(id));
                            assert forall|q: int|
                                0 <= q < n.children@.len() implies {
                                let c = #[trigger] n.children@[q];
                                &&& s1.spec_is_alive(c)
                                &&& s1.node_of(c).parent == Some(NodeId(i as u32, n.generation))
                            } by {
                                if q < child0.len() {
                                    assert(s0.nodes@[i] is Some);
                                    assert(s0.links_ok(i));
                                    assert(s0.nodes@[i]->0.children@[q] == child0[q]);
                                    assert(s0.spec_is_alive(child0[q]));
                                    assert(child0[q].0 != id.0);
                                }
                            }
                            assert(n.children@.no_duplicates()) by {
                                assert(s0.nodes@[i] is Some);
                                assert(s0.links_ok(i));
                                assert(child0.no_duplicates());
                                assert forall|q: int| 0 <= q < child0.len() implies child0[q]
                                    != id by {
                                    assert(s0.spec_is_alive(child0[q]));
                                    assert(!s0.spec_is_alive(id));
                                }
                            }
                            match n.parent {
                                None => {},
                                Some(pp) => {
                                    assert(s0.nodes@[i] is Some);
                                    assert(s0.links_ok(i));
                                    assert(s0.spec_is_alive(pp));
                                    assert(pp.0 != id.0);
                                    assert(n.generation == s0.nodes@[i]->0.generation);
                                    assert(s0.node_of(pp).children@.contains(
                                        NodeId(i as u32, n.generation),
                                    ));
                                    if pp.0 == pslot as u32 {
                                        assert(s0.node_of(pp).children@ == child0);
                                        let q = choose|q: int|
                                            0 <= q < child0.len() && child0[q] == NodeId(
                                                i as u32,
                                                n.generation,
                                            );
                                        assert(s1.node_of(pp).children@[q] == NodeId(
                                            i as u32,
                                            n.generation,
                                        ));
                                    } else {
                                        assert(s1.nodes@[pp.0 as int] == s0.nodes@[pp.0 as int]);
                                        let q = choose|q: int|
                                            0 <= q < s0.node_of(pp).children@.len()
                                                && s0.node_of(pp).children@[q] == NodeId(
                                                i as u32,
                                                n.generation,
                                            );
                                        assert(s1.node_of(pp).children@[q] == NodeId(
                                            i as u32,
                                            n.generation,
                                        ));
                                    }
                                },
                            }
                        } else {
                            let s0 = *old(self);
                            assert(s0.nodes@[i] is Some);
                            assert(s0.links_ok(i));
                            let n = s1.nodes@[i]->0;
                            assert(n == s0.nodes@[i]->0);
                            assert forall|q: int|
                                0 <= q < n.children@.len() implies {
                                let c = #[trigger] n.children@[q];
                                &&& s1.spec_is_alive(c)
                                &&& s1.node_of(c).parent == Some(NodeId(i as u32, n.generation))
                            } by {
                                assert(s0.spec_is_alive(n.children@[q]));
                                assert(n.children@[q].0 != id.0);
                            }
                            match n.parent {
                                None => {},
                                Some(pp) => {
                                    assert(s0.spec_is_alive(pp));
                                    assert(pp.0 != id.0);
                                    if pp.0 == pslot as u32 {
                                        assert(s1.node_of(pp).children@ == child0.push(id));
                                        assert(s0.node_of(pp).children@.contains(
                                            NodeId(i as u32, n.generation),
                                        ));
                                        let q = choose|q: int|
                                            0 <= q < child0.len() && child0[q] == NodeId(
                                                i as u32,
                                                n.generation,
                                            );
                                        assert(s1.node_of(pp).children@[q] == NodeId(
                                            i as u32,
                                            n.generation,
                                        ));
                                        assert(s1.node_of(pp).children@.contains(
                                            NodeId(i as u32, n.generation),
                                        ));
                                    } else {
                                        assert(s1.nodes@[pp.0 as int] == s0.nodes@[pp.0 as int]);
                                        assert(s0.node_of(pp).children@.contains(
                                            NodeId(i as u32, n.generation),
                                        ));
                                        let q = choose|q: int|
                                            0 <= q < s0.node_of(pp).children@.len()
                                                && s0.node_of(pp).children@[q] == NodeId(
                                                i as u32,
                                                n.generation,
                                            );
                                        assert(s1.node_of(pp).children@[q] == NodeId(
                                            i as u32,
                                            n.generation,
                                        ));
                                    }
                                },
                            }
                        }
                    }
                    assert(s1.wf());
                }
            },
            None => {
                proof {
                    let s1 = *self;
                    let s0 = *old(self);
                    assert forall|i: int|
                        0 <= i < s1.nodes@.len() && (#[trigger] s1.nodes@[i]) is Some implies
                        s1.links_ok(i) by {
                        if i == id.0 as int {
                        } else {
                            assert(s0.nodes@[i] is Some);
                            assert(s0.links_ok(i));
                            let n = s1.nodes@[i]->0;
                            assert(n == s0.nodes@[i]->0);
                            assert forall|q: int|
                                0 <= q < n.children@.len() implies {
                                let c = #[trigger] n.children@[q];
                                &&& s1.spec_is_alive(c)
                                &&& s1.node_of(c).parent == Some(NodeId(i as u32, n.generation))
                            } by {
                                assert(s0.spec_is_alive(n.children@[q]));
                                assert(n.children@[q].0 != id.0);
                            }
                            match n.parent {
                                None => {},
                                Some(pp) => {
                                    assert(s0.spec_is_alive(pp));
                                    assert(pp.0 != id.0);
                                },
                            }
                        }
                    }
                    assert(s1.wf());
                }
            },
        }
        id
    }
}

/// Arena well-formedness is insensitive to a node's local data, cached
/// world data and dirty bits.
proof fn lemma_wf_preserved(s0: Tree, s1: Tree)
    requires
        s0.wf(),
        s1.slots().len() == s0.slots().len(),
        s1.gens() == s0.gens(),
        s1.free_of() == s0.free_of(),
        s1.index_of() == s0.index_of(),
        forall|i: int|
            0 <= i < s1.slots().len() ==> ((#[trigger] s1.slots()[i]) is Some <==> s0.slots()[i]
                is Some),
        forall|i: int|
            0 <= i < s1.slots().len() && s1.slots()[i] is Some ==> {
                let a = (#[trigger] s1.slots()[i])->0;
                let b = s0.slots()[i]->0;
                a.generation == b.generation && a.parent == b.parent && a.children@
                    == b.children@ && a.index_key == b.index_key
            },
    ensures
        s1.wf(),
{
    assert forall|i: int|
        0 <= i < s1.slots().len() implies ((#[trigger] s1.slots()[i]) is None
        <==> s1.free_of().contains(i as usize)) by {
        assert(s0.slots()[i] is None <==> s0.free_of().contains(i as usize));
    }
    assert forall|i: int|
        0 <= i < s1.slots().len() && (#[trigger] s1.slots()[i]) is Some implies s1.links_ok(
        i,
    ) by {
        assert(s0.links_ok(i));
        let n1 = s1.slots()[i]->0;
        let n0 = s0.slots()[i]->0;
        assert forall|q: int|
            0 <= q < n1.children@.len() implies {
            let c = #[trigger] n1.children@[q];
            &&& s1.spec_is_alive(c)
            &&& s1.node_of(c).parent == Some(NodeId(i as u32, n1.generation))
        } by {
            assert(n0.children@[q] == n1.children@[q]);
            assert(s0.spec_is_alive(n0.children@[q]));
        }
        match n1.parent {
            None => {},
            Some(p) => {
                assert(s0.spec_is_alive(p));
                let q = choose|q: int|
                    0 <= q < s0.node_of(p).children@.len() && s0.node_of(p).children@[q]
                        == NodeId(i as u32, n0.generation);
                assert(s1.node_of(p).children@[q] == NodeId(i as u32, n1.generation));
            },
        }
    }
    assert forall|i: int|
        0 <= i < s1.slots().len() && (#[trigger] s1.slots()[i]) is Some && s1.slots()[i]
            ->0.index_key is Some implies {
        let k = s1.slots()[i]->0.index_key->0;
        &&& s1.index_of().is_live(k)
        &&& s1.index_of().live_payload(k) == NodeId(i as u32, s1.slots()[i]->0.generation)
        &&& s1.index_of().slots()[k.0 as int]->0.mark != Some(crate::index::Mark::Removed)
    } by {
        assert(s0.slots()[i]->0.index_key is Some);
        assert(s1.slots()[i]->0.index_key == s0.slots()[i]->0.index_key);
        assert(s0.index_of().slots()[(s0.slots()[i]->0.index_key->0).0 as int]->0.mark != Some(
            crate::index::Mark::Removed,
        ));
    }
}

/// Settled nodes stay consistent and rooted under a change that touches
/// only one unsettled slot: their own data and their parents' stored world
/// state are untouched, so the derived world state is unchanged.
proof fn lemma_consistency_preserved(s0: Tree, s2: Tree, comp: Seq<bool>, i: int)
    requires
        0 <= i < s0.nodes@.len(),
        s2.nodes@.len() == s0.nodes@.len(),
        comp.len() == s0.nodes@.len(),
        !comp[i],
        forall|j: int| 0 <= j < s0.nodes@.len() && j != i ==> s2.nodes@[j] == s0.nodes@[j],
        forall|j: int|
            0 <= j < s0.nodes@.len() && #[trigger] comp[j] ==> s0.nodes@[j] is Some
                && s0.consistent(j) && s_rooted(s0.nodes@, j) && (match s0.nodes@[j]->0.parent {
                None => true,
                Some(pp) => (pp.0 as int) < s0.nodes@.len() && comp[pp.0 as int],
            }),
        forall|j: int, f: nat| s_depth(s2.nodes@, j, f) == s_depth(s0.nodes@, j, f),
    ensures
        forall|j: int|
            0 <= j < s2.nodes@.len() && #[trigger] comp[j] ==> s2.consistent(j) && s_rooted(
                s2.nodes@,
                j,
            ) && s2.nodes@[j] is Some,
{
    assert forall|j: int|
        0 <= j < s2.nodes@.len() && #[trigger] comp[j] implies s2.consistent(j) && s_rooted(
        s2.nodes@,
        j,
    ) && s2.nodes@[j] is Some by {
        assert(s0.consistent(j));
        assert(j != i);
        match s0.nodes@[j]->0.parent {
            None => {},
            Some(pp) => {
                assert(comp[pp.0 as int]);
                assert(pp.0 as int != i);
                assert(s2.nodes@[pp.0 as int] == s0.nodes@[pp.0 as int]);
            },
        }
        assert(s2.nodes@[j] == s0.nodes@[j]);
        assert(s2.spec_world_of(j) == s0.spec_world_of(j));
        let f = choose|f: nat| s_depth(s0.nodes@, j, f) is Some;
        assert(s_depth(s2.nodes@, j, f) is Some);
    }
}

/// Parent and child links survive any change that keeps slot occupancy,
/// generations, parents and children pointwise.
proof fn lemma_links_preserved(s0: Tree, s1: Tree)
    requires
        s1.slots().len() == s0.slots().len(),
        forall|i: int|
            0 <= i < s1.slots().len() ==> ((#[trigger] s1.slots()[i]) is Some <==> s0.slots()[i]
                is Some),
        forall|i: int|
            0 <= i < s1.slots().len() && s1.slots()[i] is Some ==> {
                let a = (#[trigger] s1.slots()[i])->0;
                let b = s0.slots()[i]->0;
                a.generation == b.generation && a.parent == b.parent && a.children@
                    == b.children@
            },
        forall|i: int|
            0 <= i < s0.slots().len() && (#[trigger] s0.slots()[i]) is Some ==> s0.links_ok(i),
    ensures
        forall|i: int|
            0 <= i < s1.slots().len() && (#[trigger] s1.slots()[i]) is Some ==> s1.links_ok(i),
{
    assert forall|i: int|
        0 <= i < s1.slots().len() && (#[trigger] s1.slots()[i]) is Some implies s1.links_ok(
        i,
    ) by {
        assert(s0.links_ok(i));
        let n1 = s1.slots()[i]->0;
        let n0 = s0.slots()[i]->0;
        assert forall|q: int|
            0 <= q < n1.children@.len() implies {
            let c = #[trigger] n1.children@[q];
            &&& s1.spec_is_alive(c)
            &&& s1.node_of(c).parent == Some(NodeId(i as u32, n1.generation))
        } by {
            assert(n0.children@[q] == n1.children@[q]);
            assert(s0.spec_is_alive(n0.children@[q]));
        }
        match n1.parent {
            None => {},
            Some(p) => {
                assert(s0.spec_is_alive(p));
                let q = choose|q: int|
                    0 <= q < s0.node_of(p).children@.len() && s0.node_of(p).children@[q]
                        == NodeId(i as u32, n0.generation);
                assert(s1.node_of(p).children@[q] == NodeId(i as u32, n1.generation));
            },
        }
    }
}

impl Tree {
    /// The free slots.
    pub closed spec fn free_of(self) -> Seq<usize> {
        self.free_list@
    }

    /// Update the local transform of a live node; stale identifiers are a
    /// no-op.
    pub fn set_local_transform(&mut self, id: NodeId, tf: Affine2)
        requires
            old(self).wf(),
        ensures
            final(self).wf(),
            forall|id2: NodeId|
                old(self).spec_is_alive(id2) == final(self).spec_is_alive(id2),
            old(self).spec_is_alive(id) ==> final(self).node_of(id).local == (LocalNode {
                local_transform: tf,
                ..old(self).node_of(id).local
            }),
            forall|i: int|
                0 <= i < old(self).slots().len() && i != id.0 as int ==> final(self).slots()[i]
                    == old(self).slots()[i],
            !old(self).spec_is_alive(id) ==> final(self).slots() == old(self).slots(),
    {
        let slot = id.0 as usize;
        if slot < self.nodes.len() {
            match &mut self.nodes[slot] {
                Some(n) => {
                    if n.generation == id.1 {
                        n.local.local_transform = tf;
                        n.dirty.transform = true;
                        n.dirty.index = true;
                    }
                },
                None => {},
            }
        }
        proof {
            lemma_wf_preserved(*old(self), *self);
            assert(final(self).slots() =~= old(self).slots() || old(self).spec_is_alive(id));
        }
    }

    /// Update the local clip of a live node; stale identifiers are a no-op.
    pub fn set_local_clip(&mut self, id: NodeId, clip: Option<ClipRect>)
        requires
            old(self).wf(),
        ensures
            final(self).wf(),
            forall|id2: NodeId|
                old(self).spec_is_alive(id2) == final(self).spec_is_alive(id2),
            old(self).spec_is_alive(id) ==> final(self).node_of(id).local == (LocalNode {
                local_clip: clip,
                ..old(self).node_of(id).local
            }),
            forall|i: int|
                0 <= i < old(self).slots().len() && i != id.0 as int ==> final(self).slots()[i]
                    == old(self).slots()[i],
            !old(self).spec_is_alive(id) ==> final(self).slots() == old(self).slots(),
    {
        let slot = id.0 as usize;
        if slot < self.nodes.len() {
            match &mut self.nodes[slot] {
                Some(n) => {
                    if n.generation == id.1 {
                        n.local.local_clip = clip;
                        n.dirty.clip = true;
                        n.dirty.index = true;
                    }
                },
                None => {},
            }
        }
        proof {
            lemma_wf_preserved(*old(self), *self);
            assert(final(self).slots() =~= old(self).slots() || old(self).spec_is_alive(id));
        }
    }

    /// Update the local bounds of a live node; stale identifiers are a
    /// no-op.
    pub fn set_local_bounds(&mut self, id: NodeId, bounds: Aabb2D)
        requires
            old(self).wf(),
        ensures
            final(self).wf(),
            forall|id2: NodeId|
                old(self).spec_is_alive(id2) == final(self).spec_is_alive(id2),
            old(self).spec_is_alive(id) ==> final(self).node_of(id).local == (LocalNode {
                local_bounds: bounds,
                ..old(self).node_of(id).local
            }),
            forall|i: int|
                0 <= i < old(self).slots().len() && i != id.0 as int ==> final(self).slots()[i]
                    == old(self).slots()[i],
            !old(self).spec_is_alive(id) ==> final(self).slots() == old(self).slots(),
    {
        let slot = id.0 as usize;
        if slot < self.nodes.len() {
            match &mut self.nodes[slot] {
                Some(n) => {
                    if n.generation == id.1 {
                        n.local.local_bounds = bounds;
                        n.dirty.layout = true;
                        n.dirty.index = true;
                    }
                },
                None => {},
            }
        }
        proof {
            lemma_wf_preserved(*old(self), *self);
            assert(final(self).slots() =~= old(self).slots() || old(self).spec_is_alive(id));
        }
    }

    /// Update the stacking order of a live node; stale identifiers are a
    /// no-op.
    pub fn set_z_index(&mut self, id: NodeId, z: i32)
        requires
            old(self).wf(),
        ensures
            final(self).wf(),
            forall|id2: NodeId|
                old(self).spec_is_alive(id2) == final(self).spec_is_alive(id2),
            old(self).spec_is_alive(id) ==> final(self).node_of(id).local == (LocalNode {
                z_index: z,
                ..old(self).node_of(id).local
            }),
            forall|i: int|
                0 <= i < old(self).slots().len() && i != id.0 as int ==> final(self).slots()[i]
                    == old(self).slots()[i],
            !old(self).spec_is_alive(id) ==> final(self).slots() == old(self).slots(),
    {
        let slot = id.0 as usize;
        if slot < self.nodes.len() {
            match &mut self.nodes[slot] {
                Some(n) => {
                    if n.generation == id.1 {
                        n.local.z_index = z;
                        n.dirty.z = true;
                    }
                },
                None => {},
            }
        }
        proof {
            lemma_wf_preserved(*old(self), *self);
            assert(final(self).slots() =~= old(self).slots() || old(self).spec_is_alive(id));
        }
    }

    /// Update the flags of a live node; stale identifiers are a no-op.
    pub fn set_flags(&mut self, id: NodeId, flags: NodeFlags)
        requires
            old(self).wf(),
        ensures
            final(self).wf(),
            forall|id2: NodeId|
                old(self).spec_is_alive(id2) == final(self).spec_is_alive(id2),
            old(self).spec_is_alive(id) ==> final(self).node_of(id).local == (LocalNode {
                flags,
                ..old(self).node_of(id).local
            }),
            forall|i: int|
                0 <= i < old(self).slots().len() && i != id.0 as int ==> final(self).slots()[i]
                    == old(self).slots()[i],
            !old(self).spec_is_alive(id) ==> final(self).slots() == old(self).slots(),
    {
        let slot = id.0 as usize;
        if slot < self.nodes.len() {
            match &mut self.nodes[slot] {
                Some(n) => {
                    if n.generation == id.1 {
                        n.local.flags = flags;
                        n.dirty.index = true;
                    }
                },
                None => {},
            }
        }
        proof {
            lemma_wf_preserved(*old(self), *self);
            assert(final(self).slots() =~= old(self).slots() || old(self).spec_is_alive(id));
        }
    }
}

/// The number of occupied slots.
pub(crate) open spec fn s_live_count(s: Seq<Option<SceneNode>>) -> nat
    decreases s.len(),
{
    if s.len() == 0 {
        0
    } else {
        s_live_count(s.drop_last()) + if s.last() is Some {
            1nat
        } else {
            0nat
        }
    }
}

/// Clearing an occupied slot lowers the occupancy count by one.
proof fn lemma_live_count_clear(s: Seq<Option<SceneNode>>, i: int)
    requires
        0 <= i < s.len(),
        s[i] is Some,
    ensures
        s_live_count(s.update(i, None)) == s_live_count(s) - 1,
    decreases s.len(),
{
    let s2 = s.update(i, None);
    if i == s.len() - 1 {
        assert(s2.drop_last() =~= s.drop_last());
        assert(s2.last() is None);
    } else {
        lemma_live_count_clear(s.drop_last(), i);
        assert(s2.drop_last() =~= s.drop_last().update(i, None));
        assert(s2.last() == s.last());
    }
}

impl Tree {
    /// The free slots.
    pub(crate) closed spec fn free_of2(self) -> Seq<usize> {
        self.free_list@
    }

    /// Like well-formedness, but nodes may be orphaned: a node's parent
    /// link may point at a dead slot (the node is then doomed). A live
    /// parent still lists the node.
    pub(crate) closed spec fn wf_pending(self, ex: NodeId) -> bool {
        let s = self.nodes@;
        let g = self.generations@;
        let f = self.free_list@;
        &&& g.len() == s.len()
        &&& s.len() <= u32::MAX as int
        &&& f.no_duplicates()
        &&& forall|j: int| 0 <= j < f.len() ==> (#[trigger] f[j] as int) < s.len()
        &&& forall|i: int| 0 <= i < s.len() ==> (s[i] is None <==> f.contains(i as usize))
        &&& forall|i: int|
            0 <= i < s.len() && s[i] is Some
                ==> (#[trigger] s[i])->0.generation == g[i] && g[i] >= 1
        &&& forall|i: int|
            0 <= i < s.len() && (#[trigger] s[i]) is Some ==> self.links_weak(i, ex)
        &&& self.index.inv()
        &&& forall|i: int|
            0 <= i < s.len() && (#[trigger] s[i]) is Some && s[i]->0.index_key is Some ==> {
                let k = s[i]->0.index_key->0;
                &&& self.index.is_live(k)
                &&& self.index.live_payload(k) == NodeId(i as u32, s[i]->0.generation)
                &&& self.index.slots()[k.0 as int]->0.mark != Some(crate::index::Mark::Removed)
            }
    }

    /// Links of slot `i`, a dangling parent allowed.
    pub(crate) closed spec fn links_weak(self, i: int, ex: NodeId) -> bool {
        let s = self.nodes@;
        let n = s[i]->0;
        &&& n.children@.no_duplicates()
        &&& forall|q: int|
            0 <= q < n.children@.len() ==> {
                let c = #[trigger] n.children@[q];
                &&& self.spec_is_alive(c)
                &&& self.node_of(c).parent == Some(NodeId(i as u32, n.generation))
            }
        &&& match n.parent {
            None => true,
            Some(p) => ((self.spec_is_alive(p) ==> self.node_of(p).children@.contains(
                NodeId(i as u32, n.generation),
            )) || NodeId(i as u32, n.generation) == ex) && p.0 != i as u32,
        }
    }

    /// Whether slot `i` is orphaned: alive, with a parent link to a dead
    /// identifier.
    pub(crate) closed spec fn orphaned(self, i: int) -> bool {
        self.nodes@[i] is Some && match self.nodes@[i]->0.parent {
            None => false,
            Some(p) => !self.spec_is_alive(p),
        }
    }

    /// Weak well-formedness plus no orphans is well-formedness.
    proof fn lemma_no_orphans_wf(self, ex: NodeId)
        requires
            self.wf_pending(ex),
            !self.spec_is_alive(ex),
            forall|i: int| 0 <= i < self.slots().len() ==> !self.orphaned(i),
        ensures
            self.wf(),
    {
        assert forall|i: int|
            0 <= i < self.slots().len() && (#[trigger] self.slots()[i]) is Some implies
            self.links_ok(i) by {
            assert(self.links_weak(i, ex));
            assert(!self.orphaned(i));
            assert(NodeId(i as u32, self.slots()[i]->0.generation) != ex) by {
                if NodeId(i as u32, self.slots()[i]->0.generation) == ex {
                    assert(self.spec_is_alive(ex));
                }
            }
        }
    }

    /// Kill the node in slot `kslot`: flag its index entry for removal and
    /// recycle the slot. Requires that no live node lists it as a child.
    fn kill_slot(&mut self, kslot: usize, Ghost(ex): Ghost<NodeId>)
        requires
            old(self).wf_pending(ex),
            (kslot as int) < old(self).nodes@.len(),
            old(self).nodes@[kslot as int] is Some,
            forall|i: int|
                0 <= i < old(self).nodes@.len() && (#[trigger] old(self).nodes@[i]) is Some && i
                    != kslot ==> !old(self).nodes@[i]->0.children@.contains(
                    NodeId(kslot as u32, old(self).nodes@[kslot as int]->0.generation),
                ),
        ensures
            final(self).wf_pending(ex),
            final(self).nodes@.len() == old(self).nodes@.len(),
            final(self).generations@ == old(self).generations@,
            final(self).nodes@ == old(self).nodes@.update(kslot as int, None::<SceneNode>),
            s_live_count(final(self).nodes@) == s_live_count(old(self).nodes@) - 1,
    {
        let key_opt = match &self.nodes[kslot] {
            Some(n) => n.index_key,
            None => None,
        };
        match key_opt {
            Some(k) => {
                self.index.remove(k);
                proof {
                    // live keys of distinct nodes sit in distinct index slots
                    assert forall|i: int|
                        0 <= i < self.nodes@.len() && (#[trigger] self.nodes@[i]) is Some
                            && self.nodes@[i]->0.index_key is Some && i != kslot implies {
                        let k2 = self.nodes@[i]->0.index_key->0;
                        &&& self.index.is_live(k2)
                        &&& self.index.live_payload(k2) == NodeId(
                            i as u32,
                            self.nodes@[i]->0.generation,
                        )
                    } by {
                        let k2 = self.nodes@[i]->0.index_key->0;
                        assert(old(self).index.is_live(k2));
                        if k2.0 == k.0 {
                            assert(old(self).index.live_payload(k2) == NodeId(
                                i as u32,
                                self.nodes@[i]->0.generation,
                            ));
                            assert(old(self).index.live_payload(k) == NodeId(
                                kslot as u32,
                                old(self).nodes@[kslot as int]->0.generation,
                            ));
                            assert(old(self).index.live_payload(k2) == old(
                                self,
                            ).index.live_payload(k));
                            assert(false);
                        }
                    }
                }
            },
            None => {},
        }
        let ghost mid = *self;
        self.nodes[kslot] = None;
        self.free_list.push(kslot);
        proof {
            let s0 = *old(self);
            let f1 = self.free_list@;
            assert(!mid.free_list@.contains(kslot));
            assert forall|i: int|
                0 <= i < self.nodes@.len() implies (self.nodes@[i] is None <==> f1.contains(
                i as usize,
            )) by {
                if i == kslot as int {
                    assert(f1[f1.len() - 1] == kslot);
                } else {
                    if self.nodes@[i] is None {
                        let j = choose|j: int|
                            0 <= j < mid.free_list@.len() && mid.free_list@[j] == i as usize;
                        assert(f1[j] == i as usize);
                    }
                    if f1.contains(i as usize) {
                        let j = choose|j: int| 0 <= j < f1.len() && f1[j] == i as usize;
                        assert(j < f1.len() - 1);
                        assert(mid.free_list@[j] == i as usize);
                    }
                }
            }
            assert forall|i: int|
                0 <= i < self.nodes@.len() && (#[trigger] self.nodes@[i]) is Some implies
                self.links_weak(i, ex) by {
                assert(s0.links_weak(i, ex));
                let n = self.nodes@[i]->0;
                assert(n == s0.nodes@[i]->0);
                assert forall|q: int|
                    0 <= q < n.children@.len() implies {
                    let c = #[trigger] n.children@[q];
                    &&& self.spec_is_alive(c)
                    &&& self.node_of(c).parent == Some(NodeId(i as u32, n.generation))
                } by {
                    let c = n.children@[q];
                    assert(s0.spec_is_alive(c));
                    assert(c.0 != kslot as u32) by {
                        if c.0 == kslot as u32 {
                            assert(n.children@.contains(c)) by {
                                assert(n.children@[q] == c);
                            }
                            assert(c == NodeId(
                                kslot as u32,
                                s0.nodes@[kslot as int]->0.generation,
                            ));
                            assert(false);
                        }
                    }
                }
                match n.parent {
                    None => {},
                    Some(p) => {
                        if self.spec_is_alive(p) {
                            assert(p.0 != kslot as u32);
                            assert(s0.spec_is_alive(p));
                        }
                    },
                }
            }
            lemma_live_count_clear(s0.nodes@, kslot as int);
            assert(self.wf_pending(ex));
        }
    }

    /// Remove a node and its whole subtree: detach it from its parent, then
    /// sweep orphaned nodes until none remain, flagging every removed
    /// node's index entry. A stale identifier is a no-op. Nothing comes
    /// alive, and `id` is dead afterwards.
    pub fn remove(&mut self, id: NodeId)
        requires
            old(self).wf(),
        ensures
            final(self).wf(),
            !final(self).spec_is_alive(id),
            forall|id2: NodeId|
                final(self).spec_is_alive(id2) ==> old(self).spec_is_alive(id2),
            final(self).gens() == old(self).gens(),
            final(self).slots().len() == old(self).slots().len(),
            // a stale identifier removes nothing
            !old(self).spec_is_alive(id) ==> *final(self) == *old(self),
    {
        if !self.is_alive(id) {
            return ;
        }
        let slot = id.0 as usize;
        // detach from the parent, if any
        let parent_opt = match &self.nodes[slot] {
            Some(n) => n.parent,
            None => None,
        };
        let do_unlink = match parent_opt {
            Some(par) => par.0 != id.0,
            None => false,
        };
        if do_unlink {
            let par = match parent_opt {
                Some(par) => par,
                None => id,
            };
            proof {
                assert(old(self).links_ok(slot as int));
                assert(old(self).spec_is_alive(par));
            }
            self.unlink_child(par, id);
        } else {
            proof {
                assert forall|i: int|
                    0 <= i < self.slots().len() && (#[trigger] self.slots()[i]) is Some implies
                    self.links_weak(i, id) by {
                    assert(self.links_ok(i));
                }
                assert(self.wf_pending(id));
            }
        }
        // kill the target, then sweep orphans to a fixpoint
        proof {
            assert forall|i: int|
                0 <= i < self.nodes@.len() && (#[trigger] self.nodes@[i]) is Some && i != slot
                    implies !self.nodes@[i]->0.children@.contains(
                    NodeId(slot as u32, self.nodes@[slot as int]->0.generation),
                ) by {
                if self.nodes@[i]->0.children@.contains(
                    NodeId(slot as u32, self.nodes@[slot as int]->0.generation),
                ) {
                    assert(self.links_weak(i, id));
                    let the_id = NodeId(slot as u32, self.nodes@[slot as int]->0.generation);
                    let q = choose|q: int|
                        0 <= q < self.nodes@[i]->0.children@.len()
                            && self.nodes@[i]->0.children@[q] == the_id;
                    assert(self.node_of(the_id).parent == Some(
                        NodeId(i as u32, self.nodes@[i]->0.generation),
                    ));
                    assert(parent_opt == Some(NodeId(i as u32, self.nodes@[i]->0.generation)));
                    assert(false);
                }
            }
        }
        self.kill_slot(slot, Ghost(id));
        let n = self.nodes.len();
        loop
            invariant
                self.wf_pending(id),
                !self.spec_is_alive(id),
                n == self.nodes@.len(),
                n == old(self).nodes@.len(),
                self.generations@ == old(self).generations@,
                !self.spec_is_alive(id),
                forall|i: int|
                    0 <= i < self.nodes@.len() && (#[trigger] self.nodes@[i]) is Some
                        ==> old(self).nodes@[i] is Some && self.nodes@[i]->0.generation == old(
                        self,
                    ).nodes@[i]->0.generation,
            ensures
                self.wf_pending(id),
                forall|i: int| 0 <= i < self.slots().len() ==> !self.orphaned(i),
                !self.spec_is_alive(id),
                self.generations@ == old(self).generations@,
                self.nodes@.len() == old(self).nodes@.len(),
                forall|i: int|
                    0 <= i < self.nodes@.len() && (#[trigger] self.nodes@[i]) is Some
                        ==> old(self).nodes@[i] is Some && self.nodes@[i]->0.generation == old(
                        self,
                    ).nodes@[i]->0.generation,
            decreases s_live_count(self.nodes@),
        {
            let mut killed_any = false;
            let mut i: usize = 0;
            let ghost round0 = *self;
            while i < n
                invariant
                    self.wf_pending(id),
                    n == self.nodes@.len(),
                    n == old(self).nodes@.len(),
                    self.generations@ == old(self).generations@,
                    !self.spec_is_alive(id),
                    i <= n,
                    forall|j: int|
                        0 <= j < self.nodes@.len() && (#[trigger] self.nodes@[j]) is Some
                            ==> old(self).nodes@[j] is Some && self.nodes@[j]->0.generation
                            == old(self).nodes@[j]->0.generation,
                    !killed_any ==> *self == round0,
                    killed_any ==> s_live_count(self.nodes@) < s_live_count(round0.nodes@),
                    !killed_any ==> forall|j: int| 0 <= j < i ==> !self.orphaned(j),
                decreases n - i,
            {
                let dead_parent = match &self.nodes[i] {
                    Some(nd) => match nd.parent {
                        Some(p) => !self.is_alive(p),
                        None => false,
                    },
                    None => false,
                };
                if dead_parent {
                    proof {
                        let islot = i as int;
                        assert forall|j: int|
                            0 <= j < self.nodes@.len() && (#[trigger] self.nodes@[j]) is Some
                                && j != islot implies !self.nodes@[j]->0.children@.contains(
                            NodeId(i as u32, self.nodes@[islot]->0.generation),
                        ) by {
                            if self.nodes@[j]->0.children@.contains(
                                NodeId(i as u32, self.nodes@[islot]->0.generation),
                            ) {
                                assert(self.links_weak(j, id));
                                let q = choose|q: int|
                                    0 <= q < self.nodes@[j]->0.children@.len()
                                        && self.nodes@[j]->0.children@[q] == NodeId(
                                        i as u32,
                                        self.nodes@[islot]->0.generation,
                                    );
                                assert(self.node_of(NodeId(i as u32, self.nodes@[islot]
                                    ->0.generation)).parent == Some(
                                    NodeId(j as u32, self.nodes@[j]->0.generation),
                                ));
                                assert(self.spec_is_alive(
                                    NodeId(j as u32, self.nodes@[j]->0.generation),
                                ));
                            }
                        }
                        let ghost lc0 = s_live_count(self.nodes@);
                        if killed_any {
                            assert(lc0 < s_live_count(round0.nodes@));
                        }
                    }
                    let ghost lc_before = s_live_count(self.nodes@);
                    self.kill_slot(i, Ghost(id));
                    killed_any = true;
                    proof {
                        assert(s_live_count(self.nodes@) < lc_before);
                        if s_live_count(round0.nodes@) >= lc_before {
                        }
                    }
                }
                i += 1;
            }
            if !killed_any {
                proof {
                    assert(*self == round0);
                    assert forall|j: int| 0 <= j < self.slots().len() implies !self.orphaned(
                        j,
                    ) by {}
                }
                break ;
            }
        }
        proof {
            self.lemma_no_orphans_wf(id);
        }
    }

    /// Remove `child` from `parent`'s child list.
    fn unlink_child(&mut self, par: NodeId, child: NodeId)
        requires
            old(self).wf(),
            old(self).spec_is_alive(par),
            old(self).spec_is_alive(child),
            old(self).node_of(child).parent == Some(par),
            par.0 != child.0,
        ensures
            final(self).wf_pending(child),
            final(self).nodes@.len() == old(self).nodes@.len(),
            final(self).generations@ == old(self).generations@,
            final(self).free_list@ == old(self).free_list@,
            final(self).index_of() == old(self).index_of(),
            forall|i: int|
                0 <= i < old(self).nodes@.len() && i != par.0 as int ==> final(self).nodes@[i]
                    == old(self).nodes@[i],
            final(self).nodes@[par.0 as int] is Some,
            final(self).spec_is_alive(child),
            final(self).node_of(child).parent == Some(par),
            !final(self).node_of(par).children@.contains(child),
            // the parent keeps everything but its child list
            ({
                let a = final(self).nodes@[par.0 as int]->0;
                let b = old(self).nodes@[par.0 as int]->0;
                &&& a.generation == b.generation
                &&& a.parent == b.parent
                &&& a.local == b.local
                &&& a.world == b.world
                &&& a.dirty == b.dirty
                &&& a.index_key == b.index_key
            }),
    {
        let pslot = par.0 as usize;
        let ghost kids0 = self.nodes@[pslot as int]->0.children@;
        let kept_len = match &self.nodes[pslot] {
            Some(pn) => pn.children.len(),
            None => 0,
        };
        let mut filtered: Vec<NodeId> = Vec::new();
        let mut q: usize = 0;
        proof {
            assert(old(self).links_ok(pslot as int));
        }
        while q < kept_len
            invariant
                *self == *old(self),
                old(self).wf(),
                old(self).spec_is_alive(par),
                pslot == par.0 as usize,
                (pslot as int) < self.nodes@.len(),
                self.nodes@[pslot as int] is Some,
                kids0 == self.nodes@[pslot as int]->0.children@,
                kids0.no_duplicates(),
                kept_len == kids0.len(),
                q <= kept_len,
                forall|w: int|
                    0 <= w < filtered@.len() ==> (exists|j: int|
                        0 <= j < q && kids0[j] == #[trigger] filtered@[w]) && filtered@[w]
                        != child,
                forall|c2: NodeId|
                    c2 != child && (exists|j: int| 0 <= j < q && kids0[j] == c2)
                        ==> filtered@.contains(c2),
                filtered@.no_duplicates(),
            decreases kept_len - q,
        {
            let c = match &self.nodes[pslot] {
                Some(pn) => pn.children[q],
                None => child,
            };
            let ghost f0 = filtered@;
            if !c.key_eq(&child) {
                filtered.push(c);
                proof {
                    assert(kids0[q as int] == c);
                    assert forall|w: int|
                        0 <= w < filtered@.len() implies (exists|j: int|
                            0 <= j < q + 1 && kids0[j] == #[trigger] filtered@[w]) && filtered@[w]
                            != child by {
                        if w < f0.len() {
                            assert(f0[w] == filtered@[w]);
                            let j = choose|j: int| 0 <= j < q && kids0[j] == f0[w];
                        } else {
                            assert(filtered@[w] == c);
                            assert(kids0[q as int] == c);
                        }
                    }
                    assert(filtered@.no_duplicates()) by {
                        if f0.contains(c) {
                            let w = choose|w: int| 0 <= w < f0.len() && f0[w] == c;
                            let j1 = choose|j1: int| 0 <= j1 < q && kids0[j1] == c;
                            assert(kids0[q as int] == c);
                            assert(kids0.no_duplicates());
                            assert(false);
                        }
                    }
                }
            }
            proof {
                assert forall|c2: NodeId|
                    c2 != child && (exists|j: int| 0 <= j < q + 1 && kids0[j] == c2) implies
                    filtered@.contains(c2) by {
                    let j = choose|j: int| 0 <= j < q + 1 && kids0[j] == c2;
                    if j < q {
                        assert(f0.contains(c2));
                        let w = choose|w: int| 0 <= w < f0.len() && f0[w] == c2;
                        assert(filtered@[w] == c2);
                    } else {
                        assert(kids0[q as int] == c2);
                        assert(filtered@.last() == c2);
                    }
                }
            }
            q += 1;
        }
        let ghost filteredv = filtered@;
        match &mut self.nodes[pslot] {
            Some(pn) => {
                pn.children = filtered;
            },
            None => {},
        }
        proof {
            let s0 = *old(self);
            let s1 = *self;
            assert(s1.nodes@[pslot as int]->0.children@ == filteredv);
            assert(!filteredv.contains(child)) by {
                if filteredv.contains(child) {
                    let w = choose|w: int| 0 <= w < filteredv.len() && filteredv[w] == child;
                }
            }
            assert forall|i: int|
                0 <= i < s1.nodes@.len() && (#[trigger] s1.nodes@[i]) is Some implies
                s1.links_weak(i, child) by {
                assert(s0.nodes@[i] is Some);
                assert(s0.links_ok(i));
                let n = s1.nodes@[i]->0;
                assert forall|q2: int|
                    0 <= q2 < n.children@.len() implies {
                    let c = #[trigger] n.children@[q2];
                    &&& s1.spec_is_alive(c)
                    &&& s1.node_of(c).parent == Some(NodeId(i as u32, n.generation))
                } by {
                    if i == pslot as int {
                        assert(n.children@ == filteredv);
                        let jj = choose|jj: int|
                            0 <= jj < kids0.len() && kids0[jj] == filteredv[q2];
                        assert(s0.spec_is_alive(kids0[jj]));
                        assert(n.generation == s0.nodes@[i]->0.generation);
                        assert(par == NodeId(i as u32, n.generation));
                        assert(s0.links_ok(pslot as int));
                        assert(s0.node_of(kids0[jj]).parent == Some(par));
                        assert(s1.node_of(kids0[jj]).parent == s0.node_of(kids0[jj]).parent);
                    } else {
                        assert(n == s0.nodes@[i]->0);
                        assert(s0.links_ok(i));
                        assert(s0.spec_is_alive(n.children@[q2]));
                        if n.children@[q2].0 == pslot as u32 {
                            assert(s1.node_of(n.children@[q2]).parent == s0.node_of(
                                n.children@[q2],
                            ).parent);
                        }
                    }
                }
                match n.parent {
                    None => {},
                    Some(pp) => {
                        if s1.spec_is_alive(pp) {
                            assert(s0.spec_is_alive(pp));
                            assert(s0.node_of(pp).children@.contains(
                                NodeId(i as u32, n.generation),
                            ));
                            if pp.0 == par.0 {
                                if NodeId(i as u32, n.generation) != child {
                                    let jj = choose|jj: int|
                                        0 <= jj < kids0.len() && kids0[jj] == NodeId(
                                            i as u32,
                                            n.generation,
                                        );
                                    assert(filteredv.contains(NodeId(i as u32, n.generation)));
                                }
                            } else {
                                let jj = choose|jj: int|
                                    0 <= jj < s0.node_of(pp).children@.len() && s0.node_of(
                                        pp,
                                    ).children@[jj] == NodeId(i as u32, n.generation);
                                assert(s1.node_of(pp).children@[jj] == NodeId(
                                    i as u32,
                                    n.generation,
                                ));
                            }
                        }
                    },
                }
            }
            assert(s1.wf_pending(child));
        }
    }

    /// Move `id` under `new_parent` (or make it a root): the old parent
    /// loses the child, the new one gains it, the node is flagged dirty on
    /// every axis, and nothing else changes — children, local data, index
    /// entries and liveness all survive. A stale identifier is a no-op.
    /// The new parent must not descend from the moved node: such a cycle
    /// would detach the subtree from every root for good.
    #[verifier::rlimit(100)]
    #[verifier::spinoff_prover]
    pub fn reparent(&mut self, id: NodeId, new_parent: Option<NodeId>)
        requires
            old(self).wf(),
            new_parent is Some ==> old(self).spec_is_alive(new_parent->0),
            new_parent is Some && old(self).spec_is_alive(id) ==> forall|fuel: nat|
                !s_ancestor_within(old(self).slots(), (new_parent->0).0 as int, id, fuel),
        ensures
            final(self).wf(),
            final(self).gens() == old(self).gens(),
            final(self).slots().len() == old(self).slots().len(),
            forall|id2: NodeId|
                old(self).spec_is_alive(id2) == final(self).spec_is_alive(id2),
            final(self).index_of() == old(self).index_of(),
            !old(self).spec_is_alive(id) ==> *final(self) == *old(self),
            old(self).spec_is_alive(id) ==> {
                &&& final(self).node_of(id).parent == new_parent
                &&& final(self).node_of(id).local == old(self).node_of(id).local
                &&& final(self).node_of(id).children@ == old(self).node_of(id).children@
                &&& final(self).node_of(id).index_key == old(self).node_of(id).index_key
                &&& (new_parent is Some ==> final(self).node_of(
                    new_parent->0,
                ).children@.contains(id))
                &&& (match old(self).node_of(id).parent {
                    None => true,
                    Some(op) => Some(op) == new_parent || !final(self).node_of(
                        op,
                    ).children@.contains(id),
                })
            },
            // every node keeps its occupancy, generation, local data and
            // index entry; only links and dirty bits move
            forall|i: int|
                0 <= i < old(self).slots().len() ==> ((#[trigger] final(self).slots()[i])
                    is Some <==> old(self).slots()[i] is Some),
            forall|i: int|
                0 <= i < old(self).slots().len() && old(self).slots()[i] is Some ==> {
                    let a = (#[trigger] final(self).slots()[i])->0;
                    let b = old(self).slots()[i]->0;
                    &&& a.generation == b.generation
                    &&& a.local == b.local
                    &&& a.index_key == b.index_key
                    &&& a.world == b.world
                },
    {
        if !self.is_alive(id) {
            return ;
        }
        let slot = id.0 as usize;
        let parent_opt = match &self.nodes[slot] {
            Some(n) => n.parent,
            None => None,
        };
        match parent_opt {
            Some(par) => {
                proof {
                    assert(old(self).links_ok(slot as int));
                    assert(old(self).spec_is_alive(par));
                    assert(par.0 != id.0);
                }
                self.unlink_child(par, id);
            },
            None => {
                proof {
                    assert forall|i: int|
                        0 <= i < self.slots().len() && (#[trigger] self.slots()[i]) is Some
                            implies self.links_weak(i, id) by {
                        assert(self.links_ok(i));
                    }
                    assert(self.wf_pending(id));
                }
            },
        }
        let ghost mid = *self;
        // rewire the node itself and flag it dirty on every axis
        match &mut self.nodes[slot] {
            Some(n) => {
                n.parent = new_parent;
                n.dirty = DirtyFlags {
                    layout: true,
                    transform: true,
                    clip: true,
                    z: true,
                    index: true,
                };
            },
            None => {},
        }
        let ghost mid2 = *self;
        // link into the new parent's child list
        match new_parent {
            Some(np) => {
                proof {
                    assert(self.spec_is_alive(np));
                    assert(np.0 != id.0) by {
                        if np.0 == id.0 {
                            assert(s_ancestor_within(old(self).slots(), np.0 as int, id, 0));
                        }
                    }
                }
                let pslot = np.0 as usize;
                let ghost child0 = self.nodes@[pslot as int]->0.children@;
                match &mut self.nodes[pslot] {
                    Some(pn) => {
                        pn.children.push(id);
                    },
                    None => {},
                }
                proof {
                    let s0 = *old(self);
                    let s2 = *self;
                    assert(s2.nodes@[pslot as int]->0.children@ == child0.push(id));
                    assert(s2.nodes@[pslot as int]->0.children@.last() == id);
                    // the new parent's list did not hold the moved node
                    assert(!child0.contains(id)) by {
                        if child0.contains(id) {
                            assert(mid.nodes@[pslot as int]->0.children@ == child0);
                            if parent_opt is Some {
                                assert(!mid.node_of(parent_opt->0).children@.contains(id));
                                if (parent_opt->0).0 != np.0 {
                                    assert(s0.links_ok(pslot as int));
                                    let q = choose|q: int|
                                        0 <= q < child0.len() && child0[q] == id;
                                    assert(s0.node_of(id).parent == Some(
                                        NodeId(pslot as u32, s0.nodes@[pslot as int]
                                            ->0.generation),
                                    ));
                                }
                            } else {
                                assert(s0.links_ok(pslot as int));
                                let q = choose|q: int| 0 <= q < child0.len() && child0[q] == id;
                                assert(s0.node_of(id).parent == Some(
                                    NodeId(pslot as u32, s0.nodes@[pslot as int]->0.generation),
                                ));
                            }
                        }
                    }
                    assert forall|i: int|
                        0 <= i < s2.nodes@.len() && (#[trigger] s2.nodes@[i]) is Some implies
                        s2.links_ok(i) by {
                        assert(mid.links_weak(i, id));
                        let n = s2.nodes@[i]->0;
                        assert forall|q: int|
                            0 <= q < n.children@.len() implies {
                            let c = #[trigger] n.children@[q];
                            &&& s2.spec_is_alive(c)
                            &&& s2.node_of(c).parent == Some(NodeId(i as u32, n.generation))
                        } by {
                            if i == pslot as int && q == n.children@.len() - 1 {
                                assert(n.children@[q] == id);
                                assert(s2.node_of(id).parent == Some(np));
                                assert(np == NodeId(i as u32, n.generation));
                            } else {
                                let c = if i == pslot as int {
                                    child0[q]
                                } else {
                                    mid.nodes@[i]->0.children@[q]
                                };
                                assert(n.children@[q] == c);
                                assert(mid.spec_is_alive(c));
                                assert(mid.node_of(c).parent == Some(
                                    NodeId(i as u32, n.generation),
                                ));
                                assert(c != id) by {
                                    if i == pslot as int {
                                        assert(!child0.contains(id));
                                        assert(child0[q] == c);
                                    } else {
                                        if c == id {
                                            assert(mid.node_of(id).parent == Some(
                                                NodeId(i as u32, n.generation),
                                            ));
                                            if parent_opt is Some {
                                                assert(!mid.node_of(
                                                    parent_opt->0,
                                                ).children@.contains(id));
                                            }
                                        }
                                    }
                                }
                                assert(s2.node_of(c).parent == mid.node_of(c).parent);
                            }
                        }
                        assert(n.children@.no_duplicates()) by {
                            if i == pslot as int {
                                assert(child0.no_duplicates());
                                assert(!child0.contains(id));
                            } else {
                                assert(mid.nodes@[i]->0.children@.no_duplicates());
                                assert(n.children@ == mid2.nodes@[i]->0.children@);
                            }
                        }
                        match n.parent {
                            None => {},
                            Some(pp) => {
                                if i == slot as int {
                                    assert(pp == np);
                                    assert(s2.spec_is_alive(np));
                                    assert(s2.node_of(np).children@.last() == id);
                                    assert(s2.node_of(np).children@.contains(
                                        NodeId(i as u32, n.generation),
                                    ));
                                    assert(pp.0 != i as u32);
                                } else {
                                    assert(mid.nodes@[i]->0.parent == Some(pp));
                                    assert(mid.links_weak(i, id));
                                    assert(NodeId(i as u32, n.generation) != id) by {
                                        if NodeId(i as u32, n.generation) == id {
                                            assert(i == slot as int);
                                        }
                                    }
                                    assert(s0.nodes@[i] is Some);
                                    assert(s0.nodes@[i]->0.parent == Some(pp));
                                    assert(s0.links_ok(i));
                                    assert(s0.spec_is_alive(pp));
                                    assert(mid.spec_is_alive(pp));
                                    assert(s2.spec_is_alive(pp));
                                    assert(mid.node_of(pp).children@.contains(
                                        NodeId(i as u32, n.generation),
                                    ));
                                    if pp.0 == pslot as u32 {
                                        let q = choose|q: int|
                                            0 <= q < child0.len() && child0[q] == NodeId(
                                                i as u32,
                                                n.generation,
                                            );
                                        assert(s2.node_of(pp).children@[q] == NodeId(
                                            i as u32,
                                            n.generation,
                                        ));
                                    } else {
                                        assert(s2.node_of(pp).children@ == mid.node_of(
                                            pp,
                                        ).children@);
                                    }
                                }
                            },
                        }
                    }
                    assert(s2.wf());
                }
            },
            None => {
                proof {
                    let s2 = *self;
                    assert forall|i: int|
                        0 <= i < s2.nodes@.len() && (#[trigger] s2.nodes@[i]) is Some implies
                        s2.links_ok(i) by {
                        assert(mid.links_weak(i, id));
                        let n = s2.nodes@[i]->0;
                        assert forall|q: int|
                            0 <= q < n.children@.len() implies {
                            let c = #[trigger] n.children@[q];
                            &&& s2.spec_is_alive(c)
                            &&& s2.node_of(c).parent == Some(NodeId(i as u32, n.generation))
                        } by {
                            let c = mid.nodes@[i]->0.children@[q];
                            assert(n.children@[q] == c);
                            assert(mid.spec_is_alive(c));
                            assert(c != id) by {
                                if c == id {
                                    assert(mid.node_of(id).parent == Some(
                                        NodeId(i as u32, n.generation),
                                    ));
                                    if parent_opt is Some {
                                        assert(!mid.node_of(parent_opt->0).children@.contains(
                                            id,
                                        ));
                                    }
                                }
                            }
                            assert(s2.node_of(c).parent == mid.node_of(c).parent);
                        }
                        match n.parent {
                            None => {},
                            Some(pp) => {
                                let s0 = *old(self);
                                assert(i != slot as int);
                                assert(mid.links_weak(i, id));
                                assert(NodeId(i as u32, n.generation) != id) by {
                                    if NodeId(i as u32, n.generation) == id {
                                        assert(i == slot as int);
                                    }
                                }
                                assert(s0.nodes@[i] is Some);
                                assert(s0.nodes@[i]->0.parent == Some(pp));
                                assert(s0.links_ok(i));
                                assert(s0.spec_is_alive(pp));
                                assert(mid.spec_is_alive(pp));
                                assert(s2.spec_is_alive(pp));
                                assert(mid.node_of(pp).children@.contains(
                                    NodeId(i as u32, n.generation),
                                ));
                                assert(s2.node_of(pp).children@ == mid.node_of(pp).children@);
                            },
                        }
                    }
                    assert(s2.wf());
                }
            },
        }
    }
}

/// How many flags are set.
pub(crate) open spec fn s_count_true(s: Seq<bool>) -> nat
    decreases s.len(),
{
    if s.len() == 0 {
        0
    } else {
        s_count_true(s.drop_last()) + if s.last() {
            1nat
        } else {
            0nat
        }
    }
}

/// Setting a clear flag raises the count by one.
proof fn lemma_count_true_set(s: Seq<bool>, i: int)
    requires
        0 <= i < s.len(),
        !s[i],
    ensures
        s_count_true(s.update(i, true)) == s_count_true(s) + 1,
    decreases s.len(),
{
    let s2 = s.update(i, true);
    if i == s.len() - 1 {
        assert(s2.drop_last() =~= s.drop_last());
        assert(s2.last());
    } else {
        lemma_count_true_set(s.drop_last(), i);
        assert(s2.drop_last() =~= s.drop_last().update(i, true));
        assert(s2.last() == s.last());
    }
}

/// An all-clear flag sequence counts zero.
proof fn lemma_count_true_zero(s: Seq<bool>)
    requires
        forall|j: int| 0 <= j < s.len() ==> !(#[trigger] s[j]),
    ensures
        s_count_true(s) == 0,
    decreases s.len(),
{
    if s.len() > 0 {
        assert forall|j: int| 0 <= j < s.drop_last().len() implies !(
        #[trigger] s.drop_last()[j]) by {
            assert(!s[j]);
        }
        lemma_count_true_zero(s.drop_last());
        assert(!s[s.len() - 1]);
    }
}

/// The count never exceeds the length.
proof fn lemma_count_true_bound(s: Seq<bool>)
    ensures
        s_count_true(s) <= s.len(),
    decreases s.len(),
{
    if s.len() > 0 {
        lemma_count_true_bound(s.drop_last());
    }
}

/// Whether slot `i` holds a live node in `s`.
pub open spec fn s_slot_alive(s: Seq<Option<SceneNode>>, i: int) -> bool {
    0 <= i < s.len() && s[i] is Some
}

/// The chain depth of slot `i`: how many live, generation-matching parent
/// steps reach a root within `fuel` steps.
pub open spec fn s_depth(s: Seq<Option<SceneNode>>, i: int, fuel: nat) -> Option<nat>
    decreases fuel,
{
    if !s_slot_alive(s, i) {
        None
    } else {
        match s[i]->0.parent {
            None => Some(0),
            Some(p) => if fuel == 0 || !(s_slot_alive(s, p.0 as int) && s[p.0 as int]
                ->0.generation == p.1) {
                None
            } else {
                match s_depth(s, p.0 as int, (fuel - 1) as nat) {
                    None => None,
                    Some(d) => Some((d + 1) as nat),
                }
            },
        }
    }
}

/// Whether slot `i` reaches a root through live parents.
pub open spec fn s_rooted(s: Seq<Option<SceneNode>>, i: int) -> bool {
    exists|fuel: nat| s_depth(s, i, fuel) is Some
}

/// The depth of a slot does not depend on the fuel that witnesses it.
proof fn lemma_depth_unique(s: Seq<Option<SceneNode>>, i: int, f1: nat, f2: nat)
    requires
        s_depth(s, i, f1) is Some,
        s_depth(s, i, f2) is Some,
    ensures
        s_depth(s, i, f1) == s_depth(s, i, f2),
    decreases f1,
{
    if s_slot_alive(s, i) {
        match s[i]->0.parent {
            None => {},
            Some(p) => {
                lemma_depth_unique(s, p.0 as int, (f1 - 1) as nat, (f2 - 1) as nat);
            },
        }
    }
}

/// The slots whose chain depth is at most `d`.
spec fn s_depth_le_set(s: Seq<Option<SceneNode>>, d: nat) -> Set<int> {
    Set::new(
        |j: int|
            0 <= j < s.len() && exists|f: nat|
                (#[trigger] s_depth(s, j, f)) is Some && s_depth(s, j, f)->0 <= d,
    )
}

/// Each depth level up to `d` is inhabited by a distinct slot, so a chain
/// of depth `d` forces at least `d + 1` distinct slots.
proof fn lemma_depth_count(s: Seq<Option<SceneNode>>, i: int, f: nat, d: nat)
    requires
        s_depth(s, i, f) == Some(d),
    ensures
        s_depth_le_set(s, d).finite(),
        s_depth_le_set(s, d).len() >= d + 1,
    decreases d,
{
    vstd::set_lib::lemma_int_range(0, s.len() as int);
    vstd::set_lib::lemma_len_subset(s_depth_le_set(s, d), vstd::set_lib::set_int_range(0, s.len() as int));
    assert(s_depth_le_set(s, d).contains(i)) by {
        assert(s_depth(s, i, f) is Some && s_depth(s, i, f)->0 <= d);
    }
    if d == 0 {
        vstd::set_lib::lemma_len_subset(Set::empty().insert(i), s_depth_le_set(s, d));
        assert(Set::<int>::empty().insert(i).len() == 1);
    } else {
        let p = s[i]->0.parent->0;
        assert(s_depth(s, p.0 as int, (f - 1) as nat) == Some((d - 1) as nat));
        lemma_depth_count(s, p.0 as int, (f - 1) as nat, (d - 1) as nat);
        let prev = s_depth_le_set(s, (d - 1) as nat);
        assert(!prev.contains(i)) by {
            if prev.contains(i) {
                let f2 = choose|f2: nat|
                    (#[trigger] s_depth(s, i, f2)) is Some && s_depth(s, i, f2)->0 <= d - 1;
                lemma_depth_unique(s, i, f, f2);
            }
        }
        assert(prev.insert(i).subset_of(s_depth_le_set(s, d))) by {
            assert forall|j: int| prev.insert(i).contains(j) implies s_depth_le_set(
                s,
                d,
            ).contains(j) by {
                if j == i {
                    assert(s_depth(s, i, f) is Some && s_depth(s, i, f)->0 <= d);
                } else {
                    assert(prev.contains(j));
                    let f2 = choose|f2: nat|
                        (#[trigger] s_depth(s, j, f2)) is Some && s_depth(s, j, f2)->0 <= d - 1;
                    assert(s_depth(s, j, f2) is Some && s_depth(s, j, f2)->0 <= d);
                }
            }
        }
        vstd::set_lib::lemma_len_subset(prev.insert(i), s_depth_le_set(s, d));
        assert(prev.insert(i).len() == prev.len() + 1);
    }
}

/// A finite chain depth is strictly below the number of slots.
proof fn lemma_depth_lt_len(s: Seq<Option<SceneNode>>, i: int, f: nat)
    requires
        s_depth(s, i, f) is Some,
    ensures
        s_depth(s, i, f)->0 < s.len(),
{
    let d = s_depth(s, i, f)->0;
    lemma_depth_count(s, i, f, d);
    vstd::set_lib::lemma_int_range(0, s.len() as int);
    vstd::set_lib::lemma_len_subset(
        s_depth_le_set(s, d),
        vstd::set_lib::set_int_range(0, s.len() as int),
    );
}

/// A root-to-node path: every entry is live, consecutive entries are
/// parent and child, the first is a root and the last is the node.
pub open spec fn s_root_path(s: Seq<Option<SceneNode>>, path: Seq<NodeId>, node: NodeId) -> bool {
    &&& path.len() >= 1
    &&& path[path.len() - 1] == node
    &&& forall|q: int|
        0 <= q < path.len() ==> s_slot_alive(s, (#[trigger] path[q]).0 as int)
            && s[path[q].0 as int]->0.generation == path[q].1
    &&& forall|q: int|
        0 <= q < path.len() - 1 ==> s[(#[trigger] path[q + 1]).0 as int]->0.parent == Some(
            path[q],
        )
    &&& s[path[0].0 as int]->0.parent is None
}

/// Whether the identifier `a` stands on the live parent chain of slot `i`,
/// itself included, within `fuel` steps.
pub open spec fn s_ancestor_within(
    s: Seq<Option<SceneNode>>,
    i: int,
    a: NodeId,
    fuel: nat,
) -> bool
    decreases fuel,
{
    s_slot_alive(s, i) && (NodeId(i as u32, s[i]->0.generation) == a || (fuel > 0
        && match s[i]->0.parent {
        None => false,
        Some(p) => s_slot_alive(s, p.0 as int) && s[p.0 as int]->0.generation == p.1
            && s_ancestor_within(s, p.0 as int, a, (fuel - 1) as nat),
    }))
}

/// Chain depth only looks at occupancy, parent links and generations, which
/// world recomputation never changes.
proof fn lemma_depth_congruent(
    a: Seq<Option<SceneNode>>,
    b: Seq<Option<SceneNode>>,
    j: int,
    fuel: nat,
)
    requires
        a.len() == b.len(),
        forall|t: int| 0 <= t < a.len() ==> ((#[trigger] a[t]) is Some <==> b[t] is Some),
        forall|t: int|
            0 <= t < a.len() && (#[trigger] a[t]) is Some ==> a[t]->0.parent == b[t]->0.parent
                && a[t]->0.generation == b[t]->0.generation,
    ensures
        s_depth(b, j, fuel) == s_depth(a, j, fuel),
    decreases fuel,
{
    if s_slot_alive(a, j) {
        match a[j]->0.parent {
            None => {},
            Some(p) => {
                if fuel > 0 {
                    lemma_depth_congruent(a, b, p.0 as int, (fuel - 1) as nat);
                }
            },
        }
    }
}

/// At a fixpoint where every ready node is settled, every rooted node is
/// settled.
proof fn lemma_rooted_computed(t: Tree, comp: Seq<bool>, j: int, fuel: nat)
    requires
        comp.len() == t.slots().len(),
        forall|w: int|
            s_slot_alive(t.slots(), w) && (match t.slots()[w]->0.parent {
                None => true,
                Some(p) => t.spec_is_alive(p) && comp[p.0 as int],
            }) ==> #[trigger] comp[w],
        s_depth(t.slots(), j, fuel) is Some,
    ensures
        comp[j],
    decreases fuel,
{
    match t.slots()[j]->0.parent {
        None => {},
        Some(p) => {
            lemma_rooted_computed(t, comp, p.0 as int, (fuel - 1) as nat);
        },
    }
}

impl Tree {
    /// Live nodes whose committed world box overlaps the rectangle, with
    /// visibility filtering only (spec: rectangle intersection applies no
    /// pick filter and no clip re-check). Every returned identifier is
    /// live, overlapping and visible when asked; on a committed tree the
    /// result is exactly the rooted such nodes, each once.
    pub fn intersect_rect(&self, rect: Aabb2D, filter: QueryFilter) -> (r: Vec<NodeId>)
        requires
            self.wf(),
        ensures
            forall|q: int|
                0 <= q < r@.len() ==> {
                    let id = #[trigger] r@[q];
                    &&& self.spec_is_alive(id)
                    &&& s_overlaps(self.node_of(id).world.world_bounds, rect)
                    &&& (filter.visible_only ==> self.node_of(id).local.flags.visible)
                },
            forall|q1: int, q2: int| 0 <= q1 < q2 < r@.len() ==> r@[q1] != r@[q2],
            self.committed() ==> forall|id: NodeId|
                self.spec_is_alive(id) && s_rooted(self.slots(), id.0 as int) && s_overlaps(
                    (#[trigger] self.node_of(id)).world.world_bounds,
                    rect,
                ) && (filter.visible_only ==> self.node_of(id).local.flags.visible)
                    ==> r@.contains(id),
    {
        let cands = self.index.query_rect(rect);
        let ghost cv = cands@;
        let mut out: Vec<NodeId> = Vec::new();
        let mut j: usize = 0;
        while j < cands.len()
            invariant
                self.wf(),
                self.index.rect_query_post(rect, cv),
                cv == cands@,
                j <= cv.len(),
                forall|q: int|
                    0 <= q < out@.len() ==> {
                        let id = #[trigger] out@[q];
                        &&& self.spec_is_alive(id)
                        &&& s_overlaps(self.node_of(id).world.world_bounds, rect)
                        &&& (filter.visible_only ==> self.node_of(id).local.flags.visible)
                    },
                forall|q: int|
                    0 <= q < out@.len() ==> {
                        let id = #[trigger] out@[q];
                        &&& self.node_of(id).index_key is Some
                        &&& exists|c: int|
                            0 <= c < j && #[trigger] cv[c] == (
                                self.node_of(id).index_key->0,
                                id,
                            )
                    },
                forall|q1: int, q2: int| 0 <= q1 < q2 < out@.len() ==> out@[q1] != out@[q2],
                forall|id: NodeId|
                    #![auto]
                    self.spec_is_alive(id) && self.node_of(id).index_key is Some && cv.take(
                        j as int,
                    ).contains((self.node_of(id).index_key->0, id)) && s_overlaps(
                        self.node_of(id).world.world_bounds,
                        rect,
                    ) && (filter.visible_only ==> self.node_of(id).local.flags.visible)
                        ==> out@.contains(id),
            decreases cv.len() - j,
        {
            let (k, id) = cands[j];
            let ghost out_before = out@;
            let slot = id.0 as usize;
            if slot < self.nodes.len() {
                match &self.nodes[slot] {
                    Some(n) => {
                        if n.generation == id.1 && (match n.index_key {
                            Some(k2) => k2.0 == k.0 && k2.1 == k.1,
                            None => false,
                        }) && !n.world.world_bounds.intersect(&rect).is_empty() && (
                        !filter.visible_only || n.local.flags.visible) {
                            proof {
                                assert(self.spec_is_alive(id));
                                assert(self.node_of(id).index_key == Some(k));
                                assert forall|q: int| 0 <= q < out_before.len() implies
                                    out_before[q] != id by {
                                    let c = choose|c: int|
                                        0 <= c < j && #[trigger] cv[c] == (
                                            self.node_of(out_before[q]).index_key->0,
                                            out_before[q],
                                        );
                                    assert(cv[c].0 != cv[j as int].0);
                                }
                            }
                            out.push(id);
                            proof {
                                assert(cv[j as int] == (self.node_of(id).index_key->0, id));
                            }
                        }
                    },
                    None => {},
                }
            }
            proof {
                assert forall|id2: NodeId|
                    #![auto]
                    self.spec_is_alive(id2) && self.node_of(id2).index_key is Some && cv.take(
                        j + 1,
                    ).contains((self.node_of(id2).index_key->0, id2)) && s_overlaps(
                        self.node_of(id2).world.world_bounds,
                        rect,
                    ) && (filter.visible_only ==> self.node_of(id2).local.flags.visible)
                        implies out@.contains(id2) by {
                    let t = cv.take(j + 1);
                    let c = choose|c: int|
                        0 <= c < t.len() && t[c] == (self.node_of(id2).index_key->0, id2);
                    if c < j {
                        assert(cv.take(j as int)[c] == (self.node_of(id2).index_key->0, id2));
                        assert(out_before.contains(id2));
                        let q = choose|q: int|
                            0 <= q < out_before.len() && out_before[q] == id2;
                        assert(out@[q] == id2);
                    } else {
                        assert(cv[j as int] == (self.node_of(id2).index_key->0, id2));
                        assert(k == self.node_of(id2).index_key->0 && id == id2);
                        assert(self.index.is_live(k));
                        assert(out@[out@.len() - 1] == id2);
                    }
                }
            }
            j += 1;
        }
        proof {
            if self.committed() {
                assert forall|id: NodeId|
                    self.spec_is_alive(id) && s_rooted(self.slots(), id.0 as int) && s_overlaps(
                        (#[trigger] self.node_of(id)).world.world_bounds,
                        rect,
                    ) && (filter.visible_only ==> self.node_of(id).local.flags.visible) implies
                    out@.contains(id) by {
                    assert(s_slot_alive(self.slots(), id.0 as int));
                    let k = self.node_of(id).index_key->0;
                    assert(self.index.is_live(k));
                    assert(self.index.live_aabb(k) == self.node_of(id).world.world_bounds);
                    assert(self.index.live_payload(k) == id);
                    assert(cv.contains((k, id)));
                    assert(cv.take(cv.len() as int) == cv);
                }
            }
        }
        out
    }

    /// Whether a live node's flags pass the filter.
    pub open spec fn spec_passes_filter(self, id: NodeId, filter: QueryFilter) -> bool {
        &&& (filter.visible_only ==> self.node_of(id).local.flags.visible)
        &&& (filter.pickable_only ==> self.node_of(id).local.flags.pickable)
    }

    /// A hit-test candidate: live, passing the filter, with cached world
    /// bounds containing the point. The cached bounds are already
    /// intersected with the node's own and inherited clip boxes, so the
    /// clip re-check of a hit test is the conservative box test that this
    /// integer model provides.
    pub open spec fn spec_hit_candidate(
        self,
        id: NodeId,
        x: int,
        y: int,
        filter: QueryFilter,
    ) -> bool {
        &&& self.spec_is_alive(id)
        &&& self.spec_passes_filter(id, filter)
        &&& s_contains_point(self.node_of(id).world.world_bounds, x, y)
    }

    /// Topmost order between two live nodes: strictly higher stacking
    /// order wins, and on a tie the newer identifier wins.
    pub open spec fn spec_hit_beats(self, a: NodeId, b: NodeId) -> bool {
        let za = self.node_of(a).local.z_index;
        let zb = self.node_of(b).local.z_index;
        za > zb || (za == zb && s_id_newer(a, b))
    }

    /// Hit test a world-space point: among the live nodes whose committed
    /// world bounds contain the point and whose flags pass the filter, the
    /// topmost wins — strictly higher stacking order first, then the newer
    /// identifier, a deterministic tie-break. Returns the winner and its
    /// root-to-node path. On a committed tree the winner beats every rooted
    /// candidate, and `None` means there is no rooted candidate at all.
    #[verifier::rlimit(100)]
    #[verifier::spinoff_prover]
    pub fn hit_test_point(&self, x: i64, y: i64, filter: QueryFilter) -> (r: Option<Hit>)
        requires
            self.wf(),
        ensures
            match r {
                Option::Some(h) => {
                    &&& self.spec_hit_candidate(h.node, x as int, y as int, filter)
                    &&& h.path@.len() >= 1
                    &&& h.path@[h.path@.len() - 1] == h.node
                    &&& (s_rooted(self.slots(), h.node.0 as int) ==> s_root_path(
                        self.slots(),
                        h.path@,
                        h.node,
                    ))
                    &&& (self.committed() ==> forall|id: NodeId|
                        #[trigger] self.spec_hit_candidate(id, x as int, y as int, filter)
                            && s_rooted(self.slots(), id.0 as int) ==> !self.spec_hit_beats(
                            id,
                            h.node,
                        ))
                },
                Option::None => self.committed() ==> forall|id: NodeId|
                    !(#[trigger] self.spec_hit_candidate(id, x as int, y as int, filter)
                        && s_rooted(self.slots(), id.0 as int)),
            },
    {
        let cands = self.index.query_point(x, y);
        let ghost cv = cands@;
        let mut best: Option<(NodeId, i32)> = None;
        let mut j: usize = 0;
        while j < cands.len()
            invariant
                self.wf(),
                self.index.point_query_post(x as int, y as int, cv),
                cv == cands@,
                j <= cv.len(),
                match best {
                    Some((b, zb)) => {
                        &&& self.spec_hit_candidate(b, x as int, y as int, filter)
                        &&& zb == self.node_of(b).local.z_index
                    },
                    None => true,
                },
                forall|id: NodeId|
                    #![auto]
                    self.spec_is_alive(id) && self.node_of(id).index_key is Some && cv.take(
                        j as int,
                    ).contains((self.node_of(id).index_key->0, id)) && self.spec_hit_candidate(
                        id,
                        x as int,
                        y as int,
                        filter,
                    ) ==> (best is Some && !self.spec_hit_beats(id, (best->0).0)),
            decreases cv.len() - j,
        {
            let (k, id) = cands[j];
            let ghost best_before = best;
            let slot = id.0 as usize;
            if slot < self.nodes.len() {
                match &self.nodes[slot] {
                    Some(n) => {
                        if n.generation == id.1 && (match n.index_key {
                            Some(k2) => k2.0 == k.0 && k2.1 == k.1,
                            None => false,
                        }) && n.world.world_bounds.contains_point(x, y) && (!filter.visible_only
                            || n.local.flags.visible) && (!filter.pickable_only
                            || n.local.flags.pickable) {
                            let z = n.local.z_index;
                            match best {
                                None => {
                                    best = Some((id, z));
                                },
                                Some((bid, zb)) => {
                                    if z > zb || (z == zb && id.is_newer_than(&bid)) {
                                        best = Some((id, z));
                                    }
                                },
                            }
                        }
                    },
                    None => {},
                }
            }
            proof {
                assert forall|id2: NodeId|
                    #![auto]
                    self.spec_is_alive(id2) && self.node_of(id2).index_key is Some && cv.take(
                        j + 1,
                    ).contains((self.node_of(id2).index_key->0, id2))
                        && self.spec_hit_candidate(id2, x as int, y as int, filter) implies (
                best is Some && !self.spec_hit_beats(id2, (best->0).0)) by {
                    let t = cv.take(j + 1);
                    let c = choose|c: int|
                        0 <= c < t.len() && t[c] == (self.node_of(id2).index_key->0, id2);
                    if c < j {
                        assert(cv.take(j as int)[c] == (self.node_of(id2).index_key->0, id2));
                        assert(best_before is Some && !self.spec_hit_beats(
                            id2,
                            (best_before->0).0,
                        ));
                    } else {
                        assert(cv[j as int] == (self.node_of(id2).index_key->0, id2));
                        assert(id == id2);
                        assert(self.index.is_live(k));
                    }
                }
            }
            j += 1;
        }
        proof {
            if self.committed() {
                assert forall|id: NodeId|
                    #[trigger] self.spec_hit_candidate(id, x as int, y as int, filter)
                        && s_rooted(self.slots(), id.0 as int) implies (best is Some
                    && !self.spec_hit_beats(id, (best->0).0)) by {
                    assert(s_slot_alive(self.slots(), id.0 as int));
                    let k = self.node_of(id).index_key->0;
                    assert(self.index.is_live(k));
                    assert(self.index.live_aabb(k) == self.node_of(id).world.world_bounds);
                    assert(self.index.live_payload(k) == id);
                    assert(cv.contains((k, id)));
                    assert(cv.take(cv.len() as int) == cv);
                }
            }
        }
        let (best_id, _best_z) = match best {
            None => {
                return None;
            },
            Some(b) => b,
        };
        // materialise the root-to-node path by ascending the parent chain;
        // the walk is fuel-bounded, and a rooted winner reaches its root
        // strictly within the fuel
        let n = self.nodes.len();
        let ghost rooted = s_rooted(self.slots(), best_id.0 as int);
        let ghost db: nat = if rooted {
            let f0 = choose|f0: nat| s_depth(self.slots(), best_id.0 as int, f0) is Some;
            s_depth(self.slots(), best_id.0 as int, f0)->0
        } else {
            0
        };
        proof {
            if rooted {
                let f0 = choose|f0: nat| s_depth(self.slots(), best_id.0 as int, f0) is Some;
                lemma_depth_lt_len(self.slots(), best_id.0 as int, f0);
                assert(db < n);
            }
        }
        let mut rev: Vec<NodeId> = Vec::new();
        rev.push(best_id);
        let mut cur = best_id;
        let mut steps: usize = 0;
        let mut hit_root = false;
        loop
            invariant_except_break
                !hit_root,
            invariant
                self.wf(),
                n == self.nodes@.len(),
                rooted == s_rooted(self.slots(), best_id.0 as int),
                self.spec_is_alive(best_id),
                steps <= n,
                rev@.len() == steps + 1,
                rev@[0] == best_id,
                cur == rev@[rev@.len() - 1],
                self.spec_is_alive(cur),
                forall|q: int|
                    0 <= q < rev@.len() ==> self.spec_is_alive(#[trigger] rev@[q]),
                forall|q: int|
                    0 <= q < rev@.len() - 1 ==> self.node_of(#[trigger] rev@[q]).parent == Some(
                        rev@[q + 1],
                    ),
                rooted ==> steps <= db && (exists|f: nat|
                    #[trigger] s_depth(self.slots(), cur.0 as int, f) == Some(
                        (db - steps) as nat,
                    )),
                rooted ==> db < n,
            ensures
                rev@.len() >= 1,
                rev@[0] == best_id,
                cur == rev@[rev@.len() - 1],
                forall|q: int|
                    0 <= q < rev@.len() ==> self.spec_is_alive(#[trigger] rev@[q]),
                forall|q: int|
                    0 <= q < rev@.len() - 1 ==> self.node_of(#[trigger] rev@[q]).parent == Some(
                        rev@[q + 1],
                    ),
                hit_root ==> self.node_of(cur).parent is None,
                rooted ==> hit_root,
            decreases n - steps,
        {
            let parent = match &self.nodes[cur.0 as usize] {
                Some(nd) => nd.parent,
                None => None,
            };
            match parent {
                None => {
                    hit_root = true;
                    break ;
                },
                Some(p) => {
                    proof {
                        assert(self.links_ok(cur.0 as int));
                        assert(self.spec_is_alive(p));
                        if rooted {
                            let f = choose|f: nat|
                                #[trigger] s_depth(self.slots(), cur.0 as int, f) == Some(
                                    (db - steps) as nat,
                                );
                            assert(f > 0 && s_depth(self.slots(), p.0 as int, (f - 1) as nat)
                                == Some((db - steps - 1) as nat));
                        }
                        if steps == n {
                            assert(!rooted);
                        }
                    }
                    if steps == n {
                        break ;
                    }
                    rev.push(p);
                    cur = p;
                    steps += 1;
                },
            }
        }
        // reverse into root-to-node order
        let m = rev.len();
        let mut path: Vec<NodeId> = Vec::new();
        let mut q: usize = 0;
        while q < m
            invariant
                m == rev@.len(),
                q <= m,
                path@.len() == q,
                forall|w: int| 0 <= w < q ==> #[trigger] path@[w] == rev@[m - 1 - w],
            decreases m - q,
        {
            path.push(rev[m - 1 - q]);
            q += 1;
        }
        proof {
            assert(path@.len() == rev@.len() >= 1);
            assert(path@[path@.len() - 1] == rev@[0]);
            if s_rooted(self.slots(), best_id.0 as int) {
                assert(hit_root);
                assert(self.node_of(cur).parent is None);
                assert(s_root_path(self.slots(), path@, best_id)) by {
                    assert(path@[0] == rev@[rev@.len() - 1]);
                    assert(path@[0] == cur);
                    assert forall|w: int|
                        0 <= w < path@.len() - 1 implies self.slots()[(#[trigger] path@[w
                        + 1]).0 as int]->0.parent == Some(path@[w]) by {
                        assert(path@[w + 1] == rev@[m - 2 - w]);
                        assert(path@[w] == rev@[m - 1 - w]);
                        assert(self.node_of(rev@[m - 2 - w]).parent == Some(rev@[m - 1 - w]));
                    }
                }
            }
        }
        Some(Hit { node: best_id, path })
    }

    /// The world state a node should carry, given its parent's stored world
    /// state: the composed transform, the inherited or own clip box, and the
    /// clipped bounding box of the transformed local bounds.
    pub open spec fn spec_world_of(self, i: int) -> WorldNode {
        let n = self.slots()[i]->0;
        let (ptf, pclip) = match n.parent {
            None => (
                Affine2 { xx: 1, xy: 0, yx: 0, yy: 1, tx: 0, ty: 0 },
                None::<Aabb2D>,
            ),
            Some(p) => (
                self.node_of(p).world.world_transform,
                self.node_of(p).world.world_clip,
            ),
        };
        let tf = s_compose(ptf, n.local.local_transform);
        let wb0 = s_transform_bbox(tf, n.local.local_bounds);
        let wclip = match n.local.local_clip {
            Some(c) => Some(s_transform_bbox(tf, c.rect)),
            None => pclip,
        };
        let wb = match wclip {
            Some(c) => s_intersect(wb0, c),
            None => wb0,
        };
        WorldNode { world_transform: tf, world_bounds: wb, world_clip: wclip }
    }

    /// A node is consistent when its cached world state equals the state
    /// derived from its parent.
    pub open spec fn consistent(self, i: int) -> bool {
        self.slots()[i]->0.world == self.spec_world_of(i)
    }

    /// The committed state: every live node that reaches a root carries
    /// consistent world data and exactly one live index entry under its key,
    /// holding the node's world bounds and its identity; the index has no
    /// pending marks.
    pub open spec fn committed(self) -> bool {
        &&& forall|i: int|
            s_slot_alive(self.slots(), i) && s_rooted(self.slots(), i)
                ==> #[trigger] self.consistent(i)
        &&& forall|i: int|
            s_slot_alive(self.slots(), i) && s_rooted(self.slots(), i) ==> {
                let n = (#[trigger] self.slots()[i])->0;
                &&& n.index_key is Some
                &&& self.index_of().is_live(n.index_key->0)
                &&& self.index_of().live_aabb(n.index_key->0) == n.world.world_bounds
                &&& self.index_of().live_payload(n.index_key->0) == NodeId(
                    i as u32,
                    n.generation,
                )
            }
        &&& self.index_of().clean()
    }

    /// The working state of a commit: the arena keeps its structure, every
    /// settled node is consistent and mirrored into the index, unsettled
    /// nodes are untouched, and on an already-committed tree nothing has
    /// changed and no damage has been reported.
    #[verifier::opaque]
    pub(crate) closed spec fn commit_inv(
        self,
        pre: Tree,
        comp: Seq<bool>,
        dmg: SceneDamage,
    ) -> bool {
        self.commit_inv_body(pre, comp, dmg)
    }

    /// The conjunction behind the working-state invariant.
    pub(crate) closed spec fn commit_inv_body(
        self,
        pre: Tree,
        comp: Seq<bool>,
        dmg: SceneDamage,
    ) -> bool {
        let s = self.nodes@;
        let p = pre.nodes@;
        &&& pre.wf()
        &&& pre.index.slots().len() + pre.nodes@.len() <= u32::MAX as int
        &&& s.len() == p.len()
        &&& comp.len() == s.len()
        &&& self.generations@ == pre.generations@
        &&& self.free_list@ == pre.free_list@
        &&& forall|j: int| 0 <= j < s.len() ==> ((#[trigger] s[j]) is Some <==> p[j] is Some)
        &&& forall|j: int|
            0 <= j < s.len() && (#[trigger] s[j]) is Some ==> {
                let a = s[j]->0;
                let b = p[j]->0;
                a.generation == b.generation && a.parent == b.parent && a.children@
                    == b.children@ && a.local == b.local && a.dirty == b.dirty
            }
        &&& forall|j: int|
            0 <= j < s.len() && !(#[trigger] comp[j]) && s[j] is Some ==> s[j] == p[j]
        &&& forall|j: int|
            0 <= j < s.len() && (#[trigger] s[j]) is Some ==> self.links_ok(j)
        &&& self.index.inv()
        &&& self.index.slots().len() <= pre.index.slots().len() + s_count_true(comp)
        &&& forall|j: int|
            0 <= j < s.len() && #[trigger] comp[j] ==> {
                &&& s[j] is Some
                &&& s_rooted(s, j)
                &&& self.consistent(j)
                &&& match s[j]->0.parent {
                    None => true,
                    Some(pp) => (pp.0 as int) < s.len() && comp[pp.0 as int],
                }
                &&& s[j]->0.index_key is Some
                &&& self.index.is_live(s[j]->0.index_key->0)
                &&& self.index.live_aabb(s[j]->0.index_key->0) == s[j]->0.world.world_bounds
                &&& self.index.live_payload(s[j]->0.index_key->0) == NodeId(
                    j as u32,
                    s[j]->0.generation,
                )
                &&& self.index.slots()[(s[j]->0.index_key->0).0 as int]->0.mark != Some(
                    crate::index::Mark::Removed,
                )
            }
        &&& forall|j: int|
            0 <= j < s.len() && (#[trigger] s[j]) is Some && !comp[j] && s[j]->0.index_key
                is Some ==> {
                let k = s[j]->0.index_key->0;
                &&& self.index.is_live(k)
                &&& self.index.live_payload(k) == NodeId(j as u32, s[j]->0.generation)
                &&& self.index.slots()[k.0 as int]->0.mark != Some(crate::index::Mark::Removed)
            }
        &&& forall|j: int|
            0 <= j < s.len() && #[trigger] comp[j] && p[j]->0.world.world_bounds != s[j]
                ->0.world.world_bounds ==> {
                &&& (s_positive_area(p[j]->0.world.world_bounds) ==> dmg.dirty_rects@.contains(
                    p[j]->0.world.world_bounds,
                ))
                &&& (s_positive_area(s[j]->0.world.world_bounds) ==> dmg.dirty_rects@.contains(
                    s[j]->0.world.world_bounds,
                ))
            }
        &&& (pre.committed() ==> {
            &&& dmg.dirty_rects@.len() == 0
            &&& forall|j: int| 0 <= j < s.len() ==> s[j] == p[j]
            &&& self.index.slots().len() == pre.index.slots().len()
            &&& self.index.free() == pre.index.free()
            &&& self.index.gens() == pre.index.gens()
            &&& forall|t: int|
                0 <= t < self.index.slots().len() ==> (#[trigger] self.index.slots()[t]
                    == pre.index.slots()[t] || (pre.index.slots()[t] is Some
                    && self.index.slots()[t] == Some(
                    crate::index::Entry {
                        generation: pre.index.slots()[t]->0.generation,
                        aabb: pre.index.slots()[t]->0.aabb,
                        payload: pre.index.slots()[t]->0.payload,
                        mark: Some(crate::index::Mark::Updated),
                        prev_aabb: Some(pre.index.slots()[t]->0.aabb),
                    },
                )))
        })
    }
}


impl Tree {
    /// Recompute world state from the parents down, mirror every reachable
    /// live node into the spatial index, and report coarse damage: the old
    /// and new bounds of nodes whose bounds changed, and the union of the
    /// index's own damage. Processing proceeds in rounds: a node settles
    /// once its parent has, so roots settle first and children follow.
    /// Afterwards the tree is committed; on an already-committed tree this
    /// is a no-op that reports no damage.
    #[verifier::rlimit(100)]
    #[verifier::spinoff_prover]
    pub fn commit(&mut self) -> (dmg: SceneDamage)
        requires
            old(self).wf(),
            old(self).index_of().slots().len() + old(self).slots().len() <= u32::MAX as int,
        ensures
            final(self).wf(),
            final(self).committed(),
            final(self).gens() == old(self).gens(),
            final(self).slots().len() == old(self).slots().len(),
            forall|id2: NodeId|
                old(self).spec_is_alive(id2) == final(self).spec_is_alive(id2),
            old(self).committed() ==> dmg.dirty_rects@.len() == 0,
            // the frame: a commit recomputes cached world data only — slot
            // occupancy, generations, links and local data all survive
            forall|i: int|
                0 <= i < old(self).slots().len() ==> ((#[trigger] final(self).slots()[i]) is Some
                    <==> old(self).slots()[i] is Some),
            forall|i: int|
                0 <= i < old(self).slots().len() && old(self).slots()[i] is Some ==> {
                    let a = (#[trigger] final(self).slots()[i])->0;
                    let b = old(self).slots()[i]->0;
                    &&& a.generation == b.generation
                    &&& a.parent == b.parent
                    &&& a.children@ == b.children@
                    &&& a.local == b.local
                },
            // idempotence: on a committed tree nothing changes at all — the
            // nodes, the index entries and the backend are left as they were,
            // so every query answers as before
            old(self).committed() ==> {
                &&& final(self).slots() == old(self).slots()
                &&& final(self).index_of().slots() == old(self).index_of().slots()
                &&& final(self).index_of().gens() == old(self).index_of().gens()
                &&& final(self).index_of().free() == old(self).index_of().free()
                &&& final(self).index_of().backend_contents() == old(
                    self,
                ).index_of().backend_contents()
            },
            // damage is reported: every rooted node whose world bounds
            // changed contributes its old and its new bounds to the damage
            // list, whenever they have positive area
            forall|i: int|
                #[trigger] s_slot_alive(old(self).slots(), i) && s_rooted(old(self).slots(), i)
                    && old(self).slots()[i]->0.world.world_bounds != final(self).slots()[i]
                    ->0.world.world_bounds ==> {
                    &&& (s_positive_area(old(self).slots()[i]->0.world.world_bounds)
                        ==> dmg.dirty_rects@.contains(
                        old(self).slots()[i]->0.world.world_bounds,
                    ))
                    &&& (s_positive_area(final(self).slots()[i]->0.world.world_bounds)
                        ==> dmg.dirty_rects@.contains(
                        final(self).slots()[i]->0.world.world_bounds,
                    ))
                },
    {
        let mut dmg = SceneDamage::new();
        let n = self.nodes.len();
        let mut computed: Vec<bool> = Vec::new();
        let mut z: usize = 0;
        while z < n
            invariant
                z <= n,
                computed@.len() == z,
                forall|j: int| 0 <= j < z ==> !(#[trigger] computed@[j]),
            decreases n - z,
        {
            computed.push(false);
            z += 1;
        }
        let mut done: usize = 0;
        let ghost pre = *old(self);
        proof {
            lemma_count_true_zero(computed@);
            assert(*self == pre);
            assert forall|j: int|
                0 <= j < self.nodes@.len() && (#[trigger] self.nodes@[j]) is Some implies
                self.links_ok(j) by {
                assert(pre.links_ok(j));
            }
            assert forall|j: int|
                0 <= j < self.nodes@.len() && (#[trigger] self.nodes@[j]) is Some
                    && self.nodes@[j]->0.index_key is Some implies {
                let k = self.nodes@[j]->0.index_key->0;
                &&& self.index.is_live(k)
                &&& self.index.live_payload(k) == NodeId(
                    j as u32,
                    self.nodes@[j]->0.generation,
                )
                &&& self.index.slots()[k.0 as int]->0.mark != Some(crate::index::Mark::Removed)
            } by {
                assert(pre.nodes@[j] is Some);
            }
            assert(self.commit_inv_body(pre, computed@, dmg));
            assert(self.commit_inv(pre, computed@, dmg)) by {
                reveal(Tree::commit_inv);
            }
        }
        loop
            invariant
                self.commit_inv(pre, computed@, dmg),
                n == self.nodes@.len(),
                computed@.len() == n,
                done == s_count_true(computed@),
                done <= n,
            ensures
                self.commit_inv(pre, computed@, dmg),
                n == self.nodes@.len(),
                computed@.len() == n,
                // the fixpoint: every live node whose parent is settled is settled
                forall|j: int|
                    s_slot_alive(self.nodes@, j) && (match self.nodes@[j]->0.parent {
                        None => true,
                        Some(p) => self.spec_is_alive(p) && computed@[p.0 as int],
                    }) ==> #[trigger] computed@[j],
            decreases n + 1 - s_count_true(computed@),
        {
            let mut progress = false;
            let mut i: usize = 0;
            let ghost done0 = done;
            while i < n
                invariant
                    self.commit_inv(pre, computed@, dmg),
                    n == self.nodes@.len(),
                    computed@.len() == n,
                    i <= n,
                    done == s_count_true(computed@),
                    done <= n,
                    done0 <= done,
                    progress ==> done > done0,
                    !progress ==> done == done0,
                    !progress ==> forall|j: int|
                        0 <= j < i && s_slot_alive(self.nodes@, j) && (match self.nodes@[j]
                            ->0.parent {
                            None => true,
                            Some(p) => self.spec_is_alive(p) && computed@[p.0 as int],
                        }) ==> #[trigger] computed@[j],
                decreases n - i,
            {
                let ready = match &self.nodes[i] {
                    Some(nd) => !computed[i] && (match nd.parent {
                        Some(p) => {
                            let ps = p.0 as usize;
                            if ps < n {
                                match &self.nodes[ps] {
                                    Some(pn) => pn.generation == p.1 && computed[ps],
                                    None => false,
                                }
                            } else {
                                false
                            }
                        },
                        None => true,
                    }),
                    None => false,
                };
                if ready {
                    proof {
                        lemma_count_true_set(computed@, i as int);
                        lemma_count_true_bound(computed@.update(i as int, true));
                    }
                    self.compute_node(i, Ghost(pre), Ghost(computed@), &mut dmg);
                    computed[i] = true;
                    done += 1;
                    progress = true;
                }
                i += 1;
            }
            if !progress {
                break ;
            }
        }
        let ghost before_index = *self;
        let ghost compv = computed@;
        proof {
            assert(self.commit_inv_body(pre, compv, dmg)) by {
                reveal(Tree::commit_inv);
            }
        }
        let idx_damage = self.index.commit();
        proof {
            let bi = before_index;
            let s1 = *self;
            assert(bi.commit_inv_body(pre, compv, dmg)) by {
                reveal(Tree::commit_inv);
            }
            assert(s1.nodes@ == bi.nodes@);
            // the fixpoint transfers to the final state
            assert forall|w: int|
                s_slot_alive(s1.slots(), w) && (match s1.slots()[w]->0.parent {
                    None => true,
                    Some(p) => s1.spec_is_alive(p) && compv[p.0 as int],
                }) implies #[trigger] compv[w] by {
                assert(s_slot_alive(bi.slots(), w));
            }
            // every rooted node is settled
            assert forall|j: int|
                s_slot_alive(s1.slots(), j) && s_rooted(s1.slots(), j) implies
                #[trigger] compv[j] by {
                let f = choose|f: nat| s_depth(s1.slots(), j, f) is Some;
                lemma_rooted_computed(s1, compv, j, f);
            }
            // index entries survive the commit with their boxes
            assert forall|j: int|
                0 <= j < s1.nodes@.len() && (#[trigger] s1.nodes@[j]) is Some && s1.nodes@[j]
                    ->0.index_key is Some implies {
                let k = s1.nodes@[j]->0.index_key->0;
                &&& s1.index.is_live(k)
                &&& s1.index.live_payload(k) == NodeId(j as u32, s1.nodes@[j]->0.generation)
                &&& s1.index.live_aabb(k) == bi.index.live_aabb(k)
                &&& s1.index.slots()[k.0 as int]->0.mark != Some(crate::index::Mark::Removed)
            } by {
                let k = s1.nodes@[j]->0.index_key->0;
                assert(bi.index.is_live(k));
                assert(bi.index.slots()[k.0 as int]->0.mark != Some(
                    crate::index::Mark::Removed,
                ));
                assert(s1.index.slots()[k.0 as int] == crate::index::s_commit_slot(
                    bi.index.slots()[k.0 as int],
                ));
                assert(s1.index.slots()[k.0 as int] is Some);
            }
            assert forall|j: int|
                0 <= j < s1.nodes@.len() && (#[trigger] s1.nodes@[j]) is Some implies
                s1.links_ok(j) by {
                assert(bi.links_ok(j));
            }
            assert(s1.wf());
            assert forall|j: int|
                s_slot_alive(s1.slots(), j) && s_rooted(s1.slots(), j) implies
                #[trigger] s1.consistent(j) by {
                assert(compv[j]);
                assert(bi.consistent(j));
            }
            assert forall|j: int|
                s_slot_alive(s1.slots(), j) && s_rooted(s1.slots(), j) implies {
                let nd = (#[trigger] s1.slots()[j])->0;
                &&& nd.index_key is Some
                &&& s1.index_of().is_live(nd.index_key->0)
                &&& s1.index_of().live_aabb(nd.index_key->0) == nd.world.world_bounds
                &&& s1.index_of().live_payload(nd.index_key->0) == NodeId(
                    j as u32,
                    nd.generation,
                )
            } by {
                assert(compv[j]);
                assert(bi.index.live_aabb(s1.slots()[j]->0.index_key->0) == s1.slots()[j]
                    ->0.world.world_bounds);
            }
            assert(s1.committed());
            if pre.committed() {
                assert forall|t: int|
                    0 <= t < bi.index.slots().len() implies !((#[trigger] bi.index.slots()[t])
                    is Some && bi.index.slots()[t]->0.mark == Some(
                    crate::index::Mark::Added,
                )) by {
                    if bi.index.slots()[t] is Some {
                        assert(pre.index.slots()[t] is Some ==> pre.index.slots()[t]->0.mark
                            is None);
                    }
                }
                assert forall|t: int|
                    0 <= t < bi.index.slots().len() implies !((#[trigger] bi.index.slots()[t])
                    is Some && bi.index.slots()[t]->0.mark == Some(
                    crate::index::Mark::Removed,
                )) by {
                    if bi.index.slots()[t] is Some {
                        assert(pre.index.slots()[t] is Some ==> pre.index.slots()[t]->0.mark
                            is None);
                    }
                }
                assert forall|t: int|
                    0 <= t < bi.index.slots().len() implies !((#[trigger] bi.index.slots()[t])
                    is Some && bi.index.slots()[t]->0.mark == Some(crate::index::Mark::Updated)
                    && bi.index.slots()[t]->0.prev_aabb is Some && bi.index.slots()[t]
                    ->0.prev_aabb->0 != bi.index.slots()[t]->0.aabb) by {
                    if bi.index.slots()[t] is Some {
                        assert(pre.index.slots()[t] is Some ==> pre.index.slots()[t]->0.mark
                            is None);
                    }
                }
                crate::index::lemma_added_seq_empty(bi.index.slots());
                crate::index::lemma_removed_seq_empty(bi.index.slots());
                crate::index::lemma_moved_seq_empty(bi.index.slots());
                crate::index::lemma_freed_seq_empty(bi.index.slots());
                assert(idx_damage.added@.len() == 0);
                assert(idx_damage.removed@.len() == 0);
                assert(idx_damage.moved@.len() == 0);
                assert(crate::damage::s_flatten_pairs(idx_damage.moved@).len() == 0);
                assert(crate::damage::s_damage_boxes(idx_damage).len() == 0);
                // full idempotence: nodes, index entries, free list,
                // generations and backend are exactly as before the commit
                assert(s1.nodes@ =~= pre.nodes@);
                pre.index.lemma_clean_entries_settled();
                assert forall|t: int|
                    0 <= t < s1.index.slots().len() implies #[trigger] s1.index.slots()[t]
                    == pre.index.slots()[t] by {
                    assert(s1.index.slots()[t] == crate::index::s_commit_slot(
                        bi.index.slots()[t],
                    ));
                    if pre.index.slots()[t] is Some {
                        assert(pre.index.slots()[t]->0.mark is None);
                        assert(pre.index.slots()[t]->0.prev_aabb is None);
                    }
                }
                assert(s1.index.slots() =~= pre.index.slots());
                assert(s1.index.free() =~= pre.index.free()) by {
                    assert(s1.index.free() == bi.index.free() + crate::index::s_freed_seq(
                        bi.index.slots(),
                    ));
                    assert(crate::index::s_freed_seq(bi.index.slots()).len() == 0);
                    assert(bi.index.free() == pre.index.free());
                }
                assert(s1.index.gens() == pre.index.gens());
                IndexGeneric::lemma_clean_backend_determined(s1.index, pre.index);
            }
            // the per-node damage facts carry over to the nodes as the
            // caller sees them
            assert forall|i: int|
                #[trigger] s_slot_alive(pre.nodes@, i) && s_rooted(pre.nodes@, i)
                    && pre.nodes@[i]->0.world.world_bounds != s1.nodes@[i]
                    ->0.world.world_bounds implies {
                &&& (s_positive_area(pre.nodes@[i]->0.world.world_bounds)
                    ==> dmg.dirty_rects@.contains(pre.nodes@[i]->0.world.world_bounds))
                &&& (s_positive_area(s1.nodes@[i]->0.world.world_bounds)
                    ==> dmg.dirty_rects@.contains(s1.nodes@[i]->0.world.world_bounds))
            } by {
                assert(s_rooted(s1.nodes@, i)) by {
                    let f = choose|f: nat| s_depth(pre.nodes@, i, f) is Some;
                    lemma_depth_congruent(pre.nodes@, s1.nodes@, i, f);
                    assert(s_depth(s1.nodes@, i, f) is Some);
                }
                assert(compv[i]);
                assert(s1.nodes@[i] == bi.nodes@[i]);
            }
        }
        let ghost dmg_pre_union = dmg;
        match idx_damage.union() {
            Some(u) => {
                proof {
                    if pre.committed() {
                        assert(crate::damage::s_damage_boxes(idx_damage).len() == 0);
                        assert(false);
                    }
                }
                dmg.dirty_rects.push(u);
            },
            None => {},
        }
        proof {
            assert forall|x: Aabb2D| dmg_pre_union.dirty_rects@.contains(x) implies
                dmg.dirty_rects@.contains(x) by {
                let q = choose|q: int|
                    0 <= q < dmg_pre_union.dirty_rects@.len() && dmg_pre_union.dirty_rects@[q]
                        == x;
                assert(dmg.dirty_rects@[q] == x);
            }
        }
        dmg
    }
}


impl Tree {
    /// Settle one node whose parent is settled: derive its world state from
    /// the parent's stored world state, cache it, report damage if its
    /// bounds changed, and mirror the node into the spatial index, creating
    /// its entry the first time.
    #[verifier::rlimit(100)]
    #[verifier::spinoff_prover]
    fn compute_node(
        &mut self,
        i: usize,
        Ghost(pre): Ghost<Tree>,
        Ghost(comp): Ghost<Seq<bool>>,
        dmg: &mut SceneDamage,
    )
        requires
            old(self).commit_inv(pre, comp, *old(dmg)),
            (i as int) < old(self).nodes@.len(),
            old(self).nodes@[i as int] is Some,
            !comp[i as int],
            match old(self).nodes@[i as int]->0.parent {
                None => true,
                Some(p) => old(self).spec_is_alive(p) && comp[p.0 as int],
            },
            s_count_true(comp) < old(self).nodes@.len(),
        ensures
            final(self).commit_inv(pre, comp.update(i as int, true), *final(dmg)),
            final(self).nodes@.len() == old(self).nodes@.len(),
    {
        let ghost s0 = *old(self);
        proof {
            // unpack the working-state facts this body relies on
            assert(s0.commit_inv_body(pre, comp, *old(dmg))) by {
                reveal(Tree::commit_inv);
            }
        }
        let (parent_ref, local, old_world, key_opt, node_gen) = match &self.nodes[i] {
            Some(nd) => (nd.parent, nd.local, nd.world, nd.index_key, nd.generation),
            None => (
                None,
                LocalNode::default(),
                WorldNode {
                    world_transform: Affine2 { xx: 1, xy: 0, yx: 0, yy: 1, tx: 0, ty: 0 },
                    world_bounds: Aabb2D { min_x: 0, min_y: 0, max_x: 0, max_y: 0 },
                    world_clip: None,
                },
                None,
                0,
            ),
        };
        let (ptf, pclip) = match parent_ref {
            None => (Affine2::identity(), None),
            Some(p) => {
                let ps = p.0 as usize;
                if ps < self.nodes.len() {
                    match &self.nodes[ps] {
                        Some(pn) => (pn.world.world_transform, pn.world.world_clip),
                        None => (Affine2::identity(), None),
                    }
                } else {
                    (Affine2::identity(), None)
                }
            },
        };
        let tf = ptf.compose(&local.local_transform);
        let wb0 = tf.transform_rect_bbox(&local.local_bounds);
        let wclip = match local.local_clip {
            Some(c) => Some(tf.transform_rect_bbox(&c.rect)),
            None => pclip,
        };
        let wb = match wclip {
            Some(c) => wb0.intersect(&c),
            None => wb0,
        };
        let new_world = WorldNode { world_transform: tf, world_bounds: wb, world_clip: wclip };
        match &mut self.nodes[i] {
            Some(nd) => {
                nd.world = new_world;
            },
            None => {},
        }
        proof {
            assert(self.spec_world_of(i as int) == new_world);
            assert(self.consistent(i as int));
            // the settled node is rooted
            assert(s_rooted(self.nodes@, i as int)) by {
                assert forall|j: int, f: nat|
                    s_depth(self.nodes@, j, f) == s_depth(s0.nodes@, j, f) by {
                    lemma_depth_congruent(s0.nodes@, self.nodes@, j, f);
                }
                match s0.nodes@[i as int]->0.parent {
                    None => {
                        assert(s_depth(s0.nodes@, i as int, 0) is Some);
                    },
                    Some(pp) => {
                        assert(s_rooted(s0.nodes@, pp.0 as int));
                        let f = choose|f: nat| s_depth(s0.nodes@, pp.0 as int, f) is Some;
                        assert(s_depth(s0.nodes@, i as int, f + 1) is Some);
                    },
                }
            }
        }
        // damage: the old and the new bounds, when they differ and are not
        // degenerate; on a committed tree the recomputation is a no-op
        if !(old_world.world_bounds == wb) {
            proof {
                assert(!pre.committed()) by {
                    if pre.committed() {
                        assert(s0.nodes@ == pre.nodes@);
                        assert(s_rooted(pre.slots(), i as int)) by {
                            match s0.nodes@[i as int]->0.parent {
                                None => {
                                    assert(s_depth(pre.slots(), i as int, 0) is Some);
                                },
                                Some(pp) => {
                                    assert(comp[pp.0 as int]);
                                    assert(s_rooted(s0.nodes@, pp.0 as int));
                                    let f = choose|f: nat|
                                        s_depth(pre.slots(), pp.0 as int, f) is Some;
                                    assert(s_depth(pre.slots(), i as int, f + 1) is Some);
                                },
                            }
                        }
                        assert(s_slot_alive(pre.slots(), i as int));
                        assert(pre.consistent(i as int));
                        assert(pre.nodes@[i as int]->0.world == pre.spec_world_of(i as int));
                        assert(self.spec_world_of(i as int) == pre.spec_world_of(i as int)) by {
                            match s0.nodes@[i as int]->0.parent {
                                None => {},
                                Some(p) => {
                                    assert(self.nodes@[p.0 as int] == pre.nodes@[p.0 as int]);
                                },
                            }
                        }
                        assert(wb == old_world.world_bounds);
                        assert(false);
                    }
                }
            }
            if old_world.world_bounds.max_x > old_world.world_bounds.min_x
                && old_world.world_bounds.max_y > old_world.world_bounds.min_y {
                dmg.dirty_rects.push(old_world.world_bounds);
            }
            let ghost dmg_mid = dmg.dirty_rects@;
            if wb.max_x > wb.min_x && wb.max_y > wb.min_y {
                dmg.dirty_rects.push(wb);
            }
            proof {
                if s_positive_area(old_world.world_bounds) {
                    assert(dmg_mid[dmg_mid.len() - 1] == old_world.world_bounds);
                    assert(dmg.dirty_rects@[dmg_mid.len() - 1] == old_world.world_bounds);
                    assert(dmg.dirty_rects@.contains(old_world.world_bounds));
                }
                if s_positive_area(wb) {
                    assert(dmg.dirty_rects@[dmg.dirty_rects@.len() - 1] == wb);
                    assert(dmg.dirty_rects@.contains(wb));
                }
            }
        }
        // mirror into the index
        let ghost s1 = *self;
        match key_opt {
            Some(k) => {
                proof {
                    assert(s1.nodes@[i as int]->0.index_key == Some(k));
                    assert(s1.index.is_live(k));
                }
                self.index.update(k, wb);
            },
            None => {
                proof {
                    lemma_count_true_bound(comp);
                    assert(self.index.slots().len() < u32::MAX as int);
                    assert(!pre.committed()) by {
                        if pre.committed() {
                            assert(s0.nodes@ == pre.nodes@);
                            assert(s_rooted(pre.slots(), i as int)) by {
                                match s0.nodes@[i as int]->0.parent {
                                    None => {
                                        assert(s_depth(pre.slots(), i as int, 0) is Some);
                                    },
                                    Some(pp) => {
                                        assert(comp[pp.0 as int]);
                                        assert(s_rooted(s0.nodes@, pp.0 as int));
                                        let f = choose|f: nat|
                                            s_depth(pre.slots(), pp.0 as int, f) is Some;
                                        assert(s_depth(pre.slots(), i as int, f + 1) is Some);
                                    },
                                }
                            }
                            assert(s_slot_alive(pre.slots(), i as int));
                            assert(false);
                        }
                    }
                }
                let k = self.index.insert(wb, NodeId(i as u32, node_gen));
                match &mut self.nodes[i] {
                    Some(nd) => {
                        nd.index_key = Some(k);
                    },
                    None => {},
                }
                proof {
                    let s2 = *self;
                    assert(s2.nodes@[i as int]->0.index_key == Some(k));
                    assert(s2.spec_world_of(i as int) == new_world) by {
                        match s2.nodes@[i as int]->0.parent {
                            None => {},
                            Some(p) => {
                                assert(s2.nodes@[p.0 as int] == s1.nodes@[p.0 as int]);
                            },
                        }
                    }
                }
            },
        }
        proof {
            let comp2 = comp.update(i as int, true);
            let s2 = *self;
            lemma_count_true_set(comp, i as int);
            assert forall|j: int, f: nat|
                s_depth(s2.nodes@, j, f) == s_depth(s0.nodes@, j, f) by {
                lemma_depth_congruent(s0.nodes@, s2.nodes@, j, f);
            }
            // frame: slots other than the settled node's keep their entries
            assert forall|j: int|
                0 <= j < s2.nodes@.len() && (#[trigger] s2.nodes@[j]) is Some && j != i as int
                    && s2.nodes@[j]->0.index_key is Some implies s2.index.slots()[(s2.nodes@[j]
                ->0.index_key->0).0 as int] == s1.index.slots()[(s2.nodes@[j]->0.index_key
                ->0).0 as int] && s2.nodes@[j] == s1.nodes@[j] by {
                let kj = s2.nodes@[j]->0.index_key->0;
                assert(s1.nodes@[j] is Some);
                assert(s2.nodes@[j]->0.index_key == s1.nodes@[j]->0.index_key);
                assert(s1.index.is_live(kj));
                assert(s1.index.slots()[kj.0 as int] is Some);
                match s1.nodes@[i as int]->0.index_key {
                    Some(ki) => {
                        // two live keys of distinct nodes sit in distinct slots
                        if kj.0 == ki.0 {
                            assert(s1.index.live_payload(kj) == NodeId(
                                j as u32,
                                s1.nodes@[j]->0.generation,
                            ));
                            assert(s1.index.live_payload(ki) == NodeId(
                                i as u32,
                                s1.nodes@[i as int]->0.generation,
                            ));
                            assert(false);
                        }
                        assert(s2.index.slots()[kj.0 as int] == s1.index.slots()[kj.0 as int]);
                    },
                    None => {
                        if s1.index.free().len() > 0 {
                            assert(s1.index.slots()[s1.index.free().last() as int] is None);
                            assert(kj.0 as int != s1.index.free().last() as int);
                        }
                        assert(s2.index.slots()[kj.0 as int] == s1.index.slots()[kj.0 as int]);
                    },
                }
            }
            // settled nodes keep their consistency: their parents are settled
            // and untouched
            lemma_consistency_preserved(s0, s2, comp, i as int);
            assert(s_rooted(s2.nodes@, i as int)) by {
                assert(s_rooted(s0.nodes@, i as int)) by {
                    match s0.nodes@[i as int]->0.parent {
                        None => {
                            assert(s_depth(s0.nodes@, i as int, 0) is Some);
                        },
                        Some(pp) => {
                            assert(comp[pp.0 as int]);
                            assert(s_rooted(s0.nodes@, pp.0 as int));
                            let f = choose|f: nat| s_depth(s0.nodes@, pp.0 as int, f) is Some;
                            assert(s_depth(s0.nodes@, i as int, f + 1) is Some);
                        },
                    }
                }
                let f = choose|f: nat| s_depth(s0.nodes@, i as int, f) is Some;
                assert(s_depth(s2.nodes@, i as int, f) is Some);
            }
            assert forall|j: int| 0 <= j < s2.nodes@.len() && #[trigger] comp2[j] implies
                s2.consistent(j) && s_rooted(s2.nodes@, j) && s2.nodes@[j] is Some by {
                if j != i as int {
                    assert(comp[j]);
                }
            }
            // settled nodes keep their mirror facts
            assert forall|j: int|
                0 <= j < s2.nodes@.len() && #[trigger] comp2[j] implies {
                &&& s2.nodes@[j]->0.index_key is Some
                &&& s2.index.is_live(s2.nodes@[j]->0.index_key->0)
                &&& s2.index.live_aabb(s2.nodes@[j]->0.index_key->0) == s2.nodes@[j]
                    ->0.world.world_bounds
                &&& s2.index.live_payload(s2.nodes@[j]->0.index_key->0) == NodeId(
                    j as u32,
                    s2.nodes@[j]->0.generation,
                )
                &&& s2.index.slots()[(s2.nodes@[j]->0.index_key->0).0 as int]->0.mark != Some(
                    crate::index::Mark::Removed,
                )
                &&& match s2.nodes@[j]->0.parent {
                    None => true,
                    Some(pp) => (pp.0 as int) < s2.nodes@.len() && comp2[pp.0 as int],
                }
            } by {
                if j != i as int {
                    assert(comp[j]);
                    let kj = s2.nodes@[j]->0.index_key->0;
                    assert(s2.index.slots()[kj.0 as int] == s1.index.slots()[kj.0 as int]);
                    assert(s1.index.slots()[kj.0 as int] == s0.index.slots()[(s0.nodes@[j]
                        ->0.index_key->0).0 as int] || key_opt is Some);
                }
            }
            // unsettled nodes keep their index facts
            assert forall|j: int|
                0 <= j < s2.nodes@.len() && (#[trigger] s2.nodes@[j]) is Some && !comp2[j]
                    && s2.nodes@[j]->0.index_key is Some implies {
                let kj = s2.nodes@[j]->0.index_key->0;
                &&& s2.index.is_live(kj)
                &&& s2.index.live_payload(kj) == NodeId(j as u32, s2.nodes@[j]->0.generation)
                &&& s2.index.slots()[kj.0 as int]->0.mark != Some(crate::index::Mark::Removed)
            } by {
                assert(s0.nodes@[j] is Some && !comp[j]);
                assert(j != i as int);
                let kj = s2.nodes@[j]->0.index_key->0;
                assert(s2.index.slots()[kj.0 as int] == s1.index.slots()[kj.0 as int]);
            }
            // links are untouched
            lemma_links_preserved(s0, s2);
            // damage only grows, and the settled node's changed bounds are in
            assert forall|x: Aabb2D| old(dmg).dirty_rects@.contains(x) implies
                dmg.dirty_rects@.contains(x) by {
                let q = choose|q: int|
                    0 <= q < old(dmg).dirty_rects@.len() && old(dmg).dirty_rects@[q] == x;
                assert(dmg.dirty_rects@[q] == x);
            }
            assert forall|j: int|
                0 <= j < s2.nodes@.len() && #[trigger] comp2[j] && pre.nodes@[j]
                    ->0.world.world_bounds != s2.nodes@[j]->0.world.world_bounds implies {
                &&& (s_positive_area(pre.nodes@[j]->0.world.world_bounds)
                    ==> dmg.dirty_rects@.contains(pre.nodes@[j]->0.world.world_bounds))
                &&& (s_positive_area(s2.nodes@[j]->0.world.world_bounds)
                    ==> dmg.dirty_rects@.contains(s2.nodes@[j]->0.world.world_bounds))
            } by {
                if j == i as int {
                    assert(pre.nodes@[j]->0.world.world_bounds == old_world.world_bounds);
                    assert(s2.nodes@[j]->0.world.world_bounds == wb);
                    if !(old_world.world_bounds == wb) {
                        if s_positive_area(old_world.world_bounds) {
                            assert(dmg.dirty_rects@.contains(old_world.world_bounds));
                        }
                        if s_positive_area(wb) {
                            assert(dmg.dirty_rects@.contains(wb));
                        }
                    }
                } else {
                    assert(comp[j]);
                    assert(s2.nodes@[j]->0.world.world_bounds == s0.nodes@[j]
                        ->0.world.world_bounds);
                }
            }
            // the settled node's own mirror facts
            assert(s2.nodes@[i as int]->0.index_key is Some);
            assert(s2.index.is_live(s2.nodes@[i as int]->0.index_key->0));
            assert(s2.index.live_aabb(s2.nodes@[i as int]->0.index_key->0) == wb);
            assert(s2.index.live_payload(s2.nodes@[i as int]->0.index_key->0) == NodeId(
                i as u32,
                s2.nodes@[i as int]->0.generation,
            ));
            // the no-change case on a committed tree
            if pre.committed() {
                assert(key_opt is Some);
                assert(s2.index.free() == pre.index.free());
                assert(s2.index.gens() == pre.index.gens());
                assert(wb == old_world.world_bounds);
                // the recomputed world equals the stored one: the node is
                // rooted in the committed pre-state, hence consistent there,
                // and its parent's stored world is untouched
                assert(s0.nodes@ =~= pre.nodes@);
                assert(s_rooted(pre.slots(), i as int)) by {
                    match s0.nodes@[i as int]->0.parent {
                        None => {
                            assert(s_depth(pre.slots(), i as int, 0) is Some);
                        },
                        Some(pp) => {
                            assert(comp[pp.0 as int]);
                            assert(s_rooted(s0.nodes@, pp.0 as int));
                            let f = choose|f: nat|
                                s_depth(pre.slots(), pp.0 as int, f) is Some;
                            assert(s_depth(pre.slots(), i as int, f + 1) is Some);
                        },
                    }
                }
                assert(s_slot_alive(pre.slots(), i as int));
                assert(pre.consistent(i as int));
                assert(new_world == s1.spec_world_of(i as int));
                assert(s1.spec_world_of(i as int) == pre.spec_world_of(i as int)) by {
                    match s0.nodes@[i as int]->0.parent {
                        None => {},
                        Some(p) => {
                            assert(comp[p.0 as int] && !comp[i as int]);
                            assert(s1.nodes@[p.0 as int] == s0.nodes@[p.0 as int]);
                            assert(s0.nodes@[p.0 as int] == pre.nodes@[p.0 as int]);
                        },
                    }
                }
                assert(new_world == s0.nodes@[i as int]->0.world);
                assert(s1.nodes@[i as int] == s0.nodes@[i as int]);
                assert forall|j: int| 0 <= j < s2.nodes@.len() implies s2.nodes@[j]
                    == pre.nodes@[j] by {
                }
                let ki = s1.nodes@[i as int]->0.index_key->0;
                assert forall|t: int|
                    0 <= t < s2.index.slots().len() implies (#[trigger] s2.index.slots()[t]
                    == pre.index.slots()[t] || (pre.index.slots()[t] is Some
                    && s2.index.slots()[t] == Some(
                    crate::index::Entry {
                        generation: pre.index.slots()[t]->0.generation,
                        aabb: pre.index.slots()[t]->0.aabb,
                        payload: pre.index.slots()[t]->0.payload,
                        mark: Some(crate::index::Mark::Updated),
                        prev_aabb: Some(pre.index.slots()[t]->0.aabb),
                    },
                ))) by {
                    if t == ki.0 as int {
                        // pre's entry for this node holds its committed bounds
                        assert(pre.nodes@[i as int]->0.index_key == Some(ki));
                        assert(pre.index.is_live(ki));
                        assert(pre.index.live_aabb(ki) == pre.nodes@[i as int]
                            ->0.world.world_bounds);
                        assert(pre.index.slots()[t] is Some);
                        assert(pre.index.slots()[t]->0.mark is None);
                        assert(pre.index.slots()[t]->0.aabb == wb);
                        // the slot before the update is pre's entry or its
                        // benignly re-marked form; either way the update
                        // yields the benign form again
                        let e0 = s1.index.slots()[t]->0;
                        assert(s1.index.slots()[t] == pre.index.slots()[t] || (
                            e0.generation == pre.index.slots()[t]->0.generation
                            && e0.aabb == pre.index.slots()[t]->0.aabb
                            && e0.payload == pre.index.slots()[t]->0.payload
                            && e0.mark == Some(crate::index::Mark::Updated)
                            && e0.prev_aabb == Some(pre.index.slots()[t]->0.aabb)
                        ));
                        assert(s2.index.slots()[t] == Some(
                            crate::index::Entry {
                                generation: pre.index.slots()[t]->0.generation,
                                aabb: pre.index.slots()[t]->0.aabb,
                                payload: pre.index.slots()[t]->0.payload,
                                mark: Some(crate::index::Mark::Updated),
                                prev_aabb: Some(pre.index.slots()[t]->0.aabb),
                            },
                        ));
                    } else {
                        assert(s2.index.slots()[t] == s1.index.slots()[t]);
                    }
                }
            }
            assert(s2.commit_inv_body(pre, comp2, *dmg)) by {
                lemma_count_true_bound(comp);
            }
            assert(s2.commit_inv(pre, comp2, *dmg)) by {
                reveal(Tree::commit_inv);
            }
        }
    }
}


} // verus!
