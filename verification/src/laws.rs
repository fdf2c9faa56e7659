//! Laws relating the index's queries across backends: every backend agrees
//! with the exhaustive flat scan on a committed index, point queries are
//! subsumed by rectangle queries, and every live entry is discoverable.

use vstd::prelude::*;

use crate::backend::Backend;
use crate::geom::{s_contains_point, s_covers, s_empty, s_overlaps, Aabb2D};
use crate::index::{IndexGeneric, Key};

verus! {

/// On committed (clean) indexes holding the same entries, any two backends
/// answer a point query with the same set of `(key, payload)` pairs: the
/// committed state of every backend equals the flat oracle.
pub proof fn lemma_backends_agree_point<P: Copy, B1: Backend, B2: Backend>(
    a: IndexGeneric<P, B1>,
    b: IndexGeneric<P, B2>,
    x: i64,
    y: i64,
    r1: Seq<(Key, P)>,
    r2: Seq<(Key, P)>,
)
    requires
        a.slots() == b.slots(),
        a.clean(),
        a.point_query_post(x as int, y as int, r1),
        b.point_query_post(x as int, y as int, r2),
    ensures
        forall|e: (Key, P)| r1.contains(e) <==> r2.contains(e),
{
    assert forall|e: (Key, P)| r1.contains(e) implies r2.contains(e) by {
        let j = choose|j: int| 0 <= j < r1.len() && r1[j] == e;
        assert(b.is_live(e.0) && s_contains_point(b.live_aabb(e.0), x as int, y as int));
        assert(r2.contains((e.0, b.live_payload(e.0))));
    }
    assert forall|e: (Key, P)| r2.contains(e) implies r1.contains(e) by {
        let j = choose|j: int| 0 <= j < r2.len() && r2[j] == e;
        assert(a.is_live(e.0) && s_contains_point(a.live_aabb(e.0), x as int, y as int));
        assert(r1.contains((e.0, a.live_payload(e.0))));
    }
}

/// The same agreement for rectangle queries.
pub proof fn lemma_backends_agree_rect<P: Copy, B1: Backend, B2: Backend>(
    a: IndexGeneric<P, B1>,
    b: IndexGeneric<P, B2>,
    q: Aabb2D,
    r1: Seq<(Key, P)>,
    r2: Seq<(Key, P)>,
)
    requires
        a.slots() == b.slots(),
        a.clean(),
        a.rect_query_post(q, r1),
        b.rect_query_post(q, r2),
    ensures
        forall|e: (Key, P)| r1.contains(e) <==> r2.contains(e),
{
    assert forall|e: (Key, P)| r1.contains(e) implies r2.contains(e) by {
        let j = choose|j: int| 0 <= j < r1.len() && r1[j] == e;
        assert(b.is_live(e.0) && s_overlaps(b.live_aabb(e.0), q));
        assert(r2.contains((e.0, b.live_payload(e.0))));
    }
    assert forall|e: (Key, P)| r2.contains(e) implies r1.contains(e) by {
        let j = choose|j: int| 0 <= j < r2.len() && r2[j] == e;
        assert(a.is_live(e.0) && s_overlaps(a.live_aabb(e.0), q));
        assert(r1.contains((e.0, a.live_payload(e.0))));
    }
}

/// On a clean index, every pair a point query returns is also returned by a
/// rectangle query for the degenerate box of that point, and both lists hold
/// only live entries.
pub proof fn lemma_point_subsumed_by_rect<P: Copy, B: Backend>(
    s: IndexGeneric<P, B>,
    x: i64,
    y: i64,
    r_point: Seq<(Key, P)>,
    r_rect: Seq<(Key, P)>,
)
    requires
        s.clean(),
        s.point_query_post(x as int, y as int, r_point),
        s.rect_query_post(Aabb2D { min_x: x, min_y: y, max_x: x, max_y: y }, r_rect),
    ensures
        forall|e: (Key, P)| r_point.contains(e) ==> r_rect.contains(e),
        forall|j: int| 0 <= j < r_point.len() ==> s.is_live((#[trigger] r_point[j]).0),
        forall|j: int| 0 <= j < r_rect.len() ==> s.is_live((#[trigger] r_rect[j]).0),
{
    let q = Aabb2D { min_x: x, min_y: y, max_x: x, max_y: y };
    assert forall|e: (Key, P)| r_point.contains(e) implies r_rect.contains(e) by {
        let j = choose|j: int| 0 <= j < r_point.len() && r_point[j] == e;
        assert(s_contains_point(s.live_aabb(e.0), x as int, y as int));
        assert(s_overlaps(s.live_aabb(e.0), q));
        assert(r_rect.contains((e.0, s.live_payload(e.0))));
    }
}

/// On a clean index, every live key with a non-empty box is discoverable by a
/// rectangle query whose box covers the entry's box.
pub proof fn lemma_live_discoverable<P: Copy, B: Backend>(
    s: IndexGeneric<P, B>,
    q: Aabb2D,
    k: Key,
    r: Seq<(Key, P)>,
)
    requires
        s.clean(),
        s.is_live(k),
        !s_empty(s.live_aabb(k)),
        s_covers(q, s.live_aabb(k)),
        s.rect_query_post(q, r),
    ensures
        r.contains((k, s.live_payload(k))),
{
    assert(s_overlaps(s.live_aabb(k), q));
}

} // verus!
