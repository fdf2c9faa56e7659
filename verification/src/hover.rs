//! Hover state machine: given successive root-to-target paths, emit the
//! leave events (inner to outer) and enter events (outer to inner) that move
//! the hover state from the old path to the new one, splitting at the
//! longest common prefix (the lowest common ancestor).

use vstd::prelude::*;

use crate::responder::{Dispatch, NodeKey, Phase};

verus! {

/// A hover transition event.
#[derive(Copy, Clone, Debug, PartialEq, Eq, Structural)]
pub enum HoverEvent<K> {
    /// Pointer enters the given node (outer to inner order).
    Enter(K),
    /// Pointer leaves the given node (inner to outer order).
    Leave(K),
}

/// Length of the longest common prefix of two paths.
pub open spec fn s_lcp<K>(a: Seq<K>, b: Seq<K>) -> int
    decreases a.len(),
{
    if a.len() == 0 || b.len() == 0 || a[0] != b[0] {
        0
    } else {
        1 + s_lcp(a.drop_first(), b.drop_first())
    }
}

/// The events that move the hover state from path `a` to path `b`: leaves of
/// `a`'s tail beyond the common prefix, inner to outer, then enters of `b`'s
/// tail, outer to inner.
pub open spec fn s_hover_events<K>(a: Seq<K>, b: Seq<K>) -> Seq<HoverEvent<K>> {
    let l = s_lcp(a, b);
    Seq::new((a.len() - l) as nat, |i: int| HoverEvent::Leave(a[a.len() - 1 - i]))
        + Seq::new((b.len() - l) as nat, |i: int| HoverEvent::Enter(b[l + i]))
}

/// The longest common prefix is bounded by both lengths and is a common
/// prefix; anything beyond it differs.
pub proof fn lemma_lcp_bounds<K>(a: Seq<K>, b: Seq<K>)
    ensures
        0 <= s_lcp(a, b) <= a.len(),
        s_lcp(a, b) <= b.len(),
        forall|q: int| 0 <= q < s_lcp(a, b) ==> a[q] == b[q],
        s_lcp(a, b) < a.len() && s_lcp(a, b) < b.len() ==> a[s_lcp(a, b)] != b[s_lcp(a, b)],
    decreases a.len(),
{
    if a.len() == 0 || b.len() == 0 || a[0] != b[0] {
    } else {
        lemma_lcp_bounds(a.drop_first(), b.drop_first());
        let l = s_lcp(a, b);
        assert forall|q: int| 0 <= q < l implies a[q] == b[q] by {
            if q > 0 {
                assert(a.drop_first()[q - 1] == b.drop_first()[q - 1]);
            }
        }
        if l < a.len() && l < b.len() {
            assert(a.drop_first()[l - 1] != b.drop_first()[l - 1]);
        }
    }
}

/// A common prefix of length `l` that either exhausts a path or stops at a
/// mismatch is exactly the longest common prefix.
pub proof fn lemma_lcp_characterize<K>(a: Seq<K>, b: Seq<K>, l: int)
    requires
        0 <= l <= a.len(),
        l <= b.len(),
        forall|q: int| 0 <= q < l ==> a[q] == b[q],
        l == a.len() || l == b.len() || a[l] != b[l],
    ensures
        s_lcp(a, b) == l,
    decreases l,
{
    if l == 0 {
        if a.len() > 0 && b.len() > 0 {
            assert(a[0] != b[0]);
        }
    } else {
        assert(a[0] == b[0]);
        assert forall|q: int| 0 <= q < l - 1 implies a.drop_first()[q] == b.drop_first()[q] by {
            assert(a[q + 1] == b[q + 1]);
        }
        if l - 1 < a.drop_first().len() && l - 1 < b.drop_first().len() {
            assert(a.drop_first()[l - 1] == a[l]);
            assert(b.drop_first()[l - 1] == b[l]);
        }
        lemma_lcp_characterize(a.drop_first(), b.drop_first(), l - 1);
    }
}

/// Applying a sequence of hover events to a path: a leave removes the
/// innermost node, an enter appends one.
pub open spec fn s_apply_events<K>(p: Seq<K>, ev: Seq<HoverEvent<K>>) -> Seq<K>
    decreases ev.len(),
{
    if ev.len() == 0 {
        p
    } else {
        match ev[0] {
            HoverEvent::Leave(_) => s_apply_events(p.drop_last(), ev.drop_first()),
            HoverEvent::Enter(k) => s_apply_events(p.push(k), ev.drop_first()),
        }
    }
}

proof fn lemma_apply_enters<K>(p: Seq<K>, b: Seq<K>, l: int)
    requires
        0 <= l <= b.len(),
    ensures
        s_apply_events(p, Seq::new((b.len() - l) as nat, |i: int| HoverEvent::Enter(b[l + i])))
            == p + b.subrange(l, b.len() as int),
    decreases b.len() - l,
{
    let ev = Seq::new((b.len() - l) as nat, |i: int| HoverEvent::Enter(b[l + i]));
    if l == b.len() {
        assert(p + b.subrange(l, b.len() as int) =~= p);
    } else {
        lemma_apply_enters(p.push(b[l]), b, l + 1);
        assert(ev.drop_first() =~= Seq::new(
            (b.len() - (l + 1)) as nat,
            |i: int| HoverEvent::Enter(b[l + 1 + i]),
        ));
        assert(p.push(b[l]) + b.subrange(l + 1, b.len() as int) =~= p + b.subrange(
            l,
            b.len() as int,
        ));
    }
}

proof fn lemma_apply_leaves_then_enters<K>(a: Seq<K>, b: Seq<K>, l: int)
    requires
        0 <= l <= a.len(),
        0 <= l <= b.len(),
    ensures
        s_apply_events(
            a,
            Seq::new((a.len() - l) as nat, |i: int| HoverEvent::Leave(a[a.len() - 1 - i]))
                + Seq::new((b.len() - l) as nat, |i: int| HoverEvent::Enter(b[l + i])),
        ) == a.take(l) + b.subrange(l, b.len() as int),
    decreases a.len() - l,
{
    let leaves = Seq::new((a.len() - l) as nat, |i: int| HoverEvent::Leave(a[a.len() - 1 - i]));
    let enters = Seq::new((b.len() - l) as nat, |i: int| HoverEvent::Enter(b[l + i]));
    if a.len() == l {
        assert(leaves + enters =~= enters);
        lemma_apply_enters(a, b, l);
        assert(a.take(l) =~= a);
    } else {
        let a2 = a.drop_last();
        let leaves2 = Seq::new(
            (a2.len() - l) as nat,
            |i: int| HoverEvent::Leave(a2[a2.len() - 1 - i]),
        );
        assert((leaves + enters)[0] == HoverEvent::Leave(a[a.len() - 1]));
        assert((leaves + enters).drop_first() =~= leaves2 + enters);
        lemma_apply_leaves_then_enters(a2, b, l);
        assert(a2.take(l) =~= a.take(l));
    }
}

/// The hover transition law: applying the emitted leave and enter events to
/// the old path re-derives the new path.
pub proof fn lemma_hover_rederives<K>(a: Seq<K>, b: Seq<K>)
    ensures
        s_apply_events(a, s_hover_events(a, b)) == b,
{
    lemma_lcp_bounds(a, b);
    let l = s_lcp(a, b);
    lemma_apply_leaves_then_enters(a, b, l);
    assert(a.take(l) + b.subrange(l, b.len() as int) =~= b);
}

/// A simple hover state machine over root-to-target paths.
#[derive(Clone, Debug)]
pub struct HoverState<K> {
    current: Vec<K>,
}

impl<K: NodeKey> HoverState<K> {
    /// The retained root-to-target path.
    pub closed spec fn path(self) -> Seq<K> {
        self.current@
    }

    /// Create an empty hover state.
    pub fn new() -> (r: Self)
        ensures
            r.path() == Seq::<K>::empty(),
    {
        HoverState { current: Vec::new() }
    }

    /// Return the current root-to-target path.
    pub fn current_path(&self) -> (r: &[K])
        ensures
            r@ == self.path(),
    {
        self.current.as_slice()
    }

    /// Clear the current hover path, returning the corresponding leave
    /// events from inner-most to outer-most.
    pub fn clear(&mut self) -> (r: Vec<HoverEvent<K>>)
        ensures
            final(self).path() == Seq::<K>::empty(),
            r@ == Seq::new(
                old(self).path().len(),
                |i: int| HoverEvent::Leave(old(self).path()[old(self).path().len() - 1 - i]),
            ),
    {
        let ghost p = self.current@;
        let mut out: Vec<HoverEvent<K>> = Vec::new();
        let n = self.current.len();
        let mut i: usize = 0;
        while i < n
            invariant
                n == p.len(),
                self.current@ == p,
                i <= n,
                out@ =~= Seq::new(i as nat, |q: int| HoverEvent::Leave(p[p.len() - 1 - q])),
            decreases n - i,
        {
            out.push(HoverEvent::Leave(self.current[n - 1 - i]));
            i += 1;
        }
        self.current.clear();
        proof {
            assert(out@ =~= Seq::new(
                p.len(),
                |q: int| HoverEvent::Leave(p[p.len() - 1 - q]),
            ));
        }
        out
    }

    /// Update the hover path and return the enter and leave events required
    /// to transition from the previous path to `new_path`: leaves inner to
    /// outer back to the common prefix, then enters outer to inner.
    pub fn update_path(&mut self, new_path: &[K]) -> (r: Vec<HoverEvent<K>>)
        ensures
            final(self).path() == new_path@,
            r@ == s_hover_events(old(self).path(), new_path@),
    {
        let ghost a = self.current@;
        let ghost b = new_path@;
        proof {
            lemma_lcp_bounds(a, b);
        }
        let cur_len = self.current.len();
        let new_len = new_path.len();
        let mut lca: usize = 0;
        while lca < cur_len && lca < new_len && self.current[lca].key_eq(&new_path[lca])
            invariant
                self.current@ == a,
                new_path@ == b,
                cur_len == a.len(),
                new_len == b.len(),
                lca <= cur_len,
                lca <= new_len,
                forall|q: int| 0 <= q < lca ==> a[q] == b[q],
            decreases cur_len - lca,
        {
            lca += 1;
        }
        proof {
            lemma_lcp_characterize(a, b, lca as int);
        }
        let mut out: Vec<HoverEvent<K>> = Vec::new();
        let mut i: usize = 0;
        while i < cur_len - lca
            invariant
                self.current@ == a,
                cur_len == a.len(),
                lca <= cur_len,
                i <= cur_len - lca,
                out@ =~= Seq::new(i as nat, |q: int| HoverEvent::Leave(a[a.len() - 1 - q])),
            decreases cur_len - lca - i,
        {
            out.push(HoverEvent::Leave(self.current[cur_len - 1 - i]));
            i += 1;
        }
        let mut j: usize = 0;
        while j < new_len - lca
            invariant
                new_path@ == b,
                new_len == b.len(),
                lca <= new_len,
                j <= new_len - lca,
                out@ =~= Seq::new((cur_len - lca) as nat, |q: int| HoverEvent::Leave(a[a.len() - 1 - q]))
                    + Seq::new(j as nat, |q: int| HoverEvent::Enter(b[lca + q])),
            decreases new_len - lca - j,
        {
            out.push(HoverEvent::Enter(new_path[lca + j]));
            j += 1;
        }
        self.current.clear();
        let mut c: usize = 0;
        while c < new_len
            invariant
                new_path@ == b,
                new_len == b.len(),
                c <= new_len,
                self.current@ =~= b.take(c as int),
            decreases new_len - c,
        {
            self.current.push(new_path[c]);
            c += 1;
        }
        proof {
            assert(self.current@ =~= b);
            assert(out@ =~= s_hover_events(a, b));
        }
        out
    }
}

/// Extract a root-to-target path from a router dispatch sequence: the nodes
/// of the contiguous leading capture steps.
pub fn path_from_dispatch<K: Copy, W, M>(seq: &[Dispatch<K, W, M>]) -> (r: Vec<K>)
    ensures
        ({
            let n = s_capture_prefix_len(seq@);
            r@ == Seq::new(n as nat, |i: int| seq@[i].node)
        }),
{
    let mut path: Vec<K> = Vec::new();
    let mut i: usize = 0;
    let n = seq.len();
    while i < n
        invariant
            n == seq@.len(),
            i <= n,
            forall|q: int| 0 <= q < i ==> (#[trigger] seq@[q].phase) == Phase::Capture,
            path@ =~= Seq::new(i as nat, |q: int| seq@[q].node),
        decreases n - i,
    {
        match seq[i].phase {
            Phase::Capture => {
                path.push(seq[i].node);
            },
            Phase::Target | Phase::Bubble => {
                proof {
                    lemma_capture_prefix_stops(seq@, i as int);
                }
                return path;
            },
        }
        i += 1;
    }
    proof {
        lemma_capture_prefix_all(seq@);
    }
    path
}

/// The number of contiguous leading capture steps.
pub open spec fn s_capture_prefix_len<K, W, M>(s: Seq<Dispatch<K, W, M>>) -> int
    decreases s.len(),
{
    if s.len() == 0 || s[0].phase != Phase::Capture {
        0
    } else {
        1 + s_capture_prefix_len(s.drop_first())
    }
}

proof fn lemma_capture_prefix_stops<K, W, M>(s: Seq<Dispatch<K, W, M>>, i: int)
    requires
        0 <= i < s.len(),
        forall|q: int| 0 <= q < i ==> (#[trigger] s[q].phase) == Phase::Capture,
        s[i].phase != Phase::Capture,
    ensures
        s_capture_prefix_len(s) == i,
    decreases i,
{
    if i == 0 {
    } else {
        assert(s[0].phase == Phase::Capture);
        assert forall|q: int| 0 <= q < i - 1 implies (#[trigger] s.drop_first()[q].phase)
            == Phase::Capture by {
            assert(s[q + 1].phase == Phase::Capture);
        }
        assert(s.drop_first()[i - 1].phase != Phase::Capture);
        lemma_capture_prefix_stops(s.drop_first(), i - 1);
        assert(s_capture_prefix_len(s) == 1 + s_capture_prefix_len(s.drop_first()));
    }
}

proof fn lemma_capture_prefix_all<K, W, M>(s: Seq<Dispatch<K, W, M>>)
    requires
        forall|q: int| 0 <= q < s.len() ==> (#[trigger] s[q].phase) == Phase::Capture,
    ensures
        s_capture_prefix_len(s) == s.len(),
    decreases s.len(),
{
    if s.len() > 0 {
        assert forall|q: int| 0 <= q < s.drop_first().len() implies (#[trigger] s.drop_first()[q].phase)
            == Phase::Capture by {
            assert(s[q + 1].phase == Phase::Capture);
        }
        lemma_capture_prefix_all(s.drop_first());
        assert(s_capture_prefix_len(s) == 1 + s_capture_prefix_len(s.drop_first()));
    }
}

} // verus!
