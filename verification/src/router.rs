//! Deterministic responder chain router: ranks candidate hits by depth key,
//! honours pointer capture and an optional scope filter, reconstructs
//! root-to-target paths, and emits the capture, target, bubble sequence.

use vstd::prelude::*;

use crate::responder::{
    s_depth_le, s_depth_lt, depth_lt, AllNodes, Dispatch, Localizer, NoParent, NodeKey,
    ParentLookup, Phase, ResolvedHit, ScopeFilter, TieBreakPolicy, WidgetLookup,
};

verus! {

/// A root-to-target chain under a parent lookup: starts at a root, each
/// step is the parent of the next, and it ends at `target`. Because parents
/// are functional, such a path is unique.
pub open spec fn s_is_root_path<K, P: ParentLookup<K>>(p: P, target: K, path: Seq<K>) -> bool {
    &&& path.len() > 0
    &&& path.last() == target
    &&& p.parent_spec(path[0]) is None
    &&& forall|i: int| 0 <= i < path.len() - 1 ==> p.parent_spec(path[i + 1]) == Some(path[i])
}

/// The ancestor chain of `k`, root first, if it reaches a root within `fuel`
/// steps.
pub open spec fn s_chain<K, P: ParentLookup<K>>(p: P, k: K, fuel: nat) -> Option<Seq<K>>
    decreases fuel,
{
    if p.parent_spec(k) is None {
        Some(seq![k])
    } else if fuel == 0 {
        None
    } else {
        match s_chain(p, p.parent_spec(k)->0, (fuel - 1) as nat) {
            None => None,
            Some(c) => Some(c.push(k)),
        }
    }
}

/// Whether the ancestor chain of `k` reaches a root: the acyclicity demand
/// on a parent lookup.
pub open spec fn s_reaches_root<K, P: ParentLookup<K>>(p: P, k: K) -> bool {
    exists|fuel: nat| s_chain(p, k, fuel) is Some
}

/// The last hit in input order whose node is `cap`.
pub open spec fn s_last_match<K, M>(hs: Seq<ResolvedHit<K, M>>, cap: K) -> Option<int>
    decreases hs.len(),
{
    if hs.len() == 0 {
        None
    } else if hs.last().node == cap {
        Some(hs.len() - 1)
    } else {
        s_last_match(hs.drop_last(), cap)
    }
}

/// Single-pass selection with stable last-wins ties: the index of the
/// winning hit among those the mask admits, or `None` if the mask admits
/// nothing. A later candidate wins whenever it is at least as near as the
/// current best.
pub open spec fn s_select<K, M>(hs: Seq<ResolvedHit<K, M>>, mask: Seq<bool>) -> Option<int>
    decreases hs.len(),
{
    if hs.len() == 0 {
        None
    } else {
        let prev = s_select(hs.drop_last(), mask.drop_last());
        let i = hs.len() - 1;
        if !mask[i] {
            prev
        } else {
            match prev {
                None => Some(i),
                Some(j) => if s_depth_le(hs[j].depth_key, hs[i].depth_key) {
                    Some(i)
                } else {
                    Some(j)
                },
            }
        }
    }
}

/// The capture, target, bubble sequence for a path `p0 .. pn`: capture for
/// `p0 .. pn`, target for `pn`, bubble for `pn .. p0`, every step carrying
/// the same localizer and metadata and the widget of its node.
pub open spec fn s_emit_seq<K, L: WidgetLookup<K>, M>(
    l: L,
    path: Seq<K>,
    loc: Localizer,
    meta: Option<M>,
) -> Seq<Dispatch<K, L::WidgetId, M>> {
    Seq::new(
        path.len(),
        |i: int| Dispatch {
            phase: Phase::Capture,
            node: path[i],
            widget: l.widget_spec(path[i]),
            localizer: loc,
            meta,
        },
    ) + seq![
        Dispatch {
            phase: Phase::Target,
            node: path[path.len() - 1],
            widget: l.widget_spec(path[path.len() - 1]),
            localizer: loc,
            meta,
        },
    ] + Seq::new(
        path.len(),
        |i: int| Dispatch {
            phase: Phase::Bubble,
            node: path[path.len() - 1 - i],
            widget: l.widget_spec(path[path.len() - 1 - i]),
            localizer: loc,
            meta,
        },
    )
}

/// Deterministic responder chain router.
///
/// Construct with [`Router::new`] when callers always provide a full path in
/// their hits, or with [`Router::with_parent`] to enable path reconstruction
/// through a [`ParentLookup`]. [`Router::capture`] overrides selection until
/// released; [`Router::set_scope`] filters candidates before ranking.
pub struct Router<K, L: WidgetLookup<K>, P: ParentLookup<K> = NoParent, S: ScopeFilter<K> = AllNodes> {
    lookup: L,
    parent: P,
    default_tie_break: TieBreakPolicy,
    scope: Option<S>,
    focus: Option<K>,
    capture: Option<K>,
}

/// Ordering verdict of the tie-break comparator.
enum Rank {
    Less,
    Equal,
    Greater,
}

impl<K: NodeKey, L: WidgetLookup<K>, P: ParentLookup<K>, S: ScopeFilter<K>> Router<K, L, P, S> {
    /// The widget lookup collaborator.
    pub closed spec fn lookup_of(self) -> L {
        self.lookup
    }

    /// The parent lookup collaborator.
    pub closed spec fn parent_of_spec(self) -> P {
        self.parent
    }

    /// The configured tie-break policy.
    pub closed spec fn tie_break_of(self) -> TieBreakPolicy {
        self.default_tie_break
    }

    /// The scope filter, if set.
    pub closed spec fn scope_of(self) -> Option<S> {
        self.scope
    }

    /// Whether selection may consider a node: no scope admits everything.
    pub open spec fn admits(self, node: K) -> bool {
        match self.scope_of() {
            None => true,
            Some(sc) => sc.scope_spec(node),
        }
    }

    /// The focused node, if set.
    pub closed spec fn focus_of(self) -> Option<K> {
        self.focus
    }

    /// The captured node, if set.
    pub closed spec fn capture_of(self) -> Option<K> {
        self.capture
    }

    /// What `handle_with_hits` returns. With a captured node, the dispatch
    /// sequence follows the last matching hit's path (or a reconstructed
    /// root path), bypassing the scope filter. Otherwise a single pass keeps
    /// the hit the mask admits that ranks nearest, later hits winning ties,
    /// and its path is dispatched; no admitted hit yields no dispatch.
    pub open spec fn routed<M>(
        self,
        hs: Seq<ResolvedHit<K, M>>,
        out: Seq<Dispatch<K, L::WidgetId, M>>,
    ) -> bool {
        match self.capture_of() {
            Some(cap) => match s_last_match(hs, cap) {
                Some(i) => {
                    let h = hs[i];
                    if h.path is Some {
                        out == s_emit_seq(self.lookup_of(), h.path->0@, h.localizer, Some(h.meta))
                    } else {
                        exists|pth: Seq<K>|
                            s_is_root_path(self.parent_of_spec(), cap, pth) && out == s_emit_seq(
                                self.lookup_of(),
                                pth,
                                h.localizer,
                                Some(h.meta),
                            )
                    }
                },
                None => exists|pth: Seq<K>|
                    s_is_root_path(self.parent_of_spec(), cap, pth) && out == s_emit_seq(
                        self.lookup_of(),
                        pth,
                        (Localizer {  }),
                        None::<M>,
                    ),
            },
            None => self.routed_selection(
                hs,
                Seq::new(hs.len(), |i: int| self.admits(hs[i].node)),
                out,
            ),
        }
    }

    /// The dispatch `out` for the hit that selection over `mask` picks.
    pub open spec fn routed_selection<M>(
        self,
        hs: Seq<ResolvedHit<K, M>>,
        mask: Seq<bool>,
        out: Seq<Dispatch<K, L::WidgetId, M>>,
    ) -> bool {
        match s_select(hs, mask) {
            None => out == Seq::<Dispatch<K, L::WidgetId, M>>::empty(),
            Some(i) => {
                let h = hs[i];
                if h.path is Some {
                    out == s_emit_seq(self.lookup_of(), h.path->0@, h.localizer, Some(h.meta))
                } else {
                    exists|pth: Seq<K>|
                        s_is_root_path(self.parent_of_spec(), h.node, pth) && out == s_emit_seq(
                            self.lookup_of(),
                            pth,
                            h.localizer,
                            Some(h.meta),
                        )
                }
            },
        }
    }

    /// Create a router with default policies and an explicit parent lookup.
    pub fn with_parent(lookup: L, parent: P) -> (r: Self)
        ensures
            r.lookup_of() == lookup,
            r.parent_of_spec() == parent,
            r.tie_break_of() == TieBreakPolicy::Newer,
            r.scope_of() is None,
            r.focus_of() is None,
            r.capture_of() is None,
    {
        Router {
            lookup,
            parent,
            default_tie_break: TieBreakPolicy::Newer,
            scope: None,
            focus: None,
            capture: None,
        }
    }

    /// Set the default tie-break policy for hits of equal primary depth.
    pub fn set_default_tie_break(&mut self, p: TieBreakPolicy)
        ensures
            final(self).tie_break_of() == p,
            final(self).lookup_of() == old(self).lookup_of(),
            final(self).parent_of_spec() == old(self).parent_of_spec(),
            final(self).scope_of() == old(self).scope_of(),
            final(self).focus_of() == old(self).focus_of(),
            final(self).capture_of() == old(self).capture_of(),
    {
        self.default_tie_break = p;
    }

    /// Set an optional scope filter; only nodes satisfying the predicate are
    /// considered for selection.
    pub fn set_scope(&mut self, scope: Option<S>)
        ensures
            final(self).scope_of() == scope,
            final(self).lookup_of() == old(self).lookup_of(),
            final(self).parent_of_spec() == old(self).parent_of_spec(),
            final(self).tie_break_of() == old(self).tie_break_of(),
            final(self).focus_of() == old(self).focus_of(),
            final(self).capture_of() == old(self).capture_of(),
    {
        self.scope = scope;
    }

    /// Set the focused node (reserved for higher-level policies).
    pub fn set_focus(&mut self, node: Option<K>)
        ensures
            final(self).focus_of() == node,
            final(self).lookup_of() == old(self).lookup_of(),
            final(self).parent_of_spec() == old(self).parent_of_spec(),
            final(self).tie_break_of() == old(self).tie_break_of(),
            final(self).scope_of() == old(self).scope_of(),
            final(self).capture_of() == old(self).capture_of(),
    {
        self.focus = node;
    }

    /// Set or release the captured node for pointer events.
    pub fn capture(&mut self, node: Option<K>)
        ensures
            final(self).capture_of() == node,
            final(self).lookup_of() == old(self).lookup_of(),
            final(self).parent_of_spec() == old(self).parent_of_spec(),
            final(self).tie_break_of() == old(self).tie_break_of(),
            final(self).scope_of() == old(self).scope_of(),
            final(self).focus_of() == old(self).focus_of(),
    {
        self.capture = node;
    }

    /// Handle a pre-resolved sequence of hits and produce the propagation
    /// sequence, as described by [`Router::routed`].
    pub fn handle_with_hits<M: Copy>(&self, hits: &[ResolvedHit<K, M>]) -> (r: Vec<
        Dispatch<K, L::WidgetId, M>,
    >)
        requires
            forall|i: int|
                0 <= i < hits@.len() && (#[trigger] hits@[i]).path is Some
                    ==> hits@[i].path->0@.len() > 0,
            self.capture_of() is Some ==> s_reaches_root(
                self.parent_of_spec(),
                self.capture_of()->0,
            ),
            forall|i: int|
                0 <= i < hits@.len() && (#[trigger] hits@[i]).path is None ==> s_reaches_root(
                    self.parent_of_spec(),
                    hits@[i].node,
                ),
        ensures
            self.routed(hits@, r@),
    {
        let ghost hs = hits@;
        match &self.capture {
            Some(cap) => {
                let cap = *cap;
                // Find the last hit for the captured node, if any.
                let mut found: Option<usize> = None;
                let mut i: usize = hits.len();
                proof {
                    assert(hs.take(hs.len() as int) =~= hs);
                }
                while i > 0
                    invariant_except_break
                        hs == hits@,
                        i <= hs.len(),
                        found is None,
                        s_last_match(hs.take(i as int), cap) == s_last_match(hs, cap),
                    ensures
                        hs == hits@,
                        match found {
                            None => s_last_match(hs, cap) is None,
                            Some(m) => m < hs.len() && hs[m as int].node == cap && s_last_match(
                                hs,
                                cap,
                            ) == Some(m as int),
                        },
                    decreases i,
                {
                    proof {
                        assert(hs.take(i as int).drop_last() =~= hs.take(i - 1));
                        assert(hs.take(i as int).last() == hs[i - 1]);
                    }
                    if hits[i - 1].node.key_eq(&cap) {
                        found = Some(i - 1);
                        proof {
                            assert(s_last_match(hs.take(i as int), cap) == Some(i - 1));
                        }
                        break;
                    }
                    i -= 1;
                }
                match found {
                    Some(m) => {
                        let h = &hits[m];
                        let path: Vec<K> = match &h.path {
                            Some(p) => copy_keys(p),
                            None => self.reconstruct_path(cap),
                        };
                        self.emit_path(path, h.localizer, Some(h.meta))
                    },
                    None => {
                        let path = self.reconstruct_path(cap);
                        self.emit_path(path, Localizer {  }, None)
                    },
                }
            },
            None => {
                let ghost mask = Seq::new(hs.len(), |q: int| self.admits(hs[q].node));
                let mut best_idx: Option<usize> = None;
                let mut i: usize = 0;
                while i < hits.len()
                    invariant
                        hs == hits@,
                        i <= hs.len(),
                        mask == Seq::new(hs.len(), |q: int| self.admits(hs[q].node)),
                        match best_idx {
                            None => s_select(hs.take(i as int), mask.take(i as int)) is None,
                            Some(j) => j < i && s_select(hs.take(i as int), mask.take(i as int))
                                == Some(j as int),
                        },
                    decreases hs.len() - i,
                {
                    let h = &hits[i];
                    let keep = match &self.scope {
                        None => true,
                        Some(f) => f.allows(&h.node),
                    };
                    proof {
                        assert(keep == mask[i as int]);
                        assert(hs.take(i + 1).drop_last() =~= hs.take(i as int));
                        assert(mask.take(i + 1).drop_last() =~= mask.take(i as int));
                        assert(hs.take(i + 1).last() == hs[i as int]);
                        assert(mask.take(i + 1).last() == mask[i as int]);
                    }
                    if keep {
                        match best_idx {
                            None => {
                                best_idx = Some(i);
                            },
                            Some(j) => {
                                let a = &hits[j];
                                let better = if depth_lt(&a.depth_key, &h.depth_key) {
                                    true
                                } else if depth_lt(&h.depth_key, &a.depth_key) {
                                    false
                                } else {
                                    match self.tiebreak(&a.node, &h.node) {
                                        Rank::Less => true,
                                        Rank::Greater => false,
                                        Rank::Equal => true,
                                    }
                                };
                                if better {
                                    best_idx = Some(i);
                                }
                            },
                        }
                    }
                    i += 1;
                }
                proof {
                    assert(hs.take(hs.len() as int) =~= hs);
                    assert(mask.take(hs.len() as int) =~= mask);
                }
                match best_idx {
                    None => {
                        let r: Vec<Dispatch<K, L::WidgetId, M>> = Vec::new();
                        proof {
                            assert(self.routed(hs, r@));
                        }
                        r
                    },
                    Some(m) => {
                        let h = &hits[m];
                        let path: Vec<K> = match &h.path {
                            Some(p) => copy_keys(p),
                            None => self.reconstruct_path(h.node),
                        };
                        let r = self.emit_path(path, h.localizer, Some(h.meta));
                        proof {
                            assert(self.routed(hs, r@));
                        }
                        r
                    },
                }
            },
        }
    }

    /// Ascend the parent lookup from `target` and return the root-to-target
    /// path.
    fn reconstruct_path(&self, target: K) -> (r: Vec<K>)
        requires
            s_reaches_root(self.parent_of_spec(), target),
        ensures
            s_is_root_path(self.parent_of_spec(), target, r@),
    {
        let ghost p = self.parent_of_spec();
        let mut up: Vec<K> = Vec::new();
        let mut cur = target;
        let ghost mut fc: nat = choose|f: nat| s_chain(p, target, f) is Some;
        up.push(cur);
        // Collect to root; the lookup is acyclic, so the chain ends.
        loop
            invariant
                p == self.parent_of_spec(),
                s_chain(p, cur, fc) is Some,
                up.len() > 0,
                up@[0] == target,
                up@.last() == cur,
                forall|q: int| 0 <= q < up@.len() - 1 ==> p.parent_spec(up@[q]) == Some(up@[q + 1]),
            ensures
                up.len() > 0,
                up@[0] == target,
                p.parent_spec(up@.last()) is None,
                forall|q: int| 0 <= q < up@.len() - 1 ==> p.parent_spec(up@[q]) == Some(up@[q + 1]),
            decreases fc,
        {
            match self.parent.parent_of(&cur) {
                Some(par) => {
                    proof {
                        assert(fc > 0);
                        fc = (fc - 1) as nat;
                    }
                    cur = par;
                    up.push(cur);
                },
                None => {
                    break;
                },
            }
        }
        // Reverse to root-to-target order.
        let mut out: Vec<K> = Vec::new();
        let n = up.len();
        let mut i: usize = 0;
        while i < n
            invariant
                n == up@.len(),
                i <= n,
                out@ =~= Seq::new(i as nat, |q: int| up@[n - 1 - q]),
            decreases n - i,
        {
            out.push(up[n - 1 - i]);
            i += 1;
        }
        proof {
            assert(out@.len() == up@.len());
            assert(out@.last() == up@[0]);
            assert(p.parent_spec(out@[0]) == p.parent_spec(up@[n - 1]));
            assert forall|q: int| 0 <= q < out@.len() - 1 implies p.parent_spec(out@[q + 1])
                == Some(out@[q]) by {
                assert(out@[q + 1] == up@[n - 2 - q]);
                assert(out@[q] == up@[n - 1 - q]);
                assert(p.parent_spec(up@[n - 2 - q]) == Some(up@[n - 2 - q + 1]));
            }
        }
        out
    }

    /// Emit the capture, target, bubble sequence for a root-to-target path.
    fn emit_path<M: Copy>(&self, path: Vec<K>, localizer: Localizer, meta: Option<M>) -> (r: Vec<
        Dispatch<K, L::WidgetId, M>,
    >)
        requires
            path@.len() > 0,
        ensures
            r@ == s_emit_seq(self.lookup_of(), path@, localizer, meta),
    {
        let mut out: Vec<Dispatch<K, L::WidgetId, M>> = Vec::new();
        let n = path.len();
        // Capture: root to target.
        let mut i: usize = 0;
        while i < n
            invariant
                n == path@.len(),
                i <= n,
                out@ =~= Seq::new(
                    i as nat,
                    |q: int| Dispatch {
                        phase: Phase::Capture,
                        node: path@[q],
                        widget: self.lookup_of().widget_spec(path@[q]),
                        localizer,
                        meta,
                    },
                ),
            decreases n - i,
        {
            let d = self.make_dispatch(Phase::Capture, path[i], localizer, meta);
            out.push(d);
            i += 1;
        }
        // Target.
        let d = self.make_dispatch(Phase::Target, path[n - 1], localizer, meta);
        out.push(d);
        // Bubble: target to root.
        let ghost cap_and_target = out@;
        let mut i: usize = 0;
        while i < n
            invariant
                n == path@.len(),
                i <= n,
                out@ =~= cap_and_target + Seq::new(
                    i as nat,
                    |q: int| Dispatch {
                        phase: Phase::Bubble,
                        node: path@[n - 1 - q],
                        widget: self.lookup_of().widget_spec(path@[n - 1 - q]),
                        localizer,
                        meta,
                    },
                ),
            decreases n - i,
        {
            let d = self.make_dispatch(Phase::Bubble, path[n - 1 - i], localizer, meta);
            out.push(d);
            i += 1;
        }
        proof {
            assert(out@ =~= s_emit_seq(self.lookup_of(), path@, localizer, meta));
        }
        out
    }

    /// Build one dispatch step, consulting the widget lookup.
    fn make_dispatch<M: Copy>(&self, phase: Phase, node: K, localizer: Localizer, meta: Option<M>)
        -> (d: Dispatch<K, L::WidgetId, M>)
        ensures
            d == (Dispatch {
                phase,
                node,
                widget: self.lookup_of().widget_spec(node),
                localizer,
                meta,
            }),
    {
        let widget = self.lookup.widget_of(&node);
        Dispatch { phase, node, widget, localizer, meta }
    }

    /// Compare two candidates of equal depth under the configured policy.
    /// The router has no inherent ordering on `K`, so every policy resolves
    /// to `Equal`, which keeps selection stable with last-wins behaviour.
    fn tiebreak(&self, a: &K, b: &K) -> (r: Rank)
        ensures
            r is Equal,
    {
        match self.default_tie_break {
            TieBreakPolicy::Newer => {
                if Self::id_is_newer(a, b) {
                    Rank::Greater
                } else if Self::id_is_newer(b, a) {
                    Rank::Less
                } else {
                    Rank::Equal
                }
            },
            TieBreakPolicy::Older => {
                if Self::id_is_newer(b, a) {
                    Rank::Greater
                } else if Self::id_is_newer(a, b) {
                    Rank::Less
                } else {
                    Rank::Equal
                }
            },
            TieBreakPolicy::MinId => Self::id_cmp(a, b),
            TieBreakPolicy::MaxId => Self::id_cmp(a, b),
        }
    }

    /// Without generational information in `K`, no key is newer than
    /// another; embedders with ordered keys pre-sort their hits instead.
    fn id_is_newer(a: &K, b: &K) -> (r: bool)
        ensures
            r == false,
    {
        false
    }

    /// Without an inherent ordering on `K`, identifier comparison yields
    /// `Equal`, so stable last-wins applies after equal depth.
    fn id_cmp(a: &K, b: &K) -> (r: Rank)
        ensures
            r is Equal,
    {
        Rank::Equal
    }
}

impl<K: NodeKey, L: WidgetLookup<K>, P: ParentLookup<K> + Default, S: ScopeFilter<K>> Router<K, L, P, S> {
    /// Create a router with default policies and a default parent lookup.
    pub fn new(lookup: L) -> (r: Self)
        ensures
            r.lookup_of() == lookup,
            r.tie_break_of() == TieBreakPolicy::Newer,
            r.scope_of() is None,
            r.focus_of() is None,
            r.capture_of() is None,
    {
        Router {
            lookup,
            parent: P::default(),
            default_tie_break: TieBreakPolicy::Newer,
            scope: None,
            focus: None,
            capture: None,
        }
    }
}

/// Copy a vector of keys.
fn copy_keys<K: NodeKey>(v: &Vec<K>) -> (r: Vec<K>)
    ensures
        r@ == v@,
{
    let mut out: Vec<K> = Vec::new();
    let mut i: usize = 0;
    while i < v.len()
        invariant
            i <= v@.len(),
            out@ =~= v@.take(i as int),
        decreases v@.len() - i,
    {
        out.push(v[i]);
        i += 1;
    }
    proof {
        assert(v@.take(v@.len() as int) =~= v@);
    }
    out
}

/// Two root paths to the same target under one parent lookup are equal:
/// parents are functional, so the chain from the target is determined.
pub proof fn lemma_root_path_unique<K, P: ParentLookup<K>>(p: P, target: K, p1: Seq<K>, p2: Seq<K>)
    requires
        s_is_root_path(p, target, p1),
        s_is_root_path(p, target, p2),
    ensures
        p1 == p2,
    decreases p1.len(),
{
    if p1.len() == 1 {
        if p2.len() > 1 {
            assert(p.parent_spec(p2[p2.len() - 1]) == Some(p2[p2.len() - 2]));
            assert(false);
        }
        assert(p1 =~= p2);
    } else {
        assert(p.parent_spec(p1[p1.len() - 1]) == Some(p1[p1.len() - 2]));
        if p2.len() == 1 {
            assert(p.parent_spec(p2[0]) is None);
            assert(false);
        }
        assert(p.parent_spec(p2[p2.len() - 1]) == Some(p2[p2.len() - 2]));
        let q1 = p1.drop_last();
        let q2 = p2.drop_last();
        assert(q1.last() == q2.last());
        assert forall|i: int| 0 <= i < q1.len() - 1 implies p.parent_spec(q1[i + 1]) == Some(
            q1[i],
        ) by {
            assert(p.parent_spec(p1[i + 1]) == Some(p1[i]));
        }
        assert forall|i: int| 0 <= i < q2.len() - 1 implies p.parent_spec(q2[i + 1]) == Some(
            q2[i],
        ) by {
            assert(p.parent_spec(p2[i + 1]) == Some(p2[i]));
        }
        assert(q1.len() > 0 && q2.len() > 0);
        lemma_root_path_unique(p, q1.last(), q1, q2);
        assert(p1.len() == p2.len());
        assert forall|i: int| 0 <= i < p1.len() implies p1[i] == p2[i] by {
            if i < p1.len() - 1 {
                assert(p1[i] == q1[i]);
                assert(p2[i] == q2[i]);
            }
        }
        assert(p1 =~= p2);
    }
}

/// Router determinism: the routing relation pins the output, so the same
/// router state and the same input hits produce the same dispatch sequence.
pub proof fn lemma_router_deterministic<
    K: NodeKey,
    L: WidgetLookup<K>,
    P: ParentLookup<K>,
    S: ScopeFilter<K>,
    M,
>(
    router: Router<K, L, P, S>,
    hs: Seq<ResolvedHit<K, M>>,
    o1: Seq<Dispatch<K, L::WidgetId, M>>,
    o2: Seq<Dispatch<K, L::WidgetId, M>>,
)
    requires
        router.routed(hs, o1),
        router.routed(hs, o2),
    ensures
        o1 == o2,
{
    match router.capture_of() {
        Some(cap) => match s_last_match(hs, cap) {
            Some(i) => {
                if hs[i].path is None {
                    let pth1 = choose|pth: Seq<K>|
                        s_is_root_path(router.parent_of_spec(), cap, pth) && o1 == s_emit_seq(
                            router.lookup_of(),
                            pth,
                            hs[i].localizer,
                            Some(hs[i].meta),
                        );
                    let pth2 = choose|pth: Seq<K>|
                        s_is_root_path(router.parent_of_spec(), cap, pth) && o2 == s_emit_seq(
                            router.lookup_of(),
                            pth,
                            hs[i].localizer,
                            Some(hs[i].meta),
                        );
                    lemma_root_path_unique(router.parent_of_spec(), cap, pth1, pth2);
                }
            },
            None => {
                let pth1 = choose|pth: Seq<K>|
                    s_is_root_path(router.parent_of_spec(), cap, pth) && o1 == s_emit_seq(
                        router.lookup_of(),
                        pth,
                        (Localizer {  }),
                        None::<M>,
                    );
                let pth2 = choose|pth: Seq<K>|
                    s_is_root_path(router.parent_of_spec(), cap, pth) && o2 == s_emit_seq(
                        router.lookup_of(),
                        pth,
                        (Localizer {  }),
                        None::<M>,
                    );
                lemma_root_path_unique(router.parent_of_spec(), cap, pth1, pth2);
            },
        },
        None => {
            let m1 = Seq::new(hs.len(), |i: int| router.admits(hs[i].node));
            match s_select(hs, m1) {
                None => {},
                Some(i) => {
                    if hs[i].path is None {
                        let pth1 = choose|pth: Seq<K>|
                            s_is_root_path(router.parent_of_spec(), hs[i].node, pth) && o1
                                == s_emit_seq(
                                router.lookup_of(),
                                pth,
                                hs[i].localizer,
                                Some(hs[i].meta),
                            );
                        let pth2 = choose|pth: Seq<K>|
                            s_is_root_path(router.parent_of_spec(), hs[i].node, pth) && o2
                                == s_emit_seq(
                                router.lookup_of(),
                                pth,
                                hs[i].localizer,
                                Some(hs[i].meta),
                            );
                        lemma_root_path_unique(router.parent_of_spec(), hs[i].node, pth1, pth2);
                    }
                },
            }
        },
    }
}

} // verus!
