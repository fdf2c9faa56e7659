//! Core types for the responder: propagation phases, depth ordering keys,
//! resolved hits, dispatch steps, and the embedder-supplied lookups.

use vstd::prelude::*;

verus! {

/// Phases of event propagation.
#[derive(Copy, Clone, Debug, Eq, PartialEq, Structural)]
pub enum Phase {
    /// Parent-to-target traversal.
    Capture,
    /// Target node.
    Target,
    /// Target-to-parent traversal.
    Bubble,
}

/// Handler outcome controlling propagation, for higher-level dispatchers.
#[derive(Copy, Clone, Debug, Eq, PartialEq, Structural)]
pub enum Outcome {
    /// Continue within the current phase.
    Continue,
    /// Stop propagation within the current phase.
    Stop,
    /// Stop and mark consumed (for higher-level policies).
    StopAndConsume,
}

/// Policy for breaking ties after equal primary depth. The router does not
/// know how to order arbitrary node keys, so every policy currently resolves
/// to "equal", which yields stable last-wins selection.
#[derive(Copy, Clone, Debug, Eq, PartialEq, Structural)]
pub enum TieBreakPolicy {
    /// Prefer the more recently created identifier when available.
    Newer,
    /// Prefer the less recently created identifier when available.
    Older,
    /// Prefer the smaller identifier when available.
    MinId,
    /// Prefer the larger identifier when available.
    MaxId,
}

/// Primary depth ordering across heterogeneous hits.
///
/// `Z` carries a stacking index: higher is nearer. `Distance` carries a ray
/// distance as an order-preserving integer rank: lower is nearer. Where the
/// kinds differ, `Z` ranks above `Distance`.
#[derive(Copy, Clone, Debug, Eq, PartialEq, Structural)]
pub enum DepthKey {
    /// 2D z-index; higher is nearer to the user.
    Z(i32),
    /// 3D ray distance rank; lower is nearer to the user.
    Distance(i64),
}

/// "`b` is at least as near as `a`": the total nearness order on depth keys.
pub open spec fn s_depth_le(a: DepthKey, b: DepthKey) -> bool {
    match (a, b) {
        (DepthKey::Z(x), DepthKey::Z(y)) => x <= y,
        (DepthKey::Distance(x), DepthKey::Distance(y)) => y <= x,
        (DepthKey::Distance(_), DepthKey::Z(_)) => true,
        (DepthKey::Z(_), DepthKey::Distance(_)) => false,
    }
}

/// "`b` is strictly nearer than `a`".
pub open spec fn s_depth_lt(a: DepthKey, b: DepthKey) -> bool {
    s_depth_le(a, b) && a != b
}

/// Whether `b` is at least as near as `a`.
pub fn depth_le(a: &DepthKey, b: &DepthKey) -> (r: bool)
    ensures
        r == s_depth_le(*a, *b),
{
    match (a, b) {
        (DepthKey::Z(x), DepthKey::Z(y)) => *x <= *y,
        (DepthKey::Distance(x), DepthKey::Distance(y)) => *y <= *x,
        (DepthKey::Distance(_), DepthKey::Z(_)) => true,
        (DepthKey::Z(_), DepthKey::Distance(_)) => false,
    }
}

/// Whether `b` is strictly nearer than `a`.
pub fn depth_lt(a: &DepthKey, b: &DepthKey) -> (r: bool)
    ensures
        r == s_depth_lt(*a, *b),
{
    match (a, b) {
        (DepthKey::Z(x), DepthKey::Z(y)) => *x < *y,
        (DepthKey::Distance(x), DepthKey::Distance(y)) => *y < *x,
        (DepthKey::Distance(_), DepthKey::Z(_)) => true,
        (DepthKey::Z(_), DepthKey::Distance(_)) => false,
    }
}

impl PartialOrd for DepthKey {
    /// The nearness order: `Greater` means nearer to the user.
    fn partial_cmp(&self, other: &Self) -> (r: Option<core::cmp::Ordering>)
    {
        if depth_lt(self, other) {
            Some(core::cmp::Ordering::Less)
        } else if depth_lt(other, self) {
            Some(core::cmp::Ordering::Greater)
        } else {
            Some(core::cmp::Ordering::Equal)
        }
    }
}

impl vstd::std_specs::cmp::PartialOrdSpecImpl for DepthKey {
    open spec fn obeys_partial_cmp_spec() -> bool {
        true
    }

    open spec fn partial_cmp_spec(&self, other: &Self) -> Option<core::cmp::Ordering> {
        if s_depth_lt(*self, *other) {
            Some(core::cmp::Ordering::Less)
        } else if s_depth_lt(*other, *self) {
            Some(core::cmp::Ordering::Greater)
        } else {
            Some(core::cmp::Ordering::Equal)
        }
    }
}

/// Placeholder for world-to-local transformation context carried with a hit
/// and copied onto every dispatch step.
#[derive(Copy, Clone, Debug, Default, PartialEq, Eq, Structural)]
pub struct Localizer {}

/// A resolved hit to be routed: a node key, an optional root-to-target path,
/// the depth key used to rank candidates, and carried context.
#[derive(Clone)]
pub struct ResolvedHit<K, M> {
    /// Node key associated with the hit.
    pub node: K,
    /// Optional root-to-target path; if absent, the router may consult the
    /// parent lookup to derive one.
    pub path: Option<Vec<K>>,
    /// Primary depth ordering key used to pick the winning target.
    pub depth_key: DepthKey,
    /// Transformation context from world space to the target's local space.
    pub localizer: Localizer,
    /// Metadata carried alongside the hit.
    pub meta: M,
}

/// A single dispatch step of the capture, target, bubble sequence.
#[derive(Clone)]
pub struct Dispatch<K, W, M> {
    /// Propagation phase for this step.
    pub phase: Phase,
    /// Node associated with this step.
    pub node: K,
    /// Widget id corresponding to the node, if any.
    pub widget: Option<W>,
    /// Transformation context for local event coordinates.
    pub localizer: Localizer,
    /// Metadata cloned from the winning hit.
    pub meta: Option<M>,
}

/// Map nodes to toolkit widget identifiers: a pure, total lookup.
pub trait WidgetLookup<K> {
    /// Toolkit widget identifier type associated with a node.
    type WidgetId: Copy;

    /// The widget, as a mathematical function of the node.
    spec fn widget_spec(&self, node: K) -> Option<Self::WidgetId>;

    /// Returns a widget identifier for the given node, if any.
    fn widget_of(&self, node: &K) -> (r: Option<Self::WidgetId>)
        ensures
            r == self.widget_spec(*node);
}

/// Look up the parent of a node: a pure, total lookup, required to be
/// acyclic for path reconstruction to reach a root.
pub trait ParentLookup<K> {
    /// The parent, as a mathematical function of the node.
    spec fn parent_spec(&self, node: K) -> Option<K>;

    /// Returns the parent of `node`, or `None` if `node` is a root.
    fn parent_of(&self, node: &K) -> (r: Option<K>)
        ensures
            r == self.parent_spec(*node);
}

/// Filter limiting which nodes selection may consider: a pure predicate.
pub trait ScopeFilter<K> {
    /// The predicate, as a mathematical function of the node.
    spec fn scope_spec(&self, node: K) -> bool;

    /// Whether the node passes the filter.
    fn allows(&self, node: &K) -> (r: bool)
        ensures
            r == self.scope_spec(*node);
}

/// The scope that admits every node.
#[derive(Copy, Clone, Debug, Default)]
pub struct AllNodes;

impl<K> ScopeFilter<K> for AllNodes {
    open spec fn scope_spec(&self, node: K) -> bool {
        true
    }

    fn allows(&self, node: &K) -> (r: bool) {
        true
    }
}

/// A no-op parent provider: every node is a root.
#[derive(Copy, Clone, Debug, Default)]
pub struct NoParent;

impl<K> ParentLookup<K> for NoParent {
    open spec fn parent_spec(&self, node: K) -> Option<K> {
        None
    }

    fn parent_of(&self, node: &K) -> (r: Option<K>) {
        None
    }
}

/// Executable equality on node keys, agreeing with mathematical equality.
/// The router and the hover state are generic in the key type and need to
/// compare keys; embedders implement this for their own key types.
pub trait NodeKey: Copy + Sized {
    /// Whether the two keys are the same.
    fn key_eq(&self, other: &Self) -> (r: bool)
        ensures
            r == (*self == *other);
}

impl NodeKey for u32 {
    fn key_eq(&self, other: &Self) -> (r: bool) {
        *self == *other
    }
}

impl NodeKey for u64 {
    fn key_eq(&self, other: &Self) -> (r: bool) {
        *self == *other
    }
}

impl NodeKey for i64 {
    fn key_eq(&self, other: &Self) -> (r: bool) {
        *self == *other
    }
}

} // verus!
