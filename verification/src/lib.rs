//! A 2D spatial core for UI stacks: a generational, batched AABB index with
//! pluggable backends (flat scan, R-tree, BVH), a scene box tree
//! that maintains world-space geometry and mirrors it into the index, and a
//! deterministic event router with an LCA-based hover state machine.
//!
//! All coordinates are signed 64-bit integers; area arithmetic widens to
//! 128 bits so that split costs are well-ordered.

pub mod affine;
pub mod backend;
pub mod bvh;
pub mod damage;
pub mod flat;
pub mod geom;
pub mod hover;
pub mod index;
pub mod laws;
pub mod responder;
pub mod rtree;
pub mod scene;
pub mod router;

pub use affine::Affine2;
pub use backend::Backend;
pub use bvh::BVH;
pub use damage::Damage;
pub use flat::FlatVec;
pub use geom::Aabb2D;
pub use hover::{path_from_dispatch, HoverEvent, HoverState};
pub use index::{Index, IndexGeneric, Key};
pub use router::Router;
pub use rtree::RTree;
pub use scene::{ClipRect, LocalNode, NodeFlags, NodeId, SceneDamage, Tree};
pub use responder::{
    DepthKey, Dispatch, Localizer, NoParent, NodeKey, Outcome, ParentLookup, Phase,
    ResolvedHit, TieBreakPolicy, WidgetLookup,
};
