use understory::{
    path_from_dispatch, DepthKey, Dispatch, Localizer, NoParent, NodeKey, ParentLookup, Phase,
    ResolvedHit, Router, WidgetLookup,
};
use understory::responder::ScopeFilter;

#[derive(Copy, Clone, Debug, Eq, PartialEq, Hash)]
struct Node(u32);

impl NodeKey for Node {
    fn key_eq(&self, other: &Self) -> bool {
        self == other
    }
}

struct Lookup;
impl WidgetLookup<Node> for Lookup {
    type WidgetId = u32;
    fn widget_spec(&self, node: Node) -> Option<u32> {
        Some(node.0)
    }
    fn widget_of(&self, node: &Node) -> Option<u32> {
        Some(node.0)
    }
}

struct EvenOnly;
impl ScopeFilter<Node> for EvenOnly {
    fn scope_spec(&self, node: Node) -> bool {
        (node.0 & 1) == 0
    }
    fn allows(&self, node: &Node) -> bool {
        (node.0 & 1) == 0
    }
}

fn hit(node: u32, path: Option<Vec<u32>>, depth_key: DepthKey) -> ResolvedHit<Node, ()> {
    ResolvedHit {
        node: Node(node),
        path: path.map(|p| p.into_iter().map(Node).collect()),
        depth_key,
        localizer: Localizer::default(),
        meta: (),
    }
}

fn phases<M>(out: &[Dispatch<Node, u32, M>]) -> Vec<(Phase, u32)> {
    out.iter().map(|d| (d.phase, d.node.0)).collect()
}

/// Distance values as order-preserving integer ranks (positive floats keep
/// their order under the bit mapping).
fn dist(v: f32) -> DepthKey {
    DepthKey::Distance(v.to_bits() as i64)
}

#[test]
fn capture_overrides_selection_and_reconstructs_path() {
    struct Parents;
    impl ParentLookup<Node> for Parents {
        fn parent_spec(&self, node: Node) -> Option<Node> {
            match node.0 {
                3 => Some(Node(2)),
                2 => Some(Node(1)),
                _ => None,
            }
        }
        fn parent_of(&self, node: &Node) -> Option<Node> {
            match node.0 {
                3 => Some(Node(2)),
                2 => Some(Node(1)),
                _ => None,
            }
        }
    }

    let mut router: Router<Node, Lookup, Parents> = Router::with_parent(Lookup, Parents);
    router.capture(Some(Node(3)));
    // Competing hit with higher Z for a different node.
    let hits = vec![hit(9, Some(vec![9]), DepthKey::Z(999))];
    let out = router.handle_with_hits::<()>(&hits);
    assert_eq!(
        phases(&out),
        vec![
            (Phase::Capture, 1),
            (Phase::Capture, 2),
            (Phase::Capture, 3),
            (Phase::Target, 3),
            (Phase::Bubble, 3),
            (Phase::Bubble, 2),
            (Phase::Bubble, 1),
        ]
    );
}

#[test]
fn capture_prefers_hit_metadata_when_available() {
    let mut router: Router<Node, Lookup, NoParent> = Router::new(Lookup);
    router.capture(Some(Node(7)));
    #[derive(Copy, Clone, Debug, PartialEq)]
    struct Meta(&'static str);
    let hits = vec![ResolvedHit {
        node: Node(7),
        path: Some(vec![Node(1), Node(7)]),
        depth_key: DepthKey::Z(0),
        localizer: Localizer::default(),
        meta: Meta("captured"),
    }];
    let out = router.handle_with_hits::<Meta>(&hits);
    assert_eq!(
        phases(&out),
        vec![
            (Phase::Capture, 1),
            (Phase::Capture, 7),
            (Phase::Target, 7),
            (Phase::Bubble, 7),
            (Phase::Bubble, 1),
        ]
    );
    assert!(out
        .iter()
        .all(|d| matches!(d.meta.as_ref(), Some(Meta("captured")))));
}

#[test]
fn capture_bypasses_scope_filter() {
    let mut router: Router<Node, Lookup, NoParent, EvenOnly> = Router::new(Lookup);
    router.capture(Some(Node(3))); // odd
    router.set_scope(Some(EvenOnly)); // even only
    let hits = vec![hit(2, Some(vec![2]), DepthKey::Z(100))];
    let out = router.handle_with_hits::<()>(&hits);
    let tgt = out.iter().find(|d| matches!(d.phase, Phase::Target)).unwrap();
    assert_eq!(tgt.node.0, 3);
}

#[test]
fn simple_path_dispatch() {
    let router: Router<Node, Lookup, NoParent> = Router::new(Lookup);
    let hits = vec![hit(3, Some(vec![1, 2, 3]), DepthKey::Z(10))];
    let out = router.handle_with_hits::<()>(&hits);
    assert_eq!(out.len(), 7);
    assert!(matches!(out[0].phase, Phase::Capture));
    assert_eq!(out[0].node.0, 1);
    assert!(matches!(out[3].phase, Phase::Target));
    assert_eq!(out[3].node.0, 3);
    assert!(matches!(out[6].phase, Phase::Bubble));
    assert_eq!(out[6].node.0, 1);
}

#[test]
fn scope_filter_selects_allowed_hit() {
    let mut router: Router<Node, Lookup, NoParent, EvenOnly> = Router::new(Lookup);
    router.set_scope(Some(EvenOnly));
    let hits = vec![
        hit(1, Some(vec![1]), DepthKey::Z(100)),
        hit(2, Some(vec![2]), DepthKey::Z(50)),
    ];
    let out = router.handle_with_hits::<()>(&hits);
    assert_eq!(
        out.iter()
            .filter(|d| matches!(d.phase, Phase::Target))
            .count(),
        1
    );
    let tgt = out.iter().find(|d| matches!(d.phase, Phase::Target)).unwrap();
    assert_eq!(tgt.node.0, 2);
}

#[test]
fn parent_of_reconstructs_path() {
    struct Parents;
    impl ParentLookup<Node> for Parents {
        fn parent_spec(&self, node: Node) -> Option<Node> {
            match node.0 {
                3 => Some(Node(2)),
                2 => Some(Node(1)),
                _ => None,
            }
        }
        fn parent_of(&self, node: &Node) -> Option<Node> {
            match node.0 {
                3 => Some(Node(2)),
                2 => Some(Node(1)),
                _ => None,
            }
        }
    }

    let router: Router<Node, Lookup, Parents> = Router::with_parent(Lookup, Parents);
    let hits = vec![hit(3, None, DepthKey::Z(10))];
    let out = router.handle_with_hits::<()>(&hits);
    assert_eq!(
        phases(&out),
        vec![
            (Phase::Capture, 1),
            (Phase::Capture, 2),
            (Phase::Capture, 3),
            (Phase::Target, 3),
            (Phase::Bubble, 3),
            (Phase::Bubble, 2),
            (Phase::Bubble, 1),
        ]
    );
}

#[test]
fn mixed_depthkey_z_beats_distance() {
    let router: Router<Node, Lookup, NoParent> = Router::new(Lookup);
    let hits = vec![
        hit(10, Some(vec![10]), dist(0.1)),
        hit(20, Some(vec![20]), DepthKey::Z(0)),
    ];
    let out = router.handle_with_hits::<()>(&hits);
    let tgt = out.iter().find(|d| matches!(d.phase, Phase::Target)).unwrap();
    assert_eq!(tgt.node.0, 20);
}

#[test]
fn tie_break_is_stable_last_wins_on_equal_depth() {
    let router: Router<Node, Lookup, NoParent> = Router::new(Lookup);
    let hits = vec![
        hit(1, Some(vec![1]), DepthKey::Z(5)),
        hit(2, Some(vec![2]), DepthKey::Z(5)),
    ];
    let out = router.handle_with_hits::<()>(&hits);
    let tgt = out.iter().find(|d| matches!(d.phase, Phase::Target)).unwrap();
    assert_eq!(tgt.node.0, 2);
}

#[test]
fn meta_and_localizer_passthrough() {
    #[derive(Copy, Clone, Debug, PartialEq)]
    struct Meta(&'static str);
    let router: Router<Node, Lookup, NoParent> = Router::new(Lookup);
    let hits = vec![ResolvedHit {
        node: Node(7),
        path: Some(vec![Node(7)]),
        depth_key: DepthKey::Z(1),
        localizer: Localizer::default(),
        meta: Meta("hello"),
    }];
    let out = router.handle_with_hits::<Meta>(&hits);
    assert!(out.iter().all(|d| d.meta.as_ref().is_some()));
    assert!(out.iter().all(|d| d.localizer == Localizer::default()));
    assert!(out
        .iter()
        .all(|d| matches!(d.meta.as_ref(), Some(Meta("hello")))));
}

#[test]
fn widget_id_is_mapped_for_each_dispatch() {
    let router: Router<Node, Lookup, NoParent> = Router::new(Lookup);
    let hits = vec![hit(42, Some(vec![1, 42]), DepthKey::Z(10))];
    let out = router.handle_with_hits::<()>(&hits);
    assert!(!out.is_empty());
    for d in &out {
        assert_eq!(d.widget, Some(d.node.0));
    }
}

#[test]
fn same_node_higher_z_wins() {
    let router: Router<Node, Lookup, NoParent> = Router::new(Lookup);
    let hits = vec![
        hit(5, Some(vec![5]), DepthKey::Z(1)),
        hit(5, Some(vec![5]), DepthKey::Z(10)),
    ];
    let out = router.handle_with_hits::<()>(&hits);
    let tgt = out.iter().find(|d| matches!(d.phase, Phase::Target)).unwrap();
    assert_eq!(tgt.node.0, 5);
    assert_eq!(
        out.iter()
            .filter(|d| matches!(d.phase, Phase::Target))
            .count(),
        1
    );
}

#[test]
fn capture_can_be_released() {
    let mut router: Router<Node, Lookup, NoParent> = Router::new(Lookup);
    router.capture(Some(Node(1)));
    router.capture(None);
    let hits = vec![
        hit(2, Some(vec![2]), DepthKey::Z(1)),
        hit(3, Some(vec![3]), DepthKey::Z(10)),
    ];
    let out = router.handle_with_hits::<()>(&hits);
    let tgt = out.iter().find(|d| matches!(d.phase, Phase::Target)).unwrap();
    assert_eq!(tgt.node.0, 3);
}

#[test]
fn capture_prefers_last_matching_hit() {
    let mut router: Router<Node, Lookup, NoParent> = Router::new(Lookup);
    router.capture(Some(Node(7)));
    #[derive(Copy, Clone, Debug, PartialEq)]
    struct Meta(&'static str);
    let hits = vec![
        ResolvedHit {
            node: Node(7),
            path: Some(vec![Node(7)]),
            depth_key: DepthKey::Z(1),
            localizer: Localizer::default(),
            meta: Meta("first"),
        },
        ResolvedHit {
            node: Node(7),
            path: Some(vec![Node(1), Node(7)]),
            depth_key: DepthKey::Z(2),
            localizer: Localizer::default(),
            meta: Meta("second"),
        },
    ];
    let out = router.handle_with_hits::<Meta>(&hits);
    assert_eq!(
        phases(&out),
        vec![
            (Phase::Capture, 1),
            (Phase::Capture, 7),
            (Phase::Target, 7),
            (Phase::Bubble, 7),
            (Phase::Bubble, 1),
        ]
    );
    assert!(out
        .iter()
        .all(|d| matches!(d.meta.as_ref(), Some(Meta("second")))));
}

#[test]
fn distance_ordering_and_tie_break() {
    let router: Router<Node, Lookup, NoParent> = Router::new(Lookup);
    let hits = vec![
        hit(1, Some(vec![1]), dist(0.25)),
        hit(2, Some(vec![2]), dist(0.25)),
        hit(3, Some(vec![3]), dist(0.10)),
    ];
    let out = router.handle_with_hits::<()>(&hits);
    let tgt = out.iter().find(|d| matches!(d.phase, Phase::Target)).unwrap();
    assert_eq!(tgt.node.0, 3);
    let out2 = router.handle_with_hits::<()>(&hits[..2]);
    let tgt2 = out2
        .iter()
        .find(|d| matches!(d.phase, Phase::Target))
        .unwrap();
    assert_eq!(tgt2.node.0, 2);
}

#[test]
fn fallback_singleton_path_without_parent_or_path() {
    let router: Router<Node, Lookup, NoParent> = Router::new(Lookup);
    let hits = vec![hit(9, None, DepthKey::Z(0))];
    let out = router.handle_with_hits::<()>(&hits);
    assert_eq!(
        phases(&out),
        vec![(Phase::Capture, 9), (Phase::Target, 9), (Phase::Bubble, 9)]
    );
}

#[test]
fn depthkey_z_ordering() {
    assert!(DepthKey::Z(10) > DepthKey::Z(5));
    assert!(DepthKey::Z(-1) < DepthKey::Z(0));
    assert_eq!(
        DepthKey::Z(7).partial_cmp(&DepthKey::Z(7)),
        Some(std::cmp::Ordering::Equal)
    );
}

#[test]
fn depthkey_distance_ordering() {
    // Smaller distance is considered nearer and thus greater in ordering.
    assert!(dist(0.1) > dist(0.2));
    assert!(dist(1.0) < dist(0.5));
    assert_eq!(
        dist(0.25).partial_cmp(&dist(0.25)),
        Some(std::cmp::Ordering::Equal)
    );
}

#[test]
fn depthkey_mixed_ordering() {
    // Z always ranks above Distance when kinds differ.
    assert!(DepthKey::Z(0) > dist(0.0));
    assert!(DepthKey::Z(-100) > dist(1000.0));
    assert_eq!(
        DepthKey::Z(1).partial_cmp(&dist(1.0)),
        Some(std::cmp::Ordering::Greater)
    );
    assert_eq!(
        dist(1.0).partial_cmp(&DepthKey::Z(1)),
        Some(std::cmp::Ordering::Less)
    );
}

#[test]
fn path_from_dispatch_takes_capture_prefix() {
    let router: Router<Node, Lookup, NoParent> = Router::new(Lookup);
    let hits = vec![hit(3, Some(vec![1, 2, 3]), DepthKey::Z(10))];
    let seq = router.handle_with_hits::<()>(&hits);
    let path = path_from_dispatch(&seq);
    assert_eq!(path, vec![Node(1), Node(2), Node(3)]);
}

#[test]
fn empty_hits_give_empty_dispatch() {
    let router: Router<Node, Lookup, NoParent> = Router::new(Lookup);
    let hits: Vec<ResolvedHit<Node, ()>> = Vec::new();
    let out = router.handle_with_hits::<()>(&hits);
    assert!(out.is_empty());
}

#[test]
fn router_is_deterministic() {
    let router: Router<Node, Lookup, NoParent> = Router::new(Lookup);
    let hits = vec![
        hit(1, Some(vec![1]), DepthKey::Z(5)),
        hit(2, None, DepthKey::Z(7)),
        hit(3, Some(vec![3]), dist(0.5)),
    ];
    let out1 = phases(&router.handle_with_hits::<()>(&hits));
    let out2 = phases(&router.handle_with_hits::<()>(&hits));
    assert_eq!(out1, out2);
}
