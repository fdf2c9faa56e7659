use understory::{HoverEvent, HoverState};

// Fresh path: expect outer-to-inner enters.
#[test]
fn hover_enter_on_fresh_path() {
    let mut h: HoverState<u32> = HoverState::new();
    let ev = h.update_path(&[1, 2, 3]);
    assert_eq!(
        ev,
        vec![
            HoverEvent::Enter(1),
            HoverEvent::Enter(2),
            HoverEvent::Enter(3)
        ]
    );
    assert_eq!(h.current_path(), &[1, 2, 3]);
}

// Clearing path: expect inner-to-outer leaves.
#[test]
fn hover_leave_to_empty() {
    let mut h: HoverState<u32> = HoverState::new();
    let _ = h.update_path(&[1, 2]);
    let ev = h.clear();
    assert_eq!(ev, vec![HoverEvent::Leave(2), HoverEvent::Leave(1)]);
    assert!(h.current_path().is_empty());
}

// Branch change with shallow common prefix: leave inner tail, then enter new branch.
#[test]
fn hover_branch_change() {
    let mut h: HoverState<u32> = HoverState::new();
    let _ = h.update_path(&[1, 2, 3]);
    let ev = h.update_path(&[1, 4]);
    assert_eq!(
        ev,
        vec![
            HoverEvent::Leave(3),
            HoverEvent::Leave(2),
            HoverEvent::Enter(4)
        ]
    );
    assert_eq!(h.current_path(), &[1, 4]);
}

// Disjoint paths: no common prefix, leave entire old path, enter entire new path.
#[test]
fn hover_disjoint_paths() {
    let mut h: HoverState<u32> = HoverState::new();
    let _ = h.update_path(&[1, 2, 3]);
    let ev = h.update_path(&[4, 5]);
    assert_eq!(
        ev,
        vec![
            HoverEvent::Leave(3),
            HoverEvent::Leave(2),
            HoverEvent::Leave(1),
            HoverEvent::Enter(4),
            HoverEvent::Enter(5),
        ]
    );
    assert_eq!(h.current_path(), &[4, 5]);
}

// Deep common prefix: shared [1,2,3], tails [4,5] then [9,10].
#[test]
fn hover_deep_lca() {
    let mut h: HoverState<u32> = HoverState::new();
    let _ = h.update_path(&[1, 2, 3, 4, 5]);
    let ev = h.update_path(&[1, 2, 3, 9, 10]);
    assert_eq!(
        ev,
        vec![
            HoverEvent::Leave(5),
            HoverEvent::Leave(4),
            HoverEvent::Enter(9),
            HoverEvent::Enter(10),
        ]
    );
    assert_eq!(h.current_path(), &[1, 2, 3, 9, 10]);
}

// Same path repeated: no transitions.
#[test]
fn hover_same_path_no_events() {
    let mut h: HoverState<u32> = HoverState::new();
    let first = h.update_path(&[7, 8]);
    assert_eq!(first, vec![HoverEvent::Enter(7), HoverEvent::Enter(8)]);
    let second = h.update_path(&[7, 8]);
    assert!(second.is_empty());
    assert_eq!(h.current_path(), &[7, 8]);
}
