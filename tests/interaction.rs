use hexbattle::interaction::{Anchor, InteractionState};
use hexbattle::pos::Pos;

fn setup_test_state() -> InteractionState {
    let anchors = vec![
        Anchor { pos: Pos::new(0, 0) },
        Anchor { pos: Pos::new(100, 0) },
        Anchor { pos: Pos::new(50, 100) },
    ];
    InteractionState::with_anchors(anchors)
}

#[test]
fn test_start_drag_on_empty_space() {
    let mut state = InteractionState::new();
    let result = state.try_start_drag(Pos::new(50, 50));
    assert!(result.is_none());
    assert_eq!(state.anchors.len(), 1);
    assert_eq!(state.anchors[0].pos.x, 50);
    assert_eq!(state.anchors[0].pos.y, 50);
}

#[test]
fn test_start_drag_on_existing_anchor() {
    let mut state = setup_test_state();
    let result = state.try_start_drag(Pos::new(1, 1)); // Within 10 units of (0, 0)
    assert_eq!(result, Some(0));
    assert_eq!(state.dragged_anchor, Some(0));
    assert_eq!(state.anchors.len(), 3); // No new anchor added
}

#[test]
fn test_create_valid_edge() {
    let mut state = setup_test_state();
    state.try_start_drag(Pos::new(1, 1)); // Start dragging first anchor
    let result = state.try_end_drag(Pos::new(99, 1)); // End near second anchor
    assert_eq!(result, Some((0, 1)));
    assert_eq!(state.edges.len(), 1);
    assert_eq!(state.edges[0], (0, 1));
}

#[test]
fn test_prevent_self_edge() {
    let mut state = setup_test_state();
    state.try_start_drag(Pos::new(1, 1)); // Start dragging first anchor
    let result = state.try_end_drag(Pos::new(1, 1)); // End on same anchor
    assert!(result.is_none());
    assert_eq!(state.edges.len(), 0);
}

#[test]
fn test_prevent_duplicate_edge() {
    let mut state = setup_test_state();
    // Create first edge
    state.try_start_drag(Pos::new(1, 1));
    state.try_end_drag(Pos::new(99, 1));
    // Try to create same edge again
    state.try_start_drag(Pos::new(1, 1));
    let result = state.try_end_drag(Pos::new(99, 1));
    assert!(result.is_none());
    assert_eq!(state.edges.len(), 1);
}

#[test]
fn test_prevent_intersecting_edges() {
    let mut state = setup_test_state();
    // Create first edge from (0,0) to (100,0)
    state.try_start_drag(Pos::new(1, 1));
    state.try_end_drag(Pos::new(99, 1));
    // Try to create intersecting edge from (50,100) to (50,-100)
    state.try_start_drag(Pos::new(50, 100));
    let result = state.try_end_drag(Pos::new(50, -100));
    assert!(result.is_none());
    assert_eq!(state.edges.len(), 1);
}

#[test]
fn test_clear_edges() {
    let mut state = setup_test_state();
    // Create an edge
    state.try_start_drag(Pos::new(1, 1));
    state.try_end_drag(Pos::new(99, 1));
    assert_eq!(state.edges.len(), 1);
    // Clear edges
    state.clear_edges();
    assert_eq!(state.edges.len(), 0);
}

#[test]
fn test_randomize_edges() {
    let mut state = setup_test_state();
    state.randomize_edges();
    assert!(!state.edges.is_empty());
    // Check that no edge connects an anchor to itself
    for (from, to) in &state.edges {
        assert_ne!(from, to);
    }
}

#[test]
fn test_is_dragging_intersecting() {
    let mut state = setup_test_state();
    // Create horizontal edge from (0,0) to (100,0)
    state.try_start_drag(Pos::new(1, 1));
    state.try_end_drag(Pos::new(99, 1));

    // Start new drag from top point
    state.try_start_drag(Pos::new(50, 100));
    // Check if dragging through the horizontal line intersects
    assert!(state.is_dragging_intersecting(Pos::new(50, -100)));
    // Check if dragging parallel doesn't intersect
    assert!(!state.is_dragging_intersecting(Pos::new(150, 100)));
}

#[test]
fn test_edge_and_anchor_count() {
    let mut state = setup_test_state();
    assert_eq!(state.anchor_count(), 3);
    assert_eq!(state.edge_count(), 0);

    state.try_start_drag(Pos::new(1, 1));
    state.try_end_drag(Pos::new(99, 1));
    assert_eq!(state.edge_count(), 1);

    // Add a new anchor by dragging from empty space
    state.try_start_drag(Pos::new(200, 200));
    assert_eq!(state.anchor_count(), 4);
}

#[test]
fn test_remove_anchor_with_no_edges() {
    let mut state = setup_test_state();
    assert!(state.remove_anchor(1));
    assert_eq!(state.anchor_count(), 2);
    assert_eq!(state.edge_count(), 0);
}

#[test]
fn test_remove_anchor_with_edges() {
    let mut state = setup_test_state();
    // Create two edges: (0,1) and (1,2)
    state.try_start_drag(Pos::new(1, 1));
    state.try_end_drag(Pos::new(99, 1));
    state.try_start_drag(Pos::new(99, 1));
    state.try_end_drag(Pos::new(50, 100));
    assert_eq!(state.edge_count(), 2);

    // Remove middle anchor (index 1)
    assert!(state.remove_anchor(1));
    assert_eq!(state.anchor_count(), 2);
    assert_eq!(state.edge_count(), 0); // Both edges should be removed
}

#[test]
fn test_remove_anchor_updates_edge_indices() {
    let mut state = setup_test_state();
    // Create edge from last to first anchor: (2,0)
    state.try_start_drag(Pos::new(50, 100));
    state.try_end_drag(Pos::new(1, 1));
    assert_eq!(state.edge_count(), 1);

    // Remove middle anchor (index 1)
    assert!(state.remove_anchor(1));
    // Edge indices should be updated: (2,0) -> (1,0)
    assert_eq!(state.edges[0], (1, 0));
}

#[test]
fn test_remove_invalid_anchor() {
    let mut state = setup_test_state();
    assert!(!state.remove_anchor(999)); // Invalid index
    assert_eq!(state.anchor_count(), 3); // No change
}

#[test]
fn test_drag_after_anchor_removal() {
    let mut state = setup_test_state();
    state.remove_anchor(1);
    // Try to drag remaining anchors
    let result = state.try_start_drag(Pos::new(1, 1));
    assert_eq!(result, Some(0)); // Should still work with updated indices
}

#[test]
fn test_randomize_edges_distribution() {
    let mut state = setup_test_state();
    // Run randomization multiple times to check distribution
    let mut edge_counts = vec![0; 6]; // For 3 anchors, max 6 possible edges
    for _ in 0..100 {
        state.randomize_edges();
        assert!(state.edge_count() > 0); // Should always create some edges
        for (from, to) in &state.edges {
            let edge_index = from * 2 + to;
            edge_counts[edge_index] += 1;
        }
    }
    // Check that all possible edges were used at least once
    assert!(edge_counts.iter().any(|&count| count > 0));
}

#[test]
fn first_anchor_in_order_wins_a_tie() {
    let anchors = vec![
        Anchor { pos: Pos::new(0, 0) },
        Anchor { pos: Pos::new(6, 0) },
    ];
    let mut state = InteractionState::with_anchors(anchors);
    assert_eq!(state.try_start_drag(Pos::new(3, 0)), Some(0));
    assert_eq!(state.anchor_count(), 2);
}

#[test]
fn hit_radius_is_exclusive() {
    let mut state = setup_test_state();
    // exactly 10 units from (0, 0): a miss, so a new anchor is placed
    assert_eq!(state.try_start_drag(Pos::new(10, 0)), None);
    assert_eq!(state.anchor_count(), 4);
    assert_eq!(state.anchors[3].pos, Pos::new(10, 0));
    assert_eq!(state.dragged_anchor, None);
    // just inside: 6^2 + 7^2 = 85 < 100
    assert_eq!(state.try_start_drag(Pos::new(106, 7)), Some(1));
}

#[test]
fn end_drag_without_drag_makes_no_edge() {
    let mut state = setup_test_state();
    assert_eq!(state.try_end_drag(Pos::new(99, 1)), None);
    assert_eq!(state.edge_count(), 0);
    assert_eq!(state.dragged_anchor, None);
}

#[test]
fn end_drag_on_empty_space_makes_no_edge_and_ends_drag() {
    let mut state = setup_test_state();
    state.try_start_drag(Pos::new(1, 1));
    assert_eq!(state.try_end_drag(Pos::new(300, 300)), None);
    assert_eq!(state.edge_count(), 0);
    assert_eq!(state.dragged_anchor, None);
    assert_eq!(state.anchor_count(), 3);
}

#[test]
fn reverse_pair_is_a_distinct_edge() {
    let mut state = setup_test_state();
    state.try_start_drag(Pos::new(1, 1));
    assert_eq!(state.try_end_drag(Pos::new(99, 1)), Some((0, 1)));
    state.try_start_drag(Pos::new(99, 1));
    assert_eq!(state.try_end_drag(Pos::new(1, 1)), Some((1, 0)));
    assert_eq!(state.edges, vec![(0, 1), (1, 0)]);
}

#[test]
fn edges_sharing_an_anchor_do_not_block() {
    let mut state = setup_test_state();
    state.try_start_drag(Pos::new(1, 1));
    state.try_end_drag(Pos::new(99, 1));
    state.try_start_drag(Pos::new(1, 1));
    assert_eq!(state.try_end_drag(Pos::new(50, 100)), Some((0, 2)));
    assert_eq!(state.edges, vec![(0, 1), (0, 2)]);
}

#[test]
fn not_dragging_is_never_intersecting() {
    let mut state = setup_test_state();
    state.try_start_drag(Pos::new(1, 1));
    state.try_end_drag(Pos::new(99, 1));
    assert!(!state.is_dragging_intersecting(Pos::new(50, -100)));
}

#[test]
fn remove_anchor_shifts_higher_indices_down() {
    let anchors = vec![
        Anchor { pos: Pos::new(0, 0) },
        Anchor { pos: Pos::new(100, 0) },
        Anchor { pos: Pos::new(100, 100) },
        Anchor { pos: Pos::new(0, 100) },
    ];
    let mut state = InteractionState::with_anchors(anchors);
    state.try_start_drag(Pos::new(0, 0));
    state.try_end_drag(Pos::new(100, 100)); // (0, 2)
    state.try_start_drag(Pos::new(100, 100));
    state.try_end_drag(Pos::new(0, 100)); // (2, 3)
    state.try_start_drag(Pos::new(100, 0));
    state.try_end_drag(Pos::new(100, 100)); // (1, 2)
    assert_eq!(state.edges, vec![(0, 2), (2, 3), (1, 2)]);
    assert!(state.remove_anchor(1));
    assert_eq!(state.edges, vec![(0, 1), (1, 2)]);
    assert_eq!(state.anchors[1].pos, Pos::new(100, 100));
}

#[test]
fn remove_dragged_anchor_ends_the_drag() {
    let mut state = setup_test_state();
    state.try_start_drag(Pos::new(50, 100));
    assert_eq!(state.dragged_anchor, Some(2));
    assert!(state.remove_anchor(2));
    assert_eq!(state.dragged_anchor, None);

    let mut state = setup_test_state();
    state.try_start_drag(Pos::new(50, 100));
    assert!(state.remove_anchor(0));
    assert_eq!(state.dragged_anchor, Some(1));
}

#[test]
fn randomize_on_one_anchor_changes_nothing() {
    let mut state = InteractionState::with_anchors(vec![Anchor { pos: Pos::new(0, 0) }]);
    state.randomize_edges();
    assert_eq!(state.edge_count(), 0);
    let mut empty = InteractionState::new();
    empty.randomize_edges();
    assert_eq!(empty.edge_count(), 0);
}

#[test]
fn randomize_on_two_anchors_gives_valid_edges() {
    let mut state = InteractionState::with_anchors(vec![
        Anchor { pos: Pos::new(0, 0) },
        Anchor { pos: Pos::new(50, 0) },
    ]);
    for _ in 0..50 {
        state.randomize_edges();
        assert!(state.edge_count() >= 1 && state.edge_count() <= 2);
        for (from, to) in &state.edges {
            assert!(*from < 2 && *to < 2 && from != to);
        }
    }
}

#[test]
fn randomize_with_draws_is_exact() {
    let mut state = setup_test_state();
    // first edge from 2 to the other anchor drawn as 1 (skipping 2 itself: index 1)
    // then anchor 0 draws 1, anchor 1 draws 1 (self-loop), anchor 2 draws 1 (duplicate)
    state.randomize_edges_with(2, 1, &vec![1, 1, 1]);
    assert_eq!(state.edges, vec![(2, 1), (0, 1)]);
    // a draw at or above the first index skips over it
    state.randomize_edges_with(0, 0, &vec![2, 0, 0]);
    assert_eq!(state.edges, vec![(0, 1), (0, 2), (1, 0), (2, 0)]);
}

#[test]
fn random_edges_may_cross_and_are_reported() {
    let anchors = vec![
        Anchor { pos: Pos::new(0, 0) },
        Anchor { pos: Pos::new(100, 100) },
        Anchor { pos: Pos::new(0, 100) },
        Anchor { pos: Pos::new(100, 0) },
    ];
    let mut state = InteractionState::with_anchors(anchors);
    // the two diagonals: (0, 1) then anchor 2 draws 3
    state.randomize_edges_with(0, 0, &vec![0, 1, 3, 3]);
    assert_eq!(state.edges, vec![(0, 1), (2, 3)]);
    assert!(state.is_edge_crossed(0));
    assert!(state.is_edge_crossed(1));
    state.clear_edges();
    state.try_start_drag(Pos::new(0, 0));
    state.try_end_drag(Pos::new(0, 100));
    assert!(!state.is_edge_crossed(0));
}

#[test]
fn move_anchors_keeps_edges_and_stays_in_range() {
    let mut state = InteractionState::with_anchors(vec![
        Anchor { pos: Pos::new(0, 0) },
        Anchor { pos: Pos::new(i16::MAX, i16::MIN) },
    ]);
    state.try_start_drag(Pos::new(0, 0));
    state.try_end_drag(Pos::new(i16::MAX, i16::MIN));
    state.move_anchors_by(&vec![(1, -1), (1, -1)]);
    assert_eq!(state.anchors[0].pos, Pos::new(1, -1));
    assert_eq!(state.anchors[1].pos, Pos::new(i16::MAX, i16::MIN));
    assert_eq!(state.edges, vec![(0, 1)]);
}

#[test]
fn wiggle_moves_each_anchor_by_at_most_one() {
    let mut state = setup_test_state();
    let before: Vec<Pos> = state.anchors.iter().map(|a| a.pos).collect();
    for _ in 0..20 {
        state.wiggle_anchors();
    }
    let after: Vec<Pos> = state.anchors.iter().map(|a| a.pos).collect();
    assert_eq!(after.len(), 3);
    for (b, a) in before.iter().zip(after.iter()) {
        assert!((a.x - b.x).abs() <= 20 && (a.y - b.y).abs() <= 20);
    }
    let mut once = setup_test_state();
    once.wiggle_anchors();
    for (b, a) in before.iter().zip(once.anchors.iter()) {
        assert!((a.pos.x - b.x).abs() <= 1 && (a.pos.y - b.y).abs() <= 1);
    }
}
