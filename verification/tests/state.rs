use trellis::staging::state::{segment_state_counts, SegmentState};

#[test]
fn seal_is_the_only_edge_out_of_active() {
    assert!(SegmentState::Active.can_transition_to(SegmentState::Sealed));
    assert!(!SegmentState::Active.can_transition_to(SegmentState::Draining));
    assert!(!SegmentState::Active.can_transition_to(SegmentState::Drained));
    assert!(!SegmentState::Active.can_transition_to(SegmentState::Active));
}

#[test]
fn draining_can_reclaim_back_to_sealed_or_advance_to_drained() {
    assert!(SegmentState::Draining.can_transition_to(SegmentState::Sealed));
    assert!(SegmentState::Draining.can_transition_to(SegmentState::Drained));
    assert!(!SegmentState::Draining.can_transition_to(SegmentState::Active));
}

#[test]
fn sql_round_trips() {
    for state in [
        SegmentState::Active,
        SegmentState::Sealed,
        SegmentState::Draining,
        SegmentState::Drained,
    ] {
        assert_eq!(SegmentState::from_sql(state.as_sql()), Some(state));
    }
    assert_eq!(SegmentState::from_sql("bogus"), None);
}

#[test]
fn counts_name_every_state_and_pass_over_unknown_ones() {
    let rows = vec![
        ("drained".to_string(), 7),
        ("bogus".to_string(), 99),
        ("active".to_string(), 1),
    ];
    assert_eq!(
        segment_state_counts(&rows),
        [
            (SegmentState::Active, 1),
            (SegmentState::Sealed, 0),
            (SegmentState::Draining, 0),
            (SegmentState::Drained, 7),
        ]
    );
}

#[test]
fn drained_is_final() {
    for next in [
        SegmentState::Active,
        SegmentState::Sealed,
        SegmentState::Draining,
        SegmentState::Drained,
    ] {
        assert!(!SegmentState::Drained.can_transition_to(next));
        assert!(!next.can_transition_to(next));
    }
}
