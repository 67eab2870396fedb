use depthbook::gate::{sequence_gate, GateDecision};

#[test]
fn stale_when_end_at_or_below_last() {
    assert_eq!(sequence_gate(100, 90, 100, 0), GateDecision::Stale);
    assert_eq!(sequence_gate(100, 95, 99, 100), GateDecision::Stale);
}

#[test]
fn accept_when_window_covers_next() {
    assert_eq!(sequence_gate(100, 95, 101, 0), GateDecision::Accept);
    assert_eq!(sequence_gate(100, 101, 150, 0), GateDecision::Accept);
}

#[test]
fn accept_single_update_diff() {
    assert_eq!(sequence_gate(100, 101, 101, 0), GateDecision::Accept);
}

#[test]
fn accept_on_back_reference_when_window_fails() {
    assert_eq!(sequence_gate(100, 105, 110, 100), GateDecision::Accept);
}

#[test]
fn gap_when_neither_check_holds() {
    assert_eq!(sequence_gate(101, 103, 105, 0), GateDecision::Gap);
    assert_eq!(sequence_gate(101, 103, 105, 99), GateDecision::Gap);
}

#[test]
fn zero_back_reference_does_not_chain() {
    assert_eq!(sequence_gate(0, 5, 9, 0), GateDecision::Gap);
}

#[test]
fn staleness_checked_before_contiguity() {
    // An old re-delivered event whose back-reference happens to match
    // must still be classified stale.
    assert_eq!(sequence_gate(100, 95, 100, 100), GateDecision::Stale);
}
