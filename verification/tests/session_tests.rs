use depthbook::book::{Level, Side};
use depthbook::clock::now_ms;
use depthbook::session::{ApplyOutcome, DiffEvent, RawLevel, Session};

fn raw(price: &str, size: &str) -> RawLevel {
    RawLevel { price: price.to_string(), size: size.to_string() }
}

fn event(
    start: i64,
    end: i64,
    prev_final: i64,
    bid_deltas: Vec<RawLevel>,
    ask_deltas: Vec<RawLevel>,
) -> DiffEvent {
    DiffEvent { start, end, prev_final, bid_deltas, ask_deltas }
}

#[test]
fn bridge_event_overlapping_snapshot_is_applied() {
    let mut s = Session::new();
    s.load_snapshot(100, &vec![raw("10.0", "1.0")], &Vec::new());
    assert_eq!(s.last_id, 100);
    let ev = event(95, 101, 0, vec![raw("10.0", "2.0")], Vec::new());
    assert_eq!(s.apply_event(&ev), ApplyOutcome::Applied);
    assert_eq!(s.last_id, 101);
    let bids = s.top(Side::Bid, 10);
    assert_eq!(bids, vec![Level { price: 1_000_000_000, size: 200_000_000 }]);
}

#[test]
fn missing_ids_give_a_gap_and_leave_state_untouched() {
    let mut s = Session::new();
    s.load_snapshot(100, &vec![raw("10.0", "1.0")], &Vec::new());
    let ev = event(95, 101, 0, vec![raw("10.0", "2.0")], Vec::new());
    assert_eq!(s.apply_event(&ev), ApplyOutcome::Applied);
    let gap = event(103, 105, 0, vec![raw("10.0", "9.0")], Vec::new());
    assert_eq!(s.apply_event(&gap), ApplyOutcome::Gap);
    assert_eq!(s.last_id, 101);
    let bids = s.top(Side::Bid, 10);
    assert_eq!(bids, vec![Level { price: 1_000_000_000, size: 200_000_000 }]);
}

#[test]
fn stale_event_is_ignored_without_error() {
    let mut s = Session::new();
    s.load_snapshot(100, &vec![raw("10.0", "1.0")], &Vec::new());
    let old = event(90, 100, 0, vec![raw("10.0", "8.0")], Vec::new());
    assert_eq!(s.apply_event(&old), ApplyOutcome::Stale);
    assert_eq!(s.last_id, 100);
    let bids = s.top(Side::Bid, 10);
    assert_eq!(bids, vec![Level { price: 1_000_000_000, size: 100_000_000 }]);
}

#[test]
fn back_reference_bridges_when_window_fails() {
    let mut s = Session::new();
    s.load_snapshot(101, &Vec::new(), &Vec::new());
    let ev = event(150, 160, 101, Vec::new(), vec![raw("9.5", "3.0")]);
    assert_eq!(s.apply_event(&ev), ApplyOutcome::Applied);
    assert_eq!(s.last_id, 160);
    let asks = s.top(Side::Ask, 10);
    assert_eq!(asks, vec![Level { price: 950_000_000, size: 300_000_000 }]);
}

#[test]
fn removal_delta_clears_the_level() {
    let mut s = Session::new();
    s.load_snapshot(100, &vec![raw("10.0", "1.0")], &Vec::new());
    let ev = event(101, 101, 0, vec![raw("10.0", "0.0")], Vec::new());
    assert_eq!(s.apply_event(&ev), ApplyOutcome::Applied);
    let bids = s.top(Side::Bid, 1);
    assert!(bids.is_empty());
}

#[test]
fn empty_side_top_returns_empty_not_error() {
    let s = Session::new();
    let bids = s.top(Side::Bid, 5);
    let asks = s.top(Side::Ask, 5);
    assert!(bids.is_empty());
    assert!(asks.is_empty());
}

#[test]
fn malformed_levels_are_dropped_not_defaulted() {
    let mut s = Session::new();
    s.load_snapshot(
        100,
        &vec![raw("abc", "1.0"), raw("10.0", "1e3"), raw("10.0", "1.0")],
        &Vec::new(),
    );
    let bids = s.top(Side::Bid, 10);
    assert_eq!(bids, vec![Level { price: 1_000_000_000, size: 100_000_000 }]);
    let ev = event(101, 102, 0, vec![raw("NaN", "2.0"), raw("11.0", "..")], Vec::new());
    assert_eq!(s.apply_event(&ev), ApplyOutcome::Applied);
    assert_eq!(s.top(Side::Bid, 10), bids);
}

#[test]
fn clock_reads_after_the_epoch() {
    assert!(now_ms() > 0);
}
