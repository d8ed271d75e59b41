use bitbank_core::errors::StreamError;
use bitbank_core::reconciler::{DiffEvent, OrderBookReconciler, RawLevel, SnapshotEvent};

fn level(price: &str, qty: &str) -> RawLevel {
    RawLevel { price: price.to_string(), qty: qty.to_string() }
}

fn diff(seq: &str, asks: Vec<(&str, &str)>, bids: Vec<(&str, &str)>) -> DiffEvent {
    DiffEvent {
        asks: asks.into_iter().map(|(p, q)| level(p, q)).collect(),
        bids: bids.into_iter().map(|(p, q)| level(p, q)).collect(),
        sequence: seq.to_string(),
        timestamp: "0".to_string(),
    }
}

fn snapshot(seq: &str, asks: Vec<(&str, &str)>, bids: Vec<(&str, &str)>) -> SnapshotEvent {
    SnapshotEvent {
        asks: asks.into_iter().map(|(p, q)| level(p, q)).collect(),
        bids: bids.into_iter().map(|(p, q)| level(p, q)).collect(),
        sequence: seq.to_string(),
        timestamp: "0".to_string(),
    }
}

fn ask_prices(r: &OrderBookReconciler, depth: usize) -> Vec<(u64, Vec<u8>)> {
    let (asks, _) = r.current_view(depth);
    asks.into_iter().map(|l| (l.price.units, l.price.frac)).collect()
}

fn bid_prices(r: &OrderBookReconciler, depth: usize) -> Vec<(u64, Vec<u8>)> {
    let (_, bids) = r.current_view(depth);
    bids.into_iter().map(|l| (l.price.units, l.price.frac)).collect()
}

#[test]
fn deferred_diff_scenario() {
    // snapshot seq 100 with asks [("10","1")]; a diff with seq 99 that
    // clears "10" is buffered and then discarded when the snapshot
    // arrives; a diff with seq 101 setting "10" to zero is replayed
    // after the snapshot and removes the level: final asks is empty
    let mut r = OrderBookReconciler::new();
    assert!(r.on_diff(&diff("99", vec![("10", "0")], vec![])).is_ok());
    assert!(r.on_diff(&diff("101", vec![("10", "0")], vec![])).is_ok());
    assert!(!r.is_ready());
    assert!(r.on_snapshot(&snapshot("100", vec![("10", "1")], vec![])).is_ok());
    assert!(r.is_ready());
    let (asks, bids) = r.current_view(10);
    assert!(asks.is_empty());
    assert!(bids.is_empty());
}

#[test]
fn stale_diff_alone_is_discarded() {
    // without the later diff, the snapshot's level survives
    let mut r = OrderBookReconciler::new();
    assert!(r.on_diff(&diff("99", vec![("10", "0")], vec![])).is_ok());
    assert!(r.on_snapshot(&snapshot("100", vec![("10", "1")], vec![])).is_ok());
    assert_eq!(ask_prices(&r, 10), vec![(10, vec![])]);
}

#[test]
fn arrival_order_does_not_matter() {
    // the same diffs in two arrival orders give the same book
    let run = |first: &str, second: &str| {
        let mut r = OrderBookReconciler::new();
        r.on_diff(&diff(first, vec![("10", "2")], vec![("9", "1")])).unwrap();
        r.on_diff(&diff(second, vec![("11", "3")], vec![("8", "4")])).unwrap();
        r.on_snapshot(&snapshot("100", vec![("10", "1")], vec![("9", "9")])).unwrap();
        (ask_prices(&r, 10), bid_prices(&r, 10))
    };
    assert_eq!(run("101", "102"), run("102", "101"));
}

#[test]
fn snapshot_twice_is_idempotent() {
    let mut r = OrderBookReconciler::new();
    let s = snapshot("100", vec![("10", "1"), ("11", "2")], vec![("9", "3")]);
    assert!(r.on_snapshot(&s).is_ok());
    let first = (ask_prices(&r, 10), bid_prices(&r, 10));
    assert!(r.on_snapshot(&s).is_ok());
    let second = (ask_prices(&r, 10), bid_prices(&r, 10));
    assert_eq!(first, second);
}

#[test]
fn zero_quantity_removes_present_level() {
    let mut r = OrderBookReconciler::new();
    r.on_snapshot(&snapshot("1", vec![("10", "1"), ("11", "2")], vec![])).unwrap();
    r.on_diff(&diff("2", vec![("10", "0")], vec![])).unwrap();
    assert_eq!(ask_prices(&r, 10), vec![(11, vec![])]);
}

#[test]
fn zero_quantity_on_absent_level_is_noop() {
    let mut r = OrderBookReconciler::new();
    r.on_snapshot(&snapshot("1", vec![("10", "1")], vec![])).unwrap();
    r.on_diff(&diff("2", vec![("99", "0")], vec![])).unwrap();
    assert_eq!(ask_prices(&r, 10), vec![(10, vec![])]);
}

#[test]
fn ready_diff_upserts_levels() {
    let mut r = OrderBookReconciler::new();
    r.on_snapshot(&snapshot("1", vec![("10", "1")], vec![("9", "1")])).unwrap();
    r.on_diff(&diff("2", vec![("10", "5"), ("12", "1")], vec![])).unwrap();
    let (asks, _) = r.current_view(10);
    assert_eq!(asks.len(), 2);
    assert_eq!(asks[0].price.units, 10);
    assert_eq!(asks[0].qty.units, 5);
    assert_eq!(asks[1].price.units, 12);
}

#[test]
fn buffered_duplicate_sequence_last_write_wins() {
    let mut r = OrderBookReconciler::new();
    r.on_diff(&diff("101", vec![("10", "2")], vec![])).unwrap();
    r.on_diff(&diff("101", vec![("10", "3")], vec![])).unwrap();
    r.on_snapshot(&snapshot("100", vec![], vec![])).unwrap();
    let (asks, _) = r.current_view(10);
    assert_eq!(asks.len(), 1);
    assert_eq!(asks[0].qty.units, 3);
}

#[test]
fn replay_is_in_ascending_sequence_order() {
    // the later diff's write must land last, whatever the arrival order
    let mut r = OrderBookReconciler::new();
    r.on_diff(&diff("102", vec![("10", "7")], vec![])).unwrap();
    r.on_diff(&diff("101", vec![("10", "5")], vec![])).unwrap();
    r.on_snapshot(&snapshot("100", vec![], vec![])).unwrap();
    let (asks, _) = r.current_view(10);
    assert_eq!(asks[0].qty.units, 7);
}

#[test]
fn sequence_comparison_is_numeric() {
    // "9" precedes "10" numerically though not lexicographically, so a
    // diff with sequence 9 is discarded by a snapshot with sequence 10
    let mut r = OrderBookReconciler::new();
    r.on_diff(&diff("9", vec![("10", "0")], vec![])).unwrap();
    r.on_snapshot(&snapshot("10", vec![("10", "1")], vec![])).unwrap();
    assert_eq!(ask_prices(&r, 10), vec![(10, vec![])]);
}

#[test]
fn malformed_number_is_fatal_for_the_event() {
    let mut r = OrderBookReconciler::new();
    r.on_snapshot(&snapshot("1", vec![("10", "1")], vec![])).unwrap();
    let before = ask_prices(&r, 10);
    assert_eq!(
        r.on_diff(&diff("2", vec![("10", "x")], vec![])),
        Err(StreamError::ParseError)
    );
    assert_eq!(
        r.on_diff(&diff("oops", vec![("10", "2")], vec![])),
        Err(StreamError::ParseError)
    );
    assert_eq!(ask_prices(&r, 10), before);
}

#[test]
fn snapshot_zero_row_is_a_protocol_violation() {
    let mut r = OrderBookReconciler::new();
    assert_eq!(
        r.on_snapshot(&snapshot("1", vec![("10", "0")], vec![])),
        Err(StreamError::ProtocolViolation)
    );
    assert!(!r.is_ready());
}

#[test]
fn snapshot_malformed_number_is_a_parse_error() {
    let mut r = OrderBookReconciler::new();
    assert_eq!(
        r.on_snapshot(&snapshot("1", vec![("ten", "1")], vec![])),
        Err(StreamError::ParseError)
    );
    assert!(!r.is_ready());
}

#[test]
fn view_orders_asks_ascending_bids_descending() {
    let mut r = OrderBookReconciler::new();
    r.on_snapshot(&snapshot(
        "1",
        vec![("10.5", "1"), ("10.05", "1"), ("11", "1")],
        vec![("9.9", "1"), ("10", "1"), ("9", "1")],
    ))
    .unwrap();
    let asks = ask_prices(&r, 10);
    assert_eq!(asks, vec![(10, vec![0, 5]), (10, vec![5]), (11, vec![])]);
    let bids = bid_prices(&r, 10);
    assert_eq!(bids, vec![(10, vec![]), (9, vec![9]), (9, vec![])]);
}

#[test]
fn view_depth_truncates() {
    let mut r = OrderBookReconciler::new();
    r.on_snapshot(&snapshot(
        "1",
        vec![("1", "1"), ("2", "1"), ("3", "1")],
        vec![("1", "1"), ("2", "1"), ("3", "1")],
    ))
    .unwrap();
    assert_eq!(ask_prices(&r, 2), vec![(1, vec![]), (2, vec![])]);
    assert_eq!(bid_prices(&r, 2), vec![(3, vec![]), (2, vec![])]);
    assert_eq!(ask_prices(&r, 0).len(), 0);
}

#[test]
fn equal_prices_in_different_spellings_are_one_level() {
    let mut r = OrderBookReconciler::new();
    r.on_snapshot(&snapshot("1", vec![("10.50", "1")], vec![])).unwrap();
    r.on_diff(&diff("2", vec![("10.5", "4")], vec![])).unwrap();
    let (asks, _) = r.current_view(10);
    assert_eq!(asks.len(), 1);
    assert_eq!(asks[0].qty.units, 4);
}

#[test]
fn reconnect_resets_readiness_and_buffer() {
    let mut r = OrderBookReconciler::new();
    r.on_snapshot(&snapshot("1", vec![("10", "1")], vec![])).unwrap();
    assert!(r.is_ready());
    r.on_reconnect();
    assert!(!r.is_ready());
    // diffs buffer again until the next snapshot
    r.on_diff(&diff("5", vec![("10", "0")], vec![])).unwrap();
    r.on_snapshot(&snapshot("4", vec![("10", "2")], vec![])).unwrap();
    assert!(r.is_ready());
    assert!(ask_prices(&r, 10).is_empty());
}

#[test]
fn diffs_before_first_snapshot_only_buffer() {
    let mut r = OrderBookReconciler::new();
    r.on_diff(&diff("1", vec![("10", "1")], vec![])).unwrap();
    r.on_diff(&diff("2", vec![("11", "1")], vec![])).unwrap();
    assert!(!r.is_ready());
}
