//! Order books: bridging, diffs, trimming and the state of each symbol.

use binance_futures_collector::collectors::attach::{
    find_bridge, normalize_messages_for_attach, BridgeRule,
};
use binance_futures_collector::collectors::book::{best_levels, price_key, trim_side};
use binance_futures_collector::collectors::orderbook_manager::{
    seconds_to_nanos, snapshot_order, snapshot_rows, state_name, AttachOutcome, LevelError,
    ManageStep, Orderbook, OrderbookManager, OrderbookState, ResnapshotReason,
};
use binance_futures_collector::config::OrderbookConfig;
use binance_futures_collector::models::{DepthSnapshotRest, DepthUpdateWs};
use std::collections::HashMap;

const SECOND: u64 = 1_000_000_000;

fn empty_book() -> Orderbook {
    Orderbook {
        symbol: "testusdt".to_string(),
        last_update_id: 0,
        bids: HashMap::new(),
        asks: HashMap::new(),
        last_processed_time: 0,
    }
}

fn texts(levels: &[(f64, f64)]) -> Vec<[String; 2]> {
    levels.iter().map(|(p, q)| [p.to_string(), q.to_string()]).collect()
}

fn values(levels: &[[String; 2]]) -> Vec<Option<(u64, u64)>> {
    levels
        .iter()
        .map(|[p, q]| match (p.parse::<f64>(), q.parse::<f64>()) {
            (Ok(p), Ok(q)) => Some((p.to_bits(), q.to_bits())),
            _ => None,
        })
        .collect()
}

fn bits(levels: &[(f64, f64)]) -> Vec<(u64, u64)> {
    levels.iter().map(|(p, q)| (p.to_bits(), q.to_bits())).collect()
}

fn update(u: u64, bids: &[(f64, f64)], asks: &[(f64, f64)]) -> DepthUpdateWs {
    let bids = texts(bids);
    let asks = texts(asks);
    DepthUpdateWs {
        event_type: "depthUpdate".to_string(),
        event_time: u as i64,
        transaction_time: u as i64,
        symbol: "TESTUSDT".to_string(),
        first_update_id: u,
        final_update_id: u,
        prev_update_id: u.saturating_sub(1),
        bid_values: values(&bids),
        ask_values: values(&asks),
        bids,
        asks,
        b_floats: None,
        a_floats: None,
    }
}

// A diff with explicit U / u / pu for bridge-rule tests.
fn bridge_diff(first_u: u64, final_u: u64, prev_u: u64) -> DepthUpdateWs {
    let mut d = update(final_u, &[], &[]);
    d.first_update_id = first_u;
    d.final_update_id = final_u;
    d.prev_update_id = prev_u;
    d
}

fn apply(book: &mut Orderbook, u: &DepthUpdateWs) -> Result<(), LevelError> {
    OrderbookManager::apply_update_to_book(book, u, 1)
}

#[test]
fn bridge_rule1_perfect_continuity() {
    // snapshot_u = 100; a diff starting at U = 101 (== snapshot_u + 1) bridges.
    let diffs = [bridge_diff(101, 110, 100)];
    assert_eq!(
        find_bridge(100, &diffs),
        Some((0, BridgeRule::PerfectContinuity))
    );
}

#[test]
fn bridge_rule2_pu_attach() {
    // Rule 1 fails (U = 110 > snapshot_u + 1), but the snapshot at 105 falls
    // inside the pu..U window (pu = 100 <= 105 < 110): pu-attach.
    let diffs = [bridge_diff(110, 120, 100)];
    assert_eq!(find_bridge(105, &diffs), Some((0, BridgeRule::PuAttach)));
}

#[test]
fn bridge_skips_diffs_covered_by_snapshot() {
    // The first two diffs end at/before snapshot_u = 100; the third bridges.
    let diffs = [
        bridge_diff(90, 95, 89),
        bridge_diff(96, 100, 95),
        bridge_diff(101, 110, 100),
    ];
    assert_eq!(
        find_bridge(100, &diffs),
        Some((2, BridgeRule::PerfectContinuity))
    );
}

#[test]
fn bridge_none_when_snapshot_unbridgeable() {
    // A hole: snapshot ends at 100 but the buffer starts at U = 200 (pu = 199),
    // so neither rule matches: the snapshot is too old to attach.
    let diffs = [bridge_diff(200, 210, 199)];
    assert_eq!(find_bridge(100, &diffs), None);
}

#[test]
fn bridge_rules_have_labels() {
    assert_eq!(BridgeRule::PerfectContinuity.label(), "perfect continuity");
    assert_eq!(BridgeRule::PuAttach.label(), "pu-based attach");
}

fn best_bid(book: &Orderbook) -> Option<f64> {
    book.bids
        .keys()
        .map(|b| f64::from_bits(*b))
        .max_by(|a, b| a.total_cmp(b))
}

fn best_ask(book: &Orderbook) -> Option<f64> {
    book.asks
        .keys()
        .map(|b| f64::from_bits(*b))
        .min_by(|a, b| a.total_cmp(b))
}

#[test]
fn diff_inserts_updates_and_removes_levels() {
    let mut book = empty_book();

    // Insert two levels each side.
    let u1 = update(
        10,
        &[(100.0, 1.5), (99.5, 2.0)],
        &[(100.5, 1.0), (101.0, 3.0)],
    );
    apply(&mut book, &u1).unwrap();
    assert_eq!(book.bids.len(), 2);
    assert_eq!(book.asks.len(), 2);
    assert_eq!(book.last_update_id, 10);
    assert_eq!(best_bid(&book), Some(100.0));
    assert_eq!(best_ask(&book), Some(100.5));

    // Replace a quantity and delete a level with qty 0.
    let u2 = update(11, &[(100.0, 0.7), (99.5, 0.0)], &[]);
    apply(&mut book, &u2).unwrap();
    assert_eq!(book.bids.len(), 1);
    assert_eq!(f64::from_bits(book.bids[&100.0f64.to_bits()]), 0.7);
    assert_eq!(book.last_update_id, 11);
}

#[test]
fn diff_prefers_preconverted_floats() {
    let mut book = empty_book();
    let mut u = update(5, &[(1.0, 1.0)], &[]);
    // When floats are present, the string levels must be ignored.
    u.b_floats = Some(bits(&[(2.0, 9.0)]));
    apply(&mut book, &u).unwrap();
    assert_eq!(book.bids.len(), 1);
    assert_eq!(f64::from_bits(book.bids[&2.0f64.to_bits()]), 9.0);
}

#[test]
fn diff_rejects_unparseable_levels() {
    let mut book = empty_book();
    let mut u = update(5, &[], &[]);
    u.bids = vec![["not-a-price".to_string(), "1.0".to_string()]];
    u.bid_values = values(&u.bids);
    assert!(apply(&mut book, &u).is_err());
}

#[test]
fn unreadable_levels_name_their_side() {
    let mut book = empty_book();
    let mut u = update(5, &[(1.0, 2.0)], &[]);
    u.ask_values = vec![None];
    assert_eq!(apply(&mut book, &u), Err(LevelError::Ask));
    // The bids were applied, but the book has not moved on.
    assert_eq!(book.bids.len(), 1);
    assert_eq!(book.last_update_id, 0);
    u.bid_values = vec![Some((1, 1)), None, Some((2, 2))];
    assert_eq!(apply(&mut book, &u), Err(LevelError::Bid));
}

#[test]
fn negative_zero_quantity_deletes_too() {
    let mut book = empty_book();
    apply(&mut book, &update(1, &[(5.0, 1.0)], &[])).unwrap();
    apply(&mut book, &update(2, &[(5.0, -0.0)], &[])).unwrap();
    assert!(book.bids.is_empty());
}

#[test]
fn applying_a_diff_twice_changes_nothing_more() {
    let diff = update(9, &[(3.0, 1.0), (4.0, 0.0), (3.0, 2.0)], &[(6.0, 1.0)]);
    let mut once = empty_book();
    apply(&mut once, &diff).unwrap();
    let mut twice = once.clone();
    apply(&mut twice, &diff).unwrap();
    assert_eq!(once.bids, twice.bids);
    assert_eq!(once.asks, twice.asks);
    // The last mention of a price counts.
    assert_eq!(f64::from_bits(once.bids[&3.0f64.to_bits()]), 2.0);
}

#[test]
fn trim_keeps_best_levels_on_both_sides() {
    let mut book = empty_book();
    // 10 bids at 90..99 and 10 asks at 101..110.
    for i in 0..10 {
        book.bids.insert((90.0 + i as f64).to_bits(), 1.0f64.to_bits());
        book.asks.insert((101.0 + i as f64).to_bits(), 1.0f64.to_bits());
    }

    OrderbookManager::trim_book_to_depth(3, &mut book);

    // Bids keep the HIGHEST prices, asks the LOWEST, so the touch survives.
    let mut bids: Vec<f64> = book.bids.keys().map(|b| f64::from_bits(*b)).collect();
    let mut asks: Vec<f64> = book.asks.keys().map(|b| f64::from_bits(*b)).collect();
    bids.sort_by(|a, b| a.total_cmp(b));
    asks.sort_by(|a, b| a.total_cmp(b));
    assert_eq!(bids, vec![97.0, 98.0, 99.0]);
    assert_eq!(asks, vec![101.0, 102.0, 103.0]);
    assert!(best_bid(&book).unwrap() < best_ask(&book).unwrap());
}

#[test]
fn trim_is_noop_within_depth() {
    let mut book = empty_book();
    book.bids.insert(100.0f64.to_bits(), 1.0f64.to_bits());
    book.asks.insert(101.0f64.to_bits(), 1.0f64.to_bits());
    OrderbookManager::trim_book_to_depth(50, &mut book);
    assert_eq!(book.bids.len(), 1);
    assert_eq!(book.asks.len(), 1);
}

#[test]
fn trimming_twice_is_trimming_once() {
    let mut side: HashMap<u64, u64> = HashMap::new();
    for i in 0..7 {
        side.insert((1.0 + i as f64).to_bits(), 1);
    }
    trim_side(true, 4, &mut side);
    let once = side.clone();
    trim_side(true, 4, &mut side);
    assert_eq!(side, once);
    assert_eq!(side.len(), 4);
    trim_side(true, 0, &mut side);
    assert!(side.is_empty());
}

#[test]
fn price_keys_order_as_prices() {
    let prices = [-3.5, -1.0, -0.0, 0.0, 1.0e-300, 0.5, 1.0, 99999.5, f64::INFINITY];
    for a in prices {
        for b in prices {
            let less = price_key(a.to_bits()) < price_key(b.to_bits());
            assert_eq!(less, a.total_cmp(&b).is_lt());
        }
    }
}

#[test]
fn best_levels_come_first() {
    let side: HashMap<u64, u64> = bits(&[(2.0, 20.0), (3.0, 30.0), (1.0, 10.0)]).into_iter().collect();
    assert_eq!(best_levels(true, &side), bits(&[(3.0, 30.0), (2.0, 20.0), (1.0, 10.0)]));
    assert_eq!(best_levels(false, &side), bits(&[(1.0, 10.0), (2.0, 20.0), (3.0, 30.0)]));
}

#[test]
fn normalize_sorts_and_dedups_buffered_updates() {
    // Out of order, with a duplicate u=20 where the later event_time (E=201)
    // must win over the earlier one (E=200).
    let mut dup_early = update(20, &[(1.0, 1.0)], &[]);
    dup_early.event_time = 200;
    let mut dup_late = update(20, &[(2.0, 2.0)], &[]);
    dup_late.event_time = 201;

    let msgs = vec![
        update(30, &[], &[]),
        dup_early,
        update(10, &[], &[]),
        dup_late,
    ];
    let out = normalize_messages_for_attach(msgs);

    let ids: Vec<u64> = out.iter().map(|m| m.final_update_id).collect();
    assert_eq!(ids, vec![10, 20, 30]);
    let kept = out.iter().find(|m| m.final_update_id == 20).unwrap();
    assert_eq!(kept.event_time, 201);
    assert_eq!(kept.bids[0][0], "2");
}

#[test]
fn normalize_empty_is_empty() {
    assert!(normalize_messages_for_attach(Vec::new()).is_empty());
}

#[test]
fn normalizing_again_changes_nothing() {
    let msgs = vec![bridge_diff(5, 9, 4), bridge_diff(1, 4, 0), bridge_diff(6, 9, 5)];
    let once = normalize_messages_for_attach(msgs);
    let twice = normalize_messages_for_attach(once.clone());
    let ids = |list: &[DepthUpdateWs]| -> Vec<(u64, u64)> {
        list.iter().map(|m| (m.first_update_id, m.final_update_id)).collect()
    };
    assert_eq!(ids(&once), ids(&twice));
    // Of two diffs with one id and one time, the one that starts earlier stays.
    assert_eq!(ids(&once), vec![(1, 4), (5, 9)]);
}

fn config() -> OrderbookConfig {
    OrderbookConfig {
        depth_limit: 2,
        snapshot_interval_seconds: 600,
        update_speed_ms: 500,
        resync_cooldown_seconds: 5,
        resync_backoff_factor: 2.0f64.to_bits(),
        max_resync_backoff_seconds: 60,
        attach_bridge_timeout_seconds: 30,
        snapshot_http_timeout_seconds: 10,
    }
}

fn snapshot(last_update_id: u64, bids: &[(f64, f64)], asks: &[(f64, f64)]) -> DepthSnapshotRest {
    let bids = texts(bids);
    let asks = texts(asks);
    DepthSnapshotRest {
        last_update_id,
        bid_values: values(&bids),
        ask_values: values(&asks),
        bids,
        asks,
    }
}

/// A manager with one symbol whose snapshot ends at 100.
fn syncing() -> OrderbookManager {
    let mut manager = OrderbookManager::new(config());
    manager.manage_symbol("btcusdt", false, 0);
    manager.begin_snapshot("btcusdt", 0);
    let taken = snapshot(100, &[(10.0, 1.0)], &[(11.0, 1.0)]);
    assert_eq!(manager.apply_snapshot("btcusdt", &taken, 0), Ok(()));
    manager.snapshot_succeeded("btcusdt", 0);
    manager
}

#[test]
fn a_symbol_goes_from_start_to_live() {
    let mut manager = OrderbookManager::new(config());
    assert_eq!(manager.symbol_state("btcusdt"), OrderbookState::Initializing);
    assert_eq!(manager.manage_symbol("btcusdt", false, 0), ManageStep::Continue);
    assert_eq!(
        manager.manage_symbol("btcusdt", false, 0),
        ManageStep::FetchSnapshot { wait_nanos: 0 }
    );
    let mut manager = syncing();
    assert_eq!(manager.manage_symbol("btcusdt", false, SECOND), ManageStep::TryAttach);
    let diffs = vec![bridge_diff(101, 105, 100), bridge_diff(106, 110, 105)];
    assert_eq!(
        manager.try_attach_to_stream("btcusdt", diffs, SECOND),
        AttachOutcome::Attached
    );
    // An attempt that ends otherwise changes nothing.
    for other in [
        AttachOutcome::NotReady,
        AttachOutcome::Resnapshot(ResnapshotReason::BridgeRuleTimeout),
        AttachOutcome::Unreadable(LevelError::Ask),
    ] {
        assert!(!manager.attach_finished("btcusdt", other));
        assert_eq!(manager.symbol_state("btcusdt"), OrderbookState::Syncing);
    }
    assert!(manager.attach_finished("btcusdt", AttachOutcome::Attached));
    assert_eq!(manager.manage_symbol("btcusdt", false, SECOND), ManageStep::Monitor);
    assert_eq!(manager.live_symbols(), vec!["btcusdt".to_string()]);
    assert_eq!(
        manager.live_among(&vec!["ethusdt".to_string(), "btcusdt".to_string()]),
        vec!["btcusdt".to_string()]
    );
    // The book stands at the last diff.
    let levels = manager.current_levels("btcusdt").unwrap();
    assert_eq!(levels.last_update_id, 110);
    assert_eq!(levels.bids, bits(&[(10.0, 1.0)]));
    let stats = manager.get_stats();
    assert_eq!(stats.len(), 1);
    let stats = &stats["btcusdt"];
    assert_eq!(stats.state, "Live");
    assert_eq!(stats.last_update_id, 110);
    assert_eq!((stats.bid_levels, stats.ask_levels), (1, 1));
}

#[test]
fn nothing_buffered_is_not_ready() {
    let mut manager = syncing();
    assert_eq!(
        manager.try_attach_to_stream("btcusdt", Vec::new(), 1),
        AttachOutcome::NotReady
    );
    // Covered diffs do not bridge either.
    assert_eq!(
        manager.try_attach_to_stream("btcusdt", vec![bridge_diff(90, 100, 89)], 1),
        AttachOutcome::NotReady
    );
}

#[test]
fn a_snapshot_older_than_the_buffer_starts_over() {
    let mut manager = syncing();
    assert_eq!(
        manager.try_attach_to_stream("btcusdt", vec![bridge_diff(201, 210, 200)], 1),
        AttachOutcome::Resnapshot(ResnapshotReason::SnapshotOlderThanBuffer)
    );
    assert_eq!(manager.symbol_state("btcusdt"), OrderbookState::Initializing);
    assert_eq!(
        ResnapshotReason::SnapshotOlderThanBuffer.label(),
        "snapshot_older_than_buffer"
    );
    assert_eq!(ResnapshotReason::BridgeRuleTimeout.label(), "bridge_rule_timeout");
}

#[test]
fn a_gap_while_attaching_is_not_ready() {
    let mut manager = syncing();
    let diffs = vec![bridge_diff(101, 105, 100), bridge_diff(107, 110, 106)];
    assert_eq!(
        manager.try_attach_to_stream("btcusdt", diffs, 1),
        AttachOutcome::NotReady
    );
    // The diff before the gap was applied.
    assert_eq!(manager.current_levels("btcusdt").unwrap().last_update_id, 105);
}

#[test]
fn an_unreadable_diff_ends_the_attach() {
    let mut manager = syncing();
    let mut bad = bridge_diff(106, 110, 105);
    bad.bid_values = vec![None];
    let diffs = vec![bridge_diff(101, 105, 100), bad];
    assert_eq!(
        manager.try_attach_to_stream("btcusdt", diffs, 1),
        AttachOutcome::Unreadable(LevelError::Bid)
    );
    assert_eq!(manager.current_levels("btcusdt").unwrap().last_update_id, 105);
}

#[test]
fn syncing_for_too_long_starts_over() {
    let mut manager = syncing();
    assert_eq!(
        manager.manage_symbol("btcusdt", false, 30 * SECOND),
        ManageStep::TryAttach
    );
    assert_eq!(
        manager.manage_symbol("btcusdt", false, 30 * SECOND + 1),
        ManageStep::Resnapshot(ResnapshotReason::BridgeRuleTimeout)
    );
}

#[test]
fn snapshots_wait_for_the_cooldown() {
    let mut manager = OrderbookManager::new(config());
    manager.begin_snapshot("btcusdt", 10 * SECOND);
    assert_eq!(
        manager.manage_symbol("btcusdt", false, 12 * SECOND),
        ManageStep::FetchSnapshot { wait_nanos: 3 * SECOND }
    );
    assert_eq!(
        manager.manage_symbol("btcusdt", false, 15 * SECOND),
        ManageStep::FetchSnapshot { wait_nanos: 0 }
    );
}

#[test]
fn failed_snapshots_back_off_up_to_the_maximum() {
    let mut manager = OrderbookManager::new(config());
    assert_eq!(manager.current_backoff("btcusdt"), 5 * SECOND);
    assert_eq!(manager.snapshot_failed("btcusdt", 10 * SECOND), 10 * SECOND);
    assert_eq!(manager.current_backoff("btcusdt"), 10 * SECOND);
    assert_eq!(manager.snapshot_failed("btcusdt", 90 * SECOND), 60 * SECOND);
    manager.snapshot_succeeded("btcusdt", 0);
    assert_eq!(manager.current_backoff("btcusdt"), 5 * SECOND);
    manager.trigger_resnapshot("btcusdt");
    assert_eq!(manager.symbol_state("btcusdt"), OrderbookState::Initializing);
}

#[test]
fn an_unreadable_snapshot_changes_nothing() {
    let mut manager = OrderbookManager::new(config());
    let mut taken = snapshot(7, &[(1.0, 1.0)], &[(2.0, 1.0)]);
    taken.ask_values = vec![None];
    assert_eq!(manager.apply_snapshot("btcusdt", &taken, 0), Err(LevelError::Ask));
    assert!(manager.current_levels("btcusdt").is_none());
    taken.bid_values = vec![None];
    assert_eq!(manager.apply_snapshot("btcusdt", &taken, 0), Err(LevelError::Bid));
}

#[test]
fn delisting_drops_everything() {
    let mut manager = syncing();
    assert_eq!(manager.manage_symbol("btcusdt", true, 1), ManageStep::Stop);
    assert!(manager.current_levels("btcusdt").is_none());
    assert!(manager.get_stats().is_empty());
    assert_eq!(manager.symbol_state("btcusdt"), OrderbookState::Initializing);
}

#[test]
fn symbols_do_not_touch_each_other() {
    let mut manager = syncing();
    manager.apply_snapshot("ethusdt", &snapshot(5, &[(1.0, 1.0)], &[]), 0).unwrap();
    manager.remove_symbol_state("ethusdt");
    assert_eq!(manager.current_levels("btcusdt").unwrap().last_update_id, 100);
    assert_eq!(manager.symbol_state("btcusdt"), OrderbookState::Syncing);
}

#[test]
fn live_updates_are_applied_and_trimmed() {
    let mut manager = syncing();
    let updates = vec![
        update(101, &[(9.0, 1.0)], &[]),
        update(102, &[(8.0, 1.0)], &[(12.0, 1.0)]),
    ];
    assert_eq!(manager.apply_live_updates("btcusdt", &updates, 3), 0);
    let mut bad = update(102, &[], &[]);
    bad.ask_values = vec![None];
    assert_eq!(manager.apply_live_updates("btcusdt", &vec![bad], 3), 1);
    let levels = manager.current_levels("btcusdt").unwrap();
    // The depth limit is two.
    assert_eq!(levels.bids, bits(&[(10.0, 1.0), (9.0, 1.0)]));
    assert_eq!(levels.asks, bits(&[(11.0, 1.0), (12.0, 1.0)]));
    assert_eq!(levels.last_update_id, 102);
    // Without a book nothing happens.
    assert_eq!(manager.apply_diff("ethusdt", &update(1, &[(1.0, 1.0)], &[]), 3), Ok(()));
    assert!(manager.current_levels("ethusdt").is_none());
}

#[test]
fn books_idle_for_two_hours_are_dropped() {
    let mut manager = syncing();
    assert!(manager.cleanup_stale_symbols(7200 * SECOND).is_empty());
    assert_eq!(
        manager.cleanup_stale_symbols(7201 * SECOND),
        vec!["btcusdt".to_string()]
    );
    assert!(manager.current_levels("btcusdt").is_none());
}

#[test]
fn periodic_snapshots_are_noted() {
    let mut manager = syncing();
    manager.note_periodic_snapshot("btcusdt", 9);
    assert_eq!(manager.symbol_state("btcusdt"), OrderbookState::Syncing);
}

#[test]
fn snapshot_rows_list_bids_and_asks() {
    let bids = vec![("10".to_string(), "1".to_string())];
    let asks = vec![("11".to_string(), "2".to_string())];
    let rows = snapshot_rows("BTCUSDT", "depth_snapshot", 77, 5, &bids, &asks);
    assert_eq!(rows.len(), 2);
    assert_eq!(rows[0].side, "bid");
    assert_eq!(rows[1].side, "ask");
    assert_eq!(rows[1].price, "11");
    assert_eq!(rows[1].quantity, "2");
    assert_eq!(rows[0].symbol, "btcusdt");
    assert_eq!(rows[0].datatype, "orderbooks");
    assert_eq!((rows[0].timestamp_ms, rows[0].last_update_id), (77, 5));
}

#[test]
fn snapshot_levels_are_sorted_by_price() {
    let levels = vec![
        Some((2.0f64.to_bits(), 0)),
        Some((3.0f64.to_bits(), 0)),
        None,
        Some((1.0f64.to_bits(), 0)),
    ];
    // A level that is no number counts as zero.
    assert_eq!(snapshot_order(true, &levels), vec![1, 0, 3, 2]);
    assert_eq!(snapshot_order(false, &levels), vec![2, 3, 0, 1]);
}

#[test]
fn states_have_names() {
    assert_eq!(state_name(OrderbookState::Initializing), "Initializing");
    assert_eq!(state_name(OrderbookState::FetchingSnapshot), "FetchingSnapshot");
    assert_eq!(state_name(OrderbookState::Syncing), "Syncing");
    assert_eq!(state_name(OrderbookState::Live), "Live");
    assert_eq!(seconds_to_nanos(2), 2 * SECOND);
    assert_eq!(seconds_to_nanos(u64::MAX), u64::MAX);
}
