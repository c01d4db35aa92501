//! Connections, ring buffers and what becomes of stream messages.

use binance_futures_collector::config::{ExchangeConfig, OrderbookConfig, WebSocketConfig};
use binance_futures_collector::models::{
    AggTradeWs, DepthUpdateWs, KlineData, KlineWs, LiquidationOrder, LiquidationWs,
};
use binance_futures_collector::websocket::connection_manager;
use binance_futures_collector::websocket::connection_manager::{
    all_finite, conn_id, event_kind, failure_message, preconverted, readable_levels, socket_step, stream_url,
    streams_for, AfterRun, EventKind, Route, SocketEvent, SocketFailure, SocketStep,
    WebSocketManager,
};
use binance_futures_collector::websocket::message_handler::{
    process_kline, Counter, KlineDecimals, LiquidationDecimals, LiquidationError, MessageHandler,
    TradeDedupWindow, TRADE_DEDUP_WINDOW,
};
use std::time::Duration;

const SECOND: u64 = 1_000_000_000;

fn list(items: &[&str]) -> Vec<String> {
    items.iter().map(|s| s.to_string()).collect()
}

fn backoff_for(attempt: u32, initial: Duration, max: Duration) -> Duration {
    Duration::from_millis(connection_manager::backoff_for(
        attempt,
        initial.as_millis() as u64,
        max.as_millis() as u64,
    ))
}

#[test]
fn backoff_doubles_from_initial() {
    let init = Duration::from_millis(2000);
    let max = Duration::from_secs(600);
    assert_eq!(backoff_for(1, init, max), Duration::from_millis(4000));
    assert_eq!(backoff_for(2, init, max), Duration::from_millis(8000));
    assert_eq!(backoff_for(3, init, max), Duration::from_millis(16000));
}

#[test]
fn backoff_is_capped_at_max() {
    let init = Duration::from_millis(2000);
    let max = Duration::from_millis(60000);
    // 2000 * 2^5 = 64000 > 60000, so it caps.
    assert_eq!(backoff_for(5, init, max), max);
    assert_eq!(backoff_for(10, init, max), max);
}

#[test]
fn backoff_shift_never_overflows_at_high_attempts() {
    let init = Duration::from_millis(2000);
    let max = Duration::from_millis(60000);
    // A prolonged outage pushes the attempt count high; the bound on the exponent
    // keeps the doubling from overflowing: this must not panic and stays capped.
    assert_eq!(backoff_for(1_000_000, init, max), max);
    assert_eq!(backoff_for(u32::MAX, init, max), max);
}

#[test]
fn backoff_exponent_is_bounded() {
    assert_eq!(connection_manager::backoff_for(16, 3, u64::MAX), 3 * 65536);
    assert_eq!(connection_manager::backoff_for(17, 3, u64::MAX), 3 * 65536);
    assert_eq!(connection_manager::backoff_for(0, 3, 10), 3);
    assert_eq!(connection_manager::backoff_for(16, u64::MAX, u64::MAX), u64::MAX);
}

#[test]
fn window_rejects_duplicates_and_accepts_new_ids() {
    let mut w = TradeDedupWindow::default();
    assert!(w.insert(100), "first sighting is new");
    assert!(!w.insert(100), "same id again is a duplicate");
    assert!(w.insert(101), "a different id is new");
    assert!(!w.insert(101));
}

#[test]
fn window_evicts_the_oldest_id_once_full() {
    let mut w = TradeDedupWindow::default();
    // Fill exactly to capacity with ids 0..WINDOW.
    for id in 0..TRADE_DEDUP_WINDOW as i64 {
        assert!(w.insert(id));
    }
    assert_eq!(w.len(), TRADE_DEDUP_WINDOW);
    // One more evicts the oldest (id 0); the window never exceeds capacity.
    assert!(w.insert(TRADE_DEDUP_WINDOW as i64));
    assert_eq!(w.len(), TRADE_DEDUP_WINDOW);
    // id 0 fell out of the window, so it now reads as new again.
    assert!(w.insert(0));
    assert_eq!(w.len(), TRADE_DEDUP_WINDOW);
    // A still-resident id remains a duplicate.
    assert!(!w.insert(TRADE_DEDUP_WINDOW as i64 - 1));
}

#[test]
fn window_evicts_by_insertion_order_not_id_value() {
    // Out-of-order ids: eviction follows FIFO insertion order, so the
    // longest-ago sighting leaves first regardless of numeric value.
    let mut w = TradeDedupWindow::default();
    for id in 0..TRADE_DEDUP_WINDOW as i64 {
        w.insert(id);
    }
    // Insert a LOW id last; it must survive, and the oldest (0) must go.
    assert!(w.insert(-1));
    assert!(w.insert(0), "id 0 was evicted, so it's new again");
    assert!(!w.insert(-1), "the low id inserted last is still resident");
}

#[test]
fn connection_numbers_differ() {
    let mut ids = Vec::new();
    for batch in 0..4 {
        for route in [Route::Public, Route::Market] {
            ids.push(conn_id(batch, route));
        }
    }
    assert_eq!(ids, vec![0, 1, 2, 3, 4, 5, 6, 7]);
    assert_eq!((Route::Public.path(), Route::Public.idx()), ("public", 0));
    assert_eq!((Route::Market.path(), Route::Market.idx()), ("market", 1));
}

#[test]
fn streams_go_to_their_routes() {
    let symbols = list(&["BTCUSDT", "ethusdt"]);
    assert_eq!(
        streams_for(&symbols, Route::Public, 0, 500),
        vec!["btcusdt@depth@500ms", "ethusdt@depth@500ms"]
    );
    assert_eq!(
        streams_for(&symbols, Route::Market, 1, 500),
        vec!["btcusdt@aggTrade", "btcusdt@kline_1m", "ethusdt@aggTrade", "ethusdt@kline_1m"]
    );
    // The stream of all liquidations is taken once.
    assert_eq!(
        streams_for(&list(&["btcusdt"]), Route::Market, 0, 500),
        vec!["btcusdt@aggTrade", "btcusdt@kline_1m", "!forceOrder@arr"]
    );
    assert_eq!(
        stream_url("wss://host", Route::Public, &list(&["a", "b", "c"])),
        "wss://host/public/stream?streams=a/b/c"
    );
}

#[test]
fn events_are_told_apart_by_type() {
    assert_eq!(event_kind(Some("depthUpdate"), false), EventKind::DepthUpdate);
    assert_eq!(event_kind(Some("aggTrade"), false), EventKind::Trade);
    assert_eq!(event_kind(Some("kline"), false), EventKind::Kline);
    assert_eq!(event_kind(Some("forceOrder"), false), EventKind::Liquidation);
    assert_eq!(event_kind(Some("forceOrder"), true), EventKind::Liquidation);
    assert_eq!(event_kind(Some("kline"), true), EventKind::Unknown);
    assert_eq!(event_kind(Some("other"), false), EventKind::Unknown);
    assert_eq!(event_kind(None, false), EventKind::Unknown);
}

#[test]
fn sockets_step_through_events() {
    assert_eq!(socket_step(SocketEvent::PingDue), (SocketStep::SendPing, false));
    assert_eq!(socket_step(SocketEvent::Text), (SocketStep::Process, true));
    assert_eq!(socket_step(SocketEvent::Binary), (SocketStep::Process, true));
    assert_eq!(socket_step(SocketEvent::Ping), (SocketStep::ReplyPong, true));
    assert_eq!(socket_step(SocketEvent::Pong), (SocketStep::NotePong, true));
    assert_eq!(socket_step(SocketEvent::Other), (SocketStep::Nothing, true));
    assert_eq!(socket_step(SocketEvent::Ended), (SocketStep::EndClean, false));
    assert_eq!(socket_step(SocketEvent::Close), (SocketStep::EndClean, false));
    assert_eq!(
        socket_step(SocketEvent::Tick { idle: 30 * SECOND }),
        (SocketStep::Nothing, false)
    );
    assert_eq!(
        socket_step(SocketEvent::Tick { idle: 30 * SECOND + 1 }),
        (SocketStep::EndFailed(SocketFailure::Idle), false)
    );
    assert_eq!(
        socket_step(SocketEvent::CloseRequested).0,
        SocketStep::EndFailed(SocketFailure::PongTimeout)
    );
    assert_eq!(
        socket_step(SocketEvent::Failed).0,
        SocketStep::EndFailed(SocketFailure::Socket)
    );
    assert_eq!(
        failure_message(SocketFailure::Idle, ""),
        "WebSocket error: No message received in 30s"
    );
    assert_eq!(
        failure_message(SocketFailure::PongTimeout, ""),
        "WebSocket error: Pong timeout"
    );
    assert_eq!(
        failure_message(SocketFailure::Socket, "reset"),
        "WebSocket error: reset"
    );
}

fn depth(symbol: &str, id: u64, event_time: i64) -> DepthUpdateWs {
    DepthUpdateWs {
        event_type: "depthUpdate".to_string(),
        event_time,
        transaction_time: event_time,
        symbol: symbol.to_string(),
        first_update_id: id,
        final_update_id: id,
        prev_update_id: id - 1,
        bids: Vec::new(),
        asks: Vec::new(),
        bid_values: Vec::new(),
        ask_values: Vec::new(),
        b_floats: None,
        a_floats: None,
    }
}

fn exchange() -> ExchangeConfig {
    ExchangeConfig {
        name: "binance".to_string(),
        market: "futures".to_string(),
        websocket_url: "wss://host".to_string(),
        rest_api_url: "https://api".to_string(),
        rest_futures_data_url: "https://data".to_string(),
        api_key: None,
    }
}

fn manager(capacity: usize) -> WebSocketManager {
    let orderbook = OrderbookConfig {
        depth_limit: 2,
        snapshot_interval_seconds: 600,
        update_speed_ms: 500,
        resync_cooldown_seconds: 5,
        resync_backoff_factor: 0,
        max_resync_backoff_seconds: 60,
        attach_bridge_timeout_seconds: 30,
        snapshot_http_timeout_seconds: 10,
    };
    let websocket = WebSocketConfig {
        reconnect_delay_ms: 1000,
        max_reconnect_delay_ms: 5000,
        max_reconnect_attempts: 2,
        ping_interval_seconds: 20,
        heartbeat_miss_reconnect: 3,
        ring_buffer_capacity: capacity,
        ring_buffer_seconds: 10,
        ws_buffer_delay_seconds: 1,
        batch_gap_seconds: 1,
        batch_stability_min_messages: 1,
    };
    WebSocketManager::new(&exchange(), &orderbook, &websocket, &list(&["btcusdt", "ethusdt"]))
}

fn ids(updates: &[DepthUpdateWs]) -> Vec<u64> {
    updates.iter().map(|u| u.final_update_id).collect()
}

#[test]
fn ring_buffers_keep_the_newest() {
    let mut m = manager(3);
    for id in 1..=5 {
        m.buffer_depth_update(depth("BTCUSDT", id, 1000), 1000);
    }
    assert_eq!(m.get_symbol_message_count("btcusdt"), 5);
    assert_eq!(ids(&m.drain_buffer("btcusdt")), vec![3, 4, 5]);
    // Draining empties the buffer and keeps the count.
    assert!(m.drain_buffer("btcusdt").is_empty());
    assert_eq!(m.get_symbol_message_count("btcusdt"), 5);
}

#[test]
fn ring_buffers_drop_what_is_old() {
    let mut m = manager(10);
    m.buffer_depth_update(depth("BTCUSDT", 1, 0), 0);
    m.buffer_depth_update(depth("BTCUSDT", 2, 5_000), 10_000);
    m.buffer_depth_update(depth("BTCUSDT", 3, 10_001), 10_001);
    assert_eq!(ids(&m.drain_buffer("btcusdt")), vec![2, 3]);
    // The newest entry stays, however old.
    m.buffer_depth_update(depth("BTCUSDT", 4, 0), 1_000_000);
    m.buffer_depth_update(depth("BTCUSDT", 5, 0), 1_000_000);
    assert_eq!(ids(&m.drain_buffer("btcusdt")), vec![5]);
}

#[test]
fn unknown_symbols_are_counted_but_not_buffered() {
    let mut m = manager(3);
    m.buffer_depth_update(depth("XYZUSDT", 1, 0), 0);
    assert_eq!(m.get_symbol_message_count("xyzusdt"), 1);
    assert!(m.drain_buffer("xyzusdt").is_empty());
    assert_eq!(m.get_symbol_message_count("btcusdt"), 0);
}

#[test]
fn updates_are_taken_in_with_finite_levels_only() {
    let mut m = manager(3);
    let level = |price: f64, quantity: f64| Some((price.to_bits(), quantity.to_bits()));
    for odd in [f64::INFINITY, f64::NAN] {
        let mut update = depth("BTCUSDT", 1, 0);
        update.ask_values = vec![level(1.0, 1.0), level(2.0, odd)];
        assert!(m.take_depth_update(update, 0).is_none());
        let mut update = depth("BTCUSDT", 1, 0);
        update.bid_values = vec![level(odd, 1.0)];
        assert!(m.take_depth_update(update, 0).is_none());
    }
    assert_eq!(m.get_symbol_message_count("btcusdt"), 0);
    assert!(m.drain_buffer("btcusdt").is_empty());

    let mut update = depth("BTCUSDT", 7, 0);
    update.bids = vec![["1".to_string(), "2".to_string()], ["x".to_string(), "3".to_string()]];
    update.bid_values = vec![level(1.0, 2.0), None];
    let taken = m.take_depth_update(update.clone(), 0).unwrap();
    assert_eq!(taken.b_floats, Some(vec![(1.0f64.to_bits(), 2.0f64.to_bits())]));
    assert_eq!(taken.a_floats, Some(vec![]));
    assert_eq!(taken.bids, update.bids);
    assert_eq!(m.get_symbol_message_count("btcusdt"), 1);
    // What is buffered is a copy of what is handed on.
    let kept = m.drain_buffer("btcusdt");
    assert_eq!(kept.len(), 1);
    assert_eq!(format!("{:?}", kept[0]), format!("{taken:?}"));
}

#[test]
fn batches_are_stable_when_all_symbols_are() {
    let mut m = manager(3);
    m.buffer_depth_update(depth("BTCUSDT", 1, 0), 0);
    assert!(m.check_batch_stability(&list(&["btcusdt"]), 1));
    assert!(!m.check_batch_stability(&list(&["btcusdt", "ethusdt"]), 1));
    assert!(m.check_batch_stability(&list(&["btcusdt", "ethusdt"]), 0));
    assert!(m.check_batch_stability(&Vec::new(), 9));
}

#[test]
fn a_batch_opens_one_connection_per_route() {
    let m = manager(3);
    let start = m.start_batch(&list(&["btcusdt"]), 0);
    assert!(start.heartbeat);
    assert_eq!(start.connections.len(), 2);
    assert_eq!(start.connections[0].id, 0);
    assert_eq!(start.connections[0].url, "wss://host/public/stream?streams=btcusdt@depth@500ms");
    assert_eq!(start.connections[1].streams_count, 3);
    assert!(start.connections[1].route == Route::Market);
    let later = m.start_batch(&list(&["ethusdt"]), 2);
    assert!(!later.heartbeat);
    assert_eq!(later.connections[1].id, 5);
    let empty = m.start_batch(&Vec::new(), 0);
    assert!(empty.connections.is_empty() && !empty.heartbeat);
}

#[test]
fn failed_connections_are_tried_again_without_end() {
    let mut m = manager(3);
    let retry = |wait_ms, attempt, alert| AfterRun::Retry { wait_ms, attempt, alert };
    assert_eq!(m.after_run(7, true, 0), retry(2000, 1, false));
    assert_eq!(m.after_run(7, true, 0), retry(4000, 2, true));
    assert_eq!(m.after_run(7, true, 0), retry(5000, 3, false));
    // A connection that stood for a minute starts anew.
    assert_eq!(m.after_run(7, true, 60 * SECOND), retry(2000, 1, false));
    assert_eq!(m.after_run(7, false, 0), AfterRun::Reopen { wait_ms: 500 });
    assert_eq!(m.after_run(7, true, 0), retry(2000, 1, false));
    m.shutdown();
    assert!(m.is_shutdown());
    assert_eq!(m.after_run(7, true, 0), AfterRun::Stop);
    assert_eq!(m.after_run(7, false, 0), AfterRun::Stop);
}

#[test]
fn silent_connections_are_closed() {
    let mut m = manager(3);
    m.begin_connect(0);
    m.begin_connect(1);
    m.connected(0, 2, 0);
    m.connected(1, 2, 0);
    m.note_pong(1, 50 * SECOND);
    m.note_message(1);
    m.note_message(1);
    // Three missed pings of twenty seconds.
    assert!(m.check_heartbeats(60 * SECOND).is_empty());
    assert_eq!(m.check_heartbeats(60 * SECOND + 1), vec![0]);
    assert!(m.is_closing(0) && !m.is_closing(1));
    let stats = m.get_stats(60 * SECOND);
    assert_eq!(stats.len(), 2);
    assert_eq!(stats[&1].message_count, 2);
    assert_eq!(stats[&1].last_pong_ago, 10 * SECOND);
    assert_eq!(stats[&1].symbols_count, 2);
    assert!(stats[&1].is_connected);
    m.after_run(0, true, 0);
    m.after_run(1, true, 0);
    m.after_run(1, true, 0);
    assert_eq!(m.total_reconnects(), 3);
    m.disconnected(0);
    assert_eq!(m.get_stats(0).len(), 1);
    assert_eq!(m.total_reconnects(), 2);
    assert!(!m.is_closing(0));
    m.note_pong(0, 1);
    m.note_message(0);
    assert_eq!(m.get_stats(0).len(), 1);
    m.shutdown();
    assert!(m.is_closing(1));
}

#[test]
fn only_readable_levels_are_converted() {
    let values = vec![Some((1, 2)), None, Some((3, 4))];
    assert_eq!(readable_levels(&values), vec![(1, 2), (3, 4)]);
    let mut update = depth("BTCUSDT", 1, 0);
    update.bid_values = values;
    let update = preconverted(update);
    assert_eq!(update.b_floats, Some(vec![(1, 2), (3, 4)]));
    assert_eq!(update.a_floats, Some(vec![]));
    assert_eq!(update.symbol, "BTCUSDT");
}

#[test]
fn infinite_levels_are_told_apart() {
    let level = |price: f64, quantity: f64| Some((price.to_bits(), quantity.to_bits()));
    assert!(all_finite(&Vec::new()));
    assert!(all_finite(&vec![None, level(1.5, 0.0), level(-0.0, f64::MAX), level(f64::MIN, 5e-324)]));
    for odd in [f64::INFINITY, f64::NEG_INFINITY, f64::NAN, -f64::NAN] {
        assert!(!all_finite(&vec![level(1.0, 1.0), level(odd, 1.0)]));
        assert!(!all_finite(&vec![level(1.0, odd), None]));
    }
}

fn trade(id: i64) -> AggTradeWs {
    AggTradeWs {
        event_type: "aggTrade".to_string(),
        event_time: 1,
        symbol: "BTCUSDT".to_string(),
        aggregate_trade_id: id,
        price: "10".to_string(),
        quantity: "2".to_string(),
        first_trade_id: 5,
        last_trade_id: 6,
        trade_time: 9,
        is_buyer_maker: true,
    }
}

#[test]
fn trades_are_recorded_once() {
    let mut handler = MessageHandler::new(&Vec::new());
    let record = handler.process_trade(&trade(1), Some("10.0".to_string()), None, 0).unwrap();
    assert_eq!(record.symbol, "btcusdt");
    assert_eq!(record.price, "10.0");
    assert_eq!(record.quantity, "2");
    assert_eq!(record.timestamp_ms, 9);
    assert!(handler.process_trade(&trade(1), None, None, 0).is_none());
    assert!(handler.process_trade(&trade(2), None, None, 0).is_some());
    let mut other = trade(1);
    other.symbol = "ETHUSDT".to_string();
    assert!(handler.process_trade(&other, None, None, 0).is_some());
}

#[test]
fn symbols_without_trades_are_forgotten() {
    let mut handler = MessageHandler::new(&Vec::new());
    handler.process_trade(&trade(1), None, None, 1_000);
    assert_eq!(handler.cleanup(3_601_000), 0);
    assert!(handler.process_trade(&trade(1), None, None, 1_000).is_none());
    assert_eq!(handler.cleanup(3_601_001), 1);
    assert!(handler.process_trade(&trade(1), None, None, 1_000).is_some());
}

fn no_decimals() -> KlineDecimals {
    KlineDecimals {
        open: Some("1.000000000000".to_string()),
        high: None,
        low: None,
        close: None,
        volume: None,
        quote_volume: None,
        taker_buy_base: None,
        taker_buy_quote: None,
    }
}

#[test]
fn only_closed_klines_are_recorded() {
    let mut message = KlineWs {
        event_type: "kline".to_string(),
        event_time: 7,
        symbol: "BTCUSDT".to_string(),
        kline: KlineData {
            open_time: 5,
            close_time: 6,
            symbol: "BTCUSDT".to_string(),
            interval: "1m".to_string(),
            open: "1".to_string(),
            high: "2".to_string(),
            low: "0.5".to_string(),
            close: "1.5".to_string(),
            volume: "100".to_string(),
            quote_volume: "150".to_string(),
            trade_count: 3,
            is_closed: false,
            taker_buy_base_volume: "50".to_string(),
            taker_buy_quote_volume: "75".to_string(),
        },
    };
    assert!(process_kline(&message, no_decimals()).is_none());
    message.kline.is_closed = true;
    let record = process_kline(&message, no_decimals()).unwrap();
    assert_eq!(record.timestamp_ms, 5);
    assert_eq!(record.symbol, "btcusdt");
    assert_eq!(record.open, "1.000000000000");
    assert_eq!(record.high, "2");
    assert_eq!(record.taker_buy_quote, "75");
    assert_eq!(record.datatype, "klines");
}

#[test]
fn liquidations_of_other_markets_are_dropped() {
    let handler = MessageHandler::new(&list(&["btcusdt"]));
    let mut message = LiquidationWs {
        event_type: "forceOrder".to_string(),
        event_time: 3,
        order: LiquidationOrder {
            symbol: "BTCUSDT".to_string(),
            side: "SELL".to_string(),
            price: "10".to_string(),
            quantity: "2".to_string(),
            time: 2,
        },
    };
    let decimals = || LiquidationDecimals {
        price: "10.0".to_string(),
        quantity: "2.0".to_string(),
        value: "20.0".to_string(),
    };
    let record = handler.process_liquidation(&message, Some(decimals())).unwrap().unwrap();
    assert_eq!(record.side, "sell");
    assert_eq!(record.symbol, "btcusdt");
    assert_eq!(record.value, "20.0");
    assert_eq!(record.timestamp_ms, 3);
    assert!(matches!(
        handler.process_liquidation(&message, None),
        Err(LiquidationError::NotANumber)
    ));
    message.order.symbol = "BTCUSDC".to_string();
    assert!(handler.process_liquidation(&message, Some(decimals())).unwrap().is_none());
    assert!(handler.process_liquidation(&message, None).unwrap().is_none());
}

#[test]
fn messages_are_counted_by_kind() {
    let mut handler = MessageHandler::new(&Vec::new());
    for what in [
        Counter::DepthUpdate,
        Counter::Trade,
        Counter::Trade,
        Counter::Kline,
        Counter::Liquidation,
        Counter::Error,
        Counter::LatencySample,
    ] {
        handler.count(what);
    }
    let stats = handler.get_stats();
    assert_eq!((stats.depth_updates, stats.trades, stats.klines), (1, 2, 1));
    assert_eq!((stats.liquidations, stats.errors, stats.total_latency_samples), (1, 1, 1));
    assert_eq!(stats.messages_total(), 5);
}
