//! Rows, files and buffers of the output, and the gap registry.

use binance_futures_collector::config::{
    default_buffer_size_kb, default_max_data_requests_per_5min, default_max_weight_per_min,
    default_symbol_discovery_interval_minutes, OutputConfig, StorageConfig,
};
use binance_futures_collector::constants;
use binance_futures_collector::models::{
    format_decimal_str, AggTradeWs, DepthSnapshotCsv, DepthUpdateCsv, DepthUpdateWs,
    FundingRateCsv, KlineCsv, LiquidationCsv, LongShortRatioCsv, MarkPriceKlineCsv,
    OpenInterestCsv, PremiumIndexKlineCsv, TakerBuySellVolumeCsv, TradeCsv,
};
use binance_futures_collector::utils::csv_writer::{
    closes_buffer, other_date_dir, CsvWriter, DepthUpdateRow, FileBuffer, RowOutput,
};
use binance_futures_collector::utils::gap_registry::{gap_file_name, GapEvent, GapRegistry};
use binance_futures_collector::utils::time_utils::{get_current_timestamp_ms, FIRST_MS, LAST_MS};

/// 2023-11-14T22:13:20.000Z, a fixed, human-checkable instant.
const TS: i64 = 1_700_000_000_000;

const SECOND: u64 = 1_000_000_000;

fn test_writer(base_dir: &str) -> CsvWriter {
    let output = OutputConfig {
        base_dir: base_dir.to_string(),
        buffer_size_kb: 64,
        flush_interval_seconds: 5,
        max_depth_buffer_rows: 3,
    };
    let storage = StorageConfig {
        disable_trade_persistence_for: vec!["quietusdt".to_string()],
        disable_orderbook_persistence_for: vec!["BTCUSDT".to_string(), "shyusdt".to_string()],
    };
    CsvWriter::new(&output, storage)
}

fn fixed(value: &str) -> Option<String> {
    value.parse::<f64>().ok().map(|v| format!("{v:.12}"))
}

fn agg_trade(is_buyer_maker: bool) -> AggTradeWs {
    AggTradeWs {
        event_type: "aggTrade".to_string(),
        event_time: TS,
        symbol: "BTCUSDT".to_string(),
        aggregate_trade_id: 42,
        price: "62456.60".to_string(),
        quantity: "0.017".to_string(),
        first_trade_id: 100,
        last_trade_id: 101,
        trade_time: TS,
        is_buyer_maker,
    }
}

fn trade_csv(is_buyer_maker: bool) -> TradeCsv {
    let trade = agg_trade(is_buyer_maker);
    trade.to_csv(fixed(&trade.price), fixed(&trade.quantity))
}

#[test]
fn side_derivation_buyer_maker_means_sell() {
    // is_buyer_maker=true: the taker sold; side must be lowercase.
    let sell = trade_csv(true);
    assert_eq!(sell.side, "sell");
    assert_eq!(sell.is_buyer_maker, 1);
    let buy = trade_csv(false);
    assert_eq!(buy.side, "buy");
    assert_eq!(buy.is_buyer_maker, 0);
    // Binance's UPPERCASE symbol is normalized on conversion.
    assert_eq!(buy.symbol, "btcusdt");
}

#[test]
fn trade_roundtrip_matches_schema_v2() {
    let w = test_writer("data");
    let trade = trade_csv(true);
    let out = w.write_trade(&trade, &fixed(&trade.price), &fixed(&trade.quantity)).unwrap();

    assert_eq!(out.path, w.get_daily_file_path("trades", "btcusdt", TS));
    // Header is the schema constant, verbatim.
    assert_eq!(CsvWriter::header_on_open(&out.path, 0), Some(constants::HEADER_TRADES));

    // Row aligns column-for-column with the header.
    let row: Vec<&str> = out.line.split(',').collect();
    assert_eq!(row.len(), constants::HEADER_TRADES.split(',').count());
    assert_eq!(
        &row[..6],
        &[
            "binance",
            "futures",
            "trades",
            "1700000000000",
            "2023-11-14T22:13:20.000Z",
            "btcusdt"
        ]
    );
    assert_eq!(row[6], "42"); // trade_id
    assert_eq!(row[7], "sell"); // side sits BEFORE price/quantity
    assert!((row[8].parse::<f64>().unwrap() - 62456.60).abs() < 1e-9);
    assert!((row[9].parse::<f64>().unwrap() - 0.017).abs() < 1e-9);
}

fn kline() -> KlineCsv {
    KlineCsv {
        exchange: "binance".to_string(),
        market: "futures".to_string(),
        datatype: "klines".to_string(),
        timestamp_ms: TS,
        symbol: "ethusdt".to_string(),
        open: "3000.1".to_string(),
        high: "3001.2".to_string(),
        low: "2999.3".to_string(),
        close: "3000.4".to_string(),
        volume: "12.5".to_string(),
        quote_volume: "37505.0".to_string(),
        trade_count: 87,
        taker_buy_base: "6.0".to_string(),
        taker_buy_quote: "18002.4".to_string(),
    }
}

#[test]
fn kline_roundtrip_matches_schema_v2() {
    let w = test_writer("data");
    let k = kline();
    let out = w.write_kline(
        &k,
        &fixed(&k.open),
        &fixed(&k.high),
        &fixed(&k.low),
        &fixed(&k.close),
        &fixed(&k.volume),
        &fixed(&k.quote_volume),
        &fixed(&k.taker_buy_base),
        &fixed(&k.taker_buy_quote),
    );
    assert_eq!(out.path, w.get_daily_file_path("klines", "ethusdt", TS));
    assert_eq!(CsvWriter::get_header_for_file(&out.path), constants::HEADER_KLINES);
    let row: Vec<&str> = out.line.split(',').collect();
    assert_eq!(row.len(), constants::HEADER_KLINES.split(',').count());
    assert_eq!(row[4], "2023-11-14T22:13:20.000Z");
    // OHLC land in header order.
    assert!((row[6].parse::<f64>().unwrap() - 3000.1).abs() < 1e-9);
    assert!((row[9].parse::<f64>().unwrap() - 3000.4).abs() < 1e-9);
}

#[test]
fn open_interest_roundtrip_has_mark_price_column() {
    let w = test_writer("data");
    let oi = OpenInterestCsv {
        exchange: "binance".to_string(),
        market: "futures".to_string(),
        datatype: "open_interest".to_string(),
        timestamp_ms: TS,
        symbol: "solusdt".to_string(),
        price: "150.0".to_string(),
        open_interest: "1000.0".to_string(),
        oi_value: "150000.0".to_string(),
    };
    let out = w.write_open_interest(
        &oi,
        &fixed(&oi.price),
        &fixed(&oi.open_interest),
        &fixed(&oi.oi_value),
    );
    assert_eq!(out.path, w.get_daily_file_path("open_interest", "solusdt", TS));

    // The price column is called `mark_price`; the file must say so.
    let header = CsvWriter::get_header_for_file(&out.path);
    assert_eq!(header, constants::HEADER_OPEN_INTEREST);
    assert!(header.contains(",mark_price,"));

    let row: Vec<&str> = out.line.split(',').collect();
    let mark: f64 = row[6].parse().unwrap();
    let qty: f64 = row[7].parse().unwrap();
    let value: f64 = row[8].parse().unwrap();
    assert!((mark * qty - value).abs() < 1e-6);
}

/// Puts a row into a file, which is opened where it is not open yet.
fn put(w: &mut CsvWriter, out: &RowOutput, content: &mut String) {
    if !w.is_open(&out.path) {
        if let Some(header) = CsvWriter::header_on_open(&out.path, content.len() as u64) {
            content.push_str(header);
            content.push('\n');
        }
        w.open_buffer(&out.path, 0);
    }
    content.push_str(&out.line);
    content.push('\n');
    w.row_written(&out.path, 0);
}

fn write_trade(w: &CsvWriter, is_buyer_maker: bool) -> RowOutput {
    let trade = trade_csv(is_buyer_maker);
    w.write_trade(&trade, &fixed(&trade.price), &fixed(&trade.quantity)).unwrap()
}

#[test]
fn appending_to_existing_file_writes_no_second_header() {
    let mut w = test_writer("data");
    let path = w.get_daily_file_path("trades", "btcusdt", TS);
    let mut content = String::new();

    for is_buyer_maker in [true, false] {
        let out = write_trade(&w, is_buyer_maker);
        assert_eq!(out.path, path);
        put(&mut w, &out, &mut content);
    }
    assert_eq!(w.flush_all(), vec![path.clone()]);

    let headers = |content: &str| content.lines().filter(|l| *l == constants::HEADER_TRADES).count();
    assert_eq!(headers(&content), 1);
    assert_eq!(content.lines().count(), 3); // header + 2 rows

    // A file that is closed and opened again keeps its one header.
    w.finalize_file(&path).unwrap();
    let out = write_trade(&w, true);
    put(&mut w, &out, &mut content);
    assert_eq!(headers(&content), 1);
    assert_eq!(content.lines().count(), 4);
}

#[test]
fn cleanup_evicts_previous_day_buffers_and_flushes_them() {
    let mut w = test_writer("data");
    let mut content = String::new();

    // TS is a 2023 date, so this buffer belongs to a "previous day".
    let out = write_trade(&w, true);
    put(&mut w, &out, &mut content);
    assert_eq!(w.flush_all().len(), 1);

    for path in w.cleanup_stale_buffers(get_current_timestamp_ms(), 1) {
        assert_eq!(path, w.get_daily_file_path("trades", "btcusdt", TS));
        // What is counted as unflushed is handed out on the way, not dropped.
        assert_eq!(w.finalize_file(&path).unwrap().row_count, 1);
    }
    assert_eq!(w.flush_all().len(), 0, "old-date buffer must be evicted");
    assert_eq!(content.lines().count(), 2); // header + row
}

#[test]
fn closing_a_depth_file_hands_out_its_rows() {
    let mut w = test_writer("data");
    let path = w.get_depth_update_path("ethusdt", TS);
    w.open_buffer(&path, 0);
    w.buffer_depth_row(&path, row(5), 0);
    assert_eq!(w.cleanup_stale_buffers(TS + 86_400_000, 1), vec![path.clone()]);
    let mut closed = w.finalize_file(&path).unwrap();
    assert_eq!(ids(&closed.begin_flush()), vec![5]);
    assert!(!w.is_open(&path));
}

#[test]
fn iso_utc_formats_utc_millis() {
    assert_eq!(CsvWriter::iso_utc(0), "1970-01-01T00:00:00.000Z");
    assert_eq!(
        CsvWriter::iso_utc(1_700_000_000_123),
        "2023-11-14T22:13:20.123Z"
    );
}

#[test]
fn daily_paths_partition_by_datatype_symbol_date() {
    let w = test_writer("data");
    let s = w.get_daily_file_path("trades", "btcusdt", TS);
    assert!(s.ends_with("trades/btcusdt/2023-11-14/btcusdt_trades_2023-11-14.csv"));
    assert_eq!(
        w.get_daily_file_path("other", "btcusdt", TS),
        "data/other/btcusdt/2023-11-14/btcusdt_2023-11-14.csv"
    );
    // A base with a slash at its end gets no second one.
    assert!(test_writer("data/").get_daily_file_path("trades", "a", 0).starts_with("data/trades/a/"));
}

#[test]
fn depth_paths_name_their_hour() {
    let w = test_writer("data");
    assert_eq!(
        w.get_depth_update_path("btcusdt", TS),
        "data/orderbooks/btcusdt/2023-11-14/btcusdt_depth_updates_2023-11-14_2200-to-2300.csv"
    );
    // The last hour of a day ends at midnight.
    assert!(w.get_depth_update_path("btcusdt", TS + 3_600_000).ends_with("_2300-to-0000.csv"));
    assert_eq!(
        w.get_snapshot_path("btcusdt", "depth_snapshot_initial", TS),
        "data/orderbooks/btcusdt/2023-11-14/btcusdt_depth_snapshot_initial_2023_11_14_221320_1700000000000.csv"
    );
    assert!(w
        .get_snapshot_path("btcusdt", "depth_snapshot", TS)
        .ends_with("/btcusdt_depth_snapshot_2023-11-14.csv"));
}

#[test]
fn rows_have_the_columns_of_their_headers() {
    let w = test_writer("data");
    let columns = |path: &str, line: &str| {
        assert_eq!(
            CsvWriter::get_header_for_file(path).split(',').count(),
            line.split(',').count(),
            "{path}"
        );
    };
    let text = |s: &str| s.to_string();
    let one = fixed("1");
    let out = w.write_liquidation(
        &LiquidationCsv {
            exchange: text("binance"),
            market: text("futures"),
            datatype: text("liquidations"),
            timestamp_ms: TS,
            symbol: text("a"),
            side: text("sell"),
            price: text("1"),
            quantity: text("1"),
            value: text("1"),
        },
        &one,
        &one,
        &one,
    );
    columns(&out.path, &out.line);
    let out = w.write_funding_rate(
        &FundingRateCsv {
            exchange: text("binance"),
            market: text("futures"),
            datatype: text("funding_rates"),
            timestamp_ms: TS,
            symbol: text("a"),
            funding_rate: text("1"),
            next_funding_time: 9,
        },
        &one,
    );
    columns(&out.path, &out.line);
    assert!(out.line.ends_with(",1.000000000000,9"));
    let out = w.write_long_short_ratio(
        &LongShortRatioCsv {
            exchange: text("binance"),
            market: text("futures"),
            datatype: text("long_short_ratio"),
            timestamp_ms: TS,
            symbol: text("a"),
            period: text("5m"),
            ratio_type: text("global"),
            long_ratio: text("1"),
            short_ratio: text("1"),
            long_short_ratio: text("1"),
        },
        &one,
        &one,
        &one,
    );
    columns(&out.path, &out.line);
    let mark = MarkPriceKlineCsv {
        exchange: text("binance"),
        market: text("futures"),
        datatype: text("mark_price_klines"),
        timestamp_ms: TS,
        symbol: text("a"),
        open: text("1"),
        high: text("1"),
        low: text("1"),
        close: text("1"),
    };
    let out = w.write_mark_price_kline(&mark, &one, &one, &one, &one);
    columns(&out.path, &out.line);
    assert!(out.path.contains("mark_price_klines"));
    let out = w.write_index_price_kline(&mark, &one, &one, &one, &None);
    columns(&out.path, &out.line);
    assert!(out.path.contains("/index_price_klines/"));
    // A price that is no number is written as zero.
    assert!(out.line.ends_with(",0.000000000000"));
    let out = w.write_premium_index_kline(
        &PremiumIndexKlineCsv {
            exchange: text("binance"),
            market: text("futures"),
            datatype: text("premium_index_klines"),
            timestamp_ms: TS,
            symbol: text("a"),
            open: text("1"),
            high: text("1"),
            low: text("1"),
            close: text("1"),
        },
        &one,
        &one,
        &one,
        &one,
    );
    columns(&out.path, &out.line);
    let out = w.write_taker_buy_sell_ratio(
        &TakerBuySellVolumeCsv {
            exchange: text("binance"),
            market: text("futures"),
            datatype: text("taker_buy_sell_ratio"),
            timestamp_ms: TS,
            symbol: text("a"),
            period: text("5m"),
            buy_volume: text("1"),
            sell_volume: text("1"),
            buy_sell_ratio: text("1"),
        },
        &one,
        &one,
        &one,
    );
    columns(&out.path, &out.line);
    assert_eq!(
        CsvWriter::get_header_for_file("x/y.csv"),
        "exchange,market,datatype,timestamp_ms,datetime_utc,symbol"
    );
}

fn depth_csv(symbol: &str) -> DepthUpdateCsv {
    DepthUpdateCsv {
        exchange: "binance".to_string(),
        market: "futures".to_string(),
        datatype: "orderbooks".to_string(),
        timestamp_ms: TS,
        symbol: symbol.to_string(),
        first_update_id: 1,
        last_update_id: 2,
        prev_update_id: 0,
        bids_json: "[[\"1\",\"2\"]]".to_string(),
        asks_json: "[]".to_string(),
    }
}

#[test]
fn depth_rows_quote_their_levels() {
    let w = test_writer("data");
    let out = w.write_depth_update(&depth_csv("ethusdt")).unwrap();
    assert_eq!(out.row.last_update_id, 2);
    assert_eq!(
        out.row.csv_line,
        "binance,futures,orderbooks,1700000000000,2023-11-14T22:13:20.000Z,ethusdt,1,2,0,\"[[\"\"1\"\",\"\"2\"\"]]\",\"[]\""
    );
}

#[test]
fn levels_become_json() {
    let update = DepthUpdateWs {
        event_type: "depthUpdate".to_string(),
        event_time: TS,
        transaction_time: TS,
        symbol: "BTCUSDT".to_string(),
        first_update_id: 1,
        final_update_id: 2,
        prev_update_id: 0,
        bids: vec![["1.5".to_string(), "2".to_string()], ["1\"\n".to_string(), "3".to_string()]],
        asks: Vec::new(),
        bid_values: Vec::new(),
        ask_values: Vec::new(),
        b_floats: None,
        a_floats: None,
    };
    let csv = update.to_csv();
    assert_eq!(csv.bids_json, "[[\"1.5\",\"2\"],[\"1\\\"\\n\",\"3\"]]");
    assert_eq!(csv.asks_json, "[]");
    assert_eq!(csv.symbol, "btcusdt");
    assert_eq!((csv.first_update_id, csv.last_update_id), (1, 2));
}

#[test]
fn storage_can_be_switched_off_by_symbol() {
    let w = test_writer("data");
    // Symbols are matched as they are written in the settings, or in upper case.
    assert!(w.write_depth_update(&depth_csv("shyusdt")).is_none());
    let mut quiet = trade_csv(true);
    quiet.symbol = "quietusdt".to_string();
    assert!(w.write_trade(&quiet, &None, &None).is_none());
    let all = StorageConfig {
        disable_trade_persistence_for: Vec::new(),
        disable_orderbook_persistence_for: Vec::new(),
    };
    assert!(all.should_persist_trades("quietusdt") && all.should_persist_orderbook("shyusdt"));
}

#[test]
fn snapshot_rows_are_grouped_by_file() {
    let w = test_writer("data");
    let level = |side: &str, event_type: &str| DepthSnapshotCsv {
        exchange: "binance".to_string(),
        market: "futures".to_string(),
        datatype: "orderbooks".to_string(),
        timestamp_ms: TS,
        symbol: "ethusdt".to_string(),
        event_type: event_type.to_string(),
        side: side.to_string(),
        price: "1".to_string(),
        quantity: "2".to_string(),
        last_update_id: 7,
    };
    let records = vec![
        level("bid", "depth_snapshot"),
        level("bid", "depth_snapshot_initial"),
        level("ask", "depth_snapshot"),
    ];
    let decimals = vec![(fixed("1"), fixed("2")), (None, None), (fixed("1"), fixed("2"))];
    let groups = w.write_depth_snapshot(&records, &decimals);
    assert_eq!(groups.len(), 2);
    assert_eq!(groups[0].rows.len(), 2);
    assert!(groups[0].rows[0].contains(",depth_snapshot,bid,1.000000000000,2.000000000000,7"));
    assert!(groups[0].rows[1].contains(",ask,"));
    assert!(groups[1].rows[0].ends_with(",bid,0.000000000000,0.000000000000,7"));
    assert!(w.write_depth_snapshot(&Vec::new(), &Vec::new()).is_empty());
}

fn row(id: u64) -> DepthUpdateRow {
    DepthUpdateRow { last_update_id: id, csv_line: format!("row {id}") }
}

fn ids(rows: &[DepthUpdateRow]) -> Vec<u64> {
    rows.iter().map(|r| r.last_update_id).collect()
}

#[test]
fn depth_rows_are_written_in_the_order_of_their_ids() {
    let mut buffer = FileBuffer::new("x_depth_updates_y.csv", 0);
    assert!(!buffer.push_depth_row(row(9), 3, 1));
    assert!(!buffer.push_depth_row(row(4), 3, 2));
    assert!(buffer.push_depth_row(row(7), 3, 3));
    let rows = buffer.begin_flush();
    assert_eq!(ids(&rows), vec![4, 7, 9]);
    // What a failed flush did not write is kept.
    buffer.restore_rows(&rows, 1);
    buffer.push_depth_row(row(5), 3, 4);
    assert_eq!(ids(&buffer.begin_flush()), vec![5, 7, 9]);
    buffer.end_flush(8);
    assert_eq!((buffer.last_flush, buffer.last_write), (8, 4));
    // Other files buffer no rows here.
    let mut other = FileBuffer::new("trades.csv", 0);
    assert!(!other.push_depth_row(row(1), 1, 9));
    assert_eq!(other.last_write, 0);
    assert!(other.begin_flush().is_empty());
}

#[test]
fn files_are_flushed_by_time_and_by_rows() {
    let mut buffer = FileBuffer::new("trades.csv", 0);
    assert!(!buffer.count_row(4 * SECOND, 5 * SECOND));
    assert!(buffer.count_row(5 * SECOND, 5 * SECOND));
    buffer.rows_flushed(5 * SECOND);
    assert_eq!(buffer.row_count, 0);
    for _ in 0..999 {
        assert!(!buffer.count_row(5 * SECOND, 5 * SECOND));
    }
    assert!(buffer.count_row(5 * SECOND, 5 * SECOND));
}

#[test]
fn the_writer_keeps_buffers_apart() {
    let mut w = test_writer("data");
    assert!(!w.is_open("a_depth_updates"));
    w.open_buffer("a_depth_updates", 0);
    w.open_buffer("b_trades", 0);
    assert!(w.is_open("a_depth_updates"));
    w.buffer_depth_row("a_depth_updates", row(2), 0);
    w.buffer_depth_row("a_depth_updates", row(1), 0);
    assert!(w.buffer_depth_row("a_depth_updates", row(3), 0));
    assert!(!w.row_written("b_trades", SECOND));
    assert!(w.row_written("b_trades", 5 * SECOND));
    w.rows_flushed("b_trades", 5 * SECOND);
    assert!(!w.row_written("b_trades", 9 * SECOND));
    assert_eq!(w.flush_symbol("a_").len(), 1);
    let rows = w.begin_flush("a_depth_updates");
    assert_eq!(ids(&rows), vec![1, 2, 3]);
    w.restore_rows("a_depth_updates", &rows, 2);
    assert_eq!(ids(&w.begin_flush("a_depth_updates")), vec![3]);
    w.end_flush("a_depth_updates", SECOND);
    assert!(w.finalize_file("a_depth_updates").is_some());
    assert!(w.finalize_file("a_depth_updates").is_none());
    assert!(w.begin_flush("a_depth_updates").is_empty());
}

#[test]
fn buffers_close_when_idle_or_of_another_day() {
    let mut w = test_writer("data");
    let today = w.get_daily_file_path("trades", "a", TS);
    w.open_buffer(&today, 0);
    assert!(w.cleanup_stale_buffers(TS, 1800 * SECOND).is_empty());
    assert_eq!(w.cleanup_stale_buffers(TS, 1800 * SECOND + 1).len(), 1);
    assert_eq!(w.cleanup_stale_buffers(TS + 86_400_000, 1), vec![today.clone()]);
    assert_eq!(w.stale_buffers("2023-11-15", 1), vec![today.clone()]);
    // A directory that is no date does not count.
    w.finalize_file(&today);
    w.open_buffer("data/x/y.csv", 0);
    assert!(w.stale_buffers("2023-11-15", 1).is_empty());
    assert_eq!(other_date_dir("a/2023-11-14/x.csv", "2023-11-15"), Some("2023-11-14".to_string()));
    assert_eq!(other_date_dir("a/2023-11-15/x.csv", "2023-11-15"), None);
    assert_eq!(other_date_dir("x.csv", "2023-11-15"), None);
    // Slashes that are doubled or stand at the end, and single dots, name nothing.
    for path in ["2023-11-14//x.csv", "a/2023-11-14/./x.csv/", "2023-11-14/x.csv//."] {
        assert_eq!(other_date_dir(path, "2023-11-15"), Some("2023-11-14".to_string()), "{path}");
    }
    for path in ["/x.csv", "./x.csv", "../x.csv", "", "/", "."] {
        assert_eq!(other_date_dir(path, "2023-11-15"), None, "{path}");
    }
    assert!(closes_buffer(true, 5, 5));
    assert!(!closes_buffer(false, 5, 5));
}

#[test]
fn flushes_do_not_keep_idle_files_open() {
    let mut w = test_writer("data");
    let trades = w.get_daily_file_path("trades", "a", TS);
    let depth = w.get_depth_update_path("a", TS);
    w.open_buffer(&trades, 0);
    w.open_buffer(&depth, 0);
    for second in 1..7200 {
        w.begin_flush(&trades);
        w.end_flush(&trades, second * SECOND);
        w.rows_flushed(&depth, second * SECOND);
    }
    let mut stale = w.cleanup_stale_buffers(TS, 7200 * SECOND);
    stale.sort();
    assert_eq!(stale, vec![depth.clone(), trades.clone()]);
    // A row does.
    w.row_written(&trades, 7199 * SECOND);
    w.buffer_depth_row(&depth, row(1), 7198 * SECOND);
    assert!(w.cleanup_stale_buffers(TS, 8998 * SECOND).is_empty());
    assert_eq!(w.cleanup_stale_buffers(TS, 8998 * SECOND + 1), vec![depth]);
}

#[test]
fn file_names_are_the_last_parts_of_paths() {
    let trades = Some(constants::HEADER_TRADES);
    for path in ["a/trades_x", "a/trades_x/", "a/trades_x//", "a/trades_x/.", "trades_x", "/trades_x"] {
        assert_eq!(CsvWriter::header_on_open(path, 0), trades, "{path}");
    }
    for path in ["trades_x/..", "trades_x/y", ""] {
        assert_ne!(CsvWriter::header_on_open(path, 0), trades, "{path}");
    }
}

#[test]
fn hours_are_counted_as_far_as_the_calendar_goes() {
    let w = test_writer("data");
    let ends = |ms: i64, end: &str| {
        let path = w.get_depth_update_path("a", ms);
        assert!(path.ends_with(end), "{path}");
    };
    ends(0, "1970-01-01_0000-to-0100.csv");
    ends(-1, "1969-12-31_2300-to-0000.csv");
    ends(LAST_MS, "+262142-12-31_2300-to-0000.csv");
    ends(LAST_MS + 1, "1970-01-01_0000-to-0100.csv");
    ends(FIRST_MS, "-262143-01-01_0000-to-0100.csv");
    ends(FIRST_MS + 3_600_000, "-262143-01-01_0100-to-0200.csv");
    ends(FIRST_MS - 1, "1970-01-01_0000-to-0100.csv");
    ends(i64::MAX, "1970-01-01_0000-to-0100.csv");
}

#[test]
fn the_hour_that_ended_is_rotated() {
    let mut w = test_writer("data");
    let path = w.get_depth_update_path("a", TS);
    w.open_buffer(&path, 0);
    w.open_buffer("data/trades/a_2200-to-2300.csv", 0);
    assert_eq!(w.hourly_rotation(TS + 3_600_000), vec![path]);
    assert!(w.hourly_rotation(TS).is_empty());
}

#[test]
fn gap_events_are_kept_by_symbol() {
    let mut gaps = GapRegistry::new();
    let event = GapEvent::new_resnapshot("bridge_rule_timeout".to_string(), 1_700_000_000, 7);
    assert_eq!(event.event_type, "resnapshot");
    assert_eq!(event.datetime_utc, Some("2023-11-14T22:13:20+00:00".to_string()));
    gaps.load("btcusdt", Vec::new());
    gaps.add_event("btcusdt", event.clone());
    gaps.add_event("ethusdt", event.clone());
    assert_eq!(gaps.events("btcusdt").unwrap().len(), 1);
    assert!(gaps.events("solusdt").is_none());
    assert_eq!(gaps.take_dirty(), vec!["btcusdt", "ethusdt"]);
    assert!(gaps.take_dirty().is_empty());
    for _ in 0..600 {
        gaps.add_event("btcusdt", event.clone());
    }
    assert_eq!(gaps.events("btcusdt").unwrap().len(), 512);
    assert_eq!(gap_file_name("btcusdt"), "btcusdt_gaps.json");
    let far = GapEvent::new_resnapshot("x".to_string(), i64::MAX, 7);
    assert_eq!(far.datetime_utc, Some("unknown".to_string()));
}

#[test]
fn settings_have_defaults() {
    assert_eq!(default_buffer_size_kb(), 64);
    assert_eq!(default_max_weight_per_min(), 2000);
    assert_eq!(default_max_data_requests_per_5min(), 600);
    assert_eq!(default_symbol_discovery_interval_minutes(), 10);
}

#[test]
fn decimals_are_fixed_where_they_can_be() {
    assert_eq!(format_decimal_str("1.5", fixed("1.5")), "1.500000000000");
    assert_eq!(format_decimal_str("n/a", fixed("n/a")), "n/a");
}

#[test]
fn the_tape_keeps_every_row_through_failed_flushes() {
    let mut buffer = FileBuffer::new("x_depth_updates_y.csv", 0);
    let mut tape: Vec<u64> = Vec::new();
    for id in 0..40u64 {
        buffer.push_depth_row(row((id * 7) % 40), 1000, id);
        if id % 3 == 0 {
            let rows = buffer.begin_flush();
            // Every other flush stops half way.
            let written = if id % 2 == 0 { rows.len() } else { rows.len() / 2 };
            tape.extend(ids(&rows).into_iter().take(written));
            buffer.restore_rows(&rows, written);
        }
    }
    tape.extend(ids(&buffer.begin_flush()));
    tape.sort();
    assert_eq!(tape, (0..40).collect::<Vec<u64>>());
}
