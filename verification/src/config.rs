//! Settings.

use crate::text::text_eq;
use vstd::prelude::*;

verus! {

/// Everything the collector is told at start.
pub struct Config {
    pub exchange: ExchangeConfig,
    pub collection: CollectionConfig,
    pub orderbook: OrderbookConfig,
    pub websocket: WebSocketConfig,
    pub rest_intervals: RestIntervalsConfig,
    pub output: OutputConfig,
    pub gaps: GapsConfig,
    pub logging: LoggingConfig,
    pub proxy: ProxyConfig,
    pub storage: StorageConfig,
}

/// Where the exchange is reached.
pub struct ExchangeConfig {
    pub name: String,
    pub market: String,
    pub websocket_url: String,
    pub rest_api_url: String,
    pub rest_futures_data_url: String,
    /// Optional API key. Only public market data is read, so none is needed; when
    /// set it is sent as the `X-MBX-APIKEY` header.
    pub api_key: Option<String>,
}

/// What is collected.
pub struct CollectionConfig {
    pub symbol_discovery_interval_minutes: u64,
    /// Explicit symbol list. When it is not empty only these symbols are collected
    /// and discovery is bypassed; empty means every discovered symbol.
    pub symbols: Vec<String>,
}

/// Minutes between two symbol discoveries where the settings name none.
pub fn default_symbol_discovery_interval_minutes() -> (r: u64)
    ensures
        r == 10,
{
    10
}

/// Order books: depth, snapshots, resynchronisation.
pub struct OrderbookConfig {
    pub depth_limit: u32,
    pub snapshot_interval_seconds: u64,
    pub update_speed_ms: u32,
    pub resync_cooldown_seconds: u64,
    /// Bit pattern of the factor by which the resynchronisation delay grows.
    pub resync_backoff_factor: u64,
    pub max_resync_backoff_seconds: u64,
    pub attach_bridge_timeout_seconds: u64,
    pub snapshot_http_timeout_seconds: u64,
}

/// Stream connections and the buffers behind them.
pub struct WebSocketConfig {
    pub reconnect_delay_ms: u64,
    pub max_reconnect_delay_ms: u64,
    pub max_reconnect_attempts: u32,
    pub ping_interval_seconds: u64,
    pub heartbeat_miss_reconnect: u32,
    pub ring_buffer_capacity: usize,
    pub ring_buffer_seconds: u64,
    pub ws_buffer_delay_seconds: u64,
    pub batch_gap_seconds: u64,
    pub batch_stability_min_messages: usize,
}

/// How often each REST poller runs, and the request budgets.
pub struct RestIntervalsConfig {
    pub funding_rates_seconds: u64,
    pub mark_price_klines_seconds: u64,
    pub index_price_klines_seconds: u64,
    pub open_interest_seconds: u64,
    pub long_short_ratio_seconds: u64,
    pub taker_buy_sell_ratio_seconds: u64,
    pub premium_index_klines_seconds: u64,
    /// Request weight per minute for the `/fapi/` endpoints.
    pub max_weight_per_min: u64,
    /// Requests per five minutes for the `/futures/data/` endpoints.
    pub max_data_requests_per_5min: u64,
}

/// Request weight per minute where the settings name none.
pub fn default_max_weight_per_min() -> (r: u64)
    ensures
        r == 2000,
{
    2000
}

/// Requests per five minutes where the settings name none.
pub fn default_max_data_requests_per_5min() -> (r: u64)
    ensures
        r == 600,
{
    600
}

/// Output files.
pub struct OutputConfig {
    pub base_dir: String,
    /// Write buffer of one file, in kilobytes.
    pub buffer_size_kb: usize,
    pub flush_interval_seconds: u64,
    pub max_depth_buffer_rows: usize,
}

/// Write buffer in kilobytes where the settings name none.
pub fn default_buffer_size_kb() -> (r: usize)
    ensures
        r == 64,
{
    64
}

/// Gap records.
pub struct GapsConfig {
    pub base_dir: String,
}

/// Logging.
pub struct LoggingConfig {
    pub level: String,
    pub log_file: String,
    pub max_log_files: u32,
}

/// Proxies for REST requests.
pub struct ProxyConfig {
    pub enabled: bool,
    pub user: String,
    pub password: String,
    pub host: String,
    pub au_ports: Vec<u16>,
    pub jp_ports: Vec<u16>,
    pub dk_ports: Vec<u16>,
    pub uk_ports: Vec<u16>,
    pub num_ws_batches: usize,
    /// Keep a record of every proxied request.
    pub tracking_enabled: bool,
}

/// Symbols whose data is not written.
pub struct StorageConfig {
    pub disable_trade_persistence_for: Vec<String>,
    pub disable_orderbook_persistence_for: Vec<String>,
}

/// Some entry of `list` is `symbol`.
pub open spec fn lists_symbol(list: Seq<String>, symbol: Seq<char>) -> bool {
    exists|i: int| 0 <= i < list.len() && (#[trigger] list[i])@ == symbol
}

/// Whether some entry of `list` is `symbol`.
pub fn list_contains(list: &Vec<String>, symbol: &str) -> (r: bool)
    ensures
        r == lists_symbol(list@, symbol@),
{
    let mut i: usize = 0;
    while i < list.len()
        invariant
            i <= list.len(),
            forall|k: int| 0 <= k < i ==> (#[trigger] list@[k])@ != symbol@,
        decreases list.len() - i,
    {
        if text_eq(list[i].as_str(), symbol) {
            return true;
        }
        i = i + 1;
    }
    false
}

impl StorageConfig {
    /// Trades of `symbol` are written unless the symbol is listed as disabled.
    pub fn should_persist_trades(&self, symbol: &str) -> (r: bool)
        ensures
            r == !lists_symbol(self.disable_trade_persistence_for@, symbol@),
    {
        !list_contains(&self.disable_trade_persistence_for, symbol)
    }

    /// Order book data of `symbol` is written unless the symbol is listed as
    /// disabled.
    pub fn should_persist_orderbook(&self, symbol: &str) -> (r: bool)
        ensures
            r == !lists_symbol(self.disable_orderbook_persistence_for@, symbol@),
    {
        !list_contains(&self.disable_orderbook_persistence_for, symbol)
    }
}

impl Default for StorageConfig {
    /// Nothing is disabled.
    fn default() -> (r: StorageConfig)
        ensures
            r.disable_trade_persistence_for@.len() == 0,
            r.disable_orderbook_persistence_for@.len() == 0,
    {
        StorageConfig {
            disable_trade_persistence_for: Vec::new(),
            disable_orderbook_persistence_for: Vec::new(),
        }
    }
}

/// A symbol is listed exactly where it is one of the list, letter by letter.
pub proof fn symbols_are_listed_as_they_are(first: Seq<String>, rest: Seq<String>, symbol: Seq<char>)
    ensures
        lists_symbol(first + rest, symbol) <==> lists_symbol(first, symbol) || lists_symbol(
            rest,
            symbol,
        ),
        rest.len() == 1 ==> (lists_symbol(rest, symbol) <==> rest[0]@ == symbol),
        rest.len() == 0 ==> !lists_symbol(rest, symbol),
{
    if lists_symbol(first, symbol) {
        let i = choose|i: int| 0 <= i < first.len() && (#[trigger] first[i])@ == symbol;
        assert((first + rest)[i] == first[i]);
    }
    if lists_symbol(rest, symbol) {
        let i = choose|i: int| 0 <= i < rest.len() && (#[trigger] rest[i])@ == symbol;
        assert((first + rest)[first.len() + i] == rest[i]);
    }
    if lists_symbol(first + rest, symbol) {
        let i = choose|i: int|
            0 <= i < (first + rest).len() && (#[trigger] (first + rest)[i])@ == symbol;
        if i < first.len() {
            assert(first[i]@ == symbol);
        } else {
            assert(rest[i - first.len()]@ == symbol);
        }
    }
    if rest.len() == 1 && rest[0]@ == symbol {
        assert(lists_symbol(rest, symbol));
    }
}

} // verus!
