//! What becomes of stream messages: duplicates are dropped, records are made, counts
//! are kept.

use crate::constants;
use crate::models;
use crate::models::{
    format_decimal_str, AggTradeWs, KlineCsv, KlineWs, LiquidationCsv, LiquidationWs, TradeCsv,
};
use crate::symbol_maps;
use crate::text;
use crate::text_set::TextSet;
use dashmap::DashMap;
use std::collections::{HashSet, VecDeque};
use vstd::prelude::*;

verus! {

broadcast use vstd::std_specs::hash::group_hash_axioms;

/// Trade ids that are remembered of one symbol.
pub const TRADE_DEDUP_WINDOW: usize = 5000;

/// A symbol without a trade for longer than this, an hour, is forgotten.
pub const DEDUP_MAX_AGE_MS: i64 = 3_600_000;

/// The latest trade ids of a symbol.
pub struct TradeDedupWindow {
    seen: HashSet<i64>,
    order: VecDeque<i64>,
}

/// The window after an id was offered: a known id changes nothing; a new one is added,
/// and the oldest leaves when there are too many.
pub open spec fn window_after(ids: Seq<i64>, id: i64) -> Seq<i64> {
    if ids.contains(id) {
        ids
    } else if ids.len() + 1 > TRADE_DEDUP_WINDOW {
        ids.push(id).drop_first()
    } else {
        ids.push(id)
    }
}

impl View for TradeDedupWindow {
    type V = Seq<i64>;

    /// The remembered ids, oldest first.
    closed spec fn view(&self) -> Seq<i64> {
        self.order@
    }
}

impl TradeDedupWindow {
    /// The set and the queue hold the same ids, none twice, and not too many.
    pub closed spec fn wf(&self) -> bool {
        &&& self.order@.no_duplicates()
        &&& self.order@.len() <= TRADE_DEDUP_WINDOW
        &&& forall|id: i64| #[trigger] self.seen@.contains(id) <==> self.order@.contains(id)
    }

    /// A window that remembers nothing.
    pub fn new() -> (r: TradeDedupWindow)
        ensures
            r.wf(),
            r@.len() == 0,
    {
        TradeDedupWindow { seen: HashSet::new(), order: VecDeque::new() }
    }

    /// How many ids are remembered.
    pub fn len(&self) -> (r: usize)
        requires
            self.wf(),
        ensures
            r == self@.len(),
    {
        proof {
            self.order@.unique_seq_to_set();
            assert(self.seen@ =~= self.order@.to_set());
        }
        self.seen.len()
    }

    /// Offers a trade id. Returns whether it was new; it is then remembered.
    pub fn insert(&mut self, trade_id: i64) -> (r: bool)
        requires
            old(self).wf(),
        ensures
            final(self).wf(),
            r == !old(self)@.contains(trade_id),
            final(self)@ == window_after(old(self)@, trade_id),
    {
        let ghost before = self.order@;
        if !self.seen.insert(trade_id) {
            assert(self.seen@ =~= old(self).seen@);
            return false;
        }
        self.order.push_back(trade_id);
        proof {
            assert forall|id: i64| #[trigger] self.seen@.contains(id) <==> self.order@.contains(
                id,
            ) by {
                if before.contains(id) {
                    let k = choose|k: int| 0 <= k < before.len() && before[k] == id;
                    assert(self.order@[k] == id);
                }
                if id == trade_id {
                    assert(self.order@[before.len() as int] == id);
                }
                if self.order@.contains(id) && id != trade_id {
                    let k = choose|k: int| 0 <= k < self.order@.len() && self.order@[k] == id;
                    assert(before[k] == id);
                }
            }
            assert(self.order@.no_duplicates());
        }
        if self.order.len() > TRADE_DEDUP_WINDOW {
            let ghost full = self.order@;
            match self.order.pop_front() {
                Some(oldest) => {
                    self.seen.remove(&oldest);
                    proof {
                        let rest = self.order@;
                        assert(rest =~= full.drop_first());
                        assert forall|id: i64| #[trigger]
                            self.seen@.contains(id) <==> rest.contains(id) by {
                            if rest.contains(id) {
                                let k = choose|k: int| 0 <= k < rest.len() && rest[k] == id;
                                assert(full[k + 1] == id);
                                assert(full.contains(id));
                                assert(full[0] != full[k + 1]);
                            }
                            if self.seen@.contains(id) {
                                assert(full.contains(id));
                                let k = choose|k: int| 0 <= k < full.len() && full[k] == id;
                                assert(rest[k - 1] == id);
                            }
                        }
                        assert forall|i: int, j: int|
                            0 <= i < rest.len() && 0 <= j < rest.len() && i != j implies rest[i]
                            != rest[j] by {
                            assert(full[i + 1] != full[j + 1]);
                        }
                    }
                },
                None => {},
            }
        }
        true
    }
}

impl Default for TradeDedupWindow {
    fn default() -> (r: TradeDedupWindow)
        ensures
            r.wf(),
            r@.len() == 0,
    {
        TradeDedupWindow::new()
    }
}

/// A window never holds more than `TRADE_DEDUP_WINDOW` ids.
pub proof fn window_is_bounded(ids: Seq<i64>, id: i64)
    requires
        ids.len() <= TRADE_DEDUP_WINDOW,
    ensures
        window_after(ids, id).len() <= TRADE_DEDUP_WINDOW,
{
}

/// An id that was just offered is a duplicate when it comes again.
pub proof fn repeated_id_is_a_duplicate(ids: Seq<i64>, id: i64)
    requires
        ids.len() <= TRADE_DEDUP_WINDOW,
    ensures
        window_after(ids, id).contains(id),
{
    let after = window_after(ids, id);
    if !ids.contains(id) {
        assert(after[after.len() - 1] == id);
    }
}

/// Ids leave in the order in which they came, whatever their value: only the oldest is
/// forgotten, and only when the window is full.
pub proof fn oldest_id_leaves_first(ids: Seq<i64>, id: i64, held: int)
    requires
        ids.no_duplicates(),
        ids.len() <= TRADE_DEDUP_WINDOW,
        !ids.contains(id),
        0 <= held < ids.len(),
    ensures
        window_after(ids, id).contains(ids[held]) <==> (held > 0 || ids.len()
            < TRADE_DEDUP_WINDOW),
{
    let after = window_after(ids, id);
    if ids.len() < TRADE_DEDUP_WINDOW {
        assert(after[held] == ids[held]);
    } else {
        if held > 0 {
            assert(after[held - 1] == ids[held]);
        }
        if after.contains(ids[0]) {
            let k = choose|k: int| 0 <= k < after.len() && after[k] == ids[0];
            if k < ids.len() - 1 {
                assert(ids[k + 1] == after[k]);
            } else {
                assert(after[k] == id);
            }
        }
    }
}

/// What a map from symbols to windows holds.
pub uninterp spec fn window_entries(map: DashMap<String, TradeDedupWindow>) -> Map<
    Seq<char>,
    TradeDedupWindow,
>;

/// `DashMap::new`: an empty map.
#[verifier::external_body]
fn window_map() -> (r: DashMap<String, TradeDedupWindow>)
    ensures
        window_entries(r) == (Map::<Seq<char>, TradeDedupWindow>::empty()),
{
    DashMap::new()
}

/// `DashMap::insert`: the key maps to the window, other keys are as before.
#[verifier::external_body]
fn window_insert(map: &mut DashMap<String, TradeDedupWindow>, key: &str, window: TradeDedupWindow)
    ensures
        window_entries(*final(map)) == window_entries(*old(map)).insert(key@, window),
{
    map.insert(key.to_string(), window);
}

/// `DashMap::remove`: the window of the key is handed out, if there is one, and the key
/// is gone; other keys are as before.
#[verifier::external_body]
fn window_remove(map: &mut DashMap<String, TradeDedupWindow>, key: &str) -> (r: Option<
    TradeDedupWindow,
>)
    ensures
        r == (if window_entries(*old(map)).contains_key(key@) {
            Some(window_entries(*old(map))[key@])
        } else {
            None
        }),
        window_entries(*final(map)) == window_entries(*old(map)).remove(key@),
{
    map.remove(key).map(|entry| entry.1)
}

/// Counts of messages.
#[derive(Clone, Copy, Debug, PartialEq, Eq, Structural)]
pub struct MessageStats {
    pub depth_updates: u64,
    pub trades: u64,
    pub klines: u64,
    pub liquidations: u64,
    pub errors: u64,
    /// How many messages went into the average delay.
    pub total_latency_samples: u64,
}

impl MessageStats {
    /// All messages that were taken in.
    pub fn messages_total(&self) -> (r: u64)
        requires
            self.trades + self.depth_updates + self.klines + self.liquidations <= u64::MAX,
        ensures
            r == self.trades + self.depth_updates + self.klines + self.liquidations,
    {
        self.trades + self.depth_updates + self.klines + self.liquidations
    }
}

/// What is counted.
#[derive(Clone, Copy, Debug, PartialEq, Eq, Structural)]
pub enum Counter {
    DepthUpdate,
    Trade,
    Kline,
    Liquidation,
    Error,
    LatencySample,
}

/// One more, staying at the largest number.
pub open spec fn one_more(n: u64) -> u64 {
    if n == u64::MAX {
        n
    } else {
        (n + 1) as u64
    }
}

/// The counts after one more of something.
pub open spec fn counted(stats: MessageStats, what: Counter) -> MessageStats {
    match what {
        Counter::DepthUpdate => MessageStats {
            depth_updates: one_more(stats.depth_updates),
            ..stats
        },
        Counter::Trade => MessageStats { trades: one_more(stats.trades), ..stats },
        Counter::Kline => MessageStats { klines: one_more(stats.klines), ..stats },
        Counter::Liquidation => MessageStats { liquidations: one_more(stats.liquidations), ..stats },
        Counter::Error => MessageStats { errors: one_more(stats.errors), ..stats },
        Counter::LatencySample => MessageStats {
            total_latency_samples: one_more(stats.total_latency_samples),
            ..stats
        },
    }
}

/// The decimal texts of a kline with twelve places, `None` for one that is no number.
pub struct KlineDecimals {
    pub open: Option<String>,
    pub high: Option<String>,
    pub low: Option<String>,
    pub close: Option<String>,
    pub volume: Option<String>,
    pub quote_volume: Option<String>,
    pub taker_buy_base: Option<String>,
    pub taker_buy_quote: Option<String>,
}

/// A liquidation has a price or quantity that is no number.
#[derive(Clone, Copy, Debug, PartialEq, Eq, Structural)]
pub enum LiquidationError {
    NotANumber,
}

/// The decimal texts of a liquidation with twelve places: price, quantity and their
/// product.
pub struct LiquidationDecimals {
    pub price: String,
    pub quantity: String,
    pub value: String,
}

/// `record` is the record of a closed kline.
pub open spec fn is_kline_record(record: KlineCsv, message: KlineWs, decimals: KlineDecimals) -> bool {
    let kline = message.kline;
    &&& record.exchange@ == constants::EXCHANGE@
    &&& record.market@ == constants::MARKET@
    &&& record.datatype@ == constants::DATATYPE_KLINES@
    &&& record.timestamp_ms == kline.open_time
    &&& record.symbol@ == text::lowercase(kline.symbol@)
    &&& record.open@ == models::fixed_or_raw(kline.open@, decimals.open)
    &&& record.high@ == models::fixed_or_raw(kline.high@, decimals.high)
    &&& record.low@ == models::fixed_or_raw(kline.low@, decimals.low)
    &&& record.close@ == models::fixed_or_raw(kline.close@, decimals.close)
    &&& record.volume@ == models::fixed_or_raw(kline.volume@, decimals.volume)
    &&& record.quote_volume@ == models::fixed_or_raw(kline.quote_volume@, decimals.quote_volume)
    &&& record.trade_count == kline.trade_count
    &&& record.taker_buy_base@ == models::fixed_or_raw(
        kline.taker_buy_base_volume@,
        decimals.taker_buy_base,
    )
    &&& record.taker_buy_quote@ == models::fixed_or_raw(
        kline.taker_buy_quote_volume@,
        decimals.taker_buy_quote,
    )
}

/// The record of a kline, `None` while the kline is not closed.
pub fn process_kline(message: &KlineWs, decimals: KlineDecimals) -> (r: Option<KlineCsv>)
    ensures
        r is Some <==> message.kline.is_closed,
        r matches Some(record) ==> is_kline_record(record, *message, decimals),
        r matches Some(record) ==> {
            let kline = message.kline;
            &&& models::tells_number(record.open@, kline.open@, decimals.open)
            &&& models::tells_number(record.high@, kline.high@, decimals.high)
            &&& models::tells_number(record.low@, kline.low@, decimals.low)
            &&& models::tells_number(record.close@, kline.close@, decimals.close)
            &&& models::tells_number(record.volume@, kline.volume@, decimals.volume)
            &&& models::tells_number(
                record.quote_volume@,
                kline.quote_volume@,
                decimals.quote_volume,
            )
            &&& models::tells_number(
                record.taker_buy_base@,
                kline.taker_buy_base_volume@,
                decimals.taker_buy_base,
            )
            &&& models::tells_number(
                record.taker_buy_quote@,
                kline.taker_buy_quote_volume@,
                decimals.taker_buy_quote,
            )
        },
{
    let kline: &models::KlineData = &message.kline;
    if !kline.is_closed {
        return None;
    }
    Some(
        KlineCsv {
            exchange: constants::EXCHANGE.to_owned(),
            market: constants::MARKET.to_owned(),
            datatype: constants::DATATYPE_KLINES.to_owned(),
            timestamp_ms: kline.open_time,
            symbol: text::to_lowercase(kline.symbol.as_str()),
            open: format_decimal_str(kline.open.as_str(), decimals.open),
            high: format_decimal_str(kline.high.as_str(), decimals.high),
            low: format_decimal_str(kline.low.as_str(), decimals.low),
            close: format_decimal_str(kline.close.as_str(), decimals.close),
            volume: format_decimal_str(kline.volume.as_str(), decimals.volume),
            quote_volume: format_decimal_str(kline.quote_volume.as_str(), decimals.quote_volume),
            trade_count: kline.trade_count,
            taker_buy_base: format_decimal_str(
                kline.taker_buy_base_volume.as_str(),
                decimals.taker_buy_base,
            ),
            taker_buy_quote: format_decimal_str(
                kline.taker_buy_quote_volume.as_str(),
                decimals.taker_buy_quote,
            ),
        },
    )
}

/// `record` is the record of a liquidation.
pub open spec fn is_liquidation_record(
    record: LiquidationCsv,
    message: LiquidationWs,
    decimals: LiquidationDecimals,
) -> bool {
    &&& record.exchange@ == constants::EXCHANGE@
    &&& record.market@ == constants::MARKET@
    &&& record.datatype@ == constants::DATATYPE_LIQUIDATIONS@
    &&& record.timestamp_ms == message.event_time
    &&& record.symbol@ == text::lowercase(message.order.symbol@)
    &&& record.side@ == text::lowercase(message.order.side@)
    &&& record.price@ == decimals.price@
    &&& record.quantity@ == decimals.quantity@
    &&& record.value@ == decimals.value@
}

/// A handler as mathematical values.
pub struct HandlerView {
    pub windows: Map<Seq<char>, TradeDedupWindow>,
    pub last_seen: Map<Seq<char>, i64>,
    pub stats: MessageStats,
    pub allowed: Set<Seq<char>>,
}

impl HandlerView {
    /// The trade ids that are remembered of a symbol.
    pub open spec fn ids(self, symbol: Seq<char>) -> Seq<i64> {
        if self.windows.contains_key(symbol) {
            self.windows[symbol]@
        } else {
            seq![]
        }
    }

    /// The symbols without a trade for more than an hour.
    pub open spec fn forgotten(self, now_ms: i64) -> Set<Seq<char>> {
        self.last_seen.dom().filter(
            |symbol: Seq<char>| now_ms - self.last_seen[symbol] > DEDUP_MAX_AGE_MS,
        )
    }
}

/// Makes records of stream messages.
pub struct MessageHandler {
    trade_dedup: DashMap<String, TradeDedupWindow>,
    trade_dedup_last_seen: DashMap<String, i64>,
    stats: MessageStats,
    allowed_symbols: TextSet,
}

impl View for MessageHandler {
    type V = HandlerView;

    closed spec fn view(&self) -> HandlerView {
        HandlerView {
            windows: window_entries(self.trade_dedup),
            last_seen: symbol_maps::i64_entries(self.trade_dedup_last_seen),
            stats: self.stats,
            allowed: self.allowed_symbols@,
        }
    }
}

impl MessageHandler {
    /// All windows are in order.
    pub closed spec fn wf(&self) -> bool {
        &&& self.allowed_symbols.wf()
        &&& forall|symbol: Seq<char>| #[trigger]
            window_entries(self.trade_dedup).contains_key(symbol) ==> window_entries(
                self.trade_dedup,
            )[symbol].wf()
    }

    /// A handler that has seen nothing. Liquidations are taken of `allowed` symbols only.
    pub fn new(allowed: &Vec<String>) -> (r: MessageHandler)
        ensures
            r.wf(),
            r@.windows == (Map::<Seq<char>, TradeDedupWindow>::empty()),
            r@.last_seen == (Map::<Seq<char>, i64>::empty()),
            r@.stats == (MessageStats {
                depth_updates: 0,
                trades: 0,
                klines: 0,
                liquidations: 0,
                errors: 0,
                total_latency_samples: 0,
            }),
            r@.allowed == text::texts(allowed@).to_set(),
    {
        MessageHandler {
            trade_dedup: window_map(),
            trade_dedup_last_seen: symbol_maps::i64_map(),
            stats: MessageStats {
                depth_updates: 0,
                trades: 0,
                klines: 0,
                liquidations: 0,
                errors: 0,
                total_latency_samples: 0,
            },
            allowed_symbols: TextSet::from_list(allowed),
        }
    }

    /// Counts something.
    pub fn count(&mut self, what: Counter)
        requires
            old(self).wf(),
        ensures
            final(self).wf(),
            final(self)@ == (HandlerView {
                stats: counted(old(self)@.stats, what),
                ..old(self)@
            }),
    {
        match what {
            Counter::DepthUpdate => {
                self.stats.depth_updates = self.stats.depth_updates.saturating_add(1);
            },
            Counter::Trade => {
                self.stats.trades = self.stats.trades.saturating_add(1);
            },
            Counter::Kline => {
                self.stats.klines = self.stats.klines.saturating_add(1);
            },
            Counter::Liquidation => {
                self.stats.liquidations = self.stats.liquidations.saturating_add(1);
            },
            Counter::Error => {
                self.stats.errors = self.stats.errors.saturating_add(1);
            },
            Counter::LatencySample => {
                self.stats.total_latency_samples = self.stats.total_latency_samples.saturating_add(
                    1,
                );
            },
        }
    }

    /// Takes in a trade at `now_ms`: its record, or `None` when it is a duplicate.
    pub fn process_trade(
        &mut self,
        trade: &AggTradeWs,
        price: Option<String>,
        quantity: Option<String>,
        now_ms: i64,
    ) -> (r: Option<TradeCsv>)
        requires
            old(self).wf(),
        ensures
            trade_seen(old(self)@, final(self)@, *trade, r is Some, now_ms),
            final(self).wf(),
            final(self)@.stats == old(self)@.stats,
            final(self)@.allowed == old(self)@.allowed,
            ({
                let symbol = trade.symbol@;
                let ids = old(self)@.ids(symbol);
                let id = trade.aggregate_trade_id;
                &&& r is None <==> ids.contains(id)
                &&& final(self)@.windows.dom() == old(self)@.windows.dom().insert(symbol)
                &&& final(self)@.ids(symbol) == window_after(ids, id)
                &&& forall|other: Seq<char>|
                    other != symbol ==> #[trigger] final(self)@.ids(other) == old(self)@.ids(other)
                &&& final(self)@.last_seen == (if ids.contains(id) {
                    old(self)@.last_seen
                } else {
                    old(self)@.last_seen.insert(symbol, now_ms)
                })
            }),
            r matches Some(record) ==> {
                &&& record.exchange@ == constants::EXCHANGE@
                &&& record.market@ == constants::MARKET@
                &&& record.datatype@ == constants::DATATYPE_TRADES@
                &&& record.timestamp_ms == trade.trade_time
                &&& record.symbol@ == text::lowercase(trade.symbol@)
                &&& record.trade_id == trade.aggregate_trade_id
                &&& record.price@ == models::fixed_or_raw(trade.price@, price)
                &&& record.quantity@ == models::fixed_or_raw(trade.quantity@, quantity)
                &&& record.side@ == models::taker_side(trade.is_buyer_maker)
                &&& record.is_buyer_maker == (if trade.is_buyer_maker {
                    1int
                } else {
                    0
                })
                &&& record.first_update_id == trade.first_trade_id
                &&& record.last_update_id == trade.last_trade_id
                &&& models::is_trade_record(record, *trade, price, quantity)
            },
    {
        let symbol: &str = trade.symbol.as_str();
        let mut window: TradeDedupWindow = match window_remove(&mut self.trade_dedup, symbol) {
            Some(window) => window,
            None => TradeDedupWindow::new(),
        };
        assert(window@ =~= old(self)@.ids(symbol@));
        let is_new: bool = window.insert(trade.aggregate_trade_id);
        window_insert(&mut self.trade_dedup, symbol, window);
        proof {
            let before = old(self)@.windows;
            let after = window_entries(self.trade_dedup);
            assert(after =~= before.insert(symbol@, window));
            assert(after.dom() =~= before.dom().insert(symbol@));
            assert forall|s: Seq<char>| #[trigger] after.contains_key(s) implies after[s].wf() by {
                if s != symbol@ {
                    assert(before.contains_key(s));
                }
            }
        }
        if !is_new {
            return None;
        }
        symbol_maps::i64_insert(&mut self.trade_dedup_last_seen, symbol, now_ms);
        Some(trade.to_csv(price, quantity))
    }

    /// The record of a liquidation. `Ok(None)` for a symbol that is not collected: the
    /// stream of liquidations covers the whole market. `decimals` is `None` where price
    /// or quantity is no number.
    pub fn process_liquidation(
        &self,
        message: &LiquidationWs,
        decimals: Option<LiquidationDecimals>,
    ) -> (r: Result<Option<LiquidationCsv>, LiquidationError>)
        requires
            self.wf(),
        ensures
            answers_liquidation(self@.allowed, *message, decimals, r),
            ({
                let allowed = self@.allowed.contains(text::lowercase(message.order.symbol@));
                &&& (r matches Ok(out) && out is None) <==> !allowed
                &&& r is Err <==> allowed && decimals is None
                &&& r matches Ok(out) ==> (out matches Some(record) ==> decimals is Some
                    && is_liquidation_record(record, *message, decimals->0))
            }),
    {
        let symbol: String = text::to_lowercase(message.order.symbol.as_str());
        if !self.allowed_symbols.contains(symbol.as_str()) {
            return Ok(None);
        }
        match decimals {
            Some(texts) => Ok(
                Some(
                    LiquidationCsv {
                        exchange: constants::EXCHANGE.to_owned(),
                        market: constants::MARKET.to_owned(),
                        datatype: constants::DATATYPE_LIQUIDATIONS.to_owned(),
                        timestamp_ms: message.event_time,
                        symbol,
                        side: text::to_lowercase(message.order.side.as_str()),
                        price: texts.price,
                        quantity: texts.quantity,
                        value: texts.value,
                    },
                ),
            ),
            None => Err(LiquidationError::NotANumber),
        }
    }

    /// Forgets the trade ids of symbols that had no trade for more than an hour; returns
    /// how many symbols those are.
    pub fn cleanup(&mut self, now_ms: i64) -> (r: usize)
        requires
            old(self).wf(),
        ensures
            final(self).wf(),
            r == old(self)@.forgotten(now_ms).len(),
            final(self)@ == (HandlerView {
                windows: old(self)@.windows.remove_keys(old(self)@.forgotten(now_ms)),
                last_seen: old(self)@.last_seen.remove_keys(old(self)@.forgotten(now_ms)),
                ..old(self)@
            }),
    {
        let list: Vec<(String, i64)> = symbol_maps::i64_list(&self.trade_dedup_last_seen);
        let ghost before = self@;
        let ghost mut gone: Set<Seq<char>> = Set::empty();
        let mut count: usize = 0;
        let mut i: usize = 0;
        proof {
            assert(before.windows.remove_keys(gone) =~= before.windows);
            assert(before.last_seen.remove_keys(gone) =~= before.last_seen);
        }
        while i < list.len()
            invariant
                i <= list.len(),
                count <= i,
                before == old(self)@,
                symbol_maps::lists_entries(before.last_seen, list@),
                self.wf(),
                gone.finite(),
                gone.len() == count,
                forall|symbol: Seq<char>| #[trigger]
                    gone.contains(symbol) ==> before.forgotten(now_ms).contains(symbol),
                forall|k: int, symbol: Seq<char>|
                    i <= k < list.len() && #[trigger] gone.contains(symbol) ==> (
                    #[trigger] list@[k]).0@ != symbol,
                forall|k: int|
                    0 <= k < i && now_ms - (#[trigger] list@[k]).1 > DEDUP_MAX_AGE_MS
                        ==> gone.contains(list@[k].0@),
                self@.stats == before.stats,
                self@.allowed == before.allowed,
                self@.windows == before.windows.remove_keys(gone),
                self@.last_seen == before.last_seen.remove_keys(gone),
            decreases list.len() - i,
        {
            if now_ms as i128 - list[i].1 as i128 > DEDUP_MAX_AGE_MS as i128 {
                let ghost name = list@[i as int].0@;
                assert(before.last_seen.contains_key(name));
                window_remove(&mut self.trade_dedup, list[i].0.as_str());
                symbol_maps::i64_remove(&mut self.trade_dedup_last_seen, list[i].0.as_str());
                count = count + 1;
                proof {
                    let windows = window_entries(self.trade_dedup);
                    assert forall|s: Seq<char>| #[trigger]
                        windows.contains_key(s) implies windows[s].wf() by {
                        assert(before.windows.remove_keys(gone).contains_key(s));
                    }
                    assert(before.windows.remove_keys(gone).remove(name)
                        =~= before.windows.remove_keys(gone.insert(name)));
                    assert(before.last_seen.remove_keys(gone).remove(name)
                        =~= before.last_seen.remove_keys(gone.insert(name)));
                    gone = gone.insert(name);
                }
            }
            i = i + 1;
        }
        proof {
            let due = before.forgotten(now_ms);
            assert forall|s: Seq<char>| gone.contains(s) <==> due.contains(s) by {
                if due.contains(s) {
                    assert(before.last_seen.contains_key(s));
                    let k = choose|k: int| 0 <= k < list.len() && (#[trigger] list@[k]).0@ == s;
                    assert(gone.contains(list@[k].0@));
                }
            }
            assert(gone =~= due);
        }
        count
    }

    /// The counts.
    pub fn get_stats(&self) -> (r: MessageStats)
        ensures
            r == self@.stats,
    {
        self.stats
    }
}

/// Each column of a kline record is the number of the field of the same name, and the record
/// stands at the time at which the kline opened.
pub proof fn kline_columns_keep_their_fields(
    record: KlineCsv,
    message: KlineWs,
    decimals: KlineDecimals,
)
    requires
        is_kline_record(record, message, decimals),
    ensures
        models::tells_number(record.open@, message.kline.open@, decimals.open),
        models::tells_number(record.high@, message.kline.high@, decimals.high),
        models::tells_number(record.low@, message.kline.low@, decimals.low),
        models::tells_number(record.close@, message.kline.close@, decimals.close),
        models::tells_number(record.volume@, message.kline.volume@, decimals.volume),
        models::tells_number(
            record.quote_volume@,
            message.kline.quote_volume@,
            decimals.quote_volume,
        ),
        models::tells_number(
            record.taker_buy_base@,
            message.kline.taker_buy_base_volume@,
            decimals.taker_buy_base,
        ),
        models::tells_number(
            record.taker_buy_quote@,
            message.kline.taker_buy_quote_volume@,
            decimals.taker_buy_quote,
        ),
        record.trade_count == message.kline.trade_count,
        record.timestamp_ms == message.kline.open_time,
        record.symbol@ == text::lowercase(message.kline.symbol@),
        record.datatype@ == "klines"@,
        record.exchange@ == "binance"@,
        record.market@ == "futures"@,
{
}

/// The prices of a kline keep their order in the record, by whatever order texts of numbers
/// are compared: where the low is below open and close and they are below the high, so it is
/// in the record. Volumes that are parts of others stay so.
pub proof fn kline_prices_keep_their_order(
    record: KlineCsv,
    message: KlineWs,
    decimals: KlineDecimals,
    open: Seq<char>,
    high: Seq<char>,
    low: Seq<char>,
    close: Seq<char>,
    at_most: spec_fn(Seq<char>, Seq<char>) -> bool,
)
    requires
        is_kline_record(record, message, decimals),
        models::tells_number(open, message.kline.open@, decimals.open),
        models::tells_number(high, message.kline.high@, decimals.high),
        models::tells_number(low, message.kline.low@, decimals.low),
        models::tells_number(close, message.kline.close@, decimals.close),
        at_most(low, open),
        at_most(low, close),
        at_most(open, high),
        at_most(close, high),
    ensures
        at_most(record.low@, record.open@),
        at_most(record.low@, record.close@),
        at_most(record.open@, record.high@),
        at_most(record.close@, record.high@),
        record.open@ == open,
{
}

/// A column of a kline record depends on the field of the same name alone: two klines that
/// agree there have records that agree there, whatever else they say.
pub proof fn kline_columns_are_independent(
    a: KlineWs,
    b: KlineWs,
    of_a: KlineDecimals,
    of_b: KlineDecimals,
    first: KlineCsv,
    second: KlineCsv,
)
    requires
        is_kline_record(first, a, of_a),
        is_kline_record(second, b, of_b),
    ensures
        a.kline.open == b.kline.open && of_a.open == of_b.open ==> first.open@ == second.open@,
        a.kline.high == b.kline.high && of_a.high == of_b.high ==> first.high@ == second.high@,
        a.kline.low == b.kline.low && of_a.low == of_b.low ==> first.low@ == second.low@,
        a.kline.close == b.kline.close && of_a.close == of_b.close ==> first.close@ == second.close@,
        a.kline.volume == b.kline.volume && of_a.volume == of_b.volume ==> first.volume@
            == second.volume@,
        a.kline.quote_volume == b.kline.quote_volume && of_a.quote_volume == of_b.quote_volume
            ==> first.quote_volume@ == second.quote_volume@,
        a.kline.taker_buy_base_volume == b.kline.taker_buy_base_volume && of_a.taker_buy_base
            == of_b.taker_buy_base ==> first.taker_buy_base@ == second.taker_buy_base@,
        a.kline.taker_buy_quote_volume == b.kline.taker_buy_quote_volume && of_a.taker_buy_quote
            == of_b.taker_buy_quote ==> first.taker_buy_quote@ == second.taker_buy_quote@,
        first.timestamp_ms < second.timestamp_ms <==> a.kline.open_time < b.kline.open_time,
        first.trade_count <= second.trade_count <==> a.kline.trade_count <= b.kline.trade_count,
{
}

/// A liquidation record tells the event: its time, the symbol and side of the order in lower
/// case, and the numbers of price, quantity and value each in its own column.
pub proof fn liquidation_records_tell_the_event(
    record: LiquidationCsv,
    message: LiquidationWs,
    decimals: LiquidationDecimals,
)
    requires
        is_liquidation_record(record, message, decimals),
    ensures
        record.timestamp_ms == message.event_time,
        record.symbol@ == text::lowercase(message.order.symbol@),
        record.side@ == text::lowercase(message.order.side@),
        record.price@ == decimals.price@,
        record.quantity@ == decimals.quantity@,
        record.value@ == decimals.value@,
        record.datatype@ == "liquidations"@,
        record.exchange@ == "binance"@,
        record.market@ == "futures"@,
{
}

/// The last five thousand ids of a symbol are remembered: a new id makes the window longer
/// by one until it is that long, and then takes the place of the oldest.
pub proof fn five_thousand_ids_are_remembered(ids: Seq<i64>, id: i64)
    requires
        ids.len() <= 5000,
        !ids.contains(id),
    ensures
        window_after(ids, id).len() == (if ids.len() < 5000 {
            ids.len() + 1
        } else {
            5000
        }),
        window_after(ids, id).last() == id,
        ids.len() < 5000 ==> window_after(ids, id).drop_last() == ids,
        ids.len() == 5000 ==> window_after(ids, id).drop_last() == ids.drop_first(),
        window_after(window_after(ids, id), id) == window_after(ids, id),
{
    repeated_id_is_a_duplicate(ids, id);
    let after = window_after(ids, id);
    if ids.len() < 5000 {
        assert(after.drop_last() =~= ids);
    } else {
        assert(after.drop_last() =~= ids.drop_first());
    }
}

/// A symbol is forgotten exactly where its last trade is more than an hour ago.
pub proof fn an_hour_without_trades_is_forgotten(
    handler: HandlerView,
    symbol: Seq<char>,
    now_ms: i64,
)
    ensures
        handler.forgotten(now_ms).contains(symbol) <==> handler.last_seen.contains_key(symbol)
            && handler.last_seen[symbol] + 3_600_000 < now_ms,
{
}

/// What is counted goes up by one, up to the largest number, and nothing else changes.
pub proof fn counts_go_up_one_by_one(stats: MessageStats, what: Counter)
    ensures
        ({
            let after = counted(stats, what);
            let step = |before: u64, now: u64, mine: bool|
                now == (if mine && before < u64::MAX {
                    before + 1
                } else {
                    before as int
                });
            &&& step(stats.depth_updates, after.depth_updates, what is DepthUpdate)
            &&& step(stats.trades, after.trades, what is Trade)
            &&& step(stats.klines, after.klines, what is Kline)
            &&& step(stats.liquidations, after.liquidations, what is Liquidation)
            &&& step(stats.errors, after.errors, what is Error)
            &&& step(stats.total_latency_samples, after.total_latency_samples, what is LatencySample)
        }),
{
}

/// What a trade that came in at `now_ms` leaves behind; `taken` tells whether it is new.
pub open spec fn trade_seen(
    before: HandlerView,
    after: HandlerView,
    trade: AggTradeWs,
    taken: bool,
    now_ms: i64,
) -> bool {
    let symbol = trade.symbol@;
    let ids = before.ids(symbol);
    &&& taken <==> !ids.contains(trade.aggregate_trade_id)
    &&& after.ids(symbol) == window_after(ids, trade.aggregate_trade_id)
    &&& forall|other: Seq<char>| other != symbol ==> #[trigger] after.ids(other) == before.ids(other)
    &&& after.last_seen == (if taken {
        before.last_seen.insert(symbol, now_ms)
    } else {
        before.last_seen
    })
    &&& after.stats == before.stats
    &&& after.allowed == before.allowed
}

/// A trade is taken once: the next with its id and symbol is a duplicate. Trades of other
/// symbols do not count as such, whatever their ids.
pub proof fn trades_are_taken_once(
    start: HandlerView,
    between: HandlerView,
    end: HandlerView,
    first: AggTradeWs,
    second: AggTradeWs,
    first_taken: bool,
    second_taken: bool,
    first_ms: i64,
    second_ms: i64,
)
    requires
        trade_seen(start, between, first, first_taken, first_ms),
        trade_seen(between, end, second, second_taken, second_ms),
        start.ids(first.symbol@).len() <= 5000,
    ensures
        second.symbol@ == first.symbol@ && second.aggregate_trade_id == first.aggregate_trade_id
            ==> !second_taken && end.ids(first.symbol@) == between.ids(first.symbol@)
            && end.last_seen == between.last_seen,
        second.symbol@ != first.symbol@ ==> (second_taken <==> !start.ids(second.symbol@).contains(
            second.aggregate_trade_id,
        )),
        start.ids(first.symbol@).len() == 0 ==> first_taken,
        first_taken ==> between.last_seen.contains_key(first.symbol@)
            && between.last_seen[first.symbol@] == first_ms,
{
    repeated_id_is_a_duplicate(start.ids(first.symbol@), first.aggregate_trade_id);
}

/// What a liquidation is answered: nothing where its symbol is not collected, an error
/// where its numbers cannot be read, its record otherwise.
pub open spec fn answers_liquidation(
    allowed: Set<Seq<char>>,
    message: LiquidationWs,
    decimals: Option<LiquidationDecimals>,
    answer: Result<Option<LiquidationCsv>, LiquidationError>,
) -> bool {
    let collected = allowed.contains(text::lowercase(message.order.symbol@));
    match answer {
        Err(_) => collected && decimals is None,
        Ok(None) => !collected,
        Ok(Some(record)) => collected && decimals is Some && is_liquidation_record(
            record,
            message,
            decimals->0,
        ),
    }
}

/// Liquidations come for all symbols at once; exactly those of collected symbols are
/// recorded, and one of them is never dropped in silence.
pub proof fn liquidations_of_collected_symbols_are_recorded(
    allowed: Set<Seq<char>>,
    message: LiquidationWs,
    decimals: Option<LiquidationDecimals>,
    answer: Result<Option<LiquidationCsv>, LiquidationError>,
)
    requires
        answers_liquidation(allowed, message, decimals, answer),
    ensures
        !allowed.contains(text::lowercase(message.order.symbol@)) <==> (answer matches Ok(out)
            && out is None),
        allowed.contains(text::lowercase(message.order.symbol@)) && decimals is None
            <==> answer is Err,
        allowed.contains(text::lowercase(message.order.symbol@)) ==> (
        decimals matches Some(numbers) ==> (answer matches Ok(Some(record))
            && record.price@ == numbers.price@ && record.quantity@ == numbers.quantity@
            && record.value@ == numbers.value@ && record.timestamp_ms == message.event_time
            && record.symbol@ == text::lowercase(message.order.symbol@) && record.side@
            == text::lowercase(message.order.side@))),
{
}

} // verus!
