//! Records: what comes in from streams and requests, and what goes out as CSV.

use crate::constants;
use crate::text;
use vstd::prelude::*;

verus! {

/// WebSocket depth update message (incoming from Binance).
#[derive(Debug)]
pub struct DepthUpdateWs {
    /// "depthUpdate".
    pub event_type: String,
    pub event_time: i64,
    pub transaction_time: i64,
    pub symbol: String,
    pub first_update_id: u64,
    pub final_update_id: u64,
    pub prev_update_id: u64,
    /// Bid levels as sent: price, quantity.
    pub bids: Vec<[String; 2]>,
    /// Ask levels as sent: price, quantity.
    pub asks: Vec<[String; 2]>,
    /// Bit patterns of the prices and quantities of `bids`, one entry for each
    /// level; `None` where one of the two is not a number.
    pub bid_values: Vec<Option<(u64, u64)>>,
    /// The same for `asks`.
    pub ask_values: Vec<Option<(u64, u64)>>,
    /// Bid levels converted ahead of time (bit patterns of price and quantity).
    /// Where present they are used in place of `bids`.
    pub b_floats: Option<Vec<(u64, u64)>>,
    /// The same for `asks`.
    pub a_floats: Option<Vec<(u64, u64)>>,
}

/// A depth update as mathematical values.
pub struct DepthUpdateView {
    pub event_type: Seq<char>,
    pub event_time: i64,
    pub transaction_time: i64,
    pub symbol: Seq<char>,
    pub first_update_id: u64,
    pub final_update_id: u64,
    pub prev_update_id: u64,
    pub bids: Seq<(Seq<char>, Seq<char>)>,
    pub asks: Seq<(Seq<char>, Seq<char>)>,
    pub bid_values: Seq<Option<(u64, u64)>>,
    pub ask_values: Seq<Option<(u64, u64)>>,
    pub b_floats: Option<Seq<(u64, u64)>>,
    pub a_floats: Option<Seq<(u64, u64)>>,
}

impl View for DepthUpdateWs {
    type V = DepthUpdateView;

    open spec fn view(&self) -> DepthUpdateView {
        DepthUpdateView {
            event_type: self.event_type@,
            event_time: self.event_time,
            transaction_time: self.transaction_time,
            symbol: self.symbol@,
            first_update_id: self.first_update_id,
            final_update_id: self.final_update_id,
            prev_update_id: self.prev_update_id,
            bids: level_texts(self.bids@),
            asks: level_texts(self.asks@),
            bid_values: self.bid_values@,
            ask_values: self.ask_values@,
            b_floats: pairs_view(self.b_floats),
            a_floats: pairs_view(self.a_floats),
        }
    }
}

/// Levels converted ahead of time, where there are any.
pub open spec fn pairs_view(pairs: Option<Vec<(u64, u64)>>) -> Option<Seq<(u64, u64)>> {
    match pairs {
        Some(levels) => Some(levels@),
        None => None,
    }
}

fn copy_levels(levels: &Vec<[String; 2]>) -> (r: Vec<[String; 2]>)
    ensures
        level_texts(r@) == level_texts(levels@),
{
    let mut out: Vec<[String; 2]> = Vec::new();
    let mut i: usize = 0;
    while i < levels.len()
        invariant
            i <= levels.len(),
            out.len() == i,
            forall|k: int| 0 <= k < i ==> level_text(#[trigger] out@[k]) == level_text(levels@[k]),
        decreases levels.len() - i,
    {
        out.push([levels[i][0].clone(), levels[i][1].clone()]);
        i = i + 1;
    }
    assert(level_texts(out@) =~= level_texts(levels@));
    out
}

fn copy_values(values: &Vec<Option<(u64, u64)>>) -> (r: Vec<Option<(u64, u64)>>)
    ensures
        r@ == values@,
{
    let mut out: Vec<Option<(u64, u64)>> = Vec::new();
    let mut i: usize = 0;
    while i < values.len()
        invariant
            i <= values.len(),
            out@ == values@.take(i as int),
        decreases values.len() - i,
    {
        out.push(values[i]);
        i = i + 1;
        assert(out@ =~= values@.take(i as int));
    }
    assert(values@.take(i as int) =~= values@);
    out
}

fn copy_pairs(pairs: &Option<Vec<(u64, u64)>>) -> (r: Option<Vec<(u64, u64)>>)
    ensures
        pairs_view(r) == pairs_view(*pairs),
{
    match pairs {
        Some(levels) => {
            let mut out: Vec<(u64, u64)> = Vec::new();
            let mut i: usize = 0;
            while i < levels.len()
                invariant
                    i <= levels.len(),
                    out@ == levels@.take(i as int),
                decreases levels.len() - i,
            {
                out.push(levels[i]);
                i = i + 1;
                assert(out@ =~= levels@.take(i as int));
            }
            assert(levels@.take(i as int) =~= levels@);
            Some(out)
        },
        None => None,
    }
}

impl Clone for DepthUpdateWs {
    fn clone(&self) -> (r: DepthUpdateWs)
        ensures
            r@ == self@,
    {
        DepthUpdateWs {
            event_type: self.event_type.clone(),
            event_time: self.event_time,
            transaction_time: self.transaction_time,
            symbol: self.symbol.clone(),
            first_update_id: self.first_update_id,
            final_update_id: self.final_update_id,
            prev_update_id: self.prev_update_id,
            bids: copy_levels(&self.bids),
            asks: copy_levels(&self.asks),
            bid_values: copy_values(&self.bid_values),
            ask_values: copy_values(&self.ask_values),
            b_floats: copy_pairs(&self.b_floats),
            a_floats: copy_pairs(&self.a_floats),
        }
    }
}

/// CSV format for depth updates.
#[derive(Debug)]
pub struct DepthUpdateCsv {
    pub exchange: String,
    pub market: String,
    pub datatype: String,
    pub timestamp_ms: i64,
    pub symbol: String,
    pub first_update_id: u64,
    pub last_update_id: u64,
    pub prev_update_id: u64,
    pub bids_json: String,
    pub asks_json: String,
}

/// REST API depth snapshot response.
#[derive(Debug)]
pub struct DepthSnapshotRest {
    pub last_update_id: u64,
    pub bids: Vec<[String; 2]>,
    pub asks: Vec<[String; 2]>,
    /// Bit patterns of the prices and quantities of `bids`, one entry for each
    /// level; `None` where one of the two is not a number.
    pub bid_values: Vec<Option<(u64, u64)>>,
    /// The same for `asks`.
    pub ask_values: Vec<Option<(u64, u64)>>,
}

/// CSV format for depth snapshots (one row per price level).
#[derive(Debug)]
pub struct DepthSnapshotCsv {
    pub exchange: String,
    pub market: String,
    pub datatype: String,
    pub timestamp_ms: i64,
    pub symbol: String,
    /// depth_snapshot_initial, depth_snapshot, etc.
    pub event_type: String,
    /// "bid" or "ask".
    pub side: String,
    /// 12 decimal places.
    pub price: String,
    /// 12 decimal places.
    pub quantity: String,
    pub last_update_id: u64,
}

/// WebSocket aggregated trade message.
#[derive(Debug)]
pub struct AggTradeWs {
    /// "aggTrade".
    pub event_type: String,
    pub event_time: i64,
    pub symbol: String,
    pub aggregate_trade_id: i64,
    pub price: String,
    pub quantity: String,
    pub first_trade_id: i64,
    pub last_trade_id: i64,
    pub trade_time: i64,
    pub is_buyer_maker: bool,
}

/// CSV format for trades.
#[derive(Debug)]
pub struct TradeCsv {
    pub exchange: String,
    pub market: String,
    pub datatype: String,
    pub timestamp_ms: i64,
    pub symbol: String,
    pub trade_id: i64,
    pub price: String,
    pub quantity: String,
    /// "buy" or "sell".
    pub side: String,
    /// 1 or 0.
    pub is_buyer_maker: i32,
    pub first_update_id: i64,
    pub last_update_id: i64,
}

/// WebSocket kline message.
#[derive(Debug)]
pub struct KlineWs {
    /// "kline".
    pub event_type: String,
    pub event_time: i64,
    pub symbol: String,
    pub kline: KlineData,
}

#[derive(Debug)]
pub struct KlineData {
    pub open_time: i64,
    pub close_time: i64,
    pub symbol: String,
    pub interval: String,
    pub open: String,
    pub high: String,
    pub low: String,
    pub close: String,
    pub volume: String,
    pub quote_volume: String,
    pub trade_count: i64,
    pub is_closed: bool,
    pub taker_buy_base_volume: String,
    pub taker_buy_quote_volume: String,
}

/// CSV format for klines.
#[derive(Debug)]
pub struct KlineCsv {
    pub exchange: String,
    pub market: String,
    pub datatype: String,
    pub timestamp_ms: i64,
    pub symbol: String,
    pub open: String,
    pub high: String,
    pub low: String,
    pub close: String,
    pub volume: String,
    pub quote_volume: String,
    pub trade_count: i64,
    pub taker_buy_base: String,
    pub taker_buy_quote: String,
}

/// WebSocket liquidation order message.
#[derive(Debug)]
pub struct LiquidationWs {
    /// "forceOrder".
    pub event_type: String,
    pub event_time: i64,
    pub order: LiquidationOrder,
}

#[derive(Debug)]
pub struct LiquidationOrder {
    pub symbol: String,
    /// "SELL" or "BUY".
    pub side: String,
    pub price: String,
    pub quantity: String,
    pub time: i64,
}

/// CSV format for liquidations.
#[derive(Debug)]
pub struct LiquidationCsv {
    pub exchange: String,
    pub market: String,
    pub datatype: String,
    pub timestamp_ms: i64,
    pub symbol: String,
    /// "buy" or "sell".
    pub side: String,
    pub price: String,
    pub quantity: String,
    /// price * quantity.
    pub value: String,
}

/// REST API funding rate response (part of premiumIndex endpoint).
#[derive(Debug)]
pub struct FundingRateRest {
    pub symbol: String,
    pub mark_price: String,
    pub index_price: String,
    pub estimated_settle_price: String,
    pub last_funding_rate: String,
    pub next_funding_time: i64,
    pub interest_rate: String,
    pub time: i64,
}

/// CSV format for funding rates.
#[derive(Debug)]
pub struct FundingRateCsv {
    pub exchange: String,
    pub market: String,
    pub datatype: String,
    pub timestamp_ms: i64,
    pub symbol: String,
    pub funding_rate: String,
    pub next_funding_time: i64,
}

/// REST API open interest response.
#[derive(Debug)]
pub struct OpenInterestRest {
    pub open_interest: String,
    pub symbol: String,
    pub time: i64,
}

/// CSV format for open interest.
#[derive(Debug)]
pub struct OpenInterestCsv {
    pub exchange: String,
    pub market: String,
    pub datatype: String,
    pub timestamp_ms: i64,
    pub symbol: String,
    /// Current mark price.
    pub price: String,
    pub open_interest: String,
    /// open_interest * price.
    pub oi_value: String,
}

/// REST API long/short ratio response.
#[derive(Debug)]
pub struct LongShortRatioRest {
    pub symbol: String,
    /// Not always present.
    pub pair: Option<String>,
    /// Binance global ratio.
    pub long_account: Option<String>,
    /// Binance global ratio.
    pub short_account: Option<String>,
    pub long_short_ratio: String,
    pub timestamp: i64,
}

/// CSV format for long/short ratio.
#[derive(Debug)]
pub struct LongShortRatioCsv {
    pub exchange: String,
    pub market: String,
    pub datatype: String,
    pub timestamp_ms: i64,
    pub symbol: String,
    /// "5m".
    pub period: String,
    /// "global", "top_trader_account", "top_trader_position".
    pub ratio_type: String,
    pub long_ratio: String,
    pub short_ratio: String,
    pub long_short_ratio: String,
}

/// CSV format for mark price klines.
#[derive(Debug)]
pub struct MarkPriceKlineCsv {
    pub exchange: String,
    pub market: String,
    pub datatype: String,
    pub timestamp_ms: i64,
    pub symbol: String,
    pub open: String,
    pub high: String,
    pub low: String,
    pub close: String,
}

/// Symbol information from exchange info API.
#[derive(Debug)]
pub struct ExchangeInfoSymbol {
    pub symbol: String,
    pub status: String,
    pub base_asset: String,
    pub quote_asset: String,
    pub underlying_type: Option<String>,
    pub contract_type: String,
}

/// Exchange info response.
#[derive(Debug)]
pub struct ExchangeInfo {
    pub symbols: Vec<ExchangeInfoSymbol>,
}

/// REST API taker buy/sell volume ratio response.
#[derive(Debug)]
pub struct TakerBuySellVolumeRest {
    pub buy_sell_ratio: String,
    pub buy_vol: String,
    pub sell_vol: String,
    pub timestamp: i64,
}

/// CSV format for taker buy/sell volume ratio.
#[derive(Debug)]
pub struct TakerBuySellVolumeCsv {
    pub exchange: String,
    pub market: String,
    pub datatype: String,
    pub timestamp_ms: i64,
    pub symbol: String,
    pub period: String,
    pub buy_volume: String,
    pub sell_volume: String,
    pub buy_sell_ratio: String,
}

/// CSV format for premium index klines (same structure as mark/index klines).
#[derive(Debug)]
pub struct PremiumIndexKlineCsv {
    pub exchange: String,
    pub market: String,
    pub datatype: String,
    pub timestamp_ms: i64,
    pub symbol: String,
    pub open: String,
    pub high: String,
    pub low: String,
    pub close: String,
}

/// Index price klines have the columns of mark price klines.
pub type IndexPriceKlineCsv = MarkPriceKlineCsv;

/// The two texts of one price level.
pub open spec fn level_text(level: [String; 2]) -> (Seq<char>, Seq<char>) {
    (level@[0]@, level@[1]@)
}

/// The texts of a list of price levels.
pub open spec fn level_texts(levels: Seq<[String; 2]>) -> Seq<(Seq<char>, Seq<char>)> {
    levels.map_values(|l: [String; 2]| level_text(l))
}

/// A lower-case hexadecimal digit.
pub open spec fn hex_char(d: nat) -> char {
    if d < 10 {
        (48 + d) as char
    } else {
        (87 + d) as char
    }
}

/// One character of a JSON string: quote, backslash and control characters are
/// escaped, everything else stands for itself.
pub open spec fn json_char(c: char) -> Seq<char> {
    let n = c as nat;
    if c == '"' {
        seq!['\\', '"']
    } else if c == '\\' {
        seq!['\\', '\\']
    } else if n == 8 {
        seq!['\\', 'b']
    } else if n == 9 {
        seq!['\\', 't']
    } else if n == 10 {
        seq!['\\', 'n']
    } else if n == 12 {
        seq!['\\', 'f']
    } else if n == 13 {
        seq!['\\', 'r']
    } else if n < 32 {
        seq!['\\', 'u', '0', '0', hex_char(n / 16), hex_char(n % 16)]
    } else {
        seq![c]
    }
}

/// The inside of a JSON string.
pub open spec fn json_chars(s: Seq<char>) -> Seq<char>
    decreases s.len(),
{
    if s.len() == 0 {
        seq![]
    } else {
        json_chars(s.drop_last()) + json_char(s.last())
    }
}

/// A JSON string.
pub open spec fn json_string(s: Seq<char>) -> Seq<char> {
    seq!['"'] + json_chars(s) + seq!['"']
}

/// The items of a JSON array of two-element string arrays.
pub open spec fn json_pairs(levels: Seq<(Seq<char>, Seq<char>)>) -> Seq<char>
    decreases levels.len(),
{
    if levels.len() == 0 {
        seq![]
    } else {
        let pair = seq!['['] + json_string(levels.last().0) + seq![','] + json_string(
            levels.last().1,
        ) + seq![']'];
        if levels.len() == 1 {
            pair
        } else {
            json_pairs(levels.drop_last()) + seq![','] + pair
        }
    }
}

/// Price levels as a JSON array of `[price, quantity]` arrays.
pub open spec fn json_levels(levels: Seq<(Seq<char>, Seq<char>)>) -> Seq<char> {
    seq!['['] + json_pairs(levels) + seq![']']
}

/// One escaped character can be read back, and what follows it.
proof fn lemma_json_char(c: char, x: Seq<char>, d: char, y: Seq<char>)
    requires
        json_char(c) + x == json_char(d) + y,
    ensures
        c == d,
        x == y,
{
    let p = json_char(c);
    let q = json_char(d);
    let all = p + x;
    assert(all[0] == p[0]);
    assert((q + y)[0] == q[0]);
    if p.len() > 1 && q.len() > 1 {
        assert(all[1] == p[1]);
        assert((q + y)[1] == q[1]);
        if p.len() > 2 && q.len() > 2 {
            assert(all[4] == p[4] && all[5] == p[5]);
            assert((q + y)[4] == q[4] && (q + y)[5] == q[5]);
            assert(c as nat == (c as nat / 16) * 16 + c as nat % 16);
            assert(d as nat == (d as nat / 16) * 16 + d as nat % 16);
        }
    }
    assert(c == d);
    assert(x =~= all.skip(p.len() as int));
    assert(y =~= (q + y).skip(q.len() as int));
}

/// The inside of a JSON string, taken from the front.
proof fn lemma_json_chars_front(s: Seq<char>)
    requires
        s.len() > 0,
    ensures
        json_chars(s) == json_char(s[0]) + json_chars(s.drop_first()),
    decreases s.len(),
{
    let rest = s.drop_first();
    if s.len() == 1 {
        assert(rest =~= seq![]);
        assert(s.drop_last() =~= seq![]);
        assert(json_chars(s.drop_last()) =~= seq![]);
        assert(json_chars(s) =~= json_char(s[0]) + json_chars(rest));
    } else {
        lemma_json_chars_front(s.drop_last());
        assert(s.drop_last().drop_first() =~= rest.drop_last());
        assert(s.drop_last()[0] == s[0]);
        assert(json_chars(s) =~= json_char(s[0]) + (json_chars(rest.drop_last()) + json_char(
            rest.last(),
        )));
    }
}

/// The inside of a JSON string can be read back up to its closing quote, and what
/// follows it.
proof fn lemma_json_inside(a: Seq<char>, x: Seq<char>, b: Seq<char>, y: Seq<char>)
    requires
        json_chars(a) + seq!['"'] + x == json_chars(b) + seq!['"'] + y,
    ensures
        a == b,
        x == y,
    decreases a.len(),
{
    let left = json_chars(a) + seq!['"'] + x;
    let right = json_chars(b) + seq!['"'] + y;
    if a.len() == 0 {
        assert(left[0] == '"');
        if b.len() > 0 {
            lemma_json_chars_front(b);
            assert(right[0] == json_char(b[0])[0]);
        }
        assert(a =~= b);
        assert(x =~= left.skip(1));
        assert(y =~= right.skip(1));
    } else if b.len() == 0 {
        lemma_json_chars_front(a);
        assert(left[0] == json_char(a[0])[0]);
        assert(right[0] == '"');
    } else {
        lemma_json_chars_front(a);
        lemma_json_chars_front(b);
        let u = json_chars(a.drop_first()) + seq!['"'] + x;
        let v = json_chars(b.drop_first()) + seq!['"'] + y;
        assert(left =~= json_char(a[0]) + u);
        assert(right =~= json_char(b[0]) + v);
        lemma_json_char(a[0], u, b[0], v);
        lemma_json_inside(a.drop_first(), x, b.drop_first(), y);
        assert(a =~= seq![a[0]] + a.drop_first());
        assert(b =~= seq![b[0]] + b.drop_first());
    }
}

/// A JSON string can be read back, and what follows it.
proof fn lemma_json_string(a: Seq<char>, x: Seq<char>, b: Seq<char>, y: Seq<char>)
    requires
        json_string(a) + x == json_string(b) + y,
    ensures
        a == b,
        x == y,
{
    let left = json_string(a) + x;
    let right = json_string(b) + y;
    assert(left.skip(1) =~= json_chars(a) + seq!['"'] + x);
    assert(right.skip(1) =~= json_chars(b) + seq!['"'] + y);
    lemma_json_inside(a, x, b, y);
}

/// A level as a JSON array.
spec fn json_pair(level: (Seq<char>, Seq<char>)) -> Seq<char> {
    seq!['['] + json_string(level.0) + seq![','] + json_string(level.1) + seq![']']
}

/// A level can be read back, and what follows it.
proof fn lemma_json_pair(
    a: (Seq<char>, Seq<char>),
    x: Seq<char>,
    b: (Seq<char>, Seq<char>),
    y: Seq<char>,
)
    requires
        json_pair(a) + x == json_pair(b) + y,
    ensures
        a == b,
        x == y,
{
    let left = json_pair(a) + x;
    let right = json_pair(b) + y;
    let a_rest = seq![','] + json_string(a.1) + seq![']'] + x;
    let b_rest = seq![','] + json_string(b.1) + seq![']'] + y;
    assert(left.skip(1) =~= json_string(a.0) + a_rest);
    assert(right.skip(1) =~= json_string(b.0) + b_rest);
    lemma_json_string(a.0, a_rest, b.0, b_rest);
    assert(a_rest.skip(1) =~= json_string(a.1) + (seq![']'] + x));
    assert(b_rest.skip(1) =~= json_string(b.1) + (seq![']'] + y));
    lemma_json_string(a.1, seq![']'] + x, b.1, seq![']'] + y);
    assert(x =~= (seq![']'] + x).skip(1));
    assert(y =~= (seq![']'] + y).skip(1));
}

/// The items after the first, each behind a comma.
spec fn json_more(levels: Seq<(Seq<char>, Seq<char>)>) -> Seq<char>
    decreases levels.len(),
{
    if levels.len() == 0 {
        seq![]
    } else {
        seq![','] + json_pair(levels[0]) + json_more(levels.drop_first())
    }
}

/// One more item at the end.
proof fn lemma_json_more_last(levels: Seq<(Seq<char>, Seq<char>)>)
    requires
        levels.len() > 0,
    ensures
        json_more(levels) == json_more(levels.drop_last()) + seq![','] + json_pair(levels.last()),
    decreases levels.len(),
{
    let rest = levels.drop_first();
    if levels.len() == 1 {
        assert(rest =~= seq![]);
        assert(levels.drop_last() =~= seq![]);
        assert(json_more(levels) =~= json_more(levels.drop_last()) + seq![','] + json_pair(
            levels.last(),
        ));
    } else {
        lemma_json_more_last(rest);
        assert(levels.drop_last().drop_first() =~= rest.drop_last());
        assert(levels.drop_last()[0] == levels[0]);
        assert(json_more(levels) =~= json_more(levels.drop_last()) + seq![','] + json_pair(
            levels.last(),
        ));
    }
}

/// The items of an array, taken from the front.
proof fn lemma_json_pairs_front(levels: Seq<(Seq<char>, Seq<char>)>)
    requires
        levels.len() > 0,
    ensures
        json_pairs(levels) == json_pair(levels[0]) + json_more(levels.drop_first()),
    decreases levels.len(),
{
    let rest = levels.drop_first();
    if levels.len() == 1 {
        assert(rest =~= seq![]);
        assert(json_pairs(levels) =~= json_pair(levels[0]) + json_more(rest));
    } else {
        lemma_json_pairs_front(levels.drop_last());
        assert(levels.drop_last().drop_first() =~= rest.drop_last());
        assert(levels.drop_last()[0] == levels[0]);
        lemma_json_more_last(rest);
        assert(json_pairs(levels) =~= json_pair(levels[0]) + json_more(rest));
    }
}

/// The items after the first can be read back up to the closing bracket.
proof fn lemma_json_more(a: Seq<(Seq<char>, Seq<char>)>, b: Seq<(Seq<char>, Seq<char>)>)
    requires
        json_more(a) + seq![']'] == json_more(b) + seq![']'],
    ensures
        a == b,
    decreases a.len(),
{
    let left = json_more(a) + seq![']'];
    let right = json_more(b) + seq![']'];
    if a.len() == 0 || b.len() == 0 {
        assert(a.len() > 0 ==> left[0] == ',');
        assert(a.len() == 0 ==> left[0] == ']');
        assert(b.len() > 0 ==> right[0] == ',');
        assert(b.len() == 0 ==> right[0] == ']');
        assert(a =~= b);
    } else {
        let u = json_more(a.drop_first()) + seq![']'];
        let v = json_more(b.drop_first()) + seq![']'];
        assert(left.skip(1) =~= json_pair(a[0]) + u);
        assert(right.skip(1) =~= json_pair(b[0]) + v);
        lemma_json_pair(a[0], u, b[0], v);
        lemma_json_more(a.drop_first(), b.drop_first());
        assert(a =~= seq![a[0]] + a.drop_first());
        assert(b =~= seq![b[0]] + b.drop_first());
    }
}

/// The levels of a diff can be read back from its record exactly as they came: levels that
/// are written alike are the same.
pub proof fn levels_are_recoverable(
    a: Seq<(Seq<char>, Seq<char>)>,
    b: Seq<(Seq<char>, Seq<char>)>,
)
    requires
        json_levels(a) == json_levels(b),
    ensures
        a == b,
{
    let left = json_levels(a);
    let right = json_levels(b);
    if a.len() > 0 {
        lemma_json_pairs_front(a);
        assert(left[1] == '[');
    } else {
        assert(left[1] == ']');
    }
    if b.len() > 0 {
        lemma_json_pairs_front(b);
        assert(right[1] == '[');
    } else {
        assert(right[1] == ']');
    }
    if a.len() > 0 {
        let u = json_more(a.drop_first()) + seq![']'];
        let v = json_more(b.drop_first()) + seq![']'];
        assert(left.skip(1) =~= json_pair(a[0]) + u);
        assert(right.skip(1) =~= json_pair(b[0]) + v);
        lemma_json_pair(a[0], u, b[0], v);
        lemma_json_more(a.drop_first(), b.drop_first());
        assert(a =~= seq![a[0]] + a.drop_first());
        assert(b =~= seq![b[0]] + b.drop_first());
    } else {
        assert(a =~= b);
    }
}

/// `serde_json::to_string` on a list of string pairs: compact JSON, an array of
/// two-element arrays of strings, without white space. Serialising strings does
/// not fail, so the fallback for an error is never taken.
#[verifier::external_body]
fn levels_to_json(levels: &Vec<[String; 2]>) -> (r: String)
    ensures
        r@ == json_levels(level_texts(levels@)),
{
    serde_json::to_string(levels).unwrap_or_default()
}

impl DepthUpdateWs {
    /// The CSV record of a diff. Diffs are changes of price levels, not a book: a
    /// quantity replaces what the level held, and zero deletes the level.
    pub fn to_csv(&self) -> (r: DepthUpdateCsv)
        ensures
            r.exchange@ == constants::EXCHANGE@,
            r.market@ == constants::MARKET@,
            r.datatype@ == constants::DATATYPE_ORDERBOOKS@,
            r.timestamp_ms == self.event_time,
            r.symbol@ == text::lowercase(self.symbol@),
            r.first_update_id == self.first_update_id,
            r.last_update_id == self.final_update_id,
            r.prev_update_id == self.prev_update_id,
            r.bids_json@ == json_levels(level_texts(self.bids@)),
            r.asks_json@ == json_levels(level_texts(self.asks@)),
            is_depth_record(r, *self),
    {
        DepthUpdateCsv {
            exchange: constants::EXCHANGE.to_owned(),
            market: constants::MARKET.to_owned(),
            datatype: constants::DATATYPE_ORDERBOOKS.to_owned(),
            timestamp_ms: self.event_time,
            symbol: text::to_lowercase(self.symbol.as_str()),
            first_update_id: self.first_update_id,
            last_update_id: self.final_update_id,
            prev_update_id: self.prev_update_id,
            bids_json: levels_to_json(&self.bids),
            asks_json: levels_to_json(&self.asks),
        }
    }
}

/// The side of the taker: a buyer who was the maker means that the taker sold.
pub open spec fn taker_side(is_buyer_maker: bool) -> Seq<char> {
    if is_buyer_maker {
        constants::SIDE_SELL@
    } else {
        constants::SIDE_BUY@
    }
}

impl AggTradeWs {
    /// The CSV record of a trade. `price` and `quantity` are the two texts with
    /// twelve decimal places, `None` for a text that is no number.
    pub fn to_csv(&self, price: Option<String>, quantity: Option<String>) -> (r: TradeCsv)
        ensures
            r.exchange@ == constants::EXCHANGE@,
            r.market@ == constants::MARKET@,
            r.datatype@ == constants::DATATYPE_TRADES@,
            r.timestamp_ms == self.trade_time,
            r.symbol@ == text::lowercase(self.symbol@),
            r.trade_id == self.aggregate_trade_id,
            r.price@ == fixed_or_raw(self.price@, price),
            r.quantity@ == fixed_or_raw(self.quantity@, quantity),
            r.side@ == taker_side(self.is_buyer_maker),
            r.is_buyer_maker == (if self.is_buyer_maker { 1int } else { 0 }),
            r.first_update_id == self.first_trade_id,
            r.last_update_id == self.last_trade_id,
            is_trade_record(r, *self, price, quantity),
    {
        TradeCsv {
            exchange: constants::EXCHANGE.to_owned(),
            market: constants::MARKET.to_owned(),
            datatype: constants::DATATYPE_TRADES.to_owned(),
            timestamp_ms: self.trade_time,
            symbol: text::to_lowercase(self.symbol.as_str()),
            trade_id: self.aggregate_trade_id,
            price: format_decimal_str(self.price.as_str(), price),
            quantity: format_decimal_str(self.quantity.as_str(), quantity),
            side: if self.is_buyer_maker {
                constants::SIDE_SELL.to_owned()
            } else {
                constants::SIDE_BUY.to_owned()
            },
            is_buyer_maker: if self.is_buyer_maker {
                1
            } else {
                0
            },
            first_update_id: self.first_trade_id,
            last_update_id: self.last_trade_id,
        }
    }
}

/// The text with twelve decimal places where there is one, else the text as it
/// came.
pub open spec fn fixed_or_raw(value: Seq<char>, fixed: Option<String>) -> Seq<char> {
    match fixed {
        Some(text) => text@,
        None => value,
    }
}

/// A decimal column: `fixed` is `value` with twelve decimal places, or `None`
/// where `value` is no number, which is then written as it came.
pub fn format_decimal_str(value: &str, fixed: Option<String>) -> (r: String)
    ensures
        r@ == fixed_or_raw(value@, fixed),
{
    match fixed {
        Some(text) => text,
        None => value.to_owned(),
    }
}

/// `record` is the record of a diff.
pub open spec fn is_depth_record(record: DepthUpdateCsv, update: DepthUpdateWs) -> bool {
    &&& record.exchange@ == constants::EXCHANGE@
    &&& record.market@ == constants::MARKET@
    &&& record.datatype@ == constants::DATATYPE_ORDERBOOKS@
    &&& record.timestamp_ms == update.event_time
    &&& record.symbol@ == text::lowercase(update.symbol@)
    &&& record.first_update_id == update.first_update_id
    &&& record.last_update_id == update.final_update_id
    &&& record.prev_update_id == update.prev_update_id
    &&& record.bids_json@ == json_levels(level_texts(update.bids@))
    &&& record.asks_json@ == json_levels(level_texts(update.asks@))
}

/// `record` is the record of a trade.
pub open spec fn is_trade_record(
    record: TradeCsv,
    trade: AggTradeWs,
    price: Option<String>,
    quantity: Option<String>,
) -> bool {
    &&& record.exchange@ == constants::EXCHANGE@
    &&& record.market@ == constants::MARKET@
    &&& record.datatype@ == constants::DATATYPE_TRADES@
    &&& record.timestamp_ms == trade.trade_time
    &&& record.symbol@ == text::lowercase(trade.symbol@)
    &&& record.trade_id == trade.aggregate_trade_id
    &&& record.price@ == fixed_or_raw(trade.price@, price)
    &&& record.quantity@ == fixed_or_raw(trade.quantity@, quantity)
    &&& record.side@ == taker_side(trade.is_buyer_maker)
    &&& record.is_buyer_maker == (if trade.is_buyer_maker {
        1int
    } else {
        0
    })
    &&& record.first_update_id == trade.first_trade_id
    &&& record.last_update_id == trade.last_trade_id
}

/// A column holds a number as text: with twelve places where it could be read as one, else
/// as it came.
pub open spec fn tells_number(column: Seq<char>, raw: Seq<char>, fixed: Option<String>) -> bool {
    &&& fixed matches Some(text) ==> column == text@
    &&& fixed is None ==> column == raw
}

/// Records of diffs chain as the diffs do: a record names the last id of the record before
/// it exactly where its diff continues that diff, so a gap can be told from the records
/// alone.
pub proof fn records_chain_as_the_diffs(
    a: DepthUpdateWs,
    b: DepthUpdateWs,
    first: DepthUpdateCsv,
    second: DepthUpdateCsv,
)
    requires
        is_depth_record(first, a),
        is_depth_record(second, b),
    ensures
        second.prev_update_id == first.last_update_id <==> b.prev_update_id == a.final_update_id,
        first.first_update_id == a.first_update_id,
        first.last_update_id == a.final_update_id,
        first.prev_update_id == a.prev_update_id,
        first.timestamp_ms == a.event_time,
{
}

/// The levels of a diff can be told from its record, bids as bids and asks as asks: two
/// diffs with the same texts in a column have the same levels on that side.
pub proof fn records_keep_the_levels(
    a: DepthUpdateWs,
    b: DepthUpdateWs,
    first: DepthUpdateCsv,
    second: DepthUpdateCsv,
)
    requires
        is_depth_record(first, a),
        is_depth_record(second, b),
    ensures
        first.bids_json@ == second.bids_json@ <==> level_texts(a.bids@) == level_texts(b.bids@),
        first.asks_json@ == second.asks_json@ <==> level_texts(a.asks@) == level_texts(b.asks@),
        first.datatype@ == "orderbooks"@,
        first.exchange@ == "binance"@,
        first.market@ == "futures"@,
        first.symbol@ == text::lowercase(a.symbol@),
{
    if first.bids_json@ == second.bids_json@ {
        levels_are_recoverable(level_texts(a.bids@), level_texts(b.bids@));
    }
    if first.asks_json@ == second.asks_json@ {
        levels_are_recoverable(level_texts(a.asks@), level_texts(b.asks@));
    }
}

/// A trade in which the buyer was the maker was a sale by the taker, and the other way
/// round; the record says both alike.
pub proof fn taker_sells_to_a_buying_maker(
    trade: AggTradeWs,
    price: Option<String>,
    quantity: Option<String>,
    record: TradeCsv,
)
    requires
        is_trade_record(record, trade, price, quantity),
    ensures
        trade.is_buyer_maker ==> record.side@ == "sell"@ && record.is_buyer_maker == 1,
        !trade.is_buyer_maker ==> record.side@ == "buy"@ && record.is_buyer_maker == 0,
{
}

/// A record of a trade tells the trade: its own price and quantity, its ids in the order in
/// which they run, and when it took place.
pub proof fn trade_records_tell_the_trade(
    trade: AggTradeWs,
    price: Option<String>,
    quantity: Option<String>,
    record: TradeCsv,
)
    requires
        is_trade_record(record, trade, price, quantity),
    ensures
        tells_number(record.price@, trade.price@, price),
        tells_number(record.quantity@, trade.quantity@, quantity),
        record.trade_id == trade.aggregate_trade_id,
        record.first_update_id == trade.first_trade_id,
        record.last_update_id == trade.last_trade_id,
        trade.first_trade_id <= trade.last_trade_id ==> record.first_update_id
            <= record.last_update_id,
        record.timestamp_ms == trade.trade_time,
        record.symbol@ == text::lowercase(trade.symbol@),
        record.datatype@ == "trades"@,
        record.exchange@ == "binance"@,
        record.market@ == "futures"@,
{
}

/// A decimal text with twelve places takes the place of the text as it came, and only where
/// there is one.
pub proof fn numbers_take_the_place_of_texts(raw: Seq<char>, fixed: Option<String>)
    ensures
        tells_number(fixed_or_raw(raw, fixed), raw, fixed),
{
}

/// A text that needs no escape: no quote, no backslash, no control character.
pub open spec fn is_plain(s: Seq<char>) -> bool {
    forall|i: int|
        0 <= i < s.len() ==> (#[trigger] s[i]) != '"' && s[i] != '\\' && s[i] as nat >= 32
}

/// Texts are written character by character between quotes; a plain one as it is.
pub proof fn plain_texts_stand_as_they_are(first: Seq<char>, rest: Seq<char>)
    ensures
        json_chars(first + rest) == json_chars(first) + json_chars(rest),
        rest.len() == 1 ==> json_chars(rest) == json_char(rest[0]),
        is_plain(rest) ==> json_string(rest) == seq!['"'] + rest + seq!['"'],
    decreases rest.len(),
{
    if rest.len() == 0 {
        assert(first + rest =~= first);
        assert(json_chars(first) + json_chars(rest) =~= json_chars(first));
        assert(json_string(rest) =~= seq!['"'] + rest + seq!['"']);
    } else {
        let front = rest.drop_last();
        plain_texts_stand_as_they_are(first, front);
        assert((first + rest).drop_last() =~= first + front);
        assert(json_chars(first + rest) =~= json_chars(first) + json_chars(rest));
        if rest.len() == 1 {
            assert(front =~= seq![]);
            assert(json_chars(rest) =~= json_char(rest[0]));
        }
        if is_plain(rest) {
            assert forall|i: int| 0 <= i < front.len() implies (#[trigger] front[i]) != '"'
                && front[i] != '\\' && front[i] as nat >= 32 by {
                assert(front[i] == rest[i]);
            }
            assert(is_plain(front));
            assert(json_chars(front) =~= json_string(front).subrange(1, front.len() as int + 1));
            assert(json_chars(front) =~= front);
            assert(rest[rest.len() - 1] != '"');
            assert(json_char(rest.last()) == seq![rest.last()]);
            assert(json_chars(rest) =~= rest);
        }
    }
}

/// What is escaped, and how.
pub proof fn special_characters_are_escaped(c: char)
    ensures
        json_char('"') == seq!['\\', '"'],
        json_char('\\') == seq!['\\', '\\'],
        json_char('\n') == seq!['\\', 'n'],
        json_char('\r') == seq!['\\', 'r'],
        json_char('\t') == seq!['\\', 't'],
        c as nat == 8 ==> json_char(c) == seq!['\\', 'b'],
        c as nat == 12 ==> json_char(c) == seq!['\\', 'f'],
        c as nat == 0 ==> json_char(c) == seq!['\\', 'u', '0', '0', '0', '0'],
        c as nat == 11 ==> json_char(c) == seq!['\\', 'u', '0', '0', '0', 'b'],
        c as nat == 31 ==> json_char(c) == seq!['\\', 'u', '0', '0', '1', 'f'],
        c as nat >= 32 && c != '"' && c != '\\' ==> json_char(c) == seq![c],
{
}

/// Levels are written as a list of pairs, in their order, the price ahead of the quantity.
pub proof fn levels_are_written_price_first(
    first: Seq<(Seq<char>, Seq<char>)>,
    rest: Seq<(Seq<char>, Seq<char>)>,
)
    requires
        first.len() > 0,
        rest.len() > 0,
    ensures
        json_pairs(first + rest) == json_pairs(first) + seq![','] + json_pairs(rest),
        json_levels(first) == seq!['['] + json_pairs(first) + seq![']'],
        first.len() == 1 && is_plain(first[0].0) && is_plain(first[0].1) ==> json_pairs(first)
            == seq!['[', '"'] + first[0].0 + seq!['"', ',', '"'] + first[0].1 + seq!['"', ']'],
    decreases rest.len(),
{
    if first.len() == 1 {
        plain_texts_stand_as_they_are(seq![], first[0].0);
        plain_texts_stand_as_they_are(seq![], first[0].1);
        assert(is_plain(first[0].0) && is_plain(first[0].1) ==> json_pairs(first) =~= seq!['[', '"']
            + first[0].0 + seq!['"', ',', '"'] + first[0].1 + seq!['"', ']']);
    }
    assert((first + rest).last() == rest.last());
    if rest.len() == 1 {
        assert((first + rest).drop_last() =~= first);
    } else {
        levels_are_written_price_first(first, rest.drop_last());
        assert((first + rest).drop_last() =~= first + rest.drop_last());
        assert(json_pairs(first + rest) =~= json_pairs(first) + seq![','] + json_pairs(rest));
    }
}

/// A level as sent is its price and then its quantity.
pub proof fn levels_are_sent_price_first(levels: Seq<[String; 2]>, i: int)
    requires
        0 <= i < levels.len(),
    ensures
        level_texts(levels).len() == levels.len(),
        level_texts(levels)[i] == (levels[i]@[0]@, levels[i]@[1]@),
        json_levels(level_texts(seq![])) == seq!['[', ']'],
{
    assert(json_levels(level_texts(seq![])) =~= seq!['[', ']']);
}

} // verus!
