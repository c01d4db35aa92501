//! String constants of the output files.

use vstd::prelude::*;

verus! {

pub const EXCHANGE: &'static str = "binance";
pub const MARKET: &'static str = "futures";

// Data types
pub const DATATYPE_ORDERBOOKS: &'static str = "orderbooks";
pub const DATATYPE_TRADES: &'static str = "trades";
pub const DATATYPE_KLINES: &'static str = "klines";
pub const DATATYPE_LIQUIDATIONS: &'static str = "liquidations";
pub const DATATYPE_FUNDING_RATES: &'static str = "funding_rates";
pub const DATATYPE_OPEN_INTEREST: &'static str = "open_interest";
pub const DATATYPE_LONG_SHORT_RATIO: &'static str = "long_short_ratio";
pub const DATATYPE_MARK_PRICE_KLINES: &'static str = "mark_price_klines";
pub const DATATYPE_INDEX_PRICE_KLINES: &'static str = "index_price_klines";
pub const DATATYPE_TAKER_BUY_SELL_RATIO: &'static str = "taker_buy_sell_ratio";
pub const DATATYPE_PREMIUM_INDEX_KLINES: &'static str = "premium_index_klines";

// Sides
pub const SIDE_BID: &'static str = "bid";
pub const SIDE_ASK: &'static str = "ask";
pub const SIDE_BUY: &'static str = "buy";
pub const SIDE_SELL: &'static str = "sell";

// CSV headers
pub const HEADER_DEPTH_UPDATES: &'static str = "exchange,market,datatype,timestamp_ms,datetime_utc,symbol,first_update_id,last_update_id,prev_update_id,bids_json,asks_json";
pub const HEADER_DEPTH_SNAPSHOT: &'static str = "exchange,market,datatype,timestamp_ms,datetime_utc,symbol,event_type,side,price,quantity,last_update_id";
pub const HEADER_TRADES: &'static str = "exchange,market,datatype,timestamp_ms,datetime_utc,symbol,trade_id,side,price,quantity,is_buyer_maker,first_update_id,last_update_id";
pub const HEADER_KLINES: &'static str = "exchange,market,datatype,timestamp_ms,datetime_utc,symbol,open,high,low,close,volume,quote_volume,trade_count,taker_buy_base,taker_buy_quote";
pub const HEADER_LIQUIDATIONS: &'static str =
    "exchange,market,datatype,timestamp_ms,datetime_utc,symbol,side,price,quantity,value";
pub const HEADER_FUNDING_RATES: &'static str =
    "exchange,market,datatype,timestamp_ms,datetime_utc,symbol,funding_rate,next_funding_time";
pub const HEADER_OPEN_INTEREST: &'static str =
    "exchange,market,datatype,timestamp_ms,datetime_utc,symbol,mark_price,open_interest,oi_value";
pub const HEADER_LONG_SHORT_RATIO: &'static str = "exchange,market,datatype,timestamp_ms,datetime_utc,symbol,period,ratio_type,long_ratio,short_ratio,long_short_ratio";
pub const HEADER_MARK_INDEX_KLINES: &'static str =
    "exchange,market,datatype,timestamp_ms,datetime_utc,symbol,open,high,low,close";
pub const HEADER_TAKER_BUY_SELL_RATIO: &'static str = "exchange,market,datatype,timestamp_ms,datetime_utc,symbol,period,buy_volume,sell_volume,buy_sell_ratio";
pub const HEADER_PREMIUM_INDEX_KLINES: &'static str =
    "exchange,market,datatype,timestamp_ms,datetime_utc,symbol,open,high,low,close";

} // verus!
