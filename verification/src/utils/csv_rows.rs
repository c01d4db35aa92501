//! CSV rows. Columns are separated by commas; the two JSON columns of a depth update
//! are quoted, with their quotes doubled.
//!
//! Decimal columns come as the text with twelve decimal places, or `None` where the
//! value is no number, which is written as zero.

use crate::models::{
    DepthSnapshotCsv, DepthUpdateCsv, FundingRateCsv, KlineCsv, LiquidationCsv, LongShortRatioCsv,
    MarkPriceKlineCsv, OpenInterestCsv, PremiumIndexKlineCsv, TakerBuySellVolumeCsv, TradeCsv,
};
use crate::text;
use crate::text::{i64_text, u64_text};
use vstd::prelude::*;

verus! {

/// Columns joined by commas.
pub open spec fn csv_line(columns: Seq<Seq<char>>) -> Seq<char>
    decreases columns.len(),
{
    if columns.len() == 0 {
        seq![]
    } else if columns.len() == 1 {
        columns[0]
    } else {
        csv_line(columns.drop_last()) + seq![','] + columns.last()
    }
}

/// The text with every quote doubled.
pub open spec fn doubled(s: Seq<char>) -> Seq<char>
    decreases s.len(),
{
    if s.len() == 0 {
        seq![]
    } else if s.last() == '"' {
        doubled(s.drop_last()).push('"').push('"')
    } else {
        doubled(s.drop_last()).push(s.last())
    }
}

/// A quoted column.
pub open spec fn quoted(s: Seq<char>) -> Seq<char> {
    seq!['"'] + doubled(s) + seq!['"']
}

/// A decimal column.
pub open spec fn decimal_text(fixed: Option<String>) -> Seq<char> {
    match fixed {
        Some(text) => text@,
        None => "0.000000000000"@,
    }
}

/// Two texts that are quoted alike are the same: nothing is lost by quoting.
pub proof fn quoting_is_reversible(a: Seq<char>, b: Seq<char>)
    requires
        quoted(a) == quoted(b),
    ensures
        a == b,
{
    assert(doubled(a) =~= quoted(a).subrange(1, quoted(a).len() - 1));
    assert(doubled(b) =~= quoted(b).subrange(1, quoted(b).len() - 1));
    lemma_doubled_injective(a, b);
}

proof fn lemma_doubled_injective(a: Seq<char>, b: Seq<char>)
    requires
        doubled(a) == doubled(b),
    ensures
        a == b,
    decreases a.len(),
{
    if a.len() == 0 || b.len() == 0 {
        assert(b.len() > 0 ==> doubled(b).len() > 0);
        assert(a.len() > 0 ==> doubled(a).len() > 0);
        assert(a =~= b);
    } else {
        let x = doubled(a);
        let y = doubled(b);
        assert(x.last() == a.last());
        assert(y.last() == b.last());
        if a.last() == '"' {
            assert(doubled(a.drop_last()) =~= x.drop_last().drop_last());
            assert(doubled(b.drop_last()) =~= y.drop_last().drop_last());
        } else {
            assert(doubled(a.drop_last()) =~= x.drop_last());
            assert(doubled(b.drop_last()) =~= y.drop_last());
        }
        lemma_doubled_injective(a.drop_last(), b.drop_last());
        assert(a =~= a.drop_last().push(a.last()));
        assert(b =~= b.drop_last().push(b.last()));
    }
}

/// Joins columns by commas.
fn join_columns(columns: &Vec<String>) -> (r: String)
    ensures
        r@ == csv_line(text::texts(columns@)),
{
    let mut line: String = String::new();
    let ghost all = text::texts(columns@);
    let mut i: usize = 0;
    assert(all.take(0) =~= seq![]);
    while i < columns.len()
        invariant
            i <= columns.len(),
            all == text::texts(columns@),
            line@ == csv_line(all.take(i as int)),
        decreases columns.len() - i,
    {
        if i > 0 {
            line.push(',');
        }
        line.append(columns[i].as_str());
        assert(all.take(i + 1).drop_last() =~= all.take(i as int));
        assert(line@ =~= csv_line(all.take(i + 1)));
        i = i + 1;
    }
    assert(all.take(columns.len() as int) =~= all);
    line
}

/// A column in quotes.
fn quote(s: &str) -> (r: String)
    ensures
        r@ == quoted(s@),
{
    let chars: Vec<char> = text::chars_of(s);
    let mut out: String = String::new();
    out.push('"');
    let mut i: usize = 0;
    assert(chars@.take(0) =~= seq![]);
    assert(out@ =~= seq!['"'] + doubled(chars@.take(0)));
    while i < chars.len()
        invariant
            i <= chars.len(),
            out@ == seq!['"'] + doubled(chars@.take(i as int)),
        decreases chars.len() - i,
    {
        assert(chars@.take(i + 1).drop_last() =~= chars@.take(i as int));
        if chars[i] == '"' {
            out.push('"');
        }
        out.push(chars[i]);
        assert(out@ =~= seq!['"'] + doubled(chars@.take(i + 1)));
        i = i + 1;
    }
    assert(chars@.take(chars.len() as int) =~= s@);
    out.push('"');
    assert(out@ =~= quoted(s@));
    out
}

fn decimal_column(fixed: &Option<String>) -> (r: String)
    ensures
        r@ == decimal_text(*fixed),
{
    match fixed {
        Some(text) => text.clone(),
        None => "0.000000000000".to_owned(),
    }
}

/// The columns that every row starts with.
pub open spec fn leading_columns(
    exchange: Seq<char>,
    market: Seq<char>,
    datatype: Seq<char>,
    timestamp_ms: i64,
    datetime_utc: Seq<char>,
    symbol: Seq<char>,
) -> Seq<Seq<char>> {
    seq![
        exchange,
        market,
        datatype,
        text::signed_decimal(timestamp_ms as int),
        datetime_utc,
        symbol,
    ]
}

fn start_row(
    exchange: &String,
    market: &String,
    datatype: &String,
    timestamp_ms: i64,
    datetime_utc: &str,
    symbol: &String,
) -> (r: Vec<String>)
    ensures
        text::texts(r@) == leading_columns(
            exchange@,
            market@,
            datatype@,
            timestamp_ms,
            datetime_utc@,
            symbol@,
        ),
{
    let mut columns: Vec<String> = Vec::new();
    columns.push(exchange.clone());
    columns.push(market.clone());
    columns.push(datatype.clone());
    columns.push(i64_text(timestamp_ms));
    columns.push(datetime_utc.to_owned());
    columns.push(symbol.clone());
    assert(text::texts(columns@) =~= leading_columns(
        exchange@,
        market@,
        datatype@,
        timestamp_ms,
        datetime_utc@,
        symbol@,
    ));
    columns
}

/// The columns of a depth update.
pub open spec fn depth_update_columns(
    record: DepthUpdateCsv,
    datetime_utc: Seq<char>,
) -> Seq<Seq<char>> {
    leading_columns(
        record.exchange@,
        record.market@,
        record.datatype@,
        record.timestamp_ms,
        datetime_utc,
        record.symbol@,
    ) + seq![
        text::decimal(record.first_update_id as nat),
        text::decimal(record.last_update_id as nat),
        text::decimal(record.prev_update_id as nat),
        quoted(record.bids_json@),
        quoted(record.asks_json@),
    ]
}

/// The row of a depth update.
pub fn depth_update_row(
    record: &DepthUpdateCsv,
    datetime_utc: &str,
) -> (r: String)
    ensures
        r@ == csv_line(depth_update_columns(*record, datetime_utc@)),
{
    let mut columns: Vec<String> = start_row(
        &record.exchange,
        &record.market,
        &record.datatype,
        record.timestamp_ms,
        datetime_utc,
        &record.symbol,
    );
    columns.push(u64_text(record.first_update_id));
    columns.push(u64_text(record.last_update_id));
    columns.push(u64_text(record.prev_update_id));
    columns.push(quote(record.bids_json.as_str()));
    columns.push(quote(record.asks_json.as_str()));
    assert(text::texts(columns@) =~= depth_update_columns(*record, datetime_utc@));
    join_columns(&columns)
}

/// The columns of one level of a snapshot.
pub open spec fn depth_snapshot_columns(
    record: DepthSnapshotCsv,
    datetime_utc: Seq<char>,
    price: &Option<String>,
    quantity: &Option<String>,
) -> Seq<Seq<char>> {
    leading_columns(
        record.exchange@,
        record.market@,
        record.datatype@,
        record.timestamp_ms,
        datetime_utc,
        record.symbol@,
    ) + seq![
        record.event_type@,
        record.side@,
        decimal_text(*price),
        decimal_text(*quantity),
        text::decimal(record.last_update_id as nat),
    ]
}

/// The row of one level of a snapshot.
pub fn depth_snapshot_row(
    record: &DepthSnapshotCsv,
    datetime_utc: &str,
    price: &Option<String>,
    quantity: &Option<String>,
) -> (r: String)
    ensures
        r@ == csv_line(depth_snapshot_columns(*record, datetime_utc@, price, quantity)),
{
    let mut columns: Vec<String> = start_row(
        &record.exchange,
        &record.market,
        &record.datatype,
        record.timestamp_ms,
        datetime_utc,
        &record.symbol,
    );
    columns.push(record.event_type.clone());
    columns.push(record.side.clone());
    columns.push(decimal_column(price));
    columns.push(decimal_column(quantity));
    columns.push(u64_text(record.last_update_id));
    assert(text::texts(columns@) =~= depth_snapshot_columns(*record, datetime_utc@, price, quantity));
    join_columns(&columns)
}

/// The columns of a trade.
pub open spec fn trade_columns(
    record: TradeCsv,
    datetime_utc: Seq<char>,
    price: &Option<String>,
    quantity: &Option<String>,
) -> Seq<Seq<char>> {
    leading_columns(
        record.exchange@,
        record.market@,
        record.datatype@,
        record.timestamp_ms,
        datetime_utc,
        record.symbol@,
    ) + seq![
        text::signed_decimal(record.trade_id as int),
        record.side@,
        decimal_text(*price),
        decimal_text(*quantity),
        text::signed_decimal(record.is_buyer_maker as int),
        text::signed_decimal(record.first_update_id as int),
        text::signed_decimal(record.last_update_id as int),
    ]
}

/// The row of a trade.
pub fn trade_row(
    record: &TradeCsv,
    datetime_utc: &str,
    price: &Option<String>,
    quantity: &Option<String>,
) -> (r: String)
    ensures
        r@ == csv_line(trade_columns(*record, datetime_utc@, price, quantity)),
{
    let mut columns: Vec<String> = start_row(
        &record.exchange,
        &record.market,
        &record.datatype,
        record.timestamp_ms,
        datetime_utc,
        &record.symbol,
    );
    columns.push(i64_text(record.trade_id));
    columns.push(record.side.clone());
    columns.push(decimal_column(price));
    columns.push(decimal_column(quantity));
    columns.push(i64_text(record.is_buyer_maker as i64));
    columns.push(i64_text(record.first_update_id));
    columns.push(i64_text(record.last_update_id));
    assert(text::texts(columns@) =~= trade_columns(*record, datetime_utc@, price, quantity));
    join_columns(&columns)
}

/// The columns of a kline.
pub open spec fn kline_columns(
    record: KlineCsv,
    datetime_utc: Seq<char>,
    open: &Option<String>,
    high: &Option<String>,
    low: &Option<String>,
    close: &Option<String>,
    volume: &Option<String>,
    quote_volume: &Option<String>,
    taker_buy_base: &Option<String>,
    taker_buy_quote: &Option<String>,
) -> Seq<Seq<char>> {
    leading_columns(
        record.exchange@,
        record.market@,
        record.datatype@,
        record.timestamp_ms,
        datetime_utc,
        record.symbol@,
    ) + seq![
        decimal_text(*open),
        decimal_text(*high),
        decimal_text(*low),
        decimal_text(*close),
        decimal_text(*volume),
        decimal_text(*quote_volume),
        text::signed_decimal(record.trade_count as int),
        decimal_text(*taker_buy_base),
        decimal_text(*taker_buy_quote),
    ]
}

/// The row of a kline.
pub fn kline_row(
    record: &KlineCsv,
    datetime_utc: &str,
    open: &Option<String>,
    high: &Option<String>,
    low: &Option<String>,
    close: &Option<String>,
    volume: &Option<String>,
    quote_volume: &Option<String>,
    taker_buy_base: &Option<String>,
    taker_buy_quote: &Option<String>,
) -> (r: String)
    ensures
        r@ == csv_line(kline_columns(*record, datetime_utc@, open, high, low, close, volume, quote_volume, taker_buy_base, taker_buy_quote)),
{
    let mut columns: Vec<String> = start_row(
        &record.exchange,
        &record.market,
        &record.datatype,
        record.timestamp_ms,
        datetime_utc,
        &record.symbol,
    );
    columns.push(decimal_column(open));
    columns.push(decimal_column(high));
    columns.push(decimal_column(low));
    columns.push(decimal_column(close));
    columns.push(decimal_column(volume));
    columns.push(decimal_column(quote_volume));
    columns.push(i64_text(record.trade_count));
    columns.push(decimal_column(taker_buy_base));
    columns.push(decimal_column(taker_buy_quote));
    assert(text::texts(columns@) =~= kline_columns(*record, datetime_utc@, open, high, low, close, volume, quote_volume, taker_buy_base, taker_buy_quote));
    join_columns(&columns)
}

/// The columns of a liquidation.
pub open spec fn liquidation_columns(
    record: LiquidationCsv,
    datetime_utc: Seq<char>,
    price: &Option<String>,
    quantity: &Option<String>,
    value: &Option<String>,
) -> Seq<Seq<char>> {
    leading_columns(
        record.exchange@,
        record.market@,
        record.datatype@,
        record.timestamp_ms,
        datetime_utc,
        record.symbol@,
    ) + seq![
        record.side@,
        decimal_text(*price),
        decimal_text(*quantity),
        decimal_text(*value),
    ]
}

/// The row of a liquidation.
pub fn liquidation_row(
    record: &LiquidationCsv,
    datetime_utc: &str,
    price: &Option<String>,
    quantity: &Option<String>,
    value: &Option<String>,
) -> (r: String)
    ensures
        r@ == csv_line(liquidation_columns(*record, datetime_utc@, price, quantity, value)),
{
    let mut columns: Vec<String> = start_row(
        &record.exchange,
        &record.market,
        &record.datatype,
        record.timestamp_ms,
        datetime_utc,
        &record.symbol,
    );
    columns.push(record.side.clone());
    columns.push(decimal_column(price));
    columns.push(decimal_column(quantity));
    columns.push(decimal_column(value));
    assert(text::texts(columns@) =~= liquidation_columns(*record, datetime_utc@, price, quantity, value));
    join_columns(&columns)
}

/// The columns of a funding rate.
pub open spec fn funding_rate_columns(
    record: FundingRateCsv,
    datetime_utc: Seq<char>,
    funding_rate: &Option<String>,
) -> Seq<Seq<char>> {
    leading_columns(
        record.exchange@,
        record.market@,
        record.datatype@,
        record.timestamp_ms,
        datetime_utc,
        record.symbol@,
    ) + seq![
        decimal_text(*funding_rate),
        text::signed_decimal(record.next_funding_time as int),
    ]
}

/// The row of a funding rate.
pub fn funding_rate_row(
    record: &FundingRateCsv,
    datetime_utc: &str,
    funding_rate: &Option<String>,
) -> (r: String)
    ensures
        r@ == csv_line(funding_rate_columns(*record, datetime_utc@, funding_rate)),
{
    let mut columns: Vec<String> = start_row(
        &record.exchange,
        &record.market,
        &record.datatype,
        record.timestamp_ms,
        datetime_utc,
        &record.symbol,
    );
    columns.push(decimal_column(funding_rate));
    columns.push(i64_text(record.next_funding_time));
    assert(text::texts(columns@) =~= funding_rate_columns(*record, datetime_utc@, funding_rate));
    join_columns(&columns)
}

/// The columns of an open interest.
pub open spec fn open_interest_columns(
    record: OpenInterestCsv,
    datetime_utc: Seq<char>,
    price: &Option<String>,
    open_interest: &Option<String>,
    oi_value: &Option<String>,
) -> Seq<Seq<char>> {
    leading_columns(
        record.exchange@,
        record.market@,
        record.datatype@,
        record.timestamp_ms,
        datetime_utc,
        record.symbol@,
    ) + seq![
        decimal_text(*price),
        decimal_text(*open_interest),
        decimal_text(*oi_value),
    ]
}

/// The row of an open interest.
pub fn open_interest_row(
    record: &OpenInterestCsv,
    datetime_utc: &str,
    price: &Option<String>,
    open_interest: &Option<String>,
    oi_value: &Option<String>,
) -> (r: String)
    ensures
        r@ == csv_line(open_interest_columns(*record, datetime_utc@, price, open_interest, oi_value)),
{
    let mut columns: Vec<String> = start_row(
        &record.exchange,
        &record.market,
        &record.datatype,
        record.timestamp_ms,
        datetime_utc,
        &record.symbol,
    );
    columns.push(decimal_column(price));
    columns.push(decimal_column(open_interest));
    columns.push(decimal_column(oi_value));
    assert(text::texts(columns@) =~= open_interest_columns(*record, datetime_utc@, price, open_interest, oi_value));
    join_columns(&columns)
}

/// The columns of a long/short ratio.
pub open spec fn long_short_ratio_columns(
    record: LongShortRatioCsv,
    datetime_utc: Seq<char>,
    long_ratio: &Option<String>,
    short_ratio: &Option<String>,
    long_short_ratio: &Option<String>,
) -> Seq<Seq<char>> {
    leading_columns(
        record.exchange@,
        record.market@,
        record.datatype@,
        record.timestamp_ms,
        datetime_utc,
        record.symbol@,
    ) + seq![
        record.period@,
        record.ratio_type@,
        decimal_text(*long_ratio),
        decimal_text(*short_ratio),
        decimal_text(*long_short_ratio),
    ]
}

/// The row of a long/short ratio.
pub fn long_short_ratio_row(
    record: &LongShortRatioCsv,
    datetime_utc: &str,
    long_ratio: &Option<String>,
    short_ratio: &Option<String>,
    long_short_ratio: &Option<String>,
) -> (r: String)
    ensures
        r@ == csv_line(long_short_ratio_columns(*record, datetime_utc@, long_ratio, short_ratio, long_short_ratio)),
{
    let mut columns: Vec<String> = start_row(
        &record.exchange,
        &record.market,
        &record.datatype,
        record.timestamp_ms,
        datetime_utc,
        &record.symbol,
    );
    columns.push(record.period.clone());
    columns.push(record.ratio_type.clone());
    columns.push(decimal_column(long_ratio));
    columns.push(decimal_column(short_ratio));
    columns.push(decimal_column(long_short_ratio));
    assert(text::texts(columns@) =~= long_short_ratio_columns(*record, datetime_utc@, long_ratio, short_ratio, long_short_ratio));
    join_columns(&columns)
}

/// The columns of a kline of the mark or index price.
pub open spec fn mark_price_kline_columns(
    record: MarkPriceKlineCsv,
    datetime_utc: Seq<char>,
    open: &Option<String>,
    high: &Option<String>,
    low: &Option<String>,
    close: &Option<String>,
) -> Seq<Seq<char>> {
    leading_columns(
        record.exchange@,
        record.market@,
        record.datatype@,
        record.timestamp_ms,
        datetime_utc,
        record.symbol@,
    ) + seq![
        decimal_text(*open),
        decimal_text(*high),
        decimal_text(*low),
        decimal_text(*close),
    ]
}

/// The row of a kline of the mark or index price.
pub fn mark_price_kline_row(
    record: &MarkPriceKlineCsv,
    datetime_utc: &str,
    open: &Option<String>,
    high: &Option<String>,
    low: &Option<String>,
    close: &Option<String>,
) -> (r: String)
    ensures
        r@ == csv_line(mark_price_kline_columns(*record, datetime_utc@, open, high, low, close)),
{
    let mut columns: Vec<String> = start_row(
        &record.exchange,
        &record.market,
        &record.datatype,
        record.timestamp_ms,
        datetime_utc,
        &record.symbol,
    );
    columns.push(decimal_column(open));
    columns.push(decimal_column(high));
    columns.push(decimal_column(low));
    columns.push(decimal_column(close));
    assert(text::texts(columns@) =~= mark_price_kline_columns(*record, datetime_utc@, open, high, low, close));
    join_columns(&columns)
}

/// The columns of taker volumes.
pub open spec fn taker_buy_sell_ratio_columns(
    record: TakerBuySellVolumeCsv,
    datetime_utc: Seq<char>,
    buy_volume: &Option<String>,
    sell_volume: &Option<String>,
    buy_sell_ratio: &Option<String>,
) -> Seq<Seq<char>> {
    leading_columns(
        record.exchange@,
        record.market@,
        record.datatype@,
        record.timestamp_ms,
        datetime_utc,
        record.symbol@,
    ) + seq![
        record.period@,
        decimal_text(*buy_volume),
        decimal_text(*sell_volume),
        decimal_text(*buy_sell_ratio),
    ]
}

/// The row of taker volumes.
pub fn taker_buy_sell_ratio_row(
    record: &TakerBuySellVolumeCsv,
    datetime_utc: &str,
    buy_volume: &Option<String>,
    sell_volume: &Option<String>,
    buy_sell_ratio: &Option<String>,
) -> (r: String)
    ensures
        r@ == csv_line(taker_buy_sell_ratio_columns(*record, datetime_utc@, buy_volume, sell_volume, buy_sell_ratio)),
{
    let mut columns: Vec<String> = start_row(
        &record.exchange,
        &record.market,
        &record.datatype,
        record.timestamp_ms,
        datetime_utc,
        &record.symbol,
    );
    columns.push(record.period.clone());
    columns.push(decimal_column(buy_volume));
    columns.push(decimal_column(sell_volume));
    columns.push(decimal_column(buy_sell_ratio));
    assert(text::texts(columns@) =~= taker_buy_sell_ratio_columns(*record, datetime_utc@, buy_volume, sell_volume, buy_sell_ratio));
    join_columns(&columns)
}

/// The columns of a kline of the premium index.
pub open spec fn premium_index_kline_columns(
    record: PremiumIndexKlineCsv,
    datetime_utc: Seq<char>,
    open: &Option<String>,
    high: &Option<String>,
    low: &Option<String>,
    close: &Option<String>,
) -> Seq<Seq<char>> {
    leading_columns(
        record.exchange@,
        record.market@,
        record.datatype@,
        record.timestamp_ms,
        datetime_utc,
        record.symbol@,
    ) + seq![
        decimal_text(*open),
        decimal_text(*high),
        decimal_text(*low),
        decimal_text(*close),
    ]
}

/// The row of a kline of the premium index.
pub fn premium_index_kline_row(
    record: &PremiumIndexKlineCsv,
    datetime_utc: &str,
    open: &Option<String>,
    high: &Option<String>,
    low: &Option<String>,
    close: &Option<String>,
) -> (r: String)
    ensures
        r@ == csv_line(premium_index_kline_columns(*record, datetime_utc@, open, high, low, close)),
{
    let mut columns: Vec<String> = start_row(
        &record.exchange,
        &record.market,
        &record.datatype,
        record.timestamp_ms,
        datetime_utc,
        &record.symbol,
    );
    columns.push(decimal_column(open));
    columns.push(decimal_column(high));
    columns.push(decimal_column(low));
    columns.push(decimal_column(close));
    assert(text::texts(columns@) =~= premium_index_kline_columns(*record, datetime_utc@, open, high, low, close));
    join_columns(&columns)
}

/// A column that tells a number: its text, or zero where it is no number.
pub open spec fn tells(column: Seq<char>, fixed: Option<String>) -> bool {
    &&& fixed matches Some(text) ==> column == text@
    &&& fixed is None ==> column == "0.000000000000"@
}

/// A row is its columns one after the other, with a comma between neighbours.
pub proof fn rows_are_joined_by_commas(first: Seq<Seq<char>>, rest: Seq<Seq<char>>)
    requires
        first.len() > 0,
        rest.len() > 0,
    ensures
        csv_line(first + rest) == csv_line(first) + seq![','] + csv_line(rest),
        first.len() == 1 ==> csv_line(first) == first[0],
    decreases rest.len(),
{
    if rest.len() == 1 {
        assert((first + rest).drop_last() =~= first);
        assert((first + rest).last() == rest[0]);
    } else {
        rows_are_joined_by_commas(first, rest.drop_last());
        assert((first + rest).drop_last() =~= first + rest.drop_last());
        assert((first + rest).last() == rest.last());
        assert(csv_line(first + rest) =~= csv_line(first) + seq![','] + csv_line(rest));
    }
}

/// A row gives its columns back where none of them holds a comma.
pub proof fn rows_give_their_columns_back(a: Seq<Seq<char>>, b: Seq<Seq<char>>)
    requires
        a.len() == b.len(),
        csv_line(a) == csv_line(b),
        forall|i: int| 0 <= i < a.len() ==> !(#[trigger] a[i]).contains(','),
        forall|i: int| 0 <= i < b.len() ==> !(#[trigger] b[i]).contains(','),
    ensures
        a == b,
    decreases a.len(),
{
    if a.len() == 0 {
        assert(a =~= b);
    } else if a.len() == 1 {
        assert(a =~= b);
    } else {
        let x = csv_line(a);
        let front_a = csv_line(a.drop_last());
        let front_b = csv_line(b.drop_last());
        let m = front_a.len() as int;
        let n = front_b.len() as int;
        assert(x == front_a + seq![','] + a.last());
        assert(x == front_b + seq![','] + b.last());
        assert(x.len() == m + 1 + a.last().len() && x.len() == n + 1 + b.last().len());
        assert((front_a + seq![','] + a.last())[m] == ',');
        assert((front_b + seq![','] + b.last())[n] == ',');
        assert(!a[a.len() - 1].contains(','));
        assert(!b[b.len() - 1].contains(','));
        if m < n {
            assert((front_a + seq![','] + a.last())[n] == a.last()[n - m - 1]);
        }
        if n < m {
            assert((front_b + seq![','] + b.last())[m] == b.last()[m - n - 1]);
        }
        assert(m == n);
        assert(a.last() =~= x.skip(m + 1));
        assert(b.last() =~= x.skip(m + 1));
        assert(front_a =~= x.take(m));
        assert(front_b =~= x.take(m));
        rows_give_their_columns_back(a.drop_last(), b.drop_last());
        assert(a =~= a.drop_last().push(a.last()));
        assert(b =~= b.drop_last().push(b.last()));
    }
}

/// Quoting goes character by character: a quote is written twice, all else once, and the
/// whole stands between quotes.
pub proof fn quotes_are_doubled(first: Seq<char>, rest: Seq<char>)
    ensures
        doubled(first + rest) == doubled(first) + doubled(rest),
        rest.len() == 1 && rest[0] == '"' ==> doubled(rest) == seq!['"', '"'],
        rest.len() == 1 && rest[0] != '"' ==> doubled(rest) == rest,
        quoted(rest).len() == doubled(rest).len() + 2,
        quoted(rest)[0] == '"' && quoted(rest).last() == '"',
        quoted(rest).drop_first().drop_last() == doubled(rest),
    decreases rest.len(),
{
    assert(quoted(rest).drop_first().drop_last() =~= doubled(rest));
    if rest.len() == 0 {
        assert(first + rest =~= first);
        assert(doubled(first) + doubled(rest) =~= doubled(first));
    } else {
        quotes_are_doubled(first, rest.drop_last());
        assert((first + rest).drop_last() =~= first + rest.drop_last());
        assert(doubled(first + rest) =~= doubled(first) + doubled(rest));
        if rest.len() == 1 {
            assert(rest.drop_last() =~= seq![]);
            assert(rest[0] == '"' ==> doubled(rest) =~= seq!['"', '"']);
            assert(rest[0] != '"' ==> doubled(rest) =~= rest);
        }
    }
}

/// The row of a depth update: the leading columns, the three ids, first, last and previous,
/// and the bids ahead of the asks.
pub proof fn depth_update_rows_tell_the_update(
    record: DepthUpdateCsv,
    datetime_utc: Seq<char>,
    columns: Seq<Seq<char>>,
)
    requires
        columns == depth_update_columns(record, datetime_utc),
    ensures
        columns.len() == 11,
        columns[0] == record.exchange@ && columns[1] == record.market@ && columns[2]
            == record.datatype@,
        columns[3] == text::signed_decimal(record.timestamp_ms as int) && columns[4] == datetime_utc
            && columns[5] == record.symbol@,
        columns[6] == text::decimal(record.first_update_id as nat),
        columns[7] == text::decimal(record.last_update_id as nat),
        columns[8] == text::decimal(record.prev_update_id as nat),
        columns[9] == quoted(record.bids_json@),
        columns[10] == quoted(record.asks_json@),
{
}

/// The row of a level of a snapshot: event type, side, price, quantity and the id.
pub proof fn depth_snapshot_rows_tell_the_level(
    record: DepthSnapshotCsv,
    datetime_utc: Seq<char>,
    price: &Option<String>,
    quantity: &Option<String>,
    columns: Seq<Seq<char>>,
)
    requires
        columns == depth_snapshot_columns(record, datetime_utc, price, quantity),
    ensures
        columns.len() == 11,
        columns[0] == record.exchange@ && columns[1] == record.market@ && columns[2]
            == record.datatype@,
        columns[3] == text::signed_decimal(record.timestamp_ms as int) && columns[4] == datetime_utc
            && columns[5] == record.symbol@,
        columns[6] == record.event_type@,
        columns[7] == record.side@,
        tells(columns[8], *price),
        tells(columns[9], *quantity),
        columns[10] == text::decimal(record.last_update_id as nat),
{
}

/// The row of a trade: id, side, price, quantity, whether the buyer was the maker, and the
/// first and the last id.
pub proof fn trade_rows_tell_the_trade(
    record: TradeCsv,
    datetime_utc: Seq<char>,
    price: &Option<String>,
    quantity: &Option<String>,
    columns: Seq<Seq<char>>,
)
    requires
        columns == trade_columns(record, datetime_utc, price, quantity),
    ensures
        columns.len() == 13,
        columns[0] == record.exchange@ && columns[1] == record.market@ && columns[2]
            == record.datatype@,
        columns[3] == text::signed_decimal(record.timestamp_ms as int) && columns[4] == datetime_utc
            && columns[5] == record.symbol@,
        columns[6] == text::signed_decimal(record.trade_id as int),
        columns[7] == record.side@,
        tells(columns[8], *price),
        tells(columns[9], *quantity),
        columns[10] == text::signed_decimal(record.is_buyer_maker as int),
        columns[11] == text::signed_decimal(record.first_update_id as int),
        columns[12] == text::signed_decimal(record.last_update_id as int),
{
}

/// The row of a kline: open, high, low, close, volume, quote volume, the number of trades,
/// and what takers bought, in base and in quote.
pub proof fn kline_rows_tell_the_kline(
    record: KlineCsv,
    datetime_utc: Seq<char>,
    open: &Option<String>,
    high: &Option<String>,
    low: &Option<String>,
    close: &Option<String>,
    volume: &Option<String>,
    quote_volume: &Option<String>,
    taker_buy_base: &Option<String>,
    taker_buy_quote: &Option<String>,
    columns: Seq<Seq<char>>,
)
    requires
        columns == kline_columns(record, datetime_utc, open, high, low, close, volume, quote_volume, taker_buy_base, taker_buy_quote),
    ensures
        columns.len() == 15,
        columns[0] == record.exchange@ && columns[1] == record.market@ && columns[2]
            == record.datatype@,
        columns[3] == text::signed_decimal(record.timestamp_ms as int) && columns[4] == datetime_utc
            && columns[5] == record.symbol@,
        tells(columns[6], *open),
        tells(columns[7], *high),
        tells(columns[8], *low),
        tells(columns[9], *close),
        tells(columns[10], *volume),
        tells(columns[11], *quote_volume),
        columns[12] == text::signed_decimal(record.trade_count as int),
        tells(columns[13], *taker_buy_base),
        tells(columns[14], *taker_buy_quote),
{
}

/// The row of a liquidation: side, price, quantity and value.
pub proof fn liquidation_rows_tell_the_liquidation(
    record: LiquidationCsv,
    datetime_utc: Seq<char>,
    price: &Option<String>,
    quantity: &Option<String>,
    value: &Option<String>,
    columns: Seq<Seq<char>>,
)
    requires
        columns == liquidation_columns(record, datetime_utc, price, quantity, value),
    ensures
        columns.len() == 10,
        columns[0] == record.exchange@ && columns[1] == record.market@ && columns[2]
            == record.datatype@,
        columns[3] == text::signed_decimal(record.timestamp_ms as int) && columns[4] == datetime_utc
            && columns[5] == record.symbol@,
        columns[6] == record.side@,
        tells(columns[7], *price),
        tells(columns[8], *quantity),
        tells(columns[9], *value),
{
}

/// The row of a funding rate: the rate and the next funding time.
pub proof fn funding_rows_tell_the_rate(
    record: FundingRateCsv,
    datetime_utc: Seq<char>,
    funding_rate: &Option<String>,
    columns: Seq<Seq<char>>,
)
    requires
        columns == funding_rate_columns(record, datetime_utc, funding_rate),
    ensures
        columns.len() == 8,
        columns[0] == record.exchange@ && columns[1] == record.market@ && columns[2]
            == record.datatype@,
        columns[3] == text::signed_decimal(record.timestamp_ms as int) && columns[4] == datetime_utc
            && columns[5] == record.symbol@,
        tells(columns[6], *funding_rate),
        columns[7] == text::signed_decimal(record.next_funding_time as int),
{
}

/// The row of an open interest: price, interest and value.
pub proof fn open_interest_rows_tell_the_interest(
    record: OpenInterestCsv,
    datetime_utc: Seq<char>,
    price: &Option<String>,
    open_interest: &Option<String>,
    oi_value: &Option<String>,
    columns: Seq<Seq<char>>,
)
    requires
        columns == open_interest_columns(record, datetime_utc, price, open_interest, oi_value),
    ensures
        columns.len() == 9,
        columns[0] == record.exchange@ && columns[1] == record.market@ && columns[2]
            == record.datatype@,
        columns[3] == text::signed_decimal(record.timestamp_ms as int) && columns[4] == datetime_utc
            && columns[5] == record.symbol@,
        tells(columns[6], *price),
        tells(columns[7], *open_interest),
        tells(columns[8], *oi_value),
{
}

/// The row of a long/short ratio: period, kind, the long share, the short share, their
/// ratio.
pub proof fn ratio_rows_tell_the_ratio(
    record: LongShortRatioCsv,
    datetime_utc: Seq<char>,
    long_ratio: &Option<String>,
    short_ratio: &Option<String>,
    long_short_ratio: &Option<String>,
    columns: Seq<Seq<char>>,
)
    requires
        columns == long_short_ratio_columns(record, datetime_utc, long_ratio, short_ratio, long_short_ratio),
    ensures
        columns.len() == 11,
        columns[0] == record.exchange@ && columns[1] == record.market@ && columns[2]
            == record.datatype@,
        columns[3] == text::signed_decimal(record.timestamp_ms as int) && columns[4] == datetime_utc
            && columns[5] == record.symbol@,
        columns[6] == record.period@,
        columns[7] == record.ratio_type@,
        tells(columns[8], *long_ratio),
        tells(columns[9], *short_ratio),
        tells(columns[10], *long_short_ratio),
{
}

/// The row of a kline of the mark or index price: open, high, low, close.
pub proof fn mark_price_rows_tell_the_kline(
    record: MarkPriceKlineCsv,
    datetime_utc: Seq<char>,
    open: &Option<String>,
    high: &Option<String>,
    low: &Option<String>,
    close: &Option<String>,
    columns: Seq<Seq<char>>,
)
    requires
        columns == mark_price_kline_columns(record, datetime_utc, open, high, low, close),
    ensures
        columns.len() == 10,
        columns[0] == record.exchange@ && columns[1] == record.market@ && columns[2]
            == record.datatype@,
        columns[3] == text::signed_decimal(record.timestamp_ms as int) && columns[4] == datetime_utc
            && columns[5] == record.symbol@,
        tells(columns[6], *open),
        tells(columns[7], *high),
        tells(columns[8], *low),
        tells(columns[9], *close),
{
}

/// The row of taker volumes: period, what was bought, what was sold, their ratio.
pub proof fn taker_volume_rows_tell_both_sides(
    record: TakerBuySellVolumeCsv,
    datetime_utc: Seq<char>,
    buy_volume: &Option<String>,
    sell_volume: &Option<String>,
    buy_sell_ratio: &Option<String>,
    columns: Seq<Seq<char>>,
)
    requires
        columns == taker_buy_sell_ratio_columns(record, datetime_utc, buy_volume, sell_volume, buy_sell_ratio),
    ensures
        columns.len() == 10,
        columns[0] == record.exchange@ && columns[1] == record.market@ && columns[2]
            == record.datatype@,
        columns[3] == text::signed_decimal(record.timestamp_ms as int) && columns[4] == datetime_utc
            && columns[5] == record.symbol@,
        columns[6] == record.period@,
        tells(columns[7], *buy_volume),
        tells(columns[8], *sell_volume),
        tells(columns[9], *buy_sell_ratio),
{
}

/// The row of a kline of the premium index: open, high, low, close.
pub proof fn premium_rows_tell_the_kline(
    record: PremiumIndexKlineCsv,
    datetime_utc: Seq<char>,
    open: &Option<String>,
    high: &Option<String>,
    low: &Option<String>,
    close: &Option<String>,
    columns: Seq<Seq<char>>,
)
    requires
        columns == premium_index_kline_columns(record, datetime_utc, open, high, low, close),
    ensures
        columns.len() == 10,
        columns[0] == record.exchange@ && columns[1] == record.market@ && columns[2]
            == record.datatype@,
        columns[3] == text::signed_decimal(record.timestamp_ms as int) && columns[4] == datetime_utc
            && columns[5] == record.symbol@,
        tells(columns[6], *open),
        tells(columns[7], *high),
        tells(columns[8], *low),
        tells(columns[9], *close),
{
}

} // verus!
