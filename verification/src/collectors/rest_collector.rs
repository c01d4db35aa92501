//! Periodic REST polls: their schedule, which buckets of an answer are new, and the
//! records that are made of them.

use crate::collectors::symbol_discovery::Listings;
use crate::config::RestIntervalsConfig;
use crate::constants;
use crate::models;
use crate::models::{
    format_decimal_str, FundingRateCsv, FundingRateRest, IndexPriceKlineCsv, LongShortRatioCsv,
    LongShortRatioRest, MarkPriceKlineCsv, OpenInterestCsv, OpenInterestRest, PremiumIndexKlineCsv,
    TakerBuySellVolumeCsv, TakerBuySellVolumeRest,
};
use crate::symbol_maps;
use crate::text;
use dashmap::DashMap;
use vstd::prelude::*;

verus! {

/// Buckets per poll of ratio data. Eight buckets of five minutes bridge the time between
/// two polls; the limits count requests, not buckets.
pub const DATA_BUCKET_LIMIT: u32 = 8;

/// Buckets per poll of klines.
pub const KLINE_BUCKET_LIMIT: u32 = 4;

/// Polls are put off by less than this many seconds, at random.
pub const JITTER_RANGE: u64 = 31;

/// The period of ratio data.
pub const DATA_PERIOD: &'static str = "5m";

/// The interval of klines.
pub const KLINE_INTERVAL: &'static str = "1m";

/// What stands in a record where an answer has no price.
pub const NO_PRICE: &'static str = "0.000000000000";

/// What is polled.
#[derive(Clone, Copy, Debug, PartialEq, Eq, Structural)]
pub enum Poll {
    FundingRates,
    MarkPriceKlines,
    IndexPriceKlines,
    PremiumIndexKlines,
    OpenInterest,
    TakerBuySellRatio,
    LongShortRatio,
}

impl Poll {
    /// Seconds before the first poll. The polls start one after another, so that their
    /// requests do not all come at once.
    pub open spec fn delay(self) -> u64 {
        match self {
            Poll::FundingRates => 0,
            Poll::MarkPriceKlines => 10,
            Poll::IndexPriceKlines => 20,
            Poll::PremiumIndexKlines => 30,
            Poll::OpenInterest => 40,
            Poll::TakerBuySellRatio => 50,
            Poll::LongShortRatio => 60,
        }
    }

    /// Seconds before the first poll.
    pub fn start_delay(self) -> (r: u64)
        ensures
            r == self.delay(),
    {
        match self {
            Poll::FundingRates => 0,
            Poll::MarkPriceKlines => 10,
            Poll::IndexPriceKlines => 20,
            Poll::PremiumIndexKlines => 30,
            Poll::OpenInterest => 40,
            Poll::TakerBuySellRatio => 50,
            Poll::LongShortRatio => 60,
        }
    }

    /// Seconds from one poll to the next.
    pub fn interval(self, intervals: &RestIntervalsConfig) -> (r: u64)
        ensures
            r == self.every(*intervals),
            r == (match self {
                Poll::FundingRates => intervals.funding_rates_seconds,
                Poll::MarkPriceKlines => intervals.mark_price_klines_seconds,
                Poll::IndexPriceKlines => intervals.index_price_klines_seconds,
                Poll::PremiumIndexKlines => intervals.premium_index_klines_seconds,
                Poll::OpenInterest => intervals.open_interest_seconds,
                Poll::TakerBuySellRatio => intervals.taker_buy_sell_ratio_seconds,
                Poll::LongShortRatio => intervals.long_short_ratio_seconds,
            }),
    {
        match self {
            Poll::FundingRates => intervals.funding_rates_seconds,
            Poll::MarkPriceKlines => intervals.mark_price_klines_seconds,
            Poll::IndexPriceKlines => intervals.index_price_klines_seconds,
            Poll::PremiumIndexKlines => intervals.premium_index_klines_seconds,
            Poll::OpenInterest => intervals.open_interest_seconds,
            Poll::TakerBuySellRatio => intervals.taker_buy_sell_ratio_seconds,
            Poll::LongShortRatio => intervals.long_short_ratio_seconds,
        }
    }

    /// Symbols that are polled at a time. Open interest takes two requests per symbol.
    pub fn batch_size(self) -> (r: usize)
        ensures
            r == self.at_a_time(),
            r == (if self == Poll::OpenInterest {
                5int
            } else {
                10
            }),
    {
        if self == Poll::OpenInterest {
            5
        } else {
            10
        }
    }

    /// Seconds between two batches of symbols.
    pub fn batch_gap(self) -> (r: u64)
        ensures
            r == self.pause(),
            r == (if self == Poll::OpenInterest {
                3int
            } else {
                2
            }),
    {
        if self == Poll::OpenInterest {
            3
        } else {
            2
        }
    }
}

/// Polls start ten seconds apart at least.
pub proof fn polls_start_apart(a: Poll, b: Poll)
    requires
        a != b,
    ensures
        a.delay() + 10 <= b.delay() || b.delay() + 10 <= a.delay(),
{
}

/// `rand::random`: any number.
#[verifier::external_body]
fn random_number() -> u64 {
    rand::random::<u64>()
}

/// Seconds by which a poll is put off, given a random number.
pub fn jitter_of(random: u64) -> (r: u64)
    ensures
        r == random % 31,
{
    random % JITTER_RANGE
}

/// Seconds by which a poll is put off: none to thirty, at random, so that polls with the
/// same interval drift apart.
pub fn jitter() -> (r: u64)
    ensures
        r < 31,
{
    jitter_of(random_number())
}

/// The chunk at `index`: the next `size` entries, or what is left.
pub open spec fn chunk<T>(list: Seq<T>, size: nat, index: int) -> Seq<T> {
    let end = (index + 1) * size;
    list.subrange(
        index * size,
        if end <= list.len() {
            end
        } else {
            list.len() as int
        },
    )
}

/// Symbols in chunks of `size`, in their order.
pub fn request_batches(symbols: &Vec<String>, size: usize) -> (r: Vec<Vec<String>>)
    requires
        size > 0,
    ensures
        r@.len() == (symbols@.len() + size - 1) / size as int,
        forall|i: int|
            0 <= i < r@.len() ==> text::texts((#[trigger] r@[i])@) == chunk(
                text::texts(symbols@),
                size as nat,
                i,
            ),
{
    let ghost names = text::texts(symbols@);
    let mut batches: Vec<Vec<String>> = Vec::new();
    let mut from: usize = 0;
    assert((0 - 1) * size < 0 && 0 * size == 0) by (nonlinear_arith)
        requires
            size > 0,
    ;
    while from < symbols.len()
        invariant
            size > 0,
            from <= symbols.len(),
            names == text::texts(symbols@),
            from < symbols.len() ==> from == batches.len() * size,
            from == symbols.len() ==> {
                &&& (batches.len() - 1) * size < from <= batches.len() * size
                &&& from == 0 ==> batches.len() == 0
            },
            forall|i: int|
                0 <= i < batches.len() ==> text::texts((#[trigger] batches@[i])@) == chunk(
                    names,
                    size as nat,
                    i,
                ),
        decreases symbols.len() - from,
    {
        let to: usize = if symbols.len() - from > size {
            from + size
        } else {
            symbols.len()
        };
        let mut batch: Vec<String> = Vec::new();
        let mut i: usize = from;
        while i < to
            invariant
                from <= i <= to <= symbols.len(),
                batch.len() == i - from,
                forall|k: int| 0 <= k < batch.len() ==> (#[trigger] batch@[k])@ == symbols@[from
                    + k]@,
            decreases to - i,
        {
            batch.push(symbols[i].clone());
            i = i + 1;
        }
        proof {
            let n = batches.len() as int;
            assert((n + 1) * size == n * size + size) by (nonlinear_arith);
            assert((n + 1 - 1) * size == n * size);
            assert(text::texts(batch@) =~= chunk(names, size as nat, n));
        }
        batches.push(batch);
        from = to;
    }
    proof {
        let n = batches.len() as int;
        let len = symbols.len() as int;
        let s = size as int;
        if len == 0 {
            assert((s - 1) / s == 0) by (nonlinear_arith)
                requires
                    s > 0,
            ;
        } else {
            assert((len + s - 1) / s == n) by (nonlinear_arith)
                requires
                    s > 0,
                    (n - 1) * s < len <= n * s,
            ;
        }
    }
    batches
}

/// Every entry is in the chunk that its position names, and in no other.
pub proof fn chunks_cover_all<T>(list: Seq<T>, size: nat, at: int)
    requires
        size > 0,
        0 <= at < list.len(),
    ensures
        0 <= at / (size as int) < (list.len() + size - 1) / (size as int),
        0 <= at % (size as int) < chunk(list, size, at / (size as int)).len(),
        chunk(list, size, at / (size as int))[at % (size as int)] == list[at],
{
    let s = size as int;
    let n = list.len() as int;
    let i = at / s;
    assert(at == i * s + at % s && 0 <= at % s < s && i >= 0) by (nonlinear_arith)
        requires
            s > 0,
            at >= 0,
            i == at / s,
    ;
    assert((i + 1) * s == i * s + s) by (nonlinear_arith);
    assert(i < (n + s - 1) / s) by (nonlinear_arith)
        requires
            s > 0,
            i * s < n,
    ;
}

/// The symbols that are not delisted, in their order.
pub open spec fn listed(symbols: Seq<Seq<char>>, delisted: Set<Seq<char>>) -> Seq<Seq<char>>
    decreases symbols.len(),
{
    if symbols.len() == 0 {
        seq![]
    } else {
        let front = listed(symbols.drop_last(), delisted);
        if delisted.contains(symbols.last()) {
            front
        } else {
            front.push(symbols.last())
        }
    }
}

/// The symbols of a batch that are polled: delisted ones would only use up the budget.
pub fn pollable(symbols: &Vec<String>, listings: &Listings) -> (r: Vec<String>)
    ensures
        text::texts(r@) == listed(text::texts(symbols@), listings@.delisted),
{
    let ghost names = text::texts(symbols@);
    let mut out: Vec<String> = Vec::new();
    let mut i: usize = 0;
    assert(names.take(0) =~= seq![]);
    assert(text::texts(out@) =~= seq![]);
    while i < symbols.len()
        invariant
            i <= symbols.len(),
            names == text::texts(symbols@),
            text::texts(out@) == listed(names.take(i as int), listings@.delisted),
        decreases symbols.len() - i,
    {
        assert(names.take(i + 1).drop_last() =~= names.take(i as int));
        assert(names.take(i + 1).last() == symbols@[i as int]@);
        if !listings.is_delisted(symbols[i].as_str()) {
            let ghost before = text::texts(out@);
            out.push(symbols[i].clone());
            assert(text::texts(out@) =~= before.push(symbols@[i as int]@));
        }
        i = i + 1;
    }
    assert(names.take(i as int) =~= names);
    out
}

/// A delisted symbol is never polled, and every other one is.
pub proof fn only_delisted_symbols_are_skipped(
    symbols: Seq<Seq<char>>,
    delisted: Set<Seq<char>>,
    symbol: Seq<char>,
)
    ensures
        listed(symbols, delisted).contains(symbol) <==> symbols.contains(symbol)
            && !delisted.contains(symbol),
    decreases symbols.len(),
{
    if symbols.len() > 0 {
        let front = symbols.drop_last();
        only_delisted_symbols_are_skipped(front, delisted, symbol);
        let kept = listed(front, delisted);
        let all = listed(symbols, delisted);
        if symbols.contains(symbol) && symbol != symbols.last() {
            let k = choose|k: int| 0 <= k < symbols.len() && symbols[k] == symbol;
            assert(front[k] == symbol);
        }
        if front.contains(symbol) {
            let k = choose|k: int| 0 <= k < front.len() && front[k] == symbol;
            assert(symbols[k] == symbol);
        }
        if kept.contains(symbol) {
            let k = choose|k: int| 0 <= k < kept.len() && kept[k] == symbol;
            assert(all[k] == symbol);
        }
        if symbol == symbols.last() {
            assert(symbols[symbols.len() - 1] == symbol);
            if !delisted.contains(symbol) {
                assert(all[all.len() - 1] == symbol);
            }
        }
        if all.contains(symbol) && !kept.contains(symbol) {
            let k = choose|k: int| 0 <= k < all.len() && all[k] == symbol;
            assert(k < kept.len() ==> kept[k] == symbol);
        }
    }
}

/// Whether a timestamp is later than the last one, if there is one.
pub open spec fn newer(timestamp: i64, last: Option<i64>) -> bool {
    match last {
        Some(previous) => previous < timestamp,
        None => true,
    }
}

/// The latest timestamp after more of them.
pub open spec fn latest(timestamps: Seq<i64>, last: Option<i64>) -> Option<i64>
    decreases timestamps.len(),
{
    if timestamps.len() == 0 {
        last
    } else {
        let before = latest(timestamps.drop_last(), last);
        if newer(timestamps.last(), before) {
            Some(timestamps.last())
        } else {
            before
        }
    }
}

/// The positions of new buckets: each later than the last one written before.
pub open spec fn new_buckets(timestamps: Seq<i64>, last: Option<i64>) -> Seq<int>
    decreases timestamps.len(),
{
    if timestamps.len() == 0 {
        seq![]
    } else {
        let front = timestamps.drop_last();
        let rest = new_buckets(front, last);
        if newer(timestamps.last(), latest(front, last)) {
            rest.push(front.len() as int)
        } else {
            rest
        }
    }
}

/// The new buckets stand at increasing positions of the list.
proof fn lemma_new_buckets(timestamps: Seq<i64>, last: Option<i64>)
    ensures
        forall|i: int|
            0 <= i < new_buckets(timestamps, last).len() ==> 0 <= #[trigger] new_buckets(
                timestamps,
                last,
            )[i] < timestamps.len(),
        forall|i: int, j: int|
            0 <= i < j < new_buckets(timestamps, last).len() ==> (#[trigger] new_buckets(
                timestamps,
                last,
            )[i]) < (#[trigger] new_buckets(timestamps, last)[j]),
    decreases timestamps.len(),
{
    if timestamps.len() > 0 {
        let front = timestamps.drop_last();
        lemma_new_buckets(front, last);
        let before = new_buckets(front, last);
        let picked = new_buckets(timestamps, last);
        assert forall|i: int| 0 <= i < picked.len() implies 0 <= #[trigger] picked[i]
            < timestamps.len() by {
            if i < before.len() {
                assert(picked[i] == before[i]);
            }
        }
        assert forall|i: int, j: int| 0 <= i < j < picked.len() implies #[trigger] picked[i]
            < #[trigger] picked[j] by {
            assert(picked[i] == before[i]);
            if j < before.len() {
                assert(picked[j] == before[j]);
            }
        }
    }
}

/// No bucket is written twice: the new ones have increasing timestamps, all later than
/// what was written before.
pub proof fn no_bucket_is_written_twice(timestamps: Seq<i64>, last: Option<i64>)
    ensures
        ({
            let picked = new_buckets(timestamps, last);
            &&& forall|i: int|
                0 <= i < picked.len() ==> newer(timestamps[#[trigger] picked[i]], last)
            &&& forall|i: int, j: int|
                0 <= i < j < picked.len() ==> timestamps[#[trigger] picked[i]]
                    < timestamps[#[trigger] picked[j]]
            &&& forall|i: int|
                0 <= i < picked.len() ==> !newer(
                    timestamps[#[trigger] picked[i]],
                    latest(timestamps, last),
                )
            &&& last is Some ==> !newer(last->0, latest(timestamps, last))
        }),
    decreases timestamps.len(),
{
    if timestamps.len() > 0 {
        let front = timestamps.drop_last();
        no_bucket_is_written_twice(front, last);
        lemma_new_buckets(front, last);
        let before = new_buckets(front, last);
        let picked = new_buckets(timestamps, last);
        assert forall|i: int| 0 <= i < before.len() implies timestamps[#[trigger] before[i]]
            == front[before[i]] by {}
        assert forall|i: int, j: int| 0 <= i < j < picked.len() implies timestamps[#[trigger] picked[i]]
            < timestamps[#[trigger] picked[j]] by {
            if j < before.len() {
                assert(timestamps[before[i]] == front[before[i]]);
                assert(timestamps[before[j]] == front[before[j]]);
            } else {
                assert(timestamps[before[i]] == front[before[i]]);
            }
        }
        assert forall|i: int| 0 <= i < picked.len() implies newer(
            timestamps[#[trigger] picked[i]],
            last,
        ) by {
            if i < before.len() {
                assert(picked[i] == before[i]);
            } else {
                if last is Some {
                    lemma_latest_is_not_before(front, last);
                }
            }
        }
        assert forall|i: int| 0 <= i < picked.len() implies !newer(
            timestamps[#[trigger] picked[i]],
            latest(timestamps, last),
        ) by {
            if i < before.len() {
                assert(picked[i] == before[i]);
                assert(!newer(front[before[i]], latest(front, last)));
            }
        }
    }
}

/// The latest timestamp is never before the last one.
proof fn lemma_latest_is_not_before(timestamps: Seq<i64>, last: Option<i64>)
    requires
        last is Some,
    ensures
        latest(timestamps, last) is Some,
        latest(timestamps, last)->0 >= last->0,
    decreases timestamps.len(),
{
    if timestamps.len() > 0 {
        lemma_latest_is_not_before(timestamps.drop_last(), last);
    }
}

/// Polls that overlap lose nothing and repeat nothing: what two answers give one after
/// the other is what they give as one.
pub proof fn polls_compose(first: Seq<i64>, second: Seq<i64>, last: Option<i64>)
    ensures
        latest(first + second, last) == latest(second, latest(first, last)),
        new_buckets(first + second, last) == new_buckets(first, last) + new_buckets(
            second,
            latest(first, last),
        ).map_values(|i: int| i + first.len()),
    decreases second.len(),
{
    let then = latest(first, last);
    if second.len() == 0 {
        assert(first + second =~= first);
        assert(new_buckets(second, then).map_values(|i: int| i + first.len()) =~= seq![]);
        assert(new_buckets(first, last) + seq![] =~= new_buckets(first, last));
    } else {
        let front = second.drop_last();
        polls_compose(first, front, last);
        assert((first + second).drop_last() =~= first + front);
        assert(new_buckets(first + second, last) =~= new_buckets(first, last) + new_buckets(
            second,
            then,
        ).map_values(|i: int| i + first.len()));
    }
}

/// An answer that comes again has nothing new.
pub proof fn repeated_answer_has_nothing_new(timestamps: Seq<i64>, last: Option<i64>)
    ensures
        new_buckets(timestamps, latest(timestamps, last)).len() == 0,
{
    lemma_all_seen(timestamps, last);
    lemma_seen_gives_nothing(timestamps, latest(timestamps, last));
}

/// No timestamp of a list is later than the latest.
proof fn lemma_all_seen(timestamps: Seq<i64>, last: Option<i64>)
    ensures
        forall|i: int|
            0 <= i < timestamps.len() ==> !newer(#[trigger] timestamps[i], latest(timestamps, last)),
    decreases timestamps.len(),
{
    if timestamps.len() > 0 {
        let front = timestamps.drop_last();
        lemma_all_seen(front, last);
        assert forall|i: int| 0 <= i < timestamps.len() implies !newer(
            #[trigger] timestamps[i],
            latest(timestamps, last),
        ) by {
            if i < front.len() {
                assert(!newer(front[i], latest(front, last)));
            }
        }
    }
}

/// Timestamps that are not later than the last one give nothing.
proof fn lemma_seen_gives_nothing(timestamps: Seq<i64>, last: Option<i64>)
    requires
        forall|i: int| 0 <= i < timestamps.len() ==> !newer(#[trigger] timestamps[i], last),
    ensures
        new_buckets(timestamps, last).len() == 0,
        latest(timestamps, last) == last,
    decreases timestamps.len(),
{
    if timestamps.len() > 0 {
        let front = timestamps.drop_last();
        assert forall|i: int| 0 <= i < front.len() implies !newer(#[trigger] front[i], last) by {
            assert(front[i] == timestamps[i]);
        }
        lemma_seen_gives_nothing(front, last);
        assert(!newer(timestamps[timestamps.len() - 1], last));
    }
}

/// A field of a kline as it came.
pub enum KlineField {
    /// A whole number.
    Number(i64),
    /// A text, and its number with twelve places if it is one.
    Text(String, Option<String>),
    Other,
}

/// A kline of a REST answer: time, open, high, low, close, and more.
pub struct RawKline {
    pub fields: Vec<KlineField>,
}

/// A closed kline.
pub struct ClosedKline {
    pub timestamp: i64,
    pub open: String,
    pub high: String,
    pub low: String,
    pub close: String,
}

/// A field as a time.
pub open spec fn field_time(field: KlineField) -> i64 {
    match field {
        KlineField::Number(n) => n,
        _ => 0,
    }
}

/// A field as a price.
pub open spec fn field_price(field: KlineField) -> Seq<char> {
    match field {
        KlineField::Text(raw, fixed) => models::fixed_or_raw(raw@, fixed),
        _ => NO_PRICE@,
    }
}

/// `kline` is what a raw one says.
pub open spec fn reads_as(raw: RawKline, kline: ClosedKline) -> bool {
    &&& kline.timestamp == field_time(raw.fields@[0])
    &&& kline.open@ == field_price(raw.fields@[1])
    &&& kline.high@ == field_price(raw.fields@[2])
    &&& kline.low@ == field_price(raw.fields@[3])
    &&& kline.close@ == field_price(raw.fields@[4])
}

/// The positions of the klines among the first `n` that have all fields.
pub open spec fn complete(rows: Seq<RawKline>, n: int) -> Seq<int>
    decreases n,
{
    if n <= 0 {
        seq![]
    } else {
        let rest = complete(rows, n - 1);
        if rows[n - 1].fields@.len() >= 5 {
            rest.push(n - 1)
        } else {
            rest
        }
    }
}

/// How many klines of an answer are closed: all but the last, which is in progress.
pub open spec fn closed_count(rows: Seq<RawKline>) -> int {
    if rows.len() == 0 {
        0
    } else {
        rows.len() - 1
    }
}

/// A field as a price.
fn price_of(field: &KlineField) -> (r: String)
    ensures
        r@ == field_price(*field),
{
    match field {
        KlineField::Text(raw, fixed) => match fixed {
            Some(fixed) => fixed.clone(),
            None => raw.clone(),
        },
        _ => NO_PRICE.to_owned(),
    }
}

/// The closed klines of an answer. The last one, which is in progress, and incomplete
/// ones are left out.
pub fn closed_klines(rows: &Vec<RawKline>) -> (r: Vec<ClosedKline>)
    ensures
        ({
            let picked = complete(rows@, closed_count(rows@));
            &&& r@.len() == picked.len()
            &&& forall|i: int|
                0 <= i < r@.len() ==> reads_as(rows@[picked[i]], #[trigger] r@[i])
        }),
{
    let mut klines: Vec<ClosedKline> = Vec::new();
    let closed: usize = if rows.len() == 0 {
        0
    } else {
        rows.len() - 1
    };
    let mut i: usize = 0;
    while i < closed
        invariant
            i <= closed <= rows.len(),
            klines.len() == complete(rows@, i as int).len(),
            forall|k: int|
                0 <= k < klines.len() ==> reads_as(
                    rows@[complete(rows@, i as int)[k]],
                    #[trigger] klines@[k],
                ),
        decreases closed - i,
    {
        let fields: &Vec<KlineField> = &rows[i].fields;
        if fields.len() >= 5 {
            klines.push(
                ClosedKline {
                    timestamp: match &fields[0] {
                        KlineField::Number(n) => *n,
                        _ => 0,
                    },
                    open: price_of(&fields[1]),
                    high: price_of(&fields[2]),
                    low: price_of(&fields[3]),
                    close: price_of(&fields[4]),
                },
            );
        }
        i = i + 1;
    }
    klines
}

/// The timestamps of klines.
pub open spec fn kline_times(klines: Seq<ClosedKline>) -> Seq<i64> {
    klines.map_values(|kline: ClosedKline| kline.timestamp)
}

/// The timestamps of long/short ratios.
pub open spec fn ratio_times(ratios: Seq<LongShortRatioRest>) -> Seq<i64> {
    ratios.map_values(|ratio: LongShortRatioRest| ratio.timestamp)
}

/// The timestamps of taker volumes.
pub open spec fn volume_times(volumes: Seq<TakerBuySellVolumeRest>) -> Seq<i64> {
    volumes.map_values(|volume: TakerBuySellVolumeRest| volume.timestamp)
}

/// The kinds of long/short ratios.
#[derive(Clone, Copy, Debug, PartialEq, Eq, Structural)]
pub enum RatioType {
    Global,
    TopTraderAccount,
    TopTraderPosition,
}

/// The name of a kind of ratio.
pub open spec fn ratio_name(ratio_type: RatioType) -> Seq<char> {
    match ratio_type {
        RatioType::Global => "global"@,
        RatioType::TopTraderAccount => "top_trader_account"@,
        RatioType::TopTraderPosition => "top_trader_position"@,
    }
}

impl RatioType {
    /// The name of the kind of ratio.
    pub fn name(self) -> (r: &'static str)
        ensures
            r@ == ratio_name(self),
    {
        match self {
            RatioType::Global => "global",
            RatioType::TopTraderAccount => "top_trader_account",
            RatioType::TopTraderPosition => "top_trader_position",
        }
    }
}

/// The decimal texts of a ratio with twelve places, `None` for one that is no number.
pub struct RatioDecimals {
    pub long_account: Option<String>,
    pub short_account: Option<String>,
    pub long_short_ratio: Option<String>,
    /// The shares that follow from the ratio, for answers without shares.
    pub computed_long: String,
    pub computed_short: String,
}

/// The decimal texts of taker volumes with twelve places, `None` for one that is no
/// number.
pub struct VolumeDecimals {
    pub buy_vol: Option<String>,
    pub sell_vol: Option<String>,
    pub buy_sell_ratio: Option<String>,
}

/// The decimal texts of an open interest with twelve places, `None` for one that is no
/// number.
pub struct InterestDecimals {
    pub mark_price: Option<String>,
    pub open_interest: Option<String>,
    /// The open interest times the mark price.
    pub value: String,
}

/// The decimal of a text that may be absent.
pub open spec fn share(raw: Option<String>, fixed: Option<String>) -> Seq<char> {
    models::fixed_or_raw(raw->0@, fixed)
}

/// `record` is the record of a ratio.
pub open spec fn is_ratio_record(
    record: LongShortRatioCsv,
    ratio: LongShortRatioRest,
    decimals: RatioDecimals,
    symbol: Seq<char>,
    ratio_type: RatioType,
) -> bool {
    let shares = ratio.long_account is Some && ratio.short_account is Some;
    &&& record.exchange@ == constants::EXCHANGE@
    &&& record.market@ == constants::MARKET@
    &&& record.datatype@ == constants::DATATYPE_LONG_SHORT_RATIO@
    &&& record.timestamp_ms == ratio.timestamp
    &&& record.symbol@ == symbol
    &&& record.period@ == DATA_PERIOD@
    &&& record.ratio_type@ == ratio_name(ratio_type)
    &&& record.long_ratio@ == (if shares {
        share(ratio.long_account, decimals.long_account)
    } else {
        decimals.computed_long@
    })
    &&& record.short_ratio@ == (if shares {
        share(ratio.short_account, decimals.short_account)
    } else {
        decimals.computed_short@
    })
    &&& record.long_short_ratio@ == models::fixed_or_raw(
        ratio.long_short_ratio@,
        decimals.long_short_ratio,
    )
}

/// `record` is the record of taker volumes.
pub open spec fn is_volume_record(
    record: TakerBuySellVolumeCsv,
    volume: TakerBuySellVolumeRest,
    decimals: VolumeDecimals,
    symbol: Seq<char>,
) -> bool {
    &&& record.exchange@ == constants::EXCHANGE@
    &&& record.market@ == constants::MARKET@
    &&& record.datatype@ == constants::DATATYPE_TAKER_BUY_SELL_RATIO@
    &&& record.timestamp_ms == volume.timestamp
    &&& record.symbol@ == symbol
    &&& record.period@ == DATA_PERIOD@
    &&& record.buy_volume@ == models::fixed_or_raw(volume.buy_vol@, decimals.buy_vol)
    &&& record.sell_volume@ == models::fixed_or_raw(volume.sell_vol@, decimals.sell_vol)
    &&& record.buy_sell_ratio@ == models::fixed_or_raw(
        volume.buy_sell_ratio@,
        decimals.buy_sell_ratio,
    )
}

/// `record` is the record of a mark or index price kline.
pub open spec fn is_kline_record(
    record: MarkPriceKlineCsv,
    kline: ClosedKline,
    symbol: Seq<char>,
    datatype: Seq<char>,
) -> bool {
    &&& record.exchange@ == constants::EXCHANGE@
    &&& record.market@ == constants::MARKET@
    &&& record.datatype@ == datatype
    &&& record.timestamp_ms == kline.timestamp
    &&& record.symbol@ == symbol
    &&& record.open@ == kline.open@
    &&& record.high@ == kline.high@
    &&& record.low@ == kline.low@
    &&& record.close@ == kline.close@
}

/// `record` is the record of a premium index kline.
pub open spec fn is_premium_record(
    record: PremiumIndexKlineCsv,
    kline: ClosedKline,
    symbol: Seq<char>,
) -> bool {
    &&& record.exchange@ == constants::EXCHANGE@
    &&& record.market@ == constants::MARKET@
    &&& record.datatype@ == constants::DATATYPE_PREMIUM_INDEX_KLINES@
    &&& record.timestamp_ms == kline.timestamp
    &&& record.symbol@ == symbol
    &&& record.open@ == kline.open@
    &&& record.high@ == kline.high@
    &&& record.low@ == kline.low@
    &&& record.close@ == kline.close@
}

/// `record` is the record of a funding rate.
pub open spec fn is_funding_record(
    record: FundingRateCsv,
    rate: FundingRateRest,
    fixed: Option<String>,
    timestamp: i64,
) -> bool {
    &&& record.exchange@ == constants::EXCHANGE@
    &&& record.market@ == constants::MARKET@
    &&& record.datatype@ == constants::DATATYPE_FUNDING_RATES@
    &&& record.timestamp_ms == timestamp
    &&& record.symbol@ == text::lowercase(rate.symbol@)
    &&& record.funding_rate@ == models::fixed_or_raw(rate.last_funding_rate@, fixed)
    &&& record.next_funding_time == rate.next_funding_time
}

/// The positions of the rates among the first `n` whose symbol is collected and not
/// delisted.
pub open spec fn wanted_rates(
    rates: Seq<FundingRateRest>,
    symbols: Seq<Seq<char>>,
    delisted: Set<Seq<char>>,
    n: int,
) -> Seq<int>
    decreases n,
{
    if n <= 0 {
        seq![]
    } else {
        let rest = wanted_rates(rates, symbols, delisted, n - 1);
        let symbol = text::lowercase(rates[n - 1].symbol@);
        if symbols.contains(symbol) && !delisted.contains(symbol) {
            rest.push(n - 1)
        } else {
            rest
        }
    }
}

/// Whether a list names a symbol.
fn names_symbol(symbols: &Vec<String>, symbol: &str) -> (r: bool)
    ensures
        r == text::texts(symbols@).contains(symbol@),
{
    let ghost names = text::texts(symbols@);
    let mut i: usize = 0;
    while i < symbols.len()
        invariant
            i <= symbols.len(),
            names == text::texts(symbols@),
            forall|k: int| 0 <= k < i ==> #[trigger] names[k] != symbol@,
        decreases symbols.len() - i,
    {
        if text::text_eq(symbols[i].as_str(), symbol) {
            assert(names[i as int] == symbol@);
            return true;
        }
        i = i + 1;
    }
    false
}

/// The records of all funding rates of collected symbols that are not delisted. The
/// answer covers the whole market, and halted symbols too.
pub fn funding_rows(
    rates: &Vec<FundingRateRest>,
    fixed: &Vec<Option<String>>,
    symbols: &Vec<String>,
    listings: &Listings,
    timestamp: i64,
) -> (r: Vec<FundingRateCsv>)
    requires
        fixed@.len() == rates@.len(),
    ensures
        ({
            let picked = wanted_rates(
                rates@,
                text::texts(symbols@),
                listings@.delisted,
                rates@.len() as int,
            );
            &&& r@.len() == picked.len()
            &&& forall|i: int|
                0 <= i < r@.len() ==> is_funding_record(
                    #[trigger] r@[i],
                    rates@[picked[i]],
                    fixed@[picked[i]],
                    timestamp,
                )
        }),
{
    let ghost names = text::texts(symbols@);
    let mut rows: Vec<FundingRateCsv> = Vec::new();
    let mut i: usize = 0;
    while i < rates.len()
        invariant
            i <= rates.len(),
            fixed@.len() == rates@.len(),
            names == text::texts(symbols@),
            rows.len() == wanted_rates(rates@, names, listings@.delisted, i as int).len(),
            forall|k: int|
                0 <= k < rows.len() ==> is_funding_record(
                    #[trigger] rows@[k],
                    rates@[wanted_rates(rates@, names, listings@.delisted, i as int)[k]],
                    fixed@[wanted_rates(rates@, names, listings@.delisted, i as int)[k]],
                    timestamp,
                ),
        decreases rates.len() - i,
    {
        let symbol: String = text::to_lowercase(rates[i].symbol.as_str());
        if names_symbol(symbols, symbol.as_str()) && !listings.is_delisted(symbol.as_str()) {
            rows.push(
                FundingRateCsv {
                    exchange: constants::EXCHANGE.to_owned(),
                    market: constants::MARKET.to_owned(),
                    datatype: constants::DATATYPE_FUNDING_RATES.to_owned(),
                    timestamp_ms: timestamp,
                    symbol,
                    funding_rate: fixed_text(rates[i].last_funding_rate.as_str(), &fixed[i]),
                    next_funding_time: rates[i].next_funding_time,
                },
            );
        }
        i = i + 1;
    }
    rows
}

/// The decimal text with twelve places where there is one, else the text as it came.
fn fixed_text(raw: &str, fixed: &Option<String>) -> (r: String)
    ensures
        r@ == models::fixed_or_raw(raw@, *fixed),
{
    match fixed {
        Some(fixed) => fixed.clone(),
        None => raw.to_owned(),
    }
}

/// The mark price of an answer for one symbol, `None` for an empty answer: there is then
/// no record, as a price of zero would be made up.
pub fn mark_price(rates: &Vec<FundingRateRest>) -> (r: Option<String>)
    ensures
        r is Some <==> rates@.len() > 0,
        r matches Some(price) ==> price@ == rates@[0].mark_price@,
{
    if rates.len() == 0 {
        None
    } else {
        Some(rates[0].mark_price.clone())
    }
}

/// The record of an open interest.
pub fn open_interest_row(
    interest: &OpenInterestRest,
    mark_price: &str,
    decimals: InterestDecimals,
) -> (r: OpenInterestCsv)
    ensures
        r.exchange@ == constants::EXCHANGE@,
        r.market@ == constants::MARKET@,
        r.datatype@ == constants::DATATYPE_OPEN_INTEREST@,
        r.timestamp_ms == interest.time,
        r.symbol@ == text::lowercase(interest.symbol@),
        r.price@ == models::fixed_or_raw(mark_price@, decimals.mark_price),
        r.open_interest@ == models::fixed_or_raw(interest.open_interest@, decimals.open_interest),
        r.oi_value@ == decimals.value@,
        is_interest_record(r, *interest, mark_price@, decimals),
{
    OpenInterestCsv {
        exchange: constants::EXCHANGE.to_owned(),
        market: constants::MARKET.to_owned(),
        datatype: constants::DATATYPE_OPEN_INTEREST.to_owned(),
        timestamp_ms: interest.time,
        symbol: text::to_lowercase(interest.symbol.as_str()),
        price: format_decimal_str(mark_price, decimals.mark_price),
        open_interest: format_decimal_str(interest.open_interest.as_str(), decimals.open_interest),
        oi_value: decimals.value,
    }
}

/// Keeps apart what was written and what is new.
pub struct RestCollector {
    last_bucket: DashMap<String, i64>,
}

impl View for RestCollector {
    type V = Map<Seq<char>, i64>;

    /// The timestamp of the last bucket that was written, for each kind and symbol.
    closed spec fn view(&self) -> Map<Seq<char>, i64> {
        symbol_maps::i64_entries(self.last_bucket)
    }
}

/// The last bucket of a key.
pub open spec fn last_of(written: Map<Seq<char>, i64>, key: Seq<char>) -> Option<i64> {
    if written.contains_key(key) {
        Some(written[key])
    } else {
        None
    }
}

/// What was written after more buckets of a key.
pub open spec fn written_after(
    written: Map<Seq<char>, i64>,
    key: Seq<char>,
    timestamps: Seq<i64>,
) -> Map<Seq<char>, i64> {
    match latest(timestamps, last_of(written, key)) {
        Some(timestamp) => written.insert(key, timestamp),
        None => written,
    }
}

/// The key of the ratios of a symbol.
pub open spec fn ratio_key(ratio_type: RatioType, symbol: Seq<char>) -> Seq<char> {
    "ls:"@ + ratio_name(ratio_type) + ":"@ + symbol
}

impl RestCollector {
    /// Nothing was written yet.
    pub fn new() -> (r: RestCollector)
        ensures
            r@ == (Map::<Seq<char>, i64>::empty()),
    {
        RestCollector { last_bucket: symbol_maps::i64_map() }
    }

    /// Whether a bucket is later than the last one of its key. It is then the last one.
    pub fn is_new_bucket(&mut self, key: &str, ts: i64) -> (r: bool)
        ensures
            r == newer(ts, last_of(old(self)@, key@)),
            final(self)@ == (if r {
                old(self)@.insert(key@, ts)
            } else {
                old(self)@
            }),
    {
        match symbol_maps::i64_get(&self.last_bucket, key) {
            Some(previous) => {
                if previous >= ts {
                    return false;
                }
            },
            None => {},
        }
        symbol_maps::i64_insert(&mut self.last_bucket, key, ts);
        true
    }

    /// The positions of the new ones among buckets of a key. They are then the last ones.
    fn take_new(&mut self, key: &str, timestamps: &Vec<i64>) -> (r: Vec<usize>)
        ensures
            r@.len() == new_buckets(timestamps@, last_of(old(self)@, key@)).len(),
            forall|i: int|
                0 <= i < r@.len() ==> #[trigger] r@[i] == new_buckets(
                    timestamps@,
                    last_of(old(self)@, key@),
                )[i],
            forall|i: int| 0 <= i < r@.len() ==> #[trigger] r@[i] < timestamps@.len(),
            final(self)@ == written_after(old(self)@, key@, timestamps@),
    {
        let ghost before = self@;
        let ghost last = last_of(before, key@);
        let mut picked: Vec<usize> = Vec::new();
        let mut i: usize = 0;
        proof {
            assert(timestamps@.take(0) =~= seq![]);
            if last is Some {
                assert(before.insert(key@, last->0) =~= before);
            }
        }
        while i < timestamps.len()
            invariant
                i <= timestamps.len(),
                before == old(self)@,
                last == last_of(before, key@),
                self@ == written_after(before, key@, timestamps@.take(i as int)),
                picked.len() == new_buckets(timestamps@.take(i as int), last).len(),
                forall|k: int|
                    0 <= k < picked.len() ==> #[trigger] picked@[k] == new_buckets(
                        timestamps@.take(i as int),
                        last,
                    )[k],
                forall|k: int| 0 <= k < picked.len() ==> #[trigger] picked@[k] < i,
            decreases timestamps.len() - i,
        {
            let ghost front = timestamps@.take(i as int);
            let ghost more = timestamps@.take(i + 1);
            assert(more.drop_last() =~= front);
            assert(more.last() == timestamps@[i as int]);
            assert(last_of(self@, key@) == latest(front, last));
            if self.is_new_bucket(key, timestamps[i]) {
                picked.push(i);
                assert(self@ =~= written_after(before, key@, more));
            }
            i = i + 1;
        }
        assert(timestamps@.take(i as int) =~= timestamps@);
        picked
    }

    /// The new ones among klines, which are then the last ones.
    fn new_klines(&mut self, key: &str, klines: &Vec<ClosedKline>) -> (r: Vec<usize>)
        ensures
            r@.len() == new_buckets(kline_times(klines@), last_of(old(self)@, key@)).len(),
            forall|i: int|
                0 <= i < r@.len() ==> #[trigger] r@[i] == new_buckets(
                    kline_times(klines@),
                    last_of(old(self)@, key@),
                )[i],
            forall|i: int| 0 <= i < r@.len() ==> #[trigger] r@[i] < klines@.len(),
            final(self)@ == written_after(old(self)@, key@, kline_times(klines@)),
    {
        let mut timestamps: Vec<i64> = Vec::new();
        let mut i: usize = 0;
        while i < klines.len()
            invariant
                i <= klines.len(),
                timestamps.len() == i,
                forall|k: int| 0 <= k < i ==> #[trigger] timestamps@[k] == klines@[k].timestamp,
            decreases klines.len() - i,
        {
            timestamps.push(klines[i].timestamp);
            i = i + 1;
        }
        assert(timestamps@ =~= kline_times(klines@));
        self.take_new(key, &timestamps)
    }

    /// The records of new mark price klines.
    pub fn mark_price_rows(&mut self, symbol: &str, klines: &Vec<ClosedKline>) -> (r: Vec<
        MarkPriceKlineCsv,
    >)
        ensures
            final(self)@ == written_after(
                old(self)@,
                bucket_key(Buckets::MarkPrice, symbol@),
                kline_times(klines@),
            ),
            ({
                let key = "mark_price_klines:"@ + symbol@;
                let picked = new_buckets(kline_times(klines@), last_of(old(self)@, key));
                &&& final(self)@ == written_after(old(self)@, key, kline_times(klines@))
                &&& r@.len() == picked.len()
                &&& forall|i: int|
                    0 <= i < r@.len() ==> is_kline_record(
                        #[trigger] r@[i],
                        klines@[picked[i]],
                        symbol@,
                        constants::DATATYPE_MARK_PRICE_KLINES@,
                    )
            }),
    {
        let mut key: String = "mark_price_klines:".to_owned();
        key.append(symbol);
        let picked: Vec<usize> = self.new_klines(key.as_str(), klines);
        price_records(symbol, constants::DATATYPE_MARK_PRICE_KLINES, klines, &picked)
    }

    /// The records of new index price klines.
    pub fn index_price_rows(&mut self, symbol: &str, klines: &Vec<ClosedKline>) -> (r: Vec<
        IndexPriceKlineCsv,
    >)
        ensures
            final(self)@ == written_after(
                old(self)@,
                bucket_key(Buckets::IndexPrice, symbol@),
                kline_times(klines@),
            ),
            ({
                let key = "index_price_klines:"@ + symbol@;
                let picked = new_buckets(kline_times(klines@), last_of(old(self)@, key));
                &&& final(self)@ == written_after(old(self)@, key, kline_times(klines@))
                &&& r@.len() == picked.len()
                &&& forall|i: int|
                    0 <= i < r@.len() ==> is_kline_record(
                        #[trigger] r@[i],
                        klines@[picked[i]],
                        symbol@,
                        constants::DATATYPE_INDEX_PRICE_KLINES@,
                    )
            }),
    {
        let mut key: String = "index_price_klines:".to_owned();
        key.append(symbol);
        let picked: Vec<usize> = self.new_klines(key.as_str(), klines);
        price_records(symbol, constants::DATATYPE_INDEX_PRICE_KLINES, klines, &picked)
    }

    /// The records of new premium index klines.
    pub fn premium_index_rows(&mut self, symbol: &str, klines: &Vec<ClosedKline>) -> (r: Vec<
        PremiumIndexKlineCsv,
    >)
        ensures
            final(self)@ == written_after(
                old(self)@,
                bucket_key(Buckets::PremiumIndex, symbol@),
                kline_times(klines@),
            ),
            ({
                let key = "premium_index_klines:"@ + symbol@;
                let picked = new_buckets(kline_times(klines@), last_of(old(self)@, key));
                &&& final(self)@ == written_after(old(self)@, key, kline_times(klines@))
                &&& r@.len() == picked.len()
                &&& forall|i: int|
                    0 <= i < r@.len() ==> is_premium_record(
                        #[trigger] r@[i],
                        klines@[picked[i]],
                        symbol@,
                    )
            }),
    {
        let mut key: String = "premium_index_klines:".to_owned();
        key.append(symbol);
        let picked: Vec<usize> = self.new_klines(key.as_str(), klines);
        let mut rows: Vec<PremiumIndexKlineCsv> = Vec::new();
        let mut i: usize = 0;
        while i < picked.len()
            invariant
                i <= picked.len(),
                rows.len() == i,
                forall|k: int| 0 <= k < picked.len() ==> #[trigger] picked@[k] < klines@.len(),
                forall|k: int|
                    0 <= k < i ==> is_premium_record(
                        #[trigger] rows@[k],
                        klines@[picked@[k] as int],
                        symbol@,
                    ),
            decreases picked.len() - i,
        {
            let kline: &ClosedKline = &klines[picked[i]];
            rows.push(
                PremiumIndexKlineCsv {
                    exchange: constants::EXCHANGE.to_owned(),
                    market: constants::MARKET.to_owned(),
                    datatype: constants::DATATYPE_PREMIUM_INDEX_KLINES.to_owned(),
                    timestamp_ms: kline.timestamp,
                    symbol: symbol.to_owned(),
                    open: kline.open.clone(),
                    high: kline.high.clone(),
                    low: kline.low.clone(),
                    close: kline.close.clone(),
                },
            );
            i = i + 1;
        }
        rows
    }

    /// The records of new ratios of a kind.
    pub fn ratio_rows(
        &mut self,
        symbol: &str,
        ratio_type: RatioType,
        ratios: &Vec<LongShortRatioRest>,
        decimals: &Vec<RatioDecimals>,
    ) -> (r: Vec<LongShortRatioCsv>)
        requires
            decimals@.len() == ratios@.len(),
        ensures
            final(self)@ == written_after(
                old(self)@,
                bucket_key(Buckets::Ratio(ratio_type), symbol@),
                ratio_times(ratios@),
            ),
            ({
                let key = ratio_key(ratio_type, symbol@);
                let picked = new_buckets(ratio_times(ratios@), last_of(old(self)@, key));
                &&& final(self)@ == written_after(old(self)@, key, ratio_times(ratios@))
                &&& r@.len() == picked.len()
                &&& forall|i: int|
                    0 <= i < r@.len() ==> is_ratio_record(
                        #[trigger] r@[i],
                        ratios@[picked[i]],
                        decimals@[picked[i]],
                        symbol@,
                        ratio_type,
                    )
            }),
    {
        let mut key: String = "ls:".to_owned();
        key.append(ratio_type.name());
        key.append(":");
        key.append(symbol);
        let mut timestamps: Vec<i64> = Vec::new();
        let mut n: usize = 0;
        while n < ratios.len()
            invariant
                n <= ratios.len(),
                timestamps.len() == n,
                forall|k: int| 0 <= k < n ==> #[trigger] timestamps@[k] == ratios@[k].timestamp,
            decreases ratios.len() - n,
        {
            timestamps.push(ratios[n].timestamp);
            n = n + 1;
        }
        assert(timestamps@ =~= ratio_times(ratios@));
        let picked: Vec<usize> = self.take_new(key.as_str(), &timestamps);
        let mut rows: Vec<LongShortRatioCsv> = Vec::new();
        let mut i: usize = 0;
        while i < picked.len()
            invariant
                i <= picked.len(),
                rows.len() == i,
                decimals@.len() == ratios@.len(),
                forall|k: int| 0 <= k < picked.len() ==> #[trigger] picked@[k] < ratios@.len(),
                forall|k: int|
                    0 <= k < i ==> is_ratio_record(
                        #[trigger] rows@[k],
                        ratios@[picked@[k] as int],
                        decimals@[picked@[k] as int],
                        symbol@,
                        ratio_type,
                    ),
            decreases picked.len() - i,
        {
            let at: usize = picked[i];
            rows.push(ratio_record(symbol, ratio_type, &ratios[at], &decimals[at]));
            i = i + 1;
        }
        rows
    }

    /// The records of new taker volumes.
    pub fn taker_rows(
        &mut self,
        symbol: &str,
        volumes: &Vec<TakerBuySellVolumeRest>,
        decimals: &Vec<VolumeDecimals>,
    ) -> (r: Vec<TakerBuySellVolumeCsv>)
        requires
            decimals@.len() == volumes@.len(),
        ensures
            final(self)@ == written_after(
                old(self)@,
                bucket_key(Buckets::Taker, symbol@),
                volume_times(volumes@),
            ),
            ({
                let key = "taker:"@ + symbol@;
                let picked = new_buckets(volume_times(volumes@), last_of(old(self)@, key));
                &&& final(self)@ == written_after(old(self)@, key, volume_times(volumes@))
                &&& r@.len() == picked.len()
                &&& forall|i: int|
                    0 <= i < r@.len() ==> is_volume_record(
                        #[trigger] r@[i],
                        volumes@[picked[i]],
                        decimals@[picked[i]],
                        symbol@,
                    )
            }),
    {
        let mut key: String = "taker:".to_owned();
        key.append(symbol);
        let mut timestamps: Vec<i64> = Vec::new();
        let mut n: usize = 0;
        while n < volumes.len()
            invariant
                n <= volumes.len(),
                timestamps.len() == n,
                forall|k: int| 0 <= k < n ==> #[trigger] timestamps@[k] == volumes@[k].timestamp,
            decreases volumes.len() - n,
        {
            timestamps.push(volumes[n].timestamp);
            n = n + 1;
        }
        assert(timestamps@ =~= volume_times(volumes@));
        let picked: Vec<usize> = self.take_new(key.as_str(), &timestamps);
        let mut rows: Vec<TakerBuySellVolumeCsv> = Vec::new();
        let mut i: usize = 0;
        while i < picked.len()
            invariant
                i <= picked.len(),
                rows.len() == i,
                decimals@.len() == volumes@.len(),
                forall|k: int| 0 <= k < picked.len() ==> #[trigger] picked@[k] < volumes@.len(),
                forall|k: int|
                    0 <= k < i ==> is_volume_record(
                        #[trigger] rows@[k],
                        volumes@[picked@[k] as int],
                        decimals@[picked@[k] as int],
                        symbol@,
                    ),
            decreases picked.len() - i,
        {
            let volume: &TakerBuySellVolumeRest = &volumes[picked[i]];
            let fixed: &VolumeDecimals = &decimals[picked[i]];
            rows.push(
                TakerBuySellVolumeCsv {
                    exchange: constants::EXCHANGE.to_owned(),
                    market: constants::MARKET.to_owned(),
                    datatype: constants::DATATYPE_TAKER_BUY_SELL_RATIO.to_owned(),
                    timestamp_ms: volume.timestamp,
                    symbol: symbol.to_owned(),
                    period: DATA_PERIOD.to_owned(),
                    buy_volume: fixed_text(volume.buy_vol.as_str(), &fixed.buy_vol),
                    sell_volume: fixed_text(volume.sell_vol.as_str(), &fixed.sell_vol),
                    buy_sell_ratio: fixed_text(
                        volume.buy_sell_ratio.as_str(),
                        &fixed.buy_sell_ratio,
                    ),
                },
            );
            i = i + 1;
        }
        rows
    }
}

/// The record of a ratio.
fn ratio_record(
    symbol: &str,
    ratio_type: RatioType,
    ratio: &LongShortRatioRest,
    decimals: &RatioDecimals,
) -> (r: LongShortRatioCsv)
    ensures
        is_ratio_record(r, *ratio, *decimals, symbol@, ratio_type),
{
    let mut long: String = decimals.computed_long.clone();
    let mut short: String = decimals.computed_short.clone();
    match &ratio.long_account {
        Some(long_account) => match &ratio.short_account {
            Some(short_account) => {
                long = fixed_text(long_account.as_str(), &decimals.long_account);
                short = fixed_text(short_account.as_str(), &decimals.short_account);
            },
            None => {},
        },
        None => {},
    }
    LongShortRatioCsv {
        exchange: constants::EXCHANGE.to_owned(),
        market: constants::MARKET.to_owned(),
        datatype: constants::DATATYPE_LONG_SHORT_RATIO.to_owned(),
        timestamp_ms: ratio.timestamp,
        symbol: symbol.to_owned(),
        period: DATA_PERIOD.to_owned(),
        ratio_type: ratio_type.name().to_owned(),
        long_ratio: long,
        short_ratio: short,
        long_short_ratio: fixed_text(ratio.long_short_ratio.as_str(), &decimals.long_short_ratio),
    }
}

/// The records of picked mark or index price klines.
fn price_records(
    symbol: &str,
    datatype: &str,
    klines: &Vec<ClosedKline>,
    picked: &Vec<usize>,
) -> (r: Vec<MarkPriceKlineCsv>)
    requires
        forall|i: int| 0 <= i < picked@.len() ==> #[trigger] picked@[i] < klines@.len(),
    ensures
        r@.len() == picked@.len(),
        forall|i: int|
            0 <= i < r@.len() ==> is_kline_record(
                #[trigger] r@[i],
                klines@[picked@[i] as int],
                symbol@,
                datatype@,
            ),
{
    let mut rows: Vec<MarkPriceKlineCsv> = Vec::new();
    let mut i: usize = 0;
    while i < picked.len()
        invariant
            i <= picked.len(),
            rows.len() == i,
            forall|k: int| 0 <= k < picked.len() ==> #[trigger] picked@[k] < klines@.len(),
            forall|k: int|
                0 <= k < i ==> is_kline_record(
                    #[trigger] rows@[k],
                    klines@[picked@[k] as int],
                    symbol@,
                    datatype@,
                ),
        decreases picked.len() - i,
    {
        let kline: &ClosedKline = &klines[picked[i]];
        rows.push(
            MarkPriceKlineCsv {
                exchange: constants::EXCHANGE.to_owned(),
                market: constants::MARKET.to_owned(),
                datatype: datatype.to_owned(),
                timestamp_ms: kline.timestamp,
                symbol: symbol.to_owned(),
                open: kline.open.clone(),
                high: kline.high.clone(),
                low: kline.low.clone(),
                close: kline.close.clone(),
            },
        );
        i = i + 1;
    }
    rows
}

/// A bucket is new exactly where it is later than what was written before and than every
/// bucket ahead of it in the answer.
pub proof fn new_buckets_are_the_later_ones(timestamps: Seq<i64>, last: Option<i64>, i: int)
    requires
        0 <= i < timestamps.len(),
    ensures
        new_buckets(timestamps, last).contains(i) <==> (last matches Some(previous)
            ==> timestamps[i] > previous) && forall|j: int|
            0 <= j < i ==> (#[trigger] timestamps[j]) < timestamps[i],
    decreases timestamps.len(),
{
    let front = timestamps.drop_last();
    let rest = new_buckets(front, last);
    let all = new_buckets(timestamps, last);
    lemma_new_buckets(front, last);
    if i < front.len() {
        new_buckets_are_the_later_ones(front, last, i);
        assert(front[i] == timestamps[i]);
        if rest.contains(i) {
            let k = choose|k: int| 0 <= k < rest.len() && rest[k] == i;
            assert(all[k] == i);
        }
        if all.contains(i) {
            let k = choose|k: int| 0 <= k < all.len() && all[k] == i;
            assert(k < rest.len());
            assert(rest[k] == i);
        }
        assert((forall|j: int| 0 <= j < i ==> (#[trigger] front[j]) < front[i]) <==> (forall|j: int|
            0 <= j < i ==> (#[trigger] timestamps[j]) < timestamps[i])) by {
            if forall|j: int| 0 <= j < i ==> (#[trigger] front[j]) < front[i] {
                assert forall|j: int| 0 <= j < i implies (#[trigger] timestamps[j])
                    < timestamps[i] by {
                    assert(front[j] == timestamps[j]);
                }
            }
            if forall|j: int| 0 <= j < i ==> (#[trigger] timestamps[j]) < timestamps[i] {
                assert forall|j: int| 0 <= j < i implies (#[trigger] front[j]) < front[i] by {
                    assert(front[j] == timestamps[j]);
                }
            }
        }
    } else {
        latest_is_the_latest(front, last);
        if all.contains(i) {
            let k = choose|k: int| 0 <= k < all.len() && all[k] == i;
            if k < rest.len() {
                assert(rest[k] == i);
            }
            assert(newer(timestamps[i], latest(front, last)));
            assert forall|j: int| 0 <= j < i implies (#[trigger] timestamps[j]) < timestamps[i] by {
                assert(front[j] == timestamps[j]);
            }
        }
        if (last matches Some(previous) ==> timestamps[i] > previous) && forall|j: int|
            0 <= j < i ==> (#[trigger] timestamps[j]) < timestamps[i] {
            match latest(front, last) {
                Some(before) => {
                    if last != Some(before) {
                        let j = choose|j: int| 0 <= j < front.len() && front[j] == before;
                        assert(timestamps[j] == front[j]);
                    }
                },
                None => {},
            }
            assert(all[all.len() - 1] == i);
        }
    }
}

/// What counts as written after an answer is the latest of its buckets and of what was
/// written before.
pub proof fn latest_is_the_latest(timestamps: Seq<i64>, last: Option<i64>)
    ensures
        latest(timestamps, last) is None <==> last is None && timestamps.len() == 0,
        latest(timestamps, last) matches Some(latest) ==> {
            &&& last matches Some(previous) ==> latest >= previous
            &&& forall|j: int| 0 <= j < timestamps.len() ==> (#[trigger] timestamps[j]) <= latest
            &&& last == Some(latest) || timestamps.contains(latest)
        },
    decreases timestamps.len(),
{
    if timestamps.len() > 0 {
        let front = timestamps.drop_last();
        latest_is_the_latest(front, last);
        let end = timestamps[timestamps.len() - 1];
        assert forall|j: int| 0 <= j < timestamps.len() implies (#[trigger] timestamps[j])
            <= latest(timestamps, last)->0 by {
            if j < front.len() {
                assert(front[j] == timestamps[j]);
            }
        }
        if newer(end, latest(front, last)) {
            assert(timestamps.contains(end));
        } else if last != latest(front, last) {
            let j = choose|j: int| 0 <= j < front.len() && front[j] == latest(front, last)->0;
            assert(timestamps[j] == front[j]);
        }
    }
}

/// Writing buckets of one kind and symbol leaves what is known of others as it is, and sets
/// its own to the latest bucket.
pub proof fn kinds_are_kept_apart(
    written: Map<Seq<char>, i64>,
    key: Seq<char>,
    other: Seq<char>,
    timestamps: Seq<i64>,
)
    requires
        key != other,
        timestamps.len() > 0,
    ensures
        last_of(written_after(written, key, timestamps), other) == last_of(written, other),
        last_of(written_after(written, key, timestamps), key) matches Some(latest) && (forall|j: int|
            0 <= j < timestamps.len() ==> (#[trigger] timestamps[j]) <= latest) && (written.contains_key(
            key,
        ) ==> written[key] <= latest),
{
    latest_is_the_latest(timestamps, last_of(written, key));
}

/// The buckets of the kinds of ratios of a symbol are told apart.
pub proof fn ratios_are_kept_apart(a: RatioType, b: RatioType, symbol: Seq<char>)
    requires
        a != b,
    ensures
        ratio_key(a, symbol) != ratio_key(b, symbol),
        ratio_name(a) != ratio_name(b),
{
    reveal_strlit("global");
    reveal_strlit("top_trader_account");
    reveal_strlit("top_trader_position");
    assert(ratio_name(a).len() != ratio_name(b).len());
    assert(ratio_key(a, symbol).len() != ratio_key(b, symbol).len());
}

/// A field as a number of twelve places, as it came, or, where it is no text, as zero.
pub open spec fn tells_field(column: Seq<char>, field: KlineField) -> bool {
    match field {
        KlineField::Text(raw, fixed) => models::tells_number(column, raw@, fixed),
        _ => column == "0.000000000000"@,
    }
}

/// A kline is read by position: time, open, high, low, close.
pub proof fn klines_are_read_by_position(raw: RawKline, kline: ClosedKline)
    requires
        reads_as(raw, kline),
        raw.fields@.len() >= 5,
    ensures
        raw.fields@[0] matches KlineField::Number(time) ==> kline.timestamp == time,
        raw.fields@[0] !is Number ==> kline.timestamp == 0,
        tells_field(kline.open@, raw.fields@[1]),
        tells_field(kline.high@, raw.fields@[2]),
        tells_field(kline.low@, raw.fields@[3]),
        tells_field(kline.close@, raw.fields@[4]),
{
}

/// Of an answer exactly the klines that are complete and not the last one are taken, in
/// their order.
pub proof fn klines_but_the_last_are_taken(rows: Seq<RawKline>, i: int)
    requires
        0 <= i < rows.len(),
    ensures
        complete(rows, closed_count(rows)).contains(i) <==> i < rows.len() - 1
            && rows[i].fields@.len() >= 5,
        forall|a: int, b: int|
            0 <= a < b < complete(rows, closed_count(rows)).len() ==> #[trigger] complete(
                rows,
                closed_count(rows),
            )[a] < #[trigger] complete(rows, closed_count(rows))[b],
{
    lemma_complete(rows, closed_count(rows), i);
}

proof fn lemma_complete(rows: Seq<RawKline>, n: int, i: int)
    requires
        0 <= n <= rows.len(),
    ensures
        complete(rows, n).contains(i) <==> 0 <= i < n && rows[i].fields@.len() >= 5,
        forall|a: int| 0 <= a < complete(rows, n).len() ==> 0 <= #[trigger] complete(rows, n)[a] < n,
        forall|a: int, b: int|
            0 <= a < b < complete(rows, n).len() ==> #[trigger] complete(rows, n)[a]
                < #[trigger] complete(rows, n)[b],
    decreases n,
{
    if n > 0 {
        lemma_complete(rows, n - 1, i);
        let rest = complete(rows, n - 1);
        let all = complete(rows, n);
        assert forall|a: int| 0 <= a < all.len() implies 0 <= #[trigger] all[a] < n by {
            if a < rest.len() {
                assert(all[a] == rest[a]);
            }
        }
        assert forall|a: int, b: int| 0 <= a < b < all.len() implies #[trigger] all[a]
            < #[trigger] all[b] by {
            assert(all[a] == rest[a]);
            if b < rest.len() {
                assert(all[b] == rest[b]);
            }
        }
        if rest.contains(i) {
            let k = choose|k: int| 0 <= k < rest.len() && rest[k] == i;
            assert(all[k] == i);
        }
        if all.contains(i) {
            let k = choose|k: int| 0 <= k < all.len() && all[k] == i;
            if k < rest.len() {
                assert(rest[k] == i);
            }
        }
        if i == n - 1 && rows[i].fields@.len() >= 5 {
            assert(all[all.len() - 1] == i);
        }
    }
}

/// Exactly the rates of collected symbols that are not delisted are recorded, in their
/// order.
pub proof fn rates_of_collected_symbols_are_recorded(
    rates: Seq<FundingRateRest>,
    symbols: Seq<Seq<char>>,
    delisted: Set<Seq<char>>,
    n: int,
    i: int,
)
    requires
        0 <= n <= rates.len(),
    ensures
        wanted_rates(rates, symbols, delisted, n).contains(i) <==> {
            &&& 0 <= i < n
            &&& symbols.contains(text::lowercase(rates[i].symbol@))
            &&& !delisted.contains(text::lowercase(rates[i].symbol@))
        },
        forall|a: int|
            0 <= a < wanted_rates(rates, symbols, delisted, n).len() ==> 0
                <= #[trigger] wanted_rates(rates, symbols, delisted, n)[a] < n,
        forall|a: int, b: int|
            0 <= a < b < wanted_rates(rates, symbols, delisted, n).len()
                ==> #[trigger] wanted_rates(rates, symbols, delisted, n)[a]
                < #[trigger] wanted_rates(rates, symbols, delisted, n)[b],
    decreases n,
{
    if n > 0 {
        rates_of_collected_symbols_are_recorded(rates, symbols, delisted, n - 1, i);
        let rest = wanted_rates(rates, symbols, delisted, n - 1);
        let all = wanted_rates(rates, symbols, delisted, n);
        assert forall|a: int| 0 <= a < all.len() implies 0 <= #[trigger] all[a] < n by {
            if a < rest.len() {
                assert(all[a] == rest[a]);
            }
        }
        assert forall|a: int, b: int| 0 <= a < b < all.len() implies #[trigger] all[a]
            < #[trigger] all[b] by {
            assert(all[a] == rest[a]);
            if b < rest.len() {
                assert(all[b] == rest[b]);
            }
        }
        if rest.contains(i) {
            let k = choose|k: int| 0 <= k < rest.len() && rest[k] == i;
            assert(all[k] == i);
        }
        if all.contains(i) {
            let k = choose|k: int| 0 <= k < all.len() && all[k] == i;
            if k < rest.len() {
                assert(rest[k] == i);
            }
        }
        if i == n - 1 && symbols.contains(text::lowercase(rates[i].symbol@)) && !delisted.contains(
            text::lowercase(rates[i].symbol@),
        ) {
            assert(all[all.len() - 1] == i);
        }
    }
}

/// A funding record tells the rate of its symbol, when the next funding comes, and the time
/// of the look.
pub proof fn funding_records_tell_the_rate(
    record: FundingRateCsv,
    rate: FundingRateRest,
    fixed: Option<String>,
    timestamp: i64,
)
    requires
        is_funding_record(record, rate, fixed, timestamp),
    ensures
        models::tells_number(record.funding_rate@, rate.last_funding_rate@, fixed),
        record.next_funding_time == rate.next_funding_time,
        record.timestamp_ms == timestamp,
        record.symbol@ == text::lowercase(rate.symbol@),
        record.datatype@ == "funding_rates"@,
        record.exchange@ == "binance"@,
        record.market@ == "futures"@,
{
}

/// A ratio record tells the shares where the answer has both, and the computed ones
/// otherwise, the long one as long and the short one as short.
pub proof fn ratio_records_tell_the_shares(
    record: LongShortRatioCsv,
    ratio: LongShortRatioRest,
    decimals: RatioDecimals,
    symbol: Seq<char>,
    ratio_type: RatioType,
)
    requires
        is_ratio_record(record, ratio, decimals, symbol, ratio_type),
    ensures
        match (ratio.long_account, ratio.short_account) {
            (Some(long), Some(short)) => {
                &&& models::tells_number(record.long_ratio@, long@, decimals.long_account)
                &&& models::tells_number(record.short_ratio@, short@, decimals.short_account)
            },
            _ => {
                &&& record.long_ratio@ == decimals.computed_long@
                &&& record.short_ratio@ == decimals.computed_short@
            },
        },
        models::tells_number(
            record.long_short_ratio@,
            ratio.long_short_ratio@,
            decimals.long_short_ratio,
        ),
        record.timestamp_ms == ratio.timestamp,
        record.symbol@ == symbol,
        record.period@ == "5m"@,
        record.ratio_type@ == (match ratio_type {
            RatioType::Global => "global"@,
            RatioType::TopTraderAccount => "top_trader_account"@,
            RatioType::TopTraderPosition => "top_trader_position"@,
        }),
        record.datatype@ == "long_short_ratio"@,
        record.exchange@ == "binance"@,
        record.market@ == "futures"@,
{
}

/// A record of taker volumes tells what takers bought as bought and what they sold as sold.
pub proof fn volume_records_tell_both_sides(
    record: TakerBuySellVolumeCsv,
    volume: TakerBuySellVolumeRest,
    decimals: VolumeDecimals,
    symbol: Seq<char>,
)
    requires
        is_volume_record(record, volume, decimals, symbol),
    ensures
        models::tells_number(record.buy_volume@, volume.buy_vol@, decimals.buy_vol),
        models::tells_number(record.sell_volume@, volume.sell_vol@, decimals.sell_vol),
        models::tells_number(
            record.buy_sell_ratio@,
            volume.buy_sell_ratio@,
            decimals.buy_sell_ratio,
        ),
        record.timestamp_ms == volume.timestamp,
        record.symbol@ == symbol,
        record.period@ == "5m"@,
        record.datatype@ == "taker_buy_sell_ratio"@,
        record.exchange@ == "binance"@,
        record.market@ == "futures"@,
{
}

/// Records of mark, index and premium klines keep the order of the prices of the kline, by
/// whatever order texts of numbers are compared, and stand at its time.
pub proof fn polled_klines_keep_their_order(
    record: MarkPriceKlineCsv,
    premium: PremiumIndexKlineCsv,
    kline: ClosedKline,
    symbol: Seq<char>,
    datatype: Seq<char>,
    at_most: spec_fn(Seq<char>, Seq<char>) -> bool,
)
    requires
        is_kline_record(record, kline, symbol, datatype),
        is_premium_record(premium, kline, symbol),
        at_most(kline.low@, kline.open@),
        at_most(kline.low@, kline.close@),
        at_most(kline.open@, kline.high@),
        at_most(kline.close@, kline.high@),
    ensures
        at_most(record.low@, record.open@),
        at_most(record.low@, record.close@),
        at_most(record.open@, record.high@),
        at_most(record.close@, record.high@),
        at_most(premium.low@, premium.open@),
        at_most(premium.low@, premium.close@),
        at_most(premium.open@, premium.high@),
        at_most(premium.close@, premium.high@),
        record.open@ == kline.open@ && premium.open@ == kline.open@,
        record.timestamp_ms == kline.timestamp && premium.timestamp_ms == kline.timestamp,
        record.symbol@ == symbol && premium.symbol@ == symbol,
        record.datatype@ == datatype && premium.datatype@ == "premium_index_klines"@,
        record.exchange@ == "binance"@ && premium.exchange@ == "binance"@,
        record.market@ == "futures"@ && premium.market@ == "futures"@,
{
}

/// The symbols to poll are found one by one, in their order.
pub proof fn polled_symbols_keep_their_order(
    first: Seq<Seq<char>>,
    rest: Seq<Seq<char>>,
    delisted: Set<Seq<char>>,
)
    ensures
        listed(first + rest, delisted) == listed(first, delisted) + listed(rest, delisted),
        rest.len() == 1 ==> listed(rest, delisted) == (if delisted.contains(rest[0]) {
            seq![]
        } else {
            rest
        }),
    decreases rest.len(),
{
    if rest.len() == 0 {
        assert(first + rest =~= first);
        assert(listed(first, delisted) + listed(rest, delisted) =~= listed(first, delisted));
    } else {
        polled_symbols_keep_their_order(first, rest.drop_last(), delisted);
        assert((first + rest).drop_last() =~= first + rest.drop_last());
        assert(listed(first + rest, delisted) =~= listed(first, delisted) + listed(rest, delisted));
        if rest.len() == 1 {
            assert(rest.drop_last() =~= seq![]);
            assert(listed(rest, delisted) =~= (if delisted.contains(rest[0]) {
                seq![]
            } else {
                rest
            }));
        }
    }
}

/// `record` is the record of an open interest.
pub open spec fn is_interest_record(
    record: OpenInterestCsv,
    interest: OpenInterestRest,
    mark_price: Seq<char>,
    decimals: InterestDecimals,
) -> bool {
    &&& record.exchange@ == constants::EXCHANGE@
    &&& record.market@ == constants::MARKET@
    &&& record.datatype@ == constants::DATATYPE_OPEN_INTEREST@
    &&& record.timestamp_ms == interest.time
    &&& record.symbol@ == text::lowercase(interest.symbol@)
    &&& record.price@ == models::fixed_or_raw(mark_price, decimals.mark_price)
    &&& record.open_interest@ == models::fixed_or_raw(
        interest.open_interest@,
        decimals.open_interest,
    )
    &&& record.oi_value@ == decimals.value@
}

/// A record of an open interest tells the price, the interest and their product, each in
/// its own column.
pub proof fn interest_records_tell_price_and_interest(
    record: OpenInterestCsv,
    interest: OpenInterestRest,
    mark_price: Seq<char>,
    decimals: InterestDecimals,
)
    requires
        is_interest_record(record, interest, mark_price, decimals),
    ensures
        models::tells_number(record.price@, mark_price, decimals.mark_price),
        models::tells_number(
            record.open_interest@,
            interest.open_interest@,
            decimals.open_interest,
        ),
        record.oi_value@ == decimals.value@,
        record.timestamp_ms == interest.time,
        record.symbol@ == text::lowercase(interest.symbol@),
        record.datatype@ == "open_interest"@,
        record.exchange@ == "binance"@,
        record.market@ == "futures"@,
{
}

/// The polls start in turn, ten seconds after one another, the funding rates at once.
pub proof fn polls_start_in_turn(poll: Poll)
    ensures
        Poll::FundingRates.delay() == 0,
        Poll::MarkPriceKlines.delay() == Poll::FundingRates.delay() + 10,
        Poll::IndexPriceKlines.delay() == Poll::MarkPriceKlines.delay() + 10,
        Poll::PremiumIndexKlines.delay() == Poll::IndexPriceKlines.delay() + 10,
        Poll::OpenInterest.delay() == Poll::PremiumIndexKlines.delay() + 10,
        Poll::TakerBuySellRatio.delay() == Poll::OpenInterest.delay() + 10,
        Poll::LongShortRatio.delay() == Poll::TakerBuySellRatio.delay() + 10,
        poll.delay() <= 60,
{
}

/// Chunks are full but for the last.
pub proof fn chunks_are_full<T>(list: Seq<T>, size: nat, index: int)
    requires
        size > 0,
        0 <= index,
        (index + 1) * size <= list.len(),
    ensures
        chunk(list, size, index).len() == size,
{
    assert((index + 1) * size == index * size + size) by (nonlinear_arith);
    assert(index * size >= 0) by (nonlinear_arith)
        requires
            index >= 0,
            size > 0,
    ;
}

impl Poll {
    /// Seconds from one poll to the next.
    pub open spec fn every(self, intervals: RestIntervalsConfig) -> u64 {
        match self {
            Poll::FundingRates => intervals.funding_rates_seconds,
            Poll::MarkPriceKlines => intervals.mark_price_klines_seconds,
            Poll::IndexPriceKlines => intervals.index_price_klines_seconds,
            Poll::PremiumIndexKlines => intervals.premium_index_klines_seconds,
            Poll::OpenInterest => intervals.open_interest_seconds,
            Poll::TakerBuySellRatio => intervals.taker_buy_sell_ratio_seconds,
            Poll::LongShortRatio => intervals.long_short_ratio_seconds,
        }
    }

    /// Symbols that are polled at a time.
    pub open spec fn at_a_time(self) -> usize {
        if self == Poll::OpenInterest {
            5
        } else {
            10
        }
    }

    /// Seconds between two batches of symbols.
    pub open spec fn pause(self) -> u64 {
        if self == Poll::OpenInterest {
            3
        } else {
            2
        }
    }
}

/// Each poll has its own interval. Open interest, which takes two requests for a symbol, is
/// polled with half as many symbols at a time as the others, and a longer pause.
pub proof fn polls_have_their_own_pace(poll: Poll, intervals: RestIntervalsConfig)
    ensures
        Poll::FundingRates.every(intervals) == intervals.funding_rates_seconds,
        Poll::MarkPriceKlines.every(intervals) == intervals.mark_price_klines_seconds,
        Poll::IndexPriceKlines.every(intervals) == intervals.index_price_klines_seconds,
        Poll::PremiumIndexKlines.every(intervals) == intervals.premium_index_klines_seconds,
        Poll::OpenInterest.every(intervals) == intervals.open_interest_seconds,
        Poll::TakerBuySellRatio.every(intervals) == intervals.taker_buy_sell_ratio_seconds,
        Poll::LongShortRatio.every(intervals) == intervals.long_short_ratio_seconds,
        poll != Poll::OpenInterest ==> poll.at_a_time() == 10 && poll.pause() == 2,
        2 * Poll::OpenInterest.at_a_time() == 10 && Poll::OpenInterest.pause() == 3,
{
}

/// The kinds of buckets that are told apart.
pub enum Buckets {
    MarkPrice,
    IndexPrice,
    PremiumIndex,
    Taker,
    Ratio(RatioType),
}

/// The key under which the last bucket of a kind and symbol is known.
pub open spec fn bucket_key(buckets: Buckets, symbol: Seq<char>) -> Seq<char> {
    match buckets {
        Buckets::MarkPrice => "mark_price_klines:"@ + symbol,
        Buckets::IndexPrice => "index_price_klines:"@ + symbol,
        Buckets::PremiumIndex => "premium_index_klines:"@ + symbol,
        Buckets::Taker => "taker:"@ + symbol,
        Buckets::Ratio(ratio_type) => ratio_key(ratio_type, symbol),
    }
}

/// Buckets of two kinds never share a key for one symbol, nor two symbols one for a kind.
/// So what was written of one never hides what is new of another.
pub proof fn buckets_are_kept_apart(a: Buckets, b: Buckets, one: Seq<char>, two: Seq<char>)
    requires
        bucket_key(a, one) == bucket_key(b, two),
    ensures
        a == b ==> one == two,
        one == two ==> a == b,
        !(a is Ratio && b is Ratio) ==> a == b,
{
    reveal_strlit("mark_price_klines:");
    reveal_strlit("index_price_klines:");
    reveal_strlit("premium_index_klines:");
    reveal_strlit("taker:");
    reveal_strlit("ls:");
    assert(forall|s: Seq<char>| (#[trigger] ("mark_price_klines:"@ + s))[0] == 'm');
    assert(forall|s: Seq<char>| (#[trigger] ("index_price_klines:"@ + s))[0] == 'i');
    assert(forall|s: Seq<char>| (#[trigger] ("premium_index_klines:"@ + s))[0] == 'p');
    assert(forall|s: Seq<char>| (#[trigger] ("taker:"@ + s))[0] == 't');
    assert(a matches Buckets::Ratio(of) ==> bucket_key(a, one)[0] == 'l');
    assert(b matches Buckets::Ratio(of) ==> bucket_key(b, two)[0] == 'l');
    let key = bucket_key(a, one);
    if a == b {
        let n = key.len() - one.len();
        assert(one =~= key.skip(n));
        assert(two =~= bucket_key(b, two).skip(bucket_key(b, two).len() - two.len()));
        match a {
            Buckets::MarkPrice => {
                assert(key.len() == 18 + one.len() && key.len() == 18 + two.len());
            },
            Buckets::IndexPrice => {
                assert(key.len() == 19 + one.len() && key.len() == 19 + two.len());
            },
            Buckets::PremiumIndex => {
                assert(key.len() == 21 + one.len() && key.len() == 21 + two.len());
            },
            Buckets::Taker => {
                assert(key.len() == 6 + one.len() && key.len() == 6 + two.len());
            },
            Buckets::Ratio(of) => {
                let head = "ls:"@ + ratio_name(of) + ":"@;
                assert(key.len() == head.len() + one.len() && key.len() == head.len() + two.len());
            },
        }
    } else if one == two {
        if a is Ratio && b is Ratio {
            ratios_are_kept_apart(a->0, b->0, one);
        }
    }
}

} // verus!
