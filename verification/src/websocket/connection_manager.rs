//! Stream connections: what each one subscribes to, when it is closed or opened again,
//! and the ring buffers that hold depth updates until an order book takes them.

use crate::collectors::book;
use crate::config::{ExchangeConfig, OrderbookConfig, WebSocketConfig};
use crate::models::{AggTradeWs, DepthUpdateWs, KlineWs, LiquidationWs};
use crate::symbol_maps;
use crate::text;
use dashmap::DashMap;
use rustc_hash::FxHashMap;
use std::collections::VecDeque;
use vstd::arithmetic::power2::pow2;
use vstd::prelude::*;

verus! {

/// Wait before a connection that ended cleanly is opened again, in milliseconds.
pub const CLEAN_RECONNECT_MS: u64 = 500;

/// A connection that stood this long, a minute in nanoseconds, is a healthy one: its
/// next failure starts counting anew.
pub const STABLE_CONNECTION: u64 = 60_000_000_000;

/// A connection without a message for longer than this, in nanoseconds, has failed.
pub const IDLE_TIMEOUT: u64 = 30_000_000_000;

/// The exponent of the reconnect wait stays at most this large.
pub const MAX_BACKOFF_EXPONENT: u32 = 16;

/// What a connection hands on.
pub enum WebSocketMessage {
    /// An update, and when it was received.
    DepthUpdate(DepthUpdateWs, u64),
    Trade(AggTradeWs, u64),
    Kline(KlineWs, u64),
    Liquidation(LiquidationWs, u64),
    /// The connection, and what went wrong.
    Error(usize, String),
    Connected(usize),
    Disconnected(usize),
}

/// The two stream endpoints: depth updates come from the public one; trades, klines and
/// liquidations from the market one.
#[derive(Clone, Copy, Debug, PartialEq, Eq, Structural)]
pub enum Route {
    Public,
    Market,
}

/// The path of a route.
pub open spec fn route_path(route: Route) -> Seq<char> {
    match route {
        Route::Public => "public"@,
        Route::Market => "market"@,
    }
}

/// The offset of a route among the connections of a batch.
pub open spec fn route_index(route: Route) -> nat {
    match route {
        Route::Public => 0,
        Route::Market => 1,
    }
}

impl Route {
    /// The path of the route.
    pub fn path(&self) -> (r: &'static str)
        ensures
            r@ == route_path(*self),
    {
        match self {
            Route::Public => "public",
            Route::Market => "market",
        }
    }

    /// The offset of the route among the connections of a batch.
    pub fn idx(&self) -> (r: usize)
        ensures
            r == route_index(*self),
    {
        match self {
            Route::Public => 0,
            Route::Market => 1,
        }
    }
}

/// The number of a connection.
pub open spec fn connection_number(batch_id: nat, route: Route) -> nat {
    batch_id * 2 + route_index(route)
}

/// The number of the connection of a batch on a route.
pub fn conn_id(batch_id: usize, route: Route) -> (r: usize)
    requires
        batch_id * 2 + 1 <= usize::MAX,
    ensures
        r == connection_number(batch_id as nat, route),
{
    batch_id * 2 + route.idx()
}

/// Different batches or routes have different connection numbers.
pub proof fn connection_numbers_are_unique(a: nat, on_a: Route, b: nat, on_b: Route)
    ensures
        connection_number(a, on_a) == connection_number(b, on_b) ==> a == b && on_a == on_b,
{
}

/// The smaller of an attempt number and the largest exponent.
pub open spec fn backoff_exponent(attempt: u32) -> nat {
    if attempt < MAX_BACKOFF_EXPONENT {
        attempt as nat
    } else {
        MAX_BACKOFF_EXPONENT as nat
    }
}

/// The wait before an attempt: `initial` doubled once per attempt, at most `max`.
pub open spec fn backoff(attempt: u32, initial: nat, max: nat) -> nat {
    let grown = initial * pow2(backoff_exponent(attempt));
    if grown < max {
        grown
    } else {
        max
    }
}

/// The wait before an attempt: `initial` doubled once per attempt, at most `max`. The
/// number of doublings is bounded.
pub fn backoff_for(attempt: u32, initial: u64, max: u64) -> (r: u64)
    ensures
        r == backoff(attempt, initial as nat, max as nat),
{
    let exponent: u32 = if attempt < MAX_BACKOFF_EXPONENT {
        attempt
    } else {
        MAX_BACKOFF_EXPONENT
    };
    let mut grown: u128 = initial as u128;
    let mut i: u32 = 0;
    proof {
        vstd::arithmetic::power2::lemma2_to64();
    }
    while i < exponent
        invariant
            i <= exponent <= MAX_BACKOFF_EXPONENT,
            grown == initial * pow2(i as nat),
            grown <= initial * 65536,
        decreases exponent - i,
    {
        proof {
            lemma_doubling(initial as nat, i as nat);
        }
        grown = grown * 2;
        i = i + 1;
    }
    if grown < max as u128 {
        grown as u64
    } else {
        max
    }
}

/// One more doubling, while the exponent is small.
proof fn lemma_doubling(initial: nat, i: nat)
    requires
        i < MAX_BACKOFF_EXPONENT,
    ensures
        initial * pow2(i + 1) == initial * pow2(i) * 2,
        initial * pow2(i + 1) <= initial * 65536,
        pow2(i) > 0,
{
    vstd::arithmetic::power2::lemma_pow2_unfold(i + 1);
    vstd::arithmetic::power2::lemma_pow2_pos(i);
    vstd::arithmetic::power2::lemma2_to64();
    assert(pow2(16) == 65536);
    if i + 1 < 16 {
        vstd::arithmetic::power2::lemma_pow2_strictly_increases(i + 1, 16);
    }
    let p = pow2(i);
    let q = pow2(i + 1);
    assert(initial * q == initial * p * 2) by (nonlinear_arith)
        requires
            q == 2 * p,
    ;
    assert(initial * q <= initial * 65536) by (nonlinear_arith)
        requires
            q <= 65536,
    ;
}

/// Waits grow with the attempts and never exceed the maximum.
pub proof fn backoff_grows_up_to_the_maximum(a: u32, b: u32, initial: nat, max: nat)
    requires
        a <= b,
    ensures
        backoff(a, initial, max) <= backoff(b, initial, max) <= max,
{
    let i = backoff_exponent(a);
    let j = backoff_exponent(b);
    if i < j {
        vstd::arithmetic::power2::lemma_pow2_strictly_increases(i, j);
    }
    let p = pow2(i);
    let q = pow2(j);
    assert(initial * p <= initial * q) by (nonlinear_arith)
        requires
            p <= q,
    ;
}

/// The depth stream of a symbol.
pub open spec fn depth_stream(symbol: Seq<char>, update_speed_ms: u32) -> Seq<char> {
    text::lowercase(symbol) + "@depth@"@ + text::decimal(update_speed_ms as nat) + "ms"@
}

/// The streams of symbols on a route. Each symbol has one stream on the public route,
/// and two on the market route.
pub open spec fn symbol_streams(
    symbols: Seq<Seq<char>>,
    route: Route,
    update_speed_ms: u32,
) -> Seq<Seq<char>>
    decreases symbols.len(),
{
    if symbols.len() == 0 {
        seq![]
    } else {
        let rest = symbol_streams(symbols.drop_last(), route, update_speed_ms);
        let symbol = symbols.last();
        match route {
            Route::Public => rest.push(depth_stream(symbol, update_speed_ms)),
            Route::Market => rest.push(text::lowercase(symbol) + "@aggTrade"@).push(
                text::lowercase(symbol) + "@kline_1m"@,
            ),
        }
    }
}

/// The streams of a batch on a route. The stream of all liquidations is taken once, by
/// the first batch.
pub open spec fn batch_streams(
    symbols: Seq<Seq<char>>,
    route: Route,
    batch_id: usize,
    update_speed_ms: u32,
) -> Seq<Seq<char>> {
    let streams = symbol_streams(symbols, route, update_speed_ms);
    if route == Route::Market && batch_id == 0 {
        streams.push("!forceOrder@arr"@)
    } else {
        streams
    }
}

/// The streams of a batch on a route.
pub fn streams_for(
    symbols: &Vec<String>,
    route: Route,
    batch_id: usize,
    update_speed_ms: u32,
) -> (r: Vec<String>)
    ensures
        text::texts(r@) == batch_streams(text::texts(symbols@), route, batch_id, update_speed_ms),
{
    let ghost names = text::texts(symbols@);
    let mut streams: Vec<String> = Vec::new();
    let mut i: usize = 0;
    assert(names.take(0) =~= seq![]);
    assert(text::texts(streams@) =~= seq![]);
    while i < symbols.len()
        invariant
            i <= symbols.len(),
            names == text::texts(symbols@),
            text::texts(streams@) == symbol_streams(names.take(i as int), route, update_speed_ms),
        decreases symbols.len() - i,
    {
        let ghost before = text::texts(streams@);
        assert(names.take(i + 1).drop_last() =~= names.take(i as int));
        assert(names.take(i + 1).last() == symbols@[i as int]@);
        let mut stream: String = text::to_lowercase(symbols[i].as_str());
        match route {
            Route::Public => {
                stream.append("@depth@");
                stream.append(text::u64_text(update_speed_ms as u64).as_str());
                stream.append("ms");
                streams.push(stream);
                assert(text::texts(streams@) =~= before.push(stream@));
            },
            Route::Market => {
                let mut klines: String = stream.clone();
                stream.append("@aggTrade");
                klines.append("@kline_1m");
                streams.push(stream);
                streams.push(klines);
                assert(text::texts(streams@) =~= before.push(stream@).push(klines@));
            },
        }
        i = i + 1;
    }
    assert(names.take(i as int) =~= names);
    if route == Route::Market && batch_id == 0 {
        let ghost before = text::texts(streams@);
        let all: String = "!forceOrder@arr".to_owned();
        streams.push(all);
        assert(text::texts(streams@) =~= before.push(all@));
    }
    streams
}

/// Texts with a slash between any two.
pub open spec fn joined(list: Seq<Seq<char>>) -> Seq<char>
    decreases list.len(),
{
    if list.len() == 0 {
        seq![]
    } else if list.len() == 1 {
        list[0]
    } else {
        joined(list.drop_last()) + "/"@ + list.last()
    }
}

/// The address of a connection.
pub open spec fn connection_url(base: Seq<char>, route: Route, streams: Seq<Seq<char>>) -> Seq<
    char,
> {
    base + "/"@ + route_path(route) + "/stream?streams="@ + joined(streams)
}

/// The address of a connection that takes `streams`.
pub fn stream_url(base: &str, route: Route, streams: &Vec<String>) -> (r: String)
    ensures
        r@ == connection_url(base@, route, text::texts(streams@)),
{
    let ghost list = text::texts(streams@);
    let mut names: String = "".to_owned();
    proof {
        reveal_strlit("");
    }
    assert(names@ =~= joined(list.take(0)));
    let mut i: usize = 0;
    while i < streams.len()
        invariant
            i <= streams.len(),
            list == text::texts(streams@),
            names@ == joined(list.take(i as int)),
        decreases streams.len() - i,
    {
        assert(list.take(i + 1).drop_last() =~= list.take(i as int));
        assert(list.take(i + 1).last() == streams@[i as int]@);
        if i > 0 {
            names.append("/");
        }
        names.append(streams[i].as_str());
        proof {
            if i == 0 {
                assert(names@ =~= streams@[0]@);
            }
        }
        i = i + 1;
    }
    assert(list.take(i as int) =~= list);
    let mut url: String = base.to_owned();
    url.append("/");
    url.append(route.path());
    url.append("/stream?streams=");
    url.append(names.as_str());
    url
}

/// The kinds of stream events.
#[derive(Clone, Copy, Debug, PartialEq, Eq, Structural)]
pub enum EventKind {
    DepthUpdate,
    Trade,
    Kline,
    Liquidation,
    Unknown,
}

/// The kind of an event by its type field.
pub open spec fn kind_of_event(event_type: Option<Seq<char>>) -> EventKind {
    match event_type {
        Some(name) => if name == "depthUpdate"@ {
            EventKind::DepthUpdate
        } else if name == "aggTrade"@ {
            EventKind::Trade
        } else if name == "kline"@ {
            EventKind::Kline
        } else if name == "forceOrder"@ {
            EventKind::Liquidation
        } else {
            EventKind::Unknown
        },
        None => EventKind::Unknown,
    }
}

/// The kind of an event by its type field. An event that stands in an array is taken
/// only where it is a liquidation.
pub fn event_kind(event_type: Option<&str>, in_array: bool) -> (r: EventKind)
    ensures
        ({
            let kind = kind_of_event(
                match event_type {
                    Some(name) => Some(name@),
                    None => None,
                },
            );
            r == (if in_array && kind != EventKind::Liquidation {
                EventKind::Unknown
            } else {
                kind
            })
        }),
{
    let name: &str = match event_type {
        Some(name) => name,
        None => {
            return EventKind::Unknown;
        },
    };
    let kind: EventKind = if text::text_eq(name, "depthUpdate") {
        EventKind::DepthUpdate
    } else if text::text_eq(name, "aggTrade") {
        EventKind::Trade
    } else if text::text_eq(name, "kline") {
        EventKind::Kline
    } else if text::text_eq(name, "forceOrder") {
        EventKind::Liquidation
    } else {
        EventKind::Unknown
    };
    if in_array && kind != EventKind::Liquidation {
        EventKind::Unknown
    } else {
        kind
    }
}

/// The levels that are numbers.
pub open spec fn readable(values: Seq<Option<(u64, u64)>>) -> Seq<(u64, u64)>
    decreases values.len(),
{
    if values.len() == 0 {
        seq![]
    } else {
        let rest = readable(values.drop_last());
        match values.last() {
            Some(level) => rest.push(level),
            None => rest,
        }
    }
}

/// The levels that are numbers.
pub fn readable_levels(values: &Vec<Option<(u64, u64)>>) -> (r: Vec<(u64, u64)>)
    ensures
        r@ == readable(values@),
{
    let mut levels: Vec<(u64, u64)> = Vec::new();
    let mut i: usize = 0;
    while i < values.len()
        invariant
            i <= values.len(),
            levels@ == readable(values@.take(i as int)),
        decreases values.len() - i,
    {
        assert(values@.take(i + 1).drop_last() =~= values@.take(i as int));
        match values[i] {
            Some(level) => {
                levels.push(level);
            },
            None => {},
        }
        i = i + 1;
    }
    assert(values@.take(i as int) =~= values@);
    levels
}

/// The bit pattern of a binary64 number that is neither infinite nor NaN: its exponent is
/// not the largest one.
pub open spec fn finite_bits(bits: u64) -> bool {
    bits % book::SIGN_BIT < 0x7ff0_0000_0000_0000
}

/// A level is finite, or is no pair of numbers.
pub open spec fn is_finite_level(level: Option<(u64, u64)>) -> bool {
    match level {
        Some((price, quantity)) => finite_bits(price) && finite_bits(quantity),
        None => true,
    }
}

/// Levels that are numbers are finite ones.
pub open spec fn levels_finite(values: Seq<Option<(u64, u64)>>) -> bool {
    forall|i: int| 0 <= i < values.len() ==> is_finite_level(#[trigger] values[i])
}

/// Whether all levels that are numbers are finite ones.
pub fn all_finite(values: &Vec<Option<(u64, u64)>>) -> (r: bool)
    ensures
        r == levels_finite(values@),
{
    let mut i: usize = 0;
    while i < values.len()
        invariant
            i <= values.len(),
            forall|k: int| 0 <= k < i ==> is_finite_level(#[trigger] values@[k]),
        decreases values.len() - i,
    {
        match values[i] {
            Some((price, quantity)) => {
                if price % book::SIGN_BIT >= 0x7ff0_0000_0000_0000 || quantity % book::SIGN_BIT
                    >= 0x7ff0_0000_0000_0000 {
                    assert(!is_finite_level(values@[i as int]));
                    return false;
                }
            },
            None => {},
        }
        i = i + 1;
    }
    true
}

/// `converted` is the update with its levels converted ahead of time.
pub open spec fn is_preconverted(update: DepthUpdateWs, converted: DepthUpdateWs) -> bool {
    &&& converted.b_floats matches Some(bids) && bids@ == readable(update.bid_values@)
    &&& converted.a_floats matches Some(asks) && asks@ == readable(update.ask_values@)
    &&& converted == (DepthUpdateWs {
        b_floats: converted.b_floats,
        a_floats: converted.a_floats,
        ..update
    })
}

/// The update with its levels converted ahead of time.
pub fn preconverted(update: DepthUpdateWs) -> (r: DepthUpdateWs)
    ensures
        is_preconverted(update, r),
{
    let mut converted: DepthUpdateWs = update;
    converted.b_floats = Some(readable_levels(&converted.bid_values));
    converted.a_floats = Some(readable_levels(&converted.ask_values));
    converted
}

/// What happens on an open connection.
#[derive(Clone, Copy, Debug, PartialEq, Eq, Structural)]
pub enum SocketEvent {
    /// It is time to send a ping.
    PingDue,
    /// The connection was asked to close.
    CloseRequested,
    /// A look at the clock: nothing was received for so many nanoseconds.
    Tick { idle: u64 },
    /// The stream is over.
    Ended,
    Text,
    Binary,
    Ping,
    Pong,
    Close,
    /// Reading failed.
    Failed,
    Other,
}

/// What a connection does next.
#[derive(Clone, Copy, Debug, PartialEq, Eq, Structural)]
pub enum SocketStep {
    SendPing,
    Process,
    /// Send a pong at once, and note that the other side is alive.
    ReplyPong,
    /// Note that the other side is alive.
    NotePong,
    Nothing,
    EndClean,
    EndFailed(SocketFailure),
}

/// Why a connection failed.
#[derive(Clone, Copy, Debug, PartialEq, Eq, Structural)]
pub enum SocketFailure {
    PongTimeout,
    Idle,
    /// Reading or writing failed.
    Socket,
}

/// What a connection does on an event.
pub open spec fn step_on(event: SocketEvent) -> SocketStep {
    match event {
        SocketEvent::PingDue => SocketStep::SendPing,
        SocketEvent::CloseRequested => SocketStep::EndFailed(SocketFailure::PongTimeout),
        SocketEvent::Tick { idle } => if idle > IDLE_TIMEOUT {
            SocketStep::EndFailed(SocketFailure::Idle)
        } else {
            SocketStep::Nothing
        },
        SocketEvent::Ended => SocketStep::EndClean,
        SocketEvent::Text => SocketStep::Process,
        SocketEvent::Binary => SocketStep::Process,
        SocketEvent::Ping => SocketStep::ReplyPong,
        SocketEvent::Pong => SocketStep::NotePong,
        SocketEvent::Close => SocketStep::EndClean,
        SocketEvent::Failed => SocketStep::EndFailed(SocketFailure::Socket),
        SocketEvent::Other => SocketStep::Nothing,
    }
}

/// Messages that count as received once they were dealt with.
pub open spec fn counts(event: SocketEvent) -> bool {
    event is Text || event is Binary || event is Ping || event is Pong || event is Other
}

/// What a connection does on an event, and whether the event counts as a message.
pub fn socket_step(event: SocketEvent) -> (r: (SocketStep, bool))
    ensures
        r.0 == step_on(event),
        r.1 == counts(event),
{
    match event {
        SocketEvent::PingDue => (SocketStep::SendPing, false),
        SocketEvent::CloseRequested => (SocketStep::EndFailed(SocketFailure::PongTimeout), false),
        SocketEvent::Tick { idle } => if idle > IDLE_TIMEOUT {
            (SocketStep::EndFailed(SocketFailure::Idle), false)
        } else {
            (SocketStep::Nothing, false)
        },
        SocketEvent::Ended => (SocketStep::EndClean, false),
        SocketEvent::Text => (SocketStep::Process, true),
        SocketEvent::Binary => (SocketStep::Process, true),
        SocketEvent::Ping => (SocketStep::ReplyPong, true),
        SocketEvent::Pong => (SocketStep::NotePong, true),
        SocketEvent::Close => (SocketStep::EndClean, false),
        SocketEvent::Failed => (SocketStep::EndFailed(SocketFailure::Socket), false),
        SocketEvent::Other => (SocketStep::Nothing, true),
    }
}

/// The message of a failed connection.
pub open spec fn failure_text(failure: SocketFailure, detail: Seq<char>) -> Seq<char> {
    "WebSocket error: "@ + (match failure {
        SocketFailure::PongTimeout => "Pong timeout"@,
        SocketFailure::Idle => "No message received in 30s"@,
        SocketFailure::Socket => detail,
    })
}

/// The message of a failed connection; `detail` is what the socket said.
pub fn failure_message(failure: SocketFailure, detail: &str) -> (r: String)
    ensures
        r@ == failure_text(failure, detail@),
{
    let mut message: String = "WebSocket error: ".to_owned();
    match failure {
        SocketFailure::PongTimeout => {
            message.append("Pong timeout");
        },
        SocketFailure::Idle => {
            message.append("No message received in 30s");
        },
        SocketFailure::Socket => {
            message.append(detail);
        },
    }
    message
}

/// The newest `capacity` entries.
pub open spec fn within_capacity(buffer: Seq<DepthUpdateWs>, capacity: nat) -> Seq<DepthUpdateWs> {
    if buffer.len() > capacity {
        buffer.skip(buffer.len() - capacity)
    } else {
        buffer
    }
}

/// Without the oldest entries that are too old. The newest entry stays.
pub open spec fn within_age(buffer: Seq<DepthUpdateWs>, seconds: u64, now_ms: i64) -> Seq<
    DepthUpdateWs,
>
    decreases buffer.len(),
{
    if buffer.len() > 1 && now_ms - buffer[0].event_time > seconds * 1000 {
        within_age(buffer.drop_first(), seconds, now_ms)
    } else {
        buffer
    }
}

/// A ring buffer after an update.
pub open spec fn buffered(
    buffer: Seq<DepthUpdateWs>,
    update: DepthUpdateWs,
    capacity: nat,
    seconds: u64,
    now_ms: i64,
) -> Seq<DepthUpdateWs> {
    within_age(within_capacity(buffer.push(update), capacity), seconds, now_ms)
}

/// Dropping old entries leaves a tail, and never the empty one.
proof fn lemma_within_age_is_a_tail(buffer: Seq<DepthUpdateWs>, seconds: u64, now_ms: i64) -> (n: int)
    ensures
        0 <= n <= buffer.len(),
        within_age(buffer, seconds, now_ms) == buffer.skip(n),
        buffer.len() > 0 ==> n < buffer.len(),
        forall|i: int|
            0 <= i < n ==> now_ms - (#[trigger] buffer[i]).event_time > seconds * 1000,
        n < buffer.len() - 1 ==> now_ms - buffer[n].event_time <= seconds * 1000,
    decreases buffer.len(),
{
    if buffer.len() > 1 && now_ms - buffer[0].event_time > seconds * 1000 {
        let rest = buffer.drop_first();
        let n = lemma_within_age_is_a_tail(rest, seconds, now_ms);
        assert(rest.skip(n) =~= buffer.skip(n + 1));
        assert forall|i: int| 0 <= i < n + 1 implies now_ms - (
        #[trigger] buffer[i]).event_time > seconds * 1000 by {
            if i > 0 {
                assert(buffer[i] == rest[i - 1]);
            }
        }
        n + 1
    } else {
        assert(buffer.skip(0) =~= buffer);
        0
    }
}

/// A ring buffer never holds more than its capacity, and keeps arrival order: it is the
/// tail of what came in, and with any capacity at all the newest update is in it.
pub proof fn buffer_is_a_bounded_tail(
    buffer: Seq<DepthUpdateWs>,
    update: DepthUpdateWs,
    capacity: nat,
    seconds: u64,
    now_ms: i64,
)
    ensures
        ({
            let after = buffered(buffer, update, capacity, seconds, now_ms);
            &&& after.len() <= capacity
            &&& after.len() <= buffer.len() + 1
            &&& after == buffer.push(update).skip(buffer.len() + 1 - after.len())
            &&& capacity > 0 ==> after.len() > 0 && after.last() == update
        }),
{
    let all = buffer.push(update);
    let kept = within_capacity(all, capacity);
    let n = lemma_within_age_is_a_tail(kept, seconds, now_ms);
    assert(kept.skip(n) =~= all.skip(all.len() - kept.len() + n));
}

/// While there is room and the oldest entry is recent, nothing is lost.
pub proof fn nothing_is_lost_within_limits(
    buffer: Seq<DepthUpdateWs>,
    update: DepthUpdateWs,
    capacity: nat,
    seconds: u64,
    now_ms: i64,
)
    requires
        buffer.len() < capacity,
        buffer.len() > 0 ==> now_ms - buffer[0].event_time <= seconds * 1000,
    ensures
        buffered(buffer, update, capacity, seconds, now_ms) == buffer.push(update),
{
}

/// A connection that stands.
#[derive(Clone, Copy)]
pub struct ConnectionState {
    pub symbols_count: usize,
    pub is_connected: bool,
    /// When the other side last showed that it is alive.
    pub last_pong: u64,
    pub message_count: u64,
}

/// Connection statistics.
#[derive(Clone, Copy, Debug, PartialEq, Eq, Structural)]
pub struct ConnectionStats {
    pub batch_id: usize,
    pub is_connected: bool,
    pub symbols_count: usize,
    pub message_count: u64,
    /// Nanoseconds.
    pub last_pong_ago: u64,
    pub reconnect_attempts: u32,
}

/// What a map from connections to statistics holds.
pub uninterp spec fn stats_entries(map: FxHashMap<usize, ConnectionStats>) -> Map<
    usize,
    ConnectionStats,
>;

/// `FxHashMap::default`: an empty map.
#[verifier::external_body]
fn stats_map() -> (r: FxHashMap<usize, ConnectionStats>)
    ensures
        stats_entries(r) == (Map::<usize, ConnectionStats>::empty()),
{
    FxHashMap::default()
}

/// `FxHashMap::insert`: the key maps to the statistics, other keys are as before.
#[verifier::external_body]
fn stats_insert(map: &mut FxHashMap<usize, ConnectionStats>, key: usize, stats: ConnectionStats)
    ensures
        stats_entries(*final(map)) == stats_entries(*old(map)).insert(key, stats),
{
    map.insert(key, stats);
}

/// `list` names every key of a map once, with its value, in some order.
pub open spec fn lists_numbers<V>(map: Map<usize, V>, list: Seq<(usize, V)>) -> bool {
    &&& forall|i: int|
        0 <= i < list.len() ==> map.contains_key((#[trigger] list[i]).0) && map[list[i].0]
            == list[i].1
    &&& forall|i: int, j: int|
        0 <= i < j < list.len() ==> (#[trigger] list[i]).0 != (#[trigger] list[j]).0
    &&& forall|key: usize| #[trigger]
        map.contains_key(key) ==> exists|i: int|
            0 <= i < list.len() && (#[trigger] list[i]).0 == key
}

/// What a map from connection numbers to connections holds.
pub uninterp spec fn connection_entries(map: DashMap<usize, ConnectionState>) -> Map<
    usize,
    ConnectionState,
>;

/// `DashMap::new`: an empty map.
#[verifier::external_body]
fn connection_map() -> (r: DashMap<usize, ConnectionState>)
    ensures
        connection_entries(r) == (Map::<usize, ConnectionState>::empty()),
{
    DashMap::new()
}

/// `DashMap::insert`: the key maps to the value, other keys are as before.
#[verifier::external_body]
fn connection_insert(map: &mut DashMap<usize, ConnectionState>, key: usize, value: ConnectionState)
    ensures
        connection_entries(*final(map)) == connection_entries(*old(map)).insert(key, value),
{
    map.insert(key, value);
}

/// `DashMap::get`: the value of the key, if there is one.
#[verifier::external_body]
fn connection_get(map: &DashMap<usize, ConnectionState>, key: usize) -> (r: Option<ConnectionState>)
    ensures
        r == (if connection_entries(*map).contains_key(key) {
            Some(connection_entries(*map)[key])
        } else {
            None
        }),
{
    map.get(&key).map(|state| *state)
}

/// `DashMap::remove`: the key is gone, other keys are as before.
#[verifier::external_body]
fn connection_remove(map: &mut DashMap<usize, ConnectionState>, key: usize)
    ensures
        connection_entries(*final(map)) == connection_entries(*old(map)).remove(key),
{
    map.remove(&key);
}

/// `DashMap::iter`, each entry copied out: every entry once, in no particular order.
#[verifier::external_body]
fn connection_list(map: &DashMap<usize, ConnectionState>) -> (r: Vec<(usize, ConnectionState)>)
    ensures
        lists_numbers(connection_entries(*map), r@),
{
    map.iter().map(|entry| (*entry.key(), *entry.value())).collect()
}

/// What a map from connection numbers to counts holds.
pub uninterp spec fn attempt_entries(map: DashMap<usize, u32>) -> Map<usize, u32>;

/// `DashMap::new`: an empty map.
#[verifier::external_body]
fn attempt_map() -> (r: DashMap<usize, u32>)
    ensures
        attempt_entries(r) == (Map::<usize, u32>::empty()),
{
    DashMap::new()
}

/// `DashMap::insert`: the key maps to the value, other keys are as before.
#[verifier::external_body]
fn attempt_insert(map: &mut DashMap<usize, u32>, key: usize, value: u32)
    ensures
        attempt_entries(*final(map)) == attempt_entries(*old(map)).insert(key, value),
{
    map.insert(key, value);
}

/// `DashMap::get`: the value of the key, if there is one.
#[verifier::external_body]
fn attempt_get(map: &DashMap<usize, u32>, key: usize) -> (r: Option<u32>)
    ensures
        r == (if attempt_entries(*map).contains_key(key) {
            Some(attempt_entries(*map)[key])
        } else {
            None
        }),
{
    map.get(&key).map(|count| *count)
}

/// What a map from connection numbers to flags holds.
pub uninterp spec fn flag_entries(map: DashMap<usize, bool>) -> Map<usize, bool>;

/// `DashMap::new`: an empty map.
#[verifier::external_body]
fn flag_map() -> (r: DashMap<usize, bool>)
    ensures
        flag_entries(r) == (Map::<usize, bool>::empty()),
{
    DashMap::new()
}

/// `DashMap::insert`: the key maps to the value, other keys are as before.
#[verifier::external_body]
fn flag_insert(map: &mut DashMap<usize, bool>, key: usize, value: bool)
    ensures
        flag_entries(*final(map)) == flag_entries(*old(map)).insert(key, value),
{
    map.insert(key, value);
}

/// `DashMap::get`: the value of the key, if there is one.
#[verifier::external_body]
fn flag_get(map: &DashMap<usize, bool>, key: usize) -> (r: Option<bool>)
    ensures
        r == (if flag_entries(*map).contains_key(key) {
            Some(flag_entries(*map)[key])
        } else {
            None
        }),
{
    map.get(&key).map(|flag| *flag)
}

/// `DashMap::remove`: the key is gone, other keys are as before.
#[verifier::external_body]
fn flag_remove(map: &mut DashMap<usize, bool>, key: usize)
    ensures
        flag_entries(*final(map)) == flag_entries(*old(map)).remove(key),
{
    map.remove(&key);
}

/// `DashMap::iter`, each entry copied out: every entry once, in no particular order.
#[verifier::external_body]
fn flag_list(map: &DashMap<usize, bool>) -> (r: Vec<(usize, bool)>)
    ensures
        lists_numbers(flag_entries(*map), r@),
{
    map.iter().map(|entry| (*entry.key(), *entry.value())).collect()
}

/// What a map from symbols to ring buffers holds.
pub uninterp spec fn ring_entries(map: DashMap<String, VecDeque<DepthUpdateWs>>) -> Map<
    Seq<char>,
    Seq<DepthUpdateWs>,
>;

/// `DashMap::new`: an empty map.
#[verifier::external_body]
fn ring_map() -> (r: DashMap<String, VecDeque<DepthUpdateWs>>)
    ensures
        ring_entries(r) == (Map::<Seq<char>, Seq<DepthUpdateWs>>::empty()),
{
    DashMap::new()
}

/// `DashMap::insert`: the key maps to the buffer, other keys are as before.
#[verifier::external_body]
fn ring_insert(
    map: &mut DashMap<String, VecDeque<DepthUpdateWs>>,
    key: &str,
    buffer: VecDeque<DepthUpdateWs>,
)
    ensures
        ring_entries(*final(map)) == ring_entries(*old(map)).insert(key@, buffer@),
{
    map.insert(key.to_string(), buffer);
}

/// `DashMap::remove`: the buffer of the key is handed out, if there is one, and the key
/// is gone; other keys are as before.
#[verifier::external_body]
fn ring_remove(map: &mut DashMap<String, VecDeque<DepthUpdateWs>>, key: &str) -> (r: Option<
    VecDeque<DepthUpdateWs>,
>)
    ensures
        r is Some <==> ring_entries(*old(map)).contains_key(key@),
        r matches Some(buffer) ==> buffer@ == ring_entries(*old(map))[key@],
        ring_entries(*final(map)) == ring_entries(*old(map)).remove(key@),
{
    map.remove(key).map(|entry| entry.1)
}

/// Settings of the connections.
pub struct Settings {
    pub websocket_url: Seq<char>,
    pub update_speed_ms: u32,
    pub reconnect_delay_ms: u64,
    pub max_reconnect_delay_ms: u64,
    pub max_reconnect_attempts: u32,
    pub ping_interval_seconds: u64,
    pub heartbeat_miss_reconnect: u32,
    pub capacity: usize,
    pub seconds: u64,
}

/// The connections as mathematical values.
pub struct ConnectionsView {
    pub settings: Settings,
    pub connections: Map<usize, ConnectionState>,
    pub shutdown: bool,
    pub attempts: Map<usize, u32>,
    /// Connections that were started; `true` for those that have to close.
    pub closing: Map<usize, bool>,
    pub buffers: Map<Seq<char>, Seq<DepthUpdateWs>>,
    pub counts: Map<Seq<char>, u64>,
}

/// Time since an earlier moment; none if the moment is still to come.
pub open spec fn elapsed(now: u64, then: u64) -> u64 {
    if now >= then {
        (now - then) as u64
    } else {
        0
    }
}

impl ConnectionsView {
    /// The connections after a depth update came in at `now_ms`: it is counted, and
    /// buffered where its symbol has a ring buffer.
    pub open spec fn with_update(self, update: DepthUpdateWs, now_ms: i64) -> ConnectionsView {
        let symbol = text::lowercase(update.symbol@);
        let count = self.count(symbol);
        ConnectionsView {
            counts: self.counts.insert(
                symbol,
                if count == u64::MAX {
                    u64::MAX
                } else {
                    (count + 1) as u64
                },
            ),
            buffers: if self.buffers.contains_key(symbol) {
                self.buffers.insert(
                    symbol,
                    buffered(
                        self.buffers[symbol],
                        update,
                        self.settings.capacity as nat,
                        self.settings.seconds,
                        now_ms,
                    ),
                )
            } else {
                self.buffers
            },
            ..self
        }
    }

    /// Longest time without a sign of life, in nanoseconds.
    pub open spec fn silence_allowed(self) -> int {
        self.settings.ping_interval_seconds * 1_000_000_000 * self.settings.heartbeat_miss_reconnect
    }

    /// Connections without a sign of life for too long.
    pub open spec fn silent(self, now: u64, cid: usize) -> bool {
        self.connections.contains_key(cid) && elapsed(now, self.connections[cid].last_pong)
            > self.silence_allowed()
    }

    /// How many updates of a symbol came in.
    pub open spec fn count(self, symbol: Seq<char>) -> u64 {
        if self.counts.contains_key(symbol) {
            self.counts[symbol]
        } else {
            0
        }
    }

    /// Failed attempts of a connection.
    pub open spec fn attempts_of(self, cid: usize) -> u32 {
        if self.attempts.contains_key(cid) {
            self.attempts[cid]
        } else {
            0
        }
    }

    /// Failed attempts of the listed connections.
    pub open spec fn attempts_in(self, list: Seq<(usize, ConnectionState)>) -> nat
        decreases list.len(),
    {
        if list.len() == 0 {
            0
        } else {
            self.attempts_in(list.drop_last()) + self.attempts_of(list.last().0) as nat
        }
    }

    /// Statistics of each connection.
    pub open spec fn statistics(self, now: u64) -> Map<usize, ConnectionStats> {
        Map::new(
            |cid: usize| self.connections.contains_key(cid),
            |cid: usize|
                {
                    let state = self.connections[cid];
                    ConnectionStats {
                        batch_id: cid,
                        is_connected: state.is_connected,
                        symbols_count: state.symbols_count,
                        message_count: state.message_count,
                        last_pong_ago: elapsed(now, state.last_pong),
                        reconnect_attempts: self.attempts_of(cid),
                    }
                },
        )
    }

    /// What is buffered of a symbol.
    pub open spec fn buffer(self, symbol: Seq<char>) -> Seq<DepthUpdateWs> {
        if self.buffers.contains_key(symbol) {
            self.buffers[symbol]
        } else {
            seq![]
        }
    }

    /// Failed attempts of a connection after one that failed when it had stood for `ran`
    /// nanoseconds.
    pub open spec fn attempts_after(self, cid: usize, ran: u64) -> u32 {
        if ran >= STABLE_CONNECTION {
            1
        } else if self.attempts_of(cid) == u32::MAX {
            u32::MAX
        } else {
            (self.attempts_of(cid) + 1) as u32
        }
    }
}

/// What becomes of a connection that ended.
#[derive(Clone, Copy, Debug, PartialEq, Eq, Structural)]
pub enum AfterRun {
    /// Everything is shutting down.
    Stop,
    /// It ended cleanly and is opened again.
    Reopen { wait_ms: u64 },
    /// It failed and is tried again; `alert` at the configured number of failures.
    /// The wait is made longer by a random part of a second.
    Retry { wait_ms: u64, attempt: u32, alert: bool },
}

/// A connection to open.
pub struct Connection {
    pub id: usize,
    pub route: Route,
    pub streams_count: usize,
    pub url: String,
}

/// What starting a batch calls for.
pub struct BatchStart {
    pub connections: Vec<Connection>,
    /// Whether the heartbeat monitor starts.
    pub heartbeat: bool,
}

/// `connection` is that of a batch on a route.
pub open spec fn is_batch_connection(
    connection: Connection,
    symbols: Seq<Seq<char>>,
    batch_id: usize,
    route: Route,
    settings: Settings,
) -> bool {
    let streams = batch_streams(symbols, route, batch_id, settings.update_speed_ms);
    &&& connection.id == connection_number(batch_id as nat, route)
    &&& connection.route == route
    &&& connection.streams_count == streams.len()
    &&& connection.url@ == connection_url(settings.websocket_url, route, streams)
}

/// The connections and their buffers.
pub struct WebSocketManager {
    websocket_url: String,
    update_speed_ms: u32,
    reconnect_delay_ms: u64,
    max_reconnect_delay_ms: u64,
    max_reconnect_attempts: u32,
    ping_interval_seconds: u64,
    heartbeat_miss_reconnect: u32,
    ring_buffer_capacity: usize,
    ring_buffer_seconds: u64,
    connections: DashMap<usize, ConnectionState>,
    shutdown: bool,
    reconnect_attempts: DashMap<usize, u32>,
    closing: DashMap<usize, bool>,
    symbol_buffers: DashMap<String, VecDeque<DepthUpdateWs>>,
    symbol_message_counts: DashMap<String, u64>,
}

impl View for WebSocketManager {
    type V = ConnectionsView;

    closed spec fn view(&self) -> ConnectionsView {
        ConnectionsView {
            settings: Settings {
                websocket_url: self.websocket_url@,
                update_speed_ms: self.update_speed_ms,
                reconnect_delay_ms: self.reconnect_delay_ms,
                max_reconnect_delay_ms: self.max_reconnect_delay_ms,
                max_reconnect_attempts: self.max_reconnect_attempts,
                ping_interval_seconds: self.ping_interval_seconds,
                heartbeat_miss_reconnect: self.heartbeat_miss_reconnect,
                capacity: self.ring_buffer_capacity,
                seconds: self.ring_buffer_seconds,
            },
            connections: connection_entries(self.connections),
            shutdown: self.shutdown,
            attempts: attempt_entries(self.reconnect_attempts),
            closing: flag_entries(self.closing),
            buffers: ring_entries(self.symbol_buffers),
            counts: symbol_maps::u64_entries(self.symbol_message_counts),
        }
    }
}

impl WebSocketManager {
    /// No connections yet; an empty ring buffer for each symbol.
    pub fn new(
        exchange: &ExchangeConfig,
        orderbook: &OrderbookConfig,
        websocket: &WebSocketConfig,
        symbols: &Vec<String>,
    ) -> (r: WebSocketManager)
        ensures
            r@.settings == (Settings {
                websocket_url: exchange.websocket_url@,
                update_speed_ms: orderbook.update_speed_ms,
                reconnect_delay_ms: websocket.reconnect_delay_ms,
                max_reconnect_delay_ms: websocket.max_reconnect_delay_ms,
                max_reconnect_attempts: websocket.max_reconnect_attempts,
                ping_interval_seconds: websocket.ping_interval_seconds,
                heartbeat_miss_reconnect: websocket.heartbeat_miss_reconnect,
                capacity: websocket.ring_buffer_capacity,
                seconds: websocket.ring_buffer_seconds,
            }),
            r@.connections == (Map::<usize, ConnectionState>::empty()),
            !r@.shutdown,
            r@.attempts == (Map::<usize, u32>::empty()),
            r@.closing == (Map::<usize, bool>::empty()),
            r@.counts == (Map::<Seq<char>, u64>::empty()),
            r@.buffers.dom() == text::texts(symbols@).to_set(),
            forall|symbol: Seq<char>| #[trigger] r@.buffer(symbol).len() == 0,
    {
        let mut buffers: DashMap<String, VecDeque<DepthUpdateWs>> = ring_map();
        let ghost names = text::texts(symbols@);
        let mut i: usize = 0;
        while i < symbols.len()
            invariant
                i <= symbols.len(),
                names == text::texts(symbols@),
                forall|symbol: Seq<char>| #[trigger]
                    ring_entries(buffers).contains_key(symbol) <==> names.take(i as int).contains(
                        symbol,
                    ),
                forall|symbol: Seq<char>|
                    ring_entries(buffers).contains_key(symbol) ==> (
                    #[trigger] ring_entries(buffers)[symbol]).len() == 0,
            decreases symbols.len() - i,
        {
            let ghost before = ring_entries(buffers);
            ring_insert(&mut buffers, symbols[i].as_str(), VecDeque::new());
            proof {
                let name = symbols@[i as int]@;
                let more = names.take(i + 1);
                assert(more =~= names.take(i as int).push(name));
                assert forall|symbol: Seq<char>| #[trigger]
                    ring_entries(buffers).contains_key(symbol) <==> more.contains(symbol) by {
                    if names.take(i as int).contains(symbol) {
                        let k = choose|k: int|
                            0 <= k < names.take(i as int).len() && names.take(i as int)[k] == symbol;
                        assert(more[k] == symbol);
                    }
                    if symbol == name {
                        assert(more[i as int] == symbol);
                    }
                    if more.contains(symbol) && symbol != name {
                        let k = choose|k: int| 0 <= k < more.len() && more[k] == symbol;
                        assert(names.take(i as int)[k] == symbol);
                    }
                    assert(ring_entries(buffers).contains_key(symbol) <==> before.contains_key(
                        symbol,
                    ) || symbol == name);
                }
            }
            i = i + 1;
        }
        assert(names.take(i as int) =~= names);
        assert(ring_entries(buffers).dom() =~= names.to_set());
        WebSocketManager {
            websocket_url: exchange.websocket_url.clone(),
            update_speed_ms: orderbook.update_speed_ms,
            reconnect_delay_ms: websocket.reconnect_delay_ms,
            max_reconnect_delay_ms: websocket.max_reconnect_delay_ms,
            max_reconnect_attempts: websocket.max_reconnect_attempts,
            ping_interval_seconds: websocket.ping_interval_seconds,
            heartbeat_miss_reconnect: websocket.heartbeat_miss_reconnect,
            ring_buffer_capacity: websocket.ring_buffer_capacity,
            ring_buffer_seconds: websocket.ring_buffer_seconds,
            connections: connection_map(),
            shutdown: false,
            reconnect_attempts: attempt_map(),
            closing: flag_map(),
            symbol_buffers: buffers,
            symbol_message_counts: symbol_maps::u64_map(),
        }
    }

    /// All connections have to close, and none is opened again.
    pub fn shutdown(&mut self)
        ensures
            final(self)@ == old(self)@.shut(),
            final(self)@ == (ConnectionsView {
                shutdown: true,
                closing: old(self)@.closing.map_values(|flag: bool| true),
                ..old(self)@
            }),
    {
        self.shutdown = true;
        let list: Vec<(usize, bool)> = flag_list(&self.closing);
        let ghost before = flag_entries(self.closing);
        let mut i: usize = 0;
        while i < list.len()
            invariant
                i <= list.len(),
                lists_numbers(before, list@),
                self@ == (ConnectionsView {
                    shutdown: true,
                    closing: self@.closing,
                    ..old(self)@
                }),
                self@.closing.dom() == before.dom(),
                forall|k: int| 0 <= k < i ==> self@.closing[(#[trigger] list@[k]).0],
            decreases list.len() - i,
        {
            assert(before.contains_key(list@[i as int].0));
            flag_insert(&mut self.closing, list[i].0, true);
            assert(self@.closing.dom() =~= before.dom());
            i = i + 1;
        }
        proof {
            let all = before.map_values(|flag: bool| true);
            assert forall|key: usize| before.contains_key(key) implies self@.closing[key]
                == all[key] by {
                let k = choose|k: int| 0 <= k < list.len() && (#[trigger] list@[k]).0 == key;
                assert(self@.closing[list@[k].0]);
            }
            assert(self@.closing =~= all);
        }
    }

    /// Whether everything is shutting down.
    pub fn is_shutdown(&self) -> (r: bool)
        ensures
            r == self@.shutdown,
    {
        self.shutdown
    }

    /// What starting a batch calls for: a connection on each route. The first batch also
    /// starts the heartbeat monitor. Without symbols there is nothing to do.
    pub fn start_batch(&self, symbols: &Vec<String>, batch_id: usize) -> (r: BatchStart)
        requires
            batch_id * 2 + 1 <= usize::MAX,
        ensures
            symbols@.len() == 0 ==> r.connections@.len() == 0 && !r.heartbeat,
            symbols@.len() > 0 ==> {
                &&& r.heartbeat == (batch_id == 0)
                &&& r.connections@.len() == 2
                &&& is_batch_connection(
                    r.connections@[0],
                    text::texts(symbols@),
                    batch_id,
                    Route::Public,
                    self@.settings,
                )
                &&& is_batch_connection(
                    r.connections@[1],
                    text::texts(symbols@),
                    batch_id,
                    Route::Market,
                    self@.settings,
                )
            },
    {
        let mut connections: Vec<Connection> = Vec::new();
        if symbols.len() == 0 {
            return BatchStart { connections, heartbeat: false };
        }
        connections.push(self.connection_of(symbols, batch_id, Route::Public));
        connections.push(self.connection_of(symbols, batch_id, Route::Market));
        BatchStart { connections, heartbeat: batch_id == 0 }
    }

    /// The connection of a batch on a route.
    fn connection_of(&self, symbols: &Vec<String>, batch_id: usize, route: Route) -> (r: Connection)
        requires
            batch_id * 2 + 1 <= usize::MAX,
        ensures
            is_batch_connection(r, text::texts(symbols@), batch_id, route, self@.settings),
    {
        let streams: Vec<String> = streams_for(symbols, route, batch_id, self.update_speed_ms);
        assert(text::texts(streams@).len() == streams@.len());
        Connection {
            id: conn_id(batch_id, route),
            route,
            streams_count: streams.len(),
            url: stream_url(self.websocket_url.as_str(), route, &streams),
        }
    }

    /// A connection is about to be opened.
    pub fn begin_connect(&mut self, cid: usize)
        ensures
            final(self)@ == old(self)@.opening(cid),
            final(self)@ == (ConnectionsView {
                closing: old(self)@.closing.insert(cid, false),
                ..old(self)@
            }),
    {
        flag_insert(&mut self.closing, cid, false);
    }

    /// A connection stands.
    pub fn connected(&mut self, cid: usize, symbols_count: usize, now: u64)
        ensures
            final(self)@ == old(self)@.opened(cid, symbols_count, now),
            final(self)@ == (ConnectionsView {
                connections: old(self)@.connections.insert(
                    cid,
                    ConnectionState { symbols_count, is_connected: true, last_pong: now, message_count: 0 },
                ),
                ..old(self)@
            }),
    {
        connection_insert(
            &mut self.connections,
            cid,
            ConnectionState { symbols_count, is_connected: true, last_pong: now, message_count: 0 },
        );
    }

    /// The other side of a connection showed that it is alive.
    pub fn note_pong(&mut self, cid: usize, now: u64)
        ensures
            final(self)@ == old(self)@.heard(cid, now),
            final(self)@ == (if old(self)@.connections.contains_key(cid) {
                ConnectionsView {
                    connections: old(self)@.connections.insert(
                        cid,
                        ConnectionState { last_pong: now, ..old(self)@.connections[cid] },
                    ),
                    ..old(self)@
                }
            } else {
                old(self)@
            }),
    {
        match connection_get(&self.connections, cid) {
            Some(state) => {
                connection_insert(
                    &mut self.connections,
                    cid,
                    ConnectionState { last_pong: now, ..state },
                );
            },
            None => {},
        }
    }

    /// A connection received a message.
    pub fn note_message(&mut self, cid: usize)
        ensures
            final(self)@ == old(self)@.told(cid),
            final(self)@ == (if old(self)@.connections.contains_key(cid) {
                let state = old(self)@.connections[cid];
                ConnectionsView {
                    connections: old(self)@.connections.insert(
                        cid,
                        ConnectionState {
                            message_count: if state.message_count == u64::MAX {
                                u64::MAX
                            } else {
                                (state.message_count + 1) as u64
                            },
                            ..state
                        },
                    ),
                    ..old(self)@
                }
            } else {
                old(self)@
            }),
    {
        match connection_get(&self.connections, cid) {
            Some(state) => {
                connection_insert(
                    &mut self.connections,
                    cid,
                    ConnectionState { message_count: state.message_count.saturating_add(1), ..state },
                );
            },
            None => {},
        }
    }

    /// A connection that stood is over.
    pub fn disconnected(&mut self, cid: usize)
        ensures
            final(self)@ == old(self)@.gone(cid),
            final(self)@ == (ConnectionsView {
                connections: old(self)@.connections.remove(cid),
                closing: old(self)@.closing.remove(cid),
                ..old(self)@
            }),
    {
        connection_remove(&mut self.connections, cid);
        flag_remove(&mut self.closing, cid);
    }

    /// Whether a connection has to close.
    pub fn is_closing(&self, cid: usize) -> (r: bool)
        ensures
            r == (self@.closing.contains_key(cid) && self@.closing[cid]),
    {
        match flag_get(&self.closing, cid) {
            Some(flag) => flag,
            None => false,
        }
    }

    /// Asks connections without a sign of life for too long to close, and returns them.
    pub fn check_heartbeats(&mut self, now: u64) -> (r: Vec<usize>)
        ensures
            forall|cid: usize| #[trigger] r@.contains(cid) <==> old(self)@.silent(now, cid),
            r@.no_duplicates(),
            final(self)@ == (ConnectionsView { closing: final(self)@.closing, ..old(self)@ }),
            final(self)@.closing.dom() == old(self)@.closing.dom(),
            forall|cid: usize|
                old(self)@.closing.contains_key(cid) ==> (#[trigger] final(self)@.closing[cid]
                    == (old(self)@.closing[cid] || old(self)@.silent(now, cid))),
    {
        let list: Vec<(usize, ConnectionState)> = connection_list(&self.connections);
        let allowed: u128 = self.silence();
        let ghost before = self@;
        let mut silent: Vec<usize> = Vec::new();
        let mut i: usize = 0;
        while i < list.len()
            invariant
                i <= list.len(),
                before == old(self)@,
                lists_numbers(before.connections, list@),
                allowed == before.silence_allowed(),
                self@ == (ConnectionsView { closing: self@.closing, ..before }),
                self@.closing.dom() == before.closing.dom(),
                forall|k: int|
                    0 <= k < silent.len() ==> exists|n: int|
                        0 <= n < i && (#[trigger] list@[n]).0 == #[trigger] silent@[k],
                forall|k: int|
                    0 <= k < silent.len() ==> before.silent(now, #[trigger] silent@[k]),
                silent@.no_duplicates(),
                forall|n: int|
                    0 <= n < i && before.silent(now, (#[trigger] list@[n]).0) ==> silent@.contains(
                        list@[n].0,
                    ),
                forall|cid: usize|
                    before.closing.contains_key(cid) ==> (#[trigger] self@.closing[cid] == (
                    before.closing[cid] || silent@.contains(cid))),
            decreases list.len() - i,
        {
            let cid: usize = list[i].0;
            let last: u64 = list[i].1.last_pong;
            let since: u64 = if now >= last {
                now - last
            } else {
                0
            };
            if since as u128 > allowed {
                let ghost had = silent@;
                silent.push(cid);
                proof {
                    assert(before.silent(now, cid));
                    assert forall|k: int| 0 <= k < had.len() implies had[k] != cid by {
                        let n = choose|n: int|
                            0 <= n < i && (#[trigger] list@[n]).0 == #[trigger] had[k];
                        assert(list@[n].0 != list@[i as int].0);
                    }
                    assert forall|k: int| 0 <= k < silent.len() implies exists|n: int|
                        0 <= n < i + 1 && (#[trigger] list@[n]).0 == #[trigger] silent@[k] by {
                        if k < had.len() {
                            let n = choose|n: int|
                                0 <= n < i && (#[trigger] list@[n]).0 == #[trigger] had[k];
                            assert(list@[n].0 == silent@[k]);
                        } else {
                            assert(list@[i as int].0 == silent@[k]);
                        }
                    }
                    assert forall|c: usize| #[trigger] silent@.contains(c) <==> had.contains(c) || c
                        == cid by {
                        if had.contains(c) {
                            let k = choose|k: int| 0 <= k < had.len() && had[k] == c;
                            assert(silent@[k] == c);
                        }
                        if c == cid {
                            assert(silent@[had.len() as int] == c);
                        }
                        if silent@.contains(c) && c != cid {
                            let k = choose|k: int| 0 <= k < silent.len() && silent@[k] == c;
                            assert(had[k] == c);
                        }
                    }
                }
                match flag_get(&self.closing, cid) {
                    Some(_flag) => {
                        flag_insert(&mut self.closing, cid, true);
                        assert(self@.closing.dom() =~= before.closing.dom());
                    },
                    None => {},
                }
            }
            i = i + 1;
        }
        proof {
            assert forall|cid: usize| #[trigger] silent@.contains(cid) <==> before.silent(
                now,
                cid,
            ) by {
                if before.silent(now, cid) {
                    assert(before.connections.contains_key(cid));
                    let n = choose|n: int| 0 <= n < list.len() && (#[trigger] list@[n]).0 == cid;
                    assert(silent@.contains(list@[n].0));
                }
            }
        }
        silent
    }

    /// Longest time without a sign of life, in nanoseconds.
    fn silence(&self) -> (r: u128)
        ensures
            r == self@.silence_allowed(),
    {
        let interval: u64 = self.ping_interval_seconds;
        let misses: u32 = self.heartbeat_miss_reconnect;
        let nanos: u128 = interval as u128 * 1_000_000_000;
        assert(nanos * misses <= 0xffff_ffff_ffff_ffff * 1_000_000_000 * 0xffff_ffff)
            by (nonlinear_arith)
            requires
                nanos <= 0xffff_ffff_ffff_ffff * 1_000_000_000,
                misses <= 0xffff_ffff,
        ;
        nanos * misses as u128
    }

    /// What becomes of a connection that ended after `ran` nanoseconds. A failure is
    /// tried again without end, after growing waits.
    pub fn after_run(&mut self, cid: usize, failed: bool, ran: u64) -> (r: AfterRun)
        ensures
            (r, final(self)@) == old(self)@.ended(cid, failed, ran),
            old(self)@.shutdown ==> r == AfterRun::Stop && final(self)@ == old(self)@,
            !old(self)@.shutdown && !failed ==> {
                &&& r == (AfterRun::Reopen { wait_ms: 500 })
                &&& final(self)@ == (ConnectionsView {
                    attempts: old(self)@.attempts.insert(cid, 0),
                    ..old(self)@
                })
            },
            !old(self)@.shutdown && failed ==> {
                let attempt = old(self)@.attempts_after(cid, ran);
                let settings = old(self)@.settings;
                &&& r matches AfterRun::Retry { wait_ms, attempt: tried, alert }
                &&& tried == attempt
                &&& alert == (attempt == settings.max_reconnect_attempts)
                &&& wait_ms == backoff(
                    attempt,
                    settings.reconnect_delay_ms as nat,
                    settings.max_reconnect_delay_ms as nat,
                )
                &&& final(self)@ == (ConnectionsView {
                    attempts: old(self)@.attempts.insert(cid, attempt),
                    ..old(self)@
                })
            },
    {
        if self.shutdown {
            return AfterRun::Stop;
        }
        if !failed {
            attempt_insert(&mut self.reconnect_attempts, cid, 0);
            return AfterRun::Reopen { wait_ms: CLEAN_RECONNECT_MS };
        }
        let before: u32 = if ran >= STABLE_CONNECTION {
            0
        } else {
            match attempt_get(&self.reconnect_attempts, cid) {
                Some(count) => count,
                None => 0,
            }
        };
        let attempt: u32 = before.saturating_add(1);
        attempt_insert(&mut self.reconnect_attempts, cid, attempt);
        AfterRun::Retry {
            wait_ms: backoff_for(attempt, self.reconnect_delay_ms, self.max_reconnect_delay_ms),
            attempt,
            alert: attempt == self.max_reconnect_attempts,
        }
    }

    /// Takes in a depth update at `now_ms`: it is counted, and buffered where the symbol
    /// has a ring buffer.
    pub fn buffer_depth_update(&mut self, update: DepthUpdateWs, now_ms: i64)
        ensures
            final(self)@ == old(self)@.with_update(update, now_ms),
    {
        let symbol: String = text::to_lowercase(update.symbol.as_str());
        let count: u64 = self.message_count(symbol.as_str());
        symbol_maps::u64_insert(
            &mut self.symbol_message_counts,
            symbol.as_str(),
            count.saturating_add(1),
        );
        let taken: Option<VecDeque<DepthUpdateWs>> = ring_remove(
            &mut self.symbol_buffers,
            symbol.as_str(),
        );
        match taken {
            Some(mut buffer) => {
                buffer.push_back(update);
                trim_ring(&mut buffer, self.ring_buffer_capacity, self.ring_buffer_seconds, now_ms);
                ring_insert(&mut self.symbol_buffers, symbol.as_str(), buffer);
                assert(self@.buffers =~= old(self)@.buffers.insert(symbol@, buffer@));
            },
            None => {
                assert(self@.buffers =~= old(self)@.buffers);
            },
        }
    }

    /// Takes in a depth update that was received at `now_ms`. Where a level of either side
    /// is a number that is not finite, the update is dropped: nothing is counted, buffered
    /// or handed on. Otherwise its levels are converted, a copy of it is buffered, and it
    /// is returned to be handed on.
    pub fn take_depth_update(&mut self, update: DepthUpdateWs, now_ms: i64) -> (r: Option<
        DepthUpdateWs,
    >)
        ensures
            r is Some <==> levels_finite(update.bid_values@) && levels_finite(update.ask_values@),
            r is None ==> final(self)@ == old(self)@,
            r matches Some(taken) ==> {
                &&& is_preconverted(update, taken)
                &&& exists|kept: DepthUpdateWs|
                    kept@ == taken@ && final(self)@ == #[trigger] old(self)@.with_update(
                        kept,
                        now_ms,
                    )
            },
    {
        if !all_finite(&update.bid_values) || !all_finite(&update.ask_values) {
            return None;
        }
        let taken: DepthUpdateWs = preconverted(update);
        let kept: DepthUpdateWs = taken.clone();
        let ghost copy = kept;
        self.buffer_depth_update(kept, now_ms);
        assert(copy@ == taken@ && self@ == old(self)@.with_update(copy, now_ms));
        Some(taken)
    }

    /// Hands out what is buffered of a symbol, oldest first, and empties the buffer.
    pub fn drain_buffer(&mut self, symbol: &str) -> (r: Vec<DepthUpdateWs>)
        ensures
            final(self)@ == old(self)@.drained(symbol@),
            r@ == old(self)@.buffer(symbol@),
            final(self)@ == (ConnectionsView {
                buffers: if old(self)@.buffers.contains_key(symbol@) {
                    old(self)@.buffers.insert(symbol@, seq![])
                } else {
                    old(self)@.buffers
                },
                ..old(self)@
            }),
    {
        let mut drained: Vec<DepthUpdateWs> = Vec::new();
        match ring_remove(&mut self.symbol_buffers, symbol) {
            Some(mut buffer) => {
                let ghost all = buffer@;
                while buffer.len() > 0
                    invariant
                        drained@ + buffer@ == all,
                    decreases buffer@.len(),
                {
                    let ghost rest = buffer@;
                    match buffer.pop_front() {
                        Some(update) => {
                            let ghost had = drained@;
                            drained.push(update);
                            assert(drained@ + buffer@ =~= had + rest);
                        },
                        None => {},
                    }
                }
                assert(drained@ =~= all);
                assert(buffer@ =~= seq![]);
                ring_insert(&mut self.symbol_buffers, symbol, buffer);
                assert(self@.buffers =~= old(self)@.buffers.insert(symbol@, seq![]));
            },
            None => {
                assert(drained@ =~= seq![]);
                assert(self@.buffers =~= old(self)@.buffers);
            },
        }
        drained
    }

    /// How many depth updates of a symbol came in.
    fn message_count(&self, symbol: &str) -> (r: u64)
        ensures
            r == self@.count(symbol@),
    {
        match symbol_maps::u64_get(&self.symbol_message_counts, symbol) {
            Some(count) => count,
            None => 0,
        }
    }

    /// How many depth updates of a symbol came in, as far as a `usize` can tell.
    pub fn get_symbol_message_count(&self, symbol: &str) -> (r: usize)
        ensures
            r == (if self@.count(symbol@) <= usize::MAX {
                self@.count(symbol@) as usize
            } else {
                usize::MAX
            }),
    {
        let count: u64 = self.message_count(symbol);
        if count <= usize::MAX as u64 {
            count as usize
        } else {
            usize::MAX
        }
    }

    /// Whether all symbols have received at least so many updates.
    pub fn check_batch_stability(&self, symbols: &Vec<String>, min_messages: usize) -> (r: bool)
        ensures
            r <==> forall|i: int|
                0 <= i < symbols@.len() ==> self@.count((#[trigger] symbols@[i])@) >= min_messages,
    {
        let mut i: usize = 0;
        while i < symbols.len()
            invariant
                i <= symbols.len(),
                forall|k: int|
                    0 <= k < i ==> self@.count((#[trigger] symbols@[k])@) >= min_messages,
            decreases symbols.len() - i,
        {
            if self.get_symbol_message_count(symbols[i].as_str()) < min_messages {
                assert(self@.count(symbols@[i as int]@) < min_messages);
                return false;
            }
            i = i + 1;
        }
        true
    }

    /// Failed attempts of all connections that stand, as far as the counter can tell.
    pub fn total_reconnects(&self) -> (r: u32)
        ensures
            exists|list: Seq<(usize, ConnectionState)>| #[trigger]
                lists_numbers(self@.connections, list) && r == (if self@.attempts_in(list)
                    <= u32::MAX {
                    self@.attempts_in(list)
                } else {
                    u32::MAX as nat
                }),
    {
        let list: Vec<(usize, ConnectionState)> = connection_list(&self.connections);
        let mut total: u32 = 0;
        let mut i: usize = 0;
        assert(list@.take(0) =~= seq![]);
        while i < list.len()
            invariant
                i <= list.len(),
                total == (if self@.attempts_in(list@.take(i as int)) <= u32::MAX {
                    self@.attempts_in(list@.take(i as int))
                } else {
                    u32::MAX as nat
                }),
            decreases list.len() - i,
        {
            assert(list@.take(i + 1).drop_last() =~= list@.take(i as int));
            let failed: u32 = match attempt_get(&self.reconnect_attempts, list[i].0) {
                Some(count) => count,
                None => 0,
            };
            total = total.saturating_add(failed);
            i = i + 1;
        }
        assert(list@.take(list.len() as int) =~= list@);
        assert(lists_numbers(self@.connections, list@));
        total
    }

    /// Statistics of each connection, by number.
    pub fn get_stats(&self, now: u64) -> (r: FxHashMap<usize, ConnectionStats>)
        ensures
            stats_entries(r) == self@.statistics(now),
    {
        let list: Vec<(usize, ConnectionState)> = connection_list(&self.connections);
        let mut stats: FxHashMap<usize, ConnectionStats> = stats_map();
        let mut i: usize = 0;
        while i < list.len()
            invariant
                i <= list.len(),
                lists_numbers(self@.connections, list@),
                forall|cid: usize| #[trigger]
                    stats_entries(stats).contains_key(cid) ==> self@.statistics(now).contains_key(
                        cid,
                    ) && stats_entries(stats)[cid] == self@.statistics(now)[cid],
                forall|k: int|
                    0 <= k < i ==> stats_entries(stats).contains_key((#[trigger] list@[k]).0),
            decreases list.len() - i,
        {
            let cid: usize = list[i].0;
            let state: ConnectionState = list[i].1;
            assert(self@.connections[list@[i as int].0] == list@[i as int].1);
            let one: ConnectionStats = ConnectionStats {
                batch_id: cid,
                is_connected: state.is_connected,
                symbols_count: state.symbols_count,
                message_count: state.message_count,
                last_pong_ago: if now >= state.last_pong {
                    now - state.last_pong
                } else {
                    0
                },
                reconnect_attempts: match attempt_get(&self.reconnect_attempts, cid) {
                    Some(count) => count,
                    None => 0,
                },
            };
            stats_insert(&mut stats, cid, one);
            i = i + 1;
        }
        assert(stats_entries(stats) =~= self@.statistics(now));
        stats
    }
}

/// Drops what is over the capacity, and then what is too old, oldest first.
fn trim_ring(buffer: &mut VecDeque<DepthUpdateWs>, capacity: usize, seconds: u64, now_ms: i64)
    ensures
        final(buffer)@ == within_age(
            within_capacity(old(buffer)@, capacity as nat),
            seconds,
            now_ms,
        ),
{
    let ghost all = buffer@;
    let ghost mut dropped: int = 0;
    assert(all.skip(0) =~= all);
    while buffer.len() > capacity
        invariant
            0 <= dropped <= all.len(),
            buffer@ == all.skip(dropped),
            dropped > 0 ==> all.len() - dropped >= capacity,
        decreases buffer@.len(),
    {
        let _oldest: Option<DepthUpdateWs> = buffer.pop_front();
        proof {
            dropped = dropped + 1;
            assert(buffer@ =~= all.skip(dropped));
        }
    }
    assert(buffer@ =~= within_capacity(all, capacity as nat));
    let ghost kept = buffer@;
    let mut stale: bool = true;
    while stale && buffer.len() > 1
        invariant
            within_age(buffer@, seconds, now_ms) == within_age(kept, seconds, now_ms),
            !stale ==> within_age(buffer@, seconds, now_ms) == buffer@,
        decreases
                buffer@.len(),
                if stale {
                    1int
                } else {
                    0
                },
    {
        let first: i64 = buffer[0].event_time;
        if now_ms as i128 - first as i128 > seconds as i128 * 1000 {
            let ghost before = buffer@;
            let _oldest: Option<DepthUpdateWs> = buffer.pop_front();
            assert(buffer@ =~= before.drop_first());
        } else {
            stale = false;
        }
    }
}

/// The public connection of a batch has the even number, the market one the odd number
/// behind it.
pub proof fn batches_have_two_numbers(batch_id: nat)
    ensures
        connection_number(batch_id, Route::Public) == 2 * batch_id,
        connection_number(batch_id, Route::Market) == 2 * batch_id + 1,
        route_path(Route::Public) == "public"@,
        route_path(Route::Market) == "market"@,
{
}

/// The wait starts at the configured delay and doubles from attempt to attempt, sixteen
/// times at most and never above the maximum.
pub proof fn waits_double(attempt: u32, initial: nat, max: nat)
    ensures
        backoff(0, initial, max) == (if initial < max {
            initial
        } else {
            max
        }),
        attempt < 16 && 2 * backoff(attempt, initial, max) < max ==> backoff(
            (attempt + 1) as u32,
            initial,
            max,
        ) == 2 * backoff(attempt, initial, max),
        attempt < 16 && 2 * backoff(attempt, initial, max) >= max ==> backoff(
            (attempt + 1) as u32,
            initial,
            max,
        ) == max,
        attempt >= 16 ==> backoff(attempt, initial, max) == backoff(16, initial, max),
{
    vstd::arithmetic::power2::lemma2_to64();
    assert(initial * pow2(0) == initial) by (nonlinear_arith)
        requires
            pow2(0) == 1,
    ;
    if attempt < 16 {
        lemma_doubling(initial, attempt as nat);
    }
}

/// Each symbol has its streams, in the order of the symbols: its depth on the public
/// route, its trades and its minute klines on the market route.
pub proof fn symbols_have_their_streams(
    first: Seq<Seq<char>>,
    rest: Seq<Seq<char>>,
    route: Route,
    update_speed_ms: u32,
)
    ensures
        symbol_streams(first + rest, route, update_speed_ms) == symbol_streams(
            first,
            route,
            update_speed_ms,
        ) + symbol_streams(rest, route, update_speed_ms),
        rest.len() == 0 ==> symbol_streams(rest, route, update_speed_ms).len() == 0,
        rest.len() == 1 && route == Route::Public ==> symbol_streams(rest, route, update_speed_ms)
            == seq![
            text::lowercase(rest[0]) + "@depth@"@ + text::decimal(update_speed_ms as nat) + "ms"@,
        ],
        rest.len() == 1 && route == Route::Market ==> symbol_streams(rest, route, update_speed_ms)
            == seq![
            text::lowercase(rest[0]) + "@aggTrade"@,
            text::lowercase(rest[0]) + "@kline_1m"@,
        ],
    decreases rest.len(),
{
    if rest.len() == 0 {
        assert(first + rest =~= first);
        assert(symbol_streams(first, route, update_speed_ms) + symbol_streams(
            rest,
            route,
            update_speed_ms,
        ) =~= symbol_streams(first, route, update_speed_ms));
    } else {
        symbols_have_their_streams(first, rest.drop_last(), route, update_speed_ms);
        assert((first + rest).drop_last() =~= first + rest.drop_last());
        assert(symbol_streams(first + rest, route, update_speed_ms) =~= symbol_streams(
            first,
            route,
            update_speed_ms,
        ) + symbol_streams(rest, route, update_speed_ms));
        if rest.len() == 1 {
            assert(rest.drop_last() =~= seq![]);
            assert(symbol_streams(rest.drop_last(), route, update_speed_ms) =~= seq![]);
            assert(route == Route::Public ==> symbol_streams(rest, route, update_speed_ms) =~= seq![
                depth_stream(rest[0], update_speed_ms),
            ]);
            assert(route == Route::Market ==> symbol_streams(rest, route, update_speed_ms) =~= seq![
                text::lowercase(rest[0]) + "@aggTrade"@,
                text::lowercase(rest[0]) + "@kline_1m"@,
            ]);
        }
    }
}

/// The liquidations of all symbols come once: on the market route of the first batch, behind
/// its other streams.
pub proof fn liquidations_come_once(
    symbols: Seq<Seq<char>>,
    route: Route,
    batch_id: usize,
    update_speed_ms: u32,
)
    ensures
        route == Route::Market && batch_id == 0 ==> batch_streams(
            symbols,
            route,
            batch_id,
            update_speed_ms,
        ) == symbol_streams(symbols, route, update_speed_ms).push("!forceOrder@arr"@),
        route == Route::Public || batch_id > 0 ==> batch_streams(
            symbols,
            route,
            batch_id,
            update_speed_ms,
        ) == symbol_streams(symbols, route, update_speed_ms),
{
}

/// An address names the route and then the streams, with a slash between neighbours.
pub proof fn addresses_name_all_streams(
    base: Seq<char>,
    first: Seq<Seq<char>>,
    rest: Seq<Seq<char>>,
)
    requires
        first.len() > 0,
        rest.len() > 0,
    ensures
        joined(first + rest) == joined(first) + seq!['/'] + joined(rest),
        first.len() == 1 ==> joined(first) == first[0],
        connection_url(base, Route::Public, first) == base + "/public/stream?streams="@ + joined(
            first,
        ),
        connection_url(base, Route::Market, first) == base + "/market/stream?streams="@ + joined(
            first,
        ),
    decreases rest.len(),
{
    reveal_strlit("/");
    reveal_strlit("public");
    reveal_strlit("market");
    reveal_strlit("/stream?streams=");
    reveal_strlit("/public/stream?streams=");
    reveal_strlit("/market/stream?streams=");
    assert("/public/stream?streams="@ =~= "/"@ + "public"@ + "/stream?streams="@);
    assert("/market/stream?streams="@ =~= "/"@ + "market"@ + "/stream?streams="@);
    assert(connection_url(base, Route::Public, first) =~= base + "/public/stream?streams="@
        + joined(first));
    assert(connection_url(base, Route::Market, first) =~= base + "/market/stream?streams="@
        + joined(first));
    assert("/"@ =~= seq!['/']);
    if rest.len() == 1 {
        assert((first + rest).drop_last() =~= first);
        assert((first + rest).last() == rest[0]);
    } else {
        addresses_name_all_streams(base, first, rest.drop_last());
        assert((first + rest).drop_last() =~= first + rest.drop_last());
        assert((first + rest).last() == rest.last());
        assert(joined(first + rest) =~= joined(first) + seq!['/'] + joined(rest));
    }
}

/// Events are told apart by their names; anything else is unknown.
pub proof fn events_are_told_by_their_names(name: Seq<char>)
    ensures
        kind_of_event(Some("depthUpdate"@)) == EventKind::DepthUpdate,
        kind_of_event(Some("aggTrade"@)) == EventKind::Trade,
        kind_of_event(Some("kline"@)) == EventKind::Kline,
        kind_of_event(Some("forceOrder"@)) == EventKind::Liquidation,
        name != "depthUpdate"@ && name != "aggTrade"@ && name != "kline"@ && name != "forceOrder"@
            ==> kind_of_event(Some(name)) == EventKind::Unknown,
        kind_of_event(None) == EventKind::Unknown,
{
    reveal_strlit("depthUpdate");
    reveal_strlit("aggTrade");
    reveal_strlit("kline");
    reveal_strlit("forceOrder");
    assert("depthUpdate"@.len() == 11);
    assert("aggTrade"@.len() == 8);
    assert("kline"@.len() == 5);
    assert("forceOrder"@.len() == 10);
}

/// Exactly the levels that could be read are kept, in their order.
pub proof fn readable_levels_are_kept(
    first: Seq<Option<(u64, u64)>>,
    rest: Seq<Option<(u64, u64)>>,
)
    ensures
        readable(first + rest) == readable(first) + readable(rest),
        rest.len() == 0 ==> readable(rest).len() == 0,
        rest.len() == 1 ==> (rest[0] matches Some(level) ==> readable(rest) == seq![level]),
        rest.len() == 1 && rest[0] is None ==> readable(rest).len() == 0,
    decreases rest.len(),
{
    if rest.len() == 0 {
        assert(first + rest =~= first);
        assert(readable(first) + readable(rest) =~= readable(first));
    } else {
        readable_levels_are_kept(first, rest.drop_last());
        assert((first + rest).drop_last() =~= first + rest.drop_last());
        assert(readable(first + rest) =~= readable(first) + readable(rest));
        if rest.len() == 1 {
            assert(rest.drop_last() =~= seq![]);
            assert(rest[0] matches Some(level) ==> readable(rest) =~= seq![level]);
        }
    }
}

/// Bits are those of a finite number exactly below the ones of infinity, with either sign.
pub proof fn finite_numbers_are_below_infinity(bits: u64)
    ensures
        finite_bits(bits) <==> bits < 0x7ff0_0000_0000_0000 || 0x8000_0000_0000_0000 <= bits
            < 0xfff0_0000_0000_0000,
{
}

/// An update with one level that is not finite, on either side, is not finite.
pub proof fn one_bad_level_is_enough(values: Seq<Option<(u64, u64)>>, i: int, level: (u64, u64))
    requires
        0 <= i < values.len(),
        values[i] == Some(level),
        0x7ff0_0000_0000_0000 <= level.0 < 0x8000_0000_0000_0000 || 0x7ff0_0000_0000_0000 <= level.1
            < 0x8000_0000_0000_0000 || 0xfff0_0000_0000_0000 <= level.0 || 0xfff0_0000_0000_0000
            <= level.1,
    ensures
        !levels_finite(values),
{
    assert(!is_finite_level(values[i]));
}

/// Conversion keeps the update as it is, and gives it its bids as bids and its asks as asks.
pub proof fn converted_sides_stay_apart(update: DepthUpdateWs, converted: DepthUpdateWs)
    requires
        is_preconverted(update, converted),
    ensures
        converted.b_floats matches Some(bids) && (update.bid_values@.len() == 0 ==> bids@.len() == 0)
            && (update.bid_values@.len() == 1 ==> (update.bid_values@[0] matches Some(bid)
            ==> bids@ == seq![bid])),
        converted.a_floats matches Some(asks) && (update.ask_values@.len() == 0 ==> asks@.len() == 0)
            && (update.ask_values@.len() == 1 ==> (update.ask_values@[0] matches Some(ask)
            ==> asks@ == seq![ask])),
        converted.b_floats->0@ == readable(update.bid_values@),
        converted.a_floats->0@ == readable(update.ask_values@),
        converted.symbol == update.symbol,
        converted.event_time == update.event_time,
        converted.first_update_id == update.first_update_id,
        converted.final_update_id == update.final_update_id,
        converted.prev_update_id == update.prev_update_id,
        converted.bids == update.bids,
        converted.asks == update.asks,
        converted.bid_values == update.bid_values,
        converted.ask_values == update.ask_values,
{
    readable_levels_are_kept(seq![], update.bid_values@);
    readable_levels_are_kept(seq![], update.ask_values@);
}

/// A socket answers pings, processes what it is sent, ends on a close, fails where it was
/// silent for more than 30 seconds, and counts all that it receives but its end.
pub proof fn sockets_live_while_they_are_heard(event: SocketEvent)
    ensures
        step_on(SocketEvent::Ping) == SocketStep::ReplyPong && counts(SocketEvent::Ping),
        step_on(SocketEvent::Pong) == SocketStep::NotePong && counts(SocketEvent::Pong),
        step_on(SocketEvent::Text) == SocketStep::Process && counts(SocketEvent::Text),
        step_on(SocketEvent::Binary) == SocketStep::Process && counts(SocketEvent::Binary),
        step_on(SocketEvent::Other) == SocketStep::Nothing && counts(SocketEvent::Other),
        step_on(SocketEvent::PingDue) == SocketStep::SendPing && !counts(SocketEvent::PingDue),
        step_on(SocketEvent::Close) == SocketStep::EndClean && !counts(SocketEvent::Close),
        step_on(SocketEvent::Ended) == SocketStep::EndClean && !counts(SocketEvent::Ended),
        step_on(SocketEvent::Failed) == SocketStep::EndFailed(SocketFailure::Socket) && !counts(
            SocketEvent::Failed,
        ),
        step_on(SocketEvent::CloseRequested) == SocketStep::EndFailed(SocketFailure::PongTimeout)
            && !counts(SocketEvent::CloseRequested),
        event matches SocketEvent::Tick { idle } ==> {
            &&& !counts(event)
            &&& idle <= 30_000_000_000 ==> step_on(event) == SocketStep::Nothing
            &&& idle > 30_000_000_000 ==> step_on(event) == SocketStep::EndFailed(
                SocketFailure::Idle,
            )
        },
{
}

/// What a failure is reported as.
pub proof fn failures_are_reported(detail: Seq<char>)
    ensures
        failure_text(SocketFailure::PongTimeout, detail) == "WebSocket error: "@
            + "Pong timeout"@,
        failure_text(SocketFailure::Idle, detail) == "WebSocket error: "@
            + "No message received in 30s"@,
        failure_text(SocketFailure::Socket, detail) == "WebSocket error: "@ + detail,
{
}

/// Updates older than the configured seconds leave from the front, up to the first that is
/// not, and the newest always stays.
pub proof fn old_updates_leave_the_buffer(
    old_ones: Seq<DepthUpdateWs>,
    kept: Seq<DepthUpdateWs>,
    seconds: u64,
    now_ms: i64,
)
    requires
        forall|i: int|
            0 <= i < old_ones.len() ==> now_ms - (#[trigger] old_ones[i]).event_time > seconds * 1000,
        kept.len() > 0,
        kept.len() > 1 ==> now_ms - kept[0].event_time <= seconds * 1000,
    ensures
        within_age(old_ones + kept, seconds, now_ms) == kept,
    decreases old_ones.len(),
{
    if old_ones.len() == 0 {
        assert(old_ones + kept =~= kept);
    } else {
        let fewer = old_ones.drop_first();
        assert(now_ms - old_ones[0].event_time > seconds * 1000);
        assert forall|i: int| 0 <= i < fewer.len() implies now_ms - (
        #[trigger] fewer[i]).event_time > seconds * 1000 by {
            assert(fewer[i] == old_ones[i + 1]);
        }
        old_updates_leave_the_buffer(fewer, kept, seconds, now_ms);
        assert((old_ones + kept)[0] == old_ones[0]);
        assert((old_ones + kept).drop_first() =~= fewer + kept);
    }
}

/// The newest updates stay where there are more than the buffer takes.
pub proof fn the_newest_updates_stay(buffer: Seq<DepthUpdateWs>, capacity: nat, i: int)
    ensures
        buffer.len() <= capacity ==> within_capacity(buffer, capacity) == buffer,
        buffer.len() > capacity ==> within_capacity(buffer, capacity).len() == capacity,
        buffer.len() > capacity && 0 <= i < capacity ==> within_capacity(buffer, capacity)[i]
            == buffer[buffer.len() - capacity + i],
{
}

/// An update is counted for its symbol, in lower case, and kept where the symbol has a
/// buffer; other symbols are left as they are.
pub proof fn updates_are_kept_by_symbol(
    view: ConnectionsView,
    update: DepthUpdateWs,
    now_ms: i64,
    other: Seq<char>,
)
    requires
        other != text::lowercase(update.symbol@),
    ensures
        ({
            let symbol = text::lowercase(update.symbol@);
            let after = view.with_update(update, now_ms);
            &&& view.count(symbol) < u64::MAX ==> after.count(symbol) == view.count(symbol) + 1
            &&& after.count(other) == view.count(other)
            &&& after.buffer(other) == view.buffer(other)
            &&& after.buffers.contains_key(symbol) <==> view.buffers.contains_key(symbol)
            &&& view.buffers.contains_key(symbol) && view.settings.capacity > 0 ==> after.buffer(
                symbol,
            ).len() > 0 && after.buffer(symbol).last() == update
            &&& !view.buffers.contains_key(symbol) ==> after.buffers == view.buffers
            &&& after.connections == view.connections
            &&& after.attempts == view.attempts
            &&& after.closing == view.closing
            &&& after.settings == view.settings
            &&& after.shutdown == view.shutdown
        }),
{
    let symbol = text::lowercase(update.symbol@);
    buffer_is_a_bounded_tail(
        view.buffer(symbol),
        update,
        view.settings.capacity as nat,
        view.settings.seconds,
        now_ms,
    );
}

/// A connection is silent once more time than the allowed number of pings has passed since
/// it was last heard, and not before.
pub proof fn silence_is_noticed(view: ConnectionsView, now: u64, cid: usize)
    requires
        view.connections.contains_key(cid),
    ensures
        ({
            let pings = view.settings.heartbeat_miss_reconnect;
            let allowed = view.settings.ping_interval_seconds * 1_000_000_000 * pings;
            &&& view.connections[cid].last_pong + allowed < now ==> view.silent(now, cid)
            &&& view.connections[cid].last_pong + allowed >= now ==> !view.silent(now, cid)
            &&& forall|unknown: usize|
                !view.connections.contains_key(unknown) ==> !#[trigger] view.silent(now, unknown)
        }),
{
    let pings = view.settings.heartbeat_miss_reconnect;
    let allowed = view.settings.ping_interval_seconds * 1_000_000_000 * pings;
    assert(allowed >= 0) by (nonlinear_arith)
        requires
            allowed == view.settings.ping_interval_seconds * 1_000_000_000 * pings,
    ;
}

/// Failures are counted up, and counted anew after a connection of a minute or more.
pub proof fn failures_are_counted_anew_after_a_minute(view: ConnectionsView, cid: usize, ran: u64)
    ensures
        ran >= 60_000_000_000 ==> view.attempts_after(cid, ran) == 1,
        ran < 60_000_000_000 && !view.attempts.contains_key(cid) ==> view.attempts_after(cid, ran)
            == 1,
        ran < 60_000_000_000 && view.attempts.contains_key(cid) && view.attempts[cid] < u32::MAX
            ==> view.attempts_after(cid, ran) == view.attempts[cid] + 1,
{
}

/// The attempts of all connections add up.
pub proof fn attempts_add_up(
    view: ConnectionsView,
    first: Seq<(usize, ConnectionState)>,
    rest: Seq<(usize, ConnectionState)>,
)
    ensures
        view.attempts_in(first + rest) == view.attempts_in(first) + view.attempts_in(rest),
        rest.len() == 0 ==> view.attempts_in(rest) == 0,
        rest.len() == 1 && view.attempts.contains_key(rest[0].0) ==> view.attempts_in(rest)
            == view.attempts[rest[0].0],
        rest.len() == 1 && !view.attempts.contains_key(rest[0].0) ==> view.attempts_in(rest) == 0,
    decreases rest.len(),
{
    if rest.len() == 0 {
        assert(first + rest =~= first);
    } else {
        attempts_add_up(view, first, rest.drop_last());
        assert((first + rest).drop_last() =~= first + rest.drop_last());
        if rest.len() == 1 {
            assert(rest.drop_last() =~= seq![]);
        }
    }
}

/// The statistics tell of every connection its own numbers, and of no other.
pub proof fn statistics_tell_of_the_connections(view: ConnectionsView, now: u64, cid: usize)
    ensures
        view.statistics(now).contains_key(cid) <==> view.connections.contains_key(cid),
        view.connections.contains_key(cid) ==> {
            let state = view.connections[cid];
            let told = view.statistics(now)[cid];
            &&& told.batch_id == cid
            &&& told.is_connected == state.is_connected
            &&& told.symbols_count == state.symbols_count
            &&& told.message_count == state.message_count
            &&& now >= state.last_pong ==> told.last_pong_ago == now - state.last_pong
            &&& now < state.last_pong ==> told.last_pong_ago == 0
            &&& view.attempts.contains_key(cid) ==> told.reconnect_attempts == view.attempts[cid]
            &&& !view.attempts.contains_key(cid) ==> told.reconnect_attempts == 0
        },
{
}

impl ConnectionsView {
    /// The connections once everything is to close.
    pub open spec fn shut(self) -> ConnectionsView {
        ConnectionsView {
            shutdown: true,
            closing: self.closing.map_values(|flag: bool| true),
            ..self
        }
    }

    /// The connections once one of them is being opened.
    pub open spec fn opening(self, cid: usize) -> ConnectionsView {
        ConnectionsView { closing: self.closing.insert(cid, false), ..self }
    }

    /// The connections once one of them is open.
    pub open spec fn opened(self, cid: usize, symbols_count: usize, now: u64) -> ConnectionsView {
        ConnectionsView {
            connections: self.connections.insert(
                cid,
                ConnectionState { symbols_count, is_connected: true, last_pong: now, message_count: 0 },
            ),
            ..self
        }
    }

    /// The connections once the other side of one has shown that it is alive.
    pub open spec fn heard(self, cid: usize, now: u64) -> ConnectionsView {
        if self.connections.contains_key(cid) {
            ConnectionsView {
                connections: self.connections.insert(
                    cid,
                    ConnectionState { last_pong: now, ..self.connections[cid] },
                ),
                ..self
            }
        } else {
            self
        }
    }

    /// The connections once one of them has received a message.
    pub open spec fn told(self, cid: usize) -> ConnectionsView {
        if self.connections.contains_key(cid) {
            let state = self.connections[cid];
            ConnectionsView {
                connections: self.connections.insert(
                    cid,
                    ConnectionState {
                        message_count: if state.message_count == u64::MAX {
                            u64::MAX
                        } else {
                            (state.message_count + 1) as u64
                        },
                        ..state
                    },
                ),
                ..self
            }
        } else {
            self
        }
    }

    /// The connections once one of them is gone.
    pub open spec fn gone(self, cid: usize) -> ConnectionsView {
        ConnectionsView {
            connections: self.connections.remove(cid),
            closing: self.closing.remove(cid),
            ..self
        }
    }

    /// What becomes of a connection that has ended, and the connections then.
    pub open spec fn ended(self, cid: usize, failed: bool, ran: u64) -> (AfterRun, ConnectionsView) {
        if self.shutdown {
            (AfterRun::Stop, self)
        } else if !failed {
            (
                AfterRun::Reopen { wait_ms: 500 },
                ConnectionsView { attempts: self.attempts.insert(cid, 0), ..self },
            )
        } else {
            let attempt = self.attempts_after(cid, ran);
            (
                AfterRun::Retry {
                    wait_ms: backoff(
                        attempt,
                        self.settings.reconnect_delay_ms as nat,
                        self.settings.max_reconnect_delay_ms as nat,
                    ) as u64,
                    attempt,
                    alert: attempt == self.settings.max_reconnect_attempts,
                },
                ConnectionsView { attempts: self.attempts.insert(cid, attempt), ..self },
            )
        }
    }

    /// The connections once the buffer of a symbol was emptied.
    pub open spec fn drained(self, symbol: Seq<char>) -> ConnectionsView {
        ConnectionsView {
            buffers: if self.buffers.contains_key(symbol) {
                self.buffers.insert(symbol, seq![])
            } else {
                self.buffers
            },
            ..self
        }
    }
}

/// A connection is known from its opening to its end. In between, each sign of life sets
/// the time and nothing else, and each message is counted and nothing else. Others are not
/// concerned.
pub proof fn connections_are_known_while_open(
    view: ConnectionsView,
    cid: usize,
    other: usize,
    symbols_count: usize,
    opened: u64,
    heard: u64,
)
    requires
        other != cid,
    ensures
        ({
            let open = view.opening(cid).opened(cid, symbols_count, opened);
            let alive = open.heard(cid, heard);
            let told = alive.told(cid).told(cid);
            let over = told.gone(cid);
            &&& open.connections.contains_key(cid) && open.connections[cid].is_connected
            &&& open.connections[cid].message_count == 0
            &&& open.connections[cid].last_pong == opened
            &&& open.closing.contains_key(cid) && !open.closing[cid]
            &&& alive.connections[cid].last_pong == heard
            &&& alive.connections[cid].message_count == 0
            &&& told.connections[cid].message_count == 2
            &&& told.connections[cid].last_pong == heard
            &&& told.connections[cid].symbols_count == symbols_count
            &&& told.connections[cid].is_connected
            &&& !over.connections.contains_key(cid) && !over.closing.contains_key(cid)
            &&& over.connections.contains_key(other) == view.connections.contains_key(other)
            &&& over.connections[other] == view.connections[other]
            &&& over.closing.contains_key(other) == view.closing.contains_key(other)
            &&& over.closing[other] == view.closing[other]
            &&& over.buffers == view.buffers && over.counts == view.counts && over.attempts
                == view.attempts
            &&& over.heard(cid, heard) == over && over.told(cid) == over
        }),
{
}

/// After a shutdown every connection has to close, and none is opened again.
pub proof fn shutdown_closes_everything(view: ConnectionsView, cid: usize, failed: bool, ran: u64)
    ensures
        view.shut().shutdown,
        view.shut().closing.contains_key(cid) == view.closing.contains_key(cid),
        view.closing.contains_key(cid) ==> view.shut().closing[cid],
        view.shut().ended(cid, failed, ran) == (AfterRun::Stop, view.shut()),
        view.shut().connections == view.connections,
{
}

/// A connection that ended cleanly is opened again after half a second, with no failure
/// counted. Failures in a row are counted up from one, with an alert exactly at the
/// configured number; other connections keep their counts.
pub proof fn failures_in_a_row_are_counted(
    view: ConnectionsView,
    cid: usize,
    other: usize,
    ran: u64,
    again: u64,
)
    requires
        !view.shutdown,
        other != cid,
        again < 60_000_000_000,
    ensures
        ({
            let (clean, calm) = view.ended(cid, false, ran);
            let (first, once) = calm.ended(cid, true, ran);
            let (second, twice) = once.ended(cid, true, again);
            &&& clean == (AfterRun::Reopen { wait_ms: 500 })
            &&& calm.attempts_of(cid) == 0
            &&& first matches AfterRun::Retry { attempt, alert, .. } && attempt == 1 && (alert
                <==> view.settings.max_reconnect_attempts == 1)
            &&& second matches AfterRun::Retry { attempt, alert, .. } && attempt == 2 && (alert
                <==> view.settings.max_reconnect_attempts == 2)
            &&& once.attempts_of(cid) == 1 && twice.attempts_of(cid) == 2
            &&& twice.attempts_of(other) == view.attempts_of(other)
            &&& twice.connections == view.connections
        }),
{
}

/// A buffer is empty once it was drained, and the others are as they were.
pub proof fn draining_empties_one_buffer(
    view: ConnectionsView,
    symbol: Seq<char>,
    other: Seq<char>,
)
    requires
        other != symbol,
    ensures
        view.drained(symbol).buffer(symbol).len() == 0,
        view.drained(symbol).buffers.contains_key(symbol) == view.buffers.contains_key(symbol),
        view.drained(symbol).buffer(other) == view.buffer(other),
        view.drained(symbol).counts == view.counts,
        view.drained(symbol).connections == view.connections,
{
}

/// The connections of a batch: each has the number and the streams of its route, and its
/// address names them all.
pub proof fn batches_connect_to_their_streams(
    public: Connection,
    market: Connection,
    symbols: Seq<Seq<char>>,
    batch_id: usize,
    settings: Settings,
)
    requires
        is_batch_connection(public, symbols, batch_id, Route::Public, settings),
        is_batch_connection(market, symbols, batch_id, Route::Market, settings),
    ensures
        public.id == 2 * batch_id && market.id == public.id + 1,
        public.route == Route::Public && market.route == Route::Market,
        public.streams_count == symbols.len(),
        market.streams_count == 2 * symbols.len() + (if batch_id == 0 {
            1int
        } else {
            0
        }),
        public.url@ == connection_url(
            settings.websocket_url,
            Route::Public,
            symbol_streams(symbols, Route::Public, settings.update_speed_ms),
        ),
        market.url@ == connection_url(
            settings.websocket_url,
            Route::Market,
            batch_streams(symbols, Route::Market, batch_id, settings.update_speed_ms),
        ),
{
    lemma_stream_count(symbols, Route::Public, settings.update_speed_ms);
    lemma_stream_count(symbols, Route::Market, settings.update_speed_ms);
}

proof fn lemma_stream_count(symbols: Seq<Seq<char>>, route: Route, update_speed_ms: u32)
    ensures
        route == Route::Public ==> symbol_streams(symbols, route, update_speed_ms).len()
            == symbols.len(),
        route == Route::Market ==> symbol_streams(symbols, route, update_speed_ms).len() == 2
            * symbols.len(),
    decreases symbols.len(),
{
    if symbols.len() > 0 {
        lemma_stream_count(symbols.drop_last(), route, update_speed_ms);
    }
}

/// Nothing is counted or kept of a symbol before its first update; from then on the count
/// is the number of its updates.
pub proof fn counts_start_at_zero(
    view: ConnectionsView,
    update: DepthUpdateWs,
    again: DepthUpdateWs,
    now_ms: i64,
)
    requires
        !view.counts.contains_key(text::lowercase(update.symbol@)),
        text::lowercase(again.symbol@) == text::lowercase(update.symbol@),
    ensures
        view.count(text::lowercase(update.symbol@)) == 0,
        view.with_update(update, now_ms).count(text::lowercase(update.symbol@)) == 1,
        view.with_update(update, now_ms).with_update(again, now_ms).count(
            text::lowercase(update.symbol@),
        ) == 2,
{
}

} // verus!
