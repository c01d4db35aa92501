//! REST requests: what is asked for, at what cost, through which proxy, and what
//! follows from the answer.

use crate::collectors::orderbook_manager::{nanos, seconds_to_nanos};
use crate::config::{ExchangeConfig, ProxyConfig, RestIntervalsConfig};
use crate::rest::limiter;
use crate::rest::limiter::{CircuitBreaker, RateLimiter};
use crate::rest::proxy_manager::{ProxyEndpoint, ProxyManager};
use crate::rest::proxy_usage_tracker;
use crate::rest::proxy_usage_tracker::{ProxyUsageRecord, ProxyUsageTracker};
use crate::text;
use crate::text::{contains, parse_unsigned, u64_text, url_parameter};
use vstd::prelude::*;

verus! {

/// Attempts at one request, at most.
pub const MAX_ATTEMPTS: u32 = 3;

/// Window of the weight budget: a minute.
pub const WEIGHT_WINDOW_NANOS: u64 = 60_000_000_000;

/// Window of the budget of data requests: five minutes.
pub const DATA_WINDOW_NANOS: u64 = 300_000_000_000;

/// How near to the budget the used weight may come before all requests pause.
pub const WEIGHT_MARGIN: u64 = 200;

/// The depth limit that a URL asks for, 50 where it names none.
pub open spec fn depth_limit(url: Seq<char>) -> nat {
    match text::parameter(url, "limit="@) {
        Some(value) => match text::unsigned_value(value, u32::MAX as nat) {
            Some(limit) => limit,
            None => 50,
        },
        None => 50,
    }
}

/// The weight of a request. That of a depth request grows with its limit; all others
/// weigh one.
pub open spec fn weight_of(url: Seq<char>) -> int {
    if text::contains_text(url, "/fapi/v1/depth"@) {
        if depth_limit(url) <= 50 {
            2
        } else if depth_limit(url) <= 100 {
            5
        } else if depth_limit(url) <= 500 {
            10
        } else {
            20
        }
    } else {
        1
    }
}

/// The weight of a request to `url`.
pub fn endpoint_weight(url: &str) -> (r: u32)
    ensures
        r == weight_of(url@),
{
    if contains(url, "/fapi/v1/depth") {
        let limit: u64 = match url_parameter(url, "limit=") {
            Some(value) => match parse_unsigned(value.as_str(), u32::MAX as u64) {
                Some(limit) => limit,
                None => 50,
            },
            None => 50,
        };
        if limit <= 50 {
            2
        } else if limit <= 100 {
            5
        } else if limit <= 500 {
            10
        } else {
            20
        }
    } else {
        1
    }
}

/// The number in a header: an unsigned decimal, white space around it left out.
pub fn header_number(value: &str) -> (r: Option<u64>)
    ensures
        match r {
            Some(n) => text::unsigned_value(text::trimmed(value@), u64::MAX as nat) == Some(
                n as nat,
            ),
            None => text::unsigned_value(text::trimmed(value@), u64::MAX as nat) is None,
        },
{
    let inner: String = text::trim(value);
    parse_unsigned(inner.as_str(), u64::MAX)
}

/// The kind of data that a URL asks for.
pub open spec fn endpoint_type_of(url: Seq<char>) -> Seq<char> {
    if text::contains_text(url, "premiumIndexKlines"@) {
        "premium_index_klines"@
    } else if text::contains_text(url, "premiumIndex"@) {
        "funding_rates"@
    } else if text::contains_text(url, "openInterest"@) {
        "open_interest"@
    } else if text::contains_text(url, "takerlongshortRatio"@) {
        "taker_buy_sell_ratio"@
    } else if text::contains_text(url, "globalLongShortAccountRatio"@) || text::contains_text(
        url,
        "topLongShortAccountRatio"@,
    ) || text::contains_text(url, "topLongShortPositionRatio"@) {
        "long_short_ratio"@
    } else if text::contains_text(url, "markPriceKlines"@) {
        "mark_price_klines"@
    } else if text::contains_text(url, "indexPriceKlines"@) {
        "index_price_klines"@
    } else if text::contains_text(url, "depth"@) {
        "orderbooks"@
    } else if text::contains_text(url, "exchangeInfo"@) {
        "exchange_info"@
    } else {
        "unknown"@
    }
}

/// The symbol that a URL asks for, `ALL` where it names none.
pub open spec fn symbol_of(url: Seq<char>) -> Seq<char> {
    match text::parameter(url, "symbol="@) {
        Some(value) => value,
        None => "ALL"@,
    }
}

/// A request that goes to the data endpoints, which have a budget of their own.
pub open spec fn is_data_request(url: Seq<char>) -> bool {
    text::contains_text(url, "/futures/data/"@)
}

/// A request to be made.
pub struct Request {
    pub url: String,
    pub weight: u32,
}

/// The exchange says that a limit was reached (429) or that the address is banned
/// (418).
#[derive(Clone, Copy, Debug, PartialEq, Eq, Structural)]
pub struct RateLimited {
    pub status: u16,
    /// Seconds after which to try again, where the answer says so.
    pub retry_after: Option<u64>,
    pub banned: bool,
}

impl RateLimited {
    /// What happened, in words.
    pub fn message(&self) -> (r: String)
        ensures
            r@ == "HTTP "@ + text::decimal(self.status as nat) + " rate limited (retry_after="@ + (
            match self.retry_after {
                Some(seconds) => "Some("@ + text::decimal(seconds as nat) + "s)"@,
                None => "None"@,
            }) + ", banned="@ + (if self.banned {
                "true)"@
            } else {
                "false)"@
            }),
    {
        let mut s: String = "HTTP ".to_owned();
        s.append(u64_text(self.status as u64).as_str());
        s.append(" rate limited (retry_after=");
        let mut after: String = String::new();
        match self.retry_after {
            Some(seconds) => {
                after.append("Some(");
                after.append(u64_text(seconds).as_str());
                after.append("s)");
                assert(after@ =~= "Some("@ + text::decimal(seconds as nat) + "s)"@);
            },
            None => {
                after.append("None");
                assert(after@ =~= "None"@);
            },
        }
        s.append(after.as_str());
        s.append(", banned=");
        if self.banned {
            s.append("true)");
        } else {
            s.append("false)");
        }
        s
    }
}

/// What to do with an answer.
#[derive(Clone, Copy, Debug, PartialEq, Eq, Structural)]
pub enum ResponseStep {
    /// The request succeeded: read the body.
    Read,
    /// A limit was reached; all requests pause.
    RateLimited(RateLimited),
    /// The request failed with this status.
    HttpError(u16),
}

/// The status says that the request succeeded.
pub open spec fn is_success(status: u16) -> bool {
    200 <= status < 300
}

/// The status says that the server failed.
pub open spec fn is_server_error(status: u16) -> bool {
    500 <= status < 600
}

/// What follows from a status.
pub open spec fn response_step(status: u16, retry_after: Option<u64>) -> ResponseStep {
    if is_success(status) {
        ResponseStep::Read
    } else if status == 429 || status == 418 {
        ResponseStep::RateLimited(RateLimited { status, retry_after, banned: status == 418 })
    } else {
        ResponseStep::HttpError(status)
    }
}

/// How long requests pause after an answer that says that a limit was reached: as long
/// as it says, or as long as a 64-bit number of nanoseconds can say, else two minutes
/// after a ban and five seconds otherwise.
pub open spec fn pause_nanos(retry_after: Option<u64>, banned: bool) -> u64 {
    match retry_after {
        Some(seconds) => nanos(seconds),
        None => if banned {
            120_000_000_000
        } else {
            5_000_000_000
        },
    }
}

/// Until when requests are blocked after an answer, when they were blocked until
/// `until`.
pub open spec fn blocked_after(
    until: u64,
    max_weight: u64,
    status: u16,
    used_weight: Option<u64>,
    retry_after: Option<u64>,
    now: u64,
) -> u64 {
    let warned = match used_weight {
        Some(used) => if used + WEIGHT_MARGIN >= max_weight {
            limiter::tripped(until, now, 2_000_000_000)
        } else {
            until
        },
        None => until,
    };
    match response_step(status, retry_after) {
        ResponseStep::RateLimited(limited) => limiter::tripped(
            warned,
            now,
            pause_nanos(retry_after, limited.banned),
        ),
        _ => warned,
    }
}

/// `record` tells of a request to `url` through the proxy `name`.
pub open spec fn is_record(
    record: ProxyUsageRecord,
    url: Seq<char>,
    name: Seq<char>,
    success: bool,
    latency_ms: u64,
    timestamp: Seq<char>,
) -> bool {
    &&& record.timestamp@ == timestamp
    &&& record.symbol@ == symbol_of(url)
    &&& record.endpoint_type@ == endpoint_type_of(url)
    &&& record.proxy_name@ == name
    &&& record.success == success
    &&& record.latency_ms == Some(latency_ms)
}

/// The usage history after a request, when proxies are tracked.
pub open spec fn is_tracked(
    before: ProxyUsageTracker,
    after: ProxyUsageTracker,
    url: Seq<char>,
    name: Seq<char>,
    success: bool,
    latency_ms: u64,
    timestamp: Seq<char>,
) -> bool {
    &&& after.enabled() == before.enabled()
    &&& !before.enabled() ==> after@ == before@
    &&& before.enabled() ==> exists|record: ProxyUsageRecord| #[trigger]
        is_record(record, url, name, success, latency_ms, timestamp) && after@
            == proxy_usage_tracker::recorded(before@, record)
}

/// What to do after an attempt failed.
#[derive(Clone, Copy, Debug, PartialEq, Eq, Structural)]
pub enum RetryStep {
    /// Try again after so many milliseconds.
    Retry { delay_ms: u64 },
    /// Report the failure.
    GiveUp,
}

/// After the attempt number `attempt`, counted from zero, failed. A banned address is
/// not retried, as that would only prolong the ban.
pub fn after_failure(attempt: u32, banned: bool) -> (r: RetryStep)
    ensures
        r == retry_step(attempt, banned),
        r == (if banned || attempt + 1 >= 3 {
            RetryStep::GiveUp
        } else {
            RetryStep::Retry { delay_ms: (100 * (attempt + 1) * (attempt + 1)) as u64 }
        }),
{
    if banned || attempt >= MAX_ATTEMPTS - 1 {
        RetryStep::GiveUp
    } else if attempt == 0 {
        RetryStep::Retry { delay_ms: 100 }
    } else {
        RetryStep::Retry { delay_ms: 400 }
    }
}

/// Makes requests within the budgets of the exchange.
pub struct RestClient {
    pub rest_api_url: String,
    pub rest_futures_data_url: String,
    pub breaker: CircuitBreaker,
    /// Weight per minute of the `/fapi/` endpoints.
    pub limiter: RateLimiter,
    /// Requests per five minutes of the `/futures/data/` endpoints.
    pub data_limiter: RateLimiter,
    pub proxy_manager: ProxyManager,
    pub proxy_tracker: ProxyUsageTracker,
}

/// The API key to send: none where it is absent or empty.
pub fn api_key(config: &ExchangeConfig) -> (r: Option<String>)
    ensures
        match config.api_key {
            Some(key) => if key@.len() > 0 {
                r is Some && r->0@ == key@
            } else {
                r is None
            },
            None => r is None,
        },
{
    match &config.api_key {
        Some(key) => if key.as_str().is_empty() {
            None
        } else {
            Some(key.clone())
        },
        None => None,
    }
}

impl RestClient {
    /// A client that has made no request yet.
    pub fn new(
        exchange: &ExchangeConfig,
        intervals: &RestIntervalsConfig,
        proxy: &ProxyConfig,
        proxy_manager: ProxyManager,
    ) -> (r: RestClient)
        ensures
            r.rest_api_url@ == exchange.rest_api_url@,
            r.rest_futures_data_url@ == exchange.rest_futures_data_url@,
            r.breaker@ == 0,
            r.limiter@.requests.len() == 0,
            r.limiter@.max_per_window == (if intervals.max_weight_per_min == 0 {
                1
            } else {
                intervals.max_weight_per_min
            }),
            r.limiter@.window_nanos == 60_000_000_000,
            r.data_limiter@.requests.len() == 0,
            r.data_limiter@.max_per_window == (if intervals.max_data_requests_per_5min == 0 {
                1
            } else {
                intervals.max_data_requests_per_5min
            }),
            r.data_limiter@.window_nanos == 300_000_000_000,
            r.proxy_manager == proxy_manager,
            r.proxy_tracker@.dom() == Set::<Seq<char>>::empty(),
            r.proxy_tracker.enabled() == proxy.tracking_enabled,
    {
        RestClient {
            rest_api_url: exchange.rest_api_url.clone(),
            rest_futures_data_url: exchange.rest_futures_data_url.clone(),
            breaker: CircuitBreaker::new(),
            limiter: RateLimiter::new(intervals.max_weight_per_min, WEIGHT_WINDOW_NANOS),
            data_limiter: RateLimiter::new(intervals.max_data_requests_per_5min, DATA_WINDOW_NANOS),
            proxy_manager,
            proxy_tracker: ProxyUsageTracker::new(proxy.tracking_enabled),
        }
    }

    /// All recorded requests through proxies.
    pub fn get_proxy_usage_stats(&self) -> (r: Vec<ProxyUsageRecord>)
        ensures
            exists|list: Seq<(Seq<char>, Seq<ProxyUsageRecord>)>| #[trigger]
                proxy_usage_tracker::lists_queues(self.proxy_tracker@, list) && r@
                    == proxy_usage_tracker::all_records(list),
    {
        self.proxy_tracker.get_usage_stats()
    }

    /// A request to an endpoint of the main API.
    pub fn get(&self, endpoint: &str) -> (r: Request)
        ensures
            r.url@ == self.rest_api_url@ + endpoint@,
            r.weight == weight_of(self.rest_api_url@ + endpoint@),
    {
        let mut url: String = self.rest_api_url.clone();
        url.append(endpoint);
        let weight: u32 = endpoint_weight(url.as_str());
        Request { url, weight }
    }

    /// A request to an endpoint of the futures data API.
    pub fn get_futures_data(&self, endpoint: &str) -> (r: Request)
        ensures
            r.url@ == self.rest_futures_data_url@ + endpoint@,
            r.weight == weight_of(self.rest_futures_data_url@ + endpoint@),
    {
        let mut url: String = self.rest_futures_data_url.clone();
        url.append(endpoint);
        let weight: u32 = endpoint_weight(url.as_str());
        Request { url, weight }
    }

    /// Asks to make a request at `now`. Returns zero when it may be made, and is
    /// counted against its budget; else how long to wait before asking again.
    pub fn acquire(&mut self, url: &str, weight: u32, now: u64) -> (r: u64)
        ensures
            final(self).rest_api_url == old(self).rest_api_url,
            final(self).rest_futures_data_url == old(self).rest_futures_data_url,
            final(self).breaker == old(self).breaker,
            final(self).proxy_manager == old(self).proxy_manager,
            final(self).proxy_tracker == old(self).proxy_tracker,
            ({
                let data = is_data_request(url@);
                let cost = if data {
                    1
                } else {
                    weight
                };
                let before = if data {
                    old(self).data_limiter@
                } else {
                    old(self).limiter@
                };
                let after = if data {
                    final(self).data_limiter@
                } else {
                    final(self).limiter@
                };
                let blocked = old(self).breaker@;
                &&& data ==> final(self).limiter == old(self).limiter
                &&& !data ==> final(self).data_limiter == old(self).data_limiter
                &&& after.max_per_window == before.max_per_window
                &&& after.window_nanos == before.window_nanos
                &&& blocked > now ==> r == blocked - now && after == before
                &&& blocked <= now && before.admits(cost, now) ==> r == 0 && after.requests
                    == before.counted(now).push((now, cost))
                &&& blocked <= now && !before.admits(cost, now) ==> r == before.wait(now)
                    && after.requests == before.counted(now)
                &&& before.within_budget() ==> after.within_budget()
            }),
    {
        if contains(url, "/futures/data/") {
            self.data_limiter.acquire(&self.breaker, 1, now)
        } else {
            self.limiter.acquire(&self.breaker, weight, now)
        }
    }

    /// Whether a request goes through a proxy: all but those for streams do, where
    /// proxies are in use.
    pub fn should_use_proxy(&self, url: &str) -> (r: bool)
        ensures
            r == goes_through_proxy(self.proxy_manager@, url@),
            r == (self.proxy_manager@.enabled && self.proxy_manager@.proxies.len() > 0
                && !text::contains_text(url@, "/ws"@) && !text::contains_text(url@, "/stream"@)),
    {
        self.proxy_manager.is_enabled() && !contains(url, "/ws") && !contains(url, "/stream")
    }

    /// The proxy through which to make a request, `None` for a direct one.
    pub fn choose_proxy(&mut self, url: &str, now: u64) -> (r: Option<ProxyEndpoint>)
        requires
            old(self).proxy_manager@.valid(),
        ensures
            r is Some <==> goes_through_proxy(old(self).proxy_manager@, url@),
            final(self).rest_api_url == old(self).rest_api_url,
            final(self).rest_futures_data_url == old(self).rest_futures_data_url,
            final(self).breaker == old(self).breaker,
            final(self).limiter == old(self).limiter,
            final(self).data_limiter == old(self).data_limiter,
            final(self).proxy_tracker == old(self).proxy_tracker,
            final(self).proxy_manager@.valid(),
            ({
                let before = old(self).proxy_manager@;
                let proxied = before.enabled && before.proxies.len() > 0 && !text::contains_text(
                    url@,
                    "/ws"@,
                ) && !text::contains_text(url@, "/stream"@);
                &&& r is Some <==> proxied
                &&& !proxied ==> final(self).proxy_manager == old(self).proxy_manager
                &&& proxied ==> r == Some(before.picked()) && final(self).proxy_manager@
                    == before.after_pick(now)
            }),
    {
        if self.should_use_proxy(url) {
            self.proxy_manager.get_next_proxy(now)
        } else {
            None
        }
    }

    /// The kind of data and the symbol that a URL asks for.
    pub fn parse_endpoint_info(url: &str) -> (r: (String, String))
        ensures
            r.0@ == endpoint_type_of(url@),
            r.1@ == symbol_of(url@),
    {
        let endpoint_type: &str = if contains(url, "premiumIndexKlines") {
            "premium_index_klines"
        } else if contains(url, "premiumIndex") {
            "funding_rates"
        } else if contains(url, "openInterest") {
            "open_interest"
        } else if contains(url, "takerlongshortRatio") {
            "taker_buy_sell_ratio"
        } else if contains(url, "globalLongShortAccountRatio") || contains(
            url,
            "topLongShortAccountRatio",
        ) || contains(url, "topLongShortPositionRatio") {
            "long_short_ratio"
        } else if contains(url, "markPriceKlines") {
            "mark_price_klines"
        } else if contains(url, "indexPriceKlines") {
            "index_price_klines"
        } else if contains(url, "depth") {
            "orderbooks"
        } else if contains(url, "exchangeInfo") {
            "exchange_info"
        } else {
            "unknown"
        };
        let symbol: String = match url_parameter(url, "symbol=") {
            Some(value) => value,
            None => "ALL".to_owned(),
        };
        (endpoint_type.to_owned(), symbol)
    }

    /// Records a request through a proxy.
    fn track(&mut self, url: &str, name: &str, success: bool, latency_ms: u64, timestamp: String)
        ensures
            final(self).rest_api_url == old(self).rest_api_url,
            final(self).rest_futures_data_url == old(self).rest_futures_data_url,
            final(self).breaker == old(self).breaker,
            final(self).limiter == old(self).limiter,
            final(self).data_limiter == old(self).data_limiter,
            final(self).proxy_manager == old(self).proxy_manager,
            is_tracked(
                old(self).proxy_tracker,
                final(self).proxy_tracker,
                url@,
                name@,
                success,
                latency_ms,
                timestamp@,
            ),
    {
        let (endpoint_type, symbol): (String, String) = Self::parse_endpoint_info(url);
        let record: ProxyUsageRecord = ProxyUsageRecord {
            timestamp,
            symbol,
            endpoint_type,
            proxy_name: name.to_owned(),
            success,
            latency_ms: Some(latency_ms),
        };
        assert(is_record(record, url@, name@, success, latency_ms, timestamp@));
        self.proxy_tracker.record_usage(record);
    }

    /// A request got no answer. The proxy it went through, if any, is the one to blame.
    pub fn send_failed(
        &mut self,
        url: &str,
        proxy_name: &Option<String>,
        reason: &str,
        latency_ms: u64,
        timestamp: String,
        now: u64,
    )
        requires
            old(self).proxy_manager@.valid(),
        ensures
            final(self).rest_api_url == old(self).rest_api_url,
            final(self).rest_futures_data_url == old(self).rest_futures_data_url,
            final(self).breaker == old(self).breaker,
            final(self).limiter == old(self).limiter,
            final(self).data_limiter == old(self).data_limiter,
            final(self).proxy_manager@.valid(),
            match proxy_name {
                Some(name) => {
                    &&& final(self).proxy_manager@ == old(self).proxy_manager@.after_failure(
                        name@,
                        reason@,
                        now,
                    )
                    &&& is_tracked(
                        old(self).proxy_tracker,
                        final(self).proxy_tracker,
                        url@,
                        name@,
                        false,
                        latency_ms,
                        timestamp@,
                    )
                },
                None => *final(self) == *old(self),
            },
    {
        match proxy_name {
            Some(name) => {
                self.proxy_manager.report_failure(name.as_str(), reason, now);
                self.track(url, name.as_str(), false, latency_ms, timestamp);
            },
            None => {},
        }
    }

    /// A request was answered. All requests pause when the weight used in this minute
    /// comes near the budget, or when the answer says that a limit was reached. Only a
    /// failure of the server counts against the proxy; a client error is not its fault.
    pub fn response_received(
        &mut self,
        url: &str,
        proxy_name: &Option<String>,
        status: u16,
        used_weight: Option<u64>,
        retry_after: Option<u64>,
        reason: &str,
        latency_ms: u64,
        timestamp: String,
        now: u64,
    ) -> (r: ResponseStep)
        requires
            old(self).proxy_manager@.valid(),
        ensures
            r == response_step(status, retry_after),
            final(self).rest_api_url == old(self).rest_api_url,
            final(self).rest_futures_data_url == old(self).rest_futures_data_url,
            final(self).limiter == old(self).limiter,
            final(self).data_limiter == old(self).data_limiter,
            final(self).breaker@ == blocked_after(
                old(self).breaker@,
                old(self).limiter@.max_per_window,
                status,
                used_weight,
                retry_after,
                now,
            ),
            final(self).proxy_manager@.valid(),
            match proxy_name {
                Some(name) => {
                    &&& final(self).proxy_manager@ == (if is_server_error(status) {
                        old(self).proxy_manager@.after_failure(name@, reason@, now)
                    } else {
                        old(self).proxy_manager@.after_success(name@, now)
                    })
                    &&& is_tracked(
                        old(self).proxy_tracker,
                        final(self).proxy_tracker,
                        url@,
                        name@,
                        is_success(status),
                        latency_ms,
                        timestamp@,
                    )
                },
                None => final(self).proxy_manager == old(self).proxy_manager
                    && final(self).proxy_tracker == old(self).proxy_tracker,
            },
    {
        match used_weight {
            Some(used) => {
                if used >= self.limiter.max_per_window().saturating_sub(WEIGHT_MARGIN) {
                    self.breaker.trip(now, 2_000_000_000);
                }
            },
            None => {},
        }
        let success: bool = 200 <= status && status < 300;
        match proxy_name {
            Some(name) => {
                if 500 <= status && status < 600 {
                    self.proxy_manager.report_failure(name.as_str(), reason, now);
                } else {
                    self.proxy_manager.report_success(name.as_str(), now);
                }
                self.track(url, name.as_str(), success, latency_ms, timestamp);
            },
            None => {},
        }
        if success {
            ResponseStep::Read
        } else if status == 429 || status == 418 {
            let banned: bool = status == 418;
            let pause: u64 = match retry_after {
                Some(seconds) => seconds_to_nanos(seconds),
                None => if banned {
                    120_000_000_000
                } else {
                    5_000_000_000
                },
            };
            self.breaker.trip(now, pause);
            ResponseStep::RateLimited(RateLimited { status, retry_after, banned })
        } else {
            ResponseStep::HttpError(status)
        }
    }

    /// The list of all symbols.
    pub fn get_exchange_info(&self) -> (r: Request)
        ensures
            r.url@ == self.rest_api_url@ + "/fapi/v1/exchangeInfo"@,
            r.weight == weight_of(r.url@),
    {
        self.get("/fapi/v1/exchangeInfo")
    }

    /// An order book snapshot.
    pub fn get_depth_snapshot(&self, symbol: &str, limit: u32) -> (r: Request)
        ensures
            r.url@ == self.rest_api_url@ + ("/fapi/v1/depth?symbol="@ + symbol@ + "&limit="@
                + text::decimal(limit as nat)),
            r.weight == weight_of(r.url@),
    {
        let mut endpoint: String = "/fapi/v1/depth?symbol=".to_owned();
        endpoint.append(symbol);
        endpoint.append("&limit=");
        endpoint.append(u64_text(limit as u64).as_str());
        self.get(endpoint.as_str())
    }

    /// Funding rates, of one symbol or of all.
    pub fn get_premium_index(&self, symbol: Option<&str>) -> (r: Request)
        ensures
            r.url@ == self.rest_api_url@ + (match symbol {
                Some(s) => "/fapi/v1/premiumIndex?symbol="@ + s@,
                None => "/fapi/v1/premiumIndex"@,
            }),
            r.weight == weight_of(r.url@),
    {
        match symbol {
            Some(s) => {
                let mut endpoint: String = "/fapi/v1/premiumIndex?symbol=".to_owned();
                endpoint.append(s);
                self.get(endpoint.as_str())
            },
            None => self.get("/fapi/v1/premiumIndex"),
        }
    }

    /// The open interest of a symbol.
    pub fn get_open_interest(&self, symbol: &str) -> (r: Request)
        ensures
            r.url@ == self.rest_api_url@ + ("/fapi/v1/openInterest?symbol="@ + symbol@),
            r.weight == weight_of(r.url@),
    {
        let mut endpoint: String = "/fapi/v1/openInterest?symbol=".to_owned();
        endpoint.append(symbol);
        self.get(endpoint.as_str())
    }

    /// The long/short ratio of all accounts: `limit` buckets of `period`.
    pub fn get_global_long_short_ratio(&self, symbol: &str, period: &str, limit: u32) -> (r: Request)
        ensures
            r.url@ == self.rest_futures_data_url@ + period_endpoint(
                "/futures/data/globalLongShortAccountRatio?symbol="@,
                symbol@,
                "&period="@,
                period@,
                limit,
            ),
            r.weight == weight_of(r.url@),
    {
        let endpoint: String = build_endpoint(
            "/futures/data/globalLongShortAccountRatio?symbol=",
            symbol,
            "&period=",
            period,
            limit,
        );
        self.get_futures_data(endpoint.as_str())
    }

    /// The long/short ratio of top traders by accounts.
    pub fn get_top_trader_account_ratio(&self, symbol: &str, period: &str, limit: u32) -> (r:
        Request)
        ensures
            r.url@ == self.rest_futures_data_url@ + period_endpoint(
                "/futures/data/topLongShortAccountRatio?symbol="@,
                symbol@,
                "&period="@,
                period@,
                limit,
            ),
            r.weight == weight_of(r.url@),
    {
        let endpoint: String = build_endpoint(
            "/futures/data/topLongShortAccountRatio?symbol=",
            symbol,
            "&period=",
            period,
            limit,
        );
        self.get_futures_data(endpoint.as_str())
    }

    /// The long/short ratio of top traders by positions.
    pub fn get_top_trader_position_ratio(&self, symbol: &str, period: &str, limit: u32) -> (r:
        Request)
        ensures
            r.url@ == self.rest_futures_data_url@ + period_endpoint(
                "/futures/data/topLongShortPositionRatio?symbol="@,
                symbol@,
                "&period="@,
                period@,
                limit,
            ),
            r.weight == weight_of(r.url@),
    {
        let endpoint: String = build_endpoint(
            "/futures/data/topLongShortPositionRatio?symbol=",
            symbol,
            "&period=",
            period,
            limit,
        );
        self.get_futures_data(endpoint.as_str())
    }

    /// Klines of the mark price.
    pub fn get_mark_price_klines(&self, symbol: &str, interval: &str, limit: u32) -> (r: Request)
        ensures
            r.url@ == self.rest_api_url@ + period_endpoint(
                "/fapi/v1/markPriceKlines?symbol="@,
                symbol@,
                "&interval="@,
                interval@,
                limit,
            ),
            r.weight == weight_of(r.url@),
    {
        let endpoint: String = build_endpoint(
            "/fapi/v1/markPriceKlines?symbol=",
            symbol,
            "&interval=",
            interval,
            limit,
        );
        self.get(endpoint.as_str())
    }

    /// Klines of the index price, which are asked for by pair.
    pub fn get_index_price_klines(&self, symbol: &str, interval: &str, limit: u32) -> (r: Request)
        ensures
            r.url@ == self.rest_api_url@ + period_endpoint(
                "/fapi/v1/indexPriceKlines?pair="@,
                symbol@,
                "&interval="@,
                interval@,
                limit,
            ),
            r.weight == weight_of(r.url@),
    {
        let endpoint: String = build_endpoint(
            "/fapi/v1/indexPriceKlines?pair=",
            symbol,
            "&interval=",
            interval,
            limit,
        );
        self.get(endpoint.as_str())
    }

    /// Volumes bought and sold by takers: `limit` buckets of `period`.
    pub fn get_taker_buy_sell_ratio(&self, symbol: &str, period: &str, limit: u32) -> (r: Request)
        ensures
            r.url@ == self.rest_futures_data_url@ + period_endpoint(
                "/futures/data/takerlongshortRatio?symbol="@,
                symbol@,
                "&period="@,
                period@,
                limit,
            ),
            r.weight == weight_of(r.url@),
    {
        let endpoint: String = build_endpoint(
            "/futures/data/takerlongshortRatio?symbol=",
            symbol,
            "&period=",
            period,
            limit,
        );
        self.get_futures_data(endpoint.as_str())
    }

    /// Klines of the premium index.
    pub fn get_premium_index_klines(&self, symbol: &str, interval: &str, limit: u32) -> (r: Request)
        ensures
            r.url@ == self.rest_api_url@ + period_endpoint(
                "/fapi/v1/premiumIndexKlines?symbol="@,
                symbol@,
                "&interval="@,
                interval@,
                limit,
            ),
            r.weight == weight_of(r.url@),
    {
        let endpoint: String = build_endpoint(
            "/fapi/v1/premiumIndexKlines?symbol=",
            symbol,
            "&interval=",
            interval,
            limit,
        );
        self.get(endpoint.as_str())
    }
}

/// An endpoint with a symbol, a period and a limit.
pub open spec fn period_endpoint(
    path: Seq<char>,
    symbol: Seq<char>,
    period_key: Seq<char>,
    period: Seq<char>,
    limit: u32,
) -> Seq<char> {
    path + symbol + period_key + period + "&limit="@ + text::decimal(limit as nat)
}

fn build_endpoint(path: &str, symbol: &str, period_key: &str, period: &str, limit: u32) -> (r: String)
    ensures
        r@ == period_endpoint(path@, symbol@, period_key@, period@, limit),
{
    let mut endpoint: String = path.to_owned();
    endpoint.append(symbol);
    endpoint.append(period_key);
    endpoint.append(period);
    endpoint.append("&limit=");
    endpoint.append(u64_text(limit as u64).as_str());
    endpoint
}

/// A ban or a reached limit pauses requests of both kinds for as long as the answer says:
/// neither budget lets anything through before the pause is over, or, where its end is
/// beyond what the clock can show, for as long as the clock runs.
pub proof fn pause_is_shared(
    until: u64,
    max_weight: u64,
    status: u16,
    used_weight: Option<u64>,
    retry_after: Option<u64>,
    now: u64,
)
    requires
        status == 429 || status == 418,
    ensures
        ({
            let blocked = blocked_after(until, max_weight, status, used_weight, retry_after, now);
            let pause: int = match retry_after {
                Some(seconds) => seconds * 1_000_000_000,
                None => if status == 418 {
                    120_000_000_000
                } else {
                    5_000_000_000
                },
            };
            &&& blocked >= now + pause || blocked == u64::MAX
            &&& blocked >= until
        }),
{
}

/// A request for depth weighs two up to 50 levels, five up to 100, ten up to 500 and
/// twenty beyond; without a readable limit it is one for 50. All other requests weigh one.
pub proof fn deeper_requests_weigh_more(url: Seq<char>, value: Seq<char>, n: nat)
    ensures
        !text::contains_text(url, "/fapi/v1/depth"@) ==> weight_of(url) == 1,
        text::contains_text(url, "/fapi/v1/depth"@) ==> {
            &&& !text::contains_text(url, "limit="@) ==> weight_of(url) == 2
            &&& text::parameter(url, "limit="@) == Some(value) ==> {
                &&& text::unsigned_value(value, u32::MAX as nat) is None ==> weight_of(url) == 2
                &&& text::unsigned_value(value, u32::MAX as nat) == Some(n) ==> {
                    &&& n <= 50 ==> weight_of(url) == 2
                    &&& 51 <= n <= 100 ==> weight_of(url) == 5
                    &&& 101 <= n <= 500 ==> weight_of(url) == 10
                    &&& 501 <= n ==> weight_of(url) == 20
                }
            }
        },
{
    text::missing_parameters_are_not_read(url, "limit="@);
}

/// The symbol that a request is recorded under is the one that it asks for, and `ALL` where
/// it asks for none.
pub proof fn requests_are_recorded_by_symbol(
    before: Seq<char>,
    symbol: Seq<char>,
    after: Seq<char>,
    url: Seq<char>,
)
    requires
        forall|i: int|
            0 <= i < before.len() ==> !(#[trigger] text::occurs_at(
                before + "symbol="@ + (symbol + after),
                "symbol="@,
                i,
            )),
        forall|i: int|
            0 <= i < symbol.len() ==> !(#[trigger] text::occurs_at(symbol + after, "symbol="@, i)),
        !symbol.contains('&'),
        after.len() == 0 || after[0] == '&',
        !text::contains_text(url, "symbol="@),
    ensures
        symbol_of(before + "symbol="@ + (symbol + after)) == symbol,
        symbol_of(url) == "ALL"@,
{
    reveal_strlit("symbol=");
    text::parameters_are_read(before, "symbol="@, symbol, after);
    text::missing_parameters_are_not_read(url, "symbol="@);
}

/// The words by which addresses tell what they are asked for.
pub open spec fn is_endpoint_word(word: Seq<char>) -> bool {
    ||| word == "premiumIndexKlines"@
    ||| word == "premiumIndex"@
    ||| word == "openInterest"@
    ||| word == "takerlongshortRatio"@
    ||| word == "globalLongShortAccountRatio"@
    ||| word == "topLongShortAccountRatio"@
    ||| word == "topLongShortPositionRatio"@
    ||| word == "markPriceKlines"@
    ||| word == "indexPriceKlines"@
    ||| word == "depth"@
    ||| word == "exchangeInfo"@
}

/// An address that holds this one of the words, and no other.
pub open spec fn is_about(url: Seq<char>, word: Seq<char>) -> bool {
    &&& text::contains_text(url, word)
    &&& forall|other: Seq<char>|
        other != word && is_endpoint_word(other) ==> !#[trigger] text::contains_text(url, other)
}

/// Requests are recorded by what they ask for.
#[verifier::spinoff_prover]
pub proof fn requests_are_recorded_by_kind(url: Seq<char>)
    ensures
        text::contains_text(url, "premiumIndexKlines"@) ==> endpoint_type_of(url)
            == "premium_index_klines"@,
        is_about(url, "premiumIndex"@) ==> endpoint_type_of(url) == "funding_rates"@,
        is_about(url, "openInterest"@) ==> endpoint_type_of(url) == "open_interest"@,
        is_about(url, "takerlongshortRatio"@) ==> endpoint_type_of(url) == "taker_buy_sell_ratio"@,
        is_about(url, "globalLongShortAccountRatio"@) ==> endpoint_type_of(url) == "long_short_ratio"@,
        is_about(url, "topLongShortAccountRatio"@) ==> endpoint_type_of(url) == "long_short_ratio"@,
        is_about(url, "topLongShortPositionRatio"@) ==> endpoint_type_of(url) == "long_short_ratio"@,
        is_about(url, "markPriceKlines"@) ==> endpoint_type_of(url) == "mark_price_klines"@,
        is_about(url, "indexPriceKlines"@) ==> endpoint_type_of(url) == "index_price_klines"@,
        is_about(url, "depth"@) ==> endpoint_type_of(url) == "orderbooks"@,
        is_about(url, "exchangeInfo"@) ==> endpoint_type_of(url) == "exchange_info"@,
        (forall|word: Seq<char>|
            is_endpoint_word(word) ==> !#[trigger] text::contains_text(url, word))
            ==> endpoint_type_of(url) == "unknown"@,
{
    reveal_strlit("premiumIndexKlines");
    reveal_strlit("premiumIndex");
    reveal_strlit("openInterest");
    reveal_strlit("takerlongshortRatio");
    reveal_strlit("globalLongShortAccountRatio");
    reveal_strlit("topLongShortAccountRatio");
    reveal_strlit("topLongShortPositionRatio");
    reveal_strlit("markPriceKlines");
    reveal_strlit("indexPriceKlines");
    reveal_strlit("depth");
    reveal_strlit("exchangeInfo");
    assert("premiumIndexKlines"@.len() == 18 && "premiumIndexKlines"@[0] == 'p' && "premiumIndexKlines"@[3] == 'm');
    assert("premiumIndex"@.len() == 12 && "premiumIndex"@[0] == 'p' && "premiumIndex"@[3] == 'm');
    assert("openInterest"@.len() == 12 && "openInterest"@[0] == 'o' && "openInterest"@[3] == 'n');
    assert("takerlongshortRatio"@.len() == 19 && "takerlongshortRatio"@[0] == 't' && "takerlongshortRatio"@[3] == 'e');
    assert("globalLongShortAccountRatio"@.len() == 27 && "globalLongShortAccountRatio"@[0] == 'g' && "globalLongShortAccountRatio"@[3] == 'b');
    assert("topLongShortAccountRatio"@.len() == 24 && "topLongShortAccountRatio"@[0] == 't' && "topLongShortAccountRatio"@[3] == 'L');
    assert("topLongShortPositionRatio"@.len() == 25 && "topLongShortPositionRatio"@[0] == 't' && "topLongShortPositionRatio"@[3] == 'L');
    assert("markPriceKlines"@.len() == 15 && "markPriceKlines"@[0] == 'm' && "markPriceKlines"@[3] == 'k');
    assert("indexPriceKlines"@.len() == 16 && "indexPriceKlines"@[0] == 'i' && "indexPriceKlines"@[3] == 'e');
    assert("depth"@.len() == 5 && "depth"@[0] == 'd' && "depth"@[3] == 't');
    assert("exchangeInfo"@.len() == 12 && "exchangeInfo"@[0] == 'e' && "exchangeInfo"@[3] == 'h');
}

/// Answers from 200 to 299 are read. 429 and 418 pause all requests, 418 as a ban. All
/// others are errors of their status.
pub proof fn answers_are_told_apart(status: u16, retry_after: Option<u64>)
    ensures
        200 <= status <= 299 ==> response_step(status, retry_after) == ResponseStep::Read,
        status == 429 || status == 418 ==> (response_step(
            status,
            retry_after,
        ) matches ResponseStep::RateLimited(limited) && limited.status == status
            && limited.retry_after == retry_after && (limited.banned <==> status == 418)),
        !(200 <= status <= 299) && status != 429 && status != 418 ==> response_step(
            status,
            retry_after,
        ) == ResponseStep::HttpError(status),
        is_success(status) <==> 200 <= status <= 299,
        is_server_error(status) <==> 500 <= status <= 599,
{
}

/// Requests pause only where the answer asks for it, or where the used weight comes within
/// 200 of the budget, which pauses for two seconds. No pause is longer than asked for, and
/// none cuts an earlier one short.
pub proof fn pauses_are_as_long_as_asked(
    until: u64,
    max_weight: u64,
    status: u16,
    used_weight: Option<u64>,
    retry_after: Option<u64>,
    now: u64,
)
    ensures
        ({
            let blocked = blocked_after(until, max_weight, status, used_weight, retry_after, now);
            let limited = status == 429 || status == 418;
            let warned = used_weight matches Some(used) && used + 200 >= max_weight;
            let pause: int = match retry_after {
                Some(seconds) => seconds * 1_000_000_000,
                None => if status == 418 {
                    120_000_000_000
                } else {
                    5_000_000_000
                },
            };
            &&& blocked >= until
            &&& !limited && !warned ==> blocked == until
            &&& warned && now + 2_000_000_000 <= u64::MAX ==> blocked >= now + 2_000_000_000
            &&& limited && now + pause <= u64::MAX ==> blocked >= now + pause
            &&& blocked > until && !limited ==> blocked <= now + 2_000_000_000
            &&& blocked > until && limited && !warned ==> blocked <= now + pause
            &&& blocked > until && limited && warned ==> blocked <= now + pause || blocked <= now
                + 2_000_000_000
        }),
{
}

/// A record of a request tells when and over which proxy it went, for which symbol and
/// kind, how long it took and whether it succeeded.
pub proof fn records_tell_the_request(
    record: ProxyUsageRecord,
    url: Seq<char>,
    name: Seq<char>,
    success: bool,
    latency_ms: u64,
    timestamp: Seq<char>,
)
    requires
        is_record(record, url, name, success, latency_ms, timestamp),
    ensures
        record.timestamp@ == timestamp,
        record.proxy_name@ == name,
        record.success == success,
        record.latency_ms == Some(latency_ms),
        record.endpoint_type@ == endpoint_type_of(url),
        text::parameter(url, "symbol="@) == Some(record.symbol@) || record.symbol@ == "ALL"@
            && !text::contains_text(url, "symbol="@),
{
    text::missing_parameters_are_not_read(url, "symbol="@);
}

/// An address names the symbol, then the period, then how many entries to send.
pub proof fn addresses_name_symbol_period_and_limit(
    path: Seq<char>,
    symbol: Seq<char>,
    period_key: Seq<char>,
    period: Seq<char>,
    limit: u32,
)
    requires
        !text::contains_text(path + symbol + period_key + period + "&limit"@, "limit="@),
    ensures
        text::has_prefix(
            period_endpoint(path, symbol, period_key, period, limit),
            path + symbol + period_key + period + "&limit="@,
        ),
        text::parameter(period_endpoint(path, symbol, period_key, period, limit), "limit="@) == Some(
            text::decimal(limit as nat),
        ),
{
    lemma_limit_is_read(path + symbol + period_key + period, limit);
}

proof fn lemma_limit_is_read(head: Seq<char>, limit: u32)
    requires
        !text::contains_text(head + "&limit"@, "limit="@),
    ensures
        text::has_prefix(
            head + "&limit="@ + text::decimal(limit as nat),
            head + "&limit="@,
        ),
        text::parameter(head + "&limit="@ + text::decimal(limit as nat), "limit="@) == Some(
            text::decimal(limit as nat),
        ),
{
    let digits = text::decimal(limit as nat);
    let url = head + "&limit="@ + digits;
    let key = "limit="@;
    let before = head + seq!['&'];
    let most = head + "&limit"@;
    assert(url.subrange(0, (head + "&limit="@).len() as int) =~= head + "&limit="@);
    text::numbers_are_read_back(limit as nat, u32::MAX as nat);
    assert(key.len() == 6 && key[0] == 'l' && "&limit="@ =~= seq!['&'] + key && "&limit"@
        =~= seq!['&'] + key.drop_last()) by {
        reveal_strlit("limit=");
        reveal_strlit("&limit=");
        reveal_strlit("&limit");
    }
    assert(url =~= before + key + (digits + seq![]));
    assert(most =~= before + key.drop_last());
    assert forall|i: int| 0 <= i < before.len() implies !(#[trigger] text::occurs_at(
        before + key + (digits + seq![]),
        key,
        i,
    )) by {
        if text::occurs_at(url, key, i) {
            assert(i + 6 <= most.len()) by {
                if i == before.len() - 1 {
                    assert(url.subrange(i, i + 6)[0] == '&');
                }
            }
            assert(most =~= url.take(most.len() as int));
            assert(most.subrange(i, i + 6) =~= url.subrange(i, i + 6));
            assert(text::occurs_at(most, key, i));
        }
    }
    assert forall|i: int| 0 <= i < digits.len() implies !(#[trigger] text::occurs_at(
        digits + seq![],
        key,
        i,
    )) by {
        if text::occurs_at(digits + seq![], key, i) {
            assert((digits + seq![]).subrange(i, i + 6)[0] == digits[i]);
            assert(text::is_digit(digits[i]));
        }
    }
    if digits.contains('&') {
        let k = choose|k: int| 0 <= k < digits.len() && digits[k] == '&';
        assert(text::is_digit(digits[k]));
    }
    text::parameters_are_read(before, key, digits, seq![]);
}

/// What to do after the attempt number `attempt`, counted from zero, has failed.
pub open spec fn retry_step(attempt: u32, banned: bool) -> RetryStep {
    if banned || attempt + 1 >= 3 {
        RetryStep::GiveUp
    } else {
        RetryStep::Retry { delay_ms: (100 * (attempt + 1) * (attempt + 1)) as u64 }
    }
}

/// A request is tried three times, after a tenth of a second and then after four; a banned
/// address is not tried again.
pub proof fn requests_are_tried_three_times(attempt: u32, banned: bool)
    ensures
        retry_step(0, false) == (RetryStep::Retry { delay_ms: 100 }),
        retry_step(1, false) == (RetryStep::Retry { delay_ms: 400 }),
        attempt >= 2 ==> retry_step(attempt, banned) == RetryStep::GiveUp,
        banned ==> retry_step(attempt, banned) == RetryStep::GiveUp,
{
}

/// A request goes through one of the proxies.
pub open spec fn goes_through_proxy(
    proxies: crate::rest::proxy_manager::ProxyView,
    url: Seq<char>,
) -> bool {
    &&& proxies.enabled
    &&& proxies.proxies.len() > 0
    &&& !text::contains_text(url, "/ws"@)
    &&& !text::contains_text(url, "/stream"@)
}

/// Streams never go through a proxy. All else does where proxies are switched on and there
/// are some.
pub proof fn streams_never_go_through_a_proxy(
    proxies: crate::rest::proxy_manager::ProxyView,
    before: Seq<char>,
    after: Seq<char>,
    url: Seq<char>,
)
    ensures
        !goes_through_proxy(proxies, before + "/ws"@ + after),
        !goes_through_proxy(proxies, before + "/stream"@ + after),
        !proxies.enabled || proxies.proxies.len() == 0 ==> !goes_through_proxy(proxies, url),
        proxies.enabled && proxies.proxies.len() > 0 && !text::contains_text(url, "/ws"@)
            && !text::contains_text(url, "/stream"@) ==> goes_through_proxy(proxies, url),
{
    text::lemma_contains_middle(before, "/ws"@, after);
    text::lemma_contains_middle(before, "/stream"@, after);
}

/// Requests are recorded exactly where recording is switched on, one record for each, under
/// its kind and symbol.
pub proof fn recording_follows_the_switch(
    before: ProxyUsageTracker,
    after: ProxyUsageTracker,
    url: Seq<char>,
    name: Seq<char>,
    success: bool,
    latency_ms: u64,
    timestamp: Seq<char>,
)
    requires
        is_tracked(before, after, url, name, success, latency_ms, timestamp),
    ensures
        after.enabled() == before.enabled(),
        !before.enabled() ==> after@ == before@,
        before.enabled() ==> {
            let key = endpoint_type_of(url) + seq!['_'] + symbol_of(url);
            &&& after@.contains_key(key)
            &&& after@[key].last().proxy_name@ == name
            &&& after@[key].last().success == success
            &&& after@[key].last().latency_ms == Some(latency_ms)
            &&& after@[key].last().timestamp@ == timestamp
            &&& forall|other: Seq<char>|
                other != key ==> #[trigger] after@.contains_key(other) == before@.contains_key(
                    other,
                ) && after@[other] == before@[other]
        },
{
    if before.enabled() {
        let record = choose|record: ProxyUsageRecord| #[trigger]
            is_record(record, url, name, success, latency_ms, timestamp) && after@
                == proxy_usage_tracker::recorded(before@, record);
        let key = endpoint_type_of(url) + seq!['_'] + symbol_of(url);
        proxy_usage_tracker::records_are_kept_by_kind_and_symbol(before@, record, key);
        assert forall|other: Seq<char>| other != key implies #[trigger] after@.contains_key(other)
            == before@.contains_key(other) && after@[other] == before@[other] by {
            proxy_usage_tracker::records_are_kept_by_kind_and_symbol(before@, record, other);
        }
    }
}

} // verus!
