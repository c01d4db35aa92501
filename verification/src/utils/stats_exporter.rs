//! Figures of the running collector: counters, and its footprint as the kernel reports
//! it.

use crate::rest::proxy_usage_tracker::ProxyUsageRecord;
use crate::text;
use crate::text::{parse_unsigned, text_less};
use crate::text_set;
use crate::utils::time_utils;
use crate::websocket::message_handler::MessageStats;
use vstd::prelude::*;

verus! {

/// A symbol that was listed since the start.
pub struct NewListingStat {
    pub symbol: String,
    /// When it was found, in the form of RFC 3339, in UTC.
    pub detected_at: String,
}

/// The footprint of the process and the memory of its machine.
#[derive(Clone, Copy, Debug, PartialEq, Eq, Structural)]
pub struct ResourceStats {
    pub rss_kb: Option<u64>,
    /// User and system time in clock ticks.
    pub cpu_ticks: Option<u64>,
    pub fd_count: Option<u64>,
    pub sys_mem_used_kb: Option<u64>,
    pub sys_mem_total_kb: Option<u64>,
    pub n_cpus: Option<u64>,
}

/// The number in a line that starts with `key`: the first word after it.
pub open spec fn line_value(line: Seq<char>, key: Seq<char>) -> Option<nat> {
    match text::after_prefix(line, key) {
        Some(rest) => if text::words(rest).len() > 0 {
            text::unsigned_value(text::words(rest)[0], u64::MAX as nat)
        } else {
            None
        },
        None => None,
    }
}

/// The number in the first line that has one for `key`.
pub open spec fn first_value(lines: Seq<Seq<char>>, key: Seq<char>) -> Option<nat>
    decreases lines.len(),
{
    if lines.len() == 0 {
        None
    } else if line_value(lines[0], key) is Some {
        line_value(lines[0], key)
    } else {
        first_value(lines.drop_first(), key)
    }
}

/// The number of kilobytes that a status text gives for `key`.
pub open spec fn vm_kb(status: Seq<char>, key: Seq<char>) -> Option<nat> {
    first_value(text::lines(status), key)
}

/// A word as an unsigned number.
fn word_value(word: &Vec<char>) -> (r: Option<u64>)
    ensures
        match r {
            Some(n) => text::unsigned_value(word@, u64::MAX as nat) == Some(n as nat),
            None => text::unsigned_value(word@, u64::MAX as nat) is None,
        },
{
    let s: String = text::text_of(word, 0, word.len());
    assert(s@ =~= word@);
    parse_unsigned(s.as_str(), u64::MAX)
}

/// The number of kilobytes that a status text gives for `key`.
pub fn parse_vm_kb(status: &str, key: &str) -> (r: Option<u64>)
    ensures
        match r {
            Some(n) => vm_kb(status@, key@) == Some(n as nat),
            None => vm_kb(status@, key@) is None,
        },
{
    let chars: Vec<char> = text::chars_of(status);
    let wanted: Vec<char> = text::chars_of(key);
    let lines: Vec<Vec<char>> = text::lines_of(&chars);
    let ghost all = text::lines(status@);
    let mut i: usize = 0;
    assert(all.skip(0) =~= all);
    while i < lines.len()
        invariant
            i <= lines.len(),
            wanted@ == key@,
            all == text::runs(lines@),
            all == text::lines(status@),
            first_value(all, key@) == first_value(all.skip(i as int), key@),
        decreases lines.len() - i,
    {
        let ghost line = all[i as int];
        assert(all.skip(i as int)[0] == line);
        assert(all.skip(i as int).drop_first() =~= all.skip(i + 1));
        match text::strip_prefix(&lines[i], &wanted) {
            Some(rest) => {
                let words: Vec<Vec<char>> = text::words_of(&rest);
                if words.len() > 0 {
                    assert(text::runs(words@)[0] == words@[0]@);
                    match word_value(&words[0]) {
                        Some(n) => {
                            return Some(n);
                        },
                        None => {},
                    }
                }
            },
            None => {},
        }
        i = i + 1;
    }
    None
}

/// User and system time in a process status: the twelfth and thirteenth word after the
/// last closing parenthesis, as the name before it may hold anything.
pub open spec fn cpu_times(stat: Seq<char>) -> Option<(nat, nat)> {
    match text::after_last(stat, ')') {
        Some(rest) => {
            let words = text::words(rest);
            if words.len() > 12 {
                match (
                    text::unsigned_value(words[11], u64::MAX as nat),
                    text::unsigned_value(words[12], u64::MAX as nat),
                ) {
                    (Some(user), Some(system)) => Some((user, system)),
                    _ => None,
                }
            } else {
                None
            }
        },
        None => None,
    }
}

/// User and system time together.
pub open spec fn cpu_total(stat: Seq<char>) -> Option<nat> {
    match cpu_times(stat) {
        Some((user, system)) => Some(user + system),
        None => None,
    }
}

/// User and system time in a process status.
pub fn parse_cpu_times(stat: &str) -> (r: Option<(u64, u64)>)
    ensures
        match r {
            Some((user, system)) => cpu_times(stat@) == Some((user as nat, system as nat)),
            None => cpu_times(stat@) is None,
        },
{
    let chars: Vec<char> = text::chars_of(stat);
    let rest: Vec<char> = match text::rest_after_last(&chars, ')') {
        Some(rest) => rest,
        None => {
            return None;
        },
    };
    let words: Vec<Vec<char>> = text::words_of(&rest);
    if words.len() <= 12 {
        return None;
    }
    assert(text::runs(words@)[11] == words@[11]@);
    assert(text::runs(words@)[12] == words@[12]@);
    match word_value(&words[11]) {
        Some(user) => match word_value(&words[12]) {
            Some(system) => Some((user, system)),
            None => None,
        },
        None => None,
    }
}

/// The processor time in a process status, in clock ticks: user and system time.
pub fn parse_cpu_ticks(stat: &str) -> (r: Option<u64>)
    requires
        cpu_total(stat@) matches Some(ticks) ==> ticks <= u64::MAX,
    ensures
        match r {
            Some(ticks) => cpu_total(stat@) == Some(ticks as nat),
            None => cpu_total(stat@) is None,
        },
{
    match parse_cpu_times(stat) {
        Some((user, system)) => Some(user + system),
        None => None,
    }
}

/// Total and available memory of the machine, in kilobytes.
pub fn parse_meminfo(meminfo: &str) -> (r: Option<(u64, u64)>)
    ensures
        match r {
            Some((total, available)) => vm_kb(meminfo@, "MemTotal:"@) == Some(total as nat) && vm_kb(
                meminfo@,
                "MemAvailable:"@,
            ) == Some(available as nat),
            None => vm_kb(meminfo@, "MemTotal:"@) is None || vm_kb(
                meminfo@,
                "MemAvailable:"@,
            ) is None,
        },
{
    match parse_vm_kb(meminfo, "MemTotal:") {
        Some(total) => match parse_vm_kb(meminfo, "MemAvailable:") {
            Some(available) => Some((total, available)),
            None => None,
        },
        None => None,
    }
}

/// A line that tells of one processor core: `cpu` and a digit.
pub open spec fn is_core_line(line: Seq<char>) -> bool {
    text::has_prefix(line, "cpu"@) && line.len() > 3 && text::is_digit(line[3])
}

/// How many lines tell of a core.
pub open spec fn core_lines(lines: Seq<Seq<char>>) -> nat
    decreases lines.len(),
{
    if lines.len() == 0 {
        0
    } else {
        core_lines(lines.drop_last()) + (if is_core_line(lines.last()) {
            1nat
        } else {
            0
        })
    }
}

/// The number of processor cores, `None` when no line tells of one.
pub fn parse_n_cpus(procstat: &str) -> (r: Option<u64>)
    ensures
        match r {
            Some(n) => n == core_lines(text::lines(procstat@)) && n > 0,
            None => core_lines(text::lines(procstat@)) == 0,
        },
{
    proof {
        reveal_strlit("cpu");
    }
    let chars: Vec<char> = text::chars_of(procstat);
    let lines: Vec<Vec<char>> = text::lines_of(&chars);
    let prefix: Vec<char> = text::chars_of("cpu");
    let ghost all = text::lines(procstat@);
    let mut n: u64 = 0;
    let mut i: usize = 0;
    assert(all.take(0) =~= seq![]);
    while i < lines.len()
        invariant
            i <= lines.len(),
            prefix@ == "cpu"@,
            prefix@.len() == 3,
            all == text::runs(lines@),
            n == core_lines(all.take(i as int)),
            n <= i,
        decreases lines.len() - i,
    {
        let line: &Vec<char> = &lines[i];
        assert(all.take(i + 1).drop_last() =~= all.take(i as int));
        assert(all[i as int] == line@);
        if text::starts_with(line, &prefix) && line.len() > 3 && '0' <= line[3] && line[3] <= '9' {
            n = n + 1;
        }
        i = i + 1;
    }
    assert(all.take(lines.len() as int) =~= all);
    if n > 0 {
        Some(n)
    } else {
        None
    }
}

/// The footprint from what the kernel reports. `fd_entries` is the number of entries in
/// the directory of open descriptors, one of which belongs to the reading of it.
pub fn read_resource_stats(
    status: &str,
    stat: &str,
    meminfo: &str,
    procstat: &str,
    fd_entries: Option<u64>,
) -> (r: ResourceStats)
    requires
        cpu_total(stat@) matches Some(ticks) ==> ticks <= u64::MAX,
    ensures
        match r.rss_kb {
            Some(n) => vm_kb(status@, "VmRSS:"@) == Some(n as nat),
            None => vm_kb(status@, "VmRSS:"@) is None,
        },
        match r.cpu_ticks {
            Some(ticks) => cpu_total(stat@) == Some(ticks as nat),
            None => cpu_total(stat@) is None,
        },
        r.fd_count == (match fd_entries {
            Some(n) => Some(
                if n > 0 {
                    (n - 1) as u64
                } else {
                    0
                },
            ),
            None => None,
        }),
        match (vm_kb(meminfo@, "MemTotal:"@), vm_kb(meminfo@, "MemAvailable:"@)) {
            (Some(total), Some(available)) => {
                &&& r.sys_mem_total_kb == Some(total as u64)
                &&& r.sys_mem_used_kb == Some(
                    (if total > available {
                        total - available
                    } else {
                        0
                    }) as u64,
                )
            },
            _ => r.sys_mem_total_kb is None && r.sys_mem_used_kb is None,
        },
        match r.n_cpus {
            Some(n) => n == core_lines(text::lines(procstat@)) && n > 0,
            None => core_lines(text::lines(procstat@)) == 0,
        },
{
    let memory: Option<(u64, u64)> = parse_meminfo(meminfo);
    let (total, used): (Option<u64>, Option<u64>) = match memory {
        Some((total, available)) => (Some(total), Some(total.saturating_sub(available))),
        None => (None, None),
    };
    ResourceStats {
        rss_kb: parse_vm_kb(status, "VmRSS:"),
        cpu_ticks: parse_cpu_ticks(stat),
        fd_count: match fd_entries {
            Some(n) => Some(n.saturating_sub(1)),
            None => None,
        },
        sys_mem_used_kb: used,
        sys_mem_total_kb: total,
        n_cpus: parse_n_cpus(procstat),
    }
}

/// Why the memory of the process is not known.
#[derive(Clone, Copy, Debug, PartialEq, Eq, Structural)]
pub enum MemoryError {
    /// The figure is no number.
    Unreadable,
    /// There is no figure.
    Missing,
}

/// The resident memory in a status text, in megabytes. The first line that starts with
/// `VmRSS:` and has a second word decides.
pub open spec fn memory_mb(lines: Seq<Seq<char>>) -> Result<nat, MemoryError>
    decreases lines.len(),
{
    if lines.len() == 0 {
        Err(MemoryError::Missing)
    } else if text::has_prefix(lines[0], "VmRSS:"@) && text::words(lines[0]).len() >= 2 {
        match text::unsigned_value(text::words(lines[0])[1], u64::MAX as nat) {
            Some(kb) => Ok(kb / 1024),
            None => Err(MemoryError::Unreadable),
        }
    } else {
        memory_mb(lines.drop_first())
    }
}

/// The resident memory of the process, in megabytes.
pub fn get_memory_usage_mb(status: &str) -> (r: Result<u64, MemoryError>)
    ensures
        match r {
            Ok(mb) => memory_mb(text::lines(status@)) == Ok::<nat, MemoryError>(mb as nat),
            Err(error) => memory_mb(text::lines(status@)) == Err::<nat, MemoryError>(error),
        },
{
    let chars: Vec<char> = text::chars_of(status);
    let lines: Vec<Vec<char>> = text::lines_of(&chars);
    let prefix: Vec<char> = text::chars_of("VmRSS:");
    let ghost all = text::lines(status@);
    let mut i: usize = 0;
    assert(all.skip(0) =~= all);
    while i < lines.len()
        invariant
            i <= lines.len(),
            prefix@ == "VmRSS:"@,
            all == text::runs(lines@),
            all == text::lines(status@),
            memory_mb(all) == memory_mb(all.skip(i as int)),
        decreases lines.len() - i,
    {
        assert(all.skip(i as int)[0] == lines@[i as int]@);
        assert(all.skip(i as int).drop_first() =~= all.skip(i + 1));
        if text::starts_with(&lines[i], &prefix) {
            let words: Vec<Vec<char>> = text::words_of(&lines[i]);
            if words.len() >= 2 {
                assert(text::runs(words@)[1] == words@[1]@);
                return match word_value(&words[1]) {
                    Some(kb) => Ok(kb / 1024),
                    None => Err(MemoryError::Unreadable),
                };
            }
        }
        i = i + 1;
    }
    Err(MemoryError::Missing)
}

/// The limit of open files to ask for: the hard limit, and what to fall back to where
/// that is refused. `None` when the limit is as high as it can be.
pub fn fd_limit_targets(current: u64, maximum: u64) -> (r: Option<(u64, u64)>)
    ensures
        r == (if current >= maximum {
            None
        } else {
            Some(
                (
                    maximum,
                    if current > 65536 {
                        current
                    } else {
                        65536
                    },
                ),
            )
        }),
{
    if current >= maximum {
        None
    } else {
        Some(
            (
                maximum,
                if current > 65536 {
                    current
                } else {
                    65536
                },
            ),
        )
    }
}

/// Whether there is a connection, in a word.
pub fn connection_status(active_connections: usize) -> (r: &'static str)
    ensures
        r@ == (if active_connections > 0 {
            "connected"@
        } else {
            "disconnected"@
        }),
{
    if active_connections > 0 {
        "connected"
    } else {
        "disconnected"
    }
}

/// What came since the last look, `None` at the first one and when no time has passed.
pub fn since_last(last: u64, now: u64, elapsed: u64) -> (r: Option<u64>)
    ensures
        r == grown(last, now, elapsed),
{
    if last > 0 && elapsed > 0 {
        Some(now.saturating_sub(last))
    } else {
        None
    }
}

/// The times of a list of listings.
pub open spec fn detection_times(list: Seq<NewListingStat>) -> Seq<Seq<char>> {
    list.map_values(|s: NewListingStat| s.detected_at@)
}

/// `stats` tells of the symbol and time at `pending[i]`.
pub open spec fn tells_of(stats: NewListingStat, pending: (String, i64)) -> bool {
    stats.symbol@ == pending.0@ && stats.detected_at@ == time_utils::rfc3339_text(pending.1)
}

/// `from[k]` is the listing that the figure at `k` tells of; every listing has one.
pub open spec fn arranges(
    pending: Seq<(String, i64)>,
    list: Seq<NewListingStat>,
    from: Seq<int>,
) -> bool {
    &&& list.len() == pending.len()
    &&& from.len() == list.len()
    &&& forall|k: int|
        0 <= k < list.len() ==> 0 <= #[trigger] from[k] < pending.len() && tells_of(
            list[k],
            pending[from[k]],
        )
    &&& forall|j: int, k: int| 0 <= j < k < from.len() ==> #[trigger] from[j] != #[trigger] from[k]
}

/// The listings found since the start, oldest first.
pub fn pending_listings(pending: &Vec<(String, i64)>) -> (r: Vec<NewListingStat>)
    ensures
        text_set::sorted(detection_times(r@)),
        exists|from: Seq<int>| #[trigger] arranges(pending@, r@, from),
{
    let mut out: Vec<NewListingStat> = Vec::new();
    let ghost mut from: Seq<int> = seq![];
    let mut i: usize = 0;
    assert(pending@.take(0) =~= seq![]);
    while i < pending.len()
        invariant
            i <= pending.len(),
            text_set::sorted(detection_times(out@)),
            arranges(pending@.take(i as int), out@, from),
            forall|k: int| 0 <= k < from.len() ==> 0 <= #[trigger] from[k] < i,
        decreases pending.len() - i,
    {
        let detected_at: String = time_utils::rfc3339(pending[i].1);
        let ghost times = detection_times(out@);
        let ghost time = detected_at@;
        let ghost before = out@;
        let ghost was = from;
        let mut at: usize = out.len();
        while at > 0 && text_less(detected_at.as_str(), out[at - 1].detected_at.as_str())
            invariant
                at <= out.len(),
                out@ == before,
                times == detection_times(before),
                time == detected_at@,
                forall|k: int|
                    at <= k < times.len() ==> text::text_before(time, #[trigger] times[k]),
            decreases at,
        {
            at = at - 1;
        }
        assert(at > 0 ==> !text::text_before(time, times[at - 1]));
        let stats: NewListingStat = NewListingStat { symbol: pending[i].0.clone(), detected_at };
        let ghost added = stats;
        out.insert(at, stats);
        proof {
            assert(detection_times(out@) =~= times.insert(at as int, time));
            text_set::lemma_insert_sorted(times, at as int, time);
            from = was.insert(at as int, i as int);
            let seen = pending@.take(i + 1);
            assert forall|k: int| 0 <= k < out@.len() implies 0 <= #[trigger] from[k] < seen.len()
                && tells_of(out@[k], seen[from[k]]) by {
                if k < at {
                    assert(from[k] == was[k] && out@[k] == before[k]);
                    assert(seen[was[k]] == pending@.take(i as int)[was[k]]);
                } else if k > at {
                    assert(from[k] == was[k - 1] && out@[k] == before[k - 1]);
                    assert(seen[was[k - 1]] == pending@.take(i as int)[was[k - 1]]);
                } else {
                    assert(out@[k] == added);
                }
            }
            assert forall|j: int, k: int| 0 <= j < k < from.len() implies #[trigger] from[j]
                != #[trigger] from[k] by {
                let x = if j < at {
                    j
                } else {
                    j - 1
                };
                let y = if k < at {
                    k
                } else {
                    k - 1
                };
                if j != at && k != at {
                    assert(was[x] != was[y]);
                } else if j == at {
                    assert(was[y] < i);
                } else {
                    assert(was[x] < i);
                }
            }
        }
        i = i + 1;
    }
    assert(pending@.take(pending.len() as int) =~= pending@);
    assert(arranges(pending@, out@, from));
    out
}

/// The figures of one look at the collector. A rate is left as what it is made of: a
/// difference and the time in which it came about.
pub struct CollectorStats {
    pub collector: String,
    pub timestamp: String,
    pub uptime_seconds: u64,
    pub messages_total: u64,
    pub connection_status: String,
    pub active_connections: usize,
    pub total_reconnects: u32,
    pub trades_written: u64,
    /// Whether the average delay is known.
    pub has_latency: bool,
    /// Nanoseconds since the look before.
    pub elapsed: u64,
    /// Messages since the look before, `None` where that tells nothing.
    pub message_delta: Option<u64>,
    /// Clock ticks since the look before, `None` where that tells nothing.
    pub cpu_tick_delta: Option<u64>,
    pub proxy_usage: Vec<ProxyUsageRecord>,
    pub rss_kb: Option<u64>,
    pub fd_count: Option<u64>,
    pub sys_mem_used_kb: Option<u64>,
    pub sys_mem_total_kb: Option<u64>,
    pub sys_cpu_cores: Option<u64>,
    pub pending_new_listings: Vec<NewListingStat>,
}

/// What is remembered from one look to the next.
#[derive(Clone, Copy, Debug, PartialEq, Eq, Structural)]
pub struct LastLook {
    pub messages: u64,
    pub time: u64,
    pub cpu_ticks: u64,
}

/// Time from `from` to `to`, none when `to` is earlier.
pub open spec fn passed(from: u64, to: u64) -> u64 {
    if from <= to {
        (to - from) as u64
    } else {
        0
    }
}

/// What came since the last look: nothing is told at the first one, or when no time has
/// passed. A count that went back has not grown.
pub open spec fn grown(last: u64, now: u64, elapsed: u64) -> Option<u64> {
    if last > 0 && elapsed > 0 {
        Some(passed(last, now))
    } else {
        None
    }
}

/// Takes looks at the collector.
pub struct StatsExporter {
    pub collector_name: String,
    pub start_time: u64,
    pub last: LastLook,
}

impl StatsExporter {
    /// An exporter that has taken no look yet.
    pub fn new(collector_name: String, now: u64) -> (r: StatsExporter)
        ensures
            r.collector_name@ == collector_name@,
            r.start_time == now,
            r.last == (LastLook { messages: 0, time: now, cpu_ticks: 0 }),
    {
        StatsExporter {
            collector_name,
            start_time: now,
            last: LastLook { messages: 0, time: now, cpu_ticks: 0 },
        }
    }

    /// Takes a look at `now`.
    pub fn get_stats(
        &mut self,
        now: u64,
        timestamp: String,
        active_connections: usize,
        total_reconnects: u32,
        counts: &MessageStats,
        proxy_usage: Vec<ProxyUsageRecord>,
        resources: &ResourceStats,
        pending: &Vec<(String, i64)>,
    ) -> (r: CollectorStats)
        requires
            counts.trades + counts.depth_updates + counts.klines + counts.liquidations <= u64::MAX,
        ensures
            final(self).collector_name == old(self).collector_name,
            final(self).start_time == old(self).start_time,
            final(self).last == (LastLook {
                messages: r.messages_total,
                time: now,
                cpu_ticks: match resources.cpu_ticks {
                    Some(ticks) => ticks,
                    None => old(self).last.cpu_ticks,
                },
            }),
            r.collector@ == old(self).collector_name@,
            r.timestamp@ == timestamp@,
            r.uptime_seconds == passed(old(self).start_time, now) / 1_000_000_000,
            r.messages_total == counts.trades + counts.depth_updates + counts.klines
                + counts.liquidations,
            r.connection_status@ == (if active_connections > 0 {
                "connected"@
            } else {
                "disconnected"@
            }),
            r.active_connections == active_connections,
            r.total_reconnects == total_reconnects,
            r.trades_written == counts.trades,
            r.has_latency == (counts.total_latency_samples > 0),
            r.elapsed == passed(old(self).last.time, now),
            r.message_delta == grown(old(self).last.messages, r.messages_total, r.elapsed),
            r.cpu_tick_delta == (match resources.cpu_ticks {
                Some(ticks) => grown(old(self).last.cpu_ticks, ticks, r.elapsed),
                None => None,
            }),
            r.proxy_usage@ == proxy_usage@,
            r.rss_kb == resources.rss_kb,
            r.fd_count == resources.fd_count,
            r.sys_mem_used_kb == resources.sys_mem_used_kb,
            r.sys_mem_total_kb == resources.sys_mem_total_kb,
            r.sys_cpu_cores == resources.n_cpus,
            text_set::sorted(detection_times(r.pending_new_listings@)),
            exists|from: Seq<int>| #[trigger]
                arranges(pending@, r.pending_new_listings@, from),
    {
        let messages_total: u64 = counts.messages_total();
        let elapsed: u64 = now.saturating_sub(self.last.time);
        let message_delta: Option<u64> = since_last(self.last.messages, messages_total, elapsed);
        let (cpu_tick_delta, cpu_ticks): (Option<u64>, u64) = match resources.cpu_ticks {
            Some(ticks) => (since_last(self.last.cpu_ticks, ticks, elapsed), ticks),
            None => (None, self.last.cpu_ticks),
        };
        self.last = LastLook { messages: messages_total, time: now, cpu_ticks };
        CollectorStats {
            collector: self.collector_name.clone(),
            timestamp,
            uptime_seconds: now.saturating_sub(self.start_time) / 1_000_000_000,
            messages_total,
            connection_status: connection_status(active_connections).to_owned(),
            active_connections,
            total_reconnects,
            trades_written: counts.trades,
            has_latency: counts.total_latency_samples > 0,
            elapsed,
            message_delta,
            cpu_tick_delta,
            proxy_usage,
            rss_kb: resources.rss_kb,
            fd_count: resources.fd_count,
            sys_mem_used_kb: resources.sys_mem_used_kb,
            sys_mem_total_kb: resources.sys_mem_total_kb,
            sys_cpu_cores: resources.n_cpus,
            pending_new_listings: pending_listings(pending),
        }
    }
}

/// A figure is the first word behind its key, at the start of a line.
pub proof fn figures_stand_behind_their_key(
    key: Seq<char>,
    spaces: Seq<char>,
    word: Seq<char>,
    space: char,
    rest: Seq<char>,
    line: Seq<char>,
)
    requires
        forall|i: int| 0 <= i < spaces.len() ==> text::is_space(#[trigger] spaces[i]),
        forall|i: int| 0 <= i < word.len() ==> !text::is_space(#[trigger] word[i]),
        word.len() > 0,
        text::is_space(space),
        !text::has_prefix(line, key),
    ensures
        line_value(key + (spaces + (word + seq![space] + rest)), key) == text::unsigned_value(
            word,
            u64::MAX as nat,
        ),
        line_value(key + (spaces + word), key) == text::unsigned_value(word, u64::MAX as nat),
        line_value(line, key) is None,
{
    let long = spaces + (word + seq![space] + rest);
    let short = spaces + word;
    text::prefixes_are_taken_off(key, long, line);
    text::prefixes_are_taken_off(key, short, line);
    text::words_are_parted_by_spaces(word, space, rest);
    lemma_spaces_ahead(spaces, word + seq![space] + rest);
    lemma_spaces_ahead(spaces, word);
}

proof fn lemma_spaces_ahead(spaces: Seq<char>, rest: Seq<char>)
    requires
        forall|i: int| 0 <= i < spaces.len() ==> text::is_space(#[trigger] spaces[i]),
    ensures
        text::words(spaces + rest) == text::words(rest),
    decreases spaces.len(),
{
    if spaces.len() == 0 {
        assert(spaces + rest =~= rest);
    } else {
        let fewer = spaces.drop_first();
        assert(text::is_space(spaces[0]));
        assert forall|i: int| 0 <= i < fewer.len() implies text::is_space(#[trigger] fewer[i]) by {
            assert(fewer[i] == spaces[i + 1]);
        }
        lemma_spaces_ahead(fewer, rest);
        text::words_are_parted_by_spaces(seq![], spaces[0], fewer + rest);
        assert(spaces + rest =~= Seq::<char>::empty() + seq![spaces[0]] + (fewer + rest));
    }
}

/// The first line that has the figure counts.
pub proof fn the_first_figure_counts(
    first: Seq<Seq<char>>,
    rest: Seq<Seq<char>>,
    key: Seq<char>,
)
    ensures
        first_value(first + rest, key) == (if first_value(first, key) is Some {
            first_value(first, key)
        } else {
            first_value(rest, key)
        }),
        first.len() == 0 ==> first_value(first, key) is None,
        first.len() == 1 ==> first_value(first, key) == line_value(first[0], key),
    decreases first.len(),
{
    if first.len() == 0 {
        assert(first + rest =~= rest);
    } else {
        the_first_figure_counts(first.drop_first(), rest, key);
        assert((first + rest).drop_first() =~= first.drop_first() + rest);
        assert((first + rest)[0] == first[0]);
        if first.len() == 1 {
            assert(first.drop_first() =~= seq![]);
        }
    }
}

/// The user time is the twelfth word behind the last bracket, the system time the
/// thirteenth; the ticks are both together.
pub proof fn cpu_times_stand_behind_the_name(head: Seq<char>, rest: Seq<char>)
    requires
        !rest.contains(')'),
    ensures
        ({
            let stat = head + seq![')'] + rest;
            let words = text::words(rest);
            let user = text::unsigned_value(words[11], u64::MAX as nat);
            let system = text::unsigned_value(words[12], u64::MAX as nat);
            &&& words.len() >= 13 && user is Some && system is Some ==> cpu_times(stat) == Some(
                (user->0, system->0),
            ) && cpu_total(stat) == Some((user->0 + system->0) as nat)
            &&& words.len() < 13 || user is None || system is None ==> cpu_times(stat) is None
                && cpu_total(stat) is None
        }),
{
    let stat = head + seq![')'] + rest;
    let n = head.len() as int + 1;
    assert(stat[n - 1] == ')');
    assert(stat.contains(')'));
    text::last_separator_is_found(stat, ')');
    let found = text::after_last(stat, ')')->0;
    let m = stat.len() - found.len();
    if m < n {
        assert(found[n - 1 - m] == stat[n - 1]);
        assert(found.contains(')'));
    }
    if m > n {
        assert(stat[m - 1] == rest[m - 1 - n]);
        assert(rest.contains(')'));
    }
    assert(found =~= rest);
}

/// Each line of one core counts, and the line of all cores together does not.
pub proof fn cores_are_counted(
    first: Seq<Seq<char>>,
    rest: Seq<Seq<char>>,
    digit: char,
    more: Seq<char>,
)
    requires
        '0' <= digit <= '9',
    ensures
        core_lines(first + rest) == core_lines(first) + core_lines(rest),
        rest.len() == 0 ==> core_lines(rest) == 0,
        rest.len() == 1 ==> core_lines(rest) == (if is_core_line(rest[0]) {
            1nat
        } else {
            0
        }),
        is_core_line("cpu"@ + seq![digit] + more),
        !is_core_line("cpu"@ + seq![' '] + more),
        !is_core_line("cpu"@),
        rest.len() == 1 && !text::has_prefix(rest[0], "cpu"@) ==> core_lines(rest) == 0,
    decreases rest.len(),
{
    reveal_strlit("cpu");
    let core = "cpu"@ + seq![digit] + more;
    assert(core.subrange(0, 3) =~= "cpu"@);
    assert(core[3] == digit);
    assert(("cpu"@ + seq![' '] + more)[3] == ' ');
    if rest.len() == 0 {
        assert(first + rest =~= first);
    } else {
        cores_are_counted(first, rest.drop_last(), digit, more);
        assert((first + rest).drop_last() =~= first + rest.drop_last());
        if rest.len() == 1 {
            assert(rest.drop_last() =~= seq![]);
        }
    }
}

/// The memory in use is the second word of the first line that starts with its key, in
/// kilobytes, told in whole megabytes.
pub proof fn memory_is_told_in_megabytes(
    before: Seq<Seq<char>>,
    line: Seq<char>,
    after: Seq<Seq<char>>,
)
    requires
        forall|i: int|
            0 <= i < before.len() ==> !text::has_prefix(#[trigger] before[i], "VmRSS:"@),
        text::has_prefix(line, "VmRSS:"@),
        text::words(line).len() >= 2,
    ensures
        memory_mb(before) == Err::<nat, MemoryError>(MemoryError::Missing),
        ({
            let kb = text::unsigned_value(text::words(line)[1], u64::MAX as nat);
            let told = memory_mb(before + (seq![line] + after));
            &&& kb matches Some(kb) ==> (told matches Ok(mb) && mb * 1024 <= kb && kb < (mb + 1)
                * 1024)
            &&& kb is None ==> told == Err::<nat, MemoryError>(MemoryError::Unreadable)
        }),
    decreases before.len(),
{
    if before.len() == 0 {
        assert(before + (seq![line] + after) =~= seq![line] + after);
    } else {
        let fewer = before.drop_first();
        assert(!text::has_prefix(before[0], "VmRSS:"@));
        assert forall|i: int| 0 <= i < fewer.len() implies !text::has_prefix(
            #[trigger] fewer[i],
            "VmRSS:"@,
        ) by {
            assert(fewer[i] == before[i + 1]);
        }
        memory_is_told_in_megabytes(fewer, line, after);
        assert((before + (seq![line] + after)).drop_first() =~= fewer + (seq![line] + after));
        assert((before + (seq![line] + after))[0] == before[0]);
    }
}

/// What came since the look before is the difference, not below zero; it tells nothing
/// where nothing was counted before or no time has passed.
pub proof fn growth_is_the_difference(last: u64, now: u64, elapsed: u64)
    ensures
        last <= now ==> last + passed(last, now) == now,
        last > now ==> passed(last, now) == 0,
        last == 0 || elapsed == 0 ==> grown(last, now, elapsed) is None,
        last > 0 && elapsed > 0 && last <= now ==> (grown(last, now, elapsed) matches Some(more)
            && last + more == now),
        last > 0 && elapsed > 0 && last > now ==> grown(last, now, elapsed) == Some(0u64),
{
}

/// Every pending listing is told of once, with its own symbol and the time of its own
/// finding.
pub proof fn every_pending_listing_is_told_of(
    pending: Seq<(String, i64)>,
    list: Seq<NewListingStat>,
    from: Seq<int>,
    i: int,
)
    requires
        arranges(pending, list, from),
        0 <= i < pending.len(),
    ensures
        list.len() == pending.len(),
        exists|k: int|
            0 <= k < list.len() && (#[trigger] list[k]).symbol@ == pending[i].0@
                && list[k].detected_at@ == time_utils::rfc3339_text(pending[i].1),
{
    if !from.contains(i) {
        let taken = Set::<int>::new(|p: int| 0 <= p < pending.len() && p != i);
        vstd::set_lib::lemma_int_range(0, pending.len() as int);
        let all = vstd::set_lib::set_int_range(0, pending.len() as int);
        assert(taken =~= all.remove(i));
        assert(from.no_duplicates());
        from.unique_seq_to_set();
        assert forall|p: int| #[trigger] from.to_set().contains(p) implies taken.contains(p) by {
            let k = choose|k: int| 0 <= k < from.len() && from[k] == p;
            assert(0 <= from[k] < pending.len());
        }
        vstd::set_lib::lemma_len_subset(from.to_set(), taken);
    }
    let k = choose|k: int| 0 <= k < from.len() && from[k] == i;
    assert(tells_of(list[k], pending[from[k]]));
}

} // verus!
