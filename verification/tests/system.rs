//! Process statistics, timestamps, texts and sorting.

use binance_futures_collector::sorting::stable_order;
use binance_futures_collector::text;
use binance_futures_collector::utils::stats_exporter::{
    connection_status, fd_limit_targets, get_memory_usage_mb, parse_cpu_ticks, parse_cpu_times,
    parse_meminfo, parse_n_cpus, parse_vm_kb, pending_listings, read_resource_stats, since_last,
    MemoryError, ResourceStats, StatsExporter,
};
use binance_futures_collector::utils::time_utils::{
    get_current_timestamp_ms, round_timestamp_down, until_midnight_cleanup, until_next_hour,
};
use binance_futures_collector::websocket::message_handler::MessageStats;

#[test]
fn parses_vmrss_and_ignores_other_keys() {
    let s = "Name:\tcollector\nVmHWM:\t  862052 kB\nVmRSS:\t  706556 kB\n";
    assert_eq!(parse_vm_kb(s, "VmRSS:"), Some(706556));
    assert_eq!(parse_vm_kb(s, "VmHWM:"), Some(862052));
    assert_eq!(parse_vm_kb(s, "VmNope:"), None);
}

#[test]
fn cpu_ticks_survive_parens_in_comm() {
    // A comm containing spaces and a ')' is the classic /proc/self/stat trap.
    let stat = "1234 (weird )name) S 1 1234 1234 0 -1 4194304 100 0 0 0 111 222 0 0 20 0 8";
    assert_eq!(parse_cpu_ticks(stat), Some(333)); // utime 111 + stime 222
    assert_eq!(parse_cpu_times(stat), Some((111, 222)));
    assert_eq!(parse_cpu_ticks("1234 name S 1"), None);
}

#[test]
fn meminfo_used_is_total_minus_available() {
    let m = "MemTotal: 8000000 kB\nMemFree: 100000 kB\nMemAvailable: 3000000 kB\n";
    assert_eq!(parse_meminfo(m), Some((8_000_000, 3_000_000)));
    assert_eq!(parse_meminfo("MemTotal: 8000000 kB\n"), None);
}

#[test]
fn n_cpus_counts_per_core_lines_only() {
    let p = "cpu  100 0 50 800 40 0 10 0 0 0\ncpu0 1 2 3 4\ncpu1 5 6 7 8\n";
    assert_eq!(parse_n_cpus(p), Some(2)); // the aggregate `cpu ` line isn't a core
    assert_eq!(parse_n_cpus("cpu 1 2 3 4\n"), None);
}

#[test]
fn test_round_timestamp() {
    let ts_ms = 1762050181298; // 2025-11-02 02:23:01.298
    let interval_5min = 5 * 60 * 1000; // 5 minutes in ms
    let rounded = round_timestamp_down(ts_ms, interval_5min);
    assert_eq!(rounded % interval_5min, 0);
    assert_eq!(rounded, 1762050000000);
    assert_eq!(round_timestamp_down(-1, 10), -10);
}

#[test]
fn resource_stats_come_from_all_texts() {
    let stats = read_resource_stats(
        "VmRSS: 2048 kB\n",
        "1 (a) S 1 1 1 0 -1 0 0 0 0 0 10 20 0 0",
        "MemTotal: 100 kB\nMemAvailable: 30 kB\n",
        "cpu 1\ncpu0 1\n",
        Some(12),
    );
    assert_eq!(stats.rss_kb, Some(2048));
    assert_eq!(stats.cpu_ticks, Some(30));
    assert_eq!(stats.sys_mem_total_kb, Some(100));
    assert_eq!(stats.sys_mem_used_kb, Some(70));
    assert_eq!(stats.n_cpus, Some(1));
    let none = read_resource_stats("", "", "", "", None);
    assert_eq!(none.rss_kb, None);
    assert_eq!(none.fd_count, None);
}

#[test]
fn memory_is_told_in_megabytes() {
    assert_eq!(get_memory_usage_mb("Name: x\nVmRSS:\t 706556 kB\n"), Ok(689));
    assert_eq!(get_memory_usage_mb("VmRSS:\t many kB\n"), Err(MemoryError::Unreadable));
    assert_eq!(get_memory_usage_mb("VmHWM: 5 kB\n"), Err(MemoryError::Missing));
}

#[test]
fn the_file_limit_is_raised_to_the_maximum() {
    assert_eq!(fd_limit_targets(1024, 4096), Some((4096, 65536)));
    assert_eq!(fd_limit_targets(70_000, 80_000), Some((80_000, 70_000)));
    assert_eq!(fd_limit_targets(4096, 4096), None);
}

#[test]
fn the_heartbeat_tells_what_changed() {
    assert_eq!(connection_status(1), "connected");
    assert_eq!(connection_status(0), "disconnected");
    assert_eq!(since_last(0, 10, 1), None);
    assert_eq!(since_last(4, 10, 0), None);
    assert_eq!(since_last(4, 10, 1), Some(6));
    assert_eq!(since_last(4, 3, 1), Some(0));
}

#[test]
fn each_look_tells_what_came_since_the_last() {
    let second = 1_000_000_000;
    let mut exporter = StatsExporter::new("binance_futures".to_string(), 5 * second);
    let counts = |trades: u64| MessageStats {
        depth_updates: 10,
        trades,
        klines: 2,
        liquidations: 1,
        errors: 3,
        total_latency_samples: trades,
    };
    let resources = |cpu_ticks: Option<u64>| ResourceStats {
        rss_kb: Some(2048),
        cpu_ticks,
        fd_count: Some(7),
        sys_mem_used_kb: None,
        sys_mem_total_kb: None,
        n_cpus: Some(4),
    };
    let mut look = |seconds: u64, trades: u64, ticks: Option<u64>| {
        exporter.get_stats(
            seconds * second,
            "t".to_string(),
            2,
            3,
            &counts(trades),
            Vec::new(),
            &resources(ticks),
            &vec![("x".to_string(), 0)],
        )
    };
    let first = look(10, 0, Some(100));
    assert_eq!(first.collector, "binance_futures");
    assert_eq!((first.uptime_seconds, first.messages_total), (5, 13));
    assert_eq!((first.message_delta, first.cpu_tick_delta), (None, None));
    assert_eq!(first.connection_status, "connected");
    assert!(!first.has_latency);
    assert_eq!(first.pending_new_listings[0].symbol, "x");
    let next = look(15, 40, Some(130));
    assert_eq!(next.elapsed, 5 * second);
    assert_eq!((next.message_delta, next.cpu_tick_delta), (Some(40), Some(30)));
    assert_eq!((next.trades_written, next.has_latency), (40, true));
    assert_eq!((next.active_connections, next.total_reconnects), (2, 3));
    assert_eq!((next.rss_kb, next.fd_count, next.sys_cpu_cores), (Some(2048), Some(7), Some(4)));
    // Without a figure the one before is remembered.
    assert_eq!(look(16, 40, None).cpu_tick_delta, None);
    assert_eq!(look(16, 41, Some(131)).message_delta, None);
    assert_eq!(look(17, 41, Some(133)).cpu_tick_delta, Some(2));
}

#[test]
fn pending_listings_are_sorted_by_time() {
    let pending = vec![("b".to_string(), 1_700_000_000_000), ("a".to_string(), 0)];
    let stats = pending_listings(&pending);
    assert_eq!(stats[0].symbol, "a");
    assert_eq!(stats[0].detected_at, "1970-01-01T00:00:00+00:00");
    assert_eq!(stats[1].detected_at, "2023-11-14T22:13:20+00:00");
}

#[test]
fn the_clock_gives_the_present() {
    assert!(get_current_timestamp_ms() > 1_700_000_000_000);
}

#[test]
fn waits_end_at_midnight_and_at_the_hour() {
    // 2023-11-14T22:13:20Z
    let now = 1_700_000_000_000;
    assert_eq!(until_next_hour(now), 2_800_000);
    assert_eq!(until_midnight_cleanup(now), 6_405_000);
    assert_eq!(until_next_hour(0), 3_600_000);
    assert_eq!(until_midnight_cleanup(0), 86_405_000);
}

#[test]
fn numbers_and_texts() {
    assert_eq!(text::u64_text(0), "0");
    assert_eq!(text::u64_text(u64::MAX), "18446744073709551615");
    assert_eq!(text::i64_text(i64::MIN), "-9223372036854775808");
    assert_eq!(text::i64_text(70), "70");
    assert_eq!(text::parse_unsigned("+12", 100), Some(12));
    assert_eq!(text::parse_unsigned("101", 100), None);
    assert_eq!(text::parse_unsigned("", 100), None);
    assert_eq!(text::parse_unsigned("18446744073709551616", u64::MAX), None);
    assert_eq!(text::trim(" \t a b\n"), "a b");
    assert_eq!(text::url_parameter("x?symbol=BTC&limit=5", "symbol="), Some("BTC".to_string()));
    assert_eq!(text::url_parameter("x", "symbol="), None);
    assert!(text::contains("abc", "bc") && !text::contains("abc", "cb"));
    assert!(text::contains("abc", ""));
    assert!(text::text_less("a", "ab") && !text::text_less("b", "ab"));
    assert!(text::text_eq("x", "x") && !text::text_eq("x", "y"));
}

#[test]
fn lines_and_words_are_split_as_usual() {
    let sample = "a b\r\n\n  c\u{a0}d \nlast";
    let chars = text::chars_of(sample);
    let join = |list: Vec<Vec<char>>| -> Vec<String> {
        list.into_iter().map(|c| c.into_iter().collect()).collect()
    };
    let lines: Vec<&str> = sample.lines().collect();
    assert_eq!(join(text::lines_of(&chars)), lines);
    let words: Vec<&str> = sample.split_whitespace().collect();
    assert_eq!(join(text::words_of(&chars)), words);
    assert_eq!(
        text::rest_after_last(&text::chars_of("a)b)c"), ')'),
        Some(vec!['c'])
    );
    assert_eq!(
        text::strip_prefix(&text::chars_of("VmRSS: 1"), &text::chars_of("VmRSS:")),
        Some(vec![' ', '1'])
    );
}

#[test]
fn equal_keys_keep_their_order() {
    assert_eq!(stable_order(&vec![3, 1, 3, 2, 1]), vec![1, 4, 3, 0, 2]);
    assert!(stable_order(&Vec::new()).is_empty());
}
