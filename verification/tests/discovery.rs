//! Which symbols are collected, and in which order they start.

use binance_futures_collector::collectors::startup::{
    plan_batches, remaining_gap, remaining_symbols, StartAction, Startup,
};
use binance_futures_collector::collectors::symbol_discovery::{
    configured_symbols, extract_base_asset, priority_symbol, ExclusionConfig, Listings,
    SymbolDiscovery, SymbolSetTracker,
};
use binance_futures_collector::models::{ExchangeInfo, ExchangeInfoSymbol};
use binance_futures_collector::text_set::{sort_texts, TextSet};

fn list(items: &[&str]) -> Vec<String> {
    items.iter().map(|s| s.to_string()).collect()
}

fn set(items: &[&str]) -> TextSet {
    TextSet::from_list(&list(items))
}

#[test]
fn tracker_reports_new_listing_immediately() {
    let mut t = SymbolSetTracker::new(vec!["btcusdt".to_string()]);
    let d = t.observe(&set(&["btcusdt", "newusdt"]));
    assert_eq!(d.added, vec!["newusdt"]);
    assert!(d.removed.is_empty());
    // Not re-reported on the next cycle.
    let d = t.observe(&set(&["btcusdt", "newusdt"]));
    assert!(d.added.is_empty() && d.removed.is_empty());
}

#[test]
fn tracker_requires_two_consecutive_absences_to_remove() {
    let mut t = SymbolSetTracker::new(vec!["btcusdt".to_string(), "oldusdt".to_string()]);
    // First absence: a strike, not a removal.
    let d = t.observe(&set(&["btcusdt"]));
    assert!(d.removed.is_empty());
    // Second consecutive absence: confirmed.
    let d = t.observe(&set(&["btcusdt"]));
    assert_eq!(d.removed, vec!["oldusdt"]);
    // Gone from the known set, not reported again.
    let d = t.observe(&set(&["btcusdt"]));
    assert!(d.removed.is_empty());
}

#[test]
fn tracker_clears_strike_when_symbol_reappears() {
    let mut t = SymbolSetTracker::new(vec!["btcusdt".to_string(), "flakyusdt".to_string()]);
    // strike 1
    assert!(t.observe(&set(&["btcusdt"])).removed.is_empty());
    // Reappears: strike cleared, nothing reported.
    let d = t.observe(&set(&["btcusdt", "flakyusdt"]));
    assert!(d.added.is_empty() && d.removed.is_empty());
    // A later absence starts over at strike 1.
    assert!(t.observe(&set(&["btcusdt"])).removed.is_empty());
    assert_eq!(t.observe(&set(&["btcusdt"])).removed, vec!["flakyusdt"]);
}

#[test]
fn tracker_reports_relisting_as_a_fresh_addition() {
    let mut t = SymbolSetTracker::new(vec!["goneusdt".to_string()]);
    t.observe(&set(&[]));
    assert_eq!(t.observe(&set(&[])).removed, vec!["goneusdt"]);
    let d = t.observe(&set(&["goneusdt"]));
    assert_eq!(d.added, vec!["goneusdt"]);
}

#[test]
fn strips_multipliers_longest_prefix_first() {
    assert_eq!(extract_base_asset("BTC"), "BTC");
    assert_eq!(extract_base_asset("1000SHIB"), "SHIB");
    assert_eq!(extract_base_asset("10000SATS"), "SATS");
    assert_eq!(extract_base_asset("1000000MOG"), "MOG");
    // A ticker that merely begins with a digit is left intact.
    assert_eq!(extract_base_asset("1INCH"), "1INCH");
}

#[test]
fn tracked_symbols_are_counted_and_reports_are_sorted() {
    let mut t = SymbolSetTracker::new(list(&["b", "a", "b"]));
    assert_eq!(t.tracked_len(), 2);
    let d = t.observe(&set(&["z", "a", "c", "b"]));
    assert_eq!(d.added, vec!["c", "z"]);
    assert_eq!(t.tracked_len(), 4);
    t.observe(&set(&["a", "b"]));
    assert_eq!(t.observe(&set(&["a", "b"])).removed, vec!["c", "z"]);
    assert_eq!(t.tracked_len(), 2);
}

fn info(symbol: &str, base: &str) -> ExchangeInfoSymbol {
    ExchangeInfoSymbol {
        symbol: symbol.to_string(),
        status: "TRADING".to_string(),
        base_asset: base.to_string(),
        quote_asset: "USDT".to_string(),
        underlying_type: Some("COIN".to_string()),
        contract_type: "PERPETUAL".to_string(),
    }
}

fn rules() -> ExclusionConfig {
    ExclusionConfig {
        excluded_stablecoins: list(&["USDC"]),
        excluded_top30: list(&["BTC", "ETH", "DOGE"]),
        memecoin_exceptions: list(&["DOGE"]),
        excluded_symbols: list(&["BADUSDT"]),
    }
}

#[test]
fn discovery_selects_by_all_rules() {
    let mut halted = info("HALTUSDT", "HALT");
    halted.status = "SETTLING".to_string();
    let mut dated = info("DATEUSDT", "DATE");
    dated.contract_type = "CURRENT_QUARTER".to_string();
    let mut premarket = info("PREUSDT", "PRE");
    premarket.underlying_type = Some("PREMARKET".to_string());
    let mut busd = info("SOLBUSD", "SOL");
    busd.quote_asset = "BUSD".to_string();
    let mut plain = info("AAAUSDT", "AAA");
    plain.underlying_type = None;
    let exchange = ExchangeInfo {
        symbols: vec![
            halted,
            dated,
            premarket,
            busd,
            plain,
            info("USDCUSDT", "USDC"),
            info("DOGEUSDT", "DOGE"),
            info("BADUSDT", "BAD"),
            info("1000SHIBUSDT", "1000SHIB"),
        ],
    };
    let found = SymbolDiscovery::new(&rules()).discover_symbols(&exchange);
    assert_eq!(found, vec!["1000shibusdt", "aaausdt", "dogeusdt"]);
}

#[test]
fn anchors_are_collected_while_they_trade() {
    let discovery = SymbolDiscovery::new(&rules());
    let exchange = ExchangeInfo {
        symbols: vec![info("BTCUSDT", "BTC"), info("ETHUSDT", "ETH"), info("SOLUSDT", "SOL")],
    };
    let found = discovery.discover_symbols(&exchange);
    assert!(found.contains(&"btcusdt".to_string()));
    assert!(found.contains(&"solusdt".to_string()));
}

#[test]
fn anchors_override_exclusions_only() {
    let none = ExclusionConfig {
        excluded_stablecoins: Vec::new(),
        excluded_top30: Vec::new(),
        memecoin_exceptions: Vec::new(),
        excluded_symbols: Vec::new(),
    };
    let by_name = ExclusionConfig {
        excluded_stablecoins: Vec::new(),
        excluded_top30: list(&["DOGE"]),
        memecoin_exceptions: Vec::new(),
        excluded_symbols: list(&["btcusdt"]),
    };
    let find = |rules: &ExclusionConfig, symbols: Vec<ExchangeInfoSymbol>| {
        SymbolDiscovery::new(rules).discover_symbols(&ExchangeInfo { symbols })
    };
    let both = vec![info("DOGEUSDT", "DOGE"), info("BTCUSDT", "BTC")];
    assert_eq!(find(&by_name, both), vec!["btcusdt", "dogeusdt"]);

    // What is no eligible contract is not collected, whatever its name.
    let mut dated = info("BTCUSDT", "BTC");
    dated.contract_type = "CURRENT_QUARTER".to_string();
    assert!(find(&none, vec![dated]).is_empty());
    let mut premarket = info("BTCUSDT", "BTC");
    premarket.underlying_type = Some("PREMARKET".to_string());
    // An anchor is collected in the pre-market already, another symbol is not.
    let mut early = info("SOLUSDT", "SOL");
    early.underlying_type = Some("PREMARKET".to_string());
    assert_eq!(find(&none, vec![premarket, early]), vec!["btcusdt"]);
    let mut busd = info("DOGEUSDT", "DOGE");
    busd.quote_asset = "BUSD".to_string();
    assert!(find(&none, vec![busd]).is_empty());
    let mut halted = info("DOGEUSDT", "DOGE");
    halted.status = "SETTLING".to_string();
    assert!(find(&none, vec![halted]).is_empty());
}

#[test]
fn tracked_length_follows_the_changes() {
    let mut t = SymbolSetTracker::new(list(&["a", "b", "c"]));
    for found in [&["a", "d"][..], &["a", "e", "f"][..], &["b"][..], &[][..], &[][..]] {
        let before = t.tracked_len();
        let diff = t.observe(&set(found));
        assert_eq!(t.tracked_len() + diff.removed.len(), before + diff.added.len());
    }
    assert_eq!(t.tracked_len(), 0);
}

#[test]
fn listings_follow_discovery() {
    let mut listings = Listings::new(list(&["a", "b"]));
    let diff = listings.discovery_cycle(&list(&["a", "b", "c"]), 1000).unwrap();
    assert_eq!(diff.added, vec!["c"]);
    assert_eq!(listings.pending(), vec![("c".to_string(), 1000)]);
    assert!(!listings.is_delisted("c"));
}

#[test]
fn a_large_drop_is_not_trusted() {
    let many: Vec<String> = (0..20).map(|n| format!("s{n}")).collect();
    let mut listings = Listings::new(many.clone());
    // Twenty tracked: eighteen are nine tenths, seventeen are fewer.
    assert!(listings.discovery_cycle(&many[..17].to_vec(), 1).is_none());
    assert!(listings.discovery_cycle(&many[..17].to_vec(), 1).is_none());
    assert!(!listings.is_delisted("s19"));
    assert!(listings.discovery_cycle(&many[..18].to_vec(), 1).is_some());
    let diff = listings.discovery_cycle(&many[..18].to_vec(), 1).unwrap();
    assert_eq!(diff.removed, vec!["s18", "s19"]);
    assert!(listings.is_delisted("s19"));
    // A symbol that comes back is collected again.
    listings.discovery_cycle(&many[..19].to_vec(), 2);
    assert!(!listings.is_delisted("s18"));
    assert_eq!(listings.pending(), vec![("s18".to_string(), 2)]);
}

#[test]
fn configured_symbols_are_lowered() {
    assert_eq!(configured_symbols(&list(&["BTCUSDT", "ethUSDT"])), vec!["btcusdt", "ethusdt"]);
    assert_eq!(priority_symbol(&list(&["ethusdt", "btcusdt"])), Some("btcusdt".to_string()));
    assert_eq!(priority_symbol(&list(&["ethusdt"])), None);
}

#[test]
fn batches_hold_twenty_and_leave_none_out() {
    let symbols: Vec<String> = (0..45).map(|n| format!("s{n}")).collect();
    let batches = plan_batches(&symbols, &None);
    assert_eq!(batches.iter().map(|b| b.symbols.len()).collect::<Vec<_>>(), vec![20, 20, 5]);
    assert_eq!(batches.iter().map(|b| b.id).collect::<Vec<_>>(), vec![0, 1, 2]);
    let all: Vec<String> = batches.into_iter().flat_map(|b| b.symbols).collect();
    assert_eq!(all, symbols);
}

#[test]
fn the_priority_symbol_is_a_batch_of_its_own() {
    let symbols = list(&["ethusdt", "btcusdt", "solusdt"]);
    let priority = Some("btcusdt".to_string());
    assert_eq!(remaining_symbols(&symbols, &priority), vec!["ethusdt", "solusdt"]);
    let batches = plan_batches(&symbols, &priority);
    assert_eq!(batches.len(), 1);
    assert_eq!(batches[0].id, 1);
    assert!(plan_batches(&Vec::new(), &None).is_empty());
}

#[test]
fn the_rest_of_the_gap_is_waited_out() {
    assert_eq!(remaining_gap(4, 10), 6);
    assert_eq!(remaining_gap(12, 10), 0);
}

#[test]
fn the_priority_symbol_starts_before_the_batches() {
    let symbols = list(&["ethusdt", "btcusdt", "solusdt"]);
    let mut startup = Startup::new(&symbols, &Some("btcusdt".to_string()), 5, 10);
    assert_eq!(startup.stages().len(), 2);
    assert_eq!(startup.stages()[0].symbols, vec!["btcusdt"]);
    assert_eq!(startup.stages()[1].symbols, vec!["ethusdt", "solusdt"]);
    let answers = [false, false, false, false, false, false, true];
    let actions: Vec<StartAction> = answers.iter().map(|yes| startup.next(*yes)).collect();
    assert_eq!(
        actions,
        vec![
            StartAction::OpenSockets { stage: 0 },
            StartAction::Sleep { seconds: 5 },
            StartAction::StartSymbol { stage: 0, symbol: 0 },
            StartAction::AskLive,
            StartAction::Sleep { seconds: 1 },
            StartAction::AskLive,
            StartAction::Sleep { seconds: 10 },
        ]
    );
    let actions: Vec<StartAction> = (0..8).map(|_| startup.next(false)).collect();
    assert_eq!(
        actions,
        vec![
            StartAction::StartTasks,
            StartAction::OpenSockets { stage: 1 },
            StartAction::Sleep { seconds: 5 },
            StartAction::StartSymbol { stage: 1, symbol: 0 },
            StartAction::Spread { symbols: 2 },
            StartAction::StartSymbol { stage: 1, symbol: 1 },
            StartAction::Finish,
            StartAction::Finish,
        ]
    );
}

#[test]
fn the_priority_symbol_is_waited_for_half_a_minute() {
    let mut startup = Startup::new(&Vec::new(), &Some("btcusdt".to_string()), 0, 10);
    let mut slept = 0;
    let mut asked = 0;
    loop {
        match startup.next(false) {
            StartAction::Sleep { seconds } => slept += seconds,
            StartAction::AskLive => asked += 1,
            StartAction::Finish => break,
            _ => {}
        }
    }
    assert_eq!((slept, asked), (40, 30));
}

#[test]
fn batches_start_a_gap_apart() {
    let symbols: Vec<String> = (0..45).map(|n| format!("s{n}")).collect();
    for stable in [false, true] {
        let mut startup = Startup::new(&symbols, &None, 3, 7);
        assert_eq!(startup.next(false), StartAction::StartTasks);
        let mut slept = 0;
        let mut started = Vec::new();
        let mut opened = Vec::new();
        loop {
            match startup.next(stable) {
                StartAction::OpenSockets { stage } => {
                    assert!(stage == 0 || slept >= 7);
                    opened.push(stage);
                }
                StartAction::Sleep { seconds } => slept += seconds,
                StartAction::StartSymbol { stage, symbol } => {
                    // Sockets come first.
                    assert_eq!(opened.last(), Some(&stage));
                    started.push(startup.stages()[stage].symbols[symbol].clone());
                    slept = 0;
                }
                StartAction::Finish => break,
                _ => {}
            }
        }
        assert_eq!(opened, vec![0, 1, 2]);
        assert_eq!(started, symbols);
    }
}

#[test]
fn text_sets_hold_each_text_once() {
    let mut s = TextSet::new();
    s.insert("b".to_string());
    s.insert("a".to_string());
    s.insert("b".to_string());
    assert_eq!(s.len(), 2);
    assert_eq!(s.get(0), "a");
    assert!(s.contains("b") && !s.contains("c"));
    assert_eq!(s.to_vec(), vec!["a", "b"]);
    assert_eq!(sort_texts(&list(&["b", "a", "b", "B"])), vec!["B", "a", "b", "b"]);
}
