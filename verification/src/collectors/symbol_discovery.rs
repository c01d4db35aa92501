//! The set of symbols to collect, and how it changes from one discovery to the next.

use crate::config::list_contains;
use crate::models::{ExchangeInfo, ExchangeInfoSymbol};
use crate::symbol_maps;
use crate::text;
use crate::text::text_eq;
use crate::text_set;
use crate::text_set::{sort_texts, TextSet};
use dashmap::{DashMap, DashSet};
use vstd::prelude::*;

verus! {

/// What the exclusion file names.
pub struct ExclusionConfig {
    pub excluded_stablecoins: Vec<String>,
    pub excluded_top30: Vec<String>,
    pub memecoin_exceptions: Vec<String>,
    pub excluded_symbols: Vec<String>,
}

/// The base coin of an asset: multipliers like the one of `1000SHIB` are taken off, the
/// longest that fits.
pub open spec fn base_coin(asset: Seq<char>) -> Seq<char> {
    if text::has_prefix(asset, "1000000"@) {
        asset.skip(7)
    } else if text::has_prefix(asset, "10000"@) {
        asset.skip(5)
    } else if text::has_prefix(asset, "1000"@) {
        asset.skip(4)
    } else {
        asset
    }
}

/// The base coin of an asset.
pub fn extract_base_asset(base_asset: &str) -> (r: String)
    ensures
        r@ == base_coin(base_asset@),
{
    proof {
        reveal_strlit("1000000");
        reveal_strlit("10000");
        reveal_strlit("1000");
    }
    let chars: Vec<char> = text::chars_of(base_asset);
    let from: usize = if text::starts_with(&chars, &text::chars_of("1000000")) {
        7
    } else if text::starts_with(&chars, &text::chars_of("10000")) {
        5
    } else if text::starts_with(&chars, &text::chars_of("1000")) {
        4
    } else {
        0
    };
    let r: String = text::text_of(&chars, from, chars.len());
    assert(r@ =~= base_coin(base_asset@));
    r
}

/// The texts of a list in lower case.
pub open spec fn lowered(list: Seq<String>) -> Set<Seq<char>> {
    list.map_values(|s: String| text::lowercase(s@)).to_set()
}

/// The base assets that are left out: stablecoins, and the largest coins but for the
/// exceptions.
pub open spec fn excluded_assets(config: ExclusionConfig) -> Set<Seq<char>> {
    lowered(config.excluded_stablecoins@).union(
        lowered(config.excluded_top30@).difference(lowered(config.memecoin_exceptions@)),
    )
}

/// Finds the symbols to collect.
pub struct SymbolDiscovery {
    excluded_base_assets: TextSet,
    excluded_symbols: TextSet,
}

/// The rules of a discovery as mathematical values.
pub struct DiscoveryView {
    pub excluded_assets: Set<Seq<char>>,
    pub excluded_symbols: Set<Seq<char>>,
}

/// A listed contract is of the kind that is collected: it trades, is perpetual and is
/// settled in USDT.
pub open spec fn is_eligible(info: ExchangeInfoSymbol) -> bool {
    &&& info.status@ == "TRADING"@
    &&& info.contract_type@ == "PERPETUAL"@
    &&& info.quote_asset@ == "USDT"@
}

/// A listed contract is a pre-market one.
pub open spec fn is_premarket(info: ExchangeInfoSymbol) -> bool {
    match info.underlying_type {
        Some(underlying) => underlying@ == "PREMARKET"@,
        None => false,
    }
}

impl DiscoveryView {
    /// A symbol is collected: its contract is eligible and no pre-market one, and neither
    /// its base coin nor the symbol itself is left out.
    pub open spec fn selects(self, info: ExchangeInfoSymbol) -> bool {
        &&& is_eligible(info)
        &&& !is_premarket(info)
        &&& !self.excluded_assets.contains(text::lowercase(base_coin(info.base_asset@)))
        &&& !self.excluded_symbols.contains(text::lowercase(info.symbol@))
    }

    /// The symbols that are collected, in lower case, in the order in which they are
    /// listed.
    pub open spec fn selected(self, infos: Seq<ExchangeInfoSymbol>) -> Seq<Seq<char>>
        decreases infos.len(),
    {
        if infos.len() == 0 {
            seq![]
        } else {
            let front = self.selected(infos.drop_last());
            if self.selects(infos.last()) {
                front.push(text::lowercase(infos.last().symbol@))
            } else {
                front
            }
        }
    }
}

/// An eligible contract of that name trades.
pub open spec fn trades(infos: Seq<ExchangeInfoSymbol>, symbol: Seq<char>) -> bool {
    exists|i: int|
        0 <= i < infos.len() && text::lowercase((#[trigger] infos[i]).symbol@) == symbol
            && is_eligible(infos[i])
}

/// The symbols with one more that is collected while an eligible contract of that name
/// trades, whatever the exclusions say, and in the pre-market already.
pub open spec fn with_anchor(
    symbols: Seq<Seq<char>>,
    infos: Seq<ExchangeInfoSymbol>,
    anchor: Seq<char>,
) -> Seq<Seq<char>> {
    if !symbols.contains(anchor) && trades(infos, anchor) {
        symbols.push(anchor)
    } else {
        symbols
    }
}

impl View for SymbolDiscovery {
    type V = DiscoveryView;

    closed spec fn view(&self) -> DiscoveryView {
        DiscoveryView {
            excluded_assets: self.excluded_base_assets@,
            excluded_symbols: self.excluded_symbols@,
        }
    }
}

/// A set of the texts of a list in lower case.
fn lower_set(list: &Vec<String>) -> (r: TextSet)
    ensures
        r.wf(),
        r@ == lowered(list@),
{
    let mut set: TextSet = TextSet::new();
    let mut i: usize = 0;
    let ghost all = list@.map_values(|s: String| text::lowercase(s@));
    assert(all.take(0).to_set() =~= Set::empty());
    while i < list.len()
        invariant
            i <= list.len(),
            all == list@.map_values(|s: String| text::lowercase(s@)),
            set.wf(),
            set@ == all.take(i as int).to_set(),
        decreases list.len() - i,
    {
        set.insert(text::to_lowercase(list[i].as_str()));
        proof {
            lemma_take_to_set(all, i as int);
        }
        i = i + 1;
    }
    assert(all.take(list.len() as int) =~= all);
    set
}

/// One more text of a list.
proof fn lemma_take_to_set(list: Seq<Seq<char>>, n: int)
    requires
        0 <= n < list.len(),
    ensures
        list.take(n + 1).to_set() == list.take(n).to_set().insert(list[n]),
{
    let short = list.take(n);
    let long = list.take(n + 1);
    assert forall|x: Seq<char>| long.to_set().contains(x) <==> short.to_set().insert(
        list[n],
    ).contains(x) by {
        if long.contains(x) {
            let i = choose|i: int| 0 <= i < long.len() && long[i] == x;
            if i < n {
                assert(short[i] == x);
            }
        }
        if short.contains(x) {
            let i = choose|i: int| 0 <= i < short.len() && short[i] == x;
            assert(long[i] == x);
        }
        if x == list[n] {
            assert(long[n] == x);
        }
    }
    assert(long.to_set() =~= short.to_set().insert(list[n]));
}

/// Whether a listed contract is of the kind that is collected.
fn has_right_kind(info: &ExchangeInfoSymbol) -> (r: bool)
    ensures
        r == is_eligible(*info),
{
    if !text_eq(info.status.as_str(), "TRADING") {
        return false;
    }
    if !text_eq(info.contract_type.as_str(), "PERPETUAL") {
        return false;
    }
    text_eq(info.quote_asset.as_str(), "USDT")
}

/// Whether an eligible contract of that name trades.
fn is_trading(infos: &Vec<ExchangeInfoSymbol>, symbol: &str) -> (r: bool)
    ensures
        r == trades(infos@, symbol@),
{
    let mut i: usize = 0;
    while i < infos.len()
        invariant
            i <= infos.len(),
            forall|k: int|
                0 <= k < i ==> !(text::lowercase((#[trigger] infos@[k]).symbol@) == symbol@
                    && is_eligible(infos@[k])),
        decreases infos.len() - i,
    {
        let lower: String = text::to_lowercase(infos[i].symbol.as_str());
        if text_eq(lower.as_str(), symbol) && has_right_kind(&infos[i]) {
            return true;
        }
        i = i + 1;
    }
    false
}

/// Adds a symbol that is collected while an eligible contract of that name trades.
fn add_anchor(symbols: &mut Vec<String>, infos: &Vec<ExchangeInfoSymbol>, anchor: &str)
    ensures
        text::texts(final(symbols)@) == with_anchor(text::texts(old(symbols)@), infos@, anchor@),
{
    let ghost before = text::texts(symbols@);
    let listed: bool = list_contains(symbols, anchor);
    proof {
        assert(listed == before.contains(anchor@)) by {
            if listed {
                let i = choose|i: int| 0 <= i < symbols@.len() && (#[trigger] symbols@[i])@ == anchor@;
                assert(before[i] == anchor@);
            }
            if before.contains(anchor@) {
                let i = choose|i: int| 0 <= i < before.len() && before[i] == anchor@;
                assert(symbols@[i]@ == anchor@);
            }
        }
    }
    if !listed && is_trading(infos, anchor) {
        symbols.push(anchor.to_owned());
        assert(text::texts(symbols@) =~= before.push(anchor@));
    }
}

impl SymbolDiscovery {
    /// The rules of the discovery are in order.
    pub closed spec fn wf(&self) -> bool {
        self.excluded_base_assets.wf() && self.excluded_symbols.wf()
    }

    /// A discovery that leaves out what the exclusion file names.
    pub fn new(config: &ExclusionConfig) -> (r: SymbolDiscovery)
        ensures
            r.wf(),
            r@.excluded_assets == excluded_assets(*config),
            r@.excluded_symbols == lowered(config.excluded_symbols@),
    {
        let mut assets: TextSet = lower_set(&config.excluded_stablecoins);
        let exceptions: TextSet = lower_set(&config.memecoin_exceptions);
        let top: &Vec<String> = &config.excluded_top30;
        let ghost stable = assets@;
        let ghost all = top@.map_values(|s: String| text::lowercase(s@));
        let mut i: usize = 0;
        proof {
            assert(all.take(0).to_set() =~= Set::empty());
            assert(stable.union(all.take(0).to_set().difference(exceptions@)) =~= stable);
        }
        while i < top.len()
            invariant
                i <= top.len(),
                all == top@.map_values(|s: String| text::lowercase(s@)),
                assets.wf(),
                exceptions.wf(),
                assets@ == stable.union(all.take(i as int).to_set().difference(exceptions@)),
            decreases top.len() - i,
        {
            let lower: String = text::to_lowercase(top[i].as_str());
            let ghost before = all.take(i as int).to_set();
            let ghost name = all[i as int];
            proof {
                lemma_take_to_set(all, i as int);
            }
            if !exceptions.contains(lower.as_str()) {
                assert(stable.union(before.difference(exceptions@)).insert(name) =~= stable.union(
                    before.insert(name).difference(exceptions@),
                ));
                assets.insert(lower);
            } else {
                assert(before.insert(name).difference(exceptions@) =~= before.difference(
                    exceptions@,
                ));
            }
            i = i + 1;
        }
        assert(all.take(top.len() as int) =~= all);
        SymbolDiscovery {
            excluded_base_assets: assets,
            excluded_symbols: lower_set(&config.excluded_symbols),
        }
    }

    /// Whether a listed symbol is collected.
    fn accepts(&self, info: &ExchangeInfoSymbol) -> (r: bool)
        requires
            self.wf(),
        ensures
            r == self@.selects(*info),
    {
        if !has_right_kind(info) {
            return false;
        }
        match &info.underlying_type {
            Some(underlying) => {
                if text_eq(underlying.as_str(), "PREMARKET") {
                    return false;
                }
            },
            None => {},
        }
        let coin: String = extract_base_asset(info.base_asset.as_str());
        if self.excluded_base_assets.contains(text::to_lowercase(coin.as_str()).as_str()) {
            return false;
        }
        !self.excluded_symbols.contains(text::to_lowercase(info.symbol.as_str()).as_str())
    }

    /// The symbols to collect among those that the exchange lists, sorted. `btcusdt` and
    /// `dogeusdt` are among them while eligible contracts of these names trade, whatever
    /// the exclusions say, and in the pre-market already.
    pub fn discover_symbols(&self, exchange_info: &ExchangeInfo) -> (r: Vec<String>)
        requires
            self.wf(),
        ensures
            text_set::sorted(text::texts(r@)),
            text::texts(r@).to_multiset() == with_anchor(
                with_anchor(
                    self@.selected(exchange_info.symbols@),
                    exchange_info.symbols@,
                    "btcusdt"@,
                ),
                exchange_info.symbols@,
                "dogeusdt"@,
            ).to_multiset(),
    {
        let infos: &Vec<ExchangeInfoSymbol> = &exchange_info.symbols;
        let mut symbols: Vec<String> = Vec::new();
        let mut i: usize = 0;
        assert(infos@.take(0) =~= seq![]);
        assert(text::texts(symbols@) =~= seq![]);
        while i < infos.len()
            invariant
                i <= infos.len(),
                self.wf(),
                text::texts(symbols@) == self@.selected(infos@.take(i as int)),
            decreases infos.len() - i,
        {
            assert(infos@.take(i + 1).drop_last() =~= infos@.take(i as int));
            if self.accepts(&infos[i]) {
                let ghost before = symbols@;
                let name: String = text::to_lowercase(infos[i].symbol.as_str());
                let ghost added = name@;
                symbols.push(name);
                assert(text::texts(symbols@) =~= text::texts(before).push(added));
            }
            i = i + 1;
        }
        assert(infos@.take(infos.len() as int) =~= infos@);
        add_anchor(&mut symbols, infos, "btcusdt");
        add_anchor(&mut symbols, infos, "dogeusdt");
        sort_texts(&symbols)
    }
}

/// An anchor is discovered while an eligible contract of its name trades, whatever the
/// exclusions say.
pub proof fn anchors_are_collected(
    discovery: DiscoveryView,
    infos: Seq<ExchangeInfoSymbol>,
    found: Seq<Seq<char>>,
)
    requires
        found.to_multiset() == with_anchor(
            with_anchor(discovery.selected(infos), infos, "btcusdt"@),
            infos,
            "dogeusdt"@,
        ).to_multiset(),
    ensures
        trades(infos, "btcusdt"@) ==> found.contains("btcusdt"@),
        trades(infos, "dogeusdt"@) ==> found.contains("dogeusdt"@),
{
    let first = with_anchor(discovery.selected(infos), infos, "btcusdt"@);
    let both = with_anchor(first, infos, "dogeusdt"@);
    found.to_multiset_ensures();
    both.to_multiset_ensures();
    if trades(infos, "btcusdt"@) {
        assert(first.contains("btcusdt"@)) by {
            if !discovery.selected(infos).contains("btcusdt"@) {
                assert(first.last() == "btcusdt"@);
            }
        }
        let i = choose|i: int| 0 <= i < first.len() && first[i] == "btcusdt"@;
        assert(both[i] == "btcusdt"@);
        assert(both.contains("btcusdt"@));
        assert(both.to_multiset().count("btcusdt"@) > 0);
        assert(found.to_multiset().count("btcusdt"@) > 0);
    }
    if trades(infos, "dogeusdt"@) {
        if !first.contains("dogeusdt"@) {
            assert(both.last() == "dogeusdt"@);
        }
        assert(both.contains("dogeusdt"@));
        assert(both.to_multiset().count("dogeusdt"@) > 0);
        assert(found.to_multiset().count("dogeusdt"@) > 0);
    }
}

/// What is selected trades as an eligible contract.
proof fn lemma_selected_trades(
    discovery: DiscoveryView,
    infos: Seq<ExchangeInfoSymbol>,
    symbol: Seq<char>,
)
    requires
        discovery.selected(infos).contains(symbol),
    ensures
        trades(infos, symbol),
    decreases infos.len(),
{
    if infos.len() > 0 {
        let shorter = infos.drop_last();
        let front = discovery.selected(shorter);
        let last = infos[infos.len() - 1];
        if !(discovery.selects(last) && text::lowercase(last.symbol@) == symbol) {
            let all = discovery.selected(infos);
            let k = choose|k: int| 0 <= k < all.len() && all[k] == symbol;
            assert(front[k] == symbol);
            lemma_selected_trades(discovery, shorter, symbol);
            let i = choose|i: int|
                0 <= i < shorter.len() && text::lowercase((#[trigger] shorter[i]).symbol@) == symbol
                    && is_eligible(shorter[i]);
            assert(infos[i] == shorter[i]);
        }
    }
}

/// Only eligible contracts are discovered: what trades, is perpetual and is settled in
/// USDT. This holds of the anchors too.
pub proof fn only_eligible_contracts_are_collected(
    discovery: DiscoveryView,
    infos: Seq<ExchangeInfoSymbol>,
    found: Seq<Seq<char>>,
    symbol: Seq<char>,
)
    requires
        found.to_multiset() == with_anchor(
            with_anchor(discovery.selected(infos), infos, "btcusdt"@),
            infos,
            "dogeusdt"@,
        ).to_multiset(),
        found.contains(symbol),
    ensures
        trades(infos, symbol),
{
    let chosen = discovery.selected(infos);
    let first = with_anchor(chosen, infos, "btcusdt"@);
    let both = with_anchor(first, infos, "dogeusdt"@);
    found.to_multiset_ensures();
    both.to_multiset_ensures();
    assert(found.to_multiset().count(symbol) > 0);
    assert(both.contains(symbol));
    let k = choose|k: int| 0 <= k < both.len() && both[k] == symbol;
    if !trades(infos, symbol) {
        assert(first[k] == symbol);
        assert(chosen[k] == symbol);
        lemma_selected_trades(discovery, infos, symbol);
    }
}

/// What one discovery changed.
pub struct SymbolSetDiff {
    pub added: Vec<String>,
    pub removed: Vec<String>,
}

/// A tracker as mathematical values.
pub struct TrackerView {
    /// Symbols that count as listed.
    pub known: Set<Seq<char>>,
    /// Those of them that the last discovery did not find.
    pub missing_once: Set<Seq<char>>,
}

impl TrackerView {
    /// The symbols that a discovery finds for the first time.
    pub open spec fn added(self, found: Set<Seq<char>>) -> Set<Seq<char>> {
        found.difference(self.known)
    }

    /// The symbols that are gone for the second time in a row.
    pub open spec fn removed(self, found: Set<Seq<char>>) -> Set<Seq<char>> {
        self.known.difference(found).intersect(self.missing_once)
    }

    /// The tracker after a discovery.
    pub open spec fn observed(self, found: Set<Seq<char>>) -> TrackerView {
        TrackerView {
            known: self.known.union(found).difference(self.removed(found)),
            missing_once: self.known.difference(found).difference(self.missing_once),
        }
    }
}

/// Follows the set of listed symbols over discoveries. A new symbol counts at once; one
/// is removed only after it was absent twice in a row, so that one bad answer cannot
/// take down a live symbol. A discovery that failed is not shown to the tracker, and so
/// changes nothing.
pub struct SymbolSetTracker {
    known: TextSet,
    missing_once: TextSet,
}

impl View for SymbolSetTracker {
    type V = TrackerView;

    closed spec fn view(&self) -> TrackerView {
        TrackerView { known: self.known@, missing_once: self.missing_once@ }
    }
}

impl SymbolSetTracker {
    /// The sets of the tracker are in order.
    pub closed spec fn wf(&self) -> bool {
        self.known.wf() && self.missing_once.wf()
    }

    /// A tracker that starts with the given symbols.
    pub fn new(initial: Vec<String>) -> (r: SymbolSetTracker)
        ensures
            r.wf(),
            r@.known == text::texts(initial@).to_set(),
            r@.known.finite(),
            r@.missing_once == Set::<Seq<char>>::empty(),
    {
        SymbolSetTracker { known: TextSet::from_list(&initial), missing_once: TextSet::new() }
    }

    /// How many symbols count as listed.
    pub fn tracked_len(&self) -> (r: usize)
        requires
            self.wf(),
        ensures
            r == self@.known.len(),
            self@.known.finite(),
    {
        proof {
            self.known.list_is_the_set();
        }
        self.known.len()
    }

    /// Takes in what a discovery found. Reports the new symbols and those that are gone
    /// for good, each list sorted.
    pub fn observe(&mut self, discovered: &TextSet) -> (r: SymbolSetDiff)
        requires
            old(self).wf(),
            discovered.wf(),
        ensures
            final(self).wf(),
            final(self)@ == old(self)@.observed(discovered@),
            old(self)@.known.finite(),
            final(self)@.known.finite(),
            text_set::increasing(text::texts(r.added@)),
            text::texts(r.added@).to_set() == old(self)@.added(discovered@),
            text_set::increasing(text::texts(r.removed@)),
            text::texts(r.removed@).to_set() == old(self)@.removed(discovered@),
    {
        let ghost before = self@;
        let added: TextSet = subtract(discovered, &self.known);
        let absent: TextSet = subtract(&self.known, discovered);
        let missing_now: TextSet = subtract(&absent, &self.missing_once);
        let removed: TextSet = subtract(&absent, &missing_now);
        let present: TextSet = join(&self.known, &added);
        let remaining: TextSet = subtract(&present, &removed);
        proof {
            assert(removed@ =~= before.removed(discovered@));
            assert(remaining@ =~= before.observed(discovered@).known);
            self.known.list_is_the_set();
            remaining.list_is_the_set();
        }
        self.known = remaining;
        self.missing_once = missing_now;
        SymbolSetDiff { added: added.to_vec(), removed: removed.to_vec() }
    }
}

/// The texts of `a` that are not in `b`.
fn subtract(a: &TextSet, b: &TextSet) -> (r: TextSet)
    requires
        a.wf(),
        b.wf(),
    ensures
        r.wf(),
        r@ == a@.difference(b@),
{
    let mut out: TextSet = TextSet::new();
    let mut i: usize = 0;
    let count: usize = a.len();
    let ghost list = a.list();
    proof {
        a.list_is_the_set();
        assert(list.take(0).to_set() =~= Set::empty());
        assert(list.take(0).to_set().difference(b@) =~= Set::empty());
    }
    while i < count
        invariant
            i <= count,
            count == list.len(),
            list == a.list(),
            a.wf(),
            b.wf(),
            out.wf(),
            out@ == list.take(i as int).to_set().difference(b@),
        decreases count - i,
    {
        let item: &String = a.get(i);
        let ghost before = list.take(i as int).to_set();
        let ghost name = list[i as int];
        proof {
            lemma_take_to_set(list, i as int);
        }
        if !b.contains(item.as_str()) {
            assert(before.difference(b@).insert(name) =~= before.insert(name).difference(b@));
            out.insert(item.clone());
        } else {
            assert(before.insert(name).difference(b@) =~= before.difference(b@));
        }
        i = i + 1;
    }
    assert(list.take(count as int) =~= list);
    out
}

/// The texts of both sets.
fn join(a: &TextSet, b: &TextSet) -> (r: TextSet)
    requires
        a.wf(),
        b.wf(),
    ensures
        r.wf(),
        r@ == a@.union(b@),
{
    let mut out: TextSet = TextSet::from_list(&a.to_vec());
    let mut i: usize = 0;
    let count: usize = b.len();
    let ghost list = b.list();
    proof {
        b.list_is_the_set();
        assert(list.take(0).to_set() =~= Set::empty());
        assert(a@.union(list.take(0).to_set()) =~= a@);
    }
    while i < count
        invariant
            i <= count,
            count == list.len(),
            list == b.list(),
            b.wf(),
            out.wf(),
            out@ == a@.union(list.take(i as int).to_set()),
        decreases count - i,
    {
        let ghost before = list.take(i as int).to_set();
        let ghost name = list[i as int];
        out.insert(b.get(i).clone());
        proof {
            lemma_take_to_set(list, i as int);
            assert(a@.union(before).insert(name) =~= a@.union(before.insert(name)));
        }
        i = i + 1;
    }
    assert(list.take(count as int) =~= list);
    out
}

/// A new symbol is reported at once, and not again.
pub proof fn listing_is_reported_once(tracker: TrackerView, found: Set<Seq<char>>, symbol: Seq<char>)
    requires
        found.contains(symbol),
        !tracker.known.contains(symbol),
    ensures
        tracker.added(found).contains(symbol),
        tracker.observed(found).known.contains(symbol),
        !tracker.observed(found).added(found).contains(symbol),
{
}

/// One absence never removes a symbol.
pub proof fn one_absence_is_no_removal(
    tracker: TrackerView,
    found: Set<Seq<char>>,
    symbol: Seq<char>,
)
    requires
        tracker.known.contains(symbol),
        !tracker.missing_once.contains(symbol),
        !found.contains(symbol),
    ensures
        !tracker.removed(found).contains(symbol),
        tracker.observed(found).known.contains(symbol),
        tracker.observed(found).missing_once.contains(symbol),
{
}

/// Two absences in a row remove a symbol, and it is not reported a second time.
pub proof fn two_absences_remove(
    tracker: TrackerView,
    first: Set<Seq<char>>,
    second: Set<Seq<char>>,
    third: Set<Seq<char>>,
    symbol: Seq<char>,
)
    requires
        tracker.known.contains(symbol),
        !tracker.missing_once.contains(symbol),
        !first.contains(symbol),
        !second.contains(symbol),
    ensures
        tracker.observed(first).removed(second).contains(symbol),
        !tracker.observed(first).observed(second).known.contains(symbol),
        !tracker.observed(first).observed(second).removed(third).contains(symbol),
{
}

/// A symbol that reappears starts over: only two further absences remove it.
pub proof fn reappearance_clears_the_strike(
    tracker: TrackerView,
    found: Set<Seq<char>>,
    next: Set<Seq<char>>,
    symbol: Seq<char>,
)
    requires
        tracker.known.contains(symbol),
        found.contains(symbol),
    ensures
        !tracker.added(found).contains(symbol),
        !tracker.removed(found).contains(symbol),
        !tracker.observed(found).missing_once.contains(symbol),
        !tracker.observed(found).removed(next).contains(symbol),
{
}

/// A symbol that was removed and is listed again is reported as new.
pub proof fn relisting_is_an_addition(
    tracker: TrackerView,
    gone: Set<Seq<char>>,
    back: Set<Seq<char>>,
    symbol: Seq<char>,
)
    requires
        tracker.removed(gone).contains(symbol),
        back.contains(symbol),
    ensures
        tracker.observed(gone).added(back).contains(symbol),
{
}

/// No symbol is reported as new and as gone at once.
pub proof fn added_and_removed_are_disjoint(tracker: TrackerView, found: Set<Seq<char>>)
    ensures
        tracker.added(found).disjoint(tracker.removed(found)),
{
}

/// The number of tracked symbols grows by what is added and shrinks by what is removed.
pub proof fn length_follows_the_changes(tracker: TrackerView, found: Set<Seq<char>>)
    requires
        tracker.known.finite(),
        found.finite(),
    ensures
        tracker.observed(found).known.finite(),
        tracker.observed(found).known.len() + tracker.removed(found).len() == tracker.known.len()
            + tracker.added(found).len(),
{
    let added = tracker.added(found);
    let removed = tracker.removed(found);
    let present = tracker.known.union(found);
    let after = tracker.observed(found).known;
    assert(present =~= tracker.known.union(added));
    assert(present =~= after.union(removed));
    assert(tracker.known.disjoint(added));
    assert(after.disjoint(removed));
    vstd::set_lib::lemma_set_disjoint_lens(tracker.known, added);
    vstd::set_lib::lemma_set_disjoint_lens(after, removed);
}

/// `dashmap::DashSet`, opaque.
#[verifier::external_type_specification]
#[verifier::external_body]
#[verifier::reject_recursive_types(K)]
#[verifier::reject_recursive_types(S)]
pub struct ExDashSet<K, S>(dashmap::DashSet<K, S>);

/// What a set of texts holds.
pub uninterp spec fn set_entries(set: DashSet<String>) -> Set<Seq<char>>;

/// `DashSet::new`: an empty set.
#[verifier::external_body]
fn empty_set() -> (r: DashSet<String>)
    ensures
        set_entries(r) == Set::<Seq<char>>::empty(),
{
    DashSet::new()
}

/// `DashSet::insert`: the text is in the set, others are as before.
#[verifier::external_body]
fn set_insert(set: &mut DashSet<String>, key: &str)
    ensures
        set_entries(*final(set)) == set_entries(*old(set)).insert(key@),
{
    set.insert(key.to_string());
}

/// `DashSet::remove`: the text is not in the set, others are as before.
#[verifier::external_body]
fn set_remove(set: &mut DashSet<String>, key: &str)
    ensures
        set_entries(*final(set)) == set_entries(*old(set)).remove(key@),
{
    set.remove(key);
}

/// `DashSet::contains`.
#[verifier::external_body]
fn set_contains(set: &DashSet<String>, key: &str) -> (r: bool)
    ensures
        r == set_entries(*set).contains(key@),
{
    set.contains(key)
}

/// Listed, delisted and newly listed symbols while the collector runs.
pub struct Listings {
    tracker: SymbolSetTracker,
    delisted: DashSet<String>,
    new_listings: DashMap<String, i64>,
}

/// The listings as mathematical values.
pub struct ListingsView {
    pub tracker: TrackerView,
    pub delisted: Set<Seq<char>>,
    /// Symbols found since the start, and when, in milliseconds.
    pub new_listings: Map<Seq<char>, i64>,
}

impl ListingsView {
    /// A discovery found so much less than is known that it is not to be trusted: more
    /// than a tenth is gone.
    pub open spec fn distrusts(self, found: Set<Seq<char>>) -> bool {
        found.len() * 10 < self.tracker.known.len() * 9
    }

    /// The listings after a discovery that is trusted.
    pub open spec fn updated(self, found: Set<Seq<char>>, now_ms: i64) -> ListingsView {
        let added = self.tracker.added(found);
        let removed = self.tracker.removed(found);
        ListingsView {
            tracker: self.tracker.observed(found),
            delisted: self.delisted.difference(added).union(removed),
            new_listings: self.new_listings.union_prefer_right(
                Map::new(|s: Seq<char>| added.contains(s), |s: Seq<char>| now_ms),
            ).remove_keys(removed),
        }
    }
}

impl View for Listings {
    type V = ListingsView;

    closed spec fn view(&self) -> ListingsView {
        ListingsView {
            tracker: self.tracker@,
            delisted: set_entries(self.delisted),
            new_listings: symbol_maps::i64_entries(self.new_listings),
        }
    }
}

impl Listings {
    /// The listings are in order.
    pub closed spec fn wf(&self) -> bool {
        self.tracker.wf()
    }

    /// The symbols with which the collector starts.
    pub fn new(initial: Vec<String>) -> (r: Listings)
        ensures
            r.wf(),
            r@.tracker.known == text::texts(initial@).to_set(),
            r@.tracker.known.finite(),
            r@.tracker.missing_once == Set::<Seq<char>>::empty(),
            r@.delisted == Set::<Seq<char>>::empty(),
            r@.new_listings == (Map::<Seq<char>, i64>::empty()),
    {
        Listings {
            tracker: SymbolSetTracker::new(initial),
            delisted: empty_set(),
            new_listings: symbol_maps::i64_map(),
        }
    }

    /// Whether a symbol is delisted.
    pub fn is_delisted(&self, symbol: &str) -> (r: bool)
        ensures
            r == self@.delisted.contains(symbol@),
    {
        set_contains(&self.delisted, symbol)
    }

    /// Takes in what a discovery found at `now_ms`. Without effect, and `None`, when more
    /// than a tenth of the known symbols is gone at once: an exchange under maintenance
    /// looks like that. Symbols that are new, or new again, are no longer delisted;
    /// symbols that are gone are delisted and no longer pending.
    pub fn discovery_cycle(&mut self, discovered: &Vec<String>, now_ms: i64) -> (r: Option<
        SymbolSetDiff,
    >)
        requires
            old(self).wf(),
        ensures
            final(self).wf(),
            final(self)@.tracker.known.finite(),
            ({
                let found = text::texts(discovered@).to_set();
                &&& r is None <==> old(self)@.distrusts(found)
                &&& r is None ==> final(self)@ == old(self)@
                &&& r matches Some(diff) ==> {
                    &&& final(self)@ == old(self)@.updated(found, now_ms)
                    &&& text_set::increasing(text::texts(diff.added@))
                    &&& text::texts(diff.added@).to_set() == old(self)@.tracker.added(found)
                    &&& text_set::increasing(text::texts(diff.removed@))
                    &&& text::texts(diff.removed@).to_set() == old(self)@.tracker.removed(found)
                }
            }),
    {
        let found: TextSet = TextSet::from_list(discovered);
        if found.len() as u128 * 10 < self.tracker.tracked_len() as u128 * 9 {
            return None;
        }
        let ghost before = self@;
        let diff: SymbolSetDiff = self.tracker.observe(&found);
        let ghost added = text::texts(diff.added@);
        let ghost removed = text::texts(diff.removed@);
        let mut i: usize = 0;
        proof {
            assert(added.take(0).to_set() =~= Set::empty());
            assert(before.delisted.difference(added.take(0).to_set()) =~= before.delisted);
            assert(before.new_listings.union_prefer_right(stamped(Set::empty(), now_ms))
                =~= before.new_listings);
        }
        while i < diff.added.len()
            invariant
                i <= diff.added.len(),
                added == text::texts(diff.added@),
                self.tracker.wf(),
                self.tracker@ == before.tracker.observed(found@),
                self@.delisted == before.delisted.difference(added.take(i as int).to_set()),
                self@.new_listings == before.new_listings.union_prefer_right(
                    stamped(added.take(i as int).to_set(), now_ms),
                ),
            decreases diff.added.len() - i,
        {
            let ghost some = added.take(i as int).to_set();
            let ghost name = added[i as int];
            set_remove(&mut self.delisted, diff.added[i].as_str());
            symbol_maps::i64_insert(&mut self.new_listings, diff.added[i].as_str(), now_ms);
            proof {
                lemma_take_to_set(added, i as int);
                assert(before.delisted.difference(some).remove(name) =~= before.delisted.difference(
                    some.insert(name),
                ));
                assert(before.new_listings.union_prefer_right(stamped(some, now_ms)).insert(
                    name,
                    now_ms,
                ) =~= before.new_listings.union_prefer_right(stamped(some.insert(name), now_ms)));
            }
            i = i + 1;
        }
        let ghost mid = self@;
        let mut j: usize = 0;
        proof {
            assert(added.take(added.len() as int) =~= added);
            assert(removed.take(0).to_set() =~= Set::empty());
            assert(mid.delisted.union(removed.take(0).to_set()) =~= mid.delisted);
            assert(mid.new_listings.remove_keys(removed.take(0).to_set()) =~= mid.new_listings);
        }
        while j < diff.removed.len()
            invariant
                j <= diff.removed.len(),
                removed == text::texts(diff.removed@),
                self.tracker.wf(),
                self.tracker@ == before.tracker.observed(found@),
                self@.delisted == mid.delisted.union(removed.take(j as int).to_set()),
                self@.new_listings == mid.new_listings.remove_keys(removed.take(j as int).to_set()),
            decreases diff.removed.len() - j,
        {
            let ghost some = removed.take(j as int).to_set();
            let ghost name = removed[j as int];
            symbol_maps::i64_remove(&mut self.new_listings, diff.removed[j].as_str());
            set_insert(&mut self.delisted, diff.removed[j].as_str());
            proof {
                lemma_take_to_set(removed, j as int);
                assert(mid.delisted.union(some).insert(name) =~= mid.delisted.union(
                    some.insert(name),
                ));
                assert(mid.new_listings.remove_keys(some).remove(name)
                    =~= mid.new_listings.remove_keys(some.insert(name)));
            }
            j = j + 1;
        }
        proof {
            assert(removed.take(removed.len() as int) =~= removed);
            let after = before.updated(found@, now_ms);
            assert(self@.delisted =~= after.delisted);
            assert(self@.new_listings =~= after.new_listings);
        }
        Some(diff)
    }

    /// The symbols found since the start that still wait for a restart, with the time of
    /// their discovery, in no particular order.
    pub fn pending(&self) -> (r: Vec<(String, i64)>)
        ensures
            symbol_maps::lists_entries(self@.new_listings, r@),
    {
        symbol_maps::i64_list(&self.new_listings)
    }
}

/// Symbols that were all found at one time.
pub open spec fn stamped(symbols: Set<Seq<char>>, now_ms: i64) -> Map<Seq<char>, i64> {
    Map::new(|s: Seq<char>| symbols.contains(s), |s: Seq<char>| now_ms)
}

/// A symbol that is listed again is not delisted any more, and one that is gone is no
/// longer pending.
pub proof fn listings_are_consistent(
    listings: ListingsView,
    found: Set<Seq<char>>,
    now_ms: i64,
    symbol: Seq<char>,
)
    ensures
        listings.tracker.added(found).contains(symbol) ==> !listings.updated(
            found,
            now_ms,
        ).delisted.contains(symbol) && listings.updated(found, now_ms).new_listings.contains_key(
            symbol,
        ) && listings.updated(found, now_ms).new_listings[symbol] == now_ms,
        listings.tracker.removed(found).contains(symbol) ==> listings.updated(
            found,
            now_ms,
        ).delisted.contains(symbol) && !listings.updated(found, now_ms).new_listings.contains_key(
            symbol,
        ),
{
}

/// The symbols to collect when the settings name them: those, in lower case.
pub fn configured_symbols(symbols: &Vec<String>) -> (r: Vec<String>)
    ensures
        text::texts(r@) == symbols@.map_values(|s: String| text::lowercase(s@)),
{
    let mut out: Vec<String> = Vec::new();
    let mut i: usize = 0;
    while i < symbols.len()
        invariant
            i <= symbols.len(),
            out.len() == i,
            forall|k: int| 0 <= k < i ==> (#[trigger] out@[k])@ == text::lowercase(symbols@[k]@),
        decreases symbols.len() - i,
    {
        out.push(text::to_lowercase(symbols[i].as_str()));
        i = i + 1;
    }
    assert(text::texts(out@) =~= symbols@.map_values(|s: String| text::lowercase(s@)));
    out
}

/// The symbol that is started first: `btcusdt`, when it is collected.
pub fn priority_symbol(symbols: &Vec<String>) -> (r: Option<String>)
    ensures
        r is Some <==> crate::config::lists_symbol(symbols@, "btcusdt"@),
        r matches Some(symbol) ==> symbol@ == "btcusdt"@,
{
    if list_contains(symbols, "btcusdt") {
        Some("btcusdt".to_owned())
    } else {
        None
    }
}

/// Some text of a list is `name` in lower case.
pub open spec fn mentions(list: Seq<String>, name: Seq<char>) -> bool {
    exists|i: int| 0 <= i < list.len() && text::lowercase((#[trigger] list[i])@) == name
}

proof fn lemma_mentions(list: Seq<String>, name: Seq<char>)
    ensures
        lowered(list).contains(name) <==> mentions(list, name),
{
    let all = list.map_values(|s: String| text::lowercase(s@));
    if mentions(list, name) {
        let i = choose|i: int| 0 <= i < list.len() && text::lowercase((#[trigger] list[i])@) == name;
        assert(all[i] == name);
    }
    if all.contains(name) {
        let i = choose|i: int| 0 <= i < all.len() && all[i] == name;
        assert(text::lowercase(list[i]@) == name);
    }
}

/// The exclusion file leaves a contract out: it names the base coin as a stablecoin, or as
/// one of the largest coins and not as an exception, or it names the symbol itself.
pub open spec fn file_leaves_out(config: ExclusionConfig, info: ExchangeInfoSymbol) -> bool {
    let coin = text::lowercase(base_coin(info.base_asset@));
    ||| mentions(config.excluded_stablecoins@, coin)
    ||| mentions(config.excluded_top30@, coin) && !mentions(config.memecoin_exceptions@, coin)
    ||| mentions(config.excluded_symbols@, text::lowercase(info.symbol@))
}

proof fn lemma_file_leaves_out(
    config: ExclusionConfig,
    discovery: DiscoveryView,
    info: ExchangeInfoSymbol,
)
    requires
        discovery.excluded_assets == excluded_assets(config),
        discovery.excluded_symbols == lowered(config.excluded_symbols@),
    ensures
        discovery.selects(info) ==> !file_leaves_out(config, info),
        is_eligible(info) && !is_premarket(info) && !file_leaves_out(config, info)
            ==> discovery.selects(info),
{
    let coin = text::lowercase(base_coin(info.base_asset@));
    lemma_mentions(config.excluded_stablecoins@, coin);
    lemma_mentions(config.excluded_top30@, coin);
    lemma_mentions(config.memecoin_exceptions@, coin);
    lemma_mentions(config.excluded_symbols@, text::lowercase(info.symbol@));
}

proof fn lemma_selected_source(
    discovery: DiscoveryView,
    infos: Seq<ExchangeInfoSymbol>,
    symbol: Seq<char>,
) -> (i: int)
    requires
        discovery.selected(infos).contains(symbol),
    ensures
        0 <= i < infos.len(),
        discovery.selects(infos[i]),
        text::lowercase(infos[i].symbol@) == symbol,
    decreases infos.len(),
{
    let n = infos.len() - 1;
    if infos.len() > 0 && !(discovery.selects(infos[n]) && text::lowercase(infos[n].symbol@)
        == symbol) {
        let all = discovery.selected(infos);
        let k = choose|k: int| 0 <= k < all.len() && all[k] == symbol;
        assert(discovery.selected(infos.drop_last())[k] == symbol);
        let i = lemma_selected_source(discovery, infos.drop_last(), symbol);
        assert(infos.drop_last()[i] == infos[i]);
        i
    } else {
        n as int
    }
}

proof fn lemma_selects_is_selected(
    discovery: DiscoveryView,
    infos: Seq<ExchangeInfoSymbol>,
    i: int,
)
    requires
        0 <= i < infos.len(),
        discovery.selects(infos[i]),
    ensures
        discovery.selected(infos).contains(text::lowercase(infos[i].symbol@)),
    decreases infos.len(),
{
    let all = discovery.selected(infos);
    let front = discovery.selected(infos.drop_last());
    if i == infos.len() - 1 {
        assert(all[all.len() - 1] == text::lowercase(infos[i].symbol@));
    } else {
        lemma_selects_is_selected(discovery, infos.drop_last(), i);
        assert(infos.drop_last()[i] == infos[i]);
        let name = text::lowercase(infos[i].symbol@);
        let k = choose|k: int| 0 <= k < front.len() && front[k] == name;
        assert(all[k] == name);
    }
}

/// What the exclusion file leaves out is not discovered, unless it is an anchor: no symbol
/// whose contracts all have a base coin or a name that the file leaves out. Among them are
/// the largest coins but for the exceptions.
pub proof fn excluded_contracts_are_not_collected(
    config: ExclusionConfig,
    discovery: DiscoveryView,
    infos: Seq<ExchangeInfoSymbol>,
    found: Seq<Seq<char>>,
    symbol: Seq<char>,
)
    requires
        discovery.excluded_assets == excluded_assets(config),
        discovery.excluded_symbols == lowered(config.excluded_symbols@),
        found.to_multiset() == with_anchor(
            with_anchor(discovery.selected(infos), infos, "btcusdt"@),
            infos,
            "dogeusdt"@,
        ).to_multiset(),
        forall|i: int|
            0 <= i < infos.len() && text::lowercase((#[trigger] infos[i]).symbol@) == symbol
                ==> file_leaves_out(config, infos[i]),
        symbol != "btcusdt"@,
        symbol != "dogeusdt"@,
    ensures
        !found.contains(symbol),
{
    let chosen = discovery.selected(infos);
    let first = with_anchor(chosen, infos, "btcusdt"@);
    let both = with_anchor(first, infos, "dogeusdt"@);
    found.to_multiset_ensures();
    both.to_multiset_ensures();
    if found.contains(symbol) {
        assert(found.to_multiset().count(symbol) > 0);
        assert(both.contains(symbol));
        let k = choose|k: int| 0 <= k < both.len() && both[k] == symbol;
        assert(first[k] == symbol);
        assert(chosen[k] == symbol);
        let i = lemma_selected_source(discovery, infos, symbol);
        lemma_file_leaves_out(config, discovery, infos[i]);
        assert(file_leaves_out(config, infos[i]));
    }
}

/// Every contract that trades, is perpetual, is settled in USDT, is no pre-market one and is
/// not left out by the exclusion file is discovered. A coin that is an exception is not left
/// out for being among the largest.
pub proof fn other_contracts_are_collected(
    config: ExclusionConfig,
    discovery: DiscoveryView,
    infos: Seq<ExchangeInfoSymbol>,
    found: Seq<Seq<char>>,
    i: int,
)
    requires
        discovery.excluded_assets == excluded_assets(config),
        discovery.excluded_symbols == lowered(config.excluded_symbols@),
        found.to_multiset() == with_anchor(
            with_anchor(discovery.selected(infos), infos, "btcusdt"@),
            infos,
            "dogeusdt"@,
        ).to_multiset(),
        0 <= i < infos.len(),
        infos[i].status@ == "TRADING"@,
        infos[i].contract_type@ == "PERPETUAL"@,
        infos[i].quote_asset@ == "USDT"@,
        infos[i].underlying_type matches Some(underlying) ==> underlying@ != "PREMARKET"@,
        !file_leaves_out(config, infos[i]),
    ensures
        found.contains(text::lowercase(infos[i].symbol@)),
{
    let name = text::lowercase(infos[i].symbol@);
    let chosen = discovery.selected(infos);
    let first = with_anchor(chosen, infos, "btcusdt"@);
    let both = with_anchor(first, infos, "dogeusdt"@);
    lemma_file_leaves_out(config, discovery, infos[i]);
    lemma_selects_is_selected(discovery, infos, i);
    let k = choose|k: int| 0 <= k < chosen.len() && chosen[k] == name;
    assert(first[k] == name);
    assert(both[k] == name);
    found.to_multiset_ensures();
    both.to_multiset_ensures();
    assert(both.contains(name));
    assert(both.to_multiset().count(name) > 0);
    assert(found.to_multiset().count(name) > 0);
}

/// A symbol of which no contract trades as a perpetual one settled in USDT is not
/// discovered, be it an anchor or not; one that does and is an anchor is discovered.
pub proof fn discovery_wants_usdt_perpetuals(
    discovery: DiscoveryView,
    infos: Seq<ExchangeInfoSymbol>,
    found: Seq<Seq<char>>,
    symbol: Seq<char>,
)
    requires
        found.to_multiset() == with_anchor(
            with_anchor(discovery.selected(infos), infos, "btcusdt"@),
            infos,
            "dogeusdt"@,
        ).to_multiset(),
    ensures
        ({
            let trades_so = exists|i: int|
                0 <= i < infos.len() && text::lowercase((#[trigger] infos[i]).symbol@) == symbol
                    && infos[i].status@ == "TRADING"@ && infos[i].contract_type@ == "PERPETUAL"@
                    && infos[i].quote_asset@ == "USDT"@;
            &&& !trades_so ==> !found.contains(symbol)
            &&& trades_so && (symbol == "btcusdt"@ || symbol == "dogeusdt"@) ==> found.contains(
                symbol,
            )
        }),
{
    anchors_are_collected(discovery, infos, found);
    if found.contains(symbol) {
        only_eligible_contracts_are_collected(discovery, infos, found, symbol);
        let i = choose|i: int|
            0 <= i < infos.len() && text::lowercase((#[trigger] infos[i]).symbol@) == symbol
                && is_eligible(infos[i]);
        assert(infos[i].status@ == "TRADING"@);
    }
}

/// A multiplier in front of a coin is taken off whole, the longest first; other assets are
/// their own base coins.
pub proof fn multipliers_are_taken_off(coin: Seq<char>)
    ensures
        base_coin("1000000"@ + coin) == coin,
        coin.len() == 0 || coin[0] != '0' ==> base_coin("10000"@ + coin) == coin,
        coin.len() == 0 || coin[0] != '0' ==> base_coin("1000"@ + coin) == coin,
        coin.len() < 4 || coin.take(4) != "1000"@ ==> base_coin(coin) == coin,
{
    reveal_strlit("1000000");
    reveal_strlit("10000");
    reveal_strlit("1000");
    let million = "1000000"@ + coin;
    let ten = "10000"@ + coin;
    let one = "1000"@ + coin;
    assert(million.take(7) =~= "1000000"@);
    assert(million.skip(7) =~= coin);
    assert(ten.take(5) =~= "10000"@);
    assert(ten.skip(5) =~= coin);
    assert(one.take(4) =~= "1000"@);
    assert(one.skip(4) =~= coin);
    if coin.len() == 0 || coin[0] != '0' {
        if ten.len() >= 7 {
            assert(ten.take(7)[5] == coin[0]);
            assert("1000000"@[5] == '0');
        }
        if one.len() >= 7 {
            assert(one.take(7)[4] == coin[0]);
            assert("1000000"@[4] == '0');
        }
        if one.len() >= 5 {
            assert(one.take(5)[4] == coin[0]);
            assert("10000"@[4] == '0');
        }
    }
    if coin.len() < 4 || coin.take(4) != "1000"@ {
        if coin.len() >= 7 && coin.take(7) == "1000000"@ {
            assert(coin.take(4) =~= coin.take(7).take(4));
            assert("1000000"@.take(4) =~= "1000"@);
        }
        if coin.len() >= 5 && coin.take(5) == "10000"@ {
            assert(coin.take(4) =~= coin.take(5).take(4));
            assert("10000"@.take(4) =~= "1000"@);
        }
    }
}

/// A discovery is not trusted exactly where more than a tenth of the tracked symbols is
/// missing from it in number.
pub proof fn a_tenth_may_be_missing(listings: ListingsView, found: Set<Seq<char>>)
    ensures
        listings.distrusts(found) <==> (listings.tracker.known.len() - found.len()) * 10
            > listings.tracker.known.len(),
{
}

/// A discovery changes what is delisted or pending only for symbols that are new or gone.
pub proof fn other_listings_stay(
    listings: ListingsView,
    found: Set<Seq<char>>,
    now_ms: i64,
    symbol: Seq<char>,
)
    requires
        listings.tracker.known.contains(symbol) == found.contains(symbol),
    ensures
        ({
            let after = listings.updated(found, now_ms);
            &&& after.delisted.contains(symbol) == listings.delisted.contains(symbol)
            &&& after.new_listings.contains_key(symbol) == listings.new_listings.contains_key(symbol)
            &&& listings.new_listings.contains_key(symbol) ==> after.new_listings[symbol]
                == listings.new_listings[symbol]
            &&& after.tracker.known.contains(symbol) == listings.tracker.known.contains(symbol)
        }),
{
}

/// A tracked symbol that is found counts as listed, one that is found for the first time is
/// new, and one that is missing is gone exactly at the second time in a row.
pub proof fn tracking_follows_what_is_found(
    tracker: TrackerView,
    found: Set<Seq<char>>,
    symbol: Seq<char>,
)
    ensures
        found.contains(symbol) ==> tracker.observed(found).known.contains(symbol)
            && !tracker.observed(found).missing_once.contains(symbol),
        tracker.added(found).contains(symbol) <==> found.contains(symbol)
            && !tracker.known.contains(symbol),
        tracker.removed(found).contains(symbol) <==> tracker.known.contains(symbol)
            && !found.contains(symbol) && tracker.missing_once.contains(symbol),
        tracker.observed(found).known.contains(symbol) <==> found.contains(symbol) || (
        tracker.known.contains(symbol) && !tracker.missing_once.contains(symbol)),
        tracker.observed(found).missing_once.contains(symbol) <==> tracker.known.contains(symbol)
            && !found.contains(symbol) && !tracker.missing_once.contains(symbol),
{
}

/// A coin is left out exactly where the file lists it as a stablecoin, or among the largest
/// ones and not as an exception. So an exception lets a coin in, and never leaves one out.
pub proof fn exceptions_let_coins_in(
    config: ExclusionConfig,
    wider: ExclusionConfig,
    coin: Seq<char>,
)
    requires
        wider.excluded_stablecoins == config.excluded_stablecoins,
        wider.excluded_top30 == config.excluded_top30,
        forall|name: Seq<char>|
            mentions(config.memecoin_exceptions@, name) ==> #[trigger] mentions(
                wider.memecoin_exceptions@,
                name,
            ),
    ensures
        excluded_assets(config).contains(coin) <==> mentions(config.excluded_stablecoins@, coin) || (
        mentions(config.excluded_top30@, coin) && !mentions(config.memecoin_exceptions@, coin)),
        excluded_assets(wider).contains(coin) ==> excluded_assets(config).contains(coin),
        mentions(wider.memecoin_exceptions@, coin) && !mentions(config.excluded_stablecoins@, coin)
            ==> !excluded_assets(wider).contains(coin),
        config.memecoin_exceptions@.len() == 0 && mentions(config.excluded_top30@, coin)
            ==> excluded_assets(config).contains(coin),
{
    lemma_mentions(config.excluded_stablecoins@, coin);
    lemma_mentions(config.excluded_top30@, coin);
    lemma_mentions(config.memecoin_exceptions@, coin);
    lemma_mentions(wider.memecoin_exceptions@, coin);
}

} // verus!
