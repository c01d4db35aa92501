//! Order books of all symbols: their states, how a diff changes a book, and what
//! happens next to a symbol.

use crate::collectors::attach;
use crate::collectors::attach::{find_bridge, normalize_messages_for_attach};
use crate::collectors::book;
use crate::config::OrderbookConfig;
use crate::constants;
use crate::models::{DepthSnapshotCsv, DepthSnapshotRest, DepthUpdateWs};
use crate::sorting;
use crate::symbol_maps;
use crate::symbol_maps::{u64_get, u64_insert, u64_map, u64_remove};
use crate::text;
use dashmap::DashMap;
use rustc_hash::FxHashMap;
use std::collections::HashMap;
use vstd::prelude::*;

verus! {

broadcast use vstd::std_specs::hash::group_hash_axioms;

/// Where a symbol stands on the way to a live book.
#[derive(Clone, Copy, Debug, PartialEq, Eq, Structural)]
pub enum OrderbookState {
    Initializing,
    FetchingSnapshot,
    Syncing,
    Live,
}

/// An order book. Each side maps the bit pattern of a price to that of a quantity.
#[derive(Clone)]
pub struct Orderbook {
    pub symbol: String,
    pub last_update_id: u64,
    pub bids: HashMap<u64, u64>,
    pub asks: HashMap<u64, u64>,
    /// When a diff or snapshot was last applied, in nanoseconds.
    pub last_processed_time: u64,
}

/// An order book as mathematical values.
pub struct BookView {
    pub symbol: Seq<char>,
    pub last_update_id: u64,
    pub bids: Map<u64, u64>,
    pub asks: Map<u64, u64>,
    pub last_processed_time: u64,
}

impl View for Orderbook {
    type V = BookView;

    open spec fn view(&self) -> BookView {
        BookView {
            symbol: self.symbol@,
            last_update_id: self.last_update_id,
            bids: self.bids@,
            asks: self.asks@,
            last_processed_time: self.last_processed_time,
        }
    }
}

/// A side of a diff or snapshot has a level that is no pair of numbers.
#[derive(Clone, Copy, Debug, PartialEq, Eq, Structural)]
pub enum LevelError {
    Bid,
    Ask,
}

/// The levels of one side of a diff that come to be applied: those converted ahead
/// of time where there are any, else those read from the wire up to the first that
/// is no pair of numbers.
pub open spec fn side_levels(
    floats: Option<Vec<(u64, u64)>>,
    values: Seq<Option<(u64, u64)>>,
) -> Seq<(u64, u64)> {
    match floats {
        Some(levels) => levels@,
        None => book::readable_prefix(values),
    }
}

/// Every level of one side of a diff can be applied.
pub open spec fn side_readable(
    floats: Option<Vec<(u64, u64)>>,
    values: Seq<Option<(u64, u64)>>,
) -> bool {
    floats is Some || book::all_readable(values)
}

/// Whether a diff can be applied, and the side that fails first.
pub open spec fn diff_result(update: DepthUpdateWs) -> Result<(), LevelError> {
    if !side_readable(update.b_floats, update.bid_values@) {
        Err(LevelError::Bid)
    } else if !side_readable(update.a_floats, update.ask_values@) {
        Err(LevelError::Ask)
    } else {
        Ok(())
    }
}

/// A book after a diff. Levels are applied bids first. When one cannot be read, the
/// levels before it stay applied and the book keeps its id.
pub open spec fn diff_on_book(held: BookView, update: DepthUpdateWs, now: u64) -> BookView {
    let bids = book::set_levels(held.bids, side_levels(update.b_floats, update.bid_values@));
    let asks = book::set_levels(held.asks, side_levels(update.a_floats, update.ask_values@));
    match diff_result(update) {
        Err(LevelError::Bid) => BookView { bids, ..held },
        Err(LevelError::Ask) => BookView { bids, asks, ..held },
        Ok(_) => BookView {
            bids,
            asks,
            last_update_id: update.final_update_id,
            last_processed_time: now,
            ..held
        },
    }
}

/// A book with at most `depth` levels on each side, the best ones.
pub open spec fn trimmed_book(depth: nat, held: BookView) -> BookView {
    BookView {
        bids: book::trimmed(true, depth, held.bids),
        asks: book::trimmed(false, depth, held.asks),
        ..held
    }
}

/// A book of limited depth after a diff.
pub open spec fn diff_applied(
    depth: nat,
    held: BookView,
    update: DepthUpdateWs,
    now: u64,
) -> BookView {
    let next = diff_on_book(held, update, now);
    if diff_result(update) is Ok {
        trimmed_book(depth, next)
    } else {
        next
    }
}

/// A book of limited depth after a run of diffs.
pub open spec fn diffs_applied(
    depth: nat,
    held: BookView,
    updates: Seq<DepthUpdateWs>,
    now: u64,
) -> BookView
    decreases updates.len(),
{
    if updates.len() == 0 {
        held
    } else {
        diff_applied(
            depth,
            diffs_applied(depth, held, updates.drop_last(), now),
            updates.last(),
            now,
        )
    }
}

/// The levels of a snapshot side as a book side. A price that occurs twice holds its
/// last quantity.
pub open spec fn snapshot_side(levels: Seq<(u64, u64)>) -> Map<u64, u64>
    decreases levels.len(),
{
    if levels.len() == 0 {
        Map::empty()
    } else {
        snapshot_side(levels.drop_last()).insert(levels.last().0, levels.last().1)
    }
}

/// `side` holds the levels of a snapshot: a price is there exactly where some level has it,
/// with the quantity of the last such level.
pub open spec fn holds_levels(values: Seq<Option<(u64, u64)>>, side: Map<u64, u64>) -> bool {
    &&& forall|price: u64| #[trigger]
        side.contains_key(price) <==> exists|k: int|
            0 <= k < values.len() && (#[trigger] values[k] matches Some((p, _)) && p == price)
    &&& forall|k: int|
        0 <= k < values.len() && (#[trigger] values[k]) is Some ==> {
            let (price, quantity) = values[k]->0;
            (forall|m: int|
                k < m < values.len() ==> !(#[trigger] values[m] matches Some((p, _)) && p == price))
                ==> side[price] == quantity
        }
}

/// Every level of a snapshot side that can be read stands in the book side.
pub proof fn snapshot_sides_hold_their_levels(values: Seq<Option<(u64, u64)>>)
    requires
        forall|i: int| 0 <= i < values.len() ==> (#[trigger] values[i]) is Some,
    ensures
        holds_levels(values, snapshot_side(book::readable_prefix(values))),
    decreases values.len(),
{
    let side = snapshot_side(book::readable_prefix(values));
    if values.len() > 0 {
        let front = values.drop_last();
        assert forall|i: int| 0 <= i < front.len() implies (#[trigger] front[i]) is Some by {
            assert(front[i] == values[i]);
        }
        snapshot_sides_hold_their_levels(front);
        book::reading_stops_at_the_first_bad_level(front, front.len() as int);
        let n = values.len() - 1;
        let (last, quantity) = values[n]->0;
        assert(values[n] is Some);
        assert(book::readable_prefix(values).drop_last() =~= book::readable_prefix(front));
        let before = snapshot_side(book::readable_prefix(front));
        assert(side == before.insert(last, quantity));
        assert forall|price: u64| #[trigger] side.contains_key(price) <==> exists|k: int|
            0 <= k < values.len() && (#[trigger] values[k] matches Some((p, _)) && p == price) by {
            if before.contains_key(price) {
                let k = choose|k: int|
                    0 <= k < front.len() && (#[trigger] front[k] matches Some((p, _)) && p == price);
                assert(values[k] == front[k]);
            }
            if price == last {
                assert(values[n] matches Some((p, _)) && p == price);
            }
            if exists|k: int|
                0 <= k < values.len() && (#[trigger] values[k] matches Some((p, _)) && p == price) {
                let k = choose|k: int|
                    0 <= k < values.len() && (#[trigger] values[k] matches Some((p, _)) && p
                        == price);
                if k < n {
                    assert(front[k] == values[k]);
                    assert(before.contains_key(price));
                }
            }
        }
        assert forall|k: int| 0 <= k < values.len() && (#[trigger] values[k]) is Some implies ({
            let (price, quantity) = values[k]->0;
            (forall|m: int|
                k < m < values.len() ==> !(#[trigger] values[m] matches Some((p, _)) && p == price))
                ==> side[price] == quantity
        }) by {
            let (price, quantity) = values[k]->0;
            if k < n && forall|m: int|
                k < m < values.len() ==> !(#[trigger] values[m] matches Some((p, _)) && p == price) {
                assert(front[k] == values[k]);
                assert(!(values[n] matches Some((p, _)) && p == price));
                assert forall|m: int| k < m < front.len() implies !(#[trigger] front[m] matches Some(
                    (p, _),
                ) && p == price) by {
                    assert(front[m] == values[m]);
                }
                assert(front[k] is Some);
            }
        }
    }
}

/// A snapshot side from its levels, `None` when one is no pair of numbers.
fn read_snapshot_side(values: &Vec<Option<(u64, u64)>>) -> (r: Option<HashMap<u64, u64>>)
    ensures
        r is Some <==> book::all_readable(values@),
        r matches Some(side) ==> side@ == snapshot_side(book::readable_prefix(values@)),
        r matches Some(side) ==> holds_levels(values@, side@),
{
    let mut side: HashMap<u64, u64> = HashMap::new();
    let mut i: usize = 0;
    assert(values@.take(0) =~= seq![]);
    while i < values.len()
        invariant
            i <= values.len(),
            book::readable_prefix(values@.take(i as int)).len() == i,
            side@ == snapshot_side(book::readable_prefix(values@.take(i as int))),
        decreases values.len() - i,
    {
        let ghost seen = values@.take(i + 1);
        assert(seen.drop_last() =~= values@.take(i as int));
        match values[i] {
            Some((price, quantity)) => {
                side.insert(price, quantity);
                assert(book::readable_prefix(seen).drop_last() =~= book::readable_prefix(
                    values@.take(i as int),
                ));
            },
            None => {
                assert(values@[i as int] is None);
                return None;
            },
        }
        i = i + 1;
    }
    assert(values@.take(values.len() as int) =~= values@);
    proof {
        book::lemma_readable_prefix(values@);
        snapshot_sides_hold_their_levels(values@);
    }
    Some(side)
}

/// What a map from symbols to states holds.
pub uninterp spec fn state_entries(map: DashMap<String, OrderbookState>) -> Map<
    Seq<char>,
    OrderbookState,
>;

/// `DashMap::new`: an empty map.
#[verifier::external_body]
fn state_map() -> (r: DashMap<String, OrderbookState>)
    ensures
        state_entries(r) == (Map::<Seq<char>, OrderbookState>::empty()),
{
    DashMap::new()
}

/// `DashMap::insert`: the key maps to the state, other keys are as before.
#[verifier::external_body]
fn state_insert(map: &mut DashMap<String, OrderbookState>, key: &str, state: OrderbookState)
    ensures
        state_entries(*final(map)) == state_entries(*old(map)).insert(key@, state),
{
    map.insert(key.to_string(), state);
}

/// `DashMap::get`: the state of the key, if there is one.
#[verifier::external_body]
fn state_get(map: &DashMap<String, OrderbookState>, key: &str) -> (r: Option<OrderbookState>)
    ensures
        r == (if state_entries(*map).contains_key(key@) {
            Some(state_entries(*map)[key@])
        } else {
            None
        }),
{
    map.get(key).map(|s| *s)
}

/// `DashMap::remove`: the key is gone, other keys are as before.
#[verifier::external_body]
fn state_remove(map: &mut DashMap<String, OrderbookState>, key: &str)
    ensures
        state_entries(*final(map)) == state_entries(*old(map)).remove(key@),
{
    map.remove(key);
}

/// `DashMap::iter`, each entry copied out: every entry once, in no particular order.
#[verifier::external_body]
fn state_list(map: &DashMap<String, OrderbookState>) -> (r: Vec<(String, OrderbookState)>)
    ensures
        symbol_maps::lists_entries(state_entries(*map), r@),
{
    map.iter().map(|entry| (entry.key().clone(), *entry.value())).collect()
}

/// What a map from symbols to books holds.
pub uninterp spec fn book_entries(map: DashMap<String, Orderbook>) -> Map<Seq<char>, BookView>;

/// `DashMap::new`: an empty map.
#[verifier::external_body]
fn book_map() -> (r: DashMap<String, Orderbook>)
    ensures
        book_entries(r) == (Map::<Seq<char>, BookView>::empty()),
{
    DashMap::new()
}

/// `DashMap::insert`: the key maps to the book, other keys are as before.
#[verifier::external_body]
fn book_insert(map: &mut DashMap<String, Orderbook>, key: &str, held: Orderbook)
    ensures
        book_entries(*final(map)) == book_entries(*old(map)).insert(key@, held@),
{
    map.insert(key.to_string(), held);
}

/// `DashMap::remove`: the book of the key is handed out, if there is one, and the key
/// is gone; other keys are as before.
#[verifier::external_body]
fn book_remove(map: &mut DashMap<String, Orderbook>, key: &str) -> (r: Option<Orderbook>)
    ensures
        r is Some <==> book_entries(*old(map)).contains_key(key@),
        r matches Some(held) ==> held@ == book_entries(*old(map))[key@],
        book_entries(*final(map)) == book_entries(*old(map)).remove(key@),
{
    map.remove(key).map(|entry| entry.1)
}

/// `DashMap::get`, the book copied out, if there is one.
#[verifier::external_body]
fn book_get(map: &DashMap<String, Orderbook>, key: &str) -> (r: Option<Orderbook>)
    ensures
        r is Some <==> book_entries(*map).contains_key(key@),
        r matches Some(held) ==> held@ == book_entries(*map)[key@],
{
    map.get(key).map(|entry| entry.value().clone())
}

/// When each book was last changed.
pub open spec fn book_times(books: Map<Seq<char>, BookView>) -> Map<Seq<char>, u64> {
    books.map_values(|b: BookView| b.last_processed_time)
}

/// `DashMap::iter`, of each book its symbol key and the time of its last change: every
/// entry once, in no particular order.
#[verifier::external_body]
fn book_time_list(map: &DashMap<String, Orderbook>) -> (r: Vec<(String, u64)>)
    ensures
        symbol_maps::lists_entries(book_times(book_entries(*map)), r@),
{
    map.iter().map(|entry| (entry.key().clone(), entry.value().last_processed_time)).collect()
}

/// Why a symbol starts over with a new snapshot.
#[derive(Clone, Copy, Debug, PartialEq, Eq, Structural)]
pub enum ResnapshotReason {
    /// Even the first buffered diff starts after the snapshot.
    SnapshotOlderThanBuffer,
    /// No buffered diff bridged onto the snapshot in time.
    BridgeRuleTimeout,
}

impl ResnapshotReason {
    /// The reason as it is recorded.
    pub fn label(self) -> (r: &'static str)
        ensures
            r@ == (match self {
                ResnapshotReason::SnapshotOlderThanBuffer => "snapshot_older_than_buffer"@,
                ResnapshotReason::BridgeRuleTimeout => "bridge_rule_timeout"@,
            }),
    {
        match self {
            ResnapshotReason::SnapshotOlderThanBuffer => "snapshot_older_than_buffer",
            ResnapshotReason::BridgeRuleTimeout => "bridge_rule_timeout",
        }
    }
}

/// What came of an attempt to attach a symbol to its stream.
#[derive(Clone, Copy, Debug, PartialEq, Eq, Structural)]
pub enum AttachOutcome {
    /// Nothing to attach to yet, or the chain broke; try again.
    NotReady,
    /// The book follows the stream.
    Attached,
    /// The symbol starts over.
    Resnapshot(ResnapshotReason),
    /// A diff has a level that is no pair of numbers.
    Unreadable(LevelError),
}

/// What is to be done next for a symbol.
#[derive(Clone, Copy, Debug, PartialEq, Eq, Structural)]
pub enum ManageStep {
    /// The symbol is delisted and its state dropped: end its task.
    Stop,
    /// The state has advanced: ask again at once.
    Continue,
    /// Sleep for `wait_nanos`, then fetch a snapshot.
    FetchSnapshot { wait_nanos: u64 },
    /// Record the reason; the symbol starts over.
    Resnapshot(ResnapshotReason),
    /// Try to attach to the stream.
    TryAttach,
    /// The book is live: ask again in a second.
    Monitor,
}

/// Seconds in nanoseconds, saturating at the largest number that is held.
pub open spec fn nanos(seconds: u64) -> u64 {
    if seconds * 1_000_000_000 <= u64::MAX {
        (seconds * 1_000_000_000) as u64
    } else {
        u64::MAX
    }
}

/// Seconds in nanoseconds.
pub fn seconds_to_nanos(seconds: u64) -> (r: u64)
    ensures
        r == nanos(seconds),
{
    match seconds.checked_mul(1_000_000_000) {
        Some(n) => n,
        None => u64::MAX,
    }
}

/// The time from `from` to `to`, zero when `to` is earlier.
pub open spec fn elapsed(from: u64, to: u64) -> u64 {
    if from <= to {
        (to - from) as u64
    } else {
        0
    }
}

/// Idle for more than two hours, in whole seconds.
pub open spec fn is_stale(now: u64, last: u64) -> bool {
    elapsed(last, now) / 1_000_000_000 > 7200
}

/// A symbol of which the stale sweep drops everything.
pub open spec fn stale_symbols(books: Map<Seq<char>, BookView>, now: u64) -> Set<Seq<char>> {
    Set::new(
        |symbol: Seq<char>|
            books.contains_key(symbol) && is_stale(now, books[symbol].last_processed_time),
    )
}

/// The first diff with a level that is no pair of numbers; past the end when there is
/// none.
pub open spec fn unreadable_index(updates: Seq<DepthUpdateWs>) -> nat
    decreases updates.len(),
{
    if updates.len() == 0 {
        0
    } else if diff_result(updates[0]) is Err {
        0
    } else {
        1 + unreadable_index(updates.drop_first())
    }
}

/// `unreadable_index` is the place of the first diff that cannot be applied.
proof fn lemma_unreadable_index(updates: Seq<DepthUpdateWs>, at: int)
    requires
        0 <= at <= updates.len(),
        forall|i: int| 0 <= i < at ==> diff_result(#[trigger] updates[i]) is Ok,
        at < updates.len() ==> diff_result(updates[at]) is Err,
    ensures
        unreadable_index(updates) == at,
    decreases updates.len(),
{
    if updates.len() > 0 && at > 0 {
        assert(diff_result(updates[0]) is Ok);
        let rest = updates.drop_first();
        assert forall|i: int| 0 <= i < at - 1 implies diff_result(#[trigger] rest[i]) is Ok by {
            assert(rest[i] == updates[i + 1]);
        }
        lemma_unreadable_index(rest, at - 1);
    }
}

/// When no diff fails before `n`, `unreadable_index` is at least `n`.
proof fn lemma_readable_until(updates: Seq<DepthUpdateWs>, n: int)
    requires
        0 <= n <= updates.len(),
        forall|i: int| 0 <= i < n ==> diff_result(#[trigger] updates[i]) is Ok,
    ensures
        unreadable_index(updates) >= n,
    decreases updates.len(),
{
    if updates.len() > 0 && n > 0 {
        assert(diff_result(updates[0]) is Ok);
        let rest = updates.drop_first();
        assert forall|i: int| 0 <= i < n - 1 implies diff_result(#[trigger] rest[i]) is Ok by {
            assert(rest[i] == updates[i + 1]);
        }
        lemma_readable_until(rest, n - 1);
    }
}

/// The books and states of all symbols as mathematical values.
pub struct ManagerView {
    pub config: OrderbookConfig,
    pub states: Map<Seq<char>, OrderbookState>,
    pub books: Map<Seq<char>, BookView>,
    pub snapshot_times: Map<Seq<char>, u64>,
    pub periodic_times: Map<Seq<char>, u64>,
    pub sync_times: Map<Seq<char>, u64>,
    pub backoffs: Map<Seq<char>, u64>,
}

impl ManagerView {
    /// The state of a symbol; one that is not known is to be initialized.
    pub open spec fn state(self, symbol: Seq<char>) -> OrderbookState {
        if self.states.contains_key(symbol) {
            self.states[symbol]
        } else {
            OrderbookState::Initializing
        }
    }

    /// The manager with a symbol in another state.
    pub open spec fn with_state(self, symbol: Seq<char>, state: OrderbookState) -> ManagerView {
        ManagerView { states: self.states.insert(symbol, state), ..self }
    }

    /// The manager with everything of a symbol dropped.
    pub open spec fn without(self, symbol: Seq<char>) -> ManagerView {
        ManagerView {
            config: self.config,
            states: self.states.remove(symbol),
            books: self.books.remove(symbol),
            snapshot_times: self.snapshot_times.remove(symbol),
            periodic_times: self.periodic_times.remove(symbol),
            sync_times: self.sync_times.remove(symbol),
            backoffs: self.backoffs.remove(symbol),
        }
    }

    /// The manager with everything of some symbols dropped.
    pub open spec fn without_all(self, symbols: Set<Seq<char>>) -> ManagerView {
        ManagerView {
            config: self.config,
            states: self.states.remove_keys(symbols),
            books: self.books.remove_keys(symbols),
            snapshot_times: self.snapshot_times.remove_keys(symbols),
            periodic_times: self.periodic_times.remove_keys(symbols),
            sync_times: self.sync_times.remove_keys(symbols),
            backoffs: self.backoffs.remove_keys(symbols),
        }
    }

    /// The manager once a snapshot has taken the place of a book.
    pub open spec fn with_snapshot(
        self,
        symbol: Seq<char>,
        snapshot: DepthSnapshotRest,
        now: u64,
    ) -> ManagerView {
        let held = BookView {
            symbol,
            last_update_id: snapshot.last_update_id,
            bids: snapshot_side(book::readable_prefix(snapshot.bid_values@)),
            asks: snapshot_side(book::readable_prefix(snapshot.ask_values@)),
            last_processed_time: now,
        };
        ManagerView { books: self.books.insert(symbol, held), ..self }
    }

    /// The manager after a run of diffs for a symbol; without a book nothing changes.
    pub open spec fn with_diffs(
        self,
        symbol: Seq<char>,
        updates: Seq<DepthUpdateWs>,
        now: u64,
    ) -> ManagerView {
        if self.books.contains_key(symbol) {
            ManagerView {
                books: self.books.insert(
                    symbol,
                    diffs_applied(
                        self.config.depth_limit as nat,
                        self.books[symbol],
                        updates,
                        now,
                    ),
                ),
                ..self
            }
        } else {
            self
        }
    }

    /// The id at which a symbol's snapshot ends; zero without a book.
    pub open spec fn snapshot_id(self, symbol: Seq<char>) -> u64 {
        if self.books.contains_key(symbol) {
            self.books[symbol].last_update_id
        } else {
            0
        }
    }

    /// What comes of applying `bridged`, which starts with a diff that bridges onto the
    /// snapshot: diffs are applied as long as each continues the one before it.
    pub open spec fn followed(self, symbol: Seq<char>, bridged: Seq<DepthUpdateWs>, now: u64) -> (
        AttachOutcome,
        ManagerView,
    ) {
        let chained = attach::chain_len(bridged);
        let unreadable = unreadable_index(bridged);
        if self.books.contains_key(symbol) && unreadable < chained {
            (
                AttachOutcome::Unreadable(diff_result(bridged[unreadable as int])->Err_0),
                self.with_diffs(symbol, bridged.take(unreadable as int + 1), now),
            )
        } else if chained < bridged.len() {
            (AttachOutcome::NotReady, self.with_diffs(symbol, bridged.take(chained as int), now))
        } else {
            (AttachOutcome::Attached, self.with_diffs(symbol, bridged, now))
        }
    }

    /// What comes of attaching a symbol to `diffs`, which are in order and have one
    /// diff for each id.
    pub open spec fn attached(self, symbol: Seq<char>, diffs: Seq<DepthUpdateWs>, now: u64) -> (
        AttachOutcome,
        ManagerView,
    ) {
        let snapshot_u = self.snapshot_id(symbol);
        let bridged = diffs.skip(attach::bridge_index(snapshot_u, diffs) as int);
        if diffs.len() == 0 {
            (AttachOutcome::NotReady, self)
        } else if snapshot_u < diffs[0].prev_update_id {
            (
                AttachOutcome::Resnapshot(ResnapshotReason::SnapshotOlderThanBuffer),
                self.with_state(symbol, OrderbookState::Initializing),
            )
        } else if bridged.len() == 0 {
            (AttachOutcome::NotReady, self)
        } else {
            self.followed(symbol, bridged, now)
        }
    }

    /// The manager after an attempt to attach a symbol came to an end: the symbol is live
    /// where it attached, and nothing changes otherwise.
    pub open spec fn finished(self, symbol: Seq<char>, outcome: AttachOutcome) -> ManagerView {
        if outcome == AttachOutcome::Attached {
            self.with_state(symbol, OrderbookState::Live)
        } else {
            self
        }
    }

    /// The manager when a snapshot of a symbol is being fetched from `now` on.
    pub open spec fn fetch_begun(self, symbol: Seq<char>, now: u64) -> ManagerView {
        ManagerView {
            states: self.states.insert(symbol, OrderbookState::FetchingSnapshot),
            snapshot_times: self.snapshot_times.insert(symbol, now),
            ..self
        }
    }

    /// The manager when a snapshot of a symbol was taken at `now`.
    pub open spec fn fetch_done(self, symbol: Seq<char>, now: u64) -> ManagerView {
        ManagerView {
            states: self.states.insert(symbol, OrderbookState::Syncing),
            sync_times: self.sync_times.insert(symbol, now),
            backoffs: self.backoffs.insert(symbol, nanos(self.config.resync_cooldown_seconds)),
            ..self
        }
    }

    /// The manager when a snapshot of a symbol failed, and its delay times the factor is
    /// `scaled`.
    pub open spec fn fetch_failed(self, symbol: Seq<char>, scaled: u64) -> ManagerView {
        let max = nanos(self.config.max_resync_backoff_seconds);
        ManagerView {
            backoffs: self.backoffs.insert(
                symbol,
                if scaled <= max {
                    scaled
                } else {
                    max
                },
            ),
            ..self
        }
    }

    /// The delay of a symbol before the next attempt at a snapshot.
    pub open spec fn backoff(self, symbol: Seq<char>) -> u64 {
        if self.backoffs.contains_key(symbol) {
            self.backoffs[symbol]
        } else {
            nanos(self.config.resync_cooldown_seconds)
        }
    }

    /// The next step for a symbol, and what the manager has become by taking it.
    pub open spec fn managed(self, symbol: Seq<char>, delisted: bool, now: u64) -> (
        ManageStep,
        ManagerView,
    ) {
        if delisted {
            (ManageStep::Stop, self.without(symbol))
        } else {
            match self.state(symbol) {
                OrderbookState::Initializing => (
                    ManageStep::Continue,
                    self.with_state(symbol, OrderbookState::FetchingSnapshot),
                ),
                OrderbookState::FetchingSnapshot => (
                    ManageStep::FetchSnapshot {
                        wait_nanos: if self.snapshot_times.contains_key(symbol) {
                            elapsed(
                                elapsed(self.snapshot_times[symbol], now),
                                nanos(self.config.resync_cooldown_seconds),
                            )
                        } else {
                            0
                        },
                    },
                    self,
                ),
                OrderbookState::Syncing => if self.sync_times.contains_key(symbol) && elapsed(
                    self.sync_times[symbol],
                    now,
                ) > nanos(self.config.attach_bridge_timeout_seconds) {
                    (
                        ManageStep::Resnapshot(ResnapshotReason::BridgeRuleTimeout),
                        self.with_state(symbol, OrderbookState::Initializing),
                    )
                } else {
                    (ManageStep::TryAttach, self)
                },
                OrderbookState::Live => (ManageStep::Monitor, self),
            }
        }
    }
}

/// Manages the order books of all symbols.
pub struct OrderbookManager {
    config: OrderbookConfig,
    symbol_states: DashMap<String, OrderbookState>,
    orderbooks: DashMap<String, Orderbook>,
    last_snapshot_time: DashMap<String, u64>,
    last_periodic_snapshot: DashMap<String, u64>,
    sync_start_time: DashMap<String, u64>,
    resnapshot_backoff: DashMap<String, u64>,
}

impl OrderbookManager {
    /// Applies one diff to a book: quantity zero deletes a level, any other replaces
    /// it.
    pub fn apply_update_to_book(held: &mut Orderbook, update: &DepthUpdateWs, now: u64) -> (r: Result<
        (),
        LevelError,
    >)
        ensures
            r == diff_result(*update),
            final(held)@ == diff_on_book(old(held)@, *update, now),
    {
        let bids_ok: bool = match &update.b_floats {
            Some(levels) => {
                book::apply_levels(&mut held.bids, levels);
                true
            },
            None => book::apply_values(&mut held.bids, &update.bid_values),
        };
        if !bids_ok {
            return Err(LevelError::Bid);
        }
        let asks_ok: bool = match &update.a_floats {
            Some(levels) => {
                book::apply_levels(&mut held.asks, levels);
                true
            },
            None => book::apply_values(&mut held.asks, &update.ask_values),
        };
        if !asks_ok {
            return Err(LevelError::Ask);
        }
        held.last_update_id = update.final_update_id;
        held.last_processed_time = now;
        Ok(())
    }

    /// Keeps the best `depth` levels of each side, so that a book cannot grow without
    /// bound.
    pub fn trim_book_to_depth(depth: usize, held: &mut Orderbook)
        ensures
            final(held)@ == trimmed_book(depth as nat, old(held)@),
    {
        book::trim_side(true, depth, &mut held.bids);
        book::trim_side(false, depth, &mut held.asks);
    }
}

impl View for OrderbookManager {
    type V = ManagerView;

    closed spec fn view(&self) -> ManagerView {
        ManagerView {
            config: self.config,
            states: state_entries(self.symbol_states),
            books: book_entries(self.orderbooks),
            snapshot_times: symbol_maps::u64_entries(self.last_snapshot_time),
            periodic_times: symbol_maps::u64_entries(self.last_periodic_snapshot),
            sync_times: symbol_maps::u64_entries(self.sync_start_time),
            backoffs: symbol_maps::u64_entries(self.resnapshot_backoff),
        }
    }
}

impl OrderbookManager {
    /// A manager that knows no symbol.
    pub fn new(config: OrderbookConfig) -> (r: OrderbookManager)
        ensures
            r@.config == config,
            r@.states == (Map::<Seq<char>, OrderbookState>::empty()),
            r@.books == (Map::<Seq<char>, BookView>::empty()),
            r@.snapshot_times == (Map::<Seq<char>, u64>::empty()),
            r@.periodic_times == (Map::<Seq<char>, u64>::empty()),
            r@.sync_times == (Map::<Seq<char>, u64>::empty()),
            r@.backoffs == (Map::<Seq<char>, u64>::empty()),
    {
        OrderbookManager {
            config,
            symbol_states: state_map(),
            orderbooks: book_map(),
            last_snapshot_time: u64_map(),
            last_periodic_snapshot: u64_map(),
            sync_start_time: u64_map(),
            resnapshot_backoff: u64_map(),
        }
    }

    /// The state of a symbol.
    pub fn symbol_state(&self, symbol: &str) -> (r: OrderbookState)
        ensures
            r == self@.state(symbol@),
    {
        match state_get(&self.symbol_states, symbol) {
            Some(state) => state,
            None => OrderbookState::Initializing,
        }
    }

    /// Decides what to do next for a symbol at time `now`.
    pub fn manage_symbol(&mut self, symbol: &str, delisted: bool, now: u64) -> (r: ManageStep)
        ensures
            (r, final(self)@) == old(self)@.managed(symbol@, delisted, now),
    {
        if delisted {
            self.remove_symbol_state(symbol);
            return ManageStep::Stop;
        }
        match self.symbol_state(symbol) {
            OrderbookState::Initializing => {
                state_insert(&mut self.symbol_states, symbol, OrderbookState::FetchingSnapshot);
                ManageStep::Continue
            },
            OrderbookState::FetchingSnapshot => {
                let wait_nanos: u64 = match u64_get(&self.last_snapshot_time, symbol) {
                    Some(last) => seconds_to_nanos(
                        self.config.resync_cooldown_seconds,
                    ).saturating_sub(now.saturating_sub(last)),
                    None => 0,
                };
                ManageStep::FetchSnapshot { wait_nanos }
            },
            OrderbookState::Syncing => {
                let timeout: u64 = seconds_to_nanos(self.config.attach_bridge_timeout_seconds);
                let late: bool = match u64_get(&self.sync_start_time, symbol) {
                    Some(start) => now.saturating_sub(start) > timeout,
                    None => false,
                };
                if late {
                    self.trigger_resnapshot(symbol);
                    ManageStep::Resnapshot(ResnapshotReason::BridgeRuleTimeout)
                } else {
                    ManageStep::TryAttach
                }
            },
            OrderbookState::Live => ManageStep::Monitor,
        }
    }

    /// Notes that a snapshot is being fetched from `now` on.
    pub fn begin_snapshot(&mut self, symbol: &str, now: u64)
        ensures
            final(self)@ == (ManagerView {
                snapshot_times: old(self)@.snapshot_times.insert(symbol@, now),
                ..old(self)@.with_state(symbol@, OrderbookState::FetchingSnapshot)
            }),
            final(self)@ == old(self)@.fetch_begun(symbol@, now),
    {
        u64_insert(&mut self.last_snapshot_time, symbol, now);
        state_insert(&mut self.symbol_states, symbol, OrderbookState::FetchingSnapshot);
    }

    /// Takes a fetched snapshot as the book of a symbol. When a level is no pair of
    /// numbers nothing changes.
    pub fn apply_snapshot(&mut self, symbol: &str, snapshot: &DepthSnapshotRest, now: u64) -> (r:
        Result<(), LevelError>)
        ensures
            r == (if !book::all_readable(snapshot.bid_values@) {
                Err(LevelError::Bid)
            } else if !book::all_readable(snapshot.ask_values@) {
                Err(LevelError::Ask)
            } else {
                Ok(())
            }),
            r is Err ==> final(self)@ == old(self)@,
            r is Ok ==> holds_levels(snapshot.bid_values@, final(self)@.books[symbol@].bids),
            r is Ok ==> holds_levels(snapshot.ask_values@, final(self)@.books[symbol@].asks),
            r is Ok ==> final(self)@ == old(self)@.with_snapshot(symbol@, *snapshot, now),
            r is Ok ==> final(self)@ == (ManagerView {
                books: old(self)@.books.insert(
                    symbol@,
                    (BookView {
                        symbol: symbol@,
                        last_update_id: snapshot.last_update_id,
                        bids: snapshot_side(book::readable_prefix(snapshot.bid_values@)),
                        asks: snapshot_side(book::readable_prefix(snapshot.ask_values@)),
                        last_processed_time: now,
                    }),
                ),
                ..old(self)@
            }),
    {
        let bids: HashMap<u64, u64> = match read_snapshot_side(&snapshot.bid_values) {
            Some(side) => side,
            None => {
                return Err(LevelError::Bid);
            },
        };
        let asks: HashMap<u64, u64> = match read_snapshot_side(&snapshot.ask_values) {
            Some(side) => side,
            None => {
                return Err(LevelError::Ask);
            },
        };
        let held: Orderbook = Orderbook {
            symbol: symbol.to_owned(),
            last_update_id: snapshot.last_update_id,
            bids,
            asks,
            last_processed_time: now,
        };
        book_insert(&mut self.orderbooks, symbol, held);
        Ok(())
    }

    /// After a snapshot was taken and written: the symbol starts to synchronise, and
    /// its delay is back at the cooldown.
    pub fn snapshot_succeeded(&mut self, symbol: &str, now: u64)
        ensures
            final(self)@ == (ManagerView {
                sync_times: old(self)@.sync_times.insert(symbol@, now),
                backoffs: old(self)@.backoffs.insert(
                    symbol@,
                    nanos(old(self)@.config.resync_cooldown_seconds),
                ),
                ..old(self)@.with_state(symbol@, OrderbookState::Syncing)
            }),
            final(self)@ == old(self)@.fetch_done(symbol@, now),
    {
        state_insert(&mut self.symbol_states, symbol, OrderbookState::Syncing);
        u64_insert(&mut self.sync_start_time, symbol, now);
        let cooldown: u64 = seconds_to_nanos(self.config.resync_cooldown_seconds);
        u64_insert(&mut self.resnapshot_backoff, symbol, cooldown);
    }

    /// The delay of a symbol before the next attempt at a snapshot.
    pub fn current_backoff(&self, symbol: &str) -> (r: u64)
        ensures
            r == (if self@.backoffs.contains_key(symbol@) {
                self@.backoffs[symbol@]
            } else {
                nanos(self@.config.resync_cooldown_seconds)
            }),
            r == self@.backoff(symbol@),
    {
        match u64_get(&self.resnapshot_backoff, symbol) {
            Some(backoff) => backoff,
            None => seconds_to_nanos(self.config.resync_cooldown_seconds),
        }
    }

    /// After a snapshot failed: `scaled` is the current delay times the configured
    /// factor. The new delay, at most the configured maximum, is kept and returned.
    pub fn snapshot_failed(&mut self, symbol: &str, scaled: u64) -> (r: u64)
        ensures
            r == (if scaled <= nanos(old(self)@.config.max_resync_backoff_seconds) {
                scaled
            } else {
                nanos(old(self)@.config.max_resync_backoff_seconds)
            }),
            final(self)@ == (ManagerView {
                backoffs: old(self)@.backoffs.insert(symbol@, r),
                ..old(self)@
            }),
            final(self)@ == old(self)@.fetch_failed(symbol@, scaled),
            r == final(self)@.backoff(symbol@),
    {
        let max: u64 = seconds_to_nanos(self.config.max_resync_backoff_seconds);
        let backoff: u64 = if scaled <= max {
            scaled
        } else {
            max
        };
        u64_insert(&mut self.resnapshot_backoff, symbol, backoff);
        backoff
    }

    /// Sends a symbol back to the start: its snapshot will be fetched anew.
    pub fn trigger_resnapshot(&mut self, symbol: &str)
        ensures
            final(self)@ == old(self)@.with_state(symbol@, OrderbookState::Initializing),
    {
        state_insert(&mut self.symbol_states, symbol, OrderbookState::Initializing);
    }

    /// After an attempt to attach a symbol to its stream. Returns whether the symbol is
    /// live now: it attached.
    pub fn attach_finished(&mut self, symbol: &str, outcome: AttachOutcome) -> (r: bool)
        ensures
            r == (outcome is Attached),
            final(self)@ == (if r {
                old(self)@.with_state(symbol@, OrderbookState::Live)
            } else {
                old(self)@
            }),
            final(self)@ == old(self)@.finished(symbol@, outcome),
    {
        match outcome {
            AttachOutcome::Attached => {
                state_insert(&mut self.symbol_states, symbol, OrderbookState::Live);
                true
            },
            _ => false,
        }
    }

    /// Applies a diff to the book of a symbol and trims it; without a book nothing
    /// happens.
    pub fn apply_diff(&mut self, symbol: &str, update: &DepthUpdateWs, now: u64) -> (r: Result<
        (),
        LevelError,
    >)
        ensures
            r == (if old(self)@.books.contains_key(symbol@) {
                diff_result(*update)
            } else {
                Ok(())
            }),
            final(self)@ == old(self)@.with_diffs(symbol@, seq![*update], now),
    {
        match book_remove(&mut self.orderbooks, symbol) {
            Some(mut held) => {
                let applied: Result<(), LevelError> = Self::apply_update_to_book(
                    &mut held,
                    update,
                    now,
                );
                if applied.is_ok() {
                    Self::trim_book_to_depth(self.config.depth_limit as usize, &mut held);
                }
                proof {
                    let one = seq![*update];
                    let before = old(self)@.books[symbol@];
                    let depth = self.config.depth_limit as nat;
                    assert(one.drop_last() =~= seq![]);
                    assert(diffs_applied(depth, before, one.drop_last(), now) == before);
                    assert(held@ == diffs_applied(depth, before, one, now));
                }
                book_insert(&mut self.orderbooks, symbol, held);
                assert(self@.books =~= old(self)@.with_diffs(symbol@, seq![*update], now).books);
                applied
            },
            None => {
                assert(self@.books =~= old(self)@.books);
                Ok(())
            },
        }
    }

    /// Drops everything that is held of a symbol.
    pub fn remove_symbol_state(&mut self, symbol: &str)
        ensures
            final(self)@ == old(self)@.without(symbol@),
    {
        book_remove(&mut self.orderbooks, symbol);
        state_remove(&mut self.symbol_states, symbol);
        u64_remove(&mut self.last_snapshot_time, symbol);
        u64_remove(&mut self.last_periodic_snapshot, symbol);
        u64_remove(&mut self.sync_start_time, symbol);
        u64_remove(&mut self.resnapshot_backoff, symbol);
    }
}

/// A run of diffs, one more.
proof fn lemma_with_diffs_step(
    before: ManagerView,
    symbol: Seq<char>,
    updates: Seq<DepthUpdateWs>,
    n: int,
    now: u64,
)
    requires
        0 <= n < updates.len(),
    ensures
        before.with_diffs(symbol, updates.take(n), now).with_diffs(symbol, seq![updates[n]], now)
            == before.with_diffs(symbol, updates.take(n + 1), now),
{
    let front = updates.take(n);
    let longer = updates.take(n + 1);
    let depth = before.config.depth_limit as nat;
    assert(longer.drop_last() =~= front);
    assert(longer.last() == updates[n]);
    if before.books.contains_key(symbol) {
        let held = before.books[symbol];
        let mid = diffs_applied(depth, held, front, now);
        let one = seq![updates[n]];
        assert(one.drop_last() =~= seq![]);
        assert(diffs_applied(depth, mid, one.drop_last(), now) == mid);
        assert(diffs_applied(depth, mid, one, now) == diffs_applied(depth, held, longer, now));
        assert(before.books.insert(symbol, mid).insert(
            symbol,
            diffs_applied(depth, mid, one, now),
        ) =~= before.books.insert(symbol, diffs_applied(depth, held, longer, now)));
    }
}

/// No diffs, no change.
proof fn lemma_with_no_diffs(before: ManagerView, symbol: Seq<char>, now: u64)
    ensures
        before.with_diffs(symbol, seq![], now) == before,
{
    if before.books.contains_key(symbol) {
        assert(before.books.insert(symbol, before.books[symbol]) =~= before.books);
    }
}

/// The first `n` of a run of diffs are chained, and, where there is a book, readable.
spec fn good_until(before: ManagerView, symbol: Seq<char>, bridged: Seq<DepthUpdateWs>, n: int) -> bool {
    &&& forall|k: int|
        0 < k < n ==> (#[trigger] bridged[k]).prev_update_id == bridged[k - 1].final_update_id
    &&& before.books.contains_key(symbol) ==> forall|k: int|
        0 <= k < n ==> diff_result(#[trigger] bridged[k]) is Ok
}

/// A run of diffs whose chain breaks before the `n`th is followed up to there.
proof fn lemma_chain_breaks(
    before: ManagerView,
    symbol: Seq<char>,
    bridged: Seq<DepthUpdateWs>,
    n: int,
    now: u64,
)
    requires
        0 < n < bridged.len(),
        good_until(before, symbol, bridged, n),
        bridged[n].prev_update_id != bridged[n - 1].final_update_id,
    ensures
        before.followed(symbol, bridged, now) == (
            AttachOutcome::NotReady,
            before.with_diffs(symbol, bridged.take(n), now),
        ),
{
    attach::lemma_chain_len(bridged, n);
    if before.books.contains_key(symbol) {
        lemma_readable_until(bridged, n);
    }
}

/// A run of diffs whose `n`th cannot be read in full is followed up to that one.
#[verifier::spinoff_prover]
#[verifier::rlimit(50)]
proof fn lemma_diff_unreadable(
    before: ManagerView,
    symbol: Seq<char>,
    bridged: Seq<DepthUpdateWs>,
    n: int,
    now: u64,
)
    requires
        0 <= n < bridged.len(),
        before.books.contains_key(symbol),
        good_until(before, symbol, bridged, n),
        n > 0 ==> bridged[n].prev_update_id == bridged[n - 1].final_update_id,
        diff_result(bridged[n]) is Err,
    ensures
        before.followed(symbol, bridged, now) == (
            AttachOutcome::Unreadable(diff_result(bridged[n])->Err_0),
            before.with_diffs(symbol, bridged.take(n + 1), now),
        ),
{
    lemma_unreadable_index(bridged, n);
    lemma_chain_at_least(bridged, n + 1);
}

/// A run of diffs that is chained and readable is followed to its end.
proof fn lemma_all_followed(
    before: ManagerView,
    symbol: Seq<char>,
    bridged: Seq<DepthUpdateWs>,
    now: u64,
)
    requires
        bridged.len() > 0,
        good_until(before, symbol, bridged, bridged.len() as int),
    ensures
        before.followed(symbol, bridged, now) == (
            AttachOutcome::Attached,
            before.with_diffs(symbol, bridged, now),
        ),
{
    attach::lemma_chain_len(bridged, bridged.len() as int);
    if before.books.contains_key(symbol) {
        lemma_readable_until(bridged, bridged.len() as int);
    }
}

impl OrderbookManager {
    /// Tries to attach a symbol to its stream: the buffered diffs are put in order and
    /// applied from the one that bridges onto the snapshot, as long as each continues
    /// the one before it.
    pub fn try_attach_to_stream(
        &mut self,
        symbol: &str,
        buffered: Vec<DepthUpdateWs>,
        now: u64,
    ) -> (r: AttachOutcome)
        ensures
            exists|diffs: Seq<DepthUpdateWs>| #[trigger]
                attach::normalizes_to(buffered@, buffered@.len() as int, diffs) && (
                r,
                final(self)@,
            ) == old(self)@.attached(symbol@, diffs, now),
    {
        let snapshot_u: u64 = match book_get(&self.orderbooks, symbol) {
            Some(held) => held.last_update_id,
            None => 0,
        };
        let diffs: Vec<DepthUpdateWs> = normalize_messages_for_attach(buffered);
        if diffs.len() == 0 {
            return AttachOutcome::NotReady;
        }
        if snapshot_u < diffs[0].prev_update_id {
            self.trigger_resnapshot(symbol);
            return AttachOutcome::Resnapshot(ResnapshotReason::SnapshotOlderThanBuffer);
        }
        let bridge: usize = match find_bridge(snapshot_u, diffs.as_slice()) {
            Some((at, _rule)) => {
                proof {
                    attach::lemma_bridge_index(snapshot_u, diffs@, at as int);
                }
                at
            },
            None => {
                proof {
                    attach::lemma_bridge_index(snapshot_u, diffs@, diffs@.len() as int);
                }
                return AttachOutcome::NotReady;
            },
        };
        self.follow(symbol, &diffs, bridge, now)
    }

    /// Applies `diffs` from `bridge` on, as long as each continues the one before it.
    #[verifier::spinoff_prover]
    fn follow(&mut self, symbol: &str, diffs: &Vec<DepthUpdateWs>, bridge: usize, now: u64) -> (r:
        AttachOutcome)
        requires
            bridge < diffs@.len(),
        ensures
            (r, final(self)@) == old(self)@.followed(symbol@, diffs@.skip(bridge as int), now),
    {
        let ghost before = self@;
        let ghost bridged = diffs@.skip(bridge as int);
        let mut i: usize = bridge;
        proof {
            lemma_with_no_diffs(before, symbol@, now);
            assert(bridged.take(0) =~= seq![]);
        }
        while i < diffs.len()
            invariant
                bridge <= i <= diffs.len(),
                bridge < diffs.len(),
                bridged == diffs@.skip(bridge as int),
                before == old(self)@,
                self@ == before.with_diffs(symbol@, bridged.take(i - bridge), now),
                good_until(before, symbol@, bridged, i - bridge),
            decreases diffs.len() - i,
        {
            let ghost n = i - bridge;
            assert(bridged[n] == diffs@[i as int]);
            if i > bridge && diffs[i].prev_update_id != diffs[i - 1].final_update_id {
                proof {
                    assert(bridged[n - 1] == diffs@[i - 1]);
                    lemma_chain_breaks(before, symbol@, bridged, n, now);
                }
                return AttachOutcome::NotReady;
            }
            let applied: Result<(), LevelError> = self.apply_diff(symbol, &diffs[i], now);
            proof {
                lemma_with_diffs_step(before, symbol@, bridged, n, now);
                if n > 0 {
                    assert(bridged[n - 1] == diffs@[i - 1]);
                }
            }
            match applied {
                Ok(_) => {},
                Err(error) => {
                    proof {
                        lemma_diff_unreadable(before, symbol@, bridged, n, now);
                    }
                    return AttachOutcome::Unreadable(error);
                },
            }
            i = i + 1;
        }
        proof {
            assert(bridged.take(bridged.len() as int) =~= bridged);
            lemma_all_followed(before, symbol@, bridged, now);
        }
        AttachOutcome::Attached
    }

    /// Applies diffs that arrived for a live symbol. A diff with an unreadable level
    /// does not stop the ones after it. Gaps are not looked for: quantities are
    /// absolute, so each level is right again after its next diff. Returns how many
    /// diffs failed.
    pub fn apply_live_updates(&mut self, symbol: &str, updates: &Vec<DepthUpdateWs>, now: u64) -> (r:
        usize)
        ensures
            final(self)@ == old(self)@.with_diffs(symbol@, updates@, now),
            r == (if old(self)@.books.contains_key(symbol@) {
                failed_diffs(updates@)
            } else {
                0
            }),
    {
        let mut failed: usize = 0;
        let mut i: usize = 0;
        proof {
            lemma_with_no_diffs(self@, symbol@, now);
            assert(updates@.take(0) =~= seq![]);
        }
        while i < updates.len()
            invariant
                i <= updates.len(),
                self@ == old(self)@.with_diffs(symbol@, updates@.take(i as int), now),
                failed == (if old(self)@.books.contains_key(symbol@) {
                    failed_diffs(updates@.take(i as int))
                } else {
                    0
                }),
                failed <= i,
            decreases updates.len() - i,
        {
            let applied: Result<(), LevelError> = self.apply_diff(symbol, &updates[i], now);
            proof {
                lemma_with_diffs_step(old(self)@, symbol@, updates@, i as int, now);
                assert(updates@.take(i + 1).drop_last() =~= updates@.take(i as int));
            }
            if applied.is_err() {
                failed = failed + 1;
            }
            i = i + 1;
        }
        assert(updates@.take(updates.len() as int) =~= updates@);
        failed
    }

    /// The symbols whose books are live, in no particular order.
    pub fn live_symbols(&self) -> (r: Vec<String>)
        ensures
            forall|i: int|
                0 <= i < r.len() ==> self@.states.contains_key((#[trigger] r@[i])@)
                    && self@.states[r@[i]@] == OrderbookState::Live,
            forall|i: int, j: int|
                0 <= i < j < r.len() ==> (#[trigger] r@[i])@ != (#[trigger] r@[j])@,
            forall|symbol: Seq<char>| #[trigger]
                self@.states.contains_key(symbol) && self@.states[symbol] == OrderbookState::Live
                    ==> text::texts(r@).contains(symbol),
    {
        let list: Vec<(String, OrderbookState)> = state_list(&self.symbol_states);
        let mut out: Vec<String> = Vec::new();
        let mut i: usize = 0;
        while i < list.len()
            invariant
                i <= list.len(),
                symbol_maps::lists_entries(self@.states, list@),
                forall|k: int|
                    0 <= k < out.len() ==> self@.states.contains_key((#[trigger] out@[k])@)
                        && self@.states[out@[k]@] == OrderbookState::Live,
                forall|k: int, m: int|
                    0 <= k < out.len() && i <= m < list.len() ==> (#[trigger] out@[k])@ != (
                    #[trigger] list@[m]).0@,
                forall|j: int, k: int|
                    0 <= j < k < out.len() ==> (#[trigger] out@[j])@ != (#[trigger] out@[k])@,
                forall|m: int|
                    0 <= m < i && (#[trigger] list@[m]).1 == OrderbookState::Live ==> text::texts(
                        out@,
                    ).contains(list@[m].0@),
            decreases list.len() - i,
        {
            if list[i].1 == OrderbookState::Live {
                let ghost before = out@;
                out.push(list[i].0.clone());
                proof {
                    let after = text::texts(out@);
                    assert(after[before.len() as int] == list@[i as int].0@);
                    assert forall|m: int|
                        0 <= m < i && (#[trigger] list@[m]).1
                            == OrderbookState::Live implies after.contains(list@[m].0@) by {
                        let k = choose|k: int|
                            0 <= k < text::texts(before).len() && text::texts(before)[k]
                                == list@[m].0@;
                        assert(after[k] == list@[m].0@);
                    }
                }
            }
            i = i + 1;
        }
        out
    }

    /// Those of `symbols` whose books are live, in their order.
    pub fn live_among(&self, symbols: &Vec<String>) -> (r: Vec<String>)
        ensures
            text::texts(r@) == live_only(self@, text::texts(symbols@)),
    {
        let mut out: Vec<String> = Vec::new();
        let mut i: usize = 0;
        assert(text::texts(symbols@).take(0) =~= seq![]);
        assert(text::texts(out@) =~= seq![]);
        while i < symbols.len()
            invariant
                i <= symbols.len(),
                text::texts(out@) == live_only(self@, text::texts(symbols@).take(i as int)),
            decreases symbols.len() - i,
        {
            let ghost all = text::texts(symbols@);
            assert(all.take(i + 1).drop_last() =~= all.take(i as int));
            let live: bool = match state_get(&self.symbol_states, symbols[i].as_str()) {
                Some(state) => state == OrderbookState::Live,
                None => false,
            };
            if live {
                let ghost before = out@;
                out.push(symbols[i].clone());
                assert(text::texts(out@) =~= text::texts(before).push(all[i as int]));
            }
            i = i + 1;
        }
        assert(text::texts(symbols@).take(symbols.len() as int) =~= text::texts(symbols@));
        out
    }

    /// Notes when a periodic snapshot of a symbol was written.
    pub fn note_periodic_snapshot(&mut self, symbol: &str, now: u64)
        ensures
            final(self)@ == (ManagerView {
                periodic_times: old(self)@.periodic_times.insert(symbol@, now),
                ..old(self)@
            }),
    {
        u64_insert(&mut self.last_periodic_snapshot, symbol, now);
    }

    /// The symbols whose book did not change for two hours.
    #[verifier::spinoff_prover]
    fn stale_list(&self, now: u64) -> (r: Vec<String>)
        ensures
            text::texts(r@).no_duplicates(),
            text::texts(r@).to_set() == stale_symbols(self@.books, now),
    {
        let list: Vec<(String, u64)> = book_time_list(&self.orderbooks);
        let ghost times = book_times(self@.books);
        let mut stale: Vec<String> = Vec::new();
        let mut i: usize = 0;
        while i < list.len()
            invariant
                i <= list.len(),
                symbol_maps::lists_entries(times, list@),
                text::texts(stale@).no_duplicates(),
                forall|k: int, m: int|
                    0 <= k < stale.len() && i <= m < list.len() ==> (#[trigger] stale@[k])@ != (
                    #[trigger] list@[m]).0@,
                forall|k: int|
                    0 <= k < stale.len() ==> times.contains_key((#[trigger] stale@[k])@) && is_stale(
                        now,
                        times[stale@[k]@],
                    ),
                forall|m: int|
                    0 <= m < i && is_stale(now, (#[trigger] list@[m]).1) ==> text::texts(
                        stale@,
                    ).contains(list@[m].0@),
            decreases list.len() - i,
        {
            let ghost name = list@[i as int].0@;
            assert(times.contains_key(name) && times[name] == list@[i as int].1);
            if now.saturating_sub(list[i].1) / 1_000_000_000 > 7200 {
                let ghost before = stale@;
                stale.push(list[i].0.clone());
                proof {
                    let was = text::texts(before);
                    let is = text::texts(stale@);
                    assert(is =~= was.push(name));
                    assert(is[was.len() as int] == name);
                    assert forall|m: int|
                        0 <= m < i && is_stale(now, (#[trigger] list@[m]).1) implies is.contains(
                        list@[m].0@,
                    ) by {
                        let k = choose|k: int| 0 <= k < was.len() && was[k] == list@[m].0@;
                        assert(is[k] == list@[m].0@);
                    }
                    assert forall|j: int, k: int| 0 <= j < k < is.len() implies is[j] != is[k] by {
                        if k == was.len() {
                            assert(before[j]@ != list@[i as int].0@);
                        } else {
                            assert(was[j] != was[k]);
                        }
                    }
                }
            }
            i = i + 1;
        }
        proof {
            let names = text::texts(stale@);
            let due = stale_symbols(self@.books, now);
            assert forall|symbol: Seq<char>| names.to_set().contains(symbol) <==> due.contains(
                symbol,
            ) by {
                if names.contains(symbol) {
                    let k = choose|k: int| 0 <= k < names.len() && names[k] == symbol;
                    assert(times.contains_key(stale@[k]@));
                }
                if due.contains(symbol) {
                    assert(times.contains_key(symbol));
                    let m = choose|m: int| 0 <= m < list.len() && (#[trigger] list@[m]).0@ == symbol;
                    assert(is_stale(now, list@[m].1));
                }
            }
            assert(names.to_set() =~= due);
        }
        stale
    }

    /// Drops everything of the symbols whose book did not change for two hours, and
    /// returns them.
    #[verifier::spinoff_prover]
    pub fn cleanup_stale_symbols(&mut self, now: u64) -> (r: Vec<String>)
        ensures
            text::texts(r@).no_duplicates(),
            text::texts(r@).to_set() == stale_symbols(old(self)@.books, now),
            final(self)@ == old(self)@.without_all(stale_symbols(old(self)@.books, now)),
    {
        let stale: Vec<String> = self.stale_list(now);
        let ghost names = text::texts(stale@);
        let mut i: usize = 0;
        proof {
            lemma_without_none(self@);
            assert(names.take(0).to_set() =~= Set::empty());
        }
        while i < stale.len()
            invariant
                i <= stale.len(),
                names == text::texts(stale@),
                self@ == old(self)@.without_all(names.take(i as int).to_set()),
            decreases stale.len() - i,
        {
            self.remove_symbol_state(stale[i].as_str());
            proof {
                let seen = names.take(i as int);
                assert(names.take(i + 1) =~= seen.push(names[i as int]));
                seen.lemma_push_to_set_commute(names[i as int]);
                lemma_without_one_more(old(self)@, seen.to_set(), names[i as int]);
            }
            i = i + 1;
        }
        assert(names.take(stale.len() as int) =~= names);
        stale
    }
}

/// How many diffs of a run cannot be read in full.
pub open spec fn failed_diffs(updates: Seq<DepthUpdateWs>) -> nat
    decreases updates.len(),
{
    if updates.len() == 0 {
        0
    } else {
        failed_diffs(updates.drop_last()) + (if diff_result(updates.last()) is Err {
            1nat
        } else {
            0
        })
    }
}

/// Those of `symbols` whose books are live, in their order.
pub open spec fn live_only(manager: ManagerView, symbols: Seq<Seq<char>>) -> Seq<Seq<char>>
    decreases symbols.len(),
{
    if symbols.len() == 0 {
        seq![]
    } else {
        let front = live_only(manager, symbols.drop_last());
        let last = symbols.last();
        if manager.states.contains_key(last) && manager.states[last] == OrderbookState::Live {
            front.push(last)
        } else {
            front
        }
    }
}

/// A chain that holds up to `n` is at least that long.
proof fn lemma_chain_at_least(diffs: Seq<DepthUpdateWs>, n: int)
    requires
        0 < n <= diffs.len(),
        forall|j: int|
            0 < j < n ==> (#[trigger] diffs[j]).prev_update_id == diffs[j - 1].final_update_id,
    ensures
        attach::chain_len(diffs) >= n,
    decreases diffs.len(),
{
    if n > 1 {
        assert(diffs[1].prev_update_id == diffs[0].final_update_id);
        let rest = diffs.drop_first();
        assert forall|j: int| 0 < j < n - 1 implies (#[trigger] rest[j]).prev_update_id == rest[j
            - 1].final_update_id by {
            assert(diffs[j + 1].prev_update_id == diffs[j].final_update_id);
        }
        lemma_chain_at_least(rest, n - 1);
    }
}

/// A manager without no symbol is the manager.
proof fn lemma_without_none(manager: ManagerView)
    ensures
        manager.without_all(Set::empty()) == manager,
{
    let same = manager.without_all(Set::empty());
    assert(same.states =~= manager.states);
    assert(same.books =~= manager.books);
    assert(same.snapshot_times =~= manager.snapshot_times);
    assert(same.periodic_times =~= manager.periodic_times);
    assert(same.sync_times =~= manager.sync_times);
    assert(same.backoffs =~= manager.backoffs);
}

/// Dropping one more symbol.
proof fn lemma_without_one_more(manager: ManagerView, dropped: Set<Seq<char>>, symbol: Seq<char>)
    ensures
        manager.without_all(dropped).without(symbol) == manager.without_all(
            dropped.insert(symbol),
        ),
{
    let a = manager.without_all(dropped).without(symbol);
    let b = manager.without_all(dropped.insert(symbol));
    assert(a.states =~= b.states);
    assert(a.books =~= b.books);
    assert(a.snapshot_times =~= b.snapshot_times);
    assert(a.periodic_times =~= b.periodic_times);
    assert(a.sync_times =~= b.sync_times);
    assert(a.backoffs =~= b.backoffs);
}

/// Statistics of one symbol's book.
pub struct OrderbookStats {
    pub symbol: String,
    pub state: String,
    pub last_update_id: u64,
    pub bid_levels: usize,
    pub ask_levels: usize,
}

/// The name of a state.
pub open spec fn state_text(state: OrderbookState) -> Seq<char> {
    match state {
        OrderbookState::Initializing => "Initializing"@,
        OrderbookState::FetchingSnapshot => "FetchingSnapshot"@,
        OrderbookState::Syncing => "Syncing"@,
        OrderbookState::Live => "Live"@,
    }
}

/// The name of a state.
pub fn state_name(state: OrderbookState) -> (r: &'static str)
    ensures
        r@ == state_text(state),
{
    match state {
        OrderbookState::Initializing => "Initializing",
        OrderbookState::FetchingSnapshot => "FetchingSnapshot",
        OrderbookState::Syncing => "Syncing",
        OrderbookState::Live => "Live",
    }
}

/// `stats` is what there is to say of a symbol.
pub open spec fn describes(manager: ManagerView, symbol: Seq<char>, stats: OrderbookStats) -> bool {
    &&& stats.symbol@ == symbol
    &&& stats.state@ == state_text(manager.states[symbol])
    &&& if manager.books.contains_key(symbol) {
        &&& stats.last_update_id == manager.books[symbol].last_update_id
        &&& stats.bid_levels == manager.books[symbol].bids.dom().len()
        &&& stats.ask_levels == manager.books[symbol].asks.dom().len()
    } else {
        stats.last_update_id == 0 && stats.bid_levels == 0 && stats.ask_levels == 0
    }
}

/// What a map from symbols to statistics holds.
pub uninterp spec fn stats_entries(map: FxHashMap<String, OrderbookStats>) -> Map<
    Seq<char>,
    OrderbookStats,
>;

/// `FxHashMap::default`: an empty map.
#[verifier::external_body]
fn stats_map() -> (r: FxHashMap<String, OrderbookStats>)
    ensures
        stats_entries(r) == (Map::<Seq<char>, OrderbookStats>::empty()),
{
    FxHashMap::default()
}

/// `FxHashMap::insert`: the key maps to the statistics, other keys are as before.
#[verifier::external_body]
fn stats_insert(map: &mut FxHashMap<String, OrderbookStats>, key: &str, stats: OrderbookStats)
    ensures
        stats_entries(*final(map)) == stats_entries(*old(map)).insert(key@, stats),
{
    map.insert(key.to_string(), stats);
}

/// A snapshot row of one level.
pub open spec fn is_level_row(
    row: DepthSnapshotCsv,
    symbol: Seq<char>,
    event_type: Seq<char>,
    timestamp_ms: i64,
    last_update_id: u64,
    side: Seq<char>,
    level: (String, String),
) -> bool {
    &&& row.exchange@ == constants::EXCHANGE@
    &&& row.market@ == constants::MARKET@
    &&& row.datatype@ == constants::DATATYPE_ORDERBOOKS@
    &&& row.timestamp_ms == timestamp_ms
    &&& row.symbol@ == text::lowercase(symbol)
    &&& row.event_type@ == event_type
    &&& row.side@ == side
    &&& row.price@ == level.0@
    &&& row.quantity@ == level.1@
    &&& row.last_update_id == last_update_id
}

fn level_row(
    symbol: &str,
    event_type: &str,
    timestamp_ms: i64,
    last_update_id: u64,
    side: &str,
    level: &(String, String),
) -> (r: DepthSnapshotCsv)
    ensures
        is_level_row(r, symbol@, event_type@, timestamp_ms, last_update_id, side@, *level),
{
    DepthSnapshotCsv {
        exchange: constants::EXCHANGE.to_owned(),
        market: constants::MARKET.to_owned(),
        datatype: constants::DATATYPE_ORDERBOOKS.to_owned(),
        timestamp_ms,
        symbol: text::to_lowercase(symbol),
        event_type: event_type.to_owned(),
        side: side.to_owned(),
        price: level.0.clone(),
        quantity: level.1.clone(),
        last_update_id,
    }
}

/// The rows of a snapshot, one for each level: all bids, then all asks, each side in
/// the order in which it is given.
pub fn snapshot_rows(
    symbol: &str,
    event_type: &str,
    timestamp_ms: i64,
    last_update_id: u64,
    bids: &Vec<(String, String)>,
    asks: &Vec<(String, String)>,
) -> (r: Vec<DepthSnapshotCsv>)
    ensures
        r@.len() == bids@.len() + asks@.len(),
        forall|i: int|
            0 <= i < bids@.len() ==> is_level_row(
                #[trigger] r@[i],
                symbol@,
                event_type@,
                timestamp_ms,
                last_update_id,
                "bid"@,
                bids@[i],
            ),
        forall|i: int|
            bids@.len() <= i < r@.len() ==> is_level_row(
                #[trigger] r@[i],
                symbol@,
                event_type@,
                timestamp_ms,
                last_update_id,
                "ask"@,
                asks@[i - bids@.len()],
            ),
{
    let mut rows: Vec<DepthSnapshotCsv> = Vec::new();
    let mut i: usize = 0;
    while i < bids.len()
        invariant
            i <= bids.len(),
            rows.len() == i,
            forall|k: int|
                0 <= k < i ==> is_level_row(
                    #[trigger] rows@[k],
                    symbol@,
                    event_type@,
                    timestamp_ms,
                    last_update_id,
                    constants::SIDE_BID@,
                    bids@[k],
                ),
        decreases bids.len() - i,
    {
        rows.push(
            level_row(
                symbol,
                event_type,
                timestamp_ms,
                last_update_id,
                constants::SIDE_BID,
                &bids[i],
            ),
        );
        i = i + 1;
    }
    let mut j: usize = 0;
    while j < asks.len()
        invariant
            j <= asks.len(),
            rows@.len() == bids@.len() + j,
            forall|k: int|
                0 <= k < bids@.len() ==> is_level_row(
                    #[trigger] rows@[k],
                    symbol@,
                    event_type@,
                    timestamp_ms,
                    last_update_id,
                    constants::SIDE_BID@,
                    bids@[k],
                ),
            forall|k: int|
                bids@.len() <= k < rows@.len() ==> is_level_row(
                    #[trigger] rows@[k],
                    symbol@,
                    event_type@,
                    timestamp_ms,
                    last_update_id,
                    constants::SIDE_ASK@,
                    asks@[k - bids@.len()],
                ),
        decreases asks.len() - j,
    {
        rows.push(
            level_row(
                symbol,
                event_type,
                timestamp_ms,
                last_update_id,
                constants::SIDE_ASK,
                &asks[j],
            ),
        );
        j = j + 1;
    }
    rows
}

/// The key by which a level of a fetched snapshot is ordered: its price, highest first
/// among bids and lowest first among asks. A level that is no pair of numbers counts
/// as price zero.
pub open spec fn level_key(bids: bool, value: Option<(u64, u64)>) -> u64 {
    let rank = match value {
        Some(level) => book::price_rank(level.0),
        None => 0,
    };
    if bids {
        (book::SIGN_BIT - 1 - rank) as u64
    } else {
        (rank + book::SIGN_BIT) as u64
    }
}

/// The order in which the levels of a fetched snapshot are written: best price first,
/// equal prices as they came.
pub fn snapshot_order(bids: bool, values: &Vec<Option<(u64, u64)>>) -> (r: Vec<usize>)
    ensures
        sorting::is_stable_order(
            values@.map_values(|v: Option<(u64, u64)>| level_key(bids, v)),
            r@,
        ),
{
    let mut keys: Vec<u64> = Vec::new();
    let mut i: usize = 0;
    while i < values.len()
        invariant
            i <= values.len(),
            keys.len() == i,
            forall|k: int| 0 <= k < i ==> #[trigger] keys@[k] == level_key(bids, values@[k]),
        decreases values.len() - i,
    {
        let price: u64 = match values[i] {
            Some(level) => level.0,
            None => 0,
        };
        let key: u64 = book::price_key(price);
        keys.push(
            if bids {
                0xffff_ffff_ffff_ffff - key
            } else {
                key
            },
        );
        i = i + 1;
    }
    assert(keys@ =~= values@.map_values(|v: Option<(u64, u64)>| level_key(bids, v)));
    sorting::stable_order(&keys)
}

/// What is written of a book: its id and its levels, best price first.
pub struct BookLevels {
    pub last_update_id: u64,
    pub bids: Vec<(u64, u64)>,
    pub asks: Vec<(u64, u64)>,
}

impl OrderbookManager {
    /// The present levels of a symbol's book, best price first, `None` without a book.
    pub fn current_levels(&self, symbol: &str) -> (r: Option<BookLevels>)
        ensures
            r is Some <==> self@.books.contains_key(symbol@),
            r matches Some(levels) ==> {
                &&& levels.last_update_id == self@.books[symbol@].last_update_id
                &&& book::lists_side(true, self@.books[symbol@].bids, levels.bids@)
                &&& book::lists_side(false, self@.books[symbol@].asks, levels.asks@)
            },
    {
        match book_get(&self.orderbooks, symbol) {
            Some(held) => Some(
                BookLevels {
                    last_update_id: held.last_update_id,
                    bids: book::best_levels(true, &held.bids),
                    asks: book::best_levels(false, &held.asks),
                },
            ),
            None => None,
        }
    }

    /// Statistics of every symbol that has a state.
    pub fn get_stats(&self) -> (r: FxHashMap<String, OrderbookStats>)
        ensures
            stats_entries(r).dom() == self@.states.dom(),
            forall|symbol: Seq<char>| #[trigger]
                stats_entries(r).contains_key(symbol) ==> describes(
                    self@,
                    symbol,
                    stats_entries(r)[symbol],
                ),
    {
        let list: Vec<(String, OrderbookState)> = state_list(&self.symbol_states);
        let mut stats: FxHashMap<String, OrderbookStats> = stats_map();
        let mut i: usize = 0;
        while i < list.len()
            invariant
                i <= list.len(),
                symbol_maps::lists_entries(self@.states, list@),
                forall|symbol: Seq<char>| #[trigger]
                    stats_entries(stats).contains_key(symbol) ==> self@.states.contains_key(symbol)
                        && describes(self@, symbol, stats_entries(stats)[symbol]),
                forall|k: int|
                    0 <= k < i ==> stats_entries(stats).contains_key((#[trigger] list@[k]).0@),
            decreases list.len() - i,
        {
            let symbol: &str = list[i].0.as_str();
            let (last_update_id, bid_levels, ask_levels): (u64, usize, usize) = match book_get(
                &self.orderbooks,
                symbol,
            ) {
                Some(held) => (held.last_update_id, held.bids.len(), held.asks.len()),
                None => (0, 0, 0),
            };
            let one: OrderbookStats = OrderbookStats {
                symbol: symbol.to_owned(),
                state: state_name(list[i].1).to_owned(),
                last_update_id,
                bid_levels,
                ask_levels,
            };
            assert(describes(self@, list@[i as int].0@, one));
            stats_insert(&mut stats, symbol, one);
            i = i + 1;
        }
        assert(stats_entries(stats).dom() =~= self@.states.dom());
        stats
    }
}

/// After a run of diffs the book ends at the last one, when all could be read.
pub proof fn book_ends_at_last_diff(
    depth: nat,
    held: BookView,
    updates: Seq<DepthUpdateWs>,
    now: u64,
)
    requires
        updates.len() > 0,
        diff_result(updates.last()) is Ok,
    ensures
        diffs_applied(depth, held, updates, now).last_update_id == updates.last().final_update_id,
{
}

/// A book stays within its depth however many diffs are applied: after a diff that can be
/// read, each side has at most `depth` levels.
pub proof fn books_stay_within_depth(
    depth: nat,
    held: BookView,
    updates: Seq<DepthUpdateWs>,
    now: u64,
)
    requires
        held.bids.dom().finite(),
        held.asks.dom().finite(),
        updates.len() > 0,
        diff_result(updates.last()) is Ok,
    ensures
        diffs_applied(depth, held, updates, now).bids.dom().len() <= depth,
        diffs_applied(depth, held, updates, now).asks.dom().len() <= depth,
{
    let before = diffs_applied(depth, held, updates.drop_last(), now);
    lemma_books_stay_finite(depth, held, updates.drop_last(), now);
    let next = diff_on_book(before, updates.last(), now);
    lemma_diff_stays_finite(before, updates.last(), now);
    book::trimming_bounds_the_side(true, depth, next.bids);
    book::trimming_bounds_the_side(false, depth, next.asks);
}

/// A diff leaves a finite book finite.
proof fn lemma_diff_stays_finite(held: BookView, update: DepthUpdateWs, now: u64)
    requires
        held.bids.dom().finite(),
        held.asks.dom().finite(),
    ensures
        diff_on_book(held, update, now).bids.dom().finite(),
        diff_on_book(held, update, now).asks.dom().finite(),
{
    book::lemma_levels_stay_finite(
        held.bids,
        side_levels(update.b_floats, update.bid_values@),
    );
    book::lemma_levels_stay_finite(
        held.asks,
        side_levels(update.a_floats, update.ask_values@),
    );
}

/// Diffs leave a finite book finite.
proof fn lemma_books_stay_finite(
    depth: nat,
    held: BookView,
    updates: Seq<DepthUpdateWs>,
    now: u64,
)
    requires
        held.bids.dom().finite(),
        held.asks.dom().finite(),
    ensures
        diffs_applied(depth, held, updates, now).bids.dom().finite(),
        diffs_applied(depth, held, updates, now).asks.dom().finite(),
    decreases updates.len(),
{
    if updates.len() > 0 {
        lemma_books_stay_finite(depth, held, updates.drop_last(), now);
        let before = diffs_applied(depth, held, updates.drop_last(), now);
        let next = diff_on_book(before, updates.last(), now);
        lemma_diff_stays_finite(before, updates.last(), now);
        book::trimming_bounds_the_side(true, depth, next.bids);
        book::trimming_bounds_the_side(false, depth, next.asks);
    }
}

/// A symbol that attached has a book that ends where the stream stands: at the last
/// buffered diff.
pub proof fn attached_book_is_current(
    manager: ManagerView,
    symbol: Seq<char>,
    diffs: Seq<DepthUpdateWs>,
    now: u64,
)
    requires
        manager.books.contains_key(symbol),
        manager.attached(symbol, diffs, now).0 == AttachOutcome::Attached,
    ensures
        manager.attached(symbol, diffs, now).1.books[symbol].last_update_id
            == diffs.last().final_update_id,
{
    let at = attach::bridge_index(manager.snapshot_id(symbol), diffs) as int;
    lemma_bridge_in_range(manager.snapshot_id(symbol), diffs);
    let bridged = diffs.skip(at);
    let n = bridged.len() as int;
    lemma_chain_in_range(bridged);
    lemma_readable_below(bridged, n - 1);
    assert(bridged.last() == diffs.last());
}

/// The bridge lies within the diffs or right behind them.
proof fn lemma_bridge_in_range(snapshot_u: u64, diffs: Seq<DepthUpdateWs>)
    ensures
        attach::bridge_index(snapshot_u, diffs) <= diffs.len(),
    decreases diffs.len(),
{
    if diffs.len() > 0 {
        lemma_bridge_in_range(snapshot_u, diffs.drop_first());
    }
}

/// A chain is no longer than the diffs.
proof fn lemma_chain_in_range(diffs: Seq<DepthUpdateWs>)
    ensures
        attach::chain_len(diffs) <= diffs.len(),
    decreases diffs.len(),
{
    if diffs.len() > 1 {
        lemma_chain_in_range(diffs.drop_first());
    }
}

/// Diffs before the first unreadable one can be read.
proof fn lemma_readable_below(updates: Seq<DepthUpdateWs>, i: int)
    requires
        0 <= i < updates.len(),
        i < unreadable_index(updates),
    ensures
        diff_result(updates[i]) is Ok,
    decreases updates.len(),
{
    if i > 0 {
        lemma_readable_below(updates.drop_first(), i - 1);
        assert(updates.drop_first()[i - 1] == updates[i]);
    }
}

/// Stopping a delisted symbol leaves no trace of it.
pub proof fn delisting_leaves_no_trace(manager: ManagerView, symbol: Seq<char>, now: u64)
    ensures
        manager.managed(symbol, true, now).0 == ManageStep::Stop,
        ({
            let after = manager.managed(symbol, true, now).1;
            &&& !after.states.contains_key(symbol)
            &&& !after.books.contains_key(symbol)
            &&& !after.snapshot_times.contains_key(symbol)
            &&& !after.periodic_times.contains_key(symbol)
            &&& !after.sync_times.contains_key(symbol)
            &&& !after.backoffs.contains_key(symbol)
        }),
{
}

/// Two managers hold the same of a symbol.
pub open spec fn same_for(a: ManagerView, b: ManagerView, symbol: Seq<char>) -> bool {
    &&& a.states.contains_key(symbol) == b.states.contains_key(symbol)
    &&& a.states.contains_key(symbol) ==> a.states[symbol] == b.states[symbol]
    &&& a.books.contains_key(symbol) == b.books.contains_key(symbol)
    &&& a.books.contains_key(symbol) ==> a.books[symbol] == b.books[symbol]
    &&& a.snapshot_times.contains_key(symbol) == b.snapshot_times.contains_key(symbol)
    &&& a.snapshot_times.contains_key(symbol) ==> a.snapshot_times[symbol]
        == b.snapshot_times[symbol]
    &&& a.periodic_times.contains_key(symbol) == b.periodic_times.contains_key(symbol)
    &&& a.periodic_times.contains_key(symbol) ==> a.periodic_times[symbol]
        == b.periodic_times[symbol]
    &&& a.sync_times.contains_key(symbol) == b.sync_times.contains_key(symbol)
    &&& a.sync_times.contains_key(symbol) ==> a.sync_times[symbol] == b.sync_times[symbol]
    &&& a.backoffs.contains_key(symbol) == b.backoffs.contains_key(symbol)
    &&& a.backoffs.contains_key(symbol) ==> a.backoffs[symbol] == b.backoffs[symbol]
}

/// Steps of one symbol do not touch another: neither what is decided next for it, nor
/// an attempt to attach it, nor diffs that are applied to it.
pub proof fn symbols_are_independent(
    manager: ManagerView,
    symbol: Seq<char>,
    other: Seq<char>,
    delisted: bool,
    diffs: Seq<DepthUpdateWs>,
    now: u64,
)
    requires
        symbol != other,
    ensures
        same_for(manager, manager.managed(symbol, delisted, now).1, other),
        same_for(manager, manager.attached(symbol, diffs, now).1, other),
        same_for(manager, manager.with_diffs(symbol, diffs, now), other),
{
}

/// A live symbol that is not delisted stays live: its next step changes nothing, and
/// diffs are applied to its book whatever is missing between them.
pub proof fn live_until_delisted(
    manager: ManagerView,
    symbol: Seq<char>,
    diffs: Seq<DepthUpdateWs>,
    now: u64,
)
    requires
        manager.state(symbol) == OrderbookState::Live,
    ensures
        manager.managed(symbol, false, now) == (ManageStep::Monitor, manager),
        manager.with_diffs(symbol, diffs, now).state(symbol) == OrderbookState::Live,
{
}

/// A symbol that is not live goes live if and only if it attaches to its stream: not by
/// its next step, and not by an attempt that ends otherwise.
pub proof fn live_only_by_attaching(
    manager: ManagerView,
    symbol: Seq<char>,
    delisted: bool,
    diffs: Seq<DepthUpdateWs>,
    now: u64,
)
    requires
        manager.state(symbol) != OrderbookState::Live,
    ensures
        manager.managed(symbol, delisted, now).1.state(symbol) != OrderbookState::Live,
        manager.with_diffs(symbol, diffs, now).state(symbol) != OrderbookState::Live,
        ({
            let (outcome, after) = manager.attached(symbol, diffs, now);
            after.finished(symbol, outcome).state(symbol) == OrderbookState::Live <==> outcome
                == AttachOutcome::Attached
        }),
{
}

/// Two fetches of a symbol's snapshot are at least the cooldown apart: what is left to
/// wait and what has passed add up to it.
pub proof fn snapshots_respect_cooldown(manager: ManagerView, symbol: Seq<char>, now: u64)
    requires
        manager.state(symbol) == OrderbookState::FetchingSnapshot,
        manager.snapshot_times.contains_key(symbol),
    ensures
        manager.managed(symbol, false, now).0 matches ManageStep::FetchSnapshot { wait_nanos }
            && elapsed(manager.snapshot_times[symbol], now) + wait_nanos >= nanos(
            manager.config.resync_cooldown_seconds,
        ),
{
}

/// `levels` are what one side of a diff says: its levels converted ahead of time where it
/// has them, else those from the wire, all of which can be read.
pub open spec fn spells(
    floats: Option<Vec<(u64, u64)>>,
    values: Seq<Option<(u64, u64)>>,
    levels: Seq<(u64, u64)>,
) -> bool {
    match floats {
        Some(converted) => levels == converted@,
        None => {
            &&& levels.len() == values.len()
            &&& forall|i: int| 0 <= i < values.len() ==> (#[trigger] values[i]) == Some(levels[i])
        },
    }
}

proof fn lemma_spelled(
    floats: Option<Vec<(u64, u64)>>,
    values: Seq<Option<(u64, u64)>>,
    levels: Seq<(u64, u64)>,
)
    requires
        spells(floats, values, levels),
    ensures
        side_readable(floats, values),
        side_levels(floats, values) == levels,
{
    if floats is None {
        assert forall|i: int| 0 <= i < values.len() implies (#[trigger] values[i]) is Some by {
            assert(values[i] == Some(levels[i]));
        }
        book::reading_stops_at_the_first_bad_level(values, values.len() as int);
        assert forall|i: int| 0 <= i < levels.len() implies book::readable_prefix(values)[i]
            == levels[i] by {
            assert(values[i] == Some(levels[i]));
            assert(values[i] == Some(book::readable_prefix(values)[i]));
        }
        assert(book::readable_prefix(values) =~= levels);
    }
}

/// A diff that can be read changes both sides of a book alike: on each side the last level
/// that the diff has for a price decides it, a zero deletes it, and prices that the diff
/// does not have stay. The book then ends where the diff ends.
pub proof fn diffs_change_both_sides(
    held: BookView,
    update: DepthUpdateWs,
    bids: Seq<(u64, u64)>,
    asks: Seq<(u64, u64)>,
    now: u64,
)
    requires
        spells(update.b_floats, update.bid_values@, bids),
        spells(update.a_floats, update.ask_values@, asks),
    ensures
        diff_result(update) is Ok,
        ({
            let after = diff_on_book(held, update, now);
            &&& book::replaces(held.bids, bids, after.bids)
            &&& book::replaces(held.asks, asks, after.asks)
            &&& after.last_update_id == update.final_update_id
            &&& after.last_processed_time == now
            &&& after.symbol == held.symbol
        }),
{
    lemma_spelled(update.b_floats, update.bid_values@, bids);
    lemma_spelled(update.a_floats, update.ask_values@, asks);
    book::levels_replace_one_another(held.bids, bids);
    book::levels_replace_one_another(held.asks, asks);
}

/// A diff with a level that cannot be read is refused by the side of that level, bids
/// first. The book keeps its id and its time, and asks are not touched by a bad bid.
pub proof fn unreadable_diffs_are_refused(held: BookView, update: DepthUpdateWs, k: int, now: u64)
    ensures
        ({
            let after = diff_on_book(held, update, now);
            &&& update.b_floats is None && 0 <= k < update.bid_values@.len()
                && update.bid_values@[k] is None ==> {
                &&& diff_result(update) == Err::<(), LevelError>(LevelError::Bid)
                &&& after.asks == held.asks
                &&& after.last_update_id == held.last_update_id
                &&& after.last_processed_time == held.last_processed_time
            }
            &&& (update.b_floats is Some || forall|i: int|
                0 <= i < update.bid_values@.len() ==> (#[trigger] update.bid_values@[i]) is Some)
                && update.a_floats is None && 0 <= k
                < update.ask_values@.len() && update.ask_values@[k] is None ==> {
                &&& diff_result(update) == Err::<(), LevelError>(LevelError::Ask)
                &&& after.last_update_id == held.last_update_id
                &&& after.last_processed_time == held.last_processed_time
            }
        }),
{
}

/// `kept` are the best `depth` levels of a side, or all where there are fewer.
pub open spec fn best_of(bids: bool, depth: nat, side: Map<u64, u64>, kept: Map<u64, u64>) -> bool {
    &&& forall|p: u64| #[trigger]
        kept.contains_key(p) ==> side.contains_key(p) && kept[p] == side[p]
    &&& kept.dom().len() == (if side.dom().len() <= depth {
        side.dom().len()
    } else {
        depth
    })
    &&& forall|p: u64, q: u64|
        kept.contains_key(p) && side.contains_key(q) && !kept.contains_key(q)
            ==> #[trigger] book::better_price(bids, p, q)
}

proof fn lemma_best_of(bids: bool, depth: nat, side: Map<u64, u64>)
    requires
        side.dom().finite(),
    ensures
        best_of(bids, depth, side, book::trimmed(bids, depth, side)),
{
    let kept = book::trimmed(bids, depth, side);
    if side.dom().len() <= depth {
        book::trimming_within_depth_keeps_everything(bids, depth, side);
    } else {
        book::trimming_fills_the_depth(bids, depth, side);
    }
    assert forall|p: u64, q: u64|
        kept.contains_key(p) && side.contains_key(q) && !kept.contains_key(
            q,
        ) implies #[trigger] book::better_price(bids, p, q) by {
        book::trimming_keeps_the_best(bids, depth, side, p, q);
    }
}

/// A diff for a symbol with a book changes both sides of that book, which then keep their
/// best levels, as many as the configured depth; whatever else is held stays.
pub proof fn diffs_keep_the_configured_depth(
    manager: ManagerView,
    symbol: Seq<char>,
    update: DepthUpdateWs,
    bids: Seq<(u64, u64)>,
    asks: Seq<(u64, u64)>,
    now: u64,
)
    requires
        manager.books.contains_key(symbol),
        manager.books[symbol].bids.dom().finite(),
        manager.books[symbol].asks.dom().finite(),
        spells(update.b_floats, update.bid_values@, bids),
        spells(update.a_floats, update.ask_values@, asks),
    ensures
        ({
            let held = manager.books[symbol];
            let all = manager.with_diffs(symbol, seq![update], now);
            let after = all.books[symbol];
            let depth = manager.config.depth_limit as nat;
            &&& all.books.contains_key(symbol)
            &&& exists|next: Map<u64, u64>| #[trigger]
                book::replaces(held.bids, bids, next) && best_of(true, depth, next, after.bids)
            &&& exists|next: Map<u64, u64>| #[trigger]
                book::replaces(held.asks, asks, next) && best_of(false, depth, next, after.asks)
            &&& after.last_update_id == update.final_update_id
            &&& after.last_processed_time == now
            &&& all.states == manager.states
            &&& all.config == manager.config
            &&& all.backoffs == manager.backoffs
            &&& all.sync_times == manager.sync_times
            &&& all.snapshot_times == manager.snapshot_times
        }),
{
    let held = manager.books[symbol];
    let depth = manager.config.depth_limit as nat;
    let one = seq![update];
    assert(one.drop_last() =~= seq![]);
    assert(diffs_applied(depth, held, one.drop_last(), now) == held);
    let next = diff_on_book(held, update, now);
    diffs_change_both_sides(held, update, bids, asks, now);
    lemma_diff_stays_finite(held, update, now);
    lemma_best_of(true, depth, next.bids);
    lemma_best_of(false, depth, next.asks);
    let after = manager.with_diffs(symbol, one, now).books[symbol];
    assert(after == diff_applied(depth, held, update, now));
    assert(book::replaces(held.bids, bids, next.bids) && best_of(
        true,
        depth,
        next.bids,
        after.bids,
    ));
    assert(book::replaces(held.asks, asks, next.asks) && best_of(
        false,
        depth,
        next.asks,
        after.asks,
    ));
}

/// Diffs are applied one after the other: a run of them is its first part and then the
/// rest, none left out and none applied twice.
pub proof fn diffs_apply_in_turn(
    manager: ManagerView,
    symbol: Seq<char>,
    first: Seq<DepthUpdateWs>,
    rest: Seq<DepthUpdateWs>,
    now: u64,
)
    ensures
        manager.with_diffs(symbol, first + rest, now) == manager.with_diffs(
            symbol,
            first,
            now,
        ).with_diffs(symbol, rest, now),
        failed_diffs(first + rest) == failed_diffs(first) + failed_diffs(rest),
    decreases rest.len(),
{
    if rest.len() == 0 {
        assert(first + rest =~= first);
        assert(rest =~= seq![]);
        lemma_with_no_diffs(manager.with_diffs(symbol, first, now), symbol, now);
    } else {
        let less = rest.drop_last();
        diffs_apply_in_turn(manager, symbol, first, less, now);
        assert((first + rest).drop_last() =~= first + less);
        if manager.books.contains_key(symbol) {
            let a = manager.with_diffs(symbol, first + rest, now);
            let b = manager.with_diffs(symbol, first, now).with_diffs(symbol, rest, now);
            assert(manager.with_diffs(symbol, first + less, now).books[symbol]
                == manager.with_diffs(symbol, first, now).with_diffs(symbol, less, now).books[symbol]);
            assert(a.books =~= b.books);
        }
    }
}

/// Of one diff that is applied to a live book, exactly an unreadable one is counted as
/// failed.
pub proof fn failures_are_counted(update: DepthUpdateWs)
    ensures
        failed_diffs(seq![update]) == 1 <==> diff_result(update) is Err,
        failed_diffs(seq![update]) <= 1,
{
    assert(seq![update].drop_last() =~= seq![]);
    assert(failed_diffs(seq![update].drop_last()) == 0);
}

/// A diff leads on from a snapshot that ends at `snapshot_u`: it ends after the snapshot,
/// and covers the next id or follows on the snapshot.
pub open spec fn leads_on(snapshot_u: u64, diff: DepthUpdateWs) -> bool {
    &&& diff.final_update_id > snapshot_u
    &&& diff.first_update_id <= snapshot_u + 1 || diff.prev_update_id <= snapshot_u
}

proof fn lemma_first_leading(snapshot_u: u64, diffs: Seq<DepthUpdateWs>, k: int)
    requires
        0 <= k <= diffs.len(),
        forall|i: int| 0 <= i < k ==> !leads_on(snapshot_u, #[trigger] diffs[i]),
        k < diffs.len() ==> leads_on(snapshot_u, diffs[k]),
    ensures
        attach::bridge_index(snapshot_u, diffs) == k,
{
    assert forall|i: int| 0 <= i < k implies attach::bridge_rule(
        snapshot_u,
        #[trigger] diffs[i],
    ) is None by {
        assert(!leads_on(snapshot_u, diffs[i]));
        attach::bridge_rules_are_told_apart(snapshot_u, diffs[i]);
    }
    attach::lemma_bridge_index(snapshot_u, diffs, k);
}

/// An attempt to attach applies the diffs from the first that leads on from the snapshot up
/// to the first gap, and attaches exactly where there is no gap. Here all of them can be
/// read.
pub proof fn attaching_follows_the_chain(
    manager: ManagerView,
    symbol: Seq<char>,
    diffs: Seq<DepthUpdateWs>,
    k: int,
    n: int,
    now: u64,
)
    requires
        manager.books.contains_key(symbol),
        0 <= k < n <= diffs.len(),
        diffs[0].prev_update_id <= manager.books[symbol].last_update_id,
        leads_on(manager.books[symbol].last_update_id, diffs[k]),
        forall|i: int|
            0 <= i < k ==> !leads_on(manager.books[symbol].last_update_id, #[trigger] diffs[i]),
        forall|j: int|
            k < j < n ==> (#[trigger] diffs[j]).prev_update_id == diffs[j - 1].final_update_id,
        forall|j: int| k <= j < n ==> diff_result(#[trigger] diffs[j]) is Ok,
        n < diffs.len() ==> diffs[n].prev_update_id != diffs[n - 1].final_update_id,
    ensures
        manager.attached(symbol, diffs, now).0 == (if n == diffs.len() {
            AttachOutcome::Attached
        } else {
            AttachOutcome::NotReady
        }),
        manager.attached(symbol, diffs, now).1 == manager.with_diffs(
            symbol,
            diffs.subrange(k, n),
            now,
        ),
{
    let snapshot_u = manager.books[symbol].last_update_id;
    lemma_first_leading(snapshot_u, diffs, k);
    let bridged = diffs.skip(k);
    let m = n - k;
    assert forall|j: int| 0 < j < m implies (#[trigger] bridged[j]).prev_update_id == bridged[j
        - 1].final_update_id by {
        assert(diffs[k + j].prev_update_id == diffs[k + j - 1].final_update_id);
    }
    assert forall|j: int| 0 <= j < m implies diff_result(#[trigger] bridged[j]) is Ok by {
        assert(diff_result(diffs[k + j]) is Ok);
    }
    assert(good_until(manager, symbol, bridged, m));
    assert(bridged.take(m) =~= diffs.subrange(k, n));
    if n < diffs.len() {
        lemma_chain_breaks(manager, symbol, bridged, m, now);
    } else {
        assert(bridged =~= diffs.subrange(k, n));
        lemma_all_followed(manager, symbol, bridged, now);
    }
}

/// The chain stops at a diff that cannot be read, which is reported.
pub proof fn attaching_stops_at_an_unreadable_diff(
    manager: ManagerView,
    symbol: Seq<char>,
    diffs: Seq<DepthUpdateWs>,
    k: int,
    n: int,
    now: u64,
)
    requires
        manager.books.contains_key(symbol),
        0 <= k <= n < diffs.len(),
        diffs[0].prev_update_id <= manager.books[symbol].last_update_id,
        leads_on(manager.books[symbol].last_update_id, diffs[k]),
        forall|i: int|
            0 <= i < k ==> !leads_on(manager.books[symbol].last_update_id, #[trigger] diffs[i]),
        forall|j: int|
            k < j <= n ==> (#[trigger] diffs[j]).prev_update_id == diffs[j - 1].final_update_id,
        forall|j: int| k <= j < n ==> diff_result(#[trigger] diffs[j]) is Ok,
        diff_result(diffs[n]) is Err,
    ensures
        manager.attached(symbol, diffs, now).0 == AttachOutcome::Unreadable(
            diff_result(diffs[n])->Err_0,
        ),
        manager.attached(symbol, diffs, now).1 == manager.with_diffs(
            symbol,
            diffs.subrange(k, n + 1),
            now,
        ),
{
    let snapshot_u = manager.books[symbol].last_update_id;
    lemma_first_leading(snapshot_u, diffs, k);
    let bridged = diffs.skip(k);
    let m = n - k;
    assert forall|j: int| 0 < j < m implies (#[trigger] bridged[j]).prev_update_id == bridged[j
        - 1].final_update_id by {
        assert(diffs[k + j].prev_update_id == diffs[k + j - 1].final_update_id);
    }
    assert forall|j: int| 0 <= j < m implies diff_result(#[trigger] bridged[j]) is Ok by {
        assert(diff_result(diffs[k + j]) is Ok);
    }
    assert(good_until(manager, symbol, bridged, m));
    assert(bridged.take(m + 1) =~= diffs.subrange(k, n + 1));
    assert(bridged[m] == diffs[n]);
    if m > 0 {
        assert(bridged[m - 1] == diffs[n - 1]);
        assert(diffs[n].prev_update_id == diffs[n - 1].final_update_id);
    }
    lemma_diff_unreadable(manager, symbol, bridged, m, now);
}

/// Without a diff that leads on from the snapshot nothing is applied: the symbol waits for
/// more, or starts over where even the first buffered diff comes after a gap.
pub proof fn nothing_attaches_across_a_gap(
    manager: ManagerView,
    symbol: Seq<char>,
    diffs: Seq<DepthUpdateWs>,
    now: u64,
)
    requires
        manager.books.contains_key(symbol),
        forall|i: int|
            0 <= i < diffs.len() ==> !leads_on(
                manager.books[symbol].last_update_id,
                #[trigger] diffs[i],
            ),
    ensures
        diffs.len() > 0 && diffs[0].prev_update_id > manager.books[symbol].last_update_id ==> {
            &&& manager.attached(symbol, diffs, now).0 == AttachOutcome::Resnapshot(
                ResnapshotReason::SnapshotOlderThanBuffer,
            )
            &&& manager.attached(symbol, diffs, now).1.state(symbol) == OrderbookState::Initializing
        },
        diffs.len() == 0 || diffs[0].prev_update_id <= manager.books[symbol].last_update_id
            ==> manager.attached(symbol, diffs, now) == (AttachOutcome::NotReady, manager),
        manager.attached(symbol, diffs, now).1.books == manager.books,
{
    lemma_first_leading(manager.books[symbol].last_update_id, diffs, diffs.len() as int);
}

/// A symbol goes through its states in turn: from the start to fetching, where it waits
/// until the cooldown since the last fetch is over; from a snapshot to attaching, for as
/// long as the timeout lasts, and back to the start after it.
pub proof fn symbols_advance_in_turn(
    manager: ManagerView,
    symbol: Seq<char>,
    fetched: u64,
    taken: u64,
    now: u64,
)
    requires
        fetched <= now,
        taken <= now,
        manager.config.resync_cooldown_seconds * 1_000_000_000 <= u64::MAX,
        manager.config.attach_bridge_timeout_seconds * 1_000_000_000 <= u64::MAX,
    ensures
        manager.state(symbol) == OrderbookState::Initializing ==> {
            let (step, after) = manager.managed(symbol, false, now);
            step == ManageStep::Continue && after.state(symbol) == OrderbookState::FetchingSnapshot
        },
        ({
            let cooldown = manager.config.resync_cooldown_seconds * 1_000_000_000;
            let (step, after) = manager.fetch_begun(symbol, fetched).managed(symbol, false, now);
            &&& step == (ManageStep::FetchSnapshot {
                wait_nanos: (if now - fetched >= cooldown {
                    0
                } else {
                    cooldown - (now - fetched)
                }) as u64,
            })
            &&& after.state(symbol) == OrderbookState::FetchingSnapshot
            &&& after.books == manager.books
        }),
        manager.without(symbol).with_state(symbol, OrderbookState::FetchingSnapshot).managed(
            symbol,
            false,
            now,
        ).0 == (ManageStep::FetchSnapshot { wait_nanos: 0 }),
        ({
            let timeout = manager.config.attach_bridge_timeout_seconds * 1_000_000_000;
            let (step, after) = manager.fetch_done(symbol, taken).managed(symbol, false, now);
            if now - taken <= timeout {
                &&& step == ManageStep::TryAttach
                &&& after.state(symbol) == OrderbookState::Syncing
            } else {
                &&& step == ManageStep::Resnapshot(ResnapshotReason::BridgeRuleTimeout)
                &&& after.state(symbol) == OrderbookState::Initializing
            }
        }),
{
}

/// The delay after failed snapshots is what the factor gives, but never more than the
/// configured maximum, and is back at the cooldown after a snapshot.
pub proof fn delays_are_bounded_and_start_over(
    manager: ManagerView,
    symbol: Seq<char>,
    scaled: u64,
    now: u64,
)
    requires
        manager.config.resync_cooldown_seconds * 1_000_000_000 <= u64::MAX,
        manager.config.max_resync_backoff_seconds * 1_000_000_000 <= u64::MAX,
    ensures
        ({
            let max = manager.config.max_resync_backoff_seconds * 1_000_000_000;
            let delay = manager.fetch_failed(symbol, scaled).backoff(symbol);
            &&& delay <= scaled && delay <= max
            &&& delay == scaled || delay == max
        }),
        manager.fetch_done(symbol, now).backoff(symbol) == manager.config.resync_cooldown_seconds
            * 1_000_000_000,
        manager.without(symbol).backoff(symbol) == manager.config.resync_cooldown_seconds
            * 1_000_000_000,
        manager.fetch_failed(symbol, scaled).states == manager.states,
{
}

/// A symbol is swept exactly where its book did not change for more than two hours, in
/// whole seconds, and then nothing of it is left; all others keep everything.
pub proof fn idle_books_are_swept(manager: ManagerView, symbol: Seq<char>, now: u64)
    ensures
        ({
            let swept = stale_symbols(manager.books, now);
            let after = manager.without_all(swept);
            let idle = manager.books.contains_key(symbol) && now
                >= manager.books[symbol].last_processed_time + 7201 * 1_000_000_000;
            &&& swept.contains(symbol) <==> idle
            &&& idle ==> same_for(after, manager.without(symbol), symbol)
            &&& !idle ==> same_for(after, manager, symbol)
            &&& after.config == manager.config
        }),
{
}

/// The live symbols of a list are found one by one, in their order.
pub proof fn live_symbols_are_picked_in_order(
    manager: ManagerView,
    first: Seq<Seq<char>>,
    rest: Seq<Seq<char>>,
)
    ensures
        live_only(manager, first + rest) == live_only(manager, first) + live_only(manager, rest),
    decreases rest.len(),
{
    if rest.len() == 0 {
        assert(first + rest =~= first);
        assert(live_only(manager, first) + live_only(manager, rest) =~= live_only(manager, first));
    } else {
        live_symbols_are_picked_in_order(manager, first, rest.drop_last());
        assert((first + rest).drop_last() =~= first + rest.drop_last());
        assert(live_only(manager, first + rest) =~= live_only(manager, first) + live_only(
            manager,
            rest,
        ));
    }
}

/// One symbol is picked exactly where it is live.
pub proof fn one_symbol_is_picked_when_live(manager: ManagerView, symbol: Seq<char>)
    ensures
        live_only(manager, seq![symbol]) == (if manager.states.contains_key(symbol)
            && manager.states[symbol] == OrderbookState::Live {
            seq![symbol]
        } else {
            seq![]
        }),
{
    assert(seq![symbol].drop_last() =~= seq![]);
    assert(live_only(manager, seq![symbol].drop_last()) =~= seq![]);
    assert(live_only(manager, seq![symbol]) =~= (if manager.states.contains_key(symbol)
        && manager.states[symbol] == OrderbookState::Live {
        seq![symbol]
    } else {
        seq![]
    }));
}

/// A row of a snapshot tells one level: the price and quantity of that level, the side, the
/// kind, id and time of the snapshot, and the symbol in lower case.
pub proof fn snapshot_rows_tell_their_levels(
    row: DepthSnapshotCsv,
    symbol: Seq<char>,
    event_type: Seq<char>,
    timestamp_ms: i64,
    last_update_id: u64,
    side: Seq<char>,
    level: (String, String),
)
    requires
        is_level_row(row, symbol, event_type, timestamp_ms, last_update_id, side, level),
    ensures
        row.price@ == level.0@,
        row.quantity@ == level.1@,
        row.side@ == side,
        row.event_type@ == event_type,
        row.timestamp_ms == timestamp_ms,
        row.last_update_id == last_update_id,
        row.symbol@ == text::lowercase(symbol),
        row.exchange@ == "binance"@,
        row.market@ == "futures"@,
        row.datatype@ == "orderbooks"@,
{
}

/// Levels of a fetched snapshot are ordered by price: of positive prices the higher bid and
/// the lower ask comes first, and a level that is no number counts as a price of zero.
pub proof fn snapshots_are_ordered_by_price(a: (u64, u64), b: (u64, u64))
    requires
        a.0 < 0x8000_0000_0000_0000,
        b.0 < 0x8000_0000_0000_0000,
    ensures
        level_key(true, Some(a)) < level_key(true, Some(b)) <==> a.0 > b.0,
        level_key(false, Some(a)) < level_key(false, Some(b)) <==> a.0 < b.0,
        level_key(true, None) == level_key(true, Some((0u64, a.1))),
        level_key(false, None) == level_key(false, Some((0u64, a.1))),
{
}

/// What is told of a symbol with a book is what the book holds.
pub proof fn statistics_tell_of_the_book(
    manager: ManagerView,
    symbol: Seq<char>,
    stats: OrderbookStats,
)
    requires
        describes(manager, symbol, stats),
        manager.books.contains_key(symbol),
        manager.states.contains_key(symbol),
    ensures
        stats.symbol@ == symbol,
        stats.bid_levels == manager.books[symbol].bids.dom().len(),
        stats.ask_levels == manager.books[symbol].asks.dom().len(),
        stats.last_update_id == manager.books[symbol].last_update_id,
        stats.state@ == "Live"@ <==> manager.states[symbol] == OrderbookState::Live,
{
    reveal_strlit("Live");
    reveal_strlit("Initializing");
    reveal_strlit("FetchingSnapshot");
    reveal_strlit("Syncing");
    assert("Live"@.len() != "Initializing"@.len());
    assert("Live"@.len() != "FetchingSnapshot"@.len());
    assert("Live"@.len() != "Syncing"@.len());
}

/// A snapshot takes the place of the book of its symbol: its bids as bids, its asks as
/// asks, its id, and the time. Nothing is left of the book before, and nothing else changes.
pub proof fn snapshots_take_the_place_of_books(
    manager: ManagerView,
    symbol: Seq<char>,
    snapshot: DepthSnapshotRest,
    other: Seq<char>,
    now: u64,
)
    requires
        forall|i: int| 0 <= i < snapshot.bid_values@.len() ==> (#[trigger] snapshot.bid_values@[i])
            is Some,
        forall|i: int| 0 <= i < snapshot.ask_values@.len() ==> (#[trigger] snapshot.ask_values@[i])
            is Some,
        other != symbol,
    ensures
        ({
            let after = manager.with_snapshot(symbol, snapshot, now);
            &&& after.books.contains_key(symbol)
            &&& holds_levels(snapshot.bid_values@, after.books[symbol].bids)
            &&& holds_levels(snapshot.ask_values@, after.books[symbol].asks)
            &&& after.books[symbol].last_update_id == snapshot.last_update_id
            &&& after.books[symbol].last_processed_time == now
            &&& after.books[symbol].symbol == symbol
            &&& same_for(after, manager, other)
            &&& after.states == manager.states
            &&& after.config == manager.config
            &&& after.sync_times == manager.sync_times
            &&& after.backoffs == manager.backoffs
        }),
{
    snapshot_sides_hold_their_levels(snapshot.bid_values@);
    snapshot_sides_hold_their_levels(snapshot.ask_values@);
}

/// Diffs of a symbol without a book change nothing, and its statistics are all zero.
pub proof fn symbols_without_a_book_have_nothing(
    manager: ManagerView,
    symbol: Seq<char>,
    diffs: Seq<DepthUpdateWs>,
    stats: OrderbookStats,
    now: u64,
)
    requires
        !manager.books.contains_key(symbol),
        describes(manager, symbol, stats),
    ensures
        manager.with_diffs(symbol, diffs, now) == manager,
        manager.snapshot_id(symbol) == 0,
        stats.last_update_id == 0,
        stats.bid_levels == 0,
        stats.ask_levels == 0,
        stats.symbol@ == symbol,
        manager.states[symbol] == OrderbookState::Live ==> stats.state@ == "Live"@,
        manager.states[symbol] == OrderbookState::Syncing ==> stats.state@ == "Syncing"@,
        manager.states[symbol] == OrderbookState::FetchingSnapshot ==> stats.state@
            == "FetchingSnapshot"@,
        manager.states[symbol] == OrderbookState::Initializing ==> stats.state@ == "Initializing"@,
{
}

/// The best levels of the book that diffs leave are those that the diffs and the book had:
/// a level that neither mentions is not there.
pub proof fn diffs_invent_no_levels(
    held: BookView,
    update: DepthUpdateWs,
    bids: Seq<(u64, u64)>,
    asks: Seq<(u64, u64)>,
    depth: nat,
    price: u64,
    now: u64,
)
    requires
        spells(update.b_floats, update.bid_values@, bids),
        spells(update.a_floats, update.ask_values@, asks),
    ensures
        !held.bids.contains_key(price) && (forall|k: int|
            0 <= k < bids.len() ==> (#[trigger] bids[k]).0 != price) ==> !diff_applied(
            depth,
            held,
            update,
            now,
        ).bids.contains_key(price),
        !held.asks.contains_key(price) && (forall|k: int|
            0 <= k < asks.len() ==> (#[trigger] asks[k]).0 != price) ==> !diff_applied(
            depth,
            held,
            update,
            now,
        ).asks.contains_key(price),
{
    diffs_change_both_sides(held, update, bids, asks, now);
    let next = diff_on_book(held, update, now);
    assert(!next.bids.contains_key(price) ==> !book::trimmed(true, depth, next.bids).contains_key(
        price,
    ));
    assert(!next.asks.contains_key(price) ==> !book::trimmed(false, depth, next.asks).contains_key(
        price,
    ));
}

} // verus!
