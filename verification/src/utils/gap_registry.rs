//! Records of books that had to start over.

use crate::text;
use crate::text_set;
use crate::text_set::TextSet;
use crate::utils::time_utils;
use dashmap::DashMap;
use vstd::prelude::*;

verus! {

/// Events that are kept of one symbol.
pub const MAX_EVENTS_PER_SYMBOL: usize = 512;

/// A book started over with a fresh snapshot, after a gap or because it was stale. Gaps
/// are not filled: the raw diffs keep their ids for later analysis.
pub struct GapEvent {
    /// "resnapshot".
    pub event_type: String,
    pub reason: Option<String>,
    pub datetime_utc: Option<String>,
    /// Bit pattern of the seconds since the epoch.
    pub timestamp: Option<u64>,
}

/// A copy of an optional text.
fn copy_option(s: &Option<String>) -> (r: Option<String>)
    ensures
        r == *s,
{
    match s {
        Some(text) => Some(text.clone()),
        None => None,
    }
}

impl Clone for GapEvent {
    fn clone(&self) -> (r: GapEvent)
        ensures
            r == *self,
    {
        GapEvent {
            event_type: self.event_type.clone(),
            reason: copy_option(&self.reason),
            datetime_utc: copy_option(&self.datetime_utc),
            timestamp: self.timestamp,
        }
    }
}

impl GapEvent {
    /// The event of a book that starts over at `seconds` since the epoch; `timestamp` is
    /// the same time with its fraction.
    pub fn new_resnapshot(reason: String, seconds: i64, timestamp: u64) -> (r: GapEvent)
        ensures
            r.event_type@ == "resnapshot"@,
            r.reason == Some(reason),
            r.timestamp == Some(timestamp),
            r.datetime_utc is Some,
            r.datetime_utc->0@ == (match time_utils::rfc3339_of_seconds(seconds) {
                Some(text) => text,
                None => "unknown"@,
            }),
    {
        let datetime_utc: String = match time_utils::rfc3339_seconds(seconds) {
            Some(text) => text,
            None => "unknown".to_owned(),
        };
        GapEvent {
            event_type: "resnapshot".to_owned(),
            reason: Some(reason),
            datetime_utc: Some(datetime_utc),
            timestamp: Some(timestamp),
        }
    }
}

/// What a map from symbols to events holds.
pub uninterp spec fn event_entries(map: DashMap<String, Vec<GapEvent>>) -> Map<
    Seq<char>,
    Seq<GapEvent>,
>;

/// `DashMap::new`: an empty map.
#[verifier::external_body]
fn event_map() -> (r: DashMap<String, Vec<GapEvent>>)
    ensures
        event_entries(r) == (Map::<Seq<char>, Seq<GapEvent>>::empty()),
{
    DashMap::new()
}

/// `DashMap::insert`: the key maps to the events, other keys are as before.
#[verifier::external_body]
fn event_insert(map: &mut DashMap<String, Vec<GapEvent>>, key: &str, events: Vec<GapEvent>)
    ensures
        event_entries(*final(map)) == event_entries(*old(map)).insert(key@, events@),
{
    map.insert(key.to_string(), events);
}

/// `DashMap::remove`: the events of the key are handed out, if there are any, and the
/// key is gone; other keys are as before.
#[verifier::external_body]
fn event_remove(map: &mut DashMap<String, Vec<GapEvent>>, key: &str) -> (r: Option<Vec<GapEvent>>)
    ensures
        r is Some <==> event_entries(*old(map)).contains_key(key@),
        r matches Some(events) ==> events@ == event_entries(*old(map))[key@],
        event_entries(*final(map)) == event_entries(*old(map)).remove(key@),
{
    map.remove(key).map(|entry| entry.1)
}

/// `DashMap::get`, the events copied out, if there are any.
#[verifier::external_body]
fn event_get(map: &DashMap<String, Vec<GapEvent>>, key: &str) -> (r: Option<Vec<GapEvent>>)
    ensures
        r is Some <==> event_entries(*map).contains_key(key@),
        r matches Some(events) ==> events@ == event_entries(*map)[key@],
{
    map.get(key).map(|entry| entry.value().clone())
}

/// The newest `MAX_EVENTS_PER_SYMBOL` events.
pub open spec fn newest(events: Seq<GapEvent>) -> Seq<GapEvent> {
    if events.len() > MAX_EVENTS_PER_SYMBOL {
        events.skip(events.len() - MAX_EVENTS_PER_SYMBOL)
    } else {
        events
    }
}

/// The events of all symbols, and those symbols whose events are not saved yet.
pub struct GapRegistry {
    registry: DashMap<String, Vec<GapEvent>>,
    dirty_symbols: TextSet,
}

/// A registry as mathematical values.
pub struct RegistryView {
    pub events: Map<Seq<char>, Seq<GapEvent>>,
    pub dirty: Set<Seq<char>>,
}

impl View for GapRegistry {
    type V = RegistryView;

    closed spec fn view(&self) -> RegistryView {
        RegistryView { events: event_entries(self.registry), dirty: self.dirty_symbols@ }
    }
}

/// The name of the file that holds the events of a symbol.
pub fn gap_file_name(symbol: &str) -> (r: String)
    ensures
        r@ == symbol@ + "_gaps.json"@,
{
    let mut name: String = symbol.to_owned();
    name.append("_gaps.json");
    name
}

impl GapRegistry {
    /// The registry is in order.
    pub closed spec fn wf(&self) -> bool {
        self.dirty_symbols.wf()
    }

    /// An empty registry.
    pub fn new() -> (r: GapRegistry)
        ensures
            r.wf(),
            r@.events == (Map::<Seq<char>, Seq<GapEvent>>::empty()),
            r@.dirty == Set::<Seq<char>>::empty(),
    {
        GapRegistry { registry: event_map(), dirty_symbols: TextSet::new() }
    }

    /// The events of a symbol, `None` when they were not loaded yet.
    pub fn events(&self, symbol: &str) -> (r: Option<Vec<GapEvent>>)
        ensures
            r is Some <==> self@.events.contains_key(symbol@),
            r matches Some(events) ==> events@ == self@.events[symbol@],
    {
        event_get(&self.registry, symbol)
    }

    /// Takes the saved events of a symbol as they are.
    pub fn load(&mut self, symbol: &str, events: Vec<GapEvent>)
        requires
            old(self).wf(),
        ensures
            final(self).wf(),
            final(self)@ == (RegistryView {
                events: old(self)@.events.insert(symbol@, events@),
                ..old(self)@
            }),
    {
        event_insert(&mut self.registry, symbol, events);
    }

    /// Adds an event. Only the newest events of a symbol are kept, and the symbol is due
    /// to be saved.
    pub fn add_event(&mut self, symbol: &str, event: GapEvent)
        requires
            old(self).wf(),
        ensures
            final(self)@ == old(self)@.with_event(symbol@, event),
            final(self).wf(),
            final(self)@.dirty == old(self)@.dirty.insert(symbol@),
            final(self)@.events == old(self)@.events.insert(
                symbol@,
                newest(
                    (if old(self)@.events.contains_key(symbol@) {
                        old(self)@.events[symbol@]
                    } else {
                        seq![]
                    }).push(event),
                ),
            ),
    {
        let mut events: Vec<GapEvent> = match event_remove(&mut self.registry, symbol) {
            Some(events) => events,
            None => Vec::new(),
        };
        let ghost held = if old(self)@.events.contains_key(symbol@) {
            old(self)@.events[symbol@]
        } else {
            seq![]
        };
        assert(events@ =~= held);
        events.push(event);
        if events.len() > MAX_EVENTS_PER_SYMBOL {
            let excess: usize = events.len() - MAX_EVENTS_PER_SYMBOL;
            let ghost all = events@;
            events = events.split_off(excess);
            assert(events@ =~= all.skip(excess as int));
        }
        assert(events@ =~= newest(held.push(event)));
        event_insert(&mut self.registry, symbol, events);
        self.dirty_symbols.insert(symbol.to_owned());
        assert(self@.events =~= old(self)@.events.insert(symbol@, newest(held.push(event))));
    }

    /// The symbols whose events are not saved yet, sorted. They count as saved from then
    /// on.
    pub fn take_dirty(&mut self) -> (r: Vec<String>)
        requires
            old(self).wf(),
        ensures
            final(self).wf(),
            final(self)@.events == old(self)@.events,
            final(self)@.dirty == Set::<Seq<char>>::empty(),
            text_set::increasing(text::texts(r@)),
            text::texts(r@).to_set() == old(self)@.dirty,
    {
        let due: Vec<String> = self.dirty_symbols.to_vec();
        self.dirty_symbols = TextSet::new();
        due
    }
}

/// The history of a symbol is bounded, and the last event is always in it.
pub proof fn gap_history_is_bounded(events: Seq<GapEvent>, event: GapEvent)
    ensures
        newest(events.push(event)).len() <= MAX_EVENTS_PER_SYMBOL,
        newest(events.push(event)).last() == event,
{
}

/// The newest 512 events of a symbol are kept, in the order in which they came.
pub proof fn the_newest_events_are_kept(events: Seq<GapEvent>, i: int)
    ensures
        events.len() <= 512 ==> newest(events) == events,
        events.len() > 512 ==> newest(events).len() == 512,
        events.len() > 512 && 0 <= i < 512 ==> newest(events)[i] == events[events.len() - 512 + i],
{
}

impl RegistryView {
    /// The registry with one more event of a symbol.
    pub open spec fn with_event(self, symbol: Seq<char>, event: GapEvent) -> RegistryView {
        let before = if self.events.contains_key(symbol) {
            self.events[symbol]
        } else {
            seq![]
        };
        RegistryView {
            events: self.events.insert(symbol, newest(before.push(event))),
            dirty: self.dirty.insert(symbol),
        }
    }
}

/// An event goes to the end of those of its symbol, which is then to be saved; other
/// symbols are left as they are.
pub proof fn events_are_kept_by_symbol(
    registry: RegistryView,
    symbol: Seq<char>,
    event: GapEvent,
    other: Seq<char>,
)
    requires
        other != symbol,
    ensures
        ({
            let after = registry.with_event(symbol, event);
            &&& after.events.contains_key(symbol) && after.events[symbol].last() == event
            &&& !registry.events.contains_key(symbol) ==> after.events[symbol] == seq![event]
            &&& registry.events.contains_key(symbol) && registry.events[symbol].len() < 512
                ==> after.events[symbol] == registry.events[symbol].push(event)
            &&& after.events.contains_key(other) == registry.events.contains_key(other)
            &&& after.events[other] == registry.events[other]
            &&& after.dirty.contains(symbol)
            &&& after.dirty.contains(other) == registry.dirty.contains(other)
        }),
{
    assert(Seq::<GapEvent>::empty().push(event) =~= seq![event]);
}

} // verus!
