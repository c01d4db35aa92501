//! Which requests went through which proxy: the last thousand for each kind of
//! request and symbol.

use dashmap::DashMap;
use std::collections::VecDeque;
use vstd::prelude::*;

verus! {

/// Requests that are kept for one kind of request and symbol.
pub const MAX_RECORDS: usize = 1000;

/// One request through a proxy.
pub struct ProxyUsageRecord {
    pub timestamp: String,
    pub symbol: String,
    /// "funding_rates", "open_interest" and so on.
    pub endpoint_type: String,
    pub proxy_name: String,
    pub success: bool,
    /// Milliseconds until the answer.
    pub latency_ms: Option<u64>,
}

impl Clone for ProxyUsageRecord {
    fn clone(&self) -> (r: ProxyUsageRecord)
        ensures
            r == *self,
    {
        ProxyUsageRecord {
            timestamp: self.timestamp.clone(),
            symbol: self.symbol.clone(),
            endpoint_type: self.endpoint_type.clone(),
            proxy_name: self.proxy_name.clone(),
            success: self.success,
            latency_ms: self.latency_ms,
        }
    }
}

/// What a map from texts to queues of records holds.
pub uninterp spec fn usage_entries(map: DashMap<String, VecDeque<ProxyUsageRecord>>) -> Map<
    Seq<char>,
    Seq<ProxyUsageRecord>,
>;

/// `DashMap::new`: an empty map.
#[verifier::external_body]
fn usage_map() -> (r: DashMap<String, VecDeque<ProxyUsageRecord>>)
    ensures
        usage_entries(r) == (Map::<Seq<char>, Seq<ProxyUsageRecord>>::empty()),
{
    DashMap::new()
}

/// `DashMap::insert`: the key maps to the queue, other keys are as before.
#[verifier::external_body]
fn usage_insert(
    map: &mut DashMap<String, VecDeque<ProxyUsageRecord>>,
    key: &str,
    queue: VecDeque<ProxyUsageRecord>,
)
    ensures
        usage_entries(*final(map)) == usage_entries(*old(map)).insert(key@, queue@),
{
    map.insert(key.to_string(), queue);
}

/// `DashMap::remove`: the queue of the key is handed out, if there is one, and the key
/// is gone; other keys are as before.
#[verifier::external_body]
fn usage_remove(map: &mut DashMap<String, VecDeque<ProxyUsageRecord>>, key: &str) -> (r: Option<
    VecDeque<ProxyUsageRecord>,
>)
    ensures
        r is Some <==> usage_entries(*old(map)).contains_key(key@),
        r matches Some(queue) ==> queue@ == usage_entries(*old(map))[key@],
        usage_entries(*final(map)) == usage_entries(*old(map)).remove(key@),
{
    map.remove(key).map(|entry| entry.1)
}

/// The keys and queues of a list.
pub open spec fn queue_list(list: Seq<(String, Vec<ProxyUsageRecord>)>) -> Seq<
    (Seq<char>, Seq<ProxyUsageRecord>),
> {
    list.map_values(|e: (String, Vec<ProxyUsageRecord>)| (e.0@, e.1@))
}

/// `list` names every key of a map once, with its queue, in some order.
pub open spec fn lists_queues(
    map: Map<Seq<char>, Seq<ProxyUsageRecord>>,
    list: Seq<(Seq<char>, Seq<ProxyUsageRecord>)>,
) -> bool {
    &&& forall|i: int|
        0 <= i < list.len() ==> map.contains_key((#[trigger] list[i]).0) && map[list[i].0]
            == list[i].1
    &&& forall|i: int, j: int|
        0 <= i < j < list.len() ==> (#[trigger] list[i]).0 != (#[trigger] list[j]).0
    &&& forall|key: Seq<char>| #[trigger]
        map.contains_key(key) ==> exists|i: int|
            0 <= i < list.len() && (#[trigger] list[i]).0 == key
}

/// `DashMap::iter`, each queue copied out: every entry once, in no particular order.
#[verifier::external_body]
fn usage_list(map: &DashMap<String, VecDeque<ProxyUsageRecord>>) -> (r: Vec<
    (String, Vec<ProxyUsageRecord>),
>)
    ensures
        lists_queues(usage_entries(*map), queue_list(r@)),
{
    map.iter().map(|entry| (entry.key().clone(), entry.value().iter().cloned().collect())).collect()
}

/// The records of a list of queues, one queue after the other.
pub open spec fn all_records(list: Seq<(Seq<char>, Seq<ProxyUsageRecord>)>) -> Seq<
    ProxyUsageRecord,
>
    decreases list.len(),
{
    if list.len() == 0 {
        seq![]
    } else {
        all_records(list.drop_last()) + list.last().1
    }
}

/// The key under which a record is kept.
pub open spec fn usage_key(record: ProxyUsageRecord) -> Seq<char> {
    record.endpoint_type@ + seq!['_'] + record.symbol@
}

/// A queue with one more record: the oldest leaves when there are more than
/// `MAX_RECORDS`.
pub open spec fn queue_after(
    queue: Seq<ProxyUsageRecord>,
    record: ProxyUsageRecord,
) -> Seq<ProxyUsageRecord> {
    let longer = queue.push(record);
    if longer.len() > MAX_RECORDS {
        longer.drop_first()
    } else {
        longer
    }
}

/// The records after one more request.
pub open spec fn recorded(
    history: Map<Seq<char>, Seq<ProxyUsageRecord>>,
    record: ProxyUsageRecord,
) -> Map<Seq<char>, Seq<ProxyUsageRecord>> {
    let queue = if history.contains_key(usage_key(record)) {
        history[usage_key(record)]
    } else {
        seq![]
    };
    history.insert(usage_key(record), queue_after(queue, record))
}

/// Keeps the latest requests, when it is enabled.
pub struct ProxyUsageTracker {
    usage_history: DashMap<String, VecDeque<ProxyUsageRecord>>,
    enabled: bool,
}

impl View for ProxyUsageTracker {
    type V = Map<Seq<char>, Seq<ProxyUsageRecord>>;

    /// The records, by key.
    closed spec fn view(&self) -> Map<Seq<char>, Seq<ProxyUsageRecord>> {
        usage_entries(self.usage_history)
    }
}

impl ProxyUsageTracker {
    /// Whether requests are recorded.
    pub closed spec fn enabled(&self) -> bool {
        self.enabled
    }

    /// A tracker without records.
    pub fn new(enabled: bool) -> (r: ProxyUsageTracker)
        ensures
            r@ == (Map::<Seq<char>, Seq<ProxyUsageRecord>>::empty()),
            r.enabled() == enabled,
    {
        ProxyUsageTracker { usage_history: usage_map(), enabled }
    }

    /// Records a request; nothing happens when tracking is not enabled.
    pub fn record_usage(&mut self, record: ProxyUsageRecord)
        ensures
            final(self).enabled() == old(self).enabled(),
            final(self)@ == (if old(self).enabled() {
                recorded(old(self)@, record)
            } else {
                old(self)@
            }),
    {
        if !self.enabled {
            return;
        }
        let mut key: String = record.endpoint_type.clone();
        key.push('_');
        key.append(record.symbol.as_str());
        assert(key@ =~= usage_key(record));
        let mut queue: VecDeque<ProxyUsageRecord> = match usage_remove(
            &mut self.usage_history,
            key.as_str(),
        ) {
            Some(queue) => queue,
            None => VecDeque::new(),
        };
        let ghost before = queue@;
        queue.push_back(record);
        if queue.len() > MAX_RECORDS {
            queue.pop_front();
        }
        assert(queue@ =~= queue_after(before, record));
        usage_insert(&mut self.usage_history, key.as_str(), queue);
        proof {
            let none = Seq::<ProxyUsageRecord>::empty();
            if !old(self)@.contains_key(usage_key(record)) {
                assert(before =~= none);
            }
            assert(old(self)@.remove(usage_key(record)).insert(
                usage_key(record),
                queue_after(before, record),
            ) =~= old(self)@.insert(usage_key(record), queue_after(before, record)));
        }
    }

    /// All records, those of one key oldest first, the keys in no particular order.
    pub fn get_usage_stats(&self) -> (r: Vec<ProxyUsageRecord>)
        ensures
            exists|list: Seq<(Seq<char>, Seq<ProxyUsageRecord>)>| #[trigger]
                lists_queues(self@, list) && r@ == all_records(list),
    {
        let list: Vec<(String, Vec<ProxyUsageRecord>)> = usage_list(&self.usage_history);
        let ghost queues = queue_list(list@);
        let mut all: Vec<ProxyUsageRecord> = Vec::new();
        let mut i: usize = 0;
        assert(queues.take(0) =~= seq![]);
        assert(all@ =~= all_records(queues.take(0)));
        while i < list.len()
            invariant
                i <= list.len(),
                queues == queue_list(list@),
                all@ == all_records(queues.take(i as int)),
            decreases list.len() - i,
        {
            let ghost before = all@;
            let records: &Vec<ProxyUsageRecord> = &list[i].1;
            let mut j: usize = 0;
            assert(before + records@.take(0) =~= before);
            while j < records.len()
                invariant
                    j <= records.len(),
                    all@ == before + records@.take(j as int),
                decreases records.len() - j,
            {
                all.push(records[j].clone());
                assert(before + records@.take(j + 1) =~= (before + records@.take(j as int)).push(
                    records@[j as int],
                ));
                j = j + 1;
            }
            assert(records@.take(records.len() as int) =~= records@);
            assert(queues.take(i + 1).drop_last() =~= queues.take(i as int));
            assert(queues.take(i + 1).last() == queues[i as int]);
            i = i + 1;
        }
        assert(queues.take(list.len() as int) =~= queues);
        assert(lists_queues(self@, queues));
        all
    }
}

/// No key ever has more than `MAX_RECORDS` records, and the newest is always kept.
pub proof fn history_is_bounded(queue: Seq<ProxyUsageRecord>, record: ProxyUsageRecord)
    requires
        queue.len() <= MAX_RECORDS,
    ensures
        queue_after(queue, record).len() <= MAX_RECORDS,
        queue_after(queue, record).last() == record,
{
}

/// The newest thousand records of a kind and symbol are kept, in the order in which they
/// came.
pub proof fn the_newest_thousand_are_kept(
    queue: Seq<ProxyUsageRecord>,
    record: ProxyUsageRecord,
    i: int,
)
    ensures
        queue.len() < 1000 ==> queue_after(queue, record) == queue.push(record),
        queue.len() == 1000 ==> queue_after(queue, record).len() == 1000,
        queue.len() == 1000 && 0 <= i < 999 ==> queue_after(queue, record)[i] == queue[i + 1],
        queue_after(queue, record).last() == record,
{
}

/// A record goes to those of its kind and symbol; the others stay as they are.
pub proof fn records_are_kept_by_kind_and_symbol(
    history: Map<Seq<char>, Seq<ProxyUsageRecord>>,
    record: ProxyUsageRecord,
    key: Seq<char>,
)
    ensures
        ({
            let own = record.endpoint_type@ + seq!['_'] + record.symbol@;
            &&& recorded(history, record).contains_key(own)
            &&& recorded(history, record)[own].last() == record
            &&& !history.contains_key(own) ==> recorded(history, record)[own] == seq![record]
            &&& history.contains_key(own) && history[own].len() < 1000 ==> recorded(
                history,
                record,
            )[own] == history[own].push(record)
            &&& key != own ==> (recorded(history, record).contains_key(key)
                <==> history.contains_key(key)) && recorded(history, record)[key] == history[key]
        }),
{
    assert(Seq::<ProxyUsageRecord>::empty().push(record) =~= seq![record]);
}

/// All records are listed queue by queue.
pub proof fn all_records_are_listed(
    first: Seq<(Seq<char>, Seq<ProxyUsageRecord>)>,
    rest: Seq<(Seq<char>, Seq<ProxyUsageRecord>)>,
)
    ensures
        all_records(first + rest) == all_records(first) + all_records(rest),
        rest.len() == 1 ==> all_records(rest) == rest[0].1,
        rest.len() == 0 ==> all_records(rest).len() == 0,
    decreases rest.len(),
{
    if rest.len() == 0 {
        assert(first + rest =~= first);
        assert(all_records(first) + all_records(rest) =~= all_records(first));
    } else {
        all_records_are_listed(first, rest.drop_last());
        assert((first + rest).drop_last() =~= first + rest.drop_last());
        assert(all_records(first + rest) =~= all_records(first) + all_records(rest));
        if rest.len() == 1 {
            assert(rest.drop_last() =~= seq![]);
            assert(all_records(rest) =~= rest[0].1);
        }
    }
}

} // verus!
