//! CSV files: where a record goes, what is buffered, when files are flushed and closed.
//!
//! Paths are texts with `/` between their parts. Times are nanoseconds on one clock,
//! timestamps milliseconds since the epoch.

use crate::config::{OutputConfig, StorageConfig};
use crate::constants;
use crate::models::{
    DepthSnapshotCsv, DepthUpdateCsv, FundingRateCsv, IndexPriceKlineCsv, KlineCsv, LiquidationCsv,
    LongShortRatioCsv, MarkPriceKlineCsv, OpenInterestCsv, PremiumIndexKlineCsv,
    TakerBuySellVolumeCsv, TradeCsv,
};
use crate::sorting;
use crate::text;
use crate::text::{contains, i64_text, text_eq};
use crate::utils::csv_rows;
use crate::utils::time_utils;
use dashmap::DashMap;
use vstd::prelude::*;

verus! {

/// Rows after which a file is flushed.
pub const ROWS_PER_FLUSH: usize = 1000;

/// A file that nothing was written to for longer than this, half an hour, is closed.
pub const IDLE_NANOS: u64 = 1_800_000_000_000;

/// A row of a depth update file, with the id by which rows are sorted.
pub struct DepthUpdateRow {
    pub last_update_id: u64,
    pub csv_line: String,
}

impl Clone for DepthUpdateRow {
    fn clone(&self) -> (r: DepthUpdateRow)
        ensures
            r == *self,
    {
        DepthUpdateRow { last_update_id: self.last_update_id, csv_line: self.csv_line.clone() }
    }
}

/// What is pending for one file.
pub struct FileBuffer {
    /// Rows written since the last flush.
    pub row_count: usize,
    pub last_flush: u64,
    /// When the last row came in; when the file was opened, before the first.
    pub last_write: u64,
    /// Rows of a depth update file that are not written yet.
    pub depth_rows: Option<Vec<DepthUpdateRow>>,
}

/// A file buffer as mathematical values.
pub struct BufferView {
    pub row_count: usize,
    pub last_flush: u64,
    pub last_write: u64,
    pub depth_rows: Option<Seq<DepthUpdateRow>>,
}

impl View for FileBuffer {
    type V = BufferView;

    open spec fn view(&self) -> BufferView {
        BufferView {
            row_count: self.row_count,
            last_flush: self.last_flush,
            last_write: self.last_write,
            depth_rows: match self.depth_rows {
                Some(rows) => Some(rows@),
                None => None,
            },
        }
    }
}

/// The ids of rows.
pub open spec fn row_ids(rows: Seq<DepthUpdateRow>) -> Seq<u64> {
    rows.map_values(|r: DepthUpdateRow| r.last_update_id)
}

/// `out` is `rows` in the order `order`.
pub open spec fn reordered(
    rows: Seq<DepthUpdateRow>,
    order: Seq<usize>,
    out: Seq<DepthUpdateRow>,
) -> bool {
    &&& out.len() == order.len()
    &&& forall|i: int| 0 <= i < out.len() ==> #[trigger] out[i] == rows[order[i] as int]
}

/// `out` is `rows` sorted by id, rows with one id in their present order.
pub open spec fn sorted_rows(rows: Seq<DepthUpdateRow>, out: Seq<DepthUpdateRow>) -> bool {
    exists|order: Seq<usize>| #[trigger]
        sorting::is_stable_order(row_ids(rows), order) && reordered(rows, order, out)
}

/// Putting rows in another order keeps them all.
proof fn lemma_reordering_keeps_rows(
    rows: Seq<DepthUpdateRow>,
    order: Seq<usize>,
    out: Seq<DepthUpdateRow>,
)
    requires
        order.no_duplicates(),
        order.len() == rows.len(),
        forall|i: int| 0 <= i < order.len() ==> (#[trigger] order[i] as int) < rows.len(),
        forall|p: usize| p < rows.len() ==> #[trigger] order.contains(p),
        reordered(rows, order, out),
        rows.len() <= usize::MAX,
    ensures
        out.to_multiset() == rows.to_multiset(),
    decreases rows.len(),
{
    if rows.len() == 0 {
        assert(out =~= rows);
    } else {
        let top = (rows.len() - 1) as usize;
        assert(order.contains(top));
        let at = choose|k: int| 0 <= k < order.len() && order[k] == top;
        let fewer = rows.drop_last();
        let rest = order.remove(at);
        let left = out.remove(at);
        assert forall|i: int| 0 <= i < rest.len() implies (#[trigger] rest[i] as int)
            < fewer.len() && left[i] == fewer[rest[i] as int] by {
            let k = if i < at {
                i
            } else {
                i + 1
            };
            assert(rest[i] == order[k] && order[k] != order[at]);
        }
        assert forall|p: usize| p < fewer.len() implies #[trigger] rest.contains(p) by {
            assert(order.contains(p));
            let k = choose|k: int| 0 <= k < order.len() && order[k] == p;
            assert(rest[if k < at {
                k
            } else {
                k - 1
            }] == p);
        }
        assert(rest.no_duplicates()) by {
            assert forall|i: int, j: int|
                0 <= i < rest.len() && 0 <= j < rest.len() && i != j implies rest[i] != rest[j] by {
                let k = if i < at {
                    i
                } else {
                    i + 1
                };
                let m = if j < at {
                    j
                } else {
                    j + 1
                };
                assert(order[k] != order[m]);
            }
        }
        lemma_reordering_keeps_rows(fewer, rest, left);
        vstd::seq_lib::to_multiset_remove(out, at);
        vstd::seq_lib::to_multiset_contains(out, out[at]);
        assert(out.contains(out[at]));
        assert(out.to_multiset() =~= left.to_multiset().insert(out[at]));
        vstd::seq_lib::to_multiset_build(fewer, rows.last());
        assert(rows =~= fewer.push(rows.last()));
    }
}

/// A flush loses no row and writes none twice: when it stops after `written` rows, what
/// was written and what is put back are together what was buffered.
pub proof fn flush_keeps_every_row(
    rows: Seq<DepthUpdateRow>,
    out: Seq<DepthUpdateRow>,
    written: int,
)
    requires
        rows.len() <= usize::MAX,
        sorted_rows(rows, out),
        0 <= written <= out.len(),
    ensures
        rows.to_multiset() == out.take(written).to_multiset().add(
            out.skip(written).to_multiset(),
        ),
{
    let order = choose|order: Seq<usize>| #[trigger]
        sorting::is_stable_order(row_ids(rows), order) && reordered(rows, order, out);
    let ids = row_ids(rows);
    assert forall|i: int, j: int| 0 <= i < j < order.len() implies order[i] != order[j] by {
        assert(sorting::entry_before(
            (ids[order[i] as int], order[i]),
            (ids[order[j] as int], order[j]),
        ));
    }
    assert(order.no_duplicates());
    lemma_reordering_keeps_rows(rows, order, out);
    assert(out =~= out.take(written) + out.skip(written));
    vstd::seq_lib::lemma_multiset_commutative(out.take(written), out.skip(written));
}

/// What happens to a depth update file: a row comes in, or rows are flushed in the order
/// `sorted`, of which the first `written` reach the file.
pub enum TapeEvent {
    Row(DepthUpdateRow),
    Flush { sorted: Seq<DepthUpdateRow>, written: int },
}

/// The rows that came in.
pub open spec fn received(events: Seq<TapeEvent>) -> Seq<DepthUpdateRow>
    decreases events.len(),
{
    if events.len() == 0 {
        seq![]
    } else {
        match events.last() {
            TapeEvent::Row(row) => received(events.drop_last()).push(row),
            TapeEvent::Flush { .. } => received(events.drop_last()),
        }
    }
}

/// The rows that are buffered, those that a flush did not write included.
pub open spec fn held(events: Seq<TapeEvent>) -> Seq<DepthUpdateRow>
    decreases events.len(),
{
    if events.len() == 0 {
        seq![]
    } else {
        match events.last() {
            TapeEvent::Row(row) => held(events.drop_last()).push(row),
            TapeEvent::Flush { sorted, written } => sorted.skip(written),
        }
    }
}

/// The rows in the file.
pub open spec fn tape(events: Seq<TapeEvent>) -> Seq<DepthUpdateRow>
    decreases events.len(),
{
    if events.len() == 0 {
        seq![]
    } else {
        match events.last() {
            TapeEvent::Row(_) => tape(events.drop_last()),
            TapeEvent::Flush { sorted, written } => tape(events.drop_last()) + sorted.take(written),
        }
    }
}

/// Every flush takes what is buffered, sorted by id, and stops within it.
pub open spec fn flushes_fit(events: Seq<TapeEvent>) -> bool
    decreases events.len(),
{
    events.len() > 0 ==> {
        &&& flushes_fit(events.drop_last())
        &&& events.last() matches TapeEvent::Flush { sorted, written } ==> {
            &&& sorted_rows(held(events.drop_last()), sorted)
            &&& held(events.drop_last()).len() <= usize::MAX
            &&& 0 <= written <= sorted.len()
        }
    }
}

/// The tape is lossless, whatever flushes fail: every row that came in is in the file or
/// still buffered, and none of them twice.
pub proof fn tape_loses_nothing(events: Seq<TapeEvent>)
    requires
        flushes_fit(events),
    ensures
        received(events).to_multiset() == tape(events).to_multiset().add(
            held(events).to_multiset(),
        ),
    decreases events.len(),
{
    if events.len() == 0 {
        vstd::seq_lib::to_multiset_len(received(events));
        assert(tape(events).to_multiset() =~= vstd::multiset::Multiset::empty());
        assert(received(events).to_multiset() =~= tape(events).to_multiset().add(
            held(events).to_multiset(),
        ));
    } else {
        let front = events.drop_last();
        tape_loses_nothing(front);
        match events.last() {
            TapeEvent::Row(row) => {
                vstd::seq_lib::to_multiset_build(received(front), row);
                vstd::seq_lib::to_multiset_build(held(front), row);
                assert(received(events).to_multiset() =~= tape(events).to_multiset().add(
                    held(events).to_multiset(),
                ));
            },
            TapeEvent::Flush { sorted, written } => {
                flush_keeps_every_row(held(front), sorted, written);
                vstd::seq_lib::lemma_multiset_commutative(tape(front), sorted.take(written));
                assert(received(events).to_multiset() =~= tape(events).to_multiset().add(
                    held(events).to_multiset(),
                ));
            },
        }
    }
}

/// Rows are written in the order of their ids.
pub proof fn flushed_rows_are_sorted(
    rows: Seq<DepthUpdateRow>,
    out: Seq<DepthUpdateRow>,
    i: int,
    j: int,
)
    requires
        sorted_rows(rows, out),
        0 <= i < j < out.len(),
    ensures
        out[i].last_update_id <= out[j].last_update_id,
{
    let order = choose|order: Seq<usize>| #[trigger]
        sorting::is_stable_order(row_ids(rows), order) && reordered(rows, order, out);
    let ids = row_ids(rows);
    assert(sorting::entry_before(
        (ids[order[i] as int], order[i]),
        (ids[order[j] as int], order[j]),
    ));
}

fn sort_rows(rows: &Vec<DepthUpdateRow>) -> (r: Vec<DepthUpdateRow>)
    ensures
        sorted_rows(rows@, r@),
{
    let mut ids: Vec<u64> = Vec::new();
    let mut i: usize = 0;
    while i < rows.len()
        invariant
            i <= rows.len(),
            ids.len() == i,
            forall|k: int| 0 <= k < i ==> #[trigger] ids@[k] == rows@[k].last_update_id,
        decreases rows.len() - i,
    {
        ids.push(rows[i].last_update_id);
        i = i + 1;
    }
    assert(ids@ =~= row_ids(rows@));
    let order: Vec<usize> = sorting::stable_order(&ids);
    let mut out: Vec<DepthUpdateRow> = Vec::new();
    let mut j: usize = 0;
    while j < order.len()
        invariant
            j <= order.len(),
            out.len() == j,
            order.len() == rows.len(),
            forall|k: int| 0 <= k < order.len() ==> (#[trigger] order@[k] as int) < rows.len(),
            forall|k: int| 0 <= k < j ==> #[trigger] out@[k] == rows@[order@[k] as int],
        decreases order.len() - j,
    {
        out.push(rows[order[j]].clone());
        j = j + 1;
    }
    assert(sorting::is_stable_order(row_ids(rows@), order@) && reordered(rows@, order@, out@));
    out
}

/// A file buffer right after its file was opened.
pub open spec fn fresh_buffer(path: Seq<char>, now: u64) -> BufferView {
    BufferView {
        row_count: 0,
        last_flush: now,
        last_write: now,
        depth_rows: if text::contains_text(path, "depth_updates"@) {
            Some(seq![])
        } else {
            None
        },
    }
}

/// A flush is due: enough time has passed or enough rows were written.
pub open spec fn flush_due(buffer: BufferView, now: u64, interval: u64) -> bool {
    (buffer.last_flush <= now && now - buffer.last_flush >= interval) || (buffer.last_flush > now
        && interval == 0) || buffer.row_count >= ROWS_PER_FLUSH
}

/// A buffer after one more row was written to its file at `now`. The count stays at the
/// largest number.
pub open spec fn one_row_more(buffer: BufferView, now: u64) -> BufferView {
    BufferView {
        row_count: if buffer.row_count == usize::MAX {
            usize::MAX
        } else {
            (buffer.row_count + 1) as usize
        },
        last_write: now,
        ..buffer
    }
}

/// A buffer after a row of a depth update file came in at `now`. Other files hold no rows.
pub open spec fn one_depth_row_more(buffer: BufferView, row: DepthUpdateRow, now: u64) -> BufferView {
    match buffer.depth_rows {
        Some(rows) => BufferView { depth_rows: Some(rows.push(row)), last_write: now, ..buffer },
        None => buffer,
    }
}

/// What happens to an open file.
pub enum FileEvent {
    /// A row is written.
    Row { now: u64 },
    /// A row of a depth update file comes in.
    DepthRow { row: DepthUpdateRow, now: u64 },
    /// The file is flushed by the clock.
    Flush { now: u64 },
    /// The rows counted so far are flushed.
    RowsFlushed { now: u64 },
}

impl FileEvent {
    /// The event writes nothing after `time`.
    pub open spec fn writes_nothing_after(self, time: u64) -> bool {
        match self {
            FileEvent::Row { now } => now <= time,
            FileEvent::DepthRow { now, .. } => now <= time,
            _ => true,
        }
    }
}

/// The buffer of a file after a run of events.
pub open spec fn after_events(buffer: BufferView, events: Seq<FileEvent>) -> BufferView
    decreases events.len(),
{
    if events.len() == 0 {
        buffer
    } else {
        let before = after_events(buffer, events.drop_last());
        match events.last() {
            FileEvent::Row { now } => one_row_more(before, now),
            FileEvent::DepthRow { row, now } => one_depth_row_more(before, row, now),
            FileEvent::Flush { now } => BufferView { last_flush: now, ..before },
            FileEvent::RowsFlushed { now } => BufferView {
                row_count: 0,
                last_flush: now,
                ..before
            },
        }
    }
}

/// A file that nothing was written to for more than half an hour is closed, however often
/// it was flushed since.
pub proof fn idle_files_are_closed(
    buffer: BufferView,
    events: Seq<FileEvent>,
    time: u64,
    path: Seq<char>,
    today: Seq<char>,
    now: u64,
)
    requires
        buffer.last_write <= time,
        forall|i: int| 0 <= i < events.len() ==> (#[trigger] events[i]).writes_nothing_after(time),
        time + 1_800_000_000_000 < now,
    ensures
        is_stale_buffer(path, today, after_events(buffer, events).last_write, now),
{
    lemma_last_write(buffer, events, time);
}

/// What was written last was not written after `time`.
proof fn lemma_last_write(buffer: BufferView, events: Seq<FileEvent>, time: u64)
    requires
        buffer.last_write <= time,
        forall|i: int| 0 <= i < events.len() ==> (#[trigger] events[i]).writes_nothing_after(time),
    ensures
        after_events(buffer, events).last_write <= time,
    decreases events.len(),
{
    if events.len() > 0 {
        let front = events.drop_last();
        assert forall|i: int| 0 <= i < front.len() implies (
        #[trigger] front[i]).writes_nothing_after(time) by {
            assert(front[i] == events[i]);
        }
        lemma_last_write(buffer, front, time);
        assert(events[events.len() - 1].writes_nothing_after(time));
    }
}

/// A file of today that was written to in the last half hour stays open.
pub proof fn files_in_use_stay_open(path: Seq<char>, today: Seq<char>, last_write: u64, now: u64)
    requires
        text::contains_text(path, today),
        now <= last_write + 1_800_000_000_000,
    ensures
        !is_stale_buffer(path, today, last_write, now),
{
}

impl FileBuffer {
    /// The buffer of a file that was just opened.
    pub fn new(path: &str, now: u64) -> (r: FileBuffer)
        ensures
            r@ == fresh_buffer(path@, now),
    {
        let depth_rows: Option<Vec<DepthUpdateRow>> = if contains(path, "depth_updates") {
            Some(Vec::new())
        } else {
            None
        };
        let r = FileBuffer { row_count: 0, last_flush: now, last_write: now, depth_rows };
        assert(r@.depth_rows == fresh_buffer(path@, now).depth_rows);
        r
    }

    /// Buffers a row of a depth update file. Returns whether the buffer is full and must be
    /// flushed at once.
    pub fn push_depth_row(&mut self, row: DepthUpdateRow, max_rows: usize, now: u64) -> (r: bool)
        ensures
            final(self)@ == one_depth_row_more(old(self)@, row, now),
            r == (match old(self)@.depth_rows {
                Some(rows) => rows.len() + 1 >= max_rows,
                None => false,
            }),
    {
        match self.depth_rows.take() {
            Some(mut rows) => {
                rows.push(row);
                let full: bool = rows.len() >= max_rows;
                self.depth_rows = Some(rows);
                self.last_write = now;
                full
            },
            None => false,
        }
    }

    /// Takes the buffered rows out, sorted by id, to be written.
    pub fn begin_flush(&mut self) -> (r: Vec<DepthUpdateRow>)
        ensures
            final(self)@ == old(self)@.flushing(),
            final(self)@ == (BufferView {
                depth_rows: match old(self)@.depth_rows {
                    Some(rows) => Some(seq![]),
                    None => None,
                },
                ..old(self)@
            }),
            match old(self)@.depth_rows {
                Some(rows) => sorted_rows(rows, r@),
                None => r@.len() == 0,
            },
    {
        match self.depth_rows.take() {
            Some(rows) => {
                self.depth_rows = Some(Vec::new());
                assert(self@.depth_rows->0 =~= seq![]);
                sort_rows(&rows)
            },
            None => Vec::new(),
        }
    }

    /// Puts the rows back that a failed flush did not write: those from `written` on.
    pub fn restore_rows(&mut self, rows: &Vec<DepthUpdateRow>, written: usize)
        requires
            written <= rows.len(),
        ensures
            final(self)@ == old(self)@.restored(rows@, written as int),
            final(self)@ == (BufferView {
                depth_rows: match old(self)@.depth_rows {
                    Some(held) => Some(held + rows@.skip(written as int)),
                    None => None,
                },
                ..old(self)@
            }),
    {
        match self.depth_rows.take() {
            Some(mut held) => {
                let ghost before = held@;
                let mut i: usize = written;
                assert(before + rows@.subrange(written as int, written as int) =~= before);
                while i < rows.len()
                    invariant
                        written <= i <= rows.len(),
                        held@ == before + rows@.subrange(written as int, i as int),
                    decreases rows.len() - i,
                {
                    held.push(rows[i].clone());
                    assert(before + rows@.subrange(written as int, i + 1) =~= (before
                        + rows@.subrange(written as int, i as int)).push(rows@[i as int]));
                    i = i + 1;
                }
                assert(rows@.subrange(written as int, rows.len() as int) =~= rows@.skip(
                    written as int,
                ));
                self.depth_rows = Some(held);
            },
            None => {},
        }
    }

    /// Notes that everything was flushed.
    pub fn end_flush(&mut self, now: u64)
        ensures
            final(self)@ == old(self)@.flushed(now),
            final(self)@ == (BufferView { last_flush: now, ..old(self)@ }),
    {
        self.last_flush = now;
    }

    /// Counts a row that was written. Returns whether the file is to be flushed.
    pub fn count_row(&mut self, now: u64, interval: u64) -> (r: bool)
        ensures
            final(self)@ == one_row_more(old(self)@, now),
            r == flush_due(final(self)@, now, interval),
    {
        self.row_count = self.row_count.saturating_add(1);
        self.last_write = now;
        now.saturating_sub(self.last_flush) >= interval || self.row_count >= ROWS_PER_FLUSH
    }

    /// Notes that the rows counted so far were flushed.
    pub fn rows_flushed(&mut self, now: u64)
        ensures
            final(self)@ == old(self)@.counted_anew(now),
            final(self)@ == (BufferView { row_count: 0, last_flush: now, ..old(self)@ }),
    {
        self.row_count = 0;
        self.last_flush = now;
    }
}

/// What a map from paths to file buffers holds.
pub uninterp spec fn buffer_entries(map: DashMap<String, FileBuffer>) -> Map<Seq<char>, BufferView>;

/// `DashMap::new`: an empty map.
#[verifier::external_body]
fn buffer_map() -> (r: DashMap<String, FileBuffer>)
    ensures
        buffer_entries(r) == (Map::<Seq<char>, BufferView>::empty()),
{
    DashMap::new()
}

/// `DashMap::insert`: the key maps to the buffer, other keys are as before.
#[verifier::external_body]
fn buffer_insert(map: &mut DashMap<String, FileBuffer>, key: &str, buffer: FileBuffer)
    ensures
        buffer_entries(*final(map)) == buffer_entries(*old(map)).insert(key@, buffer@),
{
    map.insert(key.to_string(), buffer);
}

/// `DashMap::remove`: the buffer of the key is handed out, if there is one, and the key
/// is gone; other keys are as before.
#[verifier::external_body]
fn buffer_remove(map: &mut DashMap<String, FileBuffer>, key: &str) -> (r: Option<FileBuffer>)
    ensures
        r is Some <==> buffer_entries(*old(map)).contains_key(key@),
        r matches Some(buffer) ==> buffer@ == buffer_entries(*old(map))[key@],
        buffer_entries(*final(map)) == buffer_entries(*old(map)).remove(key@),
{
    map.remove(key).map(|entry| entry.1)
}

/// `DashMap::contains_key`.
#[verifier::external_body]
fn buffer_known(map: &DashMap<String, FileBuffer>, key: &str) -> (r: bool)
    ensures
        r == buffer_entries(*map).contains_key(key@),
{
    map.contains_key(key)
}

/// When each file was last written to.
pub open spec fn write_times(buffers: Map<Seq<char>, BufferView>) -> Map<Seq<char>, u64> {
    buffers.map_values(|b: BufferView| b.last_write)
}

/// `DashMap::iter`, of each buffer its path and the time of the last write: every entry
/// once, in no particular order.
#[verifier::external_body]
fn buffer_list(map: &DashMap<String, FileBuffer>) -> (r: Vec<(String, u64)>)
    ensures
        crate::symbol_maps::lists_entries(write_times(buffer_entries(*map)), r@),
{
    map.iter().map(|entry| (entry.key().clone(), entry.value().last_write)).collect()
}

/// `base` with one more part. A part that starts with `/` takes the place of the base.
pub open spec fn joined(base: Seq<char>, part: Seq<char>) -> Seq<char> {
    if part.len() > 0 && part[0] == '/' {
        part
    } else if base.len() == 0 || base.last() == '/' {
        base + part
    } else {
        base + seq!['/'] + part
    }
}

fn join(base: &str, part: &str) -> (r: String)
    ensures
        r@ == joined(base@, part@),
{
    let b: Vec<char> = text::chars_of(base);
    let p: Vec<char> = text::chars_of(part);
    if p.len() > 0 && p[0] == '/' {
        return part.to_owned();
    }
    let mut out: String = base.to_owned();
    if b.len() > 0 && b[b.len() - 1] != '/' {
        out.push('/');
    }
    out.append(part);
    assert(out@ =~= joined(base@, part@));
    out
}

/// A part of a path that names nothing: between two slashes, behind a slash at the end,
/// or a single dot.
pub open spec fn names_nothing(part: Seq<char>) -> bool {
    part.len() == 0 || part == "."@
}

/// The last part of a path that names something, with what stands before it. `None` where
/// there is none.
pub open spec fn last_part(path: Seq<char>) -> Option<(Seq<char>, Seq<char>)>
    decreases path.len(),
{
    match text::after_last(path, '/') {
        Some(part) => {
            let front = path.take(path.len() - part.len() - 1);
            if !names_nothing(part) {
                Some((front, part))
            } else if front.len() < path.len() {
                last_part(front)
            } else {
                None
            }
        },
        None => if names_nothing(path) {
            None
        } else {
            Some((seq![], path))
        },
    }
}

/// The name of a file: the last part of its path, empty where that goes up a directory or
/// there is none.
pub open spec fn file_name(path: Seq<char>) -> Seq<char> {
    match last_part(path) {
        Some((front, part)) => if part == ".."@ {
            seq![]
        } else {
            part
        },
        None => seq![],
    }
}

/// The last part of a path that names something, with what stands before it.
fn split_last(path: &str) -> (r: Option<(String, String)>)
    ensures
        match r {
            Some((front, part)) => last_part(path@) == Some((front@, part@)),
            None => last_part(path@) is None,
        },
{
    let mut left: Vec<char> = text::chars_of(path);
    loop
        invariant
            last_part(path@) == last_part(left@),
        decreases left.len(),
    {
        match text::rest_after_last(&left, '/') {
            Some(part) => {
                proof {
                    lemma_after_last_len(left@, '/');
                }
                let end: usize = left.len() - part.len() - 1;
                let name: String = text::text_of(&part, 0, part.len());
                assert(name@ =~= part@);
                let front: String = text::text_of(&left, 0, end);
                assert(front@ =~= left@.take(left@.len() - part@.len() - 1));
                if !name.as_str().is_empty() && !text_eq(name.as_str(), ".") {
                    return Some((front, name));
                }
                left = text::chars_of(front.as_str());
            },
            None => {
                let name: String = text::text_of(&left, 0, left.len());
                assert(name@ =~= left@);
                if name.as_str().is_empty() || text_eq(name.as_str(), ".") {
                    return None;
                }
                let front: String = String::new();
                assert(front@ =~= seq![]);
                return Some((front, name));
            },
        }
    }
}

fn name_of(path: &str) -> (r: String)
    ensures
        r@ == file_name(path@),
{
    match split_last(path) {
        Some((_, part)) => if text_eq(part.as_str(), "..") {
            let r: String = String::new();
            assert(r@ =~= seq![]);
            r
        } else {
            part
        },
        None => {
            let r: String = String::new();
            assert(r@ =~= seq![]);
            r
        },
    }
}

/// The header of a file, which its name decides.
pub open spec fn header_of(name: Seq<char>) -> Seq<char> {
    if text::contains_text(name, "depth_updates"@) {
        constants::HEADER_DEPTH_UPDATES@
    } else if text::contains_text(name, "depth_snapshot"@) {
        constants::HEADER_DEPTH_SNAPSHOT@
    } else if text::contains_text(name, "trades"@) {
        constants::HEADER_TRADES@
    } else if text::contains_text(name, "klines"@) && !text::contains_text(name, "mark_price"@)
        && !text::contains_text(name, "index_price"@) && !text::contains_text(
        name,
        "premium_index"@,
    ) {
        constants::HEADER_KLINES@
    } else if text::contains_text(name, "liquidations"@) {
        constants::HEADER_LIQUIDATIONS@
    } else if text::contains_text(name, "funding_rates"@) {
        constants::HEADER_FUNDING_RATES@
    } else if text::contains_text(name, "open_interest"@) {
        constants::HEADER_OPEN_INTEREST@
    } else if text::contains_text(name, "taker_buy_sell_ratio"@) {
        constants::HEADER_TAKER_BUY_SELL_RATIO@
    } else if text::contains_text(name, "long_short_ratio"@) {
        constants::HEADER_LONG_SHORT_RATIO@
    } else if text::contains_text(name, "premium_index_klines"@) {
        constants::HEADER_PREMIUM_INDEX_KLINES@
    } else if text::contains_text(name, "mark_price_klines"@) || text::contains_text(
        name,
        "index_price_klines"@,
    ) {
        constants::HEADER_MARK_INDEX_KLINES@
    } else {
        "exchange,market,datatype,timestamp_ms,datetime_utc,symbol"@
    }
}

/// A number below a hundred with two digits.
pub open spec fn two_digits(n: int) -> Seq<char> {
    seq![text::digit_char((n / 10) as nat), text::digit_char((n % 10) as nat)]
}

fn push_two_digits(s: &mut String, n: u32)
    requires
        n < 100,
    ensures
        final(s)@ == old(s)@ + two_digits(n as int),
{
    let tens: u8 = (n / 10) as u8;
    let ones: u8 = (n % 10) as u8;
    s.push((48u8 + tens) as char);
    s.push((48u8 + ones) as char);
    assert(s@ =~= old(s)@ + two_digits(n as int));
}

/// The hours that a depth update file covers: `HH00-to-HH00`.
pub open spec fn hour_span(hour: int, next: int) -> Seq<char> {
    two_digits(hour) + "00-to-"@ + two_digits(next) + "00"@
}

fn push_hour_span(s: &mut String, hour: u32, next: u32)
    requires
        hour < 100,
        next < 100,
    ensures
        final(s)@ == old(s)@ + hour_span(hour as int, next as int),
{
    push_two_digits(s, hour);
    s.append("00-to-");
    push_two_digits(s, next);
    s.append("00");
    assert(s@ =~= old(s)@ + hour_span(hour as int, next as int));
}

/// The directory of a symbol and date.
pub open spec fn dated_dir(
    base: Seq<char>,
    kind: Seq<char>,
    symbol: Seq<char>,
    date: Seq<char>,
) -> Seq<char> {
    joined(joined(joined(base, kind), symbol), date)
}

fn build_dir(base: &str, kind: &str, symbol: &str, date: &str) -> (r: String)
    ensures
        r@ == dated_dir(base@, kind@, symbol@, date@),
{
    let a: String = join(base, kind);
    let b: String = join(a.as_str(), symbol);
    join(b.as_str(), date)
}

/// The depth update file of a symbol for one hour of a day.
pub open spec fn depth_path(base: Seq<char>, symbol: Seq<char>, date: Seq<char>, hour: int) -> Seq<
    char,
> {
    joined(
        dated_dir(base, "orderbooks"@, symbol, date),
        symbol + "_depth_updates_"@ + date + "_"@ + hour_span(hour, (hour + 1) % 24) + ".csv"@,
    )
}

/// The path of a depth update file, for a date and hour.
pub fn depth_update_path(base: &str, symbol: &str, date: &str, hour: u32) -> (r: String)
    requires
        hour < 24,
    ensures
        r@ == depth_path(base@, symbol@, date@, hour as int),
{
    let mut name: String = symbol.to_owned();
    name.append("_depth_updates_");
    name.append(date);
    name.append("_");
    push_hour_span(&mut name, hour, (hour + 1) % 24);
    name.append(".csv");
    assert(name@ =~= symbol@ + "_depth_updates_"@ + date@ + "_"@ + hour_span(
        hour as int,
        (hour + 1) % 24,
    ) + ".csv"@);
    let dir: String = build_dir(base, "orderbooks", symbol, date);
    join(dir.as_str(), name.as_str())
}

/// A kind of data that has a daily file named after it.
pub open spec fn has_daily_name(kind: Seq<char>) -> bool {
    ||| kind == "trades"@
    ||| kind == "klines"@
    ||| kind == "liquidations"@
    ||| kind == "funding_rates"@
    ||| kind == "open_interest"@
    ||| kind == "long_short_ratio"@
    ||| kind == "mark_price_klines"@
    ||| kind == "index_price_klines"@
    ||| kind == "taker_buy_sell_ratio"@
    ||| kind == "premium_index_klines"@
}

fn is_daily_kind(kind: &str) -> (r: bool)
    ensures
        r == has_daily_name(kind@),
{
    text_eq(kind, "trades") || text_eq(kind, "klines") || text_eq(kind, "liquidations") || text_eq(
        kind,
        "funding_rates",
    ) || text_eq(kind, "open_interest") || text_eq(kind, "long_short_ratio") || text_eq(
        kind,
        "mark_price_klines",
    ) || text_eq(kind, "index_price_klines") || text_eq(kind, "taker_buy_sell_ratio") || text_eq(
        kind,
        "premium_index_klines",
    )
}

/// The daily file of a kind of data and symbol.
pub open spec fn daily_path(
    base: Seq<char>,
    kind: Seq<char>,
    symbol: Seq<char>,
    date: Seq<char>,
) -> Seq<char> {
    joined(
        dated_dir(base, kind, symbol, date),
        if has_daily_name(kind) {
            symbol + "_"@ + kind + "_"@ + date + ".csv"@
        } else {
            symbol + "_"@ + date + ".csv"@
        },
    )
}

/// The path of a daily file, for a date.
pub fn daily_file_path(base: &str, kind: &str, symbol: &str, date: &str) -> (r: String)
    ensures
        r@ == daily_path(base@, kind@, symbol@, date@),
{
    let mut name: String = symbol.to_owned();
    name.append("_");
    if is_daily_kind(kind) {
        name.append(kind);
        name.append("_");
    }
    name.append(date);
    name.append(".csv");
    proof {
        if has_daily_name(kind@) {
            assert(name@ =~= symbol@ + "_"@ + kind@ + "_"@ + date@ + ".csv"@);
        } else {
            assert(name@ =~= symbol@ + "_"@ + date@ + ".csv"@);
        }
    }
    let dir: String = build_dir(base, kind, symbol, date);
    join(dir.as_str(), name.as_str())
}

/// The snapshot file of a symbol. The snapshot with which a book starts has a file of its
/// own, named after its time; all others go to a daily file.
pub open spec fn snapshot_path(
    base: Seq<char>,
    symbol: Seq<char>,
    event_type: Seq<char>,
    date: Seq<char>,
    time: Seq<char>,
    timestamp: i64,
) -> Seq<char> {
    joined(
        dated_dir(base, "orderbooks"@, symbol, date),
        if event_type == "depth_snapshot_initial"@ {
            symbol + "_depth_snapshot_initial_"@ + time + "_"@ + text::signed_decimal(
                timestamp as int,
            ) + ".csv"@
        } else {
            symbol + "_depth_snapshot_"@ + date + ".csv"@
        },
    )
}

/// The path of a snapshot file, for a date and time.
pub fn snapshot_file_path(
    base: &str,
    symbol: &str,
    event_type: &str,
    date: &str,
    time: &str,
    timestamp: i64,
) -> (r: String)
    ensures
        r@ == snapshot_path(base@, symbol@, event_type@, date@, time@, timestamp),
{
    let mut name: String = symbol.to_owned();
    if text_eq(event_type, "depth_snapshot_initial") {
        name.append("_depth_snapshot_initial_");
        name.append(time);
        name.append("_");
        name.append(i64_text(timestamp).as_str());
    } else {
        name.append("_depth_snapshot_");
        name.append(date);
    }
    name.append(".csv");
    proof {
        if event_type@ == "depth_snapshot_initial"@ {
            assert(name@ =~= symbol@ + "_depth_snapshot_initial_"@ + time@ + "_"@
                + text::signed_decimal(timestamp as int) + ".csv"@);
        } else {
            assert(name@ =~= symbol@ + "_depth_snapshot_"@ + date@ + ".csv"@);
        }
    }
    let dir: String = build_dir(base, "orderbooks", symbol, date);
    join(dir.as_str(), name.as_str())
}

/// The date of a timestamp.
pub open spec fn date_of(timestamp: i64) -> Seq<char> {
    time_utils::utc_text(timestamp, "%Y-%m-%d"@)
}

/// A timestamp in the form of ISO 8601, in UTC, with milliseconds.
pub open spec fn iso_of(timestamp: i64) -> Seq<char> {
    time_utils::utc_text(timestamp, "%Y-%m-%dT%H:%M:%S%.3fZ"@)
}

/// A row to be written to a file.
pub struct RowOutput {
    pub path: String,
    pub line: String,
}

/// A depth update row to be buffered for a file.
pub struct DepthOutput {
    pub path: String,
    pub row: DepthUpdateRow,
}

/// Rows to be written to one file.
pub struct FileGroup {
    pub path: String,
    pub rows: Vec<String>,
}

/// Decides where records are written, and keeps what is buffered of each file.
pub struct CsvWriter {
    base_dir: String,
    storage: StorageConfig,
    flush_interval: u64,
    max_depth_buffer_rows: usize,
    buffers: DashMap<String, FileBuffer>,
}

/// A writer as mathematical values.
pub struct WriterView {
    pub base_dir: Seq<char>,
    pub storage: StorageConfig,
    pub flush_interval: u64,
    pub max_depth_buffer_rows: usize,
    pub buffers: Map<Seq<char>, BufferView>,
}

impl WriterView {
    /// The path of a daily file.
    pub open spec fn daily(self, kind: Seq<char>, symbol: Seq<char>, timestamp: i64) -> Seq<char> {
        daily_path(self.base_dir, kind, symbol, date_of(timestamp))
    }

    /// The path of a snapshot file.
    pub open spec fn snapshot(
        self,
        symbol: Seq<char>,
        event_type: Seq<char>,
        timestamp: i64,
    ) -> Seq<char> {
        snapshot_path(
            self.base_dir,
            symbol,
            event_type,
            date_of(timestamp),
            time_utils::utc_text(timestamp, "%Y_%m_%d_%H%M%S"@),
            timestamp,
        )
    }

    /// The writer with another buffer for a path.
    pub open spec fn with_buffer(self, path: Seq<char>, buffer: BufferView) -> WriterView {
        WriterView { buffers: self.buffers.insert(path, buffer), ..self }
    }
}

impl View for CsvWriter {
    type V = WriterView;

    closed spec fn view(&self) -> WriterView {
        WriterView {
            base_dir: self.base_dir@,
            storage: self.storage,
            flush_interval: self.flush_interval,
            max_depth_buffer_rows: self.max_depth_buffer_rows,
            buffers: buffer_entries(self.buffers),
        }
    }
}

/// The part of a path that names its date: the directory in which the file lies.
pub open spec fn date_dir(path: Seq<char>) -> Option<Seq<char>> {
    match last_part(path) {
        Some((dir, part)) => if file_name(dir).len() > 0 {
            Some(file_name(dir))
        } else {
            None
        },
        None => None,
    }
}

/// The directory of a path that is to be read as a date: it is not that of today.
pub open spec fn other_date(path: Seq<char>, today: Seq<char>) -> Option<Seq<char>> {
    if text::contains_text(path, today) {
        None
    } else {
        match date_dir(path) {
            Some(dir) => if dir != today {
                Some(dir)
            } else {
                None
            },
            None => None,
        }
    }
}

/// What follows the last `/` is no longer than the path.
proof fn lemma_after_last_len(s: Seq<char>, c: char)
    ensures
        after_last_len_ok(s, c),
    decreases s.len(),
{
    if s.len() > 0 && s.last() != c {
        lemma_after_last_len(s.drop_last(), c);
    }
}

/// See `lemma_after_last_len`.
spec fn after_last_len_ok(s: Seq<char>, c: char) -> bool {
    match text::after_last(s, c) {
        Some(rest) => rest.len() < s.len(),
        None => true,
    }
}

/// The directory of a path that is to be read as a date.
pub fn other_date_dir(path: &str, today: &str) -> (r: Option<String>)
    ensures
        match r {
            Some(dir) => other_date(path@, today@) == Some(dir@),
            None => other_date(path@, today@) is None,
        },
{
    if contains(path, today) {
        return None;
    }
    let dir: String = match split_last(path) {
        Some((front, _)) => front,
        None => {
            return None;
        },
    };
    let last: String = name_of(dir.as_str());
    if last.as_str().is_empty() || text_eq(last.as_str(), today) {
        None
    } else {
        Some(last)
    }
}

/// A buffer is closed: its file is of another day, or nothing was written to it for too
/// long.
pub open spec fn is_stale_buffer(
    path: Seq<char>,
    today: Seq<char>,
    last_write: u64,
    now: u64,
) -> bool {
    ||| match other_date(path, today) {
        Some(dir) => time_utils::is_date(dir),
        None => false,
    }
    ||| last_write <= now && now - last_write > IDLE_NANOS
}

/// A depth update file of the hour that has just ended.
pub open spec fn is_rotated(path: Seq<char>, hour: int) -> bool {
    text::contains_text(path, "depth_updates"@) && text::contains_text(
        path,
        hour_span((hour + 23) % 24, hour),
    )
}

/// When an hour has ended, the rotation closes its depth update files: the path of a file
/// for an hour is rotated at the next.
pub proof fn rotation_closes_the_hour_before(
    base: Seq<char>,
    symbol: Seq<char>,
    date: Seq<char>,
    hour: int,
)
    requires
        0 <= hour < 24,
    ensures
        is_rotated(depth_path(base, symbol, date, hour), (hour + 1) % 24),
{
    let next = (hour + 1) % 24;
    let span = hour_span(hour, next);
    let dir = dated_dir(base, "orderbooks"@, symbol, date);
    let name = symbol + "_depth_updates_"@ + date + "_"@ + span + ".csv"@;
    let path = joined(dir, name);
    let lead = path.take(path.len() - name.len());
    assert(path =~= lead + name);
    assert(path =~= (lead + symbol + "_depth_updates_"@ + date + "_"@) + span + ".csv"@);
    text::lemma_contains_middle(lead + symbol + "_depth_updates_"@ + date + "_"@, span, ".csv"@);
    reveal_strlit("_depth_updates_");
    reveal_strlit("depth_updates");
    assert("_depth_updates_"@ =~= seq!['_'] + "depth_updates"@ + seq!['_']);
    let rest = seq!['_'] + date + "_"@ + span + ".csv"@;
    assert(path =~= (lead + symbol + seq!['_']) + "depth_updates"@ + rest);
    text::lemma_contains_middle(lead + symbol + seq!['_'], "depth_updates"@, rest);
    assert((next + 23) % 24 == hour);
}

/// `list` names each path of `paths` once, in some order.
pub open spec fn lists_paths(paths: Set<Seq<char>>, list: Seq<String>) -> bool {
    text::texts(list).no_duplicates() && text::texts(list).to_set() == paths
}

/// The rows of a list of records that go to `path`, in their order.
pub open spec fn rows_for(
    writer: WriterView,
    records: Seq<DepthSnapshotCsv>,
    decimals: Seq<(Option<String>, Option<String>)>,
    path: Seq<char>,
) -> Seq<Seq<char>>
    decreases records.len(),
{
    if records.len() == 0 {
        seq![]
    } else {
        let front = rows_for(writer, records.drop_last(), decimals, path);
        let n = records.len() - 1;
        if snapshot_target(writer, records[n]) == path {
            front.push(snapshot_line(records[n], decimals[n]))
        } else {
            front
        }
    }
}

/// The file that a snapshot record goes to.
pub open spec fn snapshot_target(writer: WriterView, record: DepthSnapshotCsv) -> Seq<char> {
    writer.snapshot(record.symbol@, record.event_type@, record.timestamp_ms)
}

/// The row of a snapshot record.
pub open spec fn snapshot_line(
    record: DepthSnapshotCsv,
    decimals: (Option<String>, Option<String>),
) -> Seq<char> {
    csv_rows::csv_line(
        csv_rows::depth_snapshot_columns(
            record,
            iso_of(record.timestamp_ms),
            &decimals.0,
            &decimals.1,
        ),
    )
}

/// `groups` hold the rows of the records, one group for each file.
pub open spec fn groups_hold(
    writer: WriterView,
    records: Seq<DepthSnapshotCsv>,
    decimals: Seq<(Option<String>, Option<String>)>,
    groups: Seq<FileGroup>,
) -> bool {
    &&& forall|g: int|
        0 <= g < groups.len() ==> text::texts((#[trigger] groups[g]).rows@) == rows_for(
            writer,
            records,
            decimals,
            groups[g].path@,
        )
    &&& forall|g: int, h: int|
        0 <= g < h < groups.len() ==> (#[trigger] groups[g]).path@ != (#[trigger] groups[h]).path@
    &&& forall|i: int|
        0 <= i < records.len() ==> has_group(groups, snapshot_target(writer, #[trigger] records[i]))
}

/// There is a group for a file.
pub open spec fn has_group(groups: Seq<FileGroup>, path: Seq<char>) -> bool {
    exists|g: int| 0 <= g < groups.len() && (#[trigger] groups[g]).path@ == path
}

impl CsvWriter {
    /// A writer without open files.
    pub fn new(output: &OutputConfig, storage: StorageConfig) -> (r: CsvWriter)
        ensures
            r@.base_dir == output.base_dir@,
            r@.storage == storage,
            r@.flush_interval == crate::collectors::orderbook_manager::nanos(
                output.flush_interval_seconds,
            ),
            r@.max_depth_buffer_rows == output.max_depth_buffer_rows,
            r@.buffers == (Map::<Seq<char>, BufferView>::empty()),
    {
        CsvWriter {
            base_dir: output.base_dir.clone(),
            storage,
            flush_interval: crate::collectors::orderbook_manager::seconds_to_nanos(
                output.flush_interval_seconds,
            ),
            max_depth_buffer_rows: output.max_depth_buffer_rows,
            buffers: buffer_map(),
        }
    }

    /// The header of a file.
    pub fn get_header_for_file(path: &str) -> (r: &'static str)
        ensures
            r@ == header_of(file_name(path@)),
    {
        let owned: String = name_of(path);
        let name: &str = owned.as_str();
        if contains(name, "depth_updates") {
            constants::HEADER_DEPTH_UPDATES
        } else if contains(name, "depth_snapshot") {
            constants::HEADER_DEPTH_SNAPSHOT
        } else if contains(name, "trades") {
            constants::HEADER_TRADES
        } else if contains(name, "klines") && !contains(name, "mark_price") && !contains(
            name,
            "index_price",
        ) && !contains(name, "premium_index") {
            constants::HEADER_KLINES
        } else if contains(name, "liquidations") {
            constants::HEADER_LIQUIDATIONS
        } else if contains(name, "funding_rates") {
            constants::HEADER_FUNDING_RATES
        } else if contains(name, "open_interest") {
            constants::HEADER_OPEN_INTEREST
        } else if contains(name, "taker_buy_sell_ratio") {
            constants::HEADER_TAKER_BUY_SELL_RATIO
        } else if contains(name, "long_short_ratio") {
            constants::HEADER_LONG_SHORT_RATIO
        } else if contains(name, "premium_index_klines") {
            constants::HEADER_PREMIUM_INDEX_KLINES
        } else if contains(name, "mark_price_klines") || contains(name, "index_price_klines") {
            constants::HEADER_MARK_INDEX_KLINES
        } else {
            "exchange,market,datatype,timestamp_ms,datetime_utc,symbol"
        }
    }

    /// The header to write when a file of `length` bytes is opened: only an empty file
    /// gets one.
    pub fn header_on_open(path: &str, length: u64) -> (r: Option<&'static str>)
        ensures
            r is Some <==> length == 0,
            r matches Some(header) ==> header@ == header_of(file_name(path@)),
    {
        if length == 0 {
            Some(Self::get_header_for_file(path))
        } else {
            None
        }
    }

    /// The depth update file of a symbol at a time.
    pub fn get_depth_update_path(&self, symbol: &str, timestamp: i64) -> (r: String)
        ensures
            r@ == depth_path(
                self@.base_dir,
                symbol@,
                date_of(timestamp),
                time_utils::hour_of_day(timestamp),
            ),
    {
        let date: String = time_utils::format_utc(timestamp, "%Y-%m-%d");
        let hour: u32 = time_utils::hour_of(timestamp);
        depth_update_path(self.base_dir.as_str(), symbol, date.as_str(), hour)
    }

    /// The daily file of a kind of data and symbol at a time.
    pub fn get_daily_file_path(&self, data_type: &str, symbol: &str, timestamp: i64) -> (r: String)
        ensures
            r@ == self@.daily(data_type@, symbol@, timestamp),
    {
        let date: String = time_utils::format_utc(timestamp, "%Y-%m-%d");
        daily_file_path(self.base_dir.as_str(), data_type, symbol, date.as_str())
    }

    /// The snapshot file of a symbol at a time.
    pub fn get_snapshot_path(&self, symbol: &str, event_type: &str, timestamp: i64) -> (r: String)
        ensures
            r@ == self@.snapshot(symbol@, event_type@, timestamp),
    {
        let date: String = time_utils::format_utc(timestamp, "%Y-%m-%d");
        let time: String = time_utils::format_utc(timestamp, "%Y_%m_%d_%H%M%S");
        snapshot_file_path(
            self.base_dir.as_str(),
            symbol,
            event_type,
            date.as_str(),
            time.as_str(),
            timestamp,
        )
    }

    /// A timestamp in the form of ISO 8601.
    pub fn iso_utc(ms: i64) -> (r: String)
        ensures
            r@ == iso_of(ms),
    {
        time_utils::format_utc(ms, "%Y-%m-%dT%H:%M:%S%.3fZ")
    }

    /// A depth update: where it goes, unless order books of its symbol are not written.
    pub fn write_depth_update(&self, update: &DepthUpdateCsv) -> (r: Option<DepthOutput>)
        ensures
            r is None <==> crate::config::lists_symbol(
                self@.storage.disable_orderbook_persistence_for@,
                update.symbol@,
            ),
            r matches Some(out) ==> {
                &&& out.path@ == depth_path(
                    self@.base_dir,
                    update.symbol@,
                    date_of(update.timestamp_ms),
                    time_utils::hour_of_day(update.timestamp_ms),
                )
                &&& out.row.last_update_id == update.last_update_id
                &&& out.row.csv_line@ == csv_rows::csv_line(
                    csv_rows::depth_update_columns(*update, iso_of(update.timestamp_ms)),
                )
            },
    {
        if !self.storage.should_persist_orderbook(update.symbol.as_str()) {
            return None;
        }
        let iso: String = Self::iso_utc(update.timestamp_ms);
        Some(
            DepthOutput {
                path: self.get_depth_update_path(update.symbol.as_str(), update.timestamp_ms),
                row: DepthUpdateRow {
                    last_update_id: update.last_update_id,
                    csv_line: csv_rows::depth_update_row(update, iso.as_str()),
                },
            },
        )
    }

    /// A trade: where it goes, unless trades of its symbol are not written.
    pub fn write_trade(
        &self,
        trade: &TradeCsv,
        price: &Option<String>,
        quantity: &Option<String>,
    ) -> (r: Option<RowOutput>)
        ensures
            r is None <==> crate::config::lists_symbol(
                self@.storage.disable_trade_persistence_for@,
                trade.symbol@,
            ),
            r matches Some(out) ==> {
                &&& out.path@ == self@.daily("trades"@, trade.symbol@, trade.timestamp_ms)
                &&& out.line@ == csv_rows::csv_line(
                    csv_rows::trade_columns(*trade, iso_of(trade.timestamp_ms), price, quantity),
                )
            },
    {
        if !self.storage.should_persist_trades(trade.symbol.as_str()) {
            return None;
        }
        let iso: String = Self::iso_utc(trade.timestamp_ms);
        Some(
            RowOutput {
                path: self.get_daily_file_path("trades", trade.symbol.as_str(), trade.timestamp_ms),
                line: csv_rows::trade_row(trade, iso.as_str(), price, quantity),
            },
        )
    }

    /// A kline: where it goes.
    pub fn write_kline(
        &self,
        kline: &KlineCsv,
        open: &Option<String>,
        high: &Option<String>,
        low: &Option<String>,
        close: &Option<String>,
        volume: &Option<String>,
        quote_volume: &Option<String>,
        taker_buy_base: &Option<String>,
        taker_buy_quote: &Option<String>,
    ) -> (r: RowOutput)
        ensures
            r.path@ == self@.daily("klines"@, kline.symbol@, kline.timestamp_ms),
            r.line@ == csv_rows::csv_line(
                csv_rows::kline_columns(*kline, iso_of(kline.timestamp_ms), open, high, low, close, volume, quote_volume, taker_buy_base, taker_buy_quote),
            ),
    {
        let iso: String = Self::iso_utc(kline.timestamp_ms);
        RowOutput {
            path: self.get_daily_file_path("klines", kline.symbol.as_str(), kline.timestamp_ms),
            line: csv_rows::kline_row(kline, iso.as_str(), open, high, low, close, volume, quote_volume, taker_buy_base, taker_buy_quote),
        }
    }

    /// A liquidation: where it goes.
    pub fn write_liquidation(
        &self,
        liquidation: &LiquidationCsv,
        price: &Option<String>,
        quantity: &Option<String>,
        value: &Option<String>,
    ) -> (r: RowOutput)
        ensures
            r.path@ == self@.daily("liquidations"@, liquidation.symbol@, liquidation.timestamp_ms),
            r.line@ == csv_rows::csv_line(
                csv_rows::liquidation_columns(*liquidation, iso_of(liquidation.timestamp_ms), price, quantity, value),
            ),
    {
        let iso: String = Self::iso_utc(liquidation.timestamp_ms);
        RowOutput {
            path: self.get_daily_file_path("liquidations", liquidation.symbol.as_str(), liquidation.timestamp_ms),
            line: csv_rows::liquidation_row(liquidation, iso.as_str(), price, quantity, value),
        }
    }

    /// A funding rate: where it goes.
    pub fn write_funding_rate(
        &self,
        rate: &FundingRateCsv,
        funding_rate: &Option<String>,
    ) -> (r: RowOutput)
        ensures
            r.path@ == self@.daily("funding_rates"@, rate.symbol@, rate.timestamp_ms),
            r.line@ == csv_rows::csv_line(
                csv_rows::funding_rate_columns(*rate, iso_of(rate.timestamp_ms), funding_rate),
            ),
    {
        let iso: String = Self::iso_utc(rate.timestamp_ms);
        RowOutput {
            path: self.get_daily_file_path("funding_rates", rate.symbol.as_str(), rate.timestamp_ms),
            line: csv_rows::funding_rate_row(rate, iso.as_str(), funding_rate),
        }
    }

    /// An open interest: where it goes.
    pub fn write_open_interest(
        &self,
        oi: &OpenInterestCsv,
        price: &Option<String>,
        open_interest: &Option<String>,
        oi_value: &Option<String>,
    ) -> (r: RowOutput)
        ensures
            r.path@ == self@.daily("open_interest"@, oi.symbol@, oi.timestamp_ms),
            r.line@ == csv_rows::csv_line(
                csv_rows::open_interest_columns(*oi, iso_of(oi.timestamp_ms), price, open_interest, oi_value),
            ),
    {
        let iso: String = Self::iso_utc(oi.timestamp_ms);
        RowOutput {
            path: self.get_daily_file_path("open_interest", oi.symbol.as_str(), oi.timestamp_ms),
            line: csv_rows::open_interest_row(oi, iso.as_str(), price, open_interest, oi_value),
        }
    }

    /// A long/short ratio: where it goes.
    pub fn write_long_short_ratio(
        &self,
        ratio: &LongShortRatioCsv,
        long_ratio: &Option<String>,
        short_ratio: &Option<String>,
        long_short_ratio: &Option<String>,
    ) -> (r: RowOutput)
        ensures
            r.path@ == self@.daily("long_short_ratio"@, ratio.symbol@, ratio.timestamp_ms),
            r.line@ == csv_rows::csv_line(
                csv_rows::long_short_ratio_columns(*ratio, iso_of(ratio.timestamp_ms), long_ratio, short_ratio, long_short_ratio),
            ),
    {
        let iso: String = Self::iso_utc(ratio.timestamp_ms);
        RowOutput {
            path: self.get_daily_file_path("long_short_ratio", ratio.symbol.as_str(), ratio.timestamp_ms),
            line: csv_rows::long_short_ratio_row(ratio, iso.as_str(), long_ratio, short_ratio, long_short_ratio),
        }
    }

    /// A kline of the mark price: where it goes.
    pub fn write_mark_price_kline(
        &self,
        kline: &MarkPriceKlineCsv,
        open: &Option<String>,
        high: &Option<String>,
        low: &Option<String>,
        close: &Option<String>,
    ) -> (r: RowOutput)
        ensures
            r.path@ == self@.daily("mark_price_klines"@, kline.symbol@, kline.timestamp_ms),
            r.line@ == csv_rows::csv_line(
                csv_rows::mark_price_kline_columns(*kline, iso_of(kline.timestamp_ms), open, high, low, close),
            ),
    {
        let iso: String = Self::iso_utc(kline.timestamp_ms);
        RowOutput {
            path: self.get_daily_file_path("mark_price_klines", kline.symbol.as_str(), kline.timestamp_ms),
            line: csv_rows::mark_price_kline_row(kline, iso.as_str(), open, high, low, close),
        }
    }

    /// A kline of the index price: where it goes.
    pub fn write_index_price_kline(
        &self,
        kline: &IndexPriceKlineCsv,
        open: &Option<String>,
        high: &Option<String>,
        low: &Option<String>,
        close: &Option<String>,
    ) -> (r: RowOutput)
        ensures
            r.path@ == self@.daily("index_price_klines"@, kline.symbol@, kline.timestamp_ms),
            r.line@ == csv_rows::csv_line(
                csv_rows::mark_price_kline_columns(*kline, iso_of(kline.timestamp_ms), open, high, low, close),
            ),
    {
        let iso: String = Self::iso_utc(kline.timestamp_ms);
        RowOutput {
            path: self.get_daily_file_path("index_price_klines", kline.symbol.as_str(), kline.timestamp_ms),
            line: csv_rows::mark_price_kline_row(kline, iso.as_str(), open, high, low, close),
        }
    }

    /// Taker volumes: where it goes.
    pub fn write_taker_buy_sell_ratio(
        &self,
        ratio: &TakerBuySellVolumeCsv,
        buy_volume: &Option<String>,
        sell_volume: &Option<String>,
        buy_sell_ratio: &Option<String>,
    ) -> (r: RowOutput)
        ensures
            r.path@ == self@.daily("taker_buy_sell_ratio"@, ratio.symbol@, ratio.timestamp_ms),
            r.line@ == csv_rows::csv_line(
                csv_rows::taker_buy_sell_ratio_columns(*ratio, iso_of(ratio.timestamp_ms), buy_volume, sell_volume, buy_sell_ratio),
            ),
    {
        let iso: String = Self::iso_utc(ratio.timestamp_ms);
        RowOutput {
            path: self.get_daily_file_path("taker_buy_sell_ratio", ratio.symbol.as_str(), ratio.timestamp_ms),
            line: csv_rows::taker_buy_sell_ratio_row(ratio, iso.as_str(), buy_volume, sell_volume, buy_sell_ratio),
        }
    }

    /// A kline of the premium index: where it goes.
    pub fn write_premium_index_kline(
        &self,
        kline: &PremiumIndexKlineCsv,
        open: &Option<String>,
        high: &Option<String>,
        low: &Option<String>,
        close: &Option<String>,
    ) -> (r: RowOutput)
        ensures
            r.path@ == self@.daily("premium_index_klines"@, kline.symbol@, kline.timestamp_ms),
            r.line@ == csv_rows::csv_line(
                csv_rows::premium_index_kline_columns(*kline, iso_of(kline.timestamp_ms), open, high, low, close),
            ),
    {
        let iso: String = Self::iso_utc(kline.timestamp_ms);
        RowOutput {
            path: self.get_daily_file_path("premium_index_klines", kline.symbol.as_str(), kline.timestamp_ms),
            line: csv_rows::premium_index_kline_row(kline, iso.as_str(), open, high, low, close),
        }
    }

    /// The levels of a snapshot: their rows, by file. `decimals` are the prices and
    /// quantities of the records.
    pub fn write_depth_snapshot(
        &self,
        snapshots: &Vec<DepthSnapshotCsv>,
        decimals: &Vec<(Option<String>, Option<String>)>,
    ) -> (r: Vec<FileGroup>)
        requires
            decimals.len() == snapshots.len(),
        ensures
            groups_hold(self@, snapshots@, decimals@, r@),
            forall|g: int| 0 <= g < r@.len() ==> (#[trigger] r@[g]).rows@.len() > 0,
    {
        let mut groups: Vec<FileGroup> = Vec::new();
        let mut i: usize = 0;
        assert(snapshots@.take(0) =~= seq![]);
        while i < snapshots.len()
            invariant
                i <= snapshots.len(),
                decimals.len() == snapshots.len(),
                groups_hold(self@, snapshots@.take(i as int), decimals@, groups@),
                forall|g: int| 0 <= g < groups@.len() ==> (#[trigger] groups@[g]).rows@.len() > 0,
            decreases snapshots.len() - i,
        {
            let record: &DepthSnapshotCsv = &snapshots[i];
            let path: String = self.get_snapshot_path(
                record.symbol.as_str(),
                record.event_type.as_str(),
                record.timestamp_ms,
            );
            let iso: String = Self::iso_utc(record.timestamp_ms);
            let line: String = csv_rows::depth_snapshot_row(
                record,
                iso.as_str(),
                &decimals[i].0,
                &decimals[i].1,
            );
            let ghost before = groups@;
            let ghost seen = snapshots@.take(i as int);
            let ghost next = snapshots@.take(i + 1);
            let ghost target = path@;
            let ghost added = line@;
            proof {
                assert(next.drop_last() =~= seen);
                assert(next[i as int] == snapshots@[i as int]);
                assert(target == snapshot_target(self@, next[i as int]));
                assert(added == snapshot_line(next[i as int], decimals@[i as int]));
            }
            let at: usize = find_group(&groups, path.as_str());
            if at < groups.len() {
                let mut group: FileGroup = groups.remove(at);
                let ghost rows = group.rows@;
                group.rows.push(line);
                assert(text::texts(group.rows@) =~= text::texts(rows).push(added));
                groups.insert(at, group);
                proof {
                    lemma_group_extended(
                        self@,
                        seen,
                        next,
                        decimals@,
                        before,
                        groups@,
                        at as int,
                        target,
                    );
                }
            } else {
                proof {
                    lemma_no_rows_without_group(self@, seen, decimals@, before, target);
                }
                let mut rows: Vec<String> = Vec::new();
                rows.push(line);
                assert(text::texts(rows@) =~= seq![added]);
                groups.push(FileGroup { path, rows });
                proof {
                    assert(rows_for(self@, next, decimals@, target) =~= seq![added]);
                    assert(groups@.drop_last() =~= before);
                    lemma_group_added(self@, seen, next, decimals@, before, groups@, target);
                }
            }
            i = i + 1;
        }
        assert(snapshots@.take(snapshots.len() as int) =~= snapshots@);
        groups
    }

    /// Whether a file is open.
    pub fn is_open(&self, path: &str) -> (r: bool)
        ensures
            r == self@.buffers.contains_key(path@),
    {
        buffer_known(&self.buffers, path)
    }

    /// Notes that a file was opened. Where it was opened before, nothing changes: one
    /// buffer alone ever writes a file.
    pub fn open_buffer(&mut self, path: &str, now: u64)
        ensures
            final(self)@ == (if old(self)@.buffers.contains_key(path@) {
                old(self)@
            } else {
                old(self)@.with_buffer(path@, fresh_buffer(path@, now))
            }),
    {
        if !buffer_known(&self.buffers, path) {
            let buffer: FileBuffer = FileBuffer::new(path, now);
            buffer_insert(&mut self.buffers, path, buffer);
        }
    }

    /// Buffers a row of an open depth update file. Returns whether the file must be flushed
    /// at once.
    pub fn buffer_depth_row(&mut self, path: &str, row: DepthUpdateRow, now: u64) -> (r: bool)
        ensures
            ({
                let held = old(self)@.buffers[path@];
                if old(self)@.buffers.contains_key(path@) && held.depth_rows is Some {
                    &&& final(self)@ == old(self)@.with_buffer(
                        path@,
                        one_depth_row_more(held, row, now),
                    )
                    &&& r == (held.depth_rows->0.len() + 1 >= old(self)@.max_depth_buffer_rows)
                } else {
                    final(self)@ == old(self)@ && !r
                }
            }),
    {
        match buffer_remove(&mut self.buffers, path) {
            Some(mut buffer) => {
                let full: bool = buffer.push_depth_row(row, self.max_depth_buffer_rows, now);
                buffer_insert(&mut self.buffers, path, buffer);
                proof {
                    let held = old(self)@.buffers[path@];
                    if held.depth_rows is Some {
                        assert(self@.buffers =~= old(self)@.buffers.insert(path@, buffer@));
                    } else {
                        assert(self@.buffers =~= old(self)@.buffers);
                    }
                }
                full
            },
            None => {
                assert(self@.buffers =~= old(self)@.buffers);
                false
            },
        }
    }

    /// Takes the buffered rows of a file out, sorted by id, to be written.
    pub fn begin_flush(&mut self, path: &str) -> (r: Vec<DepthUpdateRow>)
        ensures
            ({
                let held = old(self)@.buffers[path@];
                if old(self)@.buffers.contains_key(path@) && held.depth_rows is Some {
                    &&& final(self)@ == old(self)@.with_buffer(
                        path@,
                        BufferView { depth_rows: Some(seq![]), ..held },
                    )
                    &&& sorted_rows(held.depth_rows->0, r@)
                } else {
                    final(self)@ == old(self)@ && r@.len() == 0
                }
            }),
    {
        match buffer_remove(&mut self.buffers, path) {
            Some(mut buffer) => {
                let rows: Vec<DepthUpdateRow> = buffer.begin_flush();
                buffer_insert(&mut self.buffers, path, buffer);
                proof {
                    let held = old(self)@.buffers[path@];
                    if held.depth_rows is Some {
                        assert(self@.buffers =~= old(self)@.buffers.insert(path@, buffer@));
                    } else {
                        assert(self@.buffers =~= old(self)@.buffers);
                    }
                }
                rows
            },
            None => {
                assert(self@.buffers =~= old(self)@.buffers);
                Vec::new()
            },
        }
    }

    /// Puts the rows back that a failed flush did not write: those from `written` on.
    pub fn restore_rows(&mut self, path: &str, rows: &Vec<DepthUpdateRow>, written: usize)
        requires
            written <= rows.len(),
        ensures
            ({
                let held = old(self)@.buffers[path@];
                if old(self)@.buffers.contains_key(path@) && held.depth_rows is Some {
                    final(self)@ == old(self)@.with_buffer(
                        path@,
                        BufferView {
                            depth_rows: Some(held.depth_rows->0 + rows@.skip(written as int)),
                            ..held
                        },
                    )
                } else {
                    final(self)@ == old(self)@
                }
            }),
    {
        match buffer_remove(&mut self.buffers, path) {
            Some(mut buffer) => {
                buffer.restore_rows(rows, written);
                buffer_insert(&mut self.buffers, path, buffer);
                proof {
                    let held = old(self)@.buffers[path@];
                    if held.depth_rows is Some {
                        assert(self@.buffers =~= old(self)@.buffers.insert(path@, buffer@));
                    } else {
                        assert(self@.buffers =~= old(self)@.buffers);
                    }
                }
            },
            None => {
                assert(self@.buffers =~= old(self)@.buffers);
            },
        }
    }

    /// Notes that a file was flushed.
    pub fn end_flush(&mut self, path: &str, now: u64)
        ensures
            final(self)@ == (if old(self)@.buffers.contains_key(path@) {
                old(self)@.with_buffer(
                    path@,
                    BufferView { last_flush: now, ..old(self)@.buffers[path@] },
                )
            } else {
                old(self)@
            }),
    {
        match buffer_remove(&mut self.buffers, path) {
            Some(mut buffer) => {
                buffer.end_flush(now);
                buffer_insert(&mut self.buffers, path, buffer);
                assert(self@.buffers =~= old(self)@.buffers.insert(path@, buffer@));
            },
            None => {
                assert(self@.buffers =~= old(self)@.buffers);
            },
        }
    }

    /// Counts a row that was written to a file. Returns whether the file is to be flushed.
    pub fn row_written(&mut self, path: &str, now: u64) -> (r: bool)
        ensures
            ({
                let counted = one_row_more(old(self)@.buffers[path@], now);
                if old(self)@.buffers.contains_key(path@) {
                    &&& r == flush_due(counted, now, old(self)@.flush_interval)
                    &&& final(self)@ == old(self)@.with_buffer(path@, counted)
                } else {
                    final(self)@ == old(self)@ && !r
                }
            }),
    {
        match buffer_remove(&mut self.buffers, path) {
            Some(mut buffer) => {
                let due: bool = buffer.count_row(now, self.flush_interval);
                buffer_insert(&mut self.buffers, path, buffer);
                assert(self@.buffers =~= old(self)@.buffers.insert(path@, buffer@));
                due
            },
            None => {
                assert(self@.buffers =~= old(self)@.buffers);
                false
            },
        }
    }

    /// Notes that the rows written to a file so far were flushed.
    pub fn rows_flushed(&mut self, path: &str, now: u64)
        ensures
            final(self)@ == (if old(self)@.buffers.contains_key(path@) {
                old(self)@.with_buffer(
                    path@,
                    BufferView { row_count: 0, last_flush: now, ..old(self)@.buffers[path@] },
                )
            } else {
                old(self)@
            }),
    {
        match buffer_remove(&mut self.buffers, path) {
            Some(mut buffer) => {
                buffer.rows_flushed(now);
                buffer_insert(&mut self.buffers, path, buffer);
                assert(self@.buffers =~= old(self)@.buffers.insert(path@, buffer@));
            },
            None => {
                assert(self@.buffers =~= old(self)@.buffers);
            },
        }
    }

    /// Closes a file: its buffer is handed out, if there is one, to be flushed a last time.
    pub fn finalize_file(&mut self, path: &str) -> (r: Option<FileBuffer>)
        ensures
            r is Some <==> old(self)@.buffers.contains_key(path@),
            r matches Some(buffer) ==> buffer@ == old(self)@.buffers[path@],
            final(self)@ == (WriterView {
                buffers: old(self)@.buffers.remove(path@),
                ..old(self)@
            }),
    {
        buffer_remove(&mut self.buffers, path)
    }

    /// The open files that a filter accepts.
    fn select(&self, filter: &PathFilter) -> (r: Vec<String>)
        requires
            filter.valid(),
        ensures
            lists_paths(
                self@.buffers.dom().filter(
                    |p: Seq<char>| filter.accepts(p, self@.buffers[p].last_write),
                ),
                r@,
            ),
    {
        let list: Vec<(String, u64)> = buffer_list(&self.buffers);
        let ghost times = write_times(self@.buffers);
        let mut out: Vec<String> = Vec::new();
        let mut i: usize = 0;
        assert(text::texts(out@) =~= seq![]);
        while i < list.len()
            invariant
                i <= list.len(),
                filter.valid(),
                times == write_times(self@.buffers),
                crate::symbol_maps::lists_entries(times, list@),
                text::texts(out@).no_duplicates(),
                forall|k: int, m: int|
                    0 <= k < out.len() && i <= m < list.len() ==> (#[trigger] out@[k])@ != (
                    #[trigger] list@[m]).0@,
                forall|k: int|
                    0 <= k < out.len() ==> times.contains_key((#[trigger] out@[k])@)
                        && filter.accepts(out@[k]@, times[out@[k]@]),
                forall|m: int|
                    0 <= m < i && filter.accepts((#[trigger] list@[m]).0@, list@[m].1)
                        ==> text::texts(out@).contains(list@[m].0@),
            decreases list.len() - i,
        {
            let ghost name = list@[i as int].0@;
            assert(times.contains_key(name) && times[name] == list@[i as int].1);
            if filter.test(list[i].0.as_str(), list[i].1) {
                let ghost before = out@;
                out.push(list[i].0.clone());
                proof {
                    let was = text::texts(before);
                    let is = text::texts(out@);
                    assert(is =~= was.push(name));
                    assert forall|m: int|
                        0 <= m < i && filter.accepts(
                            (#[trigger] list@[m]).0@,
                            list@[m].1,
                        ) implies is.contains(list@[m].0@) by {
                        let k = choose|k: int| 0 <= k < was.len() && was[k] == list@[m].0@;
                        assert(is[k] == list@[m].0@);
                    }
                    assert(is[was.len() as int] == name);
                    assert forall|j: int, k: int| 0 <= j < k < is.len() implies is[j] != is[k] by {
                        if k == was.len() {
                            assert(before[j]@ != list@[i as int].0@);
                        } else {
                            assert(was[j] != was[k]);
                        }
                    }
                }
            }
            i = i + 1;
        }
        proof {
            let chosen = text::texts(out@).to_set();
            let due = self@.buffers.dom().filter(
                |p: Seq<char>| filter.accepts(p, self@.buffers[p].last_write),
            );
            assert forall|p: Seq<char>| chosen.contains(p) <==> due.contains(p) by {
                if chosen.contains(p) {
                    let k = choose|k: int|
                        0 <= k < text::texts(out@).len() && text::texts(out@)[k] == p;
                    assert(times.contains_key(out@[k]@));
                }
                if due.contains(p) {
                    assert(times.contains_key(p));
                    let m = choose|m: int| 0 <= m < list.len() && (#[trigger] list@[m]).0@ == p;
                    assert(filter.accepts(list@[m].0@, list@[m].1));
                }
            }
            assert(chosen =~= due);
        }
        out
    }

    /// The open files.
    pub fn flush_all(&self) -> (r: Vec<String>)
        ensures
            lists_paths(self@.buffers.dom(), r@),
    {
        let r: Vec<String> = self.select(&PathFilter::All);
        proof {
            let filter = PathFilter::All;
            assert(self@.buffers.dom().filter(
                |p: Seq<char>| filter.accepts(p, self@.buffers[p].last_write),
            ) =~= self@.buffers.dom());
        }
        r
    }

    /// The open files whose path names a symbol.
    pub fn flush_symbol(&self, symbol: &str) -> (r: Vec<String>)
        ensures
            lists_paths(
                self@.buffers.dom().filter(|p: Seq<char>| text::contains_text(p, symbol@)),
                r@,
            ),
    {
        let filter: PathFilter = PathFilter::Naming(symbol.to_owned());
        let r: Vec<String> = self.select(&filter);
        assert(self@.buffers.dom().filter(
            |p: Seq<char>| filter.accepts(p, self@.buffers[p].last_write),
        ) =~= self@.buffers.dom().filter(|p: Seq<char>| text::contains_text(p, symbol@)));
        r
    }

    /// The open files that are to be closed on the day `today`: those of another day, and
    /// those that nothing was written to for half an hour.
    pub fn stale_buffers(&self, today: &str, now: u64) -> (r: Vec<String>)
        ensures
            lists_paths(
                self@.buffers.dom().filter(
                    |p: Seq<char>| is_stale_buffer(p, today@, self@.buffers[p].last_write, now),
                ),
                r@,
            ),
    {
        let filter: PathFilter = PathFilter::Stale { today: today.to_owned(), now };
        let r: Vec<String> = self.select(&filter);
        assert(self@.buffers.dom().filter(
            |p: Seq<char>| filter.accepts(p, self@.buffers[p].last_write),
        ) =~= self@.buffers.dom().filter(
            |p: Seq<char>| is_stale_buffer(p, today@, self@.buffers[p].last_write, now),
        ));
        r
    }

    /// The open files that are to be closed at `now_ms`: those of another day than the
    /// present one, and those that nothing was written to for half an hour.
    pub fn cleanup_stale_buffers(&self, now_ms: i64, now: u64) -> (r: Vec<String>)
        ensures
            lists_paths(
                self@.buffers.dom().filter(
                    |p: Seq<char>|
                        is_stale_buffer(p, date_of(now_ms), self@.buffers[p].last_write, now),
                ),
                r@,
            ),
    {
        let today: String = time_utils::format_utc(now_ms, "%Y-%m-%d");
        self.stale_buffers(today.as_str(), now)
    }

    /// The open depth update files of the hour before that of `now_ms`, which are complete.
    pub fn hourly_rotation(&self, now_ms: i64) -> (r: Vec<String>)
        ensures
            lists_paths(
                self@.buffers.dom().filter(
                    |p: Seq<char>| is_rotated(p, time_utils::hour_of_day(now_ms)),
                ),
                r@,
            ),
    {
        let hour: u32 = time_utils::hour_of(now_ms);
        let filter: PathFilter = PathFilter::Rotated(hour);
        let r: Vec<String> = self.select(&filter);
        assert(self@.buffers.dom().filter(
            |p: Seq<char>| filter.accepts(p, self@.buffers[p].last_write),
        ) =~= self@.buffers.dom().filter(
            |p: Seq<char>| is_rotated(p, time_utils::hour_of_day(now_ms)),
        ));
        r
    }
}

/// Which open files are meant.
enum PathFilter {
    All,
    Naming(String),
    Stale { today: String, now: u64 },
    Rotated(u32),
}

impl PathFilter {
    spec fn valid(&self) -> bool {
        match self {
            PathFilter::Rotated(hour) => *hour < 24,
            _ => true,
        }
    }

    spec fn accepts(&self, path: Seq<char>, last_write: u64) -> bool {
        match self {
            PathFilter::All => true,
            PathFilter::Naming(symbol) => text::contains_text(path, symbol@),
            PathFilter::Stale { today, now } => is_stale_buffer(path, today@, last_write, *now),
            PathFilter::Rotated(hour) => is_rotated(path, *hour as int),
        }
    }

    fn test(&self, path: &str, last_write: u64) -> (r: bool)
        requires
            self.valid(),
        ensures
            r == self.accepts(path@, last_write),
    {
        match self {
            PathFilter::All => true,
            PathFilter::Naming(symbol) => contains(path, symbol.as_str()),
            PathFilter::Stale { today, now } => {
                let other_day: bool = match other_date_dir(path, today.as_str()) {
                    Some(dir) => time_utils::parses_as_date(dir.as_str()),
                    None => false,
                };
                closes_buffer(other_day, last_write, *now)
            },
            PathFilter::Rotated(hour) => {
                let mut span: String = String::new();
                push_hour_span(&mut span, (*hour + 23) % 24, *hour);
                assert(span@ =~= hour_span((*hour + 23) % 24, *hour as int));
                contains(path, "depth_updates") && contains(path, span.as_str())
            },
        }
    }
}

/// Whether a buffer is closed: its file is of another day, or nothing was written to it
/// for too long.
pub fn closes_buffer(other_day: bool, last_write: u64, now: u64) -> (r: bool)
    ensures
        r == (other_day || (last_write <= now && now - last_write > IDLE_NANOS)),
{
    other_day || now.saturating_sub(last_write) > IDLE_NANOS
}

/// Where the group of a file stands; past the end when there is none.
fn find_group(groups: &Vec<FileGroup>, path: &str) -> (r: usize)
    ensures
        r <= groups.len(),
        r < groups.len() ==> groups@[r as int].path@ == path@,
        r == groups.len() ==> !has_group(groups@, path@),
{
    let mut i: usize = 0;
    while i < groups.len()
        invariant
            i <= groups.len(),
            forall|k: int| 0 <= k < i ==> (#[trigger] groups@[k]).path@ != path@,
        decreases groups.len() - i,
    {
        if text_eq(groups[i].path.as_str(), path) {
            return i;
        }
        i = i + 1;
    }
    i
}

/// A record adds a row to the group of its file and to no other.
proof fn lemma_group_extended(
    writer: WriterView,
    seen: Seq<DepthSnapshotCsv>,
    next: Seq<DepthSnapshotCsv>,
    decimals: Seq<(Option<String>, Option<String>)>,
    before: Seq<FileGroup>,
    after: Seq<FileGroup>,
    at: int,
    target: Seq<char>,
)
    requires
        groups_hold(writer, seen, decimals, before),
        next.len() == seen.len() + 1,
        next.drop_last() == seen,
        target == snapshot_target(writer, next.last()),
        0 <= at < before.len(),
        before[at].path@ == target,
        after.len() == before.len(),
        after[at].path@ == target,
        text::texts(after[at].rows@) == text::texts(before[at].rows@).push(
            snapshot_line(next.last(), decimals[seen.len() as int]),
        ),
        forall|g: int| 0 <= g < after.len() && g != at ==> #[trigger] after[g] == before[g],
    ensures
        groups_hold(writer, next, decimals, after),
{
    assert forall|g: int| 0 <= g < after.len() implies text::texts((#[trigger] after[g]).rows@)
        == rows_for(writer, next, decimals, after[g].path@) by {
        assert(text::texts(before[g].rows@) == rows_for(writer, seen, decimals, before[g].path@));
        if g != at {
            assert(before[g].path@ != before[at].path@);
        }
    }
    assert forall|g: int, h: int| 0 <= g < h < after.len() implies (#[trigger] after[g]).path@ != (
    #[trigger] after[h]).path@ by {
        assert(before[g].path@ != before[h].path@);
    }
    assert forall|i: int| 0 <= i < next.len() implies has_group(
        after,
        snapshot_target(writer, #[trigger] next[i]),
    ) by {
        if i < seen.len() {
            assert(next[i] == seen[i]);
            assert(has_group(before, snapshot_target(writer, seen[i])));
            let g = choose|g: int|
                0 <= g < before.len() && (#[trigger] before[g]).path@ == snapshot_target(
                    writer,
                    seen[i],
                );
            assert(after[g].path@ == before[g].path@);
        } else {
            assert(after[at].path@ == target);
        }
    }
}

/// A record of a new file gets a group of its own.
proof fn lemma_group_added(
    writer: WriterView,
    seen: Seq<DepthSnapshotCsv>,
    next: Seq<DepthSnapshotCsv>,
    decimals: Seq<(Option<String>, Option<String>)>,
    before: Seq<FileGroup>,
    after: Seq<FileGroup>,
    target: Seq<char>,
)
    requires
        groups_hold(writer, seen, decimals, before),
        !has_group(before, target),
        next.len() == seen.len() + 1,
        next.drop_last() == seen,
        target == snapshot_target(writer, next.last()),
        after.len() == before.len() + 1,
        after.drop_last() == before,
        after.last().path@ == target,
        text::texts(after.last().rows@) == rows_for(writer, next, decimals, target),
    ensures
        groups_hold(writer, next, decimals, after),
{
    let n = before.len() as int;
    assert forall|g: int| 0 <= g < after.len() implies text::texts((#[trigger] after[g]).rows@)
        == rows_for(writer, next, decimals, after[g].path@) by {
        if g < n {
            assert(after[g] == before[g]);
            assert(text::texts(before[g].rows@) == rows_for(
                writer,
                seen,
                decimals,
                before[g].path@,
            ));
            assert(before[g].path@ != target);
        }
    }
    assert forall|g: int, h: int| 0 <= g < h < after.len() implies (#[trigger] after[g]).path@ != (
    #[trigger] after[h]).path@ by {
        assert(after[g] == before[g]);
        if h < n {
            assert(after[h] == before[h]);
        } else {
            assert(before[g].path@ != target);
        }
    }
    assert forall|i: int| 0 <= i < next.len() implies has_group(
        after,
        snapshot_target(writer, #[trigger] next[i]),
    ) by {
        if i < seen.len() {
            assert(next[i] == seen[i]);
            assert(has_group(before, snapshot_target(writer, seen[i])));
            let g = choose|g: int|
                0 <= g < before.len() && (#[trigger] before[g]).path@ == snapshot_target(
                    writer,
                    seen[i],
                );
            assert(after[g] == before[g]);
        } else {
            assert(after[n].path@ == target);
        }
    }
}

/// A file without a group has no rows.
proof fn lemma_no_rows_without_group(
    writer: WriterView,
    seen: Seq<DepthSnapshotCsv>,
    decimals: Seq<(Option<String>, Option<String>)>,
    groups: Seq<FileGroup>,
    path: Seq<char>,
)
    requires
        forall|i: int|
            0 <= i < seen.len() ==> has_group(
                groups,
                snapshot_target(writer, #[trigger] seen[i]),
            ),
        !has_group(groups, path),
    ensures
        rows_for(writer, seen, decimals, path) == Seq::<Seq<char>>::empty(),
    decreases seen.len(),
{
    if seen.len() > 0 {
        let front = seen.drop_last();
        assert forall|i: int| 0 <= i < front.len() implies has_group(
            groups,
            snapshot_target(writer, #[trigger] front[i]),
        ) by {
            assert(front[i] == seen[i]);
        }
        assert(has_group(groups, snapshot_target(writer, seen[seen.len() - 1])));
        lemma_no_rows_without_group(writer, front, decimals, groups, path);
    }
}

/// A part of a path: not empty, and with no slash at either end.
pub open spec fn is_part(part: Seq<char>) -> bool {
    part.len() > 0 && part[0] != '/' && part.last() != '/'
}

/// Daily files stand under their kind, symbol and date, and are named by symbol, kind and
/// date.
pub proof fn daily_files_stand_by_kind_symbol_and_date(
    base: Seq<char>,
    kind: Seq<char>,
    symbol: Seq<char>,
    date: Seq<char>,
)
    requires
        base.len() > 0 && base.last() != '/',
        is_part(kind),
        is_part(symbol),
        is_part(date),
    ensures
        (kind == "trades"@ || kind == "klines"@ || kind == "liquidations"@ || kind == "funding_rates"@ || kind == "open_interest"@ || kind == "long_short_ratio"@ || kind == "mark_price_klines"@ || kind == "index_price_klines"@ || kind == "taker_buy_sell_ratio"@ || kind == "premium_index_klines"@) ==> daily_path(
            base,
            kind,
            symbol,
            date,
        ) == base + seq!['/'] + kind + seq!['/'] + symbol + seq!['/'] + date + seq!['/'] + (symbol
            + "_"@ + kind + "_"@ + date + ".csv"@),
        !(kind == "trades"@ || kind == "klines"@ || kind == "liquidations"@ || kind == "funding_rates"@ || kind == "open_interest"@ || kind == "long_short_ratio"@ || kind == "mark_price_klines"@ || kind == "index_price_klines"@ || kind == "taker_buy_sell_ratio"@ || kind == "premium_index_klines"@) ==> daily_path(
            base,
            kind,
            symbol,
            date,
        ) == base + seq!['/'] + kind + seq!['/'] + symbol + seq!['/'] + date + seq!['/'] + (symbol
            + "_"@ + date + ".csv"@),
{
    lemma_dated_dir(base, kind, symbol, date);
}

/// Depth updates stand with the order books of their symbol and date, in a file for the
/// hour: from the full hour to the next, the last of a day ending at midnight.
pub proof fn depth_files_stand_by_the_hour(
    base: Seq<char>,
    symbol: Seq<char>,
    date: Seq<char>,
    hour: int,
)
    requires
        base.len() > 0 && base.last() != '/',
        is_part(symbol),
        is_part(date),
        0 <= hour < 24,
    ensures
        depth_path(base, symbol, date, hour) == base + seq!['/'] + "orderbooks"@ + seq!['/'] + symbol
            + seq!['/'] + date + seq!['/'] + (symbol + "_depth_updates_"@ + date + "_"@ + (two_digits(
            hour,
        ) + "00-to-"@ + two_digits(
            if hour == 23 {
                0
            } else {
                hour + 1
            },
        ) + "00"@) + ".csv"@),
{
    reveal_strlit("orderbooks");
    lemma_dated_dir(base, "orderbooks"@, symbol, date);
}

/// Snapshots stand with the order books of their symbol and date: the first ones each in
/// a file of its own, the others in one for the day.
pub proof fn snapshot_files_stand_by_the_day(
    base: Seq<char>,
    symbol: Seq<char>,
    event_type: Seq<char>,
    date: Seq<char>,
    time: Seq<char>,
    timestamp: i64,
)
    requires
        base.len() > 0 && base.last() != '/',
        is_part(symbol),
        is_part(date),
    ensures
        event_type == "depth_snapshot_initial"@ ==> snapshot_path(
            base,
            symbol,
            event_type,
            date,
            time,
            timestamp,
        ) == base + seq!['/'] + "orderbooks"@ + seq!['/'] + symbol + seq!['/'] + date + seq!['/'] + (
        symbol + "_depth_snapshot_initial_"@ + time + "_"@ + text::signed_decimal(timestamp as int)
            + ".csv"@),
        event_type != "depth_snapshot_initial"@ ==> snapshot_path(
            base,
            symbol,
            event_type,
            date,
            time,
            timestamp,
        ) == base + seq!['/'] + "orderbooks"@ + seq!['/'] + symbol + seq!['/'] + date + seq!['/'] + (
        symbol + "_depth_snapshot_"@ + date + ".csv"@),
{
    reveal_strlit("orderbooks");
    lemma_dated_dir(base, "orderbooks"@, symbol, date);
}

proof fn lemma_dated_dir(base: Seq<char>, kind: Seq<char>, symbol: Seq<char>, date: Seq<char>)
    requires
        base.len() > 0 && base.last() != '/',
        is_part(kind),
        is_part(symbol),
        is_part(date),
    ensures
        dated_dir(base, kind, symbol, date) == base + seq!['/'] + kind + seq!['/'] + symbol
            + seq!['/'] + date,
        dated_dir(base, kind, symbol, date).last() != '/',
{
    let by_kind = base + seq!['/'] + kind;
    assert(joined(base, kind) == by_kind);
    assert(by_kind.last() == kind.last());
    let by_symbol = by_kind + seq!['/'] + symbol;
    assert(joined(by_kind, symbol) == by_symbol);
    assert(by_symbol.last() == symbol.last());
    assert((by_symbol + seq!['/'] + date).last() == date.last());
}

/// The last part of a path is what stands behind its last slash; empty parts and single dots
/// are passed over.
pub proof fn parts_are_taken_off_the_end(front: Seq<char>, part: Seq<char>)
    requires
        !part.contains('/'),
    ensures
        part.len() > 0 && part != "."@ ==> last_part(front + seq!['/'] + part) == Some((front, part)),
        part.len() == 0 || part == "."@ ==> last_part(front + seq!['/'] + part) == last_part(front),
        part.len() > 0 && part != "."@ ==> last_part(part) == Some((Seq::<char>::empty(), part)),
        part.len() == 0 || part == "."@ ==> last_part(part) is None,
{
    let path = front + seq!['/'] + part;
    let n = front.len() as int + 1;
    assert(path[n - 1] == '/');
    assert forall|k: int| n <= k < path.len() implies #[trigger] path[k] != '/' by {
        assert(path[k] == part[k - n]);
        assert(part.contains(part[k - n]));
    }
    text::last_separator_is_found(path, '/');
    let rest = text::after_last(path, '/')->0;
    assert(rest.len() == part.len()) by {
        let m = path.len() - rest.len();
        if m < n {
            assert(rest[n - 1 - m] == path[n - 1]);
            assert(rest.contains('/'));
        }
        if m > n {
            assert(path[m - 1] == '/');
        }
    }
    assert(rest =~= part);
    assert(path.take(path.len() - part.len() - 1) =~= front);
    text::last_separator_is_found(part, '/');
}

/// A file in the directory of another day is closed.
pub proof fn files_of_other_days_are_closed(
    front: Seq<char>,
    date: Seq<char>,
    name: Seq<char>,
    today: Seq<char>,
    last_write: u64,
    now: u64,
)
    requires
        !date.contains('/') && date.len() > 0 && date != "."@ && date != ".."@,
        !name.contains('/') && name.len() > 0 && name != "."@,
        date != today,
        time_utils::is_date(date),
        !text::contains_text(front + seq!['/'] + date + seq!['/'] + name, today),
    ensures
        is_stale_buffer(front + seq!['/'] + date + seq!['/'] + name, today, last_write, now),
{
    parts_are_taken_off_the_end(front + seq!['/'] + date, name);
    parts_are_taken_off_the_end(front, date);
}

/// The name of a file is the last part of its path; a path that ends in two dots has none.
pub proof fn names_are_last_parts(front: Seq<char>, name: Seq<char>)
    requires
        !name.contains('/') && name.len() > 0 && name != "."@,
    ensures
        name != ".."@ ==> file_name(front + seq!['/'] + name) == name,
        name == ".."@ ==> file_name(front + seq!['/'] + name).len() == 0,
{
    parts_are_taken_off_the_end(front, name);
}

/// Two digits tell a number below a hundred, with a zero ahead of a single one.
pub proof fn two_digits_are_padded(n: int)
    requires
        0 <= n < 100,
    ensures
        n < 10 ==> two_digits(n) == seq!['0'] + text::decimal(n as nat),
        n >= 10 ==> two_digits(n) == text::decimal(n as nat),
{
    reveal_with_fuel(text::decimal, 2);
    assert(n < 10 ==> two_digits(n) =~= seq!['0'] + text::decimal(n as nat));
    assert(n >= 10 ==> two_digits(n) =~= text::decimal(n as nat));
}

/// The hours of a day have different spans.
pub proof fn hours_have_spans_of_their_own(a: int, b: int)
    requires
        0 <= a < 24,
        0 <= b < 24,
        hour_span(a, (a + 1) % 24) == hour_span(b, (b + 1) % 24),
    ensures
        a == b,
{
    let x = hour_span(a, (a + 1) % 24);
    let y = hour_span(b, (b + 1) % 24);
    assert(x[0] == two_digits(a)[0] && x[1] == two_digits(a)[1]);
    assert(y[0] == two_digits(b)[0] && y[1] == two_digits(b)[1]);
    assert(two_digits(a)[0] as nat == 48 + a / 10);
    assert(two_digits(b)[0] as nat == 48 + b / 10);
    assert(two_digits(a)[1] as nat == 48 + a % 10);
    assert(two_digits(b)[1] as nat == 48 + b % 10);
}

/// Only files of depth updates are rotated.
pub proof fn other_files_are_not_rotated(path: Seq<char>, hour: int)
    requires
        !text::contains_text(path, "depth_updates"@),
    ensures
        !is_rotated(path, hour),
{
}

/// A file is due after a thousand rows, or once the interval has passed since the last
/// flush, and not before.
pub proof fn a_thousand_rows_are_flushed(buffer: BufferView, now: u64, interval: u64)
    ensures
        buffer.row_count >= 999 ==> flush_due(one_row_more(buffer, now), now, interval),
        buffer.last_flush + interval <= now ==> flush_due(one_row_more(buffer, now), now, interval),
        buffer.row_count < 999 && now < buffer.last_flush + interval && interval > 0 ==> !flush_due(
            one_row_more(buffer, now),
            now,
            interval,
        ),
        one_row_more(buffer, now).last_write == now,
        one_row_more(buffer, now).last_flush == buffer.last_flush,
        one_row_more(buffer, now).depth_rows == buffer.depth_rows,
        buffer.row_count < usize::MAX ==> one_row_more(buffer, now).row_count == buffer.row_count + 1,
{
}

/// Rows of depth updates are kept in the order in which they come, with what was kept
/// before; a file that keeps none is left as it is.
pub proof fn depth_rows_are_kept_in_order(buffer: BufferView, row: DepthUpdateRow, now: u64)
    ensures
        buffer.depth_rows matches Some(rows) ==> {
            &&& one_depth_row_more(buffer, row, now).depth_rows matches Some(kept)
            &&& kept.len() == rows.len() + 1
            &&& kept.last() == row
            &&& forall|i: int| 0 <= i < rows.len() ==> #[trigger] kept[i] == rows[i]
            &&& one_depth_row_more(buffer, row, now).last_write == now
            &&& one_depth_row_more(buffer, row, now).last_flush == buffer.last_flush
            &&& one_depth_row_more(buffer, row, now).row_count == buffer.row_count
        },
        buffer.depth_rows is None ==> one_depth_row_more(buffer, row, now) == buffer,
{
}

/// A new file starts with nothing pending, at the time of its opening; it keeps rows back
/// exactly where it is one of depth updates.
pub proof fn new_files_hold_nothing(path: Seq<char>, now: u64)
    ensures
        fresh_buffer(path, now).row_count == 0,
        fresh_buffer(path, now).last_flush == now,
        fresh_buffer(path, now).last_write == now,
        fresh_buffer(path, now).depth_rows is Some <==> text::contains_text(
            path,
            "depth_updates"@,
        ),
        fresh_buffer(path, now).depth_rows matches Some(rows) ==> rows.len() == 0,
{
}

/// What the header of a file tells, by what its name holds.
pub proof fn headers_name_the_columns(name: Seq<char>)
    ensures
        text::contains_text(name, "depth_updates"@) ==> header_of(name)
            == "exchange,market,datatype,timestamp_ms,datetime_utc,symbol,first_update_id,last_update_id,prev_update_id,bids_json,asks_json"@,
        !text::contains_text(name, "depth_updates"@) ==> {
            &&& text::contains_text(name, "depth_snapshot"@) ==> header_of(name)
                == "exchange,market,datatype,timestamp_ms,datetime_utc,symbol,event_type,side,price,quantity,last_update_id"@
            &&& !text::contains_text(name, "depth_snapshot"@) && text::contains_text(
                name,
                "trades"@,
            ) ==> header_of(name)
                == "exchange,market,datatype,timestamp_ms,datetime_utc,symbol,trade_id,side,price,quantity,is_buyer_maker,first_update_id,last_update_id"@
        },
        names_only(name, "klines"@) ==> header_of(name)
            == "exchange,market,datatype,timestamp_ms,datetime_utc,symbol,open,high,low,close,volume,quote_volume,trade_count,taker_buy_base,taker_buy_quote"@,
        names_only(name, "liquidations"@) ==> header_of(name)
            == "exchange,market,datatype,timestamp_ms,datetime_utc,symbol,side,price,quantity,value"@,
        names_only(name, "funding_rates"@) ==> header_of(name)
            == "exchange,market,datatype,timestamp_ms,datetime_utc,symbol,funding_rate,next_funding_time"@,
        names_only(name, "open_interest"@) ==> header_of(name)
            == "exchange,market,datatype,timestamp_ms,datetime_utc,symbol,mark_price,open_interest,oi_value"@,
        names_only(name, "taker_buy_sell_ratio"@) ==> header_of(name)
            == "exchange,market,datatype,timestamp_ms,datetime_utc,symbol,period,buy_volume,sell_volume,buy_sell_ratio"@,
        names_only(name, "long_short_ratio"@) ==> header_of(name)
            == "exchange,market,datatype,timestamp_ms,datetime_utc,symbol,period,ratio_type,long_ratio,short_ratio,long_short_ratio"@,
        names_klines_of(name, "mark_price"@) ==> header_of(name)
            == "exchange,market,datatype,timestamp_ms,datetime_utc,symbol,open,high,low,close"@,
        names_klines_of(name, "index_price"@) ==> header_of(name)
            == "exchange,market,datatype,timestamp_ms,datetime_utc,symbol,open,high,low,close"@,
        names_klines_of(name, "premium_index"@) ==> header_of(name)
            == "exchange,market,datatype,timestamp_ms,datetime_utc,symbol,open,high,low,close"@,
        names_nothing_known(name) ==> header_of(name)
            == "exchange,market,datatype,timestamp_ms,datetime_utc,symbol"@,
{
    reveal_strlit("depth_updates");
    reveal_strlit("depth_snapshot");
    reveal_strlit("trades");
    reveal_strlit("klines");
    reveal_strlit("mark_price");
    reveal_strlit("index_price");
    reveal_strlit("premium_index");
    reveal_strlit("mark_price_klines");
    reveal_strlit("index_price_klines");
    reveal_strlit("premium_index_klines");
    reveal_strlit("liquidations");
    reveal_strlit("funding_rates");
    reveal_strlit("open_interest");
    reveal_strlit("taker_buy_sell_ratio");
    reveal_strlit("long_short_ratio");
    assert("depth_updates"@.len() == 13 && "depth_updates"@[0] == 'd');
    assert("depth_snapshot"@.len() == 14 && "depth_snapshot"@[0] == 'd');
    assert("trades"@.len() == 6 && "trades"@[0] == 't');
    assert("klines"@.len() == 6 && "klines"@[0] == 'k');
    assert("mark_price"@.len() == 10 && "mark_price"@[0] == 'm');
    assert("index_price"@.len() == 11 && "index_price"@[0] == 'i');
    assert("premium_index"@.len() == 13 && "premium_index"@[0] == 'p');
    assert("mark_price_klines"@.len() == 17 && "mark_price_klines"@[0] == 'm');
    assert("index_price_klines"@.len() == 18 && "index_price_klines"@[0] == 'i');
    assert("premium_index_klines"@.len() == 20 && "premium_index_klines"@[0] == 'p');
    assert("liquidations"@.len() == 12 && "liquidations"@[0] == 'l');
    assert("funding_rates"@.len() == 13 && "funding_rates"@[0] == 'f');
    assert("open_interest"@.len() == 13 && "open_interest"@[0] == 'o');
    assert("taker_buy_sell_ratio"@.len() == 20 && "taker_buy_sell_ratio"@[0] == 't');
    assert("long_short_ratio"@.len() == 16 && "long_short_ratio"@[0] == 'l');
}

/// A name that holds this kind and no other.
pub open spec fn names_only(name: Seq<char>, kind: Seq<char>) -> bool {
    &&& text::contains_text(name, kind)
    &&& forall|other: Seq<char>|
        other != kind && is_kind(other) ==> !#[trigger] text::contains_text(name, other)
}

/// A name that holds klines of one of the prices, and nothing else.
pub open spec fn names_klines_of(name: Seq<char>, price: Seq<char>) -> bool {
    &&& text::contains_text(name, "klines"@)
    &&& text::contains_text(name, price)
    &&& price == "mark_price"@ ==> text::contains_text(name, "mark_price_klines"@)
    &&& price == "index_price"@ ==> text::contains_text(name, "index_price_klines"@)
    &&& price == "premium_index"@ ==> text::contains_text(name, "premium_index_klines"@)
    &&& !text::contains_text(name, "depth_updates"@)
    &&& !text::contains_text(name, "depth_snapshot"@)
    &&& !text::contains_text(name, "trades"@)
    &&& !text::contains_text(name, "liquidations"@)
    &&& !text::contains_text(name, "funding_rates"@)
    &&& !text::contains_text(name, "open_interest"@)
    &&& !text::contains_text(name, "taker_buy_sell_ratio"@)
    &&& !text::contains_text(name, "long_short_ratio"@)
}

/// A name that holds none of the kinds.
pub open spec fn names_nothing_known(name: Seq<char>) -> bool {
    forall|other: Seq<char>| is_kind(other) ==> !#[trigger] text::contains_text(name, other)
}

/// The words by which file names tell the kind of their rows.
pub open spec fn is_kind(kind: Seq<char>) -> bool {
    ||| kind == "depth_updates"@
    ||| kind == "depth_snapshot"@
    ||| kind == "trades"@
    ||| kind == "klines"@
    ||| kind == "mark_price"@
    ||| kind == "index_price"@
    ||| kind == "premium_index"@
    ||| kind == "mark_price_klines"@
    ||| kind == "index_price_klines"@
    ||| kind == "premium_index_klines"@
    ||| kind == "liquidations"@
    ||| kind == "funding_rates"@
    ||| kind == "open_interest"@
    ||| kind == "taker_buy_sell_ratio"@
    ||| kind == "long_short_ratio"@
}

/// The rows of a file are found level by level, in their order, each from its own price and
/// quantity.
pub proof fn snapshot_rows_keep_their_order(
    writer: WriterView,
    first: Seq<DepthSnapshotCsv>,
    rest: Seq<DepthSnapshotCsv>,
    decimals: Seq<(Option<String>, Option<String>)>,
    path: Seq<char>,
)
    requires
        decimals.len() == first.len() + rest.len(),
    ensures
        rows_for(writer, first + rest, decimals, path) == rows_for(
            writer,
            first,
            decimals.take(first.len() as int),
            path,
        ) + rows_for(writer, rest, decimals.skip(first.len() as int), path),
        rest.len() == 1 && snapshot_target(writer, rest[0]) == path ==> rows_for(
            writer,
            rest,
            decimals.skip(first.len() as int),
            path,
        ) == seq![snapshot_line(rest[0], decimals[first.len() as int])],
        rest.len() == 1 && snapshot_target(writer, rest[0]) != path ==> rows_for(
            writer,
            rest,
            decimals.skip(first.len() as int),
            path,
        ).len() == 0,
    decreases rest.len(),
{
    let later = decimals.skip(first.len() as int);
    if rest.len() == 0 {
        assert(first + rest =~= first);
        assert(decimals.take(first.len() as int) =~= decimals);
        assert(rows_for(writer, first, decimals, path) + rows_for(writer, rest, later, path)
            =~= rows_for(writer, first, decimals, path));
    } else {
        let n = decimals.len() - 1;
        let front = rest.drop_last();
        snapshot_rows_keep_their_order(writer, first, front, decimals.drop_last(), path);
        assert((first + rest).drop_last() =~= first + front);
        assert(decimals.drop_last().take(first.len() as int) =~= decimals.take(first.len() as int));
        assert(decimals.drop_last().skip(first.len() as int) =~= later.drop_last());
        lemma_rows_for_more(writer, first + front, decimals.drop_last(), decimals, path);
        lemma_rows_for_more(writer, front, later.drop_last(), later, path);
        assert((first + rest)[n] == rest.last());
        assert(later[rest.len() - 1] == decimals[n]);
        assert(rows_for(writer, first + rest, decimals, path) =~= rows_for(
            writer,
            first,
            decimals.take(first.len() as int),
            path,
        ) + rows_for(writer, rest, later, path));
        if rest.len() == 1 {
            assert(front =~= seq![]);
            assert(rows_for(writer, front, later, path).len() == 0);
            assert(snapshot_target(writer, rest[0]) == path ==> rows_for(writer, rest, later, path)
                =~= seq![snapshot_line(rest[0], decimals[first.len() as int])]);
        }
    }
}

proof fn lemma_rows_for_more(
    writer: WriterView,
    records: Seq<DepthSnapshotCsv>,
    a: Seq<(Option<String>, Option<String>)>,
    b: Seq<(Option<String>, Option<String>)>,
    path: Seq<char>,
)
    requires
        a.len() >= records.len(),
        b.len() >= records.len(),
        forall|i: int| 0 <= i < records.len() ==> a[i] == #[trigger] b[i],
    ensures
        rows_for(writer, records, a, path) == rows_for(writer, records, b, path),
    decreases records.len(),
{
    if records.len() > 0 {
        lemma_rows_for_more(writer, records.drop_last(), a, b, path);
        assert(a[records.len() - 1] == b[records.len() - 1]);
    }
}

/// Files and rows are dated by the record's own time, in UTC.
pub proof fn rows_are_dated_in_utc(
    writer: WriterView,
    record: DepthSnapshotCsv,
    decimals: (Option<String>, Option<String>),
)
    ensures
        date_of(record.timestamp_ms) == time_utils::utc_text(record.timestamp_ms, "%Y-%m-%d"@),
        iso_of(record.timestamp_ms) == time_utils::utc_text(
            record.timestamp_ms,
            "%Y-%m-%dT%H:%M:%S%.3fZ"@,
        ),
        snapshot_target(writer, record) == snapshot_path(
            writer.base_dir,
            record.symbol@,
            record.event_type@,
            time_utils::utc_text(record.timestamp_ms, "%Y-%m-%d"@),
            time_utils::utc_text(record.timestamp_ms, "%Y_%m_%d_%H%M%S"@),
            record.timestamp_ms,
        ),
        snapshot_line(record, decimals) == csv_rows::csv_line(
            csv_rows::depth_snapshot_columns(
                record,
                time_utils::utc_text(record.timestamp_ms, "%Y-%m-%dT%H:%M:%S%.3fZ"@),
                &decimals.0,
                &decimals.1,
            ),
        ),
{
}

impl BufferView {
    /// The buffer while its rows are being written.
    pub open spec fn flushing(self) -> BufferView {
        BufferView {
            depth_rows: match self.depth_rows {
                Some(rows) => Some(seq![]),
                None => None,
            },
            ..self
        }
    }

    /// The buffer with the rows that could not be written.
    pub open spec fn restored(self, rows: Seq<DepthUpdateRow>, written: int) -> BufferView {
        BufferView {
            depth_rows: match self.depth_rows {
                Some(held) => Some(held + rows.skip(written)),
                None => None,
            },
            ..self
        }
    }

    /// The buffer once its rows are written.
    pub open spec fn flushed(self, now: u64) -> BufferView {
        BufferView { last_flush: now, ..self }
    }

    /// The buffer once the rows counted so far are flushed.
    pub open spec fn counted_anew(self, now: u64) -> BufferView {
        BufferView { row_count: 0, last_flush: now, ..self }
    }
}

/// A flush that breaks off loses nothing: what it had written and what is kept for the next
/// one are together the rows that were held, in the order of their ids. One that ends well
/// keeps nothing back.
pub proof fn broken_flushes_lose_nothing(
    buffer: BufferView,
    rows: Seq<DepthUpdateRow>,
    out: Seq<DepthUpdateRow>,
    written: int,
    now: u64,
)
    requires
        buffer.depth_rows == Some(rows),
        rows.len() <= usize::MAX,
        sorted_rows(rows, out),
        0 <= written <= out.len(),
    ensures
        ({
            let kept = buffer.flushing().restored(out, written);
            &&& kept.depth_rows matches Some(left) && out.take(written) + left == out
                && rows.to_multiset() == out.take(written).to_multiset().add(left.to_multiset())
            &&& kept.last_flush == buffer.last_flush
            &&& kept.last_write == buffer.last_write
            &&& kept.row_count == buffer.row_count
            &&& buffer.flushing().flushed(now).depth_rows == Some(Seq::<DepthUpdateRow>::empty())
            &&& buffer.flushing().flushed(now).last_flush == now
            &&& buffer.flushing().flushed(now).last_write == buffer.last_write
        }),
{
    flush_keeps_every_row(rows, out, written);
    let kept = buffer.flushing().restored(out, written);
    assert(kept.depth_rows->0 =~= out.skip(written));
    assert(out.take(written) + out.skip(written) =~= out);
}

/// Counting starts anew after a flush, and a file is then not due before a thousand more
/// rows or the interval.
pub proof fn counting_starts_anew(buffer: BufferView, now: u64, later: u64, interval: u64)
    requires
        now <= later,
        later - now < interval,
    ensures
        buffer.counted_anew(now).row_count == 0,
        buffer.counted_anew(now).last_flush == now,
        buffer.counted_anew(now).last_write == buffer.last_write,
        buffer.counted_anew(now).depth_rows == buffer.depth_rows,
        !flush_due(one_row_more(buffer.counted_anew(now), later), later, interval),
{
}

} // verus!
