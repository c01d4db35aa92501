//! Staged start: symbols are brought up in batches, so that sockets and snapshot
//! fetches do not all come at once.

use crate::text;
use vstd::prelude::*;

verus! {

/// Symbols in one batch, at most.
pub const BATCH_SIZE: usize = 20;

/// Seconds to wait for the priority symbol to become live.
pub const PRIORITY_TIMEOUT_SECONDS: u64 = 30;

/// Seconds between two looks at the priority symbol.
pub const PRIORITY_CHECK_SECONDS: u64 = 1;

/// Seconds between two looks at whether a batch is stable.
pub const STABILITY_CHECK_SECONDS: u64 = 2;

/// Seconds over which the snapshot fetches of one batch are spread.
pub const SNAPSHOT_SPREAD_SECONDS: u64 = 60;

/// A batch of symbols to start.
pub struct Batch {
    pub id: usize,
    pub symbols: Vec<String>,
}

/// The symbols but for `left_out`, in their order.
pub open spec fn without_symbol(
    symbols: Seq<Seq<char>>,
    left_out: Option<Seq<char>>,
) -> Seq<Seq<char>>
    decreases symbols.len(),
{
    if symbols.len() == 0 {
        seq![]
    } else {
        let front = without_symbol(symbols.drop_last(), left_out);
        if left_out == Some(symbols.last()) {
            front
        } else {
            front.push(symbols.last())
        }
    }
}

/// The symbol that starts first, as text.
pub open spec fn priority_text(priority: Option<String>) -> Option<Seq<char>> {
    match priority {
        Some(symbol) => Some(symbol@),
        None => None,
    }
}

/// The symbols that start in batches: all but the priority symbol.
pub fn remaining_symbols(symbols: &Vec<String>, priority: &Option<String>) -> (r: Vec<String>)
    ensures
        text::texts(r@) == without_symbol(text::texts(symbols@), priority_text(*priority)),
{
    let mut out: Vec<String> = Vec::new();
    let mut i: usize = 0;
    let ghost all = text::texts(symbols@);
    assert(all.take(0) =~= seq![]);
    assert(text::texts(out@) =~= seq![]);
    while i < symbols.len()
        invariant
            i <= symbols.len(),
            all == text::texts(symbols@),
            text::texts(out@) == without_symbol(all.take(i as int), priority_text(*priority)),
        decreases symbols.len() - i,
    {
        assert(all.take(i + 1).drop_last() =~= all.take(i as int));
        let first: bool = match priority {
            Some(symbol) => text::text_eq(symbol.as_str(), symbols[i].as_str()),
            None => false,
        };
        if !first {
            let ghost before = out@;
            out.push(symbols[i].clone());
            assert(text::texts(out@) =~= text::texts(before).push(all[i as int]));
        }
        i = i + 1;
    }
    assert(all.take(symbols.len() as int) =~= all);
    out
}

/// The symbols of the batch at `index`: the next `BATCH_SIZE` of them, or what is left.
pub open spec fn batch_symbols(remaining: Seq<Seq<char>>, index: int) -> Seq<Seq<char>> {
    let end = (index + 1) * BATCH_SIZE;
    remaining.subrange(
        index * BATCH_SIZE,
        if end <= remaining.len() {
            end
        } else {
            remaining.len() as int
        },
    )
}

/// The batches, in the order in which they start. With a priority symbol the first of
/// them has id one, as the priority symbol is batch zero on its own.
pub fn plan_batches(symbols: &Vec<String>, priority: &Option<String>) -> (r: Vec<Batch>)
    ensures
        ({
            let remaining = without_symbol(text::texts(symbols@), priority_text(*priority));
            &&& r@.len() == (remaining.len() + BATCH_SIZE - 1) / BATCH_SIZE as int
            &&& forall|i: int|
                0 <= i < r@.len() ==> {
                    &&& (#[trigger] r@[i]).id == i + (if priority is Some {
                        1int
                    } else {
                        0
                    })
                    &&& text::texts(r@[i].symbols@) == batch_symbols(remaining, i)
                }
        }),
{
    let rest: Vec<String> = remaining_symbols(symbols, priority);
    let ghost remaining = text::texts(rest@);
    let count: usize = if rest.len() == 0 {
        0
    } else {
        (rest.len() - 1) / BATCH_SIZE + 1
    };
    let mut batches: Vec<Batch> = Vec::new();
    let mut from: usize = 0;
    while from < rest.len()
        invariant
            from <= rest.len(),
            remaining == text::texts(rest@),
            batches.len() < rest.len() ==> from == batches.len() * BATCH_SIZE || from == rest.len(),
            from < rest.len() ==> from == batches.len() * BATCH_SIZE,
            from == rest.len() ==> batches.len() == count,
            count == (rest@.len() + BATCH_SIZE - 1) / BATCH_SIZE as int,
            forall|i: int|
                0 <= i < batches@.len() ==> {
                    &&& (#[trigger] batches@[i]).id == i + (if priority is Some {
                        1int
                    } else {
                        0
                    })
                    &&& text::texts(batches@[i].symbols@) == batch_symbols(remaining, i)
                },
        decreases rest.len() - from,
    {
        let to: usize = if rest.len() - from > BATCH_SIZE {
            from + BATCH_SIZE
        } else {
            rest.len()
        };
        let mut members: Vec<String> = Vec::new();
        let mut i: usize = from;
        assert(text::texts(members@) =~= remaining.subrange(from as int, from as int));
        while i < to
            invariant
                from <= i <= to <= rest.len(),
                remaining == text::texts(rest@),
                text::texts(members@) == remaining.subrange(from as int, i as int),
            decreases to - i,
        {
            let ghost before = members@;
            members.push(rest[i].clone());
            assert(text::texts(members@) =~= text::texts(before).push(remaining[i as int]));
            assert(remaining.subrange(from as int, i + 1) =~= remaining.subrange(
                from as int,
                i as int,
            ).push(remaining[i as int]));
            i = i + 1;
        }
        let index: usize = batches.len();
        batches.push(
            Batch {
                id: if priority.is_some() {
                    index + 1
                } else {
                    index
                },
                symbols: members,
            },
        );
        from = to;
    }
    batches
}

/// What is left of the gap after waiting: a batch never starts earlier than the gap
/// after the one before it, stable or not.
pub fn remaining_gap(elapsed: u64, gap_seconds: u64) -> (r: u64)
    ensures
        elapsed + r >= gap_seconds,
        r > 0 ==> elapsed + r == gap_seconds,
{
    gap_seconds.saturating_sub(elapsed)
}

/// What starting calls for next. Stages are counted from zero; with a priority symbol it
/// is stage zero, alone.
#[derive(Clone, Copy, Debug, PartialEq, Eq, Structural)]
pub enum StartAction {
    /// Open the sockets of a stage.
    OpenSockets { stage: usize },
    /// Wait for so many seconds.
    Sleep { seconds: u64 },
    /// Wait for as much of `SNAPSHOT_SPREAD_SECONDS` as falls to one of so many symbols.
    Spread { symbols: usize },
    /// Start the task of a symbol, which fetches its snapshot.
    StartSymbol { stage: usize, symbol: usize },
    /// Find out whether the priority symbol is live.
    AskLive,
    /// Find out whether all symbols of a stage are stable.
    AskStable { stage: usize },
    /// Start the tasks that serve all symbols.
    StartTasks,
    /// All symbols are started.
    Finish,
}

/// Where a stage stands.
#[derive(Clone, Copy, Debug, PartialEq, Eq, Structural)]
pub enum Phase {
    /// The tasks that serve all symbols are to be started.
    Tasks,
    /// The sockets are to be opened.
    Open,
    /// The sockets are open and fill the buffers.
    Buffer,
    /// A pause comes before the symbol at this position.
    Spread(usize),
    /// The symbol at this position is to be started.
    Start(usize),
    /// All symbols were started so many seconds ago.
    Ask(u64),
    /// The same, and the answer is awaited.
    Answer(u64),
}

/// A start as mathematical values.
pub struct StartupView {
    /// How many symbols each stage has.
    pub sizes: Seq<usize>,
    /// Whether stage zero is the priority symbol.
    pub priority: bool,
    pub buffer_seconds: u64,
    pub gap_seconds: u64,
    pub stage: int,
    pub phase: Phase,
}

/// Seconds waited so far and some more, staying at the largest number.
pub open spec fn waited(elapsed: u64, seconds: u64) -> u64 {
    if elapsed + seconds <= u64::MAX {
        (elapsed + seconds) as u64
    } else {
        u64::MAX
    }
}

impl StartupView {
    /// The current stage is the priority symbol.
    pub open spec fn is_priority(self) -> bool {
        self.priority && self.stage == 0
    }

    /// How long to wait for the current stage to settle.
    pub open spec fn patience(self) -> u64 {
        if self.is_priority() {
            PRIORITY_TIMEOUT_SECONDS
        } else {
            self.gap_seconds
        }
    }

    /// The start with another phase.
    pub open spec fn at(self, phase: Phase) -> StartupView {
        StartupView { phase, ..self }
    }

    /// The start once the current stage is done. The tasks that serve all symbols come
    /// after the priority symbol.
    pub open spec fn done(self) -> StartupView {
        StartupView {
            stage: self.stage + 1,
            phase: if self.is_priority() {
                Phase::Tasks
            } else {
                Phase::Open
            },
            ..self
        }
    }

    /// Nothing was done yet.
    pub open spec fn fresh(self) -> bool {
        &&& self.stage == 0
        &&& self.phase == (if self.priority {
            Phase::Open
        } else {
            Phase::Tasks
        })
        &&& self.valid()
    }

    /// Every stage has symbols, and the current position is within its stage.
    pub open spec fn valid(self) -> bool {
        &&& forall|i: int| 0 <= i < self.sizes.len() ==> #[trigger] self.sizes[i] > 0
        &&& self.priority ==> self.sizes.len() > 0 && self.sizes[0] == 1
        &&& 0 <= self.stage <= self.sizes.len() <= usize::MAX
        &&& match self.phase {
            Phase::Tasks => true,
            Phase::Open => true,
            Phase::Spread(i) => self.stage < self.sizes.len() && 0 < i
                < self.sizes[self.stage],
            Phase::Start(i) => self.stage < self.sizes.len() && i < self.sizes[self.stage],
            _ => self.stage < self.sizes.len(),
        }
    }

    /// The sockets of the next stage, or the end.
    pub open spec fn opened(self) -> (StartAction, StartupView) {
        if self.stage < self.sizes.len() {
            (StartAction::OpenSockets { stage: self.stage as usize }, self.at(Phase::Buffer))
        } else {
            (StartAction::Finish, self.at(Phase::Open))
        }
    }

    /// The next action, and the start after it. `yes` answers the question before, if
    /// there was one.
    pub open spec fn next(self, yes: bool) -> (StartAction, StartupView) {
        match self.phase {
            Phase::Tasks => (StartAction::StartTasks, self.at(Phase::Open)),
            Phase::Open => self.opened(),
            Phase::Buffer => (
                StartAction::Sleep { seconds: self.buffer_seconds },
                self.at(Phase::Start(0)),
            ),
            Phase::Spread(i) => (
                StartAction::Spread { symbols: self.sizes[self.stage] },
                self.at(Phase::Start(i)),
            ),
            Phase::Start(i) => (
                StartAction::StartSymbol { stage: self.stage as usize, symbol: i },
                if i + 1 < self.sizes[self.stage] {
                    self.at(Phase::Spread((i + 1) as usize))
                } else if self.is_priority() || self.stage + 1 < self.sizes.len() {
                    self.at(Phase::Ask(0))
                } else {
                    self.done()
                },
            ),
            Phase::Ask(elapsed) => if elapsed < self.patience() {
                (
                    if self.is_priority() {
                        StartAction::AskLive
                    } else {
                        StartAction::AskStable { stage: self.stage as usize }
                    },
                    self.at(Phase::Answer(elapsed)),
                )
            } else if self.is_priority() {
                (StartAction::Sleep { seconds: self.gap_seconds }, self.done())
            } else {
                self.done().opened()
            },
            Phase::Answer(elapsed) => if self.is_priority() {
                if yes {
                    (StartAction::Sleep { seconds: self.gap_seconds }, self.done())
                } else {
                    (
                        StartAction::Sleep { seconds: PRIORITY_CHECK_SECONDS },
                        self.at(Phase::Ask(waited(elapsed, PRIORITY_CHECK_SECONDS))),
                    )
                }
            } else {
                if yes && elapsed < self.gap_seconds {
                    (
                        StartAction::Sleep { seconds: (self.gap_seconds - elapsed) as u64 },
                        self.done(),
                    )
                } else if yes {
                    self.done().opened()
                } else {
                    (
                        StartAction::Sleep { seconds: STABILITY_CHECK_SECONDS },
                        self.at(Phase::Ask(waited(elapsed, STABILITY_CHECK_SECONDS))),
                    )
                }
            },
        }
    }
}

/// Brings symbols up in stages.
pub struct Startup {
    stages: Vec<Batch>,
    priority: bool,
    buffer_seconds: u64,
    gap_seconds: u64,
    stage: usize,
    phase: Phase,
}

/// How many symbols each stage has.
pub open spec fn stage_sizes(stages: Seq<Batch>) -> Seq<usize> {
    stages.map_values(|batch: Batch| batch.symbols.len())
}

impl View for Startup {
    type V = StartupView;

    closed spec fn view(&self) -> StartupView {
        StartupView {
            sizes: stage_sizes(self.stages@),
            priority: self.priority,
            buffer_seconds: self.buffer_seconds,
            gap_seconds: self.gap_seconds,
            stage: self.stage as int,
            phase: self.phase,
        }
    }
}

impl Startup {
    /// The stages.
    pub closed spec fn plan(&self) -> Seq<Batch> {
        self.stages@
    }

    /// A start of `symbols`. The priority symbol, if there is one, comes first.
    pub fn new(
        symbols: &Vec<String>,
        priority: &Option<String>,
        buffer_seconds: u64,
        gap_seconds: u64,
    ) -> (r: Startup)
        ensures
            r@.fresh(),
            r@.priority == priority is Some,
            r@.buffer_seconds == buffer_seconds,
            r@.gap_seconds == gap_seconds,
            r@.sizes == stage_sizes(r.plan()),
            is_plan(text::texts(symbols@), priority_text(*priority), r.plan()),
    {
        let batches: Vec<Batch> = plan_batches(symbols, priority);
        let ghost remaining = without_symbol(text::texts(symbols@), priority_text(*priority));
        let ghost planned = batches@;
        proof {
            lemma_remaining_is_shorter(text::texts(symbols@), priority_text(*priority));
        }
        let stages: Vec<Batch> = match priority {
            Some(symbol) => {
                let mut first: Vec<String> = Vec::new();
                first.push(symbol.clone());
                let mut all: Vec<Batch> = Vec::new();
                let batch: Batch = Batch { id: 0, symbols: first };
                assert(text::texts(first@) =~= seq![symbol@]);
                all.push(batch);
                let mut rest: Vec<Batch> = batches;
                all.append(&mut rest);
                assert(all@ =~= seq![batch] + planned);
                all
            },
            None => batches,
        };
        proof {
            let offset: int = if priority is Some {
                1
            } else {
                0
            };
            assert(stages@.len() == planned.len() + offset);
            assert(stage_sizes(stages@).len() == stages.len());
            assert forall|i: int| 0 <= i < planned.len() implies stages@[i + offset]
                == #[trigger] planned[i] by {}
            assert forall|i: int| 0 <= i < stages@.len() implies #[trigger] stage_sizes(
                stages@,
            )[i] > 0 by {
                if i >= offset {
                    let batch = planned[i - offset];
                    assert(text::texts(batch.symbols@).len() == batch.symbols@.len());
                    assert(batch_symbols(remaining, i - offset).len() > 0);
                } else {
                    assert(text::texts(stages@[0].symbols@).len() == stages@[0].symbols@.len());
                }
            }
            assert forall|i: int| offset <= i < stages@.len() implies {
                &&& (#[trigger] stages@[i]).id == i
                &&& text::texts(stages@[i].symbols@) == batch_symbols(remaining, i - offset)
            } by {
                assert(stages@[i] == planned[i - offset]);
            }
        }
        Startup {
            stages,
            priority: priority.is_some(),
            buffer_seconds,
            gap_seconds,
            stage: 0,
            phase: if priority.is_some() {
                Phase::Open
            } else {
                Phase::Tasks
            },
        }
    }

    /// The stages, in the order in which they start.
    pub fn stages(&self) -> (r: &Vec<Batch>)
        ensures
            r@ == self.plan(),
    {
        &self.stages
    }

    /// What to do next. `yes` answers the question before, if there was one.
    pub fn next(&mut self, yes: bool) -> (r: StartAction)
        requires
            old(self)@.valid(),
        ensures
            (r, final(self)@) == old(self)@.next(yes),
            final(self)@.valid(),
            final(self).plan() == old(self).plan(),
    {
        let first: bool = self.priority && self.stage == 0;
        match self.phase {
            Phase::Tasks => {
                self.phase = Phase::Open;
                StartAction::StartTasks
            },
            Phase::Open => self.open(),
            Phase::Buffer => {
                self.phase = Phase::Start(0);
                StartAction::Sleep { seconds: self.buffer_seconds }
            },
            Phase::Spread(i) => {
                self.phase = Phase::Start(i);
                StartAction::Spread { symbols: self.stages[self.stage].symbols.len() }
            },
            Phase::Start(i) => {
                let stage: usize = self.stage;
                if i + 1 < self.stages[stage].symbols.len() {
                    self.phase = Phase::Spread(i + 1);
                } else if first || stage + 1 < self.stages.len() {
                    self.phase = Phase::Ask(0);
                } else {
                    self.finish_stage(first);
                }
                StartAction::StartSymbol { stage, symbol: i }
            },
            Phase::Ask(elapsed) => {
                let patience: u64 = if first {
                    PRIORITY_TIMEOUT_SECONDS
                } else {
                    self.gap_seconds
                };
                if elapsed < patience {
                    self.phase = Phase::Answer(elapsed);
                    if first {
                        StartAction::AskLive
                    } else {
                        StartAction::AskStable { stage: self.stage }
                    }
                } else {
                    self.finish_stage(first);
                    if first {
                        StartAction::Sleep { seconds: self.gap_seconds }
                    } else {
                        self.open()
                    }
                }
            },
            Phase::Answer(elapsed) => {
                if !yes {
                    let seconds: u64 = if first {
                        PRIORITY_CHECK_SECONDS
                    } else {
                        STABILITY_CHECK_SECONDS
                    };
                    self.phase = Phase::Ask(elapsed.saturating_add(seconds));
                    return StartAction::Sleep { seconds };
                }
                self.finish_stage(first);
                if first {
                    return StartAction::Sleep { seconds: self.gap_seconds };
                }
                let rest: u64 = remaining_gap(elapsed, self.gap_seconds);
                if rest > 0 {
                    StartAction::Sleep { seconds: rest }
                } else {
                    self.open()
                }
            },
        }
    }

    /// Goes on to the next stage.
    fn finish_stage(&mut self, first: bool)
        requires
            old(self)@.valid(),
            old(self)@.stage < old(self)@.sizes.len(),
            first == old(self)@.is_priority(),
        ensures
            final(self)@ == old(self)@.done(),
            final(self)@.valid(),
            final(self).plan() == old(self).plan(),
    {
        self.stage = self.stage + 1;
        self.phase = if first {
            Phase::Tasks
        } else {
            Phase::Open
        };
    }

    /// Opens the sockets of the current stage, if there is one.
    fn open(&mut self) -> (r: StartAction)
        requires
            old(self)@.valid(),
            old(self)@.phase == Phase::Open,
        ensures
            (r, final(self)@) == old(self)@.opened(),
            final(self)@.valid(),
            final(self).plan() == old(self).plan(),
    {
        if self.stage < self.stages.len() {
            self.phase = Phase::Buffer;
            StartAction::OpenSockets { stage: self.stage }
        } else {
            StartAction::Finish
        }
    }
}

/// `stages` are the stages of `symbols`: the priority symbol alone, then the others in
/// batches. Each is numbered by its place.
pub open spec fn is_plan(
    symbols: Seq<Seq<char>>,
    priority: Option<Seq<char>>,
    stages: Seq<Batch>,
) -> bool {
    let remaining = without_symbol(symbols, priority);
    let offset: int = if priority is Some {
        1
    } else {
        0
    };
    &&& stages.len() == (remaining.len() + BATCH_SIZE - 1) / BATCH_SIZE as int + offset
    &&& priority matches Some(symbol) ==> stages[0].id == 0 && text::texts(stages[0].symbols@)
        == seq![symbol]
    &&& forall|i: int|
        offset <= i < stages.len() ==> (#[trigger] stages[i]).id == i && text::texts(
            stages[i].symbols@,
        ) == batch_symbols(remaining, i - offset)
}

/// Leaving a symbol out makes the list no longer.
proof fn lemma_remaining_is_shorter(symbols: Seq<Seq<char>>, left_out: Option<Seq<char>>)
    ensures
        without_symbol(symbols, left_out).len() <= symbols.len(),
    decreases symbols.len(),
{
    if symbols.len() > 0 {
        lemma_remaining_is_shorter(symbols.drop_last(), left_out);
    }
}

/// The actions of a start, one for each answer, and where it stands after them.
pub open spec fn run(start: StartupView, answers: Seq<bool>) -> (Seq<StartAction>, StartupView)
    decreases answers.len(),
{
    if answers.len() == 0 {
        (seq![], start)
    } else {
        let (actions, now) = run(start, answers.drop_last());
        let (action, after) = now.next(answers.last());
        (actions.push(action), after)
    }
}

/// The sockets of a stage were opened and then had the time to fill the buffers.
pub open spec fn was_buffered(actions: Seq<StartAction>, stage: int, seconds: u64) -> bool {
    exists|a: int, b: int|
        0 <= a < b < actions.len() && (#[trigger] actions[a] matches StartAction::OpenSockets {
            stage: of,
        } && of == stage) && #[trigger] actions[b] == (StartAction::Sleep { seconds })
}

/// One more action does not undo it.
proof fn lemma_stays_buffered(actions: Seq<StartAction>, more: StartAction, stage: int, seconds: u64)
    requires
        was_buffered(actions, stage, seconds),
    ensures
        was_buffered(actions.push(more), stage, seconds),
{
    let (a, b) = choose|a: int, b: int|
        0 <= a < b < actions.len() && (#[trigger] actions[a] matches StartAction::OpenSockets {
            stage: of,
        } && of == stage) && #[trigger] actions[b] == (StartAction::Sleep { seconds });
    let longer = actions.push(more);
    assert(longer[a] == actions[a] && longer[b] == actions[b]);
}

/// What holds of the stage that a start is at.
pub open spec fn stage_ready(actions: Seq<StartAction>, now: StartupView) -> bool {
    match now.phase {
        Phase::Tasks => true,
        Phase::Open => true,
        Phase::Buffer => actions.len() > 0 && actions.last() == (StartAction::OpenSockets {
            stage: now.stage as usize,
        }),
        _ => was_buffered(actions, now.stage, now.buffer_seconds),
    }
}

/// A start stays valid, keeps its plan, and buffers each stage before it goes on.
proof fn lemma_run(start: StartupView, answers: Seq<bool>)
    requires
        start.fresh(),
    ensures
        ({
            let (actions, now) = run(start, answers);
            &&& actions.len() == answers.len()
            &&& now.valid()
            &&& now.sizes == start.sizes
            &&& now.priority == start.priority
            &&& now.buffer_seconds == start.buffer_seconds
            &&& now.gap_seconds == start.gap_seconds
            &&& stage_ready(actions, now)
        }),
    decreases answers.len(),
{
    if answers.len() > 0 {
        let front = answers.drop_last();
        lemma_run(start, front);
        let (before, now) = run(start, front);
        let (action, after) = now.next(answers.last());
        let actions = before.push(action);
        match now.phase {
            Phase::Buffer => {
                let n = before.len() as int;
                assert(actions[n - 1] == before.last());
                assert(actions[n] == (StartAction::Sleep { seconds: start.buffer_seconds }));
                assert(was_buffered(actions, now.stage, start.buffer_seconds));
            },
            Phase::Tasks => {},
            Phase::Open => {},
            _ => {
                lemma_stays_buffered(before, action, now.stage, start.buffer_seconds);
            },
        }
    }
}

/// Sockets come first, snapshots second: before the task of a symbol starts, the sockets
/// of its stage were opened and had the time to fill the buffers. So no diff between the
/// two is lost.
pub proof fn sockets_open_before_snapshots(start: StartupView, answers: Seq<bool>, at: int)
    requires
        start.fresh(),
        0 <= at < answers.len(),
    ensures
        run(start, answers).0[at] matches StartAction::StartSymbol { stage, symbol }
            ==> was_buffered(run(start, answers).0.take(at), stage as int, start.buffer_seconds),
    decreases answers.len(),
{
    let front = answers.drop_last();
    lemma_run(start, front);
    let (before, now) = run(start, front);
    let actions = run(start, answers).0;
    if at < front.len() {
        sockets_open_before_snapshots(start, front, at);
        assert(actions[at] == before[at]);
        assert(actions.take(at) =~= before.take(at));
    } else {
        assert(actions.take(at) =~= before);
    }
}

/// The symbols that were started, each as its stage and position.
pub open spec fn started(actions: Seq<StartAction>) -> Seq<(int, int)>
    decreases actions.len(),
{
    if actions.len() == 0 {
        seq![]
    } else {
        match actions.last() {
            StartAction::StartSymbol { stage, symbol } => started(actions.drop_last()).push(
                (stage as int, symbol as int),
            ),
            _ => started(actions.drop_last()),
        }
    }
}

/// The symbols before a position, stage after stage.
pub open spec fn symbols_before(sizes: Seq<usize>, stage: int, position: int) -> Seq<(int, int)>
    decreases stage, position,
{
    if position > 0 {
        symbols_before(sizes, stage, position - 1).push((stage, position - 1))
    } else if stage > 0 {
        symbols_before(sizes, stage - 1, sizes[stage - 1] as int)
    } else {
        seq![]
    }
}

/// How many symbols of the current stage were started.
pub open spec fn position(now: StartupView) -> int {
    match now.phase {
        Phase::Tasks => 0,
        Phase::Open => 0,
        Phase::Buffer => 0,
        Phase::Spread(i) => i as int,
        Phase::Start(i) => i as int,
        Phase::Ask(_) => now.sizes[now.stage] as int,
        Phase::Answer(_) => now.sizes[now.stage] as int,
    }
}

/// Symbols are started in their order, stage after stage, none left out and none twice;
/// a start that finishes has started them all.
pub proof fn symbols_start_in_order(start: StartupView, answers: Seq<bool>)
    requires
        start.fresh(),
    ensures
        ({
            let (actions, now) = run(start, answers);
            &&& started(actions) == symbols_before(start.sizes, now.stage, position(now))
            &&& actions.contains(StartAction::Finish) ==> started(actions) == symbols_before(
                start.sizes,
                start.sizes.len() as int,
                0,
            )
        }),
    decreases answers.len(),
{
    lemma_started(start, answers);
    lemma_finished(start, answers);
}

/// What was started is what comes before the current position.
proof fn lemma_started(start: StartupView, answers: Seq<bool>)
    requires
        start.fresh(),
    ensures
        started(run(start, answers).0) == symbols_before(
            start.sizes,
            run(start, answers).1.stage,
            position(run(start, answers).1),
        ),
    decreases answers.len(),
{
    reveal_with_fuel(symbols_before, 3);
    if answers.len() > 0 {
        let front = answers.drop_last();
        lemma_started(start, front);
        lemma_run(start, front);
        let (before, now) = run(start, front);
        let (action, after) = now.next(answers.last());
        assert(before.push(action).drop_last() =~= before);
        assert(before.push(action).last() == action);
    }
}

/// After the end nothing else happens.
proof fn lemma_finished(start: StartupView, answers: Seq<bool>)
    requires
        start.fresh(),
    ensures
        run(start, answers).0.contains(StartAction::Finish) ==> run(start, answers).1.stage
            == start.sizes.len() && run(start, answers).1.phase == Phase::Open,
    decreases answers.len(),
{
    if answers.len() > 0 {
        let front = answers.drop_last();
        lemma_finished(start, front);
        lemma_run(start, front);
        let (before, now) = run(start, front);
        let (action, after) = now.next(answers.last());
        let actions = before.push(action);
        if actions.contains(StartAction::Finish) && action != StartAction::Finish {
            let k = choose|k: int| 0 <= k < actions.len() && actions[k] == StartAction::Finish;
            assert(before[k] == StartAction::Finish);
        }
    }
}

/// Seconds of sleep since a symbol was last started.
pub open spec fn slept(actions: Seq<StartAction>) -> nat
    decreases actions.len(),
{
    if actions.len() == 0 {
        0
    } else {
        match actions.last() {
            StartAction::StartSymbol { .. } => 0,
            StartAction::Sleep { seconds } => slept(actions.drop_last()) + seconds as nat,
            _ => slept(actions.drop_last()),
        }
    }
}

/// What a start has slept since the current or the last stage was started.
pub open spec fn rested(actions: Seq<StartAction>, now: StartupView) -> bool {
    match now.phase {
        Phase::Tasks => now.stage > 0 ==> slept(actions) >= now.gap_seconds,
        Phase::Open => 0 < now.stage < now.sizes.len() ==> slept(actions) >= now.gap_seconds,
        Phase::Ask(elapsed) => slept(actions) >= elapsed,
        Phase::Answer(elapsed) => slept(actions) >= elapsed,
        _ => true,
    }
}

/// A start has slept as long as its phase says.
proof fn lemma_rested(start: StartupView, answers: Seq<bool>)
    requires
        start.fresh(),
    ensures
        rested(run(start, answers).0, run(start, answers).1),
    decreases answers.len(),
{
    if answers.len() > 0 {
        let front = answers.drop_last();
        lemma_rested(start, front);
        lemma_run(start, front);
        let (before, now) = run(start, front);
        let (action, after) = now.next(answers.last());
        assert(before.push(action).drop_last() =~= before);
        assert(before.push(action).last() == action);
    }
}

/// Stages are spaced: the sockets of a later one are not opened before the gap has passed
/// since the last symbol was started, settled or not.
pub proof fn stages_are_spaced(start: StartupView, answers: Seq<bool>, at: int)
    requires
        start.fresh(),
        0 <= at < answers.len(),
    ensures
        run(start, answers).0[at] matches StartAction::OpenSockets { stage } ==> (stage > 0
            ==> slept(run(start, answers).0.take(at)) >= start.gap_seconds),
    decreases answers.len(),
{
    let front = answers.drop_last();
    lemma_run(start, front);
    lemma_rested(start, front);
    let (before, now) = run(start, front);
    let actions = run(start, answers).0;
    if at < front.len() {
        stages_are_spaced(start, front, at);
        assert(actions[at] == before[at]);
        assert(actions.take(at) =~= before.take(at));
    } else {
        assert(actions.take(at) =~= before);
    }
}

/// Batches leave no symbol out and start none twice: one after the other they are the
/// symbols to start, in their order.
pub proof fn batches_cover_all(remaining: Seq<Seq<char>>, at: int)
    requires
        0 <= at < remaining.len(),
    ensures
        0 <= at / (BATCH_SIZE as int),
        at / (BATCH_SIZE as int) < (remaining.len() + BATCH_SIZE - 1) / (BATCH_SIZE as int),
        at % (BATCH_SIZE as int) < batch_symbols(remaining, at / (BATCH_SIZE as int)).len(),
        batch_symbols(remaining, at / (BATCH_SIZE as int))[at % (BATCH_SIZE as int)]
            == remaining[at],
        batch_symbols(remaining, at / (BATCH_SIZE as int)).len() <= BATCH_SIZE,
{
}

/// Exactly the priority symbol is left out of the batches, and the others keep their order.
pub proof fn others_keep_their_order(
    first: Seq<Seq<char>>,
    rest: Seq<Seq<char>>,
    left_out: Option<Seq<char>>,
)
    ensures
        without_symbol(first + rest, left_out) == without_symbol(first, left_out) + without_symbol(
            rest,
            left_out,
        ),
        rest.len() == 0 ==> without_symbol(rest, left_out).len() == 0,
        rest.len() == 1 && left_out == Some(rest[0]) ==> without_symbol(rest, left_out).len() == 0,
        rest.len() == 1 && left_out != Some(rest[0]) ==> without_symbol(rest, left_out) == rest,
    decreases rest.len(),
{
    if rest.len() == 0 {
        assert(first + rest =~= first);
        assert(without_symbol(first, left_out) + without_symbol(rest, left_out)
            =~= without_symbol(first, left_out));
    } else {
        others_keep_their_order(first, rest.drop_last(), left_out);
        assert((first + rest).drop_last() =~= first + rest.drop_last());
        assert(without_symbol(first + rest, left_out) =~= without_symbol(first, left_out)
            + without_symbol(rest, left_out));
        if rest.len() == 1 {
            assert(rest.drop_last() =~= seq![]);
            assert(left_out != Some(rest[0]) ==> without_symbol(rest, left_out) =~= rest);
        }
    }
}

/// A plan has the priority symbol alone in front, then the others, twenty by twenty, the
/// last batch with what is left. Stages are numbered by their place.
pub proof fn plans_go_twenty_by_twenty(
    symbols: Seq<Seq<char>>,
    priority: Option<Seq<char>>,
    stages: Seq<Batch>,
    at: int,
)
    requires
        is_plan(symbols, priority, stages),
    ensures
        ({
            let others = without_symbol(symbols, priority);
            let first: int = if priority is Some {
                1
            } else {
                0
            };
            &&& priority matches Some(symbol) ==> stages.len() > 0 && stages[0].id == 0
                && text::texts(stages[0].symbols@) == seq![symbol]
            &&& stages.len() == first + (others.len() + 19) / 20
            &&& 0 <= at < others.len() ==> {
                let batch = stages[first + at / 20];
                &&& batch.id == first + at / 20
                &&& at % 20 < text::texts(batch.symbols@).len() <= 20
                &&& text::texts(batch.symbols@)[at % 20] == others[at]
            }
            &&& forall|k: int|
                first <= k < stages.len() - 1 ==> text::texts(
                    (#[trigger] stages[k]).symbols@,
                ).len() == 20
        }),
{
    let others = without_symbol(symbols, priority);
    if 0 <= at < others.len() {
        batches_cover_all(others, at);
        let first: int = if priority is Some {
            1
        } else {
            0
        };
        assert(stages[first + at / 20].id == first + at / 20);
    }
}

/// The tasks that serve all symbols start once: first of all without a priority symbol, and
/// once it is done with one.
pub proof fn tasks_start_once(start: StartupView, answers: Seq<bool>)
    requires
        start.fresh(),
    ensures
        ({
            let (actions, now) = run(start, answers);
            let first: int = if start.priority {
                1
            } else {
                0
            };
            &&& task_starts(actions) == (if now.stage < first || now.phase == Phase::Tasks {
                0nat
            } else {
                1
            })
            &&& now.phase == Phase::Tasks ==> now.stage == first
            &&& answers.len() == 1 && !start.priority ==> actions == seq![StartAction::StartTasks]
            &&& answers.len() == 1 && start.priority ==> actions == seq![
                StartAction::OpenSockets { stage: 0 },
            ]
        }),
    decreases answers.len(),
{
    if answers.len() > 0 {
        let front = answers.drop_last();
        tasks_start_once(start, front);
        lemma_run(start, front);
        let (before, now) = run(start, front);
        let (action, after) = now.next(answers.last());
        assert(before.push(action).drop_last() =~= before);
        assert(before.push(action).last() == action);
        if answers.len() == 1 {
            assert(front =~= seq![]);
            assert(before.push(action) =~= seq![action]);
        }
    }
}

/// How often the tasks that serve all symbols were started.
pub open spec fn task_starts(actions: Seq<StartAction>) -> nat
    decreases actions.len(),
{
    if actions.len() == 0 {
        0
    } else {
        task_starts(actions.drop_last()) + (if actions.last() == StartAction::StartTasks {
            1nat
        } else {
            0
        })
    }
}

/// The priority symbol is asked for once a second, for half a minute at most; the other
/// stages every two seconds, for the gap at most. The last stage is not waited for.
pub proof fn stages_are_waited_for(view: StartupView, elapsed: u64, yes: bool)
    requires
        view.valid(),
        view.stage < view.sizes.len(),
        elapsed < u64::MAX - 2,
    ensures
        ({
            let first = view.priority && view.stage == 0;
            let asking = view.at(Phase::Ask(elapsed)).next(yes);
            let answered = view.at(Phase::Answer(elapsed)).next(yes);
            &&& first && elapsed < 30 ==> asking.0 == StartAction::AskLive && asking.1.phase
                == Phase::Answer(elapsed)
            &&& first && elapsed >= 30 ==> asking.0 == (StartAction::Sleep {
                seconds: view.gap_seconds,
            }) && asking.1.stage == 1
            &&& first && !yes ==> answered.0 == (StartAction::Sleep { seconds: 1 })
                && answered.1.phase == Phase::Ask((elapsed + 1) as u64)
            &&& first && yes ==> answered.0 == (StartAction::Sleep { seconds: view.gap_seconds })
                && answered.1.stage == 1
            &&& !first && elapsed < view.gap_seconds ==> asking.0 == (StartAction::AskStable {
                stage: view.stage as usize,
            }) && asking.1.phase == Phase::Answer(elapsed)
            &&& !first && elapsed >= view.gap_seconds ==> asking.1.stage == view.stage + 1
            &&& !first && !yes ==> answered.0 == (StartAction::Sleep { seconds: 2 })
                && answered.1.phase == Phase::Ask((elapsed + 2) as u64)
            &&& !first && yes ==> answered.1.stage == view.stage + 1
            &&& !first && yes && elapsed < view.gap_seconds ==> (
            answered.0 matches StartAction::Sleep { seconds } && elapsed + seconds
                == view.gap_seconds)
        }),
{
}

/// Between two symbols of a stage there is a pause by the number of its symbols; behind the
/// last symbol comes the question whether the stage has settled, or, behind the last of
/// all, the end.
pub proof fn symbols_of_a_stage_are_spread(view: StartupView, at: usize, a: bool, b: bool, c: bool)
    requires
        view.valid(),
        view.stage < view.sizes.len(),
        view.phase == Phase::Start(at),
    ensures
        ({
            let (started, second) = view.next(a);
            let (pause, third) = second.next(b);
            let size = view.sizes[view.stage];
            &&& started == (StartAction::StartSymbol { stage: view.stage as usize, symbol: at })
            &&& at + 1 < size ==> pause == (StartAction::Spread { symbols: size }) && third.next(c).0
                == (StartAction::StartSymbol {
                stage: view.stage as usize,
                symbol: (at + 1) as usize,
            })
            &&& at + 1 == size && !(view.priority && view.stage == 0) && view.stage + 1
                == view.sizes.len() ==> pause == StartAction::Finish
            &&& at + 1 == size && view.stage + 1 < view.sizes.len() && !(view.priority && view.stage
                == 0) && view.gap_seconds > 0 ==> pause == (StartAction::AskStable {
                stage: view.stage as usize,
            })
            &&& at + 1 == size && view.priority && view.stage == 0 ==> pause
                == StartAction::AskLive
        }),
{
}

} // verus!
