//! Pacing of requests: a breaker that pauses everything, and a rolling budget.
//!
//! Times are nanoseconds on one clock.

use std::collections::VecDeque;
use vstd::prelude::*;

verus! {

/// Until when requests are blocked after a pause of `nanos` from `now` on, when they
/// were blocked until `until`: a pause that lasts longer is not cut short.
pub open spec fn tripped(until: u64, now: u64, nanos: u64) -> u64 {
    let end = if now + nanos <= u64::MAX {
        (now + nanos) as u64
    } else {
        u64::MAX
    };
    if end > until {
        end
    } else {
        until
    }
}

/// Pauses all requests together. It is tripped when the exchange says that a limit was
/// reached, so that no task goes on until the pause is over.
pub struct CircuitBreaker {
    blocked_until: u64,
}

impl View for CircuitBreaker {
    type V = u64;

    /// Until when requests are blocked.
    closed spec fn view(&self) -> u64 {
        self.blocked_until
    }
}

impl CircuitBreaker {
    /// A breaker that blocks nothing.
    pub fn new() -> (r: CircuitBreaker)
        ensures
            r@ == 0,
    {
        CircuitBreaker { blocked_until: 0 }
    }

    /// Blocks requests for `nanos` from `now` on. A pause that lasts longer already is
    /// not cut short.
    pub fn trip(&mut self, now: u64, nanos: u64)
        ensures
            final(self)@ == tripped(old(self)@, now, nanos),
    {
        let until: u64 = now.saturating_add(nanos);
        if until > self.blocked_until {
            self.blocked_until = until;
        }
    }

    /// How long requests are still blocked at `now`, `None` when they are not.
    pub fn blocked_wait(&self, now: u64) -> (r: Option<u64>)
        ensures
            r == (if self@ > now {
                Some((self@ - now) as u64)
            } else {
                None
            }),
    {
        if self.blocked_until > now {
            Some(self.blocked_until - now)
        } else {
            None
        }
    }
}

/// The requests that are left when those older than `cutoff` are dropped from the
/// front.
pub open spec fn since(requests: Seq<(u64, u32)>, cutoff: int) -> Seq<(u64, u32)>
    decreases requests.len(),
{
    if requests.len() > 0 && requests[0].0 < cutoff {
        since(requests.drop_first(), cutoff)
    } else {
        requests
    }
}

/// The weight of a run of requests.
pub open spec fn total_weight(requests: Seq<(u64, u32)>) -> nat
    decreases requests.len(),
{
    if requests.len() == 0 {
        0
    } else {
        total_weight(requests.drop_last()) + requests.last().1 as nat
    }
}

/// A limiter as mathematical values.
pub struct LimiterView {
    /// Requests let through, oldest first: time and weight.
    pub requests: Seq<(u64, u32)>,
    pub max_per_window: u64,
    pub window_nanos: u64,
}

impl LimiterView {
    /// The requests that count at `now`.
    pub open spec fn counted(self, now: u64) -> Seq<(u64, u32)> {
        since(self.requests, now - self.window_nanos)
    }

    /// A request of `weight` is let through at `now`: it fits the budget, or nothing
    /// else counts, as one heavier than the whole budget would never fit.
    pub open spec fn admits(self, weight: u32, now: u64) -> bool {
        total_weight(self.counted(now)) + weight <= self.max_per_window || self.counted(now).len()
            == 0
    }

    /// How long to wait before asking again: until the oldest request stops counting,
    /// and a millisecond at least.
    pub open spec fn wait(self, now: u64) -> int {
        let end = self.counted(now)[0].0 + self.window_nanos;
        let left = (if end <= u64::MAX {
            end
        } else {
            u64::MAX as int
        }) - now;
        if left > 1_000_000 {
            left
        } else {
            1_000_000
        }
    }

    /// The limiter after it was asked for a request of `weight` at `now`.
    pub open spec fn asked(self, weight: u32, now: u64) -> LimiterView {
        LimiterView {
            requests: if self.admits(weight, now) {
                self.counted(now).push((now, weight))
            } else {
                self.counted(now)
            },
            ..self
        }
    }

    /// The limiter after it was asked for a run of requests, each a time and a weight, and
    /// those that it let through.
    pub open spec fn served(self, asks: Seq<(u64, u32)>) -> (LimiterView, Seq<(u64, u32)>)
        decreases asks.len(),
    {
        if asks.len() == 0 {
            (self, seq![])
        } else {
            let (before, through) = self.served(asks.drop_last());
            let (now, weight) = asks.last();
            (
                before.asked(weight, now),
                if before.admits(weight, now) {
                    through.push((now, weight))
                } else {
                    through
                },
            )
        }
    }

    /// The requests within the window are within the budget, but for one that was let
    /// through alone.
    pub open spec fn within_budget(self) -> bool {
        total_weight(self.requests) <= self.max_per_window || self.requests.len() == 1
    }
}

/// A rolling budget: within any window the weights of the requests let through add up
/// to no more than the budget.
pub struct RateLimiter {
    window: VecDeque<(u64, u32)>,
    max_per_window: u64,
    window_nanos: u64,
}

impl View for RateLimiter {
    type V = LimiterView;

    closed spec fn view(&self) -> LimiterView {
        LimiterView {
            requests: self.window@,
            max_per_window: self.max_per_window,
            window_nanos: self.window_nanos,
        }
    }
}

/// Dropping requests makes the rest no heavier.
proof fn lemma_tail_weight(requests: Seq<(u64, u32)>)
    requires
        requests.len() > 0,
    ensures
        total_weight(requests.drop_first()) + requests[0].1 == total_weight(requests),
    decreases requests.len(),
{
    let tail = requests.drop_first();
    if requests.len() == 1 {
        assert(tail =~= seq![]);
        assert(requests.drop_last() =~= seq![]);
        assert(total_weight(requests.drop_last()) == 0);
    } else {
        lemma_tail_weight(requests.drop_last());
        assert(requests.drop_last().drop_first() =~= tail.drop_last());
        assert(tail.last() == requests.last());
        assert(requests.drop_last()[0] == requests[0]);
    }
}

/// A request that still counts leaves no lighter window behind it than itself.
proof fn lemma_since_weight(requests: Seq<(u64, u32)>, cutoff: int)
    ensures
        total_weight(since(requests, cutoff)) <= total_weight(requests),
        since(requests, cutoff).len() <= requests.len(),
    decreases requests.len(),
{
    if requests.len() > 0 && requests[0].0 < cutoff {
        lemma_tail_weight(requests);
        lemma_since_weight(requests.drop_first(), cutoff);
    }
}

impl RateLimiter {
    /// A limiter with a budget per window. A budget of zero counts as one.
    pub fn new(max_per_window: u64, window_nanos: u64) -> (r: RateLimiter)
        ensures
            r@.requests.len() == 0,
            r@.max_per_window == (if max_per_window == 0 {
                1
            } else {
                max_per_window
            }),
            r@.window_nanos == window_nanos,
            r@.within_budget(),
    {
        let max: u64 = if max_per_window == 0 {
            1
        } else {
            max_per_window
        };
        RateLimiter { window: VecDeque::new(), max_per_window: max, window_nanos }
    }

    /// The budget per window.
    pub fn max_per_window(&self) -> (r: u64)
        ensures
            r == self@.max_per_window,
    {
        self.max_per_window
    }

    /// Asks to make a request of `weight` at `now`. Returns zero when it is let
    /// through, and is counted; else how long to wait before asking again. Nothing is
    /// let through while the breaker blocks.
    pub fn acquire(&mut self, breaker: &CircuitBreaker, weight: u32, now: u64) -> (r: u64)
        ensures
            breaker@ > now ==> r == breaker@ - now && final(self)@ == old(self)@,
            breaker@ <= now ==> final(self)@ == old(self)@.asked(weight, now),
            breaker@ <= now ==> r == (if old(self)@.admits(weight, now) {
                0
            } else {
                old(self)@.wait(now)
            }),
            old(self)@.within_budget() ==> final(self)@.within_budget(),
    {
        match breaker.blocked_wait(now) {
            Some(wait) => {
                return wait;
            },
            None => {},
        }
        let cutoff: u64 = now.saturating_sub(self.window_nanos);
        while self.window.len() > 0 && self.window[0].0 < cutoff
            invariant
                self.max_per_window == old(self).max_per_window,
                self.window_nanos == old(self).window_nanos,
                cutoff == (if now >= self.window_nanos {
                    now - self.window_nanos
                } else {
                    0
                }),
                old(self)@.counted(now) == since(self.window@, now - self.window_nanos),
            decreases self.window.len(),
        {
            let ghost before = self.window@;
            self.window.pop_front();
            assert(self.window@ =~= before.drop_first());
        }
        let ghost counted = self.window@;
        assert(counted == old(self)@.counted(now));
        let mut sum: u128 = 0;
        let mut i: usize = 0;
        assert(self.window@.take(0) =~= seq![]);
        while i < self.window.len()
            invariant
                i <= self.window.len(),
                self.window@ == counted,
                sum == total_weight(counted.take(i as int)),
                sum <= i * 0xffff_ffff,
            decreases self.window.len() - i,
        {
            assert(counted.take(i + 1).drop_last() =~= counted.take(i as int));
            sum = sum + self.window[i].1 as u128;
            i = i + 1;
        }
        assert(counted.take(counted.len() as int) =~= counted);
        proof {
            lemma_since_weight(old(self)@.requests, now - self.window_nanos);
        }
        if sum + weight as u128 <= self.max_per_window as u128 || self.window.len() == 0 {
            self.window.push_back((now, weight));
            assert(self.window@.drop_last() =~= counted);
            0
        } else {
            let end: u64 = self.window[0].0.saturating_add(self.window_nanos);
            let left: u64 = end.saturating_sub(now);
            if left > 1_000_000 {
                left
            } else {
                1_000_000
            }
        }
    }
}

/// What still counts is a tail, and what does not is too old.
proof fn lemma_since_is_a_tail(requests: Seq<(u64, u32)>, cutoff: int) -> (n: int)
    ensures
        0 <= n <= requests.len(),
        since(requests, cutoff) == requests.skip(n),
        forall|i: int| 0 <= i < n ==> (#[trigger] requests[i]).0 < cutoff,
    decreases requests.len(),
{
    if requests.len() > 0 && requests[0].0 < cutoff {
        let tail = requests.drop_first();
        let n = lemma_since_is_a_tail(tail, cutoff);
        assert(tail.skip(n) =~= requests.skip(n + 1));
        assert forall|i: int| 0 <= i < n + 1 implies (#[trigger] requests[i]).0 < cutoff by {
            if i > 0 {
                assert(tail[i - 1] == requests[i]);
            }
        }
        n + 1
    } else {
        assert(requests.skip(0) =~= requests);
        0
    }
}

/// A tail is no heavier than the whole.
proof fn lemma_tails_are_lighter(requests: Seq<(u64, u32)>, n: int)
    requires
        0 <= n <= requests.len(),
    ensures
        total_weight(requests.skip(n)) <= total_weight(requests),
    decreases n,
{
    if n == 0 {
        assert(requests.skip(0) =~= requests);
    } else {
        lemma_tail_weight(requests);
        lemma_tails_are_lighter(requests.drop_first(), n - 1);
        assert(requests.drop_first().skip(n - 1) =~= requests.skip(n));
    }
}

/// Requests are asked for in the order of time.
pub open spec fn in_time_order(asks: Seq<(u64, u32)>) -> bool {
    forall|i: int, j: int|
        0 <= i <= j < asks.len() ==> (#[trigger] asks[i]).0 <= (#[trigger] asks[j]).0
}

/// What a limiter holds is the end of what it let through, and what it dropped is older
/// than the window at the latest ask.
proof fn lemma_served(limiter: LimiterView, asks: Seq<(u64, u32)>) -> (dropped: int)
    requires
        limiter.requests.len() == 0,
        in_time_order(asks),
    ensures
        ({
            let (after, through) = limiter.served(asks);
            &&& after.max_per_window == limiter.max_per_window
            &&& after.window_nanos == limiter.window_nanos
            &&& 0 <= dropped <= through.len()
            &&& after.requests == through.skip(dropped)
            &&& asks.len() == 0 ==> dropped == 0
            &&& forall|i: int|
                0 <= i < dropped ==> (#[trigger] through[i]).0 < asks.last().0
                    - limiter.window_nanos
        }),
    decreases asks.len(),
{
    let (after, through) = limiter.served(asks);
    if asks.len() == 0 {
        assert(through.skip(0) =~= limiter.requests);
        0
    } else {
        let front = asks.drop_last();
        let had = lemma_served(limiter, front);
        let (before, earlier) = limiter.served(front);
        let (now, weight) = asks.last();
        let cutoff = now - limiter.window_nanos;
        let n = lemma_since_is_a_tail(before.requests, cutoff);
        let dropped = had + n;
        assert(before.requests.skip(n) =~= earlier.skip(dropped));
        assert(after.requests =~= through.skip(dropped));
        assert forall|i: int| 0 <= i < dropped implies (#[trigger] through[i]).0 < cutoff by {
            assert(through[i] == earlier[i]);
            if i < had {
                assert(front.last() == asks[asks.len() - 2]);
                assert(asks[asks.len() - 2].0 <= asks[asks.len() - 1].0);
            } else {
                assert(before.requests[i - had] == earlier[i]);
            }
        }
        dropped
    }
}

/// Within any window the requests that are let through fit the budget, whatever is asked
/// for and when; a request that is let through alone may be heavier.
pub proof fn budget_holds_in_every_window(
    limiter: LimiterView,
    asks: Seq<(u64, u32)>,
    a: int,
    b: int,
)
    requires
        limiter.requests.len() == 0,
        in_time_order(asks),
        0 <= a < b < limiter.served(asks).1.len(),
        limiter.served(asks).1[b].0 - limiter.served(asks).1[a].0 <= limiter.window_nanos,
    ensures
        total_weight(limiter.served(asks).1.subrange(a, b + 1)) <= limiter.max_per_window,
    decreases asks.len(),
{
    let front = asks.drop_last();
    let (before, earlier) = limiter.served(front);
    let through = limiter.served(asks).1;
    let (now, weight) = asks.last();
    if b < earlier.len() {
        budget_holds_in_every_window(limiter, front, a, b);
        assert(through.subrange(a, b + 1) =~= earlier.subrange(a, b + 1));
    } else {
        let had = lemma_served(limiter, front);
        let n = lemma_since_is_a_tail(before.requests, now - limiter.window_nanos);
        let counted = before.counted(now);
        assert(counted =~= earlier.skip(had + n));
        assert(through[a] == earlier[a]);
        assert(a >= had + n) by {
            if a < had {
                assert(front.last() == asks[asks.len() - 2]);
                assert(asks[asks.len() - 2].0 <= asks[asks.len() - 1].0);
            } else if a < had + n {
                assert(before.requests[a - had] == earlier[a]);
            }
        }
        let all = counted.push((now, weight));
        assert(all.drop_last() =~= counted);
        assert(through.subrange(a, b + 1) =~= all.skip(a - had - n));
        lemma_tails_are_lighter(all, a - had - n);
    }
}

/// No run of requests that a limiter still holds is heavier than the budget, unless it
/// is a single request.
pub proof fn recent_requests_fit(limiter: LimiterView, cutoff: int)
    requires
        limiter.within_budget(),
    ensures
        total_weight(since(limiter.requests, cutoff)) <= limiter.max_per_window || since(
            limiter.requests,
            cutoff,
        ).len() == 1,
{
    lemma_since_weight(limiter.requests, cutoff);
    if limiter.requests.len() == 1 && since(limiter.requests, cutoff).len() == 0 {
        assert(since(limiter.requests, cutoff) =~= seq![]);
    }
}

/// A request that is older than the window never keeps another one waiting.
pub proof fn old_requests_do_not_count(limiter: LimiterView, now: u64, i: int)
    requires
        forall|a: int, b: int|
            0 <= a <= b < limiter.requests.len() ==> (#[trigger] limiter.requests[a]).0 <= (
            #[trigger] limiter.requests[b]).0,
        0 <= i < limiter.counted(now).len(),
    ensures
        limiter.counted(now)[i].0 >= now - limiter.window_nanos,
{
    lemma_since_is_recent(limiter.requests, now - limiter.window_nanos, i);
}

proof fn lemma_since_is_recent(requests: Seq<(u64, u32)>, cutoff: int, i: int)
    requires
        forall|a: int, b: int|
            0 <= a <= b < requests.len() ==> (#[trigger] requests[a]).0 <= (
            #[trigger] requests[b]).0,
        0 <= i < since(requests, cutoff).len(),
    ensures
        since(requests, cutoff)[i].0 >= cutoff,
    decreases requests.len(),
{
    if requests.len() > 0 && requests[0].0 < cutoff {
        let tail = requests.drop_first();
        assert forall|a: int, b: int| 0 <= a <= b < tail.len() implies (#[trigger] tail[a]).0 <= (
        #[trigger] tail[b]).0 by {
            assert(requests[a + 1].0 <= requests[b + 1].0);
        }
        lemma_since_is_recent(tail, cutoff, i);
    } else {
        assert(requests[0].0 <= requests[i].0);
    }
}

/// Tripping a breaker never ends a pause earlier, and blocks at least as long as was
/// asked for.
pub proof fn pauses_only_grow(until: u64, now: u64, nanos: u64)
    ensures
        tripped(until, now, nanos) >= until,
        tripped(until, now, nanos) >= now + nanos || tripped(until, now, nanos) == u64::MAX,
{
}

/// The breaker stays shut to the later of the end that it had and the end of the pause,
/// which is the last moment that there is where the pause goes beyond it.
pub proof fn pauses_end_at_the_later_time(until: u64, now: u64, nanos: u64)
    ensures
        now + nanos <= until ==> tripped(until, now, nanos) == until,
        until < now + nanos <= u64::MAX ==> tripped(until, now, nanos) == now + nanos,
        now + nanos > u64::MAX ==> tripped(until, now, nanos) == u64::MAX,
{
}

/// Exactly the requests from before the cutoff leave that are ahead of the first later one.
pub proof fn only_old_requests_leave(
    old_ones: Seq<(u64, u32)>,
    kept: Seq<(u64, u32)>,
    cutoff: int,
)
    requires
        forall|i: int| 0 <= i < old_ones.len() ==> (#[trigger] old_ones[i]).0 < cutoff,
        kept.len() > 0 ==> kept[0].0 >= cutoff,
    ensures
        since(old_ones + kept, cutoff) == kept,
    decreases old_ones.len(),
{
    if old_ones.len() == 0 {
        assert(old_ones + kept =~= kept);
    } else {
        let fewer = old_ones.drop_first();
        assert(old_ones[0].0 < cutoff);
        assert forall|i: int| 0 <= i < fewer.len() implies (#[trigger] fewer[i]).0 < cutoff by {
            assert(fewer[i] == old_ones[i + 1]);
        }
        only_old_requests_leave(fewer, kept, cutoff);
        assert((old_ones + kept)[0] == old_ones[0]);
        assert((old_ones + kept).drop_first() =~= fewer + kept);
    }
}

/// Weights add up.
pub proof fn weights_add_up(first: Seq<(u64, u32)>, rest: Seq<(u64, u32)>)
    ensures
        total_weight(first + rest) == total_weight(first) + total_weight(rest),
        rest.len() == 1 ==> total_weight(rest) == rest[0].1,
        rest.len() == 0 ==> total_weight(rest) == 0,
    decreases rest.len(),
{
    if rest.len() == 0 {
        assert(first + rest =~= first);
    } else {
        weights_add_up(first, rest.drop_last());
        assert((first + rest).drop_last() =~= first + rest.drop_last());
        if rest.len() == 1 {
            assert(rest.drop_last() =~= seq![]);
        }
    }
}

/// A request is let through, and counted, exactly where its weight still fits with those of
/// the window, or where it is alone; one that does not fit changes nothing.
pub proof fn fitting_requests_are_let_through(
    limiter: LimiterView,
    old_ones: Seq<(u64, u32)>,
    recent: Seq<(u64, u32)>,
    weight: u32,
    now: u64,
)
    requires
        limiter.requests == old_ones + recent,
        forall|i: int|
            0 <= i < old_ones.len() ==> (#[trigger] old_ones[i]).0 + limiter.window_nanos < now,
        recent.len() > 0 ==> recent[0].0 + limiter.window_nanos >= now,
    ensures
        total_weight(recent) + weight <= limiter.max_per_window || recent.len() == 0 ==> {
            &&& limiter.admits(weight, now)
            &&& limiter.asked(weight, now).requests == recent.push((now, weight))
        },
        total_weight(recent) + weight > limiter.max_per_window && recent.len() > 0 ==> {
            &&& !limiter.admits(weight, now)
            &&& limiter.asked(weight, now).requests == recent
        },
        limiter.asked(weight, now).max_per_window == limiter.max_per_window,
        limiter.asked(weight, now).window_nanos == limiter.window_nanos,
{
    only_old_requests_leave(old_ones, recent, now - limiter.window_nanos);
}

/// A request that does not fit waits until the oldest of the window is as old as the
/// window is long, and a millisecond at least.
pub proof fn waits_end_with_the_oldest_request(
    limiter: LimiterView,
    old_ones: Seq<(u64, u32)>,
    recent: Seq<(u64, u32)>,
    now: u64,
)
    requires
        limiter.requests == old_ones + recent,
        forall|i: int|
            0 <= i < old_ones.len() ==> (#[trigger] old_ones[i]).0 + limiter.window_nanos < now,
        recent.len() > 0,
        recent[0].0 + limiter.window_nanos >= now,
    ensures
        limiter.wait(now) >= 1_000_000,
        recent[0].0 + limiter.window_nanos <= u64::MAX && recent[0].0 + limiter.window_nanos
            >= now + 1_000_000 ==> now + limiter.wait(now) == recent[0].0 + limiter.window_nanos,
        recent[0].0 + limiter.window_nanos < now + 1_000_000 ==> limiter.wait(now) == 1_000_000,
{
    only_old_requests_leave(old_ones, recent, now - limiter.window_nanos);
}

} // verus!
