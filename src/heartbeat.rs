//! The heartbeat task as an explicit continuation, and an idealised timeline
//! of its wake-ups under higher-priority interference.
//!
//! Each iteration of the task toggles its output pin and then suspends until
//! `now + period`: exactly one suspension point per iteration, so the task
//! never starves tasks of equal or lower priority.
use vstd::prelude::*;
use crate::timer::{deadline_after, spec_deadline_after};

verus! {

/// Where the heartbeat's body stands.
#[derive(Clone, Copy, Debug, PartialEq, Eq, Structural)]
pub enum Phase {
    /// Spawned, not yet run: the next resumption toggles the pin.
    AwaitingToggle,
    /// Suspended on the timer until `deadline`.
    AwaitingDeadline { deadline: u64 },
}

/// The heartbeat's state: its period, phase and the level of its pin.
#[derive(Clone, Copy, Debug, PartialEq, Eq, Structural)]
pub struct Heartbeat {
    pub period: u64,
    pub phase: Phase,
    pub led_high: bool,
}

impl Heartbeat {
    /// A freshly spawned heartbeat; start-up has driven the pin low.
    pub fn new(period: u64) -> (h: Heartbeat)
        ensures
            h.period == period,
            h.phase == Phase::AwaitingToggle,
            !h.led_high,
    {
        Heartbeat { period, phase: Phase::AwaitingToggle, led_high: false }
    }

    /// Runs the body from its continuation at time `now`: toggles the pin and
    /// returns the deadline of the next suspension, `now + period`. A
    /// resumption before the pending deadline changes nothing and returns
    /// that deadline again: no deadline fires early.
    pub fn resume(&mut self, now: u64) -> (deadline: u64)
        ensures
            final(self).period == old(self).period,
            old(self).phase matches Phase::AwaitingDeadline { deadline: d } ==> (now < d ==> (
            *final(self) == *old(self) && deadline == d)),
            !(old(self).phase matches Phase::AwaitingDeadline { deadline: d } && now < d) ==> {
                &&& deadline == spec_deadline_after(now, old(self).period)
                &&& final(self).led_high == !old(self).led_high
                &&& final(self).phase == (Phase::AwaitingDeadline { deadline })
            },
            *final(self) == spec_resume(*old(self), now),
    {
        match self.phase {
            Phase::AwaitingDeadline { deadline } => {
                if now < deadline {
                    return deadline;
                }
            },
            Phase::AwaitingToggle => {},
        }
        self.led_high = !self.led_high;
        let deadline = deadline_after(now, self.period);
        self.phase = Phase::AwaitingDeadline { deadline };
        deadline
    }
}

/// A resumption at `now` comes before the pending deadline.
pub open spec fn early(h: Heartbeat, now: u64) -> bool {
    h.phase matches Phase::AwaitingDeadline { deadline } && now < deadline
}

/// The heartbeat after a resumption at `now`.
pub open spec fn spec_resume(h: Heartbeat, now: u64) -> Heartbeat {
    if early(h, now) {
        h
    } else {
        Heartbeat {
            period: h.period,
            phase: Phase::AwaitingDeadline { deadline: spec_deadline_after(now, h.period) },
            led_high: !h.led_high,
        }
    }
}

/// The heartbeat after resumptions at the first `n` of `times`.
pub open spec fn resume_upto(h: Heartbeat, times: Seq<u64>, n: int) -> Heartbeat
    decreases n,
{
    if n <= 0 {
        h
    } else {
        spec_resume(resume_upto(h, times, n - 1), times[n - 1])
    }
}

/// An interval during which a higher-priority task occupies the processor.
#[derive(Clone, Copy, Debug, PartialEq, Eq, Structural)]
pub struct Busy {
    pub start: u64,
    pub len: u64,
}

/// The interval ends within the counter's range.
pub open spec fn busy_ok(b: Busy) -> bool {
    b.start + b.len <= u64::MAX
}

/// Time `t` pushed past interval `b` if it falls inside it.
pub open spec fn step_over(t: int, b: Busy) -> int {
    if b.start <= t < b.start + b.len {
        b.start + b.len
    } else {
        t
    }
}

/// When a lowest-priority task that becomes ready at `t` actually runs,
/// given the busy intervals in time order.
pub open spec fn release(t: int, busy: Seq<Busy>) -> int
    decreases busy.len(),
{
    if busy.len() == 0 {
        t
    } else {
        release(step_over(t, busy[0]), busy.drop_first())
    }
}

/// `r` is the sequence of toggle times of a heartbeat armed at time 0 with
/// period `period`, run until `horizon`: each wake is the release of the
/// previous wake plus the period, and the next one would fall after `horizon`.
pub open spec fn is_run(period: u64, horizon: u64, busy: Seq<Busy>, r: Seq<u64>) -> bool {
    &&& forall|i: int| 0 <= i < r.len() ==> #[trigger] r[i] <= horizon
    &&& r.len() > 0 ==> r[0] == release(period as int, busy)
    &&& forall|i: int| 0 <= i < r.len() - 1 ==> #[trigger] r[i + 1] == release(r[i] + period, busy)
    &&& release(
        (if r.len() == 0 {
            0
        } else {
            r.last()
        }) + period,
        busy,
    ) > horizon
}

/// Release never moves a time earlier.
pub proof fn lemma_release_not_early(t: int, busy: Seq<Busy>)
    ensures
        release(t, busy) >= t,
    decreases busy.len(),
{
    if busy.len() > 0 {
        lemma_release_not_early(step_over(t, busy[0]), busy.drop_first());
    }
}

/// The time at which a task ready at `t` runs past the busy intervals.
pub fn release_time(t: u64, busy: &Vec<Busy>) -> (r: u64)
    requires
        forall|i: int| 0 <= i < busy@.len() ==> busy_ok(#[trigger] busy@[i]),
    ensures
        r == release(t as int, busy@),
{
    let mut cur: u64 = t;
    let mut i: usize = 0;
    assert(busy@.subrange(0, busy@.len() as int) =~= busy@);
    while i < busy.len()
        invariant
            i <= busy@.len(),
            forall|k: int| 0 <= k < busy@.len() ==> busy_ok(#[trigger] busy@[k]),
            release(t as int, busy@) == release(cur as int, busy@.subrange(i as int, busy@.len() as int)),
        decreases busy@.len() - i,
    {
        let b = busy[i];
        assert(busy_ok(b));
        assert(busy@.subrange(i as int, busy@.len() as int).drop_first() =~= busy@.subrange(
            i + 1,
            busy@.len() as int,
        ));
        if b.start <= cur && cur - b.start < b.len {
            cur = b.start + b.len;
        }
        i = i + 1;
    }
    assert(busy@.subrange(i as int, busy@.len() as int) =~= Seq::<Busy>::empty());
    cur
}

/// The toggle times of a heartbeat armed at time 0 with period `period`, up
/// to and including `horizon`, when higher-priority work occupies the
/// processor during the intervals `busy` (in time order). Consecutive toggles
/// are at least one period apart, and none comes before its deadline.
pub fn simulate(period: u64, horizon: u64, busy: &Vec<Busy>) -> (r: Vec<u64>)
    requires
        period > 0,
        forall|i: int| 0 <= i < busy@.len() ==> busy_ok(#[trigger] busy@[i]),
    ensures
        is_run(period, horizon, busy@, r@),
        r@.len() > 0 ==> r@[0] >= period,
        forall|i: int| 0 <= i < r@.len() - 1 ==> #[trigger] r@[i + 1] >= r@[i] + period,
{
    let mut r: Vec<u64> = Vec::new();
    let mut last: u64 = 0;
    loop
        invariant
            period > 0,
            forall|i: int| 0 <= i < busy@.len() ==> busy_ok(#[trigger] busy@[i]),
            forall|i: int| 0 <= i < r@.len() ==> #[trigger] r@[i] <= horizon,
            r@.len() > 0 ==> r@[0] == release(period as int, busy@),
            forall|i: int| 0 <= i < r@.len() - 1 ==> #[trigger] r@[i + 1] == release(r@[i] + period, busy@),
            r@.len() == 0 ==> last == 0,
            r@.len() > 0 ==> last == r@.last(),
            last <= horizon,
        ensures
            forall|i: int| 0 <= i < r@.len() ==> #[trigger] r@[i] <= horizon,
            r@.len() > 0 ==> r@[0] == release(period as int, busy@),
            forall|i: int| 0 <= i < r@.len() - 1 ==> #[trigger] r@[i + 1] == release(r@[i] + period, busy@),
            r@.len() == 0 ==> last == 0,
            r@.len() > 0 ==> last == r@.last(),
            release(last + period, busy@) > horizon,
        decreases horizon - last,
    {
        let d = match last.checked_add(period) {
            Some(d) => d,
            None => {
                proof {
                    lemma_release_not_early(last + period, busy@);
                }
                break;
            },
        };
        let w = release_time(d, busy);
        proof {
            lemma_release_not_early(d as int, busy@);
        }
        if w > horizon {
            break;
        }
        let ghost prev = r@;
        r.push(w);
        assert(r@.len() > 1 ==> r@[r@.len() - 2] == prev.last());
        last = w;
    }
    proof {
        lemma_run_spacing(period, horizon, busy@, r@);
    }
    r
}

/// Deadline monotonicity: in any run, the first toggle is no earlier than one
/// period after arming, and consecutive toggles are increasing and at least
/// one period apart; interference only ever delays them.
pub proof fn lemma_run_spacing(period: u64, horizon: u64, busy: Seq<Busy>, r: Seq<u64>)
    requires
        is_run(period, horizon, busy, r),
    ensures
        r.len() > 0 ==> r[0] >= period,
        forall|i: int| 0 <= i < r.len() - 1 ==> #[trigger] r[i + 1] >= r[i] + period,
        forall|i: int, j: int| 0 <= i < j < r.len() ==> #[trigger] r[i] <= #[trigger] r[j],
{
    assert forall|i: int| 0 <= i < r.len() - 1 implies #[trigger] r[i + 1] >= r[i] + period by {
        lemma_release_not_early(r[i] + period, busy);
    }
    if r.len() > 0 {
        lemma_release_not_early(period as int, busy);
    }
    assert forall|i: int, j: int| 0 <= i < j < r.len() implies #[trigger] r[i] <= #[trigger] r[j] by {
        lemma_run_increasing(period, horizon, busy, r, i, j);
    }
}

proof fn lemma_run_increasing(period: u64, horizon: u64, busy: Seq<Busy>, r: Seq<u64>, i: int, j: int)
    requires
        is_run(period, horizon, busy, r),
        0 <= i <= j < r.len(),
    ensures
        r[i] <= r[j],
    decreases j - i,
{
    if i < j {
        lemma_run_increasing(period, horizon, busy, r, i, j - 1);
        lemma_release_not_early(r[j - 1] + period, busy);
        assert(r[(j - 1) + 1] == release(r[j - 1] + period, busy));
    }
}

/// No missed re-arm: with no interference, a run over `n` periods toggles
/// exactly `n` times, at each multiple of the period.
pub proof fn lemma_idle_run(period: u64, n: nat, r: Seq<u64>)
    requires
        period > 0,
        n * period <= u64::MAX,
        is_run(period, (n * period) as u64, Seq::<Busy>::empty(), r),
    ensures
        r.len() == n,
        forall|i: int| 0 <= i < r.len() ==> #[trigger] r[i] == (i + 1) * period,
{
    let horizon = (n * period) as u64;
    let e = Seq::<Busy>::empty();
    assert forall|i: int| 0 <= i < r.len() implies #[trigger] r[i] == (i + 1) * period by {
        lemma_idle_prefix(period, horizon, r, i);
    }
    let len = r.len() as int;
    if len > n {
        assert(r[n as int] == (n + 1) * period);
        assert((n + 1) * period > n * period) by (nonlinear_arith)
            requires
                period > 0,
        ;
    } else if len < n {
        let last: int = if len == 0 {
            0
        } else {
            r.last() as int
        };
        assert(last == len * period) by {
            if len > 0 {
                assert(r[len - 1] == len * period);
            }
        }
        assert(release(last + period, e) == last + period);
        assert((len + 1) * period <= n * period) by (nonlinear_arith)
            requires
                len + 1 <= n,
                period > 0,
        ;
        assert(last + period == (len + 1) * period) by (nonlinear_arith)
            requires
                last == len * period,
        ;
    }
}

proof fn lemma_idle_prefix(period: u64, horizon: u64, r: Seq<u64>, k: int)
    requires
        is_run(period, horizon, Seq::<Busy>::empty(), r),
        0 <= k < r.len(),
    ensures
        r[k] == (k + 1) * period,
    decreases k,
{
    if k == 0 {
        assert(release(period as int, Seq::<Busy>::empty()) == period);
    } else {
        lemma_idle_prefix(period, horizon, r, k - 1);
        assert(r[(k - 1) + 1] == release(r[k - 1] + period, Seq::<Busy>::empty()));
        assert(release(r[k - 1] + period, Seq::<Busy>::empty()) == r[k - 1] + period);
        assert(k * period + period == (k + 1) * period) by (nonlinear_arith);
    }
}

/// The total time during which the intervals `busy` occupy the processor.
pub open spec fn total_busy(busy: Seq<Busy>) -> int
    decreases busy.len(),
{
    if busy.len() == 0 {
        0
    } else {
        busy[0].len + total_busy(busy.drop_first())
    }
}

/// Bounded lateness: a task ready at `t` runs no later than `t` plus the
/// total time taken by higher-priority work.
pub proof fn lemma_release_bounded(t: int, busy: Seq<Busy>)
    ensures
        t <= release(t, busy) <= t + total_busy(busy),
    decreases busy.len(),
{
    lemma_release_not_early(t, busy);
    if busy.len() > 0 {
        lemma_release_bounded(step_over(t, busy[0]), busy.drop_first());
    }
}

/// No lost re-arm: under finitely many busy intervals the heartbeat keeps
/// toggling. Any run whose horizon reaches `t + period + total_busy(busy)`
/// has a toggle after `t`.
pub proof fn lemma_run_live(period: u64, horizon: u64, busy: Seq<Busy>, r: Seq<u64>, t: int)
    requires
        is_run(period, horizon, busy, r),
        0 <= t,
        t + period + total_busy(busy) <= horizon,
    ensures
        exists|k: int| 0 <= k < r.len() && #[trigger] r[k] > t,
{
    if !(exists|k: int| 0 <= k < r.len() && #[trigger] r[k] > t) {
        let last: int = if r.len() == 0 {
            0
        } else {
            r.last() as int
        };
        if r.len() > 0 {
            assert(!(r[r.len() - 1] > t));
        }
        lemma_release_bounded(last + period, busy);
    }
}

/// The total length of the intervals of `busy` that meet the window
/// `[lo, hi]`.
pub open spec fn busy_within(busy: Seq<Busy>, lo: int, hi: int) -> int
    decreases busy.len(),
{
    if busy.len() == 0 {
        0
    } else {
        (if busy[0].start <= hi && busy[0].start + busy[0].len > lo {
            busy[0].len as int
        } else {
            0
        }) + busy_within(busy.drop_first(), lo, hi)
    }
}

proof fn lemma_busy_within_widen(busy: Seq<Busy>, lo1: int, lo2: int, hi: int)
    requires
        lo1 <= lo2,
    ensures
        0 <= busy_within(busy, lo2, hi) <= busy_within(busy, lo1, hi),
    decreases busy.len(),
{
    if busy.len() > 0 {
        lemma_busy_within_widen(busy.drop_first(), lo1, lo2, hi);
    }
}

/// Lateness is bounded by interference: a task ready at `t` and running at
/// `release(t, busy)` is late by at most the time that higher-priority work
/// occupies within `[t, release(t, busy)]` (or any later window end `hi`).
pub proof fn lemma_lateness_bounded(t: int, busy: Seq<Busy>, hi: int)
    requires
        hi >= release(t, busy),
    ensures
        release(t, busy) - t <= busy_within(busy, t, hi),
    decreases busy.len(),
{
    if busy.len() > 0 {
        let b = busy[0];
        let rest = busy.drop_first();
        let t1 = step_over(t, b);
        lemma_release_not_early(t1, rest);
        lemma_lateness_bounded(t1, rest, hi);
        lemma_busy_within_widen(rest, t, t1, hi);
    }
}

/// Every wake of a run toggles: resuming a heartbeat armed at time 0 at the
/// first `n` toggle times of its run flips the pin `n` times and leaves it
/// suspended until one period after the last of them.
pub proof fn lemma_run_levels(h: Heartbeat, horizon: u64, busy: Seq<Busy>, r: Seq<u64>, n: int)
    requires
        h.phase == (Phase::AwaitingDeadline { deadline: h.period }),
        is_run(h.period, horizon, busy, r),
        0 <= n <= r.len(),
    ensures
        resume_upto(h, r, n).led_high == (h.led_high != (n % 2 == 1)),
        resume_upto(h, r, n).period == h.period,
        n == 0 ==> resume_upto(h, r, n) == h,
        n > 0 ==> resume_upto(h, r, n).phase == (Phase::AwaitingDeadline {
            deadline: spec_deadline_after(r[n - 1], h.period),
        }),
    decreases n,
{
    if n > 0 {
        lemma_run_levels(h, horizon, busy, r, n - 1);
        if n == 1 {
            lemma_release_not_early(h.period as int, busy);
        } else {
            lemma_release_not_early(r[n - 2] + h.period, busy);
            assert(r[(n - 2) + 1] == release(r[n - 2] + h.period, busy));
        }
        assert(!early(resume_upto(h, r, n - 1), r[n - 1]));
    }
}

/// With no interference, a heartbeat armed at time 0 and run for `n`
/// periods toggles exactly `n` times, so its pin ends at its starting level
/// flipped `n` times.
pub proof fn lemma_idle_levels(h: Heartbeat, n: nat, r: Seq<u64>)
    requires
        h.period > 0,
        n * h.period <= u64::MAX,
        h.phase == (Phase::AwaitingDeadline { deadline: h.period }),
        is_run(h.period, (n * h.period) as u64, Seq::<Busy>::empty(), r),
    ensures
        r.len() == n,
        resume_upto(h, r, n as int).led_high == (h.led_high != (n % 2 == 1)),
{
    lemma_idle_run(h.period, n, r);
    lemma_run_levels(h, (n * h.period) as u64, Seq::<Busy>::empty(), r, n as int);
}

} // verus!
