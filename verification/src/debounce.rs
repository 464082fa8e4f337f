//! Debounce scheduler: turns bursty update signals into bounded-frequency
//! callback firings, with a heartbeat when nothing arrives at all.
//!
//! The scheduler is a pure state machine over absolute times. The caller
//! runs the event loop: it waits until either an update signal arrives
//! (before the pending deadline), the deadline passes, or a stop signal
//! arrives, and feeds the corresponding step function. Update steps never
//! fire the callback; only a timer step does, and it reports the time of
//! the last update and whether any update arrived since the last firing.
use vstd::prelude::*;

verus! {

/// The three timeout tiers, in the caller's time unit.
#[derive(Clone, Copy, PartialEq, Eq, Structural, Debug)]
pub struct DebounceConfig {
    /// Grace period after an update while no callback has fired yet.
    pub start_timeout: u64,
    /// Grace period after an update once some callback has fired.
    pub update_timeout: u64,
    /// Ceiling: a callback fires this long after the previous firing (or
    /// after start) even with no update at all.
    pub no_update_timeout: u64,
}

/// What one timer firing hands to the callback.
#[derive(Clone, Copy, PartialEq, Eq, Structural, Debug)]
pub struct Fire {
    /// Time of the most recent update signal.
    pub time: u64,
    /// Whether any update arrived since the previous firing.
    pub had_update: bool,
}

/// The scheduler state between events.
#[derive(Clone, Copy, PartialEq, Eq, Structural, Debug)]
pub struct DebounceScheduler {
    pub config: DebounceConfig,
    /// Absolute time at which the pending timer expires.
    pub deadline: u64,
    /// Absolute time of the most recent update signal.
    pub last_update: u64,
    /// Whether an update arrived since the last firing.
    pub had_update: bool,
    /// True until the first firing: updates rearm to `start_timeout`.
    pub first_burst: bool,
    /// Once stopped, no further callback ever fires.
    pub stopped: bool,
}

impl DebounceScheduler {
    /// The grace period an update rearms to in this state.
    pub open spec fn burst_timeout(self) -> u64 {
        if self.first_burst {
            self.config.start_timeout
        } else {
            self.config.update_timeout
        }
    }

    pub open spec fn spec_new(config: DebounceConfig, now: u64) -> DebounceScheduler {
        DebounceScheduler {
            config,
            deadline: (now + config.no_update_timeout) as u64,
            last_update: now,
            had_update: false,
            first_burst: true,
            stopped: false,
        }
    }

    pub open spec fn spec_on_update(self, now: u64) -> DebounceScheduler {
        DebounceScheduler {
            last_update: now,
            had_update: true,
            deadline: (now + self.burst_timeout()) as u64,
            ..self
        }
    }

    pub open spec fn spec_on_timer(self) -> (DebounceScheduler, Fire) {
        (
            DebounceScheduler {
                had_update: false,
                first_burst: false,
                deadline: (self.deadline + self.config.no_update_timeout) as u64,
                ..self
            },
            Fire { time: self.last_update, had_update: self.had_update },
        )
    }

    /// Arms the first wait: a heartbeat `no_update_timeout` from now.
    pub fn new(config: DebounceConfig, now: u64) -> (r: DebounceScheduler)
        requires
            now + config.no_update_timeout <= u64::MAX,
        ensures
            r == DebounceScheduler::spec_new(config, now),
    {
        DebounceScheduler {
            config,
            deadline: now + config.no_update_timeout,
            last_update: now,
            had_update: false,
            first_burst: true,
            stopped: false,
        }
    }

    /// An update signal arrived at `now`, before the pending deadline:
    /// remember it and rearm the grace period. Never fires the callback.
    pub fn on_update(&mut self, now: u64)
        requires
            !old(self).stopped,
            now + old(self).burst_timeout() <= u64::MAX,
        ensures
            *final(self) == old(self).spec_on_update(now),
    {
        self.last_update = now;
        self.had_update = true;
        self.deadline = now + if self.first_burst {
            self.config.start_timeout
        } else {
            self.config.update_timeout
        };
    }

    /// The pending deadline passed with no update and no stop: fire the
    /// callback once and arm the next heartbeat.
    pub fn on_timer(&mut self) -> (f: Fire)
        requires
            !old(self).stopped,
            old(self).deadline + old(self).config.no_update_timeout <= u64::MAX,
        ensures
            (*final(self), f) == old(self).spec_on_timer(),
    {
        let f = Fire { time: self.last_update, had_update: self.had_update };
        self.had_update = false;
        self.first_burst = false;
        self.deadline = self.deadline + self.config.no_update_timeout;
        f
    }

    /// A stop signal: the loop terminates; no further callback fires.
    pub fn on_stop(&mut self)
        ensures
            *final(self) == (DebounceScheduler { stopped: true, ..*old(self) }),
    {
        self.stopped = true;
    }
}

/// The state after a sequence of update signals, first signal first.
pub open spec fn run_updates(s: DebounceScheduler, ts: Seq<u64>) -> DebounceScheduler
    decreases ts.len(),
{
    if ts.len() == 0 {
        s
    } else {
        run_updates(s, ts.drop_last()).spec_on_update(ts.last())
    }
}

/// Each update in the sequence arrives strictly before the deadline then
/// pending, so the timer never intervenes during the burst.
pub open spec fn updates_admissible(s: DebounceScheduler, ts: Seq<u64>) -> bool
    decreases ts.len(),
{
    if ts.len() == 0 {
        true
    } else {
        updates_admissible(s, ts.drop_last()) && ts.last() < run_updates(s, ts.drop_last()).deadline
    }
}

/// A burst of updates at times t1 < t2 < ... < tn, each within the grace
/// period of its predecessor and the first before the pending deadline,
/// produces no firing while it lasts, and exactly one firing afterwards:
/// at tn plus the grace period (`start_timeout` during the first-ever
/// burst, `update_timeout` later), reporting the last update time and
/// that an update occurred.
pub proof fn lemma_burst_single_fire(s: DebounceScheduler, ts: Seq<u64>)
    requires
        !s.stopped,
        ts.len() >= 1,
        ts[0] < s.deadline,
        forall|i: int| 0 < i < ts.len() ==> #[trigger] ts[i - 1] < ts[i],
        forall|i: int| 0 < i < ts.len() ==> #[trigger] ts[i] < ts[i - 1] + s.burst_timeout(),
        forall|i: int| 0 <= i < ts.len() ==> #[trigger] ts[i] + s.burst_timeout() <= u64::MAX,
    ensures
        updates_admissible(s, ts),
        run_updates(s, ts) == (DebounceScheduler {
            last_update: ts.last(),
            had_update: true,
            deadline: (ts.last() + s.burst_timeout()) as u64,
            ..s
        }),
        run_updates(s, ts).spec_on_timer().1 == (Fire { time: ts.last(), had_update: true }),
    decreases ts.len(),
{
    if ts.len() == 1 {
        assert(ts.drop_last() =~= Seq::<u64>::empty());
        assert(updates_admissible(s, Seq::<u64>::empty()));
        assert(run_updates(s, Seq::<u64>::empty()) == s);
    } else {
        let pre = ts.drop_last();
        assert(pre[0] == ts[0]);
        assert forall|i: int| 0 < i < pre.len() implies #[trigger] pre[i - 1] < pre[i] by {
            assert(pre[i - 1] == ts[i - 1] && pre[i] == ts[i]);
        }
        assert forall|i: int| 0 < i < pre.len() implies #[trigger] pre[i] < pre[i - 1]
            + s.burst_timeout() by {
            assert(pre[i - 1] == ts[i - 1] && pre[i] == ts[i]);
        }
        assert forall|i: int| 0 <= i < pre.len() implies #[trigger] pre[i] + s.burst_timeout()
            <= u64::MAX by {
            assert(pre[i] == ts[i]);
        }
        lemma_burst_single_fire(s, pre);
        assert(pre.last() == ts[ts.len() - 2]);
        assert(ts.last() == ts[ts.len() - 1]);
        assert(ts[ts.len() - 1] < ts[ts.len() - 2] + s.burst_timeout());
        assert(ts[ts.len() - 2] + s.burst_timeout() <= u64::MAX);
    }
}

/// The state after `k` timer firings with no update in between.
pub open spec fn run_timers(s: DebounceScheduler, k: nat) -> DebounceScheduler
    decreases k,
{
    if k == 0 {
        s
    } else {
        run_timers(s, (k - 1) as nat).spec_on_timer().0
    }
}

/// With no update signal at all, the `k`-th callback (counting from
/// zero) fires `k` heartbeat periods past the pending deadline, reports
/// that no update occurred, and arms the next heartbeat: so a callback
/// fires every `no_update_timeout` indefinitely, until a stop.
pub proof fn lemma_heartbeat(s: DebounceScheduler, k: nat)
    requires
        !s.stopped,
        !s.had_update,
        s.deadline + (k + 1) * s.config.no_update_timeout <= u64::MAX,
    ensures
        run_timers(s, k).deadline == s.deadline + k * s.config.no_update_timeout,
        run_timers(s, k).last_update == s.last_update,
        !run_timers(s, k).had_update,
        !run_timers(s, k).stopped,
        run_timers(s, k).config == s.config,
        run_timers(s, k).spec_on_timer().1 == (Fire {
            time: s.last_update,
            had_update: false,
        }),
    decreases k,
{
    let t = s.config.no_update_timeout;
    assert(k * t <= (k + 1) * t && (k + 1) * t == k * t + t) by (nonlinear_arith);
    if k == 0 {
        assert(run_timers(s, 0) == s);
        assert(s.deadline + 0 * t == s.deadline);
    } else {
        assert((k - 1) * t + t == k * t && ((k - 1) + 1) * t == k * t) by (nonlinear_arith);
        lemma_heartbeat(s, (k - 1) as nat);
        assert(run_timers(s, k) == run_timers(s, (k - 1) as nat).spec_on_timer().0);
        assert(run_timers(s, (k - 1) as nat).deadline == s.deadline + (k - 1) * t);
    }
}

} // verus!
