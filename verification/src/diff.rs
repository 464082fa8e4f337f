//! Per-target coverage differences between the current snapshot and up
//! to two baselines: the snapshot most recently persisted within this
//! run, and the one loaded from the most recent completed prior run.
use vstd::prelude::*;

use crate::status::{FuzzingStatus, TargetStatus};

verus! {

/// Which way a counter moved between two snapshots.
#[derive(Clone, Copy, PartialEq, Eq, Structural, Debug)]
pub enum StatusTrend {
    Unchanged,
    Improvement,
    Regression,
    Progressing,
}

/// The trend a signed difference stands for.
pub open spec fn spec_trend(delta: int) -> StatusTrend {
    if delta < 0 {
        StatusTrend::Regression
    } else if delta > 0 {
        StatusTrend::Improvement
    } else {
        StatusTrend::Unchanged
    }
}

impl From<i64> for StatusTrend {
    fn from(delta: i64) -> (r: StatusTrend) {
        if delta < 0 {
            StatusTrend::Regression
        } else if delta > 0 {
            StatusTrend::Improvement
        } else {
            StatusTrend::Unchanged
        }
    }
}

impl vstd::std_specs::convert::FromSpecImpl<i64> for StatusTrend {
    open spec fn obeys_from_spec() -> bool {
        true
    }

    open spec fn from_spec(delta: i64) -> StatusTrend {
        spec_trend(delta as int)
    }
}

impl Default for StatusTrend {
    fn default() -> (r: StatusTrend)
        ensures
            r == StatusTrend::Unchanged,
    {
        StatusTrend::Unchanged
    }
}

/// Signed differences of the three counters between two snapshots of
/// one target (`curr - baseline`), with the trend of the total.
#[derive(Clone, Copy, PartialEq, Eq, Structural, Debug)]
pub struct TargetStatusDelta {
    pub total: i64,
    pub covered: i64,
    pub errors: i64,
    pub trend: StatusTrend,
}

/// The delta between a current status and a baseline.
pub open spec fn spec_delta(curr: TargetStatus, prev: TargetStatus) -> TargetStatusDelta {
    TargetStatusDelta {
        total: (curr.total - prev.total) as i64,
        covered: (curr.covered - prev.covered) as i64,
        errors: (curr.errors - prev.errors) as i64,
        trend: spec_trend(curr.total - prev.total),
    }
}

impl From<(TargetStatus, TargetStatus)> for TargetStatusDelta {
    fn from(pair: (TargetStatus, TargetStatus)) -> (r: TargetStatusDelta) {
        let (curr, prev) = pair;
        let total = curr.total as i64 - prev.total as i64;
        TargetStatusDelta {
            total,
            covered: curr.covered as i64 - prev.covered as i64,
            errors: curr.errors as i64 - prev.errors as i64,
            trend: StatusTrend::from(total),
        }
    }
}

impl vstd::std_specs::convert::FromSpecImpl<(TargetStatus, TargetStatus)> for TargetStatusDelta {
    open spec fn obeys_from_spec() -> bool {
        true
    }

    open spec fn from_spec(pair: (TargetStatus, TargetStatus)) -> TargetStatusDelta {
        spec_delta(pair.0, pair.1)
    }
}

/// One target's row of the report table: its current coverage, the two
/// baselines where present, and the delta against each present baseline.
/// A target absent from a baseline yields no delta there, not a zero.
pub struct TargetStatusDiff {
    /// target name
    pub name: String,
    /// current coverage
    pub curr: TargetStatus,
    /// coverage at the previous report within this run
    pub prev: Option<TargetStatus>,
    /// delta against the previous report
    pub delta: Option<TargetStatusDelta>,
    /// coverage from the most recent prior run
    pub prev_run: Option<TargetStatus>,
    /// delta against the prior run
    pub delta_run: Option<TargetStatusDelta>,
}

/// The baseline delta for one optional baseline.
pub open spec fn spec_opt_delta(
    curr: TargetStatus,
    prev: Option<TargetStatus>,
) -> Option<TargetStatusDelta> {
    match prev {
        Some(p) => Some(spec_delta(curr, p)),
        None => None,
    }
}

/// The baseline value a map-shaped snapshot holds for a name.
pub open spec fn spec_baseline(
    snap: Option<Map<Seq<char>, TargetStatus>>,
    name: Seq<char>,
) -> Option<TargetStatus> {
    match snap {
        Some(m) => if m.contains_key(name) {
            Some(m[name])
        } else {
            None
        },
        None => None,
    }
}

impl TargetStatusDiff {
    /// Builds one row from the current status and both baselines.
    pub fn new(
        name: String,
        curr: TargetStatus,
        prev: Option<TargetStatus>,
        prev_run: Option<TargetStatus>,
    ) -> (r: TargetStatusDiff)
        ensures
            r.name == name,
            r.curr == curr,
            r.prev == prev,
            r.prev_run == prev_run,
            r.delta == spec_opt_delta(curr, prev),
            r.delta_run == spec_opt_delta(curr, prev_run),
    {
        let delta = match prev {
            Some(p) => Some(TargetStatusDelta::from((curr, p))),
            None => None,
        };
        let delta_run = match prev_run {
            Some(p) => Some(TargetStatusDelta::from((curr, p))),
            None => None,
        };
        TargetStatusDiff { name, curr, prev, delta, prev_run, delta_run }
    }
}

/// What one row must hold, given the two baseline snapshots.
pub open spec fn spec_diff_row(
    name: Seq<char>,
    curr: TargetStatus,
    prev: Option<Map<Seq<char>, TargetStatus>>,
    prev_run: Option<Map<Seq<char>, TargetStatus>>,
    row: TargetStatusDiff,
) -> bool {
    &&& row.name@ == name
    &&& row.curr == curr
    &&& row.prev == spec_baseline(prev, name)
    &&& row.prev_run == spec_baseline(prev_run, name)
    &&& row.delta == spec_opt_delta(curr, spec_baseline(prev, name))
    &&& row.delta_run == spec_opt_delta(curr, spec_baseline(prev_run, name))
}

/// The optional map view of an optional snapshot.
pub open spec fn opt_view(snap: Option<FuzzingStatus>) -> Option<Map<Seq<char>, TargetStatus>> {
    match snap {
        Some(fs) => Some(fs@),
        None => None,
    }
}

/// Looks a target up in an optional baseline snapshot.
fn opt_get(snap: &Option<FuzzingStatus>, name: &str) -> (r: Option<TargetStatus>)
    requires
        match snap {
            Some(fs) => fs.wf(),
            None => true,
        },
    ensures
        r == spec_baseline(opt_view(*snap), name@),
{
    match snap {
        Some(fs) => fs.get(name),
        None => None,
    }
}

/// Builds the report table: one row per target of the current snapshot,
/// in the snapshot's sorted name order, each with the deltas against
/// the baselines that hold the target.
pub fn diff_table(
    curr: &FuzzingStatus,
    prev: &Option<FuzzingStatus>,
    prev_run: &Option<FuzzingStatus>,
) -> (r: Vec<TargetStatusDiff>)
    requires
        curr.wf(),
        match prev {
            Some(fs) => fs.wf(),
            None => true,
        },
        match prev_run {
            Some(fs) => fs.wf(),
            None => true,
        },
    ensures
        r@.len() == curr.entries_seq().len(),
        forall|i: int|
            0 <= i < r@.len() ==> spec_diff_row(
                curr.entries_seq()[i].0,
                curr.entries_seq()[i].1,
                opt_view(*prev),
                opt_view(*prev_run),
                #[trigger] r@[i],
            ),
{
    let mut rows: Vec<TargetStatusDiff> = Vec::new();
    let n = curr.len();
    let mut i: usize = 0;
    while i < n
        invariant
            0 <= i <= n,
            n == curr.entries_seq().len(),
            curr.wf(),
            match prev {
                Some(fs) => fs.wf(),
                None => true,
            },
            match prev_run {
                Some(fs) => fs.wf(),
                None => true,
            },
            rows@.len() == i,
            forall|k: int|
                0 <= k < i ==> spec_diff_row(
                    curr.entries_seq()[k].0,
                    curr.entries_seq()[k].1,
                    opt_view(*prev),
                    opt_view(*prev_run),
                    #[trigger] rows@[k],
                ),
        decreases n - i,
    {
        let name = curr.name_at(i).clone();
        let ts = curr.status_at(i);
        let prev_base = opt_get(prev, name.as_str());
        let prev_run_base = opt_get(prev_run, name.as_str());
        let row = TargetStatusDiff::new(name, ts, prev_base, prev_run_base);
        rows.push(row);
        i = i + 1;
    }
    rows
}

} // verus!
