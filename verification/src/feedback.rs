//! The feedback side of a run: the shared per-target counter map that
//! parsers write and reports read, the severity levels and client
//! abstraction messages go through, and the texts of periodic update
//! messages.
use vstd::prelude::*;

use crate::status::{FuzzingStatus, TargetStatus};
use crate::text::{dec_str, u64_to_string};

verus! {

/// Latest timestamp the formatter accepts: the end of year 9999.
pub const MAX_FORMATTED_SECS: u64 = 253402300800;

/// Severity of a feedback message.
#[derive(Clone, Copy, PartialEq, Eq, Structural, Debug)]
pub enum FeedbackLevel {
    Info,
    Error,
}

/// How high a level ranks.
pub open spec fn severity(l: FeedbackLevel) -> nat {
    match l {
        FeedbackLevel::Info => 0,
        FeedbackLevel::Error => 1,
    }
}

/// Whether a message of level `level` passes a sink that suppresses
/// everything below `min`.
pub fn meets_level(level: FeedbackLevel, min: FeedbackLevel) -> (r: bool)
    ensures
        r == (severity(level) >= severity(min)),
{
    match (level, min) {
        (FeedbackLevel::Info, FeedbackLevel::Error) => false,
        _ => true,
    }
}

/// Where human-readable messages go: a log, a chat channel.
pub trait FeedbackClient {
    fn message(&self, message: &str);
}

/// The single source of truth for the current state of a run: each
/// target's counters, written by the output parsers and read whole by
/// the reporting cycle.
pub struct SharedFeedbackMap {
    map: FuzzingStatus,
}

impl View for SharedFeedbackMap {
    type V = Map<Seq<char>, TargetStatus>;

    closed spec fn view(&self) -> Map<Seq<char>, TargetStatus> {
        self.map@
    }
}

impl SharedFeedbackMap {
    pub closed spec fn wf(self) -> bool {
        self.map.wf()
    }

    pub fn new() -> (r: SharedFeedbackMap)
        ensures
            r.wf(),
            r@ == Map::<Seq<char>, TargetStatus>::empty(),
    {
        SharedFeedbackMap { map: FuzzingStatus::new() }
    }

    /// A value copy of the whole map, so that diffing never observes a
    /// half-applied update.
    pub fn snapshot(&self) -> (r: FuzzingStatus)
        requires
            self.wf(),
        ensures
            r@ == self@,
            r.wf(),
    {
        self.map.snapshot()
    }

    /// Registers a target with its reachable total, resetting its other
    /// counters.
    pub fn set_total(&mut self, target: &str, total: u32)
        requires
            old(self).wf(),
        ensures
            final(self).wf(),
            final(self)@ == old(self)@.insert(
                target@,
                TargetStatus { total, covered: 0, errors: 0 },
            ),
    {
        self.map.set_total(target, total);
    }

    /// Adds covered units to a registered target; a no-op for an
    /// unknown one.
    pub fn add_covered(&mut self, target: &str, covered: u32)
        requires
            old(self).wf(),
        ensures
            final(self).wf(),
            final(self)@ == crate::status::spec_add_covered(old(self)@, target@, covered),
    {
        self.map.add_covered(target, covered);
    }

    /// Adds crash artifacts to a registered target; a no-op for an
    /// unknown one.
    pub fn add_errors(&mut self, target: &str, errors: u32)
        requires
            old(self).wf(),
        ensures
            final(self).wf(),
            final(self)@ == crate::status::spec_add_errors(old(self)@, target@, errors),
    {
        self.map.add_errors(target, errors);
    }
}

/// What the timestamp formatter writes for a seconds-since-epoch value.
pub uninterp spec fn utc_text_of(secs: u64) -> Seq<char>;

/// Relies on chrono's DateTime::from_timestamp and UTC formatting with
/// a fixed year-month-day hour:minute:second pattern: the text depends
/// on the seconds value alone, never on the clock, locale or zone.
#[verifier::external_body]
fn utc_time_text(secs: u64) -> (r: String)
    requires
        secs < MAX_FORMATTED_SECS,
    ensures
        r@ == utc_text_of(secs),
{
    match chrono::DateTime::<chrono::Utc>::from_timestamp(secs as i64, 0) {
        Some(dt) => dt.format("%Y-%m-%d %H:%M:%S").to_string(),
        None => String::new(),
    }
}

/// The text of a periodic update header: when the last coverage update
/// came and how long ago that is.
pub open spec fn spec_update_text(now: u64, last: u64) -> Seq<char> {
    "Last coverage update at "@ + utc_text_of(last) + ", "@ + dec_str((now - last) as nat)
        + "s ago"@
}

/// Renders the update header for a firing at `now` whose last update
/// came at `last`.
pub fn update_text(now: u64, last: u64) -> (r: String)
    requires
        last <= now,
        last < MAX_FORMATTED_SECS,
    ensures
        r@ == spec_update_text(now, last),
{
    let mut out = "Last coverage update at ".to_owned();
    let stamp = utc_time_text(last);
    out.append(stamp.as_str());
    out.append(", ");
    let ago = u64_to_string(now - last);
    out.append(ago.as_str());
    out.append("s ago");
    proof {
        assert(out@ =~= spec_update_text(now, last));
    }
    out
}

/// The text sent when a firing found no update since the previous one.
pub open spec fn spec_no_update_text(last: u64) -> Seq<char> {
    "No coverage updates since "@ + utc_text_of(last)
}

/// Renders the heartbeat message for a firing with no update, whose
/// last update came at `last`.
pub fn no_update_text(last: u64) -> (r: String)
    requires
        last < MAX_FORMATTED_SECS,
    ensures
        r@ == spec_no_update_text(last),
{
    let mut out = "No coverage updates since ".to_owned();
    let stamp = utc_time_text(last);
    out.append(stamp.as_str());
    proof {
        assert(out@ =~= spec_no_update_text(last));
    }
    out
}

/// The full update message: the header and the change summary under it.
pub fn update_message(now: u64, last: u64, summary: &str) -> (r: String)
    requires
        last <= now,
        last < MAX_FORMATTED_SECS,
    ensures
        r@ == spec_update_text(now, last) + seq!['\n'] + summary@,
{
    let mut out = update_text(now, last);
    out.append("\n");
    out.append(summary);
    proof {
        reveal_strlit("\n");
        assert("\n"@ =~= seq!['\n']);
        assert(out@ =~= spec_update_text(now, last) + seq!['\n'] + summary@);
    }
    out
}

} // verus!
