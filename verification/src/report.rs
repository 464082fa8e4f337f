//! The reporting cycle of one run: where its report directory and URL
//! lie, which sibling directory holds the most recent prior run, and
//! what one update produces — the snapshot text to persist, the diff
//! table to render, and the plain-text change summary to deliver.
//! Reading and writing the files themselves stays with the caller.
use vstd::prelude::*;

use crate::common::{escaped_segment, path_join, url_joined};
use crate::diff::{diff_table, opt_view, spec_diff_row, TargetStatusDiff};
use crate::error::Error;
use crate::snapshot::{spec_decode, spec_encode};
use crate::status::{sorted_by_name, status_map, FuzzingStatus, TargetStatus};
use crate::text::{dec_int, str_eq};

verus! {

/// The snapshot file inside a run's report directory; its presence is
/// what marks a directory as a run.
pub fn status_file_name() -> (r: &'static str)
    ensures
        r@ == "hfuzz-status.dat"@,
{
    "hfuzz-status.dat"
}

/// The rendered report below a run's report directory.
pub fn report_file_name() -> (r: &'static str)
    ensures
        r@ == "hfuzz-report/index.html"@,
{
    "hfuzz-report/index.html"
}

/// What a directory scan learned about one sibling of the run's report
/// directory.
pub struct DirEntryInfo {
    /// The entry's path, as the scan names it.
    pub name: String,
    /// Whether the entry is a directory.
    pub is_dir: bool,
    /// Whether the entry holds a snapshot file.
    pub has_snapshot: bool,
    /// The entry's creation time, in the scanner's time unit.
    pub created: u64,
}

/// Whether a scanned sibling counts as a prior run: a directory other
/// than the current run's that holds a snapshot file.
pub open spec fn qualifies(e: DirEntryInfo, current: Seq<char>) -> bool {
    e.is_dir && e.has_snapshot && e.name@ != current
}

/// Picks the most recent prior run among scanned siblings: a qualifying
/// entry with the greatest creation time; among equal times the last
/// one seen wins. Yields nothing when no sibling qualifies.
pub fn select_latest_prior(entries: &Vec<DirEntryInfo>, current: &str) -> (r: Option<usize>)
    ensures
        match r {
            Some(i) => i < entries@.len() && qualifies(entries@[i as int], current@) && (forall|
                j: int,
            |
                0 <= j < entries@.len() && qualifies(#[trigger] entries@[j], current@)
                    ==> entries@[j].created <= entries@[i as int].created && (j > i
                    ==> entries@[j].created < entries@[i as int].created)),
            None => forall|j: int|
                0 <= j < entries@.len() ==> !qualifies(#[trigger] entries@[j], current@),
        },
{
    let n = entries.len();
    let mut best: Option<usize> = None;
    let mut i: usize = 0;
    while i < n
        invariant
            0 <= i <= n,
            n == entries@.len(),
            match best {
                Some(b) => b < i && qualifies(entries@[b as int], current@) && (forall|j: int|
                    0 <= j < i && qualifies(#[trigger] entries@[j], current@)
                        ==> entries@[j].created <= entries@[b as int].created && (j > b
                        ==> entries@[j].created < entries@[b as int].created)),
                None => forall|j: int| 0 <= j < i ==> !qualifies(#[trigger] entries@[j], current@),
            },
        decreases n - i,
    {
        let e = &entries[i];
        if e.is_dir && e.has_snapshot && !str_eq(e.name.as_str(), current) {
            let replace = match best {
                Some(b) => !(entries[b].created > e.created),
                None => true,
            };
            if replace {
                best = Some(i);
            }
        }
        i = i + 1;
    }
    best
}

/// The directory path a base and a chain of segments stand for.
pub open spec fn path_chain(base: Seq<char>, segs: Seq<Seq<char>>) -> Seq<char>
    decreases segs.len(),
{
    if segs.len() == 0 {
        base
    } else {
        path_join(path_chain(base, segs.drop_last()), segs.last())
    }
}

/// The URL a chain of directory segments resolves to, each escaped and
/// closed with a slash so later joins descend, when every join
/// succeeds.
pub open spec fn url_dir_chain(base: Seq<char>, segs: Seq<Seq<char>>) -> Option<Seq<char>>
    decreases segs.len(),
{
    if segs.len() == 0 {
        Some(base)
    } else {
        match url_joined(base, escaped_segment(segs[0]) + seq!['/']) {
            None => None,
            Some(b2) => url_dir_chain(b2, segs.drop_first()),
        }
    }
}

/// One run's reporting state: its report directory, the URL the
/// directory is served under, and the baseline loaded once from the
/// most recent prior run.
pub struct Report {
    reports_dir: String,
    reports_url: Option<String>,
    previous: Option<FuzzingStatus>,
}

impl Report {
    /// The report directory path.
    pub closed spec fn spec_dir(self) -> Seq<char> {
        self.reports_dir@
    }

    /// The URL the report directory is served under, when one is
    /// configured.
    pub closed spec fn spec_url(self) -> Option<Seq<char>> {
        match self.reports_url {
            Some(u) => Some(u@),
            None => None,
        }
    }

    /// The prior run's snapshot, fixed for this run's lifetime.
    pub closed spec fn spec_previous(self) -> Option<Map<Seq<char>, TargetStatus>> {
        opt_view(self.previous)
    }

    pub closed spec fn wf(self) -> bool {
        match self.previous {
            Some(fs) => fs.wf(),
            None => true,
        }
    }

    /// Sets a run's reporting up: the report directory under the base,
    /// the served URL by the same segments when a base URL is given,
    /// and the prior run's snapshot as the caller loaded it. Fails
    /// exactly when the base URL does not parse or a segment does not
    /// resolve.
    pub fn new(
        reports_dir: &str,
        reports_url: &Option<String>,
        segments: &[&str],
        previous: Option<FuzzingStatus>,
    ) -> (r: Result<Report, Error>)
        requires
            match previous {
                Some(fs) => fs.wf(),
                None => true,
            },
        ensures
            match r {
                Ok(rep) => rep.wf() && rep.spec_dir() == path_chain(
                    reports_dir@,
                    segments@.map_values(|s: &str| s@),
                ) && rep.spec_previous() == opt_view(previous) && (match (
                    reports_url,
                    rep.spec_url(),
                ) {
                    (Some(u), Some(ru)) => url_dir_chain(
                        u@,
                        segments@.map_values(|s: &str| s@),
                    ) == Some(ru),
                    (None, None) => true,
                    _ => false,
                }),
                Err(e) => e == Error::UrlParse && (reports_url matches Some(u) && url_dir_chain(
                    u@,
                    segments@.map_values(|s: &str| s@),
                ) == None::<Seq<char>>),
            },
    {
        let ghost views = segments@.map_values(|s: &str| s@);
        let n = segments.len();
        let mut dir = reports_dir.to_owned();
        let mut i: usize = 0;
        proof {
            assert(views.take(0) =~= Seq::<Seq<char>>::empty());
        }
        while i < n
            invariant
                0 <= i <= n,
                n == segments@.len(),
                views == segments@.map_values(|s: &str| s@),
                dir@ == path_chain(reports_dir@, views.take(i as int)),
            decreases n - i,
        {
            let dlen = dir.as_str().unicode_len();
            if dlen > 0 {
                if dir.as_str().get_char(dlen - 1) != '/' {
                    dir.append("/");
                    proof {
                        reveal_strlit("/");
                        assert("/"@ =~= seq!['/']);
                    }
                }
            }
            let seg = segments[i];
            let ghost pre = path_chain(reports_dir@, views.take(i as int));
            dir.append(seg);
            proof {
                assert(views.take(i + 1).drop_last() =~= views.take(i as int));
                assert(views.take(i + 1).last() == views[i as int]);
                if pre.len() > 0 {
                    assert(pre.last() == pre[pre.len() - 1]);
                }
                assert(dir@ =~= path_chain(reports_dir@, views.take(i + 1)));
            }
            i = i + 1;
        }
        proof {
            assert(views.take(n as int) =~= views);
        }
        let url: Option<String> = match reports_url {
            Some(base) => {
                let mut cur = base.clone();
                let mut k: usize = 0;
                proof {
                    assert(views.skip(0) =~= views);
                }
                while k < n
                    invariant
                        0 <= k <= n,
                        n == segments@.len(),
                        views == segments@.map_values(|s: &str| s@),
                        reports_url matches Some(u) && u@ == base@,
                        url_dir_chain(base@, views) == url_dir_chain(cur@, views.skip(k as int)),
                    decreases n - k,
                {
                    let mut escaped = crate::common::sanitize_url_path_segment(segments[k]);
                    escaped.append("/");
                    proof {
                        reveal_strlit("/");
                        assert("/"@ =~= seq!['/']);
                        assert(views.skip(k as int)[0] == views[k as int]);
                        assert(escaped@ == escaped_segment(views[k as int]) + seq!['/']);
                        assert(views.skip(k as int).drop_first() =~= views.skip(k + 1));
                    }
                    match crate::common::url_join(cur.as_str(), escaped.as_str()) {
                        Some(next) => {
                            cur = next;
                        },
                        None => {
                            return Err(Error::UrlParse);
                        },
                    }
                    k = k + 1;
                }
                proof {
                    assert(views.skip(n as int).len() == 0);
                }
                Some(cur)
            },
            None => None,
        };
        Ok(Report { reports_dir: dir, reports_url: url, previous })
    }

    /// The path of this run's snapshot file.
    pub fn status_file_path(&self) -> (r: String)
        ensures
            r@ == path_join(self.spec_dir(), "hfuzz-status.dat"@),
    {
        join_one(&self.reports_dir, status_file_name())
    }

    /// The path of this run's rendered report.
    pub fn report_file_path(&self) -> (r: String)
        ensures
            r@ == path_join(self.spec_dir(), "hfuzz-report/index.html"@),
    {
        join_one(&self.reports_dir, report_file_name())
    }

    /// One reporting cycle's computation. Takes the current snapshot
    /// and the text of the previously persisted snapshot file, when one
    /// exists; yields the text to persist in its place, the diff table
    /// against both baselines in sorted target order, and the change
    /// summary to deliver. Fails exactly when the previous snapshot
    /// text does not parse back, or when the report URL does not take
    /// the report file's name.
    pub fn update(&self, curr: &FuzzingStatus, prev_text: Option<&str>) -> (r: Result<
        UpdateOutcome,
        Error,
    >)
        requires
            self.wf(),
            curr.wf(),
        ensures
            match (decoded_baseline(opt_text(prev_text)), header_of(self.spec_url())) {
                (None, _) => r == Err::<UpdateOutcome, Error>(Error::SnapshotFormat),
                (Some(_), None) => r == Err::<UpdateOutcome, Error>(Error::UrlParse),
                (Some(prevm), Some(hdr)) => r matches Ok(o) && o.status_text@ == spec_encode(
                    curr.entries_seq(),
                ) && o.diffs@.len() == curr.entries_seq().len() && (forall|i: int|
                    0 <= i < o.diffs@.len() ==> spec_diff_row(
                        curr.entries_seq()[i].0,
                        curr.entries_seq()[i].1,
                        prevm,
                        self.spec_previous(),
                        #[trigger] o.diffs@[i],
                    )) && o.summary@ == hdr + spec_summary_body(o.diffs@) + (
                if spec_changed(o.diffs@) {
                    Seq::<char>::empty()
                } else {
                    "No changed detected\n"@
                }),
            },
    {
        let prev: Option<FuzzingStatus> = match prev_text {
            Some(t) => match crate::snapshot::decode_status(t) {
                Some(fs) => Some(fs),
                None => {
                    return Err(Error::SnapshotFormat);
                },
            },
            None => None,
        };
        proof {
            if prev is Some {
                crate::status::lemma_view_is_status_map(prev->Some_0);
            }
        }
        let header: String = match &self.reports_url {
            Some(u) => {
                match crate::common::url_join(u.as_str(), report_file_name()) {
                    Some(joined) => {
                        let mut h = "Summary of the report available at ".to_owned();
                        h.append(joined.as_str());
                        h.append(":\n");
                        proof {
                            reveal_strlit(":\n");
                            assert(h@ =~= header_of(self.spec_url())->Some_0);
                        }
                        h
                    },
                    None => {
                        return Err(Error::UrlParse);
                    },
                }
            },
            None => {
                let h = "Summary of the report:\n".to_owned();
                proof {
                    assert(h@ =~= header_of(self.spec_url())->Some_0);
                }
                h
            },
        };
        let diffs = diff_table(curr, &prev, &self.previous);
        let status_text = crate::snapshot::encode_status(curr);
        let mut summary = header;
        let ghost hdr = summary@;
        let nrows = diffs.len();
        let mut i: usize = 0;
        let mut changed = false;
        proof {
            assert(diffs@.take(0) =~= Seq::<TargetStatusDiff>::empty());
            assert(summary@ =~= hdr + spec_summary_body(diffs@.take(0)));
        }
        while i < nrows
            invariant
                0 <= i <= nrows,
                nrows == diffs@.len(),
                summary@ == hdr + spec_summary_body(diffs@.take(i as int)),
                changed == spec_changed(diffs@.take(i as int)),
            decreases nrows - i,
        {
            let line = row_line(&diffs[i]);
            if line.as_str().unicode_len() > 0 {
                changed = true;
            }
            summary.append(line.as_str());
            proof {
                lemma_summary_body_push(diffs@.take(i as int), diffs@[i as int]);
                assert(diffs@.take(i + 1) =~= diffs@.take(i as int).push(diffs@[i as int]));
                assert(summary@ =~= hdr + spec_summary_body(diffs@.take(i + 1)));
            }
            i = i + 1;
        }
        proof {
            assert(diffs@.take(nrows as int) =~= diffs@);
        }
        if !changed {
            summary.append("No changed detected\n");
            proof {
                assert(summary@ =~= hdr + spec_summary_body(diffs@) + "No changed detected\n"@);
            }
        } else {
            proof {
                assert(summary@ =~= hdr + spec_summary_body(diffs@) + Seq::<char>::empty());
            }
        }
        Ok(UpdateOutcome { status_text, diffs, summary })
    }
}

/// What one reporting cycle yields for the caller to write and send.
pub struct UpdateOutcome {
    /// The snapshot text to persist as the run's status file.
    pub status_text: String,
    /// The diff table to render, one row per target in sorted order.
    pub diffs: Vec<TargetStatusDiff>,
    /// The change summary to deliver.
    pub summary: String,
}

/// The view of an optional borrowed text.
pub open spec fn opt_text(t: Option<&str>) -> Option<Seq<char>> {
    match t {
        Some(s) => Some(s@),
        None => None,
    }
}

/// What a previously persisted snapshot text stands for: no text means
/// no baseline; text that parses back in order means that baseline;
/// anything else is a format error.
pub open spec fn decoded_baseline(text: Option<Seq<char>>) -> Option<
    Option<Map<Seq<char>, TargetStatus>>,
> {
    match text {
        None => Some(None),
        Some(t) => match spec_decode(t) {
            Some(es) => if sorted_by_name(es) {
                Some(Some(status_map(es)))
            } else {
                None
            },
            None => None,
        },
    }
}

/// The summary's first line: where the report is served, when a URL is
/// configured and takes the report file's name.
pub open spec fn header_of(url: Option<Seq<char>>) -> Option<Seq<char>> {
    match url {
        None => Some("Summary of the report:\n"@),
        Some(u) => match url_joined(u, "hfuzz-report/index.html"@) {
            None => None,
            Some(j) => Some("Summary of the report available at "@ + j + ":\n"@),
        },
    }
}

/// The summary line one row contributes: new covered edges since the
/// previous report; else, a change against the prior run; else nothing.
pub open spec fn spec_row_line(row: TargetStatusDiff) -> Seq<char> {
    if row.prev is Some && row.delta is Some {
        if row.delta->Some_0.covered != 0 {
            row.name@ + ": new edges covered since previous report (+"@ + dec_int(
                row.delta->Some_0.covered as int,
            ) + ")\n"@
        } else {
            Seq::empty()
        }
    } else if row.prev_run is Some && row.delta_run is Some {
        if row.delta_run->Some_0.covered != 0 || row.delta_run->Some_0.total != 0 {
            row.name@ + ": covered/total number of edges changed since previous run ("@ + dec_int(
                row.delta_run->Some_0.covered as int,
            ) + "/"@ + dec_int(row.delta_run->Some_0.total as int) + ")\n"@
        } else {
            Seq::empty()
        }
    } else {
        Seq::empty()
    }
}

/// The lines of all rows, in order.
pub open spec fn spec_summary_body(rows: Seq<TargetStatusDiff>) -> Seq<char>
    decreases rows.len(),
{
    if rows.len() == 0 {
        Seq::empty()
    } else {
        spec_summary_body(rows.drop_last()) + spec_row_line(rows.last())
    }
}

/// Whether any row contributes a line.
pub open spec fn spec_changed(rows: Seq<TargetStatusDiff>) -> bool {
    exists|i: int| 0 <= i < rows.len() && spec_row_line(#[trigger] rows[i]).len() > 0
}

/// One more row appends its line.
proof fn lemma_summary_body_push(rows: Seq<TargetStatusDiff>, row: TargetStatusDiff)
    ensures
        spec_summary_body(rows.push(row)) == spec_summary_body(rows) + spec_row_line(row),
        spec_changed(rows.push(row)) == (spec_changed(rows) || spec_row_line(row).len() > 0),
{
    assert(rows.push(row).drop_last() =~= rows);
    assert(rows.push(row).last() == row);
    if spec_changed(rows) {
        let i = choose|i: int| 0 <= i < rows.len() && spec_row_line(#[trigger] rows[i]).len() > 0;
        assert(rows.push(row)[i] == rows[i]);
    }
    if spec_row_line(row).len() > 0 {
        assert(rows.push(row)[rows.len() as int] == row);
    }
    if spec_changed(rows.push(row)) {
        let i = choose|i: int|
            0 <= i < rows.push(row).len() && spec_row_line(#[trigger] rows.push(row)[i]).len() > 0;
        if i < rows.len() {
            assert(rows[i] == rows.push(row)[i]);
        }
    }
}

/// Renders the summary line of one row.
fn row_line(row: &TargetStatusDiff) -> (r: String)
    ensures
        r@ == spec_row_line(*row),
        r@.len() == 0 <==> spec_row_line(*row).len() == 0,
{
    match (&row.prev, &row.delta) {
        (Some(_), Some(delta)) => {
            if delta.covered != 0 {
                let mut out = row.name.clone();
                out.append(": new edges covered since previous report (+");
                let d = crate::text::i64_to_string(delta.covered);
                out.append(d.as_str());
                out.append(")\n");
                proof {
                    reveal_strlit(")\n");
                    assert(out@ =~= spec_row_line(*row));
                    assert(out@.len() > 0);
                }
                out
            } else {
                String::new()
            }
        },
        _ => {
            match (&row.prev_run, &row.delta_run) {
                (Some(_), Some(delta)) => {
                    if delta.covered != 0 || delta.total != 0 {
                        let mut out = row.name.clone();
                        out.append(": covered/total number of edges changed since previous run (");
                        let dc = crate::text::i64_to_string(delta.covered);
                        out.append(dc.as_str());
                        out.append("/");
                        let dt = crate::text::i64_to_string(delta.total);
                        out.append(dt.as_str());
                        out.append(")\n");
                        proof {
                            reveal_strlit(")\n");
                            assert(out@ =~= spec_row_line(*row));
                            assert(out@.len() > 0);
                        }
                        out
                    } else {
                        String::new()
                    }
                },
                _ => String::new(),
            }
        },
    }
}

/// Joins one relative name under a directory.
fn join_one(dir: &String, name: &str) -> (r: String)
    ensures
        r@ == path_join(dir@, name@),
{
    let dlen = dir.as_str().unicode_len();
    let mut out = dir.clone();
    if dlen == 0 {
        return name.to_owned();
    }
    if dir.as_str().get_char(dlen - 1) != '/' {
        out.append("/");
        proof {
            reveal_strlit("/");
            assert("/"@ =~= seq!['/']);
        }
    }
    out.append(name);
    proof {
        assert(dir@.last() == dir@[dlen - 1]);
        assert(out@ =~= path_join(dir@, name@));
    }
    out
}

} // verus!
