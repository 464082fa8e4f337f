use fuzz_ci::diff::{diff_table, StatusTrend, TargetStatusDelta, TargetStatusDiff};
use fuzz_ci::error::Error;
use fuzz_ci::report::{select_latest_prior, DirEntryInfo, Report};
use fuzz_ci::snapshot::encode_status;
use fuzz_ci::status::{FuzzingStatus, TargetStatus};

fn entry(name: &str, is_dir: bool, has_snapshot: bool, created: u64) -> DirEntryInfo {
    DirEntryInfo { name: name.to_string(), is_dir, has_snapshot, created }
}

#[test]
fn discovery_picks_the_latest_qualifying_sibling() {
    let entries = vec![
        entry("run-a", true, true, 10),
        entry("run-b", true, true, 30),
        entry("run-c", true, true, 20),
    ];
    assert_eq!(select_latest_prior(&entries, "current"), Some(1));
}

#[test]
fn discovery_excludes_the_current_run_even_if_it_qualifies() {
    let entries = vec![
        entry("old", true, true, 10),
        entry("current", true, true, 99),
    ];
    assert_eq!(select_latest_prior(&entries, "current"), Some(0));
}

#[test]
fn discovery_skips_files_and_directories_without_snapshots() {
    let entries = vec![
        entry("not-a-dir", false, true, 50),
        entry("no-snapshot", true, false, 40),
    ];
    assert_eq!(select_latest_prior(&entries, "current"), None);
}

#[test]
fn discovery_breaks_ties_by_last_seen() {
    let entries = vec![
        entry("first", true, true, 20),
        entry("second", true, true, 20),
    ];
    assert_eq!(select_latest_prior(&entries, "current"), Some(1));
}

#[test]
fn delta_subtracts_baseline_from_current() {
    let curr = TargetStatus { total: 100, covered: 40, errors: 0 };
    let prev = TargetStatus { total: 100, covered: 30, errors: 0 };
    let delta = TargetStatusDelta::from((curr, prev));
    assert_eq!(delta.covered, 10);
    assert_eq!(delta.total, 0);
    assert_eq!(delta.errors, 0);
    assert!(matches!(delta.trend, StatusTrend::Unchanged));
}

#[test]
fn trend_follows_the_total_delta() {
    let grow = TargetStatusDelta::from((
        TargetStatus { total: 120, covered: 0, errors: 0 },
        TargetStatus { total: 100, covered: 0, errors: 0 },
    ));
    assert!(matches!(grow.trend, StatusTrend::Improvement));
    let shrink = TargetStatusDelta::from((
        TargetStatus { total: 90, covered: 0, errors: 0 },
        TargetStatus { total: 100, covered: 0, errors: 0 },
    ));
    assert!(matches!(shrink.trend, StatusTrend::Regression));
}

#[test]
fn absent_baseline_yields_no_delta() {
    let row = TargetStatusDiff::new(
        "t".to_string(),
        TargetStatus { total: 100, covered: 40, errors: 0 },
        None,
        None,
    );
    assert!(row.delta.is_none());
    assert!(row.delta_run.is_none());
}

#[test]
fn diff_table_rows_follow_snapshot_order() {
    let mut curr = FuzzingStatus::new();
    curr.set_total("b", 10);
    curr.set_total("a", 20);
    let mut prev = FuzzingStatus::new();
    prev.set_total("a", 20);
    let rows = diff_table(&curr, &Some(prev), &None);
    assert_eq!(rows.len(), 2);
    assert_eq!(rows[0].name, "a");
    assert!(rows[0].prev.is_some());
    assert_eq!(rows[1].name, "b");
    assert!(rows[1].prev.is_none());
}

fn report_without_url() -> Report {
    Report::new("/reports", &None, &["main", "run-1"], None).expect("report")
}

#[test]
fn report_paths_lie_under_the_run_directory() {
    let rep = report_without_url();
    assert_eq!(rep.status_file_path(), "/reports/main/run-1/hfuzz-status.dat");
    assert_eq!(rep.report_file_path(), "/reports/main/run-1/hfuzz-report/index.html");
}

#[test]
fn report_url_descends_by_escaped_segments() {
    let rep = Report::new(
        "/reports",
        &Some("http://host/reports/".to_string()),
        &["my branch", "run-1"],
        None,
    )
    .expect("report");
    let out = rep.update(&FuzzingStatus::new(), None).expect("update");
    assert_eq!(
        out.summary,
        "Summary of the report available at http://host/reports/my%20branch/run%2D1/hfuzz-report/index.html:\nNo changed detected\n"
    );
}

#[test]
fn bad_base_url_is_reported() {
    let r = Report::new("/reports", &Some("not a url".to_string()), &["b"], None);
    assert!(matches!(r, Err(Error::UrlParse)));
}

#[test]
fn update_summarizes_new_edges_since_previous_report() {
    let rep = report_without_url();
    let mut prev = FuzzingStatus::new();
    prev.set_total("t", 100);
    prev.add_covered("t", 30);
    let prev_text = encode_status(&prev);
    let mut curr = FuzzingStatus::new();
    curr.set_total("t", 100);
    curr.add_covered("t", 40);
    let out = rep.update(&curr, Some(&prev_text)).expect("update");
    assert_eq!(
        out.summary,
        "Summary of the report:\nt: new edges covered since previous report (+10)\n"
    );
    assert_eq!(out.status_text, encode_status(&curr));
}

#[test]
fn update_summarizes_changes_against_the_prior_run() {
    let mut prior = FuzzingStatus::new();
    prior.set_total("t", 90);
    prior.add_covered("t", 35);
    let rep = Report::new("/reports", &None, &["main", "run-2"], Some(prior)).expect("report");
    let mut curr = FuzzingStatus::new();
    curr.set_total("t", 100);
    curr.add_covered("t", 40);
    let out = rep.update(&curr, None).expect("update");
    assert_eq!(
        out.summary,
        "Summary of the report:\nt: covered/total number of edges changed since previous run (5/10)\n"
    );
}

#[test]
fn update_reports_nothing_changed() {
    let rep = report_without_url();
    let mut curr = FuzzingStatus::new();
    curr.set_total("t", 100);
    let prev_text = encode_status(&curr);
    let out = rep.update(&curr, Some(&prev_text)).expect("update");
    assert_eq!(out.summary, "Summary of the report:\nNo changed detected\n");
}

#[test]
fn update_rejects_a_corrupt_previous_snapshot() {
    let rep = report_without_url();
    let curr = FuzzingStatus::new();
    let r = rep.update(&curr, Some("not a snapshot"));
    assert!(matches!(r, Err(Error::SnapshotFormat)));
}
