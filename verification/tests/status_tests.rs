use fuzz_ci::status::{FuzzingStatus, TargetStatus};

#[test]
fn cumulative_updates_reflected_in_snapshot() {
    let mut fs = FuzzingStatus::new();
    fs.set_total("alpha", 100);
    fs.set_total("beta", 50);
    fs.add_covered("alpha", 10);
    fs.add_covered("beta", 5);
    fs.add_covered("alpha", 7);
    fs.add_errors("beta", 2);
    let snap = fs.snapshot();
    assert_eq!(snap.get("alpha"), Some(TargetStatus { total: 100, covered: 17, errors: 0 }));
    assert_eq!(snap.get("beta"), Some(TargetStatus { total: 50, covered: 5, errors: 2 }));
}

#[test]
fn interleavings_across_targets_agree() {
    let mut one = FuzzingStatus::new();
    one.set_total("a", 10);
    one.set_total("b", 20);
    one.add_covered("a", 1);
    one.add_covered("b", 2);
    one.add_covered("a", 3);

    let mut two = FuzzingStatus::new();
    two.set_total("b", 20);
    two.add_covered("b", 2);
    two.set_total("a", 10);
    two.add_covered("a", 1);
    two.add_covered("a", 3);

    assert_eq!(one.get("a"), two.get("a"));
    assert_eq!(one.get("b"), two.get("b"));
}

#[test]
fn set_total_resets_counters() {
    let mut fs = FuzzingStatus::new();
    fs.set_total("t", 10);
    fs.add_covered("t", 4);
    fs.add_errors("t", 1);
    fs.set_total("t", 30);
    assert_eq!(fs.get("t"), Some(TargetStatus { total: 30, covered: 0, errors: 0 }));
}

#[test]
fn updates_to_unknown_target_are_no_ops() {
    let mut fs = FuzzingStatus::new();
    fs.add_covered("ghost", 5);
    fs.add_errors("ghost", 5);
    assert_eq!(fs.len(), 0);
    assert_eq!(fs.get("ghost"), None);
}

#[test]
fn covered_counter_saturates() {
    let mut fs = FuzzingStatus::new();
    fs.set_total("t", 1);
    fs.add_covered("t", u32::MAX - 1);
    fs.add_covered("t", 10);
    assert_eq!(fs.get("t").unwrap().covered, u32::MAX);
}

#[test]
fn iteration_is_sorted_by_name() {
    let mut fs = FuzzingStatus::new();
    fs.set_total("zeta", 1);
    fs.set_total("alpha", 2);
    fs.set_total("mid", 3);
    assert_eq!(fs.len(), 3);
    assert_eq!(fs.name_at(0).as_str(), "alpha");
    assert_eq!(fs.name_at(1).as_str(), "mid");
    assert_eq!(fs.name_at(2).as_str(), "zeta");
}

#[test]
fn snapshot_is_a_value_copy() {
    let mut fs = FuzzingStatus::new();
    fs.set_total("t", 10);
    let snap = fs.snapshot();
    fs.add_covered("t", 5);
    assert_eq!(snap.get("t").unwrap().covered, 0);
    assert_eq!(fs.get("t").unwrap().covered, 5);
}
