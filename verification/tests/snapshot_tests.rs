use fuzz_ci::snapshot::{decode_status, encode_status};
use fuzz_ci::status::{FuzzingStatus, TargetStatus};

fn sample() -> FuzzingStatus {
    let mut fs = FuzzingStatus::new();
    fs.set_total("beta", 50);
    fs.set_total("alpha", 100);
    fs.add_covered("alpha", 40);
    fs.add_errors("beta", 3);
    fs
}

#[test]
fn encode_writes_one_line_per_target() {
    let mut fs = FuzzingStatus::new();
    fs.set_total("t", 5);
    fs.add_covered("t", 3);
    fs.add_errors("t", 1);
    assert_eq!(encode_status(&fs), "t\t5\t3\t1\n");
}

#[test]
fn round_trip_reproduces_the_snapshot() {
    let fs = sample();
    let text = encode_status(&fs);
    let back = decode_status(&text).expect("decodes");
    assert_eq!(back.len(), fs.len());
    assert_eq!(back.get("alpha"), Some(TargetStatus { total: 100, covered: 40, errors: 0 }));
    assert_eq!(back.get("beta"), Some(TargetStatus { total: 50, covered: 0, errors: 3 }));
}

#[test]
fn round_trip_keeps_awkward_names() {
    let mut fs = FuzzingStatus::new();
    fs.set_total("tab\tname", 1);
    fs.set_total("line\nname", 2);
    fs.set_total("back\\slash", 3);
    fs.set_total("unicode-\u{00e9}\u{4e16}", 4);
    let text = encode_status(&fs);
    let back = decode_status(&text).expect("decodes");
    assert_eq!(back.get("tab\tname").unwrap().total, 1);
    assert_eq!(back.get("line\nname").unwrap().total, 2);
    assert_eq!(back.get("back\\slash").unwrap().total, 3);
    assert_eq!(back.get("unicode-\u{00e9}\u{4e16}").unwrap().total, 4);
}

#[test]
fn round_trip_of_empty_snapshot() {
    let fs = FuzzingStatus::new();
    let text = encode_status(&fs);
    assert_eq!(text, "");
    let back = decode_status(&text).expect("decodes");
    assert_eq!(back.len(), 0);
}

#[test]
fn malformed_text_is_rejected() {
    assert!(decode_status("garbage").is_none());
    assert!(decode_status("name\tx\t0\t0\n").is_none());
    assert!(decode_status("name\t1\t0\n").is_none());
    assert!(decode_status("name\t1\t0\t0").is_none());
    assert!(decode_status("name\t4294967296\t0\t0\n").is_none());
}

#[test]
fn out_of_order_entries_are_rejected() {
    assert!(decode_status("b\t1\t0\t0\na\t1\t0\t0\n").is_none());
    assert!(decode_status("a\t1\t0\t0\na\t1\t0\t0\n").is_none());
}

#[test]
fn largest_counters_survive_the_trip() {
    let mut fs = FuzzingStatus::new();
    fs.set_total("t", u32::MAX);
    fs.add_covered("t", u32::MAX);
    fs.add_errors("t", u32::MAX);
    let back = decode_status(&encode_status(&fs)).expect("decodes");
    let ts = back.get("t").unwrap();
    assert_eq!(ts.total, u32::MAX);
    assert_eq!(ts.covered, u32::MAX);
    assert_eq!(ts.errors, u32::MAX);
}
