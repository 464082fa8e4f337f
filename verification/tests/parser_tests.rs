use fuzz_ci::parser::{parse_total_coverage, CalibrationError, OutputParser, ParseStep};

fn parser() -> OutputParser {
    OutputParser::new("/w".to_string())
}

#[test]
fn coverage_line_reports_the_ninth_field() {
    let mut p = parser();
    let step = p.process_line("Sz:4 Tm:9/1/2/3/4/5/6/7/42/8");
    assert!(matches!(step, ParseStep::Covered(42)));
}

#[test]
fn zero_coverage_field_is_a_no_op() {
    let mut p = parser();
    let step = p.process_line("Sz:4 Tm:9/1/2/3/4/5/6/7/0/8");
    assert!(matches!(step, ParseStep::Nothing));
}

#[test]
fn short_coverage_line_stops_the_stream() {
    let mut p = parser();
    let step = p.process_line("Sz:1/2/3");
    assert!(matches!(step, ParseStep::Stop));
}

#[test]
fn unparsable_coverage_field_stops_the_stream() {
    let mut p = parser();
    let step = p.process_line("Sz:a/b/c/d/e/f/g/h/xyz/i");
    assert!(matches!(step, ParseStep::Stop));
}

#[test]
fn crash_line_is_resolved_under_the_working_directory() {
    let mut p = parser();
    let step = p.process_line("Crash: saved as 'foo.bin'");
    match step {
        ParseStep::Crash(path) => assert_eq!(path, "/w/foo.bin"),
        _ => panic!("expected a crash step"),
    }
}

#[test]
fn absolute_crash_file_stands_alone() {
    let mut p = parser();
    let step = p.process_line("Crash: saved as '/tmp/c.bin'");
    match step {
        ParseStep::Crash(path) => assert_eq!(path, "/tmp/c.bin"),
        _ => panic!("expected a crash step"),
    }
}

#[test]
fn other_lines_are_ignored() {
    let mut p = parser();
    assert!(matches!(p.process_line("Mutations/sec 123"), ParseStep::Nothing));
    assert!(matches!(p.process_line(""), ParseStep::Nothing));
    assert!(matches!(p.process_line("Crash: saved as '"), ParseStep::Nothing));
}

#[test]
fn calibration_reads_the_trailer_of_the_last_nonempty_line() {
    let out = "noise\nSize:1 guard_nb:900 other\nmode: whatever guard_nb:1234 end\n\n";
    assert_eq!(parse_total_coverage(out), Ok(1234));
}

#[test]
fn calibration_without_output_fails() {
    assert_eq!(parse_total_coverage(""), Err(CalibrationError::NoOutput));
    assert_eq!(parse_total_coverage("\n\n\n"), Err(CalibrationError::NoOutput));
}

#[test]
fn calibration_without_marker_or_terminator_fails() {
    assert_eq!(parse_total_coverage("last line\n"), Err(CalibrationError::MarkerMissing));
    assert_eq!(parse_total_coverage("x guard_nb:12"), Err(CalibrationError::MarkerMissing));
}

#[test]
fn calibration_with_bad_number_fails() {
    assert_eq!(parse_total_coverage("guard_nb:abc end\n"), Err(CalibrationError::Unparsable));
}
