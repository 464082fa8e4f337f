use fuzz_ci::feedback::{
    meets_level, no_update_text, update_message, update_text, FeedbackLevel, SharedFeedbackMap,
};
use fuzz_ci::slack::{bearer_token, message_json, message_text, response_outcome, should_deliver,
    JsonResponse, SlackOutcome};

#[test]
fn shared_map_mirrors_the_underlying_snapshot() {
    let mut map = SharedFeedbackMap::new();
    map.set_total("t", 10);
    map.add_covered("t", 4);
    map.add_errors("t", 1);
    map.add_covered("unknown", 9);
    let snap = map.snapshot();
    let ts = snap.get("t").unwrap();
    assert_eq!((ts.total, ts.covered, ts.errors), (10, 4, 1));
    assert!(snap.get("unknown").is_none());
}

#[test]
fn update_texts_carry_the_formatted_time() {
    assert_eq!(
        update_text(30, 0),
        "Last coverage update at 1970-01-01 00:00:00, 30s ago",
    );
    assert_eq!(
        no_update_text(86400),
        "No coverage updates since 1970-01-02 00:00:00",
    );
    assert_eq!(
        update_message(30, 0, "body"),
        "Last coverage update at 1970-01-01 00:00:00, 30s ago\nbody",
    );
}

#[test]
fn info_messages_can_be_suppressed() {
    assert!(meets_level(FeedbackLevel::Info, FeedbackLevel::Info));
    assert!(meets_level(FeedbackLevel::Error, FeedbackLevel::Info));
    assert!(meets_level(FeedbackLevel::Error, FeedbackLevel::Error));
    assert!(!meets_level(FeedbackLevel::Info, FeedbackLevel::Error));
    assert!(!should_deliver(FeedbackLevel::Info, FeedbackLevel::Error));
}

#[test]
fn slack_requests_are_assembled_from_plain_values() {
    assert_eq!(bearer_token("tok"), "Bearer tok");
    assert_eq!(message_text("Branch `main`", "hello"), "Branch `main`: hello");
    let json = message_json("#fuzz", "hello");
    assert_eq!(json.len(), 2);
    assert_eq!(json[0], ("channel".to_string(), "#fuzz".to_string()));
    assert_eq!(json[1], ("text".to_string(), "hello".to_string()));
}

#[test]
fn slack_replies_are_read_exactly() {
    let ok = JsonResponse { ok: true, warning: None, error: None };
    assert!(matches!(response_outcome(ok), SlackOutcome::Delivered));

    let charset = JsonResponse {
        ok: true,
        warning: Some("missing_charset".to_string()),
        error: None,
    };
    assert!(matches!(response_outcome(charset), SlackOutcome::Delivered));

    let warned = JsonResponse { ok: true, warning: Some("slow".to_string()), error: None };
    match response_outcome(warned) {
        SlackOutcome::DeliveredWithWarning(w) => assert_eq!(w, "slow"),
        _ => panic!("expected a warning"),
    }

    let failed = JsonResponse { ok: false, warning: None, error: Some("bad_auth".to_string()) };
    match response_outcome(failed) {
        SlackOutcome::Failed(e) => assert_eq!(e, "bad_auth"),
        _ => panic!("expected a failure"),
    }

    let unknown = JsonResponse { ok: false, warning: None, error: None };
    match response_outcome(unknown) {
        SlackOutcome::Failed(e) => assert_eq!(e, "unknown error"),
        _ => panic!("expected a failure"),
    }
}

#[test]
fn config_defaults_and_arguments() {
    let fb = <fuzz_ci::config::Feedback as Default>::default();
    assert_eq!(fb.update_timeout, 600);
    assert_eq!(fb.no_update_timeout, 86400);
    assert_eq!(
        fuzz_ci::config::hfuzz_run_args("-t 5", &Some("/corpus".to_string())),
        "-t 5 -i /corpus",
    );
    assert_eq!(fuzz_ci::config::hfuzz_run_args("-t 5", &None), "-t 5");
    assert_eq!(fuzz_ci::config::hfuzz_env_args("-v -N 1 -n 1", "-t 5"), "-v -N 1 -n 1 -t 5");
    let branches = vec!["main".to_string(), "develop".to_string()];
    assert!(fuzz_ci::config::contains_branch(&branches, "main"));
    assert!(!fuzz_ci::config::contains_branch(&branches, "other"));
}
