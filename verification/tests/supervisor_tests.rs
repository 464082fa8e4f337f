use fuzz_ci::supervisor::{branch_of_ref, run_description, run_id, BranchPhase, PushAction, RunSupervisor};

#[test]
fn first_push_launches_at_once() {
    let mut sup = RunSupervisor::new();
    assert!(matches!(sup.on_push("main"), PushAction::Launch));
    assert!(matches!(sup.phase("main"), BranchPhase::Running));
}

#[test]
fn rapid_second_push_waits_for_completion_before_checkout() {
    let mut sup = RunSupervisor::new();
    let mut events: Vec<&str> = Vec::new();

    assert!(matches!(sup.on_push("main"), PushAction::Launch));
    events.push("first-run-checkout-started");

    // second push in quick succession: the supervisor demands a cancel
    // and a wait, and refuses a launch until completion is observed
    assert!(matches!(sup.on_push("main"), PushAction::CancelAndWait));
    events.push("cancel-sent");
    assert!(matches!(sup.phase("main"), BranchPhase::Superseding));

    sup.on_completed("main");
    events.push("first-run-completed");
    assert!(matches!(sup.phase("main"), BranchPhase::Cleared));

    sup.launch("main");
    events.push("second-run-checkout-started");
    assert!(matches!(sup.phase("main"), BranchPhase::Running));

    assert_eq!(
        events,
        vec![
            "first-run-checkout-started",
            "cancel-sent",
            "first-run-completed",
            "second-run-checkout-started",
        ],
    );
}

#[test]
fn branches_are_independent() {
    let mut sup = RunSupervisor::new();
    assert!(matches!(sup.on_push("main"), PushAction::Launch));
    assert!(matches!(sup.on_push("develop"), PushAction::Launch));
    assert!(matches!(sup.phase("main"), BranchPhase::Running));
    assert!(matches!(sup.phase("develop"), BranchPhase::Running));
    sup.on_completed("main");
    assert!(matches!(sup.phase("main"), BranchPhase::Idle));
    assert!(matches!(sup.phase("develop"), BranchPhase::Running));
}

#[test]
fn completed_idle_run_frees_the_branch() {
    let mut sup = RunSupervisor::new();
    assert!(matches!(sup.on_push("main"), PushAction::Launch));
    sup.on_completed("main");
    assert!(matches!(sup.on_push("main"), PushAction::Launch));
}

#[test]
fn branch_refs_are_recognized() {
    assert_eq!(branch_of_ref("refs/heads/main").as_deref(), Some("main"));
    assert_eq!(branch_of_ref("refs/heads/feature/x").as_deref(), Some("feature/x"));
    assert_eq!(branch_of_ref("refs/tags/v1.0"), None);
}

#[test]
fn run_identity_has_summary_short_id_author_and_time() {
    let id = run_id(
        "Fix the frobnicator\n\nLonger body",
        "abcdef0123",
        "dev",
        "2021-03-04 05:06:07",
    );
    assert_eq!(id, "_Fix the frobnicator_ - abcde by dev at 2021-03-04 05:06:07");
    assert_eq!(
        run_description("main", &id),
        "Branch `main`, _Fix the frobnicator_ - abcde by dev at 2021-03-04 05:06:07",
    );
}
