use loom_rt::cli::{
    max_age, refuses_recursion, Cli, Command, DEFAULT_MAX_AGE_DAYS, EXIT_AE_REVIEW_REJECTED,
    EXIT_CANCELLED, EXIT_DEPS_STUCK, EXIT_DISPATCH_HAD_FAILURE, EXIT_GENERIC_ERROR,
    EXIT_RECURSION_DETECTED, EXIT_REVIEW_MISSING, EXIT_WORKSPACE_NOT_INITIALIZED,
};
use loom_rt::delivery::write_dispatch_log;
use loom_rt::discovery::DiscoveredFeature;
use loom_rt::dispatch::{ready_set, DispatchReport, FeatureOutcome};
use loom_rt::exit::{
    decide_exit, dispatch_exit, dispatch_refusal, exit_code_for_report, has_incomplete,
    has_verdict, is_deps_stuck, loop_error_exit, select_features,
};
use loom_rt::moment::TimeSpan;

fn outcome(id: &str, verdict: &str, status: &str, exit_code: i32) -> FeatureOutcome {
    FeatureOutcome {
        feature_id: id.to_string(),
        worker_identity: "test".to_string(),
        verdict: verdict.to_string(),
        worker_exit_status: status.to_string(),
        exit_code,
        duration_ms: 0,
        stdout_path: String::new(),
        drain_truncated: false,
        error: None,
        rescue_ref: None,
    }
}

fn report_of(outcomes: Vec<FeatureOutcome>) -> DispatchReport {
    DispatchReport { started_at_ms: 0, elapsed_ms: 0, dispatched_count: outcomes.len(), outcomes }
}

/// One outcome per worker status, none of them with a review.
fn report_with(statuses: &[&str]) -> DispatchReport {
    report_of(
        statuses
            .iter()
            .enumerate()
            .map(|(i, s)| {
                outcome(&format!("F-{i}"), "unknown", s, if *s == "pass" { 0 } else { 1 })
            })
            .collect(),
    )
}

/// One outcome with a review verdict and a worker status of its own.
fn report_with_ae(verdict: &str, worker_exit_status: &str) -> DispatchReport {
    report_of(vec![outcome("F-0", verdict, worker_exit_status, 0)])
}

fn disc_feat(id: &str, deps: &[&str], done: bool) -> DiscoveredFeature {
    DiscoveredFeature {
        id: id.to_string(),
        feature_dir: format!(".ae/features/active/{id}"),
        depends_on: deps.iter().map(|s| s.to_string()).collect(),
        work_state: if done { Some("done".to_string()) } else { None },
    }
}

fn texts(items: &[&str]) -> Vec<String> {
    items.iter().map(|s| s.to_string()).collect()
}

#[test]
fn exit_code_constants_are_stable() {
    assert_eq!(EXIT_GENERIC_ERROR, 1);
    assert_eq!(EXIT_WORKSPACE_NOT_INITIALIZED, 3);
    assert_eq!(EXIT_DISPATCH_HAD_FAILURE, 4);
    assert_eq!(EXIT_AE_REVIEW_REJECTED, 5);
    assert_eq!(EXIT_RECURSION_DETECTED, 6);
    assert_eq!(EXIT_CANCELLED, 130);
}

#[test]
fn incomplete_run_exit_codes_are_stable() {
    assert_eq!(EXIT_DEPS_STUCK, 7);
    assert_eq!(EXIT_REVIEW_MISSING, 8);
}

#[test]
fn dispatch_ae_verdict_fail_drives_exit_five() {
    let report = report_with_ae("fail", "pass");
    let ae_review_failed = report.outcomes.iter().any(|o| o.verdict == "fail");
    assert!(ae_review_failed);
    assert_eq!(has_verdict(&report, "fail"), ae_review_failed);
    assert_eq!(
        decide_exit(ae_review_failed, false, &report, false, false),
        EXIT_AE_REVIEW_REJECTED
    );
    assert_eq!(dispatch_exit(&report, false, false), EXIT_AE_REVIEW_REJECTED);
}

#[test]
fn dispatch_crash_unknown_verdict_stays_four_not_five() {
    let report = report_with_ae("unknown", "fail");
    let ae_review_failed = report.outcomes.iter().any(|o| o.verdict == "fail");
    assert!(!ae_review_failed);
    assert_eq!(has_verdict(&report, "fail"), ae_review_failed);
    assert_eq!(
        decide_exit(ae_review_failed, false, &report, false, false),
        EXIT_DISPATCH_HAD_FAILURE
    );
    assert_eq!(dispatch_exit(&report, false, false), EXIT_DISPATCH_HAD_FAILURE);
}

#[test]
fn dispatch_missing_verdict_drives_exit_eight() {
    let report = report_with_ae("missing", "pass");
    let review_missing = report.outcomes.iter().any(|o| o.verdict == "missing");
    assert!(review_missing);
    assert_eq!(
        decide_exit(false, false, &report, false, review_missing),
        EXIT_REVIEW_MISSING
    );
    assert_eq!(dispatch_exit(&report, false, false), EXIT_REVIEW_MISSING);
}

#[test]
fn dispatch_crash_unknown_does_not_fire_exit_eight() {
    let report = report_with_ae("unknown", "fail");
    let review_missing = report.outcomes.iter().any(|o| o.verdict == "missing");
    assert!(!review_missing);
    assert_eq!(
        decide_exit(false, false, &report, false, review_missing),
        EXIT_DISPATCH_HAD_FAILURE
    );
}

#[test]
fn decide_exit_worker_pass_ae_pass_returns_zero() {
    assert_eq!(decide_exit(false, false, &report_with(&["pass"]), false, false), 0);
}

#[test]
fn decide_exit_worker_fail_ae_pass_returns_four() {
    assert_eq!(decide_exit(false, false, &report_with(&["fail"]), false, false), EXIT_DISPATCH_HAD_FAILURE);
}

#[test]
fn decide_exit_worker_pass_ae_fail_returns_five() {
    assert_eq!(decide_exit(true, false, &report_with(&["pass"]), false, false), EXIT_AE_REVIEW_REJECTED);
}

#[test]
fn decide_exit_worker_fail_ae_fail_review_wins_returns_five() {
    assert_eq!(decide_exit(true, false, &report_with(&["fail"]), false, false), EXIT_AE_REVIEW_REJECTED);
}

#[test]
fn decide_exit_cancel_no_failure_returns_cancelled() {
    assert_eq!(decide_exit(false, true, &report_with(&["pass"]), false, false), EXIT_CANCELLED);
}

#[test]
fn decide_exit_worker_fail_outranks_cancel_returns_four() {
    assert_eq!(decide_exit(false, true, &report_with(&["fail"]), false, false), EXIT_DISPATCH_HAD_FAILURE);
}

#[test]
fn decide_exit_review_fail_outranks_cancel_returns_five() {
    assert_eq!(decide_exit(true, true, &report_with(&["pass"]), false, false), EXIT_AE_REVIEW_REJECTED);
}

#[test]
fn decide_exit_deps_stuck_alone_returns_seven() {
    assert_eq!(decide_exit(false, false, &report_with(&["pass"]), true, false), EXIT_DEPS_STUCK);
}

#[test]
fn decide_exit_review_missing_alone_returns_eight() {
    assert_eq!(decide_exit(false, false, &report_with(&["pass"]), false, true), EXIT_REVIEW_MISSING);
}

#[test]
fn decide_exit_deps_stuck_wins_over_review_missing() {
    assert_eq!(decide_exit(false, false, &report_with(&["pass"]), true, true), EXIT_DEPS_STUCK);
}

#[test]
fn decide_exit_cancel_outranks_deps_stuck() {
    assert_eq!(decide_exit(false, true, &report_with(&["pass"]), true, false), EXIT_CANCELLED);
}

#[test]
fn decide_exit_cancel_outranks_review_missing() {
    assert_eq!(decide_exit(false, true, &report_with(&["pass"]), false, true), EXIT_CANCELLED);
}

#[test]
fn decide_exit_review_fail_outranks_incomplete_signals() {
    assert_eq!(decide_exit(true, false, &report_with(&["pass"]), true, true), EXIT_AE_REVIEW_REJECTED);
}

#[test]
fn decide_exit_worker_fail_outranks_both_incomplete_signals() {
    assert_eq!(decide_exit(false, false, &report_with(&["fail"]), true, true), EXIT_DISPATCH_HAD_FAILURE);
}

#[test]
fn decide_exit_worker_fail_outranks_deps_stuck() {
    assert_eq!(decide_exit(false, false, &report_with(&["fail"]), true, false), EXIT_DISPATCH_HAD_FAILURE);
}

#[test]
fn decide_exit_worker_fail_outranks_review_missing() {
    assert_eq!(decide_exit(false, false, &report_with(&["fail"]), false, true), EXIT_DISPATCH_HAD_FAILURE);
}

#[test]
fn timeout_worker_yields_dispatch_log_and_nonzero_exit() {
    let report = report_with(&["timeout"]);
    assert_eq!(report.outcomes[0].worker_exit_status, "timeout");
    let log = write_dispatch_log(&report, "/ws/.loom", "1700000000000-1");
    assert!(log.contents.contains("timeout"));
    assert_eq!(decide_exit(false, false, &report, false, false), EXIT_DISPATCH_HAD_FAILURE);
}

#[test]
fn loop_error_exit_cancel_takes_precedence() {
    assert_eq!(loop_error_exit(true), EXIT_CANCELLED);
    assert_eq!(loop_error_exit(false), EXIT_GENERIC_ERROR);
}

#[test]
fn dispatch_dep_blocked_selection_drives_exit_seven() {
    let selected = vec![disc_feat("F-997", &["F-998"], false)];
    let deps_stuck = selected.iter().any(|f| !f.is_done()) && ready_set(&selected).is_empty();
    assert!(deps_stuck);
    assert_eq!(is_deps_stuck(has_incomplete(&selected), &selected), deps_stuck);
    assert_eq!(
        decide_exit(false, false, &report_with(&[]), deps_stuck, false),
        EXIT_DEPS_STUCK
    );
}

#[test]
fn dispatch_all_done_selection_is_not_deps_stuck() {
    let selected = vec![disc_feat("F-996", &[], true), disc_feat("F-995", &[], true)];
    let deps_stuck = selected.iter().any(|f| !f.is_done()) && ready_set(&selected).is_empty();
    assert!(!deps_stuck);
    assert_eq!(is_deps_stuck(has_incomplete(&selected), &selected), deps_stuck);
    assert_eq!(decide_exit(false, false, &report_with(&[]), deps_stuck, false), 0);
}

#[test]
fn dispatch_done_dep_in_selection_is_not_deps_stuck() {
    let selected =
        vec![disc_feat("F-994", &[], true), disc_feat("F-993", &["F-994"], false)];
    let deps_stuck = selected.iter().any(|f| !f.is_done()) && ready_set(&selected).is_empty();
    assert!(!deps_stuck);
    assert_eq!(is_deps_stuck(has_incomplete(&selected), &selected), deps_stuck);
}

#[test]
fn report_exit_code_per_worker_status() {
    assert_eq!(exit_code_for_report(&report_with(&[])), 0);
    assert_eq!(exit_code_for_report(&report_with(&["pass", "cancelled"])), 0);
    for status in ["fail", "timeout", "error", "panic"] {
        assert_eq!(
            exit_code_for_report(&report_with(&["pass", status])),
            EXIT_DISPATCH_HAD_FAILURE
        );
    }
}

#[test]
fn exit_zero_only_when_nothing_is_wrong() {
    for code in 0..16u32 {
        let review = code & 1 != 0;
        let cancel = code & 2 != 0;
        let stuck = code & 4 != 0;
        let missing = code & 8 != 0;
        let exit: i32 = decide_exit(review, cancel, &report_with(&["pass"]), stuck, missing);
        assert_eq!(exit == 0, code == 0);
    }
}

#[test]
fn selection_keeps_the_asked_order_out_of_it() {
    let all = vec![
        disc_feat("F-001", &[], false),
        disc_feat("F-002", &[], false),
        disc_feat("F-003", &[], false),
    ];
    let chosen = select_features(all, &texts(&["F-003", "F-009", "F-001"]));
    let ids: Vec<&str> = chosen.selected.iter().map(|f| f.id.as_str()).collect();
    assert_eq!(ids, vec!["F-001", "F-003"]);
    assert_eq!(chosen.missing, texts(&["F-009"]));
}

#[test]
fn dispatch_is_refused_without_a_workspace_or_a_feature() {
    assert_eq!(dispatch_refusal(false, 3), Some(EXIT_WORKSPACE_NOT_INITIALIZED));
    assert_eq!(dispatch_refusal(true, 0), Some(EXIT_GENERIC_ERROR));
    assert_eq!(dispatch_refusal(true, 1), None);
}

#[test]
fn recursion_is_refused_for_run_and_dispatch_only() {
    let run = Cli { command: Some(Command::Run { goal: "goal".to_string() }) };
    let dispatch = Cli { command: Some(Command::Dispatch { ids: texts(&["F-001"]) }) };
    assert!(refuses_recursion(&run, true));
    assert!(refuses_recursion(&dispatch, true));
    assert!(!refuses_recursion(&run, false));
    assert!(!refuses_recursion(&Cli { command: Some(Command::Status) }, true));
    assert!(!refuses_recursion(&Cli { command: Some(Command::Version) }, true));
    assert!(!refuses_recursion(&Cli { command: None }, true));
}

#[test]
fn max_age_is_in_days_and_saturates() {
    assert_eq!(DEFAULT_MAX_AGE_DAYS, 30);
    assert_eq!(max_age(30), TimeSpan { secs: 2_592_000, nanos: 0 });
    assert_eq!(max_age(u64::MAX), TimeSpan { secs: u64::MAX, nanos: 0 });
}
