use loom_rt::delivery::write_dispatch_log;
use loom_rt::dispatch::{DispatchReport, FeatureOutcome};
use loom_rt::journal::{append, RunJournal};
use loom_rt::moment::Moment;
use loom_rt::recovery::{
    dispatch_log_is_valid, is_log_shape, journal_lines, reconcile, recover_orphan_runs,
    synthesize_report, JsonKind, OrphanJournal, RecoveredRecord, Reconciliation,
};

/// The record on one line of a journal, if it is a whole one.
fn record(line: &str) -> Option<RecoveredRecord> {
    let value: serde_json::Value = match serde_json::from_str(line) {
        Ok(v) => v,
        Err(_) => return None,
    };
    let text = |name: &str| value[name].as_str().map(|s| s.to_string());
    Some(RecoveredRecord {
        event: text("event")?,
        feature_id: text("feature_id")?,
        worker_exit_status: text("worker_exit_status"),
        verdict: text("verdict"),
        ref_name: text("ref_name"),
    })
}

/// The one journal among the files of a `.loom` directory.
fn only_orphan(paths: &[&str]) -> OrphanJournal {
    let all: Vec<String> = paths.iter().map(|p| p.to_string()).collect();
    let (_, mut orphans) = recover_orphan_runs(&all, "/ws/.loom");
    assert_eq!(orphans.len(), 1);
    orphans.remove(0)
}

/// What is decided about a journal with this content, beside a log with that one.
fn recovered(run: &str, content: &str, log: Option<&str>) -> Reconciliation {
    let orphan = only_orphan(&[&format!("/ws/.loom/journal-{run}.ndjson")]);
    assert_eq!(orphan.run_id, run);
    assert_eq!(orphan.log_path, format!("/ws/.loom/dispatch-{run}.log"));
    let valid = dispatch_log_is_valid(&log.map(|l| l.to_string()));
    let records: Vec<Option<RecoveredRecord>> =
        journal_lines(content).iter().map(|l| record(l)).collect();
    reconcile(&orphan, valid, &records, "/ws/.loom")
}

fn line(event: &str, run: &str, id: &str, rest: &str) -> String {
    format!(
        "{{\"event\":\"{event}\",\"run_id\":\"{run}\",\"feature_id\":\"{id}\",\"ts_ms\":1{rest}}}\n"
    )
}

fn check_log_validity() {
    let valid = |s: &str| dispatch_log_is_valid(&Some(s.to_string()));
    assert!(valid("{\"started_at_ms\":0,\"elapsed_ms\":0,\"dispatched_count\":0,\"outcomes\":[]}"));
    assert!(!valid("{\"outcomes\":[]}"));
    assert!(!valid("{}"));
    assert!(!valid("{\"outcomes\":\"x\",\"dispatched_count\":1}"));
    assert!(!valid("   "));
    assert!(!dispatch_log_is_valid(&None));
}

fn check_synthesis() {
    let content = line("worker-start", "111-1", "F-001", "")
        + &line(
            "worker-finish",
            "111-1",
            "F-001",
            ",\"worker_exit_status\":\"timeout\",\"verdict\":\"unknown\"",
        );
    let done = recovered("111-1", &content, None);
    let log = done.log.unwrap();
    assert_eq!(log.path, "/ws/.loom/dispatch-111-1.log");
    assert!(log.contents.contains("F-001"));
    assert!(log.contents.contains("timeout"));
    assert_eq!(done.done_path, "/ws/.loom/journal-111-1.ndjson.done");
}

fn check_start_only() {
    let content = line("worker-start", "222-1", "F-002", "") + "{\"event\":\"worker-fini";
    let body = recovered("222-1", &content, None).log.unwrap().contents;
    assert!(body.contains("F-002"));
    assert!(body.contains("\"worker_exit_status\": \"error\""));
    assert!(body.contains("\"verdict\": \"unknown\""));
}

fn check_valid_log_stays() {
    let content = line("worker-start", "333-1", "F-003", "");
    let log = "{\"started_at_ms\":0,\"elapsed_ms\":0,\"dispatched_count\":0,\"outcomes\":[]}";
    let done = recovered("333-1", &content, Some(log));
    assert!(done.log.is_none());
    assert_eq!(done.done_path, "/ws/.loom/journal-333-1.ndjson.done");
}

fn check_finish_before_start() {
    let content = line(
        "worker-finish",
        "444-1",
        "F-004",
        ",\"worker_exit_status\":\"pass\",\"verdict\":\"pass\"",
    ) + &line("worker-start", "444-1", "F-004", "");
    let body = recovered("444-1", &content, None).log.unwrap().contents;
    assert!(body.contains("\"worker_exit_status\": \"pass\""));
    assert!(!body.contains("\"worker_exit_status\": \"error\""));
}

fn check_bogus_log_is_replaced() {
    let content = line("worker-start", "555-1", "F-005", "")
        + &line(
            "worker-finish",
            "555-1",
            "F-005",
            ",\"worker_exit_status\":\"fail\",\"verdict\":\"fail\"",
        );
    let done = recovered("555-1", &content, Some("{}"));
    let body = done.log.unwrap().contents;
    assert!(body.contains("F-005"));
    assert!(body.contains("outcomes"));
    assert_eq!(done.done_path, "/ws/.loom/journal-555-1.ndjson.done");
}

fn check_inert_without_journals() {
    let paths =
        vec!["/ws/.loom/dispatch-x.log".to_string(), "/ws/.loom/journal-old.ndjson.done".to_string()];
    let (_, orphans) = recover_orphan_runs(&paths, "/ws/.loom");
    assert_eq!(orphans.len(), 0);
}

fn check_eventless_journal() {
    let done = recovered("999-1", "", None);
    assert!(done.log.is_none());
    assert_eq!(done.done_path, "/ws/.loom/journal-999-1.ndjson.done");
}

#[test]
fn journal_dispatch_log_validity_requires_dispatchreport_shape() {
    check_log_validity();
}

#[test]
fn journal_recovery_synthesizes_log_for_orphan_without_dispatch_log() {
    check_synthesis();
}

#[test]
fn journal_recovery_start_only_yields_error_unknown_and_tolerates_torn_final_line() {
    check_start_only();
}

#[test]
fn journal_recovery_with_valid_dispatch_log_renames_done_without_resynthesis() {
    check_valid_log_stays();
}

#[test]
fn journal_recovery_finish_before_start_still_synthesizes_finished_outcome() {
    check_finish_before_start();
}

#[test]
fn journal_recovery_treats_non_dispatchreport_json_log_as_not_authoritative() {
    check_bogus_log_is_replaced();
}

#[test]
fn journal_recovery_is_inert_when_no_journals_present() {
    check_inert_without_journals();
}

#[test]
fn journal_recovery_zero_event_journal_finalizes_done_without_phantom_log() {
    check_eventless_journal();
}

#[test]
fn recovery_dispatch_log_validity_requires_dispatchreport_shape() {
    check_log_validity();
}

#[test]
fn recovery_recovery_synthesizes_log_for_orphan_without_dispatch_log() {
    check_synthesis();
}

#[test]
fn recovery_recovery_start_only_yields_error_unknown_and_tolerates_torn_final_line() {
    check_start_only();
}

#[test]
fn recovery_recovery_with_valid_dispatch_log_renames_done_without_resynthesis() {
    check_valid_log_stays();
}

#[test]
fn recovery_recovery_finish_before_start_still_synthesizes_finished_outcome() {
    check_finish_before_start();
}

#[test]
fn recovery_recovery_treats_non_dispatchreport_json_log_as_not_authoritative() {
    check_bogus_log_is_replaced();
}

#[test]
fn recovery_recovery_is_inert_when_no_journals_present() {
    check_inert_without_journals();
}

#[test]
fn recovery_recovery_zero_event_journal_finalizes_done_without_phantom_log() {
    check_eventless_journal();
}

#[test]
fn sigkill_mid_run_recovers_orphan_journal_on_restart() {
    let (looked, _) = recover_orphan_runs(&vec![], "/ws/.loom");
    let journal =
        RunJournal::create("/ws/.loom", Moment { secs: 1_700_000_000, nanos: 0 }, 77, looked);
    let content = append(&journal.worker_start("F-001", 5));
    let orphan = only_orphan(&[&journal.path]);
    let records: Vec<Option<RecoveredRecord>> =
        journal_lines(&content).iter().map(|l| record(l)).collect();
    let done = reconcile(&orphan, false, &records, "/ws/.loom");
    let log = done.log.unwrap();
    assert_eq!(log.path, "/ws/.loom/dispatch-1700000000000-77.log");
    assert!(log.contents.contains("\"feature_id\": \"F-001\""));
    assert!(log.contents.contains("\"worker_exit_status\": \"error\""));
    // The log that was just written is taken for one, so it is not written again.
    assert!(dispatch_log_is_valid(&Some(log.contents)));
}

#[test]
fn reports_are_recovered_in_the_order_of_ids() {
    let read = |event: &str, id: &str, status: Option<&str>, name: Option<&str>| {
        Some(RecoveredRecord {
            event: event.to_string(),
            feature_id: id.to_string(),
            worker_exit_status: status.map(|s| s.to_string()),
            verdict: None,
            ref_name: name.map(|s| s.to_string()),
        })
    };
    let report = synthesize_report(&vec![
        read("worker-start", "F-010", None, None),
        read("worker-start", "F-002", None, None),
        None,
        read("rescue-ref-written", "F-002", None, Some("refs/heads/loom-rescue/F-002-fail")),
        read("worker-finish", "F-002", Some("fail"), None),
        read("worker-sneeze", "F-001", None, None),
    ]);
    assert_eq!(report.dispatched_count, 2);
    assert_eq!(report.outcomes[0].feature_id, "F-002");
    assert_eq!(report.outcomes[0].worker_exit_status, "fail");
    assert_eq!(
        report.outcomes[0].rescue_ref,
        Some("refs/heads/loom-rescue/F-002-fail".to_string())
    );
    assert_eq!(report.outcomes[1].feature_id, "F-010");
    assert_eq!(report.outcomes[1].worker_exit_status, "error");
    assert_eq!(report.outcomes[1].verdict, "unknown");
}

#[test]
fn a_torn_write_loses_no_record() {
    let (looked, _) = recover_orphan_runs(&vec![], "/ws/.loom");
    let journal = RunJournal::create("/ws/.loom", Moment { secs: 1, nanos: 0 }, 2, looked);
    let first = append(&journal.worker_start("F-001\n{", 5));
    let second = append(&journal.worker_finish("F-001", "pass", "\u{2028}", 6));
    let torn = &second[..second.len() / 2];
    let lines = journal_lines(&format!("{first}{second}{torn}"));
    assert_eq!(
        lines,
        vec![first.trim_end().to_string(), second.trim_end().to_string(), torn.to_string()]
    );
    assert_eq!(record(&lines[0]).unwrap().feature_id, "F-001\n{");
    assert_eq!(record(&lines[1]).unwrap().verdict, Some("\u{2028}".to_string()));
    assert!(record(&lines[2]).is_none());
}

#[test]
fn journal_lines_are_trimmed_and_not_blank() {
    assert_eq!(
        journal_lines(" a \r\n\n\u{2003}\nb"),
        vec!["a".to_string(), "b".to_string()]
    );
    assert!(journal_lines("").is_empty());
}

#[test]
fn every_log_that_is_written_is_valid() {
    let report = DispatchReport {
        started_at_ms: 1,
        elapsed_ms: 2,
        dispatched_count: 1,
        outcomes: vec![FeatureOutcome {
            feature_id: "\"}{ \\ \n".to_string(),
            worker_identity: "w".to_string(),
            verdict: "pass".to_string(),
            worker_exit_status: "pass".to_string(),
            exit_code: -1,
            duration_ms: 3,
            stdout_path: "/tmp/\u{1}".to_string(),
            drain_truncated: true,
            error: Some("é".to_string()),
            rescue_ref: None,
        }],
    };
    let log = write_dispatch_log(&report, "/ws/.loom", "1-2");
    assert!(dispatch_log_is_valid(&Some(log.contents)));
}

#[test]
fn log_shape_needs_an_array_and_a_number() {
    let kinds = [
        None,
        Some(JsonKind::Null),
        Some(JsonKind::Bool),
        Some(JsonKind::Number),
        Some(JsonKind::Text),
        Some(JsonKind::Array),
        Some(JsonKind::Object),
    ];
    for a in kinds {
        for b in kinds {
            assert_eq!(
                is_log_shape(a, b),
                a == Some(JsonKind::Array) && b == Some(JsonKind::Number)
            );
        }
    }
    let valid = |s: &str| dispatch_log_is_valid(&Some(s.to_string()));
    // The last of two members counts, and anything but white space after the value
    // makes it no JSON.
    assert!(valid(" {\"outcomes\":1,\"outcomes\":[],\"dispatched_count\":-2.5} "));
    assert!(!valid("{\"outcomes\":[],\"dispatched_count\":1} x"));
    assert!(!valid("[\"outcomes\",\"dispatched_count\"]"));
    assert!(!valid("{\"outcomes\":[],\"dispatched_count\":null}"));
}
