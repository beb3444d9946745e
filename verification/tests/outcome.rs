use loom_rt::artifact::{worker_status, Artifact, WorkerVerdict};
use loom_rt::discovery::DiscoveredFeature;
use loom_rt::dispatch::{
    artifact_worker_status_str, collect_report, feature_outcome, next_step, no_review_verdict,
    read_ae_verdict, rescue_status, verdict_probes, worker_spec, FeatureOutcome, FeatureStep,
    Probe, ProbeRead, TaskResult,
};
use loom_rt::moment::{Moment, TimeSpan};
use loom_rt::verdict::{AeVerdict, ReviewRead};

const STARTED: Moment = Moment { secs: 1_700_000_000, nanos: 500 };

fn artifact(verdict: WorkerVerdict, exit_code: i32) -> Artifact {
    Artifact {
        verdict,
        stdout_path: "/wt/stub.out".to_string(),
        reasoning_trace: None,
        duration: TimeSpan { secs: 1, nanos: 2_999_999 },
        worker_identity: "F-200-w0".to_string(),
        exit_code,
        drain_truncated: false,
    }
}

fn review(word: &str) -> ReviewRead {
    ReviewRead::Frontmatter(Some(word.to_string()))
}

/// What is read at the probes of a feature, where a review lies at `path` only.
fn reads(probes: &Vec<Probe>, path: &str, word: &str, modified: Option<Moment>) -> Vec<ProbeRead> {
    probes
        .iter()
        .map(|p| {
            if p.path == path {
                ProbeRead { modified, review: review(word) }
            } else {
                ProbeRead { modified: None, review: ReviewRead::Failed }
            }
        })
        .collect()
}

/// The outcome of a run whose review, if any, lies at `path`.
fn run_at(path: &str, word: &str, modified: Option<Moment>, worker: WorkerVerdict) -> FeatureOutcome {
    let worktree = Some("/wt".to_string());
    let probes = verdict_probes("/ws/.ae/features/active/F-016-x", &worktree, "/ws");
    let found = read_ae_verdict(&probes, &reads(&probes, path, word, modified), STARTED);
    feature_outcome(
        "F-016".to_string(),
        "F-016-w0".to_string(),
        Ok(artifact(worker, 0)),
        found,
        None,
        9,
        true,
    )
}

/// The outcome of a worker that ran beside its feature, on a machine of this sort.
fn run_stub(word: Option<&str>, worker: WorkerVerdict, exit_code: i32, unix: bool) -> FeatureOutcome {
    let probes = verdict_probes("/ws/.ae/features/active/F-200-x", &None, "/ws");
    let path = "/ws/.ae/features/active/F-200-x/review.md";
    let found = match word {
        Some(w) => read_ae_verdict(&probes, &reads(&probes, path, w, Some(STARTED)), STARTED),
        None => read_ae_verdict(&probes, &reads(&probes, "", "pass", None), STARTED),
    };
    feature_outcome(
        "F-200".to_string(),
        "F-200-w0".to_string(),
        Ok(artifact(worker, exit_code)),
        found,
        None,
        9,
        unix,
    )
}

#[test]
fn run_one_feature_clean_worker_review_fail_yields_ae_fail() {
    let o = run_stub(Some("fail"), WorkerVerdict::Pass, 0, true);
    assert_eq!(o.verdict, "fail");
    assert_eq!(o.worker_exit_status, "pass");
}

#[test]
fn run_one_feature_crash_no_review_is_worker_fail_verdict_unknown() {
    let o = run_stub(None, WorkerVerdict::Fail, 1, true);
    assert_eq!(o.worker_exit_status, "fail");
    assert_eq!(o.verdict, "unknown");
    assert_eq!(o.exit_code, 1);
}

#[test]
fn run_one_feature_clean_no_review_is_verdict_missing() {
    let o = run_stub(None, WorkerVerdict::Pass, 0, true);
    assert_eq!(o.verdict, "missing");
    assert_eq!(o.worker_exit_status, "pass");
}

#[test]
fn run_one_feature_clean_no_review_stays_unknown_on_non_unix() {
    let o = run_stub(None, WorkerVerdict::Pass, 0, false);
    assert_eq!(o.verdict, "unknown");
    assert_eq!(o.worker_exit_status, "pass");
}

#[test]
fn run_one_feature_cancelled_no_review_is_verdict_unknown() {
    let o = run_stub(None, WorkerVerdict::Cancelled, 130, true);
    assert_eq!(o.verdict, "unknown");
    assert_eq!(o.worker_exit_status, "cancelled");
}

#[test]
fn no_review_verdict_clean_is_missing_on_unix() {
    assert_eq!(no_review_verdict(true, true), "missing");
    assert_eq!(no_review_verdict(false, true), "unknown");
}

#[test]
fn no_review_verdict_not_clean_is_unknown_everywhere() {
    assert_eq!(no_review_verdict(true, false), "unknown");
    assert_eq!(no_review_verdict(false, false), "unknown");
}

#[test]
fn run_one_feature_reads_review_through_worktree_symlink() {
    let o = run_at(
        "/wt/.ae/features/active/F-016-x/review.md",
        "pass",
        None,
        WorkerVerdict::Pass,
    );
    assert_eq!(o.verdict, "pass");
}

#[test]
#[allow(non_snake_case)]
fn archived_pass_B_worktree_local_heals() {
    let o = run_at("/wt/.ae/features/done/F-016-x/review.md", "pass", None, WorkerVerdict::Pass);
    assert_eq!(o.verdict, "pass");
}

#[test]
#[allow(non_snake_case)]
fn archived_pass_C_main_done_heals() {
    let later = Moment { secs: STARTED.secs + 1, nanos: 0 };
    let o =
        run_at("/ws/.ae/features/done/F-016-x/review.md", "pass", Some(later), WorkerVerdict::Pass);
    assert_eq!(o.verdict, "pass");
}

#[test]
#[allow(non_snake_case)]
fn scenario_A_unarchived_still_reads() {
    let o = run_at("/ws/.ae/features/active/F-016-x/review.md", "pass", None, WorkerVerdict::Pass);
    assert_eq!(o.verdict, "pass");
}

#[test]
fn probe_c_does_not_heal_stale_prior_cycle_review() {
    let hour_ago = Moment { secs: STARTED.secs - 3600, nanos: STARTED.nanos };
    let path = "/ws/.ae/features/done/F-016-x/review.md";
    assert_eq!(run_at(path, "pass", Some(hour_ago), WorkerVerdict::Pass).verdict, "missing");
    let just_before = Moment { secs: STARTED.secs, nanos: STARTED.nanos - 1 };
    assert_eq!(run_at(path, "pass", Some(just_before), WorkerVerdict::Pass).verdict, "missing");
    assert_eq!(run_at(path, "pass", None, WorkerVerdict::Pass).verdict, "missing");
}

#[test]
#[allow(non_snake_case)]
fn fresh_archive_C_heals_f015() {
    let path = "/ws/.ae/features/done/F-016-x/review.md";
    assert_eq!(run_at(path, "pass", Some(STARTED), WorkerVerdict::Pass).verdict, "pass");
}

#[test]
fn probes_run_from_the_feature_to_the_archive() {
    let probes =
        verdict_probes("/ws/.ae/features/active/F-016-x", &Some("/wt".to_string()), "/ws");
    let places: Vec<(&str, bool)> =
        probes.iter().map(|p| (p.path.as_str(), p.fresh_only)).collect();
    assert_eq!(
        places,
        vec![
            ("/ws/.ae/features/active/F-016-x/review.md", false),
            ("/wt/.ae/features/active/F-016-x/review.md", false),
            ("/wt/.ae/features/done/F-016-x/review.md", false),
            ("/ws/.ae/features/done/F-016-x/review.md", true),
        ]
    );
    // A path that ends in `..` has no name to look under.
    assert_eq!(verdict_probes("/ws/..", &None, "/ws").len(), 1);
}

#[test]
fn the_first_verdict_counts() {
    let probes =
        verdict_probes("/ws/.ae/features/active/F-016-x", &Some("/wt".to_string()), "/ws");
    let all = vec![
        ProbeRead { modified: None, review: review("pending") },
        ProbeRead { modified: None, review: review("fail") },
        ProbeRead { modified: None, review: review("pass") },
        ProbeRead { modified: Some(STARTED), review: review("pass") },
    ];
    assert_eq!(read_ae_verdict(&probes, &all, STARTED), Some(AeVerdict::Fail));
}

#[test]
fn run_dispatch_loop_timeout_yields_timeout_outcome() {
    let o = run_stub(None, WorkerVerdict::Timeout, 1, true);
    let report = collect_report(5, 7, vec![TaskResult::Finished(o)]);
    assert_eq!(report.dispatched_count, 1);
    assert_eq!(report.outcomes[0].worker_exit_status, "timeout");
    assert_eq!(report.started_at_ms, 5);
    assert_eq!(report.elapsed_ms, 7);
}

#[test]
fn lost_tasks_are_reported() {
    let report = collect_report(
        0,
        0,
        vec![TaskResult::Failed("no git".to_string()), TaskResult::Panicked("boom".to_string())],
    );
    assert_eq!(report.dispatched_count, 2);
    assert_eq!(report.outcomes[0].feature_id, "<unknown>");
    assert_eq!(report.outcomes[0].worker_exit_status, "error");
    assert_eq!(report.outcomes[0].error, Some("no git".to_string()));
    assert_eq!(report.outcomes[1].worker_exit_status, "panic");
    assert_eq!(report.outcomes[1].exit_code, -1);
    assert_eq!(report.outcomes[1].verdict, "unknown");
}

#[test]
fn a_worker_that_errs_is_recorded() {
    let o = feature_outcome(
        "F-200".to_string(),
        "F-200-w0".to_string(),
        Err("spawn failed".to_string()),
        Some(AeVerdict::Pass),
        Some("refs/heads/loom-rescue/F-200-error".to_string()),
        41,
        true,
    );
    assert_eq!(o.verdict, "unknown");
    assert_eq!(o.worker_exit_status, "error");
    assert_eq!(o.exit_code, -1);
    assert_eq!(o.duration_ms, 41);
    assert_eq!(o.stdout_path, "");
    assert_eq!(o.error, Some("spawn failed".to_string()));
    assert_eq!(o.rescue_ref, Some("refs/heads/loom-rescue/F-200-error".to_string()));
}

#[test]
fn durations_are_recorded_in_whole_milliseconds() {
    let o = run_stub(Some("pass"), WorkerVerdict::Pass, 0, true);
    assert_eq!(o.duration_ms, 1002);
    assert_eq!(o.stdout_path, "/wt/stub.out");
}

#[test]
fn statuses_have_their_words() {
    let words = [
        (WorkerVerdict::Pass, "pass"),
        (WorkerVerdict::Fail, "fail"),
        (WorkerVerdict::Timeout, "timeout"),
        (WorkerVerdict::Cancelled, "cancelled"),
    ];
    for (verdict, word) in words {
        assert_eq!(worker_status(verdict), word);
        assert_eq!(artifact_worker_status_str(&artifact(verdict, 0)), word);
        assert_eq!(rescue_status(&Ok(artifact(verdict, 0))), word);
    }
    assert_eq!(rescue_status(&Err("x".to_string())), "error");
}

#[test]
fn workers_run_in_their_worktree() {
    let feature = DiscoveredFeature {
        id: "F-001".to_string(),
        feature_dir: "/ws/F-001".to_string(),
        depends_on: vec![],
        work_state: None,
    };
    let spec = worker_spec(&feature, &Some("/wt".to_string()), "F-001-w0");
    assert_eq!(spec.feature_dir, "/wt");
    assert_eq!(spec.worker_identity, "F-001-w0");
    assert_eq!(worker_spec(&feature, &None, "w").feature_dir, "/ws/F-001");
}

#[test]
fn a_worktree_outlives_its_use() {
    let steps = |worktree: bool| {
        let mut out = vec![FeatureStep::CreateWorktree];
        let mut step = FeatureStep::CreateWorktree;
        while let Some(next) = next_step(step, worktree) {
            out.push(next);
            step = next;
        }
        out
    };
    assert_eq!(
        steps(true),
        vec![
            FeatureStep::CreateWorktree,
            FeatureStep::RunWorker,
            FeatureStep::Propagate,
            FeatureStep::ReadVerdict,
            FeatureStep::RemoveWorktree,
            FeatureStep::Record,
        ]
    );
    assert_eq!(
        steps(false),
        vec![
            FeatureStep::CreateWorktree,
            FeatureStep::RunWorker,
            FeatureStep::ReadVerdict,
            FeatureStep::Record,
        ]
    );
}
