use loom_rt::cli::{EXIT_CANCELLED, EXIT_DEPS_STUCK, EXIT_REVIEW_MISSING};
use loom_rt::discovery::DiscoveredFeature;
use loom_rt::dispatch::{
    collect_report, plan_dispatch, DispatchReport, FeatureOutcome, TaskResult,
};
use loom_rt::exit::decide_exit;
use loom_rt::iteration::{
    aggregate_reports, apply_verdict, mark_terminally_done, pre_populate_terminal_sets,
    write_status, IterationOutcome, LoopAction, LoopEvent, LoopState, Observation,
};
use loom_rt::names::NameSet;
use loom_rt::verdict::{parse_review_once, AeVerdict, ReviewRead, VerdictEvent};

fn feat(id: &str, basename: &str, deps: &[&str], done: bool) -> DiscoveredFeature {
    DiscoveredFeature {
        id: id.to_string(),
        feature_dir: format!(".ae/features/active/{basename}"),
        depends_on: deps.iter().map(|s| s.to_string()).collect(),
        work_state: if done { Some("done".to_string()) } else { None },
    }
}

fn names(items: &[&str]) -> NameSet {
    let mut set = NameSet::new();
    for item in items {
        set.insert(item.to_string());
    }
    set
}

fn outcome(id: &str, verdict: &str, status: &str) -> FeatureOutcome {
    FeatureOutcome {
        feature_id: id.to_string(),
        worker_identity: format!("{id}-w0"),
        verdict: verdict.to_string(),
        worker_exit_status: status.to_string(),
        exit_code: 0,
        duration_ms: 1,
        stdout_path: String::new(),
        drain_truncated: false,
        error: None,
        rescue_ref: None,
    }
}

/// A workspace: its features, and the review that lies beside each.
struct Disk {
    features: Vec<(DiscoveredFeature, Option<AeVerdict>)>,
    events: Vec<VerdictEvent>,
}

impl Disk {
    fn observe(&mut self) -> Observation {
        Observation {
            events: std::mem::take(&mut self.events),
            features: self.features.iter().map(|(f, _)| f.clone()).collect(),
            reviews: self.features.iter().map(|(_, v)| *v).collect(),
        }
    }
}

/// Runs the loop over a workspace. `work` is the worker: it changes the workspace
/// and says how it went. Gives the phases that were written as well.
fn run_loop(
    disk: &mut Disk,
    cancelled: bool,
    work: fn(&mut Disk, &str) -> FeatureOutcome,
) -> (IterationOutcome, Vec<String>) {
    let mut pass = NameSet::new();
    let mut fail = NameSet::new();
    let seen = disk.observe();
    pre_populate_terminal_sets(&seen.features, &seen.reviews, &mut pass, &mut fail);
    let mut state = LoopState::new(pass, fail);
    let mut phases: Vec<String> = vec![];
    let mut settling = false;
    let mut action = state.step(LoopEvent::Begin { cancelled });
    loop {
        action = match action {
            LoopAction::Observe => {
                let seen = disk.observe();
                if settling {
                    state.step(LoopEvent::Settled(seen))
                } else {
                    state.step(LoopEvent::Observed(seen))
                }
            }
            LoopAction::Dispatch { status, features } => {
                phases.push(status.phase);
                let mut results: Vec<TaskResult> = vec![];
                for slot in plan_dispatch(&features, 1) {
                    results.push(TaskResult::Finished(work(disk, &slot.feature.id)));
                }
                settling = true;
                state.step(LoopEvent::Dispatched(collect_report(1, 1, results)))
            }
            LoopAction::Continue => {
                settling = false;
                state.step(LoopEvent::Begin { cancelled })
            }
            LoopAction::Stop { statuses } => {
                phases.extend(statuses.into_iter().map(|s| s.phase));
                return (state.finish(), phases);
            }
        };
    }
}

fn mark(disk: &mut Disk, id: &str, done: bool, review: Option<AeVerdict>) {
    for (feature, verdict) in disk.features.iter_mut() {
        if feature.id == id {
            feature.work_state = if done { Some("done".to_string()) } else { None };
            *verdict = review;
        }
    }
}

fn finishes_with_review(disk: &mut Disk, id: &str) -> FeatureOutcome {
    mark(disk, id, true, Some(AeVerdict::Pass));
    outcome(id, "pass", "pass")
}

fn finishes_without_review(disk: &mut Disk, id: &str) -> FeatureOutcome {
    mark(disk, id, true, None);
    outcome(id, "missing", "pass")
}

fn fails_twice(disk: &mut Disk, id: &str) -> FeatureOutcome {
    mark(disk, id, false, Some(AeVerdict::Fail));
    outcome(id, "fail", "fail")
}

fn crashes(_disk: &mut Disk, id: &str) -> FeatureOutcome {
    outcome(id, "unknown", "fail")
}

fn never_runs(_disk: &mut Disk, id: &str) -> FeatureOutcome {
    panic!("{id} was dispatched")
}

#[test]
fn apply_verdict_pass_removes_from_fail() {
    let mut pass = NameSet::new();
    let mut fail = names(&["F-X"]);
    apply_verdict(&mut pass, &mut fail, "F-X".to_string(), AeVerdict::Pass);
    assert!(pass.contains("F-X"));
    assert!(!fail.contains("F-X"));
}

#[test]
fn apply_verdict_fail_removes_from_pass() {
    let mut pass = names(&["F-Y"]);
    let mut fail = NameSet::new();
    apply_verdict(&mut pass, &mut fail, "F-Y".to_string(), AeVerdict::Fail);
    assert!(fail.contains("F-Y"));
    assert!(!pass.contains("F-Y"));
}

#[test]
fn mark_terminally_done_matches_basename_not_id() {
    let pass = names(&["F-002-wire-verdict-listener-into-iteration-loop"]);
    let features =
        vec![feat("F-002", "F-002-wire-verdict-listener-into-iteration-loop", &[], false)];
    let marked = mark_terminally_done(&features, &pass);
    assert_eq!(marked.len(), 1);
    assert!(marked[0].is_done());
}

#[test]
fn mark_terminally_done_rejects_bare_id_match() {
    let pass = names(&["F-002"]);
    let features =
        vec![feat("F-002", "F-002-wire-verdict-listener-into-iteration-loop", &[], false)];
    let marked = mark_terminally_done(&features, &pass);
    assert!(!marked[0].is_done());
}

#[test]
fn mark_terminally_done_handles_empty_pass() {
    let marked = mark_terminally_done(&vec![feat("F-A", "F-A-slug", &[], false)], &NameSet::new());
    assert!(!marked[0].is_done());
}

#[test]
fn mark_terminally_done_orphaned_verdict_no_op() {
    let pass = names(&["F-DELETED"]);
    let marked = mark_terminally_done(&vec![feat("F-A", "F-A-slug", &[], false)], &pass);
    assert_eq!(marked.len(), 1);
    assert!(!marked[0].is_done());
}

/// What the scan at the start finds for one feature with this review.
fn pre_populated(basename: &str, read: ReviewRead) -> (NameSet, NameSet) {
    let mut pass = NameSet::new();
    let mut fail = NameSet::new();
    let features = vec![feat("F-901", basename, &[], false)];
    pre_populate_terminal_sets(
        &features,
        &vec![parse_review_once(&read)],
        &mut pass,
        &mut fail,
    );
    (pass, fail)
}

#[test]
fn pre_populate_terminal_sets_recovers_existing_review() {
    let (pass, fail) =
        pre_populated("F-901-test", ReviewRead::Frontmatter(Some("pass".to_string())));
    assert!(pass.contains("F-901-test"));
    assert!(!pass.contains("F-901"));
    assert!(fail.is_empty());
}

#[test]
fn pre_populate_terminal_sets_skips_missing_review() {
    let (pass, fail) = pre_populated("F-902-slug", ReviewRead::Failed);
    assert!(pass.is_empty());
    assert!(fail.is_empty());
}

#[test]
fn pre_populate_terminal_sets_classifies_fail_verdict() {
    let (pass, fail) =
        pre_populated("F-903-fail", ReviewRead::Frontmatter(Some("fail".to_string())));
    assert!(fail.contains("F-903-fail"));
    assert!(pass.is_empty());
}

#[test]
fn run_iteration_loop_breaks_on_prefired_cancel_and_caller_observes_it() {
    let mut disk = Disk { features: vec![(feat("F-1", "F-1", &[], false), None)], events: vec![] };
    let (done, phases) = run_loop(&mut disk, true, never_runs);
    assert!(done.reports.is_empty());
    assert!(!done.ae_review_failed);
    assert!(phases.is_empty());
}

#[test]
fn cancelled_loop_outcome_drives_decide_exit_to_cancelled() {
    let mut disk = Disk { features: vec![], events: vec![] };
    let (done, _) = run_loop(&mut disk, true, never_runs);
    let all = aggregate_reports(done.reports);
    assert_eq!(decide_exit(done.ae_review_failed, true, &all, false, false), EXIT_CANCELLED);
}

#[test]
fn deps_stuck_loop_outcome_drives_decide_exit_to_seven() {
    let mut disk = Disk {
        features: vec![(feat("F-904", "F-904-stuck", &["F-905"], false), None)],
        events: vec![],
    };
    let (done, phases) = run_loop(&mut disk, false, never_runs);
    let all = aggregate_reports(done.reports);
    assert_eq!(
        decide_exit(done.ae_review_failed, false, &all, done.deps_stuck, false),
        EXIT_DEPS_STUCK
    );
    assert_eq!(phases, vec!["dispatch", "blocked"]);
}

#[test]
fn review_missing_loop_outcome_drives_decide_exit_to_eight() {
    let mut disk = Disk {
        features: vec![(feat("F-912", "F-912-noreview", &[], false), None)],
        events: vec![],
    };
    let (done, phases) = run_loop(&mut disk, false, finishes_without_review);
    let all = aggregate_reports(done.reports);
    assert_eq!(
        decide_exit(done.ae_review_failed, false, &all, done.deps_stuck, done.review_missing),
        EXIT_REVIEW_MISSING
    );
    assert_eq!(phases, vec!["dispatch", "dispatch", "done"]);
}

#[test]
fn multi_cycle_dag_converges_with_stub_worker() {
    let mut disk = Disk {
        features: vec![
            (feat("F-101", "F-101", &[], false), None),
            (feat("F-102", "F-102", &["F-101"], false), None),
            (feat("F-103", "F-103", &["F-102"], false), None),
        ],
        events: vec![],
    };
    let (done, _) = run_loop(&mut disk, false, finishes_with_review);
    assert!(!done.ae_review_failed);
    assert!(!done.review_missing);
    assert!(!done.deps_stuck);
    assert!(done.reports.len() <= 6);
    let total: usize = done.reports.iter().map(|r| r.dispatched_count).sum();
    assert_eq!(total, 3);
    for report in &done.reports {
        for o in &report.outcomes {
            assert_eq!(o.verdict, "pass");
            assert_eq!(o.worker_exit_status, "pass");
        }
    }
    assert_eq!(disk.features.len(), 3);
    assert!(disk.features.iter().all(|(f, _)| f.is_done()));
    let all = aggregate_reports(done.reports);
    assert_eq!(
        decide_exit(done.ae_review_failed, false, &all, done.deps_stuck, done.review_missing),
        0
    );
}

#[test]
fn a_passing_graph_is_run_to_its_end() {
    // F-4 needs F-2 and F-3, which both need F-1; F-5 needs nothing.
    let edges: [(&str, &[&str]); 5] = [
        ("F-4", &["F-2", "F-3"]),
        ("F-2", &["F-1"]),
        ("F-5", &[]),
        ("F-3", &["F-1"]),
        ("F-1", &[]),
    ];
    let features =
        edges.iter().map(|(id, deps)| (feat(id, &format!("{id}-x"), deps, false), None)).collect();
    let mut disk = Disk { features, events: vec![] };
    let (done, phases) = run_loop(&mut disk, false, finishes_with_review);
    assert!(!done.ae_review_failed && !done.deps_stuck && !done.review_missing);
    assert!(done.reports.len() <= edges.len());
    assert_eq!(phases.last(), Some(&"done".to_string()));
    let cycle = |id: &str| -> usize {
        let found: Vec<usize> = done
            .reports
            .iter()
            .enumerate()
            .filter(|(_, r)| r.outcomes.iter().any(|o| o.feature_id == id))
            .map(|(i, _)| i)
            .collect();
        assert_eq!(found.len(), 1);
        found[0]
    };
    for (id, deps) in edges {
        for dep in deps {
            assert!(cycle(dep) < cycle(id));
        }
    }
    let total: usize = done.reports.iter().map(|r| r.outcomes.len()).sum();
    assert_eq!(total, edges.len());
}

#[test]
fn dual_failure_review_verdict_wins_over_worker_fail() {
    let mut disk =
        Disk { features: vec![(feat("F-120", "F-120", &[], false), None)], events: vec![] };
    let (done, phases) = run_loop(&mut disk, false, fails_twice);
    let failed: usize = done
        .reports
        .iter()
        .flat_map(|r| r.outcomes.iter())
        .filter(|o| o.worker_exit_status == "fail")
        .count();
    assert!(failed >= 1);
    assert!(done.ae_review_failed);
    assert_eq!(phases, vec!["dispatch", "paused_on_ae_fail"]);
}

#[test]
fn a_failed_worker_pauses_the_loop() {
    let mut disk =
        Disk { features: vec![(feat("F-121", "F-121", &[], false), None)], events: vec![] };
    let (done, phases) = run_loop(&mut disk, false, crashes);
    assert!(!done.ae_review_failed);
    assert_eq!(done.reports.len(), 1);
    assert_eq!(phases, vec!["dispatch", "paused_on_fail"]);
}

#[test]
fn any_failure_of_a_worker_pauses_the_loop() {
    for status in ["fail", "error", "timeout", "panic", "cancelled", "pass"] {
        let mut state = LoopState::new(NameSet::new(), NameSet::new());
        let seen = || Observation {
            events: vec![],
            features: vec![feat("F-1", "F-1-x", &[], false)],
            reviews: vec![None],
        };
        state.step(LoopEvent::Begin { cancelled: false });
        state.step(LoopEvent::Observed(seen()));
        let outcome = outcome("F-1", "unknown", status);
        state.step(LoopEvent::Dispatched(collect_report(0, 0, vec![TaskResult::Finished(outcome)])));
        let paused = matches!(state.step(LoopEvent::Settled(seen())), LoopAction::Stop { .. });
        assert_eq!(paused, status != "cancelled" && status != "pass", "{status}");
    }
}

#[test]
fn a_rejected_review_stops_before_anything_runs() {
    let mut disk = Disk {
        features: vec![(feat("F-122", "F-122-x", &[], false), Some(AeVerdict::Fail))],
        events: vec![],
    };
    let (done, phases) = run_loop(&mut disk, false, never_runs);
    assert!(done.ae_review_failed);
    assert!(done.reports.is_empty());
    assert_eq!(phases, vec!["paused_on_ae_fail"]);
}

#[test]
fn a_passed_review_is_not_dispatched_again() {
    let mut disk = Disk {
        features: vec![(feat("F-123", "F-123-x", &[], false), Some(AeVerdict::Pass))],
        events: vec![],
    };
    let (done, phases) = run_loop(&mut disk, false, never_runs);
    assert!(done.reports.is_empty());
    assert_eq!(phases, vec!["dispatch", "done"]);
}

#[test]
fn the_scan_finds_what_the_watcher_dropped() {
    // More events than the channel holds, none of them delivered.
    let features: Vec<(DiscoveredFeature, Option<AeVerdict>)> = (0..300u32)
        .map(|i| {
            let id = format!("F-{i:03}");
            (feat(&id, &id, &[], false), Some(AeVerdict::Pass))
        })
        .collect();
    let mut disk = Disk { features, events: vec![] };
    let (done, _) = run_loop(&mut disk, false, never_runs);
    assert!(!done.ae_review_failed);
    assert!(done.reports.is_empty());
}

#[test]
fn the_watcher_outruns_the_scan() {
    let mut state = LoopState::new(NameSet::new(), NameSet::new());
    state.step(LoopEvent::Begin { cancelled: false });
    let event = |verdict: AeVerdict| VerdictEvent {
        feature_id: "F-1-x".to_string(),
        verdict,
        review_path: "/ws/F-1-x/review.md".to_string(),
    };
    // The later of two events counts, and the scan asks only about the rest.
    let action = state.step(LoopEvent::Observed(Observation {
        events: vec![event(AeVerdict::Fail), event(AeVerdict::Pass)],
        features: vec![feat("F-1", "F-1-x", &[], false), feat("F-2", "F-2-x", &[], false)],
        reviews: vec![Some(AeVerdict::Fail), None],
    }));
    match action {
        LoopAction::Dispatch { features, .. } => {
            assert!(features[0].is_done());
            assert!(!features[1].is_done());
        }
        other => panic!("not dispatched: {other:?}"),
    }
    assert_eq!(state.cycle, 1);
}

#[test]
fn a_later_verdict_heals_a_missing_review() {
    let mut state = LoopState::new(NameSet::new(), NameSet::new());
    let observation = |review: Option<AeVerdict>| Observation {
        events: vec![],
        features: vec![feat("F-1", "F-1-x", &[], false)],
        reviews: vec![review],
    };
    state.step(LoopEvent::Begin { cancelled: false });
    state.step(LoopEvent::Observed(observation(None)));
    let report = collect_report(0, 0, vec![TaskResult::Finished(outcome("F-1", "missing", "pass"))]);
    state.step(LoopEvent::Dispatched(report));
    state.step(LoopEvent::Settled(observation(Some(AeVerdict::Pass))));
    assert!(!state.finish().review_missing);
}

#[test]
fn status_lists_each_feature_by_id() {
    let status = write_status(
        3,
        "dispatch",
        &vec![feat("F-2", "F-2-x", &[], true), feat("F-1", "F-1-x", &[], false)],
    );
    assert_eq!(status.phase, "dispatch");
    assert_eq!(status.cycle, 3);
    assert_eq!(
        status.features.entries,
        vec![
            ("F-1".to_string(), "unknown".to_string()),
            ("F-2".to_string(), "done".to_string()),
        ]
    );
}

#[test]
fn reports_are_joined() {
    let none = aggregate_reports(vec![]);
    assert_eq!(none.started_at_ms, 0);
    assert_eq!(none.elapsed_ms, 0);
    assert_eq!(none.dispatched_count, 0);
    let report = |started_at_ms: u64, elapsed_ms: u128, ids: &[&str]| DispatchReport {
        started_at_ms,
        elapsed_ms,
        dispatched_count: ids.len(),
        outcomes: ids.iter().map(|id| outcome(id, "pass", "pass")).collect(),
    };
    let all = aggregate_reports(vec![
        report(50, 3, &["F-1", "F-2"]),
        report(40, 4, &[]),
        report(60, 5, &["F-3"]),
    ]);
    assert_eq!(all.started_at_ms, 40);
    assert_eq!(all.elapsed_ms, 12);
    assert_eq!(all.dispatched_count, 3);
    let ids: Vec<&str> = all.outcomes.iter().map(|o| o.feature_id.as_str()).collect();
    assert_eq!(ids, vec!["F-1", "F-2", "F-3"]);
}

#[test]
fn name_sets_hold_each_name_once() {
    let mut set = names(&["a", "b", "a"]);
    assert!(set.contains("a"));
    set.remove("a");
    assert!(!set.contains("a"));
    set.remove("zzz");
    assert!(!set.is_empty());
    set.remove("b");
    assert!(set.is_empty());
}
