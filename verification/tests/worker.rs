use loom_rt::artifact::WorkerVerdict;
use loom_rt::atomic_write::{
    atomic_write, create_dir_all_synced, fsync_parent_dir, is_cross_device, StepResult, WriteStage,
};
use loom_rt::config::{load_config, ConfigRead, LoomConfig, DEFAULT_WORKER_TIMEOUT_MINUTES};
use loom_rt::moment::TimeSpan;
use loom_rt::paths::{file_name, join, parent, tmp_path};
use loom_rt::spawn_env::{apply_scrubbed_path, probe_paths};
use loom_rt::worker_claude_code::{
    default_worker, drain_with_timeout, kill_process_group, must_kill, parent_pid_value,
    worker_artifact, worker_stdout_path, ClaudeCodeAdapter, DrainEnd, EnvChange, RunOutcome,
    PARENT_PID_VARIABLE,
};

fn texts(items: &[&str]) -> Vec<String> {
    items.iter().map(|s| s.to_string()).collect()
}

/// The changes to a worker's variables: `None` drops all of them.
fn changes(adapter: &ClaudeCodeAdapter, scrubbed: &str) -> Vec<Option<(String, String)>> {
    adapter
        .environment(scrubbed, 12)
        .into_iter()
        .map(|change| match change {
            EnvChange::Clear => None,
            EnvChange::Assign { name, value } => Some((name, value)),
        })
        .collect()
}

fn pair(name: &str, value: &str) -> Option<(String, String)> {
    Some((name.to_string(), value.to_string()))
}

/// What reading a configuration file with this content gives.
fn read_config(body: &str) -> ConfigRead {
    let value: serde_yaml::Value = match serde_yaml::from_str(body) {
        Ok(v) => v,
        Err(_) => return ConfigRead::Malformed,
    };
    match value.get("worker_timeout_minutes") {
        None => ConfigRead::Minutes(None),
        Some(minutes) => match minutes.as_u64() {
            Some(m) => ConfigRead::Minutes(Some(m)),
            None => ConfigRead::Malformed,
        },
    }
}

#[test]
fn explicit_value_parsed() {
    let cfg = load_config(read_config("worker_timeout_minutes: 45\n"));
    assert_eq!(cfg.worker_timeout_minutes, 45);
    assert_eq!(cfg.worker_timeout(), TimeSpan::from_secs(60 * 45));
}

#[test]
fn absent_key_defaults_to_90() {
    let cfg =
        load_config(read_config("output:\n  plans: .ae/plans\ntest:\n  command: cargo test\n"));
    assert_eq!(cfg.worker_timeout_minutes, 90);
}

#[test]
fn malformed_yaml_defaults_to_90() {
    let read = read_config("{{{ not yaml at all\n");
    assert!(matches!(read, ConfigRead::Malformed));
    assert_eq!(load_config(read).worker_timeout_minutes, 90);
}

#[test]
fn missing_file_defaults_to_90() {
    assert_eq!(load_config(ConfigRead::Missing).worker_timeout_minutes, 90);
    assert_eq!(load_config(ConfigRead::Unreadable).worker_timeout_minutes, 90);
}

#[test]
fn zero_value_substituted_with_default() {
    assert_eq!(load_config(read_config("worker_timeout_minutes: 0\n")).worker_timeout_minutes, 90);
}

#[test]
fn worker_timeout_is_overflow_safe() {
    let cfg = LoomConfig { worker_timeout_minutes: u64::MAX };
    assert_eq!(cfg.worker_timeout(), TimeSpan::from_secs(60 * 90));
}

#[test]
fn absent_key_deserializes_to_90_via_struct_default() {
    let read = read_config("output:\n  plans: x\n");
    assert!(matches!(read, ConfigRead::Minutes(None)));
    assert_eq!(load_config(read).worker_timeout_minutes, 90);
    assert_eq!(LoomConfig::default().worker_timeout_minutes, 90);
    assert_eq!(DEFAULT_WORKER_TIMEOUT_MINUTES, 90);
}

#[test]
fn wrong_type_value_defaults_to_90() {
    let cfg = load_config(read_config("worker_timeout_minutes: not_a_number\n"));
    assert_eq!(cfg.worker_timeout_minutes, 90);
}

#[test]
fn per_segment_canonical_scrub_cases() {
    // The directory of the program goes; one that holds another file of that name
    // stays.
    let path = "/usr/bin:/opt/loom/bin:/opt/other:/usr/local/bin";
    let found = vec![
        None,
        Some("/opt/loom/bin/loom".to_string()),
        Some("/opt/other/loom".to_string()),
        None,
    ];
    let filtered = apply_scrubbed_path(path, &Some("/opt/loom/bin/loom".to_string()), &found);
    assert_eq!(filtered, "/usr/bin:/opt/other:/usr/local/bin");
    // An empty path stays empty.
    let empty = apply_scrubbed_path("", &Some("/opt/loom/bin/loom".to_string()), &vec![None]);
    assert_eq!(empty, "");
    // Where the program has no canonical path, nothing is taken out.
    let open = apply_scrubbed_path("/usr/bin:/usr/local/bin", &None, &vec![]);
    assert_eq!(open, "/usr/bin:/usr/local/bin");
}

#[test]
fn each_segment_is_probed_for_loom() {
    assert_eq!(probe_paths("/usr/bin:/a/"), texts(&["/usr/bin/loom", "/a/loom"]));
    assert_eq!(probe_paths(""), texts(&["loom"]));
    assert_eq!(probe_paths("/a::/b"), texts(&["/a/loom", "loom", "/b/loom"]));
}

#[test]
fn a_link_to_the_program_is_scrubbed_too() {
    let own = Some("/opt/loom/bin/loom".to_string());
    let found = vec![own.clone(), None];
    assert_eq!(apply_scrubbed_path("/home/u/links:/usr/bin", &own, &found), "/usr/bin");
    // All other segments stay, empty ones among them.
    assert_eq!(apply_scrubbed_path(":/x:", &own, &vec![None, None, None]), ":/x:");
    assert_eq!(apply_scrubbed_path("a:", &own, &vec![None, None]), "a:");
    assert_eq!(apply_scrubbed_path(":/x::/y", &own, &vec![None, own.clone(), None, None]), "::/y");
}

/// The stages of a write whose steps end like this.
fn stages(results: &[StepResult]) -> Vec<WriteStage> {
    let mut out = vec![WriteStage::WriteAside];
    let mut stage = WriteStage::WriteAside;
    for result in results {
        stage = atomic_write(stage, *result);
        out.push(stage);
    }
    out
}

#[test]
fn a_file_is_renamed_into_its_place() {
    assert_eq!(
        stages(&[StepResult::Done, StepResult::Done, StepResult::Done]),
        vec![
            WriteStage::WriteAside,
            WriteStage::Rename,
            WriteStage::SyncParent,
            WriteStage::Written,
        ]
    );
    assert_eq!(tmp_path("/d/a.json"), "/d/a.json.tmp");
}

#[test]
fn a_write_across_file_systems_copies() {
    assert_eq!(
        stages(&[
            StepResult::Done,
            StepResult::CrossDevice,
            StepResult::Done,
            StepResult::Failed,
            StepResult::Done,
            StepResult::Done,
        ]),
        vec![
            WriteStage::WriteAside,
            WriteStage::Rename,
            WriteStage::Copy,
            WriteStage::RemoveCopied,
            WriteStage::SyncTarget,
            WriteStage::SyncParent,
            WriteStage::Written,
        ]
    );
    assert!(is_cross_device(Some(18), 18));
    assert!(!is_cross_device(Some(2), 18));
    assert!(!is_cross_device(None, 18));
}

#[test]
fn a_write_that_fails_leaves_nothing_aside() {
    for failing in [
        vec![StepResult::Failed, StepResult::Done],
        vec![StepResult::Done, StepResult::Failed, StepResult::Done],
        vec![StepResult::Done, StepResult::CrossDevice, StepResult::Failed, StepResult::Done],
    ] {
        let passed = stages(&failing);
        assert!(passed.contains(&WriteStage::RemoveAside));
        assert_eq!(passed.last(), Some(&WriteStage::Failed));
    }
    assert_eq!(
        stages(&[StepResult::Done, StepResult::Done, StepResult::Failed]).last(),
        Some(&WriteStage::Failed)
    );
}

#[test]
fn the_directory_that_names_a_file_is_flushed() {
    assert_eq!(fsync_parent_dir("/d/file.json"), Some("/d".to_string()));
    assert_eq!(fsync_parent_dir("file.json"), None);
    assert_eq!(fsync_parent_dir("/"), None);
}

#[test]
fn missing_directories_are_made_from_the_outermost_on() {
    let dir = fsync_parent_dir("/d/a/b/c/deep.json").unwrap();
    assert_eq!(
        create_dir_all_synced(&dir),
        texts(&["/", "/d", "/d/a", "/d/a/b", "/d/a/b/c"])
    );
    assert_eq!(create_dir_all_synced("x/y"), texts(&["x", "x/y"]));
    assert!(create_dir_all_synced("").is_empty());
}

#[test]
fn paths_are_taken_apart_as_std_does() {
    let paths =
        ["/a/b", "/a/b/", "/a/b/.", "/a/..", "/", "", "a", "./a", "a//b", "//", "/a", "a/./b", "."];
    for p in paths {
        let std_path = std::path::Path::new(p);
        assert_eq!(
            file_name(p),
            std_path.file_name().map(|n| n.to_str().unwrap().to_string()),
            "name of {p:?}"
        );
        assert_eq!(
            parent(p),
            std_path.parent().map(|d| d.to_str().unwrap().to_string()),
            "parent of {p:?}"
        );
        for rest in ["x", "/x", "", "x/y"] {
            assert_eq!(join(p, rest), std_path.join(rest).to_str().unwrap(), "{p:?} {rest:?}");
        }
    }
    assert_eq!(file_name(&join("/ws", "F-001")), Some("F-001".to_string()));
}

#[test]
fn a_worker_gives_an_artifact() {
    let artifact = |outcome: RunOutcome, success: bool, code: Option<i32>, stderr: &str| {
        worker_artifact(
            outcome,
            success,
            code,
            "/o".to_string(),
            stderr.to_string(),
            TimeSpan::from_secs(3),
            "F-001-w0".to_string(),
            !stderr.is_empty(),
            !success,
        )
    };
    let passed = artifact(RunOutcome::Exited, true, Some(0), "");
    assert_eq!(passed.verdict, WorkerVerdict::Pass);
    assert_eq!(passed.exit_code, 0);
    assert_eq!(passed.reasoning_trace, None);
    assert_eq!(passed.stdout_path, "/o");
    assert_eq!(passed.duration, TimeSpan::from_secs(3));
    assert!(!passed.drain_truncated);
    let failed = artifact(RunOutcome::Exited, false, Some(2), "oops");
    assert_eq!(failed.verdict, WorkerVerdict::Fail);
    assert_eq!(failed.exit_code, 2);
    assert_eq!(failed.reasoning_trace, Some("oops".to_string()));
    assert!(failed.drain_truncated);
    let late = artifact(RunOutcome::TimedOut, false, None, "");
    assert_eq!(late.verdict, WorkerVerdict::Timeout);
    assert_eq!(late.exit_code, -1);
    assert!(late.drain_truncated);
    assert_eq!(
        artifact(RunOutcome::Cancelled, true, Some(0), "").verdict,
        WorkerVerdict::Cancelled
    );
}

#[test]
fn only_a_running_group_is_killed() {
    assert!(!must_kill(RunOutcome::Exited));
    assert!(must_kill(RunOutcome::TimedOut));
    assert!(must_kill(RunOutcome::Cancelled));
    assert_eq!(kill_process_group(Some(4242)), Some(-4242));
    assert_eq!(kill_process_group(None), None);
}

#[test]
fn an_output_that_was_not_read_counts_as_lost() {
    assert_eq!(drain_with_timeout(DrainEnd::Bytes(vec![1, 2])), (vec![1, 2], false));
    assert_eq!(drain_with_timeout(DrainEnd::IoError), (vec![], true));
    assert_eq!(drain_with_timeout(DrainEnd::TaskLost), (vec![], true));
    assert_eq!(drain_with_timeout(DrainEnd::Elapsed), (vec![], true));
}

#[test]
fn the_default_worker_is_the_agent_or_an_echo() {
    let timeout = TimeSpan::from_secs(60 * 90);
    let found = default_worker("agent", true, timeout, Some("/opt/loom".to_string()));
    assert_eq!(found.command, "agent");
    assert_eq!(found.args[0], "-p");
    assert_eq!(found.args[2..], ["--permission-mode", "bypassPermissions"]);
    assert_eq!(found.timeout, timeout);
    assert_eq!(found.io_drain_timeout, TimeSpan::from_secs(2));
    assert!(found.scrubs_path());
    assert_eq!(
        changes(&found, "/usr/bin"),
        vec![pair("PATH", "/usr/bin"), pair("LOOM_PARENT_PID", "12")]
    );
    let echo = default_worker("agent", false, timeout, None);
    assert_eq!(echo.command, "/bin/echo");
    assert_eq!(echo.args, texts(&["[loom stub] agent not on PATH — skipping work"]));
    assert!(!echo.scrubs_path());
    assert_eq!(changes(&echo, "/usr/bin"), vec![pair("LOOM_PARENT_PID", "12")]);
}

#[test]
fn given_variables_replace_all_others() {
    let mut adapter = ClaudeCodeAdapter::with_scrubbed_path(
        "c".to_string(),
        vec![],
        TimeSpan::from_secs(1),
        "/opt/loom".to_string(),
    );
    assert_eq!(adapter.scrub_loom_binary, Some("/opt/loom".to_string()));
    adapter.env_vars = Some(vec![("A".to_string(), "1".to_string())]);
    assert!(!adapter.scrubs_path());
    assert_eq!(
        changes(&adapter, "/usr/bin"),
        vec![None, pair("A", "1"), pair("LOOM_PARENT_PID", "12")]
    );
    assert_eq!(PARENT_PID_VARIABLE, "LOOM_PARENT_PID");
    assert_eq!(parent_pid_value(12), "12");
}

#[test]
fn the_output_of_a_worker_has_its_place() {
    assert_eq!(
        worker_stdout_path("/wt", "F-001-w0"),
        "/wt/.loom/workers/F-001-w0.stdout"
    );
}
