use loom_rt::artifact::{Artifact, WorkerVerdict};
use loom_rt::dispatch::git::GitReply;
use loom_rt::dispatch::propagate::{
    propagate_worktree_commits, propagation_args, ref_name, PropagationStage,
};
use loom_rt::dispatch::worktree::{
    add_args, head_args, is_within, link_feature_dir_into_worktree, may_link,
    maybe_create_worktree, parse_worktree_dir_name, process_is_alive, prune_stale_worktrees_with,
    reclaimable, remove_args, worktree_dir_name, worktree_owner, worktree_root, Removal, SetupEvent,
    SetupStage, Worktree, WorktreeEntry,
};
use loom_rt::dispatch::{feature_outcome, rescue_status, FeatureOutcome};
use loom_rt::moment::TimeSpan;

fn texts(items: &[&str]) -> Vec<String> {
    items.iter().map(|s| s.to_string()).collect()
}

fn said(text: &str) -> GitReply {
    GitReply::Exited { success: true, stdout: Some(text.to_string()) }
}

fn refused() -> GitReply {
    GitReply::Exited { success: false, stdout: Some(String::new()) }
}

fn worktree() -> Worktree {
    Worktree {
        path: "/ws/.loom/worktrees/F-006-7".to_string(),
        workspace: "/ws".to_string(),
        initial_sha: "aaa".to_string(),
    }
}

fn propagated(status: &str, replies: Vec<GitReply>) -> Option<String> {
    propagated_for("F-006", status, replies)
}

/// Runs the keeping of commits to its end over these answers.
fn propagated_for(id: &str, status: &str, replies: Vec<GitReply>) -> Option<String> {
    let wt = worktree();
    let name = ref_name(id, status);
    let mut stage = PropagationStage::FinalHead;
    for reply in replies {
        assert!(propagation_args(&stage, &wt, &name).is_some());
        stage = propagate_worktree_commits(stage, &reply, &wt.initial_sha, &name, status);
    }
    match stage {
        PropagationStage::Done(kept) => kept,
        other => panic!("not done: {other:?}"),
    }
}

#[test]
fn parse_worktree_dir_name_round_trips_real_dispatch_names() {
    assert_eq!(parse_worktree_dir_name("F-006-12345"), Some(("F-006".to_string(), 12345)));
    assert_eq!(
        parse_worktree_dir_name("F-006-some-slug-12345"),
        Some(("F-006-some-slug".to_string(), 12345))
    );
    assert_eq!(
        parse_worktree_dir_name("F-006-a-b-c-99"),
        Some(("F-006-a-b-c".to_string(), 99))
    );
    assert_eq!(parse_worktree_dir_name("garbage"), None);
    assert_eq!(parse_worktree_dir_name("not-a-feature-1"), None);
    assert_eq!(parse_worktree_dir_name("F-006-0"), None);
    assert_eq!(parse_worktree_dir_name("F-006-abc"), None);
}

#[test]
fn worktree_names_read_back() {
    for (id, pid) in [("F-006", 1u32), ("F-006-slug", 4_294_967_295u32)] {
        let name = worktree_dir_name(id, pid);
        assert_eq!(parse_worktree_dir_name(&name), Some((id.to_string(), pid)));
    }
    assert_eq!(worktree_dir_name("F-006", 12), "F-006-12");
    assert_eq!(worktree_root("/ws"), "/ws/.loom/worktrees");
    assert_eq!(parse_worktree_dir_name("F-006-4294967296"), None);
}

#[test]
fn prunes_dead_preserves_live_and_ignores_unparseable() {
    let root = "/ws/.loom/worktrees";
    let live: u32 = 4711;
    let entry = |name: &str| {
        let path = format!("{root}/{name}");
        WorktreeEntry {
            owner_alive: worktree_owner(&path, true) == Some(live),
            resolved: Some(path.clone()),
            path,
            is_dir: true,
        }
    };
    let live_name = format!("F-902-{live}");
    let entries = vec![entry("F-901-1"), entry("F-904-2"), entry(&live_name), entry("garbage")];
    assert_eq!(
        prune_stale_worktrees_with(&entries, live, root),
        texts(&["/ws/.loom/worktrees/F-901-1", "/ws/.loom/worktrees/F-904-2"])
    );
    // A living process keeps its worktree also where it is another one.
    assert_eq!(prune_stale_worktrees_with(&entries, 7, root).len(), 2);
}

#[test]
fn a_worktree_that_leaves_its_root_stays() {
    let root = "/ws/.loom/worktrees";
    let dead = "/ws/.loom/worktrees/F-001-99999";
    assert_eq!(worktree_owner(dead, true), Some(99999));
    assert_eq!(worktree_owner(dead, false), None);
    assert_eq!(worktree_owner("/ws/.loom/worktrees/garbage", true), None);
    let resolved = Some(dead.to_string());
    assert!(reclaimable(99999, 7, false, &resolved, root));
    assert!(!reclaimable(99999, 7, true, &resolved, root));
    assert!(!reclaimable(7, 7, false, &resolved, root));
    assert!(!reclaimable(99999, 7, false, &None, root));
    assert!(!reclaimable(99999, 7, false, &Some("/etc".to_string()), root));
}

#[test]
fn a_process_is_dead_only_if_no_such_process_exists() {
    let no_such_process: i32 = 3;
    assert!(process_is_alive(0, None, no_such_process));
    assert!(process_is_alive(0, Some(3), no_such_process));
    assert!(!process_is_alive(-1, Some(3), no_such_process));
    assert!(process_is_alive(-1, Some(1), no_such_process));
    assert!(process_is_alive(-1, None, no_such_process));
}

#[test]
fn a_path_lies_within_its_root_by_components() {
    assert!(is_within("/a/b", "/a/b"));
    assert!(is_within("/a/b/c", "/a/b"));
    assert!(!is_within("/a/bc", "/a/b"));
    assert!(!is_within("/a", "/a/b"));
    assert!(is_within("/etc", "/"));
}

#[test]
fn git_arguments_of_worktrees() {
    assert_eq!(add_args("/p"), texts(&["worktree", "add", "--detach", "/p", "HEAD"]));
    assert_eq!(remove_args("/p"), texts(&["worktree", "remove", "--force", "/p"]));
    assert_eq!(head_args("/p"), texts(&["-C", "/p", "rev-parse", "HEAD"]));
}

#[test]
fn link_feature_dir_into_worktree_idempotent_and_guards() {
    let feature = "/ws/.ae/features/active/F-100-demo";
    // The link stands under the directory's own name and points to its real place.
    let plan = link_feature_dir_into_worktree("/wt", feature, Some("/real/F-100".to_string()))
        .unwrap();
    assert_eq!(plan.directory, "/wt/.ae/features/active");
    assert_eq!(plan.link, "/wt/.ae/features/active/F-100-demo");
    assert_eq!(plan.target, "/real/F-100");
    // A stale link is replaced.
    assert!(may_link(Removal::Removed));
    assert!(may_link(Removal::NotFound));
    // A missing target is not linked to.
    assert!(link_feature_dir_into_worktree("/wt2", "/ws/F-404-gone", None).is_none());
    // A directory in the way stays.
    assert!(!may_link(Removal::Refused));
    // A path without a name is not linked.
    assert!(link_feature_dir_into_worktree("/wt", "/", Some("/".to_string())).is_none());
}

#[test]
fn maybe_create_worktree_symlinks_feature_dir_feature_scoped() {
    let path = "/ws/.loom/worktrees/F-999-7";
    let mut stage = SetupStage::MakingRoot;
    for event in [
        SetupEvent::RootMade(true),
        SetupEvent::Git(said("")),
        SetupEvent::Git(said("abc123\n")),
        SetupEvent::Linked,
    ] {
        stage = maybe_create_worktree(stage, event, path, "/ws");
    }
    match stage {
        SetupStage::Ready(wt) => {
            assert_eq!(wt.path, path);
            assert_eq!(wt.workspace, "/ws");
            assert_eq!(wt.initial_sha, "abc123");
        }
        other => panic!("no worktree: {other:?}"),
    }
    let plan = link_feature_dir_into_worktree(
        path,
        "/ws/.ae/features/active/F-999-test-slugged-dir",
        Some("/ws/.ae/features/active/F-999-test-slugged-dir".to_string()),
    )
    .unwrap();
    assert_eq!(
        plan.link,
        "/ws/.loom/worktrees/F-999-7/.ae/features/active/F-999-test-slugged-dir"
    );
}

#[test]
fn a_worktree_that_cannot_be_made_is_absent() {
    let made = maybe_create_worktree(SetupStage::MakingRoot, SetupEvent::RootMade(false), "/p", "/ws");
    assert!(matches!(made, SetupStage::Absent));
    let added = maybe_create_worktree(SetupStage::Adding, SetupEvent::Git(refused()), "/p", "/ws");
    assert!(matches!(added, SetupStage::Absent));
    let read = maybe_create_worktree(
        SetupStage::ReadingHead,
        SetupEvent::Git(GitReply::SpawnFailed),
        "/p",
        "/ws",
    );
    assert!(matches!(read, SetupStage::RollingBack));
    let rolled = maybe_create_worktree(
        SetupStage::RollingBack,
        SetupEvent::Git(GitReply::SpawnFailed),
        "/p",
        "/ws",
    );
    assert!(matches!(rolled, SetupStage::Absent));
}

/// The outcome of a run of feature `id` in a worktree, where `git` answers like this.
fn run_in_worktree(
    id: &str,
    result: Result<Artifact, String>,
    replies: Vec<GitReply>,
) -> FeatureOutcome {
    let status = rescue_status(&result);
    let kept = propagated_for(id, status, replies);
    feature_outcome(id.to_string(), format!("{id}-w0"), result, None, kept, 1, true)
}

fn artifact(verdict: WorkerVerdict) -> Artifact {
    Artifact {
        verdict,
        stdout_path: "/wt/stub.out".to_string(),
        reasoning_trace: None,
        duration: TimeSpan::from_secs(0),
        worker_identity: "w".to_string(),
        exit_code: 1,
        drain_truncated: false,
    }
}

/// What `git` answers for a worktree with a new commit.
fn new_commit() -> Vec<GitReply> {
    vec![said("bbb\n"), said("bbb"), said("false\n"), refused(), said("")]
}

#[test]
fn run_one_feature_writes_namespaced_rescue_ref_for_nonpass() {
    let cases = [
        (Ok(artifact(WorkerVerdict::Timeout)), "timeout"),
        (Ok(artifact(WorkerVerdict::Cancelled)), "cancelled"),
        (Ok(artifact(WorkerVerdict::Fail)), "fail"),
        (Err("died after its commit".to_string()), "error"),
    ];
    for (result, status) in cases {
        let outcome = run_in_worktree("F-018", result, new_commit());
        let expected = format!("refs/heads/loom-rescue/F-018-{status}");
        assert_eq!(outcome.rescue_ref.as_deref(), Some(expected.as_str()));
        assert_ne!(outcome.rescue_ref.as_deref(), Some("refs/heads/loom-features/F-018"));
        assert_eq!(outcome.worker_exit_status, status);
    }
}

#[test]
fn run_one_feature_pass_uses_loom_features_and_zero_commit_writes_nothing() {
    let outcome = run_in_worktree("F-018", Ok(artifact(WorkerVerdict::Pass)), new_commit());
    assert_eq!(outcome.rescue_ref.as_deref(), Some("refs/heads/loom-features/F-018"));
    // A worktree that is still at its first commit has nothing to keep.
    for verdict in [WorkerVerdict::Timeout, WorkerVerdict::Pass] {
        let idle = run_in_worktree("F-020", Ok(artifact(verdict)), vec![said("aaa\n")]);
        assert_eq!(idle.rescue_ref, None);
    }
}

#[test]
fn propagate_shallow_writes_rescue_but_skips_merge_candidate() {
    let kept =
        propagated("fail", vec![said("bbb\n"), said("bbb"), said("true\n"), refused(), said("")]);
    assert_eq!(kept, Some("refs/heads/loom-rescue/F-006-fail".to_string()));
    assert_eq!(propagated("pass", vec![said("bbb\n"), said("bbb"), said("true\n")]), None);
}

#[test]
fn commits_that_cannot_be_kept_leave_no_ref() {
    assert_eq!(propagated("fail", vec![GitReply::SpawnFailed]), None);
    assert_eq!(propagated("fail", vec![said("bbb"), refused()]), None);
    assert_eq!(
        propagated("fail", vec![said("bbb"), said("bbb"), said("false"), said("old"), refused()]),
        None
    );
}

#[test]
fn git_is_asked_for_each_stage() {
    let wt = worktree();
    let name = "refs/heads/loom-rescue/F-006-fail";
    let sha = "bbb".to_string();
    let args = |stage: PropagationStage| propagation_args(&stage, &wt, name);
    assert_eq!(
        args(PropagationStage::FinalHead),
        Some(texts(&["-C", "/ws/.loom/worktrees/F-006-7", "rev-parse", "HEAD"]))
    );
    assert_eq!(
        args(PropagationStage::Verify { sha: sha.clone() }),
        Some(texts(&[
            "-C",
            "/ws/.loom/worktrees/F-006-7",
            "rev-parse",
            "--verify",
            "--quiet",
            "bbb^{commit}",
        ]))
    );
    assert_eq!(
        args(PropagationStage::Shallow { sha: sha.clone() }),
        Some(texts(&["-C", "/ws", "rev-parse", "--is-shallow-repository"]))
    );
    assert_eq!(
        args(PropagationStage::Prior { sha: sha.clone() }),
        Some(texts(&["-C", "/ws", "rev-parse", "--verify", "--quiet", name]))
    );
    assert_eq!(
        args(PropagationStage::Write { sha }),
        Some(texts(&["-C", "/ws", "update-ref", "--create-reflog", name, "bbb"]))
    );
    assert_eq!(args(PropagationStage::Done(None)), None);
}
