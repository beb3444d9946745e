use loom_rt::dispatch::git::GitReply;
use loom_rt::dispatch::propagate::ref_name;
use loom_rt::dispatch::rescue::{
    delete_rescue_ref_cas, gc_targets, list_args, parse_rescue_ref_name, prune_rescue_refs,
    reflog_args, rescue_candidates, rescue_ref_write_time, select_stale_refs, DatedRef,
    ReflogError, GC_REFS_WATERMARK,
};
use loom_rt::moment::{Moment, TimeSpan};

const DAY: i64 = 86_400;
/// 2020-01-01T00:00:00Z.
const LONG_AGO: i64 = 1_577_836_800;
/// 2024-01-15T12:34:56Z.
const NOW: i64 = 1_705_322_096;

fn at(secs: i64) -> Moment {
    Moment { secs, nanos: 0 }
}

fn ninety_days() -> TimeSpan {
    TimeSpan::from_secs(90 * 86_400)
}

fn texts(items: &[&str]) -> Vec<String> {
    items.iter().map(|s| s.to_string()).collect()
}

/// Dates each rescue ref of a listing with what its reflog says; one that has no
/// time is left out.
fn dated(listing: &str, seconds: &[Option<i64>]) -> Vec<DatedRef> {
    let mut out: Vec<DatedRef> = vec![];
    for (candidate, second) in rescue_candidates(listing).into_iter().zip(seconds) {
        let reply = match second {
            Some(s) => GitReply::Exited {
                success: true,
                stdout: Some(format!("{}@{{{}}}\n", candidate.name, s)),
            },
            None => GitReply::Exited { success: true, stdout: Some(String::new()) },
        };
        if let Some(s) = rescue_ref_write_time(&reply).unwrap() {
            out.push(DatedRef {
                name: candidate.name,
                oid: candidate.oid,
                written: Moment::from_unix_secs(s),
            });
        }
    }
    out
}

#[test]
fn parse_rescue_ref_name_accepts_valid_rejects_out_of_scope() {
    assert_eq!(
        parse_rescue_ref_name("refs/heads/loom-rescue/F-018-timeout"),
        Some(("F-018".to_string(), "timeout".to_string()))
    );
    assert_eq!(
        parse_rescue_ref_name("refs/heads/loom-rescue/F-021-rescue-ref-retention-cleanup-fail"),
        Some(("F-021-rescue-ref-retention-cleanup".to_string(), "fail".to_string()))
    );
    assert_eq!(parse_rescue_ref_name("refs/heads/loom-features/F-018"), None);
    assert_eq!(parse_rescue_ref_name("refs/heads/loom-rescue/F-018-bogus"), None);
    assert_eq!(parse_rescue_ref_name("refs/heads/loom-rescue/INVALID-timeout"), None);
    assert_eq!(parse_rescue_ref_name("refs/heads/loom-rescue/F-018"), None);
}

#[test]
fn rescue_ref_names_read_back() {
    for status in ["fail", "timeout", "cancelled", "error"] {
        let name = ref_name("F-018-slug", status);
        assert_eq!(
            parse_rescue_ref_name(&name),
            Some(("F-018-slug".to_string(), status.to_string()))
        );
    }
    assert_eq!(ref_name("F-018", "pass"), "refs/heads/loom-features/F-018");
    assert_eq!(parse_rescue_ref_name(&ref_name("F-018", "pass")), None);
}

#[test]
fn select_stale_refs_age_boundary() {
    let now = at(1_000_000_000);
    let refs = vec![
        ("old".to_string(), at(1_000_000_000 - 100 * DAY)),
        ("fresh".to_string(), at(1_000_000_000 - 10 * DAY)),
        ("boundary".to_string(), at(1_000_000_000 - 90 * DAY)),
    ];
    assert_eq!(select_stale_refs(&refs, ninety_days(), now), vec!["old".to_string()]);
}

#[test]
fn refs_from_the_future_are_not_stale() {
    let refs = vec![("ahead".to_string(), at(NOW + 1))];
    assert!(select_stale_refs(&refs, TimeSpan::from_secs(0), at(NOW)).is_empty());
    let refs = vec![("just".to_string(), Moment { secs: NOW - 1, nanos: 999_999_999 })];
    assert_eq!(select_stale_refs(&refs, TimeSpan::from_secs(0), at(NOW)), texts(&["just"]));
}

#[test]
fn prune_rescue_refs_deletes_stale_preserves_fresh_and_undateable() {
    let listing = "refs/heads/loom-rescue/F-001-timeout\0aaa\n\
                   refs/heads/loom-rescue/F-002-fail\0bbb\n\
                   refs/heads/loom-rescue/F-003-error\0ccc\n\
                   refs/heads/loom-rescue/garbage\0ddd\n";
    let candidates = rescue_candidates(listing);
    let names: Vec<&str> = candidates.iter().map(|c| c.name.as_str()).collect();
    assert_eq!(
        names,
        vec![
            "refs/heads/loom-rescue/F-001-timeout",
            "refs/heads/loom-rescue/F-002-fail",
            "refs/heads/loom-rescue/F-003-error",
        ]
    );
    let refs = dated(listing, &[Some(LONG_AGO), Some(NOW), None]);
    let chosen = gc_targets(&refs, ninety_days(), at(NOW));
    assert_eq!(chosen.len(), 1);
    assert_eq!(chosen[0].name, "refs/heads/loom-rescue/F-001-timeout");
    assert_eq!(chosen[0].oid, "aaa");
    let summary = prune_rescue_refs(&refs, ninety_days(), at(NOW), false, &vec![true]);
    assert_eq!(summary.deleted, 1);
    assert_eq!(summary.skipped, 1);
    assert!(!summary.watermark_triggered);
    assert_eq!(summary.names, texts(&["refs/heads/loom-rescue/F-001-timeout"]));
}

/// A repository of one ref, which deletes it as `git update-ref` does.
struct OneRef {
    name: String,
    oid: Option<String>,
}

impl OneRef {
    /// Whether `git` with these arguments succeeds.
    fn git(&mut self, args: &[String]) -> bool {
        let asked: Vec<&str> = args.iter().map(|a| a.as_str()).collect();
        match asked[..] {
            ["-C", _, "update-ref", "-d", name, expected] => {
                if self.name == name && self.oid.as_deref() == Some(expected) {
                    self.oid = None;
                    true
                } else {
                    false
                }
            }
            _ => panic!("not a deletion: {args:?}"),
        }
    }
}

#[test]
fn delete_rescue_ref_cas_fails_on_oid_mismatch_preserves_ref() {
    let name = "refs/heads/loom-rescue/F-004-fail";
    assert_eq!(
        delete_rescue_ref_cas("/ws", name, "aaa"),
        texts(&["-C", "/ws", "update-ref", "-d", name, "aaa"])
    );
    // The ref was moved from `aaa` to `bbb` after it was listed.
    let mut repository = OneRef { name: name.to_string(), oid: Some("bbb".to_string()) };
    assert!(!repository.git(&delete_rescue_ref_cas("/ws", name, "aaa")));
    assert!(repository.oid.is_some());
    assert!(repository.git(&delete_rescue_ref_cas("/ws", name, "bbb")));
    assert!(repository.oid.is_none());
}

#[test]
fn prune_rescue_refs_dry_run_lists_without_deleting() {
    let refs = dated("refs/heads/loom-rescue/F-001-timeout\0aaa\n", &[Some(LONG_AGO)]);
    let summary = prune_rescue_refs(&refs, ninety_days(), at(NOW), true, &vec![]);
    assert_eq!(summary.deleted, 0);
    assert!(summary.would_delete >= 1);
    assert_eq!(summary.errors, 0);
}

#[test]
fn prune_rescue_refs_counts_delete_errors_without_aborting() {
    let listing = "refs/heads/loom-rescue/F-001-timeout\0aaa\n\
                   refs/heads/loom-rescue/F-002-fail\0bbb\n";
    let refs = dated(listing, &[Some(LONG_AGO), Some(LONG_AGO)]);
    let mut deleted: Vec<String> = vec![];
    let mut deletions: Vec<bool> = vec![];
    for target in gc_targets(&refs, ninety_days(), at(NOW)) {
        if target.name.ends_with("F-001-timeout") {
            deletions.push(false);
        } else {
            deleted.push(target.name);
            deletions.push(true);
        }
    }
    let summary = prune_rescue_refs(&refs, ninety_days(), at(NOW), false, &deletions);
    assert_eq!(summary.errors, 1);
    assert_eq!(summary.deleted, 1);
    assert_eq!(deleted, vec!["refs/heads/loom-rescue/F-002-fail".to_string()]);
}

#[test]
fn prune_rescue_refs_watermark_trips_above_threshold() {
    let listing: String = (0..=GC_REFS_WATERMARK)
        .map(|i| format!("refs/heads/loom-rescue/F-{i:03}-timeout\0aaa\n"))
        .collect();
    let seconds: Vec<Option<i64>> = (0..=GC_REFS_WATERMARK).map(|_| Some(LONG_AGO)).collect();
    let refs = dated(&listing, &seconds);
    let summary = prune_rescue_refs(&refs, ninety_days(), at(NOW), true, &vec![]);
    assert!(summary.would_delete > GC_REFS_WATERMARK);
    assert!(summary.watermark_triggered);
}

#[test]
fn watermark_is_not_reached_at_the_threshold() {
    let listing: String = (0..GC_REFS_WATERMARK)
        .map(|i| format!("refs/heads/loom-rescue/F-{i:03}-timeout\0aaa\n"))
        .collect();
    let seconds: Vec<Option<i64>> = (0..GC_REFS_WATERMARK).map(|_| Some(LONG_AGO)).collect();
    let refs = dated(&listing, &seconds);
    let summary = prune_rescue_refs(&refs, ninety_days(), at(NOW), true, &vec![]);
    assert_eq!(summary.would_delete, GC_REFS_WATERMARK);
    assert!(!summary.watermark_triggered);
    assert_eq!(
        summary.deleted + summary.errors + summary.would_delete + summary.skipped,
        refs.len() as u64
    );
}

#[test]
fn reflog_gives_the_second_of_the_last_write() {
    let said = |s: &str| {
        rescue_ref_write_time(&GitReply::Exited { success: true, stdout: Some(s.to_string()) })
    };
    assert_eq!(said("refs/heads/loom-rescue/F-001-fail@{1577836800}\n"), Ok(Some(1_577_836_800)));
    assert_eq!(said("  x@{1}@{+7}  \nrest"), Ok(Some(7)));
    assert_eq!(said(""), Ok(None));
    assert_eq!(said("no braces"), Ok(None));
    assert_eq!(said("x@{}"), Ok(None));
    assert_eq!(said("x@{12a}"), Ok(None));
    assert_eq!(said("x@{18446744073709551616}"), Ok(None));
    assert_eq!(
        rescue_ref_write_time(&GitReply::Exited { success: false, stdout: None }),
        Ok(None)
    );
    assert_eq!(
        rescue_ref_write_time(&GitReply::Exited { success: true, stdout: None }),
        Err(ReflogError::NotUtf8)
    );
    assert_eq!(rescue_ref_write_time(&GitReply::SpawnFailed), Err(ReflogError::SpawnFailed));
}

#[test]
fn candidates_are_trimmed_and_need_an_object() {
    // U+2003 is white space beyond ASCII.
    let listing = "\u{2003} refs/heads/loom-rescue/F-001-fail\0abc \n\
                   refs/heads/loom-rescue/F-002-fail\n\
                   refs/heads/loom-features/F-003\0def\n";
    let found = rescue_candidates(listing);
    assert_eq!(found.len(), 1);
    assert_eq!(found[0].name, "refs/heads/loom-rescue/F-001-fail");
    assert_eq!(found[0].oid, "abc");
}

#[test]
fn git_is_asked_for_the_rescue_refs_and_their_age() {
    assert_eq!(
        list_args("/ws"),
        texts(&[
            "-C",
            "/ws",
            "for-each-ref",
            "--format=%(refname)%00%(objectname)",
            "refs/heads/loom-rescue/",
        ])
    );
    assert_eq!(
        reflog_args("/ws", "r"),
        texts(&["-C", "/ws", "reflog", "show", "-1", "--format=%gD", "--date=unix", "r"])
    );
}
