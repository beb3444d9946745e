use loom_rt::discovery::{
    ae_invocations, read_active_features, read_done_features, sort_by_name, split_frontmatter,
    DiscoveredFeature, FeatureEntry, FeatureFrontmatter, FrontmatterError,
};
use loom_rt::dispatch::{
    done_credited_view, permits, plan_dispatch, ready_set, ArchivedFeature,
};
use loom_rt::feature_id::{is_valid, validate_feature_id};
use loom_rt::verdict::{parse_review_once, AeVerdict, ReviewRead};

fn feat(id: &str, deps: &[&str], done: bool) -> DiscoveredFeature {
    DiscoveredFeature {
        id: id.to_string(),
        feature_dir: format!(".ae/features/active/{id}"),
        depends_on: deps.iter().map(|s| s.to_string()).collect(),
        work_state: if done { Some("done".to_string()) } else { None },
    }
}

fn texts(items: &[&str]) -> Vec<String> {
    items.iter().map(|s| s.to_string()).collect()
}

fn entry(dir: &str, id: &str, deps: &[&str], work: Option<&str>) -> FeatureEntry {
    FeatureEntry {
        feature_dir: dir.to_string(),
        frontmatter: Some(FeatureFrontmatter {
            id: id.to_string(),
            depends_on: texts(deps),
            work: work.map(|w| w.to_string()),
        }),
    }
}

/// The entry of a directory whose `index.md` holds `content`.
fn entry_of(dir: &str, content: &str) -> FeatureEntry {
    let yaml = split_frontmatter(content).unwrap();
    let value: serde_yaml::Value = serde_yaml::from_str(&yaml).unwrap();
    let deps: Vec<String> = match value["depends_on"].as_sequence() {
        Some(items) => items.iter().map(|d| d.as_str().unwrap().to_string()).collect(),
        None => vec![],
    };
    FeatureEntry {
        feature_dir: dir.to_string(),
        frontmatter: Some(FeatureFrontmatter {
            id: value["id"].as_str().unwrap().to_string(),
            depends_on: deps,
            work: value["pipeline"]["work"].as_str().map(|w| w.to_string()),
        }),
    }
}

/// What is left of an archive directory after it was read: nothing, where its id is
/// refused.
fn archived(dir: &str, id: &str, review: Option<&str>) -> Vec<ArchivedFeature> {
    let path = format!("/ws/.ae/features/done/{dir}");
    let read = match review {
        Some(word) => ReviewRead::Frontmatter(Some(word.to_string())),
        None => ReviewRead::Failed,
    };
    let verdict = parse_review_once(&read);
    read_done_features(vec![entry(&path, id, &[], None)])
        .into_iter()
        .map(|feature| ArchivedFeature { feature, review: verdict })
        .collect()
}

fn is_ready(view: &Vec<DiscoveredFeature>, id: &str) -> bool {
    ready_set(view).iter().any(|f| f.id == id)
}

#[test]
fn done_credited_view_credits_archived_dep() {
    let active = vec![feat("F-002", &["F-001"], false)];
    let view = done_credited_view(active, Some(archived("F-001-slug", "F-001", None)));
    assert!(is_ready(&view, "F-002"));
}

#[test]
fn done_credited_view_no_done_leaves_dep_blocked_and_is_inert() {
    let active = vec![feat("F-002", &["F-001"], false)];
    let view = done_credited_view(active, Some(vec![]));
    assert_eq!(view.len(), 1);
    assert!(!is_ready(&view, "F-002"));
    let unreadable = done_credited_view(vec![feat("F-002", &["F-001"], false)], None);
    assert_eq!(unreadable.len(), 1);
    assert!(!is_ready(&unreadable, "F-002"));
}

#[test]
fn done_credited_view_skips_invalid_done_id() {
    let active = vec![feat("F-002", &["F-001"], false)];
    let view = done_credited_view(active, Some(archived("F-001-slug", "../etc", None)));
    assert!(!is_ready(&view, "F-002"));
}

#[test]
fn done_credited_view_suppresses_dup_active_incomplete() {
    let active = vec![feat("F-001", &[], false), feat("F-002", &["F-001"], false)];
    let view = done_credited_view(active, Some(archived("F-001-other", "F-001", None)));
    assert!(!is_ready(&view, "F-002"));
    assert!(is_ready(&view, "F-001"));
}

#[test]
fn done_credited_view_fail_guard_blocks_credit() {
    let active = vec![feat("F-002", &["F-001"], false)];
    let view = done_credited_view(active, Some(archived("F-001-slug", "F-001", Some("fail"))));
    assert!(!is_ready(&view, "F-002"));
}

#[test]
fn done_credited_view_fail_guard_is_per_id() {
    let active = vec![feat("F-002", &["F-001"], false)];
    let mut archive = archived("F-001-v1", "F-001", Some("fail"));
    archive.extend(archived("F-001-v2", "F-001", None));
    let view = done_credited_view(active, Some(archive));
    assert!(!is_ready(&view, "F-002"));
}

#[test]
fn done_credited_view_pass_review_credits() {
    let active = vec![feat("F-002", &["F-001"], false)];
    let view = done_credited_view(active, Some(archived("F-001-slug", "F-001", Some("pass"))));
    assert!(is_ready(&view, "F-002"));
}

#[test]
fn deps_stuck_false_when_archived_dep_credits() {
    let deps_stuck = |active: Vec<DiscoveredFeature>, archive: Vec<ArchivedFeature>| {
        let any_incomplete = active.iter().any(|f| !f.is_done());
        let view = done_credited_view(active, Some(archive));
        any_incomplete && ready_set(&view).is_empty()
    };
    assert!(!deps_stuck(
        vec![feat("F-002", &["F-001"], false)],
        archived("F-001-slug", "F-001", None)
    ));
    assert!(deps_stuck(vec![feat("F-002", &["F-001"], false)], vec![]));
}

#[test]
fn archived_features_are_not_dispatched() {
    let view = done_credited_view(vec![], Some(archived("F-001-slug", "F-001", Some("pass"))));
    assert_eq!(view.len(), 1);
    assert!(view[0].is_done());
    assert!(ready_set(&view).is_empty());
}

#[test]
fn ready_set_filters_done_and_pending_deps() {
    let f = vec![
        feat("F-001", &[], true),
        feat("F-002", &["F-001"], false),
        feat("F-003", &["F-002"], false),
        feat("F-004", &[], false),
    ];
    let r = ready_set(&f);
    let ids: Vec<&str> = r.iter().map(|d| d.id.as_str()).collect();
    assert!(ids.contains(&"F-002"));
    assert!(ids.contains(&"F-004"));
    assert!(!ids.contains(&"F-001"));
    assert!(!ids.contains(&"F-003"));
}

#[test]
fn ready_features_of_a_cycle_are_none() {
    let f = vec![feat("F-001", &["F-002"], false), feat("F-002", &["F-001"], false)];
    assert!(ready_set(&f).is_empty());
    assert!(ready_set(&vec![]).is_empty());
}

#[test]
fn plan_hands_features_to_workers_in_turn() {
    let f = vec![
        feat("F-001", &[], false),
        feat("F-002", &["F-009"], false),
        feat("F-003", &[], false),
        feat("F-004", &[], false),
    ];
    let plan = plan_dispatch(&f, 2);
    let slots: Vec<(&str, usize, &str)> = plan
        .iter()
        .map(|s| (s.feature.id.as_str(), s.worker, s.worker_identity.as_str()))
        .collect();
    assert_eq!(
        slots,
        vec![("F-001", 0, "F-001-w0"), ("F-003", 1, "F-003-w1"), ("F-004", 0, "F-004-w2")]
    );
    assert!(plan_dispatch(&f, 0).is_empty());
}

#[test]
fn at_least_one_worker_runs() {
    assert_eq!(permits(0), 1);
    assert_eq!(permits(1), 1);
    assert_eq!(permits(8), 8);
}

#[test]
fn validate_feature_id_accepts_valid() {
    for id in ["F-006", "F-006-some-slug", "F-006-a-b-c", "F-001-stub", "F-100"] {
        assert!(validate_feature_id(id).is_ok(), "should accept {id:?}");
    }
}

#[test]
fn validate_feature_id_rejects_invalid() {
    for id in [
        "../etc",
        "F-1/etc",
        "F-1\0",
        "F-12",
        "F-1234",
        "F-006-",
        "F-006-Bad_Slug",
        "F-006-é",
        "F-0067",
        "",
    ] {
        assert!(validate_feature_id(id).is_err(), "should reject {id:?}");
    }
    match validate_feature_id("F-12") {
        Err(e) => assert_eq!(e.id, "F-12"),
        Ok(()) => panic!("F-12 was accepted"),
    }
}

#[test]
fn read_active_features_parses_frontmatter() {
    let features = read_active_features(vec![entry_of(
        "/ws/.ae/features/active/F-100-demo",
        "---\nid: F-100\ndepends_on:\n  - F-099\npipeline:\n  work: done\n---\n\nbody\n",
    )]);
    assert_eq!(features.len(), 1);
    assert_eq!(features[0].id, "F-100");
    assert_eq!(features[0].depends_on, vec!["F-099"]);
    assert!(features[0].is_done());
}

#[test]
fn features_are_read_in_order() {
    let read = read_active_features(vec![
        entry("/ws/.ae/features/active/F-002-b", "F-002", &["F-001"], Some("doing")),
        FeatureEntry { feature_dir: "/ws/x".to_string(), frontmatter: None },
        entry("/ws/.ae/features/active/F-001-a", "F-001", &[], None),
    ]);
    assert_eq!(read.len(), 2);
    assert_eq!(read[0].id, "F-002");
    assert_eq!(read[0].feature_dir, "/ws/.ae/features/active/F-002-b");
    assert_eq!(read[0].depends_on, texts(&["F-001"]));
    assert_eq!(read[0].work_state, Some("doing".to_string()));
    assert_eq!(read[1].id, "F-001");
    assert!(!read[0].is_done());
}

#[test]
fn read_active_features_handles_empty_workspace() {
    assert!(read_active_features(vec![]).is_empty());
}

#[test]
fn read_active_features_missing_depends_on_is_empty() {
    let features = read_active_features(vec![entry_of(
        "/ws/.ae/features/active/F-200-demo",
        "---\nid: F-200\npipeline:\n  work: in_progress\n---\n",
    )]);
    assert_eq!(features.len(), 1);
    assert!(features[0].depends_on.is_empty());
    assert!(!features[0].is_done());
}

#[test]
fn features_with_refused_ids_are_left_out() {
    let bad = ["../etc", "F-", "f-001", "F-001/x", ""];
    for id in bad {
        assert!(!is_valid(id));
        assert!(read_active_features(vec![entry("/a/b", id, &[], None)]).is_empty());
        assert!(read_done_features(vec![entry("/a/b", id, &[], None)]).is_empty());
    }
}

#[test]
fn done_features_are_done_whatever_their_work_says() {
    let read = read_done_features(vec![entry("/d/F-001", "F-001", &[], Some("doing"))]);
    assert!(read[0].is_done());
}

#[test]
fn frontmatter_stands_between_two_fences() {
    assert_eq!(
        split_frontmatter("---\nid: F-001\n---\nbody\n"),
        Ok("id: F-001".to_string())
    );
    assert_eq!(split_frontmatter("id: F-001\n---\n"), Err(FrontmatterError::MissingOpening));
    assert_eq!(split_frontmatter("---\nid: F-001\n"), Err(FrontmatterError::MissingClosing));
    assert_eq!(split_frontmatter(""), Err(FrontmatterError::MissingOpening));
}

#[test]
fn directories_are_sorted_by_name() {
    let sorted = sort_by_name(texts(&["/a/F-010", "/b/F-002", "/c/F-001-x", "/d/F-001"]));
    assert_eq!(sorted, texts(&["/d/F-001", "/c/F-001-x", "/b/F-002", "/a/F-010"]));
    // Equal names keep their order, and a path without a name comes first.
    let ties = sort_by_name(texts(&["/z/F-001", "/a/F-001", "/", "/m/F-001"]));
    assert_eq!(ties, texts(&["/", "/z/F-001", "/a/F-001", "/m/F-001"]));
}

#[test]
fn discovery_asks_for_the_backlog_then_the_analysis() {
    assert_eq!(
        ae_invocations("ship it", true),
        vec![
            texts(&["-p", "/ae:backlog ship it", "--permission-mode", "bypassPermissions"]),
            texts(&["-p", "/ae:analyze", "--permission-mode", "bypassPermissions"]),
        ]
    );
    assert!(ae_invocations("ship it", false).is_empty());
}

#[test]
fn reviews_give_a_verdict_only_when_they_hold_one() {
    let word = |w: &str| ReviewRead::Frontmatter(Some(w.to_string()));
    assert_eq!(parse_review_once(&word("pass")), Some(AeVerdict::Pass));
    assert_eq!(parse_review_once(&word("fail")), Some(AeVerdict::Fail));
    assert_eq!(parse_review_once(&word("pending")), None);
    assert_eq!(parse_review_once(&ReviewRead::Frontmatter(None)), None);
    assert_eq!(parse_review_once(&ReviewRead::Failed), None);
    assert_eq!(parse_review_once(&ReviewRead::Unfinished), None);
}
