//! How a run ends: the exit code that its outcome comes to.

use crate::artifact::{status_word, WorkerVerdict};
use crate::cli::{
    EXIT_AE_REVIEW_REJECTED, EXIT_CANCELLED, EXIT_DEPS_STUCK, EXIT_DISPATCH_HAD_FAILURE,
    EXIT_GENERIC_ERROR, EXIT_REVIEW_MISSING, EXIT_WORKSPACE_NOT_INITIALIZED,
};
use crate::discovery::{DiscoveredFeature, FeatureView};
use crate::dispatch::{
    ready_features, ready_set, DispatchReport, FeatureOutcome, OutcomeView,
};
use crate::names::contains_text;
use crate::order::{lemma_filter_picks, picks};
use crate::text::{same_text, views};
use vstd::prelude::*;

verus! {

broadcast use vstd::string::group_string_axioms;

/// Whether a worker's end counts as a failure. A cancelled worker does not: the
/// cancel itself is signalled.
pub open spec fn is_failure(status: Seq<char>) -> bool {
    status == "fail"@ || status == "error"@ || status == "timeout"@ || status == "panic"@
}

pub open spec fn any_failure(outcomes: Seq<OutcomeView>) -> bool {
    exists|i: int| 0 <= i < outcomes.len() && is_failure((#[trigger] outcomes[i]).worker_exit_status)
}

/// Whether some outcome has this verdict.
pub open spec fn any_verdict(outcomes: Seq<OutcomeView>, verdict: Seq<char>) -> bool {
    exists|i: int| 0 <= i < outcomes.len() && (#[trigger] outcomes[i]).verdict == verdict
}

/// The exit code of a run: a rejected review, then a failed worker, then a cancel,
/// then work that is stuck, then a missing review, then success.
pub open spec fn exit_code(
    ae_review_failed: bool,
    cancelled: bool,
    worker_failed: bool,
    deps_stuck: bool,
    review_missing: bool,
) -> int {
    if ae_review_failed {
        EXIT_AE_REVIEW_REJECTED as int
    } else if worker_failed {
        EXIT_DISPATCH_HAD_FAILURE as int
    } else if cancelled {
        EXIT_CANCELLED as int
    } else if deps_stuck {
        EXIT_DEPS_STUCK as int
    } else if review_missing {
        EXIT_REVIEW_MISSING as int
    } else {
        0
    }
}

/// Whether some worker failed.
pub fn has_failure(outcomes: &Vec<FeatureOutcome>) -> (r: bool)
    ensures
        r == any_failure(views(outcomes@)),
{
    let ghost all = views(outcomes@);
    let mut i: usize = 0;
    while i < outcomes.len()
        invariant
            all == views(outcomes@),
            i <= outcomes.len(),
            forall|j: int| 0 <= j < i ==> !is_failure((#[trigger] all[j]).worker_exit_status),
        decreases outcomes.len() - i,
    {
        let s = &outcomes[i].worker_exit_status;
        proof {
            assert(all[i as int] == outcomes@[i as int]@);
        }
        if same_text(s, "fail") || same_text(s, "error") || same_text(s, "timeout") || same_text(
            s,
            "panic",
        ) {
            return true;
        }
        i = i + 1;
    }
    false
}

pub fn exit_code_for_report(report: &DispatchReport) -> (r: i32)
    ensures
        r == (if any_failure(report@.outcomes) {
            EXIT_DISPATCH_HAD_FAILURE as int
        } else {
            0
        }),
{
    if has_failure(&report.outcomes) {
        EXIT_DISPATCH_HAD_FAILURE
    } else {
        0
    }
}

/// The exit code of a run, for `run` and `dispatch` alike.
pub fn decide_exit(
    ae_review_failed: bool,
    cancelled: bool,
    report: &DispatchReport,
    deps_stuck: bool,
    review_missing: bool,
) -> (r: i32)
    ensures
        r == exit_code(
            ae_review_failed,
            cancelled,
            any_failure(report@.outcomes),
            deps_stuck,
            review_missing,
        ),
{
    if ae_review_failed {
        return EXIT_AE_REVIEW_REJECTED;
    }
    let failure: i32 = exit_code_for_report(report);
    if failure != 0 {
        failure
    } else if cancelled {
        EXIT_CANCELLED
    } else if deps_stuck {
        EXIT_DEPS_STUCK
    } else if review_missing {
        EXIT_REVIEW_MISSING
    } else {
        0
    }
}

/// The exit code of a run whose loop ended in an error: a cancel is not hidden by
/// the error that it may have caused.
pub fn loop_error_exit(cancelled: bool) -> (r: i32)
    ensures
        r == (if cancelled {
            EXIT_CANCELLED
        } else {
            EXIT_GENERIC_ERROR
        }),
{
    if cancelled {
        EXIT_CANCELLED
    } else {
        EXIT_GENERIC_ERROR
    }
}

/// A run ends in success only if nothing at all speaks against it: a run that is
/// incomplete, cancelled or failed never does.
pub proof fn law_success_means_complete(
    ae_review_failed: bool,
    cancelled: bool,
    worker_failed: bool,
    deps_stuck: bool,
    review_missing: bool,
)
    ensures
        exit_code(ae_review_failed, cancelled, worker_failed, deps_stuck, review_missing) == 0
            <==> !(ae_review_failed || cancelled || worker_failed || deps_stuck || review_missing),
{
}

/// A cancel never hides a failed worker or a rejected review, and a rejected review
/// is never hidden at all.
pub proof fn law_failures_outrank_cancel(
    ae_review_failed: bool,
    worker_failed: bool,
    deps_stuck: bool,
    review_missing: bool,
)
    ensures
        ae_review_failed || worker_failed ==> exit_code(
            ae_review_failed,
            true,
            worker_failed,
            deps_stuck,
            review_missing,
        ) == exit_code(ae_review_failed, false, worker_failed, deps_stuck, review_missing),
        ae_review_failed ==> exit_code(
            ae_review_failed,
            true,
            worker_failed,
            deps_stuck,
            review_missing,
        ) == EXIT_AE_REVIEW_REJECTED,
{
}

/// What an operator learns from the code: a rejected review before anything else,
/// else a failed worker, else the cancel, else dependencies that cannot be met, else
/// a review that was not delivered. No two of them share a code.
pub proof fn law_exit_code_names_the_gravest_cause(
    ae_review_failed: bool,
    cancelled: bool,
    worker_failed: bool,
    deps_stuck: bool,
    review_missing: bool,
)
    ensures
        ({
            let code = exit_code(
                ae_review_failed,
                cancelled,
                worker_failed,
                deps_stuck,
                review_missing,
            );
            &&& code == 5 <==> ae_review_failed
            &&& code == 4 <==> worker_failed && !ae_review_failed
            &&& code == 130 <==> cancelled && !(ae_review_failed || worker_failed)
            &&& code == 7 <==> deps_stuck && !(ae_review_failed || worker_failed || cancelled)
            &&& code == 8 <==> review_missing && !(ae_review_failed || worker_failed || cancelled
                || deps_stuck)
        }),
{
}

/// A worker's end fails a run if and only if the worker came to a failure, ran out of
/// time, could not be run or was lost; one that passed or was cancelled does not, nor
/// does the word that a review or the want of one is told by.
pub proof fn law_failures_are_told_from_other_ends()
    ensures
        forall|v: WorkerVerdict| #[trigger]
            is_failure(status_word(v)) <==> v == WorkerVerdict::Fail || v
                == WorkerVerdict::Timeout,
        is_failure("error"@),
        is_failure("panic"@),
        !is_failure(Seq::empty()),
        !is_failure("unknown"@),
        !is_failure("missing"@),
{
    reveal_strlit("pass");
    reveal_strlit("fail");
    reveal_strlit("error");
    reveal_strlit("timeout");
    reveal_strlit("panic");
    reveal_strlit("cancelled");
    reveal_strlit("unknown");
    reveal_strlit("missing");
    assert("pass"@[0] != "fail"@[0]);
    assert("pass"@.len() == 4 && "fail"@.len() == 4 && "error"@.len() == 5);
    assert("timeout"@.len() == 7 && "panic"@.len() == 5 && "cancelled"@.len() == 9);
    assert("unknown"@[0] != "timeout"@[0]);
    assert("missing"@[0] != "timeout"@[0]);
}

/// A report fails a run if and only if one of its outcomes does, wherever that stands.
pub proof fn law_one_failure_is_enough(a: Seq<OutcomeView>, o: OutcomeView, b: Seq<OutcomeView>)
    ensures
        any_failure(a.push(o) + b) <==> is_failure(o.worker_exit_status) || any_failure(a + b),
        forall|v: Seq<char>| #[trigger]
            any_verdict(a.push(o) + b, v) <==> o.verdict == v || any_verdict(a + b, v),
        !any_failure(Seq::empty()),
{
    let short = a + b;
    let long = a.push(o) + b;
    let n = a.len() as int;
    assert(long[n] == o);
    assert forall|i: int| 0 <= i < short.len() implies long[if i < n {
        i
    } else {
        i + 1
    }] == #[trigger] short[i] by {}
    assert forall|i: int| 0 <= i < long.len() && i != n implies #[trigger] long[i] == short[if i
        < n {
        i
    } else {
        i - 1
    }] by {}
    if any_failure(long) && !is_failure(o.worker_exit_status) {
        let i = choose|i: int|
            0 <= i < long.len() && is_failure((#[trigger] long[i]).worker_exit_status);
        let k = if i < n {
            i
        } else {
            i - 1
        };
        assert(is_failure(short[k].worker_exit_status));
    }
    if any_failure(short) {
        let i = choose|i: int|
            0 <= i < short.len() && is_failure((#[trigger] short[i]).worker_exit_status);
        let k = if i < n {
            i
        } else {
            i + 1
        };
        assert(is_failure(long[k].worker_exit_status));
    }
    assert forall|v: Seq<char>| #[trigger]
        any_verdict(long, v) <==> o.verdict == v || any_verdict(short, v) by {
        if any_verdict(long, v) && o.verdict != v {
            let i = choose|i: int| 0 <= i < long.len() && (#[trigger] long[i]).verdict == v;
            let k = if i < n {
                i
            } else {
                i - 1
            };
            assert(short[k].verdict == v);
        }
        if any_verdict(short, v) {
            let i = choose|i: int| 0 <= i < short.len() && (#[trigger] short[i]).verdict == v;
            let k = if i < n {
                i
            } else {
                i + 1
            };
            assert(long[k].verdict == v);
        }
    }
}

/// Whether some outcome of a report has this verdict.
pub fn has_verdict(report: &DispatchReport, verdict: &str) -> (r: bool)
    ensures
        r == any_verdict(report@.outcomes, verdict@),
{
    let ghost all = report@.outcomes;
    let mut i: usize = 0;
    while i < report.outcomes.len()
        invariant
            all == views(report.outcomes@),
            i <= report.outcomes.len(),
            forall|j: int| 0 <= j < i ==> (#[trigger] all[j]).verdict != verdict@,
        decreases report.outcomes.len() - i,
    {
        proof {
            assert(all[i as int] == report.outcomes@[i as int]@);
        }
        if same_text(&report.outcomes[i].verdict, verdict) {
            return true;
        }
        i = i + 1;
    }
    false
}

/// The exit code of a dispatch that came to these outcomes.
pub open spec fn dispatch_code(
    outcomes: Seq<OutcomeView>,
    cancelled: bool,
    deps_stuck: bool,
) -> int {
    exit_code(
        any_verdict(outcomes, "fail"@),
        cancelled,
        any_failure(outcomes),
        deps_stuck,
        any_verdict(outcomes, "missing"@),
    )
}

/// The exit code of a single dispatch, whose reviews are those that its report
/// records.
pub fn dispatch_exit(report: &DispatchReport, cancelled: bool, deps_stuck: bool) -> (r: i32)
    ensures
        r == dispatch_code(report@.outcomes, cancelled, deps_stuck),
        r == exit_code(
            any_verdict(report@.outcomes, "fail"@),
            cancelled,
            any_failure(report@.outcomes),
            deps_stuck,
            any_verdict(report@.outcomes, "missing"@),
        ),
{
    decide_exit(
        has_verdict(report, "fail"),
        cancelled,
        report,
        deps_stuck,
        has_verdict(report, "missing"),
    )
}

/// The features that an operator asked for, and the ids that none has.
#[derive(Debug)]
pub struct Selection {
    pub selected: Vec<DiscoveredFeature>,
    pub missing: Vec<String>,
}

pub open spec fn selected_features(all: Seq<FeatureView>, ids: Seq<Seq<char>>) -> Seq<FeatureView> {
    all.filter(|f: FeatureView| ids.contains(f.id))
}

pub open spec fn has_id(all: Seq<FeatureView>, id: Seq<char>) -> bool {
    exists|i: int| 0 <= i < all.len() && (#[trigger] all[i]).id == id
}

pub open spec fn missing_ids(all: Seq<FeatureView>, ids: Seq<Seq<char>>) -> Seq<Seq<char>> {
    ids.filter(|id: Seq<char>| !has_id(all, id))
}

fn holds_id(all: &Vec<DiscoveredFeature>, id: &str) -> (r: bool)
    ensures
        r == has_id(views(all@), id@),
{
    let ghost graph = views(all@);
    let mut i: usize = 0;
    while i < all.len()
        invariant
            graph == views(all@),
            i <= all.len(),
            forall|j: int| 0 <= j < i ==> (#[trigger] graph[j]).id != id@,
        decreases all.len() - i,
    {
        proof {
            assert(graph[i as int] == all@[i as int]@);
        }
        if same_text(&all[i].id, id) {
            return true;
        }
        i = i + 1;
    }
    false
}

/// Picks the features that an operator asked for.
pub fn select_features(all: Vec<DiscoveredFeature>, ids: &Vec<String>) -> (r: Selection)
    ensures
        views(r.selected@) == selected_features(views(all@), views(ids@)),
        views(r.missing@) == missing_ids(views(all@), views(ids@)),
{
    let ghost graph = views(all@);
    let ghost wanted = views(ids@);
    let ghost keep = |f: FeatureView| wanted.contains(f.id);
    let ghost lost = |id: Seq<char>| !has_id(graph, id);
    let mut missing: Vec<String> = Vec::new();
    let mut k: usize = 0;
    proof {
        reveal(Seq::filter);
        assert(views(missing@) =~= wanted.take(0).filter(lost));
    }
    while k < ids.len()
        invariant
            graph == views(all@),
            wanted == views(ids@),
            lost == |id: Seq<char>| !has_id(graph, id),
            k <= ids.len(),
            views(missing@) == wanted.take(k as int).filter(lost),
        decreases ids.len() - k,
    {
        let ghost before = views(missing@);
        proof {
            assert(wanted.take(k + 1) =~= wanted.take(k as int).push(ids@[k as int]@));
            wanted.take(k as int).lemma_filter_push(ids@[k as int]@, lost);
        }
        if !holds_id(&all, &ids[k]) {
            missing.push(ids[k].clone());
            proof {
                assert(views(missing@) =~= before.push(ids@[k as int]@));
            }
        }
        k = k + 1;
    }
    let mut selected: Vec<DiscoveredFeature> = Vec::new();
    let mut i: usize = 0;
    proof {
        assert(wanted.take(k as int) =~= wanted);
        assert(views(selected@) =~= graph.take(0).filter(keep));
    }
    while i < all.len()
        invariant
            graph == views(all@),
            wanted == views(ids@),
            keep == |f: FeatureView| wanted.contains(f.id),
            i <= all.len(),
            views(selected@) == graph.take(i as int).filter(keep),
        decreases all.len() - i,
    {
        let f = &all[i];
        let ghost before = views(selected@);
        proof {
            assert(graph.take(i + 1) =~= graph.take(i as int).push(f@));
            graph.take(i as int).lemma_filter_push(f@, keep);
        }
        if contains_text(ids, &f.id) {
            selected.push(f.clone());
            proof {
                assert(views(selected@) =~= before.push(f@));
            }
        }
        i = i + 1;
    }
    proof {
        assert(graph.take(i as int) =~= graph);
    }
    Selection { selected, missing }
}

/// A feature of the graph is selected if and only if its id was asked for, whatever
/// else is known of it, and the selection has the order of the graph.
pub proof fn law_selection_is_what_was_asked_for(all: Seq<FeatureView>, ids: Seq<Seq<char>>)
    ensures
        forall|i: int|
            0 <= i < all.len() ==> (selected_features(all, ids).contains(#[trigger] all[i])
                <==> ids.contains(all[i].id)),
        forall|k: int|
            0 <= k < selected_features(all, ids).len() ==> all.contains(
                #[trigger] selected_features(all, ids)[k],
            ) && ids.contains(selected_features(all, ids)[k].id),
        exists|at: Seq<int>| #[trigger]
            picks(all, at, selected_features(all, ids)) && forall|i: int|
                0 <= i < all.len() ==> (#[trigger] at.contains(i) <==> ids.contains(all[i].id)),
{
    let keep = |f: FeatureView| ids.contains(f.id);
    let out = selected_features(all, ids);
    let at = lemma_filter_picks(all, keep);
    assert(picks(all, at, out));
    assert forall|i: int| 0 <= i < all.len() implies (out.contains(#[trigger] all[i])
        <==> ids.contains(all[i].id)) by {
        assert(at.contains(i) <==> keep(all[i]));
        if ids.contains(all[i].id) {
            let k = at.index_of(i);
            assert(at[k] == i && out[k] == all[i]);
        }
        if out.contains(all[i]) {
            let k = out.index_of(all[i]);
            assert(at.contains(at[k]));
        }
    }
    assert forall|k: int| 0 <= k < out.len() implies all.contains(#[trigger] out[k])
        && ids.contains(out[k].id) by {
        assert(at.contains(at[k]));
    }
}

/// An id that was asked for is reported as missing if and only if no feature of the
/// graph has it, in the order in which the ids were given: each id leads to a
/// feature or to a complaint, and never to both.
pub proof fn law_unknown_ids_are_reported(all: Seq<FeatureView>, ids: Seq<Seq<char>>)
    ensures
        forall|i: int|
            0 <= i < ids.len() ==> (missing_ids(all, ids).contains(#[trigger] ids[i]) <==> forall|
                j: int,
            |
                0 <= j < all.len() ==> (#[trigger] all[j]).id != ids[i]),
        forall|i: int|
            0 <= i < ids.len() ==> (missing_ids(all, ids).contains(#[trigger] ids[i]) <==> forall|
                k: int,
            |
                0 <= k < selected_features(all, ids).len() ==> (#[trigger] selected_features(
                    all,
                    ids,
                )[k]).id != ids[i]),
        exists|at: Seq<int>| #[trigger]
            picks(ids, at, missing_ids(all, ids)) && forall|i: int|
                0 <= i < ids.len() ==> (#[trigger] at.contains(i) <==> forall|j: int|
                    0 <= j < all.len() ==> (#[trigger] all[j]).id != ids[i]),
{
    let lost = |id: Seq<char>| !has_id(all, id);
    let out = missing_ids(all, ids);
    let selected = selected_features(all, ids);
    let at = lemma_filter_picks(ids, lost);
    assert(picks(ids, at, out));
    law_selection_is_what_was_asked_for(all, ids);
    assert forall|i: int| 0 <= i < ids.len() implies (out.contains(#[trigger] ids[i]) <==> !has_id(
        all,
        ids[i],
    )) by {
        assert(at.contains(i) <==> lost(ids[i]));
        if lost(ids[i]) {
            let k = at.index_of(i);
            assert(at[k] == i && out[k] == ids[i]);
        }
        if out.contains(ids[i]) {
            let k = out.index_of(ids[i]);
            assert(at.contains(at[k]));
        }
    }
    assert forall|i: int| 0 <= i < ids.len() implies (out.contains(#[trigger] ids[i]) <==> forall|
        k: int,
    |
        0 <= k < selected.len() ==> (#[trigger] selected[k]).id != ids[i]) by {
        if has_id(all, ids[i]) {
            let j = choose|j: int| 0 <= j < all.len() && (#[trigger] all[j]).id == ids[i];
            assert(ids.contains(all[j].id));
            let k = selected.index_of(all[j]);
            assert(selected[k].id == ids[i]);
        } else {
            assert forall|k: int| 0 <= k < selected.len() implies (#[trigger] selected[k]).id
                != ids[i] by {
                let j = all.index_of(selected[k]);
                assert(all[j] == selected[k]);
            }
        }
    }
}

pub open spec fn any_incomplete(all: Seq<FeatureView>) -> bool {
    exists|i: int| 0 <= i < all.len() && !(#[trigger] all[i]).done()
}

/// Whether some feature is not done.
pub fn has_incomplete(all: &Vec<DiscoveredFeature>) -> (r: bool)
    ensures
        r == any_incomplete(views(all@)),
{
    let ghost graph = views(all@);
    let mut i: usize = 0;
    while i < all.len()
        invariant
            graph == views(all@),
            i <= all.len(),
            forall|j: int| 0 <= j < i ==> (#[trigger] graph[j]).done(),
        decreases all.len() - i,
    {
        proof {
            assert(graph[i as int] == all@[i as int]@);
        }
        if !all[i].is_done() {
            return true;
        }
        i = i + 1;
    }
    false
}

/// Whether a selection is stuck: something in it is not done, but nothing of the
/// graph that it is scheduled in is ready.
pub fn is_deps_stuck(selection_incomplete: bool, view: &Vec<DiscoveredFeature>) -> (r: bool)
    ensures
        r == (selection_incomplete && ready_features(views(view@)).len() == 0),
{
    selection_incomplete && ready_set(view).len() == 0
}

/// Why a dispatch does not begin, as an exit code: the workspace has no features
/// directory, or nothing that was asked for is there.
pub fn dispatch_refusal(initialized: bool, selected: usize) -> (r: Option<i32>)
    ensures
        r == (if !initialized {
            Some(EXIT_WORKSPACE_NOT_INITIALIZED)
        } else if selected == 0 {
            Some(EXIT_GENERIC_ERROR)
        } else {
            None
        }),
{
    if !initialized {
        Some(EXIT_WORKSPACE_NOT_INITIALIZED)
    } else if selected == 0 {
        Some(EXIT_GENERIC_ERROR)
    } else {
        None
    }
}

/// Something is incomplete exactly where some feature does not say that it is done.
pub proof fn law_incomplete_means_something_is_not_done(all: Seq<FeatureView>)
    ensures
        any_incomplete(all) <==> exists|i: int|
            0 <= i < all.len() && (#[trigger] all[i]).work_state != Some("done"@),
{
    if any_incomplete(all) {
        let i = choose|i: int| 0 <= i < all.len() && !(#[trigger] all[i]).done();
        assert(all[i].work_state != Some("done"@));
    }
    if exists|i: int| 0 <= i < all.len() && (#[trigger] all[i]).work_state != Some("done"@) {
        let i = choose|i: int|
            0 <= i < all.len() && (#[trigger] all[i]).work_state != Some("done"@);
        assert(!all[i].done());
    }
}

/// A dispatch exits as its outcomes and its circumstances say: as rejected where some
/// review failed, else as failed where some worker did, else as cancelled, else as stuck,
/// else as incomplete where some review is missing, and as a success where there is none
/// of these.
pub proof fn law_dispatch_exits_as_its_outcomes_say(
    outcomes: Seq<OutcomeView>,
    cancelled: bool,
    deps_stuck: bool,
)
    ensures
        ({
            let code = dispatch_code(outcomes, cancelled, deps_stuck);
            let rejected = exists|i: int|
                0 <= i < outcomes.len() && (#[trigger] outcomes[i]).verdict == "fail"@;
            let failed = exists|i: int|
                0 <= i < outcomes.len() && is_failure((#[trigger] outcomes[i]).worker_exit_status);
            let missing = exists|i: int|
                0 <= i < outcomes.len() && (#[trigger] outcomes[i]).verdict == "missing"@;
            &&& rejected ==> code == 5
            &&& !rejected && failed ==> code == 4
            &&& !rejected && !failed && cancelled ==> code == 130
            &&& !rejected && !failed && !cancelled && deps_stuck ==> code == 7
            &&& !rejected && !failed && !cancelled && !deps_stuck && missing ==> code == 8
            &&& !rejected && !failed && !cancelled && !deps_stuck && !missing ==> code == 0
        }),
{
}

} // verus!
