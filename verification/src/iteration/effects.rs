//! What one step of the loop does to each feature, told apart from all the others.

use super::{
    action_after, after_events, after_scan, aggregated, all_outcomes, earliest, expects, healed,
    law_aggregation_keeps_outcomes, loop_after, marked_all, observed, run_exit_code, tells,
    text_map, total_elapsed, with_outcomes, work_states, LoopAction, LoopEvent, LoopStageView,
    LoopView, Observation, Verdicts,
};
use crate::discovery::FeatureView;
use crate::dispatch::{OutcomeView, ReportView};
use crate::exit::{any_failure, any_incomplete, is_failure};
use crate::paths::path_name;
use crate::state::StatusSnapshot;
use crate::text::views;
use crate::verdict::{AeVerdict, VerdictEvent};
use vstd::prelude::*;

verus! {

/// The last event that tells of `name` is the one at `k`.
pub open spec fn latest_event(events: Seq<VerdictEvent>, k: int, name: Seq<char>) -> bool {
    &&& 0 <= k < events.len()
    &&& events[k].feature_id@ == name
    &&& forall|j: int| k < j < events.len() ==> (#[trigger] events[j]).feature_id@ != name
}

/// The last outcome that tells of `id` is the one at `k`.
pub open spec fn latest_outcome(outcomes: Seq<OutcomeView>, k: int, id: Seq<char>) -> bool {
    &&& 0 <= k < outcomes.len()
    &&& outcomes[k].feature_id == id
    &&& forall|j: int| k < j < outcomes.len() ==> (#[trigger] outcomes[j]).feature_id != id
}

/// The directory of the feature at `i` is called `name`, and its review came to a
/// verdict.
pub open spec fn reviewed_as(
    features: Seq<FeatureView>,
    reviews: Seq<Option<AeVerdict>>,
    i: int,
    name: Seq<char>,
) -> bool {
    &&& 0 <= i < features.len()
    &&& path_name(features[i].feature_dir) == Some(name)
    &&& reviews[i] is Some
}

/// Some feature with this id lies in a directory whose name passed or failed.
pub open spec fn is_judged(features: Seq<FeatureView>, v: Verdicts, id: Seq<char>) -> bool {
    exists|i: int|
        0 <= i < features.len() && (#[trigger] features[i]).id == id && (path_name(
            features[i].feature_dir,
        ) matches Some(name) && (v.pass.contains(name) || v.fail.contains(name)))
}

proof fn lemma_healed(
    missing: Set<Seq<char>>,
    features: Seq<FeatureView>,
    v: Verdicts,
    n: int,
    id: Seq<char>,
)
    requires
        0 <= n <= features.len(),
    ensures
        healed(missing, features, v, n).contains(id) <==> missing.contains(id) && !is_judged(
            features.take(n),
            v,
            id,
        ),
    decreases n,
{
    let now = features.take(n);
    if n > 0 {
        lemma_healed(missing, features, v, n - 1, id);
        let before = features.take(n - 1);
        assert(now[n - 1] == features[n - 1]);
        assert forall|i: int| 0 <= i < n - 1 implies #[trigger] now[i] == before[i] by {}
        if is_judged(before, v, id) {
            let i = choose|i: int|
                0 <= i < before.len() && (#[trigger] before[i]).id == id && (path_name(
                    before[i].feature_dir,
                ) matches Some(name) && (v.pass.contains(name) || v.fail.contains(name)));
            assert(now[i] == before[i]);
        }
        if is_judged(now, v, id) {
            let i = choose|i: int|
                0 <= i < now.len() && (#[trigger] now[i]).id == id && (path_name(
                    now[i].feature_dir,
                ) matches Some(name) && (v.pass.contains(name) || v.fail.contains(name)));
            if i < n - 1 {
                assert(before[i] == now[i]);
            }
        }
    }
}

proof fn lemma_with_outcomes(
    missing: Set<Seq<char>>,
    outcomes: Seq<OutcomeView>,
    n: int,
    id: Seq<char>,
)
    requires
        0 <= n <= outcomes.len(),
    ensures
        forall|k: int| #[trigger]
            latest_outcome(outcomes.take(n), k, id) ==> (with_outcomes(
                missing,
                outcomes,
                n,
            ).contains(id) <==> outcomes[k].verdict == "missing"@),
        (forall|k: int| 0 <= k < n ==> (#[trigger] outcomes[k]).feature_id != id) ==> (
        with_outcomes(missing, outcomes, n).contains(id) <==> missing.contains(id)),
    decreases n,
{
    if n > 0 {
        lemma_with_outcomes(missing, outcomes, n - 1, id);
        let now = outcomes.take(n);
        let before = outcomes.take(n - 1);
        assert forall|k: int| #[trigger] latest_outcome(now, k, id) implies (with_outcomes(
            missing,
            outcomes,
            n,
        ).contains(id) <==> outcomes[k].verdict == "missing"@) by {
            if k < n - 1 {
                assert(now[n - 1].feature_id != id);
                assert(before[k] == now[k]);
                assert forall|j: int| k < j < before.len() implies (#[trigger] before[j]).feature_id
                    != id by {
                    assert(before[j] == now[j]);
                }
                assert(latest_outcome(before, k, id));
            }
        }
    }
}

/// Which reviews are missing is settled feature by feature. The beginning of a cycle
/// and the end of a dispatch change nothing. A verdict on a feature strikes out its id
/// and no other. Without one, the last outcome that tells of the feature says whether
/// its review is missing, and where none tells of it nothing changes.
pub proof fn law_missing_reviews_are_told_apart(s: LoopView, event: LoopEvent, id: Seq<char>)
    requires
        expects(s.stage, event),
    ensures
        event is Begin || event is Dispatched ==> loop_after(s, event).missing == s.missing,
        event matches LoopEvent::Observed(o) ==> (loop_after(s, event).missing.contains(id)
            <==> s.missing.contains(id) && !is_judged(
            o.graph(),
            loop_after(s, event).verdicts,
            id,
        )),
        event matches LoopEvent::Settled(o) ==> {
            let outcomes = s.stage->Settling_0.outcomes;
            let after = loop_after(s, event);
            &&& is_judged(o.graph(), after.verdicts, id) ==> !after.missing.contains(id)
            &&& !is_judged(o.graph(), after.verdicts, id) ==> forall|k: int| #[trigger]
                latest_outcome(outcomes, k, id) ==> (after.missing.contains(id)
                    <==> outcomes[k].verdict == "missing"@)
            &&& !is_judged(o.graph(), after.verdicts, id) && (forall|k: int|
                0 <= k < outcomes.len() ==> (#[trigger] outcomes[k]).feature_id != id) ==> (
            after.missing.contains(id) <==> s.missing.contains(id))
        },
{
    let after = loop_after(s, event);
    match event {
        LoopEvent::Observed(o) => {
            let all = o.graph();
            lemma_healed(s.missing, all, after.verdicts, all.len() as int, id);
            assert(all.take(all.len() as int) =~= all);
        },
        LoopEvent::Settled(o) => {
            let all = o.graph();
            let outcomes = s.stage->Settling_0.outcomes;
            let n = outcomes.len() as int;
            lemma_healed(
                with_outcomes(s.missing, outcomes, n),
                all,
                after.verdicts,
                all.len() as int,
                id,
            );
            assert(all.take(all.len() as int) =~= all);
            lemma_with_outcomes(s.missing, outcomes, n, id);
            assert(outcomes.take(n) =~= outcomes);
        },
        _ => {},
    }
}

proof fn lemma_events_by_name(v: Verdicts, events: Seq<VerdictEvent>, name: Seq<char>)
    ensures
        forall|k: int| #[trigger]
            latest_event(events, k, name) ==> (after_events(v, events).pass.contains(name) <==> (
            events[k].verdict == AeVerdict::Pass)) && (after_events(v, events).fail.contains(name)
                <==> (events[k].verdict == AeVerdict::Fail)),
        (forall|k: int| 0 <= k < events.len() ==> (#[trigger] events[k]).feature_id@ != name) ==> (
        after_events(v, events).pass.contains(name) <==> v.pass.contains(name)) && (after_events(
            v,
            events,
        ).fail.contains(name) <==> v.fail.contains(name)),
    decreases events.len(),
{
    if events.len() > 0 {
        let t = events.drop_last();
        let last = events.len() - 1;
        lemma_events_by_name(v, t, name);
        assert forall|k: int| #[trigger] latest_event(events, k, name) implies (after_events(
            v,
            events,
        ).pass.contains(name) <==> (events[k].verdict == AeVerdict::Pass)) && (after_events(
            v,
            events,
        ).fail.contains(name) <==> (events[k].verdict == AeVerdict::Fail)) by {
            if k < last {
                assert(events[last].feature_id@ != name);
                assert(t[k] == events[k]);
                assert forall|j: int| k < j < t.len() implies (#[trigger] t[j]).feature_id@
                    != name by {
                    assert(t[j] == events[j]);
                }
                assert(latest_event(t, k, name));
            }
        }
        if forall|k: int| 0 <= k < events.len() ==> (#[trigger] events[k]).feature_id@ != name {
            assert(events[last].feature_id@ != name);
            assert forall|k: int| 0 <= k < t.len() implies (#[trigger] t[k]).feature_id@ != name by {
                assert(t[k] == events[k]);
            }
        }
    }
}

proof fn lemma_scan_by_name(
    v: Verdicts,
    features: Seq<FeatureView>,
    reviews: Seq<Option<AeVerdict>>,
    n: int,
    name: Seq<char>,
)
    requires
        0 <= n <= features.len() == reviews.len(),
    ensures
        v.pass.contains(name) || v.fail.contains(name) ==> (after_scan(
            v,
            features,
            reviews,
            n,
            false,
        ).pass.contains(name) <==> v.pass.contains(name)) && (after_scan(
            v,
            features,
            reviews,
            n,
            false,
        ).fail.contains(name) <==> v.fail.contains(name)),
        (forall|i: int| 0 <= i < n ==> !#[trigger] reviewed_as(features, reviews, i, name)) ==> (
        after_scan(v, features, reviews, n, false).pass.contains(name) <==> v.pass.contains(name))
            && (after_scan(v, features, reviews, n, false).fail.contains(name)
            <==> v.fail.contains(name)),
        !(v.pass.contains(name) || v.fail.contains(name)) ==> forall|i: int|
            0 <= i < n && #[trigger] reviewed_as(features, reviews, i, name) && (forall|j: int|
                0 <= j < i ==> !#[trigger] reviewed_as(features, reviews, j, name)) ==> (after_scan(
                v,
                features,
                reviews,
                n,
                false,
            ).pass.contains(name) <==> reviews[i] == Some(AeVerdict::Pass)) && (after_scan(
                v,
                features,
                reviews,
                n,
                false,
            ).fail.contains(name) <==> reviews[i] == Some(AeVerdict::Fail)),
    decreases n,
{
    if n > 0 {
        lemma_scan_by_name(v, features, reviews, n - 1, name);
        let before = after_scan(v, features, reviews, n - 1, false);
        let now = after_scan(v, features, reviews, n, false);
        if !reviewed_as(features, reviews, n - 1, name) {
            assert(now.pass.contains(name) <==> before.pass.contains(name));
            assert(now.fail.contains(name) <==> before.fail.contains(name));
        }
        if !(v.pass.contains(name) || v.fail.contains(name)) {
            assert forall|i: int|
                0 <= i < n && #[trigger] reviewed_as(features, reviews, i, name) && (forall|j: int|
                    0 <= j < i ==> !#[trigger] reviewed_as(
                        features,
                        reviews,
                        j,
                        name,
                    )) implies (now.pass.contains(name) <==> reviews[i] == Some(AeVerdict::Pass))
                && (now.fail.contains(name) <==> reviews[i] == Some(AeVerdict::Fail)) by {
                if i < n - 1 {
                    match reviews[i]->Some_0 {
                        AeVerdict::Pass => {
                            assert(before.pass.contains(name));
                        },
                        AeVerdict::Fail => {
                            assert(before.fail.contains(name));
                        },
                    }
                    assert(before.has(name));
                } else {
                    assert(!before.has(name));
                    assert(now == before.with(name, reviews[i]->Some_0));
                }
            }
        }
    }
}

/// What was seen, where the event tells of something seen.
pub open spec fn seen(event: LoopEvent) -> Observation
    recommends
        event is Observed || event is Settled,
{
    match event {
        LoopEvent::Observed(o) => o,
        LoopEvent::Settled(o) => o,
        _ => arbitrary(),
    }
}

/// Whose review passed and whose failed is settled name by name, and by nothing but
/// the reviews of that name: the last event of the watcher that tells of it, else the
/// verdict that it had, else the first review on disk that came to one. Where there
/// is none of these it has no verdict.
pub proof fn law_verdicts_are_told_apart(s: LoopView, event: LoopEvent, name: Seq<char>)
    requires
        expects(s.stage, event),
    ensures
        event is Begin || event is Dispatched ==> loop_after(s, event).verdicts == s.verdicts,
        event is Observed || event is Settled ==> {
            let o = seen(event);
            let passed = loop_after(s, event).verdicts.pass.contains(name);
            let failed = loop_after(s, event).verdicts.fail.contains(name);
            let had = s.verdicts.pass.contains(name) || s.verdicts.fail.contains(name);
            let silent = forall|k: int|
                0 <= k < o.events@.len() ==> (#[trigger] o.events@[k]).feature_id@ != name;
            &&& forall|k: int| #[trigger]
                latest_event(o.events@, k, name) ==> (passed <==> o.events@[k].verdict
                    == AeVerdict::Pass) && (failed <==> o.events@[k].verdict == AeVerdict::Fail)
            &&& silent && had ==> (passed <==> s.verdicts.pass.contains(name)) && (failed
                <==> s.verdicts.fail.contains(name))
            &&& silent && !had ==> forall|i: int| #[trigger]
                reviewed_as(o.graph(), o.reviews@, i, name) && (forall|j: int|
                    0 <= j < i ==> !#[trigger] reviewed_as(o.graph(), o.reviews@, j, name)) ==> (
                passed <==> o.reviews@[i] == Some(AeVerdict::Pass)) && (failed <==> o.reviews@[i]
                    == Some(AeVerdict::Fail))
            &&& silent && !had && (forall|i: int|
                0 <= i < o.graph().len() ==> !#[trigger] reviewed_as(
                    o.graph(),
                    o.reviews@,
                    i,
                    name,
                )) ==> !passed && !failed
        },
{
    if event is Observed || event is Settled {
        let o = seen(event);
        let between = after_events(s.verdicts, o.events@);
        lemma_events_by_name(s.verdicts, o.events@, name);
        lemma_scan_by_name(between, o.graph(), o.reviews@, o.graph().len() as int, name);
        let now = loop_after(s, event).verdicts;
        assert(now == observed(s.verdicts, o));
        assert forall|k: int| #[trigger] latest_event(o.events@, k, name) implies (
        now.pass.contains(name) <==> o.events@[k].verdict == AeVerdict::Pass) && (
        now.fail.contains(name) <==> o.events@[k].verdict == AeVerdict::Fail) by {
            assert(between.has(name));
        }
    }
}

/// A run that starts again takes each name's verdict from the last review on disk
/// that came to one, in place of an older verdict, and leaves the other names alone.
pub proof fn law_start_takes_the_reviews_on_disk(
    v: Verdicts,
    features: Seq<FeatureView>,
    reviews: Seq<Option<AeVerdict>>,
    n: int,
    name: Seq<char>,
)
    requires
        0 <= n <= features.len() == reviews.len(),
    ensures
        forall|i: int|
            0 <= i < n && #[trigger] reviewed_as(features, reviews, i, name) && (forall|j: int|
                i < j < n ==> !#[trigger] reviewed_as(features, reviews, j, name)) ==> (after_scan(
                v,
                features,
                reviews,
                n,
                true,
            ).pass.contains(name) <==> reviews[i] == Some(AeVerdict::Pass)) && (after_scan(
                v,
                features,
                reviews,
                n,
                true,
            ).fail.contains(name) <==> reviews[i] == Some(AeVerdict::Fail)),
        (forall|i: int| 0 <= i < n ==> !#[trigger] reviewed_as(features, reviews, i, name)) ==> (
        after_scan(v, features, reviews, n, true).pass.contains(name) <==> v.pass.contains(name))
            && (after_scan(v, features, reviews, n, true).fail.contains(name)
            <==> v.fail.contains(name)),
    decreases n,
{
    if n > 0 {
        law_start_takes_the_reviews_on_disk(v, features, reviews, n - 1, name);
        let before = after_scan(v, features, reviews, n - 1, true);
        if !reviewed_as(features, reviews, n - 1, name) {
            let now = after_scan(v, features, reviews, n, true);
            assert(now.pass.contains(name) <==> before.pass.contains(name));
            assert(now.fail.contains(name) <==> before.fail.contains(name));
        }
    }
}

/// A passing review makes its feature done and changes nothing else: no other
/// feature, and of the feature itself neither the id nor the directory nor what it
/// depends on.
pub proof fn law_marking_only_makes_done(features: Seq<FeatureView>, pass: Set<Seq<char>>, i: int)
    requires
        0 <= i < features.len(),
    ensures
        marked_all(features, pass).len() == features.len(),
        marked_all(features, pass)[i].id == features[i].id,
        marked_all(features, pass)[i].feature_dir == features[i].feature_dir,
        marked_all(features, pass)[i].depends_on == features[i].depends_on,
        path_name(features[i].feature_dir) matches Some(name) && pass.contains(name) ==> marked_all(
            features,
            pass,
        )[i].work_state == Some("done"@),
        !(path_name(features[i].feature_dir) matches Some(name) && pass.contains(name)) ==> marked_all(
            features,
            pass,
        )[i] == features[i],
{
}

/// The feature at `i` is done, or its directory's name has passed.
pub open spec fn is_finished(features: Seq<FeatureView>, pass: Set<Seq<char>>, i: int) -> bool {
    features[i].work_state == Some("done"@) || (path_name(features[i].feature_dir) matches Some(
        name,
    ) && pass.contains(name))
}

/// Each cycle is counted once, when it begins, and its report is entered once, as it
/// was returned: when it is found to be empty, or when it has been judged. The reports
/// of earlier cycles stay as they are.
pub proof fn law_each_cycle_has_its_report(s: LoopView, event: LoopEvent)
    requires
        expects(s.stage, event),
    ensures
        event matches LoopEvent::Begin { cancelled } ==> {
            &&& loop_after(s, event).cycle == if cancelled {
                s.cycle
            } else {
                s.cycle + 1
            }
            &&& loop_after(s, event).reports == s.reports
        },
        event is Observed ==> loop_after(s, event).cycle == s.cycle && loop_after(s, event).reports
            == s.reports,
        event matches LoopEvent::Dispatched(report) ==> {
            let after = loop_after(s, event);
            &&& after.cycle == s.cycle
            &&& report.dispatched_count == 0 ==> after.reports == s.reports.push(report@)
            &&& report.dispatched_count != 0 ==> after.reports == s.reports && after.stage
                == LoopStageView::Settling(report@)
        },
        event is Settled ==> loop_after(s, event).cycle == s.cycle && loop_after(s, event).reports
            == s.reports.push(s.stage->Settling_0),
{
}

/// The loop ends for one of these reasons and for no other: a cancel, a review that
/// failed, a graph in which nothing is left to do, a graph of which nothing could be
/// dispatched, a worker that failed. What it ended for is what it reports.
pub proof fn law_loop_ends_for_a_reason(s: LoopView, event: LoopEvent)
    requires
        expects(s.stage, event),
    ensures
        event matches LoopEvent::Begin { cancelled } ==> (loop_after(s, event).stage is Stopped
            <==> cancelled) && (!cancelled ==> loop_after(s, event).stage is Observing),
        event matches LoopEvent::Observed(o) ==> {
            let after = loop_after(s, event);
            let rejected = exists|name: Seq<char>| after.verdicts.fail.contains(name);
            &&& after.stage is Stopped || after.stage is Dispatching
            &&& after.stage is Stopped <==> rejected || forall|i: int|
                0 <= i < o.graph().len() ==> #[trigger] is_finished(
                    o.graph(),
                    after.verdicts.pass,
                    i,
                )
            &&& after.ae_review_failed <==> s.ae_review_failed || rejected
            &&& after.deps_stuck == s.deps_stuck
            &&& after.stage matches LoopStageView::Dispatching(features) ==> features
                == marked_all(o.graph(), after.verdicts.pass)
        },
        event matches LoopEvent::Dispatched(report) ==> {
            let after = loop_after(s, event);
            &&& after.stage is Stopped <==> report.dispatched_count == 0
            &&& after.deps_stuck <==> s.deps_stuck || report.dispatched_count == 0
            &&& after.ae_review_failed == s.ae_review_failed
        },
        event is Settled ==> {
            let after = loop_after(s, event);
            let outcomes = s.stage->Settling_0.outcomes;
            let rejected = exists|name: Seq<char>| after.verdicts.fail.contains(name);
            &&& after.stage is Stopped || after.stage is Idle
            &&& after.stage is Stopped <==> rejected || exists|k: int|
                0 <= k < outcomes.len() && is_failure(
                    (#[trigger] outcomes[k]).worker_exit_status,
                )
            &&& after.ae_review_failed <==> s.ae_review_failed || rejected
            &&& after.deps_stuck == s.deps_stuck
        },
{
    let after = loop_after(s, event);
    let fail = after.verdicts.fail;
    if fail != Set::<Seq<char>>::empty() {
        if forall|name: Seq<char>| !fail.contains(name) {
            assert(fail =~= Set::<Seq<char>>::empty());
        }
    }
    match event {
        LoopEvent::Observed(o) => {
            let pass = after.verdicts.pass;
            let marked = marked_all(o.graph(), pass);
            assert forall|i: int| 0 <= i < o.graph().len() implies #[trigger] is_finished(
                o.graph(),
                pass,
                i,
            ) == marked[i].done() by {}
            if any_incomplete(marked) {
                let i = choose|i: int| 0 <= i < marked.len() && !(#[trigger] marked[i]).done();
                assert(!is_finished(o.graph(), pass, i));
            } else {
                assert forall|i: int| 0 <= i < o.graph().len() implies #[trigger] is_finished(
                    o.graph(),
                    pass,
                    i,
                ) by {
                    assert(marked[i].done());
                }
            }
        },
        _ => {},
    }
}

/// A snapshot tells of every feature and of no other: the last feature with an id
/// says how far its work is, and one that says nothing is told as unknown.
pub proof fn law_snapshot_tells_each_feature(
    s: StatusSnapshot,
    cycle: nat,
    phase: Seq<char>,
    features: Seq<FeatureView>,
)
    requires
        tells(s, cycle, phase, features),
    ensures
        s.cycle == cycle,
        s.phase@ == phase,
        forall|id: Seq<char>|
            text_map(s.features).dom().contains(id) <==> exists|i: int|
                0 <= i < features.len() && (#[trigger] features[i]).id == id,
        forall|i: int|
            0 <= i < features.len() && (forall|j: int|
                i < j < features.len() ==> (#[trigger] features[j]).id != features[i].id) ==> text_map(
                s.features,
            )[(#[trigger] features[i]).id] == (if features[i].work_state is Some {
                features[i].work_state->Some_0
            } else {
                "unknown"@
            }),
{
    lemma_work_states(features);
}

proof fn lemma_work_states(features: Seq<FeatureView>)
    ensures
        forall|id: Seq<char>|
            work_states(features).dom().contains(id) <==> exists|i: int|
                0 <= i < features.len() && (#[trigger] features[i]).id == id,
        forall|i: int|
            0 <= i < features.len() && (forall|j: int|
                i < j < features.len() ==> (#[trigger] features[j]).id != features[i].id)
                ==> work_states(features)[(#[trigger] features[i]).id] == (if features[i].work_state is Some {
                features[i].work_state->Some_0
            } else {
                "unknown"@
            }),
    decreases features.len(),
{
    if features.len() > 0 {
        let t = features.drop_last();
        let last = features.len() - 1;
        lemma_work_states(t);
        assert forall|i: int| 0 <= i < last implies #[trigger] t[i] == features[i] by {}
        assert forall|id: Seq<char>|
            work_states(features).dom().contains(id) <==> exists|i: int|
                0 <= i < features.len() && (#[trigger] features[i]).id == id by {
            if work_states(t).dom().contains(id) {
                let i = choose|i: int| 0 <= i < t.len() && (#[trigger] t[i]).id == id;
                assert(features[i].id == id);
            }
            if features.last().id == id {
                assert(features[last].id == id);
            }
            if exists|i: int| 0 <= i < features.len() && (#[trigger] features[i]).id == id {
                let i = choose|i: int| 0 <= i < features.len() && (#[trigger] features[i]).id == id;
                if i < last {
                    assert(t[i].id == id);
                }
            }
        }
        assert forall|i: int|
            0 <= i < features.len() && (forall|j: int|
                i < j < features.len() ==> (#[trigger] features[j]).id
                    != features[i].id) implies work_states(features)[(#[trigger] features[i]).id]
            == (if features[i].work_state is Some {
            features[i].work_state->Some_0
        } else {
            "unknown"@
        }) by {
            if i < last {
                assert(features[last].id != features[i].id);
                assert forall|j: int| i < j < t.len() implies (#[trigger] t[j]).id != t[i].id by {
                    assert(features[j].id != features[i].id);
                }
                assert(t[i].id == features[i].id);
            }
        }
    } else {
        assert forall|id: Seq<char>| !#[trigger] work_states(features).dom().contains(id) by {}
    }
}

/// What is to be done next, and what an operator is told, follow from where the loop
/// stands: it stops exactly where the state has stopped, dispatches exactly the
/// features that the state holds, and the last snapshot of a loop that was not
/// cancelled names the reason, in the cycle that it ended in.
pub proof fn law_action_follows_the_state(s: LoopView, event: LoopEvent, action: LoopAction)
    requires
        expects(s.stage, event),
        action_after(s, event, action),
    ensures
        action is Stop <==> loop_after(s, event).stage is Stopped,
        action is Continue <==> loop_after(s, event).stage is Idle,
        action is Observe <==> loop_after(s, event).stage is Observing || loop_after(
            s,
            event,
        ).stage is Settling,
        action is Dispatch <==> loop_after(s, event).stage is Dispatching,
        action matches LoopAction::Dispatch { status, features } ==> {
            &&& loop_after(s, event).stage == LoopStageView::Dispatching(
                views(features@),
            )
            &&& tells(status, s.cycle, "dispatch"@, event->Observed_0.graph())
        },
        action matches LoopAction::Stop { statuses } ==> {
            let after = loop_after(s, event);
            let rejected = exists|name: Seq<char>| after.verdicts.fail.contains(name);
            &&& event is Begin ==> statuses@.len() == 0
            &&& event matches LoopEvent::Observed(o) ==> {
                &&& statuses@.len() == if rejected {
                    1int
                } else {
                    2int
                }
                &&& !rejected ==> tells(statuses@[0], s.cycle, "dispatch"@, o.graph())
                &&& rejected ==> tells(
                    statuses@.last(),
                    s.cycle,
                    "paused_on_ae_fail"@,
                    o.graph(),
                )
                &&& !rejected ==> tells(
                    statuses@.last(),
                    s.cycle,
                    "done"@,
                    marked_all(o.graph(), after.verdicts.pass),
                )
            }
            &&& event is Dispatched ==> statuses@.len() == 1 && tells(
                statuses@.last(),
                s.cycle,
                "blocked"@,
                s.stage->Dispatching_0,
            )
            &&& event matches LoopEvent::Settled(o) ==> statuses@.len() == 1 && tells(
                statuses@.last(),
                s.cycle,
                if rejected {
                    "paused_on_ae_fail"@
                } else {
                    "paused_on_fail"@
                },
                o.graph(),
            )
        },
{
    let fail = loop_after(s, event).verdicts.fail;
    if fail != Set::<Seq<char>>::empty() {
        if forall|name: Seq<char>| !fail.contains(name) {
            assert(fail =~= Set::<Seq<char>>::empty());
        }
    }
}

/// Joining the reports of a run is putting them one after the other: the outcomes
/// follow each other, in order and each as often as it was reported, and the times add
/// up. One report alone is told as it is, apart from its count, which is that of its
/// outcomes.
pub proof fn law_aggregation_is_a_sum(a: Seq<ReportView>, b: Seq<ReportView>, r: ReportView)
    ensures
        aggregated(a + b).outcomes == aggregated(a).outcomes + aggregated(b).outcomes,
        aggregated(a + b).elapsed_ms == aggregated(a).elapsed_ms + aggregated(b).elapsed_ms,
        aggregated(a + b).dispatched_count == aggregated(a).dispatched_count + aggregated(
            b,
        ).dispatched_count,
        aggregated(seq![r]) == (ReportView { dispatched_count: r.outcomes.len(), ..r }),
        aggregated(Seq::empty()) == (ReportView {
            started_at_ms: 0,
            elapsed_ms: 0,
            dispatched_count: 0,
            outcomes: Seq::empty(),
        }),
    decreases b.len(),
{
    if b.len() > 0 {
        let t = b.drop_last();
        law_aggregation_is_a_sum(a, t, r);
        assert((a + b).drop_last() =~= a + t);
        assert((a + b).last() == b.last());
        assert(all_outcomes(a + b) =~= all_outcomes(a) + all_outcomes(b));
    } else {
        assert(a + b =~= a);
        assert(all_outcomes(b) =~= Seq::empty());
        assert(all_outcomes(a + b) =~= all_outcomes(a) + all_outcomes(b));
    }
    let one = seq![r];
    let none = Seq::<ReportView>::empty();
    assert(one.drop_last() =~= none);
    assert(all_outcomes(none) =~= Seq::empty());
    assert(one.last() == r);
    assert(all_outcomes(one) =~= r.outcomes);
    assert(total_elapsed(one.drop_last()) == 0);
}

/// A run began when the first of its cycles did.
pub proof fn law_run_began_with_its_first_cycle(reports: Seq<ReportView>)
    requires
        reports.len() > 0,
    ensures
        forall|i: int|
            0 <= i < reports.len() ==> aggregated(reports).started_at_ms <= (
            #[trigger] reports[i]).started_at_ms,
        exists|i: int|
            0 <= i < reports.len() && aggregated(reports).started_at_ms == (
            #[trigger] reports[i]).started_at_ms,
    decreases reports.len(),
{
    let last = reports.len() - 1;
    if reports.len() > 1 {
        let t = reports.drop_last();
        law_run_began_with_its_first_cycle(t);
        assert forall|i: int| 0 <= i < t.len() implies #[trigger] reports[i] == t[i] by {}
        let k = choose|i: int|
            0 <= i < t.len() && aggregated(t).started_at_ms == (#[trigger] t[i]).started_at_ms;
        assert(reports[k] == t[k]);
        assert(reports[last] == reports.last());
    } else {
        assert(reports[0].started_at_ms == earliest(reports));
    }
}

/// Each stage waits for one kind of event and for no other; a loop that has stopped
/// waits for none.
pub proof fn law_each_stage_awaits_one_event(stage: LoopStageView, event: LoopEvent)
    ensures
        event is Begin ==> (expects(stage, event) <==> stage is Idle),
        event is Dispatched ==> (expects(stage, event) <==> stage is Dispatching),
        event matches LoopEvent::Observed(o) ==> (expects(stage, event) <==> stage is Observing
            && o.features@.len() == o.reviews@.len()),
        event matches LoopEvent::Settled(o) ==> (expects(stage, event) <==> stage is Settling
            && o.features@.len() == o.reviews@.len()),
{
}

/// A run that owes a review is never told as a success: with nothing graver to tell, it
/// exits with the code for that.
pub proof fn law_missing_review_is_told(s: LoopView, cancelled: bool, id: Seq<char>)
    requires
        s.missing.contains(id),
    ensures
        run_exit_code(s, cancelled) != 0,
        !cancelled && !s.ae_review_failed && !s.deps_stuck && (forall|i: int, k: int|
            0 <= i < s.reports.len() && 0 <= k < s.reports[i].outcomes.len() ==> !is_failure(
                (#[trigger] s.reports[i].outcomes[k]).worker_exit_status,
            )) ==> run_exit_code(s, cancelled) == 8,
{
    let all = aggregated(s.reports).outcomes;
    if any_failure(all) {
        let j = choose|j: int|
            0 <= j < all.len() && is_failure((#[trigger] all[j]).worker_exit_status);
        law_aggregation_keeps_outcomes(s.reports, all[j]);
        let i = choose|i: int|
            0 <= i < s.reports.len() && (#[trigger] s.reports[i]).outcomes.contains(all[j]);
        let k = s.reports[i].outcomes.index_of(all[j]);
        assert(is_failure(s.reports[i].outcomes[k].worker_exit_status));
    }
}

} // verus!
