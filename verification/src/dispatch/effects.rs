//! What scheduling and recording come to, feature by feature and run by run.

use super::{
    archived_features, credited_view, first_verdict, has_done, identity_of, is_credited, is_ready,
    law_identities_differ, planned, probe_order, probe_verdict, ready_features, recorded_outcome,
    review_under, run_status, task_outcome, ArchivedView, FeatureOutcome, OutcomeView, ProbeRead, ProbeView,
    TaskResult,
};
use crate::artifact::{Artifact, WorkerVerdict};
use crate::decimal::decimal;
use crate::discovery::FeatureView;
use crate::dispatch::rescue::is_rescue_status;
use crate::exit::{dispatch_code, is_failure};
use crate::moment::Moment;
use crate::order::{lemma_filter_picks, picks};
use crate::paths::{law_name_of_join, law_parent_of_join, path_join, path_name, path_parent};
use crate::text::has_prefix;
use crate::verdict::{reviewed_feature, single_verdict, AeVerdict};
use vstd::prelude::*;

verus! {

/// Some feature of `all` has this id and says that it is done.
pub open spec fn is_met(all: Seq<FeatureView>, id: Seq<char>) -> bool {
    exists|j: int|
        0 <= j < all.len() && (#[trigger] all[j]).id == id && all[j].work_state == Some("done"@)
}

/// A feature of the graph is in the ready set if and only if it is not done and each
/// entry of its dependencies is an id that some feature of the graph has which is
/// done. The ready set has the order of the graph.
pub proof fn law_ready_set_is_what_can_run(all: Seq<FeatureView>) -> (at: Seq<int>)
    ensures
        picks(all, at, ready_features(all)),
        forall|i: int|
            0 <= i < all.len() ==> (#[trigger] at.contains(i) <==> all[i].work_state != Some(
                "done"@,
            ) && forall|k: int|
                0 <= k < all[i].depends_on.len() ==> is_met(all, #[trigger] all[i].depends_on[k])),
{
    let keep = |f: FeatureView| is_ready(all, f);
    let at = lemma_filter_picks(all, keep);
    assert forall|id: Seq<char>| #[trigger] is_met(all, id) == has_done(all, id) by {
        if is_met(all, id) {
            let j = choose|j: int|
                0 <= j < all.len() && (#[trigger] all[j]).id == id && all[j].work_state == Some(
                    "done"@,
                );
            assert(all[j].done());
        }
        if has_done(all, id) {
            let j = choose|j: int|
                0 <= j < all.len() && (#[trigger] all[j]).done() && all[j].id == id;
            assert(all[j].id == id);
        }
    }
    assert forall|i: int| 0 <= i < all.len() implies (#[trigger] at.contains(i)
        <==> all[i].work_state != Some("done"@) && forall|k: int|
        0 <= k < all[i].depends_on.len() ==> is_met(all, #[trigger] all[i].depends_on[k])) by {
        let f = all[i];
        assert(at.contains(i) <==> keep(f));
        if keep(f) {
            assert forall|k: int| 0 <= k < f.depends_on.len() implies is_met(
                all,
                #[trigger] f.depends_on[k],
            ) by {
                assert(has_done(all, f.depends_on[k]));
            }
        } else if !f.done() {
            let k = choose|k: int|
                0 <= k < f.depends_on.len() && !has_done(all, #[trigger] f.depends_on[k]);
            assert(!is_met(all, all[i].depends_on[k]));
        }
    }
    at
}

/// The scheduled graph is the active features as they are, then the archived ones
/// that count as done, as they are and in their order. One counts unless an active
/// feature with its id is not done, or some archived copy with its id has a review
/// that failed.
pub proof fn law_credited_graph_is_active_then_archived(
    active: Seq<FeatureView>,
    archive: Seq<ArchivedView>,
) -> (at: Seq<int>)
    ensures
        credited_view(active, archive).len() == active.len() + at.len(),
        forall|i: int|
            0 <= i < active.len() ==> #[trigger] credited_view(active, archive)[i] == active[i],
        forall|k: int|
            0 <= k < at.len() ==> 0 <= #[trigger] at[k] < archive.len() && credited_view(
                active,
                archive,
            )[active.len() + k] == archive[at[k]].feature,
        forall|j: int, k: int| 0 <= j < k < at.len() ==> #[trigger] at[j] < #[trigger] at[k],
        forall|i: int|
            0 <= i < archive.len() ==> (#[trigger] at.contains(i) <==> (forall|j: int|
                0 <= j < active.len() && (#[trigger] active[j]).id == archive[i].feature.id
                    ==> active[j].work_state == Some("done"@)) && (forall|j: int|
                0 <= j < archive.len() && (#[trigger] archive[j]).feature.id
                    == archive[i].feature.id ==> archive[j].review != Some(AeVerdict::Fail))),
{
    let all = archived_features(archive);
    let keep = |f: FeatureView| is_credited(active, archive, f);
    let at = lemma_filter_picks(all, keep);
    let extra = all.filter(keep);
    let view = credited_view(active, archive);
    assert forall|k: int| 0 <= k < at.len() implies 0 <= #[trigger] at[k] < archive.len()
        && view[active.len() + k] == archive[at[k]].feature by {
        assert(view[active.len() + k] == extra[k]);
    }
    assert forall|i: int| 0 <= i < archive.len() implies (#[trigger] at.contains(i) <==> (forall|
        j: int,
    |
        0 <= j < active.len() && (#[trigger] active[j]).id == archive[i].feature.id
            ==> active[j].work_state == Some("done"@)) && (forall|j: int|
        0 <= j < archive.len() && (#[trigger] archive[j]).feature.id == archive[i].feature.id
            ==> archive[j].review != Some(AeVerdict::Fail))) by {
        assert(at.contains(i) <==> keep(all[i]));
        assert(all[i] == archive[i].feature);
    }
    at
}

/// Every ready feature gets one slot, in order, and the workers take turns: the first
/// takes the first slot, any run of as many slots as there are workers has each worker
/// once, and then it starts over. No two slots run under one name, and each name
/// begins with the id of its feature.
pub proof fn law_workers_take_turns(all: Seq<FeatureView>, workers: int, i: int, j: int)
    requires
        workers > 0,
        0 <= i < planned(all, workers).len(),
        0 <= j < planned(all, workers).len(),
    ensures
        planned(all, workers).len() == ready_features(all).len(),
        planned(all, workers)[i].feature == ready_features(all)[i],
        0 <= planned(all, workers)[i].worker < workers,
        i == 0 ==> planned(all, workers)[i].worker == 0,
        j == i + workers ==> planned(all, workers)[j].worker == planned(all, workers)[i].worker,
        i < j < i + workers ==> planned(all, workers)[j].worker != planned(all, workers)[i].worker,
        j == i + 1 ==> planned(all, workers)[j].worker == planned(all, workers)[i].worker + 1
            || planned(all, workers)[j].worker == 0,
        i != j ==> planned(all, workers)[i].worker_identity != planned(all, workers)[j].worker_identity,
        has_prefix(
            planned(all, workers)[i].worker_identity,
            planned(all, workers)[i].feature.id,
        ),
        planned(all, workers)[i].worker_identity.skip(
            planned(all, workers)[i].feature.id.len() as int,
        ) == "-w"@ + decimal(i as nat),
        planned(all, 0).len() == 0,
{
    let id = ready_features(all)[i].id;
    if i != j {
        law_identities_differ(id, i, ready_features(all)[j].id, j);
    }
    let name = identity_of(id, i);
    assert(name.subrange(0, id.len() as int) =~= id);
    assert(name.skip(id.len() as int) =~= "-w"@ + decimal(i as nat));
    assert(0 <= i % workers < workers) by (nonlinear_arith)
        requires
            workers > 0,
    ;
    assert(0int % workers == 0) by (nonlinear_arith)
        requires
            workers > 0,
    ;
    if j == i + workers {
        assert((i + workers) % workers == i % workers) by (nonlinear_arith)
            requires
                workers > 0,
        ;
    }
    if i < j < i + workers {
        lemma_turns(i, j, workers);
    }
}

proof fn lemma_turns(i: int, j: int, workers: int)
    requires
        workers > 0,
        0 <= i < j < i + workers,
    ensures
        j % workers != i % workers,
        j == i + 1 ==> j % workers == i % workers + 1 || j % workers == 0,
{
    let q = i / workers;
    let r = i % workers;
    vstd::arithmetic::div_mod::lemma_fundamental_div_mod(i, workers);
    let d = j - i;
    if r + d < workers {
        vstd::arithmetic::div_mod::lemma_fundamental_div_mod_converse(j, workers, q, r + d);
    } else {
        assert(workers * (q + 1) == workers * q + workers) by (nonlinear_arith);
        vstd::arithmetic::div_mod::lemma_fundamental_div_mod_converse(
            j,
            workers,
            q + 1,
            r + d - workers,
        );
    }
}

/// The review of a worker that returned is recorded as it is: `pass` where it passed,
/// `fail` where it failed, however the two workers' processes ended.
pub proof fn law_review_is_recorded_whatever_the_worker(
    id1: Seq<char>,
    who1: Seq<char>,
    a1: Artifact,
    ref1: Option<Seq<char>>,
    ms1: nat,
    unix1: bool,
    id2: Seq<char>,
    who2: Seq<char>,
    a2: Artifact,
    ref2: Option<Seq<char>>,
    ms2: nat,
    unix2: bool,
    v: AeVerdict,
)
    ensures
        recorded_outcome(id1, who1, Ok(a1), Some(v), ref1, ms1, unix1).verdict == recorded_outcome(
            id2,
            who2,
            Ok(a2),
            Some(v),
            ref2,
            ms2,
            unix2,
        ).verdict,
        recorded_outcome(id1, who1, Ok(a1), Some(v), ref1, ms1, unix1).verdict == "pass"@ <==> v
            == AeVerdict::Pass,
        recorded_outcome(id1, who1, Ok(a1), Some(v), ref1, ms1, unix1).verdict == "fail"@ <==> v
            == AeVerdict::Fail,
{
    reveal_strlit("pass");
    reveal_strlit("fail");
    assert("pass"@[0] != "fail"@[0]);
}

/// A dispatch in which some review failed exits with the code of a rejected review,
/// whatever the other outcomes are, however the worker's process ended, and whether or
/// not it was cancelled.
pub proof fn law_failed_review_is_never_hidden(
    outcomes: Seq<OutcomeView>,
    i: int,
    id: Seq<char>,
    who: Seq<char>,
    a: Artifact,
    rescue_ref: Option<Seq<char>>,
    ms: nat,
    unix: bool,
    cancelled: bool,
    deps_stuck: bool,
)
    requires
        0 <= i < outcomes.len(),
        outcomes[i] == recorded_outcome(
            id,
            who,
            Ok(a),
            Some(AeVerdict::Fail),
            rescue_ref,
            ms,
            unix,
        ),
    ensures
        dispatch_code(outcomes, cancelled, deps_stuck) == 5,
{
    assert(outcomes[i].verdict == "fail"@);
}

/// How a worker's process ended is recorded as it is, whatever the review says: the
/// two are told apart. From the status one can tell the four ends of a process.
pub proof fn law_worker_end_is_recorded_whatever_the_review(
    id: Seq<char>,
    who: Seq<char>,
    a: Artifact,
    b: Artifact,
    review1: Option<AeVerdict>,
    review2: Option<AeVerdict>,
    rescue_ref: Option<Seq<char>>,
    ms: nat,
    unix: bool,
)
    ensures
        ({
            let o = recorded_outcome(id, who, Ok(a), review1, rescue_ref, ms, unix);
            let p = recorded_outcome(id, who, Ok(b), review2, rescue_ref, ms, unix);
            &&& o.worker_exit_status == p.worker_exit_status <==> a.verdict == b.verdict
            &&& o.worker_exit_status == "pass"@ <==> a.verdict == WorkerVerdict::Pass
            &&& o.worker_exit_status == "fail"@ <==> a.verdict == WorkerVerdict::Fail
            &&& o.worker_exit_status == "timeout"@ <==> a.verdict == WorkerVerdict::Timeout
            &&& o.worker_exit_status == "cancelled"@ <==> a.verdict == WorkerVerdict::Cancelled
            &&& o.exit_code == a.exit_code
            &&& o.stdout_path == a.stdout_path@
            &&& o.drain_truncated == a.drain_truncated
            &&& o.duration_ms * 1_000_000 <= a.duration.total() < (o.duration_ms + 1) * 1_000_000
            &&& o.error is None
        }),
{
    lemma_status_words_differ();
}

proof fn lemma_status_words_differ()
    ensures
        "pass"@ != "fail"@,
        "pass"@ != "timeout"@,
        "pass"@ != "cancelled"@,
        "pass"@ != "error"@,
        "fail"@ != "timeout"@,
        "fail"@ != "cancelled"@,
        "fail"@ != "error"@,
        "timeout"@ != "cancelled"@,
        "timeout"@ != "error"@,
        "cancelled"@ != "error"@,
{
    reveal_strlit("pass");
    reveal_strlit("fail");
    reveal_strlit("timeout");
    reveal_strlit("cancelled");
    reveal_strlit("error");
    assert("pass"@[0] != "fail"@[0]);
    assert("pass"@.len() == 4 && "fail"@.len() == 4 && "timeout"@.len() == 7);
    assert("cancelled"@.len() == 9 && "error"@.len() == 5);
}

/// Whatever became of it, an outcome names the feature, the worker and the ref of its
/// own run. A worker that could not be run is recorded as a failure with its error,
/// and no review counts for it.
pub proof fn law_outcome_belongs_to_its_run(
    id: Seq<char>,
    who: Seq<char>,
    result: Result<Artifact, String>,
    review: Option<AeVerdict>,
    rescue_ref: Option<Seq<char>>,
    ms: nat,
    unix: bool,
)
    ensures
        ({
            let o = recorded_outcome(id, who, result, review, rescue_ref, ms, unix);
            &&& o.feature_id == id
            &&& o.worker_identity == who
            &&& o.rescue_ref == rescue_ref
            &&& o.error is Some <==> result is Err
            &&& result matches Err(e) ==> {
                &&& o.error == Some(e@)
                &&& o.worker_exit_status == "error"@
                &&& is_failure(o.worker_exit_status)
                &&& o.verdict == "unknown"@
                &&& o.exit_code == -1
                &&& o.duration_ms == ms
                &&& o.stdout_path.len() == 0
                &&& !o.drain_truncated
            }
        }),
{
}

/// A review is recorded as missing exactly where one was owed and none came: the
/// worker's process passed, its review could have been seen, and no verdict was found.
/// Where none was owed, the verdict is unknown.
pub proof fn law_missing_is_a_review_that_was_owed(
    id: Seq<char>,
    who: Seq<char>,
    result: Result<Artifact, String>,
    review: Option<AeVerdict>,
    rescue_ref: Option<Seq<char>>,
    ms: nat,
    unix: bool,
)
    ensures
        recorded_outcome(id, who, result, review, rescue_ref, ms, unix).verdict == "missing"@
            <==> review is None && unix && (result matches Ok(a) && a.verdict
            == WorkerVerdict::Pass),
        recorded_outcome(id, who, result, review, rescue_ref, ms, unix).verdict == "unknown"@
            <==> result is Err || (review is None && !(unix && (result matches Ok(a) && a.verdict
            == WorkerVerdict::Pass))),
{
    reveal_strlit("pass");
    reveal_strlit("fail");
    reveal_strlit("missing");
    reveal_strlit("unknown");
    assert("pass"@.len() == 4 && "fail"@.len() == 4 && "missing"@.len() == 7);
    assert("unknown"@.len() == 7);
    assert("missing"@[0] != "unknown"@[0]);
}

/// A task that ended is reported by its own outcome. One that was lost is reported as
/// a failure with what is known of it, an error and a panic told apart, and as nothing
/// that a review passed, failed or owes.
pub proof fn law_lost_task_is_a_failure(task: TaskResult)
    ensures
        task matches TaskResult::Finished(o) ==> task_outcome(task) == o@,
        !(task is Finished) ==> {
            let o = task_outcome(task);
            &&& is_failure(o.worker_exit_status)
            &&& o.worker_exit_status == "panic"@ <==> task is Panicked
            &&& o.worker_exit_status == "error"@ <==> task is Failed
            &&& o.verdict == "unknown"@
            &&& o.feature_id == "<unknown>"@
            &&& o.worker_identity == "<unknown>"@
            &&& o.rescue_ref is None
            &&& o.exit_code == -1
            &&& o.duration_ms == 0
            &&& o.stdout_path.len() == 0
            &&& !o.drain_truncated
        },
        task matches TaskResult::Failed(e) ==> task_outcome(task).error == Some(e@),
        task matches TaskResult::Panicked(e) ==> task_outcome(task).error == Some(e@),
{
    reveal_strlit("panic");
    reveal_strlit("error");
    assert("panic"@[0] != "error"@[0]);
}

/// A worker that could not be run and the four ends of a worker's process have five
/// different words, so that refs which keep their work never clash.
pub proof fn law_run_statuses_differ(a: Result<WorkerVerdict, ()>, b: Result<WorkerVerdict, ()>)
    ensures
        run_status(a) == run_status(b) <==> match (a, b) {
            (Ok(v), Ok(w)) => v == w,
            (Err(_), Err(_)) => true,
            _ => false,
        },
        run_status(a) == "pass"@ <==> (a matches Ok(v) && v == WorkerVerdict::Pass),
        is_rescue_status(run_status(a)),
{
    lemma_status_words_differ();
}

/// What is found at a probe counts, and names `v`: the review says so and, where only
/// a fresh one counts, it was written no earlier than the dispatch began.
pub open spec fn counts_as(
    probe: ProbeView,
    read: ProbeRead,
    started: Moment,
    v: AeVerdict,
) -> bool {
    &&& single_verdict(read.review) == Some(v)
    &&& probe.fresh_only ==> (read.modified matches Some(at) && at.secs * 1_000_000_000 + at.nanos
        >= started.secs * 1_000_000_000 + started.nanos)
}

/// The verdict of a feature is that of the first probe that counts, and there is none
/// where no probe does.
pub proof fn law_first_review_counts(
    probes: Seq<ProbeView>,
    reads: Seq<ProbeRead>,
    started: Moment,
    n: int,
)
    requires
        0 <= n <= probes.len() == reads.len(),
    ensures
        forall|i: int, v: AeVerdict|
            0 <= i < n && #[trigger] counts_as(probes[i], reads[i], started, v) && (forall|
                j: int,
                w: AeVerdict,
            |
                0 <= j < i ==> !#[trigger] counts_as(probes[j], reads[j], started, w))
                ==> first_verdict(probes, reads, started, n) == Some(v),
        (forall|i: int, v: AeVerdict|
            0 <= i < n ==> !#[trigger] counts_as(probes[i], reads[i], started, v))
            ==> first_verdict(probes, reads, started, n) is None,
    decreases n,
{
    if n > 0 {
        law_first_review_counts(probes, reads, started, n - 1);
        let last = probe_verdict(probes[n - 1], reads[n - 1], started);
        assert forall|v: AeVerdict|
            #[trigger] counts_as(probes[n - 1], reads[n - 1], started, v) <==> last == Some(v) by {}
        if last is Some {
            assert(counts_as(probes[n - 1], reads[n - 1], started, last->Some_0));
        }
    }
}

/// The review beside the feature is looked at first and that of the main archive last,
/// where alone it must be fresh; in between come those of the worktree, if there is
/// one. A directory without a name has no place but the first.
pub proof fn law_archive_is_asked_last(
    feature_dir: Seq<char>,
    worktree: Option<Seq<char>>,
    workspace: Seq<char>,
)
    ensures
        ({
            let probes = probe_order(feature_dir, worktree, workspace);
            &&& probes.len() > 0
            &&& probes[0].path == path_join(feature_dir, "review.md"@)
            &&& path_name(feature_dir) is None ==> probes.len() == 1
            &&& path_name(feature_dir) is Some ==> probes.len() == if worktree is Some {
                4int
            } else {
                2int
            }
            &&& forall|i: int|
                0 <= i < probes.len() ==> ((#[trigger] probes[i]).fresh_only <==> i > 0 && i
                    == probes.len() - 1)
            &&& path_name(feature_dir) matches Some(name) ==> {
                &&& probes.last().path == review_under(workspace, ".ae/features/done"@, name)
                &&& worktree matches Some(wt) ==> probes[1].path == review_under(
                    wt,
                    ".ae/features/active"@,
                    name,
                ) && probes[2].path == review_under(wt, ".ae/features/done"@, name)
            }
        }),
{
}

/// An outcome's view tells it whole: outcomes with one view agree in everything that is
/// recorded.
pub proof fn law_outcome_view_loses_nothing(a: FeatureOutcome, b: FeatureOutcome)
    requires
        a@ == b@,
    ensures
        a.feature_id@ == b.feature_id@,
        a.worker_identity@ == b.worker_identity@,
        a.verdict@ == b.verdict@,
        a.worker_exit_status@ == b.worker_exit_status@,
        a.exit_code == b.exit_code,
        a.duration_ms == b.duration_ms,
        a.stdout_path@ == b.stdout_path@,
        a.drain_truncated == b.drain_truncated,
        a.error is Some <==> b.error is Some,
        a.error is Some ==> a.error->Some_0@ == b.error->Some_0@,
        a.rescue_ref is Some <==> b.rescue_ref is Some,
        a.rescue_ref is Some ==> a.rescue_ref->Some_0@ == b.rescue_ref->Some_0@,
{
}

/// Where a review is looked for is where the watcher would see it: the file is named
/// `review.md` and lies in a directory with the feature's name.
pub proof fn law_probed_reviews_are_the_watched_ones(
    root: Seq<char>,
    state: Seq<char>,
    name: Seq<char>,
)
    requires
        root.len() > 0 || state.len() > 0,
        name.len() > 0,
        name != seq!['.'],
        name != seq!['.', '.'],
        forall|i: int| 0 <= i < name.len() ==> #[trigger] name[i] != '/',
    ensures
        path_name(review_under(root, state, name)) == Some("review.md"@),
        path_parent(review_under(root, state, name)) == Some(
            path_join(path_join(root, state), name),
        ),
        reviewed_feature(review_under(root, state, name)) == Some(name),
{
    reveal_strlit("review.md");
    let base = path_join(root, state);
    let dir = path_join(base, name);
    assert(base.len() > 0);
    law_name_of_join(base, name);
    assert(dir.last() == name.last());
    assert(name[name.len() - 1] != '/');
    if dir.last() == '.' && dir[dir.len() - 2] == '/' {
        if name.len() >= 2 {
            assert(dir[dir.len() - 2] == name[name.len() - 2]);
        }
        assert(name =~= seq!['.']);
    }
    assert("review.md"@.len() == 9);
    law_name_of_join(dir, "review.md"@);
    law_parent_of_join(dir, "review.md"@);
}

} // verus!
