//! Scheduling: which features are ready, which worker runs each, and what is
//! recorded of it.

use crate::artifact::{status_word, worker_status, Artifact, FeatureSpec, WorkerVerdict};
use crate::decimal::{decimal, decimal_text, is_digit, law_decimal_reads_back};
use crate::discovery::{DiscoveredFeature, FeatureView};
use crate::exit::{any_incomplete, has_id};
use crate::moment::Moment;
use crate::names::contains_text;
use crate::paths::{file_name, join, path_join, path_name};
use crate::text::{last_index, lemma_last_index_is, opt_text, same_text, views};
use crate::verdict::{parse_review_once, single_verdict, AeVerdict, ReviewRead};
use vstd::prelude::*;

pub mod effects;
pub mod git;
pub mod propagate;
pub mod rescue;
pub mod worktree;

pub use self::rescue::{prune_rescue_refs, GcRefsSummary};

verus! {

broadcast use vstd::string::group_string_axioms;

/// What became of one feature.
///
/// `verdict` is the judgment of the review: `pass`, `fail`, `missing` or
/// `unknown`. `worker_exit_status` says how the worker's process ended: `pass`,
/// `fail`, `timeout`, `cancelled`, `error` or `panic`.
#[derive(Debug)]
pub struct FeatureOutcome {
    pub feature_id: String,
    pub worker_identity: String,
    pub verdict: String,
    pub worker_exit_status: String,
    pub exit_code: i32,
    pub duration_ms: u128,
    pub stdout_path: String,
    pub drain_truncated: bool,
    pub error: Option<String>,
    /// The ref under which the worker's commits were kept, if one was written.
    pub rescue_ref: Option<String>,
}

/// What became of the features of one cycle.
#[derive(Debug)]
pub struct DispatchReport {
    pub started_at_ms: u64,
    pub elapsed_ms: u128,
    pub dispatched_count: usize,
    pub outcomes: Vec<FeatureOutcome>,
}

/// An outcome as a mathematical value.
pub struct OutcomeView {
    pub feature_id: Seq<char>,
    pub worker_identity: Seq<char>,
    pub verdict: Seq<char>,
    pub worker_exit_status: Seq<char>,
    pub exit_code: int,
    pub duration_ms: nat,
    pub stdout_path: Seq<char>,
    pub drain_truncated: bool,
    pub error: Option<Seq<char>>,
    pub rescue_ref: Option<Seq<char>>,
}

/// A report as a mathematical value.
pub struct ReportView {
    pub started_at_ms: nat,
    pub elapsed_ms: nat,
    pub dispatched_count: nat,
    pub outcomes: Seq<OutcomeView>,
}

impl View for FeatureOutcome {
    type V = OutcomeView;

    open spec fn view(&self) -> OutcomeView {
        OutcomeView {
            feature_id: self.feature_id@,
            worker_identity: self.worker_identity@,
            verdict: self.verdict@,
            worker_exit_status: self.worker_exit_status@,
            exit_code: self.exit_code as int,
            duration_ms: self.duration_ms as nat,
            stdout_path: self.stdout_path@,
            drain_truncated: self.drain_truncated,
            error: opt_text(self.error),
            rescue_ref: opt_text(self.rescue_ref),
        }
    }
}

impl View for DispatchReport {
    type V = ReportView;

    open spec fn view(&self) -> ReportView {
        ReportView {
            started_at_ms: self.started_at_ms as nat,
            elapsed_ms: self.elapsed_ms as nat,
            dispatched_count: self.dispatched_count as nat,
            outcomes: views(self.outcomes@),
        }
    }
}

/// Whether some feature of `all` has this id and is done.
pub open spec fn has_done(all: Seq<FeatureView>, id: Seq<char>) -> bool {
    exists|i: int| 0 <= i < all.len() && (#[trigger] all[i]).done() && all[i].id == id
}

/// A feature is ready when it is not done and all that it depends on are.
pub open spec fn is_ready(all: Seq<FeatureView>, f: FeatureView) -> bool {
    &&& !f.done()
    &&& forall|i: int| 0 <= i < f.depends_on.len() ==> has_done(all, #[trigger] f.depends_on[i])
}

/// The ready features of a graph, in its order.
pub open spec fn ready_features(all: Seq<FeatureView>) -> Seq<FeatureView> {
    all.filter(|f: FeatureView| is_ready(all, f))
}

fn done_ids(features: &Vec<DiscoveredFeature>) -> (r: Vec<String>)
    ensures
        forall|id: Seq<char>|
            #![trigger views(r@).contains(id)]
            #![trigger has_done(views(features@), id)]
            views(r@).contains(id) <==> has_done(views(features@), id),
{
    let mut out: Vec<String> = Vec::new();
    let ghost all = views(features@);
    let mut i: usize = 0;
    while i < features.len()
        invariant
            all == views(features@),
            i <= features.len(),
            forall|id: Seq<char>|
                #![trigger views(out@).contains(id)]
                #![trigger has_done(all.take(i as int), id)]
                views(out@).contains(id) <==> has_done(all.take(i as int), id),
        decreases features.len() - i,
    {
        let ghost before = views(out@);
        let ghost seen = all.take(i as int);
        let ghost now = all.take(i + 1);
        proof {
            assert(now =~= seen.push(features@[i as int]@));
            assert forall|id: Seq<char>| #[trigger] has_done(now, id) <==> (has_done(seen, id) || (
            all[i as int].done() && all[i as int].id == id)) by {
                if has_done(seen, id) {
                    let k = choose|k: int| 0 <= k < seen.len() && (#[trigger] seen[k]).done()
                        && seen[k].id == id;
                    assert(now[k].done() && now[k].id == id);
                }
                if has_done(now, id) {
                    let k = choose|k: int| 0 <= k < now.len() && (#[trigger] now[k]).done()
                        && now[k].id == id;
                    if k < i {
                        assert(seen[k].done() && seen[k].id == id);
                    }
                }
                if all[i as int].done() && all[i as int].id == id {
                    assert(now[i as int].done());
                }
            }
        }
        if features[i].is_done() {
            out.push(features[i].id.clone());
            proof {
                assert(views(out@) =~= before.push(all[i as int].id));
                assert forall|id: Seq<char>| #[trigger]
                    views(out@).contains(id) <==> (before.contains(id) || id == all[i as int].id) by {
                    if before.contains(id) {
                        let k = choose|k: int| 0 <= k < before.len() && before[k] == id;
                        assert(views(out@)[k] == id);
                    }
                    if id == all[i as int].id {
                        assert(views(out@)[before.len() as int] == id);
                    }
                }
            }
        }
        i = i + 1;
    }
    proof {
        assert(all.take(i as int) =~= all);
    }
    out
}

fn all_among(wanted: &Vec<String>, held: &Vec<String>) -> (r: bool)
    ensures
        r == (forall|i: int|
            0 <= i < views(wanted@).len() ==> views(held@).contains(#[trigger] views(wanted@)[i])),
{
    let mut k: usize = 0;
    while k < wanted.len()
        invariant
            k <= wanted.len(),
            forall|i: int| 0 <= i < k ==> views(held@).contains(#[trigger] views(wanted@)[i]),
        decreases wanted.len() - k,
    {
        if !contains_text(held, &wanted[k]) {
            proof {
                assert(!views(held@).contains(views(wanted@)[k as int]));
            }
            return false;
        }
        k = k + 1;
    }
    true
}

/// The features that can be dispatched now.
pub fn ready_set(features: &Vec<DiscoveredFeature>) -> (r: Vec<DiscoveredFeature>)
    ensures
        views(r@) == ready_features(views(features@)),
{
    let ghost all = views(features@);
    let ghost ready = |f: FeatureView| is_ready(all, f);
    let done = done_ids(features);
    let mut out: Vec<DiscoveredFeature> = Vec::new();
    let mut i: usize = 0;
    proof {
        reveal(Seq::filter);
        assert(views(out@) =~= all.take(0).filter(ready));
    }
    while i < features.len()
        invariant
            all == views(features@),
            ready == |f: FeatureView| is_ready(all, f),
            forall|id: Seq<char>| #[trigger]
                views(done@).contains(id) <==> has_done(all, id),
            i <= features.len(),
            views(out@) == all.take(i as int).filter(ready),
        decreases features.len() - i,
    {
        let f = &features[i];
        let ghost before = views(out@);
        let ok = !f.is_done() && all_among(&f.depends_on, &done);
        proof {
            assert(all.take(i + 1) =~= all.take(i as int).push(f@));
            all.take(i as int).lemma_filter_push(f@, ready);
            assert forall|k: int| 0 <= k < f@.depends_on.len() implies has_done(
                all,
                #[trigger] f@.depends_on[k],
            ) == views(done@).contains(f@.depends_on[k]) by {}
            assert(ok == is_ready(all, f@));
        }
        if ok {
            out.push(f.clone());
            proof {
                assert(views(out@) =~= before.push(f@));
            }
        }
        i = i + 1;
    }
    proof {
        assert(all.take(i as int) =~= all);
    }
    out
}

/// No feature is ready twice over or out of place: what is ready is part of the
/// graph, not done, and has every dependency done.
pub proof fn law_ready_is_sound(all: Seq<FeatureView>, i: int)
    requires
        0 <= i < ready_features(all).len(),
    ensures
        is_ready(all, ready_features(all)[i]),
        all.contains(ready_features(all)[i]),
        !ready_features(all)[i].done(),
{
    let ready = |f: FeatureView| is_ready(all, f);
    all.lemma_filter_pred(ready, i);
    all.lemma_filter_contains_rev(ready, all.filter(ready)[i]);
}

/// Every feature of the graph that is ready is in the ready set.
pub proof fn law_ready_is_complete(all: Seq<FeatureView>, i: int)
    requires
        0 <= i < all.len(),
        is_ready(all, all[i]),
    ensures
        ready_features(all).contains(all[i]),
{
    all.lemma_filter_contains(|f: FeatureView| is_ready(all, f), i);
}

/// Whether a graph holds all that its features depend on, and a feature ranks above
/// what it depends on: then no feature depends on itself by any detour.
pub open spec fn is_ranked(all: Seq<FeatureView>, rank: spec_fn(Seq<char>) -> nat) -> bool {
    forall|i: int, k: int|
        0 <= i < all.len() && 0 <= k < all[i].depends_on.len() ==> {
            &&& has_id(all, #[trigger] all[i].depends_on[k])
            &&& rank(all[i].depends_on[k]) < rank(all[i].id)
        }
}

proof fn lemma_ready_below(all: Seq<FeatureView>, rank: spec_fn(Seq<char>) -> nat, i: int)
    requires
        is_ranked(all, rank),
        0 <= i < all.len(),
        !all[i].done(),
    ensures
        ready_features(all).len() > 0,
    decreases rank(all[i].id),
{
    if is_ready(all, all[i]) {
        law_ready_is_complete(all, i);
    } else {
        let k = choose|k: int|
            0 <= k < all[i].depends_on.len() && !has_done(all, #[trigger] all[i].depends_on[k]);
        let j = choose|j: int| 0 <= j < all.len() && (#[trigger] all[j]).id == all[i].depends_on[k];
        assert(rank(all[i].depends_on[k]) < rank(all[i].id));
        lemma_ready_below(all, rank, j);
    }
}

/// A graph without cycles is never stuck: as long as some feature is not done, some
/// feature is ready.
pub proof fn law_acyclic_graph_has_a_ready_feature(
    all: Seq<FeatureView>,
    rank: spec_fn(Seq<char>) -> nat,
)
    requires
        any_incomplete(all),
        is_ranked(all, rank),
    ensures
        ready_features(all).len() > 0,
{
    let i = choose|i: int| 0 <= i < all.len() && !(#[trigger] all[i]).done();
    lemma_ready_below(all, rank, i);
}

/// Whether no two features have one id.
pub open spec fn has_distinct_ids(all: Seq<FeatureView>) -> bool {
    forall|i: int, j: int|
        0 <= i < j < all.len() ==> (#[trigger] all[i]).id != (#[trigger] all[j]).id
}

proof fn lemma_filter_keeps_distinct(all: Seq<FeatureView>, keep: spec_fn(FeatureView) -> bool)
    requires
        has_distinct_ids(all),
    ensures
        has_distinct_ids(all.filter(keep)),
    decreases all.len(),
{
    reveal(Seq::filter);
    if all.len() > 0 {
        let t = all.drop_last();
        lemma_filter_keeps_distinct(t, keep);
        let kept = all.filter(keep);
        let before = t.filter(keep);
        assert forall|i: int, j: int| 0 <= i < j < kept.len() implies (#[trigger] kept[i]).id != (
        #[trigger] kept[j]).id by {
            assert(kept[i] == before[i]);
            if j < before.len() {
                assert(kept[j] == before[j]);
            } else {
                t.lemma_filter_contains_rev(keep, before[i]);
                let m = choose|m: int| 0 <= m < t.len() && t[m] == before[i];
                assert(all[m] == t[m]);
                assert(kept[j] == all[all.len() - 1]);
            }
        }
    }
}

/// No feature is in the ready set twice, as long as ids are not shared.
pub proof fn law_ready_features_are_distinct(all: Seq<FeatureView>)
    requires
        has_distinct_ids(all),
    ensures
        has_distinct_ids(ready_features(all)),
{
    lemma_filter_keeps_distinct(all, |f: FeatureView| is_ready(all, f));
}

/// A feature of the archive, with the verdict of the review that lies beside it.
#[derive(Debug)]
pub struct ArchivedFeature {
    pub feature: DiscoveredFeature,
    pub review: Option<AeVerdict>,
}

/// An archived feature as a mathematical value.
pub struct ArchivedView {
    pub feature: FeatureView,
    pub review: Option<AeVerdict>,
}

impl View for ArchivedFeature {
    type V = ArchivedView;

    open spec fn view(&self) -> ArchivedView {
        ArchivedView { feature: self.feature@, review: self.review }
    }
}

/// Whether an active feature with this id is not done.
pub open spec fn live_in(active: Seq<FeatureView>, id: Seq<char>) -> bool {
    exists|i: int| 0 <= i < active.len() && !(#[trigger] active[i]).done() && active[i].id == id
}

/// Whether any archived copy of this id has a failing review.
pub open spec fn failed_in(archive: Seq<ArchivedView>, id: Seq<char>) -> bool {
    exists|i: int|
        0 <= i < archive.len() && (#[trigger] archive[i]).review == Some(AeVerdict::Fail)
            && archive[i].feature.id == id
}

/// Whether an archived feature counts as done: its id is not live, and no copy of
/// it was archived with a failing review.
pub open spec fn is_credited(
    active: Seq<FeatureView>,
    archive: Seq<ArchivedView>,
    f: FeatureView,
) -> bool {
    !live_in(active, f.id) && !failed_in(archive, f.id)
}

pub open spec fn archived_features(archive: Seq<ArchivedView>) -> Seq<FeatureView> {
    Seq::new(archive.len(), |i: int| archive[i].feature)
}

/// The graph that is scheduled: the active features, then each archived one that
/// counts as done.
pub open spec fn credited_view(
    active: Seq<FeatureView>,
    archive: Seq<ArchivedView>,
) -> Seq<FeatureView> {
    active + archived_features(archive).filter(|f: FeatureView| is_credited(active, archive, f))
}

fn is_live(active: &Vec<DiscoveredFeature>, id: &str) -> (r: bool)
    ensures
        r == live_in(views(active@), id@),
{
    let ghost all = views(active@);
    let mut i: usize = 0;
    while i < active.len()
        invariant
            all == views(active@),
            i <= active.len(),
            forall|j: int| 0 <= j < i ==> (#[trigger] all[j]).done() || all[j].id != id@,
        decreases active.len() - i,
    {
        proof {
            assert(all[i as int] == active@[i as int]@);
        }
        if !active[i].is_done() && same_text(&active[i].id, id) {
            return true;
        }
        i = i + 1;
    }
    false
}

fn is_failed(archive: &Vec<ArchivedFeature>, id: &str) -> (r: bool)
    ensures
        r == failed_in(views(archive@), id@),
{
    let ghost all = views(archive@);
    let mut i: usize = 0;
    while i < archive.len()
        invariant
            all == views(archive@),
            i <= archive.len(),
            forall|j: int|
                0 <= j < i ==> (#[trigger] all[j]).review != Some(AeVerdict::Fail)
                    || all[j].feature.id != id@,
        decreases archive.len() - i,
    {
        proof {
            assert(all[i as int] == archive@[i as int]@);
        }
        let fail = match archive[i].review {
            Some(AeVerdict::Fail) => true,
            _ => false,
        };
        if fail && same_text(&archive[i].feature.id, id) {
            return true;
        }
        i = i + 1;
    }
    false
}

/// Extends the active features by the archived ones that count as done. Where
/// the archive could not be read (`None`), nothing is credited.
pub fn done_credited_view(
    active: Vec<DiscoveredFeature>,
    archive: Option<Vec<ArchivedFeature>>,
) -> (r: Vec<DiscoveredFeature>)
    ensures
        match archive {
            Some(a) => views(r@) == credited_view(views(active@), views(a@)),
            None => views(r@) == views(active@),
        },
{
    let done = match archive {
        Some(a) => a,
        None => {
            return active;
        },
    };
    let ghost live = views(active@);
    let ghost kept = views(done@);
    let ghost all = archived_features(kept);
    let ghost credited = |f: FeatureView| is_credited(live, kept, f);
    let mut extra: Vec<DiscoveredFeature> = Vec::new();
    let mut i: usize = 0;
    proof {
        reveal(Seq::filter);
        assert(views(extra@) =~= all.take(0).filter(credited));
    }
    while i < done.len()
        invariant
            live == views(active@),
            kept == views(done@),
            all == archived_features(kept),
            credited == |f: FeatureView| is_credited(live, kept, f),
            i <= done.len(),
            views(extra@) == all.take(i as int).filter(credited),
        decreases done.len() - i,
    {
        let d = &done[i];
        let ghost before = views(extra@);
        proof {
            assert(all.take(i + 1) =~= all.take(i as int).push(d.feature@));
            all.take(i as int).lemma_filter_push(d.feature@, credited);
        }
        if !is_live(&active, &d.feature.id) && !is_failed(&done, &d.feature.id) {
            extra.push(d.feature.clone());
            proof {
                assert(views(extra@) =~= before.push(d.feature@));
            }
        }
        i = i + 1;
    }
    proof {
        assert(all.take(i as int) =~= all);
    }
    let ghost tail = views(extra@);
    let mut view = active;
    view.append(&mut extra);
    proof {
        assert(views(view@) =~= live + tail);
    }
    view
}

/// Crediting the archive dispatches nothing from it: a feature that is ready in
/// the credited graph is an active one, as long as archived features are done.
pub proof fn law_archive_is_never_dispatched(
    active: Seq<FeatureView>,
    archive: Seq<ArchivedView>,
    i: int,
)
    requires
        forall|k: int| 0 <= k < archive.len() ==> (#[trigger] archive[k]).feature.done(),
        0 <= i < ready_features(credited_view(active, archive)).len(),
    ensures
        active.contains(ready_features(credited_view(active, archive))[i]),
{
    let view = credited_view(active, archive);
    let keep = |f: FeatureView| is_credited(active, archive, f);
    let extra = archived_features(archive).filter(keep);
    law_ready_is_sound(view, i);
    let f = ready_features(view)[i];
    let k = choose|k: int| 0 <= k < view.len() && view[k] == f;
    if k >= active.len() {
        assert(extra[k - active.len()] == f);
        archived_features(archive).lemma_filter_contains_rev(keep, extra[k - active.len()]);
        let m = choose|m: int|
            0 <= m < archived_features(archive).len() && archived_features(archive)[m] == f;
        assert(archive[m].feature == f);
    } else {
        assert(active[k] == f);
    }
}

/// An empty archive changes nothing.
pub proof fn law_empty_archive_is_inert(active: Seq<FeatureView>)
    ensures
        credited_view(active, Seq::empty()) == active,
{
    reveal(Seq::filter);
    assert(archived_features(Seq::empty()) =~= Seq::empty());
    assert(credited_view(active, Seq::empty()) =~= active);
}

/// An id that has a failing review in the archive, or that is live, is credited by
/// no archived copy: it counts as done only if an active feature with that id does.
pub proof fn law_no_credit_for_failed_or_live(
    active: Seq<FeatureView>,
    archive: Seq<ArchivedView>,
    id: Seq<char>,
)
    requires
        failed_in(archive, id) || live_in(active, id),
    ensures
        has_done(credited_view(active, archive), id) ==> has_done(active, id),
{
    let view = credited_view(active, archive);
    let keep = |f: FeatureView| is_credited(active, archive, f);
    let extra = archived_features(archive).filter(keep);
    if has_done(view, id) {
        let k = choose|k: int| 0 <= k < view.len() && (#[trigger] view[k]).done() && view[k].id
            == id;
        if k < active.len() {
            assert(active[k].done() && active[k].id == id);
        } else {
            archived_features(archive).lemma_filter_pred(keep, k - active.len());
            assert(keep(extra[k - active.len()]));
            assert(extra[k - active.len()] == view[k]);
        }
    }
}

/// An archived feature with neither mark against its id is credited.
pub proof fn law_clean_archive_is_credited(
    active: Seq<FeatureView>,
    archive: Seq<ArchivedView>,
    i: int,
)
    requires
        0 <= i < archive.len(),
        archive[i].feature.done(),
        !failed_in(archive, archive[i].feature.id),
        !live_in(active, archive[i].feature.id),
    ensures
        has_done(credited_view(active, archive), archive[i].feature.id),
{
    let keep = |f: FeatureView| is_credited(active, archive, f);
    let all = archived_features(archive);
    all.lemma_filter_contains(keep, i);
    let extra = all.filter(keep);
    let k = choose|k: int| 0 <= k < extra.len() && extra[k] == all[i];
    let view = credited_view(active, archive);
    assert(view[active.len() + k] == all[i]);
    assert(view[active.len() + k].done());
}

/// One feature with the worker that is to run it.
#[derive(Debug)]
pub struct DispatchSlot {
    pub feature: DiscoveredFeature,
    /// Index of the worker in the pool.
    pub worker: usize,
    pub worker_identity: String,
}

/// A slot as a mathematical value.
pub struct SlotView {
    pub feature: FeatureView,
    pub worker: int,
    pub worker_identity: Seq<char>,
}

impl View for DispatchSlot {
    type V = SlotView;

    open spec fn view(&self) -> SlotView {
        SlotView {
            feature: self.feature@,
            worker: self.worker as int,
            worker_identity: self.worker_identity@,
        }
    }
}

/// The name under which the `i`-th feature of a cycle runs.
pub open spec fn identity_of(id: Seq<char>, i: int) -> Seq<char> {
    id + "-w"@ + decimal(i as nat)
}

/// The ready features, given to the workers in turn; nothing without workers.
pub open spec fn planned(all: Seq<FeatureView>, workers: int) -> Seq<SlotView> {
    let ready = ready_features(all);
    if workers <= 0 {
        Seq::empty()
    } else {
        Seq::new(
            ready.len(),
            |i: int|
                SlotView {
                    feature: ready[i],
                    worker: i % workers,
                    worker_identity: identity_of(ready[i].id, i),
                },
        )
    }
}

/// The slots of a dispatch cycle.
pub fn plan_dispatch(features: &Vec<DiscoveredFeature>, workers: usize) -> (r: Vec<DispatchSlot>)
    ensures
        views(r@) == planned(views(features@), workers as int),
{
    let mut out: Vec<DispatchSlot> = Vec::new();
    if workers == 0 {
        proof {
            assert(views(out@) =~= planned(views(features@), 0));
        }
        return out;
    }
    let ready = ready_set(features);
    let ghost all = views(ready@);
    let mut i: usize = 0;
    while i < ready.len()
        invariant
            workers > 0,
            all == views(ready@),
            i <= ready.len(),
            out@.len() == i,
            forall|j: int|
                0 <= j < i ==> (#[trigger] out@[j])@ == (SlotView {
                    feature: all[j],
                    worker: j % (workers as int),
                    worker_identity: identity_of(all[j].id, j),
                }),
        decreases ready.len() - i,
    {
        let mut worker_identity = ready[i].id.clone();
        worker_identity.append("-w");
        worker_identity.append(&decimal_text(i as u128));
        let slot = DispatchSlot {
            feature: ready[i].clone(),
            worker: i % workers,
            worker_identity,
        };
        proof {
            assert(all[i as int] == ready@[i as int]@);
        }
        out.push(slot);
        i = i + 1;
    }
    proof {
        assert(views(out@) =~= planned(views(features@), workers as int));
    }
    out
}

/// No two features of a cycle run under the same name.
pub proof fn law_identities_differ(id1: Seq<char>, i: int, id2: Seq<char>, j: int)
    requires
        0 <= i,
        0 <= j,
        i != j,
    ensures
        identity_of(id1, i) != identity_of(id2, j),
{
    let a = identity_of(id1, i);
    let b = identity_of(id2, j);
    lemma_identity_ends(id1, i);
    lemma_identity_ends(id2, j);
    if a == b {
        assert(id1.len() == id2.len());
        assert(decimal(i as nat) == decimal(j as nat));
        law_decimal_reads_back(i as nat);
        law_decimal_reads_back(j as nat);
    }
}

proof fn lemma_identity_ends(id: Seq<char>, i: int)
    requires
        0 <= i,
    ensures
        last_index(identity_of(id, i), 'w') == id.len() + 1,
        identity_of(id, i).skip(id.len() as int + 2) == decimal(i as nat),
{
    reveal_strlit("-w");
    let s = identity_of(id, i);
    let digits = decimal(i as nat);
    law_decimal_reads_back(i as nat);
    assert(s[id.len() as int + 1] == 'w');
    assert forall|k: int| id.len() + 1 < k < s.len() implies s[k] != 'w' by {
        assert(s[k] == digits[k - id.len() - 2]);
        assert(is_digit(digits[k - id.len() - 2]));
    }
    lemma_last_index_is(s, 'w', id.len() as int + 1);
    assert(s.skip(id.len() as int + 2) =~= digits);
}

/// How many features run at once: at least one.
pub fn permits(max_parallel: usize) -> (r: usize)
    ensures
        r == (if max_parallel == 0 {
            1
        } else {
            max_parallel as int
        }),
{
    if max_parallel == 0 {
        1
    } else {
        max_parallel
    }
}

/// How the task of one slot ended.
#[derive(Debug)]
pub enum TaskResult {
    Finished(FeatureOutcome),
    /// The task returned an error.
    Failed(String),
    /// The task panicked or was aborted.
    Panicked(String),
}

/// The outcome that stands for a task which has none of its own.
pub open spec fn lost_outcome(status: Seq<char>, error: Seq<char>) -> OutcomeView {
    OutcomeView {
        feature_id: "<unknown>"@,
        worker_identity: "<unknown>"@,
        verdict: "unknown"@,
        worker_exit_status: status,
        exit_code: -1,
        duration_ms: 0,
        stdout_path: Seq::empty(),
        drain_truncated: false,
        error: Some(error),
        rescue_ref: None,
    }
}

pub open spec fn task_outcome(t: TaskResult) -> OutcomeView {
    match t {
        TaskResult::Finished(o) => o@,
        TaskResult::Failed(e) => lost_outcome("error"@, e@),
        TaskResult::Panicked(e) => lost_outcome("panic"@, e@),
    }
}

fn lost(status: &str, error: String) -> (r: FeatureOutcome)
    ensures
        r@ == lost_outcome(status@, error@),
{
    FeatureOutcome {
        feature_id: "<unknown>".to_owned(),
        worker_identity: "<unknown>".to_owned(),
        verdict: "unknown".to_owned(),
        worker_exit_status: status.to_owned(),
        exit_code: -1,
        duration_ms: 0,
        stdout_path: String::new(),
        drain_truncated: false,
        error: Some(error),
        rescue_ref: None,
    }
}

/// The report of a cycle: one outcome for each task, in order.
pub fn collect_report(
    started_at_ms: u64,
    elapsed_ms: u128,
    results: Vec<TaskResult>,
) -> (r: DispatchReport)
    ensures
        r.started_at_ms == started_at_ms,
        r.elapsed_ms == elapsed_ms,
        r.dispatched_count == results@.len(),
        views(r.outcomes@) == Seq::new(results@.len(), |i: int| task_outcome(results@[i])),
{
    let ghost all = results@;
    let mut outcomes: Vec<FeatureOutcome> = Vec::new();
    for result in it: results
        invariant
            it.seq() == all,
            outcomes@.len() == it.index(),
            forall|j: int|
                0 <= j < outcomes@.len() ==> (#[trigger] outcomes@[j])@ == task_outcome(all[j]),
    {
        let outcome = match result {
            TaskResult::Finished(o) => o,
            TaskResult::Failed(e) => lost("error", e),
            TaskResult::Panicked(e) => lost("panic", e),
        };
        outcomes.push(outcome);
    }
    let dispatched_count = outcomes.len();
    proof {
        assert(views(outcomes@) =~= Seq::new(all.len(), |i: int| task_outcome(all[i])));
    }
    DispatchReport { started_at_ms, elapsed_ms, dispatched_count, outcomes }
}

/// The verdict recorded where no review came to one. `clean` says that the
/// worker's process passed; `unix`, that a worker's review can reach the main
/// tree at all. A clean worker without a review is an incomplete run.
pub open spec fn verdict_without_review(unix: bool, clean: bool) -> Seq<char> {
    if unix && clean {
        "missing"@
    } else {
        "unknown"@
    }
}

pub fn no_review_verdict(unix: bool, clean: bool) -> (r: &'static str)
    ensures
        r@ == verdict_without_review(unix, clean),
{
    if unix && clean {
        "missing"
    } else {
        "unknown"
    }
}

pub fn artifact_worker_status_str(a: &Artifact) -> (r: String)
    ensures
        r@ == status_word(a.verdict),
{
    worker_status(a.verdict).to_owned()
}

/// A place where the review of a feature may have landed.
#[derive(Debug)]
pub struct Probe {
    pub path: String,
    /// Only a review written during this dispatch counts here.
    pub fresh_only: bool,
}

/// A probe as a mathematical value.
pub struct ProbeView {
    pub path: Seq<char>,
    pub fresh_only: bool,
}

impl View for Probe {
    type V = ProbeView;

    open spec fn view(&self) -> ProbeView {
        ProbeView { path: self.path@, fresh_only: self.fresh_only }
    }
}

/// `review.md` of the feature directory `name` under `root`'s directory `state`.
pub open spec fn review_under(root: Seq<char>, state: Seq<char>, name: Seq<char>) -> Seq<char> {
    path_join(path_join(path_join(root, state), name), "review.md"@)
}

/// Where the review of a feature is looked for, in order: beside the feature; in
/// the worktree, active and then archived; last in the archive of the main tree,
/// which outlives a dispatch, so that only a fresh review counts there. Without a
/// name of its own the feature's directory has the first place only.
pub open spec fn probe_order(
    feature_dir: Seq<char>,
    worktree: Option<Seq<char>>,
    workspace: Seq<char>,
) -> Seq<ProbeView> {
    let beside = seq![ProbeView { path: path_join(feature_dir, "review.md"@), fresh_only: false }];
    match path_name(feature_dir) {
        None => beside,
        Some(name) => {
            let inside = match worktree {
                None => Seq::empty(),
                Some(wt) => seq![
                    ProbeView {
                        path: review_under(wt, ".ae/features/active"@, name),
                        fresh_only: false,
                    },
                    ProbeView {
                        path: review_under(wt, ".ae/features/done"@, name),
                        fresh_only: false,
                    },
                ],
            };
            beside + inside + seq![
                ProbeView {
                    path: review_under(workspace, ".ae/features/done"@, name),
                    fresh_only: true,
                },
            ]
        },
    }
}

fn review_path_under(root: &str, state: &str, name: &str) -> (r: String)
    ensures
        r@ == review_under(root@, state@, name@),
{
    join(&join(&join(root, state), name), "review.md")
}

/// The places where the review of a feature may have landed.
pub fn verdict_probes(
    feature_dir: &str,
    worktree: &Option<String>,
    workspace: &str,
) -> (r: Vec<Probe>)
    ensures
        views(r@) == probe_order(feature_dir@, opt_text(*worktree), workspace@),
{
    let mut out: Vec<Probe> = Vec::new();
    out.push(Probe { path: join(feature_dir, "review.md"), fresh_only: false });
    if let Some(name) = file_name(feature_dir) {
        if let Some(wt) = worktree {
            out.push(
                Probe {
                    path: review_path_under(wt, ".ae/features/active", &name),
                    fresh_only: false,
                },
            );
            out.push(
                Probe {
                    path: review_path_under(wt, ".ae/features/done", &name),
                    fresh_only: false,
                },
            );
        }
        out.push(
            Probe {
                path: review_path_under(workspace, ".ae/features/done", &name),
                fresh_only: true,
            },
        );
    }
    proof {
        assert(views(out@) =~= probe_order(feature_dir@, opt_text(*worktree), workspace@));
    }
    out
}

/// What was found at a probe.
#[derive(Debug)]
pub struct ProbeRead {
    /// When the file was last written, where that could be told.
    pub modified: Option<Moment>,
    pub review: ReviewRead,
}

/// The verdict that one probe gives.
pub open spec fn probe_verdict(
    probe: ProbeView,
    read: ProbeRead,
    started: Moment,
) -> Option<AeVerdict> {
    let fresh = match read.modified {
        Some(at) => at.total() >= started.total(),
        None => false,
    };
    if probe.fresh_only && !fresh {
        None
    } else {
        single_verdict(read.review)
    }
}

/// The first verdict among the first `n` probes.
pub open spec fn first_verdict(
    probes: Seq<ProbeView>,
    reads: Seq<ProbeRead>,
    started: Moment,
    n: int,
) -> Option<AeVerdict>
    decreases n,
{
    if n <= 0 {
        None
    } else {
        match first_verdict(probes, reads, started, n - 1) {
            Some(v) => Some(v),
            None => probe_verdict(probes[n - 1], reads[n - 1], started),
        }
    }
}

/// The verdict of the first probe that gives one. `reads` holds what was found at
/// each probe, `dispatch_started` when the worker was about to start.
pub fn read_ae_verdict(
    probes: &Vec<Probe>,
    reads: &Vec<ProbeRead>,
    dispatch_started: Moment,
) -> (r: Option<AeVerdict>)
    requires
        probes@.len() == reads@.len(),
    ensures
        r == first_verdict(views(probes@), reads@, dispatch_started, probes@.len() as int),
{
    let ghost places = views(probes@);
    let mut found: Option<AeVerdict> = None;
    let mut i: usize = 0;
    while i < probes.len()
        invariant
            places == views(probes@),
            probes@.len() == reads@.len(),
            i <= probes.len(),
            found == first_verdict(places, reads@, dispatch_started, i as int),
        decreases probes.len() - i,
    {
        proof {
            assert(places[i as int] == probes@[i as int]@);
        }
        if found.is_none() {
            let fresh = match reads[i].modified {
                Some(at) => at.total_nanos() >= dispatch_started.total_nanos(),
                None => false,
            };
            if !probes[i].fresh_only || fresh {
                found = parse_review_once(&reads[i].review);
            }
        }
        i = i + 1;
    }
    found
}

/// A review that lay in the archive of the main tree before the dispatch began
/// gives no verdict, whatever it says: without another review there is none.
pub proof fn law_stale_review_never_heals(
    feature_dir: Seq<char>,
    worktree: Option<Seq<char>>,
    workspace: Seq<char>,
    reads: Seq<ProbeRead>,
    started: Moment,
)
    requires
        reads.len() == probe_order(feature_dir, worktree, workspace).len(),
        path_name(feature_dir) is Some,
        forall|i: int|
            0 <= i < reads.len() - 1 ==> single_verdict((#[trigger] reads[i]).review) is None,
        reads.last().modified matches Some(at) ==> at.total() < started.total(),
    ensures
        first_verdict(
            probe_order(feature_dir, worktree, workspace),
            reads,
            started,
            reads.len() as int,
        ) is None,
{
    let probes = probe_order(feature_dir, worktree, workspace);
    lemma_no_verdict(probes, reads, started, reads.len() - 1);
    assert(probes.last().fresh_only);
}

proof fn lemma_no_verdict(
    probes: Seq<ProbeView>,
    reads: Seq<ProbeRead>,
    started: Moment,
    n: int,
)
    requires
        0 <= n <= reads.len(),
        forall|i: int| 0 <= i < n ==> single_verdict((#[trigger] reads[i]).review) is None,
    ensures
        first_verdict(probes, reads, started, n) is None,
    decreases n,
{
    if n > 0 {
        lemma_no_verdict(probes, reads, started, n - 1);
        assert(single_verdict(reads[n - 1].review) is None);
    }
}

/// The word that stands for a worker's end in the name of a rescue ref.
pub open spec fn run_status(result: Result<WorkerVerdict, ()>) -> Seq<char> {
    match result {
        Ok(v) => status_word(v),
        Err(_) => "error"@,
    }
}

pub fn rescue_status(result: &Result<Artifact, String>) -> (r: &'static str)
    ensures
        r@ == run_status(
            match *result {
                Ok(a) => Ok(a.verdict),
                Err(_) => Err(()),
            },
        ),
{
    match result {
        Ok(a) => worker_status(a.verdict),
        Err(_) => "error",
    }
}

/// The verdict word of a worker that returned: that of its review, or what stands
/// for the lack of one.
pub open spec fn recorded_verdict(
    unix: bool,
    worker: WorkerVerdict,
    review: Option<AeVerdict>,
) -> Seq<char> {
    match review {
        Some(AeVerdict::Pass) => "pass"@,
        Some(AeVerdict::Fail) => "fail"@,
        None => verdict_without_review(unix, worker == WorkerVerdict::Pass),
    }
}

/// What one run of a worker is recorded as.
pub open spec fn recorded_outcome(
    feature_id: Seq<char>,
    worker_identity: Seq<char>,
    result: Result<Artifact, String>,
    review: Option<AeVerdict>,
    rescue_ref: Option<Seq<char>>,
    elapsed_ms: nat,
    unix: bool,
) -> OutcomeView {
    match result {
        Ok(a) => OutcomeView {
            feature_id,
            worker_identity,
            verdict: recorded_verdict(unix, a.verdict, review),
            worker_exit_status: status_word(a.verdict),
            exit_code: a.exit_code as int,
            duration_ms: (a.duration.total() / 1_000_000) as nat,
            stdout_path: a.stdout_path@,
            drain_truncated: a.drain_truncated,
            error: None,
            rescue_ref,
        },
        Err(e) => OutcomeView {
            feature_id,
            worker_identity,
            verdict: "unknown"@,
            worker_exit_status: "error"@,
            exit_code: -1,
            duration_ms: elapsed_ms,
            stdout_path: Seq::empty(),
            drain_truncated: false,
            error: Some(e@),
            rescue_ref,
        },
    }
}

/// Records what a worker returned, or the error that it ended in. `elapsed_ms` is
/// the time since the feature was taken up.
pub fn feature_outcome(
    feature_id: String,
    worker_identity: String,
    result: Result<Artifact, String>,
    review: Option<AeVerdict>,
    rescue_ref: Option<String>,
    elapsed_ms: u128,
    unix: bool,
) -> (r: FeatureOutcome)
    ensures
        r@ == recorded_outcome(
            feature_id@,
            worker_identity@,
            result,
            review,
            opt_text(rescue_ref),
            elapsed_ms as nat,
            unix,
        ),
{
    match result {
        Ok(artifact) => {
            let verdict = match review {
                Some(AeVerdict::Pass) => "pass".to_owned(),
                Some(AeVerdict::Fail) => "fail".to_owned(),
                None => no_review_verdict(unix, artifact.verdict == WorkerVerdict::Pass).to_owned(),
            };
            FeatureOutcome {
                feature_id,
                worker_identity,
                verdict,
                worker_exit_status: artifact_worker_status_str(&artifact),
                exit_code: artifact.exit_code,
                duration_ms: artifact.duration.as_millis(),
                stdout_path: artifact.stdout_path,
                drain_truncated: artifact.drain_truncated,
                error: None,
                rescue_ref,
            }
        },
        Err(e) => FeatureOutcome {
            feature_id,
            worker_identity,
            verdict: "unknown".to_owned(),
            worker_exit_status: "error".to_owned(),
            exit_code: -1,
            duration_ms: elapsed_ms,
            stdout_path: String::new(),
            drain_truncated: false,
            error: Some(e),
            rescue_ref,
        },
    }
}

/// Where a worker runs: in the worktree of its feature, or beside the feature if
/// there is none.
pub fn worker_spec(
    feature: &DiscoveredFeature,
    worktree: &Option<String>,
    worker_identity: &str,
) -> (r: FeatureSpec)
    ensures
        r.worker_identity@ == worker_identity@,
        r.feature_dir@ == (match opt_text(*worktree) {
            Some(path) => path,
            None => feature@.feature_dir,
        }),
{
    let feature_dir = match worktree {
        Some(path) => path.clone(),
        None => feature.feature_dir.clone(),
    };
    FeatureSpec { feature_dir, worker_identity: worker_identity.to_owned() }
}

/// One step in the run of a feature.
#[derive(Debug, Clone, Copy, PartialEq, Eq, Structural)]
pub enum FeatureStep {
    CreateWorktree,
    RunWorker,
    /// Keep the commits of the worktree under a ref.
    Propagate,
    ReadVerdict,
    RemoveWorktree,
    Record,
}

/// The step after `step`; `worktree` says whether a worktree was made.
pub open spec fn step_after(step: FeatureStep, worktree: bool) -> Option<FeatureStep> {
    match step {
        FeatureStep::CreateWorktree => Some(FeatureStep::RunWorker),
        FeatureStep::RunWorker => Some(
            if worktree {
                FeatureStep::Propagate
            } else {
                FeatureStep::ReadVerdict
            },
        ),
        FeatureStep::Propagate => Some(FeatureStep::ReadVerdict),
        FeatureStep::ReadVerdict => Some(
            if worktree {
                FeatureStep::RemoveWorktree
            } else {
                FeatureStep::Record
            },
        ),
        FeatureStep::RemoveWorktree => Some(FeatureStep::Record),
        FeatureStep::Record => None,
    }
}

pub fn next_step(step: FeatureStep, worktree: bool) -> (r: Option<FeatureStep>)
    ensures
        r == step_after(step, worktree),
{
    match step {
        FeatureStep::CreateWorktree => Some(FeatureStep::RunWorker),
        FeatureStep::RunWorker => if worktree {
            Some(FeatureStep::Propagate)
        } else {
            Some(FeatureStep::ReadVerdict)
        },
        FeatureStep::Propagate => Some(FeatureStep::ReadVerdict),
        FeatureStep::ReadVerdict => if worktree {
            Some(FeatureStep::RemoveWorktree)
        } else {
            Some(FeatureStep::Record)
        },
        FeatureStep::RemoveWorktree => Some(FeatureStep::Record),
        FeatureStep::Record => None,
    }
}

/// The steps of a feature's run, from `step` on.
pub open spec fn steps_from(step: FeatureStep, worktree: bool) -> Seq<FeatureStep>
    decreases
            (match step {
                FeatureStep::CreateWorktree => 5nat,
                FeatureStep::RunWorker => 4,
                FeatureStep::Propagate => 3,
                FeatureStep::ReadVerdict => 2,
                FeatureStep::RemoveWorktree => 1,
                FeatureStep::Record => 0,
            }),
{
    match step_after(step, worktree) {
        Some(next) => seq![step] + steps_from(next, worktree),
        None => seq![step],
    }
}

/// A worktree is removed only after its commits were kept and its review was read,
/// and the outcome is recorded last.
pub proof fn law_worktree_outlives_its_use(worktree: bool)
    ensures
        steps_from(FeatureStep::CreateWorktree, worktree) == (if worktree {
            seq![
                FeatureStep::CreateWorktree,
                FeatureStep::RunWorker,
                FeatureStep::Propagate,
                FeatureStep::ReadVerdict,
                FeatureStep::RemoveWorktree,
                FeatureStep::Record,
            ]
        } else {
            seq![
                FeatureStep::CreateWorktree,
                FeatureStep::RunWorker,
                FeatureStep::ReadVerdict,
                FeatureStep::Record,
            ]
        }),
{
    reveal_with_fuel(steps_from, 7);
    if worktree {
        assert(steps_from(FeatureStep::CreateWorktree, true) =~= seq![
            FeatureStep::CreateWorktree,
            FeatureStep::RunWorker,
            FeatureStep::Propagate,
            FeatureStep::ReadVerdict,
            FeatureStep::RemoveWorktree,
            FeatureStep::Record,
        ]);
    } else {
        assert(steps_from(FeatureStep::CreateWorktree, false) =~= seq![
            FeatureStep::CreateWorktree,
            FeatureStep::RunWorker,
            FeatureStep::ReadVerdict,
            FeatureStep::Record,
        ]);
    }
}

} // verus!
