//! The iteration controller: cycle after cycle it takes in the reviews, dispatches
//! what is ready, and decides whether to go on.

use crate::discovery::{DiscoveredFeature, FeatureView};
use crate::dispatch::{
    has_distinct_ids, has_done, is_ranked, is_ready, law_acyclic_graph_has_a_ready_feature,
    law_ready_features_are_distinct, law_ready_is_sound, planned, ready_features, DispatchReport,
    FeatureOutcome, OutcomeView, ReportView, SlotView,
};
use crate::exit::{
    any_failure, any_incomplete, exit_code, has_failure, has_id, has_incomplete, is_failure,
};
use crate::names::NameSet;
use crate::order::SortedMap;
use crate::paths::{file_name, path_name};
use crate::state::StatusSnapshot;
use crate::text::{same_text, views};
use crate::verdict::{AeVerdict, VerdictEvent};
use vstd::prelude::*;

pub mod effects;

verus! {

broadcast use vstd::string::group_string_axioms;

/// The features whose reviews have come to a verdict, by the names of their
/// directories.
pub struct Verdicts {
    pub pass: Set<Seq<char>>,
    pub fail: Set<Seq<char>>,
}

impl Verdicts {
    pub open spec fn has(self, name: Seq<char>) -> bool {
        self.pass.contains(name) || self.fail.contains(name)
    }

    /// The verdicts after a review of `name` came to `v`: the latest verdict of a
    /// feature is the one that counts.
    pub open spec fn with(self, name: Seq<char>, v: AeVerdict) -> Verdicts {
        match v {
            AeVerdict::Pass => Verdicts {
                pass: self.pass.insert(name),
                fail: self.fail.remove(name),
            },
            AeVerdict::Fail => Verdicts {
                pass: self.pass.remove(name),
                fail: self.fail.insert(name),
            },
        }
    }

    /// No feature both passed and failed.
    pub open spec fn consistent(self) -> bool {
        self.pass.disjoint(self.fail)
    }
}

pub open spec fn verdicts(pass: NameSet, fail: NameSet) -> Verdicts {
    Verdicts { pass: pass@, fail: fail@ }
}

/// Enters a verdict, in place of an opposite one.
pub fn apply_verdict(pass: &mut NameSet, fail: &mut NameSet, key: String, verdict: AeVerdict)
    requires
        old(pass).wf(),
        old(fail).wf(),
    ensures
        final(pass).wf(),
        final(fail).wf(),
        verdicts(*final(pass), *final(fail)) == verdicts(*old(pass), *old(fail)).with(key@, verdict),
{
    match verdict {
        AeVerdict::Pass => {
            fail.remove(&key);
            pass.insert(key);
        },
        AeVerdict::Fail => {
            pass.remove(&key);
            fail.insert(key);
        },
    }
}

/// A verdict keeps the sets apart, and is what its feature has afterwards.
pub proof fn law_latest_verdict_counts(v: Verdicts, name: Seq<char>, verdict: AeVerdict)
    requires
        v.consistent(),
    ensures
        v.with(name, verdict).consistent(),
        v.with(name, verdict).pass.contains(name) == (verdict == AeVerdict::Pass),
        v.with(name, verdict).fail.contains(name) == (verdict == AeVerdict::Fail),
        forall|other: Seq<char>| #[trigger]
            v.with(name, verdict).has(other) == (other == name || v.has(other)),
        forall|other: Seq<char>|
            other != name ==> (#[trigger] v.with(name, verdict).pass.contains(other)
                <==> v.pass.contains(other)),
        forall|other: Seq<char>|
            other != name ==> (#[trigger] v.with(name, verdict).fail.contains(other)
                <==> v.fail.contains(other)),
{
}

/// The verdicts after a list of events, in order.
pub open spec fn after_events(v: Verdicts, events: Seq<VerdictEvent>) -> Verdicts
    decreases events.len(),
{
    if events.len() == 0 {
        v
    } else {
        after_events(v, events.drop_last()).with(
            events.last().feature_id@,
            events.last().verdict,
        )
    }
}

/// The verdicts after the reviews of the first `n` features were read. A feature
/// that has a verdict keeps it, unless `again` says that it may be judged anew.
pub open spec fn after_scan(
    v: Verdicts,
    features: Seq<FeatureView>,
    reviews: Seq<Option<AeVerdict>>,
    n: int,
    again: bool,
) -> Verdicts
    decreases n,
{
    if n <= 0 {
        v
    } else {
        let before = after_scan(v, features, reviews, n - 1, again);
        match (path_name(features[n - 1].feature_dir), reviews[n - 1]) {
            (Some(name), Some(verdict)) => if !again && before.has(name) {
                before
            } else {
                before.with(name, verdict)
            },
            _ => before,
        }
    }
}

fn scan_reviews(
    pass: &mut NameSet,
    fail: &mut NameSet,
    features: &Vec<DiscoveredFeature>,
    reviews: &Vec<Option<AeVerdict>>,
    again: bool,
)
    requires
        old(pass).wf(),
        old(fail).wf(),
        features@.len() == reviews@.len(),
    ensures
        final(pass).wf(),
        final(fail).wf(),
        verdicts(*final(pass), *final(fail)) == after_scan(
            verdicts(*old(pass), *old(fail)),
            views(features@),
            reviews@,
            features@.len() as int,
            again,
        ),
{
    let ghost start = verdicts(*pass, *fail);
    let ghost all = views(features@);
    let mut i: usize = 0;
    while i < features.len()
        invariant
            all == views(features@),
            features@.len() == reviews@.len(),
            i <= features.len(),
            pass.wf(),
            fail.wf(),
            start == verdicts(*old(pass), *old(fail)),
            verdicts(*pass, *fail) == after_scan(start, all, reviews@, i as int, again),
        decreases features.len() - i,
    {
        proof {
            assert(all[i as int] == features@[i as int]@);
        }
        match (file_name(&features[i].feature_dir), reviews[i]) {
            (Some(name), Some(verdict)) => {
                if again || !(pass.contains(&name) || fail.contains(&name)) {
                    apply_verdict(pass, fail, name, verdict);
                }
            },
            _ => {},
        }
        i = i + 1;
    }
}

fn drain_events(pass: &mut NameSet, fail: &mut NameSet, events: &Vec<VerdictEvent>)
    requires
        old(pass).wf(),
        old(fail).wf(),
    ensures
        final(pass).wf(),
        final(fail).wf(),
        verdicts(*final(pass), *final(fail)) == after_events(
            verdicts(*old(pass), *old(fail)),
            events@,
        ),
{
    let ghost start = verdicts(*pass, *fail);
    let mut i: usize = 0;
    proof {
        assert(events@.take(0) =~= Seq::empty());
    }
    while i < events.len()
        invariant
            i <= events.len(),
            pass.wf(),
            fail.wf(),
            start == verdicts(*old(pass), *old(fail)),
            verdicts(*pass, *fail) == after_events(start, events@.take(i as int)),
        decreases events.len() - i,
    {
        proof {
            assert(events@.take(i + 1).drop_last() =~= events@.take(i as int));
        }
        apply_verdict(pass, fail, events[i].feature_id.clone(), events[i].verdict);
        i = i + 1;
    }
    proof {
        assert(events@.take(i as int) =~= events@);
    }
}

/// Takes in the reviews that lie on disk before the first cycle, so that a run that
/// is started again does not repeat what was already judged.
pub fn pre_populate_terminal_sets(
    features: &Vec<DiscoveredFeature>,
    reviews: &Vec<Option<AeVerdict>>,
    pass: &mut NameSet,
    fail: &mut NameSet,
)
    requires
        old(pass).wf(),
        old(fail).wf(),
        features@.len() == reviews@.len(),
    ensures
        final(pass).wf(),
        final(fail).wf(),
        verdicts(*final(pass), *final(fail)) == after_scan(
            verdicts(*old(pass), *old(fail)),
            views(features@),
            reviews@,
            features@.len() as int,
            true,
        ),
{
    scan_reviews(pass, fail, features, reviews, true);
}

/// A feature that passed its review is done, whatever its `index.md` says.
pub open spec fn marked(f: FeatureView, pass: Set<Seq<char>>) -> FeatureView {
    match path_name(f.feature_dir) {
        Some(name) => if pass.contains(name) {
            FeatureView { work_state: Some("done"@), ..f }
        } else {
            f
        },
        None => f,
    }
}

pub open spec fn marked_all(features: Seq<FeatureView>, pass: Set<Seq<char>>) -> Seq<FeatureView> {
    Seq::new(features.len(), |i: int| marked(features[i], pass))
}

/// Marks the features as done whose directories have passed their reviews.
pub fn mark_terminally_done(
    features: &Vec<DiscoveredFeature>,
    pass: &NameSet,
) -> (r: Vec<DiscoveredFeature>)
    ensures
        views(r@) == marked_all(views(features@), pass@),
{
    let mut out: Vec<DiscoveredFeature> = Vec::new();
    let mut i: usize = 0;
    while i < features.len()
        invariant
            i <= features.len(),
            out@.len() == i,
            forall|j: int| 0 <= j < i ==> (#[trigger] out@[j])@ == marked(features@[j]@, pass@),
        decreases features.len() - i,
    {
        let mut f = features[i].clone();
        let terminal = match file_name(&f.feature_dir) {
            Some(name) => pass.contains(&name),
            None => false,
        };
        if terminal {
            f.work_state = Some("done".to_owned());
        }
        out.push(f);
        i = i + 1;
    }
    proof {
        assert(views(out@) =~= marked_all(views(features@), pass@));
    }
    out
}

/// The work state of each feature, by its id; of features with one id the last
/// counts.
pub open spec fn work_states(features: Seq<FeatureView>) -> Map<Seq<char>, Seq<char>>
    decreases features.len(),
{
    if features.len() == 0 {
        Map::empty()
    } else {
        let f = features.last();
        work_states(features.drop_last()).insert(
            f.id,
            match f.work_state {
                Some(state) => state,
                None => "unknown"@,
            },
        )
    }
}

/// The texts that a map between texts holds.
pub open spec fn text_map(map: SortedMap<String>) -> Map<Seq<char>, Seq<char>> {
    map.as_map().map_values(|s: String| s@)
}

/// Whether a snapshot tells of this cycle, phase and graph.
pub open spec fn tells(
    s: StatusSnapshot,
    cycle: nat,
    phase: Seq<char>,
    features: Seq<FeatureView>,
) -> bool {
    &&& s.cycle == cycle
    &&& s.phase@ == phase
    &&& s.features.wf()
    &&& text_map(s.features) == work_states(features)
}

/// The snapshot of a cycle.
pub fn write_status(cycle: u64, phase: &str, features: &Vec<DiscoveredFeature>) -> (r:
    StatusSnapshot)
    ensures
        tells(r, cycle as nat, phase@, views(features@)),
{
    let ghost all = views(features@);
    let mut by_id: SortedMap<String> = SortedMap::new();
    let mut i: usize = 0;
    proof {
        assert(all.take(0) =~= Seq::empty());
        assert(text_map(by_id) =~= Map::empty());
    }
    while i < features.len()
        invariant
            all == views(features@),
            i <= features.len(),
            by_id.wf(),
            text_map(by_id) == work_states(all.take(i as int)),
        decreases features.len() - i,
    {
        let f = &features[i];
        let ghost before = by_id.as_map();
        let state = match &f.work_state {
            Some(s) => s.clone(),
            None => "unknown".to_owned(),
        };
        let ghost value = state;
        proof {
            assert(all.take(i + 1).drop_last() =~= all.take(i as int));
            assert(all.take(i + 1).last() == f@);
        }
        by_id.insert(f.id.clone(), state);
        proof {
            assert(text_map(by_id) =~= before.map_values(|s: String| s@).insert(f@.id, value@));
        }
        i = i + 1;
    }
    proof {
        assert(all.take(i as int) =~= all);
    }
    StatusSnapshot { phase: phase.to_owned(), cycle, features: by_id }
}

/// What is seen between two steps: the verdicts that the watcher reported, the
/// active features, and the verdict of each one's review as it lies on disk.
#[derive(Debug)]
pub struct Observation {
    pub events: Vec<VerdictEvent>,
    pub features: Vec<DiscoveredFeature>,
    pub reviews: Vec<Option<AeVerdict>>,
}

impl Observation {
    pub open spec fn wf(&self) -> bool {
        self.features@.len() == self.reviews@.len()
    }

    pub open spec fn graph(&self) -> Seq<FeatureView> {
        views(self.features@)
    }
}

/// The verdicts after an observation: first what the watcher reported, then the
/// reviews on disk of those that have no verdict yet.
pub open spec fn observed(v: Verdicts, o: Observation) -> Verdicts {
    after_scan(
        after_events(v, o.events@),
        o.graph(),
        o.reviews@,
        o.features@.len() as int,
        false,
    )
}

/// The ids without a review, after verdicts came in: the first `n` features are
/// struck out if their directories have one.
pub open spec fn healed(
    missing: Set<Seq<char>>,
    features: Seq<FeatureView>,
    v: Verdicts,
    n: int,
) -> Set<Seq<char>>
    decreases n,
{
    if n <= 0 {
        missing
    } else {
        let before = healed(missing, features, v, n - 1);
        match path_name(features[n - 1].feature_dir) {
            Some(name) => if v.has(name) {
                before.remove(features[n - 1].id)
            } else {
                before
            },
            None => before,
        }
    }
}

/// The ids without a review, after the first `n` outcomes: the latest outcome of a
/// feature says whether its review is missing.
pub open spec fn with_outcomes(
    missing: Set<Seq<char>>,
    outcomes: Seq<OutcomeView>,
    n: int,
) -> Set<Seq<char>>
    decreases n,
{
    if n <= 0 {
        missing
    } else {
        let before = with_outcomes(missing, outcomes, n - 1);
        let o = outcomes[n - 1];
        if o.verdict == "missing"@ {
            before.insert(o.feature_id)
        } else {
            before.remove(o.feature_id)
        }
    }
}

/// Where the loop stands.
#[derive(Debug)]
pub enum LoopStage {
    /// Between two cycles.
    Idle,
    /// A cycle has begun; an observation is due.
    Observing,
    /// These features are being dispatched.
    Dispatching(Vec<DiscoveredFeature>),
    /// The cycle has this report; another observation is due.
    Settling(DispatchReport),
    Stopped,
}

/// A stage as a mathematical value.
pub enum LoopStageView {
    Idle,
    Observing,
    Dispatching(Seq<FeatureView>),
    Settling(ReportView),
    Stopped,
}

impl View for LoopStage {
    type V = LoopStageView;

    open spec fn view(&self) -> LoopStageView {
        match *self {
            LoopStage::Idle => LoopStageView::Idle,
            LoopStage::Observing => LoopStageView::Observing,
            LoopStage::Dispatching(f) => LoopStageView::Dispatching(views(f@)),
            LoopStage::Settling(r) => LoopStageView::Settling(r@),
            LoopStage::Stopped => LoopStageView::Stopped,
        }
    }
}

/// The state of the loop.
#[derive(Debug)]
pub struct LoopState {
    pub stage: LoopStage,
    pub cycle: u64,
    pub terminal_pass: NameSet,
    pub terminal_fail: NameSet,
    /// Ids of the features whose reviews are missing.
    pub missing: NameSet,
    pub reports: Vec<DispatchReport>,
    pub ae_review_failed: bool,
    pub deps_stuck: bool,
}

/// The state of the loop as a mathematical value.
pub struct LoopView {
    pub stage: LoopStageView,
    pub cycle: nat,
    pub verdicts: Verdicts,
    pub missing: Set<Seq<char>>,
    pub reports: Seq<ReportView>,
    pub ae_review_failed: bool,
    pub deps_stuck: bool,
}

impl View for LoopState {
    type V = LoopView;

    open spec fn view(&self) -> LoopView {
        LoopView {
            stage: self.stage@,
            cycle: self.cycle as nat,
            verdicts: verdicts(self.terminal_pass, self.terminal_fail),
            missing: self.missing@,
            reports: views(self.reports@),
            ae_review_failed: self.ae_review_failed,
            deps_stuck: self.deps_stuck,
        }
    }
}

/// What has happened.
#[derive(Debug)]
pub enum LoopEvent {
    /// A cycle may begin, unless the run was cancelled.
    Begin { cancelled: bool },
    /// What was seen at the start of the cycle.
    Observed(Observation),
    /// The dispatch has ended.
    Dispatched(DispatchReport),
    /// What was seen after the dispatch.
    Settled(Observation),
}

/// What to do next.
#[derive(Debug)]
pub enum LoopAction {
    /// Drain the watcher, read the active features and their reviews.
    Observe,
    /// Write the status, then dispatch these features.
    Dispatch { status: StatusSnapshot, features: Vec<DiscoveredFeature> },
    /// Wait a moment, then begin the next cycle.
    Continue,
    /// Write these statuses, in order, and end the loop.
    Stop { statuses: Vec<StatusSnapshot> },
}

/// Whether `event` is one that the stage waits for.
pub open spec fn expects(stage: LoopStageView, event: LoopEvent) -> bool {
    match stage {
        LoopStageView::Idle => event is Begin,
        LoopStageView::Observing => event matches LoopEvent::Observed(o) && o.wf(),
        LoopStageView::Dispatching(_) => event is Dispatched,
        LoopStageView::Settling(_) => event matches LoopEvent::Settled(o) && o.wf(),
        LoopStageView::Stopped => false,
    }
}

/// The state after an event.
pub open spec fn loop_after(s: LoopView, event: LoopEvent) -> LoopView {
    match (s.stage, event) {
        (LoopStageView::Idle, LoopEvent::Begin { cancelled }) => if cancelled {
            LoopView { stage: LoopStageView::Stopped, ..s }
        } else {
            LoopView { stage: LoopStageView::Observing, cycle: s.cycle + 1, ..s }
        },
        (LoopStageView::Observing, LoopEvent::Observed(o)) => {
            let v = observed(s.verdicts, o);
            let effective = marked_all(o.graph(), v.pass);
            let rejected = v.fail != Set::<Seq<char>>::empty();
            LoopView {
                stage: if rejected || !any_incomplete(effective) {
                    LoopStageView::Stopped
                } else {
                    LoopStageView::Dispatching(effective)
                },
                verdicts: v,
                missing: healed(s.missing, o.graph(), v, o.graph().len() as int),
                ae_review_failed: s.ae_review_failed || rejected,
                ..s
            }
        },
        (LoopStageView::Dispatching(_), LoopEvent::Dispatched(report)) => if
            report.dispatched_count == 0 {
            LoopView {
                stage: LoopStageView::Stopped,
                reports: s.reports.push(report@),
                deps_stuck: true,
                ..s
            }
        } else {
            LoopView { stage: LoopStageView::Settling(report@), ..s }
        },
        (LoopStageView::Settling(report), LoopEvent::Settled(o)) => {
            let v = observed(s.verdicts, o);
            let rejected = v.fail != Set::<Seq<char>>::empty();
            LoopView {
                stage: if rejected || any_failure(report.outcomes) {
                    LoopStageView::Stopped
                } else {
                    LoopStageView::Idle
                },
                verdicts: v,
                missing: healed(
                    with_outcomes(s.missing, report.outcomes, report.outcomes.len() as int),
                    o.graph(),
                    v,
                    o.graph().len() as int,
                ),
                reports: s.reports.push(report),
                ae_review_failed: s.ae_review_failed || rejected,
                ..s
            }
        },
        _ => s,
    }
}

/// Whether `action` is what follows an event.
pub open spec fn action_after(s: LoopView, event: LoopEvent, action: LoopAction) -> bool {
    match (s.stage, event) {
        (LoopStageView::Idle, LoopEvent::Begin { cancelled }) => if cancelled {
            action matches LoopAction::Stop { statuses } && statuses@.len() == 0
        } else {
            action is Observe
        },
        (LoopStageView::Observing, LoopEvent::Observed(o)) => {
            let v = observed(s.verdicts, o);
            let effective = marked_all(o.graph(), v.pass);
            if v.fail != Set::<Seq<char>>::empty() {
                action matches LoopAction::Stop { statuses } && statuses@.len() == 1 && tells(
                    statuses@[0],
                    s.cycle,
                    "paused_on_ae_fail"@,
                    o.graph(),
                )
            } else if !any_incomplete(effective) {
                action matches LoopAction::Stop { statuses } && statuses@.len() == 2 && tells(
                    statuses@[0],
                    s.cycle,
                    "dispatch"@,
                    o.graph(),
                ) && tells(statuses@[1], s.cycle, "done"@, effective)
            } else {
                action matches LoopAction::Dispatch { status, features } && tells(
                    status,
                    s.cycle,
                    "dispatch"@,
                    o.graph(),
                ) && views(features@) == effective
            }
        },
        (LoopStageView::Dispatching(effective), LoopEvent::Dispatched(report)) => if
            report.dispatched_count == 0 {
            action matches LoopAction::Stop { statuses } && statuses@.len() == 1 && tells(
                statuses@[0],
                s.cycle,
                "blocked"@,
                effective,
            )
        } else {
            action is Observe
        },
        (LoopStageView::Settling(report), LoopEvent::Settled(o)) => {
            if observed(s.verdicts, o).fail != Set::<Seq<char>>::empty() {
                action matches LoopAction::Stop { statuses } && statuses@.len() == 1 && tells(
                    statuses@[0],
                    s.cycle,
                    "paused_on_ae_fail"@,
                    o.graph(),
                )
            } else if any_failure(report.outcomes) {
                action matches LoopAction::Stop { statuses } && statuses@.len() == 1 && tells(
                    statuses@[0],
                    s.cycle,
                    "paused_on_fail"@,
                    o.graph(),
                )
            } else {
                action is Continue
            }
        },
        _ => true,
    }
}

fn heal(
    missing: &mut NameSet,
    features: &Vec<DiscoveredFeature>,
    pass: &NameSet,
    fail: &NameSet,
)
    requires
        old(missing).wf(),
    ensures
        final(missing).wf(),
        final(missing)@ == healed(
            old(missing)@,
            views(features@),
            verdicts(*pass, *fail),
            features@.len() as int,
        ),
{
    let ghost all = views(features@);
    let ghost v = verdicts(*pass, *fail);
    let mut i: usize = 0;
    while i < features.len()
        invariant
            all == views(features@),
            v == verdicts(*pass, *fail),
            i <= features.len(),
            missing.wf(),
            missing@ == healed(old(missing)@, all, v, i as int),
        decreases features.len() - i,
    {
        proof {
            assert(all[i as int] == features@[i as int]@);
        }
        if let Some(name) = file_name(&features[i].feature_dir) {
            if pass.contains(&name) || fail.contains(&name) {
                missing.remove(&features[i].id);
            }
        }
        i = i + 1;
    }
}

fn note_outcomes(missing: &mut NameSet, outcomes: &Vec<FeatureOutcome>)
    requires
        old(missing).wf(),
    ensures
        final(missing).wf(),
        final(missing)@ == with_outcomes(
            old(missing)@,
            views(outcomes@),
            outcomes@.len() as int,
        ),
{
    let ghost all = views(outcomes@);
    let mut i: usize = 0;
    while i < outcomes.len()
        invariant
            all == views(outcomes@),
            i <= outcomes.len(),
            missing.wf(),
            missing@ == with_outcomes(old(missing)@, all, i as int),
        decreases outcomes.len() - i,
    {
        proof {
            assert(all[i as int] == outcomes@[i as int]@);
        }
        if same_text(&outcomes[i].verdict, "missing") {
            missing.insert(outcomes[i].feature_id.clone());
        } else {
            missing.remove(&outcomes[i].feature_id);
        }
        i = i + 1;
    }
}

fn one_status(status: StatusSnapshot) -> (r: LoopAction)
    ensures
        r matches LoopAction::Stop { statuses } && statuses@ == seq![status],
{
    let mut statuses: Vec<StatusSnapshot> = Vec::new();
    statuses.push(status);
    proof {
        assert(statuses@ =~= seq![status]);
    }
    LoopAction::Stop { statuses }
}

impl LoopState {
    pub open spec fn wf(&self) -> bool {
        self.terminal_pass.wf() && self.terminal_fail.wf() && self.missing.wf()
    }

    /// The loop before its first cycle, with the verdicts that were already there.
    pub fn new(terminal_pass: NameSet, terminal_fail: NameSet) -> (r: LoopState)
        requires
            terminal_pass.wf(),
            terminal_fail.wf(),
        ensures
            r.wf(),
            r@ == (LoopView {
                stage: LoopStageView::Idle,
                cycle: 0,
                verdicts: verdicts(terminal_pass, terminal_fail),
                missing: Set::empty(),
                reports: Seq::empty(),
                ae_review_failed: false,
                deps_stuck: false,
            }),
    {
        let r = LoopState {
            stage: LoopStage::Idle,
            cycle: 0,
            terminal_pass,
            terminal_fail,
            missing: NameSet::new(),
            reports: Vec::new(),
            ae_review_failed: false,
            deps_stuck: false,
        };
        proof {
            assert(views(r.reports@) =~= Seq::empty());
        }
        r
    }

    /// Takes in an observation: the verdicts, and what they heal.
    fn take_in(&mut self, o: &Observation)
        requires
            old(self).wf(),
            o.wf(),
        ensures
            final(self).wf(),
            final(self)@ == (LoopView {
                verdicts: observed(old(self)@.verdicts, *o),
                missing: healed(
                    old(self)@.missing,
                    o.graph(),
                    observed(old(self)@.verdicts, *o),
                    o.graph().len() as int,
                ),
                ..old(self)@
            }),
    {
        drain_events(&mut self.terminal_pass, &mut self.terminal_fail, &o.events);
        scan_reviews(
            &mut self.terminal_pass,
            &mut self.terminal_fail,
            &o.features,
            &o.reviews,
            false,
        );
        heal(&mut self.missing, &o.features, &self.terminal_pass, &self.terminal_fail);
    }

    /// Enters a cycle's report.
    fn enter_report(&mut self, report: DispatchReport)
        requires
            old(self).wf(),
        ensures
            final(self).wf(),
            final(self)@ == (LoopView { reports: old(self)@.reports.push(report@), ..old(self)@ }),
    {
        let ghost before = views(self.reports@);
        self.reports.push(report);
        proof {
            assert(views(self.reports@) =~= before.push(report@));
        }
    }

    /// One step of the loop.
    pub fn step(&mut self, event: LoopEvent) -> (action: LoopAction)
        requires
            old(self).wf(),
            event is Begin ==> old(self).cycle < u64::MAX,
            expects(old(self)@.stage, event),
        ensures
            final(self).wf(),
            final(self)@ == loop_after(old(self)@, event),
            action_after(old(self)@, event, action),
    {
        match event {
            LoopEvent::Begin { cancelled } => {
                if cancelled {
                    self.stage = LoopStage::Stopped;
                    return LoopAction::Stop { statuses: Vec::new() };
                }
                self.cycle = self.cycle + 1;
                self.stage = LoopStage::Observing;
                LoopAction::Observe
            },
            LoopEvent::Observed(o) => {
                self.take_in(&o);
                if !self.terminal_fail.is_empty() {
                    self.ae_review_failed = true;
                    self.stage = LoopStage::Stopped;
                    return one_status(write_status(self.cycle, "paused_on_ae_fail", &o.features));
                }
                let status = write_status(self.cycle, "dispatch", &o.features);
                let effective = mark_terminally_done(&o.features, &self.terminal_pass);
                if !has_incomplete(&effective) {
                    self.stage = LoopStage::Stopped;
                    let mut statuses: Vec<StatusSnapshot> = Vec::new();
                    statuses.push(status);
                    statuses.push(write_status(self.cycle, "done", &effective));
                    return LoopAction::Stop { statuses };
                }
                let features = mark_terminally_done(&o.features, &self.terminal_pass);
                self.stage = LoopStage::Dispatching(effective);
                LoopAction::Dispatch { status, features }
            },
            LoopEvent::Dispatched(report) => {
                if report.dispatched_count == 0 {
                    let status = match &self.stage {
                        LoopStage::Dispatching(effective) => write_status(
                            self.cycle,
                            "blocked",
                            effective,
                        ),
                        _ => write_status(self.cycle, "blocked", &Vec::new()),
                    };
                    self.enter_report(report);
                    self.deps_stuck = true;
                    self.stage = LoopStage::Stopped;
                    return one_status(status);
                }
                self.stage = LoopStage::Settling(report);
                LoopAction::Observe
            },
            LoopEvent::Settled(o) => {
                let mut stage = LoopStage::Stopped;
                std::mem::swap(&mut stage, &mut self.stage);
                let mut failed = false;
                if let LoopStage::Settling(report) = stage {
                    failed = has_failure(&report.outcomes);
                    note_outcomes(&mut self.missing, &report.outcomes);
                    self.enter_report(report);
                }
                self.take_in(&o);
                if !self.terminal_fail.is_empty() {
                    self.ae_review_failed = true;
                    return one_status(write_status(self.cycle, "paused_on_ae_fail", &o.features));
                }
                if failed {
                    return one_status(write_status(self.cycle, "paused_on_fail", &o.features));
                }
                self.stage = LoopStage::Idle;
                LoopAction::Continue
            },
        }
    }
}

/// What a run of the loop came to.
#[derive(Debug)]
pub struct IterationOutcome {
    /// One report for each cycle that was dispatched, in order.
    pub reports: Vec<DispatchReport>,
    /// Whether some review came to `fail`.
    pub ae_review_failed: bool,
    /// Whether work remained but none of it could be dispatched.
    pub deps_stuck: bool,
    /// Whether a worker ended cleanly without a review that came in later.
    pub review_missing: bool,
}

impl LoopState {
    /// What the loop came to.
    pub fn finish(self) -> (r: IterationOutcome)
        ensures
            views(r.reports@) == self@.reports,
            r.ae_review_failed == self@.ae_review_failed,
            r.deps_stuck == self@.deps_stuck,
            r.review_missing == (self@.missing != Set::<Seq<char>>::empty()),
    {
        let review_missing = !self.missing.is_empty();
        IterationOutcome {
            reports: self.reports,
            ae_review_failed: self.ae_review_failed,
            deps_stuck: self.deps_stuck,
            review_missing,
        }
    }
}

/// The earliest start of a list of reports.
pub open spec fn earliest(reports: Seq<ReportView>) -> nat
    decreases reports.len(),
{
    if reports.len() == 0 {
        0
    } else if reports.len() == 1 {
        reports[0].started_at_ms
    } else {
        let before = earliest(reports.drop_last());
        if reports.last().started_at_ms < before {
            reports.last().started_at_ms
        } else {
            before
        }
    }
}

/// The time that a list of reports took together.
pub open spec fn total_elapsed(reports: Seq<ReportView>) -> nat
    decreases reports.len(),
{
    if reports.len() == 0 {
        0
    } else {
        total_elapsed(reports.drop_last()) + reports.last().elapsed_ms
    }
}

/// The outcomes of a list of reports, one after the other.
pub open spec fn all_outcomes(reports: Seq<ReportView>) -> Seq<OutcomeView>
    decreases reports.len(),
{
    if reports.len() == 0 {
        Seq::empty()
    } else {
        all_outcomes(reports.drop_last()) + reports.last().outcomes
    }
}

/// A list of reports as one.
pub open spec fn aggregated(reports: Seq<ReportView>) -> ReportView {
    ReportView {
        started_at_ms: earliest(reports),
        elapsed_ms: total_elapsed(reports),
        dispatched_count: all_outcomes(reports).len(),
        outcomes: all_outcomes(reports),
    }
}

proof fn lemma_elapsed_grows(reports: Seq<ReportView>, n: int)
    requires
        0 <= n <= reports.len(),
    ensures
        total_elapsed(reports.take(n)) <= total_elapsed(reports),
    decreases reports.len() - n,
{
    if n < reports.len() {
        lemma_elapsed_grows(reports, n + 1);
        assert(reports.take(n + 1).drop_last() =~= reports.take(n));
    } else {
        assert(reports.take(n) =~= reports);
    }
}

/// Joins the reports of a run's cycles into one.
pub fn aggregate_reports(reports: Vec<DispatchReport>) -> (r: DispatchReport)
    requires
        total_elapsed(views(reports@)) <= u128::MAX,
    ensures
        r@ == aggregated(views(reports@)),
{
    let ghost all = views(reports@);
    let ghost given = reports@;
    let mut started_at_ms: u64 = 0;
    let mut elapsed_ms: u128 = 0;
    let mut outcomes: Vec<FeatureOutcome> = Vec::new();
    let mut first = true;
    let ghost mut n: int = 0;
    proof {
        assert(all.take(0) =~= Seq::empty());
        assert(views(outcomes@) =~= Seq::empty());
    }
    for report in it: reports
        invariant
            it.seq() == given,
            all == views(given),
            n == it.index(),
            first == (n == 0),
            total_elapsed(all) <= u128::MAX,
            started_at_ms == earliest(all.take(n)),
            elapsed_ms == total_elapsed(all.take(n)),
            views(outcomes@) == all_outcomes(all.take(n)),
    {
        let ghost now = all.take(n + 1);
        proof {
            assert(all[n] == report@);
            assert(now.drop_last() =~= all.take(n));
            assert(now.last() == report@);
            lemma_elapsed_grows(all, n + 1);
            if n == 0 {
                assert(now[0] == report@);
            }
        }
        if first || report.started_at_ms < started_at_ms {
            started_at_ms = report.started_at_ms;
        }
        elapsed_ms = elapsed_ms + report.elapsed_ms;
        let ghost before = views(outcomes@);
        let mut more = report.outcomes;
        let ghost tail = views(more@);
        outcomes.append(&mut more);
        proof {
            assert(views(outcomes@) =~= before + tail);
        }
        first = false;
        proof {
            n = n + 1;
        }
    }
    proof {
        assert(all.take(n) =~= all);
    }
    let dispatched_count = outcomes.len();
    DispatchReport { started_at_ms, elapsed_ms, dispatched_count, outcomes }
}

/// A run has an outcome exactly if one of its cycles has it: joining reports loses
/// and adds nothing.
pub proof fn law_aggregation_keeps_outcomes(reports: Seq<ReportView>, o: OutcomeView)
    ensures
        aggregated(reports).outcomes.contains(o) <==> exists|i: int|
            0 <= i < reports.len() && (#[trigger] reports[i]).outcomes.contains(o),
    decreases reports.len(),
{
    if reports.len() > 0 {
        let t = reports.drop_last();
        law_aggregation_keeps_outcomes(t, o);
        let before = all_outcomes(t);
        let all = all_outcomes(reports);
        let last = reports.last().outcomes;
        if before.contains(o) {
            let k = choose|k: int| 0 <= k < before.len() && before[k] == o;
            assert(all[k] == o);
            let i = choose|i: int| 0 <= i < t.len() && (#[trigger] t[i]).outcomes.contains(o);
            assert(reports[i].outcomes.contains(o));
        }
        if last.contains(o) {
            let k = choose|k: int| 0 <= k < last.len() && last[k] == o;
            assert(all[before.len() + k] == o);
            assert(reports[reports.len() - 1].outcomes.contains(o));
        }
        if all.contains(o) {
            let k = choose|k: int| 0 <= k < all.len() && all[k] == o;
            if k < before.len() {
                assert(before[k] == o);
            } else {
                assert(last[k - before.len()] == o);
            }
        }
        if exists|i: int| 0 <= i < reports.len() && (#[trigger] reports[i]).outcomes.contains(o) {
            let i = choose|i: int|
                0 <= i < reports.len() && (#[trigger] reports[i]).outcomes.contains(o);
            if i < t.len() {
                assert(t[i].outcomes.contains(o));
            }
        }
    }
}

proof fn lemma_events_consistent(v: Verdicts, events: Seq<VerdictEvent>)
    requires
        v.consistent(),
    ensures
        after_events(v, events).consistent(),
    decreases events.len(),
{
    if events.len() > 0 {
        lemma_events_consistent(v, events.drop_last());
    }
}

proof fn lemma_scan_consistent(
    v: Verdicts,
    features: Seq<FeatureView>,
    reviews: Seq<Option<AeVerdict>>,
    n: int,
    again: bool,
)
    requires
        v.consistent(),
    ensures
        after_scan(v, features, reviews, n, again).consistent(),
    decreases n,
{
    if n > 0 {
        lemma_scan_consistent(v, features, reviews, n - 1, again);
    }
}

/// No step of the loop lets a feature have passed and failed at once.
pub proof fn law_steps_keep_verdicts_consistent(s: LoopView, event: LoopEvent)
    requires
        s.verdicts.consistent(),
    ensures
        loop_after(s, event).verdicts.consistent(),
{
    match event {
        LoopEvent::Observed(o) => {
            lemma_events_consistent(s.verdicts, o.events@);
            lemma_scan_consistent(
                after_events(s.verdicts, o.events@),
                o.graph(),
                o.reviews@,
                o.features@.len() as int,
                false,
            );
        },
        LoopEvent::Settled(o) => {
            lemma_events_consistent(s.verdicts, o.events@);
            lemma_scan_consistent(
                after_events(s.verdicts, o.events@),
                o.graph(),
                o.reviews@,
                o.features@.len() as int,
                false,
            );
        },
        _ => {},
    }
}

/// A review that fails stops the loop and is reported, whatever the workers did in
/// the same cycle.
pub proof fn law_rejected_review_wins(s: LoopView, event: LoopEvent)
    requires
        expects(s.stage, event),
        loop_after(s, event).verdicts.fail != Set::<Seq<char>>::empty(),
        event is Observed || event is Settled,
    ensures
        loop_after(s, event).stage is Stopped,
        loop_after(s, event).ae_review_failed,
{
}

proof fn lemma_scan_keeps(
    v: Verdicts,
    features: Seq<FeatureView>,
    reviews: Seq<Option<AeVerdict>>,
    n: int,
    name: Seq<char>,
)
    requires
        v.has(name),
    ensures
        after_scan(v, features, reviews, n, false).has(name),
        after_scan(v, features, reviews, n, false).pass.contains(name) == v.pass.contains(name),
        after_scan(v, features, reviews, n, false).fail.contains(name) == v.fail.contains(name),
    decreases n,
{
    if n > 0 {
        lemma_scan_keeps(v, features, reviews, n - 1, name);
    }
}

proof fn lemma_scan_finds(
    v: Verdicts,
    features: Seq<FeatureView>,
    reviews: Seq<Option<AeVerdict>>,
    n: int,
    i: int,
)
    requires
        0 <= i < n,
        reviews[i] is Some,
        path_name(features[i].feature_dir) is Some,
    ensures
        after_scan(v, features, reviews, n, false).has(path_name(features[i].feature_dir)->Some_0),
    decreases n,
{
    if i < n - 1 {
        lemma_scan_finds(v, features, reviews, n - 1, i);
    }
}

/// A worker that failed, in whatever way, pauses the run: no further cycle begins.
pub proof fn law_failed_worker_pauses(s: LoopView, o: Observation)
    requires
        s.stage matches LoopStageView::Settling(report) && any_failure(report.outcomes),
    ensures
        loop_after(s, LoopEvent::Settled(o)).stage is Stopped,
{
}

/// The review of a feature on disk is enough for its verdict, though the watcher
/// missed it: after an observation every feature whose review came to a verdict has
/// one.
pub proof fn law_scan_needs_no_watcher(v: Verdicts, o: Observation, i: int)
    requires
        o.wf(),
        0 <= i < o.graph().len(),
        o.reviews@[i] is Some,
        path_name(o.graph()[i].feature_dir) is Some,
    ensures
        observed(v, o).has(path_name(o.graph()[i].feature_dir)->Some_0),
{
    lemma_scan_finds(
        after_events(v, o.events@),
        o.graph(),
        o.reviews@,
        o.features@.len() as int,
        i,
    );
}

/// What the watcher reported last of a feature stands: the scan does not ask again.
pub proof fn law_watcher_outruns_the_scan(v: Verdicts, o: Observation, name: Seq<char>)
    requires
        after_events(v, o.events@).has(name),
    ensures
        observed(v, o).pass.contains(name) == after_events(v, o.events@).pass.contains(name),
        observed(v, o).fail.contains(name) == after_events(v, o.events@).fail.contains(name),
{
    lemma_scan_keeps(
        after_events(v, o.events@),
        o.graph(),
        o.reviews@,
        o.features@.len() as int,
        name,
    );
}

/// A feature that passed its review is not dispatched again.
pub proof fn law_passed_is_not_dispatched(
    features: Seq<FeatureView>,
    pass: Set<Seq<char>>,
    i: int,
)
    requires
        0 <= i < features.len(),
        path_name(features[i].feature_dir) is Some,
        pass.contains(path_name(features[i].feature_dir)->Some_0),
    ensures
        !is_ready(marked_all(features, pass), marked_all(features, pass)[i]),
        has_done(marked_all(features, pass), features[i].id),
{
    let all = marked_all(features, pass);
    assert(all[i].done());
}

/// The loop ends as exhausted only when every active feature is done or has passed.
pub proof fn law_exhausted_means_all_done(s: LoopView, o: Observation)
    requires
        s.stage is Observing,
        loop_after(s, LoopEvent::Observed(o)).stage is Stopped,
        !loop_after(s, LoopEvent::Observed(o)).ae_review_failed,
    ensures
        forall|i: int|
            0 <= i < o.graph().len() ==> (#[trigger] marked_all(
                o.graph(),
                loop_after(s, LoopEvent::Observed(o)).verdicts.pass,
            )[i]).done(),
{
}

/// The state after a list of events.
pub open spec fn run_after(s: LoopView, events: Seq<LoopEvent>) -> LoopView
    decreases events.len(),
{
    if events.len() == 0 {
        s
    } else {
        loop_after(run_after(s, events.drop_last()), events.last())
    }
}

/// Whether each of the events is one that the stage before it waits for.
pub open spec fn is_run(s: LoopView, events: Seq<LoopEvent>) -> bool
    decreases events.len(),
{
    events.len() == 0 || {
        &&& is_run(s, events.drop_last())
        &&& expects(run_after(s, events.drop_last()).stage, events.last())
    }
}

/// The exit code of a run that came to `s`.
pub open spec fn run_exit_code(s: LoopView, cancelled: bool) -> int {
    exit_code(
        s.ae_review_failed,
        cancelled,
        any_failure(aggregated(s.reports).outcomes),
        s.deps_stuck,
        s.missing != Set::<Seq<char>>::empty(),
    )
}

/// An incomplete run is never reported as success: one that exits with 0 has stopped
/// at an observation in which every active feature is done or has passed its review,
/// and no review is missing. A cancel that was seen at the start of a cycle is still
/// seen at the end.
pub proof fn law_incomplete_run_is_no_success(
    s: LoopView,
    events: Seq<LoopEvent>,
    cancelled: bool,
)
    requires
        s.stage is Idle,
        is_run(s, events),
        run_after(s, events).stage is Stopped,
        forall|i: int|
            0 <= i < events.len() && (#[trigger] events[i] matches LoopEvent::Begin {
                cancelled: true,
            }) ==> cancelled,
        run_exit_code(run_after(s, events), cancelled) == 0,
    ensures
        run_after(s, events).missing == Set::<Seq<char>>::empty(),
        events.last() matches LoopEvent::Observed(o) && !any_incomplete(
            marked_all(o.graph(), run_after(s, events).verdicts.pass),
        ),
{
    let before = run_after(s, events.drop_last());
    let end = run_after(s, events);
    let last = events.len() - 1;
    assert(events.len() > 0);
    assert(events.last() == events[last]);
    match events.last() {
        LoopEvent::Begin { .. } => {},
        LoopEvent::Observed(_) => {},
        LoopEvent::Dispatched(_) => {},
        LoopEvent::Settled(_) => {
            let report = before.stage->Settling_0;
            if any_failure(report.outcomes) {
                let k = choose|k: int|
                    0 <= k < report.outcomes.len() && is_failure(
                        (#[trigger] report.outcomes[k]).worker_exit_status,
                    );
                let o = report.outcomes[k];
                assert(report.outcomes.contains(o));
                assert(end.reports.last() == report);
                assert(end.reports[end.reports.len() - 1].outcomes.contains(o));
                law_aggregation_keeps_outcomes(end.reports, o);
                let all = aggregated(end.reports).outcomes;
                let j = choose|j: int| 0 <= j < all.len() && all[j] == o;
                assert(is_failure(all[j].worker_exit_status));
            }
        },
    }
}

/// The ids that outcomes tell of, in order.
pub open spec fn outcome_ids(outcomes: Seq<OutcomeView>) -> Seq<Seq<char>> {
    Seq::new(outcomes.len(), |i: int| outcomes[i].feature_id)
}

/// Whether some report tells of this id.
pub open spec fn has_run(reports: Seq<ReportView>, id: Seq<char>) -> bool {
    outcome_ids(all_outcomes(reports)).contains(id)
}

/// The reports so far, with that of a cycle that is not yet settled.
pub open spec fn reports_so_far(s: LoopView) -> Seq<ReportView> {
    match s.stage {
        LoopStageView::Settling(report) => s.reports.push(report),
        _ => s.reports,
    }
}

/// A graph that can be run to its end: no two features share an id or the name of a
/// directory, and none depends on itself by any detour.
pub open spec fn is_sound_graph(graph: Seq<FeatureView>, rank: spec_fn(Seq<char>) -> nat) -> bool {
    &&& has_distinct_ids(graph)
    &&& is_ranked(graph, rank)
    &&& forall|i: int| 0 <= i < graph.len() ==> path_name((#[trigger] graph[i]).feature_dir) is Some
    &&& forall|i: int, j: int|
        0 <= i < j < graph.len() ==> path_name((#[trigger] graph[i]).feature_dir) != path_name(
            (#[trigger] graph[j]).feature_dir,
        )
}

/// Whether `name` is the directory of a feature that has run.
pub open spec fn is_name_of_run(
    graph: Seq<FeatureView>,
    reports: Seq<ReportView>,
    name: Seq<char>,
) -> bool {
    exists|i: int|
        0 <= i < graph.len() && path_name((#[trigger] graph[i]).feature_dir) == Some(name)
            && has_run(reports, graph[i].id)
}

/// Whether an observation shows the graph after these reports: the features that have
/// run have passed their reviews, and the others are neither done nor reviewed.
pub open spec fn shows_passed(
    o: Observation,
    graph: Seq<FeatureView>,
    reports: Seq<ReportView>,
) -> bool {
    &&& o.wf()
    &&& o.graph().len() == graph.len()
    &&& forall|i: int|
        0 <= i < graph.len() ==> {
            &&& (#[trigger] o.graph()[i]).id == graph[i].id
            &&& o.graph()[i].feature_dir == graph[i].feature_dir
            &&& o.graph()[i].depends_on == graph[i].depends_on
            &&& o.graph()[i].done() ==> has_run(reports, graph[i].id)
            &&& o.reviews@[i] == (if has_run(reports, graph[i].id) {
                Some(AeVerdict::Pass)
            } else {
                None
            })
        }
    &&& forall|k: int|
        0 <= k < o.events@.len() ==> {
            &&& (#[trigger] o.events@[k]).verdict == AeVerdict::Pass
            &&& is_name_of_run(graph, reports, o.events@[k].feature_id@)
        }
}

/// Whether a report holds one passing outcome for each slot of a plan, in order.
pub open spec fn reports_plan(report: ReportView, plan: Seq<SlotView>) -> bool {
    &&& report.dispatched_count == plan.len()
    &&& report.outcomes.len() == plan.len()
    &&& forall|k: int|
        0 <= k < plan.len() ==> {
            &&& (#[trigger] report.outcomes[k]).feature_id == plan[k].feature.id
            &&& report.outcomes[k].verdict == "pass"@
            &&& report.outcomes[k].worker_exit_status == "pass"@
        }
}

/// Whether an event in state `s` is one of a run that nobody cancels and whose workers
/// all finish their features with a review that passes.
pub open spec fn is_passing_event(
    s: LoopView,
    event: LoopEvent,
    graph: Seq<FeatureView>,
    workers: int,
) -> bool {
    match event {
        LoopEvent::Begin { cancelled } => !cancelled,
        LoopEvent::Observed(o) => shows_passed(o, graph, reports_so_far(s)),
        LoopEvent::Dispatched(report) => s.stage matches LoopStageView::Dispatching(effective)
            && reports_plan(report@, planned(effective, workers)),
        LoopEvent::Settled(o) => shows_passed(o, graph, reports_so_far(s)),
    }
}

/// Whether all the events are.
pub open spec fn passing_run(
    s: LoopView,
    events: Seq<LoopEvent>,
    graph: Seq<FeatureView>,
    workers: int,
) -> bool
    decreases events.len(),
{
    events.len() == 0 || {
        &&& passing_run(s, events.drop_last(), graph, workers)
        &&& is_passing_event(run_after(s, events.drop_last()), events.last(), graph, workers)
    }
}

/// Whether a loop is about to begin its first cycle, with no verdict yet.
pub open spec fn is_fresh(s: LoopView) -> bool {
    &&& s.stage is Idle
    &&& s.reports.len() == 0
    &&& s.verdicts.pass == Set::<Seq<char>>::empty()
    &&& s.verdicts.fail == Set::<Seq<char>>::empty()
    &&& s.missing == Set::<Seq<char>>::empty()
    &&& !s.ae_review_failed
    &&& !s.deps_stuck
}

/// Whether all that a feature depends on is told of in these reports.
pub open spec fn dependencies_ran(
    graph: Seq<FeatureView>,
    id: Seq<char>,
    reports: Seq<ReportView>,
) -> bool {
    forall|i: int, d: int|
        0 <= i < graph.len() && graph[i].id == id && 0 <= d < graph[i].depends_on.len() ==> has_run(
            reports,
            #[trigger] graph[i].depends_on[d],
        )
}

/// Whether each outcome comes in a later report than those of all that its feature
/// depends on.
pub open spec fn in_dependency_order(
    reports: Seq<ReportView>,
    graph: Seq<FeatureView>,
) -> bool {
    forall|r: int, k: int|
        0 <= r < reports.len() && 0 <= k < reports[r].outcomes.len() ==> dependencies_ran(
            graph,
            (#[trigger] reports[r].outcomes[k]).feature_id,
            reports.take(r),
        )
}

/// What every list of reports in a passing run keeps.
spec fn is_orderly(reports: Seq<ReportView>, graph: Seq<FeatureView>) -> bool {
    let all = all_outcomes(reports);
    &&& outcome_ids(all).no_duplicates()
    &&& forall|k: int| 0 <= k < all.len() ==> has_id(graph, (#[trigger] all[k]).feature_id)
    &&& forall|k: int|
        0 <= k < all.len() ==> (#[trigger] all[k]).worker_exit_status == "pass"@ && all[k].verdict
            == "pass"@
    &&& forall|r: int| 0 <= r < reports.len() ==> (#[trigger] reports[r]).outcomes.len() > 0
    &&& in_dependency_order(reports, graph)
}

/// Whether the features of a dispatch are those of the graph, done exactly if they
/// have run.
spec fn mirrors(
    effective: Seq<FeatureView>,
    graph: Seq<FeatureView>,
    reports: Seq<ReportView>,
) -> bool {
    &&& effective.len() == graph.len()
    &&& forall|i: int|
        0 <= i < graph.len() ==> {
            &&& (#[trigger] effective[i]).id == graph[i].id
            &&& effective[i].depends_on == graph[i].depends_on
            &&& effective[i].done() == has_run(reports, graph[i].id)
        }
}

/// How many events a stage is after the last settled cycle.
spec fn events_since(stage: LoopStageView) -> nat {
    match stage {
        LoopStageView::Idle => 0,
        LoopStageView::Observing => 1,
        LoopStageView::Dispatching(_) => 2,
        LoopStageView::Settling(_) => 3,
        LoopStageView::Stopped => 2,
    }
}

/// What every state of a passing run keeps.
spec fn is_passing_state(s: LoopView, graph: Seq<FeatureView>, count: nat) -> bool {
    &&& !s.ae_review_failed
    &&& !s.deps_stuck
    &&& s.missing == Set::<Seq<char>>::empty()
    &&& s.verdicts.fail == Set::<Seq<char>>::empty()
    &&& forall|name: Seq<char>| #[trigger]
        s.verdicts.pass.contains(name) ==> is_name_of_run(graph, reports_so_far(s), name)
    &&& is_orderly(reports_so_far(s), graph)
    &&& count == 4 * s.reports.len() + events_since(s.stage)
    &&& match s.stage {
        LoopStageView::Dispatching(effective) => mirrors(effective, graph, reports_so_far(s))
            && any_incomplete(effective),
        LoopStageView::Stopped => forall|i: int|
            0 <= i < graph.len() ==> has_run(reports_so_far(s), (#[trigger] graph[i]).id),
        _ => true,
    }
}

proof fn lemma_events_pass(
    v: Verdicts,
    events: Seq<VerdictEvent>,
    graph: Seq<FeatureView>,
    reports: Seq<ReportView>,
)
    requires
        v.fail == Set::<Seq<char>>::empty(),
        forall|name: Seq<char>| #[trigger]
            v.pass.contains(name) ==> is_name_of_run(graph, reports, name),
        forall|k: int|
            0 <= k < events.len() ==> {
                &&& (#[trigger] events[k]).verdict == AeVerdict::Pass
                &&& is_name_of_run(graph, reports, events[k].feature_id@)
            },
    ensures
        after_events(v, events).fail == Set::<Seq<char>>::empty(),
        forall|name: Seq<char>| #[trigger]
            after_events(v, events).pass.contains(name) ==> is_name_of_run(graph, reports, name),
    decreases events.len(),
{
    if events.len() > 0 {
        let t = events.drop_last();
        assert forall|k: int| 0 <= k < t.len() implies {
            &&& (#[trigger] t[k]).verdict == AeVerdict::Pass
            &&& is_name_of_run(graph, reports, t[k].feature_id@)
        } by {
            assert(t[k] == events[k]);
        }
        lemma_events_pass(v, t, graph, reports);
        assert(events.last() == events[events.len() - 1]);
        assert(after_events(v, events).fail =~= Set::<Seq<char>>::empty());
    }
}

proof fn lemma_scan_passes(
    v: Verdicts,
    o: Observation,
    n: int,
    graph: Seq<FeatureView>,
    reports: Seq<ReportView>,
)
    requires
        v.fail == Set::<Seq<char>>::empty(),
        forall|name: Seq<char>| #[trigger]
            v.pass.contains(name) ==> is_name_of_run(graph, reports, name),
        shows_passed(o, graph, reports),
        0 <= n <= graph.len(),
    ensures
        ({
            let after = after_scan(v, o.graph(), o.reviews@, n, false);
            &&& after.fail == Set::<Seq<char>>::empty()
            &&& forall|name: Seq<char>| #[trigger]
                after.pass.contains(name) ==> is_name_of_run(graph, reports, name)
        }),
    decreases n,
{
    if n > 0 {
        lemma_scan_passes(v, o, n - 1, graph, reports);
        let f = o.graph()[n - 1];
        assert(f.id == graph[n - 1].id);
        assert(path_name(graph[n - 1].feature_dir) == path_name(f.feature_dir));
        let after = after_scan(v, o.graph(), o.reviews@, n, false);
        assert(after.fail =~= Set::<Seq<char>>::empty());
    }
}

proof fn lemma_observation_passes(
    v: Verdicts,
    o: Observation,
    graph: Seq<FeatureView>,
    reports: Seq<ReportView>,
    rank: spec_fn(Seq<char>) -> nat,
)
    requires
        v.fail == Set::<Seq<char>>::empty(),
        forall|name: Seq<char>| #[trigger]
            v.pass.contains(name) ==> is_name_of_run(graph, reports, name),
        shows_passed(o, graph, reports),
        is_sound_graph(graph, rank),
    ensures
        observed(v, o).fail == Set::<Seq<char>>::empty(),
        forall|name: Seq<char>| #[trigger]
            observed(v, o).pass.contains(name) ==> is_name_of_run(graph, reports, name),
        mirrors(marked_all(o.graph(), observed(v, o).pass), graph, reports),
{
    lemma_events_pass(v, o.events@, graph, reports);
    lemma_scan_passes(after_events(v, o.events@), o, graph.len() as int, graph, reports);
    let pass = observed(v, o).pass;
    let effective = marked_all(o.graph(), pass);
    assert forall|i: int| 0 <= i < graph.len() implies {
        &&& (#[trigger] effective[i]).id == graph[i].id
        &&& effective[i].depends_on == graph[i].depends_on
        &&& effective[i].done() == has_run(reports, graph[i].id)
    } by {
        let f = o.graph()[i];
        assert(f.id == graph[i].id);
        assert(path_name(graph[i].feature_dir) is Some);
        let name = path_name(graph[i].feature_dir)->Some_0;
        if has_run(reports, graph[i].id) {
            law_scan_needs_no_watcher(v, o, i);
            assert(pass.contains(name));
        } else if pass.contains(name) {
            let j = choose|j: int|
                0 <= j < graph.len() && path_name((#[trigger] graph[j]).feature_dir) == Some(name)
                    && has_run(reports, graph[j].id);
            if i < j {
                assert(path_name(graph[i].feature_dir) != path_name(graph[j].feature_dir));
            } else if j < i {
                assert(path_name(graph[j].feature_dir) != path_name(graph[i].feature_dir));
            }
        }
    }
}

proof fn lemma_nothing_to_heal(features: Seq<FeatureView>, v: Verdicts, n: int)
    ensures
        healed(Set::empty(), features, v, n) == Set::<Seq<char>>::empty(),
    decreases n,
{
    if n > 0 {
        lemma_nothing_to_heal(features, v, n - 1);
        assert(healed(Set::empty(), features, v, n) =~= Set::<Seq<char>>::empty());
    }
}

proof fn lemma_nothing_missing(outcomes: Seq<OutcomeView>, n: int)
    requires
        0 <= n <= outcomes.len(),
        forall|k: int| 0 <= k < outcomes.len() ==> (#[trigger] outcomes[k]).verdict == "pass"@,
    ensures
        with_outcomes(Set::empty(), outcomes, n) == Set::<Seq<char>>::empty(),
    decreases n,
{
    if n > 0 {
        lemma_nothing_missing(outcomes, n - 1);
        reveal_strlit("pass");
        reveal_strlit("missing");
        assert(outcomes[n - 1].verdict.len() == 4);
        assert(with_outcomes(Set::empty(), outcomes, n) =~= Set::<Seq<char>>::empty());
    }
}

proof fn lemma_passing_is_no_failure(outcomes: Seq<OutcomeView>)
    requires
        forall|k: int|
            0 <= k < outcomes.len() ==> (#[trigger] outcomes[k]).worker_exit_status == "pass"@,
    ensures
        !any_failure(outcomes),
{
    reveal_strlit("pass");
    reveal_strlit("fail");
    reveal_strlit("error");
    reveal_strlit("timeout");
    reveal_strlit("panic");
    assert("pass"@[0] != "fail"@[0]);
    assert forall|k: int| 0 <= k < outcomes.len() implies !is_failure(
        (#[trigger] outcomes[k]).worker_exit_status,
    ) by {
        assert(outcomes[k].worker_exit_status.len() == 4);
    }
}

proof fn lemma_report_is_orderly(
    reports: Seq<ReportView>,
    report: ReportView,
    effective: Seq<FeatureView>,
    graph: Seq<FeatureView>,
    workers: int,
    rank: spec_fn(Seq<char>) -> nat,
)
    requires
        is_sound_graph(graph, rank),
        is_orderly(reports, graph),
        mirrors(effective, graph, reports),
        any_incomplete(effective),
        workers > 0,
        reports_plan(report, planned(effective, workers)),
    ensures
        is_orderly(reports.push(report), graph),
        report.outcomes.len() > 0,
        forall|id: Seq<char>|
            has_run(reports, id) ==> #[trigger] has_run(reports.push(report), id),
{
    let ready = ready_features(effective);
    let before = all_outcomes(reports);
    let after = all_outcomes(reports.push(report));
    assert(reports.push(report).drop_last() =~= reports);
    assert(after == before + report.outcomes);
    assert(has_distinct_ids(effective)) by {
        assert forall|i: int, j: int| 0 <= i < j < effective.len() implies (
        #[trigger] effective[i]).id != (#[trigger] effective[j]).id by {
            assert(graph[i].id != graph[j].id);
        }
    }
    assert(is_ranked(effective, rank)) by {
        assert forall|i: int, k: int|
            0 <= i < effective.len() && 0 <= k < effective[i].depends_on.len() implies {
            &&& has_id(effective, #[trigger] effective[i].depends_on[k])
            &&& rank(effective[i].depends_on[k]) < rank(effective[i].id)
        } by {
            let dep = graph[i].depends_on[k];
            assert(effective[i].depends_on[k] == dep);
            assert(has_id(graph, dep));
            let j = choose|j: int| 0 <= j < graph.len() && (#[trigger] graph[j]).id == dep;
            assert(effective[j].id == dep);
        }
    }
    law_acyclic_graph_has_a_ready_feature(effective, rank);
    law_ready_features_are_distinct(effective);
    assert forall|k: int| 0 <= k < report.outcomes.len() implies {
        let id = (#[trigger] report.outcomes[k]).feature_id;
        &&& id == ready[k].id
        &&& has_id(graph, id)
        &&& !has_run(reports, id)
        &&& dependencies_ran(graph, id, reports)
    } by {
        law_ready_is_sound(effective, k);
        let m = choose|m: int| 0 <= m < effective.len() && effective[m] == ready[k];
        assert(effective[m].id == graph[m].id);
        let id = report.outcomes[k].feature_id;
        assert forall|i: int, d: int|
            0 <= i < graph.len() && graph[i].id == id && 0 <= d
                < graph[i].depends_on.len() implies has_run(
            reports,
            #[trigger] graph[i].depends_on[d],
        ) by {
            if i < m {
                assert(graph[i].id != graph[m].id);
            } else if m < i {
                assert(graph[m].id != graph[i].id);
            }
            assert(ready[k].depends_on[d] == graph[i].depends_on[d]);
            assert(has_done(effective, ready[k].depends_on[d]));
            let j = choose|j: int|
                0 <= j < effective.len() && (#[trigger] effective[j]).done() && effective[j].id
                    == ready[k].depends_on[d];
            assert(effective[j].done() == has_run(reports, graph[j].id));
        }
    }
    let ids = outcome_ids(after);
    let ids_before = outcome_ids(before);
    assert(ids.no_duplicates()) by {
        assert forall|i: int, j: int| 0 <= i < j < ids.len() implies ids[i] != ids[j] by {
            if j < before.len() {
                assert(ids_before[i] == ids[i] && ids_before[j] == ids[j]);
            } else {
                let b = j - before.len();
                assert(after[j] == report.outcomes[b]);
                if i < before.len() {
                    assert(ids_before[i] == ids[i]);
                    assert(ids_before.contains(ids[i]));
                } else {
                    let a = i - before.len();
                    assert(after[i] == report.outcomes[a]);
                    assert(ready[a].id != ready[b].id);
                }
            }
        }
    }
    assert forall|k: int| 0 <= k < after.len() implies has_id(
        graph,
        (#[trigger] after[k]).feature_id,
    ) && after[k].worker_exit_status == "pass"@ && after[k].verdict == "pass"@ by {
        if k < before.len() {
            assert(after[k] == before[k]);
        } else {
            assert(after[k] == report.outcomes[k - before.len()]);
        }
    }
    let all = reports.push(report);
    assert forall|r: int, k: int|
        0 <= r < all.len() && 0 <= k < all[r].outcomes.len() implies dependencies_ran(
        graph,
        (#[trigger] all[r].outcomes[k]).feature_id,
        all.take(r),
    ) by {
        assert(all.take(r) =~= reports.take(r));
        if r < reports.len() {
            assert(all[r].outcomes[k] == reports[r].outcomes[k]);
        } else {
            assert(reports.take(r) =~= reports);
            assert(all[r].outcomes[k] == report.outcomes[k]);
        }
    }
    assert forall|id: Seq<char>| has_run(reports, id) implies #[trigger] has_run(all, id) by {
        let k = choose|k: int| 0 <= k < ids_before.len() && ids_before[k] == id;
        assert(ids[k] == id);
    }
}

proof fn lemma_passing_step(
    s: LoopView,
    event: LoopEvent,
    graph: Seq<FeatureView>,
    workers: int,
    rank: spec_fn(Seq<char>) -> nat,
    count: nat,
)
    requires
        is_sound_graph(graph, rank),
        workers > 0,
        expects(s.stage, event),
        is_passing_event(s, event, graph, workers),
        is_passing_state(s, graph, count),
    ensures
        is_passing_state(loop_after(s, event), graph, count + 1),
{
    let after = loop_after(s, event);
    let reports = reports_so_far(s);
    match event {
        LoopEvent::Begin { .. } => {},
        LoopEvent::Observed(o) => {
            lemma_observation_passes(s.verdicts, o, graph, reports, rank);
            let v = observed(s.verdicts, o);
            lemma_nothing_to_heal(o.graph(), v, o.graph().len() as int);
            let effective = marked_all(o.graph(), v.pass);
            if !any_incomplete(effective) {
                assert forall|i: int| 0 <= i < graph.len() implies has_run(
                    reports,
                    (#[trigger] graph[i]).id,
                ) by {
                    assert(effective[i].done());
                }
            }
        },
        LoopEvent::Dispatched(report) => {
            let effective = s.stage->Dispatching_0;
            lemma_report_is_orderly(reports, report@, effective, graph, workers, rank);
            let more = reports.push(report@);
            assert forall|name: Seq<char>| #[trigger]
                after.verdicts.pass.contains(name) implies is_name_of_run(graph, more, name) by {
                let i = choose|i: int|
                    0 <= i < graph.len() && path_name((#[trigger] graph[i]).feature_dir) == Some(
                        name,
                    ) && has_run(reports, graph[i].id);
                assert(has_run(more, graph[i].id));
            }
        },
        LoopEvent::Settled(o) => {
            let report = s.stage->Settling_0;
            lemma_observation_passes(s.verdicts, o, graph, reports, rank);
            let v = observed(s.verdicts, o);
            let all = all_outcomes(reports);
            assert(reports.drop_last() =~= s.reports);
            assert forall|k: int| 0 <= k < report.outcomes.len() implies (
            #[trigger] report.outcomes[k]).verdict == "pass"@ && report.outcomes[k].worker_exit_status
                == "pass"@ by {
                assert(all[all_outcomes(s.reports).len() + k] == report.outcomes[k]);
            }
            lemma_nothing_missing(report.outcomes, report.outcomes.len() as int);
            lemma_nothing_to_heal(o.graph(), v, o.graph().len() as int);
            lemma_passing_is_no_failure(report.outcomes);
        },
    }
}

proof fn lemma_passing_run(
    s: LoopView,
    events: Seq<LoopEvent>,
    graph: Seq<FeatureView>,
    workers: int,
    rank: spec_fn(Seq<char>) -> nat,
)
    requires
        is_sound_graph(graph, rank),
        workers > 0,
        is_fresh(s),
        is_run(s, events),
        passing_run(s, events, graph, workers),
    ensures
        is_passing_state(run_after(s, events), graph, events.len()),
    decreases events.len(),
{
    if events.len() == 0 {
        assert(s.reports =~= Seq::empty());
        assert(outcome_ids(all_outcomes(s.reports)).len() == 0);
    } else {
        lemma_passing_run(s, events.drop_last(), graph, workers, rank);
        lemma_passing_step(
            run_after(s, events.drop_last()),
            events.last(),
            graph,
            workers,
            rank,
            (events.len() - 1) as nat,
        );
    }
}

/// The ids of a graph.
pub open spec fn graph_ids(graph: Seq<FeatureView>) -> Seq<Seq<char>> {
    Seq::new(graph.len(), |i: int| graph[i].id)
}

proof fn lemma_outcomes_fit(reports: Seq<ReportView>, graph: Seq<FeatureView>)
    requires
        is_orderly(reports, graph),
        has_distinct_ids(graph),
    ensures
        all_outcomes(reports).len() <= graph.len(),
        (forall|i: int| 0 <= i < graph.len() ==> has_run(reports, (#[trigger] graph[i]).id))
            ==> all_outcomes(reports).len() == graph.len(),
        reports.len() <= graph.len(),
{
    let ids = outcome_ids(all_outcomes(reports));
    let known = graph_ids(graph);
    assert(known.no_duplicates()) by {
        assert forall|i: int, j: int| 0 <= i < j < known.len() implies known[i] != known[j] by {
            assert(graph[i].id != graph[j].id);
        }
    }
    ids.unique_seq_to_set();
    known.unique_seq_to_set();
    assert forall|id: Seq<char>| ids.to_set().contains(id) implies known.to_set().contains(id) by {
        let k = choose|k: int| 0 <= k < ids.len() && ids[k] == id;
        assert(has_id(graph, all_outcomes(reports)[k].feature_id));
        let i = choose|i: int| 0 <= i < graph.len() && (#[trigger] graph[i]).id == id;
        assert(known[i] == id);
    }
    vstd::set_lib::lemma_len_subset(ids.to_set(), known.to_set());
    if forall|i: int| 0 <= i < graph.len() ==> has_run(reports, (#[trigger] graph[i]).id) {
        assert forall|id: Seq<char>| known.to_set().contains(id) implies ids.to_set().contains(
            id,
        ) by {
            let i = choose|i: int| 0 <= i < known.len() && known[i] == id;
            assert(has_run(reports, graph[i].id));
        }
        assert(ids.to_set() =~= known.to_set());
    }
    lemma_reports_count(reports);
}

proof fn lemma_reports_count(reports: Seq<ReportView>)
    requires
        forall|r: int| 0 <= r < reports.len() ==> (#[trigger] reports[r]).outcomes.len() > 0,
    ensures
        reports.len() <= all_outcomes(reports).len(),
    decreases reports.len(),
{
    if reports.len() > 0 {
        let t = reports.drop_last();
        assert forall|r: int| 0 <= r < t.len() implies (#[trigger] t[r]).outcomes.len() > 0 by {
            assert(t[r] == reports[r]);
        }
        lemma_reports_count(t);
        assert(reports.last() == reports[reports.len() - 1]);
    }
}

proof fn lemma_all_ran(reports: Seq<ReportView>, graph: Seq<FeatureView>)
    requires
        is_orderly(reports, graph),
        all_outcomes(reports).len() == graph.len(),
    ensures
        forall|i: int| 0 <= i < graph.len() ==> has_run(reports, (#[trigger] graph[i]).id),
{
    let ids = outcome_ids(all_outcomes(reports));
    let known = graph_ids(graph);
    assert forall|i: int| 0 <= i < graph.len() implies has_run(reports, (#[trigger] graph[i]).id) by {
        if !has_run(reports, graph[i].id) {
            let others = known.to_set().remove(graph[i].id);
            ids.unique_seq_to_set();
            known.lemma_cardinality_of_set();
            assert(known[i] == graph[i].id);
            assert(known.to_set().contains(graph[i].id));
            assert forall|id: Seq<char>| ids.to_set().contains(id) implies others.contains(id) by {
                let k = choose|k: int| 0 <= k < ids.len() && ids[k] == id;
                assert(has_id(graph, all_outcomes(reports)[k].feature_id));
                let j = choose|j: int| 0 <= j < graph.len() && (#[trigger] graph[j]).id == id;
                assert(known[j] == id);
            }
            vstd::set_lib::lemma_len_subset(ids.to_set(), others);
        }
    }
}

/// A graph of features that pass is run to its end. Where the run stops, it is not
/// stuck and no review was rejected or is missing, so that it exits with 0; each
/// feature has exactly one outcome, in a later report than those of all that it
/// depends on; and there are no more cycles than features.
pub proof fn law_passing_graph_is_exhausted(
    s: LoopView,
    events: Seq<LoopEvent>,
    graph: Seq<FeatureView>,
    workers: int,
    rank: spec_fn(Seq<char>) -> nat,
)
    requires
        is_sound_graph(graph, rank),
        workers > 0,
        is_fresh(s),
        is_run(s, events),
        passing_run(s, events, graph, workers),
        run_after(s, events).stage is Stopped,
    ensures
        ({
            let end = run_after(s, events);
            let ids = outcome_ids(all_outcomes(end.reports));
            &&& !end.deps_stuck
            &&& !end.ae_review_failed
            &&& run_exit_code(end, false) == 0
            &&& ids.no_duplicates()
            &&& ids.len() == graph.len()
            &&& forall|i: int| 0 <= i < graph.len() ==> ids.contains((#[trigger] graph[i]).id)
            &&& in_dependency_order(end.reports, graph)
            &&& end.reports.len() <= graph.len()
        }),
{
    let end = run_after(s, events);
    lemma_passing_run(s, events, graph, workers, rank);
    lemma_outcomes_fit(end.reports, graph);
    let all = all_outcomes(end.reports);
    assert forall|i: int| 0 <= i < graph.len() implies outcome_ids(all).contains(
        (#[trigger] graph[i]).id,
    ) by {
        assert(has_run(end.reports, graph[i].id));
    }
    lemma_passing_is_no_failure(all);
}

/// The run of a graph of features that pass ends: it has stopped after four events for
/// each feature and two more, if not before.
pub proof fn law_passing_run_ends(
    s: LoopView,
    events: Seq<LoopEvent>,
    graph: Seq<FeatureView>,
    workers: int,
    rank: spec_fn(Seq<char>) -> nat,
)
    requires
        is_sound_graph(graph, rank),
        workers > 0,
        is_fresh(s),
        is_run(s, events),
        passing_run(s, events, graph, workers),
    ensures
        events.len() <= 4 * graph.len() + 2,
        events.len() == 4 * graph.len() + 2 ==> run_after(s, events).stage is Stopped,
{
    let end = run_after(s, events);
    lemma_passing_run(s, events, graph, workers, rank);
    lemma_outcomes_fit(reports_so_far(end), graph);
    if let LoopStageView::Dispatching(effective) = end.stage {
        if end.reports.len() == graph.len() {
            lemma_reports_count(end.reports);
            lemma_all_ran(end.reports, graph);
            let i = choose|i: int| 0 <= i < effective.len() && !(#[trigger] effective[i]).done();
            assert(has_run(end.reports, graph[i].id));
        }
    }
}

/// A stopped loop takes no further step.
pub proof fn law_stop_is_final(event: LoopEvent)
    ensures
        !expects(LoopStageView::Stopped, event),
{
}

} // verus!
