//! Delivery: the dispatch log of a run.

use crate::dispatch::{DispatchReport, FeatureOutcome, OutcomeView, ReportView};
use crate::order::{law_text_order_transitive, lemma_lt_at, text_lt, SortedMap};
use crate::paths::{join, path_join};
use crate::state::{
    is_ordered, items_view, lemma_items_view_push, lemma_members_view_push, members_view,
    names_ascend, rendered, FileWrite, Json, JsonView,
};
use crate::text::{opt_text, views};
use vstd::prelude::*;

verus! {

broadcast use vstd::string::group_string_axioms;

/// The name of a run's dispatch log.
pub open spec fn dispatch_log_name(run_id: Seq<char>) -> Seq<char> {
    "dispatch-"@ + run_id + ".log"@
}

pub fn dispatch_log_path(loom_dir: &str, run_id: &str) -> (r: String)
    ensures
        r@ == path_join(loom_dir@, dispatch_log_name(run_id@)),
{
    let mut name = "dispatch-".to_owned();
    name.append(run_id);
    name.append(".log");
    join(loom_dir, &name)
}

/// The low 64 bits of a number.
pub open spec fn low_64_bits(n: nat) -> int {
    (n % 0x1_0000_0000_0000_0000) as int
}

fn low_bits(n: u128) -> (r: u64)
    ensures
        r == low_64_bits(n as nat),
{
    assert((n as u64) == n % 0x1_0000_0000_0000_0000) by (bit_vector);
    #[verifier::truncate]
    let low: u64 = n as u64;
    low
}

/// A text, or null for none.
pub open spec fn opt_json(o: Option<Seq<char>>) -> JsonView {
    match o {
        Some(s) => JsonView::Str(s),
        None => JsonView::Null,
    }
}

/// How an outcome stands in the dispatch log.
pub open spec fn outcome_json(o: OutcomeView) -> JsonView {
    JsonView::Object(
        seq![
            ("drain_truncated"@, JsonView::Bool(o.drain_truncated)),
            ("duration_ms"@, JsonView::Int(low_64_bits(o.duration_ms))),
            ("error"@, opt_json(o.error)),
            ("exit_code"@, JsonView::Int(o.exit_code)),
            ("feature_id"@, JsonView::Str(o.feature_id)),
            ("rescue_ref"@, opt_json(o.rescue_ref)),
            ("stdout_path"@, JsonView::Str(o.stdout_path)),
            ("verdict"@, JsonView::Str(o.verdict)),
            ("worker_exit_status"@, JsonView::Str(o.worker_exit_status)),
            ("worker_identity"@, JsonView::Str(o.worker_identity)),
        ],
    )
}

/// What the dispatch log of a report holds.
pub open spec fn report_json(r: ReportView) -> JsonView {
    JsonView::Object(
        seq![
            ("dispatched_count"@, JsonView::Int(r.dispatched_count as int)),
            ("elapsed_ms"@, JsonView::Int(low_64_bits(r.elapsed_ms))),
            (
                "outcomes"@,
                JsonView::Array(Seq::new(r.outcomes.len(), |i: int| outcome_json(r.outcomes[i]))),
            ),
            ("schema"@, JsonView::Int(1)),
            ("started_at_ms"@, JsonView::Int(r.started_at_ms as int)),
        ],
    )
}

proof fn lemma_outcome_keys()
    ensures
        text_lt("drain_truncated"@, "duration_ms"@),
        text_lt("duration_ms"@, "error"@),
        text_lt("error"@, "exit_code"@),
        text_lt("exit_code"@, "feature_id"@),
        text_lt("feature_id"@, "rescue_ref"@),
        text_lt("rescue_ref"@, "stdout_path"@),
        text_lt("stdout_path"@, "verdict"@),
        text_lt("verdict"@, "worker_exit_status"@),
        text_lt("worker_exit_status"@, "worker_identity"@),
{
    reveal_strlit("drain_truncated");
    reveal_strlit("duration_ms");
    reveal_strlit("error");
    reveal_strlit("exit_code");
    reveal_strlit("feature_id");
    reveal_strlit("rescue_ref");
    reveal_strlit("stdout_path");
    reveal_strlit("verdict");
    reveal_strlit("worker_exit_status");
    reveal_strlit("worker_identity");
    lemma_lt_at("drain_truncated"@, "duration_ms"@, 1);
    lemma_lt_at("duration_ms"@, "error"@, 0);
    lemma_lt_at("error"@, "exit_code"@, 1);
    lemma_lt_at("exit_code"@, "feature_id"@, 0);
    lemma_lt_at("feature_id"@, "rescue_ref"@, 0);
    lemma_lt_at("rescue_ref"@, "stdout_path"@, 0);
    lemma_lt_at("stdout_path"@, "verdict"@, 0);
    lemma_lt_at("verdict"@, "worker_exit_status"@, 0);
    lemma_lt_at("worker_exit_status"@, "worker_identity"@, 7);
}

proof fn lemma_report_keys()
    ensures
        text_lt("dispatched_count"@, "elapsed_ms"@),
        text_lt("elapsed_ms"@, "outcomes"@),
        text_lt("outcomes"@, "schema"@),
        text_lt("schema"@, "started_at_ms"@),
{
    reveal_strlit("dispatched_count");
    reveal_strlit("elapsed_ms");
    reveal_strlit("outcomes");
    reveal_strlit("schema");
    reveal_strlit("started_at_ms");
    lemma_lt_at("dispatched_count"@, "elapsed_ms"@, 0);
    lemma_lt_at("elapsed_ms"@, "outcomes"@, 0);
    lemma_lt_at("outcomes"@, "schema"@, 0);
    lemma_lt_at("schema"@, "started_at_ms"@, 1);
}

fn opt_to_json(o: &Option<String>) -> (r: Json)
    ensures
        r@ == opt_json(opt_text(*o)),
{
    match o {
        Some(s) => Json::Str(s.clone()),
        None => Json::Null,
    }
}

fn outcome_to_json(o: &FeatureOutcome) -> (r: Json)
    ensures
        r@ == outcome_json(o@),
{
    broadcast use lemma_members_view_push;

    proof {
        lemma_outcome_keys();
    }
    let mut m: SortedMap<Json> = SortedMap::new();
    m.push_last("drain_truncated".to_owned(), Json::Bool(o.drain_truncated));
    m.push_last("duration_ms".to_owned(), Json::U64(low_bits(o.duration_ms)));
    m.push_last("error".to_owned(), opt_to_json(&o.error));
    m.push_last("exit_code".to_owned(), Json::I64(o.exit_code as i64));
    m.push_last("feature_id".to_owned(), Json::Str(o.feature_id.clone()));
    m.push_last("rescue_ref".to_owned(), opt_to_json(&o.rescue_ref));
    m.push_last("stdout_path".to_owned(), Json::Str(o.stdout_path.clone()));
    m.push_last("verdict".to_owned(), Json::Str(o.verdict.clone()));
    m.push_last("worker_exit_status".to_owned(), Json::Str(o.worker_exit_status.clone()));
    m.push_last("worker_identity".to_owned(), Json::Str(o.worker_identity.clone()));
    proof {
        assert(members_view(m.entries@) =~= outcome_json(o@)->Object_0);
    }
    Json::Object(m)
}

fn report_to_json(report: &DispatchReport) -> (r: Json)
    ensures
        r@ == report_json(report@),
{
    broadcast use lemma_members_view_push;

    let ghost all = views(report.outcomes@);
    let ghost shown = |i: int| outcome_json(all[i]);
    let mut outcomes: Vec<Json> = Vec::new();
    let mut i: usize = 0;
    proof {
        assert(items_view(outcomes@) =~= Seq::new(0, shown));
    }
    while i < report.outcomes.len()
        invariant
            all == views(report.outcomes@),
            shown == |i: int| outcome_json(all[i]),
            i <= report.outcomes.len(),
            items_view(outcomes@) == Seq::new(i as nat, shown),
        decreases report.outcomes.len() - i,
    {
        let ghost before = outcomes@;
        let item = outcome_to_json(&report.outcomes[i]);
        outcomes.push(item);
        proof {
            lemma_items_view_push(before, item);
            assert(all[i as int] == report.outcomes@[i as int]@);
            assert(items_view(outcomes@) =~= Seq::new((i + 1) as nat, shown));
        }
        i = i + 1;
    }
    proof {
        lemma_report_keys();
        assert(items_view(outcomes@) =~= Seq::new(all.len(), |i: int| outcome_json(all[i])));
    }
    let mut top: SortedMap<Json> = SortedMap::new();
    top.push_last("dispatched_count".to_owned(), Json::U64(report.dispatched_count as u64));
    top.push_last("elapsed_ms".to_owned(), Json::U64(low_bits(report.elapsed_ms)));
    top.push_last("outcomes".to_owned(), Json::Array(outcomes));
    top.push_last("schema".to_owned(), Json::U64(1));
    top.push_last("started_at_ms".to_owned(), Json::U64(report.started_at_ms));
    proof {
        assert(members_view(top.entries@) =~= report_json(report@)->Object_0);
    }
    Json::Object(top)
}

pub proof fn lemma_outcome_ordered(o: OutcomeView)
    ensures
        is_ordered(outcome_json(o)),
{
    let members = outcome_json(o)->Object_0;
    lemma_outcome_keys();
    lemma_neighbours_ascend(members);
    assert forall|i: int| 0 <= i < members.len() implies is_ordered((#[trigger] members[i]).1) by {
        assert(!(members[i].1 is Array) && !(members[i].1 is Object));
    }
}

pub proof fn lemma_report_ordered(r: ReportView)
    ensures
        is_ordered(report_json(r)),
{
    let members = report_json(r)->Object_0;
    lemma_report_keys();
    lemma_neighbours_ascend(members);
    let items = Seq::new(r.outcomes.len(), |i: int| outcome_json(r.outcomes[i]));
    assert(is_ordered(JsonView::Array(items))) by {
        assert forall|i: int| 0 <= i < items.len() implies is_ordered(#[trigger] items[i]) by {
            lemma_outcome_ordered(r.outcomes[i]);
        }
    }
    assert forall|i: int| 0 <= i < members.len() implies is_ordered((#[trigger] members[i]).1) by {
        if i == 2 {
            assert(members[i].1 == JsonView::Array(items));
        }
    }
}

/// Names ascend if each stands before the next.
proof fn lemma_neighbours_ascend(members: Seq<(Seq<char>, JsonView)>)
    requires
        forall|i: int|
            0 <= i < members.len() - 1 ==> text_lt((#[trigger] members[i]).0, members[i + 1].0),
    ensures
        names_ascend(members),
    decreases members.len(),
{
    if members.len() > 1 {
        let t = members.drop_last();
        assert forall|i: int| 0 <= i < t.len() - 1 implies text_lt(
            (#[trigger] t[i]).0,
            t[i + 1].0,
        ) by {
            assert(t[i] == members[i] && t[i + 1] == members[i + 1]);
        }
        lemma_neighbours_ascend(t);
        let last = members.len() - 1;
        assert forall|i: int, j: int| 0 <= i < j < members.len() implies text_lt(
            (#[trigger] members[i]).0,
            (#[trigger] members[j]).0,
        ) by {
            if j < last {
                assert(text_lt(t[i].0, t[j].0));
            } else {
                assert(text_lt(members[last - 1].0, members[last - 1 + 1].0));
                if i < last - 1 {
                    assert(text_lt(t[i].0, t[last - 1].0));
                    law_text_order_transitive(members[i].0, members[last - 1].0, members[last].0);
                }
            }
        }
    }
}

/// The dispatch log of a run.
pub fn write_dispatch_log(report: &DispatchReport, loom_dir: &str, run_id: &str) -> (r: FileWrite)
    ensures
        r.path@ == path_join(loom_dir@, dispatch_log_name(run_id@)),
        r.contents@ == rendered(report_json(report@), Seq::empty(), true),
        is_ordered(report_json(report@)),
{
    let json = report_to_json(report);
    proof {
        lemma_report_ordered(report@);
    }
    FileWrite { path: dispatch_log_path(loom_dir, run_id), contents: json.to_string_pretty() }
}

/// What is told to the operator where the log could not be written.
pub fn delivery_failure(loom_dir: &str, error: &str) -> (r: String)
    ensures
        r@ == "loom: FAILED to write dispatch log under "@ + loom_dir@ + " — "@ + error@,
{
    let mut out = "loom: FAILED to write dispatch log under ".to_owned();
    out.append(loom_dir);
    out.append(" — ");
    out.append(error);
    out
}

/// The report of a run whose loop ended in an error before any feature had an
/// outcome.
pub open spec fn degraded(error: Seq<char>) -> ReportView {
    ReportView {
        started_at_ms: 0,
        elapsed_ms: 0,
        dispatched_count: 0,
        outcomes: seq![
            OutcomeView {
                feature_id: "<loom>"@,
                worker_identity: "<loom>"@,
                verdict: "unknown"@,
                worker_exit_status: "error"@,
                exit_code: -1,
                duration_ms: 0,
                stdout_path: Seq::empty(),
                drain_truncated: false,
                error: Some(error),
                rescue_ref: None,
            },
        ],
    }
}

pub fn degraded_report(error: &str) -> (r: DispatchReport)
    ensures
        r@ == degraded(error@),
{
    let outcome = FeatureOutcome {
        feature_id: "<loom>".to_owned(),
        worker_identity: "<loom>".to_owned(),
        verdict: "unknown".to_owned(),
        worker_exit_status: "error".to_owned(),
        exit_code: -1,
        duration_ms: 0,
        stdout_path: String::new(),
        drain_truncated: false,
        error: Some(error.to_owned()),
        rescue_ref: None,
    };
    let mut outcomes: Vec<FeatureOutcome> = Vec::new();
    outcomes.push(outcome);
    proof {
        assert(views(outcomes@) =~= degraded(error@).outcomes);
    }
    DispatchReport { started_at_ms: 0, elapsed_ms: 0, dispatched_count: 0, outcomes }
}

} // verus!
