//! What a reader learns from the files that a run writes: its dispatch log, its status
//! and its journal.

use crate::delivery::{
    degraded, lemma_outcome_ordered, lemma_report_ordered, outcome_json, report_json,
};
use crate::dispatch::{OutcomeView, ReportView};
use crate::exit::{dispatch_code, is_failure};
use crate::journal::{law_record_reads_back, record_line, record_value, JournalRecord};
use crate::json_reader::{law_value_reads_back, read_back};
use crate::order::law_text_order_transitive;
use crate::state::{
    law_ascending_names_differ, lemma_status_keys, names_ascend, rendered, status_json, JsonView,
    StatusView,
};
use vstd::prelude::*;

verus! {

broadcast use vstd::string::group_string_axioms;

/// The member at `i`, and no other, has this name, and it has this value.
pub open spec fn is_member(
    members: Seq<(Seq<char>, JsonView)>,
    i: int,
    name: Seq<char>,
    value: JsonView,
) -> bool {
    &&& 0 <= i < members.len()
    &&& members[i].0 == name
    &&& members[i].1 == value
    &&& forall|j: int| 0 <= j < members.len() && (#[trigger] members[j]).0 == name ==> j == i
}

/// A value is an object that has this member, once.
pub open spec fn has_member(v: JsonView, name: Seq<char>, value: JsonView) -> bool {
    v matches JsonView::Object(members) && exists|i: int| #[trigger]
        is_member(members, i, name, value)
}

/// A value is an object without a member of this name.
pub open spec fn lacks_member(v: JsonView, name: Seq<char>) -> bool {
    v matches JsonView::Object(members) && forall|j: int|
        0 <= j < members.len() ==> (#[trigger] members[j]).0 != name
}

/// A value is an object whose member `name` is the text, or null where there is none.
pub open spec fn has_text_or_null(v: JsonView, name: Seq<char>, text: Option<Seq<char>>) -> bool {
    &&& text is Some ==> has_member(v, name, JsonView::Str(text->Some_0))
    &&& text is None ==> has_member(v, name, JsonView::Null)
}

proof fn lemma_has_member(members: Seq<(Seq<char>, JsonView)>, i: int)
    requires
        names_ascend(members),
        0 <= i < members.len(),
    ensures
        has_member(JsonView::Object(members), members[i].0, members[i].1),
{
    assert forall|j: int|
        0 <= j < members.len() && (#[trigger] members[j]).0 == members[i].0 implies j == i by {
        if j < i {
            law_ascending_names_differ(members, j, i);
        } else if i < j {
            law_ascending_names_differ(members, i, j);
        }
    }
    let v = JsonView::Object(members);
    assert(v->Object_0 == members);
    assert(is_member(v->Object_0, i, members[i].0, members[i].1));
}

/// A value tells everything about an outcome: each thing that is known of it, under
/// its own name, as it is. What is not known is null. A time is told by its last 64
/// bits.
pub open spec fn tells_outcome(v: JsonView, o: OutcomeView) -> bool {
    &&& has_member(v, "feature_id"@, JsonView::Str(o.feature_id))
    &&& has_member(v, "worker_identity"@, JsonView::Str(o.worker_identity))
    &&& has_member(v, "verdict"@, JsonView::Str(o.verdict))
    &&& has_member(v, "worker_exit_status"@, JsonView::Str(o.worker_exit_status))
    &&& has_member(v, "exit_code"@, JsonView::Int(o.exit_code))
    &&& has_member(v, "stdout_path"@, JsonView::Str(o.stdout_path))
    &&& has_member(v, "drain_truncated"@, JsonView::Bool(o.drain_truncated))
    &&& has_text_or_null(v, "error"@, o.error)
    &&& has_text_or_null(v, "rescue_ref"@, o.rescue_ref)
    &&& has_member(
        v,
        "duration_ms"@,
        JsonView::Int(o.duration_ms as int % 0x1_0000_0000_0000_0000),
    )
}

proof fn lemma_tells_outcome(o: OutcomeView)
    ensures
        tells_outcome(outcome_json(o), o),
{
    let members = outcome_json(o)->Object_0;
    lemma_outcome_ordered(o);
    assert(members.len() == 10);
    assert forall|i: int| 0 <= i < 10 implies has_member(
        outcome_json(o),
        (#[trigger] members[i]).0,
        members[i].1,
    ) by {
        lemma_has_member(members, i);
    }
    assert(members[0].0 == "drain_truncated"@);
    assert(members[1].0 == "duration_ms"@);
    assert(members[2].0 == "error"@);
    assert(members[3].0 == "exit_code"@);
    assert(members[4].0 == "feature_id"@);
    assert(members[5].0 == "rescue_ref"@);
    assert(members[6].0 == "stdout_path"@);
    assert(members[7].0 == "verdict"@);
    assert(members[8].0 == "worker_exit_status"@);
    assert(members[9].0 == "worker_identity"@);
}

/// Read as JSON, the dispatch log of a run has every outcome, in order, with all that
/// is known of it, and beside them the count, the start and the time that it took.
pub proof fn law_dispatch_log_tells_all(r: ReportView)
    ensures
        read_back(rendered(report_json(r), Seq::empty(), true), true) matches Some(v) && {
            &&& exists|items: Seq<JsonView>| #[trigger]
                has_member(v, "outcomes"@, JsonView::Array(items)) && items.len()
                    == r.outcomes.len() && forall|i: int|
                    0 <= i < items.len() ==> tells_outcome(#[trigger] items[i], r.outcomes[i])
            &&& has_member(v, "dispatched_count"@, JsonView::Int(r.dispatched_count as int))
            &&& has_member(v, "started_at_ms"@, JsonView::Int(r.started_at_ms as int))
            &&& has_member(v, "schema"@, JsonView::Int(1))
            &&& has_member(
                v,
                "elapsed_ms"@,
                JsonView::Int(r.elapsed_ms as int % 0x1_0000_0000_0000_0000),
            )
        },
{
    let v = report_json(r);
    let members = v->Object_0;
    law_value_reads_back(v, true);
    lemma_report_ordered(r);
    assert(members.len() == 5);
    assert forall|i: int| 0 <= i < 5 implies has_member(
        v,
        (#[trigger] members[i]).0,
        members[i].1,
    ) by {
        lemma_has_member(members, i);
    }
    assert(members[0].0 == "dispatched_count"@);
    assert(members[1].0 == "elapsed_ms"@);
    assert(members[2].0 == "outcomes"@);
    assert(members[3].0 == "schema"@);
    assert(members[4].0 == "started_at_ms"@);
    let items = members[2].1->Array_0;
    assert forall|i: int| 0 <= i < items.len() implies tells_outcome(
        #[trigger] items[i],
        r.outcomes[i],
    ) by {
        lemma_tells_outcome(r.outcomes[i]);
    }
    assert(has_member(v, "outcomes"@, JsonView::Array(items)));
}

/// Read as JSON, the status of a run has its phase, its cycle, the time, and the work
/// state of each feature under the feature's id.
pub proof fn law_status_tells_all(s: StatusView, now_ms: nat)
    ensures
        read_back(rendered(status_json(s, now_ms), Seq::empty(), true), true) matches Some(v) && {
            &&& has_member(v, "phase"@, JsonView::Str(s.phase))
            &&& has_member(v, "cycle"@, JsonView::Int(s.cycle as int))
            &&& has_member(v, "schema"@, JsonView::Int(1))
            &&& has_member(v, "updated_at_ms"@, JsonView::Int(now_ms as int))
            &&& exists|states: Seq<(Seq<char>, JsonView)>| #[trigger]
                has_member(v, "features"@, JsonView::Object(states)) && states.len()
                    == s.features.len() && forall|i: int|
                    0 <= i < states.len() ==> (#[trigger] states[i]).0 == s.features[i].0
                        && states[i].1 == JsonView::Str(s.features[i].1)
        },
{
    let v = status_json(s, now_ms);
    let members = v->Object_0;
    law_value_reads_back(v, true);
    lemma_status_keys();
    assert(members.len() == 5);
    assert(members[0].0 == "cycle"@);
    assert(members[1].0 == "features"@);
    assert(members[2].0 == "phase"@);
    assert(members[3].0 == "schema"@);
    assert(members[4].0 == "updated_at_ms"@);
    law_text_order_transitive("cycle"@, "features"@, "phase"@);
    law_text_order_transitive("cycle"@, "phase"@, "schema"@);
    law_text_order_transitive("cycle"@, "schema"@, "updated_at_ms"@);
    law_text_order_transitive("features"@, "phase"@, "schema"@);
    law_text_order_transitive("features"@, "schema"@, "updated_at_ms"@);
    law_text_order_transitive("phase"@, "schema"@, "updated_at_ms"@);
    assert(names_ascend(members));
    assert forall|i: int| 0 <= i < 5 implies has_member(
        v,
        (#[trigger] members[i]).0,
        members[i].1,
    ) by {
        lemma_has_member(members, i);
    }
    let states = members[1].1->Object_0;
    assert(has_member(v, "features"@, JsonView::Object(states)));
}

/// The names of a record's members.
spec fn record_names() -> Seq<Seq<char>> {
    seq![
        "event"@,
        "run_id"@,
        "feature_id"@,
        "ts_ms"@,
        "worker_exit_status"@,
        "verdict"@,
        "ref_name"@,
    ]
}

proof fn lemma_record_names(i: int, j: int)
    requires
        0 <= i < 7,
        0 <= j < 7,
        i != j,
    ensures
        record_names()[i] != record_names()[j],
{
    reveal_strlit("event");
    reveal_strlit("run_id");
    reveal_strlit("feature_id");
    reveal_strlit("ts_ms");
    reveal_strlit("worker_exit_status");
    reveal_strlit("verdict");
    reveal_strlit("ref_name");
    assert("event"@.len() == 5 && "run_id"@.len() == 6 && "feature_id"@.len() == 10);
    assert("ts_ms"@.len() == 5 && "worker_exit_status"@.len() == 18 && "verdict"@.len() == 7);
    assert("ref_name"@.len() == 8);
    assert("event"@[0] != "ts_ms"@[0]);
}

/// Members with names of a record, each at most once: `at` says which name each has.
spec fn are_named(members: Seq<(Seq<char>, JsonView)>, at: Seq<int>) -> bool {
    &&& at.len() == members.len()
    &&& forall|k: int|
        0 <= k < at.len() ==> 0 <= #[trigger] at[k] < 7 && members[k].0 == record_names()[at[k]]
    &&& forall|j: int, k: int| 0 <= j < k < at.len() ==> #[trigger] at[j] < #[trigger] at[k]
}

proof fn lemma_named_member(members: Seq<(Seq<char>, JsonView)>, at: Seq<int>, k: int)
    requires
        are_named(members, at),
        0 <= k < members.len(),
    ensures
        has_member(JsonView::Object(members), record_names()[at[k]], members[k].1),
{
    assert(0 <= at[k] < 7 && members[k].0 == record_names()[at[k]]);
    assert forall|j: int|
        0 <= j < members.len() && (#[trigger] members[j]).0 == members[k].0 implies j == k by {
        assert(0 <= at[j] < 7 && members[j].0 == record_names()[at[j]]);
        if j != k {
            assert(at[j] != at[k]);
            lemma_record_names(at[j], at[k]);
        }
    }
    let v = JsonView::Object(members);
    assert(v->Object_0 == members);
    assert(is_member(v->Object_0, k, members[k].0, members[k].1));
}

proof fn lemma_name_unused(members: Seq<(Seq<char>, JsonView)>, at: Seq<int>, n: int)
    requires
        are_named(members, at),
        0 <= n < 7,
        forall|k: int| 0 <= k < at.len() ==> #[trigger] at[k] != n,
    ensures
        lacks_member(JsonView::Object(members), record_names()[n]),
{
    assert forall|j: int| 0 <= j < members.len() implies (#[trigger] members[j]).0
        != record_names()[n] by {
        assert(0 <= at[j] < 7 && members[j].0 == record_names()[at[j]]);
        lemma_record_names(at[j], n);
    }
}

spec fn one_if(there: bool, n: int) -> Seq<int> {
    if there {
        seq![n]
    } else {
        Seq::empty()
    }
}

proof fn lemma_record_is_named(r: JournalRecord)
    ensures
        are_named(
            record_value(r)->Object_0,
            seq![0int, 1, 2, 3] + one_if(r.worker_exit_status is Some, 4) + one_if(
                r.verdict is Some,
                5,
            ) + one_if(r.ref_name is Some, 6),
        ),
{
    let at = seq![0int, 1, 2, 3] + one_if(r.worker_exit_status is Some, 4) + one_if(
        r.verdict is Some,
        5,
    ) + one_if(r.ref_name is Some, 6);
    let members = record_value(r)->Object_0;
    assert(at.len() == members.len());
}

/// A value tells the optional text: as a member where it is there, and else not at all.
pub open spec fn has_text_if_any(v: JsonView, name: Seq<char>, text: Option<String>) -> bool {
    &&& text is Some ==> has_member(v, name, JsonView::Str(text->Some_0@))
    &&& text is None ==> lacks_member(v, name)
}

proof fn lemma_record_values(r: JournalRecord)
    ensures
        ({
            let members = record_value(r)->Object_0;
            let k = 4 + one_if(r.worker_exit_status is Some, 4).len() as int;
            let m = k + one_if(r.verdict is Some, 5).len() as int;
            &&& members.len() == m + one_if(r.ref_name is Some, 6).len()
            &&& members[0].1 == JsonView::Str(r.event@)
            &&& members[1].1 == JsonView::Str(r.run_id@)
            &&& members[2].1 == JsonView::Str(r.feature_id@)
            &&& members[3].1 == JsonView::Int(r.ts_ms as int)
            &&& r.worker_exit_status matches Some(word) ==> members[4].1 == JsonView::Str(word@)
            &&& r.verdict matches Some(word) ==> members[k].1 == JsonView::Str(word@)
            &&& r.ref_name matches Some(word) ==> members[m].1 == JsonView::Str(word@)
        }),
{
}

proof fn lemma_optional_told(
    members: Seq<(Seq<char>, JsonView)>,
    at: Seq<int>,
    n: int,
    k: int,
    text: Option<String>,
)
    requires
        are_named(members, at),
        0 <= n < 7,
        text matches Some(word) ==> 0 <= k < at.len() && at[k] == n && members[k].1
            == JsonView::Str(word@),
        text is None ==> forall|j: int| 0 <= j < at.len() ==> #[trigger] at[j] != n,
    ensures
        has_text_if_any(JsonView::Object(members), record_names()[n], text),
{
    if text is Some {
        lemma_named_member(members, at, k);
    } else {
        lemma_name_unused(members, at, n);
    }
}

/// Read as JSON, the line of a record has all that the record tells, under its own
/// names, and of what it does not tell no member.
pub proof fn law_journal_line_tells_all(r: JournalRecord)
    ensures
        read_back(record_line(r).drop_last(), false) matches Some(v) && {
            &&& has_member(v, "event"@, JsonView::Str(r.event@))
            &&& has_member(v, "run_id"@, JsonView::Str(r.run_id@))
            &&& has_member(v, "feature_id"@, JsonView::Str(r.feature_id@))
            &&& has_member(v, "ts_ms"@, JsonView::Int(r.ts_ms as int))
            &&& has_text_if_any(v, "worker_exit_status"@, r.worker_exit_status)
            &&& has_text_if_any(v, "verdict"@, r.verdict)
            &&& has_text_if_any(v, "ref_name"@, r.ref_name)
        },
{
    law_record_reads_back(r);
    lemma_record_told(r);
}

proof fn lemma_record_told(r: JournalRecord)
    ensures
        ({
            let v = record_value(r);
            &&& has_member(v, "event"@, JsonView::Str(r.event@))
            &&& has_member(v, "run_id"@, JsonView::Str(r.run_id@))
            &&& has_member(v, "feature_id"@, JsonView::Str(r.feature_id@))
            &&& has_member(v, "ts_ms"@, JsonView::Int(r.ts_ms as int))
            &&& has_text_if_any(v, "worker_exit_status"@, r.worker_exit_status)
            &&& has_text_if_any(v, "verdict"@, r.verdict)
            &&& has_text_if_any(v, "ref_name"@, r.ref_name)
        }),
{
    lemma_record_is_named(r);
    lemma_record_values(r);
    let members = record_value(r)->Object_0;
    assert(record_value(r) == JsonView::Object(members));
    let a = one_if(r.worker_exit_status is Some, 4);
    let b = one_if(r.verdict is Some, 5);
    let c = one_if(r.ref_name is Some, 6);
    let at = seq![0int, 1, 2, 3] + a + b + c;
    let k = 4 + a.len() as int;
    let m = k + b.len() as int;
    lemma_named_member(members, at, 0);
    lemma_named_member(members, at, 1);
    lemma_named_member(members, at, 2);
    lemma_named_member(members, at, 3);
    lemma_optional_told(members, at, 4, 4, r.worker_exit_status);
    lemma_optional_told(members, at, 5, k, r.verdict);
    lemma_optional_told(members, at, 6, m, r.ref_name);
}

/// A run whose loop broke is reported as one failure with the error that it broke on,
/// and exits as a failed dispatch does, cancelled or not.
pub proof fn law_broken_run_is_a_failure(error: Seq<char>, cancelled: bool, deps_stuck: bool)
    ensures
        degraded(error).outcomes.len() == 1,
        degraded(error).outcomes[0].error == Some(error),
        is_failure(degraded(error).outcomes[0].worker_exit_status),
        degraded(error).outcomes[0].rescue_ref is None,
        degraded(error).dispatched_count == 0,
        dispatch_code(degraded(error).outcomes, cancelled, deps_stuck) == 4,
{
    reveal_strlit("unknown");
    reveal_strlit("fail");
    assert("unknown"@.len() == 7 && "fail"@.len() == 4);
    assert(is_failure(degraded(error).outcomes[0].worker_exit_status));
}

} // verus!
