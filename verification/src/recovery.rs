//! Recovery: what an earlier run that was killed left in its journal becomes the
//! dispatch log that it never wrote.

use crate::delivery::{
    dispatch_log_name, dispatch_log_path, low_64_bits, outcome_json, report_json,
    write_dispatch_log,
};
use crate::dispatch::{DispatchReport, FeatureOutcome, OutcomeView, ReportView};
use crate::discovery::clone_text;
use crate::journal::{
    journal_content, journal_name, law_record_is_one_line, on_one_line, record_line, JournalRecord,
    RecoveryDone,
};
use crate::order::{
    has_key, index_of_key, law_text_order_total, lemma_key_index, text_lt, SortedMap,
};
use crate::paths::{file_name, path_body, path_join, path_name, path_parent};
use crate::state::{rendered, FileWrite, JsonView};
use crate::text::{
    after_prefix, before_suffix, last_index, lemma_last_index, lemma_last_index_is,
    lemma_split_piece, lemma_split_whole, opt_text, same_text, split_char, split_on, strip_prefix,
    strip_suffix, trim, trimmed, views,
};
use vstd::prelude::*;

verus! {

broadcast use vstd::string::group_string_axioms;

/// A line of a journal, as it is read back.
#[derive(Debug)]
pub struct RecoveredRecord {
    pub event: String,
    pub feature_id: String,
    pub worker_exit_status: Option<String>,
    pub verdict: Option<String>,
    pub ref_name: Option<String>,
}

/// The run whose journal the file at `path` is.
pub open spec fn run_of_journal(path: Seq<char>) -> Option<Seq<char>> {
    match path_name(path) {
        Some(name) => match after_prefix(name, "journal-"@) {
            Some(rest) => match before_suffix(rest, ".ndjson"@) {
                Some(id) => if id.len() > 0 {
                    Some(id)
                } else {
                    None
                },
                None => None,
            },
            None => None,
        },
        None => None,
    }
}

pub fn journal_run_id(path: &str) -> (r: Option<String>)
    ensures
        opt_text(r) == run_of_journal(path@),
{
    match file_name(path) {
        Some(name) => match strip_prefix(&name, "journal-") {
            Some(rest) => match strip_suffix(&rest, ".ndjson") {
                Some(id) => if id.as_str().is_empty() {
                    None
                } else {
                    Some(id)
                },
                None => None,
            },
            None => None,
        },
        None => None,
    }
}

/// What is known of a feature from the lines of a journal.
pub struct FeatureHistory {
    pub started: bool,
    /// How its worker ended last, and its review.
    pub finish: Option<(Seq<char>, Seq<char>)>,
    pub rescue_ref: Option<Seq<char>>,
}

/// What is known of a feature that no line speaks of.
pub open spec fn no_history() -> FeatureHistory {
    FeatureHistory { started: false, finish: None, rescue_ref: None }
}

pub open spec fn or_else(o: Option<Seq<char>>, default: Seq<char>) -> Seq<char> {
    match o {
        Some(s) => s,
        None => default,
    }
}

/// What is known of a feature after one more line about it.
pub open spec fn history_with(h: FeatureHistory, r: RecoveredRecord) -> FeatureHistory {
    if r.event@ == "worker-start"@ {
        FeatureHistory { started: true, ..h }
    } else if r.event@ == "worker-finish"@ {
        FeatureHistory {
            finish: Some(
                (
                    or_else(opt_text(r.worker_exit_status), "error"@),
                    or_else(opt_text(r.verdict), "unknown"@),
                ),
            ),
            ..h
        }
    } else if r.event@ == "rescue-ref-written"@ && r.ref_name is Some {
        FeatureHistory { rescue_ref: opt_text(r.ref_name), ..h }
    } else {
        h
    }
}

/// What is known of a feature from a journal. A line that could not be read
/// (`None`) tells nothing.
pub open spec fn history(records: Seq<Option<RecoveredRecord>>, id: Seq<char>) -> FeatureHistory
    decreases records.len(),
{
    if records.len() == 0 {
        no_history()
    } else {
        let before = history(records.drop_last(), id);
        match records.last() {
            Some(r) => if r.feature_id@ == id {
                history_with(before, r)
            } else {
                before
            },
            None => before,
        }
    }
}

/// The outcome that a history stands for: how the worker ended, if it did; an error
/// if it only began; nothing if it did neither.
pub open spec fn outcome_from(id: Seq<char>, h: FeatureHistory) -> Option<OutcomeView> {
    let ended = match h.finish {
        Some(f) => Some(f),
        None => if h.started {
            Some(("error"@, "unknown"@))
        } else {
            None
        },
    };
    match ended {
        Some((status, verdict)) => Some(
            OutcomeView {
                feature_id: id,
                worker_identity: "<recovered>"@,
                verdict,
                worker_exit_status: status,
                exit_code: -1,
                duration_ms: 0,
                stdout_path: Seq::empty(),
                drain_truncated: false,
                error: None,
                rescue_ref: h.rescue_ref,
            },
        ),
        None => None,
    }
}

/// Whether `outcomes` are those of the features in a journal: one for each that has
/// one, in the order of their ids.
pub open spec fn recovers(
    outcomes: Seq<OutcomeView>,
    records: Seq<Option<RecoveredRecord>>,
) -> bool {
    &&& forall|i: int, j: int|
        0 <= i < j < outcomes.len() ==> text_lt(
            (#[trigger] outcomes[i]).feature_id,
            (#[trigger] outcomes[j]).feature_id,
        )
    &&& forall|i: int|
        0 <= i < outcomes.len() ==> outcome_from(
            (#[trigger] outcomes[i]).feature_id,
            history(records, outcomes[i].feature_id),
        ) == Some(outcomes[i])
    &&& forall|id: Seq<char>| #[trigger]
        outcome_from(id, history(records, id)) is Some ==> exists|i: int|
            0 <= i < outcomes.len() && (#[trigger] outcomes[i]).feature_id == id
}

/// What is known of one feature.
#[derive(Debug)]
pub struct Agg {
    pub seen_start: bool,
    pub finish: Option<(String, String)>,
    pub rescue_ref: Option<String>,
}

impl View for Agg {
    type V = FeatureHistory;

    open spec fn view(&self) -> FeatureHistory {
        FeatureHistory {
            started: self.seen_start,
            finish: match self.finish {
                Some((s, v)) => Some((s@, v@)),
                None => None,
            },
            rescue_ref: opt_text(self.rescue_ref),
        }
    }
}

/// What a map of histories holds for a feature.
pub open spec fn held(map: Map<Seq<char>, Agg>, id: Seq<char>) -> FeatureHistory {
    if map.dom().contains(id) {
        map[id]@
    } else {
        no_history()
    }
}

fn copy_agg(a: &Agg) -> (r: Agg)
    ensures
        r@ == a@,
{
    Agg {
        seen_start: a.seen_start,
        finish: match &a.finish {
            Some((s, v)) => Some((s.clone(), v.clone())),
            None => None,
        },
        rescue_ref: clone_text(&a.rescue_ref),
    }
}

fn text_or(o: &Option<String>, default: &str) -> (r: String)
    ensures
        r@ == or_else(opt_text(*o), default@),
{
    match o {
        Some(s) => s.clone(),
        None => default.to_owned(),
    }
}

fn advance(a: Agg, r: &RecoveredRecord) -> (b: Agg)
    ensures
        b@ == history_with(a@, *r),
{
    let mut b = a;
    if same_text(&r.event, "worker-start") {
        b.seen_start = true;
    } else if same_text(&r.event, "worker-finish") {
        let status = text_or(&r.worker_exit_status, "error");
        let verdict = text_or(&r.verdict, "unknown");
        b.finish = Some((status, verdict));
    } else if same_text(&r.event, "rescue-ref-written") && r.ref_name.is_some() {
        b.rescue_ref = clone_text(&r.ref_name);
    }
    b
}

fn collect_histories(records: &Vec<Option<RecoveredRecord>>) -> (r: SortedMap<Agg>)
    ensures
        r.wf(),
        forall|id: Seq<char>| #[trigger] held(r.as_map(), id) == history(records@, id),
{
    let mut aggs: SortedMap<Agg> = SortedMap::new();
    let mut i: usize = 0;
    proof {
        assert(records@.take(0) =~= Seq::empty());
    }
    while i < records.len()
        invariant
            i <= records.len(),
            aggs.wf(),
            forall|id: Seq<char>| #[trigger]
                held(aggs.as_map(), id) == history(records@.take(i as int), id),
        decreases records.len() - i,
    {
        let ghost before = aggs.as_map();
        proof {
            assert(records@.take(i + 1).drop_last() =~= records@.take(i as int));
            assert(records@.take(i + 1).last() == records@[i as int]);
        }
        if let Some(r) = &records[i] {
            let old_agg = match aggs.position(&r.feature_id) {
                Some(k) => copy_agg(&aggs.entries[k].1),
                None => Agg { seen_start: false, finish: None, rescue_ref: None },
            };
            proof {
                assert(old_agg@ == held(before, r.feature_id@));
            }
            let new_agg = advance(old_agg, r);
            let ghost entered = new_agg;
            aggs.insert(r.feature_id.clone(), new_agg);
            proof {
                assert forall|id: Seq<char>| #[trigger]
                    held(aggs.as_map(), id) == history(records@.take(i + 1), id) by {
                    assert(held(before, id) == history(records@.take(i as int), id));
                    if id == r.feature_id@ {
                        assert(aggs.as_map()[id] == entered);
                    }
                }
            }
        } else {
            proof {
                assert forall|id: Seq<char>| #[trigger]
                    held(aggs.as_map(), id) == history(records@.take(i + 1), id) by {
                    assert(held(before, id) == history(records@.take(i as int), id));
                }
            }
        }
        i = i + 1;
    }
    proof {
        assert(records@.take(i as int) =~= records@);
    }
    aggs
}

fn recovered_outcome(id: &str, a: &Agg) -> (r: Option<FeatureOutcome>)
    ensures
        match r {
            Some(o) => outcome_from(id@, a@) == Some(o@),
            None => outcome_from(id@, a@) is None,
        },
{
    let (worker_exit_status, verdict) = match &a.finish {
        Some((s, v)) => (s.clone(), v.clone()),
        None => {
            if !a.seen_start {
                return None;
            }
            ("error".to_owned(), "unknown".to_owned())
        },
    };
    Some(
        FeatureOutcome {
            feature_id: id.to_owned(),
            worker_identity: "<recovered>".to_owned(),
            verdict,
            worker_exit_status,
            exit_code: -1,
            duration_ms: 0,
            stdout_path: String::new(),
            drain_truncated: false,
            error: None,
            rescue_ref: clone_text(&a.rescue_ref),
        },
    )
}

/// The report of a run that was killed, from the lines of its journal.
pub fn synthesize_report(records: &Vec<Option<RecoveredRecord>>) -> (r: DispatchReport)
    ensures
        r.started_at_ms == 0,
        r.elapsed_ms == 0,
        r.dispatched_count == r.outcomes@.len(),
        recovers(r@.outcomes, records@),
{
    let aggs = collect_histories(records);
    let ghost entries = aggs.entries@;
    let mut outcomes: Vec<FeatureOutcome> = Vec::new();
    let mut n: usize = 0;
    while n < aggs.entries.len()
        invariant
            aggs.wf(),
            entries == aggs.entries@,
            forall|id: Seq<char>| #[trigger] held(aggs.as_map(), id) == history(records@, id),
            n <= aggs.entries.len(),
            forall|i: int, j: int|
                0 <= i < j < outcomes@.len() ==> text_lt(
                    (#[trigger] outcomes@[i])@.feature_id,
                    (#[trigger] outcomes@[j])@.feature_id,
                ),
            forall|i: int|
                0 <= i < outcomes@.len() ==> outcome_from(
                    (#[trigger] outcomes@[i])@.feature_id,
                    history(records@, outcomes@[i]@.feature_id),
                ) == Some(outcomes@[i]@),
            forall|i: int, k: int|
                0 <= i < outcomes@.len() && n <= k < entries.len() ==> text_lt(
                    (#[trigger] outcomes@[i])@.feature_id,
                    (#[trigger] entries[k]).0@,
                ),
            forall|k: int|
                0 <= k < n && outcome_from(
                    (#[trigger] entries[k]).0@,
                    history(records@, entries[k].0@),
                ) is Some ==> exists|i: int|
                    0 <= i < outcomes@.len() && (#[trigger] outcomes@[i])@.feature_id
                        == entries[k].0@,
        decreases aggs.entries.len() - n,
    {
        let ghost before = outcomes@;
        let ghost id = entries[n as int].0@;
        proof {
            lemma_key_index(entries, n as int);
            assert(held(aggs.as_map(), id) == history(records@, id));
        }
        let entry = recovered_outcome(&aggs.entries[n].0, &aggs.entries[n].1);
        if let Some(o) = entry {
            outcomes.push(o);
            proof {
                assert forall|i: int, j: int| 0 <= i < j < outcomes@.len() implies text_lt(
                    (#[trigger] outcomes@[i])@.feature_id,
                    (#[trigger] outcomes@[j])@.feature_id,
                ) by {
                    assert(outcomes@[i] == before[i]);
                    if j < before.len() {
                        assert(outcomes@[j] == before[j]);
                    } else {
                        assert(text_lt(before[i]@.feature_id, entries[n as int].0@));
                    }
                }
                assert forall|i: int, k: int|
                    0 <= i < outcomes@.len() && n + 1 <= k < entries.len() implies text_lt(
                    (#[trigger] outcomes@[i])@.feature_id,
                    (#[trigger] entries[k]).0@,
                ) by {
                    if i < before.len() {
                        assert(outcomes@[i] == before[i]);
                    } else {
                        assert(text_lt(entries[n as int].0@, entries[k].0@));
                    }
                }
                assert forall|k: int|
                    0 <= k < n + 1 && outcome_from(
                        (#[trigger] entries[k]).0@,
                        history(records@, entries[k].0@),
                    ) is Some implies exists|i: int|
                    0 <= i < outcomes@.len() && (#[trigger] outcomes@[i])@.feature_id
                        == entries[k].0@ by {
                    if k < n {
                        let i = choose|i: int|
                            0 <= i < before.len() && (#[trigger] before[i])@.feature_id
                                == entries[k].0@;
                        assert(outcomes@[i] == before[i]);
                    } else {
                        assert(outcomes@[before.len() as int]@.feature_id == id);
                    }
                }
            }
        }
        n = n + 1;
    }
    proof {
        let all = views(outcomes@);
        assert forall|i: int, j: int| 0 <= i < j < all.len() implies text_lt(
            (#[trigger] all[i]).feature_id,
            (#[trigger] all[j]).feature_id,
        ) by {
            assert(text_lt(outcomes@[i]@.feature_id, outcomes@[j]@.feature_id));
        }
        assert forall|i: int| 0 <= i < all.len() implies outcome_from(
            (#[trigger] all[i]).feature_id,
            history(records@, all[i].feature_id),
        ) == Some(all[i]) by {
            assert(all[i] == outcomes@[i]@);
        }
        assert forall|id: Seq<char>| #[trigger]
            outcome_from(id, history(records@, id)) is Some implies exists|i: int|
            0 <= i < all.len() && (#[trigger] all[i]).feature_id == id by {
            assert(held(aggs.as_map(), id) == history(records@, id));
            assert(aggs.as_map().dom().contains(id));
            assert(has_key(entries, id));
            let k = index_of_key(entries, id);
            assert(entries[k].0@ == id);
            let i = choose|i: int|
                0 <= i < outcomes@.len() && (#[trigger] outcomes@[i])@.feature_id
                    == entries[k].0@;
            assert(all[i].feature_id == id);
        }
    }
    let dispatched_count = outcomes.len();
    DispatchReport { started_at_ms: 0, elapsed_ms: 0, dispatched_count, outcomes }
}

/// What a JSON value is.
#[derive(Debug, Clone, Copy, PartialEq, Eq, Structural)]
pub enum JsonKind {
    Null,
    Bool,
    Number,
    Text,
    Array,
    Object,
}

pub open spec fn kind_of(v: JsonView) -> JsonKind {
    match v {
        JsonView::Null => JsonKind::Null,
        JsonView::Bool(_) => JsonKind::Bool,
        JsonView::Int(_) => JsonKind::Number,
        JsonView::Str(_) => JsonKind::Text,
        JsonView::Array(_) => JsonKind::Array,
        JsonView::Object(_) => JsonKind::Object,
    }
}

/// The kind of the member `name` among members; of several the last counts.
pub open spec fn kind_of_member(members: Seq<(Seq<char>, JsonView)>, name: Seq<char>) -> Option<
    JsonKind,
>
    decreases members.len(),
{
    if members.len() == 0 {
        None
    } else if members.last().0 == name {
        Some(kind_of(members.last().1))
    } else {
        kind_of_member(members.drop_last(), name)
    }
}

/// Whether a value nests at most `depth` deep and its numbers fit 64 bits.
pub open spec fn is_readable(v: JsonView, depth: nat) -> bool
    decreases depth,
{
    match v {
        JsonView::Int(n) => i64::MIN <= n <= u64::MAX,
        JsonView::Array(items) => depth > 0 && forall|i: int|
            0 <= i < items.len() ==> is_readable(#[trigger] items[i], (depth - 1) as nat),
        JsonView::Object(members) => depth > 0 && forall|i: int|
            0 <= i < members.len() ==> is_readable(
                (#[trigger] members[i]).1,
                (depth - 1) as nat,
            ),
        _ => true,
    }
}

/// The kind of the member `name` of the object that a text is as JSON; `None` where
/// the text is not JSON, not an object, or has no such member.
pub uninterp spec fn json_member_kind(text: Seq<char>, name: Seq<char>) -> Option<JsonKind>;

/// Calls `serde_json::from_str` on a text and looks `name` up in the value that it
/// gives. Claims that the result depends on the two texts alone, and that a text
/// which is the written form of an object reads back as that object: a number stays
/// a number and so on. `serde_json` stops at values nested 128 deep, and a number of
/// more than 64 bits may be beyond it, so this is claimed of others only.
#[verifier::external_body]
fn member_kind(text: &str, name: &str) -> (r: Option<JsonKind>)
    ensures
        r == json_member_kind(text@, name@),
        forall|members: Seq<(Seq<char>, JsonView)>, pretty: bool|
            is_readable(JsonView::Object(members), 127) && text@ == #[trigger] rendered(
                JsonView::Object(members),
                Seq::empty(),
                pretty,
            ) ==> r == kind_of_member(members, name@),
{
    let value = serde_json::from_str::<serde_json::Value>(text).ok()?;
    match value.get(name)? {
        serde_json::Value::Null => Some(JsonKind::Null),
        serde_json::Value::Bool(_) => Some(JsonKind::Bool),
        serde_json::Value::Number(_) => Some(JsonKind::Number),
        serde_json::Value::String(_) => Some(JsonKind::Text),
        serde_json::Value::Array(_) => Some(JsonKind::Array),
        serde_json::Value::Object(_) => Some(JsonKind::Object),
    }
}

/// Whether a text has the shape of a dispatch log: an object with an array
/// `outcomes` and a number `dispatched_count`.
pub open spec fn has_log_shape(text: Seq<char>) -> bool {
    json_member_kind(text, "outcomes"@) == Some(JsonKind::Array) && json_member_kind(
        text,
        "dispatched_count"@,
    ) == Some(JsonKind::Number)
}

/// Whether the kinds of the two members are those of a dispatch log.
pub fn is_log_shape(outcomes: Option<JsonKind>, count: Option<JsonKind>) -> (r: bool)
    ensures
        r == (outcomes == Some(JsonKind::Array) && count == Some(JsonKind::Number)),
{
    let array = match outcomes {
        Some(JsonKind::Array) => true,
        _ => false,
    };
    let number = match count {
        Some(JsonKind::Number) => true,
        _ => false,
    };
    array && number
}

/// Whether the numbers of a report are those of a machine.
spec fn report_fits(r: ReportView) -> bool {
    &&& r.started_at_ms <= u64::MAX
    &&& r.dispatched_count <= u64::MAX
    &&& forall|i: int|
        0 <= i < r.outcomes.len() ==> i32::MIN <= (#[trigger] r.outcomes[i]).exit_code <= i32::MAX
}

proof fn lemma_report_fits(r: DispatchReport)
    ensures
        report_fits(r@),
{
    assert forall|i: int| 0 <= i < r@.outcomes.len() implies i32::MIN <= (
    #[trigger] r@.outcomes[i]).exit_code <= i32::MAX by {
        lemma_exit_code_fits(r.outcomes@[i]);
    }
}

proof fn lemma_exit_code_fits(o: FeatureOutcome)
    ensures
        i32::MIN <= o@.exit_code <= i32::MAX,
{
}

proof fn lemma_outcome_readable(o: OutcomeView)
    requires
        i32::MIN <= o.exit_code <= i32::MAX,
    ensures
        is_readable(outcome_json(o), 125),
{
    let members = outcome_json(o)->Object_0;
    reveal_with_fuel(is_readable, 3);
    assert forall|i: int| 0 <= i < members.len() implies is_readable(
        (#[trigger] members[i]).1,
        124,
    ) by {
        assert(members.len() == 10);
        assert(0 <= low_64_bits(o.duration_ms) <= u64::MAX);
        if i == 1 {
            assert(members[1].1 == JsonView::Int(low_64_bits(o.duration_ms)));
        } else if i == 3 {
            assert(members[3].1 == JsonView::Int(o.exit_code));
        }
    }
}

proof fn lemma_report_readable(r: ReportView)
    requires
        report_fits(r),
    ensures
        is_readable(report_json(r), 127),
{
    let members = report_json(r)->Object_0;
    let items = Seq::new(r.outcomes.len(), |i: int| outcome_json(r.outcomes[i]));
    assert(is_readable(JsonView::Array(items), 126)) by {
        assert forall|i: int| 0 <= i < items.len() implies is_readable(#[trigger] items[i], 125) by {
            lemma_outcome_readable(r.outcomes[i]);
        }
    }
    assert forall|i: int| 0 <= i < members.len() implies is_readable(
        (#[trigger] members[i]).1,
        126,
    ) by {
        assert(members.len() == 5);
        assert(0 <= low_64_bits(r.elapsed_ms) <= u64::MAX);
        if i == 0 {
            assert(members[0].1 == JsonView::Int(r.dispatched_count as int));
        } else if i == 1 {
            assert(members[1].1 == JsonView::Int(low_64_bits(r.elapsed_ms)));
        } else if i == 2 {
            assert(members[2].1 == JsonView::Array(items));
        } else if i == 3 {
            assert(members[3].1 == JsonView::Int(1));
        } else {
            assert(members[4].1 == JsonView::Int(r.started_at_ms as int));
        }
    }
}

proof fn lemma_report_members(r: ReportView)
    ensures
        kind_of_member(report_json(r)->Object_0, "outcomes"@) == Some(JsonKind::Array),
        kind_of_member(report_json(r)->Object_0, "dispatched_count"@) == Some(JsonKind::Number),
{
    reveal_strlit("dispatched_count");
    reveal_strlit("elapsed_ms");
    reveal_strlit("outcomes");
    reveal_strlit("schema");
    reveal_strlit("started_at_ms");
    assert("outcomes"@[0] != "schema"@[0]);
    assert("outcomes"@[0] != "started_at_ms"@[0]);
    assert("dispatched_count"@[0] != "elapsed_ms"@[0]);
    assert("dispatched_count"@[0] != "outcomes"@[0]);
    assert("dispatched_count"@[0] != "schema"@[0]);
    assert("dispatched_count"@[0] != "started_at_ms"@[0]);
    let m5 = report_json(r)->Object_0;
    let m4 = m5.drop_last();
    let m3 = m4.drop_last();
    let m2 = m3.drop_last();
    let m1 = m2.drop_last();
    assert(m5.last().0 == "started_at_ms"@);
    assert(m4.last().0 == "schema"@);
    assert(m3.last().0 == "outcomes"@ && kind_of(m3.last().1) == JsonKind::Array);
    assert(m2.last().0 == "elapsed_ms"@);
    assert(m1.last().0 == "dispatched_count"@ && kind_of(m1.last().1) == JsonKind::Number);
    reveal_with_fuel(kind_of_member, 6);
}

/// Whether a dispatch log (`None` where it could not be read) has the shape of one.
/// Every log that a report was written to has.
pub fn dispatch_log_is_valid(log: &Option<String>) -> (r: bool)
    ensures
        r == (match opt_text(*log) {
            Some(text) => has_log_shape(text),
            None => false,
        }),
        forall|report: DispatchReport|
            opt_text(*log) == Some(
                #[trigger] rendered(report_json(report@), Seq::empty(), true),
            ) ==> r,
{
    match log {
        None => false,
        Some(text) => {
            let outcomes = member_kind(text, "outcomes");
            let count = member_kind(text, "dispatched_count");
            proof {
                assert forall|report: DispatchReport|
                    opt_text(*log) == Some(
                        #[trigger] rendered(report_json(report@), Seq::empty(), true),
                    ) implies outcomes == Some(JsonKind::Array) && count == Some(
                    JsonKind::Number,
                ) by {
                    lemma_report_fits(report);
                    lemma_report_readable(report@);
                    lemma_report_members(report@);
                }
            }
            is_log_shape(outcomes, count)
        },
    }
}

/// The lines of a journal that hold anything, without the whitespace around them.
pub open spec fn lines_of(content: Seq<char>) -> Seq<Seq<char>> {
    full_lines(split_on(content, '\n'))
}

pub open spec fn full_lines(lines: Seq<Seq<char>>) -> Seq<Seq<char>>
    decreases lines.len(),
{
    if lines.len() == 0 {
        Seq::empty()
    } else {
        let before = full_lines(lines.drop_last());
        if trimmed(lines.last()).len() == 0 {
            before
        } else {
            before.push(trimmed(lines.last()))
        }
    }
}

pub fn journal_lines(content: &str) -> (r: Vec<String>)
    ensures
        views(r@) == lines_of(content@),
{
    let lines = split_char(content, '\n');
    let ghost all = views(lines@);
    let mut out: Vec<String> = Vec::new();
    let mut i: usize = 0;
    proof {
        assert(views(out@) =~= full_lines(all.take(0)));
    }
    while i < lines.len()
        invariant
            all == views(lines@),
            i <= lines.len(),
            views(out@) == full_lines(all.take(i as int)),
        decreases lines.len() - i,
    {
        let ghost before = views(out@);
        proof {
            assert(all.take(i + 1).drop_last() =~= all.take(i as int));
            assert(all.take(i + 1).last() == lines@[i as int]@);
        }
        let line = trim(&lines[i]);
        if !line.as_str().is_empty() {
            let ghost text = line@;
            out.push(line);
            proof {
                assert(views(out@) =~= before.push(text));
            }
        }
        i = i + 1;
    }
    proof {
        assert(all.take(i as int) =~= all);
    }
    out
}

/// The lines of records, without their line breaks.
pub open spec fn record_texts(records: Seq<JournalRecord>) -> Seq<Seq<char>> {
    Seq::new(records.len(), |i: int| record_line(records[i]).drop_last())
}

#[verifier::rlimit(40)]
proof fn lemma_journal_splits(records: Seq<JournalRecord>, tail: Seq<char>)
    requires
        on_one_line(tail),
    ensures
        split_on(journal_content(records) + tail, '\n') == record_texts(records).push(tail),
    decreases records.len(),
{
    if records.len() == 0 {
        assert(journal_content(records) + tail =~= tail);
        lemma_split_whole(tail, '\n');
        assert(record_texts(records).push(tail) =~= seq![tail]);
    } else {
        let before = records.drop_last();
        let line = record_line(records.last());
        law_record_is_one_line(records.last());
        lemma_journal_splits(before, line.drop_last());
        let a = journal_content(before) + line.drop_last();
        assert(journal_content(records) + tail =~= a.push('\n') + tail);
        lemma_split_piece(a, tail, '\n');
        assert(record_texts(records) =~= record_texts(before).push(line.drop_last()));
    }
}

proof fn lemma_texts_are_full(records: Seq<JournalRecord>)
    ensures
        full_lines(record_texts(records)) == record_texts(records),
    decreases records.len(),
{
    let texts = record_texts(records);
    if records.len() > 0 {
        let before = records.drop_last();
        let text = record_line(records.last()).drop_last();
        law_record_is_one_line(records.last());
        lemma_texts_are_full(before);
        assert(texts.drop_last() =~= record_texts(before));
        assert(texts.last() == text);
        assert(text[0] == '{');
        assert(trimmed(text) == text);
        assert(texts =~= record_texts(before).push(text));
    }
}

/// Each record that was appended to a journal is read back as a line of its own,
/// whatever texts it holds, also where the last write was cut short: what was written
/// of it is at most one more line.
pub proof fn law_torn_write_loses_no_record(records: Seq<JournalRecord>, torn: Seq<char>)
    requires
        on_one_line(torn),
    ensures
        lines_of(journal_content(records) + torn) == record_texts(records) + (if trimmed(
            torn,
        ).len() == 0 {
            Seq::empty()
        } else {
            seq![trimmed(torn)]
        }),
{
    lemma_journal_splits(records, torn);
    lemma_texts_are_full(records);
    let texts = record_texts(records);
    assert(texts.push(torn).drop_last() =~= texts);
    assert(texts + Seq::<Seq<char>>::empty() =~= texts);
    assert(texts.push(trimmed(torn)) =~= texts + seq![trimmed(torn)]);
}

/// The journal of an earlier run.
#[derive(Debug)]
pub struct OrphanJournal {
    pub path: String,
    pub run_id: String,
    /// Where the dispatch log of that run would be.
    pub log_path: String,
}

pub open spec fn orphan_views(v: Seq<OrphanJournal>) -> Seq<(Seq<char>, Seq<char>, Seq<char>)> {
    Seq::new(v.len(), |i: int| (v[i].path@, v[i].run_id@, v[i].log_path@))
}

/// The journals among files, in order, each with its run and that run's log.
pub open spec fn orphans_among(paths: Seq<Seq<char>>, loom_dir: Seq<char>) -> Seq<
    (Seq<char>, Seq<char>, Seq<char>),
>
    decreases paths.len(),
{
    if paths.len() == 0 {
        Seq::empty()
    } else {
        let before = orphans_among(paths.drop_last(), loom_dir);
        match run_of_journal(paths.last()) {
            Some(id) => before.push((paths.last(), id, path_join(loom_dir, dispatch_log_name(id)))),
            None => before,
        }
    }
}

/// Finds the journals that earlier runs left among the files of `.loom`, and gives
/// the proof that they were looked for.
pub fn recover_orphan_runs(paths: &Vec<String>, loom_dir: &str) -> (r: (
    RecoveryDone,
    Vec<OrphanJournal>,
))
    ensures
        orphan_views(r.1@) == orphans_among(views(paths@), loom_dir@),
{
    let ghost all = views(paths@);
    let mut out: Vec<OrphanJournal> = Vec::new();
    let mut i: usize = 0;
    proof {
        assert(orphan_views(out@) =~= orphans_among(all.take(0), loom_dir@));
    }
    while i < paths.len()
        invariant
            all == views(paths@),
            i <= paths.len(),
            orphan_views(out@) == orphans_among(all.take(i as int), loom_dir@),
        decreases paths.len() - i,
    {
        let ghost before = orphan_views(out@);
        proof {
            assert(all.take(i + 1).drop_last() =~= all.take(i as int));
            assert(all.take(i + 1).last() == paths@[i as int]@);
        }
        if let Some(run_id) = journal_run_id(&paths[i]) {
            let log_path = dispatch_log_path(loom_dir, &run_id);
            let orphan = OrphanJournal { path: paths[i].clone(), run_id, log_path };
            out.push(orphan);
            proof {
                assert(orphan_views(out@) =~= before.push(
                    (orphan.path@, orphan.run_id@, orphan.log_path@),
                ));
            }
        }
        i = i + 1;
    }
    proof {
        assert(all.take(i as int) =~= all);
    }
    (RecoveryDone { seal: () }, out)
}

/// What to do about the journal of an earlier run: first write the log, if there is
/// one to write, then rename the journal.
#[derive(Debug)]
pub struct Reconciliation {
    pub log: Option<FileWrite>,
    pub done_path: String,
}

/// The name that a journal gets once it is dealt with.
pub open spec fn done_path_of(path: Seq<char>) -> Seq<char> {
    path + ".done"@
}

/// Whether a log is written for a journal: only if there is no valid one, and the
/// journal tells of some worker.
pub open spec fn log_is_due(log_valid: bool, records: Seq<Option<RecoveredRecord>>) -> bool {
    !log_valid && exists|id: Seq<char>| outcome_from(id, #[trigger] history(records, id)) is Some
}

/// Decides about the journal of an earlier run. `log_valid` says whether that run's
/// dispatch log is already there; then the journal's lines do not matter.
pub fn reconcile(
    journal: &OrphanJournal,
    log_valid: bool,
    records: &Vec<Option<RecoveredRecord>>,
    loom_dir: &str,
) -> (r: Reconciliation)
    ensures
        r.done_path@ == done_path_of(journal.path@),
        r.log is Some <==> log_is_due(log_valid, records@),
        r.log matches Some(w) ==> {
            &&& w.path@ == path_join(loom_dir@, dispatch_log_name(journal.run_id@))
            &&& exists|report: DispatchReport|
                {
                    &&& w.contents@ == #[trigger] rendered(
                        report_json(report@),
                        Seq::empty(),
                        true,
                    )
                    &&& report.started_at_ms == 0
                    &&& report.elapsed_ms == 0
                    &&& report.dispatched_count == report.outcomes@.len()
                    &&& recovers(report@.outcomes, records@)
                }
        },
{
    let mut done_path = journal.path.clone();
    done_path.append(".done");
    if log_valid {
        return Reconciliation { log: None, done_path };
    }
    let report = synthesize_report(records);
    if report.outcomes.len() == 0 {
        proof {
            assert forall|id: Seq<char>|
                outcome_from(id, #[trigger] history(records@, id)) is None by {
                if outcome_from(id, history(records@, id)) is Some {
                    assert(exists|i: int|
                        0 <= i < report@.outcomes.len() && (
                        #[trigger] report@.outcomes[i]).feature_id == id);
                }
            }
        }
        return Reconciliation { log: None, done_path };
    }
    proof {
        let id = report@.outcomes[0].feature_id;
        assert(outcome_from(id, history(records@, id)) == Some(report@.outcomes[0]));
    }
    let written = write_dispatch_log(&report, loom_dir, &journal.run_id);
    Reconciliation { log: Some(written), done_path }
}

/// A worker that ended is recorded as it ended last, wherever its start stands: no
/// line about a start can turn a finished worker into an error.
pub proof fn law_finish_wins(records: Seq<Option<RecoveredRecord>>, i: int, id: Seq<char>)
    requires
        0 <= i < records.len(),
        records[i] matches Some(r) && r.feature_id@ == id && r.event@ == "worker-finish"@,
        forall|j: int|
            i < j < records.len() ==> !(#[trigger] records[j] matches Some(r) && r.feature_id@ == id
                && r.event@ == "worker-finish"@),
    ensures
        history(records, id).finish == Some(
            (
                or_else(opt_text(records[i]->Some_0.worker_exit_status), "error"@),
                or_else(opt_text(records[i]->Some_0.verdict), "unknown"@),
            ),
        ),
        outcome_from(id, history(records, id)) matches Some(o) && o.worker_exit_status == or_else(
            opt_text(records[i]->Some_0.worker_exit_status),
            "error"@,
        ) && o.verdict == or_else(opt_text(records[i]->Some_0.verdict), "unknown"@),
    decreases records.len(),
{
    reveal_strlit("worker-start");
    reveal_strlit("worker-finish");
    assert("worker-start"@[7] != "worker-finish"@[7]);
    if i < records.len() - 1 {
        let t = records.drop_last();
        assert(t[i] == records[i]);
        assert forall|j: int| i < j < t.len() implies !(#[trigger] t[j] matches Some(r)
            && r.feature_id@ == id && r.event@ == "worker-finish"@) by {
            assert(t[j] == records[j]);
        }
        law_finish_wins(t, i, id);
        assert(records.last() == records[records.len() - 1]);
    }
}

/// A worker that began and never ended is recorded as an error without a verdict.
pub proof fn law_start_alone_is_an_error(records: Seq<Option<RecoveredRecord>>, id: Seq<char>)
    requires
        exists|i: int|
            0 <= i < records.len() && (#[trigger] records[i] matches Some(r) && r.feature_id@ == id
                && r.event@ == "worker-start"@),
        forall|j: int|
            0 <= j < records.len() ==> !(#[trigger] records[j] matches Some(r) && r.feature_id@
                == id && r.event@ == "worker-finish"@),
    ensures
        outcome_from(id, history(records, id)) matches Some(o) && o.worker_exit_status == "error"@
            && o.verdict == "unknown"@,
{
    lemma_start_seen(records, id);
}

proof fn lemma_start_seen(records: Seq<Option<RecoveredRecord>>, id: Seq<char>)
    requires
        forall|j: int|
            0 <= j < records.len() ==> !(#[trigger] records[j] matches Some(r) && r.feature_id@
                == id && r.event@ == "worker-finish"@),
    ensures
        history(records, id).finish is None,
        (exists|i: int|
            0 <= i < records.len() && (#[trigger] records[i] matches Some(r) && r.feature_id@ == id
                && r.event@ == "worker-start"@)) ==> history(records, id).started,
    decreases records.len(),
{
    if records.len() > 0 {
        let t = records.drop_last();
        assert forall|j: int| 0 <= j < t.len() implies !(#[trigger] t[j] matches Some(r)
            && r.feature_id@ == id && r.event@ == "worker-finish"@) by {
            assert(t[j] == records[j]);
        }
        lemma_start_seen(t, id);
        let last = records.len() - 1;
        assert(records.last() == records[last]);
        if exists|i: int|
            0 <= i < records.len() && (#[trigger] records[i] matches Some(r) && r.feature_id@ == id
                && r.event@ == "worker-start"@) {
            let i = choose|i: int|
                0 <= i < records.len() && (#[trigger] records[i] matches Some(r) && r.feature_id@
                    == id && r.event@ == "worker-start"@);
            if i < last {
                assert(t[i] == records[i]);
            }
        }
    }
}

/// A journal that was dealt with is not found again.
pub proof fn law_done_journal_is_not_found(path: Seq<char>)
    ensures
        run_of_journal(done_path_of(path)) is None,
        done_path_of(path).take(path.len() as int) == path,
{
    reveal_strlit(".done");
    reveal_strlit(".ndjson");
    let p = done_path_of(path);
    assert(p.take(path.len() as int) =~= path);
    let n = p.len() as int;
    assert(p[n - 1] == 'e');
    assert(p.last() == 'e');
    assert(crate::paths::path_body(p) == p);
    if let Some(name) = path_name(p) {
        crate::text::lemma_last_index(p, '/');
        let at = crate::text::last_index(p, '/');
        assert(name == p.skip(at + 1));
        assert(name[name.len() - 1] == p[n - 1]);
        if let Some(rest) = after_prefix(name, "journal-"@) {
            if crate::text::has_suffix(rest, ".ndjson"@) {
                let k = rest.len() - 7;
                assert(rest.subrange(k, k + 7)[6] == ".ndjson"@[6]);
                assert(rest[rest.len() - 1] == 'n');
                assert(rest.last() == name.last());
            }
        }
    }
}

/// The journal that a run makes is found under the run's id by the next one.
pub proof fn law_journal_is_found(loom_dir: Seq<char>, run_id: Seq<char>)
    requires
        loom_dir.len() > 0,
        run_id.len() > 0,
        forall|i: int| 0 <= i < run_id.len() ==> #[trigger] run_id[i] != '/',
    ensures
        run_of_journal(path_join(loom_dir, journal_name(run_id))) == Some(run_id),
{
    reveal_strlit("journal-");
    reveal_strlit(".ndjson");
    let name = journal_name(run_id);
    assert forall|i: int| 0 <= i < name.len() implies #[trigger] name[i] != '/' by {
        if i < 8 {
            assert(name[i] == "journal-"@[i]);
        } else if i < 8 + run_id.len() {
            assert(name[i] == run_id[i - 8]);
        } else {
            assert(name[i] == ".ndjson"@[i - 8 - run_id.len()]);
        }
    }
    assert(name[0] == 'j');
    assert(name.len() > 2);
    crate::paths::law_name_of_join(loom_dir, name);
    assert(name.subrange(0, 8) =~= "journal-"@);
    let rest = name.skip(8);
    assert(rest =~= run_id + ".ndjson"@);
    assert(rest.subrange(rest.len() - 7, rest.len() as int) =~= ".ndjson"@);
    assert(rest.take(rest.len() - 7) =~= run_id);
}

/// The line at `i` could be read, and tells of this event of the feature.
pub open spec fn tells_of(
    records: Seq<Option<RecoveredRecord>>,
    i: int,
    id: Seq<char>,
    event: Seq<char>,
) -> bool {
    &&& 0 <= i < records.len()
    &&& records[i] is Some
    &&& records[i]->Some_0.feature_id@ == id
    &&& records[i]->Some_0.event@ == event
}

/// The line at `i` tells that a rescue ref of the feature was written, and names it.
pub open spec fn names_ref(
    records: Seq<Option<RecoveredRecord>>,
    i: int,
    id: Seq<char>,
) -> bool {
    tells_of(records, i, id, "rescue-ref-written"@) && records[i]->Some_0.ref_name is Some
}

proof fn lemma_ref_history(records: Seq<Option<RecoveredRecord>>, id: Seq<char>)
    ensures
        forall|i: int| #[trigger]
            names_ref(records, i, id) && (forall|j: int|
                i < j < records.len() ==> !#[trigger] names_ref(records, j, id)) ==> history(
                records,
                id,
            ).rescue_ref == Some(records[i]->Some_0.ref_name->Some_0@),
        (forall|i: int| !#[trigger] names_ref(records, i, id)) ==> history(
            records,
            id,
        ).rescue_ref is None,
    decreases records.len(),
{
    reveal_strlit("worker-start");
    reveal_strlit("worker-finish");
    reveal_strlit("rescue-ref-written");
    assert("worker-start"@[0] != "rescue-ref-written"@[0]);
    assert("worker-finish"@[0] != "rescue-ref-written"@[0]);
    if records.len() > 0 {
        let t = records.drop_last();
        let last = records.len() - 1;
        lemma_ref_history(t, id);
        assert forall|i: int| i != last implies #[trigger] names_ref(t, i, id) == names_ref(
            records,
            i,
            id,
        ) by {}
        assert(!names_ref(t, last, id));
        if !names_ref(records, last, id) {
            assert(history(records, id).rescue_ref == history(t, id).rescue_ref);
        }
        assert forall|i: int| #[trigger]
            names_ref(records, i, id) && (forall|j: int|
                i < j < records.len() ==> !#[trigger] names_ref(records, j, id)) implies history(
            records,
            id,
        ).rescue_ref == Some(records[i]->Some_0.ref_name->Some_0@) by {
            if i < last {
                assert(!names_ref(records, last, id));
                assert(names_ref(t, i, id));
                assert(t[i] == records[i]);
                assert forall|j: int| i < j < t.len() implies !#[trigger] names_ref(t, j, id) by {
                    assert(!names_ref(records, j, id));
                }
            }
        }
    }
}

proof fn lemma_began(records: Seq<Option<RecoveredRecord>>, id: Seq<char>)
    ensures
        history(records, id).started <==> exists|i: int| #[trigger]
            tells_of(records, i, id, "worker-start"@),
    decreases records.len(),
{
    let start = "worker-start"@;
    if records.len() > 0 {
        let t = records.drop_last();
        let last = records.len() - 1;
        lemma_began(t, id);
        if exists|i: int| #[trigger] tells_of(t, i, id, start) {
            let i = choose|i: int| #[trigger] tells_of(t, i, id, start);
            assert(tells_of(records, i, id, start));
        }
        if tells_of(records, last, id, start) {
            assert(history(records, id).started);
        } else {
            assert(history(records, id).started == history(t, id).started);
            if exists|i: int| #[trigger] tells_of(records, i, id, start) {
                let i = choose|i: int| #[trigger] tells_of(records, i, id, start);
                assert(tells_of(t, i, id, start));
            }
        }
    }
}

/// How a line about an end tells it.
spec fn end_in(r: RecoveredRecord) -> (Seq<char>, Seq<char>) {
    (
        match r.worker_exit_status {
            Some(word) => word@,
            None => "error"@,
        },
        match r.verdict {
            Some(word) => word@,
            None => "unknown"@,
        },
    )
}

proof fn lemma_end_step(records: Seq<Option<RecoveredRecord>>, id: Seq<char>)
    requires
        records.len() > 0,
    ensures
        tells_of(records, records.len() - 1, id, "worker-finish"@) ==> history(records, id).finish
            == Some(end_in(records.last()->Some_0)),
        !tells_of(records, records.len() - 1, id, "worker-finish"@) ==> history(records, id).finish
            == history(records.drop_last(), id).finish,
{
    reveal_strlit("worker-start");
    reveal_strlit("worker-finish");
    assert("worker-start"@[7] != "worker-finish"@[7]);
}

proof fn lemma_ended(records: Seq<Option<RecoveredRecord>>, id: Seq<char>)
    ensures
        history(records, id).finish is Some <==> exists|i: int| #[trigger]
            tells_of(records, i, id, "worker-finish"@),
    decreases records.len(),
{
    let finish = "worker-finish"@;
    if records.len() > 0 {
        let t = records.drop_last();
        let last = records.len() - 1;
        lemma_ended(t, id);
        lemma_end_step(records, id);
        if exists|i: int| #[trigger] tells_of(t, i, id, finish) {
            let i = choose|i: int| #[trigger] tells_of(t, i, id, finish);
            assert(tells_of(records, i, id, finish));
        }
        if !tells_of(records, last, id, finish) {
            if exists|i: int| #[trigger] tells_of(records, i, id, finish) {
                let i = choose|i: int| #[trigger] tells_of(records, i, id, finish);
                assert(tells_of(t, i, id, finish));
            }
        }
    }
}

proof fn lemma_last_end(records: Seq<Option<RecoveredRecord>>, id: Seq<char>, i: int)
    requires
        tells_of(records, i, id, "worker-finish"@),
        forall|j: int|
            i < j < records.len() ==> !#[trigger] tells_of(records, j, id, "worker-finish"@),
    ensures
        history(records, id).finish == Some(end_in(records[i]->Some_0)),
    decreases records.len(),
{
    let finish = "worker-finish"@;
    let t = records.drop_last();
    let last = records.len() - 1;
    lemma_end_step(records, id);
    if i < last {
        assert(!tells_of(records, last, id, finish));
        assert(tells_of(t, i, id, finish));
        assert(t[i] == records[i]);
        assert forall|j: int| i < j < t.len() implies !#[trigger] tells_of(t, j, id, finish) by {
            assert(!tells_of(records, j, id, finish));
        }
        lemma_last_end(t, id, i);
    }
}

/// The rescue ref of a recovered feature is the one that its last line about a ref
/// names, and there is none where no line names one, whatever its other lines say.
pub proof fn law_last_rescue_ref_is_recovered(
    outcomes: Seq<OutcomeView>,
    records: Seq<Option<RecoveredRecord>>,
    k: int,
)
    requires
        recovers(outcomes, records),
        0 <= k < outcomes.len(),
    ensures
        forall|i: int| #[trigger]
            names_ref(records, i, outcomes[k].feature_id) && (forall|j: int|
                i < j < records.len() ==> !#[trigger] names_ref(
                    records,
                    j,
                    outcomes[k].feature_id,
                )) ==> outcomes[k].rescue_ref == Some(records[i]->Some_0.ref_name->Some_0@),
        (forall|i: int|
            0 <= i < records.len() ==> !#[trigger] names_ref(records, i, outcomes[k].feature_id))
            ==> outcomes[k].rescue_ref is None,
{
    lemma_ref_history(records, outcomes[k].feature_id);
}

/// A recovered feature ended as its last line about an end says, word for word; a word
/// that is not there is told as an error without a verdict, and so is a feature that
/// only began. Nothing is made up: neither a worker's name nor an exit code, a time,
/// an output or a message.
pub proof fn law_last_end_is_recovered(
    outcomes: Seq<OutcomeView>,
    records: Seq<Option<RecoveredRecord>>,
    k: int,
)
    requires
        recovers(outcomes, records),
        0 <= k < outcomes.len(),
    ensures
        forall|i: int| #[trigger]
            tells_of(records, i, outcomes[k].feature_id, "worker-finish"@) && (forall|j: int|
                i < j < records.len() ==> !#[trigger] tells_of(
                    records,
                    j,
                    outcomes[k].feature_id,
                    "worker-finish"@,
                )) ==> {
                &&& records[i]->Some_0.worker_exit_status matches Some(word)
                    ==> outcomes[k].worker_exit_status == word@
                &&& records[i]->Some_0.worker_exit_status is None
                    ==> outcomes[k].worker_exit_status == "error"@
                &&& records[i]->Some_0.verdict matches Some(word) ==> outcomes[k].verdict == word@
                &&& records[i]->Some_0.verdict is None ==> outcomes[k].verdict == "unknown"@
            },
        (forall|i: int|
            0 <= i < records.len() ==> !#[trigger] tells_of(
                records,
                i,
                outcomes[k].feature_id,
                "worker-finish"@,
            )) ==> outcomes[k].worker_exit_status == "error"@ && outcomes[k].verdict == "unknown"@,
        outcomes[k].worker_identity == "<recovered>"@,
        outcomes[k].exit_code == -1,
        outcomes[k].duration_ms == 0,
        outcomes[k].stdout_path.len() == 0,
        !outcomes[k].drain_truncated,
        outcomes[k].error is None,
{
    let id = outcomes[k].feature_id;
    lemma_ended(records, id);
    assert forall|i: int| #[trigger]
        tells_of(records, i, id, "worker-finish"@) && (forall|j: int|
            i < j < records.len() ==> !#[trigger] tells_of(
                records,
                j,
                id,
                "worker-finish"@,
            )) implies history(records, id).finish == Some(end_in(records[i]->Some_0)) by {
        lemma_last_end(records, id, i);
    }
}

/// A feature is recovered if and only if some line tells that its worker began or
/// ended, and it is recovered once, in the order of the ids.
pub proof fn law_every_worker_is_recovered(
    outcomes: Seq<OutcomeView>,
    records: Seq<Option<RecoveredRecord>>,
    id: Seq<char>,
)
    requires
        recovers(outcomes, records),
    ensures
        (exists|k: int| 0 <= k < outcomes.len() && (#[trigger] outcomes[k]).feature_id == id) <==> (
        exists|i: int| #[trigger] tells_of(records, i, id, "worker-start"@)) || (exists|i: int|
            #[trigger] tells_of(records, i, id, "worker-finish"@)),
        forall|j: int, k: int|
            0 <= j < outcomes.len() && 0 <= k < outcomes.len() && (#[trigger] outcomes[j]).feature_id
                == (#[trigger] outcomes[k]).feature_id ==> j == k,
        forall|j: int, k: int|
            0 <= j < k < outcomes.len() ==> text_lt(
                (#[trigger] outcomes[j]).feature_id,
                (#[trigger] outcomes[k]).feature_id,
            ),
{
    lemma_began(records, id);
    lemma_ended(records, id);
    assert(outcome_from(id, history(records, id)) is Some <==> (exists|i: int| #[trigger]
        tells_of(records, i, id, "worker-start"@)) || (exists|i: int| #[trigger]
        tells_of(records, i, id, "worker-finish"@)));
    assert forall|j: int, k: int|
        0 <= j < outcomes.len() && 0 <= k < outcomes.len() && (#[trigger] outcomes[j]).feature_id
            == (#[trigger] outcomes[k]).feature_id implies j == k by {
        law_text_order_total(outcomes[j].feature_id, outcomes[k].feature_id);
    }
}

/// The line at `i` could be read, and tells that some worker began or ended.
pub open spec fn tells_of_a_worker(records: Seq<Option<RecoveredRecord>>, i: int) -> bool {
    &&& 0 <= i < records.len()
    &&& records[i] is Some
    &&& records[i]->Some_0.event@ == "worker-start"@ || records[i]->Some_0.event@
        == "worker-finish"@
}

/// A log is written for a journal exactly where the run has no valid one and some line
/// tells that a worker began or ended.
pub proof fn law_log_is_written_where_it_tells_something(
    log_valid: bool,
    records: Seq<Option<RecoveredRecord>>,
)
    ensures
        log_is_due(log_valid, records) <==> !log_valid && exists|i: int| #[trigger]
            tells_of_a_worker(records, i),
{
    let start = "worker-start"@;
    let finish = "worker-finish"@;
    if log_is_due(log_valid, records) {
        let id = choose|id: Seq<char>|
            outcome_from(id, #[trigger] history(records, id)) is Some;
        lemma_began(records, id);
        lemma_ended(records, id);
        if history(records, id).started {
            let i = choose|i: int| #[trigger] tells_of(records, i, id, start);
            assert(tells_of_a_worker(records, i));
        } else {
            let i = choose|i: int| #[trigger] tells_of(records, i, id, finish);
            assert(tells_of_a_worker(records, i));
        }
    }
    if exists|i: int| #[trigger] tells_of_a_worker(records, i) {
        let i = choose|i: int| #[trigger] tells_of_a_worker(records, i);
        let id = records[i]->Some_0.feature_id@;
        lemma_began(records, id);
        lemma_ended(records, id);
        assert(tells_of(records, i, id, start) || tells_of(records, i, id, finish));
        assert(outcome_from(id, history(records, id)) is Some);
    }
}

/// A file is the journal of a run exactly where it is named `journal-`, the run's id,
/// which is not empty, and `.ndjson`.
pub proof fn law_journals_are_told_by_their_names(path: Seq<char>, id: Seq<char>)
    ensures
        run_of_journal(path) == Some(id) <==> id.len() > 0 && path_name(path) == Some(
            "journal-"@ + id + ".ndjson"@,
        ),
{
    reveal_strlit("journal-");
    reveal_strlit(".ndjson");
    let prefix = "journal-"@;
    let suffix = ".ndjson"@;
    if let Some(name) = path_name(path) {
        if run_of_journal(path) == Some(id) {
            let rest = name.skip(8);
            assert(name =~= prefix + rest);
            assert(rest =~= id + suffix);
            assert(name =~= prefix + id + suffix);
        }
        if name == prefix + id + suffix {
            let rest = name.skip(8);
            assert(name.subrange(0, 8) =~= prefix);
            assert(rest =~= id + suffix);
            assert(rest.subrange(rest.len() - 7, rest.len() as int) =~= suffix);
            assert(rest.take(rest.len() - 7) =~= id);
        }
    }
}

/// Every journal among the files is dealt with, in order and as often as it is listed,
/// with its own run and the log of that run; no other file is. `at` says which file
/// each comes from.
pub proof fn law_every_journal_is_dealt_with(paths: Seq<Seq<char>>, loom_dir: Seq<char>) -> (at:
    Seq<int>)
    ensures
        at.len() == orphans_among(paths, loom_dir).len(),
        forall|k: int|
            0 <= k < at.len() ==> 0 <= #[trigger] at[k] < paths.len() && {
                let (path, id, log) = orphans_among(paths, loom_dir)[k];
                &&& path == paths[at[k]]
                &&& run_of_journal(path) == Some(id)
                &&& log == path_join(loom_dir, "dispatch-"@ + id + ".log"@)
            },
        forall|j: int, k: int| 0 <= j < k < at.len() ==> #[trigger] at[j] < #[trigger] at[k],
        forall|i: int|
            0 <= i < paths.len() && run_of_journal(#[trigger] paths[i]) is Some ==> at.contains(i),
    decreases paths.len(),
{
    if paths.len() == 0 {
        Seq::empty()
    } else {
        let t = paths.drop_last();
        let before = law_every_journal_is_dealt_with(t, loom_dir);
        let last = paths.len() - 1;
        let all = orphans_among(paths, loom_dir);
        let at = if run_of_journal(paths.last()) is Some {
            before.push(last)
        } else {
            before
        };
        assert forall|k: int| 0 <= k < at.len() implies 0 <= #[trigger] at[k] < paths.len() && {
            let (path, id, log) = all[k];
            &&& path == paths[at[k]]
            &&& run_of_journal(path) == Some(id)
            &&& log == path_join(loom_dir, "dispatch-"@ + id + ".log"@)
        } by {
            if k < before.len() {
                assert(at[k] == before[k]);
                assert(t[before[k]] == paths[at[k]]);
                assert(all[k] == orphans_among(t, loom_dir)[k]);
            }
        }
        assert forall|i: int|
            0 <= i < paths.len() && run_of_journal(
                #[trigger] paths[i],
            ) is Some implies at.contains(i) by {
            if i < last {
                assert(t[i] == paths[i]);
                assert(before.contains(i));
                let k = before.index_of(i);
                assert(at[k] == i);
            } else {
                assert(at[before.len() as int] == i);
            }
        }
        at
    }
}

/// The lines of a journal are those that hold more than whitespace, in order, without
/// the whitespace around them. `at` says which line of the text each is.
pub proof fn law_full_lines_are_read(lines: Seq<Seq<char>>) -> (at: Seq<int>)
    ensures
        at.len() == full_lines(lines).len(),
        forall|k: int|
            0 <= k < at.len() ==> 0 <= #[trigger] at[k] < lines.len() && full_lines(lines)[k]
                == trimmed(lines[at[k]]),
        forall|j: int, k: int| 0 <= j < k < at.len() ==> #[trigger] at[j] < #[trigger] at[k],
        forall|i: int|
            0 <= i < lines.len() ==> (#[trigger] at.contains(i) <==> trimmed(lines[i]).len() > 0),
    decreases lines.len(),
{
    if lines.len() == 0 {
        Seq::empty()
    } else {
        let t = lines.drop_last();
        let before = law_full_lines_are_read(t);
        let last = lines.len() - 1;
        let full = trimmed(lines.last()).len() > 0;
        let all = full_lines(lines);
        let at = if full {
            before.push(last)
        } else {
            before
        };
        assert forall|k: int| 0 <= k < at.len() implies 0 <= #[trigger] at[k] < lines.len()
            && all[k] == trimmed(lines[at[k]]) by {
            if k < before.len() {
                assert(at[k] == before[k]);
                assert(t[before[k]] == lines[at[k]]);
                assert(all[k] == full_lines(t)[k]);
            }
        }
        assert forall|i: int| 0 <= i < lines.len() implies (#[trigger] at.contains(i) <==> trimmed(
            lines[i],
        ).len() > 0) by {
            if i < last {
                assert(t[i] == lines[i]);
                if before.contains(i) {
                    let k = before.index_of(i);
                    assert(at[k] == i);
                }
                if at.contains(i) {
                    let k = at.index_of(i);
                    assert(before[k] == i);
                }
            } else if full {
                assert(at[before.len() as int] == i);
            } else if at.contains(i) {
                let k = at.index_of(i);
                assert(before[k] < t.len());
            }
        }
        at
    }
}

/// A journal that was dealt with stays where it is, under its name with `.done` after
/// it.
pub proof fn law_done_journal_stays_in_its_place(path: Seq<char>)
    requires
        path_name(path) is Some,
        path_body(path) == path,
    ensures
        path_name(done_path_of(path)) == Some(path_name(path)->Some_0 + ".done"@),
        path_parent(done_path_of(path)) == path_parent(path),
{
    reveal_strlit(".done");
    let q = done_path_of(path);
    let ext = ".done"@;
    assert(q.last() == 'e');
    assert(path_body(q) == q);
    let at = last_index(path, '/');
    lemma_last_index(path, '/');
    assert forall|j: int| at < j < q.len() implies q[j] != '/' by {
        if j < path.len() {
            assert(q[j] == path[j]);
        } else {
            assert(q[j] == ext[j - path.len()]);
        }
    }
    if at >= 0 {
        assert(q[at] == path[at]);
        assert(q.take(at) =~= path.take(at));
    }
    lemma_last_index_is(q, '/', at);
    let name = path.skip(at + 1);
    assert(q.skip(at + 1) =~= name + ext);
    assert((name + ext).len() > 2);
}

} // verus!
