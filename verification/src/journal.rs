//! The run journal: one line of JSON for each thing that happens to a worker,
//! written as it happens, so that a run that is killed leaves a record.

use crate::decimal::{
    decimal, decimal_text, hex_digit, is_digit, law_decimal_reads_back,
};
use crate::json_reader::{
    after_member, after_space, ends_number, lemma_end_of_escape, lemma_not_a_word,
    lemma_read_digits, literal_end, read_back, read_members, read_string, read_value,
};
use crate::moment::{lemma_lt_before, lemma_same_digits, Moment};
use crate::order::text_lt;
use crate::paths::{join, path_join};
use crate::state::{lemma_char_is_code_point, lemma_hex_value, unescaped, JsonView};
use crate::text::{last_index, lemma_last_index_is, opt_text};
use vstd::prelude::*;

verus! {

broadcast use vstd::string::group_string_axioms;

/// Proof that the journals of earlier runs were looked at. A run's own journal is
/// made only in exchange for one, so recovery never meets it.
#[derive(Debug)]
pub struct RecoveryDone {
    pub(crate) seal: (),
}

/// The journal of a run.
#[derive(Debug)]
pub struct RunJournal {
    pub run_id: String,
    pub path: String,
}

/// The id of the run that process `pid` begins at millisecond `ms`.
pub open spec fn run_id_of(ms: nat, pid: nat) -> Seq<char> {
    decimal(ms) + "-"@ + decimal(pid)
}

/// Milliseconds since the epoch; 0 before it.
pub open spec fn epoch_millis(now: Moment) -> nat {
    if now.total() < 0 {
        0
    } else {
        (now.total() / 1_000_000) as nat
    }
}

pub fn mint_run_id(now: Moment, pid: u32) -> (r: String)
    ensures
        r@ == run_id_of(epoch_millis(now), pid as nat),
{
    let mut out = decimal_text(now.unix_millis());
    out.append("-");
    out.append(&decimal_text(pid as u128));
    out
}

/// The name of a run's journal.
pub open spec fn journal_name(run_id: Seq<char>) -> Seq<char> {
    "journal-"@ + run_id + ".ndjson"@
}

proof fn lemma_run_id_splits(ms: nat, pid: nat)
    ensures
        last_index(run_id_of(ms, pid), '-') == decimal(ms).len(),
{
    law_decimal_reads_back(pid);
    reveal_strlit("-");
    let id = run_id_of(ms, pid);
    let k = decimal(ms).len() as int;
    assert(id[k] == '-');
    assert forall|j: int| k < j < id.len() implies id[j] != '-' by {
        assert(id[j] == decimal(pid)[j - k - 1]);
        assert(is_digit(decimal(pid)[j - k - 1]));
    }
    lemma_last_index_is(id, '-', k);
}

/// Runs of different processes or milliseconds have different ids.
pub proof fn law_run_ids_differ(ms1: nat, pid1: nat, ms2: nat, pid2: nat)
    requires
        run_id_of(ms1, pid1) == run_id_of(ms2, pid2),
    ensures
        ms1 == ms2,
        pid1 == pid2,
{
    reveal_strlit("-");
    lemma_run_id_splits(ms1, pid1);
    lemma_run_id_splits(ms2, pid2);
    law_decimal_reads_back(ms1);
    law_decimal_reads_back(ms2);
    law_decimal_reads_back(pid1);
    law_decimal_reads_back(pid2);
    let a = run_id_of(ms1, pid1);
    let b = run_id_of(ms2, pid2);
    let k = decimal(ms1).len() as int;
    assert(a.take(k) =~= decimal(ms1));
    assert(b.take(k) =~= decimal(ms2));
    assert(a.skip(k + 1) =~= decimal(pid1));
    assert(b.skip(k + 1) =~= decimal(pid2));
}

/// Ids sort by time, as long as their milliseconds have equally many digits.
pub proof fn law_run_ids_sort_by_time(ms1: nat, pid1: nat, ms2: nat, pid2: nat)
    requires
        ms1 < ms2,
        decimal(ms1).len() == decimal(ms2).len(),
    ensures
        text_lt(run_id_of(ms1, pid1), run_id_of(ms2, pid2)),
{
    law_decimal_reads_back(ms1);
    law_decimal_reads_back(ms2);
    lemma_same_digits(decimal(ms1), decimal(ms2));
    lemma_lt_before(
        decimal(ms1),
        decimal(ms2),
        "-"@ + decimal(pid1),
        "-"@ + decimal(pid2),
    );
    assert(run_id_of(ms1, pid1) =~= decimal(ms1) + ("-"@ + decimal(pid1)));
    assert(run_id_of(ms2, pid2) =~= decimal(ms2) + ("-"@ + decimal(pid2)));
}

impl RunJournal {
    /// Names the journal of a run that begins at `now` in process `pid`.
    pub fn create(loom_dir: &str, now: Moment, pid: u32, _recovery: RecoveryDone) -> (r: RunJournal)
        ensures
            r.run_id@ == run_id_of(epoch_millis(now), pid as nat),
            r.path@ == path_join(loom_dir@, journal_name(r.run_id@)),
    {
        let run_id = mint_run_id(now, pid);
        let mut name = "journal-".to_owned();
        name.append(&run_id);
        name.append(".ndjson");
        let path = join(loom_dir, &name);
        RunJournal { run_id, path }
    }
}

/// How a character is written inside a string of a journal line.
pub open spec fn line_escape(c: char) -> Seq<char> {
    if c == '"' {
        seq!['\\', '"']
    } else if c == '\\' {
        seq!['\\', '\\']
    } else if c as int == 0x08 {
        seq!['\\', 'b']
    } else if c as int == 0x09 {
        seq!['\\', 't']
    } else if c as int == 0x0a {
        seq!['\\', 'n']
    } else if c as int == 0x0c {
        seq!['\\', 'f']
    } else if c as int == 0x0d {
        seq!['\\', 'r']
    } else if (c as int) < 0x20 {
        seq!['\\', 'u', '0', '0', hex_digit(c as int / 16), hex_digit(c as int % 16)]
    } else {
        seq![c]
    }
}

pub open spec fn line_escapes(s: Seq<char>) -> Seq<char>
    decreases s.len(),
{
    if s.len() == 0 {
        Seq::empty()
    } else {
        line_escapes(s.drop_last()) + line_escape(s.last())
    }
}

/// A string of a journal line, with its quotes.
pub open spec fn line_string(s: Seq<char>) -> Seq<char> {
    seq!['"'] + line_escapes(s) + seq!['"']
}

/// Calls `serde_json::to_string` on a text. Claims that it succeeds, as writing a
/// text to memory cannot fail, and that the result is the text in quotes, with
/// quotes, backslashes and control characters escaped as [`line_escape`] says.
#[verifier::external_body]
fn json_string(s: &str) -> (r: Option<String>)
    ensures
        opt_text(r) == Some(line_string(s@)),
{
    serde_json::to_string(s).ok()
}

/// One thing that happened to a worker.
#[derive(Debug)]
pub struct JournalRecord {
    /// `worker-start`, `worker-finish` or `rescue-ref-written`.
    pub event: String,
    pub run_id: String,
    pub feature_id: String,
    pub ts_ms: u128,
    pub worker_exit_status: Option<String>,
    pub verdict: Option<String>,
    pub ref_name: Option<String>,
}

/// A member of a record with a text for its value.
pub open spec fn text_member(name: Seq<char>, value: Seq<char>) -> Seq<char> {
    line_string(name) + ":"@ + line_string(value)
}

/// A member that is left out where it has no value.
pub open spec fn optional_member(name: Seq<char>, value: Option<Seq<char>>) -> Seq<char> {
    match value {
        Some(v) => ","@ + text_member(name, v),
        None => Seq::empty(),
    }
}

/// The line of a record.
pub open spec fn record_line(r: JournalRecord) -> Seq<char> {
    "{"@ + text_member("event"@, r.event@) + ","@ + text_member("run_id"@, r.run_id@) + ","@
        + text_member("feature_id"@, r.feature_id@) + ","@ + line_string("ts_ms"@) + ":"@ + decimal(
        r.ts_ms as nat,
    ) + optional_member("worker_exit_status"@, opt_text(r.worker_exit_status)) + optional_member(
        "verdict"@,
        opt_text(r.verdict),
    ) + optional_member("ref_name"@, opt_text(r.ref_name)) + "}"@ + "\n"@
}

fn push_string(out: &mut String, s: &str)
    ensures
        final(out)@ == old(out)@ + line_string(s@),
{
    if let Some(t) = json_string(s) {
        out.append(&t);
    }
}

fn push_member(out: &mut String, name: &str, value: &str)
    ensures
        final(out)@ == old(out)@ + text_member(name@, value@),
{
    let ghost before = out@;
    push_string(out, name);
    out.append(":");
    push_string(out, value);
    proof {
        assert(out@ =~= before + text_member(name@, value@));
    }
}

fn push_optional(out: &mut String, name: &str, value: &Option<String>)
    ensures
        final(out)@ == old(out)@ + optional_member(name@, opt_text(*value)),
{
    let ghost before = out@;
    if let Some(v) = value {
        out.append(",");
        push_member(out, name, v);
    }
    proof {
        assert(out@ =~= before + optional_member(name@, opt_text(*value)));
    }
}

/// The line that is appended to the journal for a record.
pub fn append(r: &JournalRecord) -> (line: String)
    ensures
        line@ == record_line(*r),
{
    let mut out = "{".to_owned();
    push_member(&mut out, "event", &r.event);
    out.append(",");
    push_member(&mut out, "run_id", &r.run_id);
    out.append(",");
    push_member(&mut out, "feature_id", &r.feature_id);
    out.append(",");
    push_string(&mut out, "ts_ms");
    out.append(":");
    out.append(&decimal_text(r.ts_ms));
    push_optional(&mut out, "worker_exit_status", &r.worker_exit_status);
    push_optional(&mut out, "verdict", &r.verdict);
    push_optional(&mut out, "ref_name", &r.ref_name);
    out.append("}");
    out.append("\n");
    out
}

impl RunJournal {
    /// A worker is about to run.
    pub fn worker_start(&self, feature_id: &str, ts_ms: u128) -> (r: JournalRecord)
        ensures
            r.event@ == "worker-start"@,
            r.run_id@ == self.run_id@,
            r.feature_id@ == feature_id@,
            r.ts_ms == ts_ms,
            r.worker_exit_status is None,
            r.verdict is None,
            r.ref_name is None,
    {
        JournalRecord {
            event: "worker-start".to_owned(),
            run_id: self.run_id.clone(),
            feature_id: feature_id.to_owned(),
            ts_ms,
            worker_exit_status: None,
            verdict: None,
            ref_name: None,
        }
    }

    /// A worker has ended in `worker_exit_status`, and its review in `verdict`.
    pub fn worker_finish(
        &self,
        feature_id: &str,
        worker_exit_status: &str,
        verdict: &str,
        ts_ms: u128,
    ) -> (r: JournalRecord)
        ensures
            r.event@ == "worker-finish"@,
            r.run_id@ == self.run_id@,
            r.feature_id@ == feature_id@,
            r.ts_ms == ts_ms,
            opt_text(r.worker_exit_status) == Some(worker_exit_status@),
            opt_text(r.verdict) == Some(verdict@),
            r.ref_name is None,
    {
        JournalRecord {
            event: "worker-finish".to_owned(),
            run_id: self.run_id.clone(),
            feature_id: feature_id.to_owned(),
            ts_ms,
            worker_exit_status: Some(worker_exit_status.to_owned()),
            verdict: Some(verdict.to_owned()),
            ref_name: None,
        }
    }

    /// A worker's commits were kept under `ref_name`.
    pub fn rescue_ref_written(&self, feature_id: &str, ref_name: &str, ts_ms: u128) -> (r:
        JournalRecord)
        ensures
            r.event@ == "rescue-ref-written"@,
            r.run_id@ == self.run_id@,
            r.feature_id@ == feature_id@,
            r.ts_ms == ts_ms,
            r.worker_exit_status is None,
            r.verdict is None,
            opt_text(r.ref_name) == Some(ref_name@),
    {
        JournalRecord {
            event: "rescue-ref-written".to_owned(),
            run_id: self.run_id.clone(),
            feature_id: feature_id.to_owned(),
            ts_ms,
            worker_exit_status: None,
            verdict: None,
            ref_name: Some(ref_name.to_owned()),
        }
    }
}

/// Whether `s` holds no line break.
pub open spec fn on_one_line(s: Seq<char>) -> bool {
    forall|i: int| 0 <= i < s.len() ==> #[trigger] s[i] != '\n'
}

proof fn lemma_one_line_add(a: Seq<char>, b: Seq<char>)
    requires
        on_one_line(a),
        on_one_line(b),
    ensures
        on_one_line(a + b),
{
    let c = a + b;
    assert forall|i: int| 0 <= i < c.len() implies #[trigger] c[i] != '\n' by {
        if i < a.len() {
            assert(c[i] == a[i]);
        } else {
            assert(c[i] == b[i - a.len()]);
        }
    }
}

proof fn lemma_escape_one_line(c: char)
    ensures
        on_one_line(line_escape(c)),
{
    let e = line_escape(c);
    if (c as int) < 0x20 && e.len() == 6 {
        assert(hex_digit(c as int / 16) != '\n');
        assert(hex_digit(c as int % 16) != '\n');
    }
}

proof fn lemma_string_one_line(s: Seq<char>)
    ensures
        on_one_line(line_string(s)),
{
    lemma_escapes_one_line(s);
    lemma_one_line_add(seq!['"'], line_escapes(s));
    lemma_one_line_add(seq!['"'] + line_escapes(s), seq!['"']);
}

proof fn lemma_escapes_one_line(s: Seq<char>)
    ensures
        on_one_line(line_escapes(s)),
    decreases s.len(),
{
    if s.len() > 0 {
        lemma_escapes_one_line(s.drop_last());
        lemma_escape_one_line(s.last());
        lemma_one_line_add(line_escapes(s.drop_last()), line_escape(s.last()));
    }
}

proof fn lemma_member_one_line(name: Seq<char>, value: Seq<char>)
    ensures
        on_one_line(text_member(name, value)),
{
    reveal_strlit(":");
    lemma_string_one_line(name);
    lemma_string_one_line(value);
    lemma_one_line_add(line_string(name), ":"@);
    lemma_one_line_add(line_string(name) + ":"@, line_string(value));
}

proof fn lemma_optional_one_line(name: Seq<char>, value: Option<Seq<char>>)
    ensures
        on_one_line(optional_member(name, value)),
{
    if let Some(v) = value {
        reveal_strlit(",");
        lemma_member_one_line(name, v);
        lemma_one_line_add(","@, text_member(name, v));
    }
}

/// A record is one line, whatever texts it holds: its only line break is its end, and
/// what comes before stands in braces.
pub proof fn law_record_is_one_line(r: JournalRecord)
    ensures
        record_line(r).len() > 2,
        record_line(r).last() == '\n',
        on_one_line(record_line(r).drop_last()),
        record_line(r)[0] == '{',
        record_line(r).drop_last().last() == '}',
{
    reveal_strlit("{");
    reveal_strlit(",");
    reveal_strlit(":");
    reveal_strlit("}");
    reveal_strlit("\n");
    lemma_member_one_line("event"@, r.event@);
    lemma_member_one_line("run_id"@, r.run_id@);
    lemma_member_one_line("feature_id"@, r.feature_id@);
    lemma_string_one_line("ts_ms"@);
    law_decimal_reads_back(r.ts_ms as nat);
    let ts = decimal(r.ts_ms as nat);
    assert forall|i: int| 0 <= i < ts.len() implies #[trigger] ts[i] != '\n' by {
        assert(is_digit(ts[i]));
    }
    lemma_optional_one_line("worker_exit_status"@, opt_text(r.worker_exit_status));
    lemma_optional_one_line("verdict"@, opt_text(r.verdict));
    lemma_optional_one_line("ref_name"@, opt_text(r.ref_name));
    let a = "{"@ + text_member("event"@, r.event@);
    lemma_one_line_add("{"@, text_member("event"@, r.event@));
    let b = a + ","@;
    lemma_one_line_add(a, ","@);
    let c = b + text_member("run_id"@, r.run_id@);
    lemma_one_line_add(b, text_member("run_id"@, r.run_id@));
    let d = c + ","@;
    lemma_one_line_add(c, ","@);
    let e = d + text_member("feature_id"@, r.feature_id@);
    lemma_one_line_add(d, text_member("feature_id"@, r.feature_id@));
    let f = e + ","@;
    lemma_one_line_add(e, ","@);
    let g = f + line_string("ts_ms"@);
    lemma_one_line_add(f, line_string("ts_ms"@));
    let h = g + ":"@;
    lemma_one_line_add(g, ":"@);
    let k = h + ts;
    lemma_one_line_add(h, ts);
    let l = k + optional_member("worker_exit_status"@, opt_text(r.worker_exit_status));
    lemma_one_line_add(k, optional_member("worker_exit_status"@, opt_text(r.worker_exit_status)));
    let m = l + optional_member("verdict"@, opt_text(r.verdict));
    lemma_one_line_add(l, optional_member("verdict"@, opt_text(r.verdict)));
    let n = m + optional_member("ref_name"@, opt_text(r.ref_name));
    lemma_one_line_add(m, optional_member("ref_name"@, opt_text(r.ref_name)));
    let o = n + "}"@;
    lemma_one_line_add(n, "}"@);
    assert(record_line(r) == o + "\n"@);
    assert(record_line(r).drop_last() =~= o);
    assert(o.last() == '}');
    assert(a[0] == '{' && b[0] == '{' && c[0] == '{' && d[0] == '{' && e[0] == '{' && f[0] == '{');
    assert(g[0] == '{' && h[0] == '{' && k[0] == '{' && l[0] == '{' && m[0] == '{' && n[0] == '{');
}

proof fn lemma_line_from_front(s: Seq<char>)
    requires
        s.len() > 0,
    ensures
        line_escapes(s) == line_escape(s[0]) + line_escapes(s.skip(1)),
    decreases s.len(),
{
    if s.len() == 1 {
        assert(s.drop_last() =~= Seq::<char>::empty());
        assert(s.skip(1) =~= Seq::<char>::empty());
        assert(line_escapes(s) =~= line_escape(s[0]) + line_escapes(s.skip(1)));
    } else {
        lemma_line_from_front(s.drop_last());
        assert(s.drop_last().skip(1) =~= s.skip(1).drop_last());
        assert(s.skip(1).last() == s.last());
        assert(line_escapes(s) =~= line_escape(s[0]) + line_escapes(s.skip(1)));
    }
}

proof fn lemma_line_unescapes(s: Seq<char>)
    ensures
        unescaped(line_escapes(s)) == Some(s),
    decreases s.len(),
{
    if s.len() > 0 {
        lemma_line_from_front(s);
        lemma_line_unescapes(s.skip(1));
        let c = s[0];
        let e = line_escapes(s);
        let n = line_escape(c).len() as int;
        assert(e.skip(n) =~= line_escapes(s.skip(1)));
        assert(seq![c] + s.skip(1) =~= s);
        assert(forall|i: int| 0 <= i < n ==> e[i] == line_escape(c)[i]);
        lemma_char_is_code_point(c);
        if (c as int) < 0x20 && n == 6 {
            lemma_hex_value(c as int / 16);
            lemma_hex_value(c as int % 16);
            assert(e[4] == hex_digit(c as int / 16));
            assert(e[5] == hex_digit(c as int % 16));
        }
    }
}

proof fn lemma_line_literal_end(s: Seq<char>, rest: Seq<char>)
    ensures
        literal_end(line_escapes(s) + seq!['"'] + rest) == Some(line_escapes(s).len() as int),
    decreases s.len(),
{
    let text = line_escapes(s) + seq!['"'] + rest;
    if s.len() == 0 {
        assert(text[0] == '"');
    } else {
        let c = s[0];
        let t = s.skip(1);
        let e = line_escape(c);
        lemma_line_from_front(s);
        lemma_line_literal_end(t, rest);
        lemma_char_is_code_point(c);
        if e.len() == 6 {
            assert(e[4] == hex_digit(c as int / 16) && e[5] == hex_digit(c as int % 16));
        }
        lemma_end_of_escape(e, line_escapes(t) + seq!['"'] + rest);
        assert(text =~= e + (line_escapes(t) + seq!['"'] + rest));
    }
}

proof fn lemma_read_line_string(text: Seq<char>, rest: Seq<char>)
    ensures
        (line_string(text) + rest)[0] == '"',
        read_string((line_string(text) + rest).skip(1)) == Some((text, rest)),
        read_value(line_string(text) + rest, false) == Some((JsonView::Str(text), rest)),
{
    let t = line_string(text) + rest;
    let s = t.skip(1);
    let n = line_escapes(text).len() as int;
    lemma_line_literal_end(text, rest);
    assert(s =~= line_escapes(text) + seq!['"'] + rest);
    assert(s.take(n) =~= line_escapes(text));
    assert(s.skip(n + 1) =~= rest);
    lemma_line_unescapes(text);
    assert(after_space(t, false) == t);
}

/// Whether `tail` ends an object after any member, with these members more.
spec fn ends_object(tail: Seq<char>, more: Seq<(Seq<char>, JsonView)>) -> bool {
    &&& ends_number(tail)
    &&& forall|name: Seq<char>, value: JsonView| #[trigger]
        after_member(name, value, tail, false) == Some(
            (seq![(name, value)] + more, Seq::<char>::empty()),
        )
}

proof fn lemma_brace_ends()
    ensures
        ends_object("}"@, Seq::empty()),
{
    reveal_strlit("}");
    let tail = "}"@;
    assert(after_space(tail, false) == tail);
    assert(tail.skip(1) =~= Seq::empty());
    assert forall|name: Seq<char>, value: JsonView| #[trigger]
        after_member(name, value, tail, false) == Some(
            (seq![(name, value)] + Seq::empty(), Seq::<char>::empty()),
        ) by {
        assert(seq![(name, value)] + Seq::<(Seq<char>, JsonView)>::empty() =~= seq![(name, value)]);
    }
}

proof fn lemma_read_line_member(
    name: Seq<char>,
    text: Seq<char>,
    value: JsonView,
    tail: Seq<char>,
)
    requires
        read_value(text + tail, false) == Some((value, tail)),
    ensures
        read_members(line_string(name) + ":"@ + text + tail, false) == after_member(
            name,
            value,
            tail,
            false,
        ),
{
    reveal_strlit(":");
    let after_name = ":"@ + text + tail;
    let s = line_string(name) + ":"@ + text + tail;
    assert(s =~= line_string(name) + after_name);
    lemma_read_line_string(name, after_name);
    assert(after_space(s, false) == s);
    assert(after_space(after_name, false) == after_name);
    assert(after_name.skip(1) =~= text + tail);
    assert(after_space(tail, false) == tail);
    assert(s.len() >= after_name.len() && after_name.len() >= tail.len());
}

proof fn lemma_member_ends(
    name: Seq<char>,
    text: Seq<char>,
    value: JsonView,
    tail: Seq<char>,
    more: Seq<(Seq<char>, JsonView)>,
)
    requires
        ends_object(tail, more),
        read_value(text + tail, false) == Some((value, tail)),
    ensures
        ends_object(","@ + (line_string(name) + ":"@ + text) + tail, seq![(name, value)] + more),
{
    reveal_strlit(",");
    let next = line_string(name) + ":"@ + text + tail;
    let all = ","@ + (line_string(name) + ":"@ + text) + tail;
    lemma_read_line_member(name, text, value, tail);
    assert(all.skip(1) =~= next);
    assert(all[0] == ',');
    assert(after_space(all, false) == all);
    assert(after_member(name, value, tail, false) == Some(
        (seq![(name, value)] + more, Seq::<char>::empty()),
    ));
}

/// A member of a record as JSON, if it is there.
pub open spec fn optional_value(name: Seq<char>, value: Option<Seq<char>>) -> Seq<
    (Seq<char>, JsonView),
> {
    match value {
        Some(v) => seq![(name, JsonView::Str(v))],
        None => Seq::empty(),
    }
}

proof fn lemma_optional_ends(
    name: Seq<char>,
    value: Option<Seq<char>>,
    tail: Seq<char>,
    more: Seq<(Seq<char>, JsonView)>,
)
    requires
        ends_object(tail, more),
    ensures
        ends_object(optional_member(name, value) + tail, optional_value(name, value) + more),
{
    match value {
        Some(v) => {
            lemma_read_line_string(v, tail);
            lemma_member_ends(name, line_string(v), JsonView::Str(v), tail, more);
        },
        None => {
            assert(optional_member(name, value) + tail =~= tail);
            assert(optional_value(name, value) + more =~= more);
        },
    }
}

/// A record as a JSON value.
pub open spec fn record_value(r: JournalRecord) -> JsonView {
    JsonView::Object(
        seq![
            ("event"@, JsonView::Str(r.event@)),
            ("run_id"@, JsonView::Str(r.run_id@)),
            ("feature_id"@, JsonView::Str(r.feature_id@)),
            ("ts_ms"@, JsonView::Int(r.ts_ms as int)),
        ] + optional_value("worker_exit_status"@, opt_text(r.worker_exit_status))
            + optional_value("verdict"@, opt_text(r.verdict)) + optional_value(
            "ref_name"@,
            opt_text(r.ref_name),
        ),
    )
}

proof fn lemma_read_number(n: nat, rest: Seq<char>)
    requires
        ends_number(rest),
    ensures
        read_value(decimal(n) + rest, false) == Some((JsonView::Int(n as int), rest)),
{
    let t = decimal(n) + rest;
    lemma_read_digits(n, rest);
    lemma_not_a_word(t);
    assert(after_space(t, false) == t);
}

proof fn lemma_record_parts(
    event: Seq<char>,
    run_id: Seq<char>,
    feature: Seq<char>,
    ts: Seq<char>,
    a: Seq<char>,
    b: Seq<char>,
    c: Seq<char>,
    brace: Seq<char>,
    comma: Seq<char>,
    name: Seq<char>,
    sign: Seq<char>,
    open: Seq<char>,
)
    ensures
        open + event + comma + run_id + comma + feature + comma + name + sign + ts + a + b + c
            + brace == open + (event + (comma + run_id + (comma + feature + (comma + (name + sign
            + ts) + (a + (b + (c + brace))))))),
{
    assert(open + event + comma + run_id + comma + feature + comma + name + sign + ts + a + b + c
        + brace =~= open + (event + (comma + run_id + (comma + feature + (comma + (name + sign + ts)
        + (a + (b + (c + brace))))))));
}

/// The part of a record's line that may be missing, up to the closing brace.
spec fn optional_part(r: JournalRecord) -> Seq<char> {
    optional_member("worker_exit_status"@, opt_text(r.worker_exit_status)) + (optional_member(
        "verdict"@,
        opt_text(r.verdict),
    ) + (optional_member("ref_name"@, opt_text(r.ref_name)) + "}"@))
}

spec fn optional_values(r: JournalRecord) -> Seq<(Seq<char>, JsonView)> {
    optional_value("worker_exit_status"@, opt_text(r.worker_exit_status)) + (optional_value(
        "verdict"@,
        opt_text(r.verdict),
    ) + (optional_value("ref_name"@, opt_text(r.ref_name)) + Seq::empty()))
}

proof fn lemma_optional_part(r: JournalRecord)
    ensures
        ends_object(optional_part(r), optional_values(r)),
{
    let v1 = opt_text(r.worker_exit_status);
    let v2 = opt_text(r.verdict);
    let v3 = opt_text(r.ref_name);
    let t3 = optional_member("ref_name"@, v3) + "}"@;
    let m3 = optional_value("ref_name"@, v3) + Seq::empty();
    lemma_brace_ends();
    lemma_optional_ends("ref_name"@, v3, "}"@, Seq::empty());
    lemma_optional_ends("verdict"@, v2, t3, m3);
    lemma_optional_ends(
        "worker_exit_status"@,
        v1,
        optional_member("verdict"@, v2) + t3,
        optional_value("verdict"@, v2) + m3,
    );
}

spec fn number_part(r: JournalRecord) -> Seq<char> {
    ","@ + (line_string("ts_ms"@) + ":"@ + decimal(r.ts_ms as nat)) + optional_part(r)
}

spec fn feature_part(r: JournalRecord) -> Seq<char> {
    ","@ + text_member("feature_id"@, r.feature_id@) + number_part(r)
}

/// A record's line after its first member.
spec fn run_part(r: JournalRecord) -> Seq<char> {
    ","@ + text_member("run_id"@, r.run_id@) + feature_part(r)
}

/// The members of a record after the first.
spec fn later_values(r: JournalRecord) -> Seq<(Seq<char>, JsonView)> {
    seq![("run_id"@, JsonView::Str(r.run_id@))] + (seq![
        ("feature_id"@, JsonView::Str(r.feature_id@)),
    ] + (seq![("ts_ms"@, JsonView::Int(r.ts_ms as int))] + optional_values(r)))
}

proof fn lemma_text_member_ends(
    name: Seq<char>,
    value: Seq<char>,
    tail: Seq<char>,
    more: Seq<(Seq<char>, JsonView)>,
)
    requires
        ends_object(tail, more),
    ensures
        ends_object(
            ","@ + text_member(name, value) + tail,
            seq![(name, JsonView::Str(value))] + more,
        ),
{
    lemma_read_line_string(value, tail);
    lemma_member_ends(name, line_string(value), JsonView::Str(value), tail, more);
}

proof fn lemma_run_part(r: JournalRecord)
    ensures
        ends_object(run_part(r), later_values(r)),
{
    let number = JsonView::Int(r.ts_ms as int);
    let ts = decimal(r.ts_ms as nat);
    lemma_optional_part(r);
    lemma_read_number(r.ts_ms as nat, optional_part(r));
    lemma_member_ends("ts_ms"@, ts, number, optional_part(r), optional_values(r));
    let more = seq![("ts_ms"@, number)] + optional_values(r);
    lemma_text_member_ends("feature_id"@, r.feature_id@, number_part(r), more);
    lemma_text_member_ends(
        "run_id"@,
        r.run_id@,
        feature_part(r),
        seq![("feature_id"@, JsonView::Str(r.feature_id@))] + more,
    );
}

proof fn lemma_read_object_line(
    name: Seq<char>,
    value: Seq<char>,
    tail: Seq<char>,
    more: Seq<(Seq<char>, JsonView)>,
)
    requires
        ends_object(tail, more),
    ensures
        read_back("{"@ + (text_member(name, value) + tail), false) == Some(
            JsonView::Object(seq![(name, JsonView::Str(value))] + more),
        ),
{
    let inner = text_member(name, value) + tail;
    let line = "{"@ + inner;
    let member = JsonView::Str(value);
    lemma_read_line_string(value, tail);
    lemma_read_line_member(name, line_string(value), member, tail);
    assert(after_member(name, member, tail, false) == Some(
        (seq![(name, member)] + more, Seq::<char>::empty()),
    ));
    lemma_read_line_string(name, ":"@ + line_string(value) + tail);
    assert(inner =~= line_string(name) + (":"@ + line_string(value) + tail));
    reveal_strlit("{");
    assert(line[0] == '{');
    assert(line.skip(1) =~= inner);
    assert(after_space(line, false) == line);
    assert(after_space(inner, false) == inner);
}

proof fn lemma_record_line(r: JournalRecord)
    ensures
        record_line(r).drop_last() == "{"@ + (text_member("event"@, r.event@) + run_part(r)),
{
    lemma_record_parts(
        text_member("event"@, r.event@),
        text_member("run_id"@, r.run_id@),
        text_member("feature_id"@, r.feature_id@),
        decimal(r.ts_ms as nat),
        optional_member("worker_exit_status"@, opt_text(r.worker_exit_status)),
        optional_member("verdict"@, opt_text(r.verdict)),
        optional_member("ref_name"@, opt_text(r.ref_name)),
        "}"@,
        ","@,
        line_string("ts_ms"@),
        ":"@,
        "{"@,
    );
    let line = "{"@ + (text_member("event"@, r.event@) + run_part(r));
    reveal_strlit("\n");
    assert(record_line(r) == line + "\n"@);
    assert(record_line(r).drop_last() =~= line);
}

/// The line of a record, read as JSON, gives an object with just the record's members.
pub proof fn law_record_reads_back(r: JournalRecord)
    ensures
        read_back(record_line(r).drop_last(), false) == Some(record_value(r)),
{
    lemma_run_part(r);
    lemma_read_object_line("event"@, r.event@, run_part(r), later_values(r));
    lemma_record_line(r);
    assert(seq![("event"@, JsonView::Str(r.event@))] + later_values(r) =~= record_value(
        r,
    )->Object_0);
}

/// What a journal holds after these records were appended.
pub open spec fn journal_content(records: Seq<JournalRecord>) -> Seq<char>
    decreases records.len(),
{
    if records.len() == 0 {
        Seq::empty()
    } else {
        journal_content(records.drop_last()) + record_line(records.last())
    }
}

/// A run is named after the whole milliseconds since the epoch; a clock that stands
/// before it counts as none.
pub proof fn law_milliseconds_are_whole(now: Moment)
    ensures
        now.total() < 0 ==> epoch_millis(now) == 0,
        now.total() >= 0 ==> epoch_millis(now) * 1_000_000 <= now.total() < (epoch_millis(now) + 1)
            * 1_000_000,
{
}

} // verus!
