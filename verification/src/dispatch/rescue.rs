//! Rescue refs: the refs that keep work which did not pass, and their retirement.

use crate::decimal::{
    all_digits, decimal, digits_value, is_digit, law_decimal_reads_back, law_written_numbers_are_read, number_up_to, opt_nat,
    parse_signed_number, unsigned_part,
};
use crate::dispatch::git::GitReply;
use crate::dispatch::propagate::ref_for;
use crate::feature_id::{is_valid, valid_feature_id};
use crate::moment::{Moment, TimeSpan};
use crate::names::contains_text;
use crate::order::{lemma_filter_picks, picks};
use crate::text::{
    after_last, after_prefix, before_suffix, from_chars, has_prefix, last_index,
    law_affixes_are_parts, law_parted_at_the_first, law_rest_after_the_last,
    last_at, law_trimmed_text_stays, lemma_last_index, lemma_last_index_is, lemma_split_not_empty,
    lemma_split_whole, occurs_at, parted, rest_after_last, rfind_char, same_text, split_char,
    split_on, split_once, strip_prefix, strip_suffix, to_chars, trim, trimmed, views, white_space,
};
use vstd::prelude::*;

verus! {

broadcast use vstd::string::group_string_axioms;

/// Whether `status` is one that a rescue ref can end in.
pub open spec fn is_rescue_status(status: Seq<char>) -> bool {
    status == "pass"@ || status == "timeout"@ || status == "fail"@ || status == "cancelled"@
        || status == "error"@
}

fn known_status(status: &str) -> (r: bool)
    ensures
        r == is_rescue_status(status@),
{
    same_text(status, "pass") || same_text(status, "timeout") || same_text(status, "fail")
        || same_text(status, "cancelled") || same_text(status, "error")
}

/// The feature and the status that a rescue ref names: below
/// `refs/heads/loom-rescue/`, a feature id, a dash and a known status.
pub open spec fn rescue_parts(name: Seq<char>) -> Option<(Seq<char>, Seq<char>)> {
    match after_prefix(name, "refs/heads/loom-rescue/"@) {
        Some(base) => {
            let dash = last_index(base, '-');
            let id = base.take(dash);
            let status = base.skip(dash + 1);
            if dash >= 0 && valid_feature_id(id) && is_rescue_status(status) {
                Some((id, status))
            } else {
                None
            }
        },
        None => None,
    }
}

pub fn parse_rescue_ref_name(ref_name: &str) -> (r: Option<(String, String)>)
    ensures
        match r {
            Some((id, status)) => rescue_parts(ref_name@) == Some((id@, status@)),
            None => rescue_parts(ref_name@) is None,
        },
{
    let base = match strip_prefix(ref_name, "refs/heads/loom-rescue/") {
        Some(b) => b,
        None => {
            return None;
        },
    };
    let chars = to_chars(&base);
    let dash = match rfind_char(&chars, '-') {
        Some(i) => i,
        None => {
            return None;
        },
    };
    proof {
        lemma_last_index(base@, '-');
    }
    let id = from_chars(&chars, 0, dash);
    let status = from_chars(&chars, dash + 1, chars.len());
    proof {
        assert(id@ =~= base@.take(dash as int));
        assert(status@ =~= base@.skip(dash + 1));
    }
    if is_valid(&id) && known_status(&status) {
        Some((id, status))
    } else {
        None
    }
}

proof fn lemma_status_has_no_dash(status: Seq<char>, i: int)
    requires
        is_rescue_status(status),
        0 <= i < status.len(),
    ensures
        status[i] != '-',
{
    reveal_strlit("pass");
    reveal_strlit("timeout");
    reveal_strlit("fail");
    reveal_strlit("cancelled");
    reveal_strlit("error");
}

/// A ref that keeps work which did not pass reads back as its feature and status.
pub proof fn law_rescue_ref_reads_back(id: Seq<char>, status: Seq<char>)
    requires
        valid_feature_id(id),
        is_rescue_status(status),
        status != "pass"@,
    ensures
        rescue_parts(ref_for(id, status)) == Some((id, status)),
{
    let prefix = "refs/heads/loom-rescue/"@;
    let name = ref_for(id, status);
    reveal_strlit("-");
    let base = id + "-"@ + status;
    assert(name =~= prefix + base);
    assert(name.subrange(0, prefix.len() as int) =~= prefix);
    assert(name.skip(prefix.len() as int) =~= base);
    let k = id.len() as int;
    assert(base[k] == '-');
    assert forall|j: int| k < j < base.len() implies base[j] != '-' by {
        assert(base[j] == status[j - k - 1]);
        lemma_status_has_no_dash(status, j - k - 1);
    }
    lemma_last_index_is(base, '-', k);
    assert(base.take(k) =~= id);
    assert(base.skip(k + 1) =~= status);
}

/// A ref that offers work for merging is never taken for a rescue ref.
pub proof fn law_merge_candidate_is_no_rescue_ref(id: Seq<char>)
    ensures
        rescue_parts(ref_for(id, "pass"@)) is None,
{
    reveal_strlit("refs/heads/loom-rescue/");
    reveal_strlit("refs/heads/loom-features/");
    let name = ref_for(id, "pass"@);
    let prefix = "refs/heads/loom-rescue/"@;
    if has_prefix(name, prefix) {
        assert(name.subrange(0, prefix.len() as int)[16] == prefix[16]);
        assert(name[16] == "refs/heads/loom-features/"@[16]);
    }
}

/// A ref and when it was last written.
#[derive(Debug)]
pub struct DatedRef {
    pub name: String,
    /// The object that it names.
    pub oid: String,
    pub written: Moment,
}

/// A dated ref as a mathematical value.
pub struct DatedView {
    pub name: Seq<char>,
    pub oid: Seq<char>,
    pub written: Moment,
}

impl View for DatedRef {
    type V = DatedView;

    open spec fn view(&self) -> DatedView {
        DatedView { name: self.name@, oid: self.oid@, written: self.written }
    }
}

/// Whether something written at `written` is older than `max_age`: strictly, and
/// never if it was written after `now`.
pub open spec fn is_stale(written: Moment, max_age: TimeSpan, now: Moment) -> bool {
    now.total() - written.total() > max_age.total()
}

fn older(written: Moment, max_age: TimeSpan, now: Moment) -> (r: bool)
    ensures
        r == is_stale(written, max_age, now),
{
    let then: i128 = written.total_nanos();
    let here: i128 = now.total_nanos();
    let age: i128 = here - then;
    age >= 0 && age as u128 > max_age.total_nanos()
}

/// The names of the refs that are older than `max_age`, in order.
pub open spec fn stale_names(refs: Seq<(String, Moment)>, max_age: TimeSpan, now: Moment) -> Seq<
    Seq<char>,
>
    decreases refs.len(),
{
    if refs.len() == 0 {
        Seq::empty()
    } else {
        let before = stale_names(refs.drop_last(), max_age, now);
        if is_stale(refs.last().1, max_age, now) {
            before.push(refs.last().0@)
        } else {
            before
        }
    }
}

pub fn select_stale_refs(
    refs: &Vec<(String, Moment)>,
    max_age: TimeSpan,
    now: Moment,
) -> (r: Vec<String>)
    ensures
        views(r@) == stale_names(refs@, max_age, now),
{
    let mut out: Vec<String> = Vec::new();
    let mut i: usize = 0;
    proof {
        assert(views(out@) =~= stale_names(refs@.take(0), max_age, now));
    }
    while i < refs.len()
        invariant
            i <= refs.len(),
            views(out@) == stale_names(refs@.take(i as int), max_age, now),
        decreases refs.len() - i,
    {
        let ghost before = views(out@);
        proof {
            assert(refs@.take(i + 1).drop_last() =~= refs@.take(i as int));
        }
        if older(refs[i].1, max_age, now) {
            out.push(refs[i].0.clone());
            proof {
                assert(views(out@) =~= before.push(refs@[i as int].0@));
            }
        }
        i = i + 1;
    }
    proof {
        assert(refs@.take(i as int) =~= refs@);
    }
    out
}

/// A rescue ref and the object that it names.
#[derive(Debug)]
pub struct RefCandidate {
    pub name: String,
    pub oid: String,
}

pub open spec fn candidate_views(refs: Seq<RefCandidate>) -> Seq<(Seq<char>, Seq<char>)> {
    Seq::new(refs.len(), |i: int| (refs[i].name@, refs[i].oid@))
}

/// The rescue ref on one line of a listing: its name and its object, with a NUL
/// between. Any other line, and any name that is not a rescue ref's, holds none.
pub open spec fn candidate_on(line: Seq<char>) -> Option<(Seq<char>, Seq<char>)> {
    match parted(trimmed(line), '\0') {
        Some((name, oid)) => if rescue_parts(name) is Some {
            Some((name, oid))
        } else {
            None
        },
        None => None,
    }
}

pub open spec fn candidates_on(lines: Seq<Seq<char>>) -> Seq<(Seq<char>, Seq<char>)>
    decreases lines.len(),
{
    if lines.len() == 0 {
        Seq::empty()
    } else {
        let before = candidates_on(lines.drop_last());
        match candidate_on(lines.last()) {
            Some(c) => before.push(c),
            None => before,
        }
    }
}

/// The rescue refs in a listing.
pub fn rescue_candidates(listing: &str) -> (r: Vec<RefCandidate>)
    ensures
        candidate_views(r@) == candidates_on(split_on(listing@, '\n')),
{
    let lines = split_char(listing, '\n');
    let ghost all = views(lines@);
    let mut out: Vec<RefCandidate> = Vec::new();
    let mut i: usize = 0;
    proof {
        assert(candidate_views(out@) =~= candidates_on(all.take(0)));
    }
    while i < lines.len()
        invariant
            all == views(lines@),
            i <= lines.len(),
            candidate_views(out@) == candidates_on(all.take(i as int)),
        decreases lines.len() - i,
    {
        let ghost before = candidate_views(out@);
        proof {
            assert(all.take(i + 1).drop_last() =~= all.take(i as int));
            assert(all.take(i + 1).last() == lines@[i as int]@);
        }
        let line = trim(&lines[i]);
        match split_once(&line, '\0') {
            Some((name, oid)) => {
                if parse_rescue_ref_name(&name).is_some() {
                    let c = RefCandidate { name, oid };
                    out.push(c);
                    proof {
                        assert(candidate_views(out@) =~= before.push((c.name@, c.oid@)));
                    }
                }
            },
            None => {},
        }
        i = i + 1;
    }
    proof {
        assert(all.take(i as int) =~= all);
    }
    out
}

/// Every ref that a sweep considers is a rescue ref.
pub proof fn law_only_rescue_refs_are_considered(listing: Seq<char>, i: int)
    requires
        0 <= i < candidates_on(split_on(listing, '\n')).len(),
    ensures
        rescue_parts(candidates_on(split_on(listing, '\n'))[i].0) is Some,
{
    lemma_candidates_are_rescue_refs(split_on(listing, '\n'), i);
}

proof fn lemma_candidates_are_rescue_refs(lines: Seq<Seq<char>>, i: int)
    requires
        0 <= i < candidates_on(lines).len(),
    ensures
        rescue_parts(candidates_on(lines)[i].0) is Some,
    decreases lines.len(),
{
    if i < candidates_on(lines.drop_last()).len() {
        lemma_candidates_are_rescue_refs(lines.drop_last(), i);
    }
}

/// Why the age of a ref could not be asked for.
#[derive(Debug, Clone, Copy, PartialEq, Eq, Structural)]
pub enum ReflogError {
    SpawnFailed,
    NotUtf8,
}

/// The second that a reflog's first line ends in, written `@{seconds}`.
pub open spec fn reflog_second(stdout: Seq<char>) -> Option<nat> {
    let line = trimmed(split_on(stdout, '\n')[0]);
    match after_last(line, "@{"@) {
        Some(rest) => match before_suffix(rest, "}"@) {
            Some(digits) => number_up_to(unsigned_part(digits), u64::MAX as nat),
            None => None,
        },
        None => None,
    }
}

fn parse_reflog(stdout: &str) -> (r: Option<u64>)
    ensures
        opt_nat(r) == reflog_second(stdout@),
{
    let lines = split_char(stdout, '\n');
    proof {
        lemma_split_not_empty(stdout@, '\n');
        assert(views(lines@)[0] == lines@[0]@);
        reveal_strlit("@{");
    }
    let line = trim(&lines[0]);
    match rest_after_last(&line, "@{") {
        Some(rest) => match strip_suffix(&rest, "}") {
            Some(digits) => parse_signed_number(&digits, u64::MAX),
            None => None,
        },
        None => None,
    }
}

/// When a ref was last written, in seconds since the epoch, from the answer of
/// `git reflog show`. A ref without a reflog has no such time.
pub fn rescue_ref_write_time(reply: &GitReply) -> (r: Result<Option<u64>, ReflogError>)
    ensures
        match *reply {
            GitReply::SpawnFailed => r == Err::<Option<u64>, _>(ReflogError::SpawnFailed),
            GitReply::Exited { success: false, .. } => r == Ok::<Option<u64>, ReflogError>(None),
            GitReply::Exited { success: true, stdout: None } => r == Err::<Option<u64>, _>(
                ReflogError::NotUtf8,
            ),
            GitReply::Exited { success: true, stdout: Some(s) } => r matches Ok(t) && opt_nat(t)
                == reflog_second(s@),
        },
{
    match reply {
        GitReply::SpawnFailed => Err(ReflogError::SpawnFailed),
        GitReply::Exited { success, stdout } => if !*success {
            Ok(None)
        } else {
            match stdout {
                Some(s) => Ok(parse_reflog(s)),
                None => Err(ReflogError::NotUtf8),
            }
        },
    }
}

/// Refs in one sweep above which the operator is warned.
pub const GC_REFS_WATERMARK: u64 = 20;

/// What a sweep over the rescue refs came to.
#[derive(Debug)]
pub struct GcRefsSummary {
    pub deleted: u64,
    /// Refs that would be deleted; counted in a dry run only.
    pub would_delete: u64,
    /// Refs that are young enough to stay.
    pub skipped: u64,
    /// Refs that could not be deleted.
    pub errors: u64,
    /// Whether more refs than the watermark were targeted.
    pub watermark_triggered: bool,
    /// The names of the refs that were targeted.
    pub names: Vec<String>,
}

pub open spec fn dated_pairs(dated: Seq<DatedRef>) -> Seq<(Seq<char>, Moment)> {
    Seq::new(dated.len(), |i: int| (dated[i].name@, dated[i].written))
}

/// Whether some ref of that name is stale.
pub open spec fn name_is_stale(
    pairs: Seq<(Seq<char>, Moment)>,
    name: Seq<char>,
    max_age: TimeSpan,
    now: Moment,
) -> bool {
    exists|i: int|
        0 <= i < pairs.len() && (#[trigger] pairs[i]).0 == name && is_stale(
            pairs[i].1,
            max_age,
            now,
        )
}

/// The refs that a sweep targets, in order.
pub open spec fn targets(dated: Seq<DatedRef>, max_age: TimeSpan, now: Moment) -> Seq<DatedView> {
    views(dated).filter(|d: DatedView| name_is_stale(dated_pairs(dated), d.name, max_age, now))
}

proof fn lemma_stale_names(refs: Seq<(String, Moment)>, name: Seq<char>, max_age: TimeSpan, now: Moment)
    ensures
        stale_names(refs, max_age, now).contains(name) <==> exists|i: int|
            0 <= i < refs.len() && (#[trigger] refs[i]).0@ == name && is_stale(
                refs[i].1,
                max_age,
                now,
            ),
    decreases refs.len(),
{
    if refs.len() > 0 {
        let t = refs.drop_last();
        let before = stale_names(t, max_age, now);
        let all = stale_names(refs, max_age, now);
        lemma_stale_names(t, name, max_age, now);
        if before.contains(name) {
            let i = choose|i: int| 0 <= i < before.len() && before[i] == name;
            assert(all[i] == name);
            let k = choose|k: int|
                0 <= k < t.len() && (#[trigger] t[k]).0@ == name && is_stale(t[k].1, max_age, now);
            assert(refs[k].0@ == name);
        }
        let last = refs.len() - 1;
        if is_stale(refs.last().1, max_age, now) {
            assert(all.last() == refs.last().0@);
            assert(all[all.len() - 1] == refs[last].0@);
        }
        if all.contains(name) {
            let i = choose|i: int| 0 <= i < all.len() && all[i] == name;
            if i < before.len() {
                assert(before[i] == name);
            } else {
                assert(refs[last].0@ == name);
            }
        }
        if exists|i: int|
            0 <= i < refs.len() && (#[trigger] refs[i]).0@ == name && is_stale(
                refs[i].1,
                max_age,
                now,
            ) {
            let i = choose|i: int|
                0 <= i < refs.len() && (#[trigger] refs[i]).0@ == name && is_stale(
                    refs[i].1,
                    max_age,
                    now,
                );
            if i < last {
                assert(t[i].0@ == name);
                assert(before.contains(name));
            }
        }
    }
}

/// The refs that a sweep targets.
pub fn gc_targets(dated: &Vec<DatedRef>, max_age: TimeSpan, now: Moment) -> (r: Vec<DatedRef>)
    ensures
        views(r@) == targets(dated@, max_age, now),
{
    let ghost all = views(dated@);
    let ghost pairs_view = dated_pairs(dated@);
    let ghost keep = |d: DatedView| name_is_stale(pairs_view, d.name, max_age, now);
    let mut pairs: Vec<(String, Moment)> = Vec::new();
    let mut k: usize = 0;
    while k < dated.len()
        invariant
            k <= dated.len(),
            pairs@.len() == k,
            forall|j: int|
                0 <= j < k ==> (#[trigger] pairs@[j]).0@ == dated@[j].name@ && pairs@[j].1
                    == dated@[j].written,
        decreases dated.len() - k,
    {
        pairs.push((dated[k].name.clone(), dated[k].written));
        k = k + 1;
    }
    let stale = select_stale_refs(&pairs, max_age, now);
    proof {
        assert forall|name: Seq<char>| #[trigger]
            views(stale@).contains(name) <==> name_is_stale(pairs_view, name, max_age, now) by {
            lemma_stale_names(pairs@, name, max_age, now);
            if name_is_stale(pairs_view, name, max_age, now) {
                let i = choose|i: int|
                    0 <= i < pairs_view.len() && (#[trigger] pairs_view[i]).0 == name && is_stale(
                        pairs_view[i].1,
                        max_age,
                        now,
                    );
                assert(pairs@[i].0@ == name);
            }
            if views(stale@).contains(name) {
                let i = choose|i: int|
                    0 <= i < pairs@.len() && (#[trigger] pairs@[i]).0@ == name && is_stale(
                        pairs@[i].1,
                        max_age,
                        now,
                    );
                assert(pairs_view[i].0 == name);
            }
        }
    }
    let mut out: Vec<DatedRef> = Vec::new();
    let mut i: usize = 0;
    proof {
        reveal(Seq::filter);
        assert(views(out@) =~= all.take(0).filter(keep));
    }
    while i < dated.len()
        invariant
            all == views(dated@),
            pairs_view == dated_pairs(dated@),
            keep == |d: DatedView| name_is_stale(pairs_view, d.name, max_age, now),
            forall|name: Seq<char>| #[trigger]
                views(stale@).contains(name) <==> name_is_stale(pairs_view, name, max_age, now),
            i <= dated.len(),
            views(out@) == all.take(i as int).filter(keep),
        decreases dated.len() - i,
    {
        let d = &dated[i];
        let ghost before = views(out@);
        proof {
            assert(all.take(i + 1) =~= all.take(i as int).push(d@));
            all.take(i as int).lemma_filter_push(d@, keep);
        }
        if contains_text(&stale, &d.name) {
            let copy = DatedRef {
                name: d.name.clone(),
                oid: d.oid.clone(),
                written: d.written,
            };
            out.push(copy);
            proof {
                assert(views(out@) =~= before.push(d@));
            }
        }
        i = i + 1;
    }
    proof {
        assert(all.take(i as int) =~= all);
    }
    out
}

/// How many of `flags` are `true`.
pub open spec fn count_true(flags: Seq<bool>) -> nat
    decreases flags.len(),
{
    if flags.len() == 0 {
        0
    } else {
        count_true(flags.drop_last()) + (if flags.last() {
            1nat
        } else {
            0
        })
    }
}

proof fn lemma_count_true(flags: Seq<bool>)
    ensures
        count_true(flags) <= flags.len(),
    decreases flags.len(),
{
    if flags.len() > 0 {
        lemma_count_true(flags.drop_last());
    }
}

/// The names of a list of dated refs.
pub open spec fn names_of(dated: Seq<DatedView>) -> Seq<Seq<char>> {
    Seq::new(dated.len(), |i: int| dated[i].name)
}

/// What a sweep over the dated rescue refs came to. In a live run `deletions` says
/// of each target, in order, whether it was deleted; a dry run deletes nothing.
pub fn prune_rescue_refs(
    dated: &Vec<DatedRef>,
    max_age: TimeSpan,
    now: Moment,
    dry_run: bool,
    deletions: &Vec<bool>,
) -> (r: GcRefsSummary)
    requires
        deletions@.len() == (if dry_run {
            0
        } else {
            targets(dated@, max_age, now).len()
        }),
    ensures
        views(r.names@) == names_of(targets(dated@, max_age, now)),
        r.deleted == count_true(deletions@),
        r.errors == deletions@.len() - count_true(deletions@),
        r.would_delete == (if dry_run {
            targets(dated@, max_age, now).len() as int
        } else {
            0
        }),
        r.skipped == dated@.len() - targets(dated@, max_age, now).len(),
        r.watermark_triggered == (targets(dated@, max_age, now).len() > GC_REFS_WATERMARK),
{
    let chosen = gc_targets(dated, max_age, now);
    proof {
        views(dated@).lemma_filter_len(
            |d: DatedView| name_is_stale(dated_pairs(dated@), d.name, max_age, now),
        );
    }
    let mut names: Vec<String> = Vec::new();
    let mut i: usize = 0;
    while i < chosen.len()
        invariant
            i <= chosen.len(),
            names@.len() == i,
            forall|j: int| 0 <= j < i ==> (#[trigger] names@[j])@ == chosen@[j].name@,
        decreases chosen.len() - i,
    {
        names.push(chosen[i].name.clone());
        i = i + 1;
    }
    proof {
        assert(views(names@) =~= names_of(views(chosen@)));
    }
    let mut deleted: u64 = 0;
    let mut k: usize = 0;
    while k < deletions.len()
        invariant
            k <= deletions.len(),
            deleted <= k,
            deleted == count_true(deletions@.take(k as int)),
        decreases deletions.len() - k,
    {
        proof {
            assert(deletions@.take(k + 1).drop_last() =~= deletions@.take(k as int));
        }
        if deletions[k] {
            deleted = deleted + 1;
        }
        k = k + 1;
    }
    proof {
        assert(deletions@.take(k as int) =~= deletions@);
        lemma_count_true(deletions@);
    }
    let targeted: u64 = chosen.len() as u64;
    GcRefsSummary {
        deleted,
        would_delete: if dry_run {
            targeted
        } else {
            0
        },
        skipped: (dated.len() - chosen.len()) as u64,
        errors: deletions.len() as u64 - deleted,
        watermark_triggered: targeted > GC_REFS_WATERMARK,
        names,
    }
}

/// A ref is targeted exactly if it is older than the limit, where no two refs have
/// one name; one that is exactly as old as the limit, or from the future, stays.
pub proof fn law_targets_are_the_stale_refs(
    dated: Seq<DatedRef>,
    max_age: TimeSpan,
    now: Moment,
    i: int,
)
    requires
        0 <= i < dated.len(),
        forall|j: int, k: int|
            0 <= j < k < dated.len() ==> (#[trigger] dated[j]).name@ != (#[trigger] dated[k]).name@,
    ensures
        targets(dated, max_age, now).contains(dated[i]@) <==> is_stale(
            dated[i].written,
            max_age,
            now,
        ),
        now.total() - dated[i].written.total() == max_age.total() ==> !targets(
            dated,
            max_age,
            now,
        ).contains(dated[i]@),
        dated[i].written.total() > now.total() ==> !targets(dated, max_age, now).contains(
            dated[i]@,
        ),
{
    let pairs = dated_pairs(dated);
    let keep = |d: DatedView| name_is_stale(pairs, d.name, max_age, now);
    let all = views(dated);
    assert(all[i] == dated[i]@);
    if is_stale(dated[i].written, max_age, now) {
        assert(pairs[i].0 == dated[i].name@);
        all.lemma_filter_contains(keep, i);
    }
    if targets(dated, max_age, now).contains(dated[i]@) {
        let t = targets(dated, max_age, now);
        let k = choose|k: int| 0 <= k < t.len() && t[k] == dated[i]@;
        all.lemma_filter_pred(keep, k);
        let m = choose|m: int|
            0 <= m < pairs.len() && (#[trigger] pairs[m]).0 == dated[i].name@ && is_stale(
                pairs[m].1,
                max_age,
                now,
            );
        if m < i {
            assert(dated[m].name@ != dated[i].name@);
        } else if i < m {
            assert(dated[i].name@ != dated[m].name@);
        }
    }
}

/// Each dated ref is counted exactly once: deleted, in error, to be deleted, or
/// skipped.
pub proof fn law_every_ref_is_accounted_for(
    summary: GcRefsSummary,
    dated: Seq<DatedRef>,
    max_age: TimeSpan,
    now: Moment,
    dry_run: bool,
    deletions: Seq<bool>,
)
    requires
        deletions.len() == (if dry_run {
            0
        } else {
            targets(dated, max_age, now).len()
        }),
        summary.deleted == count_true(deletions),
        summary.errors == deletions.len() - count_true(deletions),
        summary.would_delete == (if dry_run {
            targets(dated, max_age, now).len() as int
        } else {
            0
        }),
        summary.skipped == dated.len() - targets(dated, max_age, now).len(),
    ensures
        summary.deleted + summary.errors + summary.would_delete + summary.skipped == dated.len(),
        dry_run ==> summary.deleted == 0 && summary.errors == 0,
        !dry_run ==> summary.would_delete == 0,
{
    lemma_count_true(deletions);
}

/// The arguments with which `git` lists the rescue refs.
pub fn list_args(workspace: &str) -> (r: Vec<String>)
    ensures
        views(r@) == seq![
            "-C"@,
            workspace@,
            "for-each-ref"@,
            "--format=%(refname)%00%(objectname)"@,
            "refs/heads/loom-rescue/"@,
        ],
{
    let mut args: Vec<String> = Vec::new();
    args.push("-C".to_owned());
    args.push(workspace.to_owned());
    args.push("for-each-ref".to_owned());
    args.push("--format=%(refname)%00%(objectname)".to_owned());
    args.push("refs/heads/loom-rescue/".to_owned());
    proof {
        assert(views(args@) =~= seq![
            "-C"@,
            workspace@,
            "for-each-ref"@,
            "--format=%(refname)%00%(objectname)"@,
            "refs/heads/loom-rescue/"@,
        ]);
    }
    args
}

/// The arguments with which `git` shows when a ref was last written.
pub fn reflog_args(workspace: &str, name: &str) -> (r: Vec<String>)
    ensures
        views(r@) == seq![
            "-C"@,
            workspace@,
            "reflog"@,
            "show"@,
            "-1"@,
            "--format=%gD"@,
            "--date=unix"@,
            name@,
        ],
{
    let mut args: Vec<String> = Vec::new();
    args.push("-C".to_owned());
    args.push(workspace.to_owned());
    args.push("reflog".to_owned());
    args.push("show".to_owned());
    args.push("-1".to_owned());
    args.push("--format=%gD".to_owned());
    args.push("--date=unix".to_owned());
    args.push(name.to_owned());
    proof {
        assert(views(args@) =~= seq![
            "-C"@,
            workspace@,
            "reflog"@,
            "show"@,
            "-1"@,
            "--format=%gD"@,
            "--date=unix"@,
            name@,
        ]);
    }
    args
}

/// The arguments with which `git` deletes a ref, if it still names `oid`.
pub fn delete_rescue_ref_cas(workspace: &str, name: &str, oid: &str) -> (r: Vec<String>)
    ensures
        views(r@) == seq!["-C"@, workspace@, "update-ref"@, "-d"@, name@, oid@],
{
    let mut args: Vec<String> = Vec::new();
    args.push("-C".to_owned());
    args.push(workspace.to_owned());
    args.push("update-ref".to_owned());
    args.push("-d".to_owned());
    args.push(name.to_owned());
    args.push(oid.to_owned());
    proof {
        assert(views(args@) =~= seq!["-C"@, workspace@, "update-ref"@, "-d"@, name@, oid@]);
    }
    args
}

/// A ref is a rescue ref of a feature exactly where it is named so: the directory of
/// the rescue refs, the feature's id, a dash, and one of the five ends of a worker.
pub proof fn law_rescue_refs_are_told_by_their_names(
    name: Seq<char>,
    id: Seq<char>,
    status: Seq<char>,
)
    ensures
        rescue_parts(name) == Some((id, status)) <==> {
            &&& name == "refs/heads/loom-rescue/"@ + (id + ("-"@ + status))
            &&& valid_feature_id(id)
            &&& status == "pass"@ || status == "timeout"@ || status == "fail"@ || status
                == "cancelled"@ || status == "error"@
        },
{
    reveal_strlit("-");
    let prefix = "refs/heads/loom-rescue/"@;
    if rescue_parts(name) == Some((id, status)) {
        let base = name.skip(prefix.len() as int);
        lemma_last_index(base, '-');
        assert(name =~= prefix + base);
        assert(base =~= id + ("-"@ + status));
    }
    if name == prefix + (id + ("-"@ + status)) && is_rescue_status(status) {
        let base = id + ("-"@ + status);
        assert(name.subrange(0, prefix.len() as int) =~= prefix);
        assert(name.skip(prefix.len() as int) =~= base);
        let k = id.len() as int;
        assert(base[k] == '-');
        assert forall|j: int| k < j < base.len() implies base[j] != '-' by {
            assert(base[j] == status[j - k - 1]);
            lemma_status_has_no_dash(status, j - k - 1);
        }
        lemma_last_index_is(base, '-', k);
        assert(base.take(k) =~= id);
        assert(base.skip(k + 1) =~= status);
    }
}

/// Something is stale exactly where more time has gone by since it was written than the
/// limit allows, to the nanosecond. So whatever is older than something stale is stale,
/// and so it stays.
pub proof fn law_staleness_is_age(w1: Moment, w2: Moment, max_age: TimeSpan, t1: Moment, t2: Moment)
    ensures
        is_stale(w1, max_age, t1) <==> w1.secs * 1_000_000_000 + w1.nanos + max_age.secs
            * 1_000_000_000 + max_age.nanos < t1.secs * 1_000_000_000 + t1.nanos,
        is_stale(w1, max_age, t1) && w2.total() <= w1.total() && t1.total() <= t2.total()
            ==> is_stale(w2, max_age, t2),
{
}

/// The stale refs are those of the list that are older than the limit, in its order and
/// each as often as it is there. `at` says which one each is.
pub proof fn law_stale_refs_are_picked_in_order(
    refs: Seq<(String, Moment)>,
    max_age: TimeSpan,
    now: Moment,
) -> (at: Seq<int>)
    ensures
        at.len() == stale_names(refs, max_age, now).len(),
        forall|k: int|
            0 <= k < at.len() ==> 0 <= #[trigger] at[k] < refs.len() && stale_names(
                refs,
                max_age,
                now,
            )[k] == refs[at[k]].0@,
        forall|j: int, k: int| 0 <= j < k < at.len() ==> #[trigger] at[j] < #[trigger] at[k],
        forall|i: int|
            0 <= i < refs.len() ==> (#[trigger] at.contains(i) <==> now.total()
                - refs[i].1.total() > max_age.total()),
    decreases refs.len(),
{
    if refs.len() == 0 {
        Seq::empty()
    } else {
        let t = refs.drop_last();
        let before = law_stale_refs_are_picked_in_order(t, max_age, now);
        let last = refs.len() - 1;
        let all = stale_names(refs, max_age, now);
        let stale = is_stale(refs.last().1, max_age, now);
        let at = if stale {
            before.push(last)
        } else {
            before
        };
        assert forall|k: int| 0 <= k < at.len() implies 0 <= #[trigger] at[k] < refs.len() && all[k]
            == refs[at[k]].0@ by {
            if k < before.len() {
                assert(at[k] == before[k]);
                assert(t[before[k]] == refs[at[k]]);
                assert(all[k] == stale_names(t, max_age, now)[k]);
            }
        }
        assert forall|i: int| 0 <= i < refs.len() implies (#[trigger] at.contains(i)
            <==> now.total() - refs[i].1.total() > max_age.total()) by {
            if i < last {
                assert(t[i] == refs[i]);
                assert(before.contains(i) <==> now.total() - t[i].1.total() > max_age.total());
                if before.contains(i) {
                    let k = before.index_of(i);
                    assert(at[k] == i);
                }
                if at.contains(i) {
                    let k = at.index_of(i);
                    assert(before[k] == i);
                }
            } else if stale {
                assert(at[before.len() as int] == i);
            } else if at.contains(i) {
                let k = at.index_of(i);
                assert(before[k] < t.len());
            }
        }
        at
    }
}

/// A sweep targets refs of the list as they are, in its order: those that have a name
/// under which some ref is older than the limit, and no others.
pub proof fn law_targets_are_picked_in_order(
    dated: Seq<DatedRef>,
    max_age: TimeSpan,
    now: Moment,
) -> (at: Seq<int>)
    ensures
        picks(views(dated), at, targets(dated, max_age, now)),
        names_of(targets(dated, max_age, now)).len() == at.len(),
        forall|k: int|
            0 <= k < at.len() ==> names_of(targets(dated, max_age, now))[k] == dated[
                #[trigger] at[k]
            ].name@,
        forall|i: int|
            0 <= i < dated.len() ==> (#[trigger] at.contains(i) <==> exists|j: int|
                0 <= j < dated.len() && (#[trigger] dated[j]).name@ == dated[i].name@
                    && now.total() - dated[j].written.total() > max_age.total()),
{
    let pairs = dated_pairs(dated);
    let keep = |d: DatedView| name_is_stale(pairs, d.name, max_age, now);
    let all = views(dated);
    let at = lemma_filter_picks(all, keep);
    let chosen = targets(dated, max_age, now);
    assert forall|k: int| 0 <= k < at.len() implies names_of(chosen)[k] == dated[
        #[trigger] at[k]
    ].name@ by {
        assert(chosen[k] == all[at[k]]);
        assert(all[at[k]] == dated[at[k]]@);
    }
    assert forall|i: int| 0 <= i < dated.len() implies (#[trigger] at.contains(i) <==> exists|
        j: int,
    |
        0 <= j < dated.len() && (#[trigger] dated[j]).name@ == dated[i].name@ && now.total()
            - dated[j].written.total() > max_age.total()) by {
        assert(all[i] == dated[i]@);
        assert(at.contains(i) <==> keep(all[i]));
        let name = dated[i].name@;
        if name_is_stale(pairs, name, max_age, now) {
            let j = choose|j: int|
                0 <= j < pairs.len() && (#[trigger] pairs[j]).0 == name && is_stale(
                    pairs[j].1,
                    max_age,
                    now,
                );
            assert(dated[j].name@ == name);
        }
        if exists|j: int|
            0 <= j < dated.len() && (#[trigger] dated[j]).name@ == name && now.total()
                - dated[j].written.total() > max_age.total() {
            let j = choose|j: int|
                0 <= j < dated.len() && (#[trigger] dated[j]).name@ == name && now.total()
                    - dated[j].written.total() > max_age.total();
            assert(pairs[j].0 == name && is_stale(pairs[j].1, max_age, now));
        }
    }
    at
}

/// A line of a listing tells of this ref: without the whitespace around it, it is the
/// ref's name, a NUL and the object, and the name is a rescue ref's.
pub open spec fn lists(line: Seq<char>, name: Seq<char>, oid: Seq<char>) -> bool {
    &&& trimmed(line) == name.push('\0') + oid
    &&& forall|i: int| 0 <= i < name.len() ==> #[trigger] name[i] != '\0'
    &&& rescue_parts(name) is Some
}

/// A sweep considers every rescue ref of a listing with the object that it names, in
/// order, and nothing else. `at` says on which line each stands.
pub proof fn law_every_listed_ref_is_considered(lines: Seq<Seq<char>>) -> (at: Seq<int>)
    ensures
        at.len() == candidates_on(lines).len(),
        forall|k: int|
            0 <= k < at.len() ==> 0 <= #[trigger] at[k] < lines.len() && lists(
                lines[at[k]],
                candidates_on(lines)[k].0,
                candidates_on(lines)[k].1,
            ),
        forall|j: int, k: int| 0 <= j < k < at.len() ==> #[trigger] at[j] < #[trigger] at[k],
        forall|i: int, name: Seq<char>, oid: Seq<char>|
            0 <= i < lines.len() && #[trigger] lists(lines[i], name, oid) ==> at.contains(i),
    decreases lines.len(),
{
    if lines.len() == 0 {
        Seq::empty()
    } else {
        let t = lines.drop_last();
        let before = law_every_listed_ref_is_considered(t);
        let last = lines.len() - 1;
        let all = candidates_on(lines);
        let found = candidate_on(lines.last());
        let at = if found is Some {
            before.push(last)
        } else {
            before
        };
        if found is Some {
            law_parted_at_the_first(
                trimmed(lines.last()),
                '\0',
                found->Some_0.0,
                found->Some_0.1,
            );
            assert(lists(lines[last], found->Some_0.0, found->Some_0.1));
        }
        assert forall|k: int| 0 <= k < at.len() implies 0 <= #[trigger] at[k] < lines.len()
            && lists(lines[at[k]], all[k].0, all[k].1) by {
            if k < before.len() {
                assert(at[k] == before[k]);
                assert(t[before[k]] == lines[at[k]]);
                assert(all[k] == candidates_on(t)[k]);
            }
        }
        assert forall|i: int, name: Seq<char>, oid: Seq<char>|
            0 <= i < lines.len() && #[trigger] lists(lines[i], name, oid) implies at.contains(i) by {
            if i < last {
                assert(t[i] == lines[i]);
                assert(lists(t[i], name, oid));
                let k = before.index_of(i);
                assert(at[k] == i);
            } else {
                law_parted_at_the_first(trimmed(lines.last()), '\0', name, oid);
                assert(at[before.len() as int] == i);
            }
        }
        at
    }
}

/// The time of a ref's last write reads back from the first line of its reflog, as the
/// number in the braces at the line's end, whatever name stands before them.
pub proof fn law_reflog_time_reads_back(name: Seq<char>, secs: nat)
    requires
        secs <= u64::MAX,
        name.len() > 0,
        !white_space(name[0]),
        forall|i: int| 0 <= i < name.len() ==> #[trigger] name[i] != '\n',
    ensures
        reflog_second(name + "@{"@ + (decimal(secs) + "}"@)) == Some(secs),
        forall|rest: Seq<char>|
            #[trigger] split_on(rest, '\n').len() > 0 && split_on(rest, '\n')[0] == name + "@{"@ + (
            decimal(secs) + "}"@) ==> reflog_second(rest) == Some(secs),
{
    reveal_strlit("@{");
    reveal_strlit("}");
    let digits = decimal(secs);
    let tail = digits + "}"@;
    let line = name + "@{"@ + tail;
    let n = name.len() as int;
    law_decimal_reads_back(secs);
    law_written_numbers_are_read(secs, u64::MAX as nat);
    assert forall|i: int| 0 <= i < digits.len() implies #[trigger] line[n + 2 + i] == digits[i] by {
    }
    assert forall|i: int| 0 <= i < line.len() implies #[trigger] line[i] != '\n' by {
        if i < n {
            assert(line[i] == name[i]);
        } else if n + 2 <= i < n + 2 + digits.len() {
            assert(line[n + 2 + (i - n - 2)] == digits[i - n - 2]);
            assert(is_digit(digits[i - n - 2]));
        }
    }
    lemma_split_whole(line, '\n');
    assert(line[0] == name[0]);
    assert(line.last() == '}');
    law_trimmed_text_stays(line);
    assert forall|j: int| n < j implies !occurs_at(line, "@{"@, j) by {
        if occurs_at(line, "@{"@, j) {
            assert(line.subrange(j, j + 2)[0] == '@');
            assert(line[j] == '@');
            if n + 2 <= j < n + 2 + digits.len() {
                assert(line[n + 2 + (j - n - 2)] == digits[j - n - 2]);
                assert(is_digit(digits[j - n - 2]));
            }
        }
    }
    law_rest_after_the_last(name, "@{"@, tail);
    law_affixes_are_parts(tail, "}"@, digits);
}

/// How many succeeded is counted one by one: what two lists hold is what both hold
/// together, and one entry counts if it is true.
pub proof fn law_count_is_a_sum(a: Seq<bool>, b: Seq<bool>, flag: bool)
    ensures
        count_true(a + b) == count_true(a) + count_true(b),
        count_true(seq![flag]) == if flag {
            1int
        } else {
            0int
        },
    decreases b.len(),
{
    if b.len() > 0 {
        law_count_is_a_sum(a, b.drop_last(), flag);
        assert((a + b).drop_last() =~= a + b.drop_last());
    } else {
        assert(a + b =~= a);
    }
    assert(seq![flag].drop_last() =~= Seq::empty());
    assert(seq![flag].last() == flag);
    assert(count_true(Seq::empty()) == 0);
}

/// A time is read only from a line that ends so: the two characters `@{`, then digits,
/// with a plus sign in front or none, and a brace.
pub proof fn law_reflog_time_stands_in_braces(stdout: Seq<char>, secs: nat)
    requires
        reflog_second(stdout) == Some(secs),
    ensures
        secs <= u64::MAX,
        exists|name: Seq<char>, digits: Seq<char>|
            {
                &&& trimmed(split_on(stdout, '\n')[0]) == #[trigger] (name + "@{"@ + (digits + "}"@))
                &&& all_digits(unsigned_part(digits))
                &&& digits_value(unsigned_part(digits)) == secs
            },
{
    let line = trimmed(split_on(stdout, '\n')[0]);
    let pat = "@{"@;
    let i = choose|i: int| last_at(line, pat, i);
    assert(last_at(line, pat, i));
    let rest = line.skip(i + pat.len());
    let digits = before_suffix(rest, "}"@)->Some_0;
    law_affixes_are_parts(rest, "}"@, digits);
    let name = line.take(i);
    assert(line.subrange(i, i + pat.len()) == pat);
    assert(line =~= name + pat + (digits + "}"@));
}

} // verus!
