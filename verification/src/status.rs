//! What `loom status` tells of past runs.

use crate::decimal::{decimal, decimal_text};
use crate::moment::{
    last_four_digit_second, law_timestamps_sort_by_time, lemma_lt_after, lemma_lt_before,
    lemma_stamp_len, stamp, stamped_second, utc_timestamp, Moment,
};
use crate::order::{
    law_text_order_total, law_text_order_transitive, lemma_filter_picks, picks, text_before,
    text_lt,
};
use crate::paths::{join, path_join};
use crate::text::{has_prefix, has_suffix, opt_text, strip_prefix, strip_suffix, views};
use vstd::prelude::*;

verus! {

broadcast use vstd::string::group_string_axioms;

/// Whether a file name is that of a run's log.
pub open spec fn is_run_log(name: Seq<char>) -> bool {
    has_prefix(name, "run-"@) && has_suffix(name, ".log"@)
}

fn names_run_log(name: &str) -> (r: bool)
    ensures
        r == is_run_log(name@),
{
    strip_prefix(name, "run-").is_some() && strip_suffix(name, ".log").is_some()
}

/// The run logs among file names.
pub open spec fn run_logs(names: Seq<Seq<char>>) -> Seq<Seq<char>> {
    names.filter(|n: Seq<char>| is_run_log(n))
}

/// Whether `latest` is the last of `logs` in the order of texts; `None` if there
/// are none.
pub open spec fn is_latest(latest: Option<Seq<char>>, logs: Seq<Seq<char>>) -> bool {
    match latest {
        None => logs.len() == 0,
        Some(l) => logs.contains(l) && forall|i: int|
            0 <= i < logs.len() ==> !text_lt(l, #[trigger] logs[i]),
    }
}

/// How many run logs there are among file names, and the latest of them.
pub fn recent_run_logs(names: &Vec<String>) -> (r: (usize, Option<String>))
    ensures
        r.0 == run_logs(views(names@)).len(),
        is_latest(opt_text(r.1), run_logs(views(names@))),
{
    let ghost all = views(names@);
    let ghost keep = |n: Seq<char>| is_run_log(n);
    let mut count: usize = 0;
    let mut latest: Option<String> = None;
    let mut i: usize = 0;
    proof {
        reveal(Seq::filter);
        assert(all.take(0).filter(keep) =~= Seq::empty());
    }
    while i < names.len()
        invariant
            all == views(names@),
            keep == |n: Seq<char>| is_run_log(n),
            i <= names.len(),
            count <= i,
            count == all.take(i as int).filter(keep).len(),
            is_latest(opt_text(latest), all.take(i as int).filter(keep)),
        decreases names.len() - i,
    {
        let ghost before = all.take(i as int).filter(keep);
        let ghost name = names@[i as int]@;
        proof {
            assert(all.take(i + 1) =~= all.take(i as int).push(name));
            all.take(i as int).lemma_filter_push(name, keep);
        }
        if names_run_log(&names[i]) {
            count = count + 1;
            let ghost after = before.push(name);
            let newer = match &latest {
                None => true,
                Some(l) => text_before(l, &names[i]),
            };
            proof {
                assert(after[before.len() as int] == name);
                law_text_order_total(name, name);
                if before.len() > 0 {
                    let l = opt_text(latest)->Some_0;
                    let k = choose|k: int| 0 <= k < before.len() && before[k] == l;
                    assert(after[k] == l);
                    if newer {
                        assert forall|j: int| 0 <= j < after.len() implies !text_lt(
                            name,
                            #[trigger] after[j],
                        ) by {
                            if j < before.len() && text_lt(name, after[j]) {
                                assert(after[j] == before[j]);
                                law_text_order_transitive(l, name, before[j]);
                            }
                        }
                    } else {
                        assert forall|j: int| 0 <= j < after.len() implies !text_lt(
                            l,
                            #[trigger] after[j],
                        ) by {
                            if j < before.len() {
                                assert(after[j] == before[j]);
                            }
                        }
                    }
                }
            }
            if newer {
                latest = Some(names[i].clone());
            }
        }
        i = i + 1;
    }
    proof {
        assert(all.take(i as int) =~= all);
    }
    (count, latest)
}

/// The name of the log of a run that begins at second `secs`.
pub open spec fn run_log_name(secs: int) -> Seq<char> {
    "run-"@ + stamp(secs) + ".log"@
}

pub fn run_log_file(now: Moment) -> (r: String)
    ensures
        r@ == run_log_name(stamped_second(now)),
{
    let mut out = "run-".to_owned();
    out.append(&utc_timestamp(now));
    out.append(".log");
    out
}

/// The log of a run is recognised as one.
pub proof fn law_run_log_is_recognised(secs: int)
    ensures
        is_run_log(run_log_name(secs)),
{
    let name = run_log_name(secs);
    let head = "run-"@;
    let tail = ".log"@;
    assert(name.subrange(0, head.len() as int) =~= head);
    assert(name.subrange(name.len() - tail.len(), name.len() as int) =~= tail);
}

/// The latest log by name is that of the latest run: up to the year 9999 the log of
/// an earlier second stands before that of a later one.
pub proof fn law_run_logs_sort_by_time(a: int, b: int)
    requires
        0 <= a < b <= last_four_digit_second(),
    ensures
        text_lt(run_log_name(a), run_log_name(b)),
{
    law_timestamps_sort_by_time(a, b);
    lemma_stamp_len(a);
    lemma_stamp_len(b);
    lemma_lt_before(stamp(a), stamp(b), ".log"@, ".log"@);
    lemma_lt_after("run-"@, stamp(a) + ".log"@, stamp(b) + ".log"@);
    assert(run_log_name(a) =~= "run-"@ + (stamp(a) + ".log"@));
    assert(run_log_name(b) =~= "run-"@ + (stamp(b) + ".log"@));
}

/// What `loom status` tells of the run logs.
pub open spec fn run_log_summary(loom_dir: Seq<char>, count: nat, latest: Option<Seq<char>>) -> Seq<
    char,
> {
    if count == 0 {
        "\nrun logs: none under "@ + loom_dir
    } else {
        "\nrun logs: "@ + decimal(count) + " file(s) under "@ + loom_dir + (match latest {
            Some(name) => "\nmost recent: "@ + path_join(loom_dir, name),
            None => Seq::empty(),
        })
    }
}

pub fn describe_run_logs(loom_dir: &str, count: usize, latest: &Option<String>) -> (r: String)
    ensures
        r@ == run_log_summary(loom_dir@, count as nat, opt_text(*latest)),
{
    if count == 0 {
        let mut out = "\nrun logs: none under ".to_owned();
        out.append(loom_dir);
        return out;
    }
    let mut out = "\nrun logs: ".to_owned();
    out.append(&decimal_text(count as u128));
    out.append(" file(s) under ");
    out.append(loom_dir);
    let ghost before = out@;
    if let Some(name) = latest {
        out.append("\nmost recent: ");
        out.append(&join(loom_dir, name));
    }
    proof {
        assert(out@ =~= run_log_summary(loom_dir@, count as nat, opt_text(*latest)));
    }
    out
}

/// A file is a run's log exactly where its name is `run-`, anything, and `.log`.
pub proof fn law_run_logs_are_told_by_their_names(name: Seq<char>)
    ensures
        is_run_log(name) <==> exists|mid: Seq<char>| name == #[trigger] ("run-"@ + mid) + ".log"@,
{
    reveal_strlit("run-");
    reveal_strlit(".log");
    let n = name.len() as int;
    if is_run_log(name) {
        if n < 8 {
            assert(name.subrange(0, 4)[n - 4] == name[n - 4]);
            assert(name.subrange(n - 4, n)[0] == name[n - 4]);
        }
        let mid = name.subrange(4, n - 4);
        assert(name =~= "run-"@ + mid + ".log"@);
    }
    if exists|mid: Seq<char>| name == #[trigger] ("run-"@ + mid) + ".log"@ {
        let mid = choose|mid: Seq<char>| name == #[trigger] ("run-"@ + mid) + ".log"@;
        assert(name.subrange(0, 4) =~= "run-"@);
        assert(name.subrange(n - 4, n) =~= ".log"@);
    }
}

/// The run logs are the files with such a name, each as often as it is listed.
pub proof fn law_run_logs_are_picked(names: Seq<Seq<char>>) -> (at: Seq<int>)
    ensures
        picks(names, at, run_logs(names)),
        forall|i: int| 0 <= i < names.len() ==> (#[trigger] at.contains(i) <==> is_run_log(names[i])),
{
    lemma_filter_picks(names, |n: Seq<char>| is_run_log(n))
}

/// What is told of the run logs is their number and their directory, and after that, on a
/// line of its own, where the latest lies if it is known.
pub proof fn law_summary_tells_the_latest(loom_dir: Seq<char>, count: nat, latest: Seq<char>)
    requires
        count > 0,
    ensures
        run_log_summary(loom_dir, 0, None) == "\nrun logs: none under "@ + loom_dir,
        run_log_summary(loom_dir, count, None) == "\nrun logs: "@ + decimal(count)
            + " file(s) under "@ + loom_dir,
        run_log_summary(loom_dir, count, Some(latest)) == run_log_summary(loom_dir, count, None)
            + "\nmost recent: "@ + path_join(loom_dir, latest),
{
    let head = "\nrun logs: "@ + decimal(count) + " file(s) under "@ + loom_dir;
    assert(head + Seq::<char>::empty() =~= head);
    assert(run_log_summary(loom_dir, count, Some(latest)) =~= head + "\nmost recent: "@ + path_join(
        loom_dir,
        latest,
    ));
}

/// The latest log is one of the logs, and every other comes before it; there is none only
/// where there are no logs.
pub proof fn law_latest_comes_last(latest: Option<Seq<char>>, logs: Seq<Seq<char>>, i: int)
    requires
        is_latest(latest, logs),
        0 <= i < logs.len(),
    ensures
        latest is Some,
        logs.contains(latest->Some_0),
        logs[i] == latest->Some_0 || text_lt(logs[i], latest->Some_0),
{
    law_text_order_total(logs[i], latest->Some_0);
}

} // verus!
