//! The adapter that runs a worker as a process: what it is started with, and what
//! its end comes to.

use crate::artifact::{Artifact, WorkerVerdict};
use crate::decimal::{decimal, decimal_text};
use crate::moment::TimeSpan;
use crate::paths::{
    join, law_name_of_join, law_parent_of_join, path_join, path_name, path_parent,
};
use crate::text::{opt_text, views};
use vstd::prelude::*;

verus! {

broadcast use vstd::string::group_string_axioms;

/// The variable by which a process tells that it was started by `loom`.
pub const PARENT_PID_VARIABLE: &'static str = "LOOM_PARENT_PID";

/// Seconds that the output of an ended worker is waited for.
pub const IO_DRAIN_SECS: u64 = 2;

/// How a worker is run.
#[derive(Debug)]
pub struct ClaudeCodeAdapter {
    pub command: String,
    pub args: Vec<String>,
    pub timeout: TimeSpan,
    pub io_drain_timeout: TimeSpan,
    /// If given, the only variables that the worker has.
    pub env_vars: Option<Vec<(String, String)>>,
    /// If given, the program that the worker's search path must not reach.
    pub scrub_loom_binary: Option<String>,
}

impl ClaudeCodeAdapter {
    pub fn new(command: String, args: Vec<String>, timeout: TimeSpan) -> (r: Self)
        ensures
            r.command == command,
            r.args == args,
            r.timeout == timeout,
            r.io_drain_timeout == (TimeSpan { secs: IO_DRAIN_SECS, nanos: 0 }),
            r.env_vars is None,
            r.scrub_loom_binary is None,
    {
        ClaudeCodeAdapter {
            command,
            args,
            timeout,
            io_drain_timeout: TimeSpan::from_secs(IO_DRAIN_SECS),
            env_vars: None,
            scrub_loom_binary: None,
        }
    }

    pub fn with_scrubbed_path(
        command: String,
        args: Vec<String>,
        timeout: TimeSpan,
        loom_binary: String,
    ) -> (r: Self)
        ensures
            r.command == command,
            r.args == args,
            r.timeout == timeout,
            r.io_drain_timeout == (TimeSpan { secs: IO_DRAIN_SECS, nanos: 0 }),
            r.env_vars is None,
            r.scrub_loom_binary == Some(loom_binary),
    {
        let mut s = ClaudeCodeAdapter::new(command, args, timeout);
        s.scrub_loom_binary = Some(loom_binary);
        s
    }

    /// Whether the search path of the worker is scrubbed.
    pub fn scrubs_path(&self) -> (r: bool)
        ensures
            r == (self.env_vars is None && self.scrub_loom_binary is Some),
    {
        self.env_vars.is_none() && self.scrub_loom_binary.is_some()
    }

    /// What is done, in order, to the variables that a worker inherits. `scrubbed` is
    /// the search path for the worker, where it is scrubbed, and `pid` the number of
    /// this process.
    pub fn environment(&self, scrubbed: &str, pid: u32) -> (r: Vec<EnvChange>)
        ensures
            views(r@) == env_changes(
                given_vars(self.env_vars),
                self.scrub_loom_binary is Some,
                scrubbed@,
                pid as nat,
            ),
    {
        let mut out: Vec<EnvChange> = Vec::new();
        match &self.env_vars {
            Some(vars) => {
                out.push(EnvChange::Clear);
                let mut i: usize = 0;
                proof {
                    assert(views(out@) =~= seq![EnvChangeView::Clear] + set_all(
                        pairs(vars@).take(0),
                    ));
                }
                while i < vars.len()
                    invariant
                        i <= vars.len(),
                        views(out@) == seq![EnvChangeView::Clear] + set_all(
                            pairs(vars@).take(i as int),
                        ),
                    decreases vars.len() - i,
                {
                    let ghost before = views(out@);
                    out.push(
                        EnvChange::Assign { name: vars[i].0.clone(), value: vars[i].1.clone() },
                    );
                    i = i + 1;
                    proof {
                        assert(views(out@) =~= before.push(
                            EnvChangeView::Assign {
                                name: vars@[i - 1].0@,
                                value: vars@[i - 1].1@,
                            },
                        ));
                        assert(views(out@) =~= seq![EnvChangeView::Clear] + set_all(
                            pairs(vars@).take(i as int),
                        ));
                    }
                }
                proof {
                    assert(pairs(vars@).take(i as int) =~= pairs(vars@));
                }
            },
            None => {
                if self.scrub_loom_binary.is_some() {
                    out.push(
                        EnvChange::Assign { name: "PATH".to_owned(), value: scrubbed.to_owned() },
                    );
                }
            },
        }
        let ghost before = views(out@);
        out.push(
            EnvChange::Assign { name: PARENT_PID_VARIABLE.to_owned(), value: parent_pid_value(pid) },
        );
        proof {
            assert(views(out@) =~= before.push(
                EnvChangeView::Assign { name: "LOOM_PARENT_PID"@, value: decimal(pid as nat) },
            ));
            assert(views(out@) =~= env_changes(
                given_vars(self.env_vars),
                self.scrub_loom_binary is Some,
                scrubbed@,
                pid as nat,
            ));
        }
        out
    }
}

/// A change to the variables that a worker inherits.
#[derive(Debug)]
pub enum EnvChange {
    /// All are dropped.
    Clear,
    Assign { name: String, value: String },
}

/// A change as a mathematical value.
pub enum EnvChangeView {
    Clear,
    Assign { name: Seq<char>, value: Seq<char> },
}

impl View for EnvChange {
    type V = EnvChangeView;

    open spec fn view(&self) -> EnvChangeView {
        match *self {
            EnvChange::Clear => EnvChangeView::Clear,
            EnvChange::Assign { name, value } => EnvChangeView::Assign { name: name@, value: value@ },
        }
    }
}

pub open spec fn pairs(vars: Seq<(String, String)>) -> Seq<(Seq<char>, Seq<char>)> {
    Seq::new(vars.len(), |i: int| (vars[i].0@, vars[i].1@))
}

pub open spec fn given_vars(vars: Option<Vec<(String, String)>>) -> Option<
    Seq<(Seq<char>, Seq<char>)>,
> {
    match vars {
        Some(v) => Some(pairs(v@)),
        None => None,
    }
}

pub open spec fn set_all(vars: Seq<(Seq<char>, Seq<char>)>) -> Seq<EnvChangeView> {
    Seq::new(vars.len(), |i: int| EnvChangeView::Assign { name: vars[i].0, value: vars[i].1 })
}

/// The changes to the variables of a worker: given variables replace all others, or
/// else the search path is scrubbed; the mark of a worker is set last.
pub open spec fn env_changes(
    given: Option<Seq<(Seq<char>, Seq<char>)>>,
    scrub: bool,
    scrubbed: Seq<char>,
    pid: nat,
) -> Seq<EnvChangeView> {
    let first = match given {
        Some(vars) => seq![EnvChangeView::Clear] + set_all(vars),
        None => if scrub {
            seq![EnvChangeView::Assign { name: "PATH"@, value: scrubbed }]
        } else {
            Seq::empty()
        },
    };
    first.push(EnvChangeView::Assign { name: "LOOM_PARENT_PID"@, value: decimal(pid) })
}

/// The variables after a list of changes.
pub open spec fn env_after(
    vars: Map<Seq<char>, Seq<char>>,
    changes: Seq<EnvChangeView>,
) -> Map<Seq<char>, Seq<char>>
    decreases changes.len(),
{
    if changes.len() == 0 {
        vars
    } else {
        let before = env_after(vars, changes.drop_last());
        match changes.last() {
            EnvChangeView::Clear => Map::empty(),
            EnvChangeView::Assign { name, value } => before.insert(name, value),
        }
    }
}

/// Every worker is marked as started by this process, whatever else is done to its
/// variables.
pub proof fn law_every_worker_is_marked(
    vars: Map<Seq<char>, Seq<char>>,
    given: Option<Seq<(Seq<char>, Seq<char>)>>,
    scrub: bool,
    scrubbed: Seq<char>,
    pid: nat,
)
    ensures
        env_after(vars, env_changes(given, scrub, scrubbed, pid)).dom().contains(
            "LOOM_PARENT_PID"@,
        ),
        env_after(vars, env_changes(given, scrub, scrubbed, pid))["LOOM_PARENT_PID"@] == decimal(
            pid,
        ),
{
}

/// A worker without given variables keeps all that it inherits, but for its mark and,
/// if that is scrubbed, its search path.
pub proof fn law_other_variables_are_kept(
    vars: Map<Seq<char>, Seq<char>>,
    scrub: bool,
    scrubbed: Seq<char>,
    pid: nat,
    name: Seq<char>,
)
    requires
        name != "LOOM_PARENT_PID"@,
        scrub ==> name != "PATH"@,
    ensures
        ({
            let after = env_after(vars, env_changes(None, scrub, scrubbed, pid));
            &&& after.dom().contains(name) == vars.dom().contains(name)
            &&& vars.dom().contains(name) ==> after[name] == vars[name]
        }),
{
    reveal_with_fuel(env_after, 3);
    let changes = env_changes(None, scrub, scrubbed, pid);
    if scrub {
        assert(changes.drop_last() =~= seq![EnvChangeView::Assign { name: "PATH"@, value: scrubbed }]);
        assert(changes.drop_last().drop_last() =~= Seq::empty());
    } else {
        assert(changes.drop_last() =~= Seq::empty());
    }
}

/// How the wait for a worker ended.
#[derive(Debug, Clone, Copy, PartialEq, Eq, Structural)]
pub enum RunOutcome {
    Exited,
    TimedOut,
    Cancelled,
}

/// The verdict on a worker's process. `success` says whether its exit status was 0.
pub open spec fn run_verdict(outcome: RunOutcome, success: bool) -> WorkerVerdict {
    match outcome {
        RunOutcome::Cancelled => WorkerVerdict::Cancelled,
        RunOutcome::TimedOut => WorkerVerdict::Timeout,
        RunOutcome::Exited => if success {
            WorkerVerdict::Pass
        } else {
            WorkerVerdict::Fail
        },
    }
}

/// Whether the process group of a worker has to be killed: only one that exited by
/// itself is left alone.
pub fn must_kill(outcome: RunOutcome) -> (r: bool)
    ensures
        r == (outcome != RunOutcome::Exited),
{
    match outcome {
        RunOutcome::Exited => false,
        _ => true,
    }
}

/// The number by which the process group of `pid` is signalled.
pub fn kill_process_group(pid: Option<u32>) -> (r: Option<i32>)
    requires
        pid matches Some(p) ==> p <= i32::MAX,
    ensures
        match pid {
            Some(p) => r == Some((-(p as int)) as i32),
            None => r is None,
        },
{
    match pid {
        Some(p) => Some(-(p as i32)),
        None => None,
    }
}

/// How the reading of an output stream ended.
#[derive(Debug)]
pub enum DrainEnd {
    Bytes(Vec<u8>),
    IoError,
    /// The reading task panicked or was aborted.
    TaskLost,
    /// It took too long.
    Elapsed,
}

/// What was read, and whether anything was lost: an output that could not be read
/// to its end counts as lost.
pub fn drain_with_timeout(end: DrainEnd) -> (r: (Vec<u8>, bool))
    ensures
        match end {
            DrainEnd::Bytes(b) => r.0@ == b@ && !r.1,
            _ => r.0@.len() == 0 && r.1,
        },
{
    match end {
        DrainEnd::Bytes(b) => (b, false),
        _ => (Vec::new(), true),
    }
}

/// Where the standard output of a worker is kept.
pub open spec fn stdout_path_of(feature_dir: Seq<char>, identity: Seq<char>) -> Seq<char> {
    path_join(path_join(path_join(feature_dir, ".loom"@), "workers"@), identity + ".stdout"@)
}

pub fn worker_stdout_path(feature_dir: &str, identity: &str) -> (r: String)
    ensures
        r@ == stdout_path_of(feature_dir@, identity@),
{
    let mut name = identity.to_owned();
    name.append(".stdout");
    join(&join(&join(feature_dir, ".loom"), "workers"), &name)
}

/// What a worker's process came to. `exit_code` is its exit code, if it has one;
/// `stderr` is what it printed as errors.
pub fn worker_artifact(
    outcome: RunOutcome,
    success: bool,
    exit_code: Option<i32>,
    stdout_path: String,
    stderr: String,
    duration: TimeSpan,
    worker_identity: String,
    stdout_truncated: bool,
    stderr_truncated: bool,
) -> (r: Artifact)
    ensures
        r.verdict == run_verdict(outcome, success),
        r.stdout_path == stdout_path,
        opt_text(r.reasoning_trace) == (if stderr@.len() == 0 {
            None
        } else {
            Some(stderr@)
        }),
        r.duration == duration,
        r.worker_identity == worker_identity,
        r.exit_code == (match exit_code {
            Some(c) => c as int,
            None => -1,
        }),
        r.drain_truncated == (stdout_truncated || stderr_truncated),
{
    let verdict = match outcome {
        RunOutcome::Cancelled => WorkerVerdict::Cancelled,
        RunOutcome::TimedOut => WorkerVerdict::Timeout,
        RunOutcome::Exited => if success {
            WorkerVerdict::Pass
        } else {
            WorkerVerdict::Fail
        },
    };
    let reasoning_trace = if stderr.as_str().is_empty() {
        None
    } else {
        Some(stderr)
    };
    let code: i32 = match exit_code {
        Some(c) => c,
        None => -1,
    };
    Artifact {
        verdict,
        stdout_path,
        reasoning_trace,
        duration,
        worker_identity,
        exit_code: code,
        drain_truncated: stdout_truncated || stderr_truncated,
    }
}

/// The value of the variable that marks a worker: the number of this process.
pub fn parent_pid_value(pid: u32) -> (r: String)
    ensures
        r@ == decimal(pid as nat),
{
    decimal_text(pid as u128)
}

/// What an agent is told.
pub open spec fn work_prompt() -> Seq<char> {
    "Execute /ae:work to complete the plan in this feature directory, then execute /ae:review to verify it and write the terminal verdict."@
}

/// The command of the default worker: the agent, or a harmless echo where it cannot
/// be found.
pub open spec fn default_command(agent: Seq<char>, agent_on_path: bool) -> (
    Seq<char>,
    Seq<Seq<char>>,
) {
    if agent_on_path {
        (agent, seq!["-p"@, work_prompt(), "--permission-mode"@, "bypassPermissions"@])
    } else {
        ("/bin/echo"@, seq!["[loom stub] "@ + agent + " not on PATH — skipping work"@])
    }
}

/// The default worker. `agent` is the name of the agent's program. Where `loom`'s own
/// path is known, the worker's search path is scrubbed of it.
pub fn default_worker(
    agent: &str,
    agent_on_path: bool,
    timeout: TimeSpan,
    loom_binary: Option<String>,
) -> (r: ClaudeCodeAdapter)
    ensures
        (r.command@, views(r.args@)) == default_command(agent@, agent_on_path),
        r.timeout == timeout,
        r.io_drain_timeout == (TimeSpan { secs: IO_DRAIN_SECS, nanos: 0 }),
        r.env_vars is None,
        r.scrub_loom_binary == loom_binary,
{
    let mut args: Vec<String> = Vec::new();
    let command = if agent_on_path {
        args.push("-p".to_owned());
        args.push(
            "Execute /ae:work to complete the plan in this feature directory, then execute /ae:review to verify it and write the terminal verdict.".to_owned(),
        );
        args.push("--permission-mode".to_owned());
        args.push("bypassPermissions".to_owned());
        agent.to_owned()
    } else {
        let mut notice = "[loom stub] ".to_owned();
        notice.append(agent);
        notice.append(" not on PATH — skipping work");
        args.push(notice);
        "/bin/echo".to_owned()
    };
    proof {
        assert(views(args@) =~= default_command(agent@, agent_on_path).1);
    }
    match loom_binary {
        Some(bin) => ClaudeCodeAdapter::with_scrubbed_path(command, args, timeout, bin),
        None => ClaudeCodeAdapter::new(command, args, timeout),
    }
}

/// A worker passes exactly where it exited by itself with status 0. One that was
/// cancelled or ran out of time never does, whatever its status was in the end.
pub proof fn law_only_a_clean_exit_passes(outcome: RunOutcome, success: bool)
    ensures
        run_verdict(outcome, success) == WorkerVerdict::Pass <==> outcome == RunOutcome::Exited
            && success,
        run_verdict(outcome, success) == WorkerVerdict::Fail <==> outcome == RunOutcome::Exited
            && !success,
        run_verdict(outcome, success) == WorkerVerdict::Timeout <==> outcome
            == RunOutcome::TimedOut,
        run_verdict(outcome, success) == WorkerVerdict::Cancelled <==> outcome
            == RunOutcome::Cancelled,
{
}

/// A worker that is given variables has those and its mark, and none that it would have
/// inherited; of several with one name the last counts.
pub proof fn law_given_variables_replace_all_others(
    vars: Map<Seq<char>, Seq<char>>,
    given: Seq<(Seq<char>, Seq<char>)>,
    scrub: bool,
    scrubbed: Seq<char>,
    pid: nat,
    name: Seq<char>,
)
    requires
        name != "LOOM_PARENT_PID"@,
    ensures
        ({
            let after = env_after(vars, env_changes(Some(given), scrub, scrubbed, pid));
            &&& after.dom().contains(name) <==> exists|i: int|
                0 <= i < given.len() && (#[trigger] given[i]).0 == name
            &&& forall|i: int|
                0 <= i < given.len() && (#[trigger] given[i]).0 == name && (forall|j: int|
                    i < j < given.len() ==> (#[trigger] given[j]).0 != name) ==> after[name]
                    == given[i].1
        }),
{
    let first = seq![EnvChangeView::Clear] + set_all(given);
    let changes = env_changes(Some(given), scrub, scrubbed, pid);
    assert(changes.drop_last() =~= first);
    lemma_given_names(vars, given, name);
    assert forall|i: int|
        0 <= i < given.len() && (#[trigger] given[i]).0 == name && (forall|j: int|
            i < j < given.len() ==> (#[trigger] given[j]).0 != name) implies env_after(
        vars,
        first,
    )[name] == given[i].1 by {
        lemma_last_given_counts(vars, given, i);
    }
}

proof fn lemma_given_step(
    vars: Map<Seq<char>, Seq<char>>,
    given: Seq<(Seq<char>, Seq<char>)>,
)
    requires
        given.len() > 0,
    ensures
        env_after(vars, seq![EnvChangeView::Clear] + set_all(given)) == env_after(
            vars,
            seq![EnvChangeView::Clear] + set_all(given.drop_last()),
        ).insert(given.last().0, given.last().1),
{
    let all = seq![EnvChangeView::Clear] + set_all(given);
    assert(all.drop_last() =~= seq![EnvChangeView::Clear] + set_all(given.drop_last()));
    assert(all.last() == EnvChangeView::Assign { name: given.last().0, value: given.last().1 });
}

proof fn lemma_given_names(
    vars: Map<Seq<char>, Seq<char>>,
    given: Seq<(Seq<char>, Seq<char>)>,
    name: Seq<char>,
)
    ensures
        env_after(vars, seq![EnvChangeView::Clear] + set_all(given)).dom().contains(name)
            <==> exists|i: int| 0 <= i < given.len() && (#[trigger] given[i]).0 == name,
    decreases given.len(),
{
    if given.len() == 0 {
        let all = seq![EnvChangeView::Clear] + set_all(given);
        assert(all.last() == EnvChangeView::Clear);
    } else {
        let t = given.drop_last();
        let last = given.len() - 1;
        lemma_given_names(vars, t, name);
        lemma_given_step(vars, given);
        assert(given[last] == given.last());
        if exists|i: int| 0 <= i < t.len() && (#[trigger] t[i]).0 == name {
            let i = choose|i: int| 0 <= i < t.len() && (#[trigger] t[i]).0 == name;
            assert(given[i].0 == name);
        }
        if exists|i: int| 0 <= i < given.len() && (#[trigger] given[i]).0 == name {
            let i = choose|i: int| 0 <= i < given.len() && (#[trigger] given[i]).0 == name;
            if i < last {
                assert(t[i].0 == name);
            }
        }
    }
}

proof fn lemma_last_given_counts(
    vars: Map<Seq<char>, Seq<char>>,
    given: Seq<(Seq<char>, Seq<char>)>,
    i: int,
)
    requires
        0 <= i < given.len(),
        forall|j: int| i < j < given.len() ==> (#[trigger] given[j]).0 != given[i].0,
    ensures
        env_after(vars, seq![EnvChangeView::Clear] + set_all(given))[given[i].0] == given[i].1,
    decreases given.len(),
{
    let t = given.drop_last();
    let last = given.len() - 1;
    lemma_given_step(vars, given);
    assert(given[last] == given.last());
    if i < last {
        assert(t[i] == given[i]);
        assert forall|j: int| i < j < t.len() implies (#[trigger] t[j]).0 != t[i].0 by {
            assert(given[j].0 != given[i].0);
        }
        lemma_last_given_counts(vars, t, i);
    }
}

/// A worker whose search path is scrubbed has the scrubbed one.
pub proof fn law_scrubbed_path_is_given(
    vars: Map<Seq<char>, Seq<char>>,
    scrubbed: Seq<char>,
    pid: nat,
)
    ensures
        env_after(vars, env_changes(None, true, scrubbed, pid)).dom().contains("PATH"@),
        env_after(vars, env_changes(None, true, scrubbed, pid))["PATH"@] == scrubbed,
{
    reveal_strlit("PATH");
    reveal_strlit("LOOM_PARENT_PID");
    assert("PATH"@.len() == 4 && "LOOM_PARENT_PID"@.len() == 15);
    reveal_with_fuel(env_after, 3);
    let changes = env_changes(None, true, scrubbed, pid);
    assert(changes.drop_last() =~= seq![EnvChangeView::Assign { name: "PATH"@, value: scrubbed }]);
    assert(changes.drop_last().drop_last() =~= Seq::empty());
}

/// The output of a worker is kept in a file named after the worker, in the directory
/// for that below the feature.
pub proof fn law_output_is_named_after_the_worker(feature_dir: Seq<char>, identity: Seq<char>)
    requires
        forall|i: int| 0 <= i < identity.len() ==> #[trigger] identity[i] != '/',
    ensures
        path_name(stdout_path_of(feature_dir, identity)) == Some(identity + ".stdout"@),
        path_parent(stdout_path_of(feature_dir, identity)) == Some(
            path_join(path_join(feature_dir, ".loom"@), "workers"@),
        ),
{
    reveal_strlit(".stdout");
    reveal_strlit("workers");
    let name = identity + ".stdout"@;
    assert forall|i: int| 0 <= i < name.len() implies #[trigger] name[i] != '/' by {
        if i < identity.len() {
            assert(name[i] == identity[i]);
        } else {
            assert(name[i] == ".stdout"@[i - identity.len()]);
        }
    }
    assert(name.len() >= 7);
    let dir = path_join(path_join(feature_dir, ".loom"@), "workers"@);
    assert(dir.last() == 's');
    law_name_of_join(dir, name);
    law_parent_of_join(dir, name);
}

/// Variables are given pair by pair, in order.
pub proof fn law_given_pairs_are_kept(vars: Vec<(String, String)>, i: int)
    requires
        0 <= i < vars@.len(),
    ensures
        given_vars(None) is None,
        given_vars(Some(vars)) is Some,
        given_vars(Some(vars))->Some_0.len() == vars@.len(),
        given_vars(Some(vars))->Some_0[i].0 == vars@[i].0@,
        given_vars(Some(vars))->Some_0[i].1 == vars@[i].1@,
{
}

/// The default worker is the agent where it can be found, told the same whatever it is
/// called. Where it cannot, no work is done, and the notice names the agent.
pub proof fn law_default_worker_is_the_agent_or_none(agent: Seq<char>, other: Seq<char>)
    ensures
        default_command(agent, true).0 == agent,
        default_command(agent, true).1 == default_command(other, true).1,
        default_command(agent, true).1.contains(work_prompt()),
        default_command(agent, false).0 == "/bin/echo"@,
        default_command(agent, false).1.len() == 1,
        default_command(agent, false).1 == default_command(other, false).1 ==> agent == other,
{
    assert(default_command(agent, true).1[1] == work_prompt());
    let a = default_command(agent, false).1;
    let b = default_command(other, false).1;
    if a == b {
        assert(a[0] == b[0]);
        let p = "[loom stub] "@;
        let q = " not on PATH — skipping work"@;
        let n = p.len() as int;
        assert(a[0].len() == p.len() + agent.len() + q.len());
        assert(b[0].len() == p.len() + other.len() + q.len());
        assert(a[0].subrange(n, a[0].len() - q.len()) =~= agent);
        assert(b[0].subrange(n, b[0].len() - q.len()) =~= other);
    }
}

} // verus!
