//! What a worker is given, and what it returns.

use crate::moment::TimeSpan;
use vstd::prelude::*;

verus! {

/// The unit of work that is handed to a worker.
#[derive(Debug)]
pub struct FeatureSpec {
    /// Directory in which the worker runs.
    pub feature_dir: String,
    /// Opaque, but stable over retries.
    pub worker_identity: String,
}

/// How a worker's process ended.
#[derive(Debug, Clone, Copy, PartialEq, Eq, Structural)]
pub enum WorkerVerdict {
    /// It exited with status 0.
    Pass,
    /// It exited with another status.
    Fail,
    /// It ran past its time limit and was killed.
    Timeout,
    /// It was cancelled by the dispatcher.
    Cancelled,
}

/// What a worker returns.
#[derive(Debug)]
pub struct Artifact {
    pub verdict: WorkerVerdict,
    /// File that holds the worker's standard output.
    pub stdout_path: String,
    pub reasoning_trace: Option<String>,
    pub duration: TimeSpan,
    pub worker_identity: String,
    /// -1 if the process was killed by a signal.
    pub exit_code: i32,
    /// Whether part of the output was lost.
    pub drain_truncated: bool,
}

/// The word for how a worker's process ended.
pub open spec fn status_word(v: WorkerVerdict) -> Seq<char> {
    match v {
        WorkerVerdict::Pass => "pass"@,
        WorkerVerdict::Fail => "fail"@,
        WorkerVerdict::Timeout => "timeout"@,
        WorkerVerdict::Cancelled => "cancelled"@,
    }
}

pub fn worker_status(v: WorkerVerdict) -> (r: &'static str)
    ensures
        r@ == status_word(v),
{
    match v {
        WorkerVerdict::Pass => "pass",
        WorkerVerdict::Fail => "fail",
        WorkerVerdict::Timeout => "timeout",
        WorkerVerdict::Cancelled => "cancelled",
    }
}

} // verus!
