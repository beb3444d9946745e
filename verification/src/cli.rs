//! The command line of `loom`: its commands and its exit codes.
//!
//! | Code | Meaning                                                     |
//! |------|-------------------------------------------------------------|
//! | 0    | Success.                                                    |
//! | 1    | Generic error.                                              |
//! | 2    | Invalid arguments (from the argument parser).               |
//! | 3    | Workspace not initialized.                                  |
//! | 4    | Dispatch completed, but at least one worker failed.         |
//! | 5    | A review rejected the work.                                 |
//! | 6    | Started by a worker of `loom`, and refused to recurse.      |
//! | 7    | Work remains, but its dependencies keep all of it waiting.  |
//! | 8    | A worker ended cleanly, but left no readable review.        |
//! | 130  | Cancelled by the operator.                                  |
//!
//! Where several apply, the first of 5, 4, 130, 7, 8 is taken.

use crate::moment::TimeSpan;
use vstd::prelude::*;

verus! {

pub const EXIT_GENERIC_ERROR: i32 = 1;

/// `.ae/features/active/` is missing.
pub const EXIT_WORKSPACE_NOT_INITIALIZED: i32 = 3;

pub const EXIT_DISPATCH_HAD_FAILURE: i32 = 4;

pub const EXIT_AE_REVIEW_REJECTED: i32 = 5;

pub const EXIT_RECURSION_DETECTED: i32 = 6;

pub const EXIT_CANCELLED: i32 = 130;

pub const EXIT_DEPS_STUCK: i32 = 7;

pub const EXIT_REVIEW_MISSING: i32 = 8;

/// Days after which a rescue ref may be deleted, unless the operator says otherwise.
pub const DEFAULT_MAX_AGE_DAYS: u64 = 30;

/// A command line.
#[derive(Debug)]
pub struct Cli {
    pub command: Option<Command>,
}

/// A command.
#[derive(Debug)]
pub enum Command {
    /// Discover features for a goal and run them all.
    Run { goal: String },
    /// Run the features with these ids.
    Dispatch { ids: Vec<String> },
    /// Print where the last run stands.
    Status,
    /// Print the version.
    Version,
    /// Delete rescue refs that are older than so many days.
    GcRefs { max_age_days: u64, dry_run: bool },
}

/// Whether a command starts workers.
pub open spec fn starts_workers(command: Option<Command>) -> bool {
    match command {
        Some(Command::Run { .. }) => true,
        Some(Command::Dispatch { .. }) => true,
        _ => false,
    }
}

/// Whether a command is refused because this process was itself started by a
/// worker: only those that start workers are.
pub fn refuses_recursion(cli: &Cli, spawned_by_loom: bool) -> (r: bool)
    ensures
        r == (spawned_by_loom && starts_workers(cli.command)),
{
    match &cli.command {
        Some(Command::Run { .. }) => spawned_by_loom,
        Some(Command::Dispatch { .. }) => spawned_by_loom,
        _ => false,
    }
}

/// The age that a number of days stands for; as long as a span can be, where that
/// is longer.
pub fn max_age(days: u64) -> (r: TimeSpan)
    ensures
        r.nanos == 0,
        r.secs == (if days * 86400 <= u64::MAX {
            days * 86400
        } else {
            u64::MAX as int
        }),
{
    match days.checked_mul(86_400) {
        Some(secs) => TimeSpan::from_secs(secs),
        None => TimeSpan::from_secs(u64::MAX),
    }
}

/// Only a run and a dispatch start workers, whatever they are given.
pub proof fn law_only_run_and_dispatch_start_workers(command: Option<Command>)
    ensures
        starts_workers(command) <==> command is Some && (command->Some_0 is Run
            || command->Some_0 is Dispatch),
{
}

} // verus!
