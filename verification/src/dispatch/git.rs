//! What a run of `git` came to.

use crate::text::{opt_text, trim, trimmed};
use vstd::prelude::*;

verus! {

/// How a run of `git` ended.
#[derive(Debug)]
pub enum GitReply {
    /// It could not be started.
    SpawnFailed,
    /// It exited.
    Exited {
        /// Whether its status was 0.
        success: bool,
        /// What it printed; `None` where that is not UTF-8.
        stdout: Option<String>,
    },
}

impl GitReply {
    pub open spec fn succeeded(self) -> bool {
        self matches GitReply::Exited { success: true, .. }
    }

    /// What a successful run printed, without the whitespace around it.
    pub open spec fn answer(self) -> Option<Seq<char>> {
        match self {
            GitReply::Exited { success: true, stdout: Some(s) } => Some(trimmed(s@)),
            _ => None,
        }
    }

    pub fn is_success(&self) -> (r: bool)
        ensures
            r == self.succeeded(),
    {
        match self {
            GitReply::Exited { success, .. } => *success,
            GitReply::SpawnFailed => false,
        }
    }

    pub fn printed(&self) -> (r: Option<String>)
        ensures
            opt_text(r) == self.answer(),
    {
        match self {
            GitReply::Exited { success: true, stdout: Some(s) } => Some(trim(s)),
            _ => None,
        }
    }
}

/// Only a run of `git` that exited with status 0 has an answer, and the answer is what
/// it printed; a run that could not be started, failed or printed no text has none.
pub proof fn law_only_success_answers(reply: GitReply)
    ensures
        reply.succeeded() <==> (reply matches GitReply::Exited { success, .. } && success),
        reply.answer() is Some <==> (reply matches GitReply::Exited { success, stdout } && success
            && stdout is Some),
        reply matches GitReply::Exited { success: true, stdout: Some(s) } ==> reply.answer()
            == Some(trimmed(s@)),
{
}

} // verus!
