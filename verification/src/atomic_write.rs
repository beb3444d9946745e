//! Atomic writes: a file is written aside and then takes the place of the old one.

use crate::paths::{parent, path_body, path_parent};
use crate::text::{last_index, lemma_last_index, opt_text, views};
use vstd::prelude::*;

verus! {

broadcast use vstd::string::group_string_axioms;

/// How a step on the file system ended.
#[derive(Debug, Clone, Copy, PartialEq, Eq, Structural)]
pub enum StepResult {
    Done,
    /// A rename that would cross file systems.
    CrossDevice,
    Failed,
}

/// Where an atomic write stands: what is being done.
#[derive(Debug, Clone, Copy, PartialEq, Eq, Structural)]
pub enum WriteStage {
    /// Writing the contents aside, and flushing them.
    WriteAside,
    /// Renaming the file over its target.
    Rename,
    /// Copying the file over its target, on another file system.
    Copy,
    /// Removing the file that was copied.
    RemoveCopied,
    /// Flushing the target that was copied.
    SyncTarget,
    /// Flushing the directory that names the target.
    SyncParent,
    /// Removing the file after something went wrong.
    RemoveAside,
    /// The target holds the contents.
    Written,
    /// It went wrong.
    Failed,
}

/// The stage after a step. Removing the file aside may fail: nothing hangs on it.
pub open spec fn write_after(stage: WriteStage, result: StepResult) -> WriteStage {
    let done = result == StepResult::Done;
    match stage {
        WriteStage::WriteAside => if done {
            WriteStage::Rename
        } else {
            WriteStage::RemoveAside
        },
        WriteStage::Rename => match result {
            StepResult::Done => WriteStage::SyncParent,
            StepResult::CrossDevice => WriteStage::Copy,
            StepResult::Failed => WriteStage::RemoveAside,
        },
        WriteStage::Copy => if done {
            WriteStage::RemoveCopied
        } else {
            WriteStage::RemoveAside
        },
        WriteStage::RemoveCopied => WriteStage::SyncTarget,
        WriteStage::SyncTarget => if done {
            WriteStage::SyncParent
        } else {
            WriteStage::Failed
        },
        WriteStage::SyncParent => if done {
            WriteStage::Written
        } else {
            WriteStage::Failed
        },
        WriteStage::RemoveAside => WriteStage::Failed,
        WriteStage::Written => WriteStage::Written,
        WriteStage::Failed => WriteStage::Failed,
    }
}

pub fn atomic_write(stage: WriteStage, result: StepResult) -> (r: WriteStage)
    ensures
        r == write_after(stage, result),
{
    let done = match result {
        StepResult::Done => true,
        _ => false,
    };
    match stage {
        WriteStage::WriteAside => if done {
            WriteStage::Rename
        } else {
            WriteStage::RemoveAside
        },
        WriteStage::Rename => match result {
            StepResult::Done => WriteStage::SyncParent,
            StepResult::CrossDevice => WriteStage::Copy,
            StepResult::Failed => WriteStage::RemoveAside,
        },
        WriteStage::Copy => if done {
            WriteStage::RemoveCopied
        } else {
            WriteStage::RemoveAside
        },
        WriteStage::RemoveCopied => WriteStage::SyncTarget,
        WriteStage::SyncTarget => if done {
            WriteStage::SyncParent
        } else {
            WriteStage::Failed
        },
        WriteStage::SyncParent => if done {
            WriteStage::Written
        } else {
            WriteStage::Failed
        },
        WriteStage::RemoveAside => WriteStage::Failed,
        WriteStage::Written => WriteStage::Written,
        WriteStage::Failed => WriteStage::Failed,
    }
}

/// The stage after a list of steps, from the start.
pub open spec fn write_after_all(results: Seq<StepResult>) -> WriteStage
    decreases results.len(),
{
    if results.len() == 0 {
        WriteStage::WriteAside
    } else {
        write_after(write_after_all(results.drop_last()), results.last())
    }
}

/// The stages that a write has passed through.
pub open spec fn passed(results: Seq<StepResult>, stage: WriteStage) -> bool {
    exists|n: int| 0 <= n < results.len() && write_after_all(#[trigger] results.take(n)) == stage
}

/// A write ends only once the removal of the file aside was tried, or the file had
/// been renamed and its directory was to be flushed.
pub proof fn law_write_leaves_nothing_aside(results: Seq<StepResult>)
    ensures
        write_after_all(results) is Written || write_after_all(results) is Failed ==> (passed(
            results,
            WriteStage::RemoveAside,
        ) || passed(results, WriteStage::RemoveCopied) || passed(results, WriteStage::SyncParent)),
{
    lemma_history(results);
}

proof fn lemma_next_stage(results: Seq<StepResult>, n: int)
    requires
        0 <= n < results.len(),
    ensures
        write_after_all(results.take(n + 1)) == write_after(
            write_after_all(results.take(n)),
            results[n],
        ),
{
    assert(results.take(n + 1).drop_last() =~= results.take(n));
}

proof fn lemma_end_is_final(results: Seq<StepResult>, n: int)
    requires
        0 <= n <= results.len(),
        write_after_all(results.take(n)) is Written || write_after_all(results.take(n)) is Failed,
    ensures
        write_after_all(results) == write_after_all(results.take(n)),
    decreases results.len() - n,
{
    if n < results.len() {
        lemma_next_stage(results, n);
        lemma_end_is_final(results, n + 1);
    } else {
        assert(results.take(n) =~= results);
    }
}

/// A write ends as written exactly if the contents were written aside and flushed, the
/// file was renamed, and its directory was flushed; or, where the rename would cross
/// file systems, it was copied instead and the copy was flushed before the directory.
pub proof fn law_written_means_flushed(results: Seq<StepResult>)
    ensures
        write_after_all(results) is Written <==> {
            ||| {
                &&& results.len() >= 3
                &&& results[0] is Done
                &&& results[1] is Done
                &&& results[2] is Done
            }
            ||| {
                &&& results.len() >= 6
                &&& results[0] is Done
                &&& results[1] is CrossDevice
                &&& results[2] is Done
                &&& results[4] is Done
                &&& results[5] is Done
            }
        },
{
    assert(write_after_all(results.take(0)) is WriteAside);
    let len = results.len() as int;
    assert(results.take(len) =~= results);
    if len > 0 {
        lemma_next_stage(results, 0);
    }
    if len > 1 {
        lemma_next_stage(results, 1);
    }
    if len > 2 {
        lemma_next_stage(results, 2);
    }
    if len > 3 {
        lemma_next_stage(results, 3);
    }
    if len > 4 {
        lemma_next_stage(results, 4);
    }
    if len > 5 {
        lemma_next_stage(results, 5);
    }
    if len >= 2 && !(results[0] is Done) {
        lemma_end_is_final(results, 2);
    } else if len >= 3 && !(results[1] is CrossDevice) {
        lemma_end_is_final(results, 3);
    } else if len >= 4 && !(results[2] is Done) {
        lemma_end_is_final(results, 4);
    } else if len >= 5 && !(results[4] is Done) {
        lemma_end_is_final(results, 5);
    } else if len >= 6 {
        lemma_end_is_final(results, 6);
    }
}

proof fn lemma_passed_grows(results: Seq<StepResult>, stage: WriteStage)
    requires
        results.len() > 0,
    ensures
        passed(results.drop_last(), stage) ==> passed(results, stage),
        write_after_all(results.drop_last()) == stage ==> passed(results, stage),
{
    let t = results.drop_last();
    if passed(t, stage) {
        let n = choose|n: int| 0 <= n < t.len() && write_after_all(#[trigger] t.take(n)) == stage;
        assert(results.take(n) =~= t.take(n));
    }
    if write_after_all(t) == stage {
        assert(results.take(t.len() as int) =~= t);
    }
}

proof fn lemma_history(results: Seq<StepResult>)
    ensures
        ({
            let s = write_after_all(results);
            &&& s is SyncTarget ==> passed(results, WriteStage::RemoveCopied)
            &&& s is Written ==> passed(results, WriteStage::SyncParent)
            &&& s is Failed ==> passed(results, WriteStage::RemoveAside) || passed(
                results,
                WriteStage::RemoveCopied,
            ) || passed(results, WriteStage::SyncParent)
        }),
    decreases results.len(),
{
    if results.len() > 0 {
        lemma_history(results.drop_last());
        lemma_passed_grows(results, WriteStage::RemoveCopied);
        lemma_passed_grows(results, WriteStage::RemoveAside);
        lemma_passed_grows(results, WriteStage::SyncParent);
    }
}

/// Whether a rename failed because it would cross file systems. `cross_device` is
/// the number of that error.
pub fn is_cross_device(errno: Option<i32>, cross_device: i32) -> (r: bool)
    ensures
        r == (errno == Some(cross_device)),
{
    match errno {
        Some(e) => e == cross_device,
        None => false,
    }
}

/// The directory that has to be flushed so that the name of `path` is kept.
pub open spec fn named_in(path: Seq<char>) -> Option<Seq<char>> {
    match path_parent(path) {
        Some(dir) => if dir.len() > 0 {
            Some(dir)
        } else {
            None
        },
        None => None,
    }
}

pub fn fsync_parent_dir(path: &str) -> (r: Option<String>)
    ensures
        opt_text(r) == named_in(path@),
{
    match parent(path) {
        Some(dir) => if dir.as_str().is_empty() {
            None
        } else {
            Some(dir)
        },
        None => None,
    }
}

/// The parent of a path is shorter than the path.
pub proof fn lemma_parent_is_shorter(p: Seq<char>)
    ensures
        path_parent(p) matches Some(q) ==> q.len() < p.len(),
{
    lemma_body_is_prefix(p);
    let body = path_body(p);
    lemma_last_index(body, '/');
    let at = last_index(body, '/');
    if body.len() > 0 && at >= 0 {
        lemma_body_is_prefix(body.take(at));
        if path_body(body.take(at)).len() == 0 && body.len() == 1 {
            assert(body[0] == '/');
            lemma_body_has_no_slash_end(p);
        }
    }
}

proof fn lemma_body_is_prefix(p: Seq<char>)
    ensures
        path_body(p).len() <= p.len(),
    decreases p.len(),
{
    if p.len() > 0 && path_body(p) != p {
        lemma_body_is_prefix(p.drop_last());
    }
}

proof fn lemma_body_has_no_slash_end(p: Seq<char>)
    ensures
        path_body(p).len() > 0 ==> path_body(p).last() != '/',
    decreases p.len(),
{
    if p.len() > 0 && (p.last() == '/' || (p.len() >= 2 && p.last() == '.' && p[p.len() - 2]
        == '/')) {
        lemma_body_has_no_slash_end(p.drop_last());
    }
}

/// A directory and those that hold it, the outermost first: the order in which the
/// missing ones are made, each flushed in its parent before the next.
pub open spec fn directory_chain(dir: Seq<char>) -> Seq<Seq<char>>
    decreases dir.len(),
    via directory_chain_ends
{
    if dir.len() == 0 {
        Seq::empty()
    } else {
        match path_parent(dir) {
            Some(p) => directory_chain(p).push(dir),
            None => seq![dir],
        }
    }
}

#[via_fn]
proof fn directory_chain_ends(dir: Seq<char>) {
    lemma_parent_is_shorter(dir);
}

pub fn create_dir_all_synced(dir: &str) -> (r: Vec<String>)
    ensures
        views(r@) == directory_chain(dir@),
    decreases dir@.len(),
{
    if dir.is_empty() {
        let none: Vec<String> = Vec::new();
        proof {
            assert(views(none@) =~= directory_chain(dir@));
        }
        return none;
    }
    proof {
        lemma_parent_is_shorter(dir@);
    }
    match parent(dir) {
        Some(p) => {
            let mut chain = create_dir_all_synced(&p);
            let ghost before = views(chain@);
            chain.push(dir.to_owned());
            proof {
                assert(views(chain@) =~= before.push(dir@));
            }
            chain
        },
        None => {
            let mut chain: Vec<String> = Vec::new();
            chain.push(dir.to_owned());
            proof {
                assert(views(chain@) =~= seq![dir@]);
            }
            chain
        },
    }
}

/// A write that fails tries to remove the file aside, unless that file had already
/// taken the place of its target.
pub proof fn law_failed_write_cleans_up(results: Seq<StepResult>)
    ensures
        write_after_all(results) is Failed ==> passed(results, WriteStage::RemoveAside) || passed(
            results,
            WriteStage::RemoveCopied,
        ) || (results.len() >= 3 && results[0] is Done && results[1] is Done),
{
    let len = results.len() as int;
    assert(results.take(len) =~= results);
    assert(write_after_all(results.take(0)) is WriteAside);
    if len > 0 {
        lemma_next_stage(results, 0);
    }
    if len > 1 {
        lemma_next_stage(results, 1);
    }
    if len > 2 {
        lemma_next_stage(results, 2);
    }
    if len > 3 {
        lemma_next_stage(results, 3);
    }
    if len >= 2 && !(results[0] is Done) {
        assert(write_after_all(results.take(1)) == WriteStage::RemoveAside);
    } else if len >= 3 && results[1] is Failed {
        assert(write_after_all(results.take(2)) == WriteStage::RemoveAside);
    } else if len >= 4 && results[1] is CrossDevice {
        assert(write_after_all(results.take(3)) == WriteStage::RemoveAside || write_after_all(
            results.take(3),
        ) == WriteStage::RemoveCopied);
    }
}

/// The directories to be made lead down to the one that is wanted, which comes last:
/// each is what holds the next, and nothing holds the first.
pub proof fn law_directories_are_made_from_the_top(dir: Seq<char>)
    requires
        dir.len() > 0,
    ensures
        directory_chain(dir).len() > 0,
        directory_chain(dir).last() == dir,
        forall|k: int|
            0 <= k < directory_chain(dir).len() - 1 ==> path_parent(
                directory_chain(dir)[k + 1],
            ) == Some(#[trigger] directory_chain(dir)[k]),
        path_parent(directory_chain(dir)[0]) matches Some(top) ==> top.len() == 0,
    decreases dir.len(),
{
    lemma_parent_is_shorter(dir);
    let chain = directory_chain(dir);
    if let Some(p) = path_parent(dir) {
        let before = directory_chain(p);
        assert(chain == before.push(dir));
        if p.len() > 0 {
            law_directories_are_made_from_the_top(p);
            assert forall|k: int| 0 <= k < chain.len() - 1 implies path_parent(chain[k + 1])
                == Some(#[trigger] chain[k]) by {
                if k < before.len() - 1 {
                    assert(chain[k] == before[k] && chain[k + 1] == before[k + 1]);
                } else {
                    assert(chain[k] == before.last());
                }
            }
            assert(chain[0] == before[0]);
        } else {
            assert(before.len() == 0);
            assert(chain[0] == dir);
        }
    }
}

/// The name of a file is kept by flushing the directory that holds it; a bare name has
/// none to flush.
pub proof fn law_holding_directory_is_flushed(path: Seq<char>, dir: Seq<char>)
    ensures
        named_in(path) == Some(dir) <==> path_parent(path) == Some(dir) && dir.len() > 0,
{
}

/// A write comes to an end: six steps are enough, however they turn out.
pub proof fn law_write_ends(results: Seq<StepResult>)
    requires
        results.len() >= 6,
    ensures
        write_after_all(results) is Written || write_after_all(results) is Failed,
{
    assert(write_after_all(results.take(0)) is WriteAside);
    lemma_next_stage(results, 0);
    lemma_next_stage(results, 1);
    lemma_next_stage(results, 2);
    lemma_next_stage(results, 3);
    lemma_next_stage(results, 4);
    lemma_next_stage(results, 5);
    lemma_end_is_final(results, 6);
}

} // verus!
