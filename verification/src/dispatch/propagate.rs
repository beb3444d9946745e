//! Keeping a worker's commits: before a worktree goes, the commit that it is at
//! gets a ref, so that no work is lost with it.

use crate::dispatch::git::GitReply;
use crate::dispatch::worktree::{head_args, Worktree};
use crate::text::{opt_text, same_text, views};
use vstd::prelude::*;

verus! {

broadcast use {vstd::string::group_string_axioms, crate::text::lemma_views_push};

/// The ref that keeps a worker's commits. Work that passed is offered for merging;
/// any other is kept apart, under its status, for its survival alone.
pub open spec fn ref_for(id: Seq<char>, status: Seq<char>) -> Seq<char> {
    if status == "pass"@ {
        "refs/heads/loom-features/"@ + id
    } else {
        "refs/heads/loom-rescue/"@ + id + "-"@ + status
    }
}

pub fn ref_name(feature_id: &str, status: &str) -> (r: String)
    ensures
        r@ == ref_for(feature_id@, status@),
{
    if same_text(status, "pass") {
        let mut out = "refs/heads/loom-features/".to_owned();
        out.append(feature_id);
        out
    } else {
        let mut out = "refs/heads/loom-rescue/".to_owned();
        out.append(feature_id);
        out.append("-");
        out.append(status);
        out
    }
}

/// Where the keeping of commits stands: what `git` is being asked.
#[derive(Debug)]
pub enum PropagationStage {
    /// Which commit the worktree is at.
    FinalHead,
    /// Whether that is a commit.
    Verify { sha: String },
    /// Whether the repository is a shallow clone.
    Shallow { sha: String },
    /// Whether the ref is already there.
    Prior { sha: String },
    /// To write the ref.
    Write { sha: String },
    /// Nothing more. The ref, if it was written.
    Done(Option<String>),
}

/// A stage as a mathematical value.
pub enum StageView {
    FinalHead,
    Verify { sha: Seq<char> },
    Shallow { sha: Seq<char> },
    Prior { sha: Seq<char> },
    Write { sha: Seq<char> },
    Done(Option<Seq<char>>),
}

impl View for PropagationStage {
    type V = StageView;

    open spec fn view(&self) -> StageView {
        match *self {
            PropagationStage::FinalHead => StageView::FinalHead,
            PropagationStage::Verify { sha } => StageView::Verify { sha: sha@ },
            PropagationStage::Shallow { sha } => StageView::Shallow { sha: sha@ },
            PropagationStage::Prior { sha } => StageView::Prior { sha: sha@ },
            PropagationStage::Write { sha } => StageView::Write { sha: sha@ },
            PropagationStage::Done(r) => StageView::Done(opt_text(r)),
        }
    }
}

/// What `git` is run with at a stage.
pub open spec fn stage_arguments(
    stage: StageView,
    path: Seq<char>,
    workspace: Seq<char>,
    name: Seq<char>,
) -> Option<Seq<Seq<char>>> {
    match stage {
        StageView::FinalHead => Some(seq!["-C"@, path, "rev-parse"@, "HEAD"@]),
        StageView::Verify { sha } => Some(
            seq!["-C"@, path, "rev-parse"@, "--verify"@, "--quiet"@, sha + "^{commit}"@],
        ),
        StageView::Shallow { .. } => Some(
            seq!["-C"@, workspace, "rev-parse"@, "--is-shallow-repository"@],
        ),
        StageView::Prior { .. } => Some(
            seq!["-C"@, workspace, "rev-parse"@, "--verify"@, "--quiet"@, name],
        ),
        StageView::Write { sha } => Some(
            seq!["-C"@, workspace, "update-ref"@, "--create-reflog"@, name, sha],
        ),
        StageView::Done(_) => None,
    }
}

/// The stage after `git` has answered. A worktree that never left its first commit
/// has nothing to keep. Only work that is offered for merging is held back from a
/// shallow clone. An earlier value of the ref is replaced.
pub open spec fn stage_after(
    stage: StageView,
    reply: GitReply,
    initial_sha: Seq<char>,
    name: Seq<char>,
    passed: bool,
) -> StageView {
    match stage {
        StageView::FinalHead => match reply.answer() {
            Some(sha) => if sha == initial_sha {
                StageView::Done(None)
            } else {
                StageView::Verify { sha }
            },
            None => StageView::Done(None),
        },
        StageView::Verify { sha } => if reply.succeeded() {
            StageView::Shallow { sha }
        } else {
            StageView::Done(None)
        },
        StageView::Shallow { sha } => if passed && reply.answer() == Some("true"@) {
            StageView::Done(None)
        } else {
            StageView::Prior { sha }
        },
        StageView::Prior { sha } => StageView::Write { sha },
        StageView::Write { .. } => StageView::Done(
            if reply.succeeded() {
                Some(name)
            } else {
                None
            },
        ),
        StageView::Done(_) => stage,
    }
}

fn rev_parse(dir: &str) -> (r: Vec<String>)
    ensures
        views(r@) == seq!["-C"@, dir@, "rev-parse"@],
{
    let mut args: Vec<String> = Vec::new();
    args.push("-C".to_owned());
    args.push(dir.to_owned());
    args.push("rev-parse".to_owned());
    proof {
        assert(views(args@) =~= seq!["-C"@, dir@, "rev-parse"@]);
    }
    args
}

/// What `git` has to be run with at a stage.
pub fn propagation_args(
    stage: &PropagationStage,
    worktree: &Worktree,
    name: &str,
) -> (r: Option<Vec<String>>)
    ensures
        match r {
            Some(args) => stage_arguments(stage@, worktree.path@, worktree.workspace@, name@)
                == Some(views(args@)),
            None => stage_arguments(stage@, worktree.path@, worktree.workspace@, name@) is None,
        },
{
    let args = match stage {
        PropagationStage::FinalHead => head_args(&worktree.path),
        PropagationStage::Verify { sha } => {
            let mut args = rev_parse(&worktree.path);
            args.push("--verify".to_owned());
            args.push("--quiet".to_owned());
            let mut commit = sha.clone();
            commit.append("^{commit}");
            args.push(commit);
            args
        },
        PropagationStage::Shallow { .. } => {
            let mut args = rev_parse(&worktree.workspace);
            args.push("--is-shallow-repository".to_owned());
            args
        },
        PropagationStage::Prior { .. } => {
            let mut args = rev_parse(&worktree.workspace);
            args.push("--verify".to_owned());
            args.push("--quiet".to_owned());
            args.push(name.to_owned());
            args
        },
        PropagationStage::Write { sha } => {
            let mut args: Vec<String> = Vec::new();
            args.push("-C".to_owned());
            args.push(worktree.workspace.clone());
            args.push("update-ref".to_owned());
            args.push("--create-reflog".to_owned());
            args.push(name.to_owned());
            args.push(sha.clone());
            args
        },
        PropagationStage::Done(_) => {
            return None;
        },
    };
    proof {
        let want = stage_arguments(stage@, worktree.path@, worktree.workspace@, name@);
        assert(views(args@) =~= want->Some_0);
    }
    Some(args)
}

/// One step in the keeping of a worktree's commits.
pub fn propagate_worktree_commits(
    stage: PropagationStage,
    reply: &GitReply,
    initial_sha: &str,
    name: &str,
    status: &str,
) -> (r: PropagationStage)
    ensures
        r@ == stage_after(stage@, *reply, initial_sha@, name@, status@ == "pass"@),
{
    match stage {
        PropagationStage::FinalHead => match reply.printed() {
            Some(sha) => if same_text(&sha, initial_sha) {
                PropagationStage::Done(None)
            } else {
                PropagationStage::Verify { sha }
            },
            None => PropagationStage::Done(None),
        },
        PropagationStage::Verify { sha } => if reply.is_success() {
            PropagationStage::Shallow { sha }
        } else {
            PropagationStage::Done(None)
        },
        PropagationStage::Shallow { sha } => {
            let shallow = match reply.printed() {
                Some(word) => same_text(&word, "true"),
                None => false,
            };
            if shallow && same_text(status, "pass") {
                PropagationStage::Done(None)
            } else {
                PropagationStage::Prior { sha }
            }
        },
        PropagationStage::Prior { sha } => PropagationStage::Write { sha },
        PropagationStage::Write { sha: _ } => if reply.is_success() {
            PropagationStage::Done(Some(name.to_owned()))
        } else {
            PropagationStage::Done(None)
        },
        PropagationStage::Done(r) => PropagationStage::Done(r),
    }
}

/// The stage after a list of answers.
pub open spec fn stage_after_all(
    stage: StageView,
    replies: Seq<GitReply>,
    initial_sha: Seq<char>,
    name: Seq<char>,
    passed: bool,
) -> StageView
    decreases replies.len(),
{
    if replies.len() == 0 {
        stage
    } else {
        stage_after(
            stage_after_all(stage, replies.drop_last(), initial_sha, name, passed),
            replies.last(),
            initial_sha,
            name,
            passed,
        )
    }
}

/// What the five answers together decide: the ref is written exactly if the
/// worktree is at another commit than at first, that is a commit, the clone is not
/// shallow where the work is offered for merging, and the write succeeds.
pub proof fn law_commits_are_kept(
    replies: Seq<GitReply>,
    initial_sha: Seq<char>,
    name: Seq<char>,
    passed: bool,
)
    requires
        replies.len() == 5,
    ensures
        stage_after_all(StageView::FinalHead, replies, initial_sha, name, passed)
            == StageView::Done(
            if replies[0].answer() is Some && replies[0].answer() != Some(initial_sha)
                && replies[1].succeeded() && !(passed && replies[2].answer() == Some("true"@))
                && replies[4].succeeded() {
                Some(name)
            } else {
                None
            },
        ),
{
    reveal_with_fuel(stage_after_all, 6);
    let r4 = replies.drop_last();
    let r3 = r4.drop_last();
    let r2 = r3.drop_last();
    let r1 = r2.drop_last();
    assert(r4.last() == replies[3]);
    assert(r3.last() == replies[2]);
    assert(r2.last() == replies[1]);
    assert(r1.last() == replies[0]);
    assert(r1.drop_last().len() == 0);
}

/// The commit that is kept is the one that the worktree is at in the end, and it is
/// kept under the name that was asked for: where it comes to the writing, `git` is
/// given just that commit and that name, in the main tree.
pub proof fn law_final_commit_is_the_one_kept(
    replies: Seq<GitReply>,
    initial_sha: Seq<char>,
    name: Seq<char>,
    passed: bool,
    path: Seq<char>,
    workspace: Seq<char>,
)
    requires
        replies.len() == 4,
    ensures
        ({
            let stage = stage_after_all(StageView::FinalHead, replies, initial_sha, name, passed);
            let args = stage_arguments(stage, path, workspace, name);
            &&& stage is Write || stage == StageView::Done(None)
            &&& stage matches StageView::Write { sha } ==> {
                &&& replies[0].answer() == Some(sha)
                &&& sha != initial_sha
                &&& args == Some(
                    seq!["-C"@, workspace, "update-ref"@, "--create-reflog"@, name, sha],
                )
            }
        }),
{
    reveal_with_fuel(stage_after_all, 5);
    let r3 = replies.drop_last();
    let r2 = r3.drop_last();
    let r1 = r2.drop_last();
    assert(r3.last() == replies[2]);
    assert(r2.last() == replies[1]);
    assert(r1.last() == replies[0]);
    assert(r1.drop_last().len() == 0);
}

/// Work that passed is kept under its feature alone, among what is offered for merging;
/// any other is kept apart, under its feature and then its status.
pub proof fn law_refs_tell_feature_and_status(id: Seq<char>, status: Seq<char>)
    ensures
        status == "pass"@ ==> ref_for(id, status) == "refs/heads/loom-features/"@ + id,
        status != "pass"@ ==> ref_for(id, status) == "refs/heads/loom-rescue/"@ + (id + (
        "-"@ + status)),
{
    assert("refs/heads/loom-rescue/"@ + id + "-"@ + status =~= "refs/heads/loom-rescue/"@ + (id + (
    "-"@ + status)));
}

/// The worktree is asked which commit it is at and whether that is one; all else goes to
/// the main tree, about the ref that was asked for. When all is done nothing is asked.
pub proof fn law_each_question_goes_to_its_tree(
    stage: StageView,
    path: Seq<char>,
    workspace: Seq<char>,
    name: Seq<char>,
)
    ensures
        stage_arguments(stage, path, workspace, name) is None <==> stage is Done,
        stage_arguments(stage, path, workspace, name) matches Some(args) ==> {
            &&& args.len() >= 4
            &&& args[0] == "-C"@
            &&& args[1] == if stage is FinalHead || stage is Verify {
                path
            } else {
                workspace
            }
            &&& args[2] == if stage is Write {
                "update-ref"@
            } else {
                "rev-parse"@
            }
            &&& stage is FinalHead ==> args.last() == "HEAD"@
            &&& stage matches StageView::Verify { sha } ==> args.last() == sha + "^{commit}"@
            &&& stage is Shallow ==> args.last() == "--is-shallow-repository"@
            &&& stage is Prior ==> args.last() == name
            &&& stage matches StageView::Write { sha } ==> args.last() == sha && args[args.len()
                - 2] == name
        },
{
}

} // verus!
