//! Worktrees: one per running feature, named after the feature and the process.

use crate::decimal::{
    all_digits, decimal, decimal_text, digits_value, is_digit, law_decimal_reads_back,
    number_up_to, parse_number,
};
use crate::dispatch::git::GitReply;
use crate::feature_id::{is_valid, valid_feature_id};
use crate::paths::{
    file_name, join, law_name_of_join, law_parent_of_join, path_join, path_name, path_parent,
};
use crate::text::{
    from_chars, has_prefix, last_index, lemma_last_index, lemma_last_index_is, opt_text, rfind_char,
    strip_prefix, same_text, to_chars, views,
};
use vstd::prelude::*;

verus! {

broadcast use vstd::string::group_string_axioms;

/// The name of the worktree that process `pid` makes for a feature.
pub open spec fn worktree_name(id: Seq<char>, pid: nat) -> Seq<char> {
    id.push('-') + decimal(pid)
}

pub fn worktree_dir_name(feature_id: &str, pid: u32) -> (r: String)
    ensures
        r@ == worktree_name(feature_id@, pid as nat),
{
    let mut out = feature_id.to_owned();
    out.push('-');
    out.append(&decimal_text(pid as u128));
    out
}

/// The directory that holds the worktrees.
pub open spec fn worktrees_root(workspace: Seq<char>) -> Seq<char> {
    path_join(path_join(workspace, ".loom"@), "worktrees"@)
}

pub fn worktree_root(workspace: &str) -> (r: String)
    ensures
        r@ == worktrees_root(workspace@),
{
    join(&join(workspace, ".loom"), "worktrees")
}

/// The feature and the process that a directory's name stands for: what precedes
/// the last dash is a feature id, what follows it a process number other than 0.
pub open spec fn worktree_parts(name: Seq<char>) -> Option<(Seq<char>, nat)> {
    let dash = last_index(name, '-');
    let id = name.take(dash);
    match number_up_to(name.skip(dash + 1), u32::MAX as nat) {
        Some(pid) => if dash >= 0 && valid_feature_id(id) && pid != 0 {
            Some((id, pid))
        } else {
            None
        },
        None => None,
    }
}

pub fn parse_worktree_dir_name(name: &str) -> (r: Option<(String, u32)>)
    ensures
        match r {
            Some((id, pid)) => worktree_parts(name@) == Some((id@, pid as nat)),
            None => worktree_parts(name@) is None,
        },
{
    let chars = to_chars(name);
    let dash = match rfind_char(&chars, '-') {
        Some(i) => i,
        None => {
            return None;
        },
    };
    proof {
        lemma_last_index(name@, '-');
    }
    let id = from_chars(&chars, 0, dash);
    let digits = from_chars(&chars, dash + 1, chars.len());
    proof {
        assert(id@ =~= name@.take(dash as int));
        assert(digits@ =~= name@.skip(dash + 1));
    }
    if !is_valid(&id) {
        return None;
    }
    match parse_number(&digits, u32::MAX as u64) {
        Some(pid) => if pid == 0 {
            None
        } else {
            Some((id, pid as u32))
        },
        None => None,
    }
}

/// The name of a worktree reads back as the feature and the process that made it.
pub proof fn law_worktree_name_reads_back(id: Seq<char>, pid: nat)
    requires
        valid_feature_id(id),
        0 < pid <= u32::MAX,
    ensures
        worktree_parts(worktree_name(id, pid)) == Some((id, pid)),
{
    let name = worktree_name(id, pid);
    law_decimal_reads_back(pid);
    let k = id.len() as int;
    assert(name[k] == '-');
    assert forall|j: int| k < j < name.len() implies name[j] != '-' by {
        assert(name[j] == decimal(pid)[j - k - 1]);
        assert(is_digit(decimal(pid)[j - k - 1]));
    }
    lemma_last_index_is(name, '-', k);
    assert(name.take(k) =~= id);
    assert(name.skip(k + 1) =~= decimal(pid));
}

/// Whether a process lives, from what signal 0 to it came to: only the error that
/// no such process exists says that it is dead. `no_such_process` is the number of
/// that error.
pub fn process_is_alive(status: i32, errno: Option<i32>, no_such_process: i32) -> (r: bool)
    ensures
        r == !(status != 0 && errno == Some(no_such_process)),
{
    if status == 0 {
        true
    } else {
        match errno {
            Some(e) => e != no_such_process,
            None => true,
        }
    }
}

/// The process that made the directory at `path`, if it is a worktree.
pub open spec fn owner_of(path: Seq<char>, is_dir: bool) -> Option<nat> {
    match path_name(path) {
        Some(name) => match worktree_parts(name) {
            Some((_, pid)) => if is_dir {
                Some(pid)
            } else {
                None
            },
            None => None,
        },
        None => None,
    }
}

pub fn worktree_owner(path: &str, is_dir: bool) -> (r: Option<u32>)
    ensures
        match r {
            Some(pid) => owner_of(path@, is_dir) == Some(pid as nat),
            None => owner_of(path@, is_dir) is None,
        },
{
    if !is_dir {
        return None;
    }
    match file_name(path) {
        Some(name) => match parse_worktree_dir_name(&name) {
            Some((_, pid)) => Some(pid),
            None => None,
        },
        None => None,
    }
}

/// Whether the canonical path `resolved` is `root` or lies below it.
pub open spec fn lies_within(resolved: Seq<char>, root: Seq<char>) -> bool {
    resolved == root || has_prefix(resolved, root.push('/')) || (root == seq!['/'] && has_prefix(
        resolved,
        root,
    ))
}

pub fn is_within(resolved: &str, root: &str) -> (r: bool)
    ensures
        r == lies_within(resolved@, root@),
{
    if same_text(resolved, root) {
        return true;
    }
    let mut below = root.to_owned();
    below.push('/');
    if strip_prefix(resolved, &below).is_some() {
        return true;
    }
    let mut slash = String::new();
    slash.push('/');
    proof {
        assert(slash@ =~= seq!['/']);
    }
    same_text(root, &slash) && strip_prefix(resolved, root).is_some()
}

/// Whether a worktree may be removed: it belongs to another process, which is
/// dead, and its canonical path (`None` where there is none) does not leave the
/// directory of the worktrees.
pub open spec fn is_reclaimable(
    owner: nat,
    self_pid: nat,
    alive: bool,
    resolved: Option<Seq<char>>,
    root: Seq<char>,
) -> bool {
    owner != self_pid && !alive && (match resolved {
        Some(p) => lies_within(p, root),
        None => false,
    })
}

pub fn reclaimable(
    owner: u32,
    self_pid: u32,
    alive: bool,
    resolved: &Option<String>,
    root: &str,
) -> (r: bool)
    ensures
        r == is_reclaimable(owner as nat, self_pid as nat, alive, opt_text(*resolved), root@),
{
    if owner == self_pid || alive {
        return false;
    }
    match resolved {
        Some(p) => is_within(p, root),
        None => false,
    }
}

/// An entry of the directory of the worktrees.
#[derive(Debug)]
pub struct WorktreeEntry {
    pub path: String,
    pub is_dir: bool,
    /// Its canonical path, if it has one.
    pub resolved: Option<String>,
    /// Whether the process that its name tells of lives.
    pub owner_alive: bool,
}

/// Whether an entry is a worktree that may be removed.
pub open spec fn is_stale(entry: WorktreeEntry, self_pid: nat, root: Seq<char>) -> bool {
    match owner_of(entry.path@, entry.is_dir) {
        Some(owner) => is_reclaimable(
            owner,
            self_pid,
            entry.owner_alive,
            opt_text(entry.resolved),
            root,
        ),
        None => false,
    }
}

/// The paths of the worktrees that may be removed, in order.
pub open spec fn stale_worktrees(
    entries: Seq<WorktreeEntry>,
    self_pid: nat,
    root: Seq<char>,
) -> Seq<Seq<char>>
    decreases entries.len(),
{
    if entries.len() == 0 {
        Seq::empty()
    } else {
        let before = stale_worktrees(entries.drop_last(), self_pid, root);
        if is_stale(entries.last(), self_pid, root) {
            before.push(entries.last().path@)
        } else {
            before
        }
    }
}

/// Picks the worktrees to remove among the entries of their directory, whose
/// canonical path is `root`.
pub fn prune_stale_worktrees_with(
    entries: &Vec<WorktreeEntry>,
    self_pid: u32,
    root: &str,
) -> (r: Vec<String>)
    ensures
        views(r@) == stale_worktrees(entries@, self_pid as nat, root@),
{
    let mut out: Vec<String> = Vec::new();
    let mut i: usize = 0;
    proof {
        assert(views(out@) =~= stale_worktrees(entries@.take(0), self_pid as nat, root@));
    }
    while i < entries.len()
        invariant
            i <= entries.len(),
            views(out@) == stale_worktrees(entries@.take(i as int), self_pid as nat, root@),
        decreases entries.len() - i,
    {
        let entry = &entries[i];
        let ghost before = views(out@);
        proof {
            assert(entries@.take(i + 1).drop_last() =~= entries@.take(i as int));
        }
        if let Some(owner) = worktree_owner(&entry.path, entry.is_dir) {
            if reclaimable(owner, self_pid, entry.owner_alive, &entry.resolved, root) {
                out.push(entry.path.clone());
                proof {
                    assert(views(out@) =~= before.push(entry.path@));
                }
            }
        }
        i = i + 1;
    }
    proof {
        assert(entries@.take(i as int) =~= entries@);
    }
    out
}

/// Only worktrees of dead processes are removed: each path that is picked is that of
/// an entry which is a directory with a worktree's name, not of this process nor of a
/// living one, and which lies within the directory of the worktrees. And each such
/// entry is picked.
pub proof fn law_only_dead_worktrees_are_removed(
    entries: Seq<WorktreeEntry>,
    self_pid: nat,
    root: Seq<char>,
    path: Seq<char>,
)
    ensures
        stale_worktrees(entries, self_pid, root).contains(path) <==> exists|i: int|
            {
                &&& 0 <= i < entries.len()
                &&& (#[trigger] entries[i]).path@ == path
                &&& entries[i].is_dir
                &&& !entries[i].owner_alive
                &&& (path_name(path) matches Some(name) && worktree_parts(name) matches Some((_, pid))
                    && pid != self_pid)
                &&& (entries[i].resolved matches Some(p) && lies_within(p@, root))
            },
    decreases entries.len(),
{
    let all = stale_worktrees(entries, self_pid, root);
    if entries.len() > 0 {
        let t = entries.drop_last();
        let before = stale_worktrees(t, self_pid, root);
        law_only_dead_worktrees_are_removed(t, self_pid, root, path);
        let last = entries.len() - 1;
        assert(entries.last() == entries[last]);
        assert forall|i: int| 0 <= i < t.len() implies t[i] == entries[i] by {}
        if all.contains(path) {
            let k = choose|k: int| 0 <= k < all.len() && all[k] == path;
            if k < before.len() {
                assert(before[k] == path);
                assert(before.contains(path));
            } else {
                assert(is_stale(entries[last], self_pid, root));
            }
        }
        if before.contains(path) {
            let k = choose|k: int| 0 <= k < before.len() && before[k] == path;
            assert(all[k] == path);
        }
        if is_stale(entries[last], self_pid, root) && entries[last].path@ == path {
            assert(all[before.len() as int] == path);
        }
    }
}

/// The arguments with which `git` removes a worktree.
pub fn remove_args(path: &str) -> (r: Vec<String>)
    ensures
        views(r@) == seq!["worktree"@, "remove"@, "--force"@, path@],
{
    let mut args: Vec<String> = Vec::new();
    args.push("worktree".to_owned());
    args.push("remove".to_owned());
    args.push("--force".to_owned());
    args.push(path.to_owned());
    proof {
        assert(views(args@) =~= seq!["worktree"@, "remove"@, "--force"@, path@]);
    }
    args
}

/// The arguments with which `git` adds a worktree at a detached `HEAD`.
pub fn add_args(path: &str) -> (r: Vec<String>)
    ensures
        views(r@) == seq!["worktree"@, "add"@, "--detach"@, path@, "HEAD"@],
{
    let mut args: Vec<String> = Vec::new();
    args.push("worktree".to_owned());
    args.push("add".to_owned());
    args.push("--detach".to_owned());
    args.push(path.to_owned());
    args.push("HEAD".to_owned());
    proof {
        assert(views(args@) =~= seq!["worktree"@, "add"@, "--detach"@, path@, "HEAD"@]);
    }
    args
}

/// The arguments with which `git` names the commit that a worktree is at.
pub fn head_args(path: &str) -> (r: Vec<String>)
    ensures
        views(r@) == seq!["-C"@, path@, "rev-parse"@, "HEAD"@],
{
    let mut args: Vec<String> = Vec::new();
    args.push("-C".to_owned());
    args.push(path.to_owned());
    args.push("rev-parse".to_owned());
    args.push("HEAD".to_owned());
    proof {
        assert(views(args@) =~= seq!["-C"@, path@, "rev-parse"@, "HEAD"@]);
    }
    args
}

/// The link that makes a feature's directory visible inside its worktree.
#[derive(Debug)]
pub struct LinkPlan {
    /// Directory to create for the link.
    pub directory: String,
    /// Path of the link.
    pub link: String,
    /// Absolute path that it points to.
    pub target: String,
}

/// The directory of active features inside a worktree.
pub open spec fn active_in(worktree: Seq<char>) -> Seq<char> {
    path_join(path_join(path_join(worktree, ".ae"@), "features"@), "active"@)
}

/// What to link: `canonical` is the feature's directory with all links resolved,
/// `None` where it does not exist. Then, and where that directory has no name,
/// nothing is linked.
pub fn link_feature_dir_into_worktree(
    wt_path: &str,
    feature_dir: &str,
    canonical: Option<String>,
) -> (r: Option<LinkPlan>)
    ensures
        r is Some <==> canonical is Some && path_name(feature_dir@) is Some,
        r matches Some(plan) ==> {
            &&& plan.directory@ == active_in(wt_path@)
            &&& plan.link@ == path_join(active_in(wt_path@), path_name(feature_dir@)->Some_0)
            &&& Some(plan.target@) == opt_text(canonical)
        },
{
    let target = match canonical {
        Some(t) => t,
        None => {
            return None;
        },
    };
    match file_name(feature_dir) {
        None => None,
        Some(name) => {
            let directory = join(&join(&join(wt_path, ".ae"), "features"), "active");
            let link = join(&directory, &name);
            Some(LinkPlan { directory, link, target })
        },
    }
}

/// What became of clearing the path of a link.
#[derive(Debug, Clone, Copy, PartialEq, Eq, Structural)]
pub enum Removal {
    Removed,
    /// Nothing was there.
    NotFound,
    /// Something is there that cannot be removed as a file.
    Refused,
}

/// The link is made unless something stays in its place.
pub fn may_link(removal: Removal) -> (r: bool)
    ensures
        r == (removal != Removal::Refused),
{
    match removal {
        Removal::Refused => false,
        _ => true,
    }
}

/// A worktree in use.
#[derive(Debug)]
pub struct Worktree {
    pub path: String,
    pub workspace: String,
    /// The commit that it was at when it was made.
    pub initial_sha: String,
}

/// Where the making of a worktree stands.
#[derive(Debug)]
pub enum SetupStage {
    /// The directory of the worktrees is being made.
    MakingRoot,
    /// `git worktree add` is running.
    Adding,
    /// The commit is being read.
    ReadingHead,
    /// The feature is being linked into the worktree.
    Linking { initial_sha: String },
    /// The worktree is being removed again.
    RollingBack,
    /// There is a worktree.
    Ready(Worktree),
    /// There is none: the worker runs beside the feature.
    Absent,
}

/// What happened while a worktree was made.
#[derive(Debug)]
pub enum SetupEvent {
    /// The directory of the worktrees was made, or could not be.
    RootMade(bool),
    /// The run of `git` that the stage waits for has ended.
    Git(GitReply),
    /// The link was made, or skipped.
    Linked,
}

/// A stage as a mathematical value.
pub enum SetupView {
    MakingRoot,
    Adding,
    ReadingHead,
    Linking { initial_sha: Seq<char> },
    RollingBack,
    Ready { path: Seq<char>, workspace: Seq<char>, initial_sha: Seq<char> },
    Absent,
}

impl View for SetupStage {
    type V = SetupView;

    open spec fn view(&self) -> SetupView {
        match *self {
            SetupStage::MakingRoot => SetupView::MakingRoot,
            SetupStage::Adding => SetupView::Adding,
            SetupStage::ReadingHead => SetupView::ReadingHead,
            SetupStage::Linking { initial_sha } => SetupView::Linking { initial_sha: initial_sha@ },
            SetupStage::RollingBack => SetupView::RollingBack,
            SetupStage::Ready(w) => SetupView::Ready {
                path: w.path@,
                workspace: w.workspace@,
                initial_sha: w.initial_sha@,
            },
            SetupStage::Absent => SetupView::Absent,
        }
    }
}

/// Whether `event` is one that `stage` waits for.
pub open spec fn awaits(stage: SetupView, event: SetupEvent) -> bool {
    match stage {
        SetupView::MakingRoot => event is RootMade,
        SetupView::Adding | SetupView::ReadingHead | SetupView::RollingBack => event is Git,
        SetupView::Linking { .. } => event is Linked,
        _ => false,
    }
}

/// The stage after an event. A worktree counts only once its commit is known: where
/// that cannot be read, the worktree is removed again.
pub open spec fn setup_after(
    stage: SetupView,
    event: SetupEvent,
    path: Seq<char>,
    workspace: Seq<char>,
) -> SetupView {
    match (stage, event) {
        (SetupView::MakingRoot, SetupEvent::RootMade(made)) => if made {
            SetupView::Adding
        } else {
            SetupView::Absent
        },
        (SetupView::Adding, SetupEvent::Git(reply)) => if reply.succeeded() {
            SetupView::ReadingHead
        } else {
            SetupView::Absent
        },
        (SetupView::ReadingHead, SetupEvent::Git(reply)) => match reply.answer() {
            Some(sha) => SetupView::Linking { initial_sha: sha },
            None => SetupView::RollingBack,
        },
        (SetupView::Linking { initial_sha }, SetupEvent::Linked) => SetupView::Ready {
            path,
            workspace,
            initial_sha,
        },
        (SetupView::RollingBack, SetupEvent::Git(_)) => SetupView::Absent,
        _ => stage,
    }
}

/// One step in the making of a worktree at `path`.
pub fn maybe_create_worktree(
    stage: SetupStage,
    event: SetupEvent,
    path: &str,
    workspace: &str,
) -> (r: SetupStage)
    requires
        awaits(stage@, event),
    ensures
        r@ == setup_after(stage@, event, path@, workspace@),
{
    match stage {
        SetupStage::MakingRoot => match event {
            SetupEvent::RootMade(true) => SetupStage::Adding,
            _ => SetupStage::Absent,
        },
        SetupStage::Adding => match event {
            SetupEvent::Git(reply) => if reply.is_success() {
                SetupStage::ReadingHead
            } else {
                SetupStage::Absent
            },
            _ => SetupStage::Adding,
        },
        SetupStage::ReadingHead => match event {
            SetupEvent::Git(reply) => match reply.printed() {
                Some(initial_sha) => SetupStage::Linking { initial_sha },
                None => SetupStage::RollingBack,
            },
            _ => SetupStage::ReadingHead,
        },
        SetupStage::Linking { initial_sha } => SetupStage::Ready(
            Worktree { path: path.to_owned(), workspace: workspace.to_owned(), initial_sha },
        ),
        SetupStage::RollingBack => SetupStage::Absent,
        SetupStage::Ready(w) => SetupStage::Ready(w),
        SetupStage::Absent => SetupStage::Absent,
    }
}

/// A path lies within a directory exactly where it is the directory or goes on below it
/// after a separator: one that merely begins with the same characters does not.
pub proof fn law_within_means_below(root: Seq<char>, resolved: Seq<char>)
    requires
        root.len() > 0,
        root.last() != '/',
    ensures
        lies_within(resolved, root) <==> resolved == root || exists|rest: Seq<char>|
            resolved == #[trigger] (root.push('/') + rest),
{
    let below = root.push('/');
    let n = below.len() as int;
    if has_prefix(resolved, below) {
        let rest = resolved.skip(n);
        assert(resolved =~= below + rest);
    }
    if exists|rest: Seq<char>| resolved == #[trigger] (below + rest) {
        let rest = choose|rest: Seq<char>| resolved == #[trigger] (below + rest);
        assert(resolved.subrange(0, n) =~= below);
    }
    if root == seq!['/'] {
        assert(root.last() == '/');
    }
}

/// A name is that of a worktree exactly where it is the id of a feature, a dash and the
/// digits of a process; no process has the number 0.
pub proof fn law_worktrees_are_told_by_their_names(name: Seq<char>, id: Seq<char>, pid: nat)
    ensures
        worktree_parts(name) == Some((id, pid)) <==> {
            &&& valid_feature_id(id)
            &&& 0 < pid <= u32::MAX
            &&& exists|digits: Seq<char>|
                name == #[trigger] (id.push('-') + digits) && all_digits(digits) && digits_value(
                    digits,
                ) == pid
        },
{
    if worktree_parts(name) == Some((id, pid)) {
        lemma_last_index(name, '-');
        let dash = last_index(name, '-');
        let digits = name.skip(dash + 1);
        assert(name =~= id.push('-') + digits);
        assert(all_digits(digits));
    }
    if exists|digits: Seq<char>|
        name == #[trigger] (id.push('-') + digits) && all_digits(digits) && digits_value(digits)
            == pid {
        let digits = choose|digits: Seq<char>|
            name == #[trigger] (id.push('-') + digits) && all_digits(digits) && digits_value(digits)
                == pid;
        let k = id.len() as int;
        assert(name[k] == '-');
        assert forall|j: int| k < j < name.len() implies name[j] != '-' by {
            assert(name[j] == digits[j - k - 1]);
            assert(is_digit(digits[j - k - 1]));
        }
        lemma_last_index_is(name, '-', k);
        assert(name.take(k) =~= id);
        assert(name.skip(k + 1) =~= digits);
    }
}

/// Every path from the root lies within the root.
pub proof fn law_all_paths_lie_within_the_root(resolved: Seq<char>)
    ensures
        lies_within(resolved, seq!['/']) <==> resolved.len() > 0 && resolved[0] == '/',
{
    let root = seq!['/'];
    if has_prefix(resolved, root) {
        assert(resolved.subrange(0, 1)[0] == root[0]);
    }
    if has_prefix(resolved, root.push('/')) {
        assert(resolved.subrange(0, 2)[0] == root.push('/')[0]);
    }
    if resolved.len() > 0 && resolved[0] == '/' {
        assert(resolved.subrange(0, 1) =~= root);
    }
}

/// The worktrees that are removed come in the order of the entries, each as often as it
/// is among them. `at` says which entry each is.
pub proof fn law_dead_worktrees_are_picked_in_order(
    entries: Seq<WorktreeEntry>,
    self_pid: nat,
    root: Seq<char>,
) -> (at: Seq<int>)
    ensures
        at.len() == stale_worktrees(entries, self_pid, root).len(),
        forall|k: int|
            0 <= k < at.len() ==> 0 <= #[trigger] at[k] < entries.len() && stale_worktrees(
                entries,
                self_pid,
                root,
            )[k] == entries[at[k]].path@,
        forall|j: int, k: int| 0 <= j < k < at.len() ==> #[trigger] at[j] < #[trigger] at[k],
        forall|i: int|
            0 <= i < entries.len() ==> (#[trigger] at.contains(i) <==> {
                &&& entries[i].is_dir
                &&& !entries[i].owner_alive
                &&& path_name(entries[i].path@) matches Some(name) && worktree_parts(
                    name,
                ) matches Some((_, pid)) && pid != self_pid
                &&& entries[i].resolved matches Some(p) && lies_within(p@, root)
            }),
    decreases entries.len(),
{
    if entries.len() == 0 {
        Seq::empty()
    } else {
        let t = entries.drop_last();
        let before = law_dead_worktrees_are_picked_in_order(t, self_pid, root);
        let last = entries.len() - 1;
        let all = stale_worktrees(entries, self_pid, root);
        let stale = is_stale(entries.last(), self_pid, root);
        let at = if stale {
            before.push(last)
        } else {
            before
        };
        assert forall|k: int| 0 <= k < at.len() implies 0 <= #[trigger] at[k] < entries.len()
            && all[k] == entries[at[k]].path@ by {
            if k < before.len() {
                assert(at[k] == before[k]);
                assert(t[before[k]] == entries[at[k]]);
                assert(all[k] == stale_worktrees(t, self_pid, root)[k]);
            }
        }
        assert forall|i: int| 0 <= i < entries.len() implies (#[trigger] at.contains(i) <==> {
            &&& entries[i].is_dir
            &&& !entries[i].owner_alive
            &&& path_name(entries[i].path@) matches Some(name) && worktree_parts(
                name,
            ) matches Some((_, pid)) && pid != self_pid
            &&& entries[i].resolved matches Some(p) && lies_within(p@, root)
        }) by {
            if i < last {
                assert(t[i] == entries[i]);
                if before.contains(i) {
                    let k = before.index_of(i);
                    assert(at[k] == i);
                }
                if at.contains(i) {
                    let k = at.index_of(i);
                    assert(before[k] == i);
                }
            } else if stale {
                assert(at[before.len() as int] == i);
            } else if at.contains(i) {
                let k = at.index_of(i);
                assert(before[k] < t.len());
            }
        }
        at
    }
}

/// What four events in turn decide: there is a worktree exactly where its directory
/// could be made, `git` added it, and the commit that it is at could be read, which is
/// then the commit that it began at. Where only the last failed it is removed again,
/// and there is none.
pub proof fn law_worktree_is_ready_or_absent(
    made: bool,
    add: GitReply,
    head: GitReply,
    undo: GitReply,
    path: Seq<char>,
    workspace: Seq<char>,
)
    ensures
        ({
            let rooted = setup_after(
                SetupView::MakingRoot,
                SetupEvent::RootMade(made),
                path,
                workspace,
            );
            let added = setup_after(rooted, SetupEvent::Git(add), path, workspace);
            let read = setup_after(added, SetupEvent::Git(head), path, workspace);
            &&& !made ==> rooted is Absent
            &&& made && !add.succeeded() ==> added is Absent
            &&& made && add.succeeded() ==> (match head.answer() {
                Some(sha) => setup_after(read, SetupEvent::Linked, path, workspace)
                    == (SetupView::Ready { path, workspace, initial_sha: sha }),
                None => read is RollingBack && setup_after(
                    read,
                    SetupEvent::Git(undo),
                    path,
                    workspace,
                ) is Absent,
            })
        }),
{
}

/// The worktrees lie in `worktrees` below `.loom`, and in each of them the active features
/// in `active` below `.ae/features`, as in the main tree.
pub proof fn law_directories_have_their_places(tree: Seq<char>)
    ensures
        path_name(worktrees_root(tree)) == Some("worktrees"@),
        path_parent(worktrees_root(tree)) == Some(path_join(tree, ".loom"@)),
        path_name(active_in(tree)) == Some("active"@),
        path_parent(active_in(tree)) == Some(path_join(path_join(tree, ".ae"@), "features"@)),
{
    reveal_strlit(".loom");
    reveal_strlit("worktrees");
    reveal_strlit(".ae");
    reveal_strlit("features");
    reveal_strlit("active");
    let loom = path_join(tree, ".loom"@);
    assert(loom.last() == 'm');
    assert("worktrees"@.len() == 9);
    law_name_of_join(loom, "worktrees"@);
    law_parent_of_join(loom, "worktrees"@);
    let features = path_join(path_join(tree, ".ae"@), "features"@);
    assert(features.last() == 's');
    assert("active"@.len() == 6);
    law_name_of_join(features, "active"@);
    law_parent_of_join(features, "active"@);
}

} // verus!
