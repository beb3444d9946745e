//! Review verdicts: what a feature's `review.md` says of it.

use crate::discovery::{frontmatter, split_frontmatter, FrontmatterError};
use crate::paths::{file_name, parent, path_name, path_parent};
use crate::text::{opt_text, same_text, views};
use vstd::prelude::*;

verus! {

broadcast use vstd::string::group_string_axioms;

/// Verdicts that wait between the watcher and the loop, at most.
pub const VERDICT_CHANNEL_CAPACITY: usize = 256;

/// How often a review is read before it is given up.
pub const REVIEW_ATTEMPTS: u32 = 3;

/// Milliseconds between two readings of a review.
pub const REVIEW_RETRY_MILLIS: u64 = 200;

/// The judgment of a review.
#[derive(Debug, Clone, Copy, PartialEq, Eq, Structural)]
pub enum AeVerdict {
    Pass,
    Fail,
}

/// A feature's review has come to a verdict.
#[derive(Debug)]
pub struct VerdictEvent {
    /// Name of the feature's directory.
    pub feature_id: String,
    pub verdict: AeVerdict,
    pub review_path: String,
}

/// The verdict that the word under the key `verdict` stands for. Any other word, the
/// empty one and none at all belong to a review that is not finished.
pub open spec fn verdict_of_word(word: Option<Seq<char>>) -> Option<AeVerdict> {
    if word == Some("pass"@) {
        Some(AeVerdict::Pass)
    } else if word == Some("fail"@) {
        Some(AeVerdict::Fail)
    } else {
        None
    }
}

pub fn terminal_verdict(word: &Option<String>) -> (r: Option<AeVerdict>)
    ensures
        r == verdict_of_word(opt_text(*word)),
{
    match word {
        Some(w) => {
            proof {
                reveal_strlit("pass");
                reveal_strlit("fail");
                assert("pass"@[0] != "fail"@[0]);
            }
            if same_text(w, "pass") {
                Some(AeVerdict::Pass)
            } else if same_text(w, "fail") {
                Some(AeVerdict::Fail)
            } else {
                None
            }
        },
        None => None,
    }
}

/// What one reading of a `review.md` gave.
#[derive(Debug)]
pub enum ReviewRead {
    /// The file could not be read, or its frontmatter is not YAML of the
    /// expected shape.
    Failed,
    /// The frontmatter is absent or not closed.
    Unfinished,
    /// The frontmatter, with the word under the key `verdict`.
    Frontmatter(Option<String>),
}

/// The frontmatter block of a review. A review without one, or with one that is not
/// closed, is unfinished.
pub fn review_block(content: &str) -> (r: Result<String, ReviewRead>)
    ensures
        match r {
            Ok(block) => frontmatter(content@) == Ok::<Seq<char>, FrontmatterError>(block@),
            Err(read) => frontmatter(content@) is Err && read is Unfinished,
        },
{
    match split_frontmatter(content) {
        Ok(block) => Ok(block),
        Err(_) => Err(ReviewRead::Unfinished),
    }
}

/// The verdict in one reading: `Err` where the reading failed, `Ok(None)` where
/// the review is not finished.
pub open spec fn verdict_in(read: ReviewRead) -> Result<Option<AeVerdict>, ()> {
    match read {
        ReviewRead::Failed => Err(()),
        ReviewRead::Unfinished => Ok(None),
        ReviewRead::Frontmatter(word) => Ok(verdict_of_word(opt_text(word))),
    }
}

pub fn parse_once(read: &ReviewRead) -> (r: Result<Option<AeVerdict>, ()>)
    ensures
        r == verdict_in(*read),
{
    match read {
        ReviewRead::Failed => Err(()),
        ReviewRead::Unfinished => Ok(None),
        ReviewRead::Frontmatter(word) => Ok(terminal_verdict(word)),
    }
}

/// The verdict in a single reading; a failed reading has none.
pub open spec fn single_verdict(read: ReviewRead) -> Option<AeVerdict> {
    match verdict_in(read) {
        Ok(v) => v,
        Err(_) => None,
    }
}

pub fn parse_review_once(read: &ReviewRead) -> (r: Option<AeVerdict>)
    ensures
        r == single_verdict(*read),
{
    match parse_once(read) {
        Ok(v) => v,
        Err(_) => None,
    }
}

/// What to do after one of several readings of a review.
#[derive(Debug, Clone, Copy, PartialEq, Eq, Structural)]
pub enum RetryStep {
    /// Take this as the result.
    Return(Option<AeVerdict>),
    /// Wait, then read again.
    ReadAgain,
    /// Wait, then give up without a verdict.
    GiveUp,
}

/// A reading that succeeds ends the matter, finished review or not; one that
/// fails is repeated until the attempts are used up. `attempt` counts from 0.
pub fn parse_with_retry(attempt: u32, read: &ReviewRead) -> (r: RetryStep)
    requires
        attempt < REVIEW_ATTEMPTS,
    ensures
        r == (match verdict_in(*read) {
            Ok(v) => RetryStep::Return(v),
            Err(_) => if attempt + 1 < REVIEW_ATTEMPTS {
                RetryStep::ReadAgain
            } else {
                RetryStep::GiveUp
            },
        }),
{
    match parse_once(read) {
        Ok(v) => RetryStep::Return(v),
        Err(_) => if attempt + 1 < REVIEW_ATTEMPTS {
            RetryStep::ReadAgain
        } else {
            RetryStep::GiveUp
        },
    }
}

/// What a change on disk is.
#[derive(Debug, Clone, Copy, PartialEq, Eq, Structural)]
pub enum ChangeKind {
    Create,
    Modify,
    Other,
}

/// A review that may have changed.
#[derive(Debug)]
pub struct ReviewTarget {
    pub feature_id: String,
    pub review_path: String,
}

/// The feature whose review a path is: the name of the directory that holds a
/// file named `review.md`.
pub open spec fn reviewed_feature(path: Seq<char>) -> Option<Seq<char>> {
    if path_name(path) == Some("review.md"@) {
        match path_parent(path) {
            Some(dir) => path_name(dir),
            None => None,
        }
    } else {
        None
    }
}

/// The reviews among the paths of a change, with their features, in order.
pub open spec fn reviews_among(paths: Seq<Seq<char>>) -> Seq<(Seq<char>, Seq<char>)>
    decreases paths.len(),
{
    if paths.len() == 0 {
        Seq::empty()
    } else {
        let before = reviews_among(paths.drop_last());
        match reviewed_feature(paths.last()) {
            Some(feature) => before.push((feature, paths.last())),
            None => before,
        }
    }
}

pub open spec fn target_views(targets: Seq<ReviewTarget>) -> Seq<(Seq<char>, Seq<char>)> {
    Seq::new(targets.len(), |i: int| (targets[i].feature_id@, targets[i].review_path@))
}

fn feature_of_review(path: &str) -> (r: Option<String>)
    ensures
        opt_text(r) == reviewed_feature(path@),
{
    match file_name(path) {
        None => None,
        Some(name) => {
            if !same_text(&name, "review.md") {
                return None;
            }
            match parent(path) {
                None => None,
                Some(dir) => file_name(&dir),
            }
        },
    }
}

/// The reviews to read after a change: none unless something was created or
/// modified.
pub fn process_event(kind: ChangeKind, paths: &Vec<String>) -> (r: Vec<ReviewTarget>)
    ensures
        target_views(r@) == (if kind == ChangeKind::Other {
            Seq::empty()
        } else {
            reviews_among(views(paths@))
        }),
{
    let mut out: Vec<ReviewTarget> = Vec::new();
    if kind == ChangeKind::Other {
        proof {
            assert(target_views(out@) =~= Seq::empty());
        }
        return out;
    }
    let ghost all = views(paths@);
    let mut i: usize = 0;
    proof {
        assert(target_views(out@) =~= reviews_among(all.take(0)));
    }
    while i < paths.len()
        invariant
            all == views(paths@),
            i <= paths.len(),
            target_views(out@) == reviews_among(all.take(i as int)),
        decreases paths.len() - i,
    {
        let ghost before = target_views(out@);
        proof {
            assert(all.take(i + 1).drop_last() =~= all.take(i as int));
            assert(all.take(i + 1).last() == paths@[i as int]@);
        }
        match feature_of_review(&paths[i]) {
            Some(feature_id) => {
                let target = ReviewTarget { feature_id, review_path: paths[i].clone() };
                out.push(target);
                proof {
                    assert(target_views(out@) =~= before.push(
                        (target.feature_id@, target.review_path@),
                    ));
                }
            },
            None => {},
        }
        i = i + 1;
    }
    proof {
        assert(all.take(i as int) =~= all);
    }
    out
}

/// A review comes to a verdict exactly where it could be read and its word is `pass`
/// or `fail`, and then to that one. No other word, near as it may be, is a verdict.
pub proof fn law_only_two_words_are_verdicts(read: ReviewRead)
    ensures
        single_verdict(read) == Some(AeVerdict::Pass) <==> (read matches ReviewRead::Frontmatter(
            Some(word),
        ) && word@ == "pass"@),
        single_verdict(read) == Some(AeVerdict::Fail) <==> (read matches ReviewRead::Frontmatter(
            Some(word),
        ) && word@ == "fail"@),
        verdict_in(read) is Err <==> read is Failed,
        verdict_in(read) matches Ok(v) ==> v == single_verdict(read),
{
    reveal_strlit("pass");
    reveal_strlit("fail");
    assert("pass"@[0] != "fail"@[0]);
}

/// Every review among the paths of a change is read, once for each time that it is
/// named, in order, under the name of the directory that holds it; no other path is.
/// `at` says which path each comes from.
pub proof fn law_changed_reviews_are_read(paths: Seq<Seq<char>>) -> (at: Seq<int>)
    ensures
        at.len() == reviews_among(paths).len(),
        forall|k: int|
            0 <= k < at.len() ==> 0 <= #[trigger] at[k] < paths.len() && {
                let (feature, path) = reviews_among(paths)[k];
                &&& path == paths[at[k]]
                &&& path_name(path) == Some("review.md"@)
                &&& path_parent(path) matches Some(dir) && path_name(dir) == Some(feature)
            },
        forall|j: int, k: int| 0 <= j < k < at.len() ==> #[trigger] at[j] < #[trigger] at[k],
        forall|i: int|
            0 <= i < paths.len() && path_name(#[trigger] paths[i]) == Some("review.md"@) && (
            path_parent(paths[i]) matches Some(dir) && path_name(dir) is Some) ==> at.contains(i),
    decreases paths.len(),
{
    if paths.len() == 0 {
        Seq::empty()
    } else {
        let t = paths.drop_last();
        let before = law_changed_reviews_are_read(t);
        let last = paths.len() - 1;
        let found = reviewed_feature(paths.last());
        let at = if found is Some {
            before.push(last)
        } else {
            before
        };
        assert forall|k: int| 0 <= k < at.len() implies 0 <= #[trigger] at[k] < paths.len() && {
            let (feature, path) = reviews_among(paths)[k];
            &&& path == paths[at[k]]
            &&& path_name(path) == Some("review.md"@)
            &&& path_parent(path) matches Some(dir) && path_name(dir) == Some(feature)
        } by {
            if k < before.len() {
                assert(at[k] == before[k]);
                assert(t[before[k]] == paths[at[k]]);
                assert(reviews_among(paths)[k] == reviews_among(t)[k]);
            }
        }
        assert forall|i: int|
            0 <= i < paths.len() && path_name(#[trigger] paths[i]) == Some("review.md"@) && (
            path_parent(paths[i]) matches Some(dir) && path_name(
                dir,
            ) is Some) implies at.contains(i) by {
            if i < last {
                assert(t[i] == paths[i]);
                assert(before.contains(i));
                let k = before.index_of(i);
                assert(at[k] == i);
            } else {
                assert(at[before.len() as int] == i);
            }
        }
        at
    }
}

} // verus!
