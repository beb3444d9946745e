//! Discovery: the feature graph as it stands on disk.

use crate::feature_id::{is_valid, valid_feature_id};
use crate::order::{
    law_text_order_total, law_text_order_transitive, lemma_filter_picks, picks, text_before,
    text_lt,
};
use crate::paths::{file_name, path_name};
use crate::text::{
    after_prefix, find, first_at, from_chars, has_prefix, law_affixes_are_parts, lemma_position_is,
    occurs_at, opt_text, position_of, same_text, strip_prefix, to_chars, views,
};
use vstd::prelude::*;

verus! {

broadcast use vstd::string::group_string_axioms;

/// A feature of the graph.
#[derive(Debug)]
pub struct DiscoveredFeature {
    pub id: String,
    pub feature_dir: String,
    /// Ids of the features that must be done first.
    pub depends_on: Vec<String>,
    /// How far the work is: `done`, `in_progress`, or nothing said.
    pub work_state: Option<String>,
}

/// A feature as a mathematical value.
pub struct FeatureView {
    pub id: Seq<char>,
    pub feature_dir: Seq<char>,
    pub depends_on: Seq<Seq<char>>,
    pub work_state: Option<Seq<char>>,
}

impl View for DiscoveredFeature {
    type V = FeatureView;

    open spec fn view(&self) -> FeatureView {
        FeatureView {
            id: self.id@,
            feature_dir: self.feature_dir@,
            depends_on: views(self.depends_on@),
            work_state: opt_text(self.work_state),
        }
    }
}

impl FeatureView {
    pub open spec fn done(self) -> bool {
        self.work_state == Some("done"@)
    }
}

/// A copy of a list of texts.
pub fn clone_texts(v: &Vec<String>) -> (r: Vec<String>)
    ensures
        views(r@) == views(v@),
{
    let mut out: Vec<String> = Vec::new();
    let mut i: usize = 0;
    while i < v.len()
        invariant
            i <= v.len(),
            out@.len() == i,
            forall|j: int| 0 <= j < i ==> #[trigger] out@[j]@ == v@[j]@,
        decreases v.len() - i,
    {
        out.push(v[i].clone());
        i = i + 1;
    }
    proof {
        assert(views(out@) =~= views(v@));
    }
    out
}

/// A copy of an optional text.
pub fn clone_text(o: &Option<String>) -> (r: Option<String>)
    ensures
        opt_text(r) == opt_text(*o),
{
    match o {
        Some(s) => Some(s.clone()),
        None => None,
    }
}

impl Clone for DiscoveredFeature {
    fn clone(&self) -> (r: Self)
        ensures
            r@ == self@,
    {
        DiscoveredFeature {
            id: self.id.clone(),
            feature_dir: self.feature_dir.clone(),
            depends_on: clone_texts(&self.depends_on),
            work_state: clone_text(&self.work_state),
        }
    }
}

impl DiscoveredFeature {
    pub fn is_done(&self) -> (r: bool)
        ensures
            r == self@.done(),
    {
        match &self.work_state {
            Some(s) => same_text(s, "done"),
            None => false,
        }
    }
}

/// Why a file has no frontmatter block.
#[derive(Debug, Clone, Copy, PartialEq, Eq, Structural)]
pub enum FrontmatterError {
    /// It does not begin with the line `---`.
    MissingOpening,
    /// No line that begins with `---` follows.
    MissingClosing,
}

/// The text between the two delimiters at the start of a file.
pub open spec fn frontmatter(content: Seq<char>) -> Result<Seq<char>, FrontmatterError> {
    match after_prefix(content, "---\n"@) {
        None => Err(FrontmatterError::MissingOpening),
        Some(rest) => match position_of(rest, "\n---"@) {
            None => Err(FrontmatterError::MissingClosing),
            Some(end) => Ok(rest.take(end)),
        },
    }
}

/// Cuts the frontmatter block out of a file.
pub fn split_frontmatter(content: &str) -> (r: Result<String, FrontmatterError>)
    ensures
        match r {
            Ok(block) => frontmatter(content@) == Ok::<Seq<char>, FrontmatterError>(block@),
            Err(e) => frontmatter(content@) == Err::<Seq<char>, FrontmatterError>(e),
        },
{
    match strip_prefix(content, "---\n") {
        None => Err(FrontmatterError::MissingOpening),
        Some(rest) => {
            let chars = to_chars(&rest);
            let closing = to_chars("\n---");
            match find(&chars, &closing) {
                None => Err(FrontmatterError::MissingClosing),
                Some(end) => {
                    let block = from_chars(&chars, 0, end);
                    proof {
                        assert(block@ =~= rest@.take(end as int));
                    }
                    Ok(block)
                },
            }
        },
    }
}

/// What is read of a feature's `index.md`.
#[derive(Debug)]
pub struct FeatureFrontmatter {
    pub id: String,
    pub depends_on: Vec<String>,
    /// `pipeline.work`.
    pub work: Option<String>,
}

/// A directory under `.ae/features/active` or `.ae/features/done`.
#[derive(Debug)]
pub struct FeatureEntry {
    pub feature_dir: String,
    /// `None` where `index.md` is absent or cannot be parsed.
    pub frontmatter: Option<FeatureFrontmatter>,
}

/// The feature that a directory holds: none without a parsed `index.md`, and
/// none whose id the grammar refuses. An archived feature is done whatever its
/// `index.md` says.
pub open spec fn feature_in(entry: FeatureEntry, archived: bool) -> Option<FeatureView> {
    match entry.frontmatter {
        Some(fm) => if valid_feature_id(fm.id@) {
            Some(
                FeatureView {
                    id: fm.id@,
                    feature_dir: entry.feature_dir@,
                    depends_on: views(fm.depends_on@),
                    work_state: if archived {
                        Some("done"@)
                    } else {
                        opt_text(fm.work)
                    },
                },
            )
        } else {
            None
        },
        None => None,
    }
}

/// The features that a list of directories holds, in its order.
pub open spec fn features_in(entries: Seq<FeatureEntry>, archived: bool) -> Seq<FeatureView>
    decreases entries.len(),
{
    if entries.len() == 0 {
        Seq::empty()
    } else {
        let before = features_in(entries.drop_last(), archived);
        match feature_in(entries.last(), archived) {
            Some(f) => before.push(f),
            None => before,
        }
    }
}

fn read_features(entries: Vec<FeatureEntry>, archived: bool) -> (r: Vec<DiscoveredFeature>)
    ensures
        views(r@) == features_in(entries@, archived),
{
    let ghost all = entries@;
    let mut out: Vec<DiscoveredFeature> = Vec::new();
    let mut i: usize = 0;
    proof {
        assert(views(out@) =~= features_in(all.take(0), archived));
    }
    while i < entries.len()
        invariant
            entries@ == all,
            i <= entries.len(),
            views(out@) == features_in(all.take(i as int), archived),
        decreases entries.len() - i,
    {
        let entry = &entries[i];
        let ghost before = views(out@);
        proof {
            assert(all.take(i + 1).drop_last() =~= all.take(i as int));
        }
        match &entry.frontmatter {
            Some(fm) => {
                if is_valid(&fm.id) {
                    let feature = DiscoveredFeature {
                        id: fm.id.clone(),
                        feature_dir: entry.feature_dir.clone(),
                        depends_on: clone_texts(&fm.depends_on),
                        work_state: if archived {
                            Some("done".to_owned())
                        } else {
                            clone_text(&fm.work)
                        },
                    };
                    out.push(feature);
                    proof {
                        assert(views(out@) =~= before.push(feature@));
                    }
                }
            },
            None => {},
        }
        i = i + 1;
    }
    proof {
        assert(all.take(i as int) =~= all);
    }
    out
}

/// The active features, from what was read of the directories under
/// `.ae/features/active`.
pub fn read_active_features(entries: Vec<FeatureEntry>) -> (r: Vec<DiscoveredFeature>)
    ensures
        views(r@) == features_in(entries@, false),
{
    read_features(entries, false)
}

/// The archived features, from what was read of the directories under
/// `.ae/features/done`.
pub fn read_done_features(entries: Vec<FeatureEntry>) -> (r: Vec<DiscoveredFeature>)
    ensures
        views(r@) == features_in(entries@, true),
{
    read_features(entries, true)
}

/// Every feature that is read has an id of the grammar.
pub proof fn law_features_have_valid_ids(entries: Seq<FeatureEntry>, archived: bool, i: int)
    requires
        0 <= i < features_in(entries, archived).len(),
    ensures
        valid_feature_id(features_in(entries, archived)[i].id),
        archived ==> features_in(entries, archived)[i].done(),
    decreases entries.len(),
{
    let before = features_in(entries.drop_last(), archived);
    if i < before.len() {
        law_features_have_valid_ids(entries.drop_last(), archived, i);
    }
}

/// A feature as its directory and its frontmatter give it: the id, the directory and
/// the dependencies as they are written there, entry by entry. Its work is as far as
/// the frontmatter says, or done if it is archived.
pub open spec fn is_as_written(f: FeatureView, entry: FeatureEntry, archived: bool) -> bool {
    &&& entry.frontmatter is Some
    &&& valid_feature_id(entry.frontmatter->Some_0.id@)
    &&& f.id == entry.frontmatter->Some_0.id@
    &&& f.feature_dir == entry.feature_dir@
    &&& f.depends_on.len() == entry.frontmatter->Some_0.depends_on@.len()
    &&& forall|k: int|
        0 <= k < f.depends_on.len() ==> #[trigger] f.depends_on[k]
            == entry.frontmatter->Some_0.depends_on@[k]@
    &&& archived ==> f.work_state == Some("done"@)
    &&& !archived ==> (entry.frontmatter->Some_0.work is Some <==> f.work_state is Some)
    &&& !archived && f.work_state is Some ==> f.work_state->Some_0
        == entry.frontmatter->Some_0.work->Some_0@
}

/// Reading the graph loses nothing and adds nothing: the features are those of the
/// directories whose frontmatter parses and has a valid id, in the order of the
/// directories, each as it is written. `at` says which directory each comes from.
pub proof fn law_features_are_as_written(entries: Seq<FeatureEntry>, archived: bool) -> (at: Seq<
    int,
>)
    ensures
        at.len() == features_in(entries, archived).len(),
        forall|k: int|
            0 <= k < at.len() ==> 0 <= #[trigger] at[k] < entries.len() && is_as_written(
                features_in(entries, archived)[k],
                entries[at[k]],
                archived,
            ),
        forall|j: int, k: int| 0 <= j < k < at.len() ==> #[trigger] at[j] < #[trigger] at[k],
        forall|i: int|
            0 <= i < entries.len() ==> (#[trigger] at.contains(i) <==> entries[i].frontmatter is Some
                && valid_feature_id(entries[i].frontmatter->Some_0.id@)),
        forall|i: int|
            0 <= i < entries.len() && (#[trigger] entries[i]).frontmatter is Some
                && valid_feature_id(entries[i].frontmatter->Some_0.id@) ==> exists|k: int|
                0 <= k < features_in(entries, archived).len() && is_as_written(
                    #[trigger] features_in(entries, archived)[k],
                    entries[i],
                    archived,
                ),
    decreases entries.len(),
{
    if entries.len() == 0 {
        Seq::empty()
    } else {
        let t = entries.drop_last();
        let before = law_features_are_as_written(t, archived);
        let last = entries.len() - 1;
        let out = features_in(entries, archived);
        let held = feature_in(entries.last(), archived);
        let at = if held is Some {
            before.push(last)
        } else {
            before
        };
        if held is Some {
            assert(is_as_written(held->Some_0, entries[last], archived));
        }
        assert forall|k: int| 0 <= k < at.len() implies 0 <= #[trigger] at[k] < entries.len()
            && is_as_written(out[k], entries[at[k]], archived) by {
            if k < before.len() {
                assert(at[k] == before[k]);
                assert(t[before[k]] == entries[at[k]]);
                assert(out[k] == features_in(t, archived)[k]);
            }
        }
        assert forall|i: int| 0 <= i < entries.len() implies (#[trigger] at.contains(i)
            <==> entries[i].frontmatter is Some && valid_feature_id(
            entries[i].frontmatter->Some_0.id@,
        )) by {
            if i < last {
                assert(t[i] == entries[i]);
                if before.contains(i) {
                    let k = before.index_of(i);
                    assert(at[k] == i);
                }
                if at.contains(i) {
                    let k = at.index_of(i);
                    assert(before[k] == i);
                }
            } else {
                if held is Some {
                    assert(at[before.len() as int] == i);
                } else if at.contains(i) {
                    let k = at.index_of(i);
                    assert(before[k] < t.len());
                }
            }
        }
        assert forall|i: int|
            0 <= i < entries.len() && (#[trigger] entries[i]).frontmatter is Some
                && valid_feature_id(entries[i].frontmatter->Some_0.id@) implies exists|k: int|
            0 <= k < out.len() && is_as_written(#[trigger] out[k], entries[i], archived) by {
            assert(at.contains(i));
            let k = at.index_of(i);
            assert(is_as_written(out[k], entries[at[k]], archived));
        }
        at
    }
}

/// Whether the last component of path `a` stands before that of `b`; a path
/// without one stands before any other.
pub open spec fn name_before(a: Seq<char>, b: Seq<char>) -> bool {
    match (path_name(a), path_name(b)) {
        (None, Some(_)) => true,
        (Some(x), Some(y)) => text_lt(x, y),
        _ => false,
    }
}

/// No path stands before one that its last component should follow.
pub open spec fn sorted_by_name(paths: Seq<Seq<char>>) -> bool {
    forall|i: int, j: int|
        0 <= i < j < paths.len() ==> !name_before(#[trigger] paths[j], #[trigger] paths[i])
}

/// The paths with this last component, in order.
pub open spec fn with_name(paths: Seq<Seq<char>>, name: Option<Seq<char>>) -> Seq<Seq<char>> {
    paths.filter(|p: Seq<char>| path_name(p) == name)
}

proof fn lemma_insert_keeps_names(
    before: Seq<Seq<char>>,
    at: int,
    p: Seq<char>,
    name: Option<Seq<char>>,
)
    requires
        0 <= at <= before.len(),
        forall|k: int| at <= k < before.len() ==> name_before(p, #[trigger] before[k]),
    ensures
        with_name(before.insert(at, p), name) == with_name(before.push(p), name),
{
    let keep = |q: Seq<char>| path_name(q) == name;
    let head = before.take(at);
    let tail = before.skip(at);
    assert(before =~= head + tail);
    assert(before.insert(at, p) =~= head + seq![p] + tail);
    assert(before.push(p) =~= head + tail + seq![p]);
    Seq::filter_distributes_over_add(head + seq![p], tail, keep);
    Seq::filter_distributes_over_add(head, seq![p], keep);
    Seq::filter_distributes_over_add(head + tail, seq![p], keep);
    Seq::filter_distributes_over_add(head, tail, keep);
    let one = seq![p];
    reveal(Seq::filter);
    assert(one.drop_last() =~= Seq::empty());
    assert(one.drop_last().filter(keep) =~= Seq::empty());
    if keep(p) {
        if tail.filter(keep).len() > 0 {
            tail.lemma_filter_pred(keep, 0);
            tail.lemma_filter_contains_rev(keep, tail.filter(keep)[0]);
            let j = choose|j: int| 0 <= j < tail.len() && tail[j] == tail.filter(keep)[0];
            assert(tail[j] == before[at + j]);
            lemma_name_irreflexive(p, before[at + j]);
        }
        assert(tail.filter(keep) =~= Seq::empty());
    } else {
        assert(one.filter(keep) =~= Seq::empty());
    }
    assert(before.insert(at, p).filter(keep) =~= before.push(p).filter(keep));
}

proof fn lemma_name_irreflexive(a: Seq<char>, b: Seq<char>)
    requires
        name_before(a, b),
    ensures
        path_name(a) != path_name(b),
{
    if path_name(a) == path_name(b) {
        law_text_order_total(path_name(a)->Some_0, path_name(b)->Some_0);
    }
}

fn has_name_before(a: &str, b: &str) -> (r: bool)
    ensures
        r == name_before(a@, b@),
{
    match (file_name(a), file_name(b)) {
        (None, Some(_)) => true,
        (Some(x), Some(y)) => text_before(&x, &y),
        _ => false,
    }
}

proof fn lemma_name_order(a: Seq<char>, b: Seq<char>, c: Seq<char>)
    ensures
        !(name_before(a, b) && name_before(b, a)),
        !name_before(b, a) && !name_before(c, b) ==> !name_before(c, a),
{
    match (path_name(a), path_name(b), path_name(c)) {
        (Some(x), Some(y), Some(z)) => {
            law_text_order_total(x, y);
            law_text_order_total(y, z);
            law_text_order_total(x, z);
            if text_lt(z, x) && !text_lt(y, x) && !text_lt(z, y) {
                if text_lt(x, y) {
                    if text_lt(y, z) {
                        law_text_order_transitive(x, y, z);
                    }
                }
            }
        },
        (Some(x), Some(y), None) => {
            law_text_order_total(x, y);
        },
        _ => {},
    }
}

/// Puts the paths of a directory's entries in the order of their names, so that
/// the order in which a filesystem lists them does not matter. Paths with the same
/// name keep their order.
pub fn sort_by_name(paths: Vec<String>) -> (r: Vec<String>)
    ensures
        sorted_by_name(views(r@)),
        views(r@).to_multiset() == views(paths@).to_multiset(),
        forall|name: Option<Seq<char>>|
            #[trigger] with_name(views(r@), name) == with_name(views(paths@), name),
{
    let ghost all = views(paths@);
    let mut out: Vec<String> = Vec::new();
    let mut i: usize = 0;
    proof {
        assert(views(out@) =~= all.take(0));
    }
    while i < paths.len()
        invariant
            all == views(paths@),
            i <= paths.len(),
            sorted_by_name(views(out@)),
            views(out@).to_multiset() == all.take(i as int).to_multiset(),
            forall|name: Option<Seq<char>>|
                #[trigger] with_name(views(out@), name) == with_name(all.take(i as int), name),
        decreases paths.len() - i,
    {
        let path = paths[i].clone();
        let ghost p = path@;
        let ghost before = views(out@);
        let mut at: usize = out.len();
        while at > 0 && has_name_before(&path, &out[at - 1])
            invariant
                before == views(out@),
                p == path@,
                at <= out.len(),
                forall|k: int| at <= k < before.len() ==> name_before(p, #[trigger] before[k]),
            decreases at,
        {
            proof {
                assert(before[at - 1] == out@[at - 1]@);
            }
            at = at - 1;
        }
        proof {
            if at > 0 {
                assert(before[at - 1] == out@[at - 1]@);
                assert(!name_before(p, before[at - 1]));
            }
        }
        out.insert(at, path);
        proof {
            let after = before.insert(at as int, p);
            assert(views(out@) =~= after);
            assert forall|j: int, k: int| 0 <= j < k < after.len() implies !name_before(
                #[trigger] after[k],
                #[trigger] after[j],
            ) by {
                let bj = if j < at { j } else { j - 1 };
                let bk = if k < at { k } else { k - 1 };
                if j != at {
                    assert(after[j] == before[bj]);
                }
                if k != at {
                    assert(after[k] == before[bk]);
                }
                if j != at && k != at {
                    assert(!name_before(before[bk], before[bj]));
                } else if k == at {
                    if bj < at - 1 {
                        assert(!name_before(before[at - 1], before[bj]));
                        lemma_name_order(before[bj], before[at - 1], p);
                    }
                } else {
                    lemma_name_order(p, before[bk], p);
                }
            }
            assert(all.take(i + 1) =~= all.take(i as int).push(p));
            assert forall|name: Option<Seq<char>>|
                #[trigger] with_name(after, name) == with_name(all.take(i + 1), name) by {
                let keep = |q: Seq<char>| path_name(q) == name;
                lemma_insert_keeps_names(before, at as int, p, name);
                assert(with_name(before, name) == with_name(all.take(i as int), name));
                before.lemma_filter_push(p, keep);
                all.take(i as int).lemma_filter_push(p, keep);
            }
            vstd::seq_lib::to_multiset_insert(before, at as int, p);
            vstd::seq_lib::to_multiset_build(all.take(i as int), p);
        }
        i = i + 1;
    }
    proof {
        assert(all.take(i as int) =~= all);
    }
    out
}

/// The arguments of each run of the agent that discovery makes for a goal: first
/// the backlog, then the analysis; none where the agent cannot be found.
pub open spec fn ae_arguments(goal: Seq<char>, agent_on_path: bool) -> Seq<Seq<Seq<char>>> {
    if agent_on_path {
        seq![
            seq!["-p"@, "/ae:backlog "@ + goal, "--permission-mode"@, "bypassPermissions"@],
            seq!["-p"@, "/ae:analyze"@, "--permission-mode"@, "bypassPermissions"@],
        ]
    } else {
        Seq::empty()
    }
}

/// The views of a list of argument lists.
pub open spec fn argument_lists(v: Seq<Vec<String>>) -> Seq<Seq<Seq<char>>> {
    Seq::new(v.len(), |i: int| views(v[i]@))
}

fn headless_arguments(prompt: String) -> (r: Vec<String>)
    ensures
        views(r@) == seq!["-p"@, prompt@, "--permission-mode"@, "bypassPermissions"@],
{
    let ghost text = prompt@;
    let mut args: Vec<String> = Vec::new();
    args.push("-p".to_owned());
    args.push(prompt);
    args.push("--permission-mode".to_owned());
    args.push("bypassPermissions".to_owned());
    proof {
        assert(views(args@) =~= seq!["-p"@, text, "--permission-mode"@, "bypassPermissions"@]);
    }
    args
}

/// The runs of the agent that discovery makes for a goal.
pub fn ae_invocations(goal: &str, agent_on_path: bool) -> (r: Vec<Vec<String>>)
    ensures
        argument_lists(r@) == ae_arguments(goal@, agent_on_path),
{
    let mut out: Vec<Vec<String>> = Vec::new();
    if agent_on_path {
        let mut prompt = "/ae:backlog ".to_owned();
        prompt.append(goal);
        out.push(headless_arguments(prompt));
        out.push(headless_arguments("/ae:analyze".to_owned()));
    }
    proof {
        assert(argument_lists(out@) =~= ae_arguments(goal@, agent_on_path));
    }
    out
}

/// The frontmatter is what stands between the opening line and the first line after it
/// that begins with `---`, to the character; and a file without either is told which
/// one it lacks.
pub proof fn law_frontmatter_stands_between_its_lines(content: Seq<char>, block: Seq<char>)
    ensures
        frontmatter(content) == Ok::<Seq<char>, FrontmatterError>(block) <==> exists|
            rest: Seq<char>,
        |
            content == "---\n"@ + #[trigger] (block + ("\n---"@ + rest)) && forall|j: int|
                0 <= j < block.len() ==> !occurs_at(block + ("\n---"@ + rest), "\n---"@, j),
        frontmatter(content) == Err::<Seq<char>, FrontmatterError>(FrontmatterError::MissingOpening)
            <==> !has_prefix(content, "---\n"@),
        frontmatter(content) == Err::<Seq<char>, FrontmatterError>(FrontmatterError::MissingClosing)
            <==> has_prefix(content, "---\n"@) && forall|j: int|
            !#[trigger] occurs_at(content.skip(4), "\n---"@, j),
{
    reveal_strlit("---\n");
    reveal_strlit("\n---");
    let opening = "---\n"@;
    let closing = "\n---"@;
    let body = content.skip(4);
    if has_prefix(content, opening) {
        law_affixes_are_parts(content, opening, body);
        if exists|i: int| first_at(body, closing, i) {
            let end = choose|i: int| first_at(body, closing, i);
            assert(first_at(body, closing, end));
            lemma_position_is(body, closing, end);
            assert(occurs_at(body, closing, end));
            if frontmatter(content) == Ok::<Seq<char>, FrontmatterError>(block) {
                let rest = body.skip(end + 4);
                assert(block == body.take(end));
                assert(body =~= block + (closing + rest));
                assert forall|j: int| 0 <= j < block.len() implies !occurs_at(
                    block + (closing + rest),
                    closing,
                    j,
                ) by {}
            }
        } else if exists|j: int| #[trigger] occurs_at(body, closing, j) {
            let j = choose|j: int| #[trigger] occurs_at(body, closing, j);
            lemma_first_occurrence(body, closing, j);
        }
    }
    if exists|rest: Seq<char>|
        content == opening + #[trigger] (block + (closing + rest)) && forall|j: int|
            0 <= j < block.len() ==> !occurs_at(block + (closing + rest), closing, j) {
        let rest = choose|rest: Seq<char>|
            content == opening + #[trigger] (block + (closing + rest)) && forall|j: int|
                0 <= j < block.len() ==> !occurs_at(block + (closing + rest), closing, j);
        let n = block.len() as int;
        let inner = block + (closing + rest);
        law_affixes_are_parts(content, opening, inner);
        assert(body =~= inner);
        assert(inner.subrange(n, n + 4) =~= closing);
        assert(first_at(inner, closing, n));
        lemma_position_is(inner, closing, n);
        assert(inner.take(n) =~= block);
    }
}

proof fn lemma_first_occurrence(s: Seq<char>, pat: Seq<char>, i: int)
    requires
        occurs_at(s, pat, i),
    ensures
        exists|k: int| first_at(s, pat, k),
    decreases i,
{
    if exists|j: int| 0 <= j < i && occurs_at(s, pat, j) {
        let j = choose|j: int| 0 <= j < i && occurs_at(s, pat, j);
        lemma_first_occurrence(s, pat, j);
    } else {
        assert(first_at(s, pat, i));
    }
}

/// The goal reaches the agent as it was given, once, and only where there is an agent
/// to run: then the backlog is made first and the analysis after it.
pub proof fn law_goal_is_handed_on(goal: Seq<char>, other: Seq<char>)
    ensures
        ae_arguments(goal, false).len() == 0,
        ae_arguments(goal, true).len() == 2,
        ae_arguments(goal, true)[0].len() == 4,
        ae_arguments(goal, true)[0][1] == "/ae:backlog "@ + goal,
        ae_arguments(goal, true)[1] == ae_arguments(other, true)[1],
        ae_arguments(goal, true)[1][1] == "/ae:analyze"@,
        ae_arguments(goal, true) == ae_arguments(other, true) ==> goal == other,
{
    let a = ae_arguments(goal, true);
    let b = ae_arguments(other, true);
    if a == b {
        assert(a[0][1] == b[0][1]);
        let p = "/ae:backlog "@;
        assert((p + goal).skip(p.len() as int) =~= goal);
        assert((p + other).skip(p.len() as int) =~= other);
    }
}

/// Paths in the order of their names: one without a name comes before any with one, and
/// of two with names the one whose name comes first in a dictionary, if they differ.
pub proof fn law_sorted_paths_ascend_by_name(paths: Seq<Seq<char>>, i: int, j: int)
    requires
        sorted_by_name(paths),
        0 <= i < j < paths.len(),
    ensures
        path_name(paths[i]) matches Some(x) ==> (path_name(paths[j]) matches Some(y) && (x == y
            || text_lt(x, y))),
{
    assert(!name_before(paths[j], paths[i]));
    if let Some(x) = path_name(paths[i]) {
        if let Some(y) = path_name(paths[j]) {
            law_text_order_total(x, y);
        }
    }
}

/// The paths with one name are those of the list that have it, in its order.
pub proof fn law_paths_of_one_name_are_picked(
    paths: Seq<Seq<char>>,
    name: Option<Seq<char>>,
) -> (at: Seq<int>)
    ensures
        picks(paths, at, with_name(paths, name)),
        forall|i: int|
            0 <= i < paths.len() ==> (#[trigger] at.contains(i) <==> path_name(paths[i]) == name),
{
    lemma_filter_picks(paths, |p: Seq<char>| path_name(p) == name)
}

/// A feature's view tells it whole: features with one view have the same id, directory,
/// dependencies and work state, and a feature is done where its state is the word for
/// it.
pub proof fn law_feature_view_loses_nothing(a: DiscoveredFeature, b: DiscoveredFeature)
    requires
        a@ == b@,
    ensures
        a.id@ == b.id@,
        a.feature_dir@ == b.feature_dir@,
        a.depends_on@.len() == b.depends_on@.len(),
        forall|i: int|
            0 <= i < a.depends_on@.len() ==> (#[trigger] a.depends_on@[i])@ == b.depends_on@[i]@,
        a.work_state is Some <==> b.work_state is Some,
        a.work_state is Some ==> a.work_state->Some_0@ == b.work_state->Some_0@,
        a@.done() <==> a.work_state is Some && a.work_state->Some_0@ == "done"@,
{
    let (x, y) = (a@.depends_on, b@.depends_on);
    assert(x == views(a.depends_on@) && y == views(b.depends_on@));
    assert(x.len() == y.len());
    assert forall|i: int| 0 <= i < a.depends_on@.len() implies (#[trigger] a.depends_on@[i])@
        == b.depends_on@[i]@ by {
        assert(x[i] == a.depends_on@[i]@);
        assert(y[i] == b.depends_on@[i]@);
    }
}

} // verus!
