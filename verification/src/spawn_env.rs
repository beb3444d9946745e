//! The search path of a worker: without the places where it would find `loom`.

use crate::order::picks;
use crate::paths::{join, path_join};
use crate::text::{lemma_split_not_empty, opt_text, same_text, split_char, split_on, views};
use vstd::prelude::*;

verus! {

broadcast use vstd::string::group_string_axioms;

/// Texts joined with `c` between them.
pub open spec fn joined(parts: Seq<Seq<char>>, c: char) -> Seq<char>
    decreases parts.len(),
{
    if parts.len() == 0 {
        Seq::empty()
    } else if parts.len() == 1 {
        parts[0]
    } else {
        joined(parts.drop_last(), c).push(c) + parts.last()
    }
}

fn join_texts(parts: &Vec<String>, c: char) -> (r: String)
    ensures
        r@ == joined(views(parts@), c),
{
    let ghost all = views(parts@);
    let mut out = String::new();
    let mut i: usize = 0;
    while i < parts.len()
        invariant
            all == views(parts@),
            i <= parts.len(),
            out@ == joined(all.take(i as int), c),
        decreases parts.len() - i,
    {
        let ghost before = out@;
        proof {
            assert(all.take(i + 1).drop_last() =~= all.take(i as int));
            assert(all.take(i + 1).last() == parts@[i as int]@);
        }
        if i > 0 {
            out.push(c);
        }
        out.append(&parts[i]);
        proof {
            if i == 0 {
                assert(out@ =~= all.take(1)[0]);
            }
        }
        i = i + 1;
    }
    proof {
        assert(all.take(i as int) =~= all);
    }
    out
}

/// Where `loom` would be in each segment of a search path.
pub fn probe_paths(path: &str) -> (r: Vec<String>)
    ensures
        views(r@) == Seq::new(
            split_on(path@, ':').len(),
            |i: int| path_join(split_on(path@, ':')[i], "loom"@),
        ),
{
    let segments = split_char(path, ':');
    let ghost all = views(segments@);
    let mut out: Vec<String> = Vec::new();
    let mut i: usize = 0;
    while i < segments.len()
        invariant
            all == views(segments@),
            i <= segments.len(),
            out@.len() == i,
            forall|j: int| 0 <= j < i ==> (#[trigger] out@[j])@ == path_join(all[j], "loom"@),
        decreases segments.len() - i,
    {
        proof {
            assert(all[i as int] == segments@[i as int]@);
        }
        out.push(join(&segments[i], "loom"));
        i = i + 1;
    }
    proof {
        assert(views(out@) =~= Seq::new(
            split_on(path@, ':').len(),
            |i: int| path_join(split_on(path@, ':')[i], "loom"@),
        ));
    }
    out
}

/// The first `n` segments without those in which `loom` was found. `found` holds the
/// canonical path of the file named `loom` in each segment, if there is one.
pub open spec fn kept_segments(
    segments: Seq<Seq<char>>,
    found: Seq<Option<String>>,
    loom: Seq<char>,
    n: int,
) -> Seq<Seq<char>>
    decreases n,
{
    if n <= 0 {
        Seq::empty()
    } else {
        let before = kept_segments(segments, found, loom, n - 1);
        if opt_text(found[n - 1]) == Some(loom) {
            before
        } else {
            before.push(segments[n - 1])
        }
    }
}

/// The search path of a worker. Where `loom`'s own canonical path is not known,
/// the path stays as it is.
pub open spec fn scrubbed(
    path: Seq<char>,
    loom: Option<Seq<char>>,
    found: Seq<Option<String>>,
) -> Seq<char> {
    match loom {
        None => path,
        Some(l) => joined(
            kept_segments(split_on(path, ':'), found, l, split_on(path, ':').len() as int),
            ':',
        ),
    }
}

/// Takes out of a search path the segments in which `loom` itself would be found.
pub fn apply_scrubbed_path(
    path: &str,
    loom: &Option<String>,
    found: &Vec<Option<String>>,
) -> (r: String)
    requires
        loom is Some ==> found@.len() == split_on(path@, ':').len(),
    ensures
        r@ == scrubbed(path@, opt_text(*loom), found@),
{
    let own = match loom {
        Some(l) => l,
        None => {
            return path.to_owned();
        },
    };
    let segments = split_char(path, ':');
    let ghost all = views(segments@);
    let mut kept: Vec<String> = Vec::new();
    let mut i: usize = 0;
    proof {
        assert(views(kept@) =~= kept_segments(all, found@, own@, 0));
    }
    while i < segments.len()
        invariant
            all == views(segments@),
            found@.len() == all.len(),
            i <= segments.len(),
            views(kept@) == kept_segments(all, found@, own@, i as int),
        decreases segments.len() - i,
    {
        let ghost before = views(kept@);
        let segment = &segments[i];
        proof {
            assert(all[i as int] == segments@[i as int]@);
        }
        let ours = match &found[i] {
            Some(p) => same_text(p, own),
            None => false,
        };
        if !ours {
            kept.push(segment.clone());
            proof {
                assert(views(kept@) =~= before.push(segment@));
            }
        }
        i = i + 1;
    }
    join_texts(&kept, ':')
}

/// What is kept is a segment of the path that does not hold `loom`.
pub proof fn law_kept_segments_do_not_reach_loom(
    segments: Seq<Seq<char>>,
    found: Seq<Option<String>>,
    loom: Seq<char>,
    n: int,
    k: int,
)
    requires
        0 <= n <= segments.len(),
        0 <= k < kept_segments(segments, found, loom, n).len(),
    ensures
        exists|i: int|
            0 <= i < n && #[trigger] segments[i] == kept_segments(segments, found, loom, n)[k]
                && opt_text(found[i]) != Some(loom),
    decreases n,
{
    if n > 0 {
        let before = kept_segments(segments, found, loom, n - 1);
        if k < before.len() {
            law_kept_segments_do_not_reach_loom(segments, found, loom, n - 1, k);
            let i = choose|i: int|
                0 <= i < n - 1 && #[trigger] segments[i] == before[k] && opt_text(found[i]) != Some(
                    loom,
                );
            assert(segments[i] == kept_segments(segments, found, loom, n)[k]);
        } else {
            assert(segments[n - 1] == kept_segments(segments, found, loom, n)[k]);
        }
    }
}

/// A segment that does not hold `loom` is not lost, so that other tools stay
/// within reach.
pub proof fn law_other_segments_stay(
    segments: Seq<Seq<char>>,
    found: Seq<Option<String>>,
    loom: Seq<char>,
    n: int,
    i: int,
)
    requires
        0 <= i < n <= segments.len(),
        opt_text(found[i]) != Some(loom),
    ensures
        kept_segments(segments, found, loom, n).contains(segments[i]),
    decreases n,
{
    let all = kept_segments(segments, found, loom, n);
    let before = kept_segments(segments, found, loom, n - 1);
    if i < n - 1 {
        law_other_segments_stay(segments, found, loom, n - 1, i);
        let k = choose|k: int| 0 <= k < before.len() && before[k] == segments[i];
        assert(all[k] == segments[i]);
    } else {
        assert(all[before.len() as int] == segments[i]);
    }
}

proof fn lemma_pieces_hold_no_separator(s: Seq<char>, c: char, k: int, i: int)
    requires
        0 <= k < split_on(s, c).len(),
        0 <= i < split_on(s, c)[k].len(),
    ensures
        split_on(s, c)[k][i] != c,
    decreases s.len(),
{
    if s.len() > 0 {
        let before = split_on(s.drop_last(), c);
        lemma_split_not_empty(s.drop_last(), c);
        if k < before.len() - 1 {
            lemma_pieces_hold_no_separator(s.drop_last(), c, k, i);
        } else if s.last() == c {
            if k == before.len() - 1 {
                lemma_pieces_hold_no_separator(s.drop_last(), c, k, i);
            }
        } else if i < before.last().len() {
            lemma_pieces_hold_no_separator(s.drop_last(), c, before.len() - 1, i);
        }
    }
}

proof fn lemma_split_grows(s: Seq<char>, t: Seq<char>, c: char)
    requires
        forall|i: int| 0 <= i < t.len() ==> #[trigger] t[i] != c,
    ensures
        split_on(s + t, c) == split_on(s, c).drop_last().push(split_on(s, c).last() + t),
    decreases t.len(),
{
    lemma_split_not_empty(s, c);
    let p = split_on(s, c);
    if t.len() == 0 {
        assert(s + t =~= s);
        assert(p.last() + t =~= p.last());
        assert(p.drop_last().push(p.last()) =~= p);
    } else {
        let u = t.drop_last();
        assert forall|i: int| 0 <= i < u.len() implies #[trigger] u[i] != c by {
            assert(u[i] == t[i]);
        }
        lemma_split_grows(s, u, c);
        assert((s + t).drop_last() =~= s + u);
        assert((s + t).last() == t.last());
        assert(t.last() == t[t.len() - 1]);
        let q = split_on(s + u, c);
        assert(q.drop_last() =~= p.drop_last());
        assert((p.last() + u).push(t.last()) =~= p.last() + t);
    }
}

/// Segments that are joined into a search path are the segments that the path has.
pub proof fn law_joined_path_splits_back(parts: Seq<Seq<char>>, c: char)
    requires
        parts.len() > 0,
        forall|k: int, i: int|
            0 <= k < parts.len() && 0 <= i < parts[k].len() ==> (#[trigger] parts[k][i]) != c,
    ensures
        split_on(joined(parts, c), c) == parts,
    decreases parts.len(),
{
    let last = parts.last();
    assert forall|i: int| 0 <= i < last.len() implies #[trigger] last[i] != c by {
        assert(parts[parts.len() - 1][i] != c);
    }
    if parts.len() == 1 {
        lemma_split_grows(Seq::empty(), last, c);
        assert(Seq::<char>::empty() + last =~= last);
        assert(split_on(last, c) =~= parts);
    } else {
        let t = parts.drop_last();
        assert forall|k: int, i: int| 0 <= k < t.len() && 0 <= i < t[k].len() implies (
        #[trigger] t[k][i]) != c by {
            assert(parts[k][i] != c);
        }
        law_joined_path_splits_back(t, c);
        let head = joined(t, c).push(c);
        assert(head.drop_last() =~= joined(t, c));
        assert(split_on(head, c) == t.push(Seq::empty()));
        lemma_split_grows(head, last, c);
        assert(split_on(head, c).drop_last() =~= t);
        assert(split_on(head, c).last() + last =~= last);
        assert(split_on(joined(parts, c), c) =~= parts);
    }
}

/// What a worker's search path is made of: exactly the kept segments, unless none
/// was kept.
pub proof fn law_scrubbed_path_has_kept_segments(
    path: Seq<char>,
    loom: Seq<char>,
    found: Seq<Option<String>>,
)
    requires
        kept_segments(split_on(path, ':'), found, loom, split_on(path, ':').len() as int).len() > 0,
    ensures
        split_on(scrubbed(path, Some(loom), found), ':') == kept_segments(
            split_on(path, ':'),
            found,
            loom,
            split_on(path, ':').len() as int,
        ),
{
    let segments = split_on(path, ':');
    let n = segments.len() as int;
    let kept = kept_segments(segments, found, loom, n);
    assert forall|k: int, i: int| 0 <= k < kept.len() && 0 <= i < kept[k].len() implies (
    #[trigger] kept[k][i]) != ':' by {
        law_kept_segments_do_not_reach_loom(segments, found, loom, n, k);
        let m = choose|m: int|
            0 <= m < n && #[trigger] segments[m] == kept[k] && opt_text(found[m]) != Some(loom);
        lemma_pieces_hold_no_separator(path, ':', m, i);
    }
    law_joined_path_splits_back(kept, ':');
}

proof fn lemma_split_joins_back(s: Seq<char>, c: char)
    ensures
        joined(split_on(s, c), c) == s,
    decreases s.len(),
{
    let parts = split_on(s, c);
    if s.len() == 0 {
        assert(joined(parts, c) =~= s);
    } else {
        let t = s.drop_last();
        let before = split_on(t, c);
        lemma_split_joins_back(t, c);
        lemma_split_not_empty(t, c);
        assert(t.push(s.last()) =~= s);
        if s.last() == c {
            assert(parts.drop_last() =~= before);
            assert(joined(parts, c) =~= s);
        } else if before.len() == 1 {
            assert(before.last() == before[0]);
            assert(parts.len() == 1);
            assert(joined(parts, c) =~= s);
        } else {
            assert(parts.drop_last() =~= before.drop_last());
            assert(joined(parts, c) =~= s);
        }
    }
}

proof fn lemma_all_kept(
    segments: Seq<Seq<char>>,
    found: Seq<Option<String>>,
    loom: Seq<char>,
    n: int,
)
    requires
        0 <= n <= segments.len(),
        forall|i: int| 0 <= i < n ==> opt_text(#[trigger] found[i]) != Some(loom),
    ensures
        kept_segments(segments, found, loom, n) == segments.take(n),
    decreases n,
{
    if n > 0 {
        lemma_all_kept(segments, found, loom, n - 1);
        assert(opt_text(found[n - 1]) != Some(loom));
        assert(segments.take(n - 1).push(segments[n - 1]) =~= segments.take(n));
    }
}

/// A search path that does not reach `loom` stays as it is, to the letter.
pub proof fn law_path_without_loom_stays(
    path: Seq<char>,
    loom: Seq<char>,
    found: Seq<Option<String>>,
)
    requires
        forall|i: int|
            0 <= i < split_on(path, ':').len() ==> opt_text(#[trigger] found[i]) != Some(loom),
    ensures
        scrubbed(path, Some(loom), found) == path,
{
    let segments = split_on(path, ':');
    lemma_all_kept(segments, found, loom, segments.len() as int);
    assert(segments.take(segments.len() as int) =~= segments);
    lemma_split_joins_back(path, ':');
}

/// The segments that are kept stand in the order that they had, each as often as it was
/// there: those in which `loom` was not found, and no others. `at` says which ones.
pub proof fn law_kept_segments_keep_their_order(
    segments: Seq<Seq<char>>,
    found: Seq<Option<String>>,
    loom: Seq<char>,
    n: int,
) -> (at: Seq<int>)
    requires
        0 <= n <= segments.len(),
    ensures
        picks(segments.take(n), at, kept_segments(segments, found, loom, n)),
        forall|i: int|
            0 <= i < n ==> (#[trigger] at.contains(i) <==> !(found[i] matches Some(p) && p@
                == loom)),
    decreases n,
{
    if n == 0 {
        Seq::empty()
    } else {
        let before = law_kept_segments_keep_their_order(segments, found, loom, n - 1);
        let kept = opt_text(found[n - 1]) != Some(loom);
        let at = if kept {
            before.push(n - 1)
        } else {
            before
        };
        let all = segments.take(n);
        let out = kept_segments(segments, found, loom, n);
        assert forall|k: int| 0 <= k < at.len() implies 0 <= #[trigger] at[k] < all.len() && out[k]
            == all[at[k]] by {
            if k < before.len() {
                assert(at[k] == before[k]);
                assert(segments.take(n - 1)[before[k]] == all[at[k]]);
            }
        }
        assert forall|i: int| 0 <= i < n implies (#[trigger] at.contains(i) <==> !(
        found[i] matches Some(p) && p@ == loom)) by {
            if i < n - 1 {
                if before.contains(i) {
                    let k = before.index_of(i);
                    assert(at[k] == i);
                }
                if at.contains(i) {
                    let k = at.index_of(i);
                    assert(before[k] == i);
                }
            } else if kept {
                assert(at[before.len() as int] == i);
            } else if at.contains(i) {
                let k = at.index_of(i);
                assert(before[k] < n - 1);
            }
        }
        at
    }
}

/// Where it is not known which program `loom` is, the search path stays as it is. Where
/// `loom` was found in every segment, nothing is left of it.
pub proof fn law_all_or_nothing_of_the_path(
    path: Seq<char>,
    loom: Seq<char>,
    found: Seq<Option<String>>,
)
    ensures
        scrubbed(path, None, found) == path,
        (forall|i: int|
            0 <= i < split_on(path, ':').len() ==> (#[trigger] found[i] matches Some(p) && p@
                == loom)) ==> scrubbed(path, Some(loom), found).len() == 0,
{
    let segments = split_on(path, ':');
    let n = segments.len() as int;
    if forall|i: int| 0 <= i < n ==> (#[trigger] found[i] matches Some(p) && p@ == loom) {
        let at = law_kept_segments_keep_their_order(segments, found, loom, n);
        if at.len() > 0 {
            assert(at.contains(at[0]));
            assert(found[at[0]] matches Some(p) && p@ == loom);
        }
    }
}

/// The segments of a search path are what stands between its separators: none of them
/// holds one, and put together again they are the path.
pub proof fn law_segments_make_up_the_path(path: Seq<char>, c: char)
    ensures
        split_on(path, c).len() > 0,
        joined(split_on(path, c), c) == path,
        forall|k: int, i: int|
            0 <= k < split_on(path, c).len() && 0 <= i < split_on(path, c)[k].len() ==> (
            #[trigger] split_on(path, c)[k][i]) != c,
{
    lemma_split_not_empty(path, c);
    lemma_split_joins_back(path, c);
    assert forall|k: int, i: int|
        0 <= k < split_on(path, c).len() && 0 <= i < split_on(path, c)[k].len() implies (
    #[trigger] split_on(path, c)[k][i]) != c by {
        lemma_pieces_hold_no_separator(path, c, k, i);
    }
}

} // verus!
