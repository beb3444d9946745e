//! Slash-separated paths as text: their last component, their parent, joining.

use crate::text::{from_chars, last_index, lemma_last_index, opt_text, rfind_char, to_chars};
use vstd::prelude::*;

verus! {

broadcast use vstd::string::group_string_axioms;

/// A path without the separators and `.` components at its end.
pub open spec fn path_body(p: Seq<char>) -> Seq<char>
    decreases p.len(),
{
    if p.len() > 0 && p.last() == '/' {
        path_body(p.drop_last())
    } else if p.len() >= 2 && p.last() == '.' && p[p.len() - 2] == '/' {
        path_body(p.drop_last())
    } else {
        p
    }
}

/// The last component of a path, unless it is the root, `.` or `..`.
pub open spec fn path_name(p: Seq<char>) -> Option<Seq<char>> {
    let body = path_body(p);
    let name = body.skip(last_index(body, '/') + 1);
    if name.len() == 0 || name == seq!['.'] || name == seq!['.', '.'] {
        None
    } else {
        Some(name)
    }
}

/// The path of the directory that holds `p`; empty for a bare name, `None` for
/// the root and the empty path.
pub open spec fn path_parent(p: Seq<char>) -> Option<Seq<char>> {
    let body = path_body(p);
    let at = last_index(body, '/');
    if body.len() == 0 {
        None
    } else if at < 0 {
        Some(Seq::empty())
    } else if path_body(body.take(at)).len() == 0 {
        Some(seq!['/'])
    } else {
        Some(path_body(body.take(at)))
    }
}

/// `rest` below `base`; an absolute `rest` stands for itself.
pub open spec fn path_join(base: Seq<char>, rest: Seq<char>) -> Seq<char> {
    if rest.len() > 0 && rest[0] == '/' {
        rest
    } else if base.len() == 0 || base.last() == '/' {
        base + rest
    } else {
        base.push('/') + rest
    }
}

fn body_of(chars: &Vec<char>, to: usize) -> (r: usize)
    requires
        to <= chars.len(),
    ensures
        r <= to,
        chars@.take(r as int) == path_body(chars@.take(to as int)),
{
    let mut n: usize = to;
    while n > 0 && (chars[n - 1] == '/' || (n >= 2 && chars[n - 1] == '.' && chars[n - 2] == '/'))
        invariant
            n <= to <= chars.len(),
            path_body(chars@.take(n as int)) == path_body(chars@.take(to as int)),
        decreases n,
    {
        proof {
            assert(chars@.take(n as int).drop_last() =~= chars@.take(n - 1));
        }
        n = n - 1;
    }
    n
}

pub fn file_name(path: &str) -> (r: Option<String>)
    ensures
        opt_text(r) == path_name(path@),
{
    let chars = to_chars(path);
    proof {
        assert(chars@.take(chars.len() as int) =~= path@);
    }
    let n = body_of(&chars, chars.len());
    let mut body = chars;
    body.truncate(n);
    proof {
        assert(body@ =~= path_body(path@));
        lemma_last_index(body@, '/');
    }
    let start: usize = match rfind_char(&body, '/') {
        Some(i) => i + 1,
        None => 0,
    };
    let name = from_chars(&body, start, body.len());
    proof {
        assert(name@ =~= body@.skip(last_index(body@, '/') + 1));
    }
    let len: usize = body.len() - start;
    if len == 0 {
        None
    } else if len == 1 && body[start] == '.' {
        proof {
            assert(name@ =~= seq!['.']);
        }
        None
    } else if len == 2 && body[start] == '.' && body[start + 1] == '.' {
        proof {
            assert(name@ =~= seq!['.', '.']);
        }
        None
    } else {
        proof {
            assert(name@[0] == body@[start as int]);
            assert(seq!['.'][0] == '.' && seq!['.', '.'][0] == '.' && seq!['.', '.'][1] == '.');
            if len == 2 {
                assert(name@[1] == body@[start + 1]);
            }
            assert(name@ != seq!['.']);
            assert(name@ != seq!['.', '.']);
        }
        Some(name)
    }
}

pub fn parent(path: &str) -> (r: Option<String>)
    ensures
        opt_text(r) == path_parent(path@),
{
    let chars = to_chars(path);
    proof {
        assert(chars@.take(chars.len() as int) =~= path@);
    }
    let n = body_of(&chars, chars.len());
    let mut body = chars;
    body.truncate(n);
    proof {
        assert(body@ =~= path_body(path@));
        lemma_last_index(body@, '/');
    }
    if body.len() == 0 {
        return None;
    }
    match rfind_char(&body, '/') {
        None => Some(String::new()),
        Some(at) => {
            let m = body_of(&body, at);
            proof {
                assert(body@.subrange(0, m as int) =~= body@.take(m as int));
            }
            if m == 0 {
                let mut root = String::new();
                root.push('/');
                proof {
                    assert(root@ =~= seq!['/']);
                }
                Some(root)
            } else {
                Some(from_chars(&body, 0, m))
            }
        },
    }
}

pub fn join(base: &str, rest: &str) -> (r: String)
    ensures
        r@ == path_join(base@, rest@),
{
    let tail = to_chars(rest);
    if tail.len() > 0 && tail[0] == '/' {
        return rest.to_owned();
    }
    let head = to_chars(base);
    let mut out = base.to_owned();
    if head.len() > 0 && head[head.len() - 1] != '/' {
        out.push('/');
    }
    out.append(rest);
    out
}

/// The path of the file that is written before it takes the place of `p`.
pub open spec fn tmp_path_of(p: Seq<char>) -> Seq<char> {
    match path_name(p) {
        Some(_) => path_body(p) + seq!['.', 't', 'm', 'p'],
        None => p,
    }
}

pub fn tmp_path(path: &str) -> (r: String)
    ensures
        r@ == tmp_path_of(path@),
{
    match file_name(path) {
        None => path.to_owned(),
        Some(_) => {
            let chars = to_chars(path);
            proof {
                assert(chars@.take(chars.len() as int) =~= path@);
            }
            let n = body_of(&chars, chars.len());
            let mut out = from_chars(&chars, 0, n);
            proof {
                assert(out@ =~= path_body(path@));
                reveal_strlit(".tmp");
                assert(".tmp"@ =~= seq!['.', 't', 'm', 'p']);
            }
            out.append(".tmp");
            out
        },
    }
}

/// Joining a plain name below a directory and taking the last component gives
/// the name back.
pub proof fn law_name_of_join(base: Seq<char>, name: Seq<char>)
    requires
        name.len() > 0,
        name != seq!['.'],
        name != seq!['.', '.'],
        forall|i: int| 0 <= i < name.len() ==> #[trigger] name[i] != '/',
        base.len() > 0,
    ensures
        path_name(path_join(base, name)) == Some(name),
{
    let p = path_join(base, name);
    let k = p.len() - name.len();
    assert(p.skip(k) =~= name);
    assert(p[k - 1] == '/');
    assert(p.last() == name.last());
    if p.last() == '.' && p.len() >= 2 && p[p.len() - 2] == '/' {
        if name.len() >= 2 {
            assert(p[p.len() - 2] == name[name.len() - 2]);
        }
        assert(name =~= seq!['.']);
    }
    assert(path_body(p) == p);
    assert forall|j: int| k - 1 < j < p.len() implies p[j] != '/' by {
        assert(p[j] == name[j - k]);
    }
    crate::text::lemma_last_index_is(p, '/', k - 1);
}

/// Separators and `.` components at the end of a path do not matter for its name nor
/// for its parent.
pub proof fn law_ends_of_a_path_do_not_matter(p: Seq<char>)
    ensures
        path_name(p.push('/')) == path_name(p),
        path_parent(p.push('/')) == path_parent(p),
        path_name(p.push('/').push('.')) == path_name(p),
        path_parent(p.push('/').push('.')) == path_parent(p),
{
    let q = p.push('/');
    assert(q.drop_last() =~= p);
    assert(path_body(q) == path_body(p));
    let r = q.push('.');
    assert(r.drop_last() =~= q);
    assert(r[r.len() - 2] == '/');
    assert(path_body(r) == path_body(q));
}

/// The parent of a name below a directory is the directory.
pub proof fn law_parent_of_join(base: Seq<char>, name: Seq<char>)
    requires
        base.len() > 0,
        base.last() != '/',
        !(base.len() >= 2 && base.last() == '.' && base[base.len() - 2] == '/'),
        name.len() > 0,
        name != seq!['.'],
        forall|i: int| 0 <= i < name.len() ==> #[trigger] name[i] != '/',
    ensures
        path_parent(path_join(base, name)) == Some(base),
{
    let p = path_join(base, name);
    let k = base.len() as int;
    assert(p == base.push('/') + name);
    assert(p.last() == name.last());
    assert(name[name.len() - 1] != '/');
    if p.last() == '.' && p[p.len() - 2] == '/' {
        if name.len() >= 2 {
            assert(p[p.len() - 2] == name[name.len() - 2]);
        }
        assert(name =~= seq!['.']);
    }
    assert(path_body(p) == p);
    assert(p[k] == '/');
    assert forall|j: int| k < j < p.len() implies p[j] != '/' by {
        assert(p[j] == name[j - k - 1]);
    }
    crate::text::lemma_last_index_is(p, '/', k);
    assert(p.take(k) =~= base);
}

/// A path that begins at the root stands for itself wherever it is joined; any other
/// comes after the directory, with a separator between that is not doubled.
pub proof fn law_join_keeps_both_parts(base: Seq<char>, rest: Seq<char>)
    ensures
        rest.len() > 0 && rest[0] == '/' ==> path_join(base, rest) == rest,
        !(rest.len() > 0 && rest[0] == '/') ==> {
            &&& path_join(base, rest).take(base.len() as int) == base
            &&& path_join(base, rest).skip(path_join(base, rest).len() - rest.len()) == rest
            &&& path_join(base, rest).len() <= base.len() + 1 + rest.len()
            &&& base.len() == 0 ==> path_join(base, rest) == rest
            &&& base.len() > 0 ==> path_join(base, rest)[path_join(base, rest).len() - rest.len()
                - 1] == '/'
            &&& base.len() > 0 && base.last() == '/' ==> path_join(base, rest).len() == base.len()
                + rest.len()
        },
{
    let p = path_join(base, rest);
    if !(rest.len() > 0 && rest[0] == '/') {
        assert(p.take(base.len() as int) =~= base);
        assert(p.skip(p.len() - rest.len()) =~= rest);
        if base.len() == 0 {
            assert(p =~= rest);
        }
    }
}

/// A path without a name has no place beside it.
pub proof fn law_nameless_path_has_no_tmp_file(p: Seq<char>)
    requires
        path_name(p) is None,
    ensures
        tmp_path_of(p) == p,
{
}

/// The file that is written first lies beside the one whose place it takes, under that
/// one's name with `.tmp` after it, and so is never the same.
pub proof fn law_tmp_file_lies_beside(p: Seq<char>)
    requires
        path_name(p) is Some,
    ensures
        path_name(tmp_path_of(p)) == Some(path_name(p)->Some_0 + ".tmp"@),
        path_parent(tmp_path_of(p)) == path_parent(p),
        tmp_path_of(p) != p,
{
    reveal_strlit(".tmp");
    let body = path_body(p);
    let q = tmp_path_of(p);
    let ext = seq!['.', 't', 'm', 'p'];
    assert(".tmp"@ =~= ext);
    assert(q.last() == 'p');
    assert(path_body(q) == q);
    let at = last_index(body, '/');
    lemma_last_index(body, '/');
    assert forall|j: int| at < j < q.len() implies q[j] != '/' by {
        if j < body.len() {
            assert(q[j] == body[j]);
        } else {
            assert(q[j] == ext[j - body.len()]);
        }
    }
    if at >= 0 {
        assert(q[at] == body[at]);
        assert(q.take(at) =~= body.take(at));
    }
    crate::text::lemma_last_index_is(q, '/', at);
    let name = body.skip(at + 1);
    assert(q.skip(at + 1) =~= name + ext);
    assert(path_name(p) == Some(name));
    assert((name + ext).len() > 2);
    if q == p {
        assert(path_body(p) == p);
        assert(q.len() == p.len() + 4);
    }
}

/// A plain name is its own last component, in the directory that it is looked up in.
/// The empty path, the root and a path that ends in `..` have no name.
pub proof fn law_plain_names_name_themselves(name: Seq<char>, base: Seq<char>)
    requires
        forall|i: int| 0 <= i < name.len() ==> #[trigger] name[i] != '/',
    ensures
        name.len() > 0 && name != seq!['.'] && name != seq!['.', '.'] ==> path_name(name) == Some(
            name,
        ),
        name.len() > 0 ==> path_parent(name) == Some(Seq::<char>::empty()),
        path_name(Seq::empty()) is None,
        path_parent(Seq::empty()) is None,
        path_name(seq!['/']) is None,
        path_parent(seq!['/']) is None,
        path_name(base + seq!['/', '.', '.']) is None,
{
    if name.len() > 0 {
        assert(name[name.len() - 1] != '/');
        if name.len() >= 2 {
            assert(name[name.len() - 2] != '/');
        }
        assert(path_body(name) == name);
        crate::text::lemma_last_index_is(name, '/', -1);
        assert(name.skip(0) =~= name);
    }
    let none = Seq::<char>::empty();
    assert(path_body(none) == none);
    assert(none.skip(0) =~= none);
    let root = seq!['/'];
    assert(root.drop_last() =~= none);
    assert(path_body(root) == path_body(none));
    let up = base + seq!['/', '.', '.'];
    let k = base.len() as int;
    assert(up.last() == '.' && up[up.len() - 2] == '.');
    assert(path_body(up) == up);
    assert(up[k] == '/');
    crate::text::lemma_last_index_is(up, '/', k);
    assert(up.skip(k + 1) =~= seq!['.', '.']);
}

/// What is doubled between a directory and a name, a separator or one with a `.` before
/// it, does not matter; and what lies in the root has the root for its parent.
pub proof fn law_doubled_separators_do_not_matter(base: Seq<char>, name: Seq<char>)
    requires
        name.len() > 0,
        name != seq!['.'],
        forall|i: int| 0 <= i < name.len() ==> #[trigger] name[i] != '/',
    ensures
        path_name(base.push('/').push('/') + name) == path_name(base.push('/') + name),
        path_parent(base.push('/').push('/') + name) == path_parent(base.push('/') + name),
        path_name(base.push('/').push('.').push('/') + name) == path_name(base.push('/') + name),
        path_parent(base.push('/').push('.').push('/') + name) == path_parent(
            base.push('/') + name,
        ),
        path_parent(seq!['/'] + name) == Some(seq!['/']),
{
    let a = base.push('/');
    let b = a.push('.');
    lemma_below(base, name);
    lemma_below(a, name);
    lemma_below(b, name);
    assert(a.drop_last() =~= base);
    assert(path_body(a) == path_body(base));
    assert(b.drop_last() =~= a);
    assert(b[b.len() - 2] == '/');
    assert(path_body(b) == path_body(a));
    let none = Seq::<char>::empty();
    lemma_below(none, name);
    assert(none.push('/') =~= seq!['/']);
    assert(path_body(none) == none);
}

proof fn lemma_below(base: Seq<char>, name: Seq<char>)
    requires
        name.len() > 0,
        name != seq!['.'],
        forall|i: int| 0 <= i < name.len() ==> #[trigger] name[i] != '/',
    ensures
        path_name(base.push('/') + name) == (if name == seq!['.', '.'] {
            None
        } else {
            Some(name)
        }),
        path_parent(base.push('/') + name) == Some(
            if path_body(base).len() == 0 {
                seq!['/']
            } else {
                path_body(base)
            },
        ),
{
    let p = base.push('/') + name;
    let k = base.len() as int;
    assert(p.last() == name.last());
    assert(name[name.len() - 1] != '/');
    if p.last() == '.' && p[p.len() - 2] == '/' {
        if name.len() >= 2 {
            assert(p[p.len() - 2] == name[name.len() - 2]);
        }
        assert(name =~= seq!['.']);
    }
    assert(path_body(p) == p);
    assert(p[k] == '/');
    assert forall|j: int| k < j < p.len() implies p[j] != '/' by {
        assert(p[j] == name[j - k - 1]);
    }
    crate::text::lemma_last_index_is(p, '/', k);
    assert(p.take(k) =~= base);
    assert(p.skip(k + 1) =~= name);
}

} // verus!
