//! Text as a sequence of characters: comparison, search, splitting, trimming.

use vstd::prelude::*;

verus! {

broadcast use vstd::string::group_string_axioms;

/// The views of a sequence of values, in order.
pub open spec fn views<T: View>(s: Seq<T>) -> Seq<T::V> {
    Seq::new(s.len(), |i: int| s[i]@)
}

/// Views are taken item by item, so appending commutes with taking views.
pub broadcast proof fn lemma_views_push<T: View>(s: Seq<T>, x: T)
    ensures
        #[trigger] views(s.push(x)) == views(s).push(x@),
{
    assert(views(s.push(x)) =~= views(s).push(x@));
}

/// Claims of `String::push` what its documentation says: the character is
/// appended at the end and nothing else changes.
pub assume_specification[ String::push ](s: &mut String, c: char)
    ensures
        final(s)@ == old(s)@.push(c),
;

/// Whether Unicode gives a character the property `White_Space`.
pub open spec fn white_space(c: char) -> bool {
    let n = c as int;
    ||| 0x9 <= n <= 0xd
    ||| n == 0x20
    ||| n == 0x85
    ||| n == 0xa0
    ||| n == 0x1680
    ||| 0x2000 <= n <= 0x200a
    ||| n == 0x2028
    ||| n == 0x2029
    ||| n == 0x202f
    ||| n == 0x205f
    ||| n == 0x3000
}

/// Claims of `char::is_whitespace` what its documentation says: it tells whether the
/// character has the Unicode property `White_Space`.
pub assume_specification[ char::is_whitespace ](c: char) -> (r: bool)
    ensures
        r == white_space(c),
;

/// The characters of `s`.
pub fn to_chars(s: &str) -> (r: Vec<char>)
    ensures
        r@ == s@,
{
    let mut out: Vec<char> = Vec::new();
    for c in it: s.chars()
        invariant
            it.seq() == s@,
            out@ == s@.take(it.index()),
    {
        out.push(c);
        proof {
            assert(s@.take(it.index() + 1) =~= s@.take(it.index()).push(c));
        }
    }
    proof {
        assert(s@.take(s@.len() as int) =~= s@);
    }
    out
}

/// The characters `from..to` of `chars` as text.
pub fn from_chars(chars: &Vec<char>, from: usize, to: usize) -> (r: String)
    requires
        from <= to <= chars.len(),
    ensures
        r@ == chars@.subrange(from as int, to as int),
{
    let mut out = String::new();
    let mut i: usize = from;
    while i < to
        invariant
            from <= i <= to <= chars.len(),
            out@ == chars@.subrange(from as int, i as int),
        decreases to - i,
    {
        out.push(chars[i]);
        i = i + 1;
        proof {
            assert(chars@.subrange(from as int, i as int) =~= chars@.subrange(
                from as int,
                i - 1,
            ).push(chars@[i - 1]));
        }
    }
    out
}

/// Whether two texts hold the same characters.
pub fn same_text(a: &str, b: &str) -> (r: bool)
    ensures
        r == (a@ == b@),
{
    a.to_owned() == b.to_owned()
}

/// Whether `pat` stands in `s` at position `i`.
pub open spec fn occurs_at(s: Seq<char>, pat: Seq<char>, i: int) -> bool {
    0 <= i && i + pat.len() <= s.len() && s.subrange(i, i + pat.len()) == pat
}

/// Whether `s` begins with `pat`.
pub open spec fn has_prefix(s: Seq<char>, pat: Seq<char>) -> bool {
    occurs_at(s, pat, 0)
}

/// Whether `s` ends with `pat`.
pub open spec fn has_suffix(s: Seq<char>, pat: Seq<char>) -> bool {
    occurs_at(s, pat, s.len() - pat.len())
}

fn matches_at(chars: &Vec<char>, pat: &Vec<char>, at: usize) -> (r: bool)
    requires
        at <= chars.len(),
    ensures
        r == occurs_at(chars@, pat@, at as int),
{
    if chars.len() - at < pat.len() {
        return false;
    }
    let mut k: usize = 0;
    while k < pat.len()
        invariant
            at <= chars.len(),
            k <= pat.len(),
            at + pat.len() <= chars.len(),
            forall|j: int| 0 <= j < k ==> chars@[at + j] == pat@[j],
        decreases pat.len() - k,
    {
        if chars[at + k] != pat[k] {
            proof {
                assert(chars@.subrange(at as int, at + pat@.len())[k as int] != pat@[k as int]);
            }
            return false;
        }
        k = k + 1;
    }
    proof {
        assert(chars@.subrange(at as int, at + pat@.len()) =~= pat@);
    }
    true
}

/// Whether `pat` stands in `s` at position `i` and nowhere before.
pub open spec fn first_at(s: Seq<char>, pat: Seq<char>, i: int) -> bool {
    occurs_at(s, pat, i) && forall|j: int| 0 <= j < i ==> !occurs_at(s, pat, j)
}

/// Position of the first occurrence of `pat` in `s`.
pub open spec fn position_of(s: Seq<char>, pat: Seq<char>) -> Option<int> {
    if exists|i: int| first_at(s, pat, i) {
        Some(choose|i: int| first_at(s, pat, i))
    } else {
        None
    }
}

/// A position at which `pat` stands first is its position.
pub proof fn lemma_position_is(s: Seq<char>, pat: Seq<char>, i: int)
    requires
        first_at(s, pat, i),
    ensures
        position_of(s, pat) == Some(i),
{
    let j = choose|j: int| first_at(s, pat, j);
    assert(first_at(s, pat, j));
    if j < i {
        assert(occurs_at(s, pat, j));
    } else if i < j {
        assert(occurs_at(s, pat, i));
    }
}

/// Position of the first occurrence of `pat` in `chars`.
pub fn find(chars: &Vec<char>, pat: &Vec<char>) -> (r: Option<usize>)
    ensures
        match r {
            Some(i) => position_of(chars@, pat@) == Some(i as int) && i + pat.len() <= chars.len(),
            None => position_of(chars@, pat@) is None,
        },
{
    let mut i: usize = 0;
    while i < chars.len()
        invariant
            i <= chars.len(),
            forall|j: int| 0 <= j < i ==> !occurs_at(chars@, pat@, j),
        decreases chars.len() - i,
    {
        if matches_at(chars, pat, i) {
            proof {
                lemma_position_is(chars@, pat@, i as int);
            }
            return Some(i);
        }
        i = i + 1;
    }
    if matches_at(chars, pat, i) {
        proof {
            lemma_position_is(chars@, pat@, i as int);
        }
        Some(i)
    } else {
        None
    }
}

/// What follows `prefix` in `s`, if `s` begins with it.
pub open spec fn after_prefix(s: Seq<char>, prefix: Seq<char>) -> Option<Seq<char>> {
    if has_prefix(s, prefix) {
        Some(s.skip(prefix.len() as int))
    } else {
        None
    }
}

/// What precedes `suffix` in `s`, if `s` ends with it.
pub open spec fn before_suffix(s: Seq<char>, suffix: Seq<char>) -> Option<Seq<char>> {
    if has_suffix(s, suffix) {
        Some(s.take(s.len() - suffix.len()))
    } else {
        None
    }
}

/// The view of an optional text.
pub open spec fn opt_text(o: Option<String>) -> Option<Seq<char>> {
    match o {
        Some(s) => Some(s@),
        None => None,
    }
}

pub fn strip_prefix(s: &str, prefix: &str) -> (r: Option<String>)
    ensures
        opt_text(r) == after_prefix(s@, prefix@),
{
    let chars = to_chars(s);
    let pat = to_chars(prefix);
    if matches_at(&chars, &pat, 0) {
        Some(from_chars(&chars, pat.len(), chars.len()))
    } else {
        None
    }
}

pub fn strip_suffix(s: &str, suffix: &str) -> (r: Option<String>)
    ensures
        opt_text(r) == before_suffix(s@, suffix@),
{
    let chars = to_chars(s);
    let pat = to_chars(suffix);
    if pat.len() <= chars.len() && matches_at(&chars, &pat, chars.len() - pat.len()) {
        Some(from_chars(&chars, 0, chars.len() - pat.len()))
    } else {
        None
    }
}

/// Position of the last `c` in `s`, or -1.
pub open spec fn last_index(s: Seq<char>, c: char) -> int
    decreases s.len(),
{
    if s.len() == 0 {
        -1
    } else if s.last() == c {
        s.len() - 1
    } else {
        last_index(s.drop_last(), c)
    }
}

/// `last_index` is where the last `c` stands: none follows it.
pub proof fn lemma_last_index(s: Seq<char>, c: char)
    ensures
        -1 <= last_index(s, c) < s.len(),
        last_index(s, c) >= 0 ==> s[last_index(s, c)] == c,
        forall|j: int| last_index(s, c) < j < s.len() ==> s[j] != c,
    decreases s.len(),
{
    if s.len() > 0 && s.last() != c {
        lemma_last_index(s.drop_last(), c);
        assert forall|j: int| last_index(s, c) < j < s.len() implies s[j] != c by {
            if j < s.len() - 1 {
                assert(s.drop_last()[j] == s[j]);
            }
        }
    }
}

/// A position that holds `c`, with none after it, is `last_index`.
pub proof fn lemma_last_index_is(s: Seq<char>, c: char, i: int)
    requires
        -1 <= i < s.len(),
        i >= 0 ==> s[i] == c,
        forall|j: int| i < j < s.len() ==> s[j] != c,
    ensures
        last_index(s, c) == i,
{
    lemma_last_index(s, c);
}

/// Position of the last `c` in `chars`.
pub fn rfind_char(chars: &Vec<char>, c: char) -> (r: Option<usize>)
    ensures
        match r {
            Some(i) => last_index(chars@, c) == i,
            None => last_index(chars@, c) == -1,
        },
{
    let mut n: usize = chars.len();
    while n > 0
        invariant
            n <= chars.len(),
            forall|j: int| n <= j < chars.len() ==> chars@[j] != c,
        decreases n,
    {
        if chars[n - 1] == c {
            proof {
                lemma_last_index_is(chars@, c, n - 1);
            }
            return Some(n - 1);
        }
        n = n - 1;
    }
    proof {
        lemma_last_index_is(chars@, c, -1);
    }
    None
}

/// The pieces of `s` between the occurrences of `c`.
pub open spec fn split_on(s: Seq<char>, c: char) -> Seq<Seq<char>>
    decreases s.len(),
{
    if s.len() == 0 {
        seq![Seq::empty()]
    } else {
        let before = split_on(s.drop_last(), c);
        if s.last() == c {
            before.push(Seq::empty())
        } else {
            before.drop_last().push(before.last().push(s.last()))
        }
    }
}

/// A text has at least one piece.
pub proof fn lemma_split_not_empty(s: Seq<char>, c: char)
    ensures
        split_on(s, c).len() > 0,
    decreases s.len(),
{
    if s.len() > 0 {
        lemma_split_not_empty(s.drop_last(), c);
    }
}

/// After a separator a new piece begins.
pub proof fn lemma_split_piece(a: Seq<char>, piece: Seq<char>, c: char)
    requires
        forall|i: int| 0 <= i < piece.len() ==> #[trigger] piece[i] != c,
    ensures
        split_on(a.push(c) + piece, c) == split_on(a, c).push(piece),
    decreases piece.len(),
{
    let s = a.push(c) + piece;
    lemma_split_not_empty(a, c);
    if piece.len() == 0 {
        assert(s =~= a.push(c));
        assert(s.drop_last() =~= a);
        assert(piece =~= Seq::empty());
    } else {
        let shorter = piece.drop_last();
        assert forall|i: int| 0 <= i < shorter.len() implies #[trigger] shorter[i] != c by {
            assert(shorter[i] == piece[i]);
        }
        lemma_split_piece(a, shorter, c);
        assert(s.drop_last() =~= a.push(c) + shorter);
        assert(s.last() == piece.last() && piece.last() == piece[piece.len() - 1]);
        assert(shorter.push(piece.last()) =~= piece);
        assert(split_on(a, c).push(shorter).drop_last() =~= split_on(a, c));
    }
}

/// A text without the separator is one piece.
pub proof fn lemma_split_whole(s: Seq<char>, c: char)
    requires
        forall|i: int| 0 <= i < s.len() ==> #[trigger] s[i] != c,
    ensures
        split_on(s, c) == seq![s],
    decreases s.len(),
{
    if s.len() > 0 {
        let shorter = s.drop_last();
        assert forall|i: int| 0 <= i < shorter.len() implies #[trigger] shorter[i] != c by {
            assert(shorter[i] == s[i]);
        }
        lemma_split_whole(shorter, c);
        assert(s.last() == s[s.len() - 1]);
        assert(shorter.push(s.last()) =~= s);
        assert(split_on(s, c) =~= seq![s]);
    } else {
        assert(s =~= Seq::empty());
        assert(split_on(s, c) =~= seq![s]);
    }
}

pub fn split_char(s: &str, c: char) -> (r: Vec<String>)
    ensures
        views(r@) == split_on(s@, c),
{
    let chars = to_chars(s);
    let mut out: Vec<String> = Vec::new();
    let mut current = String::new();
    let mut i: usize = 0;
    proof {
        assert(views(out@).push(current@) =~= split_on(chars@.take(0), c));
    }
    while i < chars.len()
        invariant
            i <= chars.len(),
            views(out@).push(current@) == split_on(chars@.take(i as int), c),
        decreases chars.len() - i,
    {
        let ghost before = views(out@).push(current@);
        let ghost piece = current@;
        let ghost whole = chars@.take(i + 1);
        proof {
            assert(whole.drop_last() =~= chars@.take(i as int));
            assert(before.drop_last() =~= views(out@));
        }
        if chars[i] == c {
            out.push(current);
            current = String::new();
            proof {
                assert(views(out@) =~= before);
            }
        } else {
            current.push(chars[i]);
        }
        i = i + 1;
    }
    proof {
        assert(chars@.take(i as int) =~= s@);
    }
    let ghost before = views(out@).push(current@);
    out.push(current);
    proof {
        assert(views(out@) =~= before);
    }
    out
}

/// `s` without the whitespace at its start.
pub open spec fn trim_start_spec(s: Seq<char>) -> Seq<char>
    decreases s.len(),
{
    if s.len() > 0 && white_space(s[0]) {
        trim_start_spec(s.skip(1))
    } else {
        s
    }
}

/// `s` without the whitespace at its end.
pub open spec fn trim_end_spec(s: Seq<char>) -> Seq<char>
    decreases s.len(),
{
    if s.len() > 0 && white_space(s.last()) {
        trim_end_spec(s.drop_last())
    } else {
        s
    }
}

/// `s` without the whitespace around it.
pub open spec fn trimmed(s: Seq<char>) -> Seq<char> {
    trim_end_spec(trim_start_spec(s))
}

pub fn trim_end(s: &str) -> (r: String)
    ensures
        r@ == trim_end_spec(s@),
{
    let chars = to_chars(s);
    let mut to: usize = chars.len();
    proof {
        assert(chars@.take(to as int) =~= s@);
    }
    while to > 0 && chars[to - 1].is_whitespace()
        invariant
            to <= chars.len(),
            trim_end_spec(chars@.take(to as int)) == trim_end_spec(s@),
        decreases to,
    {
        proof {
            assert(chars@.take(to as int).drop_last() =~= chars@.take(to - 1));
        }
        to = to - 1;
    }
    from_chars(&chars, 0, to)
}

pub fn trim(s: &str) -> (r: String)
    ensures
        r@ == trimmed(s@),
{
    let chars = to_chars(s);
    let mut from: usize = 0;
    proof {
        assert(chars@.skip(0) =~= s@);
    }
    while from < chars.len() && chars[from].is_whitespace()
        invariant
            from <= chars.len(),
            trim_start_spec(chars@.skip(from as int)) == trim_start_spec(s@),
        decreases chars.len() - from,
    {
        proof {
            assert(chars@.skip(from as int).skip(1) =~= chars@.skip(from + 1));
        }
        from = from + 1;
    }
    let rest = from_chars(&chars, from, chars.len());
    proof {
        assert(rest@ =~= chars@.skip(from as int));
    }
    trim_end(&rest)
}

/// Whether the first `c` of `s` stands at position `i`.
pub open spec fn split_first(s: Seq<char>, c: char, i: int) -> bool {
    0 <= i < s.len() && s[i] == c && forall|j: int| 0 <= j < i ==> s[j] != c
}

/// The texts before and after the first `c` of `s`.
pub open spec fn parted(s: Seq<char>, c: char) -> Option<(Seq<char>, Seq<char>)> {
    if exists|i: int| split_first(s, c, i) {
        let i = choose|i: int| split_first(s, c, i);
        Some((s.take(i), s.skip(i + 1)))
    } else {
        None
    }
}

pub fn split_once(s: &str, c: char) -> (r: Option<(String, String)>)
    ensures
        match r {
            Some((a, b)) => parted(s@, c) == Some((a@, b@)),
            None => parted(s@, c) is None,
        },
{
    let chars = to_chars(s);
    let mut i: usize = 0;
    while i < chars.len()
        invariant
            i <= chars.len(),
            chars@ == s@,
            forall|j: int| 0 <= j < i ==> s@[j] != c,
        decreases chars.len() - i,
    {
        if chars[i] == c {
            let a = from_chars(&chars, 0, i);
            let b = from_chars(&chars, i + 1, chars.len());
            proof {
                assert(split_first(s@, c, i as int));
                let k = choose|k: int| split_first(s@, c, k);
                assert(k == i);
                assert(a@ =~= s@.take(i as int));
                assert(b@ =~= s@.skip(i + 1));
            }
            return Some((a, b));
        }
        i = i + 1;
    }
    None
}

/// Whether `pat` stands in `s` at position `i` and nowhere after.
pub open spec fn last_at(s: Seq<char>, pat: Seq<char>, i: int) -> bool {
    occurs_at(s, pat, i) && forall|j: int| i < j ==> !occurs_at(s, pat, j)
}

/// The text after the last occurrence of `pat` in `s`.
pub open spec fn after_last(s: Seq<char>, pat: Seq<char>) -> Option<Seq<char>> {
    if exists|i: int| last_at(s, pat, i) {
        let i = choose|i: int| last_at(s, pat, i);
        Some(s.skip(i + pat.len()))
    } else {
        None
    }
}

pub fn rest_after_last(s: &str, pat: &str) -> (r: Option<String>)
    requires
        pat@.len() > 0,
    ensures
        opt_text(r) == after_last(s@, pat@),
{
    let chars = to_chars(s);
    let needle = to_chars(pat);
    let mut n: usize = chars.len();
    proof {
        assert forall|j: int| n <= j implies !occurs_at(s@, pat@, j) by {}
    }
    while n > 0
        invariant
            n <= chars.len(),
            chars@ == s@,
            needle@ == pat@,
            needle.len() > 0,
            forall|j: int| n <= j ==> !occurs_at(s@, pat@, j),
        decreases n,
    {
        if matches_at(&chars, &needle, n - 1) {
            let rest = from_chars(&chars, n - 1 + needle.len(), chars.len());
            proof {
                assert(last_at(s@, pat@, n - 1));
                let k = choose|k: int| last_at(s@, pat@, k);
                assert(k == n - 1);
                assert(rest@ =~= s@.skip(n - 1 + pat@.len()));
            }
            return Some(rest);
        }
        n = n - 1;
    }
    None
}

/// A text begins with another, and has this after it, exactly where it is the two in
/// turn; and so for its end.
pub proof fn law_affixes_are_parts(s: Seq<char>, affix: Seq<char>, rest: Seq<char>)
    ensures
        after_prefix(s, affix) == Some(rest) <==> s == affix + rest,
        before_suffix(s, affix) == Some(rest) <==> s == rest + affix,
{
    let n = affix.len() as int;
    if after_prefix(s, affix) == Some(rest) {
        assert(s =~= affix + rest);
    }
    if s == affix + rest {
        assert(s.subrange(0, n) =~= affix);
        assert(s.skip(n) =~= rest);
    }
    let m = s.len() - n;
    if before_suffix(s, affix) == Some(rest) {
        assert(s =~= rest + s.subrange(m, s.len() as int));
    }
    if s == rest + affix {
        assert(s.subrange(m, m + n) =~= affix);
        assert(s.take(m) =~= rest);
    }
}

proof fn lemma_trim_start(s: Seq<char>) -> (from: int)
    ensures
        0 <= from <= s.len(),
        trim_start_spec(s) == s.skip(from),
        forall|i: int| 0 <= i < from ==> white_space(#[trigger] s[i]),
        from < s.len() ==> !white_space(s[from]),
    decreases s.len(),
{
    if s.len() > 0 && white_space(s[0]) {
        let t = s.skip(1);
        let k = lemma_trim_start(t);
        assert(t.skip(k) =~= s.skip(k + 1));
        assert forall|i: int| 0 <= i < k + 1 implies white_space(#[trigger] s[i]) by {
            if i > 0 {
                assert(t[i - 1] == s[i]);
            }
        }
        if k + 1 < s.len() {
            assert(t[k] == s[k + 1]);
        }
        k + 1
    } else {
        assert(s.skip(0) =~= s);
        0
    }
}

proof fn lemma_trim_end(s: Seq<char>) -> (to: int)
    ensures
        0 <= to <= s.len(),
        trim_end_spec(s) == s.take(to),
        forall|i: int| to <= i < s.len() ==> white_space(#[trigger] s[i]),
        0 < to ==> !white_space(s[to - 1]),
    decreases s.len(),
{
    if s.len() > 0 && white_space(s.last()) {
        let t = s.drop_last();
        let k = lemma_trim_end(t);
        assert(t.take(k) =~= s.take(k));
        assert forall|i: int| k <= i < s.len() implies white_space(#[trigger] s[i]) by {
            if i < t.len() {
                assert(t[i] == s[i]);
            }
        }
        k
    } else {
        assert(s.take(s.len() as int) =~= s);
        s.len() as int
    }
}

/// Trimming takes whitespace away, at the two ends of a text, and all of it there: what
/// stays is the part from the first to the last character that is none.
pub proof fn law_trimming_takes_white_space_only(s: Seq<char>) -> (part: (int, int))
    ensures
        0 <= part.0 <= part.1 <= s.len(),
        trimmed(s) == s.subrange(part.0, part.1),
        forall|i: int| 0 <= i < part.0 ==> white_space(#[trigger] s[i]),
        forall|i: int| part.1 <= i < s.len() ==> white_space(#[trigger] s[i]),
        part.0 < part.1 ==> !white_space(s[part.0]) && !white_space(s[part.1 - 1]),
{
    let from = lemma_trim_start(s);
    let t = s.skip(from);
    let k = lemma_trim_end(t);
    let to = from + k;
    assert(t.take(k) =~= s.subrange(from, to));
    assert forall|i: int| to <= i < s.len() implies white_space(#[trigger] s[i]) by {
        assert(t[i - from] == s[i]);
    }
    if k > 0 {
        assert(t[k - 1] == s[to - 1]);
    }
    (from, to)
}

/// A text without whitespace at its ends is left as it is.
pub proof fn law_trimmed_text_stays(s: Seq<char>)
    requires
        s.len() > 0 ==> !white_space(s[0]) && !white_space(s.last()),
    ensures
        trimmed(s) == s,
{
}

/// A text is parted at the first separator and nowhere else, into what stands before it
/// and all that follows; one without a separator is not.
pub proof fn law_parted_at_the_first(s: Seq<char>, c: char, a: Seq<char>, b: Seq<char>)
    ensures
        parted(s, c) == Some((a, b)) <==> s == a.push(c) + b && forall|i: int|
            0 <= i < a.len() ==> #[trigger] a[i] != c,
        parted(s, c) is None <==> forall|i: int| 0 <= i < s.len() ==> #[trigger] s[i] != c,
{
    if exists|i: int| split_first(s, c, i) {
        let i = choose|i: int| split_first(s, c, i);
        assert(split_first(s, c, i));
        assert(s =~= s.take(i).push(c) + s.skip(i + 1));
        assert forall|k: int| 0 <= k < i implies #[trigger] s.take(i)[k] != c by {
            assert(s[k] != c);
        }
        if s == a.push(c) + b && (forall|k: int| 0 <= k < a.len() ==> #[trigger] a[k] != c) {
            let n = a.len() as int;
            assert(s[n] == c);
            if n < i {
                assert(s[n] != c);
            }
            if i < n {
                assert(s[i] == a[i]);
            }
            assert(s.take(i) =~= a);
            assert(s.skip(i + 1) =~= b);
        }
    } else {
        if exists|i: int| 0 <= i < s.len() && s[i] == c {
            let i = choose|i: int| 0 <= i < s.len() && s[i] == c;
            lemma_first_separator(s, c, i);
        }
        if s == a.push(c) + b {
            assert(s[a.len() as int] == c);
        }
    }
}

proof fn lemma_first_separator(s: Seq<char>, c: char, i: int)
    requires
        0 <= i < s.len(),
        s[i] == c,
    ensures
        exists|k: int| split_first(s, c, k),
    decreases i,
{
    if exists|j: int| 0 <= j < i && s[j] == c {
        let j = choose|j: int| 0 <= j < i && s[j] == c;
        lemma_first_separator(s, c, j);
    } else {
        assert(split_first(s, c, i));
    }
}

/// What follows the last occurrence of a pattern is found, wherever that stands.
pub proof fn law_rest_after_the_last(a: Seq<char>, pat: Seq<char>, b: Seq<char>)
    requires
        forall|j: int| a.len() < j ==> !occurs_at(a + pat + b, pat, j),
    ensures
        after_last(a + pat + b, pat) == Some(b),
{
    let s = a + pat + b;
    let n = a.len() as int;
    assert(s.subrange(n, n + pat.len()) =~= pat);
    assert(last_at(s, pat, n));
    let i = choose|i: int| last_at(s, pat, i);
    assert(last_at(s, pat, i));
    if i < n {
        assert(!occurs_at(s, pat, n));
    } else if n < i {
        assert(!occurs_at(s, pat, i));
    }
    assert(s.skip(n + pat.len()) =~= b);
}

/// Views are taken item by item, in order.
pub proof fn law_views_are_taken_one_by_one<T: View>(s: Seq<T>, i: int)
    requires
        0 <= i < s.len(),
    ensures
        views(s).len() == s.len(),
        views(s)[i] == s[i]@,
{
}

} // verus!
