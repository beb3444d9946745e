//! Reading back what is written as JSON: the text of a value determines the value.

use crate::decimal::{decimal, digits_value, hex_digit, is_digit, law_decimal_reads_back};
use crate::state::{
    colon, comma_after, deeper, escaped, escaped_char, is_ordered, is_valid_json,
    law_string_literal_reads_back, law_valid_value_is_ordered, lemma_char_is_code_point,
    lemma_escaped_from_front, line_break, quoted, rendered, rendered_items, rendered_members,
    unescaped, Json, JsonView,
};
use crate::text::has_prefix;
use vstd::prelude::*;

verus! {

/// Whether a character may stand between the parts of a JSON text.
pub open spec fn is_json_space(c: char) -> bool {
    c == ' ' || c == '\n' || c == '\r' || c == '\t'
}

/// What follows the space at the start of a text, where space is allowed.
pub open spec fn after_space(s: Seq<char>, spaced: bool) -> Seq<char>
    decreases s.len(),
{
    if spaced && s.len() > 0 && is_json_space(s[0]) {
        after_space(s.skip(1), spaced)
    } else {
        s
    }
}

/// Where the quote stands that ends a string literal, in what follows its first quote.
pub open spec fn literal_end(s: Seq<char>) -> Option<int>
    decreases s.len(),
{
    if s.len() == 0 {
        None
    } else if s[0] == '"' {
        Some(0)
    } else if s[0] == '\\' {
        if s.len() == 1 {
            None
        } else {
            match literal_end(s.skip(2)) {
                Some(n) => Some(n + 2),
                None => None,
            }
        }
    } else {
        match literal_end(s.skip(1)) {
            Some(n) => Some(n + 1),
            None => None,
        }
    }
}

/// The text of the string literal whose first quote is before `s`, and what follows.
pub open spec fn read_string(s: Seq<char>) -> Option<(Seq<char>, Seq<char>)> {
    match literal_end(s) {
        Some(n) => match unescaped(s.take(n)) {
            Some(text) => Some((text, s.skip(n + 1))),
            None => None,
        },
        None => None,
    }
}

/// How many digits a text begins with.
pub open spec fn digit_run(s: Seq<char>) -> nat
    decreases s.len(),
{
    if s.len() > 0 && is_digit(s[0]) {
        1 + digit_run(s.skip(1))
    } else {
        0
    }
}

/// The number that a text begins with, and what follows. More than one digit does not
/// begin with 0.
pub open spec fn read_digits(s: Seq<char>) -> Option<(nat, Seq<char>)> {
    let n = digit_run(s) as int;
    if n == 0 || (n > 1 && s[0] == '0') {
        None
    } else {
        Some((digits_value(s.take(n)), s.skip(n)))
    }
}

/// The value that a JSON text of whole numbers begins with, and what follows. Space
/// between its parts is allowed if `spaced` says so. That what follows is not longer
/// than the text is tested only to show that the reading ends.
pub open spec fn read_value(s: Seq<char>, spaced: bool) -> Option<(JsonView, Seq<char>)>
    decreases s.len(), 0int,
{
    let t = after_space(s, spaced);
    if t.len() == 0 || t.len() > s.len() {
        None
    } else if t[0] == '"' {
        match read_string(t.skip(1)) {
            Some((text, rest)) => Some((JsonView::Str(text), rest)),
            None => None,
        }
    } else if t[0] == '[' {
        let inner = after_space(t.skip(1), spaced);
        if inner.len() > 0 && inner[0] == ']' {
            Some((JsonView::Array(Seq::empty()), inner.skip(1)))
        } else {
            match read_items(t.skip(1), spaced) {
                Some((items, rest)) => Some((JsonView::Array(items), rest)),
                None => None,
            }
        }
    } else if t[0] == '{' {
        let inner = after_space(t.skip(1), spaced);
        if inner.len() > 0 && inner[0] == '}' {
            Some((JsonView::Object(Seq::empty()), inner.skip(1)))
        } else {
            match read_members(t.skip(1), spaced) {
                Some((members, rest)) => Some((JsonView::Object(members), rest)),
                None => None,
            }
        }
    } else if t[0] == '-' {
        match read_digits(t.skip(1)) {
            Some((n, rest)) => Some((JsonView::Int(-(n as int)), rest)),
            None => None,
        }
    } else if has_prefix(t, "null"@) {
        Some((JsonView::Null, t.skip(4)))
    } else if has_prefix(t, "true"@) {
        Some((JsonView::Bool(true), t.skip(4)))
    } else if has_prefix(t, "false"@) {
        Some((JsonView::Bool(false), t.skip(5)))
    } else {
        match read_digits(t) {
            Some((n, rest)) => Some((JsonView::Int(n as int), rest)),
            None => None,
        }
    }
}

/// The items of an array, of which there is at least one, up to its closing bracket,
/// and what follows that.
pub open spec fn read_items(s: Seq<char>, spaced: bool) -> Option<(Seq<JsonView>, Seq<char>)>
    decreases s.len(), 1int,
{
    match read_value(s, spaced) {
        None => None,
        Some((item, rest)) => {
            let t = after_space(rest, spaced);
            if t.len() == 0 || t.len() > s.len() {
                None
            } else if t[0] == ']' {
                Some((seq![item], t.skip(1)))
            } else if t[0] == ',' {
                match read_items(t.skip(1), spaced) {
                    Some((items, end)) => Some((seq![item] + items, end)),
                    None => None,
                }
            } else {
                None
            }
        },
    }
}

/// The members of an object, of which there is at least one, up to its closing brace,
/// and what follows that.
pub open spec fn read_members(s: Seq<char>, spaced: bool) -> Option<
    (Seq<(Seq<char>, JsonView)>, Seq<char>),
>
    decreases s.len(), 1int,
{
    let t = after_space(s, spaced);
    if t.len() == 0 || t[0] != '"' {
        None
    } else {
        match read_string(t.skip(1)) {
            None => None,
            Some((name, r)) => {
                let u = after_space(r, spaced);
                if u.len() == 0 || u[0] != ':' || u.len() > s.len() {
                    None
                } else {
                    match read_value(u.skip(1), spaced) {
                        None => None,
                        Some((value, rest)) => {
                            let w = after_space(rest, spaced);
                            if w.len() == 0 || w.len() > s.len() {
                                None
                            } else if w[0] == '}' {
                                Some((seq![(name, value)], w.skip(1)))
                            } else if w[0] == ',' {
                                match read_members(w.skip(1), spaced) {
                                    Some((members, end)) => Some(
                                        (seq![(name, value)] + members, end),
                                    ),
                                    None => None,
                                }
                            } else {
                                None
                            }
                        },
                    }
                }
            },
        }
    }
}

/// The value that a whole text is as JSON.
pub open spec fn read_back(text: Seq<char>, spaced: bool) -> Option<JsonView> {
    match read_value(text, spaced) {
        Some((v, rest)) => if after_space(rest, spaced).len() == 0 {
            Some(v)
        } else {
            None
        },
        None => None,
    }
}

/// Whether a text is space that a reader passes over.
spec fn is_passed_over(s: Seq<char>, spaced: bool) -> bool {
    (s.len() > 0 ==> spaced) && forall|i: int| 0 <= i < s.len() ==> is_json_space(#[trigger] s[i])
}

proof fn lemma_after_space(space: Seq<char>, s: Seq<char>, spaced: bool)
    requires
        is_passed_over(space, spaced),
        s.len() > 0,
        !is_json_space(s[0]),
    ensures
        after_space(space + s, spaced) == s,
    decreases space.len(),
{
    if space.len() == 0 {
        assert(space + s =~= s);
    } else {
        assert((space + s)[0] == space[0]);
        assert((space + s).skip(1) =~= space.skip(1) + s);
        assert forall|i: int| 0 <= i < space.skip(1).len() implies is_json_space(
            #[trigger] space.skip(1)[i],
        ) by {
            assert(space.skip(1)[i] == space[i + 1]);
        }
        lemma_after_space(space.skip(1), s, spaced);
    }
}

/// Whether a text is an escape, or a character that needs none.
pub open spec fn is_escape(e: Seq<char>) -> bool {
    ||| e.len() == 1 && e[0] != '"' && e[0] != '\\'
    ||| e.len() == 2 && e[0] == '\\'
    ||| {
        &&& e.len() == 6
        &&& e[0] == '\\'
        &&& forall|i: int| 2 <= i < 6 ==> #[trigger] e[i] != '"' && e[i] != '\\'
    }
}

/// An escape does not end a string literal.
pub proof fn lemma_end_of_escape(e: Seq<char>, s: Seq<char>)
    requires
        is_escape(e),
    ensures
        literal_end(e + s) == (match literal_end(s) {
            Some(n) => Some(n + e.len()),
            None => None,
        }),
{
    let t = e + s;
    assert(forall|i: int| 0 <= i < e.len() ==> t[i] == e[i]);
    if e.len() == 1 {
        assert(t.skip(1) =~= s);
    } else if e.len() == 2 {
        assert(t.skip(2) =~= s);
    } else {
        let t2 = t.skip(2);
        let t3 = t2.skip(1);
        let t4 = t3.skip(1);
        let t5 = t4.skip(1);
        assert(t5.skip(1) =~= s);
        assert(t2[0] == e[2] && t3[0] == e[3] && t4[0] == e[4] && t5[0] == e[5]);
        assert(literal_end(t5) == (match literal_end(s) {
            Some(n) => Some(n + 1),
            None => None,
        }));
        assert(literal_end(t4) == (match literal_end(s) {
            Some(n) => Some(n + 2),
            None => None,
        }));
        assert(literal_end(t3) == (match literal_end(s) {
            Some(n) => Some(n + 3),
            None => None,
        }));
        assert(literal_end(t2) == (match literal_end(s) {
            Some(n) => Some(n + 4),
            None => None,
        }));
        assert(literal_end(t) == (match literal_end(t2) {
            Some(n) => Some(n + 2),
            None => None,
        }));
    }
}

proof fn lemma_char_is_escape(c: char)
    ensures
        is_escape(escaped_char(c)),
{
    let e = escaped_char(c);
    lemma_char_is_code_point(c);
    if e.len() == 6 {
        assert(e[4] == hex_digit(c as int / 16) && e[5] == hex_digit(c as int % 16));
    }
}

proof fn lemma_literal_end(text: Seq<char>, rest: Seq<char>)
    ensures
        literal_end(escaped(text) + seq!['"'] + rest) == Some(escaped(text).len() as int),
    decreases text.len(),
{
    let after = escaped(text) + seq!['"'] + rest;
    if text.len() == 0 {
        assert(after[0] == '"');
    } else {
        let t = text.skip(1);
        lemma_escaped_from_front(text);
        lemma_literal_end(t, rest);
        lemma_char_is_escape(text[0]);
        lemma_end_of_escape(escaped_char(text[0]), escaped(t) + seq!['"'] + rest);
        assert(after =~= escaped_char(text[0]) + (escaped(t) + seq!['"'] + rest));
    }
}

proof fn lemma_read_string(text: Seq<char>, rest: Seq<char>)
    ensures
        (quoted(text) + rest)[0] == '"',
        read_string((quoted(text) + rest).skip(1)) == Some((text, rest)),
{
    let s = (quoted(text) + rest).skip(1);
    let n = escaped(text).len() as int;
    lemma_literal_end(text, rest);
    assert(s =~= escaped(text) + seq!['"'] + rest);
    assert(s.take(n) =~= escaped(text));
    assert(s.skip(n + 1) =~= rest);
    law_string_literal_reads_back(text);
}

/// Whether a number that stands before `rest` ends there.
pub open spec fn ends_number(rest: Seq<char>) -> bool {
    rest.len() > 0 ==> !is_digit(rest[0])
}

proof fn lemma_digit_run(digits: Seq<char>, rest: Seq<char>)
    requires
        forall|i: int| 0 <= i < digits.len() ==> is_digit(#[trigger] digits[i]),
        ends_number(rest),
    ensures
        digit_run(digits + rest) == digits.len(),
    decreases digits.len(),
{
    let s = digits + rest;
    if digits.len() == 0 {
        assert(s =~= rest);
    } else {
        let t = digits.skip(1);
        assert(s[0] == digits[0]);
        assert(s.skip(1) =~= t + rest);
        assert forall|i: int| 0 <= i < t.len() implies is_digit(#[trigger] t[i]) by {
            assert(t[i] == digits[i + 1]);
        }
        lemma_digit_run(t, rest);
    }
}

proof fn lemma_no_leading_zero(n: nat)
    requires
        n > 0,
    ensures
        decimal(n)[0] != '0',
    decreases n,
{
    law_decimal_reads_back(n);
    if n >= 10 {
        lemma_no_leading_zero(n / 10);
        law_decimal_reads_back(n / 10);
        assert(decimal(n)[0] == decimal(n / 10)[0]);
    }
}

/// A number reads back from its digits.
pub proof fn lemma_read_digits(n: nat, rest: Seq<char>)
    requires
        ends_number(rest),
    ensures
        read_digits(decimal(n) + rest) == Some((n, rest)),
        is_digit((decimal(n) + rest)[0]),
{
    let d = decimal(n);
    law_decimal_reads_back(n);
    lemma_digit_run(d, rest);
    assert((d + rest).take(d.len() as int) =~= d);
    assert((d + rest).skip(d.len() as int) =~= rest);
    assert((d + rest)[0] == d[0]);
    if n > 0 {
        lemma_no_leading_zero(n);
    }
}

/// What may begin a value.
spec fn begins_value(c: char) -> bool {
    is_digit(c) || c == '-' || c == '"' || c == '[' || c == '{' || c == 'n' || c == 't' || c == 'f'
}

proof fn lemma_value_begins(v: JsonView, indent: Seq<char>, pretty: bool)
    ensures
        rendered(v, indent, pretty).len() > 0,
        begins_value(rendered(v, indent, pretty)[0]),
{
    reveal_strlit("null");
    reveal_strlit("true");
    reveal_strlit("false");
    if let JsonView::Int(n) = v {
        if n >= 0 {
            law_decimal_reads_back(n as nat);
        }
    }
}

/// The items of an array from the `k`-th on, as they are written.
spec fn items_from(items: Seq<JsonView>, k: int, indent: Seq<char>, pretty: bool) -> Seq<char>
    decreases items.len() - k,
{
    if k >= items.len() {
        Seq::empty()
    } else {
        comma_after(k as nat) + line_break(indent, pretty) + rendered(items[k], indent, pretty)
            + items_from(items, k + 1, indent, pretty)
    }
}

proof fn lemma_items_from(items: Seq<JsonView>, k: int, indent: Seq<char>, pretty: bool)
    requires
        0 <= k <= items.len(),
    ensures
        rendered_items(items.take(k), indent, pretty) + items_from(items, k, indent, pretty)
            == rendered_items(items, indent, pretty),
    decreases items.len() - k,
{
    if k == items.len() {
        assert(items.take(k) =~= items);
        assert(rendered_items(items, indent, pretty) + Seq::<char>::empty() =~= rendered_items(
            items,
            indent,
            pretty,
        ));
    } else {
        lemma_items_from(items, k + 1, indent, pretty);
        let t = items.take(k + 1);
        assert(t.drop_last() =~= items.take(k));
        assert(t.last() == items[k]);
        assert(rendered_items(items.take(k), indent, pretty) + items_from(items, k, indent, pretty)
            =~= rendered_items(t, indent, pretty) + items_from(items, k + 1, indent, pretty));
    }
}

/// The members of an object from the `k`-th on, as they are written.
spec fn members_from(
    members: Seq<(Seq<char>, JsonView)>,
    k: int,
    indent: Seq<char>,
    pretty: bool,
) -> Seq<char>
    decreases members.len() - k,
{
    if k >= members.len() {
        Seq::empty()
    } else {
        comma_after(k as nat) + line_break(indent, pretty) + quoted(members[k].0) + colon(pretty)
            + rendered(members[k].1, indent, pretty) + members_from(members, k + 1, indent, pretty)
    }
}

proof fn lemma_members_from(
    members: Seq<(Seq<char>, JsonView)>,
    k: int,
    indent: Seq<char>,
    pretty: bool,
)
    requires
        0 <= k <= members.len(),
    ensures
        rendered_members(members.take(k), indent, pretty) + members_from(members, k, indent, pretty)
            == rendered_members(members, indent, pretty),
    decreases members.len() - k,
{
    if k == members.len() {
        assert(members.take(k) =~= members);
        assert(rendered_members(members, indent, pretty) + Seq::<char>::empty()
            =~= rendered_members(members, indent, pretty));
    } else {
        lemma_members_from(members, k + 1, indent, pretty);
        let t = members.take(k + 1);
        assert(t.drop_last() =~= members.take(k));
        assert(t.last() == members[k]);
        assert(rendered_members(members.take(k), indent, pretty) + members_from(
            members,
            k,
            indent,
            pretty,
        ) =~= rendered_members(t, indent, pretty) + members_from(members, k + 1, indent, pretty));
    }
}

/// What is read of items that begin with an item that was read.
spec fn after_item(item: JsonView, rest: Seq<char>, spaced: bool) -> Option<
    (Seq<JsonView>, Seq<char>),
> {
    let t = after_space(rest, spaced);
    if t.len() == 0 {
        None
    } else if t[0] == ']' {
        Some((seq![item], t.skip(1)))
    } else if t[0] == ',' {
        match read_items(t.skip(1), spaced) {
            Some((items, end)) => Some((seq![item] + items, end)),
            None => None,
        }
    } else {
        None
    }
}

proof fn lemma_read_item(s: Seq<char>, item: JsonView, rest: Seq<char>, spaced: bool)
    requires
        read_value(s, spaced) == Some((item, rest)),
        rest.len() <= s.len(),
    ensures
        read_items(s, spaced) == after_item(item, rest, spaced),
{
    lemma_after_space_len(rest, spaced);
}

proof fn lemma_after_item_next(
    item: JsonView,
    next: Seq<char>,
    spaced: bool,
    items: Seq<JsonView>,
    rest: Seq<char>,
)
    requires
        read_items(next, spaced) == Some((items, rest)),
    ensures
        after_item(item, seq![','] + next, spaced) == Some((seq![item] + items, rest)),
{
    let more = seq![','] + next;
    lemma_after_space(Seq::empty(), more, spaced);
    assert(Seq::<char>::empty() + more =~= more);
    assert(more.skip(1) =~= next);
}

proof fn lemma_after_item_last(item: JsonView, close: Seq<char>, spaced: bool, rest: Seq<char>)
    requires
        is_passed_over(close, spaced),
    ensures
        after_item(item, close + seq![']'] + rest, spaced) == Some((seq![item], rest)),
        ends_number(close + seq![']'] + rest),
{
    let last = seq![']'] + rest;
    let end = close + seq![']'] + rest;
    assert(end =~= close + last);
    lemma_after_space(close, last, spaced);
    assert(last.skip(1) =~= rest);
    if close.len() > 0 {
        assert(end[0] == close[0]);
    }
}

/// The items from the `k`-th on, with what follows them, as they are read.
spec fn items_form(
    items: Seq<JsonView>,
    k: int,
    indent: Seq<char>,
    pretty: bool,
    end: Seq<char>,
) -> Seq<char> {
    line_break(indent, pretty) + rendered(items[k], indent, pretty) + (items_from(
        items,
        k + 1,
        indent,
        pretty,
    ) + end)
}

proof fn lemma_items_form(
    items: Seq<JsonView>,
    k: int,
    indent: Seq<char>,
    pretty: bool,
    end: Seq<char>,
)
    requires
        0 <= k < items.len(),
    ensures
        items_from(items, k, indent, pretty) + end == comma_after(k as nat) + items_form(
            items,
            k,
            indent,
            pretty,
            end,
        ),
{
    assert(items_from(items, k, indent, pretty) + end =~= comma_after(k as nat) + items_form(
        items,
        k,
        indent,
        pretty,
        end,
    ));
}

#[verifier::spinoff_prover]
#[verifier::rlimit(30)]
proof fn lemma_read_items(
    items: Seq<JsonView>,
    k: int,
    indent: Seq<char>,
    close: Seq<char>,
    pretty: bool,
    rest: Seq<char>,
)
    requires
        0 <= k < items.len(),
        is_passed_over(indent, true),
        is_passed_over(close, pretty),
    ensures
        read_items(
            items_form(items, k, indent, pretty, close + seq![']'] + rest),
            pretty,
        ) == Some((items.skip(k), rest)),
    decreases items, items.len() - k,
{
    let first = line_break(indent, pretty);
    let tail = items_from(items, k + 1, indent, pretty);
    let end = close + seq![']'] + rest;
    let more = tail + end;
    assert(is_passed_over(first, pretty));
    assert(decreases_to!(items => items[k]));
    if k + 1 < items.len() {
        lemma_items_form(items, k + 1, indent, pretty, end);
        lemma_read_items(items, k + 1, indent, close, pretty, rest);
        lemma_after_item_next(
            items[k],
            items_form(items, k + 1, indent, pretty, end),
            pretty,
            items.skip(k + 1),
            rest,
        );
        assert(seq![items[k]] + items.skip(k + 1) =~= items.skip(k));
        assert(more[0] == ',');
    } else {
        assert(more =~= end);
        lemma_after_item_last(items[k], close, pretty, rest);
        assert(seq![items[k]] =~= items.skip(k));
    }
    lemma_read_value(first, items[k], indent, pretty, more);
    lemma_read_item(
        first + rendered(items[k], indent, pretty) + more,
        items[k],
        more,
        pretty,
    );
}

/// The space between a colon and a value.
spec fn after_colon(pretty: bool) -> Seq<char> {
    if pretty {
        seq![' ']
    } else {
        Seq::empty()
    }
}

proof fn lemma_after_colon(text: Seq<char>, rest: Seq<char>, pretty: bool)
    ensures
        (colon(pretty) + text + rest).skip(1) == after_colon(pretty) + text + rest,
{
    assert((colon(pretty) + text + rest).skip(1) =~= after_colon(pretty) + text + rest);
}

/// What is read of members that begin with a member whose value was read.
pub open spec fn after_member(
    name: Seq<char>,
    value: JsonView,
    rest: Seq<char>,
    spaced: bool,
) -> Option<(Seq<(Seq<char>, JsonView)>, Seq<char>)> {
    let w = after_space(rest, spaced);
    if w.len() == 0 {
        None
    } else if w[0] == '}' {
        Some((seq![(name, value)], w.skip(1)))
    } else if w[0] == ',' {
        match read_members(w.skip(1), spaced) {
            Some((members, end)) => Some((seq![(name, value)] + members, end)),
            None => None,
        }
    } else {
        None
    }
}

/// Passing over space does not lengthen a text.
pub proof fn lemma_after_space_len(s: Seq<char>, spaced: bool)
    ensures
        after_space(s, spaced).len() <= s.len(),
    decreases s.len(),
{
    if spaced && s.len() > 0 && is_json_space(s[0]) {
        lemma_after_space_len(s.skip(1), spaced);
    }
}

proof fn lemma_read_member(
    first: Seq<char>,
    name: Seq<char>,
    text: Seq<char>,
    value: JsonView,
    pretty: bool,
    rest: Seq<char>,
)
    requires
        is_passed_over(first, pretty),
        read_value((colon(pretty) + text + rest).skip(1), pretty) == Some((value, rest)),
    ensures
        read_members(first + (quoted(name) + (colon(pretty) + text + rest)), pretty)
            == after_member(name, value, rest, pretty),
{
    let after_name = colon(pretty) + text + rest;
    let t = quoted(name) + after_name;
    let s = first + t;
    lemma_read_string(name, after_name);
    lemma_after_space(first, t, pretty);
    assert(after_name[0] == ':');
    lemma_after_space(Seq::empty(), after_name, pretty);
    assert(Seq::<char>::empty() + after_name =~= after_name);
    lemma_after_space_len(rest, pretty);
    assert(s.len() >= after_name.len() && after_name.len() >= rest.len());
}

proof fn lemma_regroup(
    a: Seq<char>,
    b: Seq<char>,
    c: Seq<char>,
    d: Seq<char>,
    e: Seq<char>,
    f: Seq<char>,
    g: Seq<char>,
)
    ensures
        (a + b + c + d + e + f) + g == a + (b + (c + (d + e + (f + g)))),
{
    assert((a + b + c + d + e + f) + g =~= a + (b + (c + (d + e + (f + g)))));
}

proof fn lemma_inside(open: char, inner: Seq<char>, close: Seq<char>, end: char, rest: Seq<char>)
    ensures
        (seq![open] + inner + close + seq![end] + rest)[0] == open,
        (seq![open] + inner + close + seq![end] + rest).skip(1) == inner + (close + seq![end]
            + rest),
{
    assert((seq![open] + inner + close + seq![end] + rest).skip(1) =~= inner + (close + seq![end]
        + rest));
}

proof fn lemma_after_member_next(
    name: Seq<char>,
    value: JsonView,
    next: Seq<char>,
    pretty: bool,
    members: Seq<(Seq<char>, JsonView)>,
    rest: Seq<char>,
)
    requires
        read_members(next, pretty) == Some((members, rest)),
    ensures
        after_member(name, value, seq![','] + next, pretty) == Some(
            (seq![(name, value)] + members, rest),
        ),
{
    let more = seq![','] + next;
    lemma_after_space(Seq::empty(), more, pretty);
    assert(Seq::<char>::empty() + more =~= more);
    assert(more.skip(1) =~= next);
}

proof fn lemma_after_member_last(
    name: Seq<char>,
    value: JsonView,
    close: Seq<char>,
    pretty: bool,
    rest: Seq<char>,
)
    requires
        is_passed_over(close, pretty),
    ensures
        after_member(name, value, close + seq!['}'] + rest, pretty) == Some(
            (seq![(name, value)], rest),
        ),
        ends_number(close + seq!['}'] + rest),
{
    let last = seq!['}'] + rest;
    let end = close + seq!['}'] + rest;
    assert(end =~= close + last);
    lemma_after_space(close, last, pretty);
    assert(last.skip(1) =~= rest);
    if close.len() > 0 {
        assert(end[0] == close[0]);
    }
}

/// The members from the `k`-th on, with what follows them, as they are read.
spec fn read_form(
    members: Seq<(Seq<char>, JsonView)>,
    k: int,
    indent: Seq<char>,
    pretty: bool,
    end: Seq<char>,
) -> Seq<char> {
    line_break(indent, pretty) + (quoted(members[k].0) + (colon(pretty) + rendered(
        members[k].1,
        indent,
        pretty,
    ) + (members_from(members, k + 1, indent, pretty) + end)))
}

proof fn lemma_read_form(
    members: Seq<(Seq<char>, JsonView)>,
    k: int,
    indent: Seq<char>,
    pretty: bool,
    end: Seq<char>,
)
    requires
        0 <= k < members.len(),
    ensures
        members_from(members, k, indent, pretty) + end == comma_after(k as nat) + read_form(
            members,
            k,
            indent,
            pretty,
            end,
        ),
{
    lemma_regroup(
        comma_after(k as nat),
        line_break(indent, pretty),
        quoted(members[k].0),
        colon(pretty),
        rendered(members[k].1, indent, pretty),
        members_from(members, k + 1, indent, pretty),
        end,
    );
}

#[verifier::spinoff_prover]
#[verifier::rlimit(30)]
proof fn lemma_read_members(
    members: Seq<(Seq<char>, JsonView)>,
    k: int,
    indent: Seq<char>,
    close: Seq<char>,
    pretty: bool,
    rest: Seq<char>,
)
    requires
        0 <= k < members.len(),
        is_passed_over(indent, true),
        is_passed_over(close, pretty),
    ensures
        read_members(
            read_form(members, k, indent, pretty, close + seq!['}'] + rest),
            pretty,
        ) == Some((members.skip(k), rest)),
    decreases members, members.len() - k,
{
    let first = line_break(indent, pretty);
    let name = members[k].0;
    let value = members[k].1;
    let tail = members_from(members, k + 1, indent, pretty);
    let end = close + seq!['}'] + rest;
    let text = rendered(value, indent, pretty);
    let space = after_colon(pretty);
    assert(is_passed_over(first, pretty));
    assert(is_passed_over(space, pretty));
    assert(decreases_to!(members => members[k].1));
    let more = tail + end;
    if k + 1 < members.len() {
        let next = read_form(members, k + 1, indent, pretty, end);
        lemma_read_form(members, k + 1, indent, pretty, end);
        lemma_read_members(members, k + 1, indent, close, pretty, rest);
        lemma_after_member_next(name, value, next, pretty, members.skip(k + 1), rest);
        assert(seq![(name, value)] + members.skip(k + 1) =~= members.skip(k));
        assert(more[0] == ',');
    } else {
        assert(more =~= end);
        lemma_after_member_last(name, value, close, pretty, rest);
        assert(seq![(name, value)] =~= members.skip(k));
    }
    lemma_read_value(space, value, indent, pretty, more);
    lemma_after_colon(text, more, pretty);
    lemma_read_member(first, name, text, value, pretty, more);
}

#[verifier::spinoff_prover]
#[verifier::rlimit(30)]
proof fn lemma_read_array(
    items: Seq<JsonView>,
    indent: Seq<char>,
    pretty: bool,
    rest: Seq<char>,
)
    requires
        is_passed_over(indent, true),
    ensures
        read_value(rendered(JsonView::Array(items), indent, pretty) + rest, pretty) == Some(
            (JsonView::Array(items), rest),
        ),
    decreases items, items.len() + 1,
{
    let t = rendered(JsonView::Array(items), indent, pretty) + rest;
    assert(t[0] == '[');
    lemma_after_space(Seq::empty(), t, pretty);
    assert(Seq::<char>::empty() + t =~= t);
    if items.len() == 0 {
        let inner = t.skip(1);
        assert(inner[0] == ']');
        lemma_after_space(Seq::empty(), inner, pretty);
        assert(Seq::<char>::empty() + inner =~= inner);
        assert(inner.skip(1) =~= rest);
        assert(items =~= Seq::empty());
    } else {
        let close = line_break(indent, pretty);
        let inside = deeper(indent);
        let first = line_break(inside, pretty);
        let end = close + seq![']'] + rest;
        let tail = items_from(items, 1, inside, pretty) + end;
        let value = rendered(items[0], inside, pretty);
        assert(is_passed_over(close, pretty));
        assert(is_passed_over(inside, true));
        assert(is_passed_over(first, pretty));
        lemma_items_from(items, 0, inside, pretty);
        assert(items.take(0) =~= Seq::empty());
        let written = rendered_items(items, inside, pretty);
        assert(written =~= items_from(items, 0, inside, pretty));
        lemma_inside('[', written, close, ']', rest);
        lemma_items_form(items, 0, inside, pretty, end);
        let inner = value + tail;
        assert(Seq::<char>::empty() + (first + value + tail) =~= first + inner);
        assert(first + value + tail =~= first + inner);
        assert(t.skip(1) == first + inner);
        lemma_value_begins(items[0], inside, pretty);
        assert(inner[0] == value[0]);
        lemma_after_space(first, inner, pretty);
        lemma_read_items(items, 0, inside, close, pretty, rest);
        assert(items.skip(0) =~= items);
    }
}

#[verifier::spinoff_prover]
#[verifier::rlimit(30)]
proof fn lemma_read_object(
    members: Seq<(Seq<char>, JsonView)>,
    indent: Seq<char>,
    pretty: bool,
    rest: Seq<char>,
)
    requires
        is_passed_over(indent, true),
    ensures
        read_value(rendered(JsonView::Object(members), indent, pretty) + rest, pretty) == Some(
            (JsonView::Object(members), rest),
        ),
    decreases members, members.len() + 1,
{
    let t = rendered(JsonView::Object(members), indent, pretty) + rest;
    assert(t[0] == '{');
    lemma_after_space(Seq::empty(), t, pretty);
    assert(Seq::<char>::empty() + t =~= t);
    if members.len() == 0 {
        let inner = t.skip(1);
        assert(inner[0] == '}');
        lemma_after_space(Seq::empty(), inner, pretty);
        assert(Seq::<char>::empty() + inner =~= inner);
        assert(inner.skip(1) =~= rest);
        assert(members =~= Seq::empty());
    } else {
        let close = line_break(indent, pretty);
        let inside = deeper(indent);
        let first = line_break(inside, pretty);
        let end = close + seq!['}'] + rest;
        let tail = members_from(members, 1, inside, pretty) + end;
        let value = rendered(members[0].1, inside, pretty);
        let inner = quoted(members[0].0) + (colon(pretty) + value + tail);
        assert(is_passed_over(close, pretty));
        assert(is_passed_over(inside, true));
        assert(is_passed_over(first, pretty));
        lemma_members_from(members, 0, inside, pretty);
        assert(members.take(0) =~= Seq::empty());
        let written = rendered_members(members, inside, pretty);
        assert(written =~= members_from(members, 0, inside, pretty));
        lemma_inside('{', written, close, '}', rest);
        lemma_read_form(members, 0, inside, pretty, end);
        assert(Seq::<char>::empty() + (first + inner) =~= first + inner);
        assert(t.skip(1) == first + inner);
        assert(inner[0] == '"');
        lemma_after_space(first, inner, pretty);
        lemma_read_members(members, 0, inside, close, pretty, rest);
        assert(members.skip(0) =~= members);
    }
}

proof fn lemma_read_plain(v: JsonView, indent: Seq<char>, pretty: bool, rest: Seq<char>)
    requires
        !(v is Array),
        !(v is Object),
        ends_number(rest),
    ensures
        read_value(rendered(v, indent, pretty) + rest, pretty) == Some((v, rest)),
{
    let text = rendered(v, indent, pretty);
    let t = text + rest;
    lemma_value_begins(v, indent, pretty);
    assert(t[0] == text[0]);
    lemma_after_space(Seq::empty(), t, pretty);
    assert(Seq::<char>::empty() + t =~= t);
    reveal_strlit("null");
    reveal_strlit("true");
    reveal_strlit("false");
    match v {
        JsonView::Null => {
            assert(t.subrange(0, 4) =~= "null"@);
            assert(t.skip(4) =~= rest);
        },
        JsonView::Bool(b) => {
            if has_prefix(t, "null"@) {
                assert(t.subrange(0, 4)[0] == t[0]);
            }
            if b {
                assert(t.subrange(0, 4) =~= "true"@);
                assert(t.skip(4) =~= rest);
            } else {
                if has_prefix(t, "true"@) {
                    assert(t.subrange(0, 4)[0] == t[0]);
                }
                assert(t.subrange(0, 5) =~= "false"@);
                assert(t.skip(5) =~= rest);
            }
        },
        JsonView::Int(n) => {
            if n < 0 {
                assert(t.skip(1) =~= decimal((-n) as nat) + rest);
                lemma_read_digits((-n) as nat, rest);
            } else {
                lemma_read_digits(n as nat, rest);
                lemma_not_a_word(t);
            }
        },
        JsonView::Str(x) => {
            lemma_read_string(x, rest);
        },
        _ => {},
    }
}

proof fn lemma_read_after_space(space: Seq<char>, t: Seq<char>, spaced: bool)
    requires
        is_passed_over(space, spaced),
        t.len() > 0,
        !is_json_space(t[0]),
    ensures
        read_value(space + t, spaced) == read_value(t, spaced),
{
    lemma_after_space(space, t, spaced);
    lemma_after_space(Seq::empty(), t, spaced);
    assert(Seq::<char>::empty() + t =~= t);
}

proof fn lemma_read_value(
    space: Seq<char>,
    v: JsonView,
    indent: Seq<char>,
    pretty: bool,
    rest: Seq<char>,
)
    requires
        is_passed_over(space, pretty),
        is_passed_over(indent, true),
        ends_number(rest),
    ensures
        read_value(space + rendered(v, indent, pretty) + rest, pretty) == Some((v, rest)),
    decreases v, 0int,
{
    let text = rendered(v, indent, pretty);
    lemma_value_begins(v, indent, pretty);
    assert((text + rest)[0] == text[0]);
    assert(space + text + rest =~= space + (text + rest));
    lemma_read_after_space(space, text + rest, pretty);
    match v {
        JsonView::Array(items) => {
            lemma_read_array(items, indent, pretty, rest);
        },
        JsonView::Object(members) => {
            lemma_read_object(members, indent, pretty, rest);
        },
        _ => {
            lemma_read_plain(v, indent, pretty, rest);
        },
    }
}

/// What begins with a digit is no word.
pub proof fn lemma_not_a_word(t: Seq<char>)
    requires
        t.len() > 0,
        is_digit(t[0]),
    ensures
        !has_prefix(t, "null"@),
        !has_prefix(t, "true"@),
        !has_prefix(t, "false"@),
{
    reveal_strlit("null");
    reveal_strlit("true");
    reveal_strlit("false");
    if has_prefix(t, "null"@) {
        assert(t.subrange(0, 4)[0] == t[0]);
    }
    if has_prefix(t, "true"@) {
        assert(t.subrange(0, 4)[0] == t[0]);
    }
    if has_prefix(t, "false"@) {
        assert(t.subrange(0, 5)[0] == t[0]);
    }
}

/// A value reads back from what is written of it: the text is JSON, and different
/// values have different texts. The compact text has no space outside of strings, as a
/// reader that allows none reads it.
pub proof fn law_value_reads_back(v: JsonView, pretty: bool)
    ensures
        read_back(rendered(v, Seq::empty(), pretty), pretty) == Some(v),
{
    let text = rendered(v, Seq::empty(), pretty);
    lemma_read_value(Seq::empty(), v, Seq::empty(), pretty, Seq::empty());
    assert(Seq::<char>::empty() + text + Seq::<char>::empty() =~= text);
}

/// The text of a valid value is that of a value in which the members of every object,
/// at every depth, stand in the ascending order of their names.
pub proof fn law_written_objects_ascend(v: Json, pretty: bool)
    requires
        is_valid_json(v),
    ensures
        read_back(rendered(v@, Seq::empty(), pretty), pretty) == Some(v@),
        is_ordered(v@),
{
    law_value_reads_back(v@, pretty);
    law_valid_value_is_ordered(v);
}

} // verus!
