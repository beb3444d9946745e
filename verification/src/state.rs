//! JSON values and their written form, and the status file of a run.

use crate::decimal::{decimal, decimal_text, hex_char, hex_digit};
use crate::order::{
    law_text_order_total, lemma_lt_at, text_lt, SortedMap,
};
use crate::paths::{join, path_join};
use crate::text::to_chars;
use vstd::prelude::*;

verus! {

broadcast use vstd::string::group_string_axioms;

/// A JSON value. The members of an object stand in the order of their names.
#[derive(Debug)]
pub enum Json {
    Null,
    Bool(bool),
    I64(i64),
    U64(u64),
    Str(String),
    Array(Vec<Json>),
    Object(SortedMap<Json>),
}

/// A JSON value as a mathematical value.
pub enum JsonView {
    Null,
    Bool(bool),
    Int(int),
    Str(Seq<char>),
    Array(Seq<JsonView>),
    Object(Seq<(Seq<char>, JsonView)>),
}

pub open spec fn json_view(v: Json) -> JsonView
    decreases v, 0int,
{
    match v {
        Json::Null => JsonView::Null,
        Json::Bool(b) => JsonView::Bool(b),
        Json::I64(n) => JsonView::Int(n as int),
        Json::U64(n) => JsonView::Int(n as int),
        Json::Str(s) => JsonView::Str(s@),
        Json::Array(items) => JsonView::Array(items_view(items@)),
        Json::Object(map) => JsonView::Object(members_view(map.entries@)),
    }
}

pub open spec fn items_view(items: Seq<Json>) -> Seq<JsonView>
    decreases items, items.len(),
{
    if items.len() == 0 {
        Seq::empty()
    } else {
        items_view(items.drop_last()).push(json_view(items.last()))
    }
}

pub open spec fn members_view(members: Seq<(String, Json)>) -> Seq<(Seq<char>, JsonView)>
    decreases members, members.len(),
{
    if members.len() == 0 {
        Seq::empty()
    } else {
        members_view(members.drop_last()).push((members.last().0@, json_view(members.last().1)))
    }
}

impl View for Json {
    type V = JsonView;

    open spec fn view(&self) -> JsonView {
        json_view(*self)
    }
}

/// Whether the maps of a value, at every depth, hold each key once and in order.
pub open spec fn is_valid_json(v: Json) -> bool
    decreases v,
{
    match v {
        Json::Array(items) => forall|i: int|
            0 <= i < items@.len() ==> is_valid_json(#[trigger] items@[i]),
        Json::Object(map) => map.wf() && forall|i: int|
            0 <= i < map.entries@.len() ==> is_valid_json((#[trigger] map.entries@[i]).1),
        _ => true,
    }
}

/// Whether members stand in the ascending order of their names, so that none occurs
/// twice.
pub open spec fn names_ascend(members: Seq<(Seq<char>, JsonView)>) -> bool {
    forall|i: int, j: int|
        0 <= i < j < members.len() ==> text_lt((#[trigger] members[i]).0, (#[trigger] members[j]).0)
}

/// Whether the members of every object of a value, at every depth, stand in the
/// ascending order of their names.
pub open spec fn is_ordered(v: JsonView) -> bool
    decreases v,
{
    match v {
        JsonView::Array(items) => forall|i: int|
            0 <= i < items.len() ==> is_ordered(#[trigger] items[i]),
        JsonView::Object(members) => names_ascend(members) && forall|i: int|
            0 <= i < members.len() ==> is_ordered((#[trigger] members[i]).1),
        _ => true,
    }
}

/// How one character is written inside a JSON string.
pub open spec fn escaped_char(c: char) -> Seq<char> {
    if c == '"' {
        seq!['\\', '"']
    } else if c == '\\' {
        seq!['\\', '\\']
    } else if c == '\n' {
        seq!['\\', 'n']
    } else if c == '\r' {
        seq!['\\', 'r']
    } else if c == '\t' {
        seq!['\\', 't']
    } else if (c as int) < 0x20 {
        seq!['\\', 'u', '0', '0', hex_digit(c as int / 16), hex_digit(c as int % 16)]
    } else {
        seq![c]
    }
}

pub open spec fn escaped(s: Seq<char>) -> Seq<char>
    decreases s.len(),
{
    if s.len() == 0 {
        Seq::empty()
    } else {
        escaped(s.drop_last()) + escaped_char(s.last())
    }
}

/// A JSON string literal.
pub open spec fn quoted(s: Seq<char>) -> Seq<char> {
    seq!['"'] + escaped(s) + seq!['"']
}

/// What stands before an item: in pretty form a new line, indented.
pub open spec fn line_break(indent: Seq<char>, pretty: bool) -> Seq<char> {
    if pretty {
        seq!['\n'] + indent
    } else {
        Seq::empty()
    }
}

/// The indentation one level deeper.
pub open spec fn deeper(indent: Seq<char>) -> Seq<char> {
    indent + seq![' ', ' ']
}

pub open spec fn signed_decimal(n: int) -> Seq<char> {
    if n < 0 {
        seq!['-'] + decimal((-n) as nat)
    } else {
        decimal(n as nat)
    }
}

/// The written form of a value that begins at indentation `indent`.
pub open spec fn rendered(v: JsonView, indent: Seq<char>, pretty: bool) -> Seq<char>
    decreases v, 0int,
{
    match v {
        JsonView::Null => "null"@,
        JsonView::Bool(b) => if b {
            "true"@
        } else {
            "false"@
        },
        JsonView::Int(n) => signed_decimal(n),
        JsonView::Str(s) => quoted(s),
        JsonView::Array(items) => if items.len() == 0 {
            seq!['[', ']']
        } else {
            seq!['['] + rendered_items(items, deeper(indent), pretty) + line_break(indent, pretty)
                + seq![']']
        },
        JsonView::Object(members) => if members.len() == 0 {
            seq!['{', '}']
        } else {
            seq!['{'] + rendered_members(members, deeper(indent), pretty) + line_break(
                indent,
                pretty,
            ) + seq!['}']
        },
    }
}

pub open spec fn comma_after(n: nat) -> Seq<char> {
    if n > 0 {
        seq![',']
    } else {
        Seq::empty()
    }
}

/// What stands between a member's name and its value.
pub open spec fn colon(pretty: bool) -> Seq<char> {
    if pretty {
        seq![':', ' ']
    } else {
        seq![':']
    }
}

pub open spec fn rendered_items(items: Seq<JsonView>, indent: Seq<char>, pretty: bool) -> Seq<char>
    decreases items, items.len(),
{
    if items.len() == 0 {
        Seq::empty()
    } else {
        rendered_items(items.drop_last(), indent, pretty) + (comma_after((items.len() - 1) as nat)
            + line_break(indent, pretty) + rendered(items.last(), indent, pretty))
    }
}

pub open spec fn rendered_members(
    members: Seq<(Seq<char>, JsonView)>,
    indent: Seq<char>,
    pretty: bool,
) -> Seq<char>
    decreases members, members.len(),
{
    if members.len() == 0 {
        Seq::empty()
    } else {
        rendered_members(members.drop_last(), indent, pretty) + (comma_after(
            (members.len() - 1) as nat,
        ) + line_break(indent, pretty) + quoted(members.last().0) + colon(pretty) + rendered(
            members.last().1,
            indent,
            pretty,
        ))
    }
}

proof fn lemma_items_view(items: Seq<Json>)
    ensures
        items_view(items).len() == items.len(),
        forall|i: int|
            0 <= i < items.len() ==> #[trigger] items_view(items)[i] == json_view(items[i]),
    decreases items.len(),
{
    if items.len() > 0 {
        lemma_items_view(items.drop_last());
    }
}

proof fn lemma_members_view(members: Seq<(String, Json)>)
    ensures
        members_view(members).len() == members.len(),
        forall|i: int|
            0 <= i < members.len() ==> #[trigger] members_view(members)[i] == (
                members[i].0@,
                json_view(members[i].1),
            ),
    decreases members.len(),
{
    if members.len() > 0 {
        lemma_members_view(members.drop_last());
    }
}

proof fn lemma_ordered_item(items: Seq<JsonView>, i: int)
    requires
        is_ordered(JsonView::Array(items)),
        0 <= i < items.len(),
    ensures
        is_ordered(items[i]),
{
    let v = JsonView::Array(items);
    assert(v->Array_0[i] == items[i]);
}

/// In a valid value, and in no other, the members of every object stand in the
/// ascending order of their names.
pub proof fn law_valid_value_is_ordered(v: Json)
    ensures
        is_valid_json(v) <==> is_ordered(v@),
    decreases v,
{
    match v {
        Json::Array(items) => {
            let shown = items_view(items@);
            lemma_items_view(items@);
            assert(v@ == JsonView::Array(shown));
            assert forall|i: int| 0 <= i < items@.len() implies is_valid_json(#[trigger] items@[i])
                == is_ordered(shown[i]) by {
                law_valid_value_is_ordered(items@[i]);
            }
            if is_ordered(JsonView::Array(shown)) {
                assert forall|i: int| 0 <= i < items@.len() implies is_valid_json(
                    #[trigger] items@[i],
                ) by {
                    lemma_ordered_item(shown, i);
                }
            }
        },
        Json::Object(map) => {
            let entries = map.entries@;
            let shown = members_view(entries);
            lemma_members_view(entries);
            assert forall|i: int| 0 <= i < entries.len() implies is_valid_json(
                (#[trigger] entries[i]).1,
            ) == is_ordered(shown[i].1) by {
                law_valid_value_is_ordered(entries[i].1);
            }
            if is_valid_json(v) {
                assert forall|i: int, j: int| 0 <= i < j < shown.len() implies text_lt(
                    (#[trigger] shown[i]).0,
                    (#[trigger] shown[j]).0,
                ) by {
                    assert(text_lt(entries[i].0@, entries[j].0@));
                }
                assert forall|i: int| 0 <= i < shown.len() implies is_ordered(
                    (#[trigger] shown[i]).1,
                ) by {
                    assert(is_valid_json(entries[i].1));
                }
            }
            if is_ordered(v@) {
                assert forall|i: int, j: int| 0 <= i < j < entries.len() implies text_lt(
                    #[trigger] entries[i].0@,
                    #[trigger] entries[j].0@,
                ) by {
                    assert(text_lt(shown[i].0, shown[j].0));
                }
                assert forall|i: int| 0 <= i < entries.len() implies is_valid_json(
                    (#[trigger] entries[i]).1,
                ) by {
                    assert(is_ordered(shown[i].1));
                }
            }
        },
        _ => {},
    }
}

/// Names that ascend are all different.
pub proof fn law_ascending_names_differ(members: Seq<(Seq<char>, JsonView)>, i: int, j: int)
    requires
        names_ascend(members),
        0 <= i < j < members.len(),
    ensures
        members[i].0 != members[j].0,
{
    law_text_order_total(members[i].0, members[j].0);
}

fn push_escaped(out: &mut String, c: char)
    ensures
        final(out)@ == old(out)@ + escaped_char(c),
{
    let ghost before = out@;
    if c == '"' {
        out.push('\\');
        out.push('"');
    } else if c == '\\' {
        out.push('\\');
        out.push('\\');
    } else if c == '\n' {
        out.push('\\');
        out.push('n');
    } else if c == '\r' {
        out.push('\\');
        out.push('r');
    } else if c == '\t' {
        out.push('\\');
        out.push('t');
    } else if (c as u32) < 0x20 {
        let code: u32 = c as u32;
        out.push('\\');
        out.push('u');
        out.push('0');
        out.push('0');
        out.push(hex_char((code / 16) as u8));
        out.push(hex_char((code % 16) as u8));
    } else {
        out.push(c);
    }
    proof {
        assert(out@ =~= before + escaped_char(c));
    }
}

fn push_quoted(out: &mut String, s: &str)
    ensures
        final(out)@ == old(out)@ + quoted(s@),
{
    let ghost before = out@;
    let chars = to_chars(s);
    out.push('"');
    let mut i: usize = 0;
    proof {
        assert(out@ =~= before + seq!['"'] + escaped(s@.take(0)));
    }
    while i < chars.len()
        invariant
            chars@ == s@,
            i <= chars.len(),
            out@ == before + seq!['"'] + escaped(s@.take(i as int)),
        decreases chars.len() - i,
    {
        push_escaped(out, chars[i]);
        proof {
            assert(s@.take(i + 1).drop_last() =~= s@.take(i as int));
            assert(out@ =~= before + seq!['"'] + escaped(s@.take(i + 1)));
        }
        i = i + 1;
    }
    out.push('"');
    proof {
        assert(s@.take(s@.len() as int) =~= s@);
        assert(out@ =~= before + quoted(s@));
    }
}

fn push_break(out: &mut String, indent: &str, pretty: bool)
    ensures
        final(out)@ == old(out)@ + line_break(indent@, pretty),
{
    let ghost before = out@;
    if pretty {
        out.push('\n');
        out.append(indent);
    }
    proof {
        assert(out@ =~= before + line_break(indent@, pretty));
    }
}

fn push_comma(out: &mut String, index: usize)
    ensures
        final(out)@ == old(out)@ + comma_after(index as nat),
{
    let ghost before = out@;
    if index > 0 {
        out.push(',');
    }
    proof {
        assert(out@ =~= before + comma_after(index as nat));
    }
}

fn push_colon(out: &mut String, pretty: bool)
    ensures
        final(out)@ == old(out)@ + colon(pretty),
{
    let ghost before = out@;
    out.push(':');
    if pretty {
        out.push(' ');
    }
    proof {
        assert(out@ =~= before + colon(pretty));
    }
}

fn push_indent(indent: &str) -> (r: String)
    ensures
        r@ == deeper(indent@),
{
    let mut out = indent.to_owned();
    out.push(' ');
    out.push(' ');
    proof {
        assert(out@ =~= deeper(indent@));
    }
    out
}

fn write_json(out: &mut String, v: &Json, indent: &str, pretty: bool)
    ensures
        final(out)@ == old(out)@ + rendered(v@, indent@, pretty),
    decreases v, 0int,
{
    let ghost before = out@;
    match v {
        Json::Null => {
            out.append("null");
        },
        Json::Bool(b) => {
            if *b {
                out.append("true");
            } else {
                out.append("false");
            }
        },
        Json::I64(n) => {
            if *n < 0 {
                out.push('-');
                let size: i128 = -(*n as i128);
                out.append(&decimal_text(size as u128));
            } else {
                out.append(&decimal_text(*n as u128));
            }
            proof {
                assert(out@ =~= before + signed_decimal(*n as int));
            }
        },
        Json::U64(n) => {
            out.append(&decimal_text(*n as u128));
        },
        Json::Str(s) => {
            push_quoted(out, s);
        },
        Json::Array(items) => {
            proof {
                lemma_items_view(items@);
            }
            if items.len() == 0 {
                out.push('[');
                out.push(']');
                proof {
                    assert(out@ =~= before + seq!['[', ']']);
                }
                return;
            }
            out.push('[');
            write_items(out, items, &push_indent(indent), pretty);
            push_break(out, indent, pretty);
            out.push(']');
            proof {
                assert(out@ =~= before + rendered(v@, indent@, pretty));
            }
        },
        Json::Object(map) => {
            proof {
                lemma_members_view(map.entries@);
            }
            if map.entries.len() == 0 {
                out.push('{');
                out.push('}');
                proof {
                    assert(out@ =~= before + seq!['{', '}']);
                }
                return;
            }
            out.push('{');
            write_members(out, &map.entries, &push_indent(indent), pretty);
            push_break(out, indent, pretty);
            out.push('}');
            proof {
                assert(out@ =~= before + rendered(v@, indent@, pretty));
            }
        },
    }
}

fn write_items(out: &mut String, items: &Vec<Json>, indent: &str, pretty: bool)
    ensures
        final(out)@ == old(out)@ + rendered_items(items_view(items@), indent@, pretty),
    decreases items, 0int,
{
    let ghost before = out@;
    let mut i: usize = 0;
    proof {
        assert(out@ =~= before + rendered_items(items_view(items@.take(0)), indent@, pretty));
    }
    while i < items.len()
        invariant
            i <= items.len(),
            out@ == before + rendered_items(items_view(items@.take(i as int)), indent@, pretty),
        decreases items.len() - i,
    {
        let ghost done = out@;
        push_comma(out, i);
        push_break(out, indent, pretty);
        proof {
            assert(decreases_to!(items => items@[i as int]));
        }
        write_json(out, &items[i], indent, pretty);
        proof {
            let piece = comma_after(i as nat) + line_break(indent@, pretty) + rendered(
                items@[i as int]@,
                indent@,
                pretty,
            );
            assert(out@ =~= done + piece);
            let now = items@.take(i + 1);
            assert(now.drop_last() =~= items@.take(i as int));
            lemma_items_view(now);
            assert(items_view(now).drop_last() =~= items_view(items@.take(i as int)));
            assert(out@ =~= before + rendered_items(items_view(now), indent@, pretty));
        }
        i = i + 1;
    }
    proof {
        assert(items@.take(i as int) =~= items@);
    }
}

fn write_members(out: &mut String, members: &Vec<(String, Json)>, indent: &str, pretty: bool)
    ensures
        final(out)@ == old(out)@ + rendered_members(members_view(members@), indent@, pretty),
    decreases members, 0int,
{
    let ghost before = out@;
    let mut i: usize = 0;
    proof {
        assert(out@ =~= before + rendered_members(members_view(members@.take(0)), indent@, pretty));
    }
    while i < members.len()
        invariant
            i <= members.len(),
            out@ == before + rendered_members(members_view(members@.take(i as int)), indent@, pretty),
        decreases members.len() - i,
    {
        let ghost done = out@;
        push_comma(out, i);
        push_break(out, indent, pretty);
        push_quoted(out, &members[i].0);
        push_colon(out, pretty);
        proof {
            assert(decreases_to!(members => members@[i as int].1));
        }
        write_json(out, &members[i].1, indent, pretty);
        proof {
            let piece = comma_after(i as nat) + line_break(indent@, pretty) + quoted(
                members@[i as int].0@,
            ) + colon(pretty) + rendered(members@[i as int].1@, indent@, pretty);
            assert(out@ =~= done + piece);
            let now = members@.take(i + 1);
            assert(now.drop_last() =~= members@.take(i as int));
            lemma_members_view(now);
            assert(members_view(now).drop_last() =~= members_view(members@.take(i as int)));
            assert(out@ =~= before + rendered_members(members_view(now), indent@, pretty));
        }
        i = i + 1;
    }
    proof {
        assert(members@.take(i as int) =~= members@);
    }
}

impl Json {
    /// The value on several lines, indented by two spaces a level.
    pub fn to_string_pretty(&self) -> (r: String)
        ensures
            r@ == rendered(self@, Seq::empty(), true),
    {
        let mut out = String::new();
        let none = String::new();
        write_json(&mut out, self, &none, true);
        proof {
            assert(out@ =~= rendered(self@, Seq::empty(), true));
        }
        out
    }

    /// The value on one line, without spaces.
    pub fn to_string_compact(&self) -> (r: String)
        ensures
            r@ == rendered(self@, Seq::empty(), false),
    {
        let mut out = String::new();
        let none = String::new();
        write_json(&mut out, self, &none, false);
        proof {
            assert(out@ =~= rendered(self@, Seq::empty(), false));
        }
        out
    }
}

/// The value of a lower-case hexadecimal digit, or -1.
pub open spec fn hex_value(c: char) -> int {
    if '0' <= c && c <= '9' {
        c as int - 48
    } else if 'a' <= c && c <= 'f' {
        c as int - 87
    } else {
        -1
    }
}

/// Reads the inside of a JSON string literal back: `None` where a quote or a
/// control character stands bare, or an escape is none of those that are written.
pub open spec fn unescaped(s: Seq<char>) -> Option<Seq<char>>
    decreases s.len(),
{
    if s.len() == 0 {
        Some(Seq::empty())
    } else if s[0] == '"' || (s[0] as int) < 0x20 {
        None
    } else if s[0] != '\\' {
        match unescaped(s.skip(1)) {
            Some(rest) => Some(seq![s[0]] + rest),
            None => None,
        }
    } else if s.len() >= 2 && s[1] != 'u' {
        let c = if s[1] == 'n' {
            Some('\n')
        } else if s[1] == 'r' {
            Some('\r')
        } else if s[1] == 't' {
            Some('\t')
        } else if s[1] == 'b' {
            Some('\u{8}')
        } else if s[1] == 'f' {
            Some('\u{c}')
        } else if s[1] == '"' || s[1] == '\\' {
            Some(s[1])
        } else {
            None
        };
        match (c, unescaped(s.skip(2))) {
            (Some(c), Some(rest)) => Some(seq![c] + rest),
            _ => None,
        }
    } else if s.len() >= 6 && s[2] == '0' && s[3] == '0' && hex_value(s[4]) >= 0 && hex_value(s[5])
        >= 0 {
        match unescaped(s.skip(6)) {
            Some(rest) => Some(seq![(hex_value(s[4]) * 16 + hex_value(s[5])) as char] + rest),
            None => None,
        }
    } else {
        None
    }
}

/// A text is escaped character by character, from the front as well.
pub proof fn lemma_escaped_from_front(s: Seq<char>)
    requires
        s.len() > 0,
    ensures
        escaped(s) == escaped_char(s[0]) + escaped(s.skip(1)),
    decreases s.len(),
{
    if s.len() == 1 {
        assert(s.drop_last() =~= Seq::<char>::empty());
        assert(s.skip(1) =~= Seq::<char>::empty());
        assert(escaped(s) =~= escaped_char(s[0]) + escaped(s.skip(1)));
    } else {
        lemma_escaped_from_front(s.drop_last());
        assert(s.drop_last().skip(1) =~= s.skip(1).drop_last());
        assert(s.skip(1).last() == s.last());
        assert(escaped(s) =~= escaped_char(s[0]) + escaped(s.skip(1)));
    }
}

/// A character is a number that Unicode has.
pub proof fn lemma_char_is_code_point(c: char)
    ensures
        0 <= c as int <= 0x10ffff,
{
}

/// A hexadecimal digit has the value that it is written for.
pub proof fn lemma_hex_value(d: int)
    requires
        0 <= d < 16,
    ensures
        hex_value(hex_digit(d)) == d,
{
}

/// A JSON string literal reads back as the text that was written: no bare quote
/// or control character stands in it, and different texts have different literals.
pub proof fn law_string_literal_reads_back(s: Seq<char>)
    ensures
        unescaped(escaped(s)) == Some(s),
    decreases s.len(),
{
    if s.len() > 0 {
        lemma_escaped_from_front(s);
        law_string_literal_reads_back(s.skip(1));
        let c = s[0];
        let e = escaped(s);
        let n = escaped_char(c).len() as int;
        assert(e.skip(n) =~= escaped(s.skip(1)));
        assert(seq![c] + s.skip(1) =~= s);
        assert(forall|i: int| 0 <= i < n ==> e[i] == escaped_char(c)[i]);
        lemma_char_is_code_point(c);
        if (c as int) < 0x20 {
            assert(0 <= c as int / 16 < 16);
            assert(0 <= c as int % 16 < 16);
            lemma_hex_value(c as int / 16);
            lemma_hex_value(c as int % 16);
            if n == 6 {
                assert(e[4] == hex_digit(c as int / 16));
                assert(e[5] == hex_digit(c as int % 16));
            }
        }
    }
}

/// One file to write: where, and what it holds.
#[derive(Debug)]
pub struct FileWrite {
    pub path: String,
    pub contents: String,
}

/// Members are viewed one by one, so appending commutes with taking views.
pub broadcast proof fn lemma_members_view_push(members: Seq<(String, Json)>, m: (String, Json))
    ensures
        #[trigger] members_view(members.push(m)) == members_view(members).push((m.0@, json_view(m.1))),
{
    assert(members.push(m).drop_last() =~= members);
}

/// Items are viewed one by one, so appending commutes with taking views.
pub proof fn lemma_items_view_push(items: Seq<Json>, item: Json)
    ensures
        items_view(items.push(item)) == items_view(items).push(json_view(item)),
{
    assert(items.push(item).drop_last() =~= items);
}

/// Where a run stands, as `.loom/status.json` tells it.
#[derive(Debug)]
pub struct StatusSnapshot {
    pub phase: String,
    pub cycle: u64,
    /// The work state of each feature, by its id.
    pub features: SortedMap<String>,
}

/// The entries of a map between texts, in order.
pub open spec fn text_entries(entries: Seq<(String, String)>) -> Seq<(Seq<char>, Seq<char>)> {
    Seq::new(entries.len(), |i: int| (entries[i].0@, entries[i].1@))
}

/// A snapshot as a mathematical value.
pub struct StatusView {
    pub phase: Seq<char>,
    pub cycle: nat,
    pub features: Seq<(Seq<char>, Seq<char>)>,
}

impl View for StatusSnapshot {
    type V = StatusView;

    open spec fn view(&self) -> StatusView {
        StatusView {
            phase: self.phase@,
            cycle: self.cycle as nat,
            features: text_entries(self.features.entries@),
        }
    }
}

/// A map between texts as a JSON object.
pub open spec fn texts_json(entries: Seq<(Seq<char>, Seq<char>)>) -> JsonView {
    JsonView::Object(
        Seq::new(entries.len(), |i: int| (entries[i].0, JsonView::Str(entries[i].1))),
    )
}

/// What `status.json` holds.
pub open spec fn status_json(status: StatusView, now_ms: nat) -> JsonView {
    JsonView::Object(
        seq![
            ("cycle"@, JsonView::Int(status.cycle as int)),
            ("features"@, texts_json(status.features)),
            ("phase"@, JsonView::Str(status.phase)),
            ("schema"@, JsonView::Int(1)),
            ("updated_at_ms"@, JsonView::Int(now_ms as int)),
        ],
    )
}

pub proof fn lemma_status_keys()
    ensures
        text_lt("cycle"@, "features"@),
        text_lt("features"@, "phase"@),
        text_lt("phase"@, "schema"@),
        text_lt("schema"@, "updated_at_ms"@),
{
    reveal_strlit("cycle");
    reveal_strlit("features");
    reveal_strlit("phase");
    reveal_strlit("schema");
    reveal_strlit("updated_at_ms");
    lemma_lt_at("cycle"@, "features"@, 0);
    lemma_lt_at("features"@, "phase"@, 0);
    lemma_lt_at("phase"@, "schema"@, 0);
    lemma_lt_at("schema"@, "updated_at_ms"@, 0);
}

fn texts_to_json(map: &SortedMap<String>) -> (r: Json)
    requires
        map.wf(),
    ensures
        r@ == texts_json(text_entries(map.entries@)),
{
    let ghost all = text_entries(map.entries@);
    let mut out: SortedMap<Json> = SortedMap::new();
    let mut i: usize = 0;
    let ghost shown = |k: int| (all[k].0, JsonView::Str(all[k].1));
    while i < map.entries.len()
        invariant
            map.wf(),
            all == text_entries(map.entries@),
            shown == |k: int| (all[k].0, JsonView::Str(all[k].1)),
            i <= map.entries.len(),
            out.wf(),
            out.entries@.len() == i,
            i > 0 ==> out.entries@.last().0@ == map.entries@[i - 1].0@,
            members_view(out.entries@) == Seq::new(i as nat, shown),
        decreases map.entries.len() - i,
    {
        proof {
            if i > 0 {
                assert(text_lt(map.entries@[i - 1].0@, map.entries@[i as int].0@));
            }
        }
        let key = map.entries[i].0.clone();
        let value = Json::Str(map.entries[i].1.clone());
        let ghost pair = (key, value);
        let ghost before = out.entries@;
        out.push_last(key, value);
        proof {
            lemma_members_view_push(before, pair);
            assert(pair.0@ == all[i as int].0);
            assert(json_view(pair.1) == JsonView::Str(all[i as int].1));
            assert(members_view(out.entries@) == Seq::new(i as nat, shown).push(shown(i as int)));
            assert(members_view(out.entries@) =~= Seq::new((i + 1) as nat, shown));
        }
        i = i + 1;
    }
    let r = Json::Object(out);
    proof {
        assert(members_view(r->Object_0.entries@) =~= Seq::new(all.len(), shown));
        assert(Seq::new(all.len(), shown) =~= Seq::new(
            all.len(),
            |k: int| (all[k].0, JsonView::Str(all[k].1)),
        ));
    }
    r
}

proof fn lemma_texts_ordered(map: &SortedMap<String>)
    requires
        map.wf(),
    ensures
        is_ordered(texts_json(text_entries(map.entries@))),
{
    let members = texts_json(text_entries(map.entries@))->Object_0;
    assert forall|i: int, j: int| 0 <= i < j < members.len() implies text_lt(
        (#[trigger] members[i]).0,
        (#[trigger] members[j]).0,
    ) by {
        assert(text_lt(map.entries@[i].0@, map.entries@[j].0@));
    }
    assert forall|i: int| 0 <= i < members.len() implies is_ordered((#[trigger] members[i]).1) by {
        assert(members[i].1 is Str);
    }
}

impl StatusSnapshot {
    /// The status file of this snapshot, at `now_ms` milliseconds since the epoch.
    pub fn write_to(&self, loom_dir: &str, now_ms: u64) -> (r: FileWrite)
        requires
            self.features.wf(),
        ensures
            r.path@ == path_join(loom_dir@, "status.json"@),
            r.contents@ == rendered(status_json(self@, now_ms as nat), Seq::empty(), true),
            is_ordered(status_json(self@, now_ms as nat)),
    {
        broadcast use lemma_members_view_push;

        proof {
            lemma_status_keys();
        }
        let mut top: SortedMap<Json> = SortedMap::new();
        top.push_last("cycle".to_owned(), Json::U64(self.cycle));
        top.push_last("features".to_owned(), texts_to_json(&self.features));
        top.push_last("phase".to_owned(), Json::Str(self.phase.clone()));
        top.push_last("schema".to_owned(), Json::U64(1));
        top.push_last("updated_at_ms".to_owned(), Json::U64(now_ms));
        proof {
            assert(members_view(top.entries@) =~= status_json(self@, now_ms as nat)->Object_0);
        }
        let json = Json::Object(top);
        proof {
            lemma_texts_ordered(&self.features);
            let members = status_json(self@, now_ms as nat)->Object_0;
            lemma_members_view(top.entries@);
            assert(names_ascend(members)) by {
                assert forall|i: int, j: int| 0 <= i < j < members.len() implies text_lt(
                    (#[trigger] members[i]).0,
                    (#[trigger] members[j]).0,
                ) by {
                    assert(text_lt(top.entries@[i].0@, top.entries@[j].0@));
                }
            }
            assert forall|i: int| 0 <= i < members.len() implies is_ordered(
                (#[trigger] members[i]).1,
            ) by {
                if i == 1 {
                    assert(members[i].1 == texts_json(text_entries(self.features.entries@)));
                }
            }
        }
        FileWrite { path: join(loom_dir, "status.json"), contents: json.to_string_pretty() }
    }
}

/// A plain value is seen as what it is: a number as that number, signed or not, a text
/// as that text.
pub proof fn law_plain_values_are_seen_as_they_are(n: i64, m: u64, b: bool, s: String)
    ensures
        Json::I64(n)@ == JsonView::Int(n as int),
        Json::U64(m)@ == JsonView::Int(m as int),
        Json::Bool(b)@ == JsonView::Bool(b),
        Json::Str(s)@ == JsonView::Str(s@),
        Json::Null@ == JsonView::Null,
{
}

} // verus!
