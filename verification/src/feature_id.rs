//! The grammar of feature ids: `F-` and three digits, then maybe a dash and a slug.

use crate::decimal::is_digit;
use crate::text::to_chars;
use vstd::prelude::*;

verus! {

broadcast use vstd::string::group_string_axioms;

/// A character that may stand in the slug of a feature id.
pub open spec fn is_slug_char(c: char) -> bool {
    ('a' <= c && c <= 'z') || is_digit(c) || c == '-'
}

/// `F-` and exactly three digits, then nothing or `-` and a non-empty slug.
pub open spec fn valid_feature_id(id: Seq<char>) -> bool {
    &&& id.len() >= 5
    &&& id[0] == 'F'
    &&& id[1] == '-'
    &&& is_digit(id[2]) && is_digit(id[3]) && is_digit(id[4])
    &&& id.len() > 5 ==> {
        &&& id[5] == '-'
        &&& id.len() > 6
        &&& forall|i: int| 6 <= i < id.len() ==> is_slug_char(#[trigger] id[i])
    }
}

/// A text that was given as a feature id and is none.
#[derive(Debug)]
pub struct InvalidFeatureId {
    pub id: String,
}

fn is_digit_char(c: char) -> (r: bool)
    ensures
        r == is_digit(c),
{
    '0' <= c && c <= '9'
}

/// Accepts exactly the texts that the grammar of feature ids has.
pub fn validate_feature_id(id: &str) -> (r: Result<(), InvalidFeatureId>)
    ensures
        r is Ok <==> valid_feature_id(id@),
        r matches Err(e) ==> e.id@ == id@,
{
    if is_valid(id) {
        Ok(())
    } else {
        Err(InvalidFeatureId { id: id.to_owned() })
    }
}

pub fn is_valid(id: &str) -> (r: bool)
    ensures
        r == valid_feature_id(id@),
{
    let c = to_chars(id);
    if c.len() < 5 {
        return false;
    }
    if !(c[0] == 'F' && c[1] == '-' && is_digit_char(c[2]) && is_digit_char(c[3])
        && is_digit_char(c[4])) {
        return false;
    }
    if c.len() == 5 {
        return true;
    }
    if !(c[5] == '-' && c.len() > 6) {
        return false;
    }
    let mut i: usize = 6;
    while i < c.len()
        invariant
            c@ == id@,
            6 <= i <= c.len(),
            forall|j: int| 6 <= j < i ==> is_slug_char(#[trigger] c@[j]),
        decreases c.len() - i,
    {
        let x = c[i];
        if !(('a' <= x && x <= 'z') || is_digit_char(x) || x == '-') {
            return false;
        }
        i = i + 1;
    }
    true
}

/// A feature id holds upper-case `F`, digits, lower-case letters and dashes only:
/// as a path component or in a ref name it can name nothing else. In particular
/// it holds no separator, no dot and no NUL.
pub proof fn law_feature_id_is_plain(id: Seq<char>, i: int)
    requires
        valid_feature_id(id),
        0 <= i < id.len(),
    ensures
        id[i] == 'F' || is_slug_char(id[i]),
        id[i] != '/' && id[i] != '.' && id[i] != '\0' && id[i] != ' ',
{
    if i >= 6 {
        assert(is_slug_char(id[i]));
    }
}

/// `id` is `F-`, the number and the tail; the number is three digits, and the tail is
/// nothing or a dash and at least one more lower-case letter, digit or dash.
pub open spec fn is_made_of(id: Seq<char>, number: Seq<char>, tail: Seq<char>) -> bool {
    &&& id == seq!['F', '-'] + number + tail
    &&& number.len() == 3
    &&& forall|i: int| 0 <= i < 3 ==> '0' <= #[trigger] number[i] <= '9'
    &&& tail.len() > 0 ==> tail.len() > 1 && tail[0] == '-'
    &&& forall|i: int|
        0 <= i < tail.len() ==> 'a' <= #[trigger] tail[i] <= 'z' || '0' <= tail[i] <= '9' || tail[i]
            == '-'
}

/// The feature ids are the texts that are made up so, and no others.
pub proof fn law_feature_ids_have_this_form(id: Seq<char>)
    ensures
        valid_feature_id(id) <==> exists|number: Seq<char>, tail: Seq<char>| #[trigger]
            is_made_of(id, number, tail),
{
    if valid_feature_id(id) {
        let number = id.subrange(2, 5);
        let tail = id.skip(5);
        assert(id =~= seq!['F', '-'] + number + tail);
        assert forall|i: int| 0 <= i < tail.len() implies 'a' <= #[trigger] tail[i] <= 'z' || '0'
            <= tail[i] <= '9' || tail[i] == '-' by {
            assert(tail[i] == id[5 + i]);
            if i > 0 {
                assert(is_slug_char(id[5 + i]));
            }
        }
        assert(is_made_of(id, number, tail));
    }
    if exists|number: Seq<char>, tail: Seq<char>| #[trigger] is_made_of(id, number, tail) {
        let (number, tail) = choose|number: Seq<char>, tail: Seq<char>| #[trigger]
            is_made_of(id, number, tail);
        assert(id[2] == number[0] && id[3] == number[1] && id[4] == number[2]);
        assert forall|i: int| 6 <= i < id.len() implies is_slug_char(#[trigger] id[i]) by {
            assert(id[i] == tail[i - 5]);
        }
        if id.len() > 5 {
            assert(id[5] == tail[0]);
        }
    }
}

} // verus!
