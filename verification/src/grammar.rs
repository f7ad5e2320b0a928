//! The grammar of values: ordered choice between the alternatives, and the
//! recursion through arrays and objects.
//!
//! Each function says what stands at a position `i` of the text `s`. `depth`
//! is the number of arrays and objects that may still be entered.

use crate::ast::{JSONParseError, Json, Member, Parsed};
use crate::lexical::{spaced_end, word_at, ws_end};
use crate::number::{float_at, integer_at};
use crate::text::{string_at, string_literal_at};
use vstd::prelude::*;

verus! {

/// How many arrays and objects may stand inside one another.
pub const MAX_DEPTH: usize = 128;

/// Ordered choice: the first alternative, unless it does not match.
pub open spec fn or_else(first: Parsed<Json>, second: Parsed<Json>) -> Parsed<Json> {
    match first {
        Err(JSONParseError::Unparseable) => second,
        _ => first,
    }
}

/// The literal `false` or `true` at `i`.
pub open spec fn bool_at(s: Seq<char>, i: int) -> Parsed<Json> {
    if word_at(s, i, seq!['f', 'a', 'l', 's', 'e']) {
        Ok((i + 5, Json::Bool(false)))
    } else if word_at(s, i, seq!['t', 'r', 'u', 'e']) {
        Ok((i + 4, Json::Bool(true)))
    } else {
        Err(JSONParseError::Unparseable)
    }
}

/// The literal `null` at `i`.
pub open spec fn null_at(s: Seq<char>, i: int) -> Parsed<Json> {
    if word_at(s, i, seq!['n', 'u', 'l', 'l']) {
        Ok((i + 4, Json::Null))
    } else {
        Err(JSONParseError::Unparseable)
    }
}

/// The alternatives that hold no other value, in their order: string, float,
/// integer, boolean, null.
pub open spec fn scalar_at(s: Seq<char>, i: int) -> Parsed<Json> {
    or_else(
        string_at(s, i),
        or_else(float_at(s, i), or_else(integer_at(s, i), or_else(bool_at(s, i), null_at(s, i)))),
    )
}

/// The first alternative that matches at `i`, in the order array, object,
/// string, float, integer, boolean, null. An alternative that fails for
/// another reason than `Unparseable` ends the choice with that reason.
pub open spec fn alternative_at(s: Seq<char>, i: int, depth: nat) -> Parsed<Json>
    decreases depth, 2nat, 0nat,
{
    or_else(array_at(s, i, depth), or_else(object_at(s, i, depth), scalar_at(s, i)))
}

/// A value at `i`: whitespace, the first alternative that matches, and
/// whitespace again.
pub open spec fn value_at(s: Seq<char>, i: int, depth: nat) -> Parsed<Json>
    decreases depth, 3nat, 0nat,
{
    match alternative_at(s, ws_end(s, i), depth) {
        Ok((end, value)) => Ok((ws_end(s, end), value)),
        Err(e) => Err(e),
    }
}

/// An array at `i`: `[`, values separated by `,`, and `]`, with whitespace
/// around each of them.
pub open spec fn array_at(s: Seq<char>, i: int, depth: nat) -> Parsed<Json>
    decreases depth, 1nat, 0nat,
{
    match spaced_end(s, i, '[') {
        None => Err(JSONParseError::Unparseable),
        Some(first) => if depth == 0 {
            Err(JSONParseError::TooDeep)
        } else {
            match elements_at(s, first, (depth - 1) as nat) {
                Err(e) => Err(e),
                Ok((end, items)) => match spaced_end(s, end, ']') {
                    Some(after) => Ok((after, Json::Array(items))),
                    None => Err(JSONParseError::Unparseable),
                },
            }
        },
    }
}

/// The values of an array from `i` on, and where they end: none where no
/// value stands at `i`.
pub open spec fn elements_at(s: Seq<char>, i: int, depth: nat) -> Parsed<Seq<Json>>
    decreases depth, 5nat, 0nat,
{
    match value_at(s, i, depth) {
        Ok((end, value)) => more_elements(s, end, depth, seq![value]),
        Err(JSONParseError::Unparseable) => Ok((i, Seq::empty())),
        Err(e) => Err(e),
    }
}

/// The values `found` and those that follow at `i`, each after a comma. A
/// comma that no value follows is left unread.
///
/// Every value that is read ends after its start, inside the text
/// (`lemma_value_sound`); the comparison of `end` with `i` is written down
/// to show that the recursion ends.
pub open spec fn more_elements(s: Seq<char>, i: int, depth: nat, found: Seq<Json>) -> Parsed<
    Seq<Json>,
>
    decreases depth, 4nat, s.len() - i,
{
    match spaced_end(s, i, ',') {
        None => Ok((i, found)),
        Some(next) => match value_at(s, next, depth) {
            Ok((end, value)) => if i < end <= s.len() {
                more_elements(s, end, depth, found.push(value))
            } else {
                Err(JSONParseError::Unparseable)
            },
            Err(JSONParseError::Unparseable) => Ok((i, found)),
            Err(e) => Err(e),
        },
    }
}

/// A member at `i`: a string literal, `:` with whitespace around it, and a
/// value.
pub open spec fn member_at(s: Seq<char>, i: int, depth: nat) -> Parsed<Member>
    decreases depth, 4nat, 0nat,
{
    match string_literal_at(s, i) {
        Err(e) => Err(e),
        Ok((key_end, key)) => match spaced_end(s, key_end, ':') {
            None => Err(JSONParseError::Unparseable),
            Some(at) => match value_at(s, at, depth) {
                Ok((end, value)) => Ok((end, Member { key, value })),
                Err(e) => Err(e),
            },
        },
    }
}

/// An object at `i`: `{`, members separated by `,`, and `}`, with whitespace
/// around each of them.
pub open spec fn object_at(s: Seq<char>, i: int, depth: nat) -> Parsed<Json>
    decreases depth, 1nat, 0nat,
{
    match spaced_end(s, i, '{') {
        None => Err(JSONParseError::Unparseable),
        Some(first) => if depth == 0 {
            Err(JSONParseError::TooDeep)
        } else {
            match members_at(s, first, (depth - 1) as nat) {
                Err(e) => Err(e),
                Ok((end, members)) => match spaced_end(s, end, '}') {
                    Some(after) => Ok((after, Json::Object(members))),
                    None => Err(JSONParseError::Unparseable),
                },
            }
        },
    }
}

/// The members of an object from `i` on, and where they end: none where no
/// member stands at `i`.
pub open spec fn members_at(s: Seq<char>, i: int, depth: nat) -> Parsed<Seq<Member>>
    decreases depth, 6nat, 0nat,
{
    match member_at(s, i, depth) {
        Ok((end, member)) => more_members(s, end, depth, seq![member]),
        Err(JSONParseError::Unparseable) => Ok((i, Seq::empty())),
        Err(e) => Err(e),
    }
}

/// The members `found` and those that follow at `i`, each after a comma. A
/// comma that no member follows is left unread.
///
/// As for the values of an array, the comparison of `end` with `i` is
/// written down to show that the recursion ends.
pub open spec fn more_members(s: Seq<char>, i: int, depth: nat, found: Seq<Member>) -> Parsed<
    Seq<Member>,
>
    decreases depth, 5nat, s.len() - i,
{
    match spaced_end(s, i, ',') {
        None => Ok((i, found)),
        Some(next) => match member_at(s, next, depth) {
            Ok((end, member)) => if i < end <= s.len() {
                more_members(s, end, depth, found.push(member))
            } else {
                Err(JSONParseError::Unparseable)
            },
            Err(JSONParseError::Unparseable) => Ok((i, found)),
            Err(e) => Err(e),
        },
    }
}

/// A whole text as one document: a value that leaves nothing unread.
pub open spec fn document(s: Seq<char>) -> Result<Json, JSONParseError> {
    match value_at(s, 0, MAX_DEPTH as nat) {
        Ok((end, value)) => if end == s.len() {
            Ok(value)
        } else {
            Err(JSONParseError::Unparseable)
        },
        Err(e) => Err(e),
    }
}

} // verus!
