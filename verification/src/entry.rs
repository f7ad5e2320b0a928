//! The parser on text: each recognizer applied at the start of a string,
//! giving what it read and the text that it left unread.

use crate::ast::{agrees, JSONParseError, Json, Node, Parsed};
use crate::grammar::{array_at, bool_at, document, null_at, object_at, value_at, MAX_DEPTH};
use crate::laws::lemma_document_sound;
use crate::number::{float_at, float_from, integer_at, integer_from};
use crate::parser::{array_from, bool_from, null_from, object_from, value_from};
use crate::text::{string_at, string_from};
use vstd::prelude::*;
use vstd::string::StrSliceExecFns;

verus! {

/// The characters of a text, one by one.
pub fn chars_of(text: &str) -> (chars: Vec<char>)
    ensures
        chars@ == text@,
{
    let mut chars: Vec<char> = Vec::new();
    for c in it: text.chars()
        invariant
            chars@ == it.seq().take(it.index()),
    {
        chars.push(c);
    }
    chars
}

/// A result on text says what the grammar says of that text from its start:
/// the node stands for the value and `rest` is the text from the end of the
/// match on, or the error is the same.
pub open spec fn reads(
    r: Result<(&str, Node), JSONParseError>,
    text: Seq<char>,
    m: Parsed<Json>,
) -> bool {
    match m {
        Ok((end, value)) => r matches Ok((rest, node)) && node@ == value && 0 <= end <= text.len()
            && rest@ == text.subrange(end, text.len() as int),
        Err(e) => r matches Err(x) && x == e,
    }
}

/// Turns the end of a match into the text that follows it.
fn with_rest<'a>(
    input: &'a str,
    chars: &Vec<char>,
    found: Result<(usize, Node), JSONParseError>,
) -> (r: Result<(&'a str, Node), JSONParseError>)
    requires
        chars@ == input@,
        found matches Ok((end, _)) ==> end <= chars.len(),
    ensures
        forall|m: Parsed<Json>| agrees(found, m) ==> reads(r, input@, m),
{
    match found {
        Ok((end, node)) => Ok((input.substring_char(end, chars.len()), node)),
        Err(e) => Err(e),
    }
}

/// Reads one value from the start of `input`, with the whitespace around it.
pub fn json_value(input: &str) -> (r: Result<(&str, Node), JSONParseError>)
    ensures
        reads(r, input@, value_at(input@, 0, MAX_DEPTH as nat)),
{
    let chars = chars_of(input);
    let found = value_from(chars.as_slice(), 0, MAX_DEPTH);
    with_rest(input, &chars, found)
}

/// Reads an array from the start of `input`.
pub fn json_array(input: &str) -> (r: Result<(&str, Node), JSONParseError>)
    ensures
        reads(r, input@, array_at(input@, 0, MAX_DEPTH as nat)),
{
    let chars = chars_of(input);
    let found = array_from(chars.as_slice(), 0, MAX_DEPTH);
    with_rest(input, &chars, found)
}

/// Reads an object from the start of `input`.
pub fn json_object(input: &str) -> (r: Result<(&str, Node), JSONParseError>)
    ensures
        reads(r, input@, object_at(input@, 0, MAX_DEPTH as nat)),
{
    let chars = chars_of(input);
    let found = object_from(chars.as_slice(), 0, MAX_DEPTH);
    with_rest(input, &chars, found)
}

/// Reads a string literal from the start of `input`.
pub fn json_string(input: &str) -> (r: Result<(&str, Node), JSONParseError>)
    ensures
        reads(r, input@, string_at(input@, 0)),
{
    let chars = chars_of(input);
    let found = string_from(chars.as_slice(), 0);
    with_rest(input, &chars, found)
}

/// Reads a float literal from the start of `input`.
pub fn json_float(input: &str) -> (r: Result<(&str, Node), JSONParseError>)
    ensures
        reads(r, input@, float_at(input@, 0)),
{
    let chars = chars_of(input);
    let found = float_from(chars.as_slice(), 0);
    with_rest(input, &chars, found)
}

/// Reads an integer literal from the start of `input`.
pub fn json_integer(input: &str) -> (r: Result<(&str, Node), JSONParseError>)
    ensures
        reads(r, input@, integer_at(input@, 0)),
{
    let chars = chars_of(input);
    let found = integer_from(chars.as_slice(), 0);
    with_rest(input, &chars, found)
}

/// Reads `false` or `true` from the start of `input`.
pub fn json_bool(input: &str) -> (r: Result<(&str, Node), JSONParseError>)
    ensures
        reads(r, input@, bool_at(input@, 0)),
{
    let chars = chars_of(input);
    let found = bool_from(chars.as_slice(), 0);
    with_rest(input, &chars, found)
}

/// Reads `null` from the start of `input`.
pub fn json_null(input: &str) -> (r: Result<(&str, Node), JSONParseError>)
    ensures
        reads(r, input@, null_at(input@, 0)),
{
    let chars = chars_of(input);
    let found = null_from(chars.as_slice(), 0);
    with_rest(input, &chars, found)
}

/// Parses a whole text as one JSON document: exactly one value, with
/// whitespace around it and nothing else.
pub fn parse(text: &str) -> (r: Result<Node, JSONParseError>)
    ensures
        match document(text@) {
            Ok(value) => r matches Ok(node) && node@ == value && value.well_formed(),
            Err(e) => r matches Err(x) && x == e && e != JSONParseError::BadFloat,
        },
{
    proof {
        lemma_document_sound(text@);
    }
    let chars = chars_of(text);
    match value_from(chars.as_slice(), 0, MAX_DEPTH) {
        Ok((end, node)) => if end == chars.len() {
            Ok(node)
        } else {
            Err(JSONParseError::Unparseable)
        },
        Err(e) => Err(e),
    }
}

} // verus!
