//! String literals: the lexical frame and the decoding of escapes.

use crate::ast::{agrees, JSONParseError, Json, Node, Parsed};
use crate::lexical::{char_at, plain_char, string_body, string_body_end};
use vstd::prelude::*;

verus! {

/// `String::push` of std appends the given character: the string afterwards
/// is the string before with `ch` at its end.
pub assume_specification[ String::push ](s: &mut String, ch: char)
    ensures
        final(s)@ == old(s)@.push(ch),
;

/// The text between `from` and `to`, as an owned string.
pub(crate) fn span_text(s: &[char], from: usize, to: usize) -> (t: String)
    requires
        from <= to <= s.len(),
    ensures
        t@ == s@.subrange(from as int, to as int),
{
    let mut t = String::new();
    let mut k: usize = from;
    while k < to
        invariant
            from <= k <= to <= s.len(),
            t@ == s@.subrange(from as int, k as int),
        decreases to - k,
    {
        t.push(s[k]);
        proof {
            assert(s@.subrange(from as int, k as int).push(s@[k as int]) =~= s@.subrange(
                from as int,
                k as int + 1,
            ));
        }
        k += 1;
    }
    t
}

/// The error of `escape8259::unescape`, which holds nothing: it only says
/// that the decoder rejected its input.
#[verifier::external_type_specification]
#[verifier::external_body]
pub struct ExUnescapeError(escape8259::UnescapeError);

/// What `escape8259::unescape` makes of a raw string body: the decoded text,
/// or nothing where it rejects the body.
pub uninterp spec fn unescaped(raw: Seq<char>) -> Option<Seq<char>>;

/// Every character of `raw` may stand unescaped in a string literal.
pub open spec fn all_plain(raw: Seq<char>) -> bool {
    forall|k: int| 0 <= k < raw.len() ==> plain_char(#[trigger] raw[k])
}

/// The decoded text of a raw string body. A body without escapes decodes to
/// itself; for every other body the decoder decides.
pub open spec fn decoded(raw: Seq<char>) -> Option<Seq<char>> {
    if all_plain(raw) {
        Some(raw)
    } else {
        unescaped(raw)
    }
}

/// Calls `escape8259::unescape`. The contract names the decoder's result and
/// states the one case that its documentation gives in a line: characters
/// outside the control range, other than the double quote and the backslash,
/// are copied to the output as they are.
#[verifier::external_body]
fn unescape(raw: &str) -> (r: Result<String, escape8259::UnescapeError>)
    ensures
        match r {
            Ok(t) => unescaped(raw@) == Some(t@) && (all_plain(raw@) ==> t@ == raw@),
            Err(_) => unescaped(raw@) is None && !all_plain(raw@),
        },
{
    escape8259::unescape(raw)
}

/// A string literal at `i`: a double quote, a string body, a double quote.
/// Gives the decoded text, or `BadEscape` where the body cannot be decoded.
pub open spec fn string_literal_at(s: Seq<char>, i: int) -> Parsed<Seq<char>> {
    if char_at(s, i, '"') && char_at(s, string_body_end(s, i + 1), '"') {
        match decoded(s.subrange(i + 1, string_body_end(s, i + 1))) {
            Some(t) => Ok((string_body_end(s, i + 1) + 1, t)),
            None => Err(JSONParseError::BadEscape),
        }
    } else {
        Err(JSONParseError::Unparseable)
    }
}

/// A string literal at `i`, as a value.
pub open spec fn string_at(s: Seq<char>, i: int) -> Parsed<Json> {
    match string_literal_at(s, i) {
        Ok((end, t)) => Ok((end, Json::Str(t))),
        Err(e) => Err(e),
    }
}

/// What a string literal that ends at `end` gives once its body went through
/// the decoder: the decoded text, or `BadEscape`.
pub fn string_outcome(end: usize, outcome: Result<String, escape8259::UnescapeError>) -> (r:
    Result<(usize, String), JSONParseError>)
    ensures
        outcome matches Ok(t) ==> r == Ok::<(usize, String), JSONParseError>((end, t)),
        outcome is Err ==> r == Err::<(usize, String), JSONParseError>(
            JSONParseError::BadEscape,
        ),
{
    match outcome {
        Ok(t) => Ok((end, t)),
        Err(_) => Err(JSONParseError::BadEscape),
    }
}

/// Recognizes a string literal at `i` and decodes its body.
pub fn string_literal(s: &[char], i: usize) -> (r: Result<(usize, String), JSONParseError>)
    ensures
        match string_literal_at(s@, i as int) {
            Ok((end, t)) => r matches Ok((e, text)) && e as int == end && text@ == t,
            Err(e) => r matches Err(x) && x == e,
        },
        r matches Ok((end, _)) ==> i + 1 < end <= s.len(),
{
    if !(i < s.len() && s[i] == '"') {
        return Err(JSONParseError::Unparseable);
    }
    let j = string_body(s, i + 1);
    if !(j < s.len() && s[j] == '"') {
        return Err(JSONParseError::Unparseable);
    }
    let raw = span_text(s, i + 1, j);
    string_outcome(j + 1, unescape(raw.as_str()))
}

/// Recognizes a string literal at `i` and gives it as a node.
pub fn string_from(s: &[char], i: usize) -> (r: Result<(usize, Node), JSONParseError>)
    ensures
        agrees(r, string_at(s@, i as int)),
        r matches Ok((end, _)) ==> i < end <= s.len(),
{
    match string_literal(s, i) {
        Ok((end, t)) => Ok((end, Node::Str(t))),
        Err(e) => Err(e),
    }
}

} // verus!
