//! JSON texts as RFC 8259 defines them: a syntax tree for each way in which
//! the grammar derives a text, and the text that each tree spells.
//!
//! A text is a valid document exactly if some valid tree spells it. This is
//! the grammar read as a generator, with no regard to how a parser goes
//! about it.

use crate::ast::{Json, Member};
use crate::grammar::MAX_DEPTH;
use crate::lexical::{is_float_text, is_integer_text, is_space, is_string_body};
use crate::number::integer_value;
use crate::text::decoded;
use vstd::prelude::*;

verus! {

/// One derivation of a JSON text.
pub enum Syntax {
    /// `null`
    Null,
    /// `false`
    False,
    /// `true`
    True,
    /// A number, by its text: `[ minus ] int [ frac ] [ exp ]`.
    Number(Seq<char>),
    /// A string, by the characters between its quotation marks.
    Str(Seq<char>),
    /// `[`, the elements separated by `,`, and `]`. Where there is no element,
    /// the whitespace between the brackets.
    Array(Seq<char>, Seq<Syntax>),
    /// `{`, the members separated by `,`, and `}`. Where there is no member,
    /// the whitespace between the braces.
    Object(Seq<char>, Seq<Entry>),
    /// A value with whitespace before and after it.
    Padded(Seq<char>, Box<Syntax>, Seq<char>),
}

/// One member of an object: whitespace, the key in quotation marks,
/// whitespace, `:`, and the value.
pub struct Entry {
    pub before: Seq<char>,
    pub key: Seq<char>,
    pub between: Seq<char>,
    pub value: Syntax,
}

/// Whitespace only.
pub open spec fn all_space(t: Seq<char>) -> bool {
    forall|k: int| 0 <= k < t.len() ==> is_space(#[trigger] t[k])
}

/// The text that a tree spells.
pub open spec fn render(x: Syntax) -> Seq<char>
    decreases x, 0int,
{
    match x {
        Syntax::Null => seq!['n', 'u', 'l', 'l'],
        Syntax::False => seq!['f', 'a', 'l', 's', 'e'],
        Syntax::True => seq!['t', 'r', 'u', 'e'],
        Syntax::Number(t) => t,
        Syntax::Str(body) => seq!['"'] + body + seq!['"'],
        Syntax::Array(gap, items) => if items.len() == 0 {
            seq!['['] + gap + seq![']']
        } else {
            seq!['['] + render(items[0]) + render_rest(items, 1) + seq![']']
        },
        Syntax::Object(gap, entries) => if entries.len() == 0 {
            seq!['{'] + gap + seq!['}']
        } else {
            seq!['{'] + render_entry(entries[0]) + render_entries(entries, 1) + seq!['}']
        },
        Syntax::Padded(before, inner, after) => before + render(*inner) + after,
    }
}

/// The text of the elements from the `k`-th on, each after a comma.
pub open spec fn render_rest(items: Seq<Syntax>, k: int) -> Seq<char>
    decreases items, items.len() - k,
{
    if 0 <= k < items.len() {
        seq![','] + render(items[k]) + render_rest(items, k + 1)
    } else {
        Seq::empty()
    }
}

/// The text of one member.
pub open spec fn render_entry(e: Entry) -> Seq<char>
    decreases e, 0int,
{
    e.before + seq!['"'] + e.key + seq!['"'] + e.between + seq![':'] + render(e.value)
}

/// The text of the members from the `k`-th on, each after a comma.
pub open spec fn render_entries(entries: Seq<Entry>, k: int) -> Seq<char>
    decreases entries, entries.len() - k,
{
    if 0 <= k < entries.len() {
        seq![','] + render_entry(entries[k]) + render_entries(entries, k + 1)
    } else {
        Seq::empty()
    }
}

/// The tree follows the grammar of RFC 8259.
pub open spec fn valid(x: Syntax) -> bool
    decreases x,
{
    match x {
        Syntax::Null => true,
        Syntax::False => true,
        Syntax::True => true,
        Syntax::Number(t) => is_integer_text(t) || is_float_text(t),
        Syntax::Str(body) => is_string_body(body),
        Syntax::Array(gap, items) => all_space(gap) && forall|k: int|
            0 <= k < items.len() ==> valid(#[trigger] items[k]),
        Syntax::Object(gap, entries) => all_space(gap) && forall|k: int|
            0 <= k < entries.len() ==> {
                &&& all_space((#[trigger] entries[k]).before)
                &&& is_string_body(entries[k].key)
                &&& all_space(entries[k].between)
                &&& valid(entries[k].value)
            },
        Syntax::Padded(before, inner, after) => all_space(before) && valid(*inner) && all_space(
            after,
        ),
    }
}

/// The tree stays within what the parser holds: every integer fits in 64
/// signed bits and every string and key can be decoded.
pub open spec fn within_limits(x: Syntax) -> bool
    decreases x,
{
    match x {
        Syntax::Number(t) => is_integer_text(t) ==> i64::MIN <= integer_value(t, 0, t.len() as int)
            <= i64::MAX,
        Syntax::Str(body) => decoded(body) is Some,
        Syntax::Array(_, items) => forall|k: int|
            0 <= k < items.len() ==> within_limits(#[trigger] items[k]),
        Syntax::Object(_, entries) => forall|k: int|
            0 <= k < entries.len() ==> decoded((#[trigger] entries[k]).key) is Some
                && within_limits(entries[k].value),
        Syntax::Padded(_, inner, _) => within_limits(*inner),
        _ => true,
    }
}

/// No array or object of the tree lies inside more than `depth - 1` others.
pub open spec fn nested_within(x: Syntax, depth: nat) -> bool
    decreases x,
{
    match x {
        Syntax::Array(_, items) => depth > 0 && forall|k: int|
            0 <= k < items.len() ==> nested_within(#[trigger] items[k], (depth - 1) as nat),
        Syntax::Object(_, entries) => depth > 0 && forall|k: int|
            0 <= k < entries.len() ==> nested_within(
                (#[trigger] entries[k]).value,
                (depth - 1) as nat,
            ),
        Syntax::Padded(_, inner, _) => nested_within(*inner, depth),
        _ => true,
    }
}

/// The value that a tree writes.
pub open spec fn meaning(x: Syntax) -> Json
    decreases x,
{
    match x {
        Syntax::Null => Json::Null,
        Syntax::False => Json::Bool(false),
        Syntax::True => Json::Bool(true),
        Syntax::Number(t) => if is_float_text(t) {
            Json::Float(t)
        } else {
            Json::Integer(integer_value(t, 0, t.len() as int))
        },
        Syntax::Str(body) => Json::Str(decoded(body).unwrap()),
        Syntax::Array(_, items) => Json::Array(
            Seq::new(
                items.len(),
                |k: int|
                    if 0 <= k < items.len() {
                        meaning(items[k])
                    } else {
                        Json::Null
                    },
            ),
        ),
        Syntax::Object(_, entries) => Json::Object(
            Seq::new(
                entries.len(),
                |k: int|
                    if 0 <= k < entries.len() {
                        Member {
                            key: decoded(entries[k].key).unwrap(),
                            value: meaning(entries[k].value),
                        }
                    } else {
                        Member { key: Seq::empty(), value: Json::Null }
                    },
            ),
        ),
        Syntax::Padded(_, inner, _) => meaning(*inner),
    }
}

/// A valid document that the parser holds: a valid tree within the limits,
/// nested no more deeply than `MAX_DEPTH`.
pub open spec fn readable(x: Syntax) -> bool {
    valid(x) && within_limits(x) && nested_within(x, MAX_DEPTH as nat)
}

} // verus!
