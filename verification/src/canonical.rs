//! A canonical text for each value, and the proof that it parses back to the
//! value: no whitespace, integers in decimal without superfluous zeros,
//! floats by their own text, strings and keys without escapes.

use crate::ast::{JSONParseError, Json};
use crate::document::{
    all_space, meaning, nested_within, render, valid, within_limits, Entry, Syntax,
};
use crate::grammar::{document, MAX_DEPTH};
use crate::laws::lemma_valid_document_parses;
use crate::lexical::{
    digits_end, is_digit, is_float_text, is_integer_text, is_string_body, string_body_end,
};
use crate::number::{decimal_value, digit_value, integer_value};
use crate::text::{all_plain, decoded};
use vstd::prelude::*;

verus! {

/// The character that writes a digit.
pub open spec fn digit_char(d: nat) -> char {
    if d == 0 {
        '0'
    } else if d == 1 {
        '1'
    } else if d == 2 {
        '2'
    } else if d == 3 {
        '3'
    } else if d == 4 {
        '4'
    } else if d == 5 {
        '5'
    } else if d == 6 {
        '6'
    } else if d == 7 {
        '7'
    } else if d == 8 {
        '8'
    } else {
        '9'
    }
}

/// A natural number in decimal, without superfluous zeros.
pub open spec fn decimal_digits(n: nat) -> Seq<char>
    decreases n,
{
    if n < 10 {
        seq![digit_char(n)]
    } else {
        decimal_digits(n / 10).push(digit_char(n % 10))
    }
}

/// An integer in decimal, with a minus sign where it is negative.
pub open spec fn integer_text(v: int) -> Seq<char> {
    if v < 0 {
        seq!['-'] + decimal_digits((-v) as nat)
    } else {
        decimal_digits(v as nat)
    }
}

/// The tree of the canonical text of a value.
pub open spec fn canonical(v: Json) -> Syntax
    decreases v,
{
    match v {
        Json::Null => Syntax::Null,
        Json::Bool(b) => if b {
            Syntax::True
        } else {
            Syntax::False
        },
        Json::Integer(n) => Syntax::Number(integer_text(n)),
        Json::Float(t) => Syntax::Number(t),
        Json::Str(t) => Syntax::Str(t),
        Json::Array(items) => Syntax::Array(
            Seq::empty(),
            Seq::new(
                items.len(),
                |k: int|
                    if 0 <= k < items.len() {
                        canonical(items[k])
                    } else {
                        Syntax::Null
                    },
            ),
        ),
        Json::Object(members) => Syntax::Object(
            Seq::empty(),
            Seq::new(
                members.len(),
                |k: int|
                    if 0 <= k < members.len() {
                        Entry {
                            before: Seq::empty(),
                            key: members[k].key,
                            between: Seq::empty(),
                            value: canonical(members[k].value),
                        }
                    } else {
                        Entry {
                            before: Seq::empty(),
                            key: Seq::empty(),
                            between: Seq::empty(),
                            value: Syntax::Null,
                        }
                    },
            ),
        ),
    }
}

/// The canonical text of a value.
pub open spec fn canonical_text(v: Json) -> Seq<char> {
    render(canonical(v))
}

/// No string and no key of the value holds a character that a string
/// literal must escape.
pub open spec fn plain_strings(v: Json) -> bool
    decreases v,
{
    match v {
        Json::Str(t) => all_plain(t),
        Json::Array(items) => forall|k: int|
            0 <= k < items.len() ==> plain_strings(#[trigger] items[k]),
        Json::Object(members) => forall|k: int|
            0 <= k < members.len() ==> all_plain((#[trigger] members[k]).key) && plain_strings(
                members[k].value,
            ),
        _ => true,
    }
}

/// No array or object of the value lies inside more than `depth - 1` others.
pub open spec fn depth_within(v: Json, depth: nat) -> bool
    decreases v,
{
    match v {
        Json::Array(items) => depth > 0 && forall|k: int|
            0 <= k < items.len() ==> depth_within(#[trigger] items[k], (depth - 1) as nat),
        Json::Object(members) => depth > 0 && forall|k: int|
            0 <= k < members.len() ==> depth_within(
                (#[trigger] members[k]).value,
                (depth - 1) as nat,
            ),
        _ => true,
    }
}

/// The decimal form of a number holds digits only, starts with no zero
/// unless the number is zero, and writes the number.
pub proof fn lemma_decimal_digits(n: nat)
    ensures
        decimal_digits(n).len() >= 1,
        forall|k: int| 0 <= k < decimal_digits(n).len() ==> is_digit(#[trigger] decimal_digits(n)[k]),
        n >= 1 ==> decimal_digits(n)[0] != '0',
        n == 0 ==> decimal_digits(n) == seq!['0'],
        decimal_value(decimal_digits(n)) == n,
    decreases n,
{
    let t = decimal_digits(n);
    if n < 10 {
        assert(t.drop_last() =~= Seq::<char>::empty());
        assert(decimal_value(t.drop_last()) == 0);
        assert(digit_value(digit_char(n)) == n);
    } else {
        lemma_decimal_digits(n / 10);
        let head = decimal_digits(n / 10);
        assert(t.drop_last() =~= head);
        assert(t[0] == head[0]);
        assert(digit_value(digit_char(n % 10)) == n % 10);
        assert forall|k: int| 0 <= k < t.len() implies is_digit(#[trigger] t[k]) by {
            if k < head.len() {
                assert(t[k] == head[k]);
            }
        }
    }
}

/// Where only digits stand from `k` on, the run of digits at `k` reaches the
/// end.
pub proof fn lemma_digits_to_end(t: Seq<char>, k: int)
    requires
        0 <= k <= t.len(),
        forall|m: int| k <= m < t.len() ==> is_digit(#[trigger] t[m]),
    ensures
        digits_end(t, k) == t.len(),
    decreases t.len() - k,
{
    if k < t.len() {
        lemma_digits_to_end(t, k + 1);
    }
}

/// The decimal form of an integer is an integer literal that writes it, and
/// no float literal.
pub proof fn lemma_decimal_integer(v: int)
    ensures
        is_integer_text(integer_text(v)),
        !is_float_text(integer_text(v)),
        integer_value(integer_text(v), 0, integer_text(v).len() as int) == v,
{
    let t = integer_text(v);
    if v < 0 {
        let d = decimal_digits((-v) as nat);
        lemma_decimal_digits((-v) as nat);
        assert(t[0] == '-');
        assert(t[1] == d[0]);
        assert forall|m: int| 2 <= m < t.len() implies is_digit(#[trigger] t[m]) by {
            assert(t[m] == d[m - 1]);
        }
        lemma_digits_to_end(t, 2);
        assert(t.subrange(1, t.len() as int) =~= d);
    } else {
        let d = decimal_digits(v as nat);
        lemma_decimal_digits(v as nat);
        if v > 0 {
            lemma_digits_to_end(t, 1);
        }
        assert(t.subrange(0, t.len() as int) =~= d);
    }
}

/// Text without a character to escape is a string body as it stands.
pub proof fn lemma_plain_body(t: Seq<char>, k: int)
    requires
        all_plain(t),
        0 <= k <= t.len(),
    ensures
        string_body_end(t, k) == t.len(),
    decreases t.len() - k,
{
    if k < t.len() {
        lemma_plain_body(t, k + 1);
    }
}

/// The canonical tree of a well formed value is a valid tree that writes
/// the value, where the value's strings need no escape.
pub proof fn lemma_canonical(v: Json, depth: nat)
    requires
        v.well_formed(),
        plain_strings(v),
        depth_within(v, depth),
    ensures
        valid(canonical(v)),
        within_limits(canonical(v)),
        nested_within(canonical(v), depth),
        meaning(canonical(v)) == v,
    decreases v,
{
    match v {
        Json::Integer(n) => {
            lemma_decimal_integer(n);
        },
        Json::Str(t) => {
            lemma_plain_body(t, 0);
        },
        Json::Array(items) => {
            let trees = canonical(v)->Array_1;
            assert(trees.len() == items.len());
            assert forall|k: int| 0 <= k < items.len() implies valid(#[trigger] trees[k])
                && within_limits(trees[k]) && nested_within(trees[k], (depth - 1) as nat)
                && meaning(trees[k]) == items[k] by {
                lemma_canonical(items[k], (depth - 1) as nat);
            }
            match meaning(canonical(v)) {
                Json::Array(back) => {
                    assert(back =~= items);
                },
                _ => {},
            }
        },
        Json::Object(members) => {
            let entries = canonical(v)->Object_1;
            assert(entries.len() == members.len());
            assert forall|k: int| 0 <= k < members.len() implies {
                &&& all_space((#[trigger] entries[k]).before)
                &&& is_string_body(entries[k].key)
                &&& all_space(entries[k].between)
                &&& valid(entries[k].value)
                &&& decoded(entries[k].key) == Some(members[k].key)
                &&& within_limits(entries[k].value)
                &&& nested_within(entries[k].value, (depth - 1) as nat)
                &&& meaning(entries[k].value) == members[k].value
            } by {
                lemma_plain_body(members[k].key, 0);
                lemma_canonical(members[k].value, (depth - 1) as nat);
            }
            match meaning(canonical(v)) {
                Json::Object(back) => {
                    assert(back =~= members);
                },
                _ => {},
            }
        },
        _ => {},
    }
}

/// Writing a value as its canonical text and parsing that text gives the
/// value back: for every well formed value whose strings and keys need no
/// escape and whose arrays and objects are nested no more deeply than
/// `MAX_DEPTH`.
pub proof fn lemma_round_trip(v: Json)
    requires
        v.well_formed(),
        plain_strings(v),
        depth_within(v, MAX_DEPTH as nat),
    ensures
        document(canonical_text(v)) == Ok::<Json, JSONParseError>(v),
{
    lemma_canonical(v, MAX_DEPTH as nat);
    lemma_valid_document_parses(canonical(v));
}

} // verus!
