//! Number literals: the value of an integer literal and the text of a float
//! literal.

use crate::ast::{agrees, JSONParseError, Json, Node, Parsed};
use crate::lexical::{
    char_at, digits_end, float_body, float_body_end, integer_body, integer_body_end, is_digit,
};
use crate::text::span_text;
use vstd::prelude::*;

verus! {

/// The number that a decimal digit stands for.
pub open spec fn digit_value(c: char) -> nat {
    (c as u32 - 0x30) as nat
}

/// The number that a sequence of decimal digits writes.
pub open spec fn decimal_value(digits: Seq<char>) -> nat
    decreases digits.len(),
{
    if digits.len() == 0 {
        0
    } else {
        decimal_value(digits.drop_last()) * 10 + digit_value(digits.last())
    }
}

/// The number that the integer literal between `i` and `j` writes.
pub open spec fn integer_value(s: Seq<char>, i: int, j: int) -> int {
    if char_at(s, i, '-') {
        -(decimal_value(s.subrange(i + 1, j)) as int)
    } else {
        decimal_value(s.subrange(i, j)) as int
    }
}

/// An integer literal at `i`: its value where that fits in 64 signed bits,
/// and `BadInt` where it does not.
pub open spec fn integer_at(s: Seq<char>, i: int) -> Parsed<Json> {
    match integer_body_end(s, i) {
        None => Err(JSONParseError::Unparseable),
        Some(j) => if i64::MIN <= integer_value(s, i, j) <= i64::MAX {
            Ok((j, Json::Integer(integer_value(s, i, j))))
        } else {
            Err(JSONParseError::BadInt)
        },
    }
}

/// A float literal at `i`: the text that matches the float grammar.
pub open spec fn float_at(s: Seq<char>, i: int) -> Parsed<Json> {
    match float_body_end(s, i) {
        None => Err(JSONParseError::Unparseable),
        Some(j) => Ok((j, Json::Float(s.subrange(i, j)))),
    }
}

/// A run of digits ends at or after its start, inside the text, and holds
/// digits only.
pub proof fn lemma_digits_run(s: Seq<char>, i: int)
    ensures
        i <= digits_end(s, i),
        0 <= i <= s.len() ==> digits_end(s, i) <= s.len(),
        forall|k: int| 0 <= i <= k < digits_end(s, i) ==> is_digit(#[trigger] s[k]),
    decreases s.len() - i,
{
    if 0 <= i < s.len() && is_digit(s[i]) {
        lemma_digits_run(s, i + 1);
    }
}

/// The digits of a prefix write a number that is no greater than the number
/// of the whole.
pub proof fn lemma_decimal_prefix(digits: Seq<char>, n: int)
    requires
        0 <= n <= digits.len(),
    ensures
        decimal_value(digits.take(n)) <= decimal_value(digits),
    decreases digits.len() - n,
{
    if n < digits.len() {
        lemma_decimal_prefix(digits.drop_last(), n);
        assert(digits.drop_last().take(n) =~= digits.take(n));
    } else {
        assert(digits.take(n) =~= digits);
    }
}

/// Two to the power of 63: the magnitude of the least `i64`.
pub const INT_LIMIT: u64 = 9223372036854775808;

/// The number that the digits between `from` and `to` write, where it is at
/// most `INT_LIMIT`.
fn magnitude(s: &[char], from: usize, to: usize) -> (r: Option<u64>)
    requires
        from <= to <= s.len(),
        forall|k: int| from <= k < to ==> is_digit(#[trigger] s@[k]),
    ensures
        r matches Some(v) ==> v == decimal_value(s@.subrange(from as int, to as int)) && v
            <= INT_LIMIT,
        r is None ==> decimal_value(s@.subrange(from as int, to as int)) > INT_LIMIT,
{
    let mut acc: u64 = 0;
    let mut k: usize = from;
    while k < to
        invariant
            from <= k <= to <= s.len(),
            forall|m: int| from <= m < to ==> is_digit(#[trigger] s@[m]),
            acc == decimal_value(s@.subrange(from as int, k as int)),
            acc <= INT_LIMIT,
        decreases to - k,
    {
        let d: u64 = (s[k] as u32 - 0x30) as u64;
        proof {
            let next = s@.subrange(from as int, k as int + 1);
            assert(next.drop_last() =~= s@.subrange(from as int, k as int));
            assert(decimal_value(next) == acc * 10 + d);
        }
        if acc > (INT_LIMIT - d) / 10 {
            proof {
                let whole = s@.subrange(from as int, to as int);
                lemma_decimal_prefix(whole, k as int + 1 - from as int);
                assert(whole.take(k as int + 1 - from as int) =~= s@.subrange(
                    from as int,
                    k as int + 1,
                ));
            }
            return None;
        }
        acc = acc * 10 + d;
        k += 1;
    }
    Some(acc)
}

/// Recognizes an integer literal at `i` and converts it.
pub fn integer_from(s: &[char], i: usize) -> (r: Result<(usize, Node), JSONParseError>)
    ensures
        agrees(r, integer_at(s@, i as int)),
        r matches Ok((end, _)) ==> i < end <= s.len(),
{
    match integer_body(s, i) {
        None => Err(JSONParseError::Unparseable),
        Some(j) => {
            let negative = s[i] == '-';
            let start: usize = if negative {
                i + 1
            } else {
                i
            };
            proof {
                lemma_digits_run(s@, start as int + 1);
            }
            match magnitude(s, start, j) {
                None => Err(JSONParseError::BadInt),
                Some(m) => if negative {
                    if m == INT_LIMIT {
                        Ok((j, Node::Integer(i64::MIN)))
                    } else {
                        Ok((j, Node::Integer(-(m as i64))))
                    }
                } else {
                    if m == INT_LIMIT {
                        Err(JSONParseError::BadInt)
                    } else {
                        Ok((j, Node::Integer(m as i64)))
                    }
                },
            }
        },
    }
}

/// Recognizes a float literal at `i` and keeps its text.
pub fn float_from(s: &[char], i: usize) -> (r: Result<(usize, Node), JSONParseError>)
    ensures
        agrees(r, float_at(s@, i as int)),
        r matches Ok((end, _)) ==> i < end <= s.len(),
{
    match float_body(s, i) {
        None => Err(JSONParseError::Unparseable),
        Some(j) => Ok((j, Node::Float(span_text(s, i, j)))),
    }
}

} // verus!
