//! What holds of the grammar on every text.

use crate::ast::{JSONParseError, Json, Member};
use crate::document::{
    all_space, meaning, nested_within, readable, render, render_entries, render_entry,
    render_rest, valid, within_limits, Entry, Syntax,
};
use crate::grammar::{
    alternative_at, array_at, document, elements_at, member_at, members_at, more_elements,
    more_members, object_at, scalar_at, value_at, MAX_DEPTH,
};
use crate::lexical::{
    char_at, digits_end, escape_end, exp_end, exp_sign_end, float_body_end, frac_end,
    integer_body_end, is_digit, is_float_text, is_integer_text, is_space, is_string_body,
    plain_char, sign_end, spaced_end, string_body_end, word_at, ws_end,
};
use crate::number::{integer_value, lemma_digits_run};
use crate::text::{decoded, string_literal_at};
use vstd::prelude::*;

verus! {

/// Nothing at `k` can prolong a value that ends there: the text ends, or
/// whitespace, a comma or a closing bracket stands at `k`.
pub open spec fn stops(s: Seq<char>, k: int) -> bool {
    k >= s.len() || is_space(s[k]) || s[k] == ',' || s[k] == ']' || s[k] == '}'
}

/// A run of whitespace ends at or after its start, inside the text, where
/// no whitespace stands; skipping whitespace twice skips no more.
pub proof fn lemma_ws_end(s: Seq<char>, i: int)
    ensures
        i <= ws_end(s, i),
        0 <= i <= s.len() ==> ws_end(s, i) <= s.len(),
        ws_end(s, ws_end(s, i)) == ws_end(s, i),
        !(0 <= ws_end(s, i) < s.len() && is_space(s[ws_end(s, i)])),
    decreases s.len() - i,
{
    if 0 <= i < s.len() && is_space(s[i]) {
        lemma_ws_end(s, i + 1);
    }
}

/// Whitespace between `i` and `j` is skipped from `i` as from `j`.
pub proof fn lemma_ws_skips(s: Seq<char>, i: int, j: int)
    requires
        0 <= i <= j <= s.len(),
        forall|k: int| i <= k < j ==> is_space(#[trigger] s[k]),
    ensures
        ws_end(s, i) == ws_end(s, j),
    decreases j - i,
{
    if i < j {
        lemma_ws_skips(s, i + 1, j);
    }
}

/// A character that is recognized with the whitespace around it ends after
/// its start, inside the text and behind all whitespace.
pub proof fn lemma_spaced_end(s: Seq<char>, i: int, c: char)
    ensures
        spaced_end(s, i, c) matches Some(end) ==> 0 <= i < end <= s.len() && ws_end(s, end)
            == end,
{
    lemma_ws_end(s, i);
    lemma_ws_end(s, ws_end(s, i) + 1);
}

/// A word stands at `i` exactly if each of its characters stands in its place.
pub proof fn lemma_word_chars(s: Seq<char>, i: int, w: Seq<char>)
    ensures
        word_at(s, i, w) <==> (0 <= i && i + w.len() <= s.len() && forall|k: int|
            0 <= k < w.len() ==> s[i + k] == #[trigger] w[k]),
{
    if 0 <= i && i + w.len() <= s.len() {
        let part = s.subrange(i, i + w.len());
        if part == w {
            assert forall|k: int| 0 <= k < w.len() implies s[i + k] == #[trigger] w[k] by {
                assert(part[k] == s[i + k]);
            }
        }
        if forall|k: int| 0 <= k < w.len() ==> s[i + k] == #[trigger] w[k] {
            assert(part =~= w);
        }
    }
}

/// Two words stand one after the other exactly if their concatenation stands
/// there.
pub proof fn lemma_word_split(s: Seq<char>, i: int, a: Seq<char>, b: Seq<char>)
    ensures
        word_at(s, i, a + b) <==> word_at(s, i, a) && word_at(s, i + a.len(), b),
{
    lemma_word_chars(s, i, a + b);
    lemma_word_chars(s, i, a);
    lemma_word_chars(s, i + a.len(), b);
    let w = a + b;
    if word_at(s, i, w) {
        assert forall|k: int| 0 <= k < a.len() implies s[i + k] == #[trigger] a[k] by {
            assert(w[k] == a[k]);
        }
        assert forall|k: int| 0 <= k < b.len() implies s[i + a.len() + k] == #[trigger] b[k] by {
            assert(w[a.len() + k] == b[k]);
        }
    }
    if word_at(s, i, a) && word_at(s, i + a.len(), b) {
        assert forall|k: int| 0 <= k < w.len() implies s[i + k] == #[trigger] w[k] by {
            if k < a.len() {
                assert(w[k] == a[k]);
            } else {
                assert(w[k] == b[k - a.len()]);
                assert(s[i + a.len() + (k - a.len())] == b[k - a.len()]);
            }
        }
    }
}

/// Whitespace that stands at `i` as a word is skipped.
pub proof fn lemma_ws_word(s: Seq<char>, i: int, w: Seq<char>)
    requires
        word_at(s, i, w),
        all_space(w),
    ensures
        ws_end(s, i) == ws_end(s, i + w.len()),
{
    lemma_word_chars(s, i, w);
    assert forall|k: int| i <= k < i + w.len() implies is_space(#[trigger] s[k]) by {
        assert(s[i + (k - i)] == w[k - i]);
    }
    lemma_ws_skips(s, i, i + w.len());
}

/// Where the word `t` stands at `i` and nothing prolongs it, a run of digits
/// inside the word ends in the text where it ends in the word.
pub proof fn lemma_digits_transfer(t: Seq<char>, s: Seq<char>, i: int, k: int)
    requires
        word_at(s, i, t),
        stops(s, i + t.len()),
        0 <= k <= t.len(),
    ensures
        k <= digits_end(t, k) <= t.len(),
        digits_end(s, i + k) == i + digits_end(t, k),
    decreases t.len() - k,
{
    lemma_word_chars(s, i, t);
    if k < t.len() {
        assert(s[i + k] == t[k]);
        if is_digit(t[k]) {
            lemma_digits_transfer(t, s, i, k + 1);
        }
    }
}

/// Where the word `t` stands at `i` and nothing prolongs it, every run of
/// digits inside the word ends in the text where it ends in the word.
pub proof fn lemma_digit_runs(t: Seq<char>, s: Seq<char>, i: int)
    requires
        word_at(s, i, t),
        stops(s, i + t.len()),
    ensures
        forall|k: int|
            0 <= k <= t.len() ==> k <= #[trigger] digits_end(t, k) <= t.len() && digits_end(
                s,
                i + k,
            ) == i + digits_end(t, k),
{
    assert forall|k: int| 0 <= k <= t.len() implies k <= #[trigger] digits_end(t, k) <= t.len()
        && digits_end(s, i + k) == i + digits_end(t, k) by {
        lemma_digits_transfer(t, s, i, k);
    }
}

/// A float literal that stands in a text, with nothing to prolong it, is
/// recognized there as the float literal that it is.
pub proof fn lemma_float_text(s: Seq<char>, i: int, t: Seq<char>)
    requires
        word_at(s, i, t),
        is_float_text(t),
        stops(s, i + t.len()),
    ensures
        float_body_end(s, i) == Some(i + t.len()),
        t.len() > 0,
        t[0] == '-' || is_digit(t[0]),
{
    lemma_word_chars(s, i, t);
    lemma_digit_runs(t, s, i);
    assert(s[i + 0] == t[0]);
    let j = integer_body_end(t, 0).unwrap();
    assert(integer_body_end(s, i) == Some(i + j));
    match frac_end(t, j) {
        Some(k) => {
            assert(s[i + j] == t[j]);
            assert(s[i + (j + 1)] == t[j + 1]);
            assert(frac_end(s, i + j) == Some(i + k));
            lemma_exp_text(s, i, t, k);
        },
        None => {
            lemma_no_frac(s, i, t, j);
            lemma_exp_text(s, i, t, j);
        },
    }
}

/// An exponent part inside a word that nothing prolongs is recognized in
/// the text as in the word.
proof fn lemma_exp_text(s: Seq<char>, i: int, t: Seq<char>, k: int)
    requires
        word_at(s, i, t),
        stops(s, i + t.len()),
        0 <= k <= t.len(),
    ensures
        match exp_end(t, k) {
            Some(e) => exp_end(s, i + k) == Some(i + e) && k < e <= t.len(),
            None => exp_end(s, i + k) is None,
        },
{
    lemma_word_chars(s, i, t);
    lemma_digit_runs(t, s, i);
    if k < t.len() {
        assert(s[i + k] == t[k]);
    }
    if k + 1 < t.len() {
        assert(s[i + (k + 1)] == t[k + 1]);
    }
    if k + 2 < t.len() {
        assert(s[i + (k + 2)] == t[k + 2]);
    }
}

/// Where no fraction part stands at `k` of a word that nothing prolongs,
/// none stands there in the text.
proof fn lemma_no_frac(s: Seq<char>, i: int, t: Seq<char>, k: int)
    requires
        word_at(s, i, t),
        stops(s, i + t.len()),
        0 <= k <= t.len(),
        frac_end(t, k) is None,
    ensures
        frac_end(s, i + k) is None,
{
    lemma_word_chars(s, i, t);
    if k < t.len() {
        assert(s[i + k] == t[k]);
    }
    if k + 1 < t.len() {
        assert(s[i + (k + 1)] == t[k + 1]);
    }
}

/// An integer literal that stands in a text, with nothing to prolong it, is
/// recognized there as an integer literal of the same value, and not as a
/// float literal.
pub proof fn lemma_integer_text(s: Seq<char>, i: int, t: Seq<char>)
    requires
        word_at(s, i, t),
        is_integer_text(t),
        stops(s, i + t.len()),
    ensures
        integer_body_end(s, i) == Some(i + t.len()),
        float_body_end(s, i) is None,
        integer_value(s, i, i + t.len()) == integer_value(t, 0, t.len() as int),
        t.len() > 0,
        t[0] == '-' || is_digit(t[0]),
{
    lemma_word_chars(s, i, t);
    lemma_digit_runs(t, s, i);
    assert(s[i + 0] == t[0]);
    assert(integer_body_end(s, i) == Some(i + t.len()));
    assert(s.subrange(i, i + t.len()) == t);
    assert(t.subrange(0, t.len() as int) =~= t);
    assert(s.subrange(i + 1, i + t.len()) =~= t.subrange(1, t.len() as int));
}

/// A string body that stands in a text before a quotation mark ends at that
/// mark.
pub proof fn lemma_body_transfer(b: Seq<char>, s: Seq<char>, i: int, k: int)
    requires
        word_at(s, i, b),
        char_at(s, i + b.len(), '"'),
        0 <= k <= b.len(),
        string_body_end(b, k) == b.len(),
    ensures
        string_body_end(s, i + k) == i + b.len(),
    decreases b.len() - k,
{
    lemma_word_chars(s, i, b);
    if k < b.len() {
        assert(s[i + k] == b[k]);
        if plain_char(b[k]) {
            lemma_body_transfer(b, s, i, k + 1);
        } else {
            match escape_end(b, k) {
                Some(j) => {
                    assert(s[i + (k + 1)] == b[k + 1]);
                    if j == k + 6 {
                        assert(s[i + (k + 2)] == b[k + 2]);
                        assert(s[i + (k + 3)] == b[k + 3]);
                        assert(s[i + (k + 4)] == b[k + 4]);
                        assert(s[i + (k + 5)] == b[k + 5]);
                    }
                    assert(escape_end(s, i + k) == Some(i + j));
                    lemma_body_transfer(b, s, i, j);
                },
                None => {},
            }
        }
    }
}

/// A string literal that stands in a text is recognized there, and gives
/// what its body decodes to.
pub proof fn lemma_string_text(s: Seq<char>, i: int, b: Seq<char>)
    requires
        word_at(s, i, seq!['"'] + b + seq!['"']),
        is_string_body(b),
    ensures
        string_literal_at(s, i) == match decoded(b) {
            Some(t) => Ok::<(int, Seq<char>), JSONParseError>((i + b.len() + 2, t)),
            None => Err::<(int, Seq<char>), JSONParseError>(JSONParseError::BadEscape),
        },
{
    lemma_word_split(s, i, seq!['"'] + b, seq!['"']);
    lemma_word_split(s, i, seq!['"'], b);
    lemma_word_chars(s, i, seq!['"']);
    lemma_word_chars(s, i + 1 + b.len(), seq!['"']);
    assert(s[i + 0] == seq!['"'][0]);
    assert(s[i + 1 + b.len() + 0] == seq!['"'][0]);
    lemma_body_transfer(b, s, i + 1, 0);
    assert(s.subrange(i + 1, i + 1 + b.len()) == b);
}

/// The values of a sequence of trees, in order.
pub open spec fn meanings(items: Seq<Syntax>) -> Seq<Json> {
    Seq::new(items.len(), |k: int| meaning(items[k]))
}

/// The keys and values of a sequence of members, in order.
pub open spec fn entry_meanings(entries: Seq<Entry>) -> Seq<Member> {
    Seq::new(
        entries.len(),
        |k: int| Member { key: decoded(entries[k].key).unwrap(), value: meaning(entries[k].value) },
    )
}

/// An array tree writes the array of what its elements write.
pub proof fn lemma_array_meaning(gap: Seq<char>, items: Seq<Syntax>)
    ensures
        meaning(Syntax::Array(gap, items)) == Json::Array(meanings(items)),
{
    match meaning(Syntax::Array(gap, items)) {
        Json::Array(x) => {
            assert(x =~= meanings(items));
        },
        _ => {},
    }
}

/// An object tree writes the members that its entries write.
pub proof fn lemma_object_meaning(gap: Seq<char>, entries: Seq<Entry>)
    ensures
        meaning(Syntax::Object(gap, entries)) == Json::Object(entry_meanings(entries)),
{
    match meaning(Syntax::Object(gap, entries)) {
        Json::Object(x) => {
            assert(x =~= entry_meanings(entries));
        },
        _ => {},
    }
}

/// Whitespace before a value does not change what is read.
pub proof fn lemma_value_skips_ws(s: Seq<char>, i: int, depth: nat)
    ensures
        value_at(s, i, depth) == value_at(s, ws_end(s, i), depth),
{
    lemma_ws_end(s, i);
}

/// A scalar that stands in a text, with nothing to prolong it, is read as
/// what it writes.
proof fn lemma_reads_scalar(s: Seq<char>, i: int, x: Syntax, depth: nat)
    requires
        x is Null || x is False || x is True || x is Number || x is Str,
        valid(x),
        within_limits(x),
        word_at(s, i, render(x)),
        stops(s, i + render(x).len()),
    ensures
        value_at(s, i, depth) == Ok::<(int, Json), JSONParseError>(
            (ws_end(s, i + render(x).len()), meaning(x)),
        ),
{
    let w = render(x);
    lemma_word_chars(s, i, w);
    lemma_word_chars(s, i, seq!['f', 'a', 'l', 's', 'e']);
    lemma_word_chars(s, i, seq!['t', 'r', 'u', 'e']);
    lemma_word_chars(s, i, seq!['n', 'u', 'l', 'l']);
    match x {
        Syntax::Number(t) => {
            if is_float_text(t) {
                lemma_float_text(s, i, t);
            } else {
                lemma_integer_text(s, i, t);
            }
            assert(s[i + 0] == w[0]);
            assert(seq!['f', 'a', 'l', 's', 'e'][0] == 'f');
            assert(seq!['t', 'r', 'u', 'e'][0] == 't');
            assert(seq!['n', 'u', 'l', 'l'][0] == 'n');
        },
        Syntax::Str(b) => {
            lemma_string_text(s, i, b);
            assert(s[i + 0] == w[0]);
        },
        _ => {
            assert(s[i + 0] == w[0]);
            assert(seq!['f', 'a', 'l', 's', 'e'][0] == 'f');
            assert(seq!['t', 'r', 'u', 'e'][0] == 't');
            assert(seq!['n', 'u', 'l', 'l'][0] == 'n');
        },
    }
    assert(ws_end(s, i) == i);
    assert(array_at(s, i, depth) == Err::<(int, Json), JSONParseError>(
        JSONParseError::Unparseable,
    ));
    assert(object_at(s, i, depth) == Err::<(int, Json), JSONParseError>(
        JSONParseError::Unparseable,
    ));
    assert(scalar_at(s, i) == Ok::<(int, Json), JSONParseError>((i + w.len(), meaning(x))));
}

/// A valid tree that stands in a text, with nothing to prolong it, is read
/// there as the value that it writes, up to the end of the whitespace behind
/// it.
pub proof fn lemma_reads(s: Seq<char>, i: int, x: Syntax, depth: nat)
    requires
        valid(x),
        within_limits(x),
        nested_within(x, depth),
        word_at(s, i, render(x)),
        stops(s, i + render(x).len()),
    ensures
        value_at(s, i, depth) == Ok::<(int, Json), JSONParseError>(
            (ws_end(s, i + render(x).len()), meaning(x)),
        ),
    decreases x, 0int,
{
    match x {
        Syntax::Padded(before, inner, after) => {
            let r = render(*inner);
            let core = i + before.len();
            lemma_word_split(s, i, before + r, after);
            lemma_word_split(s, i, before, r);
            lemma_ws_word(s, i, before);
            lemma_ws_word(s, core + r.len(), after);
            lemma_word_chars(s, core + r.len(), after);
            if after.len() > 0 {
                assert(s[core + r.len() + 0] == after[0]);
            }
            lemma_reads(s, core, *inner, depth);
            lemma_value_skips_ws(s, i, depth);
            lemma_value_skips_ws(s, core, depth);
        },
        Syntax::Array(gap, items) => {
            lemma_reads_array(s, i, gap, items, depth);
        },
        Syntax::Object(gap, entries) => {
            lemma_reads_object(s, i, gap, entries, depth);
        },
        _ => {
            lemma_reads_scalar(s, i, x, depth);
        },
    }
}

/// The array case of `lemma_reads`.
proof fn lemma_reads_array(s: Seq<char>, i: int, gap: Seq<char>, items: Seq<Syntax>, depth: nat)
    requires
        valid(Syntax::Array(gap, items)),
        within_limits(Syntax::Array(gap, items)),
        nested_within(Syntax::Array(gap, items), depth),
        word_at(s, i, render(Syntax::Array(gap, items))),
    ensures
        value_at(s, i, depth) == Ok::<(int, Json), JSONParseError>(
            (
                ws_end(s, i + render(Syntax::Array(gap, items)).len()),
                meaning(Syntax::Array(gap, items)),
            ),
        ),
    decreases items, items.len() + 1,
{
    let x = Syntax::Array(gap, items);
    let w = render(x);
    let inner = (depth - 1) as nat;
    lemma_array_meaning(gap, items);
    lemma_word_chars(s, i, w);
    assert(s[i + 0] == w[0]);
    assert(ws_end(s, i) == i);
    if items.len() == 0 {
        lemma_word_split(s, i, seq!['['] + gap, seq![']']);
        lemma_word_split(s, i, seq!['['], gap);
        lemma_ws_word(s, i + 1, gap);
        let close = i + 1 + gap.len();
        lemma_word_chars(s, close, seq![']']);
        assert(s[close + 0] == seq![']'][0]);
        assert(ws_end(s, close) == close);
        lemma_nothing_at_close(s, close, inner);
        assert(spaced_end(s, i, '[') == Some(close));
        assert(elements_at(s, close, inner) == Ok::<(int, Seq<Json>), JSONParseError>(
            (close, Seq::empty()),
        ));
        assert(meanings(items) =~= Seq::<Json>::empty());
    } else {
        let first = render(items[0]);
        let rest = render_rest(items, 1);
        lemma_word_split(s, i, seq!['['] + first + rest, seq![']']);
        lemma_word_split(s, i, seq!['['] + first, rest);
        lemma_word_split(s, i, seq!['['], first);
        let pos = i + 1 + first.len();
        lemma_word_split(s, pos, rest, seq![']']);
        lemma_rest_starts(s, pos, items, 1);
        lemma_reads(s, i + 1, items[0], inner);
        lemma_value_skips_ws(s, i + 1, inner);
        assert(ws_end(s, pos) == pos);
        let found = seq![meaning(items[0])];
        lemma_more_elements(s, pos, items, 1, inner, found);
        assert(found + meanings(items).subrange(1, items.len() as int) =~= meanings(items));
        let close = pos + rest.len();
        lemma_word_chars(s, close, seq![']']);
        assert(s[close + 0] == seq![']'][0]);
        assert(ws_end(s, close) == close);
        assert(elements_at(s, ws_end(s, i + 1), inner) == Ok::<
            (int, Seq<Json>),
            JSONParseError,
        >((close, meanings(items))));
    }
    lemma_ws_end(s, i + w.len());
}

/// Where a closing bracket or brace stands, no value does.
proof fn lemma_nothing_at_close(s: Seq<char>, k: int, depth: nat)
    requires
        char_at(s, k, ']') || char_at(s, k, '}'),
    ensures
        value_at(s, k, depth) == Err::<(int, Json), JSONParseError>(JSONParseError::Unparseable),
        string_literal_at(s, k) == Err::<(int, Seq<char>), JSONParseError>(
            JSONParseError::Unparseable,
        ),
{
    lemma_word_chars(s, k, seq!['f', 'a', 'l', 's', 'e']);
    lemma_word_chars(s, k, seq!['t', 'r', 'u', 'e']);
    lemma_word_chars(s, k, seq!['n', 'u', 'l', 'l']);
    assert(seq!['f', 'a', 'l', 's', 'e'][0] == 'f');
    assert(seq!['t', 'r', 'u', 'e'][0] == 't');
    assert(seq!['n', 'u', 'l', 'l'][0] == 'n');
    assert(ws_end(s, k) == k);
}

/// The text of the elements from the `k`-th on, before the closing bracket,
/// starts with a comma or is empty; so what stands at its start is no
/// whitespace and prolongs no value.
proof fn lemma_rest_starts(s: Seq<char>, pos: int, items: Seq<Syntax>, k: int)
    requires
        0 <= k <= items.len(),
        word_at(s, pos, render_rest(items, k) + seq![']']),
    ensures
        char_at(s, pos, ',') || char_at(s, pos, ']'),
        k < items.len() ==> char_at(s, pos, ','),
        k == items.len() ==> char_at(s, pos, ']') && render_rest(items, k).len() == 0,
        stops(s, pos),
        ws_end(s, pos) == pos,
{
    let w = render_rest(items, k) + seq![']'];
    lemma_word_chars(s, pos, w);
    assert(s[pos + 0] == w[0]);
}

/// No trailing comma: a comma that a closing bracket or brace follows is left
/// unread, and where it stands no closing bracket or brace is found. So the
/// values of an array, or the members of an object, end before such a comma,
/// and the array or the object is not recognized.
pub proof fn lemma_no_trailing_comma(
    s: Seq<char>,
    i: int,
    depth: nat,
    values: Seq<Json>,
    members: Seq<Member>,
)
    requires
        spaced_end(s, i, ',') matches Some(next) && (char_at(s, next, ']') || char_at(
            s,
            next,
            '}',
        )),
    ensures
        more_elements(s, i, depth, values) == Ok::<(int, Seq<Json>), JSONParseError>((i, values)),
        more_members(s, i, depth, members) == Ok::<(int, Seq<Member>), JSONParseError>(
            (i, members),
        ),
        spaced_end(s, i, ']') is None,
        spaced_end(s, i, '}') is None,
{
    let next = spaced_end(s, i, ',').unwrap();
    lemma_nothing_at_close(s, next, depth);
    assert(member_at(s, next, depth) == Err::<(int, Member), JSONParseError>(
        JSONParseError::Unparseable,
    ));
}

/// The elements of a valid array that stand in a text from the `k`-th on,
/// each after its comma and before the closing bracket, are read in order.
proof fn lemma_more_elements(
    s: Seq<char>,
    pos: int,
    items: Seq<Syntax>,
    k: int,
    depth: nat,
    found: Seq<Json>,
)
    requires
        1 <= k <= items.len(),
        forall|j: int|
            0 <= j < items.len() ==> valid(#[trigger] items[j]) && within_limits(items[j])
                && nested_within(items[j], depth),
        word_at(s, pos, render_rest(items, k) + seq![']']),
    ensures
        more_elements(s, pos, depth, found) == Ok::<(int, Seq<Json>), JSONParseError>(
            (
                pos + render_rest(items, k).len(),
                found + meanings(items).subrange(k, items.len() as int),
            ),
        ),
    decreases items, items.len() - k,
{
    lemma_rest_starts(s, pos, items, k);
    if k == items.len() {
        assert(found + meanings(items).subrange(k, items.len() as int) =~= found);
    } else {
        let r = render(items[k]);
        let tail = render_rest(items, k + 1);
        let next = pos + 1 + r.len();
        lemma_word_split(s, pos, seq![','] + r + tail, seq![']']);
        lemma_word_split(s, pos, seq![','] + r, tail);
        lemma_word_split(s, pos, seq![','], r);
        lemma_word_split(s, next, tail, seq![']']);
        lemma_rest_starts(s, next, items, k + 1);
        lemma_reads(s, pos + 1, items[k], depth);
        lemma_value_skips_ws(s, pos + 1, depth);
        lemma_more_elements(s, next, items, k + 1, depth, found.push(meaning(items[k])));
        assert(found.push(meaning(items[k])) + meanings(items).subrange(
            k + 1,
            items.len() as int,
        ) =~= found + meanings(items).subrange(k, items.len() as int));
    }
}

/// The object case of `lemma_reads`.
proof fn lemma_reads_object(s: Seq<char>, i: int, gap: Seq<char>, entries: Seq<Entry>, depth: nat)
    requires
        valid(Syntax::Object(gap, entries)),
        within_limits(Syntax::Object(gap, entries)),
        nested_within(Syntax::Object(gap, entries), depth),
        word_at(s, i, render(Syntax::Object(gap, entries))),
    ensures
        value_at(s, i, depth) == Ok::<(int, Json), JSONParseError>(
            (
                ws_end(s, i + render(Syntax::Object(gap, entries)).len()),
                meaning(Syntax::Object(gap, entries)),
            ),
        ),
    decreases entries, entries.len() + 1,
{
    let x = Syntax::Object(gap, entries);
    let w = render(x);
    let inner = (depth - 1) as nat;
    lemma_object_meaning(gap, entries);
    lemma_word_chars(s, i, w);
    assert(s[i + 0] == w[0]);
    assert(ws_end(s, i) == i);
    assert(array_at(s, i, depth) == Err::<(int, Json), JSONParseError>(
        JSONParseError::Unparseable,
    ));
    if entries.len() == 0 {
        lemma_word_split(s, i, seq!['{'] + gap, seq!['}']);
        lemma_word_split(s, i, seq!['{'], gap);
        lemma_ws_word(s, i + 1, gap);
        let close = i + 1 + gap.len();
        lemma_word_chars(s, close, seq!['}']);
        assert(s[close + 0] == seq!['}'][0]);
        assert(ws_end(s, close) == close);
        lemma_nothing_at_close(s, close, inner);
        assert(spaced_end(s, i, '{') == Some(close));
        assert(members_at(s, close, inner) == Ok::<(int, Seq<Member>), JSONParseError>(
            (close, Seq::empty()),
        ));
        assert(entry_meanings(entries) =~= Seq::<Member>::empty());
    } else {
        let first = render_entry(entries[0]);
        let rest = render_entries(entries, 1);
        lemma_word_split(s, i, seq!['{'] + first + rest, seq!['}']);
        lemma_word_split(s, i, seq!['{'] + first, rest);
        lemma_word_split(s, i, seq!['{'], first);
        let pos = i + 1 + first.len();
        lemma_word_split(s, pos, rest, seq!['}']);
        lemma_entries_start(s, pos, entries, 1);
        lemma_reads_entry(s, i + 1, entries, 0, inner);
        let found = seq![entry_meanings(entries)[0]];
        lemma_more_members(s, pos, entries, 1, inner, found);
        assert(found + entry_meanings(entries).subrange(1, entries.len() as int)
            =~= entry_meanings(entries));
        let close = pos + rest.len();
        lemma_word_chars(s, close, seq!['}']);
        assert(s[close + 0] == seq!['}'][0]);
        assert(ws_end(s, close) == close);
        assert(members_at(s, ws_end(s, i + 1), inner) == Ok::<
            (int, Seq<Member>),
            JSONParseError,
        >((close, entry_meanings(entries))));
    }
    lemma_ws_end(s, i + w.len());
}

/// The text of the members from the `k`-th on, before the closing brace,
/// starts with a comma or is empty.
proof fn lemma_entries_start(s: Seq<char>, pos: int, entries: Seq<Entry>, k: int)
    requires
        0 <= k <= entries.len(),
        word_at(s, pos, render_entries(entries, k) + seq!['}']),
    ensures
        k < entries.len() ==> char_at(s, pos, ','),
        k == entries.len() ==> char_at(s, pos, '}') && render_entries(entries, k).len() == 0,
        stops(s, pos),
        ws_end(s, pos) == pos,
{
    let w = render_entries(entries, k) + seq!['}'];
    lemma_word_chars(s, pos, w);
    assert(s[pos + 0] == w[0]);
}

/// The `k`-th member of a valid object that stands in a text, with nothing
/// to prolong its value, is read there: after the whitespace before it.
proof fn lemma_reads_entry(s: Seq<char>, at: int, entries: Seq<Entry>, k: int, depth: nat)
    requires
        0 <= k < entries.len(),
        forall|j: int|
            0 <= j < entries.len() ==> {
                &&& all_space((#[trigger] entries[j]).before)
                &&& is_string_body(entries[j].key)
                &&& all_space(entries[j].between)
                &&& valid(entries[j].value)
                &&& decoded(entries[j].key) is Some
                &&& within_limits(entries[j].value)
                &&& nested_within(entries[j].value, depth)
            },
        word_at(s, at, render_entry(entries[k])),
        stops(s, at + render_entry(entries[k]).len()),
        !(0 <= at + render_entry(entries[k]).len() < s.len() && is_space(
            s[at + render_entry(entries[k]).len()],
        )),
    ensures
        member_at(s, ws_end(s, at), depth) == Ok::<(int, Member), JSONParseError>(
            (at + render_entry(entries[k]).len(), entry_meanings(entries)[k]),
        ),
    decreases entries, 0int,
{
    let e = entries[k];
    let quoted = seq!['"'] + e.key + seq!['"'];
    let v = render(e.value);
    let key_at = at + e.before.len();
    let key_end = key_at + e.key.len() + 2;
    let colon = key_end + e.between.len();
    assert(render_entry(e) =~= e.before + quoted + e.between + seq![':'] + v);
    lemma_word_split(s, at, e.before + quoted + e.between + seq![':'], v);
    lemma_word_split(s, at, e.before + quoted + e.between, seq![':']);
    lemma_word_split(s, at, e.before + quoted, e.between);
    lemma_word_split(s, at, e.before, quoted);
    lemma_ws_word(s, at, e.before);
    lemma_word_chars(s, key_at, quoted);
    assert(s[key_at + 0] == quoted[0]);
    assert(ws_end(s, key_at) == key_at);
    lemma_string_text(s, key_at, e.key);
    lemma_ws_word(s, key_end, e.between);
    lemma_word_chars(s, colon, seq![':']);
    assert(s[colon + 0] == seq![':'][0]);
    assert(ws_end(s, colon) == colon);
    lemma_reads(s, colon + 1, e.value, depth);
    lemma_value_skips_ws(s, colon + 1, depth);
    lemma_ws_end(s, at + render_entry(e).len());
}

/// The members of a valid object that stand in a text from the `k`-th on,
/// each after its comma and before the closing brace, are read in order.
proof fn lemma_more_members(
    s: Seq<char>,
    pos: int,
    entries: Seq<Entry>,
    k: int,
    depth: nat,
    found: Seq<Member>,
)
    requires
        1 <= k <= entries.len(),
        forall|j: int|
            0 <= j < entries.len() ==> {
                &&& all_space((#[trigger] entries[j]).before)
                &&& is_string_body(entries[j].key)
                &&& all_space(entries[j].between)
                &&& valid(entries[j].value)
                &&& decoded(entries[j].key) is Some
                &&& within_limits(entries[j].value)
                &&& nested_within(entries[j].value, depth)
            },
        word_at(s, pos, render_entries(entries, k) + seq!['}']),
    ensures
        more_members(s, pos, depth, found) == Ok::<(int, Seq<Member>), JSONParseError>(
            (
                pos + render_entries(entries, k).len(),
                found + entry_meanings(entries).subrange(k, entries.len() as int),
            ),
        ),
    decreases entries, entries.len() - k,
{
    lemma_entries_start(s, pos, entries, k);
    if k == entries.len() {
        assert(found + entry_meanings(entries).subrange(k, entries.len() as int) =~= found);
    } else {
        let r = render_entry(entries[k]);
        let tail = render_entries(entries, k + 1);
        let next = pos + 1 + r.len();
        lemma_word_split(s, pos, seq![','] + r + tail, seq!['}']);
        lemma_word_split(s, pos, seq![','] + r, tail);
        lemma_word_split(s, pos, seq![','], r);
        lemma_word_split(s, next, tail, seq!['}']);
        lemma_entries_start(s, next, entries, k + 1);
        lemma_reads_entry(s, pos + 1, entries, k, depth);
        lemma_more_members(s, next, entries, k + 1, depth, found.push(entry_meanings(entries)[k]));
        assert(found.push(entry_meanings(entries)[k]) + entry_meanings(entries).subrange(
            k + 1,
            entries.len() as int,
        ) =~= found + entry_meanings(entries).subrange(k, entries.len() as int));
    }
}

/// Every valid JSON text that the parser holds parses, to the value that it
/// writes, and leaves nothing unread: a text spelled by a valid tree, whose
/// integers fit in 64 signed bits, whose strings and keys can be decoded, and
/// whose arrays and objects are nested no more deeply than `MAX_DEPTH`.
pub proof fn lemma_valid_document_parses(x: Syntax)
    requires
        readable(x),
    ensures
        document(render(x)) == Ok::<Json, JSONParseError>(meaning(x)),
{
    let s = render(x);
    assert(s.subrange(0, s.len() as int) =~= s);
    lemma_reads(s, 0, x, MAX_DEPTH as nat);
}

/// A run of digits that ends inside a span ends at the same place in the
/// text of the span.
pub proof fn lemma_digits_within(s: Seq<char>, i: int, j: int, k: int)
    requires
        0 <= i <= k <= j <= s.len(),
        digits_end(s, k) <= j,
    ensures
        digits_end(s.subrange(i, j), k - i) == digits_end(s, k) - i,
    decreases j - k,
{
    let t = s.subrange(i, j);
    lemma_digits_run(s, k);
    if k < j {
        assert(t[k - i] == s[k]);
        if is_digit(s[k]) {
            lemma_digits_run(s, k + 1);
            lemma_digits_within(s, i, j, k + 1);
        }
    }
}

/// The text that a float literal covers is a float literal as a whole.
pub proof fn lemma_float_span(s: Seq<char>, i: int)
    requires
        float_body_end(s, i) is Some,
    ensures
        0 <= i < float_body_end(s, i).unwrap() <= s.len(),
        is_float_text(s.subrange(i, float_body_end(s, i).unwrap())),
{
    let j = float_body_end(s, i).unwrap();
    let a = sign_end(s, i);
    let b = integer_body_end(s, i).unwrap();
    lemma_digits_run(s, a + 1);
    assert(0 <= i <= a < b <= s.len());
    let c = match frac_end(s, b) {
        Some(k) => k,
        None => b,
    };
    if frac_end(s, b) is Some {
        lemma_digits_run(s, b + 2);
        assert(b + 1 < c);
    }
    assert(b <= c <= s.len());
    if exp_end(s, c) is Some {
        lemma_digits_run(s, exp_sign_end(s, c + 1) + 1);
        assert(exp_sign_end(s, c + 1) < j);
    }
    assert(c <= j <= s.len());
    assert(b < j);
    let t = s.subrange(i, j);
    assert(t[0] == s[i]);
    assert(sign_end(t, 0) == a - i);
    assert(t[a - i] == s[a]);
    if !char_at(s, a, '0') {
        lemma_digits_within(s, i, j, a + 1);
    }
    assert(integer_body_end(t, 0) == Some(b - i));
    if frac_end(s, b) is Some {
        assert(t[b - i] == s[b]);
        assert(t[b + 1 - i] == s[b + 1]);
        lemma_digits_within(s, i, j, b + 1);
        assert(frac_end(t, b - i) == Some(c - i));
    } else {
        assert(t[b - i] == s[b]);
        assert(frac_end(t, b - i) is None);
    }
    if exp_end(s, c) is Some {
        let d = exp_sign_end(s, c + 1);
        assert(t[c - i] == s[c]);
        assert(t[c + 1 - i] == s[c + 1]);
        assert(exp_sign_end(t, c + 1 - i) == d - i);
        assert(t[d - i] == s[d]);
        lemma_digits_within(s, i, j, d);
        assert(exp_end(t, c - i) == Some(j - i));
    } else {
        assert(c == j);
        assert(exp_end(t, c - i) is None);
    }
}

/// A literal is a float exactly if a fraction part or an exponent part
/// follows its integer body; where none does and the integer body stands, it
/// is an integer, or `BadInt`.
pub proof fn lemma_number_classes(s: Seq<char>, i: int)
    ensures
        float_body_end(s, i) is Some <==> integer_body_end(s, i) is Some && (frac_end(
            s,
            integer_body_end(s, i).unwrap(),
        ) is Some || exp_end(s, integer_body_end(s, i).unwrap()) is Some),
        float_body_end(s, i) is Some <==> (scalar_at(s, i) matches Ok((_, v)) && v is Float),
        float_body_end(s, i) is None && integer_body_end(s, i) is Some <==> (scalar_at(s, i)
            matches Ok((_, v)) && v is Integer) || scalar_at(s, i) == Err::<
            (int, Json),
            JSONParseError,
        >(JSONParseError::BadInt),
        scalar_at(s, i) matches Ok((end, Json::Float(t))) ==> float_body_end(s, i) == Some(end)
            && t == s.subrange(i, end),
        scalar_at(s, i) matches Ok((end, Json::Integer(v))) ==> integer_body_end(s, i) == Some(
            end,
        ) && v == integer_value(s, i, end),
{
    lemma_word_chars(s, i, seq!['f', 'a', 'l', 's', 'e']);
    lemma_word_chars(s, i, seq!['t', 'r', 'u', 'e']);
    lemma_word_chars(s, i, seq!['n', 'u', 'l', 'l']);
    assert(seq!['f', 'a', 'l', 's', 'e'][0] == 'f');
    assert(seq!['t', 'r', 'u', 'e'][0] == 't');
    assert(seq!['n', 'u', 'l', 'l'][0] == 'n');
}

/// A string body ends at or after its start.
pub proof fn lemma_string_body_end(s: Seq<char>, i: int)
    ensures
        i <= string_body_end(s, i),
        0 <= i <= s.len() ==> string_body_end(s, i) <= s.len(),
    decreases s.len() - i,
{
    if 0 <= i < s.len() && plain_char(s[i]) {
        lemma_string_body_end(s, i + 1);
    } else {
        match escape_end(s, i) {
            Some(j) => {
                lemma_string_body_end(s, j);
            },
            None => {},
        }
    }
}

/// A string literal that is read ends after its start, inside the text.
pub proof fn lemma_string_sound(s: Seq<char>, i: int)
    ensures
        string_literal_at(s, i) matches Ok((end, _)) ==> 0 <= i && i + 2 <= end <= s.len(),
{
    lemma_string_body_end(s, i + 1);
}

/// A scalar that is read ends after its start, inside the text, and is well
/// formed.
pub proof fn lemma_scalar_sound(s: Seq<char>, i: int)
    ensures
        scalar_at(s, i) matches Ok((end, v)) ==> 0 <= i < end <= s.len() && v.well_formed(),
        !(scalar_at(s, i) matches Err(e) && e == JSONParseError::BadFloat),
{
    lemma_string_sound(s, i);
    if float_body_end(s, i) is Some {
        lemma_float_span(s, i);
    }
    lemma_digits_run(s, sign_end(s, i) + 1);
}

/// A value that is read ends after its start, inside the text and behind all
/// whitespace, and is well formed. Where none is read, the reason is never
/// `BadFloat`.
pub proof fn lemma_value_sound(s: Seq<char>, i: int, depth: nat)
    ensures
        value_at(s, i, depth) matches Ok((end, v)) ==> 0 <= i < end <= s.len() && ws_end(s, end)
            == end && v.well_formed(),
        !(value_at(s, i, depth) matches Err(e) && e == JSONParseError::BadFloat),
    decreases depth, 2nat, 0nat,
{
    let start = ws_end(s, i);
    lemma_ws_end(s, i);
    lemma_array_sound(s, start, depth);
    lemma_object_sound(s, start, depth);
    lemma_scalar_sound(s, start);
    match alternative_at(s, start, depth) {
        Ok((end, _)) => {
            lemma_ws_end(s, end);
        },
        Err(_) => {},
    }
}

/// An array that is read ends after its start, inside the text and behind
/// all whitespace, and is well formed.
pub proof fn lemma_array_sound(s: Seq<char>, i: int, depth: nat)
    ensures
        array_at(s, i, depth) matches Ok((end, v)) ==> 0 <= i < end <= s.len() && ws_end(s, end)
            == end && v.well_formed(),
        !(array_at(s, i, depth) matches Err(e) && e == JSONParseError::BadFloat),
    decreases depth, 1nat, 0nat,
{
    lemma_spaced_end(s, i, '[');
    match spaced_end(s, i, '[') {
        Some(first) => {
            if depth > 0 {
                lemma_elements_sound(s, first, (depth - 1) as nat);
                match elements_at(s, first, (depth - 1) as nat) {
                    Ok((end, _)) => {
                        lemma_spaced_end(s, end, ']');
                    },
                    Err(_) => {},
                }
            }
        },
        None => {},
    }
}

/// The elements that are read end inside the text, and each is well formed.
proof fn lemma_elements_sound(s: Seq<char>, i: int, depth: nat)
    requires
        0 <= i <= s.len(),
    ensures
        elements_at(s, i, depth) matches Ok((end, items)) ==> i <= end <= s.len() && forall|
            k: int,
        |
            0 <= k < items.len() ==> (#[trigger] items[k]).well_formed(),
        !(elements_at(s, i, depth) matches Err(e) && e == JSONParseError::BadFloat),
    decreases depth, 4nat, 0nat,
{
    lemma_value_sound(s, i, depth);
    match value_at(s, i, depth) {
        Ok((end, v)) => {
            lemma_more_elements_sound(s, end, depth, seq![v]);
        },
        Err(_) => {},
    }
}

/// The elements that are read after the first end inside the text, and each
/// is well formed.
proof fn lemma_more_elements_sound(s: Seq<char>, i: int, depth: nat, found: Seq<Json>)
    requires
        0 <= i <= s.len(),
        forall|k: int| 0 <= k < found.len() ==> (#[trigger] found[k]).well_formed(),
    ensures
        more_elements(s, i, depth, found) matches Ok((end, items)) ==> i <= end <= s.len()
            && forall|k: int| 0 <= k < items.len() ==> (#[trigger] items[k]).well_formed(),
        !(more_elements(s, i, depth, found) matches Err(e) && e == JSONParseError::BadFloat),
    decreases depth, 3nat, s.len() - i,
{
    lemma_spaced_end(s, i, ',');
    match spaced_end(s, i, ',') {
        Some(next) => {
            lemma_value_sound(s, next, depth);
            match value_at(s, next, depth) {
                Ok((end, v)) => {
                    lemma_more_elements_sound(s, end, depth, found.push(v));
                },
                Err(_) => {},
            }
        },
        None => {},
    }
}

/// A member that is read ends after its start, inside the text and behind
/// all whitespace, and its value is well formed.
proof fn lemma_member_sound(s: Seq<char>, i: int, depth: nat)
    ensures
        member_at(s, i, depth) matches Ok((end, m)) ==> 0 <= i < end <= s.len()
            && m.value.well_formed(),
        !(member_at(s, i, depth) matches Err(e) && e == JSONParseError::BadFloat),
    decreases depth, 3nat, 0nat,
{
    lemma_string_sound(s, i);
    match string_literal_at(s, i) {
        Ok((key_end, _)) => {
            lemma_spaced_end(s, key_end, ':');
            match spaced_end(s, key_end, ':') {
                Some(at) => {
                    lemma_value_sound(s, at, depth);
                },
                None => {},
            }
        },
        Err(_) => {},
    }
}

/// An object that is read ends after its start, inside the text and behind
/// all whitespace, and is well formed.
pub proof fn lemma_object_sound(s: Seq<char>, i: int, depth: nat)
    ensures
        object_at(s, i, depth) matches Ok((end, v)) ==> 0 <= i < end <= s.len() && ws_end(s, end)
            == end && v.well_formed(),
        !(object_at(s, i, depth) matches Err(e) && e == JSONParseError::BadFloat),
    decreases depth, 1nat, 0nat,
{
    lemma_spaced_end(s, i, '{');
    match spaced_end(s, i, '{') {
        Some(first) => {
            if depth > 0 {
                lemma_members_sound(s, first, (depth - 1) as nat);
                match members_at(s, first, (depth - 1) as nat) {
                    Ok((end, _)) => {
                        lemma_spaced_end(s, end, '}');
                    },
                    Err(_) => {},
                }
            }
        },
        None => {},
    }
}

/// The members that are read end inside the text, and each value is well
/// formed.
proof fn lemma_members_sound(s: Seq<char>, i: int, depth: nat)
    requires
        0 <= i <= s.len(),
    ensures
        members_at(s, i, depth) matches Ok((end, members)) ==> i <= end <= s.len() && forall|
            k: int,
        |
            0 <= k < members.len() ==> (#[trigger] members[k]).value.well_formed(),
        !(members_at(s, i, depth) matches Err(e) && e == JSONParseError::BadFloat),
    decreases depth, 5nat, 0nat,
{
    lemma_member_sound(s, i, depth);
    match member_at(s, i, depth) {
        Ok((end, m)) => {
            lemma_more_members_sound(s, end, depth, seq![m]);
        },
        Err(_) => {},
    }
}

/// The members that are read after the first end inside the text, and each
/// value is well formed.
proof fn lemma_more_members_sound(s: Seq<char>, i: int, depth: nat, found: Seq<Member>)
    requires
        0 <= i <= s.len(),
        forall|k: int| 0 <= k < found.len() ==> (#[trigger] found[k]).value.well_formed(),
    ensures
        more_members(s, i, depth, found) matches Ok((end, members)) ==> i <= end <= s.len()
            && forall|k: int|
            0 <= k < members.len() ==> (#[trigger] members[k]).value.well_formed(),
        !(more_members(s, i, depth, found) matches Err(e) && e == JSONParseError::BadFloat),
    decreases depth, 4nat, s.len() - i,
{
    lemma_spaced_end(s, i, ',');
    match spaced_end(s, i, ',') {
        Some(next) => {
            lemma_member_sound(s, next, depth);
            match member_at(s, next, depth) {
                Ok((end, m)) => {
                    lemma_more_members_sound(s, end, depth, found.push(m));
                },
                Err(_) => {},
            }
        },
        None => {},
    }
}

/// The value of a document is well formed; a document is never refused for
/// `BadFloat`.
pub proof fn lemma_document_sound(s: Seq<char>)
    ensures
        document(s) matches Ok(v) ==> v.well_formed(),
        !(document(s) matches Err(e) && e == JSONParseError::BadFloat),
{
    lemma_value_sound(s, 0, MAX_DEPTH as nat);
}

} // verus!
