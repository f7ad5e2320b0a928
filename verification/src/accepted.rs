//! Whatever parses is a valid JSON text: from each successful parse, the
//! tree that derives the text that was read.

use crate::ast::{JSONParseError, Json, Member};
use crate::document::{
    all_space, meaning, nested_within, readable, render, render_entries, render_entry,
    render_rest, valid, within_limits, Entry, Syntax,
};
use crate::grammar::{
    alternative_at, array_at, bool_at, document, elements_at, member_at, members_at,
    more_elements, more_members, object_at, scalar_at, value_at, MAX_DEPTH,
};
use crate::laws::{
    entry_meanings, lemma_array_meaning, lemma_digits_within, lemma_float_span,
    lemma_object_meaning, lemma_spaced_end, lemma_string_body_end, lemma_string_sound,
    lemma_value_skips_ws, lemma_value_sound, lemma_ws_end, meanings,
};
use crate::lexical::{
    char_at, escape_end, integer_body_end, is_float_text, is_integer_text, is_space,
    is_string_body, plain_char, sign_end, spaced_end, string_body_end, ws_end,
};
use crate::number::{float_at, integer_at, integer_value, lemma_digits_run};
use crate::text::{decoded, string_at};
use vstd::prelude::*;

verus! {

/// The characters that a run of whitespace skips are whitespace.
pub proof fn lemma_ws_span(s: Seq<char>, i: int)
    requires
        0 <= i <= s.len(),
    ensures
        i <= ws_end(s, i) <= s.len(),
        all_space(s.subrange(i, ws_end(s, i))),
    decreases s.len() - i,
{
    if i < s.len() && is_space(s[i]) {
        lemma_ws_span(s, i + 1);
        let t = s.subrange(i, ws_end(s, i));
        let u = s.subrange(i + 1, ws_end(s, i));
        assert forall|k: int| 0 <= k < t.len() implies is_space(#[trigger] t[k]) by {
            if k > 0 {
                assert(t[k] == u[k - 1]);
            }
        }
    }
}

/// The text that an integer literal covers is an integer literal as a whole,
/// of the same value, and no float literal.
pub proof fn lemma_integer_span(s: Seq<char>, i: int)
    requires
        integer_body_end(s, i) is Some,
    ensures
        0 <= i < integer_body_end(s, i).unwrap() <= s.len(),
        is_integer_text(s.subrange(i, integer_body_end(s, i).unwrap())),
        !is_float_text(s.subrange(i, integer_body_end(s, i).unwrap())),
        integer_value(
            s.subrange(i, integer_body_end(s, i).unwrap()),
            0,
            integer_body_end(s, i).unwrap() - i,
        ) == integer_value(s, i, integer_body_end(s, i).unwrap()),
{
    let j = integer_body_end(s, i).unwrap();
    let a = sign_end(s, i);
    lemma_digits_run(s, a + 1);
    let t = s.subrange(i, j);
    assert(t[0] == s[i]);
    assert(t[a - i] == s[a]);
    if !char_at(s, a, '0') {
        lemma_digits_within(s, i, j, a + 1);
    }
    assert(integer_body_end(t, 0) == Some(j - i));
    assert(t.subrange(0, j - i) =~= s.subrange(i, j));
    assert(t.subrange(1, j - i) =~= s.subrange(i + 1, j));
}

/// A string body that ends at `j` is a string body as a whole.
pub proof fn lemma_body_span(s: Seq<char>, i: int, j: int, k: int)
    requires
        0 <= i <= k <= j <= s.len(),
        string_body_end(s, k) == j,
    ensures
        string_body_end(s.subrange(i, j), k - i) == j - i,
    decreases j - k,
{
    let t = s.subrange(i, j);
    if k < j {
        assert(t[k - i] == s[k]);
        if plain_char(s[k]) {
            lemma_body_span(s, i, j, k + 1);
        } else {
            match escape_end(s, k) {
                Some(m) => {
                    lemma_string_body_end(s, m);
                    assert(t[k + 1 - i] == s[k + 1]);
                    if m == k + 6 {
                        assert(t[k + 2 - i] == s[k + 2]);
                        assert(t[k + 3 - i] == s[k + 3]);
                        assert(t[k + 4 - i] == s[k + 4]);
                        assert(t[k + 5 - i] == s[k + 5]);
                    }
                    assert(escape_end(t, k - i) == Some(m - i));
                    lemma_body_span(s, i, j, m);
                },
                None => {},
            }
        }
    }
}

/// The text of the elements from the `k + 1`-th on does not depend on an
/// element put before them.
pub proof fn lemma_render_rest_shift(first: Syntax, tail: Seq<Syntax>, k: int)
    requires
        0 <= k,
    ensures
        render_rest(seq![first] + tail, k + 1) == render_rest(tail, k),
    decreases tail.len() - k,
{
    let all = seq![first] + tail;
    if k < tail.len() {
        assert(all[k + 1] == tail[k]);
        lemma_render_rest_shift(first, tail, k + 1);
    }
}

/// The text of the members from the `k + 1`-th on does not depend on a
/// member put before them.
pub proof fn lemma_render_entries_shift(first: Entry, tail: Seq<Entry>, k: int)
    requires
        0 <= k,
    ensures
        render_entries(seq![first] + tail, k + 1) == render_entries(tail, k),
    decreases tail.len() - k,
{
    let all = seq![first] + tail;
    if k < tail.len() {
        assert(all[k + 1] == tail[k]);
        lemma_render_entries_shift(first, tail, k + 1);
    }
}

/// The tree of a scalar that is read.
pub proof fn lemma_scalar_tree(s: Seq<char>, i: int) -> (x: Syntax)
    requires
        scalar_at(s, i) is Ok,
    ensures
        x is Null || x is False || x is True || x is Number || x is Str,
        valid(x),
        within_limits(x),
        0 <= i < scalar_at(s, i).unwrap().0 <= s.len(),
        render(x) == s.subrange(i, scalar_at(s, i).unwrap().0),
        meaning(x) == scalar_at(s, i).unwrap().1,
{
    let (end, v) = scalar_at(s, i).unwrap();
    lemma_string_sound(s, i);
    lemma_digits_run(s, sign_end(s, i) + 1);
    if string_at(s, i) is Ok {
        let j = string_body_end(s, i + 1);
        let body = s.subrange(i + 1, j);
        lemma_string_body_end(s, i + 1);
        lemma_body_span(s, i + 1, j, i + 1);
        assert(seq!['"'] + body + seq!['"'] =~= s.subrange(i, end));
        Syntax::Str(body)
    } else if float_at(s, i) is Ok {
        lemma_float_span(s, i);
        Syntax::Number(s.subrange(i, end))
    } else if integer_at(s, i) is Ok {
        lemma_integer_span(s, i);
        Syntax::Number(s.subrange(i, end))
    } else if bool_at(s, i) is Ok {
        if v == Json::Bool(false) {
            Syntax::False
        } else {
            Syntax::True
        }
    } else {
        Syntax::Null
    }
}

/// Each tree is valid, within the limits, and nested within `depth`.
pub open spec fn all_readable(trees: Seq<Syntax>, depth: nat) -> bool {
    forall|k: int|
        0 <= k < trees.len() ==> valid(#[trigger] trees[k]) && within_limits(trees[k])
            && nested_within(trees[k], depth)
}

/// Each member is valid, within the limits, and its value nested within
/// `depth`.
pub open spec fn all_readable_entries(entries: Seq<Entry>, depth: nat) -> bool {
    forall|k: int|
        0 <= k < entries.len() ==> {
            &&& all_space((#[trigger] entries[k]).before)
            &&& is_string_body(entries[k].key)
            &&& all_space(entries[k].between)
            &&& valid(entries[k].value)
            &&& decoded(entries[k].key) is Some
            &&& within_limits(entries[k].value)
            &&& nested_within(entries[k].value, depth)
        }
}

/// The tree of what the first matching alternative reads.
proof fn lemma_alternative_tree(s: Seq<char>, i: int, depth: nat) -> (x: Syntax)
    requires
        0 <= i <= s.len(),
        alternative_at(s, i, depth) is Ok,
    ensures
        alternative_at(s, i, depth) matches Ok((end, v)) && i < end <= s.len() && valid(x)
            && within_limits(x) && nested_within(x, depth) && render(x) == s.subrange(i, end)
            && meaning(x) == v,
    decreases depth, 2nat, 0nat,
{
    if array_at(s, i, depth) is Ok {
        lemma_array_tree(s, i, depth)
    } else if object_at(s, i, depth) is Ok {
        lemma_object_tree(s, i, depth)
    } else {
        lemma_scalar_tree(s, i)
    }
}

/// The tree of a value that is read: it is valid, spells the text that was
/// read, and writes the value that was read.
pub proof fn lemma_value_tree(s: Seq<char>, i: int, depth: nat) -> (x: Syntax)
    requires
        0 <= i <= s.len(),
        value_at(s, i, depth) is Ok,
    ensures
        value_at(s, i, depth) matches Ok((end, v)) && i < end <= s.len() && valid(x)
            && within_limits(x) && nested_within(x, depth) && render(x) == s.subrange(i, end)
            && meaning(x) == v,
    decreases depth, 3nat, 0nat,
{
    let start = ws_end(s, i);
    lemma_ws_span(s, i);
    let core = lemma_alternative_tree(s, start, depth);
    let e = alternative_at(s, start, depth).unwrap().0;
    lemma_ws_span(s, e);
    let x = Syntax::Padded(s.subrange(i, start), Box::new(core), s.subrange(e, ws_end(s, e)));
    assert(render(x) =~= s.subrange(i, ws_end(s, e)));
    x
}

/// The tree of an array that is read.
pub proof fn lemma_array_tree(s: Seq<char>, i: int, depth: nat) -> (x: Syntax)
    requires
        0 <= i <= s.len(),
        array_at(s, i, depth) is Ok,
    ensures
        array_at(s, i, depth) matches Ok((end, v)) && i < end <= s.len() && valid(x)
            && within_limits(x) && nested_within(x, depth) && render(x) == s.subrange(i, end)
            && meaning(x) == v,
    decreases depth, 1nat, 0nat,
{
    let open = ws_end(s, i);
    let inner = (depth - 1) as nat;
    lemma_ws_span(s, i);
    lemma_spaced_end(s, i, '[');
    lemma_ws_span(s, open + 1);
    let first = ws_end(s, open + 1);
    let trees = lemma_elements_trees(s, open + 1, inner);
    let end = elements_at(s, first, inner).unwrap().0;
    lemma_spaced_end(s, end, ']');
    lemma_ws_span(s, end + 1);
    let gap = if trees.len() == 0 {
        s.subrange(open + 1, first)
    } else {
        Seq::empty()
    };
    let core = Syntax::Array(gap, trees);
    lemma_array_meaning(gap, trees);
    assert(char_at(s, open, '[') && char_at(s, end, ']'));
    if trees.len() > 0 {
        let inside = render(trees[0]) + render_rest(trees, 1);
        assert(render(core) =~= seq!['['] + inside + seq![']']);
    }
    assert(render(core) =~= s.subrange(open, end + 1));
    let x = Syntax::Padded(
        s.subrange(i, open),
        Box::new(core),
        s.subrange(end + 1, ws_end(s, end + 1)),
    );
    assert(render(x) =~= s.subrange(i, ws_end(s, end + 1)));
    assert(valid(core) && within_limits(core) && nested_within(core, depth));
    x
}

/// The trees of the elements that are read after the position `from`.
proof fn lemma_elements_trees(s: Seq<char>, from: int, depth: nat) -> (trees: Seq<Syntax>)
    requires
        0 <= from <= s.len(),
        elements_at(s, ws_end(s, from), depth) is Ok,
    ensures
        elements_at(s, ws_end(s, from), depth) matches Ok((end, items)) && from <= end <= s.len()
            && ws_end(s, end) == end && all_readable(trees, depth) && meanings(trees) == items
            && (trees.len() == 0 ==> end == ws_end(s, from)) && (trees.len() > 0 ==> render(
            trees[0],
        ) + render_rest(trees, 1) == s.subrange(from, end)),
    decreases depth, 5nat, 0nat,
{
    lemma_ws_end(s, from);
    lemma_value_skips_ws(s, from, depth);
    lemma_value_sound(s, from, depth);
    match value_at(s, from, depth) {
        Ok((e, v)) => {
            let head = lemma_value_tree(s, from, depth);
            let tail = lemma_more_trees(s, e, depth, seq![v]);
            let trees = seq![head] + tail;
            let end = more_elements(s, e, depth, seq![v]).unwrap().0;
            lemma_render_rest_shift(head, tail, 0);
            assert(meanings(trees) =~= seq![v] + meanings(tail));
            assert(render(trees[0]) + render_rest(trees, 1) =~= s.subrange(from, end));
            trees
        },
        Err(_) => {
            let trees = Seq::<Syntax>::empty();
            assert(meanings(trees) =~= Seq::<Json>::empty());
            trees
        },
    }
}

/// The trees of the elements that are read after the first, from the end
/// `i` of the element before them on.
proof fn lemma_more_trees(s: Seq<char>, i: int, depth: nat, found: Seq<Json>) -> (trees: Seq<
    Syntax,
>)
    requires
        0 <= i <= s.len(),
        ws_end(s, i) == i,
        more_elements(s, i, depth, found) is Ok,
    ensures
        more_elements(s, i, depth, found) matches Ok((end, items)) && i <= end <= s.len()
            && ws_end(s, end) == end && all_readable(trees, depth) && items == found + meanings(
            trees,
        ) && render_rest(trees, 0) == s.subrange(i, end),
    decreases depth, 4nat, s.len() - i,
{
    lemma_spaced_end(s, i, ',');
    let none = Seq::<Syntax>::empty();
    match spaced_end(s, i, ',') {
        Some(next) => {
            lemma_value_skips_ws(s, i + 1, depth);
            lemma_value_sound(s, i + 1, depth);
            match value_at(s, i + 1, depth) {
                Ok((e, v)) => {
                    let head = lemma_value_tree(s, i + 1, depth);
                    let tail = lemma_more_trees(s, e, depth, found.push(v));
                    let trees = seq![head] + tail;
                    let end = more_elements(s, e, depth, found.push(v)).unwrap().0;
                    lemma_render_rest_shift(head, tail, 0);
                    assert(found.push(v) + meanings(tail) =~= found + meanings(trees));
                    assert(render_rest(trees, 0) =~= s.subrange(i, end));
                    trees
                },
                Err(_) => {
                    assert(found + meanings(none) =~= found);
                    assert(render_rest(none, 0) =~= s.subrange(i, i));
                    none
                },
            }
        },
        None => {
            assert(found + meanings(none) =~= found);
            assert(render_rest(none, 0) =~= s.subrange(i, i));
            none
        },
    }
}

/// The tree of an object that is read.
pub proof fn lemma_object_tree(s: Seq<char>, i: int, depth: nat) -> (x: Syntax)
    requires
        0 <= i <= s.len(),
        object_at(s, i, depth) is Ok,
    ensures
        object_at(s, i, depth) matches Ok((end, v)) && i < end <= s.len() && valid(x)
            && within_limits(x) && nested_within(x, depth) && render(x) == s.subrange(i, end)
            && meaning(x) == v,
    decreases depth, 1nat, 0nat,
{
    let open = ws_end(s, i);
    let inner = (depth - 1) as nat;
    lemma_ws_span(s, i);
    lemma_spaced_end(s, i, '{');
    lemma_ws_span(s, open + 1);
    let first = ws_end(s, open + 1);
    let entries = lemma_members_entries(s, open + 1, inner);
    let end = members_at(s, first, inner).unwrap().0;
    lemma_spaced_end(s, end, '}');
    lemma_ws_span(s, end + 1);
    let gap = if entries.len() == 0 {
        s.subrange(open + 1, first)
    } else {
        Seq::empty()
    };
    let core = Syntax::Object(gap, entries);
    lemma_object_meaning(gap, entries);
    assert(char_at(s, open, '{') && char_at(s, end, '}'));
    if entries.len() > 0 {
        let inside = render_entry(entries[0]) + render_entries(entries, 1);
        assert(render(core) =~= seq!['{'] + inside + seq!['}']);
    }
    assert(render(core) =~= s.subrange(open, end + 1));
    let x = Syntax::Padded(
        s.subrange(i, open),
        Box::new(core),
        s.subrange(end + 1, ws_end(s, end + 1)),
    );
    assert(render(x) =~= s.subrange(i, ws_end(s, end + 1)));
    assert(valid(core) && within_limits(core) && nested_within(core, depth));
    x
}

/// The entry of a member that is read after the position `from`.
proof fn lemma_member_entry(s: Seq<char>, from: int, depth: nat) -> (e: Entry)
    requires
        0 <= from <= s.len(),
        member_at(s, ws_end(s, from), depth) is Ok,
    ensures
        member_at(s, ws_end(s, from), depth) matches Ok((end, m)) && from < end <= s.len()
            && ws_end(s, end) == end && all_readable_entries(seq![e], depth) && render_entry(e)
            == s.subrange(from, end) && m == (Member {
            key: decoded(e.key).unwrap(),
            value: meaning(e.value),
        }),
    decreases depth, 4nat, 0nat,
{
    let key_at = ws_end(s, from);
    lemma_ws_span(s, from);
    lemma_string_sound(s, key_at);
    let body_end = string_body_end(s, key_at + 1);
    let key_end = body_end + 1;
    let body = s.subrange(key_at + 1, body_end);
    lemma_string_body_end(s, key_at + 1);
    lemma_body_span(s, key_at + 1, body_end, key_at + 1);
    lemma_ws_span(s, key_end);
    lemma_spaced_end(s, key_end, ':');
    let colon = ws_end(s, key_end);
    lemma_value_skips_ws(s, colon + 1, depth);
    lemma_value_sound(s, colon + 1, depth);
    let value = lemma_value_tree(s, colon + 1, depth);
    let end = value_at(s, colon + 1, depth).unwrap().0;
    let e = Entry {
        before: s.subrange(from, key_at),
        key: body,
        between: s.subrange(key_end, colon),
        value,
    };
    assert(render_entry(e) =~= s.subrange(from, end));
    e
}

/// The entries of the members that are read after the position `from`.
proof fn lemma_members_entries(s: Seq<char>, from: int, depth: nat) -> (entries: Seq<Entry>)
    requires
        0 <= from <= s.len(),
        members_at(s, ws_end(s, from), depth) is Ok,
    ensures
        members_at(s, ws_end(s, from), depth) matches Ok((end, members)) && from <= end
            <= s.len() && ws_end(s, end) == end && all_readable_entries(entries, depth)
            && entry_meanings(entries) == members && (entries.len() == 0 ==> end == ws_end(
            s,
            from,
        )) && (entries.len() > 0 ==> render_entry(entries[0]) + render_entries(entries, 1)
            == s.subrange(from, end)),
    decreases depth, 6nat, 0nat,
{
    lemma_ws_end(s, from);
    match member_at(s, ws_end(s, from), depth) {
        Ok((e, m)) => {
            let head = lemma_member_entry(s, from, depth);
            let tail = lemma_more_entries(s, e, depth, seq![m]);
            let entries = seq![head] + tail;
            let end = more_members(s, e, depth, seq![m]).unwrap().0;
            lemma_render_entries_shift(head, tail, 0);
            assert(entry_meanings(entries) =~= seq![m] + entry_meanings(tail));
            assert(render_entry(entries[0]) + render_entries(entries, 1) =~= s.subrange(
                from,
                end,
            ));
            assert(all_readable_entries(entries, depth)) by {
                assert forall|k: int| 0 <= k < entries.len() implies {
                    &&& all_space((#[trigger] entries[k]).before)
                    &&& is_string_body(entries[k].key)
                    &&& all_space(entries[k].between)
                    &&& valid(entries[k].value)
                    &&& decoded(entries[k].key) is Some
                    &&& within_limits(entries[k].value)
                    &&& nested_within(entries[k].value, depth)
                } by {
                    if k == 0 {
                        assert(seq![head][0] == head);
                    } else {
                        assert(entries[k] == tail[k - 1]);
                    }
                }
            }
            entries
        },
        Err(_) => {
            let entries = Seq::<Entry>::empty();
            assert(entry_meanings(entries) =~= Seq::<Member>::empty());
            entries
        },
    }
}

/// The entries of the members that are read after the first, from the end
/// `i` of the member before them on.
proof fn lemma_more_entries(s: Seq<char>, i: int, depth: nat, found: Seq<Member>) -> (entries:
    Seq<Entry>)
    requires
        0 <= i <= s.len(),
        ws_end(s, i) == i,
        more_members(s, i, depth, found) is Ok,
    ensures
        more_members(s, i, depth, found) matches Ok((end, members)) && i <= end <= s.len()
            && ws_end(s, end) == end && all_readable_entries(entries, depth) && members == found
            + entry_meanings(entries) && render_entries(entries, 0) == s.subrange(i, end),
    decreases depth, 5nat, s.len() - i,
{
    lemma_spaced_end(s, i, ',');
    let none = Seq::<Entry>::empty();
    match spaced_end(s, i, ',') {
        Some(next) => {
            match member_at(s, next, depth) {
                Ok((e, m)) => {
                    let head = lemma_member_entry(s, i + 1, depth);
                    let tail = lemma_more_entries(s, e, depth, found.push(m));
                    let entries = seq![head] + tail;
                    let end = more_members(s, e, depth, found.push(m)).unwrap().0;
                    lemma_render_entries_shift(head, tail, 0);
                    assert(found.push(m) + entry_meanings(tail) =~= found + entry_meanings(
                        entries,
                    ));
                    assert(render_entries(entries, 0) =~= s.subrange(i, end));
                    assert(all_readable_entries(entries, depth)) by {
                        assert forall|k: int| 0 <= k < entries.len() implies {
                            &&& all_space((#[trigger] entries[k]).before)
                            &&& is_string_body(entries[k].key)
                            &&& all_space(entries[k].between)
                            &&& valid(entries[k].value)
                            &&& decoded(entries[k].key) is Some
                            &&& within_limits(entries[k].value)
                            &&& nested_within(entries[k].value, depth)
                        } by {
                            if k == 0 {
                                assert(seq![head][0] == head);
                            } else {
                                assert(entries[k] == tail[k - 1]);
                            }
                        }
                    }
                    entries
                },
                Err(_) => {
                    assert(found + entry_meanings(none) =~= found);
                    assert(render_entries(none, 0) =~= s.subrange(i, i));
                    none
                },
            }
        },
        None => {
            assert(found + entry_meanings(none) =~= found);
            assert(render_entries(none, 0) =~= s.subrange(i, i));
            none
        },
    }
}

/// Whatever parses as a document is a valid JSON text within the limits: a
/// valid tree spells the whole text and writes the value that was read.
pub proof fn lemma_parsed_document_is_valid(s: Seq<char>) -> (x: Syntax)
    requires
        document(s) is Ok,
    ensures
        readable(x),
        render(x) == s,
        document(s) == Ok::<Json, JSONParseError>(meaning(x)),
{
    let x = lemma_value_tree(s, 0, MAX_DEPTH as nat);
    assert(s.subrange(0, s.len() as int) =~= s);
    x
}

} // verus!
